pub mod decimal;
pub mod error;
pub mod interpret;
pub mod lexeme;
pub mod parsing;
pub mod text;

use vstd::prelude::*;

verus! {

use crate::decimal::Decimal;
use crate::error::CalcError;
use crate::interpret::{eval, spec_eval};
use crate::lexeme::{get_tokens, show_tokens, spec_tokens, spec_show_tokens, spec_token_text};
use crate::parsing::{Parser, Expression, ExprModel, spec_parse};
use crate::text::spec_format;

/// The sentinel text that any failed calculation is reported as, so that
/// one bad input never takes down a long-lived caller.
pub open spec fn error_text() -> Seq<char> {
    "@error"@
}

/// The error sentinel as an owned string.
fn error_string() -> (r: String)
    ensures
        r@ == error_text(),
{
    String::from_str("@error")
}

/// What the whole pipeline computes on an expression string: the token
/// sequence, its parse, and the parse's exact decimal value; the first
/// failure along the way is the result.
pub open spec fn spec_pipeline(s: Seq<char>) -> Result<Decimal, CalcError> {
    match spec_tokens(s, 0) {
        Option::None => Err(CalcError::UnexpectedToken),
        Option::Some(ts) => match spec_parse(ts) {
            Err(err) => Err(err),
            Ok(e) => spec_eval(e),
        },
    }
}

/// Evaluates one expression string: tokenize, parse, evaluate, format the
/// exact decimal result.  Any failure on the way — a foreign character, a
/// syntax error, a bad literal, division by zero, an unsupported exponent
/// or an overflow — yields the error sentinel instead, never a panic and
/// never a partial result.
pub fn calculate(input: String) -> (r: String)
    ensures
        match spec_pipeline(input@) {
            Ok(d) => r@ == spec_format(d),
            Err(_) => r@ == error_text(),
        },
{
    let tokens = match get_tokens(input.as_str()) {
        Ok(t) => t,
        Err(_) => {
            return error_string();
        },
    };
    let mut parser = Parser::new(tokens);
    let e = match parser.parse() {
        Ok(e) => e,
        Err(_) => {
            return error_string();
        },
    };
    match eval(e) {
        Ok(d) => d.format(),
        Err(_) => error_string(),
    }
}

/// Tokenizes one expression string and renders the tokens, one per line;
/// a foreign character yields the error sentinel.
pub fn lexeme(input: String) -> (r: String)
    ensures
        match spec_tokens(input@, 0) {
            Option::Some(ts) => r@ == spec_show_tokens(ts),
            Option::None => r@ == error_text(),
        },
{
    match get_tokens(input.as_str()) {
        Ok(tokens) => show_tokens(&tokens),
        Err(_) => error_string(),
    }
}

/// The rendering of an expression tree: each node spelled out with its
/// operator and children.
pub open spec fn spec_render_expr(e: ExprModel) -> Seq<char>
    decreases e,
{
    match e {
        ExprModel::Number(s) => "Number(\""@ + s + "\")"@,
        ExprModel::Unary { op, expr } => "Unary("@ + spec_token_text(op) + ", "@
            + spec_render_expr(*expr) + ")"@,
        ExprModel::Binary { op, left, right } => "Binary("@ + spec_token_text(op) + ", "@
            + spec_render_expr(*left) + ", "@ + spec_render_expr(*right) + ")"@,
    }
}

/// Renders an expression tree for display.
pub fn render_expr(e: &Expression) -> (r: String)
    ensures
        r@ == spec_render_expr(e@),
    decreases e,
{
    match e {
        Expression::Number(s) => {
            let mut out = String::from_str("Number(\"");
            out.append(s.as_str());
            out.append("\")");
            out
        },
        Expression::Unary { op, expr } => {
            let mut out = String::from_str("Unary(");
            let op_text = crate::lexeme::token_text(op);
            out.append(op_text.as_str());
            out.append(", ");
            let sub = render_expr(expr);
            out.append(sub.as_str());
            out.append(")");
            out
        },
        Expression::Binary { op, left, right } => {
            let mut out = String::from_str("Binary(");
            let op_text = crate::lexeme::token_text(op);
            out.append(op_text.as_str());
            out.append(", ");
            let l = render_expr(left);
            out.append(l.as_str());
            out.append(", ");
            let rr = render_expr(right);
            out.append(rr.as_str());
            out.append(")");
            out
        },
    }
}

/// Parses one expression string and renders its tree; any tokenizing or
/// parsing failure — a foreign character, a syntax error, an empty token
/// stream — yields the error sentinel, never a tree text.
pub fn tree(input: String) -> (r: String)
    ensures
        match spec_tokens(input@, 0) {
            Option::None => r@ == error_text(),
            Option::Some(ts) => match spec_parse(ts) {
                Ok(e) => r@ == spec_render_expr(e),
                Err(_) => r@ == error_text(),
            },
        },
{
    let tokens = match get_tokens(input.as_str()) {
        Ok(t) => t,
        Err(_) => {
            return error_string();
        },
    };
    let mut parser = Parser::new(tokens);
    let e = match parser.parse() {
        Ok(e) => e,
        Err(_) => {
            return error_string();
        },
    };
    render_expr(&e)
}

} // verus!
