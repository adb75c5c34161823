use vstd::prelude::*;

verus! {

use crate::decimal::{Decimal, spec_add, spec_sub, spec_neg, spec_mul, spec_div, spec_pow};
use crate::error::CalcError;
use crate::lexeme::TokenModel;
use crate::parsing::{Expression, ExprModel};
use crate::text::spec_from_literal;

/// What evaluating a tree returns: a leaf is its literal's value; a sign
/// applies to the subexpression's value; a binary node applies its exact
/// decimal operator to the values of its children, the left one evaluated
/// first; any failure along the way aborts the evaluation with that
/// report.  An operator that no parse can produce is a malformed tree.
pub open spec fn spec_eval(e: ExprModel) -> Result<Decimal, CalcError>
    decreases e,
{
    match e {
        ExprModel::Number(s) => spec_from_literal(s),
        ExprModel::Unary { op, expr } => match op {
            TokenModel::Plus => spec_eval(*expr),
            TokenModel::Minus => match spec_eval(*expr) {
                Ok(d) => spec_neg(d),
                Err(err) => Err(err),
            },
            _ => Err(CalcError::MalformedTree),
        },
        ExprModel::Binary { op, left, right } => match op {
            TokenModel::Plus | TokenModel::Minus | TokenModel::Multiply | TokenModel::Divide
                | TokenModel::Power => match (spec_eval(*left), spec_eval(*right)) {
                (Ok(a), Ok(b)) => match op {
                    TokenModel::Plus => spec_add(a, b),
                    TokenModel::Minus => spec_sub(a, b),
                    TokenModel::Multiply => spec_mul(a, b),
                    TokenModel::Divide => spec_div(a, b),
                    _ => spec_pow(a, b),
                },
                (Err(err), _) => Err(err),
                (Ok(_), Err(err)) => Err(err),
            },
            _ => Err(CalcError::MalformedTree),
        },
    }
}

/// Reduces an expression tree to a single decimal by structural recursion,
/// mapping each node to the matching exact decimal operation.
pub fn eval(expr: Expression) -> (r: Result<Decimal, CalcError>)
    ensures
        r == spec_eval(expr@),
    decreases expr,
{
    match expr {
        Expression::Number(n) => Decimal::from_literal(n.as_str()),
        Expression::Unary { op, expr } => match op {
            crate::lexeme::Token::Plus => eval(*expr),
            crate::lexeme::Token::Minus => match eval(*expr) {
                Ok(d) => d.neg(),
                Err(err) => Err(err),
            },
            _ => Err(CalcError::MalformedTree),
        },
        Expression::Binary { op, left, right } => {
            let lv = eval(*left);
            match op {
                crate::lexeme::Token::Plus => match (lv, eval(*right)) {
                    (Ok(a), Ok(b)) => a.add(&b),
                    (Err(err), _) => Err(err),
                    (Ok(_), Err(err)) => Err(err),
                },
                crate::lexeme::Token::Minus => match (lv, eval(*right)) {
                    (Ok(a), Ok(b)) => a.sub(&b),
                    (Err(err), _) => Err(err),
                    (Ok(_), Err(err)) => Err(err),
                },
                crate::lexeme::Token::Multiply => match (lv, eval(*right)) {
                    (Ok(a), Ok(b)) => a.mul(&b),
                    (Err(err), _) => Err(err),
                    (Ok(_), Err(err)) => Err(err),
                },
                crate::lexeme::Token::Divide => match (lv, eval(*right)) {
                    (Ok(a), Ok(b)) => a.div(&b),
                    (Err(err), _) => Err(err),
                    (Ok(_), Err(err)) => Err(err),
                },
                crate::lexeme::Token::Power => match (lv, eval(*right)) {
                    (Ok(a), Ok(b)) => a.pow(&b),
                    (Err(err), _) => Err(err),
                    (Ok(_), Err(err)) => Err(err),
                },
                _ => Err(CalcError::MalformedTree),
            }
        },
    }
}

} // verus!
