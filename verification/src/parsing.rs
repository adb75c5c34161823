use vstd::prelude::*;

verus! {

use crate::error::CalcError;
use crate::lexeme::{Token, TokenModel};

/// A parsed expression: a number literal leaf, a signed subexpression, or
/// an operator applied to two subexpressions.  Each node owns its children
/// exclusively; the tree is torn down with its root.
#[derive(Debug)]
pub enum Expression {
    Number(String),
    Unary { op: Token, expr: Box<Expression> },
    Binary { op: Token, left: Box<Expression>, right: Box<Expression> },
}

/// The mathematical shape of an expression tree.
pub enum ExprModel {
    Number(Seq<char>),
    Unary { op: TokenModel, expr: Box<ExprModel> },
    Binary { op: TokenModel, left: Box<ExprModel>, right: Box<ExprModel> },
}

/// The model of an expression tree.
pub open spec fn expr_view(e: &Expression) -> ExprModel
    decreases e,
{
    match e {
        Expression::Number(s) => ExprModel::Number(s@),
        Expression::Unary { op, expr } => ExprModel::Unary {
            op: op@,
            expr: Box::new(expr_view(expr)),
        },
        Expression::Binary { op, left, right } => ExprModel::Binary {
            op: op@,
            left: Box::new(expr_view(left)),
            right: Box::new(expr_view(right)),
        },
    }
}

impl View for Expression {
    type V = ExprModel;

    open spec fn view(&self) -> ExprModel {
        expr_view(self)
    }
}

/// A tree the parser can produce: every unary node carries a sign and
/// every binary node carries one of the five operators.
pub open spec fn wf_expr(e: ExprModel) -> bool
    decreases e,
{
    match e {
        ExprModel::Number(_) => true,
        ExprModel::Unary { op, expr } => (op is Plus || op is Minus) && wf_expr(*expr),
        ExprModel::Binary { op, left, right } => (op is Plus || op is Minus || op is Multiply
            || op is Divide || op is Power) && wf_expr(*left) && wf_expr(*right),
    }
}

/// The fuel left after moving from position `i` to position `j`: fuel is
/// spent one unit per consumed token, so it mirrors how many tokens are
/// still ahead.  The clamp only serves the termination measure; wherever
/// the grammar functions below are applied, `i < j <= f + i` holds and the
/// subtraction is exact.
pub open spec fn fuel_after(f: nat, i: int, j: int) -> nat {
    if i < j && j - i <= f {
        (f - (j - i)) as nat
    } else {
        f
    }
}

/// A factor of the grammar: a number leaf, a parenthesized expression
/// closed by its matching parenthesis, or a sign applied to a factor.
/// `Ok` carries the tree and the position just past it.
pub open spec fn spec_factor(ts: Seq<TokenModel>, i: int, f: nat) -> Result<
    (ExprModel, int),
    CalcError,
>
    decreases f, 0nat,
{
    if i < 0 || i >= ts.len() {
        Err(CalcError::UnexpectedEnd)
    } else if f == 0 {
        Err(CalcError::UnexpectedEnd)
    } else {
        match ts[i] {
            TokenModel::Number(s) => Ok((ExprModel::Number(s), i + 1)),
            TokenModel::OpenParenthesis => match spec_expr(ts, i + 1, (f - 1) as nat) {
                Err(err) => Err(err),
                Ok((e, j)) => {
                    if j < 0 || j >= ts.len() {
                        Err(CalcError::UnexpectedEnd)
                    } else if ts[j] is CloseParenthesis {
                        Ok((e, j + 1))
                    } else {
                        Err(CalcError::UnexpectedToken)
                    }
                },
            },
            TokenModel::Plus => match spec_factor(ts, i + 1, (f - 1) as nat) {
                Err(err) => Err(err),
                Ok((e, j)) => Ok(
                    (ExprModel::Unary { op: TokenModel::Plus, expr: Box::new(e) }, j),
                ),
            },
            TokenModel::Minus => match spec_factor(ts, i + 1, (f - 1) as nat) {
                Err(err) => Err(err),
                Ok((e, j)) => Ok(
                    (ExprModel::Unary { op: TokenModel::Minus, expr: Box::new(e) }, j),
                ),
            },
            _ => Err(CalcError::UnexpectedToken),
        }
    }
}

/// The left-associative exponentiation chain continuing `node` at `i`.
pub open spec fn spec_power_chain(ts: Seq<TokenModel>, i: int, node: ExprModel, f: nat) -> Result<
    (ExprModel, int),
    CalcError,
>
    decreases f, 1nat,
{
    if 0 <= i < ts.len() && ts[i] is Power {
        if f == 0 {
            Err(CalcError::UnexpectedEnd)
        } else {
            match spec_factor(ts, i + 1, (f - 1) as nat) {
                Err(err) => Err(err),
                Ok((rhs, j)) => spec_power_chain(
                    ts,
                    j,
                    ExprModel::Binary {
                        op: TokenModel::Power,
                        left: Box::new(node),
                        right: Box::new(rhs),
                    },
                    fuel_after((f - 1) as nat, i + 1, j),
                ),
            }
        }
    } else {
        Ok((node, i))
    }
}

/// An exponentiation term: a factor followed by its power chain.
pub open spec fn spec_power_term(ts: Seq<TokenModel>, i: int, f: nat) -> Result<
    (ExprModel, int),
    CalcError,
>
    decreases f, 2nat,
{
    match spec_factor(ts, i, f) {
        Err(err) => Err(err),
        Ok((e, j)) => spec_power_chain(ts, j, e, fuel_after(f, i, j)),
    }
}

/// The left-associative product and quotient chain continuing `node`.
pub open spec fn spec_term_chain(ts: Seq<TokenModel>, i: int, node: ExprModel, f: nat) -> Result<
    (ExprModel, int),
    CalcError,
>
    decreases f, 3nat,
{
    if 0 <= i < ts.len() && (ts[i] is Multiply || ts[i] is Divide) {
        if f == 0 {
            Err(CalcError::UnexpectedEnd)
        } else {
            match spec_power_term(ts, i + 1, (f - 1) as nat) {
                Err(err) => Err(err),
                Ok((rhs, j)) => spec_term_chain(
                    ts,
                    j,
                    ExprModel::Binary { op: ts[i], left: Box::new(node), right: Box::new(rhs) },
                    fuel_after((f - 1) as nat, i + 1, j),
                ),
            }
        }
    } else {
        Ok((node, i))
    }
}

/// A term: an exponentiation term followed by its product and quotient
/// chain.
pub open spec fn spec_term(ts: Seq<TokenModel>, i: int, f: nat) -> Result<
    (ExprModel, int),
    CalcError,
>
    decreases f, 4nat,
{
    match spec_power_term(ts, i, f) {
        Err(err) => Err(err),
        Ok((e, j)) => spec_term_chain(ts, j, e, fuel_after(f, i, j)),
    }
}

/// The left-associative sum and difference chain continuing `node`.
pub open spec fn spec_expr_chain(ts: Seq<TokenModel>, i: int, node: ExprModel, f: nat) -> Result<
    (ExprModel, int),
    CalcError,
>
    decreases f, 5nat,
{
    if 0 <= i < ts.len() && (ts[i] is Plus || ts[i] is Minus) {
        if f == 0 {
            Err(CalcError::UnexpectedEnd)
        } else {
            match spec_term(ts, i + 1, (f - 1) as nat) {
                Err(err) => Err(err),
                Ok((rhs, j)) => spec_expr_chain(
                    ts,
                    j,
                    ExprModel::Binary { op: ts[i], left: Box::new(node), right: Box::new(rhs) },
                    fuel_after((f - 1) as nat, i + 1, j),
                ),
            }
        }
    } else {
        Ok((node, i))
    }
}

/// An expression at the lowest precedence level: a term followed by its
/// sum and difference chain.
pub open spec fn spec_expr(ts: Seq<TokenModel>, i: int, f: nat) -> Result<
    (ExprModel, int),
    CalcError,
>
    decreases f, 6nat,
{
    match spec_term(ts, i, f) {
        Err(err) => Err(err),
        Ok((e, j)) => spec_expr_chain(ts, j, e, fuel_after(f, i, j)),
    }
}

/// What parsing a whole token stream returns: the expression of the
/// grammar — unary sign over exponentiation over product and quotient over
/// sum and difference, the multiplicative and additive chains
/// left-associative, parenthesized groups recursing to the lowest level,
/// number leaves keeping their literal text — provided every token is
/// consumed.  Tokens left over are an unexpected token; tokens running out
/// mid-expression are an unexpected end.
pub open spec fn spec_parse(ts: Seq<TokenModel>) -> Result<ExprModel, CalcError> {
    match spec_expr(ts, 0, (ts.len() + 1) as nat) {
        Err(err) => Err(err),
        Ok((e, j)) => {
            if j == ts.len() {
                Ok(e)
            } else {
                Err(CalcError::UnexpectedToken)
            }
        },
    }
}

/// Recursive-descent parser with the usual precedence climbing: unary sign
/// over exponentiation over product and quotient over sum and difference,
/// a parenthesized subexpression recursing to the lowest level.
pub struct Parser {
    pub position: usize,
    pub token_stream: Vec<Token>,
}

impl Parser {
    /// A parser at the start of the given token stream.
    pub fn new(token_stream: Vec<Token>) -> (p: Parser)
        ensures
            p.token_stream@ == token_stream@,
            p.position == 0,
    {
        Parser { position: 0, token_stream }
    }

    /// Parses the whole stream to one expression, exactly as `spec_parse`
    /// states it: every token must be consumed — trailing tokens are a
    /// syntax error, never silently dropped — and a successful parse
    /// yields the grammar's tree for the stream.
    pub fn parse(&mut self) -> (r: Result<Expression, CalcError>)
        requires
            old(self).position == 0,
        ensures
            final (self).token_stream@ == old(self).token_stream@,
            ({
                let ts = old(self).token_stream.deep_view();
                match spec_parse(ts) {
                    Ok(e) => r matches Ok(x) && x@ == e && wf_expr(e),
                    Err(err) => r matches Err(e2) && e2 == err,
                }
            }),
    {
        let ghost ts = self.token_stream.deep_view();
        proof {
            assert(ts.len() == self.token_stream@.len());
        }
        let e = match self.expr() {
            Ok(e) => e,
            Err(err) => {
                return Err(err);
            },
        };
        if self.position < self.token_stream.len() {
            return Err(CalcError::UnexpectedToken);
        }
        Ok(e)
    }

    /// Whether the current token is the exponentiation operator.
    fn at_power(&self) -> (r: bool)
        ensures
            r == (self.position < self.token_stream@.len()
                && self.token_stream@[self.position as int]@ is Power),
    {
        self.position < self.token_stream.len() && (match &self.token_stream[self.position] {
            Token::Power => true,
            _ => false,
        })
    }

    /// Whether the current token is a product or quotient operator.
    fn at_mul_div(&self) -> (r: bool)
        ensures
            r == (self.position < self.token_stream@.len() && (self.token_stream@[self.position as int]@ is Multiply
                || self.token_stream@[self.position as int]@ is Divide)),
    {
        self.position < self.token_stream.len() && (match &self.token_stream[self.position] {
            Token::Multiply | Token::Divide => true,
            _ => false,
        })
    }

    /// Whether the current token is a sum or difference operator.
    fn at_add_sub(&self) -> (r: bool)
        ensures
            r == (self.position < self.token_stream@.len() && (self.token_stream@[self.position as int]@ is Plus
                || self.token_stream@[self.position as int]@ is Minus)),
    {
        self.position < self.token_stream.len() && (match &self.token_stream[self.position] {
            Token::Plus | Token::Minus => true,
            _ => false,
        })
    }

    /// A factor: a number, a parenthesized expression, or a signed factor.
    fn factor(&mut self) -> (r: Result<Expression, CalcError>)
        requires
            old(self).position <= old(self).token_stream@.len(),
        ensures
            final (self).token_stream@ == old(self).token_stream@,
            old(self).position <= final (self).position <= final (self).token_stream@.len(),
            r matches Ok(e) ==> wf_expr(e@) && old(self).position < final (self).position,
            ({
                let ts = old(self).token_stream.deep_view();
                let f0 = (ts.len() - old(self).position + 1) as nat;
                match spec_factor(ts, old(self).position as int, f0) {
                    Ok(p) => r matches Ok(e) && e@ == p.0 && final (self).position == p.1,
                    Err(err) => r matches Err(e2) && e2 == err,
                }
            }),
        decreases old(self).token_stream@.len() - old(self).position, 0nat,
    {
        let ghost ts = self.token_stream.deep_view();
        let ghost i0 = self.position as int;
        proof {
            assert(ts.len() == self.token_stream@.len());
        }
        if self.position >= self.token_stream.len() {
            return Err(CalcError::UnexpectedEnd);
        }
        proof {
            assert(ts[i0] == self.token_stream@[i0]@);
        }
        let is_open = match &self.token_stream[self.position] {
            Token::OpenParenthesis => true,
            _ => false,
        };
        if is_open {
            self.position = self.position + 1;
            let e = match self.expr() {
                Ok(e) => e,
                Err(err) => {
                    return Err(err);
                },
            };
            if self.position >= self.token_stream.len() {
                return Err(CalcError::UnexpectedEnd);
            }
            proof {
                assert(ts[self.position as int] == self.token_stream@[self.position as int]@);
            }
            let is_close = match &self.token_stream[self.position] {
                Token::CloseParenthesis => true,
                _ => false,
            };
            if !is_close {
                return Err(CalcError::UnexpectedToken);
            }
            self.position = self.position + 1;
            return Ok(e);
        }
        match &self.token_stream[self.position] {
            Token::Number(n) => {
                let text = n.clone();
                self.position = self.position + 1;
                Ok(Expression::Number(text))
            },
            Token::Plus => {
                self.position = self.position + 1;
                let e = match self.factor() {
                    Ok(e) => e,
                    Err(err) => {
                        return Err(err);
                    },
                };
                Ok(Expression::Unary { op: Token::Plus, expr: Box::new(e) })
            },
            Token::Minus => {
                self.position = self.position + 1;
                let e = match self.factor() {
                    Ok(e) => e,
                    Err(err) => {
                        return Err(err);
                    },
                };
                Ok(Expression::Unary { op: Token::Minus, expr: Box::new(e) })
            },
            _ => Err(CalcError::UnexpectedToken),
        }
    }

    /// An exponentiation chain of factors.
    fn power_term(&mut self) -> (r: Result<Expression, CalcError>)
        requires
            old(self).position <= old(self).token_stream@.len(),
        ensures
            final (self).token_stream@ == old(self).token_stream@,
            old(self).position <= final (self).position <= final (self).token_stream@.len(),
            r matches Ok(e) ==> wf_expr(e@) && old(self).position < final (self).position,
            ({
                let ts = old(self).token_stream.deep_view();
                let f0 = (ts.len() - old(self).position + 1) as nat;
                match spec_power_term(ts, old(self).position as int, f0) {
                    Ok(p) => r matches Ok(e) && e@ == p.0 && final (self).position == p.1,
                    Err(err) => r matches Err(e2) && e2 == err,
                }
            }),
        decreases old(self).token_stream@.len() - old(self).position, 2nat,
    {
        let ghost ts = self.token_stream.deep_view();
        let ghost i0 = self.position as int;
        let ghost f0 = (ts.len() - i0 + 1) as nat;
        proof {
            assert(ts.len() == self.token_stream@.len());
        }
        let mut node = match self.factor() {
            Ok(e) => e,
            Err(err) => {
                return Err(err);
            },
        };
        proof {
            assert(fuel_after(f0, i0, self.position as int) == (ts.len() - self.position
                + 1) as nat);
        }
        while self.at_power()
            invariant
                self.token_stream@ == old(self).token_stream@,
                ts == self.token_stream.deep_view(),
                ts.len() == self.token_stream@.len(),
                i0 == old(self).position,
                f0 == (ts.len() - i0 + 1) as nat,
                old(self).position < self.position <= self.token_stream@.len(),
                wf_expr(node@),
                spec_power_term(ts, i0, f0) == spec_power_chain(
                    ts,
                    self.position as int,
                    node@,
                    (ts.len() - self.position + 1) as nat,
                ),
            decreases self.token_stream@.len() - self.position,
        {
            proof {
                assert(ts[self.position as int] == self.token_stream@[self.position as int]@);
            }
            let n = self.token_stream.len();
            assert(self.position < n);
            let ghost p = self.position as int;
            self.position = self.position + 1;
            let rhs = match self.factor() {
                Ok(e) => e,
                Err(err) => {
                    return Err(err);
                },
            };
            proof {
                assert(fuel_after((ts.len() - p) as nat, p + 1, self.position as int) == (ts.len()
                    - self.position + 1) as nat);
            }
            node = Expression::Binary { op: Token::Power, left: Box::new(node), right: Box::new(rhs) };
        }
        Ok(node)
    }

    /// A product or quotient chain of exponentiation terms.
    fn term(&mut self) -> (r: Result<Expression, CalcError>)
        requires
            old(self).position <= old(self).token_stream@.len(),
        ensures
            final (self).token_stream@ == old(self).token_stream@,
            old(self).position <= final (self).position <= final (self).token_stream@.len(),
            r matches Ok(e) ==> wf_expr(e@) && old(self).position < final (self).position,
            ({
                let ts = old(self).token_stream.deep_view();
                let f0 = (ts.len() - old(self).position + 1) as nat;
                match spec_term(ts, old(self).position as int, f0) {
                    Ok(p) => r matches Ok(e) && e@ == p.0 && final (self).position == p.1,
                    Err(err) => r matches Err(e2) && e2 == err,
                }
            }),
        decreases old(self).token_stream@.len() - old(self).position, 4nat,
    {
        let ghost ts = self.token_stream.deep_view();
        let ghost i0 = self.position as int;
        let ghost f0 = (ts.len() - i0 + 1) as nat;
        proof {
            assert(ts.len() == self.token_stream@.len());
        }
        let mut node = match self.power_term() {
            Ok(e) => e,
            Err(err) => {
                return Err(err);
            },
        };
        proof {
            assert(fuel_after(f0, i0, self.position as int) == (ts.len() - self.position
                + 1) as nat);
        }
        while self.at_mul_div()
            invariant
                self.token_stream@ == old(self).token_stream@,
                ts == self.token_stream.deep_view(),
                ts.len() == self.token_stream@.len(),
                i0 == old(self).position,
                f0 == (ts.len() - i0 + 1) as nat,
                old(self).position < self.position <= self.token_stream@.len(),
                wf_expr(node@),
                spec_term(ts, i0, f0) == spec_term_chain(
                    ts,
                    self.position as int,
                    node@,
                    (ts.len() - self.position + 1) as nat,
                ),
            decreases self.token_stream@.len() - self.position,
        {
            proof {
                assert(ts[self.position as int] == self.token_stream@[self.position as int]@);
            }
            let op = match &self.token_stream[self.position] {
                Token::Multiply => Token::Multiply,
                _ => Token::Divide,
            };
            let n = self.token_stream.len();
            assert(self.position < n);
            let ghost p = self.position as int;
            self.position = self.position + 1;
            let rhs = match self.power_term() {
                Ok(e) => e,
                Err(err) => {
                    return Err(err);
                },
            };
            proof {
                assert(fuel_after((ts.len() - p) as nat, p + 1, self.position as int) == (ts.len()
                    - self.position + 1) as nat);
            }
            node = Expression::Binary { op, left: Box::new(node), right: Box::new(rhs) };
        }
        Ok(node)
    }

    /// A sum or difference chain of terms: the lowest precedence level.
    fn expr(&mut self) -> (r: Result<Expression, CalcError>)
        requires
            old(self).position <= old(self).token_stream@.len(),
        ensures
            final (self).token_stream@ == old(self).token_stream@,
            old(self).position <= final (self).position <= final (self).token_stream@.len(),
            r matches Ok(e) ==> wf_expr(e@) && old(self).position < final (self).position,
            ({
                let ts = old(self).token_stream.deep_view();
                let f0 = (ts.len() - old(self).position + 1) as nat;
                match spec_expr(ts, old(self).position as int, f0) {
                    Ok(p) => r matches Ok(e) && e@ == p.0 && final (self).position == p.1,
                    Err(err) => r matches Err(e2) && e2 == err,
                }
            }),
        decreases old(self).token_stream@.len() - old(self).position, 6nat,
    {
        let ghost ts = self.token_stream.deep_view();
        let ghost i0 = self.position as int;
        let ghost f0 = (ts.len() - i0 + 1) as nat;
        proof {
            assert(ts.len() == self.token_stream@.len());
        }
        let mut node = match self.term() {
            Ok(e) => e,
            Err(err) => {
                return Err(err);
            },
        };
        proof {
            assert(fuel_after(f0, i0, self.position as int) == (ts.len() - self.position
                + 1) as nat);
        }
        while self.at_add_sub()
            invariant
                self.token_stream@ == old(self).token_stream@,
                ts == self.token_stream.deep_view(),
                ts.len() == self.token_stream@.len(),
                i0 == old(self).position,
                f0 == (ts.len() - i0 + 1) as nat,
                old(self).position < self.position <= self.token_stream@.len(),
                wf_expr(node@),
                spec_expr(ts, i0, f0) == spec_expr_chain(
                    ts,
                    self.position as int,
                    node@,
                    (ts.len() - self.position + 1) as nat,
                ),
            decreases self.token_stream@.len() - self.position,
        {
            proof {
                assert(ts[self.position as int] == self.token_stream@[self.position as int]@);
            }
            let op = match &self.token_stream[self.position] {
                Token::Plus => Token::Plus,
                _ => Token::Minus,
            };
            let n = self.token_stream.len();
            assert(self.position < n);
            let ghost p = self.position as int;
            self.position = self.position + 1;
            let rhs = match self.term() {
                Ok(e) => e,
                Err(err) => {
                    return Err(err);
                },
            };
            proof {
                assert(fuel_after((ts.len() - p) as nat, p + 1, self.position as int) == (ts.len()
                    - self.position + 1) as nat);
            }
            node = Expression::Binary { op, left: Box::new(node), right: Box::new(rhs) };
        }
        Ok(node)
    }
}

} // verus!
