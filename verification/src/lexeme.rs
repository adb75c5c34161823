use vstd::prelude::*;

verus! {

use crate::error::CalcError;
use crate::text::is_digit_char;

/// A lexical token.  A number carries its literal text untouched; turning
/// it into a value is deferred to evaluation.
#[derive(Debug, Clone)]
pub enum Token {
    Number(String),
    Plus,
    Minus,
    Multiply,
    Divide,
    Power,
    OpenParenthesis,
    CloseParenthesis,
    Fin,
}

/// The mathematical shape of a token: the same variants, with the number's
/// text as a character sequence.
pub enum TokenModel {
    Number(Seq<char>),
    Plus,
    Minus,
    Multiply,
    Divide,
    Power,
    OpenParenthesis,
    CloseParenthesis,
    Fin,
}

impl View for Token {
    type V = TokenModel;

    open spec fn view(&self) -> TokenModel {
        match self {
            Token::Number(s) => TokenModel::Number(s@),
            Token::Plus => TokenModel::Plus,
            Token::Minus => TokenModel::Minus,
            Token::Multiply => TokenModel::Multiply,
            Token::Divide => TokenModel::Divide,
            Token::Power => TokenModel::Power,
            Token::OpenParenthesis => TokenModel::OpenParenthesis,
            Token::CloseParenthesis => TokenModel::CloseParenthesis,
            Token::Fin => TokenModel::Fin,
        }
    }
}

impl DeepView for Token {
    type V = TokenModel;

    open spec fn deep_view(&self) -> TokenModel {
        self.view()
    }
}

/// Tokens match by kind alone: two numbers are equal whatever their
/// literal text, which is how the parser matches "any number".
pub open spec fn token_kind_eq(a: TokenModel, b: TokenModel) -> bool {
    match (a, b) {
        (TokenModel::Number(_), TokenModel::Number(_)) => true,
        (TokenModel::Plus, TokenModel::Plus) => true,
        (TokenModel::Minus, TokenModel::Minus) => true,
        (TokenModel::Multiply, TokenModel::Multiply) => true,
        (TokenModel::Divide, TokenModel::Divide) => true,
        (TokenModel::Power, TokenModel::Power) => true,
        (TokenModel::OpenParenthesis, TokenModel::OpenParenthesis) => true,
        (TokenModel::CloseParenthesis, TokenModel::CloseParenthesis) => true,
        (TokenModel::Fin, TokenModel::Fin) => true,
        _ => false,
    }
}

impl PartialEq for Token {
    /// Equality by kind: any two number tokens compare equal.
    fn eq(&self, other: &Self) -> (r: bool) {
        match (self, other) {
            (Token::Number(_), Token::Number(_)) => true,
            (Token::Plus, Token::Plus) => true,
            (Token::Minus, Token::Minus) => true,
            (Token::Multiply, Token::Multiply) => true,
            (Token::Divide, Token::Divide) => true,
            (Token::Power, Token::Power) => true,
            (Token::OpenParenthesis, Token::OpenParenthesis) => true,
            (Token::CloseParenthesis, Token::CloseParenthesis) => true,
            (Token::Fin, Token::Fin) => true,
            _ => false,
        }
    }
}

impl vstd::std_specs::cmp::PartialEqSpecImpl for Token {
    open spec fn obeys_eq_spec() -> bool {
        true
    }

    open spec fn eq_spec(&self, other: &Self) -> bool {
        token_kind_eq(self@, other@)
    }
}

/// Characters a number literal is read from: digits and the point.
pub open spec fn is_number_char(c: char) -> bool {
    is_digit_char(c) || c == '.'
}

/// Whitespace that the tokenizer skips.
pub open spec fn is_space_char(c: char) -> bool {
    c == ' ' || c == '\t' || c == '\n'
}

/// The end of the maximal run of number characters that starts at `i`.
pub open spec fn number_end(s: Seq<char>, i: int) -> int
    decreases s.len() - i,
{
    if i < 0 || i >= s.len() {
        i
    } else if is_number_char(s[i]) {
        number_end(s, i + 1)
    } else {
        i
    }
}

/// The run of number characters starting inside the text ends after it
/// began and no later than the text does.
proof fn lemma_number_end_bounds(s: Seq<char>, i: int)
    requires
        0 <= i < s.len(),
        is_number_char(s[i]),
    ensures
        i < number_end(s, i) <= s.len(),
    decreases s.len() - i,
{
    if i + 1 < s.len() && is_number_char(s[i + 1]) {
        lemma_number_end_bounds(s, i + 1);
    } else {
        assert(number_end(s, i + 1) == i + 1);
    }
}

/// What the tokenizer sees at position `i`: the token that starts there
/// (after skipping whitespace) and the position just past it, the end
/// marker at the end of the text, or nothing on a foreign character.
pub open spec fn spec_next_token(s: Seq<char>, i: int) -> Option<(TokenModel, int)>
    decreases s.len() - i,
{
    if i < 0 || i >= s.len() {
        Some((TokenModel::Fin, i))
    } else if is_space_char(s[i]) {
        spec_next_token(s, i + 1)
    } else if is_number_char(s[i]) {
        Some((TokenModel::Number(s.subrange(i, number_end(s, i))), number_end(s, i)))
    } else if s[i] == '(' {
        Some((TokenModel::OpenParenthesis, i + 1))
    } else if s[i] == ')' {
        Some((TokenModel::CloseParenthesis, i + 1))
    } else if s[i] == '^' {
        Some((TokenModel::Power, i + 1))
    } else if s[i] == '*' {
        Some((TokenModel::Multiply, i + 1))
    } else if s[i] == '/' {
        Some((TokenModel::Divide, i + 1))
    } else if s[i] == '+' {
        Some((TokenModel::Plus, i + 1))
    } else if s[i] == '-' {
        Some((TokenModel::Minus, i + 1))
    } else {
        None
    }
}

/// A token other than the end marker moves the position forward, and never
/// past the end of the text.
proof fn lemma_next_token_advances(s: Seq<char>, i: int)
    requires
        0 <= i <= s.len(),
    ensures
        spec_next_token(s, i) matches Some(p) ==> i <= p.1 <= s.len() && (!(p.0 is Fin) ==> i
            < p.1),
    decreases s.len() - i,
{
    if 0 <= i && i < s.len() {
        if is_space_char(s[i]) {
            lemma_next_token_advances(s, i + 1);
        } else if is_number_char(s[i]) {
            lemma_number_end_bounds(s, i);
        }
    }
}

/// The token sequence of the text from position `i` on: every token that
/// `spec_next_token` yields before the end marker, in order; nothing when
/// a foreign character stops the tokenizer.
pub open spec fn spec_tokens(s: Seq<char>, i: int) -> Option<Seq<TokenModel>>
    decreases s.len() - i + 1,
        when 0 <= i
    via spec_tokens_decreases
{
    match spec_next_token(s, i) {
        Option::None => None,
        Option::Some((tm, j)) => {
            if tm is Fin {
                Some(Seq::empty())
            } else {
                match spec_tokens(s, j) {
                    Option::None => None,
                    Option::Some(rest) => Some(seq![tm] + rest),
                }
            }
        },
    }
}

#[via_fn]
proof fn spec_tokens_decreases(s: Seq<char>, i: int) {
    if i <= s.len() {
        lemma_next_token_advances(s, i);
    }
}

/// Appends one number character — a digit or the point.
fn push_number_char(out: &mut String, c: char)
    requires
        is_number_char(c),
    ensures
        final (out)@ == old(out)@.push(c),
{
    if c == '.' {
        out.append(".");
        proof {
            reveal_strlit(".");
            assert(out@ =~= old(out)@.push(c));
        }
    } else {
        crate::text::push_digit(out, c);
    }
}

/// A maximal all-number-character run from `i` to `j` means the run that
/// starts at `i` ends exactly at `j`.
proof fn lemma_number_end_at(s: Seq<char>, i: int, j: int)
    requires
        0 <= i <= j <= s.len(),
        forall|k: int| i <= k < j ==> is_number_char(#[trigger] s[k]),
        j == s.len() || !is_number_char(s[j]),
    ensures
        number_end(s, i) == j,
    decreases j - i,
{
    if i < j {
        lemma_number_end_at(s, i + 1, j);
    }
}

/// Walks the source text and hands out one token at a time.
pub struct Tokenizer {
    pub text: Vec<char>,
    pub position: usize,
}

impl Tokenizer {
    /// A tokenizer at the start of the given text.
    pub fn new(input: &str) -> (t: Tokenizer)
        ensures
            t.text@ == input@,
            t.position == 0,
    {
        let n = input.unicode_len();
        let mut text: Vec<char> = Vec::new();
        let mut i: usize = 0;
        while i < n
            invariant
                i <= n,
                n == input@.len(),
                text@ == input@.subrange(0, i as int),
            decreases n - i,
        {
            text.push(input.get_char(i));
            proof {
                assert(text@ =~= input@.subrange(0, i + 1));
            }
            i = i + 1;
        }
        proof {
            assert(text@ =~= input@);
        }
        Tokenizer { text, position: 0 }
    }

    /// Whether the whole text has been consumed.
    fn is_end(&self) -> (r: bool)
        ensures
            r == (self.position >= self.text@.len()),
    {
        self.position >= self.text.len()
    }

    /// Steps past the current character.
    fn advance(&mut self)
        requires
            old(self).position < old(self).text@.len(),
        ensures
            final (self).text@ == old(self).text@,
            final (self).position == old(self).position + 1,
    {
        let n = self.text.len();
        assert(self.position < n);
        self.position = self.position + 1;
    }

    /// Reads the maximal run of number characters that starts here.
    fn read_number(&mut self) -> (r: String)
        requires
            old(self).position < old(self).text@.len(),
            is_number_char(old(self).text@[old(self).position as int]),
        ensures
            final (self).text@ == old(self).text@,
            final (self).position == number_end(old(self).text@, old(self).position as int),
            r@ == old(self).text@.subrange(
                old(self).position as int,
                number_end(old(self).text@, old(self).position as int),
            ),
    {
        let ghost s = self.text@;
        let ghost start = self.position as int;
        let mut out = String::new();
        while self.position < self.text.len() && is_digit(&self.text[self.position])
            invariant
                self.text@ == s,
                0 <= start,
                start <= self.position <= s.len(),
                forall|k: int| start <= k < self.position ==> is_number_char(#[trigger] s[k]),
                out@ == s.subrange(start, self.position as int),
            decreases s.len() - self.position,
        {
            let c = self.text[self.position];
            push_number_char(&mut out, c);
            proof {
                assert(out@ =~= s.subrange(start, self.position + 1));
            }
            self.position = self.position + 1;
        }
        proof {
            lemma_number_end_at(s, start, self.position as int);
        }
        out
    }

    /// The next token of the text: whitespace is skipped, a run of number
    /// characters becomes a number token with that literal text, each
    /// operator and parenthesis becomes its marker, the end of the text
    /// becomes the end marker, and any other character is reported.
    pub(crate) fn next_token(&mut self) -> (r: Result<Token, CalcError>)
        requires
            old(self).position <= old(self).text@.len(),
        ensures
            final (self).text@ == old(self).text@,
            old(self).position <= final (self).position <= old(self).text@.len(),
            match spec_next_token(old(self).text@, old(self).position as int) {
                Option::Some(p) => r matches Ok(t) && t@ == p.0 && final (self).position == p.1 && (
                !(p.0 is Fin) ==> old(self).position < final (self).position),
                Option::None => r matches Err(e) && e == CalcError::UnexpectedToken,
            },
    {
        let ghost s = self.text@;
        let ghost p0 = self.position as int;
        while self.position < self.text.len() && is_space(&self.text[self.position])
            invariant
                self.text@ == s,
                p0 <= self.position <= s.len(),
                spec_next_token(s, p0) == spec_next_token(s, self.position as int),
            decreases s.len() - self.position,
        {
            self.position = self.position + 1;
        }
        proof {
            lemma_next_token_advances(s, self.position as int);
        }
        if self.position >= self.text.len() {
            return Ok(Token::Fin);
        }
        let c = self.text[self.position];
        if is_digit(&c) {
            proof {
                lemma_number_end_bounds(s, self.position as int);
            }
            let lit = self.read_number();
            Ok(Token::Number(lit))
        } else if c == '(' {
            self.advance();
            Ok(Token::OpenParenthesis)
        } else if c == ')' {
            self.advance();
            Ok(Token::CloseParenthesis)
        } else if c == '^' {
            self.advance();
            Ok(Token::Power)
        } else if c == '*' {
            self.advance();
            Ok(Token::Multiply)
        } else if c == '/' {
            self.advance();
            Ok(Token::Divide)
        } else if c == '+' {
            self.advance();
            Ok(Token::Plus)
        } else if c == '-' {
            self.advance();
            Ok(Token::Minus)
        } else {
            Err(CalcError::UnexpectedToken)
        }
    }
}

/// Whether the character can stand in a number literal.
fn is_digit(ch: &char) -> (r: bool)
    ensures
        r == is_number_char(*ch),
{
    let cu = *ch as u32;
    (48 <= cu && cu <= 57) || *ch == '.'
}

/// Whether the character is whitespace that tokens may be separated by.
fn is_space(ch: &char) -> (r: bool)
    ensures
        r == is_space_char(*ch),
{
    *ch == ' ' || *ch == '\t' || *ch == '\n'
}

/// Tokenizes the whole text: the token sequence before the end marker, or
/// the report of the first foreign character.
pub fn get_tokens(input: &str) -> (r: Result<Vec<Token>, CalcError>)
    ensures
        match spec_tokens(input@, 0) {
            Option::Some(ts) => r matches Ok(v) && v.deep_view() == ts,
            Option::None => r matches Err(e) && e == CalcError::UnexpectedToken,
        },
{
    let mut tokenizer = Tokenizer::new(input);
    let mut tokens: Vec<Token> = Vec::new();
    loop
        invariant
            tokenizer.text@ == input@,
            tokenizer.position <= input@.len(),
            spec_tokens(input@, 0) == match spec_tokens(input@, tokenizer.position as int) {
                Option::Some(rest) => Option::Some(tokens.deep_view() + rest),
                Option::None => Option::None::<Seq<TokenModel>>,
            },
        decreases input@.len() - tokenizer.position,
    {
        let ghost pos_before = tokenizer.position as int;
        let next = match tokenizer.next_token() {
            Ok(t) => t,
            Err(e) => {
                return Err(e);
            },
        };
        if let Token::Fin = next {
            proof {
                assert(tokens.deep_view() + Seq::<TokenModel>::empty() =~= tokens.deep_view());
            }
            return Ok(tokens);
        }
        let ghost before = tokens.deep_view();
        let ghost tm = next@;
        tokens.push(next);
        proof {
            assert(tokens.deep_view() =~= before.push(tm));
            let rest_after = spec_tokens(input@, tokenizer.position as int);
            if rest_after is Some {
                assert(before + (seq![tm] + rest_after->0) =~= tokens.deep_view()
                    + rest_after->0);
            }
        }
    }
}

/// The display text of one token.
pub open spec fn spec_token_text(t: TokenModel) -> Seq<char> {
    match t {
        TokenModel::Number(s) => "Number(\""@ + s + "\")"@,
        TokenModel::Plus => "Plus"@,
        TokenModel::Minus => "Minus"@,
        TokenModel::Multiply => "Multiply"@,
        TokenModel::Divide => "Divide"@,
        TokenModel::Power => "Power"@,
        TokenModel::OpenParenthesis => "OpenParenthesis"@,
        TokenModel::CloseParenthesis => "CloseParenthesis"@,
        TokenModel::Fin => "Fin"@,
    }
}

/// Renders one token as display text.
pub fn token_text(t: &Token) -> (r: String)
    ensures
        r@ == spec_token_text(t@),
{
    match t {
        Token::Number(s) => {
            let mut out = String::from_str("Number(\"");
            out.append(s.as_str());
            out.append("\")");
            out
        },
        Token::Plus => String::from_str("Plus"),
        Token::Minus => String::from_str("Minus"),
        Token::Multiply => String::from_str("Multiply"),
        Token::Divide => String::from_str("Divide"),
        Token::Power => String::from_str("Power"),
        Token::OpenParenthesis => String::from_str("OpenParenthesis"),
        Token::CloseParenthesis => String::from_str("CloseParenthesis"),
        Token::Fin => String::from_str("Fin"),
    }
}

/// The display text of the tokens from index `i` on, one per line.
pub open spec fn spec_show_from(ts: Seq<TokenModel>, i: int) -> Seq<char>
    decreases ts.len() - i,
{
    if i < 0 || i >= ts.len() {
        Seq::empty()
    } else if i == ts.len() - 1 {
        spec_token_text(ts[i])
    } else {
        spec_token_text(ts[i]) + "\n"@ + spec_show_from(ts, i + 1)
    }
}

/// The display text of a token sequence, one token per line.
pub open spec fn spec_show_tokens(ts: Seq<TokenModel>) -> Seq<char> {
    spec_show_from(ts, 0)
}

/// Renders a token sequence for display, one token per line.
pub fn show_tokens(tokens: &Vec<Token>) -> (r: String)
    ensures
        r@ == spec_show_tokens(tokens.deep_view()),
{
    let ghost ts = tokens.deep_view();
    let mut display = String::new();
    if tokens.len() == 0 {
        return display;
    }
    let mut i: usize = 0;
    while i < tokens.len()
        invariant
            i <= tokens@.len(),
            ts == tokens.deep_view(),
            ts.len() == tokens@.len() > 0,
            display@ + spec_show_from(ts, i as int) == spec_show_from(ts, 0),
        decreases tokens@.len() - i,
    {
        proof {
            assert(ts[i as int] == tokens@[i as int]@);
        }
        let piece = token_text(&tokens[i]);
        display.append(piece.as_str());
        if i < tokens.len() - 1 {
            display.append("\n");
        }
        proof {
            assert(display@ + spec_show_from(ts, i + 1) =~= spec_show_from(ts, 0));
        }
        i = i + 1;
    }
    display
}

} // verus!
