use vstd::prelude::*;
use vstd::string::StrSliceExecFns;
use vstd::string::StringExecFns;

verus! {

/// A lexical unit of a calculator line.
#[derive(Debug, Clone)]
pub enum Token {
    Equals,
    OpPlus,
    OpMinus,
    OpMult,
    OpDiv,
    LParen,
    RParen,
    Ident(String),
    Value(i64),
}

/// The mathematical value of a token: identifiers are seen as character sequences.
pub enum TokenView {
    Equals,
    OpPlus,
    OpMinus,
    OpMult,
    OpDiv,
    LParen,
    RParen,
    Ident(Seq<char>),
    Value(i64),
}

impl View for Token {
    type V = TokenView;

    open spec fn view(&self) -> TokenView {
        match self {
            Token::Equals => TokenView::Equals,
            Token::OpPlus => TokenView::OpPlus,
            Token::OpMinus => TokenView::OpMinus,
            Token::OpMult => TokenView::OpMult,
            Token::OpDiv => TokenView::OpDiv,
            Token::LParen => TokenView::LParen,
            Token::RParen => TokenView::RParen,
            Token::Ident(name) => TokenView::Ident(name@),
            Token::Value(n) => TokenView::Value(*n),
        }
    }
}

/// Whether two tokens have the same view.
pub fn same_token(a: &Token, b: &Token) -> (r: bool)
    ensures
        r == (a@ == b@),
{
    match a {
        Token::Equals => match b {
            Token::Equals => true,
            _ => false,
        },
        Token::OpPlus => match b {
            Token::OpPlus => true,
            _ => false,
        },
        Token::OpMinus => match b {
            Token::OpMinus => true,
            _ => false,
        },
        Token::OpMult => match b {
            Token::OpMult => true,
            _ => false,
        },
        Token::OpDiv => match b {
            Token::OpDiv => true,
            _ => false,
        },
        Token::LParen => match b {
            Token::LParen => true,
            _ => false,
        },
        Token::RParen => match b {
            Token::RParen => true,
            _ => false,
        },
        Token::Ident(a) => match b {
            Token::Ident(b) => *a == *b,
            _ => false,
        },
        Token::Value(a) => match b {
            Token::Value(b) => *a == *b,
            _ => false,
        },
    }
}

impl PartialEq for Token {
    fn eq(&self, other: &Token) -> (r: bool) {
        same_token(self, other)
    }
}

impl vstd::std_specs::cmp::PartialEqSpecImpl for Token {
    open spec fn obeys_eq_spec() -> bool {
        true
    }

    open spec fn eq_spec(&self, other: &Token) -> bool {
        self@ == other@
    }
}

/// A copy of `t` with the same view.
pub fn copy_token(t: &Token) -> (r: Token)
    ensures
        r@ == t@,
{
    match t {
        Token::Equals => Token::Equals,
        Token::OpPlus => Token::OpPlus,
        Token::OpMinus => Token::OpMinus,
        Token::OpMult => Token::OpMult,
        Token::OpDiv => Token::OpDiv,
        Token::LParen => Token::LParen,
        Token::RParen => Token::RParen,
        Token::Ident(name) => Token::Ident(name.clone()),
        Token::Value(n) => Token::Value(*n),
    }
}

pub open spec fn view_tokens(ts: Seq<Token>) -> Seq<TokenView> {
    ts.map_values(|t: Token| t@)
}

/// Why a line could not be split into tokens.
#[derive(Debug)]
pub enum LexError {
    /// The content ended where a token was expected.
    UnexpectedEnd,
    /// A run of numeric characters that is not a 64-bit signed integer.
    InvalidNumber(String),
    /// A character that starts no token.
    UnexpectedChar(char),
}

pub enum LexErrorView {
    UnexpectedEnd,
    InvalidNumber(Seq<char>),
    UnexpectedChar(char),
}

impl View for LexError {
    type V = LexErrorView;

    open spec fn view(&self) -> LexErrorView {
        match self {
            LexError::UnexpectedEnd => LexErrorView::UnexpectedEnd,
            LexError::InvalidNumber(s) => LexErrorView::InvalidNumber(s@),
            LexError::UnexpectedChar(c) => LexErrorView::UnexpectedChar(*c),
        }
    }
}

/// Unicode `White_Space`, as `char::is_whitespace` decides it.
pub uninterp spec fn whitespace_char(c: char) -> bool;

/// Unicode `Alphabetic`, as `char::is_alphabetic` decides it.
pub uninterp spec fn alphabetic_char(c: char) -> bool;

/// A Unicode number category, as `char::is_numeric` decides it.
pub uninterp spec fn numeric_char(c: char) -> bool;

/// Relies on char::is_whitespace, which depends on the character alone.
#[verifier::external_body]
fn is_whitespace(c: char) -> (r: bool)
    ensures
        r == whitespace_char(c),
{
    c.is_whitespace()
}

/// Relies on char::is_alphabetic, which depends on the character alone.
#[verifier::external_body]
fn is_alphabetic(c: char) -> (r: bool)
    ensures
        r == alphabetic_char(c),
{
    c.is_alphabetic()
}

/// Relies on char::is_numeric, which depends on the character alone.
#[verifier::external_body]
fn is_numeric(c: char) -> (r: bool)
    ensures
        r == numeric_char(c),
{
    c.is_numeric()
}

pub open spec fn is_decimal_digit(c: char) -> bool {
    '0' <= c && c <= '9'
}

pub open spec fn all_decimal_digits(s: Seq<char>) -> bool {
    s.len() > 0 && forall|i: int| 0 <= i < s.len() ==> is_decimal_digit(#[trigger] s[i])
}

/// The number that a sequence of decimal digits writes.
pub open spec fn decimal_value(s: Seq<char>) -> int
    decreases s.len(),
{
    if s.len() == 0 {
        0
    } else {
        10 * decimal_value(s.drop_last()) + (s.last() as u32 - '0' as u32)
    }
}

/// An optional sign followed by decimal digits, as a mathematical integer.
pub open spec fn signed_decimal(s: Seq<char>) -> Option<int> {
    if s.len() > 0 && s[0] == '-' && all_decimal_digits(s.drop_first()) {
        Some(-decimal_value(s.drop_first()))
    } else if s.len() > 0 && s[0] == '+' && all_decimal_digits(s.drop_first()) {
        Some(decimal_value(s.drop_first()))
    } else if all_decimal_digits(s) {
        Some(decimal_value(s))
    } else {
        None
    }
}

/// What `str::parse::<i64>` gives for `s`: a signed decimal in range, else nothing.
pub open spec fn parsed_i64(s: Seq<char>) -> Option<i64> {
    match signed_decimal(s) {
        Some(v) => if i64::MIN <= v && v <= i64::MAX {
            Some(v as i64)
        } else {
            None
        },
        None => None,
    }
}

/// Relies on str::parse::<i64> (i64's FromStr): an optional `+` or `-` and one or more
/// ASCII digits, rejected when the value does not fit.
#[verifier::external_body]
fn parse_i64(s: &str) -> (r: Option<i64>)
    ensures
        r == parsed_i64(s@),
{
    s.parse::<i64>().ok()
}

/// The classes of characters that the scanner reads runs of.
#[derive(Clone, Copy)]
pub enum CharClass {
    Whitespace,
    IdentBody,
    Numeric,
}

pub open spec fn in_class(k: CharClass, c: char) -> bool {
    match k {
        CharClass::Whitespace => whitespace_char(c),
        CharClass::IdentBody => alphabetic_char(c) || numeric_char(c) || c == '_',
        CharClass::Numeric => numeric_char(c),
    }
}

fn char_in_class(k: CharClass, c: char) -> (r: bool)
    ensures
        r == in_class(k, c),
{
    match k {
        CharClass::Whitespace => is_whitespace(c),
        CharClass::IdentBody => is_alphabetic(c) || is_numeric(c) || c == '_',
        CharClass::Numeric => is_numeric(c),
    }
}

/// The end of the longest run of class `k` that starts at `i`.
pub open spec fn run_end(s: Seq<char>, i: int, k: CharClass) -> int
    decreases s.len() - i,
{
    if 0 <= i < s.len() && in_class(k, s[i]) {
        run_end(s, i + 1, k)
    } else {
        i
    }
}

pub open spec fn punctuation(c: char) -> Option<TokenView> {
    if c == '=' {
        Some(TokenView::Equals)
    } else if c == '+' {
        Some(TokenView::OpPlus)
    } else if c == '-' {
        Some(TokenView::OpMinus)
    } else if c == '*' {
        Some(TokenView::OpMult)
    } else if c == '/' {
        Some(TokenView::OpDiv)
    } else if c == '(' {
        Some(TokenView::LParen)
    } else if c == ')' {
        Some(TokenView::RParen)
    } else {
        None
    }
}

/// The token that starts at `i`, with the position after it.
pub open spec fn lex_token(s: Seq<char>, i: int) -> Result<(TokenView, int), LexErrorView> {
    if i < 0 || i >= s.len() {
        Err(LexErrorView::UnexpectedEnd)
    } else if alphabetic_char(s[i]) {
        let e = run_end(s, i, CharClass::IdentBody);
        Ok((TokenView::Ident(s.subrange(i, e)), e))
    } else if numeric_char(s[i]) {
        let e = run_end(s, i, CharClass::Numeric);
        match parsed_i64(s.subrange(i, e)) {
            Some(v) => Ok((TokenView::Value(v), e)),
            None => Err(LexErrorView::InvalidNumber(s.subrange(i, e))),
        }
    } else {
        match punctuation(s[i]) {
            Some(t) => Ok((t, i + 1)),
            None => Err(LexErrorView::UnexpectedChar(s[i])),
        }
    }
}

/// The tokens of `s` from position `i` on: while content remains, whitespace is
/// skipped and one token is read.
pub open spec fn lex_from(s: Seq<char>, i: int) -> Result<Seq<TokenView>, LexErrorView>
    decreases s.len() - i,
{
    if i < 0 || i >= s.len() {
        Ok(seq![])
    } else {
        match lex_token(s, run_end(s, i, CharClass::Whitespace)) {
            Err(e) => Err(e),
            Ok((t, j)) => if i < j <= s.len() {
                match lex_from(s, j) {
                    Ok(ts) => Ok(seq![t] + ts),
                    Err(e) => Err(e),
                }
            } else {
                Err(LexErrorView::UnexpectedEnd)
            },
        }
    }
}

/// The tokens of a whole line.
pub open spec fn lex(s: Seq<char>) -> Result<Seq<TokenView>, LexErrorView> {
    lex_from(s, 0)
}

pub proof fn lemma_lex_token_advances(s: Seq<char>, i: int)
    requires
        0 <= i <= s.len(),
    ensures
        lex_token(s, i) matches Ok((_, j)) ==> i < j <= s.len(),
{
    if 0 <= i < s.len() {
        lemma_run_end_bounds(s, i, CharClass::IdentBody);
        lemma_run_end_bounds(s, i, CharClass::Numeric);
    }
}

pub proof fn lemma_run_end_bounds(s: Seq<char>, i: int, k: CharClass)
    requires
        0 <= i <= s.len(),
    ensures
        i <= run_end(s, i, k) <= s.len(),
        i < s.len() && in_class(k, s[i]) ==> run_end(s, i, k) > i,
    decreases s.len() - i,
{
    if i < s.len() && in_class(k, s[i]) {
        lemma_run_end_bounds(s, i + 1, k);
    }
}

/// A scanner over one line of text, with a cursor counted in characters.
pub struct Tokenizer<'a> {
    content: &'a str,
    len: usize,
    cursor: usize,
}

impl<'a> Tokenizer<'a> {
    /// The characters being scanned.
    pub closed spec fn text(&self) -> Seq<char> {
        self.content@
    }

    /// The cursor, in characters.
    pub closed spec fn position(&self) -> int {
        self.cursor as int
    }

    pub closed spec fn wf(&self) -> bool {
        &&& self.len == self.content@.len()
        &&& self.cursor <= self.len
    }

    pub fn new(content: &'a str) -> (t: Self)
        ensures
            t.wf(),
            t.text() == content@,
            t.position() == 0,
    {
        Tokenizer { content, len: content.unicode_len(), cursor: 0 }
    }

    fn peek(&self) -> (r: Option<char>)
        requires
            self.wf(),
        ensures
            r == (if self.position() < self.text().len() {
                Some(self.text()[self.position()])
            } else {
                None
            }),
    {
        if self.cursor < self.len {
            Some(self.content.get_char(self.cursor))
        } else {
            None
        }
    }

    fn skip_while(&mut self, k: CharClass)
        requires
            old(self).wf(),
        ensures
            final(self).wf(),
            final(self).text() == old(self).text(),
            final(self).position() == run_end(old(self).text(), old(self).position(), k),
    {
        let ghost start = self.cursor as int;
        while self.cursor < self.len && char_in_class(k, self.content.get_char(self.cursor))
            invariant
                self.wf(),
                self.content == old(self).content,
                start <= self.cursor,
                run_end(self.text(), self.position(), k) == run_end(self.text(), start, k),
            decreases self.len - self.cursor,
        {
            self.cursor = self.cursor + 1;
        }
    }

    fn collect_while(&mut self, k: CharClass) -> (r: String)
        requires
            old(self).wf(),
        ensures
            final(self).wf(),
            final(self).text() == old(self).text(),
            final(self).position() == run_end(old(self).text(), old(self).position(), k),
            r@ == old(self).text().subrange(old(self).position(), final(self).position()),
    {
        let start = self.cursor;
        self.skip_while(k);
        proof {
            lemma_run_end_bounds(self.text(), start as int, k);
        }
        String::from_str(self.content.substring_char(start, self.cursor))
    }

    fn skip_whitespace(&mut self)
        requires
            old(self).wf(),
        ensures
            final(self).wf(),
            final(self).text() == old(self).text(),
            final(self).position() == run_end(
                old(self).text(),
                old(self).position(),
                CharClass::Whitespace,
            ),
    {
        self.skip_while(CharClass::Whitespace);
    }

    fn tokenize_ident(&mut self) -> (t: Token)
        requires
            old(self).wf(),
            old(self).position() < old(self).text().len(),
            alphabetic_char(old(self).text()[old(self).position()]),
        ensures
            final(self).wf(),
            final(self).text() == old(self).text(),
            lex_token(old(self).text(), old(self).position()) == Ok::<_, LexErrorView>(
                (t@, final(self).position()),
            ),
    {
        let name = self.collect_while(CharClass::IdentBody);
        Token::Ident(name)
    }

    fn tokenize_number(&mut self) -> (r: Result<Token, LexError>)
        requires
            old(self).wf(),
            old(self).position() < old(self).text().len(),
            numeric_char(old(self).text()[old(self).position()]),
        ensures
            final(self).wf(),
            final(self).text() == old(self).text(),
            final(self).position() == run_end(
                old(self).text(),
                old(self).position(),
                CharClass::Numeric,
            ),
            ({
                let digits = old(self).text().subrange(old(self).position(), final(self).position());
                match r {
                    Ok(t) => parsed_i64(digits) is Some && t@ == TokenView::Value(
                        parsed_i64(digits)->0,
                    ),
                    Err(e) => parsed_i64(digits) is None && e@ == LexErrorView::InvalidNumber(
                        digits,
                    ),
                }
            }),
    {
        let digits = self.collect_while(CharClass::Numeric);
        match parse_i64(digits.as_str()) {
            Some(v) => Ok(Token::Value(v)),
            None => Err(LexError::InvalidNumber(digits)),
        }
    }

    fn tokenize(&mut self) -> (r: Result<Token, LexError>)
        requires
            old(self).wf(),
        ensures
            final(self).wf(),
            final(self).text() == old(self).text(),
            match r {
                Ok(t) => lex_token(old(self).text(), old(self).position()) == Ok::<_, LexErrorView>(
                    (t@, final(self).position()),
                ),
                Err(e) => lex_token(old(self).text(), old(self).position()) == Err::<
                    (TokenView, int),
                    _,
                >(e@),
            },
            r is Err ==> final(self).position() == (if old(self).position() < old(
                self,
            ).text().len() && numeric_char(old(self).text()[old(self).position()]) {
                run_end(old(self).text(), old(self).position(), CharClass::Numeric)
            } else {
                old(self).position()
            }),
    {
        let c = match self.peek() {
            Some(c) => c,
            None => {
                return Err(LexError::UnexpectedEnd);
            },
        };
        if is_alphabetic(c) {
            return Ok(self.tokenize_ident());
        }
        if is_numeric(c) {
            return self.tokenize_number();
        }
        let token = if c == '=' {
            Token::Equals
        } else if c == '+' {
            Token::OpPlus
        } else if c == '-' {
            Token::OpMinus
        } else if c == '*' {
            Token::OpMult
        } else if c == '/' {
            Token::OpDiv
        } else if c == '(' {
            Token::LParen
        } else if c == ')' {
            Token::RParen
        } else {
            return Err(LexError::UnexpectedChar(c));
        };
        self.cursor = self.cursor + 1;
        Ok(token)
    }

    /// Splits the rest of the text into tokens.
    pub fn run(&mut self) -> (r: Result<Vec<Token>, LexError>)
        requires
            old(self).wf(),
        ensures
            final(self).wf(),
            final(self).text() == old(self).text(),
            match r {
                Ok(ts) => lex_from(old(self).text(), old(self).position()) == Ok::<
                    _,
                    LexErrorView,
                >(view_tokens(ts@)),
                Err(e) => lex_from(old(self).text(), old(self).position()) == Err::<
                    Seq<TokenView>,
                    _,
                >(e@),
            },
    {
        let mut tokens: Vec<Token> = Vec::new();
        let ghost s = self.text();
        let ghost start = self.position();
        while self.peek().is_some()
            invariant
                self.wf(),
                s == old(self).text(),
                start == old(self).position(),
                self.text() == s,
                start <= self.position(),
                lex_from(s, start) == (match lex_from(s, self.position()) {
                    Ok(rest) => Ok(view_tokens(tokens@) + rest),
                    Err(e) => Err(e),
                }),
            decreases self.text().len() - self.position(),
        {
            let ghost i = self.position();
            self.skip_whitespace();
            proof {
                lemma_run_end_bounds(s, i, CharClass::Whitespace);
            }
            let ghost j = self.position();
            match self.tokenize() {
                Ok(t) => {
                    proof {
                        lemma_lex_token_advances(s, j);
                        let k = self.position();
                        let rest = lex_from(s, k);
                        let before = view_tokens(tokens@);
                        match rest {
                            Ok(ts) => {
                                assert(before + (seq![t@] + ts) =~= before.push(t@) + ts);
                            },
                            Err(_) => {},
                        }
                    }
                    let ghost prev = tokens@;
                    let ghost tv = t@;
                    tokens.push(t);
                    proof {
                        assert(view_tokens(tokens@) =~= view_tokens(prev).push(tv));
                    }
                },
                Err(e) => {
                    return Err(e);
                },
            }
        }
        proof {
            assert(lex_from(s, self.position()) == Ok::<Seq<TokenView>, LexErrorView>(seq![]));
            assert(view_tokens(tokens@) + seq![] =~= view_tokens(tokens@));
        }
        Ok(tokens)
    }
}

} // verus!
