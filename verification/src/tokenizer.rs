//! Lexical scanning: classify the characters of a JSON source text into a
//! sequence of tokens that covers the input exactly, or fail with a
//! positioned lexical error.
//!
//! The scanner is specified by `spec_tokenize`, a mathematical tokenizer over
//! the input's character sequence; `tokenize` is proved to return exactly
//! what `spec_tokenize` denotes.  Offsets and lengths count characters
//! (Unicode scalar values), applied consistently to both.

use vstd::prelude::*;

verus! {

/// The lexical classes a token can belong to.
#[derive(Debug, Clone, Copy, PartialEq, Eq, Structural)]
pub enum TokenType {
    ArrayEnd,
    ArrayStart,
    Colon,
    Comma,
    False,
    Number,
    Null,
    ObjectEnd,
    ObjectStart,
    String,
    True,
    Whitespace,
}

/// Why tokenization failed; the closed set of lexical error classes.
#[derive(Debug, PartialEq, Eq)]
pub enum TokenizeErrorKind {
    /// A keyword was begun but not completed; carries the expected keyword.
    ExpectedLiteral(String),
    /// A string was opened and no closing quote follows.
    UnterminatedString,
    /// The character at the cursor begins no token.
    UnhandledCharacter,
    /// A `-` or digit at the cursor begins no well-formed number.
    MalformedNumber,
}

/// A lexical error: the character offset it arose at, and its class.
#[derive(Debug, PartialEq, Eq)]
pub struct TokenizeError {
    pub offset: usize,
    pub kind: TokenizeErrorKind,
}

/// One lexical unit: its class, its verbatim source text, and the character
/// offset of that text in the input.
#[derive(Debug, PartialEq, Eq)]
pub struct Token {
    pub type_: TokenType,
    pub value: String,
    pub offset: usize,
}

/// The mathematical image of a [`Token`].
pub struct SpecToken {
    pub type_: TokenType,
    pub value: Seq<char>,
    pub offset: int,
}

/// The mathematical image of a [`TokenizeErrorKind`].
pub enum SpecTokenizeErrorKind {
    ExpectedLiteral(Seq<char>),
    UnterminatedString,
    UnhandledCharacter,
    MalformedNumber,
}

/// The mathematical image of a [`TokenizeError`].
pub struct SpecTokenizeError {
    pub offset: int,
    pub kind: SpecTokenizeErrorKind,
}

impl View for Token {
    type V = SpecToken;

    open spec fn view(&self) -> SpecToken {
        SpecToken { type_: self.type_, value: self.value@, offset: self.offset as int }
    }
}

impl View for TokenizeErrorKind {
    type V = SpecTokenizeErrorKind;

    open spec fn view(&self) -> SpecTokenizeErrorKind {
        match self {
            TokenizeErrorKind::ExpectedLiteral(kw) => SpecTokenizeErrorKind::ExpectedLiteral(
                kw@,
            ),
            TokenizeErrorKind::UnterminatedString => SpecTokenizeErrorKind::UnterminatedString,
            TokenizeErrorKind::UnhandledCharacter => SpecTokenizeErrorKind::UnhandledCharacter,
            TokenizeErrorKind::MalformedNumber => SpecTokenizeErrorKind::MalformedNumber,
        }
    }
}

impl View for TokenizeError {
    type V = SpecTokenizeError;

    open spec fn view(&self) -> SpecTokenizeError {
        SpecTokenizeError { offset: self.offset as int, kind: self.kind@ }
    }
}

/// The views of a token sequence, element by element.
pub open spec fn tokens_view(ts: Seq<Token>) -> Seq<SpecToken> {
    ts.map_values(|t: Token| t@)
}

impl Clone for Token {
    /// Copies the token; the copy has the same class, text and offset.
    fn clone(&self) -> (t: Token)
        ensures
            t == *self,
    {
        Token { type_: self.type_, value: self.value.clone(), offset: self.offset }
    }
}

impl Token {
    /// Builds a token from its class, its verbatim text and its offset.
    pub fn new(type_: TokenType, value: &str, offset: usize) -> (t: Token)
        ensures
            t@ == (SpecToken { type_, value: value@, offset: offset as int }),
    {
        Token { type_, value: value.to_owned(), offset }
    }

    /// The length of the token's text, in characters.
    pub fn len(&self) -> (n: usize)
        ensures
            n == self@.value.len(),
    {
        self.value.as_str().unicode_len()
    }
}

/// The message text each lexical error class is rendered with.
pub open spec fn spec_tokenize_message(k: SpecTokenizeErrorKind) -> Seq<char> {
    match k {
        SpecTokenizeErrorKind::ExpectedLiteral(kw) => "Expected literal `"@ + kw + "`"@,
        SpecTokenizeErrorKind::UnterminatedString => "No string-terminating quote found"@,
        SpecTokenizeErrorKind::UnhandledCharacter => "Unhandled character"@,
        SpecTokenizeErrorKind::MalformedNumber => "Cannot parse number"@,
    }
}

impl TokenizeError {
    /// Builds a lexical error from its offset and its class.
    pub fn new(offset: usize, kind: TokenizeErrorKind) -> (e: TokenizeError)
        ensures
            e@ == (SpecTokenizeError { offset: offset as int, kind: kind@ }),
    {
        TokenizeError { offset, kind }
    }

    /// The error's message line, ready to be shown beside its offset.
    pub fn message(&self) -> (m: String)
        ensures
            m@ == spec_tokenize_message(self@.kind),
    {
        match &self.kind {
            TokenizeErrorKind::ExpectedLiteral(kw) => {
                let mut m = "Expected literal `".to_owned();
                m.append(kw.as_str());
                m.append("`");
                m
            },
            TokenizeErrorKind::UnterminatedString => "No string-terminating quote found".to_owned(),
            TokenizeErrorKind::UnhandledCharacter => "Unhandled character".to_owned(),
            TokenizeErrorKind::MalformedNumber => "Cannot parse number".to_owned(),
        }
    }
}

/// The ASCII whitespace characters, the only ones the scanner skips.
pub open spec fn is_ws_char(c: char) -> bool {
    c == ' ' || c == '\t' || c == '\n' || c == '\r' || c == '\x0c'
}

/// The decimal digits.
pub open spec fn is_digit_char(c: char) -> bool {
    48 <= c as u32 <= 57
}

/// The first position at or after `i` holding a character that is not a
/// decimal digit, or the end of the input.
pub open spec fn digit_end(s: Seq<char>, i: int) -> int
    decreases s.len() - i,
{
    if i < 0 || i >= s.len() {
        i
    } else if is_digit_char(s[i]) {
        digit_end(s, i + 1)
    } else {
        i
    }
}

/// The first position at or after `i` holding a character that is not ASCII
/// whitespace, or the end of the input.
pub open spec fn ws_end(s: Seq<char>, i: int) -> int
    decreases s.len() - i,
{
    if i < 0 || i >= s.len() {
        i
    } else if is_ws_char(s[i]) {
        ws_end(s, i + 1)
    } else {
        i
    }
}

/// The first position at or after `i` holding a double quote, or `s.len()`
/// if there is none.
pub open spec fn quote_end(s: Seq<char>, i: int) -> int
    decreases s.len() - i,
{
    if i < 0 || i >= s.len() {
        s.len() as int
    } else if s[i] == '"' {
        i
    } else {
        quote_end(s, i + 1)
    }
}

/// Where the number beginning at `i` ends: the end of the longest prefix of
/// `s[i..]` matching  `-? (0 | [1-9][0-9]*) (. [0-9]+)? ([eE] [+-]? [0-9]+)?`,
/// or `i` itself if no prefix matches.
pub open spec fn number_end(s: Seq<char>, i: int) -> int {
    let ds = if 0 <= i < s.len() && s[i] == '-' {
        i + 1
    } else {
        i
    };
    if !(0 <= ds < s.len() && is_digit_char(s[ds])) {
        i
    } else {
        let ie = if s[ds] == '0' {
            ds + 1
        } else {
            digit_end(s, ds)
        };
        let fe = if ie < s.len() && s[ie] == '.' && ie + 1 < s.len() && is_digit_char(s[ie + 1]) {
            digit_end(s, ie + 1)
        } else {
            ie
        };
        if fe < s.len() && (s[fe] == 'e' || s[fe] == 'E') {
            let es = if fe + 1 < s.len() && (s[fe + 1] == '+' || s[fe + 1] == '-') {
                fe + 2
            } else {
                fe + 1
            };
            if es < s.len() && is_digit_char(s[es]) {
                digit_end(s, es)
            } else {
                fe
            }
        } else {
            fe
        }
    }
}

proof fn lemma_digit_end_bounds(s: Seq<char>, i: int)
    requires
        0 <= i <= s.len(),
    ensures
        i <= digit_end(s, i) <= s.len(),
    decreases s.len() - i,
{
    if i < s.len() && is_digit_char(s[i]) {
        lemma_digit_end_bounds(s, i + 1);
    }
}

proof fn lemma_ws_end_bounds(s: Seq<char>, i: int)
    requires
        0 <= i <= s.len(),
    ensures
        i <= ws_end(s, i) <= s.len(),
    decreases s.len() - i,
{
    if i < s.len() && is_ws_char(s[i]) {
        lemma_ws_end_bounds(s, i + 1);
    }
}

proof fn lemma_quote_end_bounds(s: Seq<char>, i: int)
    requires
        0 <= i <= s.len(),
    ensures
        i <= quote_end(s, i) <= s.len(),
    decreases s.len() - i,
{
    if i < s.len() && s[i] != '"' {
        lemma_quote_end_bounds(s, i + 1);
    }
}

proof fn lemma_number_end_bounds(s: Seq<char>, i: int)
    requires
        0 <= i <= s.len(),
    ensures
        i <= number_end(s, i) <= s.len(),
        number_end(s, i) != i ==> number_end(s, i) > i,
{
    let ds = if 0 <= i < s.len() && s[i] == '-' {
        i + 1
    } else {
        i
    };
    if 0 <= ds < s.len() && is_digit_char(s[ds]) {
        lemma_digit_end_bounds(s, ds);
        let ie = if s[ds] == '0' {
            ds + 1
        } else {
            digit_end(s, ds)
        };
        if ie < s.len() && s[ie] == '.' && ie + 1 < s.len() && is_digit_char(s[ie + 1]) {
            lemma_digit_end_bounds(s, ie + 1);
        }
        let fe = if ie < s.len() && s[ie] == '.' && ie + 1 < s.len() && is_digit_char(s[ie + 1]) {
            digit_end(s, ie + 1)
        } else {
            ie
        };
        if fe < s.len() && (s[fe] == 'e' || s[fe] == 'E') {
            let es = if fe + 1 < s.len() && (s[fe + 1] == '+' || s[fe + 1] == '-') {
                fe + 2
            } else {
                fe + 1
            };
            if es < s.len() && is_digit_char(s[es]) {
                lemma_digit_end_bounds(s, es);
            }
        }
    }
}

/// The keyword `null` as a character sequence.
pub open spec fn kw_null() -> Seq<char> {
    seq!['n', 'u', 'l', 'l']
}

/// The keyword `true` as a character sequence.
pub open spec fn kw_true() -> Seq<char> {
    seq!['t', 'r', 'u', 'e']
}

/// The keyword `false` as a character sequence.
pub open spec fn kw_false() -> Seq<char> {
    seq!['f', 'a', 'l', 's', 'e']
}

/// The token or error produced for the keyword `kw` expected at position `i`.
pub open spec fn spec_keyword_token(
    s: Seq<char>,
    i: int,
    kw: Seq<char>,
    type_: TokenType,
) -> Result<SpecToken, SpecTokenizeError> {
    if i + kw.len() <= s.len() && s.subrange(i, i + kw.len() as int) == kw {
        Ok(SpecToken { type_, value: kw, offset: i })
    } else {
        Err(
            SpecTokenizeError {
                offset: i,
                kind: SpecTokenizeErrorKind::ExpectedLiteral(kw),
            },
        )
    }
}

/// Classifies the character at position `i` and produces the token starting
/// there, or the lexical error it raises.  Meaningful for `0 <= i < s.len()`.
pub open spec fn spec_next_token(s: Seq<char>, i: int) -> Result<
    SpecToken,
    SpecTokenizeError,
> {
    let c = s[i];
    if c == ',' {
        Ok(SpecToken { type_: TokenType::Comma, value: seq![','], offset: i })
    } else if c == ':' {
        Ok(SpecToken { type_: TokenType::Colon, value: seq![':'], offset: i })
    } else if c == '[' {
        Ok(SpecToken { type_: TokenType::ArrayStart, value: seq!['['], offset: i })
    } else if c == ']' {
        Ok(SpecToken { type_: TokenType::ArrayEnd, value: seq![']'], offset: i })
    } else if c == '{' {
        Ok(SpecToken { type_: TokenType::ObjectStart, value: seq!['{'], offset: i })
    } else if c == '}' {
        Ok(SpecToken { type_: TokenType::ObjectEnd, value: seq!['}'], offset: i })
    } else if c == 'f' {
        spec_keyword_token(s, i, kw_false(), TokenType::False)
    } else if c == 'n' {
        spec_keyword_token(s, i, kw_null(), TokenType::Null)
    } else if c == 't' {
        spec_keyword_token(s, i, kw_true(), TokenType::True)
    } else if c == '"' {
        let q = quote_end(s, i + 1);
        if q < s.len() {
            Ok(
                SpecToken {
                    type_: TokenType::String,
                    value: s.subrange(i, q + 1),
                    offset: i,
                },
            )
        } else {
            Err(
                SpecTokenizeError {
                    offset: i,
                    kind: SpecTokenizeErrorKind::UnterminatedString,
                },
            )
        }
    } else if c == '-' || is_digit_char(c) {
        let e = number_end(s, i);
        if e > i {
            Ok(
                SpecToken {
                    type_: TokenType::Number,
                    value: s.subrange(i, e),
                    offset: i,
                },
            )
        } else {
            Err(
                SpecTokenizeError {
                    offset: i,
                    kind: SpecTokenizeErrorKind::MalformedNumber,
                },
            )
        }
    } else if is_ws_char(c) {
        Ok(
            SpecToken {
                type_: TokenType::Whitespace,
                value: s.subrange(i, ws_end(s, i)),
                offset: i,
            },
        )
    } else {
        Err(
            SpecTokenizeError {
                offset: i,
                kind: SpecTokenizeErrorKind::UnhandledCharacter,
            },
        )
    }
}

/// Every successfully scanned token starts at its position, is non-empty,
/// stays inside the input, is verbatim the text it covers, and keeps both
/// quotes if it is a string.
proof fn lemma_next_token_shape(s: Seq<char>, i: int)
    requires
        0 <= i < s.len(),
        spec_next_token(s, i) is Ok,
    ensures
        ({
            let t = spec_next_token(s, i)->Ok_0;
            &&& t.offset == i
            &&& 1 <= t.value.len()
            &&& i + t.value.len() <= s.len()
            &&& t.value == s.subrange(i, i + t.value.len() as int)
            &&& t.type_ == TokenType::String ==> t.value.len() >= 2
        }),
{
    let c = s[i];
    let t = spec_next_token(s, i)->Ok_0;
    if c == ',' || c == ':' || c == '[' || c == ']' || c == '{' || c == '}' {
        assert(t.value =~= s.subrange(i, i + 1));
    } else if c == 'f' || c == 'n' || c == 't' {
        let kw = if c == 'f' {
            kw_false()
        } else if c == 'n' {
            kw_null()
        } else {
            kw_true()
        };
        assert(spec_next_token(s, i) == spec_keyword_token(s, i, kw, t.type_));
    } else if c == '"' {
        lemma_quote_end_bounds(s, i + 1);
    } else if c == '-' || is_digit_char(c) {
        lemma_number_end_bounds(s, i);
    } else {
        lemma_ws_end_bounds(s, i + 1);
        assert(ws_end(s, i) == ws_end(s, i + 1));
    }
}

/// The token sequence the input denotes from position `i` on: scan one token
/// and continue after it, or stop at the first lexical error.
pub open spec fn spec_tokenize_from(s: Seq<char>, i: int) -> Result<
    Seq<SpecToken>,
    SpecTokenizeError,
>
    decreases s.len() - i,
    via spec_tokenize_from_dec
{
    if i < 0 || i >= s.len() {
        Ok(Seq::empty())
    } else {
        match spec_next_token(s, i) {
            Err(e) => Err(e),
            Ok(t) => match spec_tokenize_from(s, i + t.value.len()) {
                Err(e) => Err(e),
                Ok(rest) => Ok(seq![t] + rest),
            },
        }
    }
}

#[via_fn]
proof fn spec_tokenize_from_dec(s: Seq<char>, i: int) {
    if 0 <= i < s.len() && spec_next_token(s, i) is Ok {
        lemma_next_token_shape(s, i);
    }
}

/// The token sequence the whole input denotes, or its first lexical error.
pub open spec fn spec_tokenize(s: Seq<char>) -> Result<Seq<SpecToken>, SpecTokenizeError> {
    spec_tokenize_from(s, 0)
}

/// What `tokenize` promises: the returned tokens, or the returned error, are
/// exactly what `spec_tokenize` denotes for the input.
pub open spec fn tokenize_post(s: Seq<char>, r: Result<Vec<Token>, TokenizeError>) -> bool {
    match r {
        Ok(tokens) => spec_tokenize(s) == Ok::<Seq<SpecToken>, SpecTokenizeError>(
            tokens_view(tokens@),
        ),
        Err(e) => spec_tokenize(s) == Err::<Seq<SpecToken>, SpecTokenizeError>(e@),
    }
}

/// The characters of `s`, one vector element per character.
pub(crate) fn chars_vec(s: &str) -> (v: Vec<char>)
    ensures
        v@ == s@,
{
    let n = s.unicode_len();
    let mut v: Vec<char> = Vec::new();
    let mut i: usize = 0;
    while i < n
        invariant
            n == s@.len(),
            i <= n,
            v@ == s@.subrange(0, i as int),
        decreases n - i,
    {
        v.push(s.get_char(i));
        i = i + 1;
        proof {
            assert(v@ =~= s@.subrange(0, i as int));
        }
    }
    proof {
        assert(v@ =~= s@);
    }
    v
}

/// Whether `c` is a decimal digit.
pub(crate) fn is_digit(c: char) -> (b: bool)
    ensures
        b == is_digit_char(c),
{
    let u = c as u32;
    48 <= u && u <= 57
}

/// Whether `c` is ASCII whitespace.
fn is_whitespace(c: char) -> (b: bool)
    ensures
        b == is_ws_char(c),
{
    c == ' ' || c == '\t' || c == '\n' || c == '\r' || c == '\x0c'
}

/// Advances from `from` over decimal digits and returns the first position
/// that holds none.
fn scan_digits(cs: &Vec<char>, from: usize) -> (e: usize)
    requires
        from <= cs@.len(),
    ensures
        e == digit_end(cs@, from as int),
        from <= e <= cs@.len(),
{
    let n = cs.len();
    let mut e = from;
    while e < n && is_digit(cs[e])
        invariant
            from <= e <= n,
            n == cs@.len(),
            digit_end(cs@, from as int) == digit_end(cs@, e as int),
        decreases n - e,
    {
        e = e + 1;
    }
    e
}

/// How a token helper's result is tied to the token model: it returns the
/// token or the error that `spec_next_token` denotes at this position.
spec fn next_token_matches(s: Seq<char>, i: int, r: Result<Token, TokenizeError>) -> bool {
    match r {
        Ok(t) => spec_next_token(s, i) == Ok::<SpecToken, SpecTokenizeError>(t@),
        Err(e) => spec_next_token(s, i) == Err::<SpecToken, SpecTokenizeError>(e@),
    }
}

/// Matches `literal` at `offset`, emitting a token of class `type_`, or the
/// expected-literal error.
fn tokenize_literal(cs: &Vec<char>, offset: usize, literal: &str, type_: TokenType) -> (r:
    Result<Token, TokenizeError>)
    requires
        offset <= cs@.len(),
    ensures
        match r {
            Ok(t) => spec_keyword_token(cs@, offset as int, literal@, type_)
                == Ok::<SpecToken, SpecTokenizeError>(t@),
            Err(e) => spec_keyword_token(cs@, offset as int, literal@, type_)
                == Err::<SpecToken, SpecTokenizeError>(e@),
        },
{
    let n = cs.len();
    let lit_len = literal.unicode_len();
    if lit_len > n - offset {
        return Err(
            TokenizeError::new(offset, TokenizeErrorKind::ExpectedLiteral(literal.to_owned())),
        );
    }
    let mut j: usize = 0;
    while j < lit_len
        invariant
            j <= lit_len,
            lit_len == literal@.len(),
            n == cs@.len(),
            offset + lit_len <= n,
            forall|k: int| 0 <= k < j ==> cs@[offset + k] == literal@[k],
        decreases lit_len - j,
    {
        if cs[offset + j] != literal.get_char(j) {
            proof {
                assert(cs@.subrange(offset as int, offset + lit_len as int)[j as int]
                    != literal@[j as int]);
            }
            return Err(
                TokenizeError::new(
                    offset,
                    TokenizeErrorKind::ExpectedLiteral(literal.to_owned()),
                ),
            );
        }
        j = j + 1;
    }
    proof {
        assert(cs@.subrange(offset as int, offset + lit_len as int) =~= literal@);
    }
    Ok(Token::new(type_, literal, offset))
}

/// Scans the string token that opens at `offset`, through its closing quote,
/// or reports it unterminated.
fn tokenize_string(cs: &Vec<char>, input: &str, offset: usize) -> (r: Result<
    Token,
    TokenizeError,
>)
    requires
        cs@ == input@,
        offset < cs@.len(),
        cs@[offset as int] == '"',
    ensures
        next_token_matches(cs@, offset as int, r),
{
    let n = cs.len();
    let mut q = offset + 1;
    while q < n && cs[q] != '"'
        invariant
            offset + 1 <= q <= n,
            n == cs@.len(),
            quote_end(cs@, offset + 1) == quote_end(cs@, q as int),
        decreases n - q,
    {
        q = q + 1;
    }
    if q == n {
        Err(TokenizeError::new(offset, TokenizeErrorKind::UnterminatedString))
    } else {
        let value = input.substring_char(offset, q + 1);
        Ok(Token::new(TokenType::String, value, offset))
    }
}

/// Scans the number token that begins at `offset` (a digit or `-`), or
/// reports it malformed.
fn tokenize_number(cs: &Vec<char>, input: &str, offset: usize) -> (r: Result<
    Token,
    TokenizeError,
>)
    requires
        cs@ == input@,
        offset < cs@.len(),
        cs@[offset as int] == '-' || is_digit_char(cs@[offset as int]),
    ensures
        match r {
            Ok(t) => number_end(cs@, offset as int) > offset && spec_next_token(
                cs@,
                offset as int,
            ) == Ok::<SpecToken, SpecTokenizeError>(t@),
            Err(e) => number_end(cs@, offset as int) == offset && e@ == (SpecTokenizeError {
                offset: offset as int,
                kind: SpecTokenizeErrorKind::MalformedNumber,
            }),
        },
{
    let n = cs.len();
    let ds = if cs[offset] == '-' {
        offset + 1
    } else {
        offset
    };
    if ds >= n || !is_digit(cs[ds]) {
        return Err(TokenizeError::new(offset, TokenizeErrorKind::MalformedNumber));
    }
    let ie = if cs[ds] == '0' {
        ds + 1
    } else {
        scan_digits(cs, ds)
    };
    let fe = if ie < n && cs[ie] == '.' && ie + 1 < n && is_digit(cs[ie + 1]) {
        scan_digits(cs, ie + 1)
    } else {
        ie
    };
    let end = if fe < n && (cs[fe] == 'e' || cs[fe] == 'E') {
        let es = if fe + 1 < n && (cs[fe + 1] == '+' || cs[fe + 1] == '-') {
            fe + 2
        } else {
            fe + 1
        };
        if es < n && is_digit(cs[es]) {
            scan_digits(cs, es)
        } else {
            fe
        }
    } else {
        fe
    };
    proof {
        assert(digit_end(cs@, ds as int) == digit_end(cs@, ds as int + 1));
        lemma_digit_end_bounds(cs@, ds as int + 1);
        assert(end == number_end(cs@, offset as int));
        lemma_number_end_bounds(cs@, offset as int);
    }
    let value = input.substring_char(offset, end);
    Ok(Token::new(TokenType::Number, value, offset))
}

/// Scans the maximal whitespace run that begins at `offset`.
fn tokenize_whitespace(cs: &Vec<char>, input: &str, offset: usize) -> (r: Result<
    Token,
    TokenizeError,
>)
    requires
        cs@ == input@,
        offset < cs@.len(),
        is_ws_char(cs@[offset as int]),
    ensures
        next_token_matches(cs@, offset as int, r),
{
    let n = cs.len();
    let mut e = offset;
    while e < n && is_whitespace(cs[e])
        invariant
            offset <= e <= n,
            n == cs@.len(),
            ws_end(cs@, offset as int) == ws_end(cs@, e as int),
        decreases n - e,
    {
        e = e + 1;
    }
    let value = input.substring_char(offset, e);
    Ok(Token::new(TokenType::Whitespace, value, offset))
}

/// Splits the input into its token sequence, or stops at the first lexical
/// error.  The result is exactly what `spec_tokenize` denotes for the input;
/// in particular the run either fails where the model fails or covers the
/// whole input with the model's tokens.
pub fn tokenize(input: &str) -> (r: Result<Vec<Token>, TokenizeError>)
    ensures
        tokenize_post(input@, r),
        r is Ok ==> tokens_text(tokens_view(r->Ok_0@)) == input@,
        r is Ok ==> string_tokens_wf(tokens_view(r->Ok_0@)),
{
    let cs = chars_vec(input);
    let n = cs.len();
    let mut tokens: Vec<Token> = Vec::new();
    let mut offset: usize = 0;
    while offset < n
        invariant
            cs@ == input@,
            n == cs@.len(),
            offset <= n,
            match spec_tokenize_from(input@, offset as int) {
                Ok(rest) => spec_tokenize(input@) == Ok::<Seq<SpecToken>, SpecTokenizeError>(
                    tokens_view(tokens@) + rest,
                ),
                Err(e) => spec_tokenize(input@) == Err::<Seq<SpecToken>, SpecTokenizeError>(e),
            },
        decreases n - offset,
    {
        let c = cs[offset];
        let token_result: Result<Token, TokenizeError> = if c == ',' {
            let tr = tokenize_literal(&cs, offset, ",", TokenType::Comma);
            proof {
                reveal_strlit(",");
                assert(","@ =~= seq![',']);
                assert(input@.subrange(offset as int, offset as int + 1) =~= ","@);
            }
            tr
        } else if c == ':' {
            let tr = tokenize_literal(&cs, offset, ":", TokenType::Colon);
            proof {
                reveal_strlit(":");
                assert(":"@ =~= seq![':']);
                assert(input@.subrange(offset as int, offset as int + 1) =~= ":"@);
            }
            tr
        } else if c == '[' {
            let tr = tokenize_literal(&cs, offset, "[", TokenType::ArrayStart);
            proof {
                reveal_strlit("[");
                assert("["@ =~= seq!['[']);
                assert(input@.subrange(offset as int, offset as int + 1) =~= "["@);
            }
            tr
        } else if c == ']' {
            let tr = tokenize_literal(&cs, offset, "]", TokenType::ArrayEnd);
            proof {
                reveal_strlit("]");
                assert("]"@ =~= seq![']']);
                assert(input@.subrange(offset as int, offset as int + 1) =~= "]"@);
            }
            tr
        } else if c == '{' {
            let tr = tokenize_literal(&cs, offset, "{", TokenType::ObjectStart);
            proof {
                reveal_strlit("{");
                assert("{"@ =~= seq!['{']);
                assert(input@.subrange(offset as int, offset as int + 1) =~= "{"@);
            }
            tr
        } else if c == '}' {
            let tr = tokenize_literal(&cs, offset, "}", TokenType::ObjectEnd);
            proof {
                reveal_strlit("}");
                assert("}"@ =~= seq!['}']);
                assert(input@.subrange(offset as int, offset as int + 1) =~= "}"@);
            }
            tr
        } else if c == 'f' {
            let tr = tokenize_literal(&cs, offset, "false", TokenType::False);
            proof {
                reveal_strlit("false");
                assert("false"@ =~= kw_false());
            }
            tr
        } else if c == 'n' {
            let tr = tokenize_literal(&cs, offset, "null", TokenType::Null);
            proof {
                reveal_strlit("null");
                assert("null"@ =~= kw_null());
            }
            tr
        } else if c == 't' {
            let tr = tokenize_literal(&cs, offset, "true", TokenType::True);
            proof {
                reveal_strlit("true");
                assert("true"@ =~= kw_true());
            }
            tr
        } else if c == '"' {
            tokenize_string(&cs, input, offset)
        } else if c == '-' || is_digit(c) {
            tokenize_number(&cs, input, offset)
        } else if is_whitespace(c) {
            tokenize_whitespace(&cs, input, offset)
        } else {
            Err(TokenizeError::new(offset, TokenizeErrorKind::UnhandledCharacter))
        };
        proof {
            assert(next_token_matches(input@, offset as int, token_result));
        }
        match token_result {
            Ok(token) => {
                proof {
                    lemma_next_token_shape(input@, offset as int);
                }
                let step = token.len();
                let ghost prev = tokens@;
                tokens.push(token);
                proof {
                    let s = input@;
                    let t = spec_next_token(s, offset as int)->Ok_0;
                    assert(tokens_view(tokens@) =~= tokens_view(prev).push(t));
                    if spec_tokenize_from(s, offset + step) is Ok {
                        let rest = spec_tokenize_from(s, offset + step)->Ok_0;
                        assert(tokens_view(prev) + (seq![t] + rest) =~= tokens_view(tokens@)
                            + rest);
                    }
                }
                offset = offset + step;
            },
            Err(e) => {
                return Err(e);
            },
        }
    }
    proof {
        assert(tokens_view(tokens@) + Seq::<SpecToken>::empty() =~= tokens_view(tokens@));
        lemma_tokenize_covers_input(input@);
        lemma_tokenize_strings_quoted(input@);
    }
    Ok(tokens)
}

/// The texts of the given tokens, concatenated in order.
pub open spec fn tokens_text(ts: Seq<SpecToken>) -> Seq<char>
    decreases ts.len(),
{
    if ts.len() == 0 {
        Seq::empty()
    } else {
        ts[0].value + tokens_text(ts.drop_first())
    }
}

/// Every string token in `ts` still carries both of its delimiting quotes.
pub open spec fn string_tokens_wf(ts: Seq<SpecToken>) -> bool {
    forall|k: int|
        0 <= k < ts.len() && ts[k].type_ == TokenType::String ==> ts[k].value.len() >= 2
}

proof fn lemma_tokens_text_cons(t: SpecToken, ts: Seq<SpecToken>)
    ensures
        tokens_text(seq![t] + ts) == t.value + tokens_text(ts),
{
    assert((seq![t] + ts).drop_first() =~= ts);
    assert((seq![t] + ts)[0] == t);
}

proof fn lemma_tokens_text_push(ts: Seq<SpecToken>, t: SpecToken)
    ensures
        tokens_text(ts.push(t)) == tokens_text(ts) + t.value,
    decreases ts.len(),
{
    if ts.len() == 0 {
        assert(ts.push(t) =~= seq![t] + Seq::empty());
        lemma_tokens_text_cons(t, Seq::empty());
        assert(tokens_text(ts) + t.value =~= t.value + tokens_text(Seq::empty()));
    } else {
        assert(ts.push(t).drop_first() =~= ts.drop_first().push(t));
        lemma_tokens_text_push(ts.drop_first(), t);
        assert(ts[0].value + (tokens_text(ts.drop_first()) + t.value) =~= (ts[0].value
            + tokens_text(ts.drop_first())) + t.value);
    }
}

proof fn lemma_tokenize_from_covers(s: Seq<char>, i: int)
    requires
        0 <= i <= s.len(),
        spec_tokenize_from(s, i) is Ok,
    ensures
        ({
            let ts = spec_tokenize_from(s, i)->Ok_0;
            &&& tokens_text(ts) == s.subrange(i, s.len() as int)
            &&& forall|k: int|
                0 <= k < ts.len() ==> #[trigger] ts[k].offset == i + tokens_text(
                    ts.take(k),
                ).len()
            &&& string_tokens_wf(ts)
        }),
    decreases s.len() - i,
{
    let ts = spec_tokenize_from(s, i)->Ok_0;
    if i >= s.len() {
        assert(tokens_text(ts) =~= s.subrange(i, s.len() as int));
    } else {
        let t = spec_next_token(s, i)->Ok_0;
        let l = t.value.len() as int;
        lemma_next_token_shape(s, i);
        let rest = spec_tokenize_from(s, i + l)->Ok_0;
        lemma_tokenize_from_covers(s, i + l);
        assert(ts == seq![t] + rest);
        lemma_tokens_text_cons(t, rest);
        assert(tokens_text(ts) =~= s.subrange(i, s.len() as int)) by {
            assert(t.value + s.subrange(i + l, s.len() as int) =~= s.subrange(
                i,
                s.len() as int,
            ));
        }
        assert forall|k: int| 0 <= k < ts.len() implies #[trigger] ts[k].offset == i
            + tokens_text(ts.take(k)).len() by {
            if k == 0 {
                assert(ts.take(0) =~= Seq::empty());
            } else {
                assert(ts[k] == rest[k - 1]);
                assert(rest[k - 1].offset == i + l + tokens_text(rest.take(k - 1)).len());
                assert(ts.take(k) =~= seq![t] + rest.take(k - 1));
                lemma_tokens_text_cons(t, rest.take(k - 1));
            }
        }
        assert forall|k: int|
            0 <= k < ts.len() && ts[k].type_ == TokenType::String implies ts[k].value.len()
            >= 2 by {
            if k > 0 {
                assert(ts[k] == rest[k - 1]);
            }
        }
    }
}

/// Coverage law: whenever tokenization succeeds, concatenating every emitted
/// token's text, in order and including whitespace tokens, reproduces the
/// input exactly.
pub proof fn lemma_tokenize_covers_input(s: Seq<char>)
    requires
        spec_tokenize(s) is Ok,
    ensures
        tokens_text(spec_tokenize(s)->Ok_0) == s,
{
    lemma_tokenize_from_covers(s, 0);
    assert(s.subrange(0, s.len() as int) =~= s);
}

/// Offset law: each emitted token starts exactly where the text of the
/// tokens before it ends; in particular offsets never decrease.
pub proof fn lemma_tokenize_offsets(s: Seq<char>)
    requires
        spec_tokenize(s) is Ok,
    ensures
        ({
            let ts = spec_tokenize(s)->Ok_0;
            &&& forall|k: int|
                0 <= k < ts.len() ==> #[trigger] ts[k].offset == tokens_text(ts.take(k)).len()
            &&& forall|k: int|
                0 <= k && k + 1 < ts.len() ==> #[trigger] ts[k].offset <= ts[k + 1].offset
        }),
{
    let ts = spec_tokenize(s)->Ok_0;
    lemma_tokenize_from_covers(s, 0);
    assert forall|k: int| 0 <= k && k + 1 < ts.len() implies #[trigger] ts[k].offset <= ts[k
        + 1].offset by {
        assert(ts.take(k + 1) =~= ts.take(k).push(ts[k]));
        lemma_tokens_text_push(ts.take(k), ts[k]);
    }
}

/// Determinism law: two results that both meet `tokenize`'s contract for
/// the same input are the same token sequence, or the same error, image for
/// image.
pub proof fn lemma_tokenize_deterministic(
    s: Seq<char>,
    r1: Result<Vec<Token>, TokenizeError>,
    r2: Result<Vec<Token>, TokenizeError>,
)
    requires
        tokenize_post(s, r1),
        tokenize_post(s, r2),
    ensures
        r1 is Ok <==> r2 is Ok,
        r1 is Ok ==> tokens_view(r1->Ok_0@) == tokens_view(r2->Ok_0@),
        r1 is Err ==> r1->Err_0@ == r2->Err_0@,
{
}

/// Quoting law: every string token a successful tokenization emits still
/// carries both delimiting quotes, so its text is at least two characters.
pub proof fn lemma_tokenize_strings_quoted(s: Seq<char>)
    requires
        spec_tokenize(s) is Ok,
    ensures
        string_tokens_wf(spec_tokenize(s)->Ok_0),
{
    lemma_tokenize_from_covers(s, 0);
}

} // verus!
