//! Recursive-descent parsing: turn the tokenizer's output into a tree-shaped
//! JSON value, or fail with a positioned syntax error.
//!
//! Whitespace tokens are discarded first; every error position is an index
//! into the remaining token sequence.  The parser is specified by
//! `spec_parse`, a mathematical recursive-descent parser over token models;
//! `parse` is proved to return exactly what `spec_parse` denotes.

use vstd::prelude::*;

use crate::number::parse_i32;
use crate::number::spec_i32_of;
use crate::tokenizer::string_tokens_wf;
use crate::tokenizer::tokens_view;
use crate::tokenizer::SpecToken;
use crate::tokenizer::Token;
use crate::tokenizer::TokenType;

verus! {

/// A parsed JSON datum.  Numbers are held as `i32`; an object keeps its
/// entries in first-appearance order with pairwise distinct keys.
#[derive(Debug, PartialEq)]
pub enum Json {
    Null,
    Boolean(bool),
    Integer(i32),
    String(String),
    Array(Vec<Json>),
    Object(Vec<(String, Json)>),
}

/// The mathematical image of a [`Json`] value.
pub enum SpecJson {
    Null,
    Bool(bool),
    Int(int),
    Str(Seq<char>),
    Arr(Seq<SpecJson>),
    Obj(Seq<(Seq<char>, SpecJson)>),
}

/// Why parsing failed; the closed set of syntax error classes.  The classes
/// that concern one offending token carry that token's text.
#[derive(Debug, PartialEq, Eq)]
pub enum ParseErrorKind {
    /// The tokens ran out where the grammar demanded one more.
    UnexpectedEndOfInput,
    /// A complete value was parsed but tokens remain after it.
    UnexpectedExtraInput,
    /// Inside an array, neither a comma nor a closing bracket followed.
    UnexpectedTokenInArray(String),
    /// Inside an object, the expected colon, comma or closing brace failed.
    UnexpectedTokenInObject(String),
    /// An object key was not a string token.
    CannotParseAsString(String),
    /// A number token's text does not denote an `i32`.
    CannotParseAsNumber(String),
    /// The token cannot begin a value.
    FoundUnexpectedToken(String),
}

/// A syntax error: its position, as an index into the whitespace-filtered
/// token sequence, and its class.
#[derive(Debug, PartialEq, Eq)]
pub struct ParseError {
    pub offset: usize,
    pub kind: ParseErrorKind,
}

/// The mathematical image of a [`ParseErrorKind`].
pub enum SpecParseErrorKind {
    UnexpectedEndOfInput,
    UnexpectedExtraInput,
    UnexpectedTokenInArray(Seq<char>),
    UnexpectedTokenInObject(Seq<char>),
    CannotParseAsString(Seq<char>),
    CannotParseAsNumber(Seq<char>),
    FoundUnexpectedToken(Seq<char>),
}

/// The mathematical image of a [`ParseError`].
pub struct SpecParseError {
    pub offset: int,
    pub kind: SpecParseErrorKind,
}

impl View for ParseErrorKind {
    type V = SpecParseErrorKind;

    open spec fn view(&self) -> SpecParseErrorKind {
        match self {
            ParseErrorKind::UnexpectedEndOfInput => SpecParseErrorKind::UnexpectedEndOfInput,
            ParseErrorKind::UnexpectedExtraInput => SpecParseErrorKind::UnexpectedExtraInput,
            ParseErrorKind::UnexpectedTokenInArray(t) => SpecParseErrorKind::UnexpectedTokenInArray(
                t@,
            ),
            ParseErrorKind::UnexpectedTokenInObject(
                t,
            ) => SpecParseErrorKind::UnexpectedTokenInObject(t@),
            ParseErrorKind::CannotParseAsString(t) => SpecParseErrorKind::CannotParseAsString(
                t@,
            ),
            ParseErrorKind::CannotParseAsNumber(t) => SpecParseErrorKind::CannotParseAsNumber(
                t@,
            ),
            ParseErrorKind::FoundUnexpectedToken(t) => SpecParseErrorKind::FoundUnexpectedToken(
                t@,
            ),
        }
    }
}

impl View for ParseError {
    type V = SpecParseError;

    open spec fn view(&self) -> SpecParseError {
        SpecParseError { offset: self.offset as int, kind: self.kind@ }
    }
}

/// The message text each syntax error class is rendered with.
pub open spec fn spec_parse_message(k: SpecParseErrorKind) -> Seq<char> {
    match k {
        SpecParseErrorKind::UnexpectedEndOfInput => "Unexpected end of input"@,
        SpecParseErrorKind::UnexpectedExtraInput => "Unexpected extra input found"@,
        SpecParseErrorKind::UnexpectedTokenInArray(t) => "Unexpected token `"@ + t
            + "` in array"@,
        SpecParseErrorKind::UnexpectedTokenInObject(t) => "Unexpected token `"@ + t
            + "` in object"@,
        SpecParseErrorKind::CannotParseAsString(t) => "Cannot parse `"@ + t + "` as string"@,
        SpecParseErrorKind::CannotParseAsNumber(t) => "Cannot parse `"@ + t + "` as integer"@,
        SpecParseErrorKind::FoundUnexpectedToken(t) => "Found unexpected token `"@ + t + "`"@,
    }
}

impl ParseError {
    /// Builds a syntax error from its position and its class.
    pub fn new(offset: usize, kind: ParseErrorKind) -> (e: ParseError)
        ensures
            e@ == (SpecParseError { offset: offset as int, kind: kind@ }),
    {
        ParseError { offset, kind }
    }

    /// The error's message line, ready to be shown beside its position.
    pub fn message(&self) -> (m: String)
        ensures
            m@ == spec_parse_message(self@.kind),
    {
        match &self.kind {
            ParseErrorKind::UnexpectedEndOfInput => "Unexpected end of input".to_owned(),
            ParseErrorKind::UnexpectedExtraInput => "Unexpected extra input found".to_owned(),
            ParseErrorKind::UnexpectedTokenInArray(t) => {
                let mut m = "Unexpected token `".to_owned();
                m.append(t.as_str());
                m.append("` in array");
                m
            },
            ParseErrorKind::UnexpectedTokenInObject(t) => {
                let mut m = "Unexpected token `".to_owned();
                m.append(t.as_str());
                m.append("` in object");
                m
            },
            ParseErrorKind::CannotParseAsString(t) => {
                let mut m = "Cannot parse `".to_owned();
                m.append(t.as_str());
                m.append("` as string");
                m
            },
            ParseErrorKind::CannotParseAsNumber(t) => {
                let mut m = "Cannot parse `".to_owned();
                m.append(t.as_str());
                m.append("` as integer");
                m
            },
            ParseErrorKind::FoundUnexpectedToken(t) => {
                let mut m = "Found unexpected token `".to_owned();
                m.append(t.as_str());
                m.append("`");
                m
            },
        }
    }
}

/// The image of a [`Json`] value in the mathematical world.
pub open spec fn view_json(j: Json) -> SpecJson
    decreases j,
{
    match j {
        Json::Null => SpecJson::Null,
        Json::Boolean(b) => SpecJson::Bool(b),
        Json::Integer(n) => SpecJson::Int(n as int),
        Json::String(s) => SpecJson::Str(s@),
        Json::Array(elems) => SpecJson::Arr(view_json_seq(elems@)),
        Json::Object(entries) => SpecJson::Obj(view_entry_seq(entries@)),
    }
}

/// The images of the elements of an array, in order.
pub open spec fn view_json_seq(s: Seq<Json>) -> Seq<SpecJson>
    decreases s,
{
    if s.len() == 0 {
        Seq::empty()
    } else {
        seq![view_json(s[0])] + view_json_seq(s.subrange(1, s.len() as int))
    }
}

/// The images of the entries of an object, in order.
pub open spec fn view_entry_seq(s: Seq<(String, Json)>) -> Seq<(Seq<char>, SpecJson)>
    decreases s,
{
    if s.len() == 0 {
        Seq::empty()
    } else {
        seq![(s[0].0@, view_json(s[0].1))] + view_entry_seq(s.subrange(1, s.len() as int))
    }
}

proof fn lemma_view_json_seq_index(s: Seq<Json>)
    ensures
        view_json_seq(s).len() == s.len(),
        forall|k: int| 0 <= k < s.len() ==> view_json_seq(s)[k] == view_json(#[trigger] s[k]),
    decreases s.len(),
{
    if s.len() > 0 {
        let rest = s.subrange(1, s.len() as int);
        lemma_view_json_seq_index(rest);
        assert forall|k: int| 0 <= k < s.len() implies view_json_seq(s)[k] == view_json(
            #[trigger] s[k],
        ) by {
            if k > 0 {
                assert(rest[k - 1] == s[k]);
            }
        }
    }
}

proof fn lemma_view_json_seq_push(s: Seq<Json>, j: Json)
    ensures
        view_json_seq(s.push(j)) == view_json_seq(s).push(view_json(j)),
{
    lemma_view_json_seq_index(s.push(j));
    lemma_view_json_seq_index(s);
    assert forall|k: int| 0 <= k < s.len() + 1 implies view_json_seq(s.push(j))[k]
        == view_json_seq(s).push(view_json(j))[k] by {
        assert(view_json_seq(s.push(j))[k] == view_json(s.push(j)[k]));
        if k < s.len() {
            assert(s.push(j)[k] == s[k]);
            assert(view_json_seq(s)[k] == view_json(s[k]));
        } else {
            assert(s.push(j)[k] == j);
        }
    }
    assert(view_json_seq(s.push(j)) =~= view_json_seq(s).push(view_json(j)));
}

proof fn lemma_view_entry_seq_index(s: Seq<(String, Json)>)
    ensures
        view_entry_seq(s).len() == s.len(),
        forall|k: int|
            0 <= k < s.len() ==> view_entry_seq(s)[k] == ((#[trigger] s[k]).0@, view_json(
                s[k].1,
            )),
    decreases s.len(),
{
    if s.len() > 0 {
        let rest = s.subrange(1, s.len() as int);
        lemma_view_entry_seq_index(rest);
        assert forall|k: int| 0 <= k < s.len() implies view_entry_seq(s)[k] == ((
        #[trigger] s[k]).0@, view_json(s[k].1)) by {
            if k > 0 {
                assert(rest[k - 1] == s[k]);
            }
        }
    }
}

/// The token sequence with every whitespace token removed and the order of
/// the rest kept.
pub open spec fn without_ws(ts: Seq<SpecToken>) -> Seq<SpecToken>
    decreases ts.len(),
{
    if ts.len() == 0 {
        Seq::empty()
    } else if ts[0].type_ == TokenType::Whitespace {
        without_ws(ts.drop_first())
    } else {
        seq![ts[0]] + without_ws(ts.drop_first())
    }
}

/// A string token's text without its two delimiting quotes; no escape
/// sequences are decoded.
pub open spec fn strip_quotes(v: Seq<char>) -> Seq<char> {
    v.subrange(1, v.len() - 1)
}

/// The lowest position at or after `from` whose entry is keyed `key`.
pub open spec fn entry_index(
    s: Seq<(Seq<char>, SpecJson)>,
    key: Seq<char>,
    from: int,
) -> Option<int>
    decreases s.len() - from,
{
    if !(0 <= from < s.len()) {
        None
    } else if s[from].0 == key {
        Some(from)
    } else {
        entry_index(s, key, from + 1)
    }
}

/// Binds `key` to `v`: overwrites the value of the entry already keyed
/// `key`, keeping its place, or appends a new entry.  The last write to a
/// key therefore wins, and keys stay pairwise distinct.
pub open spec fn entries_insert(
    s: Seq<(Seq<char>, SpecJson)>,
    key: Seq<char>,
    v: SpecJson,
) -> Seq<(Seq<char>, SpecJson)> {
    match entry_index(s, key, 0) {
        Some(k) => s.update(k, (key, v)),
        None => s.push((key, v)),
    }
}

/// The value bound to `key` among the entries, if any.
pub open spec fn entry_lookup(s: Seq<(Seq<char>, SpecJson)>, key: Seq<char>) -> Option<
    SpecJson,
> {
    match entry_index(s, key, 0) {
        Some(k) => Some(s[k].1),
        None => None,
    }
}

/// The entries' keys are pairwise distinct.
pub open spec fn entry_keys_distinct(s: Seq<(Seq<char>, SpecJson)>) -> bool {
    forall|k1: int, k2: int|
        0 <= k1 < k2 < s.len() ==> (#[trigger] s[k1]).0 != (#[trigger] s[k2]).0
}

proof fn lemma_entry_index_props(s: Seq<(Seq<char>, SpecJson)>, key: Seq<char>, from: int)
    requires
        0 <= from,
    ensures
        match entry_index(s, key, from) {
            Some(k) => from <= k < s.len() && s[k].0 == key && (forall|m: int|
                from <= m < k ==> (#[trigger] s[m]).0 != key),
            None => forall|m: int| from <= m < s.len() ==> (#[trigger] s[m]).0 != key,
        },
    decreases s.len() - from,
{
    if from < s.len() && s[from].0 != key {
        lemma_entry_index_props(s, key, from + 1);
    }
}

proof fn lemma_entry_index_compute(
    s: Seq<(Seq<char>, SpecJson)>,
    key: Seq<char>,
    from: int,
    k: int,
)
    requires
        0 <= from <= k < s.len(),
        s[k].0 == key,
        forall|m: int| from <= m < k ==> (#[trigger] s[m]).0 != key,
    ensures
        entry_index(s, key, from) == Some(k),
    decreases k - from,
{
    if from < k {
        lemma_entry_index_compute(s, key, from + 1, k);
    }
}

proof fn lemma_entry_index_compute_none(
    s: Seq<(Seq<char>, SpecJson)>,
    key: Seq<char>,
    from: int,
)
    requires
        0 <= from,
        forall|m: int| from <= m < s.len() ==> (#[trigger] s[m]).0 != key,
    ensures
        entry_index(s, key, from) is None,
    decreases s.len() - from,
{
    if from < s.len() {
        lemma_entry_index_compute_none(s, key, from + 1);
    }
}

/// Binding law: after `entries_insert`, `key` is bound to exactly `v` — the
/// last write to a key wins — and every other key keeps the binding it had.
pub proof fn lemma_entries_insert_binds(
    s: Seq<(Seq<char>, SpecJson)>,
    key: Seq<char>,
    v: SpecJson,
    other: Seq<char>,
)
    ensures
        entry_lookup(entries_insert(s, key, v), key) == Some(v),
        other != key ==> entry_lookup(entries_insert(s, key, v), other) == entry_lookup(
            s,
            other,
        ),
{
    lemma_entry_index_props(s, key, 0);
    match entry_index(s, key, 0) {
        Some(k) => {
            let s2 = s.update(k, (key, v));
            lemma_entry_index_compute(s2, key, 0, k);
            if other != key {
                lemma_entry_index_props(s, other, 0);
                match entry_index(s, other, 0) {
                    Some(j) => {
                        assert(j != k);
                        lemma_entry_index_compute(s2, other, 0, j);
                    },
                    None => {
                        lemma_entry_index_compute_none(s2, other, 0);
                    },
                }
            }
        },
        None => {
            let s2 = s.push((key, v));
            assert(s2[s.len() as int].0 == key);
            lemma_entry_index_compute(s2, key, 0, s.len() as int);
            if other != key {
                lemma_entry_index_props(s, other, 0);
                match entry_index(s, other, 0) {
                    Some(j) => {
                        lemma_entry_index_compute(s2, other, 0, j);
                    },
                    None => {
                        lemma_entry_index_compute_none(s2, other, 0);
                    },
                }
            }
        },
    }
}

/// Distinctness law: `entries_insert` keeps the entries' keys pairwise
/// distinct, so an object never holds two entries for one key.
pub proof fn lemma_entries_insert_distinct(
    s: Seq<(Seq<char>, SpecJson)>,
    key: Seq<char>,
    v: SpecJson,
)
    requires
        entry_keys_distinct(s),
    ensures
        entry_keys_distinct(entries_insert(s, key, v)),
{
    lemma_entry_index_props(s, key, 0);
    match entry_index(s, key, 0) {
        Some(k) => {
            let s2 = s.update(k, (key, v));
            assert forall|k1: int, k2: int| 0 <= k1 < k2 < s2.len() implies (
            #[trigger] s2[k1]).0 != (#[trigger] s2[k2]).0 by {
                assert(s2[k1].0 == s[k1].0);
                assert(s2[k2].0 == s[k2].0);
            }
        },
        None => {
            let s2 = s.push((key, v));
            assert forall|k1: int, k2: int| 0 <= k1 < k2 < s2.len() implies (
            #[trigger] s2[k1]).0 != (#[trigger] s2[k2]).0 by {
                if k2 == s.len() {
                    assert(s2[k1].0 == s[k1].0);
                } else {
                    assert(s2[k1].0 == s[k1].0);
                    assert(s2[k2].0 == s[k2].0);
                }
            }
        },
    }
}

/// One value of the grammar, parsed at position `i`: a scalar from a single
/// token, or a whole array or object.  Returns the value's image and the
/// position after it.
pub open spec fn spec_parse_value(ts: Seq<SpecToken>, i: int) -> Result<
    (SpecJson, int),
    SpecParseError,
>
    decreases ts.len() - i, 0int,
{
    if !(0 <= i < ts.len()) {
        Err(SpecParseError { offset: i, kind: SpecParseErrorKind::UnexpectedEndOfInput })
    } else {
        let t = ts[i];
        match t.type_ {
            TokenType::Null => Ok((SpecJson::Null, i + 1)),
            TokenType::True => Ok((SpecJson::Bool(true), i + 1)),
            TokenType::False => Ok((SpecJson::Bool(false), i + 1)),
            TokenType::Number => match spec_i32_of(t.value) {
                Some(v) => Ok((SpecJson::Int(v), i + 1)),
                None => Err(
                    SpecParseError {
                        offset: i,
                        kind: SpecParseErrorKind::CannotParseAsNumber(t.value),
                    },
                ),
            },
            TokenType::String => Ok((SpecJson::Str(strip_quotes(t.value)), i + 1)),
            TokenType::ArrayStart => {
                if i + 1 < ts.len() && ts[i + 1].type_ == TokenType::ArrayEnd {
                    Ok((SpecJson::Arr(Seq::empty()), i + 2))
                } else if i + 1 >= ts.len() {
                    Err(
                        SpecParseError {
                            offset: i + 1,
                            kind: SpecParseErrorKind::UnexpectedEndOfInput,
                        },
                    )
                } else {
                    spec_parse_elements(ts, i + 1, Seq::empty())
                }
            },
            TokenType::ObjectStart => {
                if i + 1 < ts.len() && ts[i + 1].type_ == TokenType::ObjectEnd {
                    Ok((SpecJson::Obj(Seq::empty()), i + 2))
                } else if i + 1 >= ts.len() {
                    Err(
                        SpecParseError {
                            offset: i + 1,
                            kind: SpecParseErrorKind::UnexpectedEndOfInput,
                        },
                    )
                } else {
                    spec_parse_members(ts, i + 1, Seq::empty())
                }
            },
            _ => Err(
                SpecParseError {
                    offset: i,
                    kind: SpecParseErrorKind::FoundUnexpectedToken(t.value),
                },
            ),
        }
    }
}

/// The elements of an array from position `i` on, `acc` holding the images
/// of the elements already parsed: one more element, then a comma to
/// continue or a closing bracket to finish.
pub open spec fn spec_parse_elements(
    ts: Seq<SpecToken>,
    i: int,
    acc: Seq<SpecJson>,
) -> Result<(SpecJson, int), SpecParseError>
    decreases ts.len() - i, 1int,
{
    match spec_parse_value(ts, i) {
        Err(e) => Err(e),
        Ok((v, j)) => {
            if !(i < j <= ts.len()) {
                // a parsed value always ends past where it began and inside
                // the tokens, so this case cannot arise; it keeps the
                // recursion visibly well-founded
                Err(SpecParseError { offset: j, kind: SpecParseErrorKind::UnexpectedEndOfInput })
            } else if j == ts.len() {
                Err(SpecParseError { offset: j, kind: SpecParseErrorKind::UnexpectedEndOfInput })
            } else if ts[j].type_ == TokenType::Comma {
                spec_parse_elements(ts, j + 1, acc.push(v))
            } else if ts[j].type_ == TokenType::ArrayEnd {
                Ok((SpecJson::Arr(acc.push(v)), j + 1))
            } else {
                Err(
                    SpecParseError {
                        offset: j,
                        kind: SpecParseErrorKind::UnexpectedTokenInArray(ts[j].value),
                    },
                )
            }
        },
    }
}

/// The members of an object from position `i` on, `acc` holding the images
/// of the entries already bound: a string key, a colon, a value, then a
/// comma to continue or a closing brace to finish.
pub open spec fn spec_parse_members(
    ts: Seq<SpecToken>,
    i: int,
    acc: Seq<(Seq<char>, SpecJson)>,
) -> Result<(SpecJson, int), SpecParseError>
    decreases ts.len() - i, 1int,
{
    if !(0 <= i < ts.len()) {
        Err(SpecParseError { offset: i, kind: SpecParseErrorKind::UnexpectedEndOfInput })
    } else if ts[i].type_ != TokenType::String {
        Err(
            SpecParseError {
                offset: i,
                kind: SpecParseErrorKind::CannotParseAsString(ts[i].value),
            },
        )
    } else {
        let key = strip_quotes(ts[i].value);
        if i + 1 >= ts.len() {
            Err(
                SpecParseError {
                    offset: i + 1,
                    kind: SpecParseErrorKind::UnexpectedEndOfInput,
                },
            )
        } else if ts[i + 1].type_ != TokenType::Colon {
            Err(
                SpecParseError {
                    offset: i + 1,
                    kind: SpecParseErrorKind::UnexpectedTokenInObject(ts[i + 1].value),
                },
            )
        } else {
            match spec_parse_value(ts, i + 2) {
                Err(e) => Err(e),
                Ok((v, j)) => {
                    let acc2 = entries_insert(acc, key, v);
                    if !(i + 2 < j <= ts.len()) {
                        // cannot arise, as in `spec_parse_elements`
                        Err(
                            SpecParseError {
                                offset: j,
                                kind: SpecParseErrorKind::UnexpectedEndOfInput,
                            },
                        )
                    } else if j == ts.len() {
                        Err(
                            SpecParseError {
                                offset: j,
                                kind: SpecParseErrorKind::UnexpectedEndOfInput,
                            },
                        )
                    } else if ts[j].type_ == TokenType::Comma {
                        spec_parse_members(ts, j + 1, acc2)
                    } else if ts[j].type_ == TokenType::ObjectEnd {
                        Ok((SpecJson::Obj(acc2), j + 1))
                    } else {
                        Err(
                            SpecParseError {
                                offset: j,
                                kind: SpecParseErrorKind::UnexpectedTokenInObject(ts[j].value),
                            },
                        )
                    }
                },
            }
        }
    }
}

/// The value the token sequence denotes: whitespace is discarded, exactly
/// one value is parsed, and leftover tokens are an error positioned at the
/// first of them.
pub open spec fn spec_parse(ts: Seq<SpecToken>) -> Result<SpecJson, SpecParseError> {
    let f = without_ws(ts);
    match spec_parse_value(f, 0) {
        Err(e) => Err(e),
        Ok((v, j)) => if j < f.len() {
            Err(SpecParseError { offset: j, kind: SpecParseErrorKind::UnexpectedExtraInput })
        } else {
            Ok(v)
        },
    }
}

/// What `parse` promises: the returned value, or the returned error, is
/// exactly what `spec_parse` denotes for the tokens handed in.
pub open spec fn parse_post(ts: Seq<SpecToken>, r: Result<Json, ParseError>) -> bool {
    match r {
        Ok(j) => spec_parse(ts) == Ok::<SpecJson, SpecParseError>(view_json(j)),
        Err(e) => spec_parse(ts) == Err::<SpecJson, SpecParseError>(e@),
    }
}

proof fn lemma_view_entry_seq_push(s: Seq<(String, Json)>, e: (String, Json))
    ensures
        view_entry_seq(s.push(e)) == view_entry_seq(s).push((e.0@, view_json(e.1))),
{
    lemma_view_entry_seq_index(s.push(e));
    lemma_view_entry_seq_index(s);
    assert forall|k: int| 0 <= k < s.len() + 1 implies view_entry_seq(s.push(e))[k]
        == view_entry_seq(s).push((e.0@, view_json(e.1)))[k] by {
        if k < s.len() {
            assert(s.push(e)[k] == s[k]);
        } else {
            assert(s.push(e)[k] == e);
        }
    }
    assert(view_entry_seq(s.push(e)) =~= view_entry_seq(s).push((e.0@, view_json(e.1))));
}

proof fn lemma_view_entry_seq_update(s: Seq<(String, Json)>, k: int, e: (String, Json))
    requires
        0 <= k < s.len(),
    ensures
        view_entry_seq(s.update(k, e)) == view_entry_seq(s).update(k, (e.0@, view_json(e.1))),
{
    lemma_view_entry_seq_index(s.update(k, e));
    lemma_view_entry_seq_index(s);
    assert forall|m: int| 0 <= m < s.len() implies view_entry_seq(s.update(k, e))[m]
        == view_entry_seq(s).update(k, (e.0@, view_json(e.1)))[m] by {
        if m == k {
            assert(s.update(k, e)[m] == e);
        } else {
            assert(s.update(k, e)[m] == s[m]);
        }
    }
    assert(view_entry_seq(s.update(k, e)) =~= view_entry_seq(s).update(
        k,
        (e.0@, view_json(e.1)),
    ));
}

/// Binds `key` to `value` among the entries, exactly as `entries_insert`
/// does on the images: an entry already keyed `key` has its value
/// overwritten in place, otherwise the new entry is appended.
fn insert_entry(entries: &mut Vec<(String, Json)>, key: String, value: Json)
    ensures
        view_entry_seq(final(entries)@) == entries_insert(
            view_entry_seq(old(entries)@),
            key@,
            view_json(value),
        ),
{
    let n = entries.len();
    let mut k: usize = 0;
    while k < n
        invariant
            k <= n,
            n == entries@.len(),
            entries@ == old(entries)@,
            entry_index(view_entry_seq(entries@), key@, 0) == entry_index(
                view_entry_seq(entries@),
                key@,
                k as int,
            ),
        decreases n - k,
    {
        proof {
            lemma_view_entry_seq_index(entries@);
        }
        if entries[k].0 == key {
            proof {
                assert(view_entry_seq(entries@)[k as int].0 == key@);
                lemma_view_entry_seq_update(entries@, k as int, (key, value));
            }
            entries[k] = (key, value);
            return ;
        }
        proof {
            assert(view_entry_seq(entries@)[k as int].0 != key@);
        }
        k = k + 1;
    }
    proof {
        lemma_view_entry_seq_index(entries@);
        assert(entry_index(view_entry_seq(entries@), key@, n as int) is None);
        lemma_view_entry_seq_push(entries@, (key, value));
    }
    entries.push((key, value));
}

/// How an internal parsing step's result is tied to the parser model: the
/// step returns the value and end position, or the error, that
/// `spec_parse_value` denotes at this position.
spec fn value_result_matches(
    ts: Seq<SpecToken>,
    i: int,
    r: Result<(Json, usize), ParseError>,
) -> bool {
    match r {
        Ok(p) => spec_parse_value(ts, i) == Ok::<(SpecJson, int), SpecParseError>(
            (view_json(p.0), p.1 as int),
        ) && i < p.1 <= ts.len(),
        Err(e) => spec_parse_value(ts, i) == Err::<(SpecJson, int), SpecParseError>(e@),
    }
}

/// Reads the string token at `i` and yields its text without the delimiting
/// quotes, advancing by one token; errs when the tokens have run out or the
/// token at `i` is no string.
fn parse_string_key(ts: &Vec<Token>, i: usize) -> (r: Result<(String, usize), ParseError>)
    requires
        string_tokens_wf(tokens_view(ts@)),
        i <= ts@.len(),
    ensures
        match r {
            Ok(p) => {
                &&& i < ts@.len()
                &&& tokens_view(ts@)[i as int].type_ == TokenType::String
                &&& p.0@ == strip_quotes(tokens_view(ts@)[i as int].value)
                &&& p.1 == i + 1
            },
            Err(e) => {
                ||| (i == ts@.len() && e@ == (SpecParseError {
                    offset: i as int,
                    kind: SpecParseErrorKind::UnexpectedEndOfInput,
                }))
                ||| (i < ts@.len() && tokens_view(ts@)[i as int].type_ != TokenType::String
                    && e@ == (SpecParseError {
                    offset: i as int,
                    kind: SpecParseErrorKind::CannotParseAsString(
                        tokens_view(ts@)[i as int].value,
                    ),
                }))
            },
        },
{
    if i >= ts.len() {
        return Err(ParseError::new(i, ParseErrorKind::UnexpectedEndOfInput));
    }
    proof {
        assert(tokens_view(ts@)[i as int] == ts@[i as int]@);
    }
    let t = &ts[i];
    if t.type_ != TokenType::String {
        return Err(
            ParseError::new(i, ParseErrorKind::CannotParseAsString(t.value.clone())),
        );
    }
    proof {
        assert(tokens_view(ts@)[i as int].value.len() >= 2);
    }
    let v = t.value.as_str();
    let l = v.unicode_len();
    let stripped = v.substring_char(1, l - 1);
    Ok((stripped.to_owned(), i + 1))
}

/// Parses the string token at `i` as a JSON string value.
fn parse_string(ts: &Vec<Token>, i: usize) -> (r: Result<(Json, usize), ParseError>)
    requires
        string_tokens_wf(tokens_view(ts@)),
        i < ts@.len(),
        tokens_view(ts@)[i as int].type_ == TokenType::String,
    ensures
        value_result_matches(tokens_view(ts@), i as int, r),
{
    match parse_string_key(ts, i) {
        Ok(p) => Ok((Json::String(p.0), p.1)),
        Err(e) => Err(e),
    }
}

/// Parses one value at position `i`: a scalar from a single token, or a
/// whole array or object from the bracket at `i` to its matching close.
fn parse_value(ts: &Vec<Token>, i: usize) -> (r: Result<(Json, usize), ParseError>)
    requires
        string_tokens_wf(tokens_view(ts@)),
        i <= ts@.len(),
    ensures
        value_result_matches(tokens_view(ts@), i as int, r),
    decreases ts@.len() - i, 1int,
{
    if i >= ts.len() {
        return Err(ParseError::new(i, ParseErrorKind::UnexpectedEndOfInput));
    }
    proof {
        assert(tokens_view(ts@)[i as int] == ts@[i as int]@);
    }
    let t = &ts[i];
    match t.type_ {
        TokenType::Null => Ok((Json::Null, i + 1)),
        TokenType::True => Ok((Json::Boolean(true), i + 1)),
        TokenType::False => Ok((Json::Boolean(false), i + 1)),
        TokenType::Number => match parse_i32(t.value.as_str()) {
            Some(v) => Ok((Json::Integer(v), i + 1)),
            None => Err(
                ParseError::new(i, ParseErrorKind::CannotParseAsNumber(t.value.clone())),
            ),
        },
        TokenType::String => parse_string(ts, i),
        TokenType::ArrayStart => parse_array(ts, i),
        TokenType::ObjectStart => parse_object(ts, i),
        _ => Err(
            ParseError::new(i, ParseErrorKind::FoundUnexpectedToken(t.value.clone())),
        ),
    }
}

/// Parses the array that opens at `i`: elements separated by commas, closed
/// by the matching bracket.
fn parse_array(ts: &Vec<Token>, i: usize) -> (r: Result<(Json, usize), ParseError>)
    requires
        string_tokens_wf(tokens_view(ts@)),
        i < ts@.len(),
        tokens_view(ts@)[i as int].type_ == TokenType::ArrayStart,
    ensures
        value_result_matches(tokens_view(ts@), i as int, r),
    decreases ts@.len() - i, 0int,
{
    let ghost f = tokens_view(ts@);
    let n = ts.len();
    let mut elements: Vec<Json> = Vec::new();
    if i + 1 >= n {
        return Err(ParseError::new(i + 1, ParseErrorKind::UnexpectedEndOfInput));
    }
    proof {
        assert(f[i as int + 1] == ts@[i as int + 1]@);
    }
    if ts[i + 1].type_ == TokenType::ArrayEnd {
        return Ok((Json::Array(elements), i + 2));
    }
    let mut cur = i + 1;
    loop
        invariant
            string_tokens_wf(f),
            f == tokens_view(ts@),
            n == ts@.len(),
            i + 1 <= cur <= n,
            spec_parse_elements(f, cur as int, view_json_seq(elements@)) == spec_parse_value(
                f,
                i as int,
            ),
        decreases n - cur,
    {
        match parse_value(ts, cur) {
            Err(e) => {
                return Err(e);
            },
            Ok(p) => {
                let (v, j) = p;
                proof {
                    lemma_view_json_seq_push(elements@, v);
                }
                elements.push(v);
                if j >= n {
                    return Err(ParseError::new(j, ParseErrorKind::UnexpectedEndOfInput));
                }
                proof {
                    assert(f[j as int] == ts@[j as int]@);
                }
                let tj = &ts[j];
                if tj.type_ == TokenType::Comma {
                    cur = j + 1;
                } else if tj.type_ == TokenType::ArrayEnd {
                    return Ok((Json::Array(elements), j + 1));
                } else {
                    return Err(
                        ParseError::new(
                            j,
                            ParseErrorKind::UnexpectedTokenInArray(tj.value.clone()),
                        ),
                    );
                }
            },
        }
    }
}

/// Parses the object that opens at `i`: string keys, colons and values,
/// separated by commas, closed by the matching brace; a repeated key keeps
/// the value written last.
fn parse_object(ts: &Vec<Token>, i: usize) -> (r: Result<(Json, usize), ParseError>)
    requires
        string_tokens_wf(tokens_view(ts@)),
        i < ts@.len(),
        tokens_view(ts@)[i as int].type_ == TokenType::ObjectStart,
    ensures
        value_result_matches(tokens_view(ts@), i as int, r),
    decreases ts@.len() - i, 0int,
{
    let ghost f = tokens_view(ts@);
    let n = ts.len();
    let mut entries: Vec<(String, Json)> = Vec::new();
    if i + 1 >= n {
        return Err(ParseError::new(i + 1, ParseErrorKind::UnexpectedEndOfInput));
    }
    proof {
        assert(f[i as int + 1] == ts@[i as int + 1]@);
    }
    if ts[i + 1].type_ == TokenType::ObjectEnd {
        return Ok((Json::Object(entries), i + 2));
    }
    let mut cur = i + 1;
    loop
        invariant
            string_tokens_wf(f),
            f == tokens_view(ts@),
            n == ts@.len(),
            i + 1 <= cur <= n,
            spec_parse_members(f, cur as int, view_entry_seq(entries@)) == spec_parse_value(
                f,
                i as int,
            ),
        decreases n - cur,
    {
        match parse_string_key(ts, cur) {
            Err(e) => {
                return Err(e);
            },
            Ok(kp) => {
                let (key, after_key) = kp;
                if after_key >= n {
                    return Err(
                        ParseError::new(after_key, ParseErrorKind::UnexpectedEndOfInput),
                    );
                }
                proof {
                    assert(f[after_key as int] == ts@[after_key as int]@);
                }
                let tc = &ts[after_key];
                if tc.type_ != TokenType::Colon {
                    return Err(
                        ParseError::new(
                            after_key,
                            ParseErrorKind::UnexpectedTokenInObject(tc.value.clone()),
                        ),
                    );
                }
                match parse_value(ts, after_key + 1) {
                    Err(e) => {
                        return Err(e);
                    },
                    Ok(p) => {
                        let (v, j) = p;
                        let ghost prev_entries = view_entry_seq(entries@);
                        let ghost keym = key@;
                        let ghost vm = view_json(v);
                        insert_entry(&mut entries, key, v);
                        if j >= n {
                            return Err(
                                ParseError::new(j, ParseErrorKind::UnexpectedEndOfInput),
                            );
                        }
                        proof {
                            assert(f[j as int] == ts@[j as int]@);
                        }
                        let tj = &ts[j];
                        if tj.type_ == TokenType::Comma {
                            cur = j + 1;
                        } else if tj.type_ == TokenType::ObjectEnd {
                            return Ok((Json::Object(entries), j + 1));
                        } else {
                            return Err(
                                ParseError::new(
                                    j,
                                    ParseErrorKind::UnexpectedTokenInObject(tj.value.clone()),
                                ),
                            );
                        }
                    },
                }
            },
        }
    }
}

/// Parses the token sequence into a JSON value: whitespace tokens are
/// discarded, exactly one value must remain, and the first error aborts the
/// run.  The result is exactly what `spec_parse` denotes for the tokens.
pub fn parse(tokens: Vec<Token>) -> (r: Result<Json, ParseError>)
    requires
        string_tokens_wf(tokens_view(tokens@)),
    ensures
        parse_post(tokens_view(tokens@), r),
        r is Ok ==> objects_wf(view_json(r->Ok_0)),
{
    let ghost full = tokens_view(tokens@);
    let n = tokens.len();
    let mut kept: Vec<Token> = Vec::new();
    let mut i: usize = 0;
    proof {
        assert(full.subrange(0, full.len() as int) =~= full);
        assert(tokens_view(kept@) + without_ws(full) =~= without_ws(full));
    }
    while i < n
        invariant
            n == tokens@.len(),
            full == tokens_view(tokens@),
            i <= n,
            string_tokens_wf(full),
            tokens_view(kept@) + without_ws(full.subrange(i as int, full.len() as int))
                == without_ws(full),
            string_tokens_wf(tokens_view(kept@)),
        decreases n - i,
    {
        let ghost rem = full.subrange(i as int, full.len() as int);
        proof {
            assert(rem[0] == full[i as int]);
            assert(full[i as int] == tokens@[i as int]@);
            assert(rem.drop_first() =~= full.subrange(i as int + 1, full.len() as int));
        }
        let t = &tokens[i];
        if t.type_ != TokenType::Whitespace {
            let ghost prev = kept@;
            kept.push(t.clone());
            proof {
                assert(tokens_view(kept@) =~= tokens_view(prev).push(full[i as int]));
                assert(tokens_view(prev) + (seq![full[i as int]] + without_ws(
                    rem.drop_first(),
                )) =~= tokens_view(kept@) + without_ws(rem.drop_first()));
                assert forall|k: int|
                    0 <= k < tokens_view(kept@).len() && tokens_view(kept@)[k].type_
                        == TokenType::String implies tokens_view(kept@)[k].value.len() >= 2 by {
                    if k < prev.len() {
                        assert(tokens_view(kept@)[k] == tokens_view(prev)[k]);
                    } else {
                        assert(tokens_view(kept@)[k] == full[i as int]);
                    }
                }
            }
        }
        i = i + 1;
    }
    proof {
        assert(full.subrange(n as int, full.len() as int) =~= Seq::<SpecToken>::empty());
        assert(tokens_view(kept@) + Seq::<SpecToken>::empty() =~= tokens_view(kept@));
    }
    match parse_value(&kept, 0) {
        Err(e) => Err(e),
        Ok(p) => {
            let (json, end) = p;
            if end < kept.len() {
                Err(ParseError::new(end, ParseErrorKind::UnexpectedExtraInput))
            } else {
                proof {
                    lemma_parse_objects_distinct(full);
                }
                Ok(json)
            }
        },
    }
}

/// Every object held in the value, at any depth, has pairwise distinct
/// keys.
pub open spec fn objects_wf(v: SpecJson) -> bool
    decreases v,
{
    match v {
        SpecJson::Arr(elems) => forall|k: int|
            0 <= k < elems.len() ==> objects_wf(#[trigger] elems[k]),
        SpecJson::Obj(entries) => entry_keys_distinct(entries) && (forall|k: int|
            0 <= k < entries.len() ==> objects_wf((#[trigger] entries[k]).1)),
        _ => true,
    }
}

proof fn lemma_parse_value_objects_wf(ts: Seq<SpecToken>, i: int)
    requires
        spec_parse_value(ts, i) is Ok,
    ensures
        objects_wf(spec_parse_value(ts, i)->Ok_0.0),
    decreases ts.len() - i, 0int,
{
    let t = ts[i];
    match t.type_ {
        TokenType::ArrayStart => {
            if i + 1 < ts.len() && ts[i + 1].type_ == TokenType::ArrayEnd {
            } else {
                lemma_parse_elements_objects_wf(ts, i + 1, Seq::empty());
            }
        },
        TokenType::ObjectStart => {
            if i + 1 < ts.len() && ts[i + 1].type_ == TokenType::ObjectEnd {
            } else {
                lemma_parse_members_objects_wf(ts, i + 1, Seq::empty());
            }
        },
        _ => {},
    }
}

proof fn lemma_parse_elements_objects_wf(ts: Seq<SpecToken>, i: int, acc: Seq<SpecJson>)
    requires
        spec_parse_elements(ts, i, acc) is Ok,
        forall|k: int| 0 <= k < acc.len() ==> objects_wf(#[trigger] acc[k]),
    ensures
        objects_wf(spec_parse_elements(ts, i, acc)->Ok_0.0),
    decreases ts.len() - i, 1int,
{
    let (v, j) = spec_parse_value(ts, i)->Ok_0;
    lemma_parse_value_objects_wf(ts, i);
    assert(forall|k: int|
        0 <= k < acc.push(v).len() ==> objects_wf(#[trigger] acc.push(v)[k]));
    if ts[j].type_ == TokenType::Comma {
        lemma_parse_elements_objects_wf(ts, j + 1, acc.push(v));
    }
}

proof fn lemma_parse_members_objects_wf(
    ts: Seq<SpecToken>,
    i: int,
    acc: Seq<(Seq<char>, SpecJson)>,
)
    requires
        spec_parse_members(ts, i, acc) is Ok,
        entry_keys_distinct(acc),
        forall|k: int| 0 <= k < acc.len() ==> objects_wf((#[trigger] acc[k]).1),
    ensures
        objects_wf(spec_parse_members(ts, i, acc)->Ok_0.0),
    decreases ts.len() - i, 1int,
{
    let key = strip_quotes(ts[i].value);
    let (v, j) = spec_parse_value(ts, i + 2)->Ok_0;
    lemma_parse_value_objects_wf(ts, i + 2);
    let acc2 = entries_insert(acc, key, v);
    lemma_entries_insert_distinct(acc, key, v);
    lemma_entry_index_props(acc, key, 0);
    assert forall|k: int| 0 <= k < acc2.len() implies objects_wf((#[trigger] acc2[k]).1) by {
        match entry_index(acc, key, 0) {
            Some(m) => {
                if k != m {
                    assert(acc2[k] == acc[k]);
                }
            },
            None => {
                if k < acc.len() {
                    assert(acc2[k] == acc[k]);
                }
            },
        }
    }
    if ts[j].type_ == TokenType::Comma {
        lemma_parse_members_objects_wf(ts, j + 1, acc2);
    }
}

/// Key-uniqueness law: any value the parser yields holds, in every object
/// at every depth, pairwise distinct keys — a duplicate in the source only
/// rebinds the key it repeats.
pub proof fn lemma_parse_objects_distinct(ts: Seq<SpecToken>)
    requires
        spec_parse(ts) is Ok,
    ensures
        objects_wf(spec_parse(ts)->Ok_0),
{
    lemma_parse_value_objects_wf(without_ws(ts), 0);
}

/// Determinism law: two results that both meet `parse`'s contract for the
/// same token sequence are the same value, or the same error, image for
/// image.
pub proof fn lemma_parse_deterministic(
    ts: Seq<SpecToken>,
    r1: Result<Json, ParseError>,
    r2: Result<Json, ParseError>,
)
    requires
        parse_post(ts, r1),
        parse_post(ts, r2),
    ensures
        r1 is Ok <==> r2 is Ok,
        r1 is Ok ==> view_json(r1->Ok_0) == view_json(r2->Ok_0),
        r1 is Err ==> r1->Err_0@ == r2->Err_0@,
{
}

} // verus!
