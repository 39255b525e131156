//! A JSON reader and writer. Numbers are kept as their literal text.
use vstd::prelude::*;
use vstd::utf8::{char_is_scalar, char_u32_cast};
use crate::lexer::{
    chars_of,
    hex_digit_value,
    hex_value,
    is_delimiter,
    is_float_literal,
    lead_digits,
    lemma_float_literal_chars,
    punct_token,
    unsigned_part,
    word_token,
    lex_end,
    lex_prefix,
    lex_step,
    string_of,
    token_views,
    tokenize,
    tokens_of,
    unicode_escape,
    Lex,
    Token,
    TokenView,
};

verus! {

/// A JSON value as plain data.
#[derive(Debug, PartialEq)]
pub enum JsonValue {
    Null,
    Boolean(bool),
    /// The literal text of a number, as written.
    Number(String),
    String(String),
    List(Vec<JsonValue>),
    /// Entries in the order in which they were read. A `Dict` read by
    /// `JsonValue::new` never repeats a key, but nothing stops one built by
    /// hand from doing so; its text then names the key twice, and `new`
    /// rejects that text with `DuplicateKey`.
    Dict(Vec<(String, JsonValue)>),
}

/// The mathematical value of a JSON value.
pub enum JsonView {
    Null,
    Boolean(bool),
    Number(Seq<char>),
    Text(Seq<char>),
    List(Seq<JsonView>),
    Dict(Seq<(Seq<char>, JsonView)>),
}

impl JsonValue {
    pub open spec fn view(&self) -> JsonView
        decreases self,
    {
        match self {
            JsonValue::Null => JsonView::Null,
            JsonValue::Boolean(b) => JsonView::Boolean(*b),
            JsonValue::Number(s) => JsonView::Number(s@),
            JsonValue::String(s) => JsonView::Text(s@),
            JsonValue::List(v) => JsonView::List(
                Seq::new(v.len() as nat, |i: int| if 0 <= i < v.len() { v[i].view() } else { JsonView::Null }),
            ),
            JsonValue::Dict(v) => JsonView::Dict(
                Seq::new(v.len() as nat, |i: int| if 0 <= i < v.len() { (v[i].0@, v[i].1.view()) } else { (Seq::empty(), JsonView::Null) }),
            ),
        }
    }
}

/// Why a text is not JSON.
#[derive(Clone, Copy, Debug, PartialEq, Eq, Structural)]
pub enum JsonError {
    /// A bare word that is neither `null`, `true`, `false` nor a number.
    InvalidKeywordOrNumber,
    /// The text ends inside a string.
    InvalidEndOfInput,
    /// A backslash escape that JSON does not have.
    InvalidEscapeSequence,
    /// A value is missing.
    ExpectedValue,
    /// A key is not followed by `:`.
    ExpectedColon,
    /// An object holds something other than a key or its closing brace.
    ExpectedKeyOrBrace,
    /// An entry of an object is not followed by `,` or `}`.
    ExpectedCommaOrBrace,
    /// An item of a list is not followed by `,` or `]`.
    ExpectedCommaOrBracket,
    /// An object names a key twice.
    DuplicateKey,
    /// Tokens follow the value.
    ExtraToken,
}

/// Whether `key` is among the keys of `entries`.
pub open spec fn has_key(entries: Seq<(Seq<char>, JsonView)>, key: Seq<char>) -> bool {
    exists|i: int| 0 <= i < entries.len() && (#[trigger] entries[i]).0 == key
}

/// Reads a list item from token `p`: `Ok(None)` on a closing bracket. Each
/// reader gives its outcome and the position after the tokens it took.
pub open spec fn read_entry(ts: Seq<TokenView>, p: int) -> (Result<Option<JsonView>, JsonError>, int)
    decreases ts.len() - p, 0int,
{
    if p < 0 || p >= ts.len() {
        (Err(JsonError::ExpectedValue), p)
    } else {
        match ts[p] {
            TokenView::BracketClose => (Ok(None), p + 1),
            TokenView::Comma | TokenView::Colon | TokenView::BraceClose => (
                Err(JsonError::ExpectedValue),
                p + 1,
            ),
            TokenView::Null => (Ok(Some(JsonView::Null)), p + 1),
            TokenView::True => (Ok(Some(JsonView::Boolean(true))), p + 1),
            TokenView::False => (Ok(Some(JsonView::Boolean(false))), p + 1),
            TokenView::Number(n) => (Ok(Some(JsonView::Number(n))), p + 1),
            TokenView::Text(t) => (Ok(Some(JsonView::Text(t))), p + 1),
            TokenView::BraceOpen => {
                let (r, q) = read_dict(ts, p + 1);
                (
                    match r {
                        Ok(d) => Ok(Some(JsonView::Dict(d))),
                        Err(e) => Err(e),
                    },
                    q,
                )
            },
            TokenView::BracketOpen => {
                let (r, q) = read_list(ts, p + 1);
                (
                    match r {
                        Ok(l) => Ok(Some(JsonView::List(l))),
                        Err(e) => Err(e),
                    },
                    q,
                )
            },
        }
    }
}

/// Reads a value from token `p`.
pub open spec fn read_value(ts: Seq<TokenView>, p: int) -> (Result<JsonView, JsonError>, int)
    decreases ts.len() - p, 1int,
{
    let (r, q) = read_entry(ts, p);
    (
        match r {
            Ok(Some(v)) => Ok(v),
            Ok(None) => Err(JsonError::ExpectedValue),
            Err(e) => Err(e),
        },
        q,
    )
}

/// Reads the entries of an object from token `p`, just after its brace.
pub open spec fn read_dict(ts: Seq<TokenView>, p: int) -> (
    Result<Seq<(Seq<char>, JsonView)>, JsonError>,
    int,
)
    decreases ts.len() - p, 0int,
{
    if p < 0 || p >= ts.len() {
        (Err(JsonError::ExpectedKeyOrBrace), p)
    } else {
        match ts[p] {
            TokenView::Text(key) => if p + 1 >= ts.len() {
                (Err(JsonError::ExpectedColon), p + 1)
            } else if ts[p + 1] != TokenView::Colon {
                (Err(JsonError::ExpectedColon), p + 2)
            } else {
                let (r, q) = read_value(ts, p + 2);
                match r {
                    Ok(v) => if p < q <= ts.len() {
                        read_dict_rest(ts, q, seq![(key, v)])
                    } else {
                        (Err(JsonError::ExpectedCommaOrBrace), q)
                    },
                    Err(e) => (Err(e), q),
                }
            },
            TokenView::BraceClose => (Ok(Seq::empty()), p + 1),
            _ => (Err(JsonError::ExpectedKeyOrBrace), p + 1),
        }
    }
}

/// Reads the further entries of an object from token `p`, after `acc`.
pub open spec fn read_dict_rest(
    ts: Seq<TokenView>,
    p: int,
    acc: Seq<(Seq<char>, JsonView)>,
) -> (Result<Seq<(Seq<char>, JsonView)>, JsonError>, int)
    decreases ts.len() - p, 2int,
{
    if p < 0 || p >= ts.len() {
        (Err(JsonError::ExpectedCommaOrBrace), p)
    } else {
        match ts[p] {
            TokenView::BraceClose => (Ok(acc), p + 1),
            TokenView::Comma => if p + 1 >= ts.len() {
                (Err(JsonError::ExpectedKeyOrBrace), p + 1)
            } else {
                match ts[p + 1] {
                    TokenView::Text(key) => if p + 2 >= ts.len() {
                        (Err(JsonError::ExpectedColon), p + 2)
                    } else if ts[p + 2] != TokenView::Colon {
                        (Err(JsonError::ExpectedColon), p + 3)
                    } else if has_key(acc, key) {
                        (Err(JsonError::DuplicateKey), p + 3)
                    } else {
                        let (r, q) = read_value(ts, p + 3);
                        match r {
                            Ok(v) => if p < q <= ts.len() {
                                read_dict_rest(ts, q, acc.push((key, v)))
                            } else {
                                (Err(JsonError::ExpectedCommaOrBrace), q)
                            },
                            Err(e) => (Err(e), q),
                        }
                    },
                    TokenView::BraceClose => (Ok(acc), p + 2),
                    _ => (Err(JsonError::ExpectedKeyOrBrace), p + 2),
                }
            },
            _ => (Err(JsonError::ExpectedCommaOrBrace), p + 1),
        }
    }
}

/// Reads the items of a list from token `p`, just after its bracket.
pub open spec fn read_list(ts: Seq<TokenView>, p: int) -> (Result<Seq<JsonView>, JsonError>, int)
    decreases ts.len() - p, 2int,
{
    let (r, q) = read_entry(ts, p);
    match r {
        Ok(Some(v)) => if p < q <= ts.len() {
            read_list_rest(ts, q, seq![v])
        } else {
            (Err(JsonError::ExpectedCommaOrBracket), q)
        },
        Ok(None) => (Ok(Seq::empty()), q),
        Err(e) => (Err(e), q),
    }
}

/// Reads the further items of a list from token `p`, after `acc`.
pub open spec fn read_list_rest(ts: Seq<TokenView>, p: int, acc: Seq<JsonView>) -> (
    Result<Seq<JsonView>, JsonError>,
    int,
)
    decreases ts.len() - p, 0int,
{
    if p < 0 || p >= ts.len() {
        (Err(JsonError::ExpectedCommaOrBracket), p)
    } else {
        match ts[p] {
            TokenView::BracketClose => (Ok(acc), p + 1),
            TokenView::Comma => {
                let (r, q) = read_value(ts, p + 1);
                match r {
                    Ok(v) => if p < q <= ts.len() {
                        read_list_rest(ts, q, acc.push(v))
                    } else {
                        (Err(JsonError::ExpectedCommaOrBracket), q)
                    },
                    Err(e) => (Err(e), q),
                }
            },
            _ => (Err(JsonError::ExpectedCommaOrBracket), p + 1),
        }
    }
}

/// The value that the JSON text `cs` holds, or the first error in it.
pub open spec fn parse_json(cs: Seq<char>) -> Result<JsonView, JsonError> {
    match tokens_of(cs) {
        Err(e) => Err(e),
        Ok(ts) => {
            let (r, q) = read_value(ts, 0);
            if q < ts.len() {
                Err(JsonError::ExtraToken)
            } else {
                r
            }
        },
    }
}

/// The mathematical values of the items of a list.
pub open spec fn items_view(v: Seq<JsonValue>) -> Seq<JsonView> {
    Seq::new(v.len(), |i: int| v[i]@)
}

/// The keys and mathematical values of the entries of an object.
pub open spec fn entries_view(v: Seq<(String, JsonValue)>) -> Seq<(Seq<char>, JsonView)> {
    Seq::new(v.len(), |i: int| (v[i].0@, v[i].1@))
}

pub open spec fn entry_result_view(r: Result<Option<JsonValue>, JsonError>) -> Result<
    Option<JsonView>,
    JsonError,
> {
    match r {
        Ok(Some(v)) => Ok(Some(v@)),
        Ok(None) => Ok(None),
        Err(e) => Err(e),
    }
}

pub open spec fn value_result_view(r: Result<JsonValue, JsonError>) -> Result<JsonView, JsonError> {
    match r {
        Ok(v) => Ok(v@),
        Err(e) => Err(e),
    }
}

/// The reader moves forward, and not past the end.
pub open spec fn advances(p: int, q: int, len: int) -> bool {
    p <= q <= len && (p < len ==> p < q)
}

fn text_token_clone(s: &String) -> (r: String)
    ensures
        r@ == s@,
{
    s.clone()
}

#[verifier::rlimit(30)]
#[verifier::spinoff_prover]
fn read_entry_exec(ts: &Vec<Token>, p: usize) -> (r: (Result<Option<JsonValue>, JsonError>, usize))
    requires
        p <= ts@.len(),
    ensures
        entry_result_view(r.0) == read_entry(token_views(ts@), p as int).0,
        r.1 == read_entry(token_views(ts@), p as int).1,
        advances(p as int, r.1 as int, ts@.len() as int),
    decreases ts@.len() - p, 0int,
{
    let ghost tv = token_views(ts@);
    if p >= ts.len() {
        return (Err(JsonError::ExpectedValue), p);
    }
    assert(tv[p as int] == ts@[p as int]@);
    match &ts[p] {
        Token::BracketClose => (Ok(None), p + 1),
        Token::Comma | Token::Colon | Token::BraceClose => (Err(JsonError::ExpectedValue), p + 1),
        Token::Null => (Ok(Some(JsonValue::Null)), p + 1),
        Token::True => (Ok(Some(JsonValue::Boolean(true))), p + 1),
        Token::False => (Ok(Some(JsonValue::Boolean(false))), p + 1),
        Token::Number(n) => (Ok(Some(JsonValue::Number(text_token_clone(n)))), p + 1),
        Token::String(t) => (Ok(Some(JsonValue::String(text_token_clone(t)))), p + 1),
        Token::BraceOpen => {
            let (r, q) = read_dict_exec(ts, p + 1);
            match r {
                Ok(d) => {
                    let v = JsonValue::Dict(d);
                    assert(v@->Dict_0 =~= entries_view(d@));
                    (Ok(Some(v)), q)
                },
                Err(e) => (Err(e), q),
            }
        },
        Token::BracketOpen => {
            let (r, q) = read_list_exec(ts, p + 1);
            match r {
                Ok(l) => {
                    let v = JsonValue::List(l);
                    assert(v@->List_0 =~= items_view(l@));
                    (Ok(Some(v)), q)
                },
                Err(e) => (Err(e), q),
            }
        },
    }
}

fn read_value_exec(ts: &Vec<Token>, p: usize) -> (r: (Result<JsonValue, JsonError>, usize))
    requires
        p <= ts@.len(),
    ensures
        value_result_view(r.0) == read_value(token_views(ts@), p as int).0,
        r.1 == read_value(token_views(ts@), p as int).1,
        advances(p as int, r.1 as int, ts@.len() as int),
    decreases ts@.len() - p, 1int,
{
    let (r, q) = read_entry_exec(ts, p);
    match r {
        Ok(Some(v)) => (Ok(v), q),
        Ok(None) => (Err(JsonError::ExpectedValue), q),
        Err(e) => (Err(e), q),
    }
}

fn contains_key(acc: &Vec<(String, JsonValue)>, key: &String) -> (r: bool)
    ensures
        r == has_key(entries_view(acc@), key@),
{
    let ghost ev = entries_view(acc@);
    let mut i: usize = 0;
    while i < acc.len()
        invariant
            i <= acc@.len(),
            ev == entries_view(acc@),
            forall|k: int| 0 <= k < i ==> (#[trigger] ev[k]).0 != key@,
        decreases acc@.len() - i,
    {
        assert(ev[i as int].0 == acc@[i as int].0@);
        if acc[i].0 == *key {
            return true;
        }
        i += 1;
    }
    false
}

#[verifier::rlimit(30)]
#[verifier::spinoff_prover]
fn read_dict_exec(ts: &Vec<Token>, start: usize) -> (r: (
    Result<Vec<(String, JsonValue)>, JsonError>,
    usize,
))
    requires
        start <= ts@.len(),
    ensures
        match r.0 {
            Ok(d) => read_dict(token_views(ts@), start as int).0 == Ok::<
                Seq<(Seq<char>, JsonView)>,
                JsonError,
            >(entries_view(d@)),
            Err(e) => read_dict(token_views(ts@), start as int).0 == Err::<
                Seq<(Seq<char>, JsonView)>,
                JsonError,
            >(e),
        },
        r.1 == read_dict(token_views(ts@), start as int).1,
        advances(start as int, r.1 as int, ts@.len() as int),
    decreases ts@.len() - start, 0int,
{
    let ghost tv = token_views(ts@);
    let len = ts.len();
    let p = start;
    if p >= len {
        return (Err(JsonError::ExpectedKeyOrBrace), p);
    }
    assert(tv[p as int] == ts@[p as int]@);
    let key = match &ts[p] {
        Token::String(key) => text_token_clone(key),
        Token::BraceClose => {
            let empty: Vec<(String, JsonValue)> = Vec::new();
            assert(entries_view(empty@) =~= Seq::empty());
            return (Ok(empty), p + 1);
        },
        _ => {
            return (Err(JsonError::ExpectedKeyOrBrace), p + 1);
        },
    };
    if p + 1 >= len {
        return (Err(JsonError::ExpectedColon), p + 1);
    }
    assert(tv[p + 1] == ts@[p + 1]@);
    match &ts[p + 1] {
        Token::Colon => {},
        _ => {
            return (Err(JsonError::ExpectedColon), p + 2);
        },
    }
    let (r, q) = read_value_exec(ts, p + 2);
    let v = match r {
        Ok(v) => v,
        Err(e) => {
            return (Err(e), q);
        },
    };
    let mut acc: Vec<(String, JsonValue)> = Vec::new();
    acc.push((key, v));
    assert(entries_view(acc@) =~= seq![(key@, v@)]);
    let mut p = q;
    while p < len
        invariant
            len == ts@.len(),
            tv == token_views(ts@),
            p <= len,
            start < p,
            read_dict(tv, start as int) == read_dict_rest(tv, p as int, entries_view(acc@)),
        decreases len - p,
    {
        assert(tv[p as int] == ts@[p as int]@);
        match &ts[p] {
            Token::BraceClose => {
                return (Ok(acc), p + 1);
            },
            Token::Comma => {},
            _ => {
                return (Err(JsonError::ExpectedCommaOrBrace), p + 1);
            },
        }
        if p + 1 >= len {
            return (Err(JsonError::ExpectedKeyOrBrace), p + 1);
        }
        assert(tv[p + 1] == ts@[p + 1]@);
        let key = match &ts[p + 1] {
            Token::String(key) => text_token_clone(key),
            Token::BraceClose => {
                return (Ok(acc), p + 2);
            },
            _ => {
                return (Err(JsonError::ExpectedKeyOrBrace), p + 2);
            },
        };
        if p + 2 >= len {
            return (Err(JsonError::ExpectedColon), p + 2);
        }
        assert(tv[p + 2] == ts@[p + 2]@);
        match &ts[p + 2] {
            Token::Colon => {},
            _ => {
                return (Err(JsonError::ExpectedColon), p + 3);
            },
        }
        if contains_key(&acc, &key) {
            return (Err(JsonError::DuplicateKey), p + 3);
        }
        let (r, q) = read_value_exec(ts, p + 3);
        let v = match r {
            Ok(v) => v,
            Err(e) => {
                return (Err(e), q);
            },
        };
        let ghost before = entries_view(acc@);
        acc.push((key, v));
        assert(entries_view(acc@) =~= before.push((key@, v@)));
        p = q;
    }
    (Err(JsonError::ExpectedCommaOrBrace), p)
}

#[verifier::rlimit(30)]
#[verifier::spinoff_prover]
fn read_list_exec(ts: &Vec<Token>, start: usize) -> (r: (Result<Vec<JsonValue>, JsonError>, usize))
    requires
        start <= ts@.len(),
    ensures
        match r.0 {
            Ok(l) => read_list(token_views(ts@), start as int).0 == Ok::<Seq<JsonView>, JsonError>(
                items_view(l@),
            ),
            Err(e) => read_list(token_views(ts@), start as int).0 == Err::<
                Seq<JsonView>,
                JsonError,
            >(e),
        },
        r.1 == read_list(token_views(ts@), start as int).1,
        advances(start as int, r.1 as int, ts@.len() as int),
    decreases ts@.len() - start, 2int,
{
    let ghost tv = token_views(ts@);
    let len = ts.len();
    let (r, q) = read_entry_exec(ts, start);
    let v = match r {
        Ok(Some(v)) => v,
        Ok(None) => {
            let empty: Vec<JsonValue> = Vec::new();
            assert(items_view(empty@) =~= Seq::empty());
            return (Ok(empty), q);
        },
        Err(e) => {
            return (Err(e), q);
        },
    };
    let mut acc: Vec<JsonValue> = Vec::new();
    acc.push(v);
    assert(items_view(acc@) =~= seq![v@]);
    let mut p = q;
    while p < len
        invariant
            len == ts@.len(),
            tv == token_views(ts@),
            start < p <= len,
            read_list(tv, start as int) == read_list_rest(tv, p as int, items_view(acc@)),
        decreases len - p,
    {
        assert(tv[p as int] == ts@[p as int]@);
        match &ts[p] {
            Token::BracketClose => {
                return (Ok(acc), p + 1);
            },
            Token::Comma => {},
            _ => {
                return (Err(JsonError::ExpectedCommaOrBracket), p + 1);
            },
        }
        let (r, q) = read_value_exec(ts, p + 1);
        let v = match r {
            Ok(v) => v,
            Err(e) => {
                return (Err(e), q);
            },
        };
        let ghost before = items_view(acc@);
        acc.push(v);
        assert(items_view(acc@) =~= before.push(v@));
        p = q;
    }
    (Err(JsonError::ExpectedCommaOrBracket), p)
}

impl JsonValue {
    /// Reads JSON text: one value, with nothing after it.
    pub fn new(source: &str) -> (r: Result<JsonValue, JsonError>)
        ensures
            value_result_view(r) == parse_json(source@),
    {
        let tokens = match tokenize(source) {
            Ok(tokens) => tokens,
            Err(e) => {
                return Err(e);
            },
        };
        let (r, q) = read_value_exec(&tokens, 0);
        if q < tokens.len() {
            Err(JsonError::ExtraToken)
        } else {
            r
        }
    }
}

/// A character that stands for itself in a string literal: `!` to `~`.
pub open spec fn is_ascii_graphic(c: char) -> bool {
    0x21 <= c as u32 <= 0x7E
}

/// The uppercase hexadecimal digits.
pub open spec fn hex_chars() -> Seq<char> {
    seq!['0', '1', '2', '3', '4', '5', '6', '7', '8', '9', 'A', 'B', 'C', 'D', 'E', 'F']
}

/// The uppercase hexadecimal digit of `d`, below 16.
pub open spec fn hex_char(d: u32) -> char {
    hex_chars()[d as int]
}

/// How many hexadecimal digits `v` is written with: as many as it needs, four at least.
pub open spec fn hex_width(v: u32) -> u32 {
    if v <= 0xFFFF {
        4
    } else if v <= 0xF_FFFF {
        5
    } else if v <= 0xFF_FFFF {
        6
    } else if v <= 0xFFF_FFFF {
        7
    } else {
        8
    }
}

/// `v` in uppercase hexadecimal, four digits at least.
pub open spec fn hex_of(v: u32) -> Seq<char> {
    let n = hex_width(v);
    Seq::new(n as nat, |i: int| hex_char((v >> ((4 * (n - 1 - i)) as u32)) & 15u32))
}

/// How a character is written inside a string literal.
pub open spec fn escape_of(c: char) -> Seq<char> {
    if c == '"' {
        seq!['\\', '"']
    } else if c == '\\' {
        seq!['\\', '\\']
    } else if c == '\n' {
        seq!['\\', 'n']
    } else if c == '\r' {
        seq!['\\', 'r']
    } else if c == '\t' {
        seq!['\\', 't']
    } else if c == '\x08' {
        seq!['\\', 'b']
    } else if c == '\x0C' {
        seq!['\\', 'f']
    } else if !is_ascii_graphic(c) {
        seq!['\\', 'u'] + hex_of(c as u32)
    } else {
        seq![c]
    }
}

/// The characters of `s`, each as `escape_of` writes it.
pub open spec fn escaped(s: Seq<char>) -> Seq<char>
    decreases s.len(),
{
    if s.len() == 0 {
        Seq::empty()
    } else {
        escaped(s.drop_last()) + escape_of(s.last())
    }
}

/// The string literal of `s`.
pub open spec fn literal_of(s: Seq<char>) -> Seq<char> {
    seq!['"'] + escaped(s) + seq!['"']
}

/// `parts` with `,` between each two.
pub open spec fn joined(parts: Seq<Seq<char>>) -> Seq<char>
    decreases parts.len(),
{
    if parts.len() == 0 {
        Seq::empty()
    } else if parts.len() == 1 {
        parts[0]
    } else {
        joined(parts.drop_last()) + seq![','] + parts.last()
    }
}

/// The JSON text of a value: no spaces, numbers as their literal text, object
/// entries in their order.
pub open spec fn write_json(v: JsonView) -> Seq<char>
    decreases v, 0nat,
{
    match v {
        JsonView::Null => seq!['n', 'u', 'l', 'l'],
        JsonView::Boolean(b) => if b {
            seq!['t', 'r', 'u', 'e']
        } else {
            seq!['f', 'a', 'l', 's', 'e']
        },
        JsonView::Number(n) => n,
        JsonView::Text(t) => literal_of(t),
        JsonView::List(items) => seq!['['] + write_items(items, items.len()) + seq![']'],
        JsonView::Dict(entries) => seq!['{'] + write_entries(entries, entries.len()) + seq!['}'],
    }
}

/// The first `n` items, with `,` between each two.
pub open spec fn write_items(items: Seq<JsonView>, n: nat) -> Seq<char>
    decreases items, n,
{
    if n == 0 || n > items.len() {
        Seq::empty()
    } else if n == 1 {
        write_json(items[0])
    } else {
        write_items(items, (n - 1) as nat) + seq![','] + write_json(items[n - 1])
    }
}

/// The first `n` entries as `"key":value`, with `,` between each two.
pub open spec fn write_entries(entries: Seq<(Seq<char>, JsonView)>, n: nat) -> Seq<char>
    decreases entries, n,
{
    if n == 0 || n > entries.len() {
        Seq::empty()
    } else if n == 1 {
        literal_of(entries[0].0) + seq![':'] + write_json(entries[0].1)
    } else {
        write_entries(entries, (n - 1) as nat) + seq![','] + literal_of(entries[n - 1].0) + seq![
            ':',
        ] + write_json(entries[n - 1].1)
    }
}

fn push_hex(out: &mut Vec<char>, v: u32)
    ensures
        final(out)@ == old(out)@ + hex_of(v),
{
    let table: [char; 16] = [
        '0', '1', '2', '3', '4', '5', '6', '7', '8', '9', 'A', 'B', 'C', 'D', 'E', 'F',
    ];
    assert(table@ =~= hex_chars());
    let n: u32 = if v <= 0xFFFF {
        4
    } else if v <= 0xF_FFFF {
        5
    } else if v <= 0xFF_FFFF {
        6
    } else if v <= 0xFFF_FFFF {
        7
    } else {
        8
    };
    let ghost h = hex_of(v);
    let mut i: u32 = 0;
    while i < n
        invariant
            n == hex_width(v),
            h == hex_of(v),
            table@ == hex_chars(),
            i <= n,
            out@ == old(out)@ + h.take(i as int),
        decreases n - i,
    {
        let sh: u32 = 4 * (n - 1 - i);
        let d = (v >> sh) & 15u32;
        assert(d < 16) by (bit_vector)
            requires
                d == (v >> sh) & 15u32,
        ;
        assert(h[i as int] == hex_char(d));
        out.push(table[d as usize]);
        assert(h.take(i + 1) =~= h.take(i as int).push(h[i as int]));
        i += 1;
    }
    assert(h.take(n as int) =~= h);
}

fn push_chars(out: &mut Vec<char>, cs: &[char])
    ensures
        final(out)@ == old(out)@ + cs@,
{
    let mut i: usize = 0;
    while i < cs.len()
        invariant
            i <= cs@.len(),
            out@ == old(out)@ + cs@.take(i as int),
        decreases cs@.len() - i,
    {
        out.push(cs[i]);
        assert(cs@.take(i + 1) =~= cs@.take(i as int).push(cs@[i as int]));
        i += 1;
    }
    assert(cs@.take(i as int) =~= cs@);
}

fn push_escaped_char(out: &mut Vec<char>, c: char)
    ensures
        final(out)@ == old(out)@ + escape_of(c),
{
    let code = c as u32;
    if c == '"' {
        push_chars(out, &['\\', '"']);
    } else if c == '\\' {
        push_chars(out, &['\\', '\\']);
    } else if c == '\n' {
        push_chars(out, &['\\', 'n']);
    } else if c == '\r' {
        push_chars(out, &['\\', 'r']);
    } else if c == '\t' {
        push_chars(out, &['\\', 't']);
    } else if c == '\x08' {
        push_chars(out, &['\\', 'b']);
    } else if c == '\x0C' {
        push_chars(out, &['\\', 'f']);
    } else if code < 0x21 || code > 0x7E {
        let ghost before = out@;
        push_chars(out, &['\\', 'u']);
        push_hex(out, code);
        assert(out@ =~= before + (seq!['\\', 'u'] + hex_of(code)));
    } else {
        out.push(c);
        assert(out@ =~= old(out)@ + seq![c]);
    }
}

fn push_literal(out: &mut Vec<char>, s: &str)
    ensures
        final(out)@ == old(out)@ + literal_of(s@),
{
    let cs = chars_of(s);
    out.push('"');
    let mut i: usize = 0;
    while i < cs.len()
        invariant
            i <= cs@.len(),
            cs@ == s@,
            out@ == old(out)@ + seq!['"'] + escaped(cs@.take(i as int)),
        decreases cs@.len() - i,
    {
        push_escaped_char(out, cs[i]);
        assert(cs@.take(i + 1).drop_last() =~= cs@.take(i as int));
        i += 1;
    }
    assert(cs@.take(i as int) =~= cs@);
    out.push('"');
    assert(out@ =~= old(out)@ + literal_of(s@));
}

/// The JSON string literal of `input`: quoted, with escapes.
pub fn string_to_literal(input: &str) -> (r: String)
    ensures
        r@ == literal_of(input@),
{
    let mut out: Vec<char> = Vec::new();
    push_literal(&mut out, input);
    assert(out@ =~= literal_of(input@));
    string_of(out)
}

#[verifier::rlimit(30)]
#[verifier::spinoff_prover]
fn write_value(v: &JsonValue, out: &mut Vec<char>)
    ensures
        final(out)@ == old(out)@ + write_json(v@),
    decreases v@,
{
    match v {
        JsonValue::Null => push_chars(out, &['n', 'u', 'l', 'l']),
        JsonValue::Boolean(b) => if *b {
            push_chars(out, &['t', 'r', 'u', 'e'])
        } else {
            push_chars(out, &['f', 'a', 'l', 's', 'e'])
        },
        JsonValue::Number(n) => {
            let cs = chars_of(n.as_str());
            push_chars(out, cs.as_slice());
        },
        JsonValue::String(t) => push_literal(out, t.as_str()),
        JsonValue::List(items) => {
            let ghost w = v@->List_0;
            let ghost start = out@;
            out.push('[');
            let mut i: usize = 0;
            while i < items.len()
                invariant
                    v@ == JsonView::List(w),
                    *v == JsonValue::List(*items),
                    w.len() == items@.len(),
                    forall|k: int| 0 <= k < w.len() ==> #[trigger] w[k] == items@[k]@,
                    i <= items@.len(),
                    out@ == start + seq!['['] + write_items(w, i as nat),
                decreases items@.len() - i,
            {
                if i > 0 {
                    out.push(',');
                }
                proof {
                    assert(w[i as int] == items@[i as int]@);
                    assert(decreases_to!(v@ => v@->List_0));
                    assert(decreases_to!(w => w[i as int]));
                }
                write_value(&items[i], out);
                assert(out@ =~= start + seq!['['] + write_items(w, (i + 1) as nat));
                i += 1;
            }
            out.push(']');
            assert(out@ =~= start + write_json(v@));
        },
        JsonValue::Dict(entries) => {
            let ghost w = v@->Dict_0;
            let ghost start = out@;
            out.push('{');
            let mut i: usize = 0;
            while i < entries.len()
                invariant
                    v@ == JsonView::Dict(w),
                    *v == JsonValue::Dict(*entries),
                    w.len() == entries@.len(),
                    forall|k: int| 0 <= k < w.len() ==> #[trigger] w[k] == (entries@[k].0@, entries@[k].1@),
                    i <= entries@.len(),
                    out@ == start + seq!['{'] + write_entries(w, i as nat),
                decreases entries@.len() - i,
            {
                if i > 0 {
                    out.push(',');
                }
                proof {
                    assert(w[i as int] == (entries@[i as int].0@, entries@[i as int].1@));
                    assert(decreases_to!(v@ => v@->Dict_0));
                    assert(decreases_to!(w => w[i as int]));
                    assert(decreases_to!(w[i as int] => w[i as int].1));
                }
                push_literal(out, entries[i].0.as_str());
                out.push(':');
                write_value(&entries[i].1, out);
                assert(out@ =~= start + seq!['{'] + write_entries(w, (i + 1) as nat));
                i += 1;
            }
            out.push('}');
            assert(out@ =~= start + write_json(v@));
        },
    }
}

impl JsonValue {
    /// Writes the value as JSON text.
    pub fn serialize(&self) -> (r: String)
        ensures
            r@ == write_json(self@),
    {
        let mut out: Vec<char> = Vec::new();
        write_value(self, &mut out);
        assert(out@ =~= write_json(self@));
        string_of(out)
    }
}

/// The state and tokens after the first `n` characters of `cs`, read from the
/// state `st` with the tokens `ts` already out.
pub open spec fn lex_run(st: Lex, ts: Seq<TokenView>, cs: Seq<char>, n: int) -> (
    Lex,
    Seq<TokenView>,
)
    decreases n,
{
    if n <= 0 {
        (st, ts)
    } else {
        let (s1, t1) = lex_run(st, ts, cs, n - 1);
        let (s2, t2) = lex_step(s1, cs[n - 1]);
        (s2, t1 + t2)
    }
}

proof fn lemma_prefix_is_run(cs: Seq<char>, n: int)
    ensures
        lex_prefix(cs, n) == lex_run(Lex::Default, Seq::empty(), cs, n),
    decreases n,
{
    if n > 0 {
        lemma_prefix_is_run(cs, n - 1);
    }
}

proof fn lemma_run_prefix(st: Lex, ts: Seq<TokenView>, a: Seq<char>, c: Seq<char>, n: int)
    requires
        n <= a.len() <= c.len(),
        forall|i: int| 0 <= i < a.len() ==> a[i] == c[i],
    ensures
        lex_run(st, ts, c, n) == lex_run(st, ts, a, n),
    decreases n,
{
    if n > 0 {
        lemma_run_prefix(st, ts, a, c, n - 1);
    }
}

proof fn lemma_run_concat(st: Lex, ts: Seq<TokenView>, a: Seq<char>, b: Seq<char>, k: int)
    requires
        0 <= k <= b.len(),
    ensures
        lex_run(st, ts, a + b, a.len() + k) == lex_run(
            lex_run(st, ts, a, a.len() as int).0,
            lex_run(st, ts, a, a.len() as int).1,
            b,
            k,
        ),
    decreases k,
{
    if k == 0 {
        lemma_run_prefix(st, ts, a, a + b, a.len() as int);
    } else {
        lemma_run_concat(st, ts, a, b, k - 1);
        assert((a + b)[a.len() + k - 1] == b[k - 1]);
    }
}

proof fn lemma_hex_digit(d: u32)
    requires
        d < 16,
    ensures
        hex_digit_value(hex_char(d)) == Some(d as nat),
        (hex_char(d) as u32) < 128,
        hex_char(d) != '+',
{
    let t = hex_chars();
    assert(t[0] == '0' && t[1] == '1' && t[2] == '2' && t[3] == '3' && t[4] == '4' && t[5] == '5'
        && t[6] == '6' && t[7] == '7' && t[8] == '8' && t[9] == '9' && t[10] == 'A' && t[11]
        == 'B' && t[12] == 'C' && t[13] == 'D' && t[14] == 'E' && t[15] == 'F');
}

#[verifier::rlimit(30)]
#[verifier::spinoff_prover]
proof fn lemma_unicode_escape_of(c: char)
    requires
        (c as u32) <= 0xFFFF,
    ensures
        hex_of(c as u32).len() == 4,
        unicode_escape(hex_of(c as u32)) == Some(c),
{
    let v = c as u32;
    let h = hex_of(v);
    let d0 = (v >> 12u32) & 15u32;
    let d1 = (v >> 8u32) & 15u32;
    let d2 = (v >> 4u32) & 15u32;
    let d3 = (v >> 0u32) & 15u32;
    assert(d0 < 16 && d1 < 16 && d2 < 16 && d3 < 16) by (bit_vector)
        requires
            d0 == (v >> 12u32) & 15u32,
            d1 == (v >> 8u32) & 15u32,
            d2 == (v >> 4u32) & 15u32,
            d3 == (v >> 0u32) & 15u32,
    ;
    assert(v == d0 * 4096 + d1 * 256 + d2 * 16 + d3) by (bit_vector)
        requires
            v <= 0xFFFF,
            d0 == (v >> 12u32) & 15u32,
            d1 == (v >> 8u32) & 15u32,
            d2 == (v >> 4u32) & 15u32,
            d3 == (v >> 0u32) & 15u32,
    ;
    assert(h =~= seq![hex_char(d0), hex_char(d1), hex_char(d2), hex_char(d3)]);
    lemma_hex_digit(d0);
    lemma_hex_digit(d1);
    lemma_hex_digit(d2);
    lemma_hex_digit(d3);
    assert(h.drop_last() =~= seq![hex_char(d0), hex_char(d1), hex_char(d2)]);
    assert(h.drop_last().drop_last() =~= seq![hex_char(d0), hex_char(d1)]);
    assert(h.drop_last().drop_last().drop_last() =~= seq![hex_char(d0)]);
    assert(h.drop_last().drop_last().drop_last().drop_last() =~= Seq::<char>::empty());
    reveal_with_fuel(hex_value, 5);
    assert(hex_value(h) == Some(v as nat));
    char_is_scalar(c);
    char_u32_cast(c, v);
    assert(!(exists|i: int| 0 <= i < h.len() && (#[trigger] h[i] as u32) >= 128));
}

/// A character that a string literal writes as `\u` and four digits, or as itself.
pub open spec fn in_basic_plane(s: Seq<char>) -> bool {
    forall|i: int| 0 <= i < s.len() ==> (#[trigger] s[i] as u32) <= 0xFFFF
}

proof fn lemma_unicode_escape_run(acc: Seq<char>, ts: Seq<TokenView>, c: char)
    requires
        (c as u32) <= 0xFFFF,
        escape_of(c) == seq!['\\', 'u'] + hex_of(c as u32),
    ensures
        lex_run(Lex::Text(acc), ts, escape_of(c), 6) == (Lex::Text(acc.push(c)), ts),
{
    let e = escape_of(c);
    let st = Lex::Text(acc);
    let empty = Seq::<TokenView>::empty();
    lemma_unicode_escape_of(c);
    let h = hex_of(c as u32);
    assert(e =~= seq!['\\', 'u', h[0], h[1], h[2], h[3]]);
    assert(ts + empty =~= ts);
    assert(lex_run(st, ts, e, 0) == (st, ts));
    assert(lex_run(st, ts, e, 1) == (Lex::Escape(acc), ts));
    assert(lex_run(st, ts, e, 2) == (Lex::Unicode(acc, Seq::<char>::empty()), ts));
    assert(Seq::<char>::empty().push(h[0]) =~= seq![h[0]]);
    assert(lex_run(st, ts, e, 3) == (Lex::Unicode(acc, seq![h[0]]), ts));
    assert(seq![h[0]].push(h[1]) =~= seq![h[0], h[1]]);
    assert(lex_run(st, ts, e, 4) == (Lex::Unicode(acc, seq![h[0], h[1]]), ts));
    assert(seq![h[0], h[1]].push(h[2]) =~= seq![h[0], h[1], h[2]]);
    assert(lex_run(st, ts, e, 5) == (Lex::Unicode(acc, seq![h[0], h[1], h[2]]), ts));
    assert(seq![h[0], h[1], h[2]].push(h[3]) =~= h);
}

proof fn lemma_escape_run(acc: Seq<char>, ts: Seq<TokenView>, c: char)
    requires
        (c as u32) <= 0xFFFF,
    ensures
        lex_run(Lex::Text(acc), ts, escape_of(c), escape_of(c).len() as int) == (
            Lex::Text(acc.push(c)),
            ts,
        ),
{
    let e = escape_of(c);
    let st = Lex::Text(acc);
    let empty = Seq::<TokenView>::empty();
    assert(ts + empty =~= ts);
    if c == '"' || c == '\\' || c == '\n' || c == '\r' || c == '\t' || c == '\x08' || c == '\x0C' {
        assert(e.len() == 2 && e[0] == '\\');
        assert(lex_run(st, ts, e, 0) == (st, ts));
        assert(lex_run(st, ts, e, 1) == (Lex::Escape(acc), ts));
    } else if !is_ascii_graphic(c) {
        lemma_unicode_escape_run(acc, ts, c);
    } else {
        assert(e =~= seq![c]);
        assert(lex_run(st, ts, e, 0) == (st, ts));
    }
}

#[verifier::rlimit(30)]
#[verifier::spinoff_prover]
proof fn lemma_escaped_run(acc: Seq<char>, ts: Seq<TokenView>, s: Seq<char>)
    requires
        in_basic_plane(s),
    ensures
        lex_run(Lex::Text(acc), ts, escaped(s), escaped(s).len() as int) == (Lex::Text(acc + s), ts),
    decreases s.len(),
{
    if s.len() == 0 {
        assert(acc + s =~= acc);
    } else {
        let init = s.drop_last();
        assert(in_basic_plane(init)) by {
            assert forall|i: int| 0 <= i < init.len() implies (#[trigger] init[i] as u32) <= 0xFFFF by {
                assert(init[i] == s[i]);
            }
        }
        lemma_escaped_run(acc, ts, init);
        let c = s.last();
        assert((c as u32) <= 0xFFFF);
        lemma_run_concat(Lex::Text(acc), ts, escaped(init), escape_of(c), escape_of(c).len() as int);
        lemma_escape_run(acc + init, ts, c);
        assert((acc + init).push(c) =~= acc + s);
    }
}

/// Reading the string literal of `s` gives one string token holding `s`, where
/// every character of `s` lies in the basic multilingual plane.
pub proof fn lemma_tokens_of_literal(s: Seq<char>)
    requires
        in_basic_plane(s),
    ensures
        tokens_of(literal_of(s)) == Ok::<Seq<TokenView>, JsonError>(seq![TokenView::Text(s)]),
{
    let e = escaped(s);
    let lit = literal_of(s);
    let empty = Seq::<TokenView>::empty();
    lemma_prefix_is_run(lit, lit.len() as int);
    reveal_with_fuel(lex_run, 2);
    assert(lex_run(Lex::Default, empty, seq!['"'], 1) == (Lex::Text(Seq::empty()), empty + empty));
    assert(empty + empty =~= empty);
    lemma_run_concat(Lex::Default, empty, seq!['"'], e, e.len() as int);
    lemma_escaped_run(Seq::empty(), empty, s);
    assert(Seq::<char>::empty() + s =~= s);
    lemma_run_concat(Lex::Default, empty, seq!['"'] + e, seq!['"'], 1);
    assert(lit == seq!['"'] + e + seq!['"']);
    assert(empty + seq![TokenView::Text(s)] + empty =~= seq![TokenView::Text(s)]);
}

/// Reading the string literal of `s` gives the string `s` back, where every
/// character of `s` lies in the basic multilingual plane.
pub proof fn lemma_parse_literal(s: Seq<char>)
    requires
        in_basic_plane(s),
    ensures
        parse_json(literal_of(s)) == Ok::<JsonView, JsonError>(JsonView::Text(s)),
{
    lemma_tokens_of_literal(s);
}

/// The tokens of a value as `write_json` writes it.
pub open spec fn value_tokens(v: JsonView) -> Seq<TokenView>
    decreases v, 0nat,
{
    match v {
        JsonView::Null => seq![TokenView::Null],
        JsonView::Boolean(b) => if b {
            seq![TokenView::True]
        } else {
            seq![TokenView::False]
        },
        JsonView::Number(n) => seq![TokenView::Number(n)],
        JsonView::Text(t) => seq![TokenView::Text(t)],
        JsonView::List(items) => seq![TokenView::BracketOpen] + items_tokens(items, items.len())
            + seq![TokenView::BracketClose],
        JsonView::Dict(entries) => seq![TokenView::BraceOpen] + entries_tokens(
            entries,
            entries.len(),
        ) + seq![TokenView::BraceClose],
    }
}

/// The tokens of the first `n` items, with commas between.
pub open spec fn items_tokens(items: Seq<JsonView>, n: nat) -> Seq<TokenView>
    decreases items, n,
{
    if n == 0 || n > items.len() {
        Seq::empty()
    } else if n == 1 {
        value_tokens(items[0])
    } else {
        items_tokens(items, (n - 1) as nat) + seq![TokenView::Comma] + value_tokens(items[n - 1])
    }
}

/// The tokens of the first `n` entries, each a key, a colon and a value, with
/// commas between.
pub open spec fn entries_tokens(entries: Seq<(Seq<char>, JsonView)>, n: nat) -> Seq<TokenView>
    decreases entries, n,
{
    if n == 0 || n > entries.len() {
        Seq::empty()
    } else if n == 1 {
        seq![TokenView::Text(entries[0].0), TokenView::Colon] + value_tokens(entries[0].1)
    } else {
        entries_tokens(entries, (n - 1) as nat) + seq![TokenView::Comma] + seq![
            TokenView::Text(entries[n - 1].0),
            TokenView::Colon,
        ] + value_tokens(entries[n - 1].1)
    }
}

/// A value that reads back as itself once written: numbers are literals that
/// Rust's `f64` parsing accepts, strings and keys lie in the basic multilingual
/// plane, and no object names a key twice.
pub open spec fn writable(v: JsonView) -> bool
    decreases v,
{
    match v {
        JsonView::Number(n) => is_float_literal(n),
        JsonView::Text(t) => in_basic_plane(t),
        JsonView::List(items) => forall|i: int| 0 <= i < items.len() ==> writable(#[trigger] items[i]),
        JsonView::Dict(entries) => forall|i: int|
            0 <= i < entries.len() ==> in_basic_plane(#[trigger] entries[i].0) && writable(
                entries[i].1,
            ) && forall|j: int| 0 <= j < entries.len() && j != i ==> entries[j].0 != entries[i].0,
        _ => true,
    }
}

/// The tokens `w` stand in `ts` from position `p`.
pub open spec fn tokens_at(ts: Seq<TokenView>, p: int, w: Seq<TokenView>) -> bool {
    0 <= p && p + w.len() <= ts.len() && ts.subrange(p, p + w.len()) == w
}

proof fn lemma_tokens_at_split(ts: Seq<TokenView>, p: int, a: Seq<TokenView>, b: Seq<TokenView>)
    requires
        tokens_at(ts, p, a + b),
    ensures
        tokens_at(ts, p, a),
        tokens_at(ts, p + a.len(), b),
{
    assert(ts.subrange(p, p + a.len()) =~= (a + b).subrange(0, a.len() as int));
    assert(ts.subrange(p + a.len(), p + a.len() + b.len()) =~= (a + b).subrange(
        a.len() as int,
        (a + b).len() as int,
    ));
    assert((a + b).subrange(0, a.len() as int) =~= a);
    assert((a + b).subrange(a.len() as int, (a + b).len() as int) =~= b);
}

proof fn lemma_token_at(ts: Seq<TokenView>, p: int, w: Seq<TokenView>, i: int)
    requires
        tokens_at(ts, p, w),
        0 <= i < w.len(),
    ensures
        ts[p + i] == w[i],
{
    assert(ts.subrange(p, p + w.len())[i] == ts[p + i]);
}

proof fn lemma_value_tokens_nonempty(v: JsonView)
    ensures
        value_tokens(v).len() > 0,
        value_tokens(v)[0] != TokenView::BracketClose,
        value_tokens(v)[0] != TokenView::Comma,
        value_tokens(v)[0] != TokenView::Colon,
        value_tokens(v)[0] != TokenView::BraceClose,
{
}

proof fn lemma_read_entry(v: JsonView, ts: Seq<TokenView>, p: int)
    requires
        writable(v),
        tokens_at(ts, p, value_tokens(v)),
    ensures
        read_entry(ts, p) == (
            Ok::<Option<JsonView>, JsonError>(Some(v)),
            p + value_tokens(v).len(),
        ),
    decreases v, 2nat,
{
    lemma_token_at(ts, p, value_tokens(v), 0);
    match v {
        JsonView::List(_) => lemma_read_list_entry(v, ts, p),
        JsonView::Dict(_) => lemma_read_dict_entry(v, ts, p),
        _ => {},
    }
}

#[verifier::rlimit(30)]
#[verifier::spinoff_prover]
proof fn lemma_read_list_entry(v: JsonView, ts: Seq<TokenView>, p: int)
    requires
        v is List,
        writable(v),
        tokens_at(ts, p, value_tokens(v)),
    ensures
        read_entry(ts, p) == (
            Ok::<Option<JsonView>, JsonError>(Some(v)),
            p + value_tokens(v).len(),
        ),
    decreases v, 1nat,
{
    let items = v->List_0;
    let n = items.len();
    let inner = items_tokens(items, n);
    lemma_token_at(ts, p, value_tokens(v), 0);
    lemma_tokens_at_split(ts, p, seq![TokenView::BracketOpen] + inner, seq![TokenView::BracketClose]);
    lemma_tokens_at_split(ts, p, seq![TokenView::BracketOpen], inner);
    lemma_token_at(ts, p + 1 + inner.len(), seq![TokenView::BracketClose], 0);
    if n == 0 {
        assert(items =~= Seq::<JsonView>::empty());
    } else {
        assert forall|i: int| 0 <= i < items.len() implies writable(#[trigger] items[i]) by {}
        lemma_read_items(items, ts, p + 1, n);
        assert(items.take(n as int) =~= items);
    }
}

#[verifier::rlimit(30)]
#[verifier::spinoff_prover]
proof fn lemma_read_dict_entry(v: JsonView, ts: Seq<TokenView>, p: int)
    requires
        v is Dict,
        writable(v),
        tokens_at(ts, p, value_tokens(v)),
    ensures
        read_entry(ts, p) == (
            Ok::<Option<JsonView>, JsonError>(Some(v)),
            p + value_tokens(v).len(),
        ),
    decreases v, 1nat,
{
    let entries = v->Dict_0;
    let n = entries.len();
    let inner = entries_tokens(entries, n);
    lemma_token_at(ts, p, value_tokens(v), 0);
    lemma_tokens_at_split(ts, p, seq![TokenView::BraceOpen] + inner, seq![TokenView::BraceClose]);
    lemma_tokens_at_split(ts, p, seq![TokenView::BraceOpen], inner);
    lemma_token_at(ts, p + 1 + inner.len(), seq![TokenView::BraceClose], 0);
    if n == 0 {
        assert(entries =~= Seq::<(Seq<char>, JsonView)>::empty());
    } else {
        assert forall|i: int| 0 <= i < entries.len() implies in_basic_plane(
            #[trigger] entries[i].0,
        ) && writable(entries[i].1) by {}
        assert forall|i: int, j: int|
            0 <= i < entries.len() && 0 <= j < entries.len() && i != j implies #[trigger] entries[i].0
                != #[trigger] entries[j].0 by {
            assert(in_basic_plane(entries[j].0));
        }
        lemma_read_entries(entries, ts, p + 1, n);
        assert(entries.take(n as int) =~= entries);
    }
}

#[verifier::rlimit(30)]
#[verifier::spinoff_prover]
proof fn lemma_read_items(items: Seq<JsonView>, ts: Seq<TokenView>, p: int, k: nat)
    requires
        1 <= k <= items.len(),
        forall|i: int| 0 <= i < items.len() ==> writable(#[trigger] items[i]),
        tokens_at(ts, p, items_tokens(items, k)),
    ensures
        read_list(ts, p) == read_list_rest(ts, p + items_tokens(items, k).len(), items.take(k as int)),
    decreases items, k,
{
    if k == 1 {
        assert(items_tokens(items, 1) == value_tokens(items[0]));
        lemma_read_entry(items[0], ts, p);
        lemma_value_tokens_nonempty(items[0]);
        assert(items.take(1) =~= seq![items[0]]);
    } else {
        let j = (k - 1) as nat;
        let before = items_tokens(items, j);
        let vt = value_tokens(items[k - 1]);
        lemma_tokens_at_split(ts, p, before + seq![TokenView::Comma], vt);
        lemma_tokens_at_split(ts, p, before, seq![TokenView::Comma]);
        lemma_read_items(items, ts, p, j);
        let q = p + before.len();
        lemma_token_at(ts, q, seq![TokenView::Comma], 0);
        assert(items_tokens(items, k) == before + seq![TokenView::Comma] + vt);
        lemma_read_entry(items[k - 1], ts, q + 1);
        lemma_value_tokens_nonempty(items[k - 1]);
        assert(read_value(ts, q + 1) == (Ok::<JsonView, JsonError>(items[k - 1]), q + 1 + vt.len()));
        assert(read_list_rest(ts, q, items.take(j as int)) == read_list_rest(
            ts,
            q + 1 + vt.len(),
            items.take(j as int).push(items[k - 1]),
        ));
        assert(items.take(j as int).push(items[k - 1]) =~= items.take(k as int));
    }
}

#[verifier::rlimit(30)]
#[verifier::spinoff_prover]
proof fn lemma_read_entries(entries: Seq<(Seq<char>, JsonView)>, ts: Seq<TokenView>, p: int, k: nat)
    requires
        1 <= k <= entries.len(),
        forall|i: int| 0 <= i < entries.len() ==> in_basic_plane(#[trigger] entries[i].0) && writable(
            entries[i].1,
        ),
        forall|i: int, j: int|
            0 <= i < entries.len() && 0 <= j < entries.len() && i != j ==> #[trigger] entries[i].0
                != #[trigger] entries[j].0,
        tokens_at(ts, p, entries_tokens(entries, k)),
    ensures
        read_dict(ts, p) == read_dict_rest(
            ts,
            p + entries_tokens(entries, k).len(),
            entries.take(k as int),
        ),
    decreases entries, k,
{
    let e = entries[k - 1];
    let vt = value_tokens(e.1);
    let head = seq![TokenView::Text(e.0), TokenView::Colon];
    assert(in_basic_plane(entries[k - 1].0) && writable(entries[k - 1].1));
    lemma_value_tokens_nonempty(e.1);
    if k == 1 {
        assert(entries_tokens(entries, 1) == head + vt);
        lemma_tokens_at_split(ts, p, head, vt);
        lemma_token_at(ts, p, head, 0);
        lemma_token_at(ts, p, head, 1);
        lemma_read_entry(e.1, ts, p + 2);
        assert(entries.take(1) =~= seq![(e.0, e.1)]);
    } else {
        let j = (k - 1) as nat;
        let before = entries_tokens(entries, j);
        lemma_tokens_at_split(ts, p, before + seq![TokenView::Comma] + head, vt);
        lemma_tokens_at_split(ts, p, before + seq![TokenView::Comma], head);
        lemma_tokens_at_split(ts, p, before, seq![TokenView::Comma]);
        lemma_read_entries(entries, ts, p, j);
        let q = p + before.len();
        lemma_token_at(ts, q, seq![TokenView::Comma], 0);
        lemma_token_at(ts, q + 1, head, 0);
        lemma_token_at(ts, q + 1, head, 1);
        assert(!has_key(entries.take(j as int), e.0)) by {
            if has_key(entries.take(j as int), e.0) {
                let i = choose|i: int| 0 <= i < entries.take(j as int).len() && (
                #[trigger] entries.take(j as int)[i]).0 == e.0;
                assert(entries[i].0 == e.0);
                assert(entries[i].0 != entries[k - 1].0);
            }
        }
        assert(entries_tokens(entries, k) == before + seq![TokenView::Comma] + head + vt);
        lemma_read_entry(e.1, ts, q + 3);
        assert(read_value(ts, q + 3) == (Ok::<JsonView, JsonError>(e.1), q + 3 + vt.len()));
        assert(entries.take(j as int).push(e) =~= entries.take(k as int));
    }
}

/// Reading the tokens of a writable value gives the value back.
pub proof fn lemma_read_value_tokens(v: JsonView)
    requires
        writable(v),
    ensures
        read_value(value_tokens(v), 0) == (
            Ok::<JsonView, JsonError>(v),
            value_tokens(v).len() as int,
        ),
{
    assert(value_tokens(v).subrange(0, value_tokens(v).len() as int) =~= value_tokens(v));
    lemma_read_entry(v, value_tokens(v), 0);
}

proof fn lemma_word_run(w: Seq<char>, ts: Seq<TokenView>, k: int)
    requires
        1 <= k <= w.len(),
        forall|i: int| 0 <= i < w.len() ==> !is_delimiter(#[trigger] w[i]),
    ensures
        lex_run(Lex::Default, ts, w, k) == (Lex::Word(w.take(k)), ts),
    decreases k,
{
    assert(ts + Seq::<TokenView>::empty() =~= ts);
    assert(!is_delimiter(w[k - 1]));
    if k == 1 {
        assert(lex_run(Lex::Default, ts, w, 0) == (Lex::Default, ts));
        assert(w.take(1) =~= seq![w[0]]);
    } else {
        lemma_word_run(w, ts, k - 1);
        assert(w.take(k - 1).push(w[k - 1]) =~= w.take(k));
    }
}

proof fn lemma_not_float_keywords()
    ensures
        !is_float_literal(seq!['n', 'u', 'l', 'l']),
        !is_float_literal(seq!['t', 'r', 'u', 'e']),
        !is_float_literal(seq!['f', 'a', 'l', 's', 'e']),
{
    let n = seq!['n', 'u', 'l', 'l'];
    let t = seq!['t', 'r', 'u', 'e'];
    let f = seq!['f', 'a', 'l', 's', 'e'];
    assert(unsigned_part(n) == n && lead_digits(n) == 0);
    assert(unsigned_part(t) == t && lead_digits(t) == 0);
    assert(unsigned_part(f) == f && lead_digits(f) == 0);
}

/// Whether a value is written as a bare word.
pub open spec fn is_word(v: JsonView) -> bool {
    v is Null || v is Boolean || v is Number
}

/// The lexer's state and tokens once the text of `v` has been read after `ts`:
/// a bare word is still open; anything else has given its tokens.
pub open spec fn settled(v: JsonView, ts: Seq<TokenView>) -> (Lex, Seq<TokenView>) {
    if is_word(v) {
        (Lex::Word(write_json(v)), ts)
    } else {
        (Lex::Default, ts + value_tokens(v))
    }
}

#[verifier::rlimit(30)]
#[verifier::spinoff_prover]
proof fn lemma_word_value(v: JsonView)
    requires
        writable(v),
        is_word(v),
    ensures
        write_json(v).len() > 0,
        forall|i: int| 0 <= i < write_json(v).len() ==> !is_delimiter(#[trigger] write_json(v)[i]),
        word_token(write_json(v)) == Some(value_tokens(v)[0]),
        value_tokens(v).len() == 1,
{
    lemma_not_float_keywords();
    match v {
        JsonView::Number(n) => {
            lemma_float_literal_chars(n);
        },
        JsonView::Boolean(b) => {
            let t = seq!['t', 'r', 'u', 'e'];
            let f = seq!['f', 'a', 'l', 's', 'e'];
            assert(t != seq!['n', 'u', 'l', 'l']) by {
                assert(t[0] != seq!['n', 'u', 'l', 'l'][0]);
            }
            assert(f != seq!['n', 'u', 'l', 'l']);
            assert(t != f);
            assert(forall|i: int| 0 <= i < t.len() ==> !is_delimiter(#[trigger] t[i]));
            assert(forall|i: int| 0 <= i < f.len() ==> !is_delimiter(#[trigger] f[i]));
        },
        _ => {
            let n = seq!['n', 'u', 'l', 'l'];
            assert(forall|i: int| 0 <= i < n.len() ==> !is_delimiter(#[trigger] n[i]));
        },
    }
}

/// A punctuation character that closes what stands before it.
pub open spec fn is_closer(d: char) -> bool {
    d == ',' || d == ']' || d == '}'
}

proof fn lemma_flush(v: JsonView, ts: Seq<TokenView>, d: char)
    requires
        writable(v),
        is_closer(d),
    ensures
        lex_run(settled(v, ts).0, settled(v, ts).1, seq![d], 1) == (
            Lex::Default,
            ts + value_tokens(v) + seq![punct_token(d)->Some_0],
        ),
{
    let st = settled(v, ts);
    assert(lex_run(st.0, st.1, seq![d], 0) == st);
    if is_word(v) {
        lemma_word_value(v);
        assert(value_tokens(v) =~= seq![value_tokens(v)[0]]);
        assert(ts + (seq![value_tokens(v)[0]] + seq![punct_token(d)->Some_0]) =~= ts + value_tokens(v)
            + seq![punct_token(d)->Some_0]);
    }
}

#[verifier::rlimit(30)]
#[verifier::spinoff_prover]
proof fn lemma_literal_run(ts: Seq<TokenView>, s: Seq<char>)
    requires
        in_basic_plane(s),
    ensures
        lex_run(Lex::Default, ts, literal_of(s), literal_of(s).len() as int) == (
            Lex::Default,
            ts + seq![TokenView::Text(s)],
        ),
{
    let e = escaped(s);
    let q = seq!['"'];
    let empty = Seq::<TokenView>::empty();
    assert(ts + empty =~= ts);
    assert(lex_run(Lex::Default, ts, q, 0) == (Lex::Default, ts));
    assert(lex_run(Lex::Default, ts, q, 1) == (Lex::Text(Seq::empty()), ts));
    lemma_run_concat(Lex::Default, ts, q, e, e.len() as int);
    lemma_escaped_run(Seq::empty(), ts, s);
    assert(Seq::<char>::empty() + s =~= s);
    lemma_run_concat(Lex::Default, ts, q + e, q, 1);
    assert(lex_run(Lex::Text(s), ts, q, 0) == (Lex::Text(s), ts));
    assert(literal_of(s) == q + e + q);
}

proof fn lemma_punct_run(ts: Seq<TokenView>, d: char)
    requires
        punct_token(d) is Some,
    ensures
        lex_run(Lex::Default, ts, seq![d], 1) == (Lex::Default, ts + seq![punct_token(d)->Some_0]),
{
    assert(lex_run(Lex::Default, ts, seq![d], 0) == (Lex::Default, ts));
}

proof fn lemma_value_run(v: JsonView, ts: Seq<TokenView>)
    requires
        writable(v),
    ensures
        lex_run(Lex::Default, ts, write_json(v), write_json(v).len() as int) == settled(v, ts),
    decreases v, 2nat,
{
    match v {
        JsonView::Text(t) => {
            lemma_literal_run(ts, t);
        },
        JsonView::List(_) => lemma_list_run(v, ts),
        JsonView::Dict(_) => lemma_dict_run(v, ts),
        _ => {
            lemma_word_value(v);
            lemma_word_run(write_json(v), ts, write_json(v).len() as int);
            assert(write_json(v).take(write_json(v).len() as int) =~= write_json(v));
        },
    }
}

#[verifier::rlimit(30)]
#[verifier::spinoff_prover]
proof fn lemma_list_run(v: JsonView, ts: Seq<TokenView>)
    requires
        v is List,
        writable(v),
    ensures
        lex_run(Lex::Default, ts, write_json(v), write_json(v).len() as int) == settled(v, ts),
    decreases v, 1nat,
{
    let items = v->List_0;
    let n = items.len();
    let body = write_items(items, n);
    let open = seq!['['];
    let close = seq![']'];
    lemma_punct_run(ts, '[');
    let t1 = ts + seq![TokenView::BracketOpen];
    lemma_run_concat(Lex::Default, ts, open, body, body.len() as int);
    lemma_run_concat(Lex::Default, ts, open + body, close, 1);
    assert(write_json(v) == open + body + close);
    assert forall|i: int| 0 <= i < items.len() implies writable(#[trigger] items[i]) by {}
    if n == 0 {
        assert(body =~= Seq::<char>::empty());
        assert(lex_run(Lex::Default, t1, body, 0) == (Lex::Default, t1));
        lemma_punct_run(t1, ']');
        assert(items_tokens(items, 0) =~= Seq::<TokenView>::empty());
        assert(t1 + seq![TokenView::BracketClose] =~= ts + value_tokens(v));
    } else {
        lemma_items_run(items, t1, n);
        lemma_flush(items[n - 1], t1 + items_prefix(items, n), ']');
        assert(t1 + items_prefix(items, n) + value_tokens(items[n - 1]) + seq![
            TokenView::BracketClose,
        ] =~= ts + value_tokens(v));
    }
}

#[verifier::rlimit(30)]
#[verifier::spinoff_prover]
proof fn lemma_dict_run(v: JsonView, ts: Seq<TokenView>)
    requires
        v is Dict,
        writable(v),
    ensures
        lex_run(Lex::Default, ts, write_json(v), write_json(v).len() as int) == settled(v, ts),
    decreases v, 1nat,
{
    let entries = v->Dict_0;
    let n = entries.len();
    let body = write_entries(entries, n);
    let open = seq!['{'];
    let close = seq!['}'];
    lemma_punct_run(ts, '{');
    let t1 = ts + seq![TokenView::BraceOpen];
    lemma_run_concat(Lex::Default, ts, open, body, body.len() as int);
    lemma_run_concat(Lex::Default, ts, open + body, close, 1);
    assert(write_json(v) == open + body + close);
    assert forall|i: int| 0 <= i < entries.len() implies in_basic_plane(#[trigger] entries[i].0)
        && writable(entries[i].1) by {}
    if n == 0 {
        assert(body =~= Seq::<char>::empty());
        assert(lex_run(Lex::Default, t1, body, 0) == (Lex::Default, t1));
        lemma_punct_run(t1, '}');
        assert(entries_tokens(entries, 0) =~= Seq::<TokenView>::empty());
        assert(t1 + seq![TokenView::BraceClose] =~= ts + value_tokens(v));
    } else {
        lemma_entries_run(entries, t1, n);
        lemma_flush(entries[n - 1].1, t1 + entries_prefix(entries, n), '}');
        assert(t1 + entries_prefix(entries, n) + value_tokens(entries[n - 1].1) + seq![
            TokenView::BraceClose,
        ] =~= ts + value_tokens(v));
    }
}

/// The tokens of the first `n - 1` items and the comma after them.
pub open spec fn items_prefix(items: Seq<JsonView>, n: nat) -> Seq<TokenView> {
    if n <= 1 {
        Seq::empty()
    } else {
        items_tokens(items, (n - 1) as nat) + seq![TokenView::Comma]
    }
}

/// The tokens of the first `n - 1` entries, the comma after them, and the key
/// and colon of entry `n - 1`.
pub open spec fn entries_prefix(entries: Seq<(Seq<char>, JsonView)>, n: nat) -> Seq<TokenView> {
    let head = seq![TokenView::Text(entries[n - 1].0), TokenView::Colon];
    if n <= 1 {
        head
    } else {
        entries_tokens(entries, (n - 1) as nat) + seq![TokenView::Comma] + head
    }
}

#[verifier::rlimit(30)]
#[verifier::spinoff_prover]
proof fn lemma_items_run(items: Seq<JsonView>, ts: Seq<TokenView>, k: nat)
    requires
        1 <= k <= items.len(),
        forall|i: int| 0 <= i < items.len() ==> writable(#[trigger] items[i]),
    ensures
        lex_run(Lex::Default, ts, write_items(items, k), write_items(items, k).len() as int)
            == settled(items[k - 1], ts + items_prefix(items, k)),
        items_prefix(items, k) + value_tokens(items[k - 1]) == items_tokens(items, k),
    decreases items, k,
{
    if k == 1 {
        assert(ts + Seq::<TokenView>::empty() =~= ts);
        lemma_value_run(items[0], ts);
        assert(Seq::<TokenView>::empty() + value_tokens(items[0]) =~= value_tokens(items[0]));
    } else {
        let j = (k - 1) as nat;
        let before = write_items(items, j);
        let comma = seq![','];
        let last = write_json(items[k - 1]);
        lemma_items_run(items, ts, j);
        assert(write_items(items, k) == before + comma + last);
        lemma_run_concat(Lex::Default, ts, before, comma, 1);
        lemma_flush(items[j - 1], ts + items_prefix(items, j), ',');
        let t2 = ts + items_tokens(items, j) + seq![TokenView::Comma];
        assert(ts + items_prefix(items, j) + value_tokens(items[j - 1]) + seq![TokenView::Comma] =~= t2);
        lemma_run_concat(Lex::Default, ts, before + comma, last, last.len() as int);
        lemma_value_run(items[k - 1], t2);
        assert(t2 =~= ts + items_prefix(items, k));
        assert(items_prefix(items, k) + value_tokens(items[k - 1]) =~= items_tokens(items, k));
    }
}

#[verifier::rlimit(30)]
#[verifier::spinoff_prover]
proof fn lemma_entries_run(entries: Seq<(Seq<char>, JsonView)>, ts: Seq<TokenView>, k: nat)
    requires
        1 <= k <= entries.len(),
        forall|i: int| 0 <= i < entries.len() ==> in_basic_plane(#[trigger] entries[i].0) && writable(
            entries[i].1,
        ),
    ensures
        lex_run(Lex::Default, ts, write_entries(entries, k), write_entries(entries, k).len() as int)
            == settled(entries[k - 1].1, ts + entries_prefix(entries, k)),
        entries_prefix(entries, k) + value_tokens(entries[k - 1].1) == entries_tokens(entries, k),
    decreases entries, k,
{
    let e = entries[k - 1];
    assert(in_basic_plane(entries[k - 1].0) && writable(entries[k - 1].1));
    let key = literal_of(e.0);
    let colon = seq![':'];
    let val = write_json(e.1);
    let head = seq![TokenView::Text(e.0), TokenView::Colon];
    if k == 1 {
        assert(write_entries(entries, 1) == key + colon + val);
        lemma_literal_run(ts, e.0);
        lemma_run_concat(Lex::Default, ts, key, colon, 1);
        lemma_punct_run(ts + seq![TokenView::Text(e.0)], ':');
        lemma_run_concat(Lex::Default, ts, key + colon, val, val.len() as int);
        assert(ts + seq![TokenView::Text(e.0)] + seq![TokenView::Colon] =~= ts + entries_prefix(entries, 1));
        lemma_value_run(e.1, ts + entries_prefix(entries, 1));
        assert(entries_prefix(entries, 1) + value_tokens(e.1) =~= entries_tokens(entries, 1));
    } else {
        let j = (k - 1) as nat;
        let before = write_entries(entries, j);
        let comma = seq![','];
        lemma_entries_run(entries, ts, j);
        assert(write_entries(entries, k) == before + comma + key + colon + val);
        lemma_run_concat(Lex::Default, ts, before, comma, 1);
        lemma_flush(entries[j - 1].1, ts + entries_prefix(entries, j), ',');
        let t2 = ts + entries_tokens(entries, j) + seq![TokenView::Comma];
        assert(ts + entries_prefix(entries, j) + value_tokens(entries[j - 1].1) + seq![TokenView::Comma]
            =~= t2);
        lemma_run_concat(Lex::Default, ts, before + comma, key, key.len() as int);
        lemma_literal_run(t2, e.0);
        lemma_run_concat(Lex::Default, ts, before + comma + key, colon, 1);
        lemma_punct_run(t2 + seq![TokenView::Text(e.0)], ':');
        let t3 = t2 + seq![TokenView::Text(e.0)] + seq![TokenView::Colon];
        lemma_run_concat(Lex::Default, ts, before + comma + key + colon, val, val.len() as int);
        lemma_value_run(e.1, t3);
        assert(t3 =~= ts + entries_prefix(entries, k));
        assert(entries_prefix(entries, k) + value_tokens(e.1) =~= entries_tokens(entries, k));
    }
}

/// Reading what `write_json` writes of a writable value gives the value back.
pub proof fn lemma_parse_write(v: JsonView)
    requires
        writable(v),
    ensures
        parse_json(write_json(v)) == Ok::<JsonView, JsonError>(v),
{
    let w = write_json(v);
    let empty = Seq::<TokenView>::empty();
    lemma_prefix_is_run(w, w.len() as int);
    lemma_value_run(v, empty);
    assert(empty + value_tokens(v) =~= value_tokens(v));
    if is_word(v) {
        lemma_word_value(v);
        assert(value_tokens(v) =~= seq![value_tokens(v)[0]]);
        assert(empty + seq![value_tokens(v)[0]] =~= value_tokens(v));
    } else {
        assert(value_tokens(v) + empty =~= value_tokens(v));
    }
    assert(tokens_of(w) == Ok::<Seq<TokenView>, JsonError>(value_tokens(v)));
    lemma_read_value_tokens(v);
}

} // verus!
