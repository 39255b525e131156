//! The tokens of JSON text.
use vstd::prelude::*;
use vstd::utf8::is_scalar;
use crate::json::JsonError;
use vstd::std_specs::iter::IteratorSpec;

verus! {

/// A token of JSON text.
#[derive(Debug, PartialEq)]
pub enum Token {
    Null,
    Comma,
    Colon,
    True,
    False,
    BraceOpen,
    BraceClose,
    BracketOpen,
    BracketClose,
    /// The literal text of a number.
    Number(String),
    /// The decoded contents of a string.
    String(String),
}

pub enum TokenView {
    Null,
    Comma,
    Colon,
    True,
    False,
    BraceOpen,
    BraceClose,
    BracketOpen,
    BracketClose,
    Number(Seq<char>),
    Text(Seq<char>),
}

impl View for Token {
    type V = TokenView;

    open spec fn view(&self) -> TokenView {
        match self {
            Token::Null => TokenView::Null,
            Token::Comma => TokenView::Comma,
            Token::Colon => TokenView::Colon,
            Token::True => TokenView::True,
            Token::False => TokenView::False,
            Token::BraceOpen => TokenView::BraceOpen,
            Token::BraceClose => TokenView::BraceClose,
            Token::BracketOpen => TokenView::BracketOpen,
            Token::BracketClose => TokenView::BracketClose,
            Token::Number(s) => TokenView::Number(s@),
            Token::String(s) => TokenView::Text(s@),
        }
    }
}

pub open spec fn token_views(ts: Seq<Token>) -> Seq<TokenView> {
    ts.map_values(|t: Token| t@)
}

pub open spec fn is_space(c: char) -> bool {
    c == ' ' || c == '\x0C' || c == '\n' || c == '\r' || c == '\t' || c == '\x0B'
}

/// The token that a punctuation character stands for.
pub open spec fn punct_token(c: char) -> Option<TokenView> {
    if c == ',' {
        Some(TokenView::Comma)
    } else if c == ':' {
        Some(TokenView::Colon)
    } else if c == '{' {
        Some(TokenView::BraceOpen)
    } else if c == '}' {
        Some(TokenView::BraceClose)
    } else if c == '[' {
        Some(TokenView::BracketOpen)
    } else if c == ']' {
        Some(TokenView::BracketClose)
    } else {
        None
    }
}

/// A character that ends a bare word.
pub open spec fn is_delimiter(c: char) -> bool {
    is_space(c) || punct_token(c) is Some || c == '"'
}

pub open spec fn is_digit(c: char) -> bool {
    '0' <= c <= '9'
}

/// The number of digits that `s` starts with.
pub open spec fn lead_digits(s: Seq<char>) -> nat
    decreases s.len(),
{
    if s.len() > 0 && is_digit(s[0]) {
        1 + lead_digits(s.skip(1))
    } else {
        0
    }
}

/// `s` without one leading sign.
pub open spec fn unsigned_part(s: Seq<char>) -> Seq<char> {
    if s.len() > 0 && (s[0] == '+' || s[0] == '-') {
        s.skip(1)
    } else {
        s
    }
}

/// The code of `c` with an ASCII capital turned into its small letter.
pub open spec fn ascii_lower_code(c: char) -> u32 {
    let code = c as u32;
    if 65 <= code <= 90 {
        (code + 32) as u32
    } else {
        code
    }
}

/// `s` is `word` up to the case of ASCII letters.
pub open spec fn eq_ignore_case(s: Seq<char>, word: Seq<char>) -> bool {
    s.len() == word.len() && forall|i: int|
        0 <= i < s.len() ==> ascii_lower_code(#[trigger] s[i]) == word[i] as u32
}

/// `e` or `E`, an optional sign, and one or more digits to the end.
pub open spec fn is_exponent(x: Seq<char>) -> bool {
    let y = unsigned_part(x.skip(1));
    x.len() > 0 && (x[0] == 'e' || x[0] == 'E') && y.len() > 0 && lead_digits(y) == y.len()
}

/// Digits, an optional point followed by digits, one digit at least, then the
/// end or an exponent.
pub open spec fn is_decimal(u: Seq<char>) -> bool {
    let a = lead_digits(u) as int;
    let point = a < u.len() && u[a] == '.';
    let b = if point {
        lead_digits(u.skip(a + 1)) as int
    } else {
        0
    };
    let end = if point {
        a + 1 + b
    } else {
        a
    };
    a + b > 0 && (end == u.len() || is_exponent(u.skip(end)))
}

/// The texts that Rust's `f64` parsing accepts: an optional sign, then `inf`,
/// `infinity` or `nan` in any case, or a decimal mantissa with an optional exponent.
pub open spec fn is_float_literal(s: Seq<char>) -> bool {
    let u = unsigned_part(s);
    ||| eq_ignore_case(u, seq!['i', 'n', 'f'])
    ||| eq_ignore_case(u, seq!['i', 'n', 'f', 'i', 'n', 'i', 't', 'y'])
    ||| eq_ignore_case(u, seq!['n', 'a', 'n'])
    ||| is_decimal(u)
}

proof fn lemma_lead_digits(s: Seq<char>, i: int)
    requires
        0 <= i < lead_digits(s),
    ensures
        is_digit(s[i]),
    decreases s.len(),
{
    lemma_lead_digits_len(s);
    assert(s.len() > 0 && is_digit(s[0]));
    if i > 0 {
        lemma_lead_digits(s.skip(1), i - 1);
        assert(s.skip(1)[i - 1] == s[i]);
    }
}

proof fn lemma_lead_digits_len(s: Seq<char>)
    ensures
        lead_digits(s) <= s.len(),
    decreases s.len(),
{
    if s.len() > 0 && is_digit(s[0]) {
        lemma_lead_digits_len(s.skip(1));
    }
}

proof fn lemma_word_chars(u: Seq<char>, word: Seq<char>)
    requires
        eq_ignore_case(u, word),
        forall|i: int| 0 <= i < word.len() ==> 97 <= (#[trigger] word[i] as u32) <= 122,
    ensures
        forall|i: int| 0 <= i < u.len() ==> !is_delimiter(#[trigger] u[i]),
{
    assert forall|i: int| 0 <= i < u.len() implies !is_delimiter(#[trigger] u[i]) by {
        assert(ascii_lower_code(u[i]) == word[i] as u32);
        assert(97 <= word[i] as u32 <= 122);
    }
}

proof fn lemma_decimal_chars(u: Seq<char>)
    requires
        is_decimal(u),
    ensures
        u.len() > 0,
        forall|i: int| 0 <= i < u.len() ==> !is_delimiter(#[trigger] u[i]),
{
    let a = lead_digits(u) as int;
    lemma_lead_digits_len(u);
    let point = a < u.len() && u[a] == '.';
    let b = if point {
        lead_digits(u.skip(a + 1)) as int
    } else {
        0
    };
    if point {
        lemma_lead_digits_len(u.skip(a + 1));
    }
    let end = if point {
        a + 1 + b
    } else {
        a
    };
    assert forall|i: int| 0 <= i < u.len() implies !is_delimiter(#[trigger] u[i]) by {
        if i < a {
            lemma_lead_digits(u, i);
        } else if point && i == a {
        } else if point && i < end {
            lemma_lead_digits(u.skip(a + 1), i - a - 1);
        } else {
            let x = u.skip(end);
            assert(is_exponent(x));
            if i == end {
                assert(u[i] == x[0]);
            } else {
                let z = x.skip(1);
                let y = unsigned_part(z);
                if z.len() > 0 && (z[0] == '+' || z[0] == '-') && i == end + 1 {
                    assert(u[i] == z[0]);
                } else {
                    let k = if z.len() > 0 && (z[0] == '+' || z[0] == '-') {
                        i - end - 2
                    } else {
                        i - end - 1
                    };
                    assert(y[k] == u[i]);
                    lemma_lead_digits(y, k);
                }
            }
        }
    }
}

/// A literal that Rust's `f64` parsing accepts is not empty and holds no
/// character that ends a bare word.
pub proof fn lemma_float_literal_chars(s: Seq<char>)
    requires
        is_float_literal(s),
    ensures
        s.len() > 0,
        forall|i: int| 0 <= i < s.len() ==> !is_delimiter(#[trigger] s[i]),
{
    let u = unsigned_part(s);
    let off = s.len() - u.len();
    if eq_ignore_case(u, seq!['i', 'n', 'f']) {
        lemma_word_chars(u, seq!['i', 'n', 'f']);
    } else if eq_ignore_case(u, seq!['i', 'n', 'f', 'i', 'n', 'i', 't', 'y']) {
        lemma_word_chars(u, seq!['i', 'n', 'f', 'i', 'n', 'i', 't', 'y']);
    } else if eq_ignore_case(u, seq!['n', 'a', 'n']) {
        lemma_word_chars(u, seq!['n', 'a', 'n']);
    } else {
        lemma_decimal_chars(u);
    }
    assert forall|i: int| 0 <= i < s.len() implies !is_delimiter(#[trigger] s[i]) by {
        if i >= off {
            assert(s[i] == u[i - off]);
        }
    }
}

/// Index of the first character at or after `from` that is not a digit.
fn skip_digits(s: &[char], from: usize) -> (r: usize)
    requires
        from <= s@.len(),
    ensures
        from <= r <= s@.len(),
        r - from == lead_digits(s@.skip(from as int)),
{
    let mut j = from;
    while j < s.len() && '0' <= s[j] && s[j] <= '9'
        invariant
            from <= j <= s@.len(),
            lead_digits(s@.skip(from as int)) == (j - from) + lead_digits(s@.skip(j as int)),
        decreases s@.len() - j,
    {
        assert(s@.skip(j as int).skip(1) =~= s@.skip(j + 1));
        j += 1;
    }
    j
}

fn eq_ignore_case_from(s: &[char], from: usize, word: &[char]) -> (r: bool)
    requires
        from <= s@.len(),
    ensures
        r == eq_ignore_case(s@.skip(from as int), word@),
{
    let len = s.len();
    if len - from != word.len() {
        return false;
    }
    let mut i: usize = 0;
    while i < word.len()
        invariant
            len == s@.len(),
            i <= word@.len(),
            from <= s@.len(),
            s@.len() - from == word@.len(),
            forall|k: int| 0 <= k < i ==> ascii_lower_code(#[trigger] s@.skip(from as int)[k]) == word@[k] as u32,
        decreases word@.len() - i,
    {
        let code = s[from + i] as u32;
        let lower = if 65 <= code && code <= 90 {
            code + 32
        } else {
            code
        };
        assert(s@.skip(from as int)[i as int] == s@[from + i]);
        if lower != word[i] as u32 {
            return false;
        }
        i += 1;
    }
    true
}

fn is_exponent_from(s: &[char], from: usize) -> (r: bool)
    requires
        from < s@.len(),
    ensures
        r == is_exponent(s@.skip(from as int)),
{
    let len = s.len();
    let ghost x = s@.skip(from as int);
    assert(x.skip(1) =~= s@.skip(from + 1));
    if s[from] != 'e' && s[from] != 'E' {
        return false;
    }
    let mut k = from + 1;
    if k < len && (s[k] == '+' || s[k] == '-') {
        k = k + 1;
        assert(s@.skip(from + 1).skip(1) =~= s@.skip(k as int));
    }
    let d = skip_digits(s, k);
    d > k && d == len
}

fn is_decimal_from(s: &[char], start: usize) -> (r: bool)
    requires
        start <= s@.len(),
    ensures
        r == is_decimal(s@.skip(start as int)),
{
    let ghost u = s@.skip(start as int);
    let len = s.len();
    let a = skip_digits(s, start);
    let point = a < len && s[a] == '.';
    let mut end = a;
    let mut b: usize = 0;
    if point {
        end = skip_digits(s, a + 1);
        b = end - a - 1;
        assert(u.skip(a - start + 1) =~= s@.skip(a + 1));
    }
    assert(point == ((a - start) < u.len() && u[a - start] == '.'));
    if (a - start) + b == 0 {
        return false;
    }
    if end == len {
        return true;
    }
    assert(u.skip(end - start) =~= s@.skip(end as int));
    is_exponent_from(s, end)
}

/// Whether Rust's `f64` parsing accepts `s`.
fn is_float_literal_text(s: &[char]) -> (r: bool)
    ensures
        r == is_float_literal(s@),
{
    let len = s.len();
    let start: usize = if len > 0 && (s[0] == '+' || s[0] == '-') {
        1
    } else {
        0
    };
    assert(unsigned_part(s@) =~= s@.skip(start as int));
    eq_ignore_case_from(s, start, &['i', 'n', 'f']) || eq_ignore_case_from(
        s,
        start,
        &['i', 'n', 'f', 'i', 'n', 'i', 't', 'y'],
    ) || eq_ignore_case_from(s, start, &['n', 'a', 'n']) || is_decimal_from(s, start)
}

/// The value of a hexadecimal digit.
pub open spec fn hex_digit_value(c: char) -> Option<nat> {
    if '0' <= c <= '9' {
        Some((c as u32 - '0' as u32) as nat)
    } else if 'a' <= c <= 'f' {
        Some((c as u32 - 'a' as u32 + 10) as nat)
    } else if 'A' <= c <= 'F' {
        Some((c as u32 - 'A' as u32 + 10) as nat)
    } else {
        None
    }
}

/// The value of the hexadecimal digits `d`.
pub open spec fn hex_value(d: Seq<char>) -> Option<nat>
    decreases d.len(),
{
    if d.len() == 0 {
        Some(0)
    } else {
        match (hex_value(d.drop_last()), hex_digit_value(d.last())) {
            (Some(v), Some(x)) => Some(v * 16 + x),
            _ => None,
        }
    }
}

/// The character that the escape `\u` followed by the four characters `h`
/// stands for: `h` is ASCII, read as a `u32` in base 16 (an optional `+`, then
/// digits), and names a Unicode scalar value. Surrogates name none.
pub open spec fn unicode_escape(h: Seq<char>) -> Option<char> {
    let d = if h.len() > 0 && h[0] == '+' {
        h.skip(1)
    } else {
        h
    };
    if exists|i: int| 0 <= i < h.len() && (#[trigger] h[i] as u32) >= 128 {
        None
    } else if d.len() == 0 {
        None
    } else {
        match hex_value(d) {
            Some(v) => if v <= u32::MAX && is_scalar(v as u32) {
                Some((v as u32) as char)
            } else {
                None
            },
            None => None,
        }
    }
}

proof fn lemma_hex_value_fails(d: Seq<char>, i: int)
    requires
        0 <= i < d.len(),
        hex_digit_value(d[i]) is None,
    ensures
        hex_value(d) is None,
    decreases d.len(),
{
    if i < d.len() - 1 {
        lemma_hex_value_fails(d.drop_last(), i);
    }
}

/// Relies on `char::from_u32`: it gives the character of a Unicode scalar value,
/// and nothing for any other number.
#[verifier::external_body]
fn char_from_code(v: u32) -> (r: Option<char>)
    ensures
        r == if is_scalar(v) {
            Some(v as char)
        } else {
            None::<char>
        },
{
    char::from_u32(v)
}

fn hex_digit(c: char) -> (r: Option<u32>)
    ensures
        match r {
            Some(x) => hex_digit_value(c) == Some(x as nat) && x < 16,
            None => hex_digit_value(c) is None,
        },
{
    if '0' <= c && c <= '9' {
        Some(c as u32 - '0' as u32)
    } else if 'a' <= c && c <= 'f' {
        Some(c as u32 - 'a' as u32 + 10)
    } else if 'A' <= c && c <= 'F' {
        Some(c as u32 - 'A' as u32 + 10)
    } else {
        None
    }
}

/// Decodes the four characters of a `\u` escape.
#[verifier::rlimit(30)]
#[verifier::spinoff_prover]
fn decode_unicode_escape(h: &[char]) -> (r: Option<char>)
    requires
        h@.len() == 4,
    ensures
        r == unicode_escape(h@),
{
    let mut i: usize = 0;
    while i < 4
        invariant
            i <= 4,
            h@.len() == 4,
            forall|k: int| 0 <= k < i ==> (#[trigger] h@[k] as u32) < 128,
        decreases 4 - i,
    {
        if h[i] as u32 >= 128 {
            return None;
        }
        i += 1;
    }
    let start: usize = if h[0] == '+' {
        1
    } else {
        0
    };
    let ghost d = if h@[0] == '+' {
        h@.skip(1)
    } else {
        h@
    };
    let mut v: u32 = 0;
    let mut k = start;
    while k < 4
        invariant
            start <= k <= 4,
            h@.len() == 4,
            forall|i: int| 0 <= i < 4 ==> (#[trigger] h@[i] as u32) < 128,
            d == h@.skip(start as int),
            d == (if h@[0] == '+' {
                h@.skip(1)
            } else {
                h@
            }),
            hex_value(h@.subrange(start as int, k as int)) == Some(v as nat),
            k - start == 0 ==> v == 0,
            k - start <= 1 ==> v < 16,
            k - start <= 2 ==> v < 256,
            k - start <= 3 ==> v < 4096,
            v < 65536,
        decreases 4 - k,
    {
        let x = match hex_digit(h[k]) {
            Some(x) => x,
            None => {
                proof {
                    assert(h@.subrange(start as int, 4)[k - start] == h@[k as int]);
                    lemma_hex_value_fails(h@.subrange(start as int, 4), k - start);
                    assert(h@.subrange(start as int, 4) =~= d);
                }
                return None;
            },
        };
        assert(h@.subrange(start as int, k + 1).drop_last() =~= h@.subrange(start as int, k as int));
        v = v * 16 + x;
        k += 1;
    }
    assert(h@.subrange(start as int, 4) =~= d);
    char_from_code(v)
}

/// Where the tokenizer stands between two characters.
pub enum Lex {
    /// Between tokens.
    Default,
    /// Inside a bare word: a keyword or a number.
    Word(Seq<char>),
    /// Inside a string, with its decoded contents so far.
    Text(Seq<char>),
    /// After a backslash in a string.
    Escape(Seq<char>),
    /// Inside a `\u` escape, with its characters so far.
    Unicode(Seq<char>, Seq<char>),
    /// Stopped on an error.
    Failed(JsonError),
}

/// A `\u` escape holds at most three characters between two steps.
pub open spec fn lex_wf(st: Lex) -> bool {
    match st {
        Lex::Unicode(_, h) => h.len() <= 3,
        _ => true,
    }
}

/// The token that a bare word stands for, if any.
pub open spec fn word_token(w: Seq<char>) -> Option<TokenView> {
    if w == seq!['n', 'u', 'l', 'l'] {
        Some(TokenView::Null)
    } else if w == seq!['f', 'a', 'l', 's', 'e'] {
        Some(TokenView::False)
    } else if w == seq!['t', 'r', 'u', 'e'] {
        Some(TokenView::True)
    } else if is_float_literal(w) {
        Some(TokenView::Number(w))
    } else {
        None
    }
}

/// The character that a one-letter escape stands for.
pub open spec fn escape_char(c: char) -> Option<char> {
    if c == '"' || c == '\\' || c == '/' {
        Some(c)
    } else if c == 'b' {
        Some('\x08')
    } else if c == 'f' {
        Some('\x0C')
    } else if c == 'n' {
        Some('\n')
    } else if c == 'r' {
        Some('\r')
    } else if c == 't' {
        Some('\t')
    } else {
        None
    }
}

/// The step on `c` between tokens: the new state and the tokens emitted.
pub open spec fn default_step(c: char) -> (Lex, Seq<TokenView>) {
    if is_space(c) {
        (Lex::Default, Seq::empty())
    } else if punct_token(c) is Some {
        (Lex::Default, seq![punct_token(c)->Some_0])
    } else if c == '"' {
        (Lex::Text(Seq::empty()), Seq::empty())
    } else {
        (Lex::Word(seq![c]), Seq::empty())
    }
}

/// The step on the character `c` from the state `st`. A delimiter ends a bare
/// word and is then read as between tokens.
pub open spec fn lex_step(st: Lex, c: char) -> (Lex, Seq<TokenView>) {
    match st {
        Lex::Default => default_step(c),
        Lex::Word(w) => if is_delimiter(c) {
            match word_token(w) {
                Some(t) => (default_step(c).0, seq![t] + default_step(c).1),
                None => (Lex::Failed(JsonError::InvalidKeywordOrNumber), Seq::empty()),
            }
        } else {
            (Lex::Word(w.push(c)), Seq::empty())
        },
        Lex::Text(s) => if c == '"' {
            (Lex::Default, seq![TokenView::Text(s)])
        } else if c == '\\' {
            (Lex::Escape(s), Seq::empty())
        } else {
            (Lex::Text(s.push(c)), Seq::empty())
        },
        Lex::Escape(s) => match escape_char(c) {
            Some(e) => (Lex::Text(s.push(e)), Seq::empty()),
            None => if c == 'u' {
                (Lex::Unicode(s, Seq::empty()), Seq::empty())
            } else {
                (Lex::Failed(JsonError::InvalidEscapeSequence), Seq::empty())
            },
        },
        Lex::Unicode(s, h) => if h.len() < 3 {
            (Lex::Unicode(s, h.push(c)), Seq::empty())
        } else {
            match unicode_escape(h.push(c)) {
                Some(e) => (Lex::Text(s.push(e)), Seq::empty()),
                None => (Lex::Failed(JsonError::InvalidEscapeSequence), Seq::empty()),
            }
        },
        Lex::Failed(e) => (Lex::Failed(e), Seq::empty()),
    }
}

/// The last tokens at the end of the text, or the error that the end meets.
pub open spec fn lex_end(st: Lex) -> Result<Seq<TokenView>, JsonError> {
    match st {
        Lex::Default => Ok(Seq::empty()),
        Lex::Word(w) => match word_token(w) {
            Some(t) => Ok(seq![t]),
            None => Err(JsonError::InvalidKeywordOrNumber),
        },
        Lex::Text(_) => Err(JsonError::InvalidEndOfInput),
        Lex::Escape(_) => Err(JsonError::InvalidEscapeSequence),
        Lex::Unicode(_, _) => Err(JsonError::InvalidEscapeSequence),
        Lex::Failed(e) => Err(e),
    }
}

/// The state and the tokens after the first `n` characters of `cs`.
pub open spec fn lex_prefix(cs: Seq<char>, n: int) -> (Lex, Seq<TokenView>)
    decreases n,
{
    if n <= 0 {
        (Lex::Default, Seq::empty())
    } else {
        let (st, ts) = lex_prefix(cs, n - 1);
        let (st2, ts2) = lex_step(st, cs[n - 1]);
        (st2, ts + ts2)
    }
}

/// The tokens of the text `cs`, or the first error in it.
pub open spec fn tokens_of(cs: Seq<char>) -> Result<Seq<TokenView>, JsonError> {
    let (st, ts) = lex_prefix(cs, cs.len() as int);
    match lex_end(st) {
        Ok(last) => Ok(ts + last),
        Err(e) => Err(e),
    }
}

enum LexState {
    Default,
    Word(Vec<char>),
    Text(Vec<char>),
    Escape(Vec<char>),
    Unicode(Vec<char>, Vec<char>),
    Failed(JsonError),
}

impl View for LexState {
    type V = Lex;

    closed spec fn view(&self) -> Lex {
        match self {
            LexState::Default => Lex::Default,
            LexState::Word(w) => Lex::Word(w@),
            LexState::Text(s) => Lex::Text(s@),
            LexState::Escape(s) => Lex::Escape(s@),
            LexState::Unicode(s, h) => Lex::Unicode(s@, h@),
            LexState::Failed(e) => Lex::Failed(*e),
        }
    }
}

/// Relies on `String`'s `FromIterator<char>`: the string holds the characters in order.
#[verifier::external_body]
pub(crate) fn string_of(cs: Vec<char>) -> (r: String)
    ensures
        r@ == cs@,
{
    String::from_iter(cs)
}

/// The characters of `s`, in order.
pub(crate) fn chars_of(s: &str) -> (r: Vec<char>)
    ensures
        r@ == s@,
{
    broadcast use vstd::string::axiom_spec_iter, vstd::string::next_postcondition;

    let mut it = s.chars();
    let mut out: Vec<char> = Vec::new();
    loop
        invariant
            out@ + it.remaining() == s@,
            it.decrease() is Some,
        ensures
            out@ == s@,
        decreases it.decrease()->0,
    {
        match it.next() {
            Some(c) => {
                out.push(c);
            },
            None => {
                assert(out@ + it.remaining() =~= out@);
                break ;
            },
        }
    }
    out
}

fn push_token(out: &mut Vec<Token>, t: Token)
    ensures
        token_views(final(out)@) == token_views(old(out)@).push(t@),
{
    out.push(t);
    assert(token_views(final(out)@) =~= token_views(old(out)@).push(t@));
}

fn default_step_exec(c: char, out: &mut Vec<Token>) -> (r: LexState)
    ensures
        r@ == default_step(c).0,
        token_views(final(out)@) == token_views(old(out)@) + default_step(c).1,
{
    if c == ' ' || c == '\x0C' || c == '\n' || c == '\r' || c == '\t' || c == '\x0B' {
        assert(token_views(out@) =~= token_views(out@) + Seq::<TokenView>::empty());
        LexState::Default
    } else if c == ',' || c == ':' || c == '{' || c == '}' || c == '[' || c == ']' {
        let t = if c == ',' {
            Token::Comma
        } else if c == ':' {
            Token::Colon
        } else if c == '{' {
            Token::BraceOpen
        } else if c == '}' {
            Token::BraceClose
        } else if c == '[' {
            Token::BracketOpen
        } else {
            Token::BracketClose
        };
        let ghost before = token_views(out@);
        push_token(out, t);
        assert(token_views(out@) =~= before + seq![t@]);
        LexState::Default
    } else if c == '"' {
        assert(token_views(out@) =~= token_views(out@) + Seq::<TokenView>::empty());
        LexState::Text(Vec::new())
    } else {
        assert(token_views(out@) =~= token_views(out@) + Seq::<TokenView>::empty());
        let mut w: Vec<char> = Vec::new();
        w.push(c);
        assert(w@ =~= seq![c]);
        LexState::Word(w)
    }
}

fn word_token_exec(w: Vec<char>) -> (r: Option<Token>)
    ensures
        match r {
            Some(t) => word_token(w@) == Some(t@),
            None => word_token(w@) is None,
        },
{
    if w.len() == 4 && w[0] == 'n' && w[1] == 'u' && w[2] == 'l' && w[3] == 'l' {
        assert(w@ =~= seq!['n', 'u', 'l', 'l']);
        Some(Token::Null)
    } else if w.len() == 5 && w[0] == 'f' && w[1] == 'a' && w[2] == 'l' && w[3] == 's' && w[4]
        == 'e' {
        assert(w@ =~= seq!['f', 'a', 'l', 's', 'e']);
        Some(Token::False)
    } else if w.len() == 4 && w[0] == 't' && w[1] == 'r' && w[2] == 'u' && w[3] == 'e' {
        assert(w@ =~= seq!['t', 'r', 'u', 'e']);
        Some(Token::True)
    } else {
        assert(w@ != seq!['n', 'u', 'l', 'l'] && w@ != seq!['f', 'a', 'l', 's', 'e'] && w@ != seq!['t', 'r', 'u', 'e']) by {
            if w@ == seq!['n', 'u', 'l', 'l'] {
                assert(w@[0] == 'n' && w@[1] == 'u' && w@[2] == 'l' && w@[3] == 'l');
            }
            if w@ == seq!['f', 'a', 'l', 's', 'e'] {
                assert(w@[0] == 'f' && w@[1] == 'a' && w@[2] == 'l' && w@[3] == 's' && w@[4] == 'e');
            }
            if w@ == seq!['t', 'r', 'u', 'e'] {
                assert(w@[0] == 't' && w@[1] == 'r' && w@[2] == 'u' && w@[3] == 'e');
            }
        }
        if is_float_literal_text(w.as_slice()) {
            Some(Token::Number(string_of(w)))
        } else {
            None
        }
    }
}

fn escape_char_exec(c: char) -> (r: Option<char>)
    ensures
        r == escape_char(c),
{
    if c == '"' || c == '\\' || c == '/' {
        Some(c)
    } else if c == 'b' {
        Some('\x08')
    } else if c == 'f' {
        Some('\x0C')
    } else if c == 'n' {
        Some('\n')
    } else if c == 'r' {
        Some('\r')
    } else if c == 't' {
        Some('\t')
    } else {
        None
    }
}

#[verifier::rlimit(30)]
#[verifier::spinoff_prover]
fn lex_step_exec(st: LexState, c: char, out: &mut Vec<Token>) -> (r: LexState)
    requires
        lex_wf(st@),
    ensures
        lex_wf(r@),
        r@ == lex_step(st@, c).0,
        token_views(final(out)@) == token_views(old(out)@) + lex_step(st@, c).1,
{
    let ghost before = token_views(out@);
    proof {
        assert(before =~= before + Seq::<TokenView>::empty());
    }
    match st {
        LexState::Default => default_step_exec(c, out),
        LexState::Word(mut w) => {
            let delimiter = c == ' ' || c == '\x0C' || c == '\n' || c == '\r' || c == '\t' || c
                == '\x0B' || c == ',' || c == ':' || c == '{' || c == '}' || c == '[' || c == ']'
                || c == '"';
            if delimiter {
                match word_token_exec(w) {
                    Some(t) => {
                        push_token(out, t);
                        let r = default_step_exec(c, out);
                        assert(token_views(out@) =~= before + (seq![t@] + default_step(c).1));
                        r
                    },
                    None => LexState::Failed(JsonError::InvalidKeywordOrNumber),
                }
            } else {
                w.push(c);
                LexState::Word(w)
            }
        },
        LexState::Text(mut s) => {
            if c == '"' {
                let t = Token::String(string_of(s));
                push_token(out, t);
                assert(token_views(out@) =~= before + seq![t@]);
                LexState::Default
            } else if c == '\\' {
                LexState::Escape(s)
            } else {
                s.push(c);
                LexState::Text(s)
            }
        },
        LexState::Escape(mut s) => match escape_char_exec(c) {
            Some(e) => {
                s.push(e);
                LexState::Text(s)
            },
            None => if c == 'u' {
                LexState::Unicode(s, Vec::new())
            } else {
                LexState::Failed(JsonError::InvalidEscapeSequence)
            },
        },
        LexState::Unicode(mut s, mut h) => {
            if h.len() < 3 {
                h.push(c);
                LexState::Unicode(s, h)
            } else {
                h.push(c);
                match decode_unicode_escape(h.as_slice()) {
                    Some(e) => {
                        s.push(e);
                        LexState::Text(s)
                    },
                    None => LexState::Failed(JsonError::InvalidEscapeSequence),
                }
            }
        },
        LexState::Failed(e) => LexState::Failed(e),
    }
}

/// Splits JSON text into tokens.
#[verifier::rlimit(30)]
#[verifier::spinoff_prover]
pub fn tokenize(input: &str) -> (r: Result<Vec<Token>, JsonError>)
    ensures
        match r {
            Ok(ts) => tokens_of(input@) == Ok::<Seq<TokenView>, JsonError>(token_views(ts@)),
            Err(e) => tokens_of(input@) == Err::<Seq<TokenView>, JsonError>(e),
        },
{
    let cs = chars_of(input);
    let mut st = LexState::Default;
    let mut result: Vec<Token> = Vec::new();
    let mut i: usize = 0;
    assert(token_views(result@) =~= Seq::<TokenView>::empty());
    while i < cs.len()
        invariant
            i <= cs@.len(),
            cs@ == input@,
            lex_wf(st@),
            (st@, token_views(result@)) == lex_prefix(cs@, i as int),
        decreases cs@.len() - i,
    {
        st = lex_step_exec(st, cs[i], &mut result);
        i += 1;
    }
    let ghost ts = token_views(result@);
    match st {
        LexState::Default => {
            assert(ts + Seq::<TokenView>::empty() =~= ts);
            Ok(result)
        },
        LexState::Word(w) => match word_token_exec(w) {
            Some(t) => {
                push_token(&mut result, t);
                Ok(result)
            },
            None => Err(JsonError::InvalidKeywordOrNumber),
        },
        LexState::Text(_) => Err(JsonError::InvalidEndOfInput),
        LexState::Escape(_) => Err(JsonError::InvalidEscapeSequence),
        LexState::Unicode(_, _) => Err(JsonError::InvalidEscapeSequence),
        LexState::Failed(e) => Err(e),
    }
}

} // verus!
