//! Splits the source text into tokens.

use vstd::prelude::*;

verus! {

/// A diagnostic: what went wrong, and the character offset in the source
/// where it was noticed.
#[derive(Debug, Clone, PartialEq, Eq)]
pub struct ParseError {
    pub message: String,
    pub offset: usize,
}

#[derive(Debug, Clone, Copy, PartialEq, Eq, Structural)]
pub enum Delim {
    Brace,
    Bracket,
    Paren,
}

#[derive(Debug, Clone, Copy, PartialEq, Eq, Structural)]
pub enum TokenKind {
    /// A word: an identifier or a keyword.
    Ident,
    /// An integer literal and its value.
    Int(u64),
    /// A string literal; its text is what stands between the quotes.
    Str,
    /// A `///` comment; its text is what follows the three slashes.
    Doc,
    /// `..`
    DotDot,
    /// `..=`
    DotDotEq,
    /// `::`
    PathSep,
    /// Any other single punctuation character.
    Punct(char),
    Open(Delim),
    Close(Delim),
}

/// A token. `start..end` is its span in characters, `text_start..text_end`
/// the part of it that carries its text, and `mate`, for an opening
/// delimiter, the index of the token that closes it.
#[derive(Debug, Clone, Copy)]
pub struct Token {
    pub kind: TokenKind,
    pub start: usize,
    pub end: usize,
    pub text_start: usize,
    pub text_end: usize,
    pub mate: usize,
}

/// Every token lies inside a text of `n` characters.
pub open spec fn tokens_in(toks: Seq<Token>, n: nat) -> bool {
    forall|k: int|
        0 <= k < toks.len() ==> {
            &&& #[trigger] toks[k].start <= toks[k].end
            &&& toks[k].end <= n
            &&& toks[k].text_start <= toks[k].text_end
            &&& toks[k].text_end <= n
        }
}

pub open spec fn open_char(d: Delim) -> char {
    match d {
        Delim::Brace => '{',
        Delim::Bracket => '[',
        Delim::Paren => '(',
    }
}

pub open spec fn close_char(d: Delim) -> char {
    match d {
        Delim::Brace => '}',
        Delim::Bracket => ']',
        Delim::Paren => ')',
    }
}

/// The characters of `c` under the token `t` spell a token of its kind: a
/// whole identifier, a literal that starts with a digit, a quoted string,
/// a `///` line, or the punctuation or delimiter itself.
pub open spec fn token_spelled(c: Seq<char>, t: Token) -> bool {
    &&& t.start < t.end <= c.len()
    &&& match t.kind {
        TokenKind::Ident => {
            &&& is_ident_start(c[t.start as int])
            &&& forall|j: int| t.start < j < t.end ==> is_ident_continue(#[trigger] c[j])
            &&& (t.end == c.len() || !is_ident_continue(c[t.end as int]))
            &&& t.text_start == t.start
            &&& t.text_end == t.end
        },
        TokenKind::Int(v) => number_spelled(c, t.start as int, t.end as int, v),
        TokenKind::Str => {
            &&& c[t.start as int] == '"'
            &&& c[t.end - 1] == '"'
            &&& t.text_start == t.start + 1
            &&& t.text_end == t.end - 1
        },
        TokenKind::Doc => {
            &&& t.start + 3 <= t.end
            &&& c[t.start as int] == '/' && c[t.start + 1] == '/' && c[t.start + 2] == '/'
            &&& t.text_start == t.start + 3
            &&& t.text_end == t.end
            &&& (t.end == c.len() || c[t.end as int] == '\n')
        },
        TokenKind::DotDot => t.end == t.start + 2 && c[t.start as int] == '.' && c[t.start + 1]
            == '.',
        TokenKind::DotDotEq => t.end == t.start + 3 && c[t.start as int] == '.' && c[t.start + 1]
            == '.' && c[t.start + 2] == '=',
        TokenKind::PathSep => t.end == t.start + 2 && c[t.start as int] == ':' && c[t.start + 1]
            == ':',
        TokenKind::Punct(p) => t.end == t.start + 1 && c[t.start as int] == p,
        TokenKind::Open(d) => t.end == t.start + 1 && c[t.start as int] == open_char(d),
        TokenKind::Close(d) => t.end == t.start + 1 && c[t.start as int] == close_char(d),
    }
}

/// Each token spells its kind, and the tokens follow each other in the text.
#[verifier::opaque]
pub open spec fn tokens_well_formed(c: Seq<char>, toks: Seq<Token>) -> bool {
    &&& forall|k: int| 0 <= k < toks.len() ==> token_spelled(c, #[trigger] toks[k])
    &&& forall|k: int| 0 <= k < toks.len() - 1 ==> (#[trigger] toks[k]).end <= toks[k + 1].start
}

pub open spec fn is_ident_start(c: char) -> bool {
    ('a' <= c && c <= 'z') || ('A' <= c && c <= 'Z') || c == '_'
}

pub open spec fn is_ident_continue(c: char) -> bool {
    is_ident_start(c) || ('0' <= c && c <= '9')
}

fn ident_start(c: char) -> (r: bool)
    ensures
        r == is_ident_start(c),
{
    ('a' <= c && c <= 'z') || ('A' <= c && c <= 'Z') || c == '_'
}

fn ident_continue(c: char) -> (r: bool)
    ensures
        r == is_ident_continue(c),
{
    ident_start(c) || ('0' <= c && c <= '9')
}

/// The value of `c` as a digit in the given radix, if it is one.
pub open spec fn digit_value(c: char, radix: u64) -> Option<u64> {
    let d: int = if '0' <= c && c <= '9' {
        c as int - '0' as int
    } else if 'a' <= c && c <= 'f' {
        c as int - 'a' as int + 10
    } else if 'A' <= c && c <= 'F' {
        c as int - 'A' as int + 10
    } else {
        99
    };
    if d < radix {
        Some(d as u64)
    } else {
        None
    }
}

/// The value of the digits among `c[lo..hi)` in the radix; `_` is skipped.
pub open spec fn digits_value(c: Seq<char>, lo: int, hi: int, radix: u64) -> nat
    decreases hi - lo,
{
    if hi <= lo {
        0
    } else if c[hi - 1] == '_' {
        digits_value(c, lo, hi - 1, radix)
    } else {
        (digits_value(c, lo, hi - 1, radix) * radix + match digit_value(c[hi - 1], radix) {
            Some(d) => d as nat,
            None => 0nat,
        }) as nat
    }
}

/// The digits of a literal that starts at `start` begin at `lo` and are in
/// the radix: after `0x`, `0o` or `0b`, or right away in decimal.
pub open spec fn radix_prefix(c: Seq<char>, start: int, lo: int, radix: u64) -> bool {
    let prefixed = c[start] == '0' && start + 1 < c.len() && (c[start + 1] == 'x' || c[start + 1]
        == 'o' || c[start + 1] == 'b');
    if prefixed {
        lo == start + 2 && radix == if c[start + 1] == 'x' {
            16u64
        } else if c[start + 1] == 'o' {
            8u64
        } else {
            2u64
        }
    } else {
        lo == start && radix == 10
    }
}

/// `c[start..end)` is an integer literal of value `v`: a prefix, a longest
/// run of digits and `_`, and a suffix of identifier characters.
pub open spec fn number_spelled(c: Seq<char>, start: int, end: int, v: u64) -> bool {
    exists|lo: int, hi: int, radix: u64|
        {
            &&& start <= lo < hi <= end
            &&& radix_prefix(c, start, lo, radix)
            &&& forall|j: int| lo <= j < hi ==> (#[trigger] c[j] == '_' || digit_value(c[j], radix) is Some)
            &&& (hi == c.len() || (c[hi] != '_' && digit_value(c[hi], radix) is None))
            &&& v == digits_value(c, lo, hi, radix)
            &&& forall|j: int| hi <= j < end ==> is_ident_continue(#[trigger] c[j])
        }
}

fn digit(c: char, radix: u64) -> (r: Option<u64>)
    requires
        radix <= 16,
    ensures
        r == digit_value(c, radix),
{
    let d: u64 = if '0' <= c && c <= '9' {
        (c as u32 - '0' as u32) as u64
    } else if 'a' <= c && c <= 'f' {
        (c as u32 - 'a' as u32 + 10) as u64
    } else if 'A' <= c && c <= 'F' {
        (c as u32 - 'A' as u32 + 10) as u64
    } else {
        99
    };
    if d < radix {
        Some(d)
    } else {
        None
    }
}

/// Whether two texts are equal.
pub fn text_eq(a: &str, b: &str) -> (r: bool)
    ensures
        r == (a@ == b@),
{
    let n = a.unicode_len();
    if n != b.unicode_len() {
        return false;
    }
    let mut i: usize = 0;
    while i < n
        invariant
            n == a@.len(),
            n == b@.len(),
            i <= n,
            forall|j: int| 0 <= j < i ==> a@[j] == b@[j],
        decreases n - i,
    {
        if a.get_char(i) != b.get_char(i) {
            return false;
        }
        i = i + 1;
    }
    assert(a@ =~= b@);
    true
}

/// Copies the characters of the text into a vector.
pub fn chars_of(text: &str) -> (r: Vec<char>)
    ensures
        r@ == text@,
{
    let n = text.unicode_len();
    let mut out: Vec<char> = Vec::new();
    let mut i: usize = 0;
    while i < n
        invariant
            n == text@.len(),
            i <= n,
            out@ == text@.subrange(0, i as int),
        decreases n - i,
    {
        out.push(text.get_char(i));
        i = i + 1;
    }
    assert(out@ == text@);
    out
}

fn error_at(offset: usize, message: &str) -> (r: ParseError)
    ensures
        r.offset == offset,
        r.message@ == message@,
{
    ParseError { message: String::from_str(message), offset }
}

fn token(kind: TokenKind, start: usize, end: usize) -> (r: Token)
    ensures
        r.kind == kind,
        r.start == start,
        r.end == end,
        r.text_start == start,
        r.text_end == end,
{
    Token { kind, start, end, text_start: start, text_end: end, mate: 0 }
}

/// Reads an integer literal that starts at `i`: decimal, or hexadecimal,
/// octal or binary after `0x`, `0o` or `0b`, with `_` allowed between digits
/// and an optional type suffix. Returns its value and where it ends.
fn lex_number(chars: &Vec<char>, i: usize) -> (r: Result<(u64, usize), ParseError>)
    requires
        i < chars@.len(),
    ensures
        r matches Ok((v, e)) ==> i < e <= chars@.len() && number_spelled(chars@, i as int, e as int, v),
{
    let n = chars.len();
    let mut radix: u64 = 10;
    let mut k = i;
    if chars[i] == '0' && i + 1 < n {
        let c = chars[i + 1];
        if c == 'x' {
            radix = 16;
            k = i + 2;
        } else if c == 'o' {
            radix = 8;
            k = i + 2;
        } else if c == 'b' {
            radix = 2;
            k = i + 2;
        }
    }
    let lo = k;
    assert(radix_prefix(chars@, i as int, lo as int, radix));
    let mut v: u64 = 0;
    let mut seen = false;
    while k < n
        invariant
            i <= lo <= k <= n,
            n == chars@.len(),
            radix <= 16,
            radix >= 2,
            seen ==> lo < k,
            v == digits_value(chars@, lo as int, k as int, radix),
            forall|j: int| lo <= j < k ==> (#[trigger] chars@[j] == '_' || digit_value(chars@[j], radix) is Some),
        ensures
            i <= lo <= k <= n,
            seen ==> lo < k,
            v == digits_value(chars@, lo as int, k as int, radix),
            forall|j: int| lo <= j < k ==> (#[trigger] chars@[j] == '_' || digit_value(chars@[j], radix) is Some),
            k == n || (chars@[k as int] != '_' && digit_value(chars@[k as int], radix) is None),
        decreases n - k,
    {
        let c = chars[k];
        if c == '_' {
            k = k + 1;
        } else {
            match digit(c, radix) {
                Some(d) => {
                    if v > (u64::MAX - d) / radix {
                        return Err(error_at(i, "number too large to fit in target type"));
                    }
                    proof {
                        let q = (u64::MAX - d) as int / radix as int;
                        assert(v * radix + d <= u64::MAX) by (nonlinear_arith)
                            requires
                                v <= q,
                                q == (u64::MAX - d) as int / radix as int,
                                radix >= 2,
                                d <= u64::MAX,
                        ;
                    }
                    v = v * radix + d;
                    seen = true;
                    k = k + 1;
                },
                None => {
                    break ;
                },
            }
        }
    }
    if !seen {
        return Err(error_at(i, "expected integer literal"));
    }
    let hi = k;
    // A type suffix such as `u8` belongs to the literal.

    while k < n && ident_continue(chars[k])
        invariant
            i <= lo < hi <= k <= n,
            n == chars@.len(),
            forall|j: int| hi <= j < k ==> is_ident_continue(#[trigger] chars@[j]),
            hi == n || (chars@[hi as int] != '_' && digit_value(chars@[hi as int], radix) is None),
            radix_prefix(chars@, i as int, lo as int, radix),
            v == digits_value(chars@, lo as int, hi as int, radix),
            forall|j: int| lo <= j < hi ==> (#[trigger] chars@[j] == '_' || digit_value(chars@[j], radix) is Some),
        decreases n - k,
    {
        k = k + 1;
    }
    assert(number_spelled(chars@, i as int, k as int, v)) by {
        assert(hi == n || (chars@[hi as int] != '_' && digit_value(chars@[hi as int], radix) is None));
    }
    Ok((v, k))
}

fn push_token(toks: &mut Vec<Token>, t: Token, chars: &Vec<char>)
    requires
        tokens_in(old(toks)@, chars@.len()),
        tokens_well_formed(chars@, old(toks)@),
        forall|k: int| 0 <= k < old(toks)@.len() ==> #[trigger] old(toks)@[k].end <= t.start,
        token_spelled(chars@, t),
        t.text_start <= t.text_end <= chars@.len(),
    ensures
        tokens_in(final(toks)@, chars@.len()),
        tokens_well_formed(chars@, final(toks)@),
        final(toks)@ == old(toks)@.push(t),
{
    reveal(tokens_well_formed);
    let ghost before = toks@;
    toks.push(t);
    assert forall|k: int| 0 <= k < toks@.len() implies {
        &&& #[trigger] toks@[k].start <= toks@[k].end
        &&& toks@[k].end <= chars@.len()
        &&& toks@[k].text_start <= toks@[k].text_end
        &&& toks@[k].text_end <= chars@.len()
    } by {
        if k < toks@.len() - 1 {
            assert(toks@[k] == before[k]);
        }
    }
    assert forall|k: int| 0 <= k < toks@.len() implies token_spelled(chars@, #[trigger] toks@[k]) by {
        if k < toks@.len() - 1 {
            assert(toks@[k] == before[k]);
        }
    }
    assert forall|k: int| 0 <= k < toks@.len() - 1 implies (#[trigger] toks@[k]).end <= toks@[k
        + 1].start by {
        assert(toks@[k] == before[k]);
        if k < toks@.len() - 2 {
            assert(toks@[k + 1] == before[k + 1]);
        }
    }
}

/// Splits the text into tokens, skipping white space and comments other than
/// `///` documentation comments. Fails on a character that starts no token,
/// an unterminated string and unbalanced delimiters.
pub fn tokenize(chars: &Vec<char>) -> (r: Result<Vec<Token>, ParseError>)
    ensures
        r matches Ok(toks) ==> tokens_in(toks@, chars@.len()) && tokens_well_formed(chars@, toks@),
{
    reveal(tokens_well_formed);
    let n = chars.len();
    let mut toks: Vec<Token> = Vec::new();
    let mut open: Vec<usize> = Vec::new();
    let mut i: usize = 0;
    while i < n
        invariant
            i <= n,
            n == chars@.len(),
            tokens_in(toks@, n as nat),
            tokens_well_formed(chars@, toks@),
            forall|k: int| 0 <= k < toks@.len() ==> #[trigger] toks@[k].end <= i,
            forall|k: int| 0 <= k < open@.len() ==> #[trigger] open@[k] < toks@.len(),
        decreases n - i,
    {
        reveal(tokens_well_formed);
        let c = chars[i];
        if c == ' ' || c == '\n' || c == '\t' || c == '\r' {
            i = i + 1;
        } else if c == '/' && i + 1 < n && chars[i + 1] == '/' {
            let is_doc = i + 2 < n && chars[i + 2] == '/' && !(i + 3 < n && chars[i + 3] == '/');
            let mut e = i + 2;
            while e < n && chars[e] != '\n'
                invariant
                    i + 2 <= e <= n,
                    n == chars@.len(),
                    is_doc ==> (e > i + 2 || chars@[i + 2] == '/'),
                decreases n - e,
            {
                e = e + 1;
            }
            if is_doc && e >= i + 3 {
                push_token(&mut toks, Token { kind: TokenKind::Doc, start: i, end: e, text_start: i + 3, text_end: e, mate: 0 }, chars);
            }
            i = e;
        } else if c == '/' && i + 1 < n && chars[i + 1] == '*' {
            let mut e = i + 2;
            while e < n - 1 && !(chars[e] == '*' && chars[e + 1] == '/')
                invariant
                    i + 2 <= e <= n,
                    n == chars@.len(),
                decreases n - e,
            {
                e = e + 1;
            }
            if e >= n - 1 {
                return Err(error_at(i, "unterminated block comment"));
            }
            i = e + 2;
        } else if ident_start(c) {
            let mut e = i + 1;
            while e < n && ident_continue(chars[e])
                invariant
                    i < e <= n,
                    n == chars@.len(),
                    forall|j: int| i < j < e ==> is_ident_continue(#[trigger] chars@[j]),
                decreases n - e,
            {
                e = e + 1;
            }
            push_token(&mut toks, token(TokenKind::Ident, i, e), chars);
            i = e;
        } else if '0' <= c && c <= '9' {
            let (v, e) = lex_number(chars, i)?;
            push_token(&mut toks, token(TokenKind::Int(v), i, e), chars);
            i = e;
        } else if c == '"' {
            let mut e = i + 1;
            while e < n && chars[e] != '"'
                invariant
                    i < e <= n,
                    n == chars@.len(),
                decreases n - e,
            {
                if chars[e] == '\\' && e + 1 < n {
                    e = e + 2;
                } else {
                    e = e + 1;
                }
            }
            if e >= n {
                return Err(error_at(i, "unterminated string literal"));
            }
            push_token(&mut toks, Token { kind: TokenKind::Str, start: i, end: e + 1, text_start: i + 1, text_end: e, mate: 0 }, chars);
            i = e + 1;
        } else if c == '.' && i + 1 < n && chars[i + 1] == '.' {
            if i + 2 < n && chars[i + 2] == '=' {
                push_token(&mut toks, token(TokenKind::DotDotEq, i, i + 3), chars);
                i = i + 3;
            } else {
                push_token(&mut toks, token(TokenKind::DotDot, i, i + 2), chars);
                i = i + 2;
            }
        } else if c == ':' && i + 1 < n && chars[i + 1] == ':' {
            push_token(&mut toks, token(TokenKind::PathSep, i, i + 2), chars);
            i = i + 2;
        } else if c == '{' || c == '[' || c == '(' {
            let d = if c == '{' {
                Delim::Brace
            } else if c == '[' {
                Delim::Bracket
            } else {
                Delim::Paren
            };
            open.push(toks.len());
            push_token(&mut toks, token(TokenKind::Open(d), i, i + 1), chars);
            i = i + 1;
        } else if c == '}' || c == ']' || c == ')' {
            let d = if c == '}' {
                Delim::Brace
            } else if c == ']' {
                Delim::Bracket
            } else {
                Delim::Paren
            };
            if open.len() == 0 {
                return Err(error_at(i, "unexpected closing delimiter"));
            }
            let o = open.pop().unwrap();
            let ot = toks[o];
            if ot.kind != TokenKind::Open(d) {
                return Err(error_at(i, "mismatched closing delimiter"));
            }
            let here = toks.len();
            push_token(&mut toks, token(TokenKind::Close(d), i, i + 1), chars);
            let ghost old_toks = toks@;
            let mut fixed = ot;
            fixed.mate = here;
            assert(fixed.start == toks@[o as int].start && fixed.end == toks@[o as int].end);
            assert(fixed.text_start == toks@[o as int].text_start);
            assert(fixed.text_end == toks@[o as int].text_end);
            toks.set(o, fixed);
            assert forall|k: int| 0 <= k < toks@.len() implies {
                &&& #[trigger] toks@[k].start <= toks@[k].end
                &&& toks@[k].end <= n
                &&& toks@[k].text_start <= toks@[k].text_end
                &&& toks@[k].text_end <= n
            } by {
                if k != o {
                    assert(toks@[k] == old_toks[k]);
                } else {
                    assert(toks@[k] == fixed);
                    assert(fixed.text_end == old_toks[k].text_end);
                }
            }
            assert forall|k: int| 0 <= k < toks@.len() implies token_spelled(chars@, #[trigger] toks@[k]) by {
                if k != o {
                    assert(toks@[k] == old_toks[k]);
                } else {
                    assert(token_spelled(chars@, old_toks[k]));
                }
            }
            assert forall|k: int| 0 <= k < toks@.len() - 1 implies (#[trigger] toks@[k]).end <= toks@[k
                + 1].start by {
                assert(toks@[k].end == old_toks[k].end);
                assert(toks@[k + 1].start == old_toks[k + 1].start);
            }
            assert forall|k: int| 0 <= k < toks@.len() implies #[trigger] toks@[k].end <= i + 1 by {
                assert(toks@[k].end == old_toks[k].end);
            }
            i = i + 1;
        } else if c == '=' || c == ';' || c == ':' || c == ',' || c == '#' || c == '!' || c == '-'
            || c == '.' || c == '+' || c == '*' || c == '&' || c == '|' || c == '<' || c == '>'
            || c == '?' || c == '@' || c == '%' || c == '^' || c == '/' || c == '$' || c == '~' {
            push_token(&mut toks, token(TokenKind::Punct(c), i, i + 1), chars);
            i = i + 1;
        } else {
            return Err(error_at(i, "unexpected character"));
        }
    }
    if open.len() > 0 {
        return Err(error_at(n, "unclosed delimiter"));
    }
    Ok(toks)
}

} // verus!
