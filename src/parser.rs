//! A recursive descent parser from tokens to the syntax tree.
//!
//! Every parsing function reads the tokens `[pos, end)` of a [`Src`] and, on
//! success, returns what it read and the position after it.

use vstd::prelude::*;
use crate::ast::{
    Access, Attribute, AttributeList, BaseType, BitOrder, Block, BlockItem, BlockItemList, Buffer,
    ByteOrder, Command, CommandItem, CommandItemList, CommandValue, Conversion, Device, EnumValue,
    EnumVariant, EnumVariantList, Field, FieldAddress, FieldList, GlobalConfig, GlobalConfigList,
    Object, ObjectList, RefObject, Register, RegisterItem, RegisterItemList, Repeat, RepeatCount,
    WordBoundary, block_item_kind, block_items_unique, command_item_kind, command_items_unique,
    register_item_kind, register_items_unique,
};
use crate::casing::{boundaries_from_str, boundaries_in};
use crate::lexer::{
    chars_of, token_spelled, tokenize, tokens_in, tokens_well_formed, Delim, ParseError, Token,
    TokenKind,
};

verus! {

/// A source text together with its tokens.
pub struct Src {
    pub text: String,
    pub chars: Vec<char>,
    pub tokens: Vec<Token>,
}

impl Src {
    pub open spec fn wf(&self) -> bool {
        &&& self.chars@ == self.text@
        &&& tokens_in(self.tokens@, self.chars@.len())
        &&& tokens_well_formed(self.chars@, self.tokens@)
    }

    /// The characters that spell token `i`.
    pub open spec fn spelling(&self, i: int) -> Seq<char> {
        self.chars@.subrange(self.tokens@[i].start as int, self.tokens@[i].end as int)
    }

    /// Token `i` is the word `w`.
    pub open spec fn is_word(&self, i: int, w: Seq<char>) -> bool {
        &&& 0 <= i < self.tokens@.len()
        &&& self.tokens@[i].kind == TokenKind::Ident
        &&& self.spelling(i) == w
    }

    /// Splits `text` into tokens.
    pub fn new(text: &str) -> (r: Result<Src, ParseError>)
        ensures
            r matches Ok(s) ==> s.wf() && s.text@ == text@ && s.chars@ == text@ && tokens_well_formed(
                s.chars@,
                s.tokens@,
            ),
    {
        let chars = chars_of(text);
        let tokens = tokenize(&chars)?;
        Ok(Src { text: String::from_str(text), chars, tokens })
    }
}

/// The value of a token that has one.
pub open spec fn int_value(k: TokenKind) -> Option<u64> {
    match k {
        TokenKind::Int(v) => Some(v),
        _ => None,
    }
}

/// The characters `[a, b)` of the source as a string.
fn text_between(s: &Src, a: usize, b: usize) -> (r: String)
    requires
        s.wf(),
        a <= b <= s.chars@.len(),
    ensures
        r@ == s.chars@.subrange(a as int, b as int),
{
    String::from_str(s.text.as_str().substring_char(a, b))
}

/// Whether token `pos` is the word `w`.
fn word(s: &Src, pos: usize, end: usize, w: &str) -> (r: bool)
    requires
        s.wf(),
        end <= s.tokens@.len(),
    ensures
        r == (pos < end && s.is_word(pos as int, w@)),
{
    if pos >= end {
        return false;
    }
    let t = s.tokens[pos];
    if t.kind != TokenKind::Ident {
        return false;
    }
    let n = w.unicode_len();
    if t.end - t.start != n {
        assert(s.spelling(pos as int).len() != w@.len());
        return false;
    }
    let mut k: usize = 0;
    while k < n
        invariant
            s.wf(),
            pos < s.tokens@.len(),
            t == s.tokens@[pos as int],
            n == w@.len(),
            t.end - t.start == n,
            k <= n,
            forall|j: int| 0 <= j < k ==> s.chars@[t.start + j] == w@[j],
        decreases n - k,
    {
        if s.chars[t.start + k] != w.get_char(k) {
            assert(s.spelling(pos as int)[k as int] != w@[k as int]);
            return false;
        }
        k = k + 1;
    }
    assert(s.spelling(pos as int) =~= w@);
    true
}

/// Whether token `pos` is the punctuation character `c`.
fn punct(s: &Src, pos: usize, end: usize, c: char) -> (r: bool)
    requires
        end <= s.tokens@.len(),
    ensures
        r == (pos < end && s.tokens@[pos as int].kind == TokenKind::Punct(c)),
{
    pos < end && s.tokens[pos].kind == TokenKind::Punct(c)
}

/// Whether token `pos` is of the given kind.
fn kind_is(s: &Src, pos: usize, end: usize, k: TokenKind) -> (r: bool)
    requires
        end <= s.tokens@.len(),
    ensures
        r == (pos < end && s.tokens@[pos as int].kind == k),
{
    pos < end && s.tokens[pos].kind == k
}

/// An error at token `pos`. At the very end of the text the message says so,
/// as in "unexpected end of input, expected `;`".
/// The message of an error at token `pos`: at the very end of the text it
/// says so first.
pub open spec fn fail_text(s: &Src, pos: usize, end: usize, msg: Seq<char>) -> Seq<char> {
    if pos >= end && end == s.tokens@.len() {
        "unexpected end of input, "@ + msg
    } else {
        msg
    }
}

fn fail(s: &Src, pos: usize, end: usize, msg: &str) -> (r: ParseError)
    requires
        s.wf(),
        end <= s.tokens@.len(),
    ensures
        r.message@ == fail_text(s, pos, end, msg@),
{
    let offset = if pos < s.tokens.len() {
        s.tokens[pos].start
    } else {
        s.chars.len()
    };
    let message = if pos >= end && end == s.tokens.len() {
        String::from_str("unexpected end of input, ").concat(msg)
    } else {
        String::from_str(msg)
    };
    ParseError { message, offset }
}

/// An error at token `pos` that says only `msg`: a missing punctuation mark
/// is reported as such, even at the end of the text.
fn fail_here(s: &Src, pos: usize, msg: &str) -> (r: ParseError)
    requires
        s.wf(),
    ensures
        r.message@ == msg@,
{
    let offset = if pos < s.tokens.len() {
        s.tokens[pos].start
    } else {
        s.chars.len()
    };
    ParseError { message: String::from_str(msg), offset }
}

/// Expects the punctuation character `c` at `pos`.
fn expect_punct(s: &Src, pos: usize, end: usize, c: char, msg: &str) -> (r: Result<
    usize,
    ParseError,
>)
    requires
        s.wf(),
        end <= s.tokens@.len(),
    ensures
        r is Ok <==> (pos < end && s.tokens@[pos as int].kind == TokenKind::Punct(c)),
        r matches Ok(p) ==> p == pos + 1,
{
    if punct(s, pos, end, c) {
        Ok(pos + 1)
    } else {
        Err(fail_here(s, pos, msg))
    }
}

/// Expects the word `w` at `pos`.
fn expect_word(s: &Src, pos: usize, end: usize, w: &str, msg: &str) -> (r: Result<
    usize,
    ParseError,
>)
    requires
        s.wf(),
        end <= s.tokens@.len(),
    ensures
        r is Ok <==> (pos < end && s.is_word(pos as int, w@)),
        r matches Ok(p) ==> p == pos + 1,
{
    if word(s, pos, end, w) {
        Ok(pos + 1)
    } else {
        Err(fail(s, pos, end, msg))
    }
}

/// Expects a group in the delimiter `d` at `pos`; returns the position of
/// its first inner token and that of its closing token.
fn group(s: &Src, pos: usize, end: usize, d: Delim, msg: &str) -> (r: Result<
    (usize, usize),
    ParseError,
>)
    requires
        s.wf(),
        end <= s.tokens@.len(),
    ensures
        r is Ok <==> pos < end && s.tokens@[pos as int].kind == TokenKind::Open(d) && pos
            < s.tokens@[pos as int].mate < end,
        r matches Ok((a, c)) ==> pos < a && a <= c && c < end && a == pos + 1 && c
            == s.tokens@[pos as int].mate,
{
    if !kind_is(s, pos, end, TokenKind::Open(d)) {
        return Err(fail(s, pos, end, msg));
    }
    let close = s.tokens[pos].mate;
    if close <= pos || close >= end {
        return Err(fail(s, pos, end, "unbalanced delimiter"));
    }
    Ok((pos + 1, close))
}

/// Expects an integer literal at `pos`.
fn int_lit(s: &Src, pos: usize, end: usize) -> (r: Result<(u64, usize), ParseError>)
    requires
        s.wf(),
        end <= s.tokens@.len(),
    ensures
        r is Ok <==> (pos < end && int_value(s.tokens@[pos as int].kind) is Some),
        r matches Ok((v, p)) ==> p == pos + 1 && int_value(s.tokens@[pos as int].kind) == Some(v),
{
    if pos < end {
        match s.tokens[pos].kind {
            TokenKind::Int(v) => {
                return Ok((v, pos + 1));
            },
            _ => {},
        }
    }
    Err(fail(s, pos, end, "expected integer literal"))
}

/// Expects `true` or `false` at `pos`.
fn bool_lit(s: &Src, pos: usize, end: usize) -> (r: Result<(bool, usize), ParseError>)
    requires
        s.wf(),
        end <= s.tokens@.len(),
    ensures
        r is Ok <==> pos < end && (s.is_word(pos as int, "true"@) || s.is_word(pos as int, "false"@)),
        r matches Ok((v, _)) ==> v == s.is_word(pos as int, "true"@),
        r matches Ok((v, p)) ==> p == pos + 1 && pos < end && (if v {
            s.is_word(pos as int, "true"@)
        } else {
            s.is_word(pos as int, "false"@)
        }),
{
    if word(s, pos, end, "true") {
        Ok((true, pos + 1))
    } else if word(s, pos, end, "false") {
        Ok((false, pos + 1))
    } else {
        Err(fail(s, pos, end, "expected boolean literal"))
    }
}

/// Expects a string literal at `pos`; returns its text.
/// The character that the escape `\c` stands for.
pub open spec fn escaped(c: char) -> char {
    if c == 'n' {
        '\n'
    } else if c == 't' {
        '\t'
    } else {
        c
    }
}

/// The text of a string literal's body with its escapes decoded: `\n`,
/// `\t`, and a backslash before any other character standing for that
/// character.
pub open spec fn unescaped(c: Seq<char>) -> Seq<char>
    decreases c.len(),
{
    if c.len() == 0 {
        Seq::empty()
    } else if c[0] == '\\' && c.len() >= 2 {
        seq![escaped(c[1])] + unescaped(c.subrange(2, c.len() as int))
    } else {
        seq![c[0]] + unescaped(c.subrange(1, c.len() as int))
    }
}

/// The value of the string literal token `k`.
pub open spec fn str_value(s: &Src, k: int) -> Seq<char> {
    unescaped(s.chars@.subrange(s.tokens@[k].text_start as int, s.tokens@[k].text_end as int))
}

/// Decodes the escapes in the characters `[a, b)`.
fn unescape(s: &Src, a: usize, b: usize) -> (r: String)
    requires
        s.wf(),
        a <= b <= s.chars@.len(),
    ensures
        r@ == unescaped(s.chars@.subrange(a as int, b as int)),
{
    let mut out = String::new();
    let mut i = a;
    while i < b
        invariant
            s.wf(),
            a <= i <= b <= s.chars@.len(),
            out@ + unescaped(s.chars@.subrange(i as int, b as int)) == unescaped(
                s.chars@.subrange(a as int, b as int),
            ),
        decreases b - i,
    {
        let ghost rest = s.chars@.subrange(i as int, b as int);
        let ghost before = out@;
        if s.chars[i] == '\\' && i + 1 < b {
            let c = s.chars[i + 1];
            assert(rest.subrange(2, rest.len() as int) =~= s.chars@.subrange(i + 2, b as int));
            if c == 'n' {
                proof {
                    reveal_strlit("\n");
                }
                assert("\n"@ =~= seq!['\n']);
                out.append("\n");
            } else if c == 't' {
                proof {
                    reveal_strlit("\t");
                }
                assert("\t"@ =~= seq!['\t']);
                out.append("\t");
            } else {
                let piece = s.text.as_str().substring_char(i + 1, i + 2);
                assert(piece@ =~= seq![c]);
                out.append(piece);
            }
            assert(out@ =~= before + seq![escaped(c)]);
            i = i + 2;
        } else {
            assert(rest.subrange(1, rest.len() as int) =~= s.chars@.subrange(i + 1, b as int));
            let piece = s.text.as_str().substring_char(i, i + 1);
            assert(piece@ =~= seq![rest[0]]);
            out.append(piece);
            assert(out@ =~= before + seq![rest[0]]);
            i = i + 1;
        }
        assert(out@ + unescaped(s.chars@.subrange(i as int, b as int)) =~= before + unescaped(rest));
    }
    assert(s.chars@.subrange(b as int, b as int) =~= Seq::<char>::empty());
    assert(out@ + unescaped(Seq::<char>::empty()) =~= out@);
    out
}

fn str_lit(s: &Src, pos: usize, end: usize) -> (r: Result<(String, usize), ParseError>)
    requires
        s.wf(),
        end <= s.tokens@.len(),
    ensures
        (pos < end && s.tokens@[pos as int].kind == TokenKind::Str) ==> r is Ok,
        r matches Ok((v, p)) ==> p == pos + 1 && pos < end && s.tokens@[pos as int].kind
            == TokenKind::Str && v@ == str_value(s, pos as int),
{
    if kind_is(s, pos, end, TokenKind::Str) {
        let t = s.tokens[pos];
        assert(s.tokens@[pos as int].start <= s.tokens@[pos as int].end);
        Ok((unescape(s, t.text_start, t.text_end), pos + 1))
    } else {
        Err(fail(s, pos, end, "expected string literal"))
    }
}

/// Whether token `pos` is a word that the host language reserves.
/// A word that the host language reserves.
pub open spec fn reserved_word(w: Seq<char>) -> bool {
    w == "as"@ || w == "break"@ || w == "const"@ || w == "continue"@ || w == "crate"@ || w == "else"@ || w == "enum"@ || w == "extern"@ || w == "false"@ || w == "fn"@ || w == "for"@ || w == "if"@ || w == "impl"@ || w == "in"@ || w == "let"@ || w == "loop"@ || w == "match"@ || w == "mod"@ || w == "move"@ || w == "mut"@ || w == "pub"@ || w == "ref"@ || w == "return"@ || w == "self"@ || w == "Self"@ || w == "static"@ || w == "struct"@ || w == "super"@ || w == "trait"@ || w == "true"@ || w == "type"@ || w == "unsafe"@ || w == "use"@ || w == "where"@ || w == "while"@ || w == "async"@ || w == "await"@ || w == "dyn"@ || w == "try"@
}

fn is_keyword(s: &Src, pos: usize, end: usize) -> (r: bool)
    requires
        s.wf(),
        end <= s.tokens@.len(),
    ensures
        r == (pos < end && s.tokens@[pos as int].kind == TokenKind::Ident && reserved_word(
            s.spelling(pos as int),
        )),
{
    word(s, pos, end, "as") || word(s, pos, end, "break") || word(s, pos, end, "const") || word(
        s,
        pos,
        end,
        "continue",
    ) || word(s, pos, end, "crate") || word(s, pos, end, "else") || word(s, pos, end, "enum")
        || word(s, pos, end, "extern") || word(s, pos, end, "false") || word(s, pos, end, "fn")
        || word(s, pos, end, "for") || word(s, pos, end, "if") || word(s, pos, end, "impl") || word(
        s,
        pos,
        end,
        "in",
    ) || word(s, pos, end, "let") || word(s, pos, end, "loop") || word(s, pos, end, "match")
        || word(s, pos, end, "mod") || word(s, pos, end, "move") || word(s, pos, end, "mut")
        || word(s, pos, end, "pub") || word(s, pos, end, "ref") || word(s, pos, end, "return")
        || word(s, pos, end, "self") || word(s, pos, end, "Self") || word(s, pos, end, "static")
        || word(s, pos, end, "struct") || word(s, pos, end, "super") || word(s, pos, end, "trait")
        || word(s, pos, end, "true") || word(s, pos, end, "type") || word(s, pos, end, "unsafe")
        || word(s, pos, end, "use") || word(s, pos, end, "where") || word(s, pos, end, "while")
        || word(s, pos, end, "async") || word(s, pos, end, "await") || word(s, pos, end, "dyn")
        || word(s, pos, end, "try")
}

/// Expects an identifier at `pos`: a word that is not reserved.
fn ident(s: &Src, pos: usize, end: usize) -> (r: Result<(String, usize), ParseError>)
    requires
        s.wf(),
        end <= s.tokens@.len(),
    ensures
        r is Ok <==> pos < end && s.tokens@[pos as int].kind == TokenKind::Ident && !reserved_word(
            s.spelling(pos as int),
        ),
        r matches Ok((v, p)) ==> p == pos + 1 && pos < end && s.tokens@[pos as int].kind
            == TokenKind::Ident && v@ == s.spelling(pos as int),
{
    if !kind_is(s, pos, end, TokenKind::Ident) {
        return Err(fail(s, pos, end, "expected identifier"));
    }
    let t = s.tokens[pos];
    let name = text_between(s, t.start, t.end);
    if is_keyword(s, pos, end) {
        let msg = String::from_str("expected identifier, found keyword `").concat(
            name.as_str(),
        ).concat("`");
        return Err(fail(s, pos, end, msg.as_str()));
    }
    Ok((name, pos + 1))
}

/// Reads the whole token range with `parse`'s result and fails on tokens
/// left over.
fn finish<T>(s: &Src, r: Result<(T, usize), ParseError>) -> (out: Result<T, ParseError>)
    requires
        s.wf(),
    ensures
        out is Ok ==> (r matches Ok((_, p)) && p == s.tokens@.len()),
        out matches Ok(v) ==> (r matches Ok((w, _)) && w == v),
{
    match r {
        Ok((v, p)) => {
            if p == s.tokens.len() {
                Ok(v)
            } else {
                Err(fail(s, p, s.tokens.len(), "unexpected token"))
            }
        },
        Err(e) => Err(e),
    }
}

/// The access mode that a word names.
pub open spec fn access_named(w: Seq<char>) -> Option<Access> {
    if w == "ReadWrite"@ || w == "RW"@ {
        Some(Access::RW)
    } else if w == "ReadOnly"@ || w == "RO"@ {
        Some(Access::RO)
    } else if w == "WriteOnly"@ || w == "WO"@ {
        Some(Access::WO)
    } else {
        None
    }
}

pub open spec fn byte_order_named(w: Seq<char>) -> Option<ByteOrder> {
    if w == "LE"@ {
        Some(ByteOrder::LE)
    } else if w == "BE"@ {
        Some(ByteOrder::BE)
    } else {
        None
    }
}

pub open spec fn bit_order_named(w: Seq<char>) -> Option<BitOrder> {
    if w == "LSB0"@ {
        Some(BitOrder::LSB0)
    } else if w == "MSB0"@ {
        Some(BitOrder::MSB0)
    } else {
        None
    }
}

pub open spec fn base_type_named(w: Seq<char>) -> Option<BaseType> {
    if w == "bool"@ {
        Some(BaseType::Bool)
    } else if w == "uint"@ {
        Some(BaseType::Uint)
    } else if w == "int"@ {
        Some(BaseType::Int)
    } else {
        None
    }
}

/// What a keyword parser reads at `pos`: the word there, if it names a value.
pub open spec fn named_at<T>(s: &Src, pos: usize, end: usize, named: spec_fn(Seq<char>) -> Option<T>) -> Option<T> {
    if pos < end && s.tokens@[pos as int].kind == TokenKind::Ident {
        named(s.spelling(pos as int))
    } else {
        None
    }
}

impl Access {
    /// Reads one of `ReadWrite`, `RW`, `ReadOnly`, `RO`, `WriteOnly`, `WO`.
    pub fn parse(s: &Src, pos: usize, end: usize) -> (r: Result<(Access, usize), ParseError>)
        requires
            s.wf(),
            end <= s.tokens@.len(),
        ensures
            r is Ok <==> named_at(s, pos, end, |w| access_named(w)) is Some,
            r matches Ok((v, p)) ==> p == pos + 1 && named_at(s, pos, end, |w| access_named(w))
                == Some(v),
            r matches Err(e) ==> e.message@ == fail_text(
                s,
                pos,
                end,
                "expected one of: `ReadWrite`, `RW`, `ReadOnly`, `RO`, `WriteOnly`, `WO`"@,
            ),
    {
        let v = if word(s, pos, end, "ReadWrite") || word(s, pos, end, "RW") {
            Access::RW
        } else if word(s, pos, end, "ReadOnly") || word(s, pos, end, "RO") {
            Access::RO
        } else if word(s, pos, end, "WriteOnly") || word(s, pos, end, "WO") {
            Access::WO
        } else {
            return Err(
                fail(
                    s,
                    pos,
                    end,
                    "expected one of: `ReadWrite`, `RW`, `ReadOnly`, `RO`, `WriteOnly`, `WO`",
                ),
            );
        };
        Ok((v, pos + 1))
    }

    /// Reads a whole text that holds one such word.
    pub fn parse_str(text: &str) -> (r: Result<Access, ParseError>)
        ensures
            r matches Ok(v) ==> exists|s: Src|
                s.wf() && s.chars@ == text@ && s.tokens@.len() == 1 && s.tokens@[0].kind
                    == TokenKind::Ident && access_named(s.spelling(0)) == Some(v),
    {
        let s = Src::new(text)?;
        let r = Access::parse(&s, 0, s.tokens.len());
        let out = finish(&s, r);
        assert(out matches Ok(v) ==> s.tokens@.len() == 1 && s.tokens@[0].kind == TokenKind::Ident
            && access_named(s.spelling(0)) == Some(v));
        out
    }
}

impl ByteOrder {
    /// Reads `LE` or `BE`.
    pub fn parse(s: &Src, pos: usize, end: usize) -> (r: Result<(ByteOrder, usize), ParseError>)
        requires
            s.wf(),
            end <= s.tokens@.len(),
        ensures
            r is Ok <==> named_at(s, pos, end, |w| byte_order_named(w)) is Some,
            r matches Ok((v, p)) ==> p == pos + 1 && named_at(s, pos, end, |w| byte_order_named(w))
                == Some(v),
            r matches Err(e) ==> e.message@ == fail_text(
                s,
                pos,
                end,
                "expected `LE` or `BE`"@,
            ),
    {
        let v = if word(s, pos, end, "LE") {
            ByteOrder::LE
        } else if word(s, pos, end, "BE") {
            ByteOrder::BE
        } else {
            return Err(fail(s, pos, end, "expected `LE` or `BE`"));
        };
        Ok((v, pos + 1))
    }

    /// Reads a whole text that holds one such word.
    pub fn parse_str(text: &str) -> (r: Result<ByteOrder, ParseError>)
        ensures
            r matches Ok(v) ==> exists|s: Src|
                s.wf() && s.chars@ == text@ && s.tokens@.len() == 1 && s.tokens@[0].kind
                    == TokenKind::Ident && byte_order_named(s.spelling(0)) == Some(v),
    {
        let s = Src::new(text)?;
        let r = ByteOrder::parse(&s, 0, s.tokens.len());
        let out = finish(&s, r);
        assert(out matches Ok(v) ==> s.tokens@.len() == 1 && s.tokens@[0].kind == TokenKind::Ident
            && byte_order_named(s.spelling(0)) == Some(v));
        out
    }
}

impl BitOrder {
    /// Reads `LSB0` or `MSB0`.
    pub fn parse(s: &Src, pos: usize, end: usize) -> (r: Result<(BitOrder, usize), ParseError>)
        requires
            s.wf(),
            end <= s.tokens@.len(),
        ensures
            r is Ok <==> named_at(s, pos, end, |w| bit_order_named(w)) is Some,
            r matches Ok((v, p)) ==> p == pos + 1 && named_at(s, pos, end, |w| bit_order_named(w))
                == Some(v),
            r matches Err(e) ==> e.message@ == fail_text(
                s,
                pos,
                end,
                "expected `LSB0` or `MSB0`"@,
            ),
    {
        let v = if word(s, pos, end, "LSB0") {
            BitOrder::LSB0
        } else if word(s, pos, end, "MSB0") {
            BitOrder::MSB0
        } else {
            return Err(fail(s, pos, end, "expected `LSB0` or `MSB0`"));
        };
        Ok((v, pos + 1))
    }

    /// Reads a whole text that holds one such word.
    pub fn parse_str(text: &str) -> (r: Result<BitOrder, ParseError>)
        ensures
            r matches Ok(v) ==> exists|s: Src|
                s.wf() && s.chars@ == text@ && s.tokens@.len() == 1 && s.tokens@[0].kind
                    == TokenKind::Ident && bit_order_named(s.spelling(0)) == Some(v),
    {
        let s = Src::new(text)?;
        let r = BitOrder::parse(&s, 0, s.tokens.len());
        let out = finish(&s, r);
        assert(out matches Ok(v) ==> s.tokens@.len() == 1 && s.tokens@[0].kind == TokenKind::Ident
            && bit_order_named(s.spelling(0)) == Some(v));
        out
    }
}

impl BaseType {
    /// Reads `bool`, `uint` or `int`.
    pub fn parse(s: &Src, pos: usize, end: usize) -> (r: Result<(BaseType, usize), ParseError>)
        requires
            s.wf(),
            end <= s.tokens@.len(),
        ensures
            r is Ok <==> named_at(s, pos, end, |w| base_type_named(w)) is Some,
            r matches Ok((v, p)) ==> p == pos + 1 && named_at(s, pos, end, |w| base_type_named(w))
                == Some(v),
            r matches Err(e) ==> e.message@ == fail_text(
                s,
                pos,
                end,
                "expected one of: `bool`, `uint`, `int`"@,
            ),
    {
        let v = if word(s, pos, end, "bool") {
            BaseType::Bool
        } else if word(s, pos, end, "uint") {
            BaseType::Uint
        } else if word(s, pos, end, "int") {
            BaseType::Int
        } else {
            return Err(fail(s, pos, end, "expected one of: `bool`, `uint`, `int`"));
        };
        Ok((v, pos + 1))
    }

    /// Reads a whole text that holds one such word.
    pub fn parse_str(text: &str) -> (r: Result<BaseType, ParseError>)
        ensures
            r matches Ok(v) ==> exists|s: Src|
                s.wf() && s.chars@ == text@ && s.tokens@.len() == 1 && s.tokens@[0].kind
                    == TokenKind::Ident && base_type_named(s.spelling(0)) == Some(v),
    {
        let s = Src::new(text)?;
        let r = BaseType::parse(&s, 0, s.tokens.len());
        let out = finish(&s, r);
        assert(out matches Ok(v) ==> s.tokens@.len() == 1 && s.tokens@[0].kind == TokenKind::Ident
            && base_type_named(s.spelling(0)) == Some(v));
        out
    }
}


/// The spellings of the tokens `[a, b)`, one after the other.
pub open spec fn spellings(s: &Src, a: int, b: int) -> Seq<char>
    decreases b - a,
{
    if b <= a {
        Seq::empty()
    } else {
        spellings(s, a, b - 1) + s.spelling(b - 1)
    }
}

pub open spec fn is_white(c: char) -> bool {
    c == ' ' || c == '\n' || c == '\t' || c == '\r'
}

/// The text holds no white space.
pub open spec fn no_white(t: Seq<char>) -> bool {
    forall|i: int| 0 <= i < t.len() ==> !is_white(#[trigger] t[i])
}

/// Identifiers and `::` spell no white space.
proof fn lemma_path_spelling(s: &Src, a: int, b: int)
    requires
        s.wf(),
        0 <= a <= b <= s.tokens@.len(),
        forall|k: int|
            a <= k < b ==> (#[trigger] s.tokens@[k].kind == TokenKind::Ident || s.tokens@[k].kind
                == TokenKind::PathSep),
    ensures
        no_white(spellings(s, a, b)),
    decreases b - a,
{
    if a < b {
        lemma_path_spelling(s, a, b - 1);
        reveal(tokens_well_formed);
        let t = s.tokens@[b - 1];
        assert(token_spelled(s.chars@, t));
        let w = s.spelling(b - 1);
        assert forall|i: int| 0 <= i < w.len() implies !is_white(#[trigger] w[i]) by {
            assert(w[i] == s.chars@[t.start + i]);
        }
        let whole = spellings(s, a, b);
        assert(whole =~= spellings(s, a, b - 1) + w);
        assert forall|i: int| 0 <= i < whole.len() implies !is_white(#[trigger] whole[i]) by {
            if i < spellings(s, a, b - 1).len() {
                assert(whole[i] == spellings(s, a, b - 1)[i]);
            } else {
                assert(whole[i] == w[i - spellings(s, a, b - 1).len()]);
            }
        }
    }
}

/// The spellings of the tokens `[a, b)`, separated by single spaces (or
/// joined without space when `spaced` is false).
fn spell_tokens(s: &Src, a: usize, b: usize, spaced: bool) -> (r: String)
    requires
        s.wf(),
        a <= b <= s.tokens@.len(),
    ensures
        !spaced ==> r@ == spellings(s, a as int, b as int),
{
    let mut out = String::new();
    let mut k = a;
    while k < b
        invariant
            s.wf(),
            a <= k <= b,
            b <= s.tokens@.len(),
            !spaced ==> out@ == spellings(s, a as int, k as int),
        decreases b - k,
    {
        if spaced && k > a {
            out.append(" ");
        }
        let t = s.tokens[k];
        assert(s.tokens@[k as int].start <= s.tokens@[k as int].end);
        let ghost before = out@;
        out.append(s.text.as_str().substring_char(t.start, t.end));
        proof {
            if !spaced {
                assert(spellings(s, a as int, k + 1) =~= before + s.spelling(k as int));
            }
        }
        k = k + 1;
    }
    out
}

/// Skips documentation comments and `#[...]` attributes.
fn skip_attributes(s: &Src, pos: usize, end: usize) -> (r: usize)
    requires
        s.wf(),
        pos <= end <= s.tokens@.len(),
    ensures
        pos <= r <= end,
        !(pos < end && (s.tokens@[pos as int].kind == TokenKind::Doc || s.tokens@[pos as int].kind
            == TokenKind::Punct('#'))) ==> r == pos,
{
    let mut p = pos;
    loop
        invariant
            s.wf(),
            pos <= p <= end,
            p > pos ==> (pos < end && (s.tokens@[pos as int].kind == TokenKind::Doc
                || s.tokens@[pos as int].kind == TokenKind::Punct('#'))),
            end <= s.tokens@.len(),
        decreases end - p,
    {
        if kind_is(s, p, end, TokenKind::Doc) {
            p = p + 1;
        } else if punct(s, p, end, '#') {
            match group(s, p + 1, end, Delim::Bracket, "expected square brackets") {
                Ok((_, close)) => {
                    p = close + 1;
                },
                Err(_) => {
                    return p;
                },
            }
        } else {
            return p;
        }
    }
}

/// Token `k` carries the text `d`: a `///` comment, or a string literal
/// with its escapes decoded.
pub open spec fn text_at(s: &Src, k: int, d: Seq<char>) -> bool {
    ||| (s.tokens@[k].kind == TokenKind::Doc && d == s.chars@.subrange(
        s.tokens@[k].text_start as int,
        s.tokens@[k].text_end as int,
    ))
    ||| (s.tokens@[k].kind == TokenKind::Str && d == str_value(s, k))
}

/// The text of a documentation line.
pub open spec fn doc_text(a: Attribute) -> Option<Seq<char>> {
    match a {
        Attribute::Doc(d) => Some(d@),
        _ => None,
    }
}

/// Every documentation line among `attrs` is the text of a token in
/// `[lo, hi)`.
pub open spec fn docs_read(s: &Src, attrs: Seq<Attribute>, lo: int, hi: int) -> bool {
    forall|i: int|
        0 <= i < attrs.len() && #[trigger] doc_text(attrs[i]) is Some ==> exists|k: int|
            lo <= k < hi && text_at(s, k, doc_text(attrs[i])->Some_0)
}

/// Appending an attribute keeps `docs_read` when a new doc line comes from a
/// token in range.
proof fn lemma_docs_read_push(s: &Src, attrs: Seq<Attribute>, a: Attribute, lo: int, hi: int, hi2: int, k: int)
    requires
        docs_read(s, attrs, lo, hi),
        hi <= hi2,
        doc_text(a) is Some ==> lo <= k < hi2 && text_at(s, k, doc_text(a)->Some_0),
    ensures
        docs_read(s, attrs.push(a), lo, hi2),
{
    let b = attrs.push(a);
    assert forall|i: int| 0 <= i < b.len() && #[trigger] doc_text(b[i]) is Some implies exists|j: int|
        lo <= j < hi2 && text_at(s, j, doc_text(b[i])->Some_0) by {
        if i < attrs.len() {
            assert(b[i] == attrs[i]);
            let j = choose|j: int| lo <= j < hi && text_at(s, j, doc_text(attrs[i])->Some_0);
            assert(lo <= j < hi2);
        } else {
            assert(b[i] == a);
        }
    }
}

/// At `k` stands `#[name ..]` with a name other than `doc` or `cfg`.
pub open spec fn unsupported_attribute_at(s: &Src, k: int, end: int) -> bool {
    &&& 0 <= k
    &&& k + 2 < end
    &&& punct_at(s, k, '#')
    &&& s.tokens@[k + 1].kind == TokenKind::Open(Delim::Bracket)
    &&& k + 2 < s.tokens@[k + 1].mate < end
    &&& s.tokens@[k + 2].kind == TokenKind::Ident
    &&& !s.is_word(k + 2, "doc"@)
    &&& !s.is_word(k + 2, "cfg"@)
}

impl AttributeList {
    /// Reads `///` comments and `#[doc = "..."]` / `#[cfg(...)]` attributes;
    /// any other attribute is an error.
    pub fn parse(s: &Src, pos: usize, end: usize) -> (r: Result<(AttributeList, usize), ParseError>)
        requires
            s.wf(),
            pos <= end <= s.tokens@.len(),
        ensures
            !(pos < end && (s.tokens@[pos as int].kind == TokenKind::Doc || s.tokens@[pos as int].kind
                == TokenKind::Punct('#'))) ==> (r matches Ok((l, p)) && p == pos && l.attributes@.len()
                == 0),
            unsupported_attribute_at(s, pos as int, end as int) ==> (r matches Err(e) && e.message@
                == "Unsupported attribute '"@ + s.spelling(pos + 2)
                + "'. Only `doc` and `cfg` attributes are allowed"@),
            r matches Ok((l, p)) ==> pos <= p <= end && docs_read(s, l.attributes@, pos as int, p as int),
    {
        let mut attributes: Vec<Attribute> = Vec::new();
        let mut p = pos;
        loop
            invariant
                s.wf(),
                pos <= p <= end,
                end <= s.tokens@.len(),
                p == pos ==> attributes@.len() == 0,
                p > pos ==> (pos < end && (s.tokens@[pos as int].kind == TokenKind::Doc
                    || s.tokens@[pos as int].kind == TokenKind::Punct('#'))),
                p > pos ==> !unsupported_attribute_at(s, pos as int, end as int),
                docs_read(s, attributes@, pos as int, p as int),
            decreases end - p,
        {
            if kind_is(s, p, end, TokenKind::Doc) {
                let t = s.tokens[p];
                assert(s.tokens@[p as int].start <= s.tokens@[p as int].end);
                let ghost before = attributes@;
                let text = text_between(s, t.text_start, t.text_end);
                proof {
                    lemma_docs_read_push(s, before, Attribute::Doc(text), pos as int, p as int, p + 1, p as int);
                }
                attributes.push(Attribute::Doc(text));
                p = p + 1;
            } else if punct(s, p, end, '#') {
                let (inner, close) = group(s, p + 1, end, Delim::Bracket, "expected square brackets")?;
                if word(s, inner, close, "doc") {
                    let q = expect_punct(s, inner + 1, close, '=', "expected `=`")?;
                    if !kind_is(s, q, close, TokenKind::Str) || q + 1 != close {
                        return Err(fail(s, p, end, "Invalid doc attribute format"));
                    }
                    let (text, _) = str_lit(s, q, close)?;
                    proof {
                        lemma_docs_read_push(
                            s,
                            attributes@,
                            Attribute::Doc(text),
                            pos as int,
                            p as int,
                            close + 1,
                            q as int,
                        );
                    }
                    attributes.push(Attribute::Doc(text));
                } else if word(s, inner, close, "cfg") {
                    let (a, b) = group(s, inner + 1, close, Delim::Paren, "expected parentheses")?;
                    if b + 1 != close {
                        return Err(fail(s, b + 1, close, "unexpected token"));
                    }
                    let cfg = spell_tokens(s, a, b, true);
                    proof {
                        lemma_docs_read_push(s, attributes@, Attribute::Cfg(cfg), pos as int, p as int, close + 1, 0);
                    }
                    attributes.push(Attribute::Cfg(cfg));
                } else if kind_is(s, inner, close, TokenKind::Ident) {
                    let t = s.tokens[inner];
                    assert(s.tokens@[inner as int].start <= s.tokens@[inner as int].end);
                    let name = text_between(s, t.start, t.end);
                    let msg = String::from_str("Unsupported attribute '").concat(name.as_str()).concat(
                        "'. Only `doc` and `cfg` attributes are allowed",
                    );
                    assert(msg@ =~= "Unsupported attribute '"@ + s.spelling(inner as int)
                        + "'. Only `doc` and `cfg` attributes are allowed"@);
                    return Err(fail(s, p, end, msg.as_str()));
                } else {
                    return Err(fail(s, inner, close, "expected identifier"));
                }
                p = close + 1;
            } else {
                return Ok((AttributeList { attributes }, p));
            }
        }
    }

    /// Reads a whole text.
    pub fn parse_str(text: &str) -> (r: Result<AttributeList, ParseError>)
        ensures
            r matches Ok(v) ==> exists|s: Src|
                s.wf() && s.chars@ == text@ && docs_read(&s, v.attributes@, 0, s.tokens@.len() as int),
    {
        let s = Src::new(text)?;
        let out = finish(&s, AttributeList::parse(&s, 0, s.tokens.len()));
        assert(out matches Ok(v) ==> s.wf() && s.chars@ == text@ && docs_read(&s, v.attributes@, 0, s.tokens@.len() as int));
        out
    }
}

impl EnumValue {
    /// Reads an integer literal, `default` or `catch_all`.
    pub fn parse(s: &Src, pos: usize, end: usize) -> (r: Result<(EnumValue, usize), ParseError>)
        requires
            s.wf(),
            pos <= end <= s.tokens@.len(),
        ensures
            r is Ok <==> pos < end && (int_value(s.tokens@[pos as int].kind) is Some || s.is_word(
                pos as int,
                "default"@,
            ) || s.is_word(pos as int, "catch_all"@)),
            r matches Err(e) ==> e.message@ == fail_text(
                s,
                pos,
                end,
                "Specifier not recognized. Must be an integer literal, `default` or `catch_all`"@,
            ),
            r matches Ok((v, p)) ==> p == pos + 1 && pos < end && (match v {
                EnumValue::Specified(n) => int_value(s.tokens@[pos as int].kind) == Some(n),
                EnumValue::Default => s.is_word(pos as int, "default"@),
                EnumValue::CatchAll => s.is_word(pos as int, "catch_all"@),
            }),
    {
        if let Ok((v, p)) = int_lit(s, pos, end) {
            Ok((EnumValue::Specified(v), p))
        } else if word(s, pos, end, "default") {
            Ok((EnumValue::Default, pos + 1))
        } else if word(s, pos, end, "catch_all") {
            Ok((EnumValue::CatchAll, pos + 1))
        } else {
            Err(
                fail(
                    s,
                    pos,
                    end,
                    "Specifier not recognized. Must be an integer literal, `default` or `catch_all`",
                ),
            )
        }
    }

    /// Reads a whole text.
    pub fn parse_str(text: &str) -> (r: Result<EnumValue, ParseError>)
        ensures
            r matches Ok(v) ==> exists|s: Src|
                s.wf() && s.chars@ == text@ && s.tokens@.len() == 1 && match v {
                    EnumValue::Specified(n) => int_value(s.tokens@[0].kind) == Some(n),
                    EnumValue::Default => s.is_word(0, "default"@),
                    EnumValue::CatchAll => s.is_word(0, "catch_all"@),
                },
    {
        let s = Src::new(text)?;
        let out = finish(&s, EnumValue::parse(&s, 0, s.tokens.len()));
        assert(out matches Ok(v) ==> s.wf() && s.chars@ == text@ && s.tokens@.len() == 1 && match v {
                    EnumValue::Specified(n) => int_value(s.tokens@[0].kind) == Some(n),
                    EnumValue::Default => s.is_word(0, "default"@),
                    EnumValue::CatchAll => s.is_word(0, "catch_all"@),
                });
        out
    }
}

impl FieldAddress {
    /// Reads `start`, `start..end` or `start..=end`.
    pub fn parse(s: &Src, pos: usize, end: usize) -> (r: Result<(FieldAddress, usize), ParseError>)
        requires
            s.wf(),
            pos <= end <= s.tokens@.len(),
        ensures
            r is Ok <==> pos < end && int_value(s.tokens@[pos as int].kind) is Some && ((pos + 1
                < end && (s.tokens@[pos + 1].kind == TokenKind::DotDot || s.tokens@[pos + 1].kind
                == TokenKind::DotDotEq)) ==> (pos + 2 < end && int_value(s.tokens@[pos + 2].kind) is Some)),
            r matches Ok((v, p)) ==> pos < p <= end && (match v {
                FieldAddress::Integer(a) => p == pos + 1 && int_value(s.tokens@[pos as int].kind)
                    == Some(a),
                FieldAddress::Range { start, end: e } => p == pos + 3 && s.tokens@[pos + 1].kind
                    == TokenKind::DotDot && int_value(s.tokens@[pos as int].kind) == Some(start)
                    && int_value(s.tokens@[pos + 2].kind) == Some(e),
                FieldAddress::RangeInclusive { start, end: e } => p == pos + 3 && s.tokens@[pos
                    + 1].kind == TokenKind::DotDotEq && int_value(s.tokens@[pos as int].kind) == Some(
                    start,
                ) && int_value(s.tokens@[pos + 2].kind) == Some(e),
            }),
    {
        let (start, p) = int_lit(s, pos, end)?;
        if kind_is(s, p, end, TokenKind::DotDotEq) {
            let (e, q) = int_lit(s, p + 1, end)?;
            Ok((FieldAddress::RangeInclusive { start, end: e }, q))
        } else if kind_is(s, p, end, TokenKind::DotDot) {
            let (e, q) = int_lit(s, p + 1, end)?;
            Ok((FieldAddress::Range { start, end: e }, q))
        } else {
            Ok((FieldAddress::Integer(start), p))
        }
    }

    /// Reads a whole text.
    pub fn parse_str(text: &str) -> (r: Result<FieldAddress, ParseError>)
        ensures
            r matches Ok(v) ==> exists|s: Src|
                s.wf() && s.chars@ == text@ && match v {
                    FieldAddress::Integer(a) => s.tokens@.len() == 1 && int_value(s.tokens@[0].kind)
                        == Some(a),
                    FieldAddress::Range { start, end: e } => s.tokens@.len() == 3 && s.tokens@[1].kind
                        == TokenKind::DotDot && int_value(s.tokens@[0].kind) == Some(start)
                        && int_value(s.tokens@[2].kind) == Some(e),
                    FieldAddress::RangeInclusive { start, end: e } => s.tokens@.len() == 3
                        && s.tokens@[1].kind == TokenKind::DotDotEq && int_value(s.tokens@[0].kind)
                        == Some(start) && int_value(s.tokens@[2].kind) == Some(e),
                },
    {
        let s = Src::new(text)?;
        let out = finish(&s, FieldAddress::parse(&s, 0, s.tokens.len()));
        assert(out matches Ok(v) ==> s.wf() && s.chars@ == text@ && match v {
                    FieldAddress::Integer(a) => s.tokens@.len() == 1 && int_value(s.tokens@[0].kind)
                        == Some(a),
                    FieldAddress::Range { start, end: e } => s.tokens@.len() == 3 && s.tokens@[1].kind
                        == TokenKind::DotDot && int_value(s.tokens@[0].kind) == Some(start)
                        && int_value(s.tokens@[2].kind) == Some(e),
                    FieldAddress::RangeInclusive { start, end: e } => s.tokens@.len() == 3
                        && s.tokens@[1].kind == TokenKind::DotDotEq && int_value(s.tokens@[0].kind)
                        == Some(start) && int_value(s.tokens@[2].kind) == Some(e),
                });
        out
    }
}

/// Reads a path such as `crate::module::Type`; returns it without spaces.
fn path(s: &Src, pos: usize, end: usize) -> (r: Result<(String, usize), ParseError>)
    requires
        s.wf(),
        pos <= end <= s.tokens@.len(),
    ensures
        r matches Ok((_, p)) ==> pos < p <= end,
        r matches Ok((t, _)) ==> no_white(t@),
{
    let mut p = pos;
    if kind_is(s, p, end, TokenKind::PathSep) {
        p = p + 1;
    }
    if !kind_is(s, p, end, TokenKind::Ident) {
        return Err(fail(s, p, end, "expected identifier"));
    }
    p = p + 1;
    assert(forall|k: int| pos <= k < p ==> (#[trigger] s.tokens@[k].kind == TokenKind::Ident
        || s.tokens@[k].kind == TokenKind::PathSep));
    while kind_is(s, p, end, TokenKind::PathSep) && kind_is(s, p + 1, end, TokenKind::Ident)
        invariant
            s.wf(),
            pos < p <= end,
            end <= s.tokens@.len(),
            forall|k: int|
                pos <= k < p ==> (#[trigger] s.tokens@[k].kind == TokenKind::Ident || s.tokens@[k].kind
                    == TokenKind::PathSep),
        decreases end - p,
    {
        p = p + 2;
    }
    proof {
        lemma_path_spelling(s, pos as int, p as int);
    }
    Ok((spell_tokens(s, pos, p, false), p))
}

impl Conversion {
    /// Reads `as [try] Path` or `as [try] enum Name { variants }`.
    pub fn parse(s: &Src, pos: usize, end: usize) -> (r: Result<(Conversion, usize), ParseError>)
        requires
            s.wf(),
            pos <= end <= s.tokens@.len(),
        ensures
            r matches Ok((c, _)) ==> (c matches Conversion::Direct { path, .. } ==> no_white(path@)),
            r matches Ok((_, p)) ==> pos < p <= end,
    {
        let mut p = expect_word(s, pos, end, "as", "expected `as`")?;
        let use_try = word(s, p, end, "try");
        if use_try {
            p = p + 1;
        }
        if !word(s, p, end, "enum") {
            let (path, q) = path(s, p, end)?;
            return Ok((Conversion::Direct { path, use_try }, q));
        }
        let (identifier, q) = ident(s, p + 1, end)?;
        let (inner, close) = group(s, q, end, Delim::Brace, "expected curly braces")?;
        let (enum_variant_list, _) = EnumVariantList::parse(s, inner, close)?;
        Ok((Conversion::Enum { identifier, enum_variant_list, use_try }, close + 1))
    }
}

impl EnumVariant {
    /// Reads `[attributes] Name [= value]`.
    pub fn parse(s: &Src, pos: usize, end: usize) -> (r: Result<(EnumVariant, usize), ParseError>)
        requires
            s.wf(),
            pos <= end <= s.tokens@.len(),
        ensures
            r matches Ok((v, p)) ==> pos < p <= end && (exists|k: int|
                pos <= k < p && s.tokens@[k].kind == TokenKind::Ident && v.identifier@ == s.spelling(
                    k,
                )),
    {
        let (attribute_list, p) = AttributeList::parse(s, pos, end)?;
        let (identifier, p) = ident(s, p, end)?;
        if punct(s, p, end, '=') {
            let (v, q) = EnumValue::parse(s, p + 1, end)?;
            Ok((EnumVariant { attribute_list, identifier, enum_value: Some(v) }, q))
        } else {
            Ok((EnumVariant { attribute_list, identifier, enum_value: None }, p))
        }
    }
}

impl EnumVariantList {
    /// Reads comma separated variants up to `end`; a trailing comma is allowed.
    pub fn parse(s: &Src, pos: usize, end: usize) -> (r: Result<(EnumVariantList, usize), ParseError>)
        requires
            s.wf(),
            pos <= end <= s.tokens@.len(),
        ensures
            r matches Ok((_, p)) ==> p == end,
    {
        let mut variants: Vec<EnumVariant> = Vec::new();
        let mut p = pos;
        while p < end
            invariant
                s.wf(),
                pos <= p <= end,
                end <= s.tokens@.len(),
            decreases end - p,
        {
            let (v, q) = EnumVariant::parse(s, p, end)?;
            variants.push(v);
            if q == end {
                p = q;
            } else {
                p = expect_punct(s, q, end, ',', "expected `,`")?;
            }
        }
        Ok((EnumVariantList { variants }, p))
    }

    /// Reads a whole text.
    pub fn parse_str(text: &str) -> (r: Result<EnumVariantList, ParseError>)
        ensures
            r matches Ok(v) ==> exists|s: Src|
                s.wf() && s.chars@ == text@,
    {
        let s = Src::new(text)?;
        let out = finish(&s, EnumVariantList::parse(&s, 0, s.tokens.len()));
        assert(out matches Ok(v) ==> s.wf() && s.chars@ == text@);
        out
    }
}

/// `name: [access] type = address` at `pos`, without attributes or
/// conversion.
pub open spec fn field_well_formed(s: &Src, pos: int, end: int) -> bool {
    let k = pos + 2;
    let q = if k < end && s.tokens@[k].kind == TokenKind::Ident && access_named(s.spelling(k)) is Some {
        k + 1
    } else {
        k
    };
    &&& 0 <= pos
    &&& name_at(s, pos, end)
    &&& punct_at(s, pos + 1, ':')
    &&& pos + 1 < end
    &&& q < end
    &&& s.tokens@[q].kind == TokenKind::Ident
    &&& base_type_named(s.spelling(q)) is Some
    &&& !s.is_word(q + 1, "as"@)
    &&& q + 2 < end
    &&& punct_at(s, q + 1, '=')
    &&& int_value(s.tokens@[q + 2].kind) is Some
    &&& ((q + 3 < end && (s.tokens@[q + 3].kind == TokenKind::DotDot || s.tokens@[q + 3].kind
        == TokenKind::DotDotEq)) ==> (q + 4 < end && int_value(s.tokens@[q + 4].kind) is Some))
}

impl Field {
    /// Reads `[attributes] name: [access] base_type [as conversion] = address`.
    pub fn parse(s: &Src, pos: usize, end: usize) -> (r: Result<(Field, usize), ParseError>)
        requires
            s.wf(),
            pos <= end <= s.tokens@.len(),
        ensures
            field_well_formed(s, pos as int, end as int) ==> r is Ok,
            r matches Ok((v, p)) ==> pos < p <= end && (exists|k: int|
                pos <= k < p && s.tokens@[k].kind == TokenKind::Ident && v.identifier@ == s.spelling(
                    k,
                )),
    {
        let (attribute_list, p) = AttributeList::parse(s, pos, end)?;
        let (identifier, p) = ident(s, p, end)?;
        let mut p = expect_punct(s, p, end, ':', "expected `:`")?;
        let access = match Access::parse(s, p, end) {
            Ok((a, q)) => {
                p = q;
                Some(a)
            },
            Err(_) => None,
        };
        let (base_type, q) = BaseType::parse(s, p, end)?;
        p = q;
        let conversion = if word(s, p, end, "as") {
            let (c, q) = Conversion::parse(s, p, end)?;
            p = q;
            Some(c)
        } else {
            None
        };
        let p = expect_punct(s, p, end, '=', "expected `=`")?;
        let (field_address, p) = FieldAddress::parse(s, p, end)?;
        Ok((Field { attribute_list, identifier, access, base_type, conversion, field_address }, p))
    }

    /// Reads a whole text.
    pub fn parse_str(text: &str) -> (r: Result<Field, ParseError>)
        ensures
            r matches Ok(v) ==> exists|s: Src|
                s.wf() && s.chars@ == text@ && exists|k: int| 0 <= k && s.tokens@[k].kind == TokenKind::Ident && v.identifier@ == s.spelling(k),
    {
        let s = Src::new(text)?;
        let out = finish(&s, Field::parse(&s, 0, s.tokens.len()));
        assert(out matches Ok(v) ==> s.wf() && s.chars@ == text@ && exists|k: int| 0 <= k && s.tokens@[k].kind == TokenKind::Ident && v.identifier@ == s.spelling(k));
        out
    }
}

impl FieldList {
    /// Reads comma separated fields up to `end`; a trailing comma is allowed.
    pub fn parse(s: &Src, pos: usize, end: usize) -> (r: Result<(FieldList, usize), ParseError>)
        requires
            s.wf(),
            pos <= end <= s.tokens@.len(),
        ensures
            r matches Ok((_, p)) ==> p == end,
            pos == end ==> (r matches Ok((l, _)) && l.fields@.len() == 0),
    {
        let mut fields: Vec<Field> = Vec::new();
        let mut p = pos;
        while p < end
            invariant
                s.wf(),
                p == pos ==> fields@.len() == 0,
                pos <= p <= end,
                end <= s.tokens@.len(),
            decreases end - p,
        {
            let (f, q) = Field::parse(s, p, end)?;
            fields.push(f);
            if q == end {
                p = q;
            } else {
                p = expect_punct(s, q, end, ',', "expected `,`")?;
            }
        }
        Ok((FieldList { fields }, p))
    }
}

impl RepeatCount {
    /// Reads an integer literal, or `usize` followed by a conversion.
    pub fn parse(s: &Src, pos: usize, end: usize) -> (r: Result<(RepeatCount, usize), ParseError>)
        requires
            s.wf(),
            pos <= end <= s.tokens@.len(),
        ensures
            r matches Ok((_, p)) ==> pos < p <= end,
    {
        if let Ok((v, p)) = int_lit(s, pos, end) {
            return Ok((RepeatCount::Value(v), p));
        }
        let p = expect_word(s, pos, end, "usize", "expected `usize`")?;
        let (c, q) = Conversion::parse(s, p, end)?;
        Ok((RepeatCount::Conversion(c), q))
    }
}

impl Repeat {
    /// Reads `REPEAT = { count: .., stride: .. };`.
    pub fn parse(s: &Src, pos: usize, end: usize) -> (r: Result<(Repeat, usize), ParseError>)
        requires
            s.wf(),
            pos <= end <= s.tokens@.len(),
        ensures
            r matches Ok((_, p)) ==> pos < p <= end,
    {
        let p = expect_word(s, pos, end, "REPEAT", "expected `REPEAT`")?;
        let p = expect_punct(s, p, end, '=', "expected `=`")?;
        let (inner, close) = group(s, p, end, Delim::Brace, "expected curly braces")?;
        let q = expect_word(s, inner, close, "count", "expected `count`")?;
        let q = expect_punct(s, q, close, ':', "expected `:`")?;
        let (count, q) = RepeatCount::parse(s, q, close)?;
        let q = expect_punct(s, q, close, ',', "expected `,`")?;
        let q = expect_word(s, q, close, "stride", "expected `stride`")?;
        let q = expect_punct(s, q, close, ':', "expected `:`")?;
        let (stride, q) = int_lit(s, q, close)?;
        let q = if punct(s, q, close, ',') {
            q + 1
        } else {
            q
        };
        if q != close {
            return Err(fail(s, q, close, "unexpected token"));
        }
        let p = expect_punct(s, close + 1, end, ';', "expected `;`")?;
        Ok((Repeat { count, stride }, p))
    }

    /// Reads a whole text.
    pub fn parse_str(text: &str) -> (r: Result<Repeat, ParseError>)
        ensures
            r matches Ok(v) ==> exists|s: Src|
                s.wf() && s.chars@ == text@,
    {
        let s = Src::new(text)?;
        let out = finish(&s, Repeat::parse(&s, 0, s.tokens.len()));
        assert(out matches Ok(v) ==> s.wf() && s.chars@ == text@);
        out
    }
}

/// Reads `= value;` after a key, with the value read by `int_lit`.
/// Token `k` is the punctuation character `c`.
pub open spec fn punct_at(s: &Src, k: int, c: char) -> bool {
    0 <= k < s.tokens@.len() && s.tokens@[k].kind == TokenKind::Punct(c)
}

/// The tokens from `k` spell `= v;` with an integer literal `v`.
pub open spec fn int_entry_at(s: &Src, k: int, v: u64) -> bool {
    &&& punct_at(s, k, '=')
    &&& k + 1 < s.tokens@.len()
    &&& int_value(s.tokens@[k + 1].kind) == Some(v)
    &&& punct_at(s, k + 2, ';')
}

/// The tokens from `k` spell `= true;` or `= false;`.
pub open spec fn bool_entry_at(s: &Src, k: int, b: bool) -> bool {
    &&& punct_at(s, k, '=')
    &&& s.is_word(k + 1, if b { "true"@ } else { "false"@ })
    &&& punct_at(s, k + 2, ';')
}

fn int_entry(s: &Src, pos: usize, end: usize) -> (r: Result<(u64, usize), ParseError>)
    requires
        s.wf(),
        pos <= end <= s.tokens@.len(),
    ensures
        r is Ok <==> pos + 2 < end && punct_at(s, pos as int, '=') && int_value(s.tokens@[pos + 1].kind)
            is Some && punct_at(s, pos + 2, ';'),
        r matches Ok((v, p)) ==> pos < p <= end && p == pos + 3 && int_entry_at(s, pos as int, v),
{
    let p = expect_punct(s, pos, end, '=', "expected `=`")?;
    let (v, p) = int_lit(s, p, end)?;
    let p = expect_punct(s, p, end, ';', "expected `;`")?;
    Ok((v, p))
}

fn bool_entry(s: &Src, pos: usize, end: usize) -> (r: Result<(bool, usize), ParseError>)
    requires
        s.wf(),
        pos <= end <= s.tokens@.len(),
    ensures
        r is Ok <==> pos + 2 < end && punct_at(s, pos as int, '=') && (s.is_word(pos + 1, "true"@)
            || s.is_word(pos + 1, "false"@)) && punct_at(s, pos + 2, ';'),
        r matches Ok((v, p)) ==> pos < p <= end && p == pos + 3 && bool_entry_at(s, pos as int, v) && v
            == s.is_word(pos + 1, "true"@),
{
    let p = expect_punct(s, pos, end, '=', "expected `=`")?;
    let (v, p) = bool_lit(s, p, end)?;
    let p = expect_punct(s, p, end, ';', "expected `;`")?;
    Ok((v, p))
}

/// The tokens `[a, b)` are integer literals separated by commas, with an
/// optional comma at the end.
pub open spec fn int_list(s: &Src, a: int, b: int) -> bool {
    forall|k: int|
        a <= k < b ==> (if (k - a) % 2 == 0 {
            int_value(#[trigger] s.tokens@[k].kind) is Some
        } else {
            s.tokens@[k].kind == TokenKind::Punct(',')
        })
}

/// Every literal of the list `[a, b)` fits in a byte.
pub open spec fn bytes_fit(s: &Src, a: int, b: int) -> bool {
    forall|k: int|
        a <= k < b && (k - a) % 2 == 0 ==> int_value(#[trigger] s.tokens@[k].kind)->Some_0 <= 255
}

/// Reads the elements of a `[a, b, ..]` reset value, each a byte.
fn byte_array(s: &Src, pos: usize, end: usize) -> (r: Result<Vec<u8>, ParseError>)
    requires
        s.wf(),
        pos <= end <= s.tokens@.len(),
    ensures
        int_list(s, pos as int, end as int) ==> (r is Ok <==> bytes_fit(s, pos as int, end as int)),
        int_list(s, pos as int, end as int) && !bytes_fit(s, pos as int, end as int) ==> (r matches Err(
            e,
        ) && e.message@ == "number too large to fit in target type"@),
{
    let mut out: Vec<u8> = Vec::new();
    let mut p = pos;
    while p < end
        invariant
            s.wf(),
            pos <= p <= end,
            end <= s.tokens@.len(),
            p < end ==> (p - pos) % 2 == 0,
            forall|k: int| pos <= k < p && (k - pos) % 2 == 0 ==> int_value(#[trigger] s.tokens@[k].kind)->Some_0 <= 255,
            int_list(s, pos as int, end as int) ==> forall|k: int| pos <= k < p && (k - pos) % 2 == 0 ==> int_value(#[trigger] s.tokens@[k].kind) is Some,
        decreases end - p,
    {
        proof {
            if int_list(s, pos as int, end as int) {
                assert(int_value(s.tokens@[p as int].kind) is Some);
                if p + 1 < end {
                    assert(((p + 1) - pos) % 2 == 1);
                    assert(s.tokens@[p + 1].kind == TokenKind::Punct(','));
                }
            }
        }
        let ghost p0 = p;
        let (v, q) = int_lit(s, p, end)?;
        if v > 255 {
            assert(!bytes_fit(s, pos as int, end as int));
            return Err(fail(s, p, end, "number too large to fit in target type"));
        }
        out.push(v as u8);
        if q == end {
            p = q;
        } else {
            p = expect_punct(s, q, end, ',', "expected `,`")?;
        }
        proof {
            assert forall|k: int| pos <= k < p && (k - pos) % 2 == 0 implies int_value(
                #[trigger] s.tokens@[k].kind,
            )->Some_0 <= 255 by {
                if k >= p0 {
                    assert(k == p0);
                }
            }
        }
    }
    Ok(out)
}

fn register_kind(item: &RegisterItem) -> (r: u8)
    ensures
        r == register_item_kind(*item),
{
    match item {
        RegisterItem::Access(_) => 0,
        RegisterItem::ByteOrder(_) => 1,
        RegisterItem::BitOrder(_) => 2,
        RegisterItem::Address(_) => 3,
        RegisterItem::SizeBits(_) => 4,
        RegisterItem::ResetValueInt(_) => 5,
        RegisterItem::ResetValueArray(_) => 5,
        RegisterItem::Repeat(_) => 6,
        RegisterItem::AllowBitOverlap(_) => 7,
        RegisterItem::AllowAddressOverlap(_) => 8,
    }
}

fn has_register_kind(items: &Vec<RegisterItem>, k: u8) -> (r: bool)
    ensures
        r == exists|i: int| 0 <= i < items@.len() && register_item_kind(#[trigger] items@[i]) == k,
{
    let mut i: usize = 0;
    while i < items.len()
        invariant
            i <= items@.len(),
            forall|j: int| 0 <= j < i ==> register_item_kind(#[trigger] items@[j]) != k,
        decreases items@.len() - i,
    {
        if register_kind(&items[i]) == k {
            return true;
        }
        i = i + 1;
    }
    false
}

/// Appends an item of a kind that the list does not hold yet.
fn push_register_item(items: &mut Vec<RegisterItem>, item: RegisterItem)
    requires
        register_items_unique(old(items)@),
        forall|i: int|
            0 <= i < old(items)@.len() ==> register_item_kind(#[trigger] old(items)@[i])
                != register_item_kind(item),
    ensures
        register_items_unique(final(items)@),
        final(items)@ == old(items)@.push(item),
{
    items.push(item);
}

/// The tokens from `k` spell the register entry `item`.
pub open spec fn register_item_spelled(s: &Src, k: int, item: RegisterItem) -> bool {
    let typed = |key: Seq<char>| s.is_word(k, "type"@) && s.is_word(k + 1, key) && punct_at(s, k + 2, '=')
        && k + 3 < s.tokens@.len() && s.tokens@[k + 3].kind == TokenKind::Ident;
    let constant = |key: Seq<char>| s.is_word(k, "const"@) && s.is_word(k + 1, key);
    match item {
        RegisterItem::Access(a) => typed("Access"@) && access_named(s.spelling(k + 3)) == Some(a),
        RegisterItem::ByteOrder(o) => typed("ByteOrder"@) && byte_order_named(s.spelling(k + 3))
            == Some(o),
        RegisterItem::BitOrder(o) => typed("BitOrder"@) && bit_order_named(s.spelling(k + 3)) == Some(
            o,
        ),
        RegisterItem::Address(v) => constant("ADDRESS"@) && int_entry_at(s, k + 2, v),
        RegisterItem::SizeBits(v) => constant("SIZE_BITS"@) && int_entry_at(s, k + 2, v),
        RegisterItem::ResetValueInt(v) => constant("RESET_VALUE"@) && int_entry_at(s, k + 2, v),
        RegisterItem::ResetValueArray(_) => constant("RESET_VALUE"@) && punct_at(s, k + 2, '=')
            && k + 3 < s.tokens@.len() && s.tokens@[k + 3].kind == TokenKind::Open(Delim::Bracket),
        RegisterItem::Repeat(_) => constant("REPEAT"@),
        RegisterItem::AllowBitOverlap(b) => constant("ALLOW_BIT_OVERLAP"@) && bool_entry_at(
            s,
            k + 2,
            b,
        ),
        RegisterItem::AllowAddressOverlap(b) => constant("ALLOW_ADDRESS_OVERLAP"@) && bool_entry_at(
            s,
            k + 2,
            b,
        ),
    }
}

/// The entries `items` were read, in order, from tokens in `[lo, hi)`.
pub open spec fn register_items_spelled(s: &Src, lo: int, hi: int, items: Seq<RegisterItem>) -> bool {
    exists|ks: Seq<int>| register_items_at(s, lo, hi, items, ks)
}

pub open spec fn register_items_at(
    s: &Src,
    lo: int,
    hi: int,
    items: Seq<RegisterItem>,
    ks: Seq<int>,
) -> bool {
    &&& ks.len() == items.len()
    &&& forall|i: int| 0 <= i < ks.len() ==> lo <= #[trigger] ks[i] < hi && register_item_spelled(s, ks[i], items[i])
    &&& forall|i: int, j: int| 0 <= i < j < ks.len() ==> #[trigger] ks[i] < #[trigger] ks[j]
}

/// One register entry of fixed shape at `k`, inside `end`: `type Key = Word;`
/// or `const KEY = literal;`; the entry it spells, if it is well formed.
pub open spec fn simple_register_entry(s: &Src, k: int, end: int) -> Option<RegisterItem> {
    if !(0 <= k && k + 4 < end && punct_at(s, k + 2, '=') && punct_at(s, k + 4, ';')) {
        None
    } else if s.is_word(k, "type"@) {
        let w = s.spelling(k + 3);
        if s.tokens@[k + 3].kind != TokenKind::Ident {
            None
        } else if s.is_word(k + 1, "Access"@) {
            match access_named(w) {
                Some(a) => Some(RegisterItem::Access(a)),
                None => None,
            }
        } else if s.is_word(k + 1, "ByteOrder"@) {
            match byte_order_named(w) {
                Some(o) => Some(RegisterItem::ByteOrder(o)),
                None => None,
            }
        } else if s.is_word(k + 1, "BitOrder"@) {
            match bit_order_named(w) {
                Some(o) => Some(RegisterItem::BitOrder(o)),
                None => None,
            }
        } else {
            None
        }
    } else if s.is_word(k, "const"@) {
        match int_value(s.tokens@[k + 3].kind) {
            Some(v) => if s.is_word(k + 1, "ADDRESS"@) {
                Some(RegisterItem::Address(v))
            } else if s.is_word(k + 1, "SIZE_BITS"@) {
                Some(RegisterItem::SizeBits(v))
            } else if s.is_word(k + 1, "RESET_VALUE"@) {
                Some(RegisterItem::ResetValueInt(v))
            } else {
                None
            },
            None => if s.is_word(k + 1, "ADDRESS"@) || s.is_word(k + 1, "SIZE_BITS"@) || s.is_word(
                k + 1,
                "RESET_VALUE"@,
            ) || s.is_word(k + 1, "REPEAT"@) {
                None
            } else if s.is_word(k + 3, "true"@) || s.is_word(k + 3, "false"@) {
                let b = s.is_word(k + 3, "true"@);
                if s.is_word(k + 1, "ALLOW_BIT_OVERLAP"@) {
                    Some(RegisterItem::AllowBitOverlap(b))
                } else if s.is_word(k + 1, "ALLOW_ADDRESS_OVERLAP"@) {
                    Some(RegisterItem::AllowAddressOverlap(b))
                } else {
                    None
                }
            } else {
                None
            },
        }
    } else {
        None
    }
}

/// The longest run of fixed-shape register entries from `k`, in order.
pub open spec fn register_run(s: &Src, k: int, end: int) -> Seq<RegisterItem>
    decreases end - k,
{
    if k + 4 < end {
        match simple_register_entry(s, k, end) {
            Some(e) => seq![e] + register_run(s, k + 5, end),
            None => Seq::empty(),
        }
    } else {
        Seq::empty()
    }
}

pub open spec fn register_type_key(s: &Src, k: int) -> bool {
    s.is_word(k, "Access"@) || s.is_word(k, "ByteOrder"@) || s.is_word(k, "BitOrder"@)
}

pub open spec fn register_const_key(s: &Src, k: int) -> bool {
    s.is_word(k, "ADDRESS"@) || s.is_word(k, "SIZE_BITS"@) || s.is_word(k, "RESET_VALUE"@)
        || s.is_word(k, "REPEAT"@) || s.is_word(k, "ALLOW_BIT_OVERLAP"@) || s.is_word(
        k,
        "ALLOW_ADDRESS_OVERLAP"@,
    )
}

/// `const RESET_VALUE = [..]` at `k` whose list holds a literal above 255.
pub open spec fn reset_bytes_too_large(s: &Src, k: int, end: int) -> bool {
    &&& s.is_word(k, "const"@)
    &&& !s.is_word(k + 1, "ADDRESS"@)
    &&& !s.is_word(k + 1, "SIZE_BITS"@)
    &&& s.is_word(k + 1, "RESET_VALUE"@)
    &&& punct_at(s, k + 2, '=')
    &&& k + 3 < end
    &&& s.tokens@[k + 3].kind == TokenKind::Open(Delim::Bracket)
    &&& k + 3 < s.tokens@[k + 3].mate < end
    &&& int_list(s, k + 4, s.tokens@[k + 3].mate as int)
    &&& !bytes_fit(s, k + 4, s.tokens@[k + 3].mate as int)
}

/// The entry at `k` starts with a known key, and is not a reset value with
/// a byte out of range.
pub open spec fn register_entry_accepted(s: &Src, k: int, end: int) -> bool {
    &&& k < end
    &&& ((s.is_word(k, "type"@) && register_type_key(s, k + 1)) || (!s.is_word(k, "type"@)
        && s.is_word(k, "const"@) && register_const_key(s, k + 1)))
    &&& !reset_bytes_too_large(s, k, end)
}

impl RegisterItemList {
    /// Reads the `type ..` and `const ..` entries at the head of a register.
    /// An entry of a kind read before is an error, so no two entries of the
    /// result are of one kind.
    #[verifier::rlimit(100)]
    pub fn parse(s: &Src, pos: usize, end: usize) -> (r: Result<(RegisterItemList, usize), ParseError>)
        requires
            s.wf(),
            pos <= end <= s.tokens@.len(),
        ensures
            register_items_unique(register_run(s, pos as int, end as int)) && !(pos + 5 * register_run(
                s,
                pos as int,
                end as int,
            ).len() < end && (s.is_word(pos + 5 * register_run(s, pos as int, end as int).len(), "type"@)
                || s.is_word(pos + 5 * register_run(s, pos as int, end as int).len(), "const"@)))
                ==> (r matches Ok((v, p)) && v.register_items@ == register_run(s, pos as int, end as int)
                && p == pos + 5 * register_run(s, pos as int, end as int).len()),
            !register_items_unique(register_run(s, pos as int, end as int)) ==> (r matches Err(e)
                && e.message@ == "duplicate item found"@),
            ({
                let q = pos + 5 * register_run(s, pos as int, end as int).len();
                register_items_unique(register_run(s, pos as int, end as int)) && q < end && s.is_word(
                    q,
                    "type"@,
                ) && !register_type_key(s, q + 1)
            }) ==> (r matches Err(e) && e.message@ == fail_text(
                s,
                (pos + 5 * register_run(s, pos as int, end as int).len() + 1) as usize,
                end,
                "expected one of: `Access`, `ByteOrder`, `BitOrder`"@,
            )),
            ({
                let q = pos + 5 * register_run(s, pos as int, end as int).len();
                register_items_unique(register_run(s, pos as int, end as int)) && q < end && !s.is_word(
                    q,
                    "type"@,
                ) && s.is_word(q, "const"@) && !register_const_key(s, q + 1)
            }) ==> (r matches Err(e) && e.message@ == fail_text(
                s,
                (pos + 5 * register_run(s, pos as int, end as int).len() + 1) as usize,
                end,
                "expected one of: `ADDRESS`, `SIZE_BITS`, `RESET_VALUE`, `REPEAT`, `ALLOW_BIT_OVERLAP`, `ALLOW_ADDRESS_OVERLAP`"@,
            )),
            ({
                let run = register_run(s, pos as int, end as int);
                let q = pos + 5 * run.len();
                register_items_unique(run) && !s.is_word(q, "type"@) && (forall|i: int|
                    0 <= i < run.len() ==> register_item_kind(#[trigger] run[i]) != 5)
                    && reset_bytes_too_large(s, q, end as int)
            }) ==> (r matches Err(e) && e.message@ == "number too large to fit in target type"@),
            !(pos < end && (s.is_word(pos as int, "type"@) || s.is_word(pos as int, "const"@))) ==> (r matches Ok((v, p)) && p == pos && v.register_items@.len()
                == 0),
            r matches Ok((v, p)) ==> pos <= p <= end && register_items_unique(v.register_items@)
                && !(p < end && (s.is_word(p as int, "type"@) || s.is_word(p as int, "const"@)))
                && register_items_spelled(s, pos as int, p as int, v.register_items@),
    {
        let mut items: Vec<RegisterItem> = Vec::new();
        let mut p = pos;
        let ghost mut ks: Seq<int> = Seq::empty();
        loop
            invariant
                s.wf(),
                pos <= p <= end,
                end <= s.tokens@.len(),
                p > pos ==> (pos < end && (s.is_word(pos as int, "type"@) || s.is_word(pos as int, "const"@))),
                p == pos ==> items@.len() == 0,
                register_items_unique(items@),
                ({
                    let run = register_run(s, pos as int, end as int);
                    items@.len() <= run.len() ==> (p == pos + 5 * items@.len() && items@ =~= run.subrange(
                        0,
                        items@.len() as int,
                    ) && register_run(s, p as int, end as int) =~= run.subrange(
                        items@.len() as int,
                        run.len() as int,
                    ))
                }),
                ({
                    let run = register_run(s, pos as int, end as int);
                    items@.len() > run.len() ==> (items@.subrange(0, run.len() as int) =~= run
                        && register_entry_accepted(s, pos + 5 * run.len(), end as int))
                }),
                register_items_at(s, pos as int, p as int, items@, ks),
            decreases end - p,
        {
            proof {
                let run = register_run(s, pos as int, end as int);
                let n = items@.len() as int;
                if n < run.len() {
                    let rr = register_run(s, p as int, end as int);
                    assert(rr.len() > 0);
                    assert(rr[0] == run[n]);
                    assert(p + 4 < end);
                    match simple_register_entry(s, p as int, end as int) {
                        Some(e) => {
                            assert(rr =~= seq![e] + register_run(s, p + 5, end as int));
                            assert(rr[0] == e);
                            assert(register_run(s, p + 5, end as int) =~= rr.subrange(1, rr.len() as int));
                        },
                        None => {
                            assert(rr.len() == 0);
                        },
                    }
                    assert(simple_register_entry(s, p as int, end as int) == Some(run[n]));
                    assert(register_run(s, p + 5, end as int) =~= run.subrange(n + 1, run.len() as int));
                } else {
                    assert forall|a: int, b: int| 0 <= a < b < run.len() implies register_item_kind(
                        #[trigger] run[a],
                    ) != register_item_kind(#[trigger] run[b]) by {
                        assert(run[a] == items@[a]);
                        assert(run[b] == items@[b]);
                    }
                }
            }
            if word(s, p, end, "type") {
                let k = p + 1;
                let kind: u8 = if word(s, k, end, "Access") {
                    0
                } else if word(s, k, end, "ByteOrder") {
                    1
                } else if word(s, k, end, "BitOrder") {
                    2
                } else {
                    return Err(fail(s, k, end, "expected one of: `Access`, `ByteOrder`, `BitOrder`"));
                };
                if has_register_kind(&items, kind) {
                    return Err(fail(s, k, end, "duplicate item found"));
                }
                let q = expect_punct(s, k + 1, end, '=', "expected `=`")?;
                let (item, q) = if kind == 0 {
                    let (v, q) = Access::parse(s, q, end)?;
                    (RegisterItem::Access(v), q)
                } else if kind == 1 {
                    let (v, q) = ByteOrder::parse(s, q, end)?;
                    (RegisterItem::ByteOrder(v), q)
                } else {
                    let (v, q) = BitOrder::parse(s, q, end)?;
                    (RegisterItem::BitOrder(v), q)
                };
                let q = expect_punct(s, q, end, ';', "expected `;`")?;
                proof {
                    assert(register_item_spelled(s, p as int, item));
                    ks = ks.push(p as int);
                }
                push_register_item(&mut items, item);
                p = q;
            } else if word(s, p, end, "const") {
                let k = p + 1;
                let kind: u8 = if word(s, k, end, "ADDRESS") {
                    3
                } else if word(s, k, end, "SIZE_BITS") {
                    4
                } else if word(s, k, end, "RESET_VALUE") {
                    5
                } else if word(s, k, end, "REPEAT") {
                    6
                } else if word(s, k, end, "ALLOW_BIT_OVERLAP") {
                    7
                } else if word(s, k, end, "ALLOW_ADDRESS_OVERLAP") {
                    8
                } else {
                    return Err(
                        fail(
                            s,
                            k,
                            end,
                            "expected one of: `ADDRESS`, `SIZE_BITS`, `RESET_VALUE`, `REPEAT`, `ALLOW_BIT_OVERLAP`, `ALLOW_ADDRESS_OVERLAP`",
                        ),
                    );
                };
                if has_register_kind(&items, kind) {
                    return Err(fail(s, k, end, "duplicate item found"));
                }
                let (item, q) = if kind == 3 {
                    let (v, q) = int_entry(s, k + 1, end)?;
                    (RegisterItem::Address(v), q)
                } else if kind == 4 {
                    let (v, q) = int_entry(s, k + 1, end)?;
                    (RegisterItem::SizeBits(v), q)
                } else if kind == 5 {
                    let q = expect_punct(s, k + 1, end, '=', "expected `=`")?;
                    let (item, q) = if let Ok((v, q)) = int_lit(s, q, end) {
                        (RegisterItem::ResetValueInt(v), q)
                    } else if kind_is(s, q, end, TokenKind::Open(Delim::Bracket)) {
                        let (a, close) = group(s, q, end, Delim::Bracket, "expected square brackets")?;
                        (RegisterItem::ResetValueArray(byte_array(s, a, close)?), close + 1)
                    } else {
                        return Err(fail(s, q, end, "expected integer literal or square brackets"));
                    };
                    let q = expect_punct(s, q, end, ';', "expected `;`")?;
                    (item, q)
                } else if kind == 6 {
                    let (v, q) = Repeat::parse(s, k, end)?;
                    (RegisterItem::Repeat(v), q)
                } else if kind == 7 {
                    let (v, q) = bool_entry(s, k + 1, end)?;
                    (RegisterItem::AllowBitOverlap(v), q)
                } else {
                    let (v, q) = bool_entry(s, k + 1, end)?;
                    (RegisterItem::AllowAddressOverlap(v), q)
                };
                proof {
                    assert(register_item_spelled(s, p as int, item));
                    ks = ks.push(p as int);
                }
                push_register_item(&mut items, item);
                p = q;
            } else {
                assert(register_items_at(s, pos as int, p as int, items@, ks));
                return Ok((RegisterItemList { register_items: items }, p));
            }
        }
    }

    /// Reads a whole text.
    pub fn parse_str(text: &str) -> (r: Result<RegisterItemList, ParseError>)
        ensures
            r matches Ok(v) ==> exists|s: Src|
                s.wf() && s.chars@ == text@ && register_items_unique(v.register_items@),
    {
        let s = Src::new(text)?;
        let out = finish(&s, RegisterItemList::parse(&s, 0, s.tokens.len()));
        assert(out matches Ok(v) ==> s.wf() && s.chars@ == text@ && register_items_unique(v.register_items@));
        out
    }
}

fn command_kind(item: &CommandItem) -> (r: u8)
    ensures
        r == command_item_kind(*item),
{
    match item {
        CommandItem::ByteOrder(_) => 0,
        CommandItem::BitOrder(_) => 1,
        CommandItem::Address(_) => 2,
        CommandItem::SizeBitsIn(_) => 3,
        CommandItem::SizeBitsOut(_) => 4,
        CommandItem::Repeat(_) => 5,
        CommandItem::AllowBitOverlap(_) => 6,
        CommandItem::AllowAddressOverlap(_) => 7,
    }
}

fn has_command_kind(items: &Vec<CommandItem>, k: u8) -> (r: bool)
    ensures
        r == exists|i: int| 0 <= i < items@.len() && command_item_kind(#[trigger] items@[i]) == k,
{
    let mut i: usize = 0;
    while i < items.len()
        invariant
            i <= items@.len(),
            forall|j: int| 0 <= j < i ==> command_item_kind(#[trigger] items@[j]) != k,
        decreases items@.len() - i,
    {
        if command_kind(&items[i]) == k {
            return true;
        }
        i = i + 1;
    }
    false
}

fn push_command_item(items: &mut Vec<CommandItem>, item: CommandItem)
    requires
        command_items_unique(old(items)@),
        forall|i: int|
            0 <= i < old(items)@.len() ==> command_item_kind(#[trigger] old(items)@[i])
                != command_item_kind(item),
    ensures
        command_items_unique(final(items)@),
        final(items)@ == old(items)@.push(item),
{
    items.push(item);
}

/// The tokens from `k` spell the command entry `item`.
pub open spec fn command_item_spelled(s: &Src, k: int, item: CommandItem) -> bool {
    let typed = |key: Seq<char>| s.is_word(k, "type"@) && s.is_word(k + 1, key) && punct_at(s, k + 2, '=')
        && k + 3 < s.tokens@.len() && s.tokens@[k + 3].kind == TokenKind::Ident;
    let constant = |key: Seq<char>| s.is_word(k, "const"@) && s.is_word(k + 1, key);
    match item {
        CommandItem::ByteOrder(o) => typed("ByteOrder"@) && byte_order_named(s.spelling(k + 3)) == Some(
            o,
        ),
        CommandItem::BitOrder(o) => typed("BitOrder"@) && bit_order_named(s.spelling(k + 3)) == Some(o),
        CommandItem::Address(v) => constant("ADDRESS"@) && int_entry_at(s, k + 2, v),
        CommandItem::SizeBitsIn(v) => constant("SIZE_BITS_IN"@) && int_entry_at(s, k + 2, v),
        CommandItem::SizeBitsOut(v) => constant("SIZE_BITS_OUT"@) && int_entry_at(s, k + 2, v),
        CommandItem::Repeat(_) => constant("REPEAT"@),
        CommandItem::AllowBitOverlap(b) => constant("ALLOW_BIT_OVERLAP"@) && bool_entry_at(s, k + 2, b),
        CommandItem::AllowAddressOverlap(b) => constant("ALLOW_ADDRESS_OVERLAP"@) && bool_entry_at(
            s,
            k + 2,
            b,
        ),
    }
}

pub open spec fn command_items_at(s: &Src, lo: int, hi: int, items: Seq<CommandItem>, ks: Seq<int>) -> bool {
    &&& ks.len() == items.len()
    &&& forall|i: int| 0 <= i < ks.len() ==> lo <= #[trigger] ks[i] < hi && command_item_spelled(s, ks[i], items[i])
    &&& forall|i: int, j: int| 0 <= i < j < ks.len() ==> #[trigger] ks[i] < #[trigger] ks[j]
}

/// The entries `items` were read, in order, from tokens in `[lo, hi)`.
pub open spec fn command_items_spelled(s: &Src, lo: int, hi: int, items: Seq<CommandItem>) -> bool {
    exists|ks: Seq<int>| command_items_at(s, lo, hi, items, ks)
}

/// The tokens from `k` spell the block entry `item`.
pub open spec fn block_item_spelled(s: &Src, k: int, item: BlockItem) -> bool {
    &&& s.is_word(k, "const"@)
    &&& match item {
        BlockItem::AddressOffset(v) => s.is_word(k + 1, "ADDRESS_OFFSET"@) && int_entry_at(s, k + 2, v),
        BlockItem::Repeat(_) => s.is_word(k + 1, "REPEAT"@),
    }
}

pub open spec fn block_items_at(s: &Src, lo: int, hi: int, items: Seq<BlockItem>, ks: Seq<int>) -> bool {
    &&& ks.len() == items.len()
    &&& forall|i: int| 0 <= i < ks.len() ==> lo <= #[trigger] ks[i] < hi && block_item_spelled(s, ks[i], items[i])
    &&& forall|i: int, j: int| 0 <= i < j < ks.len() ==> #[trigger] ks[i] < #[trigger] ks[j]
}

/// One command entry of fixed shape at `k`, inside `end`; the entry it
/// spells, if it is well formed.
pub open spec fn simple_command_entry(s: &Src, k: int, end: int) -> Option<CommandItem> {
    if !(0 <= k && k + 4 < end && punct_at(s, k + 2, '=') && punct_at(s, k + 4, ';')) {
        None
    } else if s.is_word(k, "type"@) {
        let w = s.spelling(k + 3);
        if s.tokens@[k + 3].kind != TokenKind::Ident {
            None
        } else if s.is_word(k + 1, "ByteOrder"@) {
            match byte_order_named(w) {
                Some(o) => Some(CommandItem::ByteOrder(o)),
                None => None,
            }
        } else if s.is_word(k + 1, "BitOrder"@) {
            match bit_order_named(w) {
                Some(o) => Some(CommandItem::BitOrder(o)),
                None => None,
            }
        } else {
            None
        }
    } else if s.is_word(k, "const"@) {
        match int_value(s.tokens@[k + 3].kind) {
            Some(v) => if s.is_word(k + 1, "ADDRESS"@) {
                Some(CommandItem::Address(v))
            } else if s.is_word(k + 1, "SIZE_BITS_IN"@) {
                Some(CommandItem::SizeBitsIn(v))
            } else if s.is_word(k + 1, "SIZE_BITS_OUT"@) {
                Some(CommandItem::SizeBitsOut(v))
            } else {
                None
            },
            None => if s.is_word(k + 1, "ADDRESS"@) || s.is_word(k + 1, "SIZE_BITS_IN"@) || s.is_word(
                k + 1,
                "SIZE_BITS_OUT"@,
            ) || s.is_word(k + 1, "REPEAT"@) {
                None
            } else if s.is_word(k + 3, "true"@) || s.is_word(k + 3, "false"@) {
                let b = s.is_word(k + 3, "true"@);
                if s.is_word(k + 1, "ALLOW_BIT_OVERLAP"@) {
                    Some(CommandItem::AllowBitOverlap(b))
                } else if s.is_word(k + 1, "ALLOW_ADDRESS_OVERLAP"@) {
                    Some(CommandItem::AllowAddressOverlap(b))
                } else {
                    None
                }
            } else {
                None
            },
        }
    } else {
        None
    }
}

/// The longest run of fixed-shape command entries from `k`, in order.
pub open spec fn command_run(s: &Src, k: int, end: int) -> Seq<CommandItem>
    decreases end - k,
{
    if k + 4 < end {
        match simple_command_entry(s, k, end) {
            Some(e) => seq![e] + command_run(s, k + 5, end),
            None => Seq::empty(),
        }
    } else {
        Seq::empty()
    }
}

pub open spec fn command_type_key(s: &Src, k: int) -> bool {
    s.is_word(k, "ByteOrder"@) || s.is_word(k, "BitOrder"@)
}

pub open spec fn command_const_key(s: &Src, k: int) -> bool {
    s.is_word(k, "ADDRESS"@) || s.is_word(k, "SIZE_BITS_IN"@) || s.is_word(k, "SIZE_BITS_OUT"@)
        || s.is_word(k, "REPEAT"@) || s.is_word(k, "ALLOW_BIT_OVERLAP"@) || s.is_word(
        k,
        "ALLOW_ADDRESS_OVERLAP"@,
    )
}

pub open spec fn command_entry_accepted(s: &Src, k: int, end: int) -> bool {
    &&& k < end
    &&& ((s.is_word(k, "type"@) && command_type_key(s, k + 1)) || (!s.is_word(k, "type"@)
        && s.is_word(k, "const"@) && command_const_key(s, k + 1)))
}

impl CommandItemList {
    /// Reads the `type ..` and `const ..` entries at the head of a command.
    /// An entry of a kind read before is an error.
    #[verifier::rlimit(100)]
    pub fn parse(s: &Src, pos: usize, end: usize) -> (r: Result<(CommandItemList, usize), ParseError>)
        requires
            s.wf(),
            pos <= end <= s.tokens@.len(),
        ensures
            command_items_unique(command_run(s, pos as int, end as int)) && !(pos + 5 * command_run(s, pos as int, end as int).len() < end && (s.is_word(
                pos + 5 * command_run(s, pos as int, end as int).len(),
                "type"@,
            ) || s.is_word(pos + 5 * command_run(s, pos as int, end as int).len(), "const"@))) ==> (r matches Ok((v, p)) && v.items@
                == command_run(s, pos as int, end as int) && p == pos + 5 * command_run(s, pos as int, end as int).len()),
            !command_items_unique(command_run(s, pos as int, end as int)) ==> (r matches Err(e) && e.message@ == "duplicate item found"@),
            ({
                let q = pos + 5 * command_run(s, pos as int, end as int).len();
                command_items_unique(command_run(s, pos as int, end as int)) && q < end && s.is_word(q, "type"@) && !command_type_key(s, q + 1)
            }) ==> (r matches Err(e) && e.message@ == fail_text(
                s,
                (pos + 5 * command_run(s, pos as int, end as int).len() + 1) as usize,
                end,
                "expected `ByteOrder` or `BitOrder`"@,
            )),
            ({
                let q = pos + 5 * command_run(s, pos as int, end as int).len();
                command_items_unique(command_run(s, pos as int, end as int)) && q < end && !s.is_word(q, "type"@) && s.is_word(q, "const"@)
                    && !command_const_key(s, q + 1)
            }) ==> (r matches Err(e) && e.message@ == fail_text(
                s,
                (pos + 5 * command_run(s, pos as int, end as int).len() + 1) as usize,
                end,
                "expected one of: `ADDRESS`, `SIZE_BITS_IN`, `SIZE_BITS_OUT`, `REPEAT`, `ALLOW_BIT_OVERLAP`, `ALLOW_ADDRESS_OVERLAP`"@,
            )),
            !(pos < end && (s.is_word(pos as int, "type"@) || s.is_word(pos as int, "const"@))) ==> (r matches Ok((v, p)) && p == pos && v.items@.len()
                == 0),
            r matches Ok((v, p)) ==> pos <= p <= end && command_items_unique(v.items@) && !(p < end
                && (s.is_word(p as int, "type"@) || s.is_word(p as int, "const"@)))
                && command_items_spelled(s, pos as int, p as int, v.items@),
    {
        let mut items: Vec<CommandItem> = Vec::new();
        let mut p = pos;
        let ghost mut ks: Seq<int> = Seq::empty();
        loop
            invariant
                s.wf(),
                pos <= p <= end,
                end <= s.tokens@.len(),
                p > pos ==> (pos < end && (s.is_word(pos as int, "type"@) || s.is_word(pos as int, "const"@))),
                p == pos ==> items@.len() == 0,
                command_items_unique(items@),
                ({
                    let run = command_run(s, pos as int, end as int);
                    items@.len() <= run.len() ==> (p == pos + 5 * items@.len() && items@ =~= run.subrange(
                        0,
                        items@.len() as int,
                    ) && command_run(s, p as int, end as int) =~= run.subrange(
                        items@.len() as int,
                        run.len() as int,
                    ))
                }),
                ({
                    let run = command_run(s, pos as int, end as int);
                    items@.len() > run.len() ==> (items@.subrange(0, run.len() as int) =~= run
                        && command_entry_accepted(s, pos + 5 * run.len(), end as int))
                }),
                command_items_at(s, pos as int, p as int, items@, ks),
            decreases end - p,
        {
            proof {
                let run = command_run(s, pos as int, end as int);
                let n = items@.len() as int;
                if n < run.len() {
                    let rr = command_run(s, p as int, end as int);
                    assert(rr.len() > 0);
                    assert(rr[0] == run[n]);
                    assert(p + 4 < end);
                    match simple_command_entry(s, p as int, end as int) {
                        Some(e) => {
                            assert(rr =~= seq![e] + command_run(s, p + 5, end as int));
                            assert(rr[0] == e);
                            assert(command_run(s, p + 5, end as int) =~= rr.subrange(1, rr.len() as int));
                        },
                        None => {
                            assert(rr.len() == 0);
                        },
                    }
                    assert(simple_command_entry(s, p as int, end as int) == Some(run[n]));
                    assert(command_run(s, p + 5, end as int) =~= run.subrange(n + 1, run.len() as int));
                } else {
                    assert forall|a: int, b: int| 0 <= a < b < run.len() implies command_item_kind(
                        #[trigger] run[a],
                    ) != command_item_kind(#[trigger] run[b]) by {
                        assert(run[a] == items@[a]);
                        assert(run[b] == items@[b]);
                    }
                }
            }
            if word(s, p, end, "type") {
                let k = p + 1;
                let kind: u8 = if word(s, k, end, "ByteOrder") {
                    0
                } else if word(s, k, end, "BitOrder") {
                    1
                } else {
                    return Err(fail(s, k, end, "expected `ByteOrder` or `BitOrder`"));
                };
                if has_command_kind(&items, kind) {
                    return Err(fail(s, k, end, "duplicate item found"));
                }
                let q = expect_punct(s, k + 1, end, '=', "expected `=`")?;
                let (item, q) = if kind == 0 {
                    let (v, q) = ByteOrder::parse(s, q, end)?;
                    (CommandItem::ByteOrder(v), q)
                } else {
                    let (v, q) = BitOrder::parse(s, q, end)?;
                    (CommandItem::BitOrder(v), q)
                };
                let q = expect_punct(s, q, end, ';', "expected `;`")?;
                proof {
                    assert(command_item_spelled(s, p as int, item));
                    ks = ks.push(p as int);
                }
                push_command_item(&mut items, item);
                p = q;
            } else if word(s, p, end, "const") {
                let k = p + 1;
                let kind: u8 = if word(s, k, end, "ADDRESS") {
                    2
                } else if word(s, k, end, "SIZE_BITS_IN") {
                    3
                } else if word(s, k, end, "SIZE_BITS_OUT") {
                    4
                } else if word(s, k, end, "REPEAT") {
                    5
                } else if word(s, k, end, "ALLOW_BIT_OVERLAP") {
                    6
                } else if word(s, k, end, "ALLOW_ADDRESS_OVERLAP") {
                    7
                } else {
                    return Err(
                        fail(
                            s,
                            k,
                            end,
                            "expected one of: `ADDRESS`, `SIZE_BITS_IN`, `SIZE_BITS_OUT`, `REPEAT`, `ALLOW_BIT_OVERLAP`, `ALLOW_ADDRESS_OVERLAP`",
                        ),
                    );
                };
                if has_command_kind(&items, kind) {
                    return Err(fail(s, k, end, "duplicate item found"));
                }
                let (item, q) = if kind == 2 {
                    let (v, q) = int_entry(s, k + 1, end)?;
                    (CommandItem::Address(v), q)
                } else if kind == 3 {
                    let (v, q) = int_entry(s, k + 1, end)?;
                    (CommandItem::SizeBitsIn(v), q)
                } else if kind == 4 {
                    let (v, q) = int_entry(s, k + 1, end)?;
                    (CommandItem::SizeBitsOut(v), q)
                } else if kind == 5 {
                    let (v, q) = Repeat::parse(s, k, end)?;
                    (CommandItem::Repeat(v), q)
                } else if kind == 6 {
                    let (v, q) = bool_entry(s, k + 1, end)?;
                    (CommandItem::AllowBitOverlap(v), q)
                } else {
                    let (v, q) = bool_entry(s, k + 1, end)?;
                    (CommandItem::AllowAddressOverlap(v), q)
                };
                proof {
                    assert(command_item_spelled(s, p as int, item));
                    ks = ks.push(p as int);
                }
                push_command_item(&mut items, item);
                p = q;
            } else {
                assert(command_items_at(s, pos as int, p as int, items@, ks));
                return Ok((CommandItemList { items }, p));
            }
        }
    }

    /// Reads a whole text.
    pub fn parse_str(text: &str) -> (r: Result<CommandItemList, ParseError>)
        ensures
            r matches Ok(v) ==> exists|s: Src|
                s.wf() && s.chars@ == text@ && command_items_unique(v.items@),
    {
        let s = Src::new(text)?;
        let out = finish(&s, CommandItemList::parse(&s, 0, s.tokens.len()));
        assert(out matches Ok(v) ==> s.wf() && s.chars@ == text@ && command_items_unique(v.items@));
        out
    }
}

fn has_block_kind(items: &Vec<BlockItem>, k: u8) -> (r: bool)
    ensures
        r == exists|i: int| 0 <= i < items@.len() && block_item_kind(#[trigger] items@[i]) == k,
{
    let mut i: usize = 0;
    while i < items.len()
        invariant
            i <= items@.len(),
            forall|j: int| 0 <= j < i ==> block_item_kind(#[trigger] items@[j]) != k,
        decreases items@.len() - i,
    {
        let found = match &items[i] {
            BlockItem::AddressOffset(_) => k == 0,
            BlockItem::Repeat(_) => k == 1,
        };
        if found {
            return true;
        }
        i = i + 1;
    }
    false
}

/// The block entries `items` were read, in order, from tokens in `[lo, hi)`.
pub open spec fn block_items_spelled(s: &Src, lo: int, hi: int, items: Seq<BlockItem>) -> bool {
    exists|ks: Seq<int>| block_items_at(s, lo, hi, items, ks)
}

/// One `const ADDRESS_OFFSET = n;` entry at `k`, inside `end`.
pub open spec fn simple_block_entry(s: &Src, k: int, end: int) -> Option<BlockItem> {
    if 0 <= k && k + 4 < end && s.is_word(k, "const"@) && s.is_word(k + 1, "ADDRESS_OFFSET"@)
        && punct_at(s, k + 2, '=') && int_value(s.tokens@[k + 3].kind) is Some && punct_at(
        s,
        k + 4,
        ';',
    ) {
        Some(BlockItem::AddressOffset(int_value(s.tokens@[k + 3].kind)->Some_0))
    } else {
        None
    }
}

/// The longest run of `ADDRESS_OFFSET` entries from `k`.
pub open spec fn block_run(s: &Src, k: int, end: int) -> Seq<BlockItem>
    decreases end - k,
{
    if k + 4 < end {
        match simple_block_entry(s, k, end) {
            Some(e) => seq![e] + block_run(s, k + 5, end),
            None => Seq::empty(),
        }
    } else {
        Seq::empty()
    }
}

pub open spec fn block_key(s: &Src, k: int) -> bool {
    s.is_word(k, "ADDRESS_OFFSET"@) || s.is_word(k, "REPEAT"@)
}

impl BlockItemList {
    /// Reads the `const ADDRESS_OFFSET` and `const REPEAT` entries at the
    /// head of a block; each may appear once.
    #[verifier::rlimit(100)]
    pub fn parse(s: &Src, pos: usize, end: usize) -> (r: Result<(BlockItemList, usize), ParseError>)
        requires
            s.wf(),
            pos <= end <= s.tokens@.len(),
        ensures
            block_items_unique(block_run(s, pos as int, end as int)) && !(pos + 5 * block_run(s, pos as int, end as int).len() < end && s.is_word(
                pos + 5 * block_run(s, pos as int, end as int).len(),
                "const"@,
            )) ==> (r matches Ok((v, p)) && v.block_items@ == block_run(s, pos as int, end as int) && p == pos + 5 * block_run(s, pos as int, end as int).len()),
            !block_items_unique(block_run(s, pos as int, end as int)) ==> (r matches Err(e) && e.message@ == "duplicate item found"@),
            ({
                let q = pos + 5 * block_run(s, pos as int, end as int).len();
                block_items_unique(block_run(s, pos as int, end as int)) && q < end && s.is_word(q, "const"@) && !block_key(s, q + 1)
            }) ==> (r matches Err(e) && e.message@ == fail_text(
                s,
                (pos + 5 * block_run(s, pos as int, end as int).len() + 1) as usize,
                end,
                "Invalid value. Must be an `ADDRESS_OFFSET` or `REPEAT`"@,
            )),
            !(pos < end && s.is_word(pos as int, "const"@)) ==> (r matches Ok((v, p)) && p == pos && v.block_items@.len()
                == 0),
            r matches Ok((v, p)) ==> pos <= p <= end && block_items_unique(v.block_items@) && !(p
                < end && s.is_word(p as int, "const"@)) && block_items_spelled(
                s,
                pos as int,
                p as int,
                v.block_items@,
            ),
    {
        let mut items: Vec<BlockItem> = Vec::new();
        let mut p = pos;
        let ghost mut ks: Seq<int> = Seq::empty();
        while word(s, p, end, "const")
            invariant
                s.wf(),
                pos <= p <= end,
                end <= s.tokens@.len(),
                p > pos ==> (pos < end && s.is_word(pos as int, "const"@)),
                p == pos ==> items@.len() == 0,
                block_items_unique(items@),
                ({
                    let run = block_run(s, pos as int, end as int);
                    items@.len() <= run.len() ==> (p == pos + 5 * items@.len() && items@ =~= run.subrange(
                        0,
                        items@.len() as int,
                    ) && block_run(s, p as int, end as int) =~= run.subrange(
                        items@.len() as int,
                        run.len() as int,
                    ))
                }),
                ({
                    let run = block_run(s, pos as int, end as int);
                    let q = pos + 5 * run.len();
                    items@.len() > run.len() ==> (items@.subrange(0, run.len() as int) =~= run && q < end
                        && s.is_word(q, "const"@) && block_key(s, q + 1))
                }),
                block_items_at(s, pos as int, p as int, items@, ks),
            decreases end - p,
        {
            proof {
                let run = block_run(s, pos as int, end as int);
                let n = items@.len() as int;
                if n < run.len() {
                    let rr = block_run(s, p as int, end as int);
                    assert(rr.len() > 0);
                    assert(rr[0] == run[n]);
                    assert(p + 4 < end);
                    match simple_block_entry(s, p as int, end as int) {
                        Some(e) => {
                            assert(rr =~= seq![e] + block_run(s, p + 5, end as int));
                            assert(rr[0] == e);
                            assert(block_run(s, p + 5, end as int) =~= rr.subrange(1, rr.len() as int));
                        },
                        None => {
                            assert(rr.len() == 0);
                        },
                    }
                    assert(simple_block_entry(s, p as int, end as int) == Some(run[n]));
                    assert(block_run(s, p + 5, end as int) =~= run.subrange(n + 1, run.len() as int));
                } else {
                    assert forall|a: int, b: int| 0 <= a < b < run.len() implies block_item_kind(
                        #[trigger] run[a],
                    ) != block_item_kind(#[trigger] run[b]) by {
                        assert(run[a] == items@[a]);
                        assert(run[b] == items@[b]);
                    }
                }
            }
            let k = p + 1;
            if word(s, k, end, "ADDRESS_OFFSET") {
                if has_block_kind(&items, 0) {
                    return Err(fail(s, k, end, "duplicate item found"));
                }
                let (v, q) = int_entry(s, k + 1, end)?;
                proof {
                    assert(block_item_spelled(s, p as int, BlockItem::AddressOffset(v)));
                    ks = ks.push(p as int);
                }
                items.push(BlockItem::AddressOffset(v));
                p = q;
            } else if word(s, k, end, "REPEAT") {
                if has_block_kind(&items, 1) {
                    return Err(fail(s, k, end, "duplicate item found"));
                }
                let (v, q) = Repeat::parse(s, k, end)?;
                proof {
                    assert(block_item_spelled(s, p as int, BlockItem::Repeat(v)));
                    ks = ks.push(p as int);
                }
                items.push(BlockItem::Repeat(v));
                p = q;
            } else {
                return Err(fail(s, k, end, "Invalid value. Must be an `ADDRESS_OFFSET` or `REPEAT`"));
            }
        }
        assert(block_items_at(s, pos as int, p as int, items@, ks));
        assert(!(p < end && s.is_word(p as int, "const"@)));
        proof {
            let run = block_run(s, pos as int, end as int);
            if items@.len() >= run.len() {
                assert forall|a: int, b: int| 0 <= a < b < run.len() implies block_item_kind(
                    #[trigger] run[a],
                ) != block_item_kind(#[trigger] run[b]) by {
                    assert(run[a] == items@[a]);
                    assert(run[b] == items@[b]);
                }
            } else {
                let rr = block_run(s, p as int, end as int);
                assert(rr.len() > 0);
                assert(p + 4 < end);
                match simple_block_entry(s, p as int, end as int) {
                    Some(e) => {},
                    None => {
                        assert(rr.len() == 0);
                    },
                }
            }
        }
        assert(block_items_unique(items@));
        assert(block_items_at(s, pos as int, p as int, items@, ks));
        assert(block_items_spelled(s, pos as int, p as int, items@));
        Ok((BlockItemList { block_items: items }, p))
    }

    /// Reads a whole text.
    pub fn parse_str(text: &str) -> (r: Result<BlockItemList, ParseError>)
        ensures
            r matches Ok(v) ==> exists|s: Src|
                s.wf() && s.chars@ == text@ && block_items_unique(v.block_items@),
    {
        let s = Src::new(text)?;
        let out = finish(&s, BlockItemList::parse(&s, 0, s.tokens.len()));
        assert(out matches Ok(v) ==> s.wf() && s.chars@ == text@ && block_items_unique(v.block_items@));
        out
    }
}

/// The character `a` is `l`, or the upper case letter of the lower case `l`.
pub open spec fn same_letter(a: char, l: char) -> bool {
    a == l || ('A' <= a && a <= 'Z' && a as u32 as int + 32 == l as u32 as int)
}

/// Token `pos` spells `w` when upper case letters are read as lower case
/// ones.
pub open spec fn spells_ignoring_case(s: &Src, pos: usize, end: usize, w: Seq<char>) -> bool {
    &&& pos < end
    &&& s.tokens@[pos as int].kind == TokenKind::Ident
    &&& s.spelling(pos as int).len() == w.len()
    &&& forall|k: int| 0 <= k < w.len() ==> same_letter(#[trigger] s.spelling(pos as int)[k], w[k])
}

/// Whether token `pos` spells `w` when upper case letters are read as lower
/// case ones; `w` is written in lower case.
fn word_ignoring_case(s: &Src, pos: usize, end: usize, w: &str) -> (r: bool)
    requires
        s.wf(),
        end <= s.tokens@.len(),
    ensures
        r == spells_ignoring_case(s, pos, end, w@),
{
    if !kind_is(s, pos, end, TokenKind::Ident) {
        return false;
    }
    let t = s.tokens[pos];
    assert(s.tokens@[pos as int].start <= s.tokens@[pos as int].end);
    let n = w.unicode_len();
    if t.end - t.start != n {
        return false;
    }
    let mut k: usize = 0;
    while k < n
        invariant
            s.wf(),
            pos < end <= s.tokens@.len(),
            t == s.tokens@[pos as int],
            n == w@.len(),
            t.end - t.start == n,
            t.start <= t.end <= s.chars@.len(),
            k <= n,
            forall|j: int| 0 <= j < k ==> same_letter(#[trigger] s.spelling(pos as int)[j], w@[j]),
        decreases n - k,
    {
        let a = s.chars[t.start + k];
        let l = w.get_char(k);
        assert(s.spelling(pos as int)[k as int] == s.chars@[t.start + k]);
        if !(a == l || ('A' <= a && a <= 'Z' && (a as u32) as u64 + 32 == (l as u32) as u64)) {
            return false;
        }
        k = k + 1;
    }
    true
}

/// The word boundary that token `pos` names, in any case.
pub open spec fn boundary_named_spec(s: &Src, pos: usize, end: usize) -> Option<WordBoundary> {
    if spells_ignoring_case(s, pos, end, "hyphen"@) {
        Some(WordBoundary::Hyphen)
    } else if spells_ignoring_case(s, pos, end, "underscore"@) {
        Some(WordBoundary::Underscore)
    } else if spells_ignoring_case(s, pos, end, "space"@) {
        Some(WordBoundary::Space)
    } else if spells_ignoring_case(s, pos, end, "lowerupper"@) {
        Some(WordBoundary::LowerUpper)
    } else if spells_ignoring_case(s, pos, end, "upperlower"@) {
        Some(WordBoundary::UpperLower)
    } else if spells_ignoring_case(s, pos, end, "digitupper"@) {
        Some(WordBoundary::DigitUpper)
    } else if spells_ignoring_case(s, pos, end, "upperdigit"@) {
        Some(WordBoundary::UpperDigit)
    } else if spells_ignoring_case(s, pos, end, "digitlower"@) {
        Some(WordBoundary::DigitLower)
    } else if spells_ignoring_case(s, pos, end, "lowerdigit"@) {
        Some(WordBoundary::LowerDigit)
    } else if spells_ignoring_case(s, pos, end, "acronym"@) {
        Some(WordBoundary::Acronym)
    } else {
        None
    }
}

/// Some token after `pos` and before `end` names the boundary `b`.
pub open spec fn boundary_named_in(s: &Src, pos: usize, end: usize, b: WordBoundary) -> bool {
    exists|k: usize| pos < k < end && #[trigger] boundary_named_spec(s, k, end) == Some(b)
}

/// The word boundary that token `pos` names, in any case.
fn boundary_named(s: &Src, pos: usize, end: usize) -> (r: Option<WordBoundary>)
    requires
        s.wf(),
        end <= s.tokens@.len(),
    ensures
        r == boundary_named_spec(s, pos, end),
{
    if word_ignoring_case(s, pos, end, "hyphen") {
        Some(WordBoundary::Hyphen)
    } else if word_ignoring_case(s, pos, end, "underscore") {
        Some(WordBoundary::Underscore)
    } else if word_ignoring_case(s, pos, end, "space") {
        Some(WordBoundary::Space)
    } else if word_ignoring_case(s, pos, end, "lowerupper") {
        Some(WordBoundary::LowerUpper)
    } else if word_ignoring_case(s, pos, end, "upperlower") {
        Some(WordBoundary::UpperLower)
    } else if word_ignoring_case(s, pos, end, "digitupper") {
        Some(WordBoundary::DigitUpper)
    } else if word_ignoring_case(s, pos, end, "upperdigit") {
        Some(WordBoundary::UpperDigit)
    } else if word_ignoring_case(s, pos, end, "digitlower") {
        Some(WordBoundary::DigitLower)
    } else if word_ignoring_case(s, pos, end, "lowerdigit") {
        Some(WordBoundary::LowerDigit)
    } else if word_ignoring_case(s, pos, end, "acronym") {
        Some(WordBoundary::Acronym)
    } else {
        None
    }
}

/// Reads the value of `NameWordBoundaries`: a bracketed list of boundary
/// names, or a string whose character pairs show the boundaries.
fn word_boundaries(s: &Src, pos: usize, end: usize) -> (r: Result<(Vec<WordBoundary>, usize), ParseError>)
    requires
        s.wf(),
        pos <= end <= s.tokens@.len(),
    ensures
        r matches Ok((_, p)) ==> pos < p <= end,
        (pos < end && s.tokens@[pos as int].kind == TokenKind::Str) ==> (r matches Ok((_, p)) && p
            == pos + 1),
        r matches Ok((v, _)) ==> (s.tokens@[pos as int].kind == TokenKind::Str ==> v@ == boundaries_in(
            str_value(s, pos as int),
        )),
        r matches Ok((v, _)) ==> (s.tokens@[pos as int].kind != TokenKind::Str ==> forall|i: int|
            0 <= i < v@.len() ==> boundary_named_in(s, pos, end, #[trigger] v@[i])),
{
    if kind_is(s, pos, end, TokenKind::Open(Delim::Bracket)) {
        let (a, close) = group(s, pos, end, Delim::Bracket, "expected square brackets")?;
        let mut out: Vec<WordBoundary> = Vec::new();
        let mut p = a;
        while p < close
            invariant
                s.wf(),
                pos < a <= p <= close,
                close < end <= s.tokens@.len(),
                s.tokens@[pos as int].kind == TokenKind::Open(Delim::Bracket),
                forall|i: int| 0 <= i < out@.len() ==> boundary_named_in(s, pos, end, #[trigger] out@[i]),
            decreases close - p,
        {
            let (name, q) = ident(s, p, close)?;
            match boundary_named(s, p, close) {
                Some(b) => {
                    assert(boundary_named_spec(s, p, end) == boundary_named_spec(s, p, close));
                    let ghost before = out@;
                    out.push(b);
                    assert forall|i: int| 0 <= i < out@.len() implies boundary_named_in(
                        s,
                        pos,
                        end,
                        #[trigger] out@[i],
                    ) by {
                        if i < before.len() {
                            assert(out@[i] == before[i]);
                        } else {
                            assert(pos < p as int && p < end && boundary_named_spec(s, p, end) == Some(out@[i]));
                        }
                    }
                },
                None => {
                    let msg = String::from_str("`").concat(name.as_str()).concat(
                        "` is not a valid boundary name. One of the following was expected: [Hyphen, Underscore, Space, LowerUpper, UpperLower, DigitUpper, UpperDigit, DigitLower, LowerDigit, Acronym]",
                    );
                    return Err(fail(s, p, close, msg.as_str()));
                },
            }
            if q == close {
                p = q;
            } else {
                p = expect_punct(s, q, close, ',', "expected `,`")?;
            }
        }
        Ok((out, close + 1))
    } else if kind_is(s, pos, end, TokenKind::Str) {
        let (text, p) = str_lit(s, pos, end)?;
        Ok((boundaries_from_str(text.as_str()), p))
    } else {
        Err(fail(s, pos, end, "Expected an array of boundaries or a string"))
    }
}

/// The key word of a config entry.
pub open spec fn config_key(c: GlobalConfig) -> Seq<char> {
    match c {
        GlobalConfig::DefaultRegisterAccess(_) => "DefaultRegisterAccess"@,
        GlobalConfig::DefaultFieldAccess(_) => "DefaultFieldAccess"@,
        GlobalConfig::DefaultBufferAccess(_) => "DefaultBufferAccess"@,
        GlobalConfig::DefaultByteOrder(_) => "DefaultByteOrder"@,
        GlobalConfig::DefaultBitOrder(_) => "DefaultBitOrder"@,
        GlobalConfig::RegisterAddressType(_) => "RegisterAddressType"@,
        GlobalConfig::CommandAddressType(_) => "CommandAddressType"@,
        GlobalConfig::BufferAddressType(_) => "BufferAddressType"@,
        GlobalConfig::NameWordBoundaries(_) => "NameWordBoundaries"@,
        GlobalConfig::DefmtFeature(_) => "DefmtFeature"@,
    }
}

/// Token `v` holds the value of the config entry `c`.
pub open spec fn config_value_read(s: &Src, v: usize, end: usize, c: GlobalConfig) -> bool {
    match c {
        GlobalConfig::DefaultRegisterAccess(a) => named_at(s, v, end, |w| access_named(w)) == Some(a),
        GlobalConfig::DefaultFieldAccess(a) => named_at(s, v, end, |w| access_named(w)) == Some(a),
        GlobalConfig::DefaultBufferAccess(a) => named_at(s, v, end, |w| access_named(w)) == Some(a),
        GlobalConfig::DefaultByteOrder(o) => named_at(s, v, end, |w| byte_order_named(w)) == Some(o),
        GlobalConfig::DefaultBitOrder(o) => named_at(s, v, end, |w| bit_order_named(w)) == Some(o),
        GlobalConfig::RegisterAddressType(t) => t@ == s.spelling(v as int),
        GlobalConfig::CommandAddressType(t) => t@ == s.spelling(v as int),
        GlobalConfig::BufferAddressType(t) => t@ == s.spelling(v as int),
        GlobalConfig::NameWordBoundaries(b) => s.tokens@[v as int].kind == TokenKind::Str ==> b@
            == boundaries_in(str_value(s, v as int)),
        GlobalConfig::DefmtFeature(f) => f@ == str_value(s, v as int),
    }
}

/// A well-formed `type Key = Value;` config entry at `k`, inside `end`,
/// with an access, a byte or bit order, or a string as its value.
pub open spec fn config_entry_ok(s: &Src, k: int, end: int) -> bool {
    &&& 0 <= k
    &&& k + 4 < end
    &&& s.is_word(k, "type"@)
    &&& punct_at(s, k + 2, '=')
    &&& punct_at(s, k + 4, ';')
    &&& if s.is_word(k + 1, "DefaultRegisterAccess"@) || s.is_word(k + 1, "DefaultFieldAccess"@)
        || s.is_word(k + 1, "DefaultBufferAccess"@) {
        s.tokens@[k + 3].kind == TokenKind::Ident && access_named(s.spelling(k + 3)) is Some
    } else if s.is_word(k + 1, "DefaultByteOrder"@) {
        s.tokens@[k + 3].kind == TokenKind::Ident && byte_order_named(s.spelling(k + 3)) is Some
    } else if s.is_word(k + 1, "DefaultBitOrder"@) {
        s.tokens@[k + 3].kind == TokenKind::Ident && bit_order_named(s.spelling(k + 3)) is Some
    } else if s.is_word(k + 1, "RegisterAddressType"@) || s.is_word(k + 1, "CommandAddressType"@)
        || s.is_word(k + 1, "BufferAddressType"@) {
        false
    } else if s.is_word(k + 1, "NameWordBoundaries"@) || s.is_word(k + 1, "DefmtFeature"@) {
        s.tokens@[k + 3].kind == TokenKind::Str
    } else {
        false
    }
}

/// How many well-formed config entries follow each other from `k`.
pub open spec fn config_run_len(s: &Src, k: int, c: int) -> nat
    decreases c - k,
{
    if k + 4 < c && config_entry_ok(s, k, c) {
        1 + config_run_len(s, k + 5, c)
    } else {
        0
    }
}

/// At `pos` stands `config { .. }` whose body is well-formed entries only.
pub open spec fn config_block_ok(s: &Src, pos: int, end: int) -> bool {
    let m = s.tokens@[pos + 1].mate as int;
    &&& 0 <= pos
    &&& pos + 1 < end
    &&& s.is_word(pos, "config"@)
    &&& s.tokens@[pos + 1].kind == TokenKind::Open(Delim::Brace)
    &&& pos + 1 < m < end
    &&& pos + 2 + 5 * config_run_len(s, pos + 2, m) == m
}

impl GlobalConfig {
    /// Reads one `type Key = Value;` entry of the `config` block.
    pub fn parse(s: &Src, pos: usize, end: usize) -> (r: Result<(GlobalConfig, usize), ParseError>)
        requires
            s.wf(),
            pos <= end <= s.tokens@.len(),
        ensures
            config_entry_ok(s, pos as int, end as int) ==> (r matches Ok((_, p)) && p == pos + 5),
            r matches Ok((c, p)) ==> pos < p <= end && s.is_word(pos as int, "type"@) && s.is_word(
                pos + 1,
                config_key(c),
            ),
            r matches Ok((c, _)) ==> config_value_read(s, (pos + 3) as usize, end, c),
            (pos < end && s.is_word(pos as int, "type"@) && !s.is_word(pos as int, "const"@) && !(s.is_word(pos + 1, "DefaultRegisterAccess"@) || s.is_word(pos + 1, "DefaultFieldAccess"@) || s.is_word(pos + 1, "DefaultBufferAccess"@) || s.is_word(pos + 1, "DefaultByteOrder"@) || s.is_word(pos + 1, "DefaultBitOrder"@) || s.is_word(pos + 1, "RegisterAddressType"@) || s.is_word(pos + 1, "CommandAddressType"@) || s.is_word(pos + 1, "BufferAddressType"@) || s.is_word(pos + 1, "NameWordBoundaries"@) || s.is_word(pos + 1, "DefmtFeature"@))) ==> (r matches Err(e)
                && e.message@ == fail_text(
                s,
                (pos + 1) as usize,
                end,
                "expected one of: `DefaultRegisterAccess`, `DefaultFieldAccess`, `DefaultBufferAccess`, `DefaultByteOrder`, `DefaultBitOrder`, `RegisterAddressType`, `CommandAddressType`, `BufferAddressType`, `NameWordBoundaries`, `DefmtFeature`"@,
            )),
    {
        let k = expect_word(s, pos, end, "type", "expected `type`")?;
        let v = if k < end {
            k + 1
        } else {
            k
        };
        if word(s, k, end, "DefaultRegisterAccess") || word(s, k, end, "DefaultFieldAccess") || word(
            s,
            k,
            end,
            "DefaultBufferAccess",
        ) {
            let q = expect_punct(s, v, end, '=', "expected `=`")?;
            let (a, q) = Access::parse(s, q, end)?;
            let q = expect_punct(s, q, end, ';', "expected `;`")?;
            let c = if word(s, k, end, "DefaultRegisterAccess") {
                GlobalConfig::DefaultRegisterAccess(a)
            } else if word(s, k, end, "DefaultFieldAccess") {
                GlobalConfig::DefaultFieldAccess(a)
            } else {
                GlobalConfig::DefaultBufferAccess(a)
            };
            Ok((c, q))
        } else if word(s, k, end, "DefaultByteOrder") {
            let q = expect_punct(s, v, end, '=', "expected `=`")?;
            let (o, q) = ByteOrder::parse(s, q, end)?;
            let q = expect_punct(s, q, end, ';', "expected `;`")?;
            Ok((GlobalConfig::DefaultByteOrder(o), q))
        } else if word(s, k, end, "DefaultBitOrder") {
            let q = expect_punct(s, v, end, '=', "expected `=`")?;
            let (o, q) = BitOrder::parse(s, q, end)?;
            let q = expect_punct(s, q, end, ';', "expected `;`")?;
            Ok((GlobalConfig::DefaultBitOrder(o), q))
        } else if word(s, k, end, "RegisterAddressType") || word(s, k, end, "CommandAddressType")
            || word(s, k, end, "BufferAddressType") {
            let q = expect_punct(s, v, end, '=', "expected `=`")?;
            let (t, q) = ident(s, q, end)?;
            let q = expect_punct(s, q, end, ';', "expected `;`")?;
            let c = if word(s, k, end, "RegisterAddressType") {
                GlobalConfig::RegisterAddressType(t)
            } else if word(s, k, end, "CommandAddressType") {
                GlobalConfig::CommandAddressType(t)
            } else {
                GlobalConfig::BufferAddressType(t)
            };
            Ok((c, q))
        } else if word(s, k, end, "NameWordBoundaries") {
            let q = expect_punct(s, v, end, '=', "expected `=`")?;
            let (b, q) = word_boundaries(s, q, end)?;
            let q = expect_punct(s, q, end, ';', "expected `;`")?;
            Ok((GlobalConfig::NameWordBoundaries(b), q))
        } else if word(s, k, end, "DefmtFeature") {
            let q = expect_punct(s, v, end, '=', "expected `=`")?;
            let (f, q) = str_lit(s, q, end)?;
            let q = expect_punct(s, q, end, ';', "expected `;`")?;
            Ok((GlobalConfig::DefmtFeature(f), q))
        } else {
            Err(
                fail(
                    s,
                    k,
                    end,
                    "expected one of: `DefaultRegisterAccess`, `DefaultFieldAccess`, `DefaultBufferAccess`, `DefaultByteOrder`, `DefaultBitOrder`, `RegisterAddressType`, `CommandAddressType`, `BufferAddressType`, `NameWordBoundaries`, `DefmtFeature`",
                ),
            )
        }
    }
}

impl GlobalConfigList {
    /// Reads an optional `config { ... }` block.
    pub fn parse(s: &Src, pos: usize, end: usize) -> (r: Result<(GlobalConfigList, usize), ParseError>)
        requires
            s.wf(),
            pos <= end <= s.tokens@.len(),
        ensures
            config_block_ok(s, pos as int, end as int) ==> (r matches Ok((l, p)) && p == s.tokens@[pos
                + 1].mate + 1 && l.configs@.len() == config_run_len(
                s,
                pos + 2,
                s.tokens@[pos + 1].mate as int,
            ) && forall|i: int|
                0 <= i < l.configs@.len() ==> s.is_word(pos + 2 + 5 * i + 1, config_key(#[trigger] l.configs@[i]))
                    && config_value_read(
                    s,
                    (pos + 2 + 5 * i + 3) as usize,
                    s.tokens@[pos + 1].mate as usize,
                    l.configs@[i],
                )),
            r matches Ok((_, p)) ==> pos <= p <= end,
            !(pos < end && s.is_word(pos as int, "config"@)) ==> (r matches Ok((l, p)) && p == pos
                && l.configs@.len() == 0),
    {
        let mut configs: Vec<GlobalConfig> = Vec::new();
        if !word(s, pos, end, "config") {
            return Ok((GlobalConfigList { configs }, pos));
        }
        let (inner, close) = group(s, pos + 1, end, Delim::Brace, "expected curly braces")?;
        let mut p = inner;
        while p < close
            invariant
                s.wf(),
                inner <= p <= close,
                close < end <= s.tokens@.len(),
                pos < end && s.is_word(pos as int, "config"@),
                inner == pos + 2,
                close == s.tokens@[pos + 1].mate,
                config_block_ok(s, pos as int, end as int) ==> (p == inner + 5 * configs@.len()
                    && configs@.len() + config_run_len(s, p as int, close as int) == config_run_len(
                    s,
                    inner as int,
                    close as int,
                ) && forall|i: int|
                    0 <= i < configs@.len() ==> s.is_word(inner + 5 * i + 1, config_key(#[trigger] configs@[i]))
                        && config_value_read(s, (inner + 5 * i + 3) as usize, close, configs@[i])),
            decreases close - p,
        {
            proof {
                if config_block_ok(s, pos as int, end as int) {
                    assert(config_run_len(s, p as int, close as int) > 0);
                    assert(config_entry_ok(s, p as int, close as int));
                }
            }
            let ghost before = configs@;
            let (c, q) = GlobalConfig::parse(s, p, close)?;
            configs.push(c);
            proof {
                if config_block_ok(s, pos as int, end as int) {
                    assert forall|i: int| 0 <= i < configs@.len() implies s.is_word(
                        inner + 5 * i + 1,
                        config_key(#[trigger] configs@[i]),
                    ) && config_value_read(s, (inner + 5 * i + 3) as usize, close, configs@[i]) by {
                        if i < before.len() {
                            assert(configs@[i] == before[i]);
                        } else {
                            assert(configs@[i] == c);
                            assert(i == before.len());
                        }
                    }
                }
            }
            p = q;
        }
        Ok((GlobalConfigList { configs }, close + 1))
    }

    /// Reads a whole text.
    pub fn parse_str(text: &str) -> (r: Result<GlobalConfigList, ParseError>)
        ensures
            r matches Ok(v) ==> exists|s: Src|
                s.wf() && s.chars@ == text@ && (!(0 < s.tokens@.len() && s.is_word(0, "config"@)) ==> v.configs@.len() == 0),
    {
        let s = Src::new(text)?;
        let out = finish(&s, GlobalConfigList::parse(&s, 0, s.tokens.len()));
        assert(out matches Ok(v) ==> s.wf() && s.chars@ == text@ && (!(0 < s.tokens@.len() && s.is_word(0, "config"@)) ==> v.configs@.len() == 0));
        out
    }
}

/// A name that `ident` accepts at `k`.
pub open spec fn name_at(s: &Src, k: int, end: int) -> bool {
    0 <= k < end && s.tokens@[k].kind == TokenKind::Ident && !reserved_word(s.spelling(k))
}

/// `buffer Name [: Access] [= address]` at `pos`, without attributes.
pub open spec fn buffer_well_formed(s: &Src, pos: int, end: int) -> bool {
    let q = if pos + 2 < end && punct_at(s, pos + 2, ':') {
        pos + 4
    } else {
        pos + 2
    };
    &&& 0 <= pos < end
    &&& s.is_word(pos, "buffer"@)
    &&& name_at(s, pos + 1, end)
    &&& (pos + 2 < end && punct_at(s, pos + 2, ':')) ==> (pos + 3 < end && s.tokens@[pos + 3].kind
        == TokenKind::Ident && access_named(s.spelling(pos + 3)) is Some)
    &&& (q < end && punct_at(s, q, '=')) ==> (q + 1 < end && int_value(s.tokens@[q + 1].kind) is Some)
}

impl Buffer {
    /// Reads `[attributes] buffer Name [: access] [= address]`.
    pub fn parse(s: &Src, pos: usize, end: usize) -> (r: Result<(Buffer, usize), ParseError>)
        requires
            s.wf(),
            pos <= end <= s.tokens@.len(),
        ensures
            buffer_well_formed(s, pos as int, end as int) ==> r is Ok,
            r matches Ok((v, p)) ==> pos < p <= end && (exists|k: int|
                pos <= k && k + 1 < p && s.is_word(k, "buffer"@) && v.identifier@ == s.spelling(k + 1)),
    {
        let (attribute_list, p) = AttributeList::parse(s, pos, end)?;
        let p = expect_word(s, p, end, "buffer", "expected `buffer`")?;
        let (identifier, mut p) = ident(s, p, end)?;
        let access = if punct(s, p, end, ':') {
            let (a, q) = Access::parse(s, p + 1, end)?;
            p = q;
            Some(a)
        } else {
            None
        };
        let address = if punct(s, p, end, '=') {
            let (a, q) = int_lit(s, p + 1, end)?;
            p = q;
            Some(a)
        } else {
            None
        };
        Ok((Buffer { attribute_list, identifier, access, address }, p))
    }

    /// Reads a whole text.
    pub fn parse_str(text: &str) -> (r: Result<Buffer, ParseError>)
        ensures
            r matches Ok(v) ==> exists|s: Src|
                s.wf() && s.chars@ == text@ && exists|k: int| 0 <= k && s.is_word(k, "buffer"@) && v.identifier@ == s.spelling(k + 1),
    {
        let s = Src::new(text)?;
        let out = finish(&s, Buffer::parse(&s, 0, s.tokens.len()));
        assert(out matches Ok(v) ==> s.wf() && s.chars@ == text@ && exists|k: int| 0 <= k && s.is_word(k, "buffer"@) && v.identifier@ == s.spelling(k + 1));
        out
    }
}

/// After `q`, an empty `word { }` section, if there is one.
pub open spec fn past_empty_section(s: &Src, q: int, c: int, w: Seq<char>) -> int {
    if q + 2 < c && s.is_word(q, w) && s.tokens@[q + 1].kind == TokenKind::Open(Delim::Brace)
        && s.tokens@[q + 1].mate == q + 2 {
        q + 3
    } else {
        q
    }
}

/// After `q`, a comma, if there is one.
pub open spec fn past_comma(s: &Src, q: int, c: int) -> int {
    if q < c && punct_at(s, q, ',') {
        q + 1
    } else {
        q
    }
}

/// A braced command body at `pos` with no entries and empty (or no) `in`
/// and `out` sections, but more tokens before its closing brace.
pub open spec fn command_body_has_extra(s: &Src, pos: int, end: int) -> bool {
    let c = s.tokens@[pos].mate as int;
    let inner = pos + 1;
    let a = past_empty_section(s, inner, c, "in"@);
    let b = past_comma(s, a, c);
    let d = past_empty_section(s, b, c, "out"@);
    let e = past_comma(s, d, c);
    &&& 0 <= pos < end
    &&& s.tokens@[pos].kind == TokenKind::Open(Delim::Brace)
    &&& pos < c < end
    &&& !(inner < c && (s.is_word(inner, "type"@) || s.is_word(inner, "const"@)))
    &&& !(a == inner && inner < c && s.is_word(inner, "in"@))
    &&& !(d == b && b < c && s.is_word(b, "out"@))
    &&& e < c
}

impl CommandValue {
    /// Reads `= address`, or a braced body with entries and optional `in`
    /// and `out` field lists.
    pub fn parse(s: &Src, pos: usize, end: usize) -> (r: Result<(CommandValue, usize), ParseError>)
        requires
            s.wf(),
            pos <= end <= s.tokens@.len(),
        ensures
            (punct_at(s, pos as int, '=') && pos + 1 < end && int_value(s.tokens@[pos + 1].kind) is Some)
                ==> (r matches Ok((CommandValue::Basic(v), p)) && p == pos + 2 && int_value(
                s.tokens@[pos + 1].kind,
            ) == Some(v)),
            !punct_at(s, pos as int, '=') && command_body_has_extra(s, pos as int, end as int) ==> (r matches Err(
                e,
            ) && e.message@ == "Did not expect any more tokens"@),
            r matches Ok((v, p)) ==> pos < p <= end && (v matches CommandValue::Extended {
                command_item_list,
                ..
            } ==> command_items_unique(command_item_list.items@)),
    {
        if punct(s, pos, end, '=') {
            let (v, p) = int_lit(s, pos + 1, end)?;
            return Ok((CommandValue::Basic(v), p));
        }
        let (inner, close) = group(s, pos, end, Delim::Brace, "expected curly braces")?;
        let (command_item_list, mut p) = CommandItemList::parse(s, inner, close)?;
        let in_field_list = if word(s, p, close, "in") {
            let (a, c) = group(s, p + 1, close, Delim::Brace, "expected curly braces")?;
            let (f, _) = FieldList::parse(s, a, c)?;
            p = c + 1;
            Some(f)
        } else {
            None
        };
        if punct(s, p, close, ',') {
            p = p + 1;
        }
        let out_field_list = if word(s, p, close, "out") {
            let (a, c) = group(s, p + 1, close, Delim::Brace, "expected curly braces")?;
            let (f, _) = FieldList::parse(s, a, c)?;
            p = c + 1;
            Some(f)
        } else {
            None
        };
        if punct(s, p, close, ',') {
            p = p + 1;
        }
        if p != close {
            return Err(fail(s, p, close, "Did not expect any more tokens"));
        }
        Ok((CommandValue::Extended { command_item_list, in_field_list, out_field_list }, close + 1))
    }
}

/// `command Name` or `command Name = address` at `pos` up to `end`, without
/// attributes.
pub open spec fn short_command_well_formed(s: &Src, pos: int, end: int) -> bool {
    &&& 0 <= pos < end
    &&& s.is_word(pos, "command"@)
    &&& name_at(s, pos + 1, end)
    &&& (pos + 2 == end || (punct_at(s, pos + 2, '=') && pos + 3 < end && int_value(
        s.tokens@[pos + 3].kind,
    ) is Some))
}

impl Command {
    /// Reads `[attributes] command Name [value]`; the value is read when
    /// any token follows the name.
    pub fn parse(s: &Src, pos: usize, end: usize) -> (r: Result<(Command, usize), ParseError>)
        requires
            s.wf(),
            pos <= end <= s.tokens@.len(),
        ensures
            short_command_well_formed(s, pos as int, end as int) ==> r is Ok,
            r matches Ok((v, p)) ==> pos < p <= end && (exists|k: int|
                pos <= k && k + 1 < p && s.is_word(k, "command"@) && v.identifier@ == s.spelling(k + 1)),
    {
        let (attribute_list, p) = AttributeList::parse(s, pos, end)?;
        let p = expect_word(s, p, end, "command", "expected `command`")?;
        let (identifier, p) = ident(s, p, end)?;
        if p < end {
            let (v, q) = CommandValue::parse(s, p, end)?;
            Ok((Command { attribute_list, identifier, value: Some(v) }, q))
        } else {
            Ok((Command { attribute_list, identifier, value: None }, p))
        }
    }

    /// Reads a whole text.
    pub fn parse_str(text: &str) -> (r: Result<Command, ParseError>)
        ensures
            r matches Ok(v) ==> exists|s: Src|
                s.wf() && s.chars@ == text@ && exists|k: int| 0 <= k && s.is_word(k, "command"@) && v.identifier@ == s.spelling(k + 1),
    {
        let s = Src::new(text)?;
        let out = finish(&s, Command::parse(&s, 0, s.tokens.len()));
        assert(out matches Ok(v) ==> s.wf() && s.chars@ == text@ && exists|k: int| 0 <= k && s.is_word(k, "command"@) && v.identifier@ == s.spelling(k + 1));
        out
    }
}

/// `register Name { entries }` at `pos`, without attributes, whose body is
/// fixed-shape entries of distinct kinds and no fields.
pub open spec fn register_entries_only(s: &Src, pos: int, end: int) -> bool {
    let m = s.tokens@[pos + 2].mate as int;
    &&& 0 <= pos
    &&& pos + 2 < end
    &&& s.is_word(pos, "register"@)
    &&& name_at(s, pos + 1, end)
    &&& s.tokens@[pos + 2].kind == TokenKind::Open(Delim::Brace)
    &&& pos + 2 < m < end
    &&& register_items_unique(register_run(s, pos + 3, m))
    &&& pos + 3 + 5 * register_run(s, pos + 3, m).len() == m
}

impl Register {
    /// Reads `[attributes] register Name { entries fields }`.
    pub fn parse(s: &Src, pos: usize, end: usize) -> (r: Result<(Register, usize), ParseError>)
        requires
            s.wf(),
            pos <= end <= s.tokens@.len(),
        ensures
            register_entries_only(s, pos as int, end as int) ==> (r matches Ok((v, p)) && p == s.tokens@[pos
                + 2].mate + 1 && v.register_item_list.register_items@ == register_run(
                s,
                pos + 3,
                s.tokens@[pos + 2].mate as int,
            ) && v.field_list.fields@.len() == 0),
            r matches Ok((v, p)) ==> pos < p <= end && register_items_unique(
                v.register_item_list.register_items@,
            ) && (exists|k: int|
                pos <= k && k + 1 < p && s.is_word(k, "register"@) && v.identifier@ == s.spelling(
                    k + 1,
                )),
    {
        let (attribute_list, p) = AttributeList::parse(s, pos, end)?;
        let p = expect_word(s, p, end, "register", "expected `register`")?;
        let (identifier, p) = ident(s, p, end)?;
        let (inner, close) = group(s, p, end, Delim::Brace, "expected curly braces")?;
        let (register_item_list, q) = RegisterItemList::parse(s, inner, close)?;
        let (field_list, _) = FieldList::parse(s, q, close)?;
        Ok((Register { attribute_list, identifier, register_item_list, field_list }, close + 1))
    }

    /// Reads a whole text.
    pub fn parse_str(text: &str) -> (r: Result<Register, ParseError>)
        ensures
            r matches Ok(v) ==> exists|s: Src|
                s.wf() && s.chars@ == text@ && exists|k: int| 0 <= k && s.is_word(k, "register"@) && v.identifier@ == s.spelling(k + 1),
    {
        let s = Src::new(text)?;
        let out = finish(&s, Register::parse(&s, 0, s.tokens.len()));
        assert(out matches Ok(v) ==> s.wf() && s.chars@ == text@ && exists|k: int| 0 <= k && s.is_word(k, "register"@) && v.identifier@ == s.spelling(k + 1));
        out
    }
}

/// `block Name { entries }` at `pos`, without attributes, whose body is
/// `ADDRESS_OFFSET` entries of distinct kinds and no objects.
pub open spec fn block_entries_only(s: &Src, pos: int, end: int) -> bool {
    let m = s.tokens@[pos + 2].mate as int;
    &&& 0 <= pos
    &&& pos + 2 < end
    &&& s.is_word(pos, "block"@)
    &&& name_at(s, pos + 1, end)
    &&& s.tokens@[pos + 2].kind == TokenKind::Open(Delim::Brace)
    &&& pos + 2 < m < end
    &&& block_items_unique(block_run(s, pos + 3, m))
    &&& pos + 3 + 5 * block_run(s, pos + 3, m).len() == m
}

impl Block {
    /// Reads `[attributes] block Name { entries objects }`.
    pub fn parse(s: &Src, pos: usize, end: usize) -> (r: Result<(Block, usize), ParseError>)
        requires
            s.wf(),
            pos <= end <= s.tokens@.len(),
        ensures
            block_entries_only(s, pos as int, end as int) ==> (r matches Ok((v, p)) && p == s.tokens@[pos
                + 2].mate + 1 && v.block_item_list.block_items@ == block_run(
                s,
                pos + 3,
                s.tokens@[pos + 2].mate as int,
            ) && v.object_list.objects@.len() == 0),
            r matches Ok((v, p)) ==> pos < p <= end && (exists|k: int|
                pos <= k && k + 1 < p && s.is_word(k, "block"@) && v.identifier@ == s.spelling(k + 1)),
        decreases end - pos, 0nat,
    {
        let (attribute_list, p) = AttributeList::parse(s, pos, end)?;
        let p = expect_word(s, p, end, "block", "expected `block`")?;
        let (identifier, p) = ident(s, p, end)?;
        let (inner, close) = group(s, p, end, Delim::Brace, "expected curly braces")?;
        let (block_item_list, q) = BlockItemList::parse(s, inner, close)?;
        let (object_list, _) = ObjectList::parse(s, q, close)?;
        Ok((Block { attribute_list, identifier, block_item_list, object_list }, close + 1))
    }

    /// Reads a whole text.
    pub fn parse_str(text: &str) -> (r: Result<Block, ParseError>)
        ensures
            r matches Ok(v) ==> exists|s: Src|
                s.wf() && s.chars@ == text@ && exists|k: int| 0 <= k && s.is_word(k, "block"@) && v.identifier@ == s.spelling(k + 1),
    {
        let s = Src::new(text)?;
        let out = finish(&s, Block::parse(&s, 0, s.tokens.len()));
        assert(out matches Ok(v) ==> s.wf() && s.chars@ == text@ && exists|k: int| 0 <= k && s.is_word(k, "block"@) && v.identifier@ == s.spelling(k + 1));
        out
    }
}

impl RefObject {
    /// Reads `[attributes] ref Name = <object>`.
    pub fn parse(s: &Src, pos: usize, end: usize) -> (r: Result<(RefObject, usize), ParseError>)
        requires
            s.wf(),
            pos <= end <= s.tokens@.len(),
        ensures
            r matches Ok((v, p)) ==> pos < p <= end && (exists|k: int|
                pos <= k && k + 1 < p && s.is_word(k, "ref"@) && v.identifier@ == s.spelling(k + 1)),
        decreases end - pos, 0nat,
    {
        let (attribute_list, p) = AttributeList::parse(s, pos, end)?;
        let p = expect_word(s, p, end, "ref", "expected `ref`")?;
        let (identifier, p) = ident(s, p, end)?;
        let p = expect_punct(s, p, end, '=', "expected `=`")?;
        let (object, q) = Object::parse(s, p, end)?;
        Ok((RefObject { attribute_list, identifier, object: Box::new(object) }, q))
    }

    /// Reads a whole text.
    pub fn parse_str(text: &str) -> (r: Result<RefObject, ParseError>)
        ensures
            r matches Ok(v) ==> exists|s: Src|
                s.wf() && s.chars@ == text@ && exists|k: int| 0 <= k && s.is_word(k, "ref"@) && v.identifier@ == s.spelling(k + 1),
    {
        let s = Src::new(text)?;
        let out = finish(&s, RefObject::parse(&s, 0, s.tokens.len()));
        assert(out matches Ok(v) ==> s.wf() && s.chars@ == text@ && exists|k: int| 0 <= k && s.is_word(k, "ref"@) && v.identifier@ == s.spelling(k + 1));
        out
    }
}

impl Object {
    /// Reads one object; its keyword, after any attributes, tells which.
    pub fn parse(s: &Src, pos: usize, end: usize) -> (r: Result<(Object, usize), ParseError>)
        requires
            s.wf(),
            pos <= end <= s.tokens@.len(),
        ensures
            block_entries_only(s, pos as int, end as int) ==> r is Ok,
            (!s.is_word(pos as int, "block"@) && register_entries_only(s, pos as int, end as int)) ==> r is Ok,
            (!s.is_word(pos as int, "block"@) && !s.is_word(pos as int, "register"@)
                && short_command_well_formed(s, pos as int, end as int)) ==> r is Ok,
            (!s.is_word(pos as int, "block"@) && !s.is_word(pos as int, "register"@) && !s.is_word(
                pos as int,
                "command"@,
            ) && buffer_well_formed(s, pos as int, end as int)) ==> r is Ok,
            (pos < end && s.tokens@[pos as int].kind == TokenKind::Ident && !(s.is_word(pos as int, "block"@) || s.is_word(pos as int, "register"@) || s.is_word(pos as int, "command"@) || s.is_word(pos as int, "buffer"@) || s.is_word(pos as int, "ref"@))) ==> (r matches Err(
                e,
            ) && e.message@ == fail_text(
                s,
                pos,
                end,
                "expected one of: `block`, `register`, `command`, `buffer`, `ref`"@,
            )),
            r matches Ok((_, p)) ==> pos < p <= end,
        decreases end - pos, 1nat,
    {
        let k = skip_attributes(s, pos, end);
        if word(s, k, end, "block") {
            let (v, p) = Block::parse(s, pos, end)?;
            Ok((Object::Block(v), p))
        } else if word(s, k, end, "register") {
            let (v, p) = Register::parse(s, pos, end)?;
            Ok((Object::Register(v), p))
        } else if word(s, k, end, "command") {
            let (v, p) = Command::parse(s, pos, end)?;
            Ok((Object::Command(v), p))
        } else if word(s, k, end, "buffer") {
            let (v, p) = Buffer::parse(s, pos, end)?;
            Ok((Object::Buffer(v), p))
        } else if word(s, k, end, "ref") {
            let (v, p) = RefObject::parse(s, pos, end)?;
            Ok((Object::Ref(v), p))
        } else {
            Err(fail(s, k, end, "expected one of: `block`, `register`, `command`, `buffer`, `ref`"))
        }
    }

    /// Reads a whole text.
    pub fn parse_str(text: &str) -> (r: Result<Object, ParseError>)
        ensures
            r matches Ok(v) ==> exists|s: Src|
                s.wf() && s.chars@ == text@,
    {
        let s = Src::new(text)?;
        let out = finish(&s, Object::parse(&s, 0, s.tokens.len()));
        assert(out matches Ok(v) ==> s.wf() && s.chars@ == text@);
        out
    }
}

impl ObjectList {
    /// Reads comma separated objects up to `end`; a trailing comma is allowed.
    pub fn parse(s: &Src, pos: usize, end: usize) -> (r: Result<(ObjectList, usize), ParseError>)
        requires
            s.wf(),
            pos <= end <= s.tokens@.len(),
        ensures
            r matches Ok((_, p)) ==> p == end,
            pos == end ==> (r matches Ok((v, p)) && v.objects@.len() == 0),
        decreases end - pos, 2nat,
    {
        let mut objects: Vec<Object> = Vec::new();
        let mut p = pos;
        while p < end
            invariant
                s.wf(),
                pos <= p <= end,
                end <= s.tokens@.len(),
                p == pos ==> objects@.len() == 0,
            decreases end - p,
        {
            let (o, q) = Object::parse(s, p, end)?;
            objects.push(o);
            if q == end {
                p = q;
            } else {
                p = expect_punct(s, q, end, ',', "expected `,`")?;
            }
        }
        Ok((ObjectList { objects }, p))
    }
}

impl Device {
    /// Reads a whole description: an optional `config` block, then objects.
    pub fn parse(s: &Src) -> (r: Result<Device, ParseError>)
        requires
            s.wf(),
        ensures
            r matches Ok(d) ==> (!s.is_word(0, "config"@) ==> d.global_config_list.configs@.len()
                == 0),
            s.tokens@.len() == 0 ==> (r matches Ok(d) && d.global_config_list.configs@.len() == 0
                && d.object_list.objects@.len() == 0),
    {
        let n = s.tokens.len();
        let (global_config_list, p) = GlobalConfigList::parse(s, 0, n)?;
        let (object_list, _) = ObjectList::parse(s, p, n)?;
        Ok(Device { global_config_list, object_list })
    }

    /// Reads a whole text.
    pub fn parse_str(text: &str) -> (r: Result<Device, ParseError>)
        ensures
            r matches Ok(d) ==> exists|s: Src|
                s.wf() && s.chars@ == text@ && (!s.is_word(0, "config"@)
                    ==> d.global_config_list.configs@.len() == 0),
    {
        let s = Src::new(text)?;
        let out = Device::parse(&s);
        assert(out matches Ok(d) ==> s.wf() && s.chars@ == text@ && (!s.is_word(0, "config"@)
            ==> d.global_config_list.configs@.len() == 0));
        out
    }
}

} // verus!
