//! Atoms, strings and literals.
use vstd::prelude::*;

use crate::ascii;
use crate::ascii::{is_astring_char, is_atom_char, is_text_byte};
use crate::encode;
use crate::encode::{EncodeContext, EncodeIntoContext, LiteralMode, Token};
use crate::grammar as g;
use crate::grammar::{
    tag, tag_no_case, take_while1, IMAPErrorKind, IMAPParseError, IMAPResult, Outcome, Rule,
};
use crate::number;
use crate::number::{number64, write_number};
use crate::reading;
use crate::utf8;

verus! {

/// A string with the form that it has on the wire.
pub enum StringView {
    Atom(Seq<u8>),
    Quoted(Seq<u8>),
    Literal(Seq<u8>, LiteralMode),
}

impl StringView {
    /// The value of the string, whatever its form.
    pub open spec fn bytes(self) -> Seq<u8> {
        match self {
            StringView::Atom(b) => b,
            StringView::Quoted(b) => b,
            StringView::Literal(b, _) => b,
        }
    }
}

pub open spec fn atom_wf(b: Seq<u8>) -> bool {
    b.len() > 0 && ascii::all_bytes(b, |x: u8| is_atom_char(x))
}

pub open spec fn quoted_wf(b: Seq<u8>) -> bool {
    ascii::all_bytes(b, |x: u8| is_text_byte(x)) && vstd::utf8::valid_utf8(b)
}

pub open spec fn literal_wf(b: Seq<u8>) -> bool {
    !b.contains(0) && b.len() <= u64::MAX
}

/// A string that the grammar can express in the form that it has.
pub open spec fn string_wf(v: StringView) -> bool {
    match v {
        StringView::Atom(b) => b.len() > 0 && ascii::all_bytes(b, |x: u8| is_astring_char(x)),
        StringView::Quoted(b) => quoted_wf(b),
        StringView::Literal(b, _) => literal_wf(b),
    }
}

/// A string in quotes or a literal.
pub open spec fn istring_wf(s: StringView) -> bool {
    string_wf(s) && !(s is Atom)
}

pub open spec fn nstring_wf(s: Option<StringView>) -> bool {
    s matches Some(s) ==> istring_wf(s)
}

// ----------------------------------------------------------------------- rules

/// `atom = 1*ATOM-CHAR`.
#[verifier::opaque]
pub open spec fn atom_rule() -> Rule<Seq<u8>> {
    g::take_while1_rule(|b: u8| is_atom_char(b))
}

/// A backslash or a double quote.
pub open spec fn is_quoted_special(b: u8) -> bool {
    b == '"' as u8 || b == '\\' as u8
}

pub open spec fn prepend(b: u8, o: Outcome<Seq<u8>>) -> Outcome<Seq<u8>> {
    match o {
        Outcome::Done(r, v) => Outcome::Done(r, seq![b] + v),
        _ => o,
    }
}

/// The rest of a quoted string behind its opening quote.
pub open spec fn quoted_body(s: Seq<u8>) -> Outcome<Seq<u8>>
    decreases s.len(),
{
    if s.len() == 0 {
        Outcome::More(None)
    } else if s[0] == '"' as u8 {
        Outcome::Done(s.skip(1), seq![])
    } else if s[0] == '\\' as u8 {
        if s.len() < 2 {
            Outcome::More(None)
        } else if is_quoted_special(s[1]) {
            prepend(s[1], quoted_body(s.skip(2)))
        } else {
            Outcome::Reject
        }
    } else if is_text_byte(s[0]) {
        prepend(s[0], quoted_body(s.skip(1)))
    } else {
        Outcome::Reject
    }
}

/// `quoted = DQUOTE *QUOTED-CHAR DQUOTE`, well-formed UTF-8.
#[verifier::opaque]
pub open spec fn quoted_rule() -> Rule<Seq<u8>> {
    g::verify(
        g::preceded(g::text("\""), |s: Seq<u8>| quoted_body(s)),
        |b: Seq<u8>| vstd::utf8::valid_utf8(b),
    )
}

pub open spec fn announcement_rule() -> Rule<(u64, LiteralMode)> {
    g::terminated(
        g::delimited(
            g::text("{"),
            g::pair(
                number::number64_rule(),
                g::mapped(
                    g::opt(g::text("+")),
                    |plus: Option<()>|
                        if plus is Some {
                            LiteralMode::NonSync
                        } else {
                            LiteralMode::Sync
                        },
                ),
            ),
            g::text("}"),
        ),
        g::text("\r\n"),
    )
}

/// The data of a literal. The input that ends right here announces it.
pub open spec fn literal_data_rule(length: u64, mode: LiteralMode, binary: bool) -> Rule<
    StringView,
> {
    |s: Seq<u8>|
        if s.len() == 0 {
            Outcome::More(Some(length))
        } else if s.len() < length {
            Outcome::More(None)
        } else if !binary && s.take(length as int).contains(0) {
            Outcome::Abort(IMAPErrorKind::LiteralContainsNull)
        } else {
            Outcome::Done(
                s.skip(length as int),
                StringView::Literal(s.take(length as int), mode),
            )
        }
}

/// `literal = "{" number64 ["+"] "}" CRLF *CHAR8`.
#[verifier::opaque]
pub open spec fn literal_rule() -> Rule<StringView> {
    g::chain(
        announcement_rule(),
        |a: (u64, LiteralMode)| literal_data_rule(a.0, a.1, false),
    )
}

/// `literal8 = "~{" number64 ["+"] "}" CRLF *OCTET`.
#[verifier::opaque]
pub open spec fn literal8_rule() -> Rule<StringView> {
    g::preceded(
        g::text("~"),
        g::chain(
            announcement_rule(),
            |a: (u64, LiteralMode)| literal_data_rule(a.0, a.1, true),
        ),
    )
}

/// `string = quoted / literal`.
#[verifier::opaque]
pub open spec fn string_rule() -> Rule<StringView> {
    g::alt(g::mapped(quoted_rule(), |b: Seq<u8>| StringView::Quoted(b)), literal_rule())
}

/// `astring = 1*ASTRING-CHAR / string`.
#[verifier::opaque]
pub open spec fn astring_rule() -> Rule<StringView> {
    g::alt(
        g::mapped(
            g::take_while1_rule(|b: u8| is_astring_char(b)),
            |b: Seq<u8>| StringView::Atom(b),
        ),
        string_rule(),
    )
}

/// `nstring = string / nil`.
#[verifier::opaque]
pub open spec fn nstring_rule() -> Rule<Option<StringView>> {
    g::alt(
        g::mapped(string_rule(), |v: StringView| Some(v)),
        g::value(None, g::word("NIL")),
    )
}

/// `charset = atom / quoted`.
#[verifier::opaque]
pub open spec fn charset_rule() -> Rule<StringView> {
    g::alt(
        g::mapped(atom_rule(), |b: Seq<u8>| StringView::Atom(b)),
        g::mapped(quoted_rule(), |b: Seq<u8>| StringView::Quoted(b)),
    )
}

// ------------------------------------------------------------------- encodings

/// Each quoted special with a backslash in front of it.
pub open spec fn escaped(b: Seq<u8>) -> Seq<u8>
    decreases b.len(),
{
    if b.len() == 0 {
        seq![]
    } else if is_quoted_special(b[0]) {
        seq!['\\' as u8, b[0]] + escaped(b.skip(1))
    } else {
        seq![b[0]] + escaped(b.skip(1))
    }
}

pub open spec fn quoted_text(b: Seq<u8>) -> Seq<u8> {
    ascii::bytes_of("\"") + escaped(b) + ascii::bytes_of("\"")
}

pub open spec fn announcement_text(length: nat, mode: LiteralMode) -> Seq<u8> {
    ascii::bytes_of("{") + number::decimal(length) + (if mode == LiteralMode::NonSync {
        ascii::bytes_of("+")
    } else {
        seq![]
    }) + ascii::bytes_of("}") + ascii::bytes_of("\r\n")
}

pub open spec fn literal_tokens(b: Seq<u8>, mode: LiteralMode) -> Seq<Token> {
    encode::plain(announcement_text(b.len(), mode)) + seq![Token::Literal(b, mode)]
}

#[verifier::opaque]
pub open spec fn string_tokens(v: StringView) -> Seq<Token> {
    match v {
        StringView::Atom(b) => encode::plain(b),
        StringView::Quoted(b) => encode::plain(quoted_text(b)),
        StringView::Literal(b, mode) => literal_tokens(b, mode),
    }
}

pub open spec fn nstring_tokens(v: Option<StringView>) -> Seq<Token> {
    match v {
        Some(v) => string_tokens(v),
        None => encode::word("NIL"),
    }
}


// ---------------------------------------------------------------------- lemmas

proof fn lemma_quoted_body_lawful()
    ensures
        g::lawful(|s: Seq<u8>| quoted_body(s)),
{
    let p = |s: Seq<u8>| quoted_body(s);
    assert forall|s: Seq<u8>| g::is_rest(#[trigger] p(s), s) by {
        lemma_quoted_body_rest(s);
    }
    assert forall|s: Seq<u8>, t: Seq<u8>| !(p(s) is More) implies #[trigger] p(s + t)
        == g::extended(p(s), t) by {
        lemma_quoted_body_extended(s, t);
    }
}

proof fn lemma_quoted_body_rest(s: Seq<u8>)
    ensures
        g::is_rest(quoted_body(s), s),
    decreases s.len(),
{
    if s.len() == 0 || s[0] == '"' as u8 {
    } else if s[0] == '\\' as u8 {
        if s.len() >= 2 && is_quoted_special(s[1]) {
            lemma_quoted_body_rest(s.skip(2));
            if let Outcome::Done(r, v) = quoted_body(s.skip(2)) {
                assert(r =~= s.skip(s.len() - r.len()));
            }
        }
    } else if is_text_byte(s[0]) {
        lemma_quoted_body_rest(s.skip(1));
        if let Outcome::Done(r, v) = quoted_body(s.skip(1)) {
            assert(r =~= s.skip(s.len() - r.len()));
        }
    }
}

proof fn lemma_quoted_body_extended(s: Seq<u8>, t: Seq<u8>)
    requires
        !(quoted_body(s) is More),
    ensures
        quoted_body(s + t) == g::extended(quoted_body(s), t),
    decreases s.len(),
{
    assert((s + t)[0] == s[0]);
    if s[0] == '"' as u8 {
        assert((s + t).skip(1) =~= s.skip(1) + t);
    } else if s[0] == '\\' as u8 {
        assert((s + t)[1] == s[1]);
        if is_quoted_special(s[1]) {
            lemma_quoted_body_extended(s.skip(2), t);
            assert((s + t).skip(2) =~= s.skip(2) + t);
        }
    } else if is_text_byte(s[0]) {
        lemma_quoted_body_extended(s.skip(1), t);
        assert((s + t).skip(1) =~= s.skip(1) + t);
    }
}

proof fn lemma_literal_data_lawful(length: u64, mode: LiteralMode, binary: bool)
    ensures
        g::lawful(literal_data_rule(length, mode, binary)),
{
    let p = literal_data_rule(length, mode, binary);
    let n = length as int;
    assert forall|s: Seq<u8>, t: Seq<u8>| !(p(s) is More) implies #[trigger] p(s + t)
        == g::extended(p(s), t) by {
        assert((s + t).take(n) =~= s.take(n));
        assert((s + t).skip(n) =~= s.skip(n) + t);
    }
}

/// Strings are streaming rules: no further input changes what was read.
pub proof fn lemma_strings_lawful()
    ensures
        g::lawful(atom_rule()),
        g::lawful(quoted_rule()),
        g::lawful(literal_rule()),
        g::lawful(literal8_rule()),
        g::lawful(string_rule()),
        g::lawful(astring_rule()),
        g::lawful(nstring_rule()),
        g::lawful(charset_rule()),
{
    broadcast use g::group_lawful;

    reveal(atom_rule);
    reveal(quoted_rule);
    reveal(literal_rule);
    reveal(literal8_rule);
    reveal(string_rule);
    reveal(astring_rule);
    reveal(nstring_rule);
    reveal(charset_rule);
    lemma_quoted_body_lawful();
    number::lemma_numbers_lawful();
    assert(g::lawful(announcement_rule()));
    let f = |a: (u64, LiteralMode)| literal_data_rule(a.0, a.1, false);
    let f8 = |a: (u64, LiteralMode)| literal_data_rule(a.0, a.1, true);
    assert forall|a: (u64, LiteralMode)| g::lawful(#[trigger] f(a)) by {
        lemma_literal_data_lawful(a.0, a.1, false);
    }
    assert forall|a: (u64, LiteralMode)| g::lawful(#[trigger] f8(a)) by {
        lemma_literal_data_lawful(a.0, a.1, true);
    }
}

pub proof fn lemma_atom_reads(b: Seq<u8>)
    requires
        atom_wf(b),
    ensures
        reading::reads(atom_rule(), b, b),
{
    reveal(atom_rule);
    assert forall|t: Seq<u8>| reading::ends(t) implies #[trigger] atom_rule()(b + t)
        == Outcome::Done(t, b) by {
        reading::lemma_take_while1_reads(|x: u8| is_atom_char(x), b, t);
    }
}

proof fn lemma_quoted_body_reads(b: Seq<u8>, t: Seq<u8>)
    requires
        ascii::all_bytes(b, |x: u8| is_text_byte(x)),
    ensures
        quoted_body(escaped(b) + (ascii::bytes_of("\"") + t)) == Outcome::Done(t, b),
    decreases b.len(),
{
    reveal_strlit("\"");
    let end = ascii::bytes_of("\"") + t;
    let s = escaped(b) + end;
    if b.len() == 0 {
        assert(s =~= end);
        assert(end[0] == '"' as u8);
        assert(end.skip(1) =~= t);
        assert(b =~= seq![]);
    } else {
        let c = b.skip(1);
        assert(ascii::all_bytes(c, |x: u8| is_text_byte(x))) by {
            assert forall|i: int| 0 <= i < c.len() implies is_text_byte(#[trigger] c[i]) by {
                assert(c[i] == b[i + 1]);
            }
        }
        lemma_quoted_body_reads(c, t);
        assert(is_text_byte(b[0]));
        if is_quoted_special(b[0]) {
            assert(s[0] == '\\' as u8);
            assert(s[1] == b[0]);
            assert(s.skip(2) =~= escaped(c) + end);
        } else {
            assert(s[0] == b[0]);
            assert(s.skip(1) =~= escaped(c) + end);
        }
        assert(seq![b[0]] + c =~= b);
    }
}

pub proof fn lemma_quoted_reads(b: Seq<u8>, t: Seq<u8>)
    requires
        quoted_wf(b),
    ensures
        quoted_rule()(quoted_text(b) + t) == Outcome::Done(t, b),
{
    reveal(quoted_rule);
    lemma_quoted_body_reads(b, t);
    let q = ascii::bytes_of("\"");
    assert(quoted_text(b) + t =~= q + (escaped(b) + (q + t)));
    reading::lemma_tag_reads(q, escaped(b) + (q + t));
}

pub proof fn lemma_announcement_reads(length: u64, mode: LiteralMode, t: Seq<u8>)
    ensures
        announcement_rule()(announcement_text(length as nat, mode) + t) == Outcome::Done(
            t,
            (length, mode),
        ),
{
    reveal_strlit("{");
    reveal_strlit("+");
    reveal_strlit("}");
    reveal_strlit("\r\n");
    let open = ascii::bytes_of("{");
    let plus = ascii::bytes_of("+");
    let close = ascii::bytes_of("}");
    let crlf = ascii::bytes_of("\r\n");
    let d = number::decimal(length as nat);
    let end = close + (crlf + t);
    let middle = if mode == LiteralMode::NonSync {
        plus + end
    } else {
        end
    };
    assert(announcement_text(length as nat, mode) + t =~= open + (d + middle));
    reading::lemma_tag_reads(open, d + middle);
    assert(middle[0] == '+' as u8 || middle[0] == '}' as u8);
    number::lemma_number64_reads(length, middle);
    reading::lemma_tag_reads(plus, end);
    if mode == LiteralMode::Sync {
        assert(end[0] == '}' as u8);
        reading::lemma_tag_rejects(plus, end);
    }
    reading::lemma_tag_reads(close, crlf + t);
    reading::lemma_tag_reads(crlf, t);
}

pub proof fn lemma_literal_reads(b: Seq<u8>, mode: LiteralMode, t: Seq<u8>)
    requires
        b.len() <= u64::MAX,
        t.len() > 0,
    ensures
        !b.contains(0) ==> literal_rule()(encode::flat(literal_tokens(b, mode)) + t)
            == Outcome::Done(t, StringView::Literal(b, mode)),
        literal8_rule()(
            ascii::bytes_of("~") + encode::flat(literal_tokens(b, mode)) + t,
        ) == Outcome::Done(t, StringView::Literal(b, mode)),
{
    broadcast use encode::group_flat;

    reveal(literal_rule);
    reveal(literal8_rule);
    let head = announcement_text(b.len(), mode);
    let length = b.len() as u64;
    assert(encode::flat(literal_tokens(b, mode)) == head + b);
    assert((head + b) + t =~= head + (b + t));
    lemma_announcement_reads(length, mode, b + t);
    assert((b + t).take(length as int) =~= b);
    assert((b + t).skip(length as int) =~= t);
    let tilde = ascii::bytes_of("~");
    assert(tilde + (head + b) + t =~= tilde + (head + (b + t)));
    reading::lemma_tag_reads(tilde, head + (b + t));
}

/// The text of a literal starts with a brace.
pub proof fn lemma_literal_first(b: Seq<u8>, mode: LiteralMode)
    ensures
        encode::flat(literal_tokens(b, mode)).len() > 0,
        encode::flat(literal_tokens(b, mode))[0] == '{' as u8,
{
    broadcast use encode::group_flat;

    reveal_strlit("{");
}

/// The first byte of a string tells its form.
pub proof fn lemma_string_first(v: StringView)
    requires
        string_wf(v),
    ensures
        encode::flat(string_tokens(v)).len() > 0,
        v is Atom ==> is_astring_char(encode::flat(string_tokens(v))[0]),
        v is Quoted ==> encode::flat(string_tokens(v))[0] == '"' as u8,
        v is Literal ==> encode::flat(string_tokens(v))[0] == '{' as u8,
{
    broadcast use encode::group_flat;

    reveal(string_tokens);
    reveal_strlit("\"");
    reveal_strlit("{");
    if let StringView::Atom(b) = v {
        assert(is_astring_char(b[0]));
    }
}

/// A string is read back in the form in which it was written.
pub proof fn lemma_string_reads(v: StringView)
    requires
        string_wf(v),
    ensures
        !(v is Atom) ==> reading::reads(string_rule(), encode::flat(string_tokens(v)), v),
        reading::reads(astring_rule(), encode::flat(string_tokens(v)), v),
        !(v is Atom) ==> reading::reads(nstring_rule(), encode::flat(string_tokens(v)), Some(v)),
{
    broadcast use encode::group_flat;

    reveal(string_tokens);
    reveal(string_rule);
    reveal(astring_rule);
    reveal(nstring_rule);
    let b = encode::flat(string_tokens(v));
    lemma_string_first(v);
    assert forall|t: Seq<u8>| reading::ends(t) implies (!(v is Atom) ==> #[trigger] string_rule()(
        b + t,
    ) == Outcome::Done(t, v)) && astring_rule()(b + t) == Outcome::Done(t, v) by {
        assert((b + t)[0] == b[0]);
        match v {
            StringView::Atom(a) => {
                reading::lemma_take_while1_reads(|x: u8| is_astring_char(x), a, t);
            },
            StringView::Quoted(q) => {
                lemma_quoted_reads(q, t);
                reading::lemma_take_while1_rejects(|x: u8| is_astring_char(x), b + t);
            },
            StringView::Literal(d, mode) => {
                lemma_literal_reads(d, mode, t);
                reading::lemma_take_while1_rejects(|x: u8| is_astring_char(x), b + t);
                reveal_strlit("\"");
                reveal(quoted_rule);
                reading::lemma_tag_rejects(ascii::bytes_of("\""), b + t);
            },
        }
    }
    assert forall|t: Seq<u8>| reading::ends(t) && !(v is Atom) implies #[trigger] nstring_rule()(
        b + t,
    ) == Outcome::Done(t, Some(v)) by {
        assert(string_rule()(b + t) == Outcome::Done(t, v));
    }
    assert forall|t: Seq<u8>| reading::ends(t) implies #[trigger] astring_rule()(b + t)
        == Outcome::Done(t, v) by {
        assert(!(v is Atom) ==> string_rule()(b + t) == Outcome::Done(t, v));
    }
}

pub proof fn lemma_string_rejects(s: Seq<u8>)
    requires
        s.len() > 0,
        s[0] != '"' as u8,
        s[0] != '{' as u8,
    ensures
        string_rule()(s) == Outcome::<StringView>::Reject,
        !is_astring_char(s[0]) ==> astring_rule()(s) == Outcome::<StringView>::Reject,
{
    reveal_strlit("\"");
    reveal_strlit("{");
    reveal(string_rule);
    reveal(astring_rule);
    reveal(quoted_rule);
    reveal(literal_rule);
    reading::lemma_tag_rejects(ascii::bytes_of("\""), s);
    reading::lemma_tag_rejects(ascii::bytes_of("{"), s);
    if !is_astring_char(s[0]) {
        reading::lemma_take_while1_rejects(|x: u8| is_astring_char(x), s);
    }
}

pub proof fn lemma_nil_reads()
    ensures
        reading::reads(nstring_rule(), encode::flat(encode::word("NIL")), None),
{
    broadcast use encode::group_flat;

    reveal(nstring_rule);
    reveal_strlit("NIL");
    let b = ascii::bytes_of("NIL");
    assert forall|t: Seq<u8>| reading::ends(t) implies #[trigger] nstring_rule()(b + t)
        == Outcome::Done(t, None::<StringView>) by {
        assert((b + t)[0] == 'N' as u8);
        lemma_string_rejects(b + t);
        reading::lemma_tag_no_case_reads(b, t);
    }
}

pub proof fn lemma_charset_reads(v: StringView)
    requires
        match v {
            StringView::Atom(b) => atom_wf(b),
            StringView::Quoted(b) => quoted_wf(b),
            StringView::Literal(_, _) => false,
        },
    ensures
        reading::reads(charset_rule(), encode::flat(string_tokens(v)), v),
{
    broadcast use encode::group_flat;

    reveal(string_tokens);
    reveal(charset_rule);
    let b = encode::flat(string_tokens(v));
    assert forall|t: Seq<u8>| reading::ends(t) implies #[trigger] charset_rule()(b + t)
        == Outcome::Done(t, v) by {
        match v {
            StringView::Atom(a) => {
                lemma_atom_reads(a);
            },
            StringView::Quoted(q) => {
                reveal_strlit("\"");
                reveal(atom_rule);
                lemma_quoted_reads(q, t);
                assert((b + t)[0] == '"' as u8);
                reading::lemma_take_while1_rejects(|x: u8| is_atom_char(x), b + t);
            },
            StringView::Literal(_, _) => {},
        }
    }
}


// ------------------------------------------------------------------ executable

/// A run of atom characters.
#[derive(Debug, PartialEq, Eq, Hash)]
pub struct Atom {
    pub bytes: Vec<u8>,
}

/// A run of characters that an `astring` may have without quotes.
#[derive(Debug, PartialEq, Eq, Hash)]
pub struct AtomExt {
    pub bytes: Vec<u8>,
}

/// The value of a quoted string.
#[derive(Debug, PartialEq, Eq, Hash)]
pub struct Quoted {
    pub bytes: Vec<u8>,
}

#[derive(Debug, PartialEq, Eq, Hash)]
pub struct Literal {
    pub bytes: Vec<u8>,
    pub mode: LiteralMode,
}

#[derive(Debug, PartialEq, Eq, Hash)]
pub enum IString {
    Quoted(Quoted),
    Literal(Literal),
}

#[derive(Debug, PartialEq, Eq, Hash)]
pub enum AString {
    Atom(AtomExt),
    String(IString),
}

#[derive(Clone, Debug, PartialEq, Eq, Hash)]
pub struct NString(pub Option<IString>);

#[derive(Clone, Debug, PartialEq, Eq, Hash)]
pub enum Charset {
    Atom(Atom),
    Quoted(Quoted),
}

impl DeepView for Atom {
    type V = Seq<u8>;

    open spec fn deep_view(&self) -> Seq<u8> {
        self.bytes@
    }
}

impl DeepView for Quoted {
    type V = Seq<u8>;

    open spec fn deep_view(&self) -> Seq<u8> {
        self.bytes@
    }
}

impl DeepView for IString {
    type V = StringView;

    open spec fn deep_view(&self) -> StringView {
        match self {
            IString::Quoted(q) => StringView::Quoted(q.bytes@),
            IString::Literal(l) => StringView::Literal(l.bytes@, l.mode),
        }
    }
}

impl DeepView for AString {
    type V = StringView;

    open spec fn deep_view(&self) -> StringView {
        match self {
            AString::Atom(a) => StringView::Atom(a.bytes@),
            AString::String(s) => s.deep_view(),
        }
    }
}

impl DeepView for NString {
    type V = Option<StringView>;

    open spec fn deep_view(&self) -> Option<StringView> {
        match self.0 {
            Some(s) => Some(s.deep_view()),
            None => None,
        }
    }
}

impl DeepView for Charset {
    type V = StringView;

    open spec fn deep_view(&self) -> StringView {
        match self {
            Charset::Atom(a) => StringView::Atom(a.bytes@),
            Charset::Quoted(q) => StringView::Quoted(q.bytes@),
        }
    }
}

impl Clone for Atom {
    fn clone(&self) -> (r: Self)
        ensures
            r.deep_view() == self.deep_view(),
    {
        Atom { bytes: self.bytes.clone() }
    }
}

impl Clone for AtomExt {
    fn clone(&self) -> (r: Self)
        ensures
            r.bytes@ == self.bytes@,
    {
        AtomExt { bytes: self.bytes.clone() }
    }
}

impl Clone for Quoted {
    fn clone(&self) -> (r: Self)
        ensures
            r.deep_view() == self.deep_view(),
    {
        Quoted { bytes: self.bytes.clone() }
    }
}

impl Clone for Literal {
    fn clone(&self) -> (r: Self)
        ensures
            r.bytes@ == self.bytes@,
            r.mode == self.mode,
    {
        Literal { bytes: self.bytes.clone(), mode: self.mode }
    }
}

impl Clone for IString {
    fn clone(&self) -> (r: Self)
        ensures
            r.deep_view() == self.deep_view(),
    {
        match self {
            IString::Quoted(q) => IString::Quoted(q.clone()),
            IString::Literal(l) => IString::Literal(l.clone()),
        }
    }
}

impl Clone for AString {
    fn clone(&self) -> (r: Self)
        ensures
            r.deep_view() == self.deep_view(),
    {
        match self {
            AString::Atom(a) => AString::Atom(a.clone()),
            AString::String(s) => AString::String(s.clone()),
        }
    }
}

impl Atom {
    /// An atom of these bytes, if they are one.
    pub fn new(bytes: Vec<u8>) -> (r: Option<Atom>)
        ensures
            r is Some <==> atom_wf(bytes@),
            r matches Some(a) ==> a.deep_view() == bytes@,
    {
        let mut i: usize = 0;
        while i < bytes.len()
            invariant
                i <= bytes@.len(),
                forall|j: int| 0 <= j < i ==> is_atom_char(#[trigger] bytes@[j]),
            decreases bytes@.len() - i,
        {
            if !is_atom_char(bytes[i]) {
                return None;
            }
            i = i + 1;
        }
        if bytes.len() == 0 {
            None
        } else {
            Some(Atom { bytes })
        }
    }
}

impl IString {
    /// The value of the string, whatever its form.
    pub fn as_bytes(&self) -> (r: &[u8])
        ensures
            r@ == self.deep_view().bytes(),
    {
        match self {
            IString::Quoted(q) => q.bytes.as_slice(),
            IString::Literal(l) => l.bytes.as_slice(),
        }
    }
}

impl AString {
    /// The value of the string, whatever its form.
    pub fn as_bytes(&self) -> (r: &[u8])
        ensures
            r@ == self.deep_view().bytes(),
    {
        match self {
            AString::Atom(a) => a.bytes.as_slice(),
            AString::String(s) => s.as_bytes(),
        }
    }
}

pub fn atom<'a>(input: &'a [u8]) -> (res: IMAPResult<'a, Atom>)
    ensures
        g::agrees(res, atom_rule()(input@)),
{
    proof {
        reveal(atom_rule);
    }
    let (rest, bytes) = take_while1(input, is_atom_char, Ghost(|b: u8| is_atom_char(b)))?;
    assert(bytes.deep_view() =~= bytes@);
    Ok((rest, Atom { bytes }))
}

fn is_special(b: u8) -> (r: bool)
    ensures
        r == is_quoted_special(b),
{
    b == '"' as u8 || b == '\\' as u8
}

/// What [`quoted_body`] makes of the input from which `read` was already read.
pub open spec fn body_after(read: Seq<u8>, o: Outcome<Seq<u8>>) -> Outcome<Seq<u8>> {
    match o {
        Outcome::Done(r, v) => Outcome::Done(r, read + v),
        _ => o,
    }
}

fn quoted_rest<'a>(input: &'a [u8]) -> (res: IMAPResult<'a, Quoted>)
    ensures
        g::agrees(res, quoted_body(input@)),
{
    let mut read: Vec<u8> = Vec::new();
    let mut i: usize = 0;
    proof {
        assert(input@.skip(0) =~= input@);
        if let Outcome::Done(r, v) = quoted_body(input@) {
            assert(read@ + v =~= v);
        }
    }
    while i < input.len()
        invariant
            i <= input@.len(),
            quoted_body(input@) == body_after(read@, quoted_body(input@.skip(i as int))),
        decreases input@.len() - i,
    {
        let b: u8 = input[i];
        let ghost here = input@.skip(i as int);
        assert(here[0] == b);
        if b == '"' as u8 {
            assert(here.skip(1) =~= input@.skip(i + 1));
            assert(read@ + seq![] =~= read@);
            return Ok((&input[i + 1..input.len()], Quoted { bytes: read }));
        }
        let ghost before = read@;
        if b == '\\' as u8 {
            if i + 1 == input.len() {
                return Err(IMAPParseError::Incomplete);
            }
            let c: u8 = input[i + 1];
            assert(here[1] == c);
            if !is_special(c) {
                return Err(IMAPParseError::Error);
            }
            read.push(c);
            i = i + 2;
            proof {
                assert(here.skip(2) =~= input@.skip(i as int));
                if let Outcome::Done(r, v) = quoted_body(here.skip(2)) {
                    assert(before + (seq![c] + v) =~= read@ + v);
                }
            }
        } else if is_text_byte(b) {
            read.push(b);
            i = i + 1;
            proof {
                assert(here.skip(1) =~= input@.skip(i as int));
                if let Outcome::Done(r, v) = quoted_body(here.skip(1)) {
                    assert(before + (seq![b] + v) =~= read@ + v);
                }
            }
        } else {
            return Err(IMAPParseError::Error);
        }
    }
    Err(IMAPParseError::Incomplete)
}

/// Reads a quoted string and gives its value.
pub fn quoted<'a>(input: &'a [u8]) -> (res: IMAPResult<'a, Quoted>)
    ensures
        g::agrees(res, quoted_rule()(input@)),
{
    proof {
        reveal(quoted_rule);
    }
    let (rest, _) = tag(input, "\"")?;
    let (rest, body) = quoted_rest(rest)?;
    if utf8::is_utf8(body.bytes.as_slice()) {
        Ok((rest, body))
    } else {
        Err(IMAPParseError::Error)
    }
}

fn announcement<'a>(input: &'a [u8]) -> (res: IMAPResult<'a, (u64, LiteralMode)>)
    ensures
        g::agrees(res, announcement_rule()(input@)),
{
    let (rest, _) = tag(input, "{")?;
    let (rest, length) = number64(rest)?;
    let (rest, mode) = match tag(rest, "+") {
        Ok((behind, _)) => (behind, LiteralMode::NonSync),
        Err(IMAPParseError::Error) => (rest, LiteralMode::Sync),
        Err(e) => return Err(e),
    };
    let (rest, _) = tag(rest, "}")?;
    let (rest, _) = tag(rest, "\r\n")?;
    Ok((rest, (length, mode)))
}

fn contains_nul(b: &[u8]) -> (r: bool)
    ensures
        r == b@.contains(0),
{
    let mut i: usize = 0;
    while i < b.len()
        invariant
            i <= b@.len(),
            forall|j: int| 0 <= j < i ==> b@[j] != 0,
        decreases b@.len() - i,
    {
        if b[i] == 0 {
            assert(b@[i as int] == 0);
            return true;
        }
        i = i + 1;
    }
    false
}

fn literal_data<'a>(input: &'a [u8], length: u64, mode: LiteralMode, binary: bool) -> (res:
    IMAPResult<'a, IString>)
    ensures
        g::agrees(res, literal_data_rule(length, mode, binary)(input@)),
{
    if input.len() == 0 {
        return Err(IMAPParseError::Literal { length });
    }
    if (input.len() as u64) < length {
        return Err(IMAPParseError::Incomplete);
    }
    let n: usize = length as usize;
    let data: &[u8] = &input[0..n];
    assert(data@ =~= input@.take(length as int));
    if !binary && contains_nul(data) {
        return Err(IMAPParseError::Failure(IMAPErrorKind::LiteralContainsNull));
    }
    let bytes: Vec<u8> = vstd::slice::slice_to_vec(data);
    Ok((&input[n..input.len()], IString::Literal(Literal { bytes, mode })))
}

pub fn literal<'a>(input: &'a [u8]) -> (res: IMAPResult<'a, IString>)
    ensures
        g::agrees(res, literal_rule()(input@)),
{
    proof {
        reveal(literal_rule);
    }
    let (rest, (length, mode)) = announcement(input)?;
    literal_data(rest, length, mode, false)
}

pub fn literal8<'a>(input: &'a [u8]) -> (res: IMAPResult<'a, IString>)
    ensures
        g::agrees(res, literal8_rule()(input@)),
{
    proof {
        reveal(literal8_rule);
    }
    let (rest, _) = tag(input, "~")?;
    let (rest, (length, mode)) = announcement(rest)?;
    literal_data(rest, length, mode, true)
}

pub fn string<'a>(input: &'a [u8]) -> (res: IMAPResult<'a, IString>)
    ensures
        g::agrees(res, string_rule()(input@)),
{
    proof {
        reveal(string_rule);
    }
    match quoted(input) {
        Ok((rest, q)) => Ok((rest, IString::Quoted(q))),
        Err(IMAPParseError::Error) => literal(input),
        Err(e) => Err(e),
    }
}

pub fn astring<'a>(input: &'a [u8]) -> (res: IMAPResult<'a, AString>)
    ensures
        g::agrees(res, astring_rule()(input@)),
{
    proof {
        reveal(astring_rule);
    }
    match take_while1(input, is_astring_char, Ghost(|b: u8| is_astring_char(b))) {
        Ok((rest, bytes)) => {
            assert(bytes.deep_view() =~= bytes@);
            Ok((rest, AString::Atom(AtomExt { bytes })))
        },
        Err(IMAPParseError::Error) => {
            let (rest, s) = string(input)?;
            Ok((rest, AString::String(s)))
        },
        Err(e) => Err(e),
    }
}

pub fn nstring<'a>(input: &'a [u8]) -> (res: IMAPResult<'a, NString>)
    ensures
        g::agrees(res, nstring_rule()(input@)),
{
    proof {
        reveal(nstring_rule);
    }
    match string(input) {
        Ok((rest, s)) => Ok((rest, NString(Some(s)))),
        Err(IMAPParseError::Error) => {
            let (rest, _) = tag_no_case(input, "NIL")?;
            Ok((rest, NString(None)))
        },
        Err(e) => Err(e),
    }
}

pub fn charset<'a>(input: &'a [u8]) -> (res: IMAPResult<'a, Charset>)
    ensures
        g::agrees(res, charset_rule()(input@)),
{
    proof {
        reveal(charset_rule);
    }
    match atom(input) {
        Ok((rest, a)) => Ok((rest, Charset::Atom(a))),
        Err(IMAPParseError::Error) => {
            let (rest, q) = quoted(input)?;
            Ok((rest, Charset::Quoted(q)))
        },
        Err(e) => Err(e),
    }
}

fn write_escaped(ctx: &mut EncodeContext, b: &[u8])
    ensures
        final(ctx)@ == old(ctx)@ + encode::plain(escaped(b@)),
{
    let mut out: Vec<u8> = Vec::new();
    let mut i: usize = 0;
    assert(b@.skip(0) =~= b@);
    while i < b.len()
        invariant
            i <= b@.len(),
            escaped(b@) =~= out@ + escaped(b@.skip(i as int)),
        decreases b@.len() - i,
    {
        let ghost here = b@.skip(i as int);
        assert(here[0] == b@[i as int]);
        assert(here.skip(1) =~= b@.skip(i + 1));
        if is_special(b[i]) {
            out.push('\\' as u8);
        }
        out.push(b[i]);
        i = i + 1;
    }
    assert(escaped(b@) =~= out@);
    ctx.write_bytes(out.as_slice());
}

pub fn write_quoted(ctx: &mut EncodeContext, b: &[u8])
    ensures
        final(ctx)@ == old(ctx)@ + encode::plain(quoted_text(b@)),
{
    broadcast use encode::lemma_plain_add;

    ctx.write_text("\"");
    write_escaped(ctx, b);
    ctx.write_text("\"");
    assert(ctx@ =~= old(ctx)@ + encode::plain(quoted_text(b@)));
}

pub fn write_literal(ctx: &mut EncodeContext, b: &[u8], mode: LiteralMode)
    ensures
        final(ctx)@ == old(ctx)@ + literal_tokens(b@, mode),
{
    write_announcement(ctx, b.len() as u64, mode);
    ctx.write_literal(b, mode);
    assert(ctx@ =~= old(ctx)@ + literal_tokens(b@, mode));
}

/// Writes the announcement of a literal, up to the end of the line.
pub fn write_announcement(ctx: &mut EncodeContext, length: u64, mode: LiteralMode)
    ensures
        final(ctx)@ == old(ctx)@ + encode::plain(announcement_text(length as nat, mode)),
{
    broadcast use encode::lemma_plain_add;

    ctx.write_text("{");
    write_number(ctx, length);
    if mode == LiteralMode::NonSync {
        ctx.write_text("+");
    }
    ctx.write_text("}");
    ctx.write_text("\r\n");
    proof {
        assert(encode::plain(seq![]) =~= seq![]);
        assert(ctx@ =~= old(ctx)@ + encode::plain(announcement_text(length as nat, mode)));
    }
}

impl EncodeIntoContext for Atom {
    open spec fn tokens(v: Seq<u8>) -> Seq<Token> {
        encode::plain(v)
    }

    fn encode_ctx(&self, ctx: &mut EncodeContext) {
        ctx.write_bytes(self.bytes.as_slice());
        assert(Self::tokens(self.deep_view()) == encode::plain(self.bytes@));
    }
}

impl EncodeIntoContext for IString {
    open spec fn tokens(v: StringView) -> Seq<Token> {
        string_tokens(v)
    }

    fn encode_ctx(&self, ctx: &mut EncodeContext) {
        proof {
            reveal(string_tokens);
        }
        match self {
            IString::Quoted(q) => write_quoted(ctx, q.bytes.as_slice()),
            IString::Literal(l) => write_literal(ctx, l.bytes.as_slice(), l.mode),
        }
        assert(ctx@ =~= old(ctx)@ + Self::tokens(self.deep_view()));
    }
}

impl EncodeIntoContext for AString {
    open spec fn tokens(v: StringView) -> Seq<Token> {
        string_tokens(v)
    }

    fn encode_ctx(&self, ctx: &mut EncodeContext) {
        proof {
            reveal(string_tokens);
        }
        match self {
            AString::Atom(a) => ctx.write_bytes(a.bytes.as_slice()),
            AString::String(s) => s.encode_ctx(ctx),
        }
        assert(ctx@ =~= old(ctx)@ + Self::tokens(self.deep_view()));
    }
}

impl EncodeIntoContext for NString {
    open spec fn tokens(v: Option<StringView>) -> Seq<Token> {
        nstring_tokens(v)
    }

    fn encode_ctx(&self, ctx: &mut EncodeContext) {
        match &self.0 {
            Some(s) => s.encode_ctx(ctx),
            None => ctx.write_text("NIL"),
        }
        assert(ctx@ =~= old(ctx)@ + Self::tokens(self.deep_view()));
    }
}

impl EncodeIntoContext for Charset {
    open spec fn tokens(v: StringView) -> Seq<Token> {
        string_tokens(v)
    }

    fn encode_ctx(&self, ctx: &mut EncodeContext) {
        proof {
            reveal(string_tokens);
        }
        match self {
            Charset::Atom(a) => a.encode_ctx(ctx),
            Charset::Quoted(q) => write_quoted(ctx, q.bytes.as_slice()),
        }
        assert(ctx@ =~= old(ctx)@ + Self::tokens(self.deep_view()));
    }
}

} // verus!
