//! Mailbox names and patterns.
use vstd::prelude::*;

use crate::ascii;
use crate::ascii::{is_list_char, is_text_byte};
use crate::encode;
use crate::encode::{EncodeContext, EncodeIntoContext, Token};
use crate::flag;
use crate::flag::FlagNameAttribute;
use crate::grammar as g;
use crate::grammar::{parens0, tag, tag_no_case, take_while1, IMAPParseError, IMAPResult, Outcome, Rule};
use crate::reading;
use crate::strings;
use crate::strings::{astring, string, AString, IString, StringView};

verus! {

/// A mailbox. `INBOX` is the same in any case of its letters.
#[derive(Clone, Debug, PartialEq, Eq, Hash)]
pub enum Mailbox {
    Inbox,
    Other(AString),
}

pub enum MailboxView {
    Inbox,
    Other(StringView),
}

impl DeepView for Mailbox {
    type V = MailboxView;

    open spec fn deep_view(&self) -> MailboxView {
        match self {
            Mailbox::Inbox => MailboxView::Inbox,
            Mailbox::Other(s) => MailboxView::Other(s.deep_view()),
        }
    }
}

/// A pattern of mailbox names, in which `*` and `%` stand for any characters.
#[derive(Clone, Debug, PartialEq, Eq, Hash)]
pub enum ListMailbox {
    Token(Vec<u8>),
    String(IString),
}

impl DeepView for ListMailbox {
    type V = StringView;

    open spec fn deep_view(&self) -> StringView {
        match self {
            ListMailbox::Token(b) => StringView::Atom(b@),
            ListMailbox::String(s) => s.deep_view(),
        }
    }
}

/// An ASCII character that can stand in a quoted string.
#[derive(Clone, Copy, Debug, PartialEq, Eq, Hash, Structural)]
pub struct QuotedChar {
    pub byte: u8,
}

impl DeepView for QuotedChar {
    type V = u8;

    open spec fn deep_view(&self) -> u8 {
        self.byte
    }
}

/// The answer to a LIST command: attributes, hierarchy delimiter and name.
pub type MailboxListView = (Seq<Seq<u8>>, Option<u8>, MailboxView);

// ----------------------------------------------------------------------- rules

pub open spec fn mailbox_of(s: StringView) -> MailboxView {
    if ascii::same_word(s.bytes(), ascii::bytes_of("INBOX")) {
        MailboxView::Inbox
    } else {
        MailboxView::Other(s)
    }
}

#[verifier::opaque]
pub open spec fn mailbox_rule() -> Rule<MailboxView> {
    g::mapped(strings::astring_rule(), |s: StringView| mailbox_of(s))
}

/// `list-mailbox = 1*list-char / string`.
#[verifier::opaque]
pub open spec fn list_mailbox_rule() -> Rule<StringView> {
    g::alt(
        g::mapped(
            g::take_while1_rule(|b: u8| is_list_char(b)),
            |b: Seq<u8>| StringView::Atom(b),
        ),
        strings::string_rule(),
    )
}

/// A character of a quoted string, with a backslash where it needs one.
pub open spec fn quoted_char_rule() -> Rule<u8> {
    |s: Seq<u8>|
        if s.len() == 0 {
            Outcome::More(None)
        } else if s[0] == '\\' as u8 {
            if s.len() < 2 {
                Outcome::More(None)
            } else if strings::is_quoted_special(s[1]) {
                Outcome::Done(s.skip(2), s[1])
            } else {
                Outcome::Reject
            }
        } else if s[0] != '"' as u8 && is_text_byte(s[0]) && s[0] < 0x80 {
            Outcome::Done(s.skip(1), s[0])
        } else {
            Outcome::Reject
        }
}

/// `DQUOTE QUOTED-CHAR DQUOTE / nil`.
pub open spec fn delimiter_rule() -> Rule<Option<u8>> {
    g::alt(
        g::mapped(
            g::delimited(g::text("\""), quoted_char_rule(), g::text("\"")),
            |b: u8| Some(b),
        ),
        g::value(None, g::word("NIL")),
    )
}

/// `mailbox-list = "(" [mbx-list-flags] ")" SP (DQUOTE QUOTED-CHAR DQUOTE / nil) SP mailbox`.
#[verifier::opaque]
pub open spec fn mailbox_list_rule() -> Rule<MailboxListView> {
    g::mapped(
        g::pair(
            g::terminated(g::paren_list0(flag::attribute_rule()), g::text(" ")),
            g::pair(g::terminated(delimiter_rule(), g::text(" ")), mailbox_rule()),
        ),
        |p: (Seq<Seq<u8>>, (Option<u8>, MailboxView))| (p.0, p.1.0, p.1.1),
    )
}

// ------------------------------------------------------------------- encodings

#[verifier::opaque]
pub open spec fn mailbox_tokens(v: MailboxView) -> Seq<Token> {
    match v {
        MailboxView::Inbox => encode::word("INBOX"),
        MailboxView::Other(s) => strings::string_tokens(s),
    }
}

pub open spec fn quoted_char_text(b: u8) -> Seq<u8> {
    if strings::is_quoted_special(b) {
        ascii::bytes_of("\\") + seq![b]
    } else {
        seq![b]
    }
}

pub open spec fn delimiter_text(d: Option<u8>) -> Seq<u8> {
    match d {
        Some(b) => ascii::bytes_of("\"") + quoted_char_text(b) + ascii::bytes_of("\""),
        None => ascii::bytes_of("NIL"),
    }
}

pub open spec fn mailbox_list_tokens(v: MailboxListView) -> Seq<Token> {
    encode::paren_tokens(encode::parts::<FlagNameAttribute>(v.0)) + encode::word(" ")
        + encode::plain(delimiter_text(v.1)) + encode::word(" ") + mailbox_tokens(v.2)
}

pub open spec fn mailbox_wf(v: MailboxView) -> bool {
    v matches MailboxView::Other(s) ==> strings::string_wf(s) && !ascii::same_word(
        s.bytes(),
        ascii::bytes_of("INBOX"),
    )
}

pub open spec fn list_mailbox_wf(v: StringView) -> bool {
    match v {
        StringView::Atom(b) => b.len() > 0 && ascii::all_bytes(b, |x: u8| is_list_char(x)),
        _ => strings::string_wf(v),
    }
}

pub open spec fn delimiter_wf(d: Option<u8>) -> bool {
    d matches Some(b) ==> is_text_byte(b) && b < 0x80
}

pub open spec fn mailbox_list_wf(v: MailboxListView) -> bool {
    &&& forall|i: int| 0 <= i < v.0.len() ==> strings::atom_wf(#[trigger] v.0[i])
    &&& delimiter_wf(v.1)
    &&& mailbox_wf(v.2)
}

// ---------------------------------------------------------------------- lemmas

proof fn lemma_quoted_char_lawful()
    ensures
        g::lawful(quoted_char_rule()),
{
    let p = quoted_char_rule();
    assert forall|s: Seq<u8>, t: Seq<u8>| !(p(s) is More) implies #[trigger] p(s + t)
        == g::extended(p(s), t) by {
        assert((s + t)[0] == s[0]);
        if s.len() > 1 {
            assert((s + t)[1] == s[1]);
            assert((s + t).skip(2) =~= s.skip(2) + t);
        }
        assert((s + t).skip(1) =~= s.skip(1) + t);
    }
}

pub proof fn lemma_delimiter_lawful()
    ensures
        g::lawful(delimiter_rule()),
{
    broadcast use g::group_lawful;

    lemma_quoted_char_lawful();
}

pub proof fn lemma_mailboxes_lawful()
    ensures
        g::lawful(mailbox_rule()),
        g::lawful(list_mailbox_rule()),
        g::lawful(mailbox_list_rule()),
{
    broadcast use g::group_lawful;

    reveal(mailbox_rule);
    reveal(list_mailbox_rule);
    reveal(mailbox_list_rule);
    strings::lemma_strings_lawful();
    flag::lemma_flags_lawful();
    lemma_quoted_char_lawful();
}

/// A mailbox is read back.
pub proof fn lemma_mailbox_reads(v: MailboxView)
    requires
        mailbox_wf(v),
    ensures
        reading::reads(mailbox_rule(), encode::flat(mailbox_tokens(v)), v),
{
    broadcast use encode::group_flat;

    reveal(strings::string_tokens);
    reveal(mailbox_tokens);
    reveal(mailbox_rule);
    let b = encode::flat(mailbox_tokens(v));
    let s = match v {
        MailboxView::Inbox => StringView::Atom(ascii::bytes_of("INBOX")),
        MailboxView::Other(s) => s,
    };
    reveal_strlit("INBOX");
    if v is Inbox {
        let w = ascii::bytes_of("INBOX");
        assert(ascii::is_astring_char(w[0]) && ascii::is_astring_char(w[1])
            && ascii::is_astring_char(w[2]) && ascii::is_astring_char(w[3])
            && ascii::is_astring_char(w[4]));
        assert(strings::string_wf(s));
    }
    strings::lemma_string_reads(s);
    assert(b == encode::flat(strings::string_tokens(s)));
    assert forall|t: Seq<u8>| reading::ends(t) implies #[trigger] mailbox_rule()(b + t)
        == Outcome::Done(t, v) by {
        assert(strings::astring_rule()(b + t) == Outcome::Done(t, s));
    }
}

/// The text of a mailbox is not empty and does not start with a parenthesis.
pub proof fn lemma_mailbox_first(v: MailboxView)
    requires
        mailbox_wf(v),
    ensures
        encode::flat(mailbox_tokens(v)).len() > 0,
        encode::flat(mailbox_tokens(v))[0] != '(' as u8,
{
    reveal(mailbox_tokens);
    match v {
        MailboxView::Inbox => {
            reveal_strlit("INBOX");
            encode::lemma_flat_word("INBOX");
        },
        MailboxView::Other(s) => {
            strings::lemma_string_first(s);
        },
    }
}

/// A mailbox pattern is read back.
pub proof fn lemma_list_mailbox_reads(v: StringView)
    requires
        list_mailbox_wf(v),
    ensures
        reading::reads(list_mailbox_rule(), encode::flat(strings::string_tokens(v)), v),
        encode::flat(strings::string_tokens(v)).len() > 0,
        encode::flat(strings::string_tokens(v))[0] != '(' as u8,
{
    broadcast use encode::group_flat;

    reveal(strings::string_tokens);
    reveal(list_mailbox_rule);
    let b = encode::flat(strings::string_tokens(v));
    match v {
        StringView::Atom(a) => {
            assert(is_list_char(a[0]));
        },
        _ => {
            strings::lemma_string_first(v);
            strings::lemma_string_reads(v);
        },
    }
    assert forall|t: Seq<u8>| reading::ends(t) implies #[trigger] list_mailbox_rule()(b + t)
        == Outcome::Done(t, v) by {
        match v {
            StringView::Atom(a) => {
                reading::lemma_take_while1_reads(|x: u8| is_list_char(x), a, t);
            },
            _ => {
                assert((b + t)[0] == b[0]);
                reading::lemma_take_while1_rejects(|x: u8| is_list_char(x), b + t);
                assert(strings::string_rule()(b + t) == Outcome::Done(t, v));
            },
        }
    }
}

/// A hierarchy delimiter is read back, whatever follows.
pub proof fn lemma_delimiter_reads(d: Option<u8>, t: Seq<u8>)
    requires
        delimiter_wf(d),
    ensures
        delimiter_rule()(delimiter_text(d) + t) == Outcome::Done(t, d),
{
    broadcast use reading::group_reading;

    reveal_strlit("\"");
    reveal_strlit("\\");
    reveal_strlit("NIL");
    let q = ascii::bytes_of("\"");
    match d {
        Some(b) => {
            let c = quoted_char_text(b);
            assert(delimiter_text(d) + t =~= q + (c + (q + t)));
            let s = c + (q + t);
            if strings::is_quoted_special(b) {
                assert(s[0] == '\\' as u8);
                assert(s[1] == b);
                assert(s.skip(2) =~= q + t);
            } else {
                assert(s[0] == b);
                assert(s.skip(1) =~= q + t);
            }
            assert(quoted_char_rule()(s) == Outcome::Done(q + t, b));
        },
        None => {
            assert((delimiter_text(d) + t)[0] == 'N' as u8);
        },
    }
}

/// The answer to a LIST command is read back.
pub proof fn lemma_mailbox_list_reads(v: MailboxListView)
    requires
        mailbox_list_wf(v),
    ensures
        reading::reads(mailbox_list_rule(), encode::flat(mailbox_list_tokens(v)), v),
{
    let tokens = encode::parts::<FlagNameAttribute>(v.0);
    let parts = encode::flat_parts(tokens);
    let space = ascii::bytes_of(" ");
    let list = encode::flat(encode::paren_tokens(tokens));
    let name = encode::flat(mailbox_tokens(v.2));
    encode::lemma_flat_paren(tokens);
    assert forall|i: int| 0 <= i < parts.len() implies reading::reads(
        flag::attribute_rule(),
        #[trigger] parts[i],
        v.0[i],
    ) by {
        encode::lemma_flat_plain(flag::attribute_text(v.0[i]));
        assert(strings::atom_wf(v.0[i]));
        flag::lemma_attribute_reads(v.0[i]);
    }
    lemma_mailbox_reads(v.2);
    let b = encode::flat(mailbox_list_tokens(v));
    assert forall|t: Seq<u8>| reading::ends(t) implies #[trigger] mailbox_list_rule()(b + t)
        == Outcome::Done(t, v) by {
        reveal(mailbox_list_rule);
        let d = space + (name + t);
        let c = space + (delimiter_text(v.1) + d);
        assert(b + t =~= list + c) by {
            broadcast use encode::group_flat;

        }
        reveal_strlit(")");
        let end = ascii::bytes_of(")") + c;
        assert(end[0] == ')' as u8);
        flag::lemma_attribute_rejects(end);
        reading::lemma_parens_reads(flag::attribute_rule(), parts, v.0, c);
        reading::lemma_tag_reads(space, delimiter_text(v.1) + d);
        lemma_delimiter_reads(v.1, d);
        reading::lemma_tag_reads(space, name + t);
        assert(mailbox_rule()(name + t) == Outcome::Done(t, v.2));
    }
}

// ------------------------------------------------------------------ executable

pub fn mailbox<'a>(input: &'a [u8]) -> (res: IMAPResult<'a, Mailbox>)
    ensures
        g::agrees(res, mailbox_rule()(input@)),
{
    proof {
        reveal(mailbox_rule);
    }
    let (rest, s) = astring(input)?;
    if ascii::is_word(s.as_bytes(), "INBOX") {
        Ok((rest, Mailbox::Inbox))
    } else {
        Ok((rest, Mailbox::Other(s)))
    }
}

pub fn list_mailbox<'a>(input: &'a [u8]) -> (res: IMAPResult<'a, ListMailbox>)
    ensures
        g::agrees(res, list_mailbox_rule()(input@)),
{
    proof {
        reveal(list_mailbox_rule);
    }
    match take_while1(input, is_list_char, Ghost(|b: u8| is_list_char(b))) {
        Ok((rest, bytes)) => {
            assert(bytes.deep_view() =~= bytes@);
            Ok((rest, ListMailbox::Token(bytes)))
        },
        Err(IMAPParseError::Error) => {
            let (rest, s) = string(input)?;
            Ok((rest, ListMailbox::String(s)))
        },
        Err(e) => Err(e),
    }
}

fn quoted_char<'a>(input: &'a [u8]) -> (res: IMAPResult<'a, QuotedChar>)
    ensures
        g::agrees(res, quoted_char_rule()(input@)),
{
    if input.len() == 0 {
        return Err(IMAPParseError::Incomplete);
    }
    let b: u8 = input[0];
    if b == '\\' as u8 {
        if input.len() < 2 {
            return Err(IMAPParseError::Incomplete);
        }
        let c: u8 = input[1];
        if c == '"' as u8 || c == '\\' as u8 {
            Ok((&input[2..input.len()], QuotedChar { byte: c }))
        } else {
            Err(IMAPParseError::Error)
        }
    } else if b != '"' as u8 && is_text_byte(b) && b < 0x80 {
        Ok((&input[1..input.len()], QuotedChar { byte: b }))
    } else {
        Err(IMAPParseError::Error)
    }
}

fn quoted_delimiter<'a>(input: &'a [u8]) -> (res: IMAPResult<'a, QuotedChar>)
    ensures
        g::agrees(
            res,
            g::delimited(g::text("\""), quoted_char_rule(), g::text("\""))(input@),
        ),
{
    let (rest, _) = tag(input, "\"")?;
    let (rest, c) = quoted_char(rest)?;
    let (rest, _) = tag(rest, "\"")?;
    Ok((rest, c))
}

pub fn delimiter<'a>(input: &'a [u8]) -> (res: IMAPResult<'a, Option<QuotedChar>>)
    ensures
        g::agrees(res, delimiter_rule()(input@)),
{
    match quoted_delimiter(input) {
        Ok((rest, c)) => Ok((rest, Some(c))),
        Err(IMAPParseError::Error) => {
            let (rest, _) = tag_no_case(input, "NIL")?;
            Ok((rest, None))
        },
        Err(e) => Err(e),
    }
}

pub fn mailbox_list<'a>(input: &'a [u8]) -> (res: IMAPResult<
    'a,
    (Vec<FlagNameAttribute>, Option<QuotedChar>, Mailbox),
>)
    ensures
        g::agrees(res, mailbox_list_rule()(input@)),
{
    proof {
        reveal(mailbox_list_rule);
    }
    let (rest, items) = parens0(input, flag::attribute, Ghost(flag::attribute_rule()))?;
    let (rest, _) = tag(rest, " ")?;
    let (rest, d) = delimiter(rest)?;
    let (rest, _) = tag(rest, " ")?;
    let (rest, name) = mailbox(rest)?;
    Ok((rest, (items, d, name)))
}

impl EncodeIntoContext for Mailbox {
    open spec fn tokens(v: MailboxView) -> Seq<Token> {
        mailbox_tokens(v)
    }

    fn encode_ctx(&self, ctx: &mut EncodeContext) {
        proof {
            reveal(mailbox_tokens);
        }
        match self {
            Mailbox::Inbox => ctx.write_text("INBOX"),
            Mailbox::Other(s) => s.encode_ctx(ctx),
        }
        assert(ctx@ =~= old(ctx)@ + Self::tokens(self.deep_view()));
    }
}

impl EncodeIntoContext for ListMailbox {
    open spec fn tokens(v: StringView) -> Seq<Token> {
        strings::string_tokens(v)
    }

    fn encode_ctx(&self, ctx: &mut EncodeContext) {
        proof {
            reveal(strings::string_tokens);
        }
        match self {
            ListMailbox::Token(b) => ctx.write_bytes(b.as_slice()),
            ListMailbox::String(s) => s.encode_ctx(ctx),
        }
        assert(ctx@ =~= old(ctx)@ + Self::tokens(self.deep_view()));
    }
}

impl EncodeIntoContext for QuotedChar {
    open spec fn tokens(v: u8) -> Seq<Token> {
        encode::plain(quoted_char_text(v))
    }

    fn encode_ctx(&self, ctx: &mut EncodeContext) {
        broadcast use encode::lemma_plain_add;

        let b: u8 = self.byte;
        if b == '"' as u8 || b == '\\' as u8 {
            ctx.write_text("\\");
        }
        let one: [u8; 1] = [b];
        ctx.write_bytes(&one);
        proof {
            assert(one@ =~= seq![b]);
            assert(ctx@ =~= old(ctx)@ + encode::plain(quoted_char_text(b)));
        }
        assert(ctx@ =~= old(ctx)@ + Self::tokens(self.deep_view()));
    }
}

/// Writes a hierarchy delimiter in quotes, or that there is none.
pub fn write_delimiter(d: &Option<QuotedChar>, ctx: &mut EncodeContext)
    ensures
        final(ctx)@ == old(ctx)@ + encode::plain(delimiter_text(d.deep_view())),
{
    broadcast use encode::lemma_plain_add;

    match d {
        Some(c) => {
            ctx.write_text("\"");
            c.encode_ctx(ctx);
            ctx.write_text("\"");
        },
        None => ctx.write_text("NIL"),
    }
    assert(ctx@ =~= old(ctx)@ + encode::plain(delimiter_text(d.deep_view())));
}

} // verus!
