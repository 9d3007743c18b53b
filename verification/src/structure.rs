//! The structure of a message: its envelope and its parts.
use vstd::prelude::*;

use crate::arguments as args;
use crate::arguments::write_argument;
use crate::encode;
use crate::encode::{write_spread, EncodeContext, EncodeIntoContext, Token};
use crate::grammar as g;
use crate::grammar::{repeat, tag, tag_no_case, IMAPParseError, IMAPResult, Outcome, Rule};
use crate::reading;
use crate::shapes;
use crate::strings;
use crate::strings::{nstring, NString, StringView};

verus! {

/// An address of a header field. Without a host it opens or ends a group.
#[derive(Debug, PartialEq, Eq, Hash)]
pub struct Address {
    pub name: NString,
    pub adl: NString,
    pub mailbox: NString,
    pub host: NString,
}

pub struct AddressView {
    pub name: Option<StringView>,
    pub adl: Option<StringView>,
    pub mailbox: Option<StringView>,
    pub host: Option<StringView>,
}

impl DeepView for Address {
    type V = AddressView;

    open spec fn deep_view(&self) -> AddressView {
        AddressView {
            name: self.name.deep_view(),
            adl: self.adl.deep_view(),
            mailbox: self.mailbox.deep_view(),
            host: self.host.deep_view(),
        }
    }
}

/// The header of a message, as far as it has a structure of its own.
#[derive(Debug, PartialEq, Eq, Hash)]
pub struct Envelope {
    pub date: NString,
    pub subject: NString,
    pub from: Vec<Address>,
    pub sender: Vec<Address>,
    pub reply_to: Vec<Address>,
    pub to: Vec<Address>,
    pub cc: Vec<Address>,
    pub bcc: Vec<Address>,
    pub in_reply_to: NString,
    pub message_id: NString,
}

pub struct EnvelopeView {
    pub date: Option<StringView>,
    pub subject: Option<StringView>,
    pub from: Seq<AddressView>,
    pub sender: Seq<AddressView>,
    pub reply_to: Seq<AddressView>,
    pub to: Seq<AddressView>,
    pub cc: Seq<AddressView>,
    pub bcc: Seq<AddressView>,
    pub in_reply_to: Option<StringView>,
    pub message_id: Option<StringView>,
}

impl DeepView for Envelope {
    type V = EnvelopeView;

    open spec fn deep_view(&self) -> EnvelopeView {
        EnvelopeView {
            date: self.date.deep_view(),
            subject: self.subject.deep_view(),
            from: self.from.deep_view(),
            sender: self.sender.deep_view(),
            reply_to: self.reply_to.deep_view(),
            to: self.to.deep_view(),
            cc: self.cc.deep_view(),
            bcc: self.bcc.deep_view(),
            in_reply_to: self.in_reply_to.deep_view(),
            message_id: self.message_id.deep_view(),
        }
    }
}

// ----------------------------------------------------------------------- rules

pub type NStringView = Option<StringView>;

pub type TwoStrings = (NStringView, NStringView);

pub type ThreeLists = (Seq<AddressView>, (Seq<AddressView>, Seq<AddressView>));

pub open spec fn two_strings_rule() -> Rule<TwoStrings> {
    shapes::two(strings::nstring_rule(), strings::nstring_rule())
}

/// `address`, behind its opening parenthesis.
#[verifier::opaque]
pub open spec fn address_rule() -> Rule<AddressView> {
    g::mapped(
        shapes::closing(shapes::two(two_strings_rule(), two_strings_rule())),
        |p: (TwoStrings, TwoStrings)|
            AddressView { name: p.0.0, adl: p.0.1, mailbox: p.1.0, host: p.1.1 },
    )
}

/// `"(" 1*address ")" / nil`.
#[verifier::opaque]
pub open spec fn addresses_rule() -> Rule<Seq<AddressView>> {
    g::alt(
        shapes::enclosed(shapes::row(address_rule())),
        shapes::nil(Seq::<AddressView>::empty()),
    )
}

pub open spec fn three_lists_rule() -> Rule<ThreeLists> {
    shapes::two(addresses_rule(), shapes::two(addresses_rule(), addresses_rule()))
}

/// `envelope = "(" env-date SP env-subject SP env-from SP env-sender SP
/// env-reply-to SP env-to SP env-cc SP env-bcc SP env-in-reply-to SP
/// env-message-id ")"`.
#[verifier::opaque]
pub open spec fn envelope_rule() -> Rule<EnvelopeView> {
    g::mapped(
        shapes::enclosed(
            shapes::two(
                shapes::two(two_strings_rule(), three_lists_rule()),
                shapes::two(three_lists_rule(), two_strings_rule()),
            ),
        ),
        |p: ((TwoStrings, ThreeLists), (ThreeLists, TwoStrings))|
            EnvelopeView {
                date: p.0.0.0,
                subject: p.0.0.1,
                from: p.0.1.0,
                sender: p.0.1.1.0,
                reply_to: p.0.1.1.1,
                to: p.1.0.0,
                cc: p.1.0.1.0,
                bcc: p.1.0.1.1,
                in_reply_to: p.1.1.0,
                message_id: p.1.1.1,
            },
    )
}

// ------------------------------------------------------------------- encodings

pub open spec fn two_strings_tokens(a: NStringView, b: NStringView) -> Seq<Token> {
    shapes::two_tokens(strings::nstring_tokens(a), strings::nstring_tokens(b))
}

/// An address, behind its opening parenthesis.
pub open spec fn address_tokens(a: AddressView) -> Seq<Token> {
    shapes::closing_tokens(
        shapes::two_tokens(
            two_strings_tokens(a.name, a.adl),
            two_strings_tokens(a.mailbox, a.host),
        ),
    )
}

pub open spec fn addresses_tokens(v: Seq<AddressView>) -> Seq<Token> {
    if v.len() == 0 {
        encode::word("NIL")
    } else {
        shapes::enclosed_tokens(shapes::row_tokens(encode::parts::<Address>(v)))
    }
}

pub open spec fn three_lists_tokens(
    a: Seq<AddressView>,
    b: Seq<AddressView>,
    c: Seq<AddressView>,
) -> Seq<Token> {
    shapes::two_tokens(
        addresses_tokens(a),
        shapes::two_tokens(addresses_tokens(b), addresses_tokens(c)),
    )
}

pub open spec fn heading_tokens(e: EnvelopeView) -> Seq<Token> {
    shapes::two_tokens(
        two_strings_tokens(e.date, e.subject),
        three_lists_tokens(e.from, e.sender, e.reply_to),
    )
}

pub open spec fn delivery_tokens(e: EnvelopeView) -> Seq<Token> {
    shapes::two_tokens(
        three_lists_tokens(e.to, e.cc, e.bcc),
        two_strings_tokens(e.in_reply_to, e.message_id),
    )
}

pub open spec fn envelope_tokens(e: EnvelopeView) -> Seq<Token> {
    shapes::enclosed_tokens(shapes::two_tokens(heading_tokens(e), delivery_tokens(e)))
}

// -------------------------------------------------------------- well-formedness

pub open spec fn address_wf(a: AddressView) -> bool {
    &&& strings::nstring_wf(a.name)
    &&& strings::nstring_wf(a.adl)
    &&& strings::nstring_wf(a.mailbox)
    &&& strings::nstring_wf(a.host)
}

pub open spec fn addresses_wf(v: Seq<AddressView>) -> bool {
    args::all_wf(v, |a: AddressView| address_wf(a))
}

pub open spec fn envelope_wf(e: EnvelopeView) -> bool {
    &&& strings::nstring_wf(e.date)
    &&& strings::nstring_wf(e.subject)
    &&& addresses_wf(e.from)
    &&& addresses_wf(e.sender)
    &&& addresses_wf(e.reply_to)
    &&& addresses_wf(e.to)
    &&& addresses_wf(e.cc)
    &&& addresses_wf(e.bcc)
    &&& strings::nstring_wf(e.in_reply_to)
    &&& strings::nstring_wf(e.message_id)
}

// ------------------------------------------------------------------- streaming

pub proof fn lemma_envelope_lawful()
    ensures
        g::lawful(envelope_rule()),
{
    broadcast use g::group_lawful;

    reveal(address_rule);
    reveal(addresses_rule);
    reveal(envelope_rule);
    strings::lemma_strings_lawful();
    assert(g::lawful(address_rule()));
    assert(g::lawful(addresses_rule()));
    assert(g::lawful(three_lists_rule()));
}

// --------------------------------------------------------------------- reading

pub proof fn lemma_nstring_reads(v: NStringView)
    requires
        strings::nstring_wf(v),
    ensures
        reading::reads(strings::nstring_rule(), encode::flat(strings::nstring_tokens(v)), v),
{
    match v {
        Some(s) => {
            strings::lemma_string_reads(s);
        },
        None => {
            strings::lemma_nil_reads();
        },
    }
}

pub proof fn lemma_two_strings_read(a: NStringView, b: NStringView)
    requires
        strings::nstring_wf(a),
        strings::nstring_wf(b),
    ensures
        reading::reads(two_strings_rule(), encode::flat(two_strings_tokens(a, b)), (a, b)),
{
    lemma_nstring_reads(a);
    lemma_nstring_reads(b);
    shapes::lemma_two_read(
        strings::nstring_rule(),
        strings::nstring_rule(),
        strings::nstring_tokens(a),
        a,
        strings::nstring_tokens(b),
        b,
    );
}

proof fn lemma_address_reads(a: AddressView)
    requires
        address_wf(a),
    ensures
        shapes::reads_alone(address_rule(), encode::flat(address_tokens(a)), a),
{
    reveal(address_rule);
    let x = (a.name, a.adl);
    let y = (a.mailbox, a.host);
    let ta = two_strings_tokens(a.name, a.adl);
    let tb = two_strings_tokens(a.mailbox, a.host);
    lemma_two_strings_read(a.name, a.adl);
    lemma_two_strings_read(a.mailbox, a.host);
    shapes::lemma_two_read(two_strings_rule(), two_strings_rule(), ta, x, tb, y);
    let p = shapes::two(two_strings_rule(), two_strings_rule());
    shapes::lemma_closing_reads(p, shapes::two_tokens(ta, tb), (x, y));
    shapes::lemma_mapped_reads(
        shapes::closing(p),
        |p: (TwoStrings, TwoStrings)|
            AddressView { name: p.0.0, adl: p.0.1, mailbox: p.1.0, host: p.1.1 },
        encode::flat(address_tokens(a)),
        (x, y),
    );
}

proof fn lemma_addresses_read(v: Seq<AddressView>)
    requires
        addresses_wf(v),
    ensures
        reading::reads(addresses_rule(), encode::flat(addresses_tokens(v)), v),
{
    reveal(addresses_rule);
    let b = encode::flat(addresses_tokens(v));
    if v.len() == 0 {
        assert forall|t: Seq<u8>| reading::ends(t) implies #[trigger] addresses_rule()(b + t)
            == Outcome::Done(t, v) by {
            shapes::lemma_nil_reads(v, t);
            assert(v =~= Seq::<AddressView>::empty());
        }
    } else {
        let tokens = encode::parts::<Address>(v);
        let inner = shapes::row_tokens(tokens);
        assert forall|i: int| 0 <= i < v.len() implies shapes::reads_alone(
            address_rule(),
            encode::flat(#[trigger] tokens[i]),
            v[i],
        ) by {
            let wf = |a: AddressView| address_wf(a);
            assert(wf(v[i]));
            lemma_address_reads(v[i]);
        }
        let p = shapes::row(address_rule());
        assert forall|t: Seq<u8>| reading::ends(t) implies #[trigger] p(encode::flat(inner) + t)
            == Outcome::Done(t, v) by {
            shapes::lemma_row_reads(address_rule(), tokens, v, t);
        }
        shapes::lemma_enclosed_reads(p, inner, v);
        assert forall|t: Seq<u8>| reading::ends(t) implies #[trigger] addresses_rule()(b + t)
            == Outcome::Done(t, v) by {
            assert(shapes::enclosed(p)(b + t) == Outcome::Done(t, v));
        }
    }
}

proof fn lemma_three_lists_read(a: Seq<AddressView>, b: Seq<AddressView>, c: Seq<AddressView>)
    requires
        addresses_wf(a),
        addresses_wf(b),
        addresses_wf(c),
    ensures
        reading::reads(three_lists_rule(), encode::flat(three_lists_tokens(a, b, c)), (a, (b, c))),
{
    lemma_addresses_read(a);
    lemma_addresses_read(b);
    lemma_addresses_read(c);
    let p = addresses_rule();
    shapes::lemma_two_read(p, p, addresses_tokens(b), b, addresses_tokens(c), c);
    shapes::lemma_two_read(
        p,
        shapes::two(p, p),
        addresses_tokens(a),
        a,
        shapes::two_tokens(addresses_tokens(b), addresses_tokens(c)),
        (b, c),
    );
}

/// An envelope is read back, whatever follows.
pub proof fn lemma_envelope_reads(e: EnvelopeView)
    requires
        envelope_wf(e),
    ensures
        shapes::reads_alone(envelope_rule(), encode::flat(envelope_tokens(e)), e),
{
    reveal(envelope_rule);
    let strings1 = two_strings_tokens(e.date, e.subject);
    let lists1 = three_lists_tokens(e.from, e.sender, e.reply_to);
    let lists2 = three_lists_tokens(e.to, e.cc, e.bcc);
    let strings2 = two_strings_tokens(e.in_reply_to, e.message_id);
    let s1 = (e.date, e.subject);
    let l1 = (e.from, (e.sender, e.reply_to));
    let l2 = (e.to, (e.cc, e.bcc));
    let s2 = (e.in_reply_to, e.message_id);
    let p = two_strings_rule();
    let q = three_lists_rule();
    lemma_two_strings_read(e.date, e.subject);
    lemma_two_strings_read(e.in_reply_to, e.message_id);
    lemma_three_lists_read(e.from, e.sender, e.reply_to);
    lemma_three_lists_read(e.to, e.cc, e.bcc);
    shapes::lemma_two_read(p, q, strings1, s1, lists1, l1);
    shapes::lemma_two_read(q, p, lists2, l2, strings2, s2);
    let a = shapes::two_tokens(strings1, lists1);
    let b = shapes::two_tokens(lists2, strings2);
    shapes::lemma_two_read(shapes::two(p, q), shapes::two(q, p), a, (s1, l1), b, (l2, s2));
    let whole = shapes::two(shapes::two(p, q), shapes::two(q, p));
    shapes::lemma_enclosed_reads(whole, shapes::two_tokens(a, b), ((s1, l1), (l2, s2)));
    shapes::lemma_mapped_reads(
        shapes::enclosed(whole),
        |p: ((TwoStrings, ThreeLists), (ThreeLists, TwoStrings))|
            EnvelopeView {
                date: p.0.0.0,
                subject: p.0.0.1,
                from: p.0.1.0,
                sender: p.0.1.1.0,
                reply_to: p.0.1.1.1,
                to: p.1.0.0,
                cc: p.1.0.1.0,
                bcc: p.1.0.1.1,
                in_reply_to: p.1.1.0,
                message_id: p.1.1.1,
            },
        encode::flat(envelope_tokens(e)),
        ((s1, l1), (l2, s2)),
    );
}

// ------------------------------------------------------------------ executable

fn two_strings<'a>(input: &'a [u8]) -> (res: IMAPResult<'a, (NString, NString)>)
    ensures
        g::agrees(res, two_strings_rule()(input@)),
{
    let (rest, a) = nstring(input)?;
    let (rest, _) = tag(rest, " ")?;
    let (rest, b) = nstring(rest)?;
    Ok((rest, (a, b)))
}

fn address<'a>(input: &'a [u8]) -> (res: IMAPResult<'a, Address>)
    ensures
        g::agrees(res, address_rule()(input@)),
{
    proof {
        reveal(address_rule);
    }
    let (rest, (name, adl)) = two_strings(input)?;
    let (rest, _) = tag(rest, " ")?;
    let (rest, (mailbox, host)) = two_strings(rest)?;
    let (rest, _) = tag(rest, ")")?;
    Ok((rest, Address { name, adl, mailbox, host }))
}

fn address_row<'a>(input: &'a [u8]) -> (res: IMAPResult<'a, Vec<Address>>)
    ensures
        g::agrees(res, shapes::enclosed(shapes::row(address_rule()))(input@)),
{
    let (rest, _) = tag(input, "(")?;
    let (rest, v) = repeat(rest, "(", address, Ghost(address_rule()))?;
    if v.len() == 0 {
        return Err(IMAPParseError::Error);
    }
    let (rest, _) = tag(rest, ")")?;
    Ok((rest, v))
}

fn addresses<'a>(input: &'a [u8]) -> (res: IMAPResult<'a, Vec<Address>>)
    ensures
        g::agrees(res, addresses_rule()(input@)),
{
    proof {
        reveal(addresses_rule);
    }
    match address_row(input) {
        Err(IMAPParseError::Error) => {},
        res => return res,
    }
    let (rest, _) = tag_no_case(input, "NIL")?;
    let none: Vec<Address> = Vec::new();
    assert(none.deep_view() =~= Seq::<AddressView>::empty());
    Ok((rest, none))
}

fn three_lists<'a>(input: &'a [u8]) -> (res: IMAPResult<
    'a,
    (Vec<Address>, (Vec<Address>, Vec<Address>)),
>)
    ensures
        g::agrees(res, three_lists_rule()(input@)),
{
    let (rest, a) = addresses(input)?;
    let (rest, _) = tag(rest, " ")?;
    let (rest, b) = addresses(rest)?;
    let (rest, _) = tag(rest, " ")?;
    let (rest, c) = addresses(rest)?;
    Ok((rest, (a, (b, c))))
}

pub fn envelope<'a>(input: &'a [u8]) -> (res: IMAPResult<'a, Envelope>)
    ensures
        g::agrees(res, envelope_rule()(input@)),
{
    proof {
        reveal(envelope_rule);
    }
    let (rest, _) = tag(input, "(")?;
    let (rest, (date, subject)) = two_strings(rest)?;
    let (rest, _) = tag(rest, " ")?;
    let (rest, (from, (sender, reply_to))) = three_lists(rest)?;
    let (rest, _) = tag(rest, " ")?;
    let (rest, (to, (cc, bcc))) = three_lists(rest)?;
    let (rest, _) = tag(rest, " ")?;
    let (rest, (in_reply_to, message_id)) = two_strings(rest)?;
    let (rest, _) = tag(rest, ")")?;
    Ok((
        rest,
        Envelope { date, subject, from, sender, reply_to, to, cc, bcc, in_reply_to, message_id },
    ))
}

pub fn write_two_strings(a: &NString, b: &NString, ctx: &mut EncodeContext)
    ensures
        final(ctx)@ == old(ctx)@ + two_strings_tokens(a.deep_view(), b.deep_view()),
{
    a.encode_ctx(ctx);
    write_argument(b, ctx);
    assert(ctx@ =~= old(ctx)@ + two_strings_tokens(a.deep_view(), b.deep_view()));
}

impl EncodeIntoContext for Address {
    open spec fn tokens(v: AddressView) -> Seq<Token> {
        address_tokens(v)
    }

    fn encode_ctx(&self, ctx: &mut EncodeContext) {
        write_two_strings(&self.name, &self.adl, ctx);
        ctx.write_text(" ");
        write_two_strings(&self.mailbox, &self.host, ctx);
        ctx.write_text(")");
        assert(ctx@ =~= old(ctx)@ + Self::tokens(self.deep_view()));
    }
}

fn write_addresses(v: &Vec<Address>, ctx: &mut EncodeContext)
    ensures
        final(ctx)@ == old(ctx)@ + addresses_tokens(v.deep_view()),
{
    if v.len() == 0 {
        ctx.write_text("NIL");
    } else {
        ctx.write_text("(");
        write_spread(v.as_slice(), "(", ctx);
        ctx.write_text(")");
    }
    assert(ctx@ =~= old(ctx)@ + addresses_tokens(v.deep_view()));
}

fn write_three_lists(
    a: &Vec<Address>,
    b: &Vec<Address>,
    c: &Vec<Address>,
    ctx: &mut EncodeContext,
)
    ensures
        final(ctx)@ == old(ctx)@ + three_lists_tokens(a.deep_view(), b.deep_view(), c.deep_view()),
{
    write_addresses(a, ctx);
    ctx.write_text(" ");
    write_addresses(b, ctx);
    ctx.write_text(" ");
    write_addresses(c, ctx);
    assert(ctx@ =~= old(ctx)@ + three_lists_tokens(a.deep_view(), b.deep_view(), c.deep_view()));
}

impl EncodeIntoContext for Envelope {
    open spec fn tokens(v: EnvelopeView) -> Seq<Token> {
        envelope_tokens(v)
    }

    fn encode_ctx(&self, ctx: &mut EncodeContext) {
        ctx.write_text("(");
        write_heading(self, ctx);
        ctx.write_text(" ");
        write_delivery(self, ctx);
        ctx.write_text(")");
        assert(ctx@ =~= old(ctx)@ + Self::tokens(self.deep_view()));
    }
}

/// What stands before the recipients.
fn write_heading(e: &Envelope, ctx: &mut EncodeContext)
    ensures
        final(ctx)@ == old(ctx)@ + heading_tokens(e.deep_view()),
{
    write_two_strings(&e.date, &e.subject, ctx);
    ctx.write_text(" ");
    write_three_lists(&e.from, &e.sender, &e.reply_to, ctx);
    assert(ctx@ =~= old(ctx)@ + heading_tokens(e.deep_view()));
}

/// The recipients and what stands behind them.
fn write_delivery(e: &Envelope, ctx: &mut EncodeContext)
    ensures
        final(ctx)@ == old(ctx)@ + delivery_tokens(e.deep_view()),
{
    write_three_lists(&e.to, &e.cc, &e.bcc, ctx);
    ctx.write_text(" ");
    write_two_strings(&e.in_reply_to, &e.message_id, ctx);
    assert(ctx@ =~= old(ctx)@ + delivery_tokens(e.deep_view()));
}

} // verus!
