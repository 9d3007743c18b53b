//! Sequence sets.
use vstd::prelude::*;

use crate::ascii;
use crate::ascii::is_digit;
use crate::encode;
use crate::encode::{join_serializable, EncodeContext, EncodeIntoContext, Token};
use crate::grammar as g;
use crate::grammar::{list1, tag, IMAPParseError, IMAPResult, Outcome, Rule};
use crate::number;
use crate::number::{are_digits, nz_number, parse_digits, write_number};
use crate::reading;

verus! {

/// A message number or unique identifier, or the largest one in use.
#[derive(Clone, Copy, Debug, PartialEq, Eq, Hash, Structural)]
pub enum SeqOrUid {
    /// A number other than zero.
    Value(u32),
    Asterisk,
}

#[derive(Clone, Copy, Debug, PartialEq, Eq, Hash, Structural)]
pub enum Sequence {
    Single(SeqOrUid),
    Range(SeqOrUid, SeqOrUid),
}

/// One or more numbers and ranges.
#[derive(Clone, Debug, PartialEq, Eq, Hash)]
pub struct SequenceSet(pub Vec<Sequence>);

impl DeepView for SeqOrUid {
    type V = SeqOrUid;

    open spec fn deep_view(&self) -> SeqOrUid {
        *self
    }
}

impl DeepView for Sequence {
    type V = Sequence;

    open spec fn deep_view(&self) -> Sequence {
        *self
    }
}

impl DeepView for SequenceSet {
    type V = Seq<Sequence>;

    open spec fn deep_view(&self) -> Seq<Sequence> {
        self.0@
    }
}

pub open spec fn number_wf(n: SeqOrUid) -> bool {
    n matches SeqOrUid::Value(n) ==> n > 0
}

pub open spec fn sequence_wf(s: Sequence) -> bool {
    match s {
        Sequence::Single(a) => number_wf(a),
        Sequence::Range(a, b) => number_wf(a) && number_wf(b),
    }
}

pub open spec fn set_wf(s: Seq<Sequence>) -> bool {
    s.len() > 0 && forall|i: int| 0 <= i < s.len() ==> sequence_wf(#[trigger] s[i])
}

// ----------------------------------------------------------------------- rules

/// `seq-number = nz-number / "*"`.
#[verifier::opaque]
pub open spec fn seq_number_rule() -> Rule<SeqOrUid> {
    g::alt(
        g::mapped(number::nz_number_rule(), |n: u32| SeqOrUid::Value(n)),
        g::value(SeqOrUid::Asterisk, g::text("*")),
    )
}

/// `seq-number ":" seq-number / seq-number`.
#[verifier::opaque]
pub open spec fn sequence_rule() -> Rule<Sequence> {
    g::alt(
        g::mapped(
            g::pair(g::terminated(seq_number_rule(), g::text(":")), seq_number_rule()),
            |p: (SeqOrUid, SeqOrUid)| Sequence::Range(p.0, p.1),
        ),
        g::mapped(seq_number_rule(), |n: SeqOrUid| Sequence::Single(n)),
    )
}

/// `sequence-set = (seq-number / seq-range) *("," (seq-number / seq-range))`.
#[verifier::opaque]
pub open spec fn sequence_set_rule() -> Rule<Seq<Sequence>> {
    g::separated_list1(g::text(","), sequence_rule())
}

pub open spec fn number_text(n: SeqOrUid) -> Seq<u8> {
    match n {
        SeqOrUid::Value(n) => number::decimal(n as nat),
        SeqOrUid::Asterisk => ascii::bytes_of("*"),
    }
}

pub open spec fn sequence_text(s: Sequence) -> Seq<u8> {
    match s {
        Sequence::Single(a) => number_text(a),
        Sequence::Range(a, b) => number_text(a) + ascii::bytes_of(":") + number_text(b),
    }
}

/// The parts of `s` between the bytes `b`.
pub open spec fn split(s: Seq<u8>, b: u8) -> Seq<Seq<u8>>
    decreases s.len(),
{
    if s.len() == 0 {
        seq![seq![]]
    } else if s[0] == b {
        seq![Seq::<u8>::empty()] + split(s.skip(1), b)
    } else {
        let rest = split(s.skip(1), b);
        rest.update(0, seq![s[0]] + rest[0])
    }
}

/// The number in a text, which is `*` or digits without a leading zero.
pub open spec fn number_of(s: Seq<u8>) -> Option<SeqOrUid> {
    if s == ascii::bytes_of("*") {
        Some(SeqOrUid::Asterisk)
    } else if s.len() > 0 && number::all_digits(s) && s[0] != '0' as u8 && number::digits_value(s)
        <= u32::MAX {
        Some(SeqOrUid::Value(number::digits_value(s) as u32))
    } else {
        None
    }
}

/// The number or range in a text.
pub open spec fn sequence_of(s: Seq<u8>) -> Option<Sequence> {
    let parts = split(s, ':' as u8);
    if parts.len() == 1 {
        match number_of(parts[0]) {
            Some(a) => Some(Sequence::Single(a)),
            None => None,
        }
    } else if parts.len() == 2 {
        match (number_of(parts[0]), number_of(parts[1])) {
            (Some(a), Some(b)) => Some(Sequence::Range(a, b)),
            _ => None,
        }
    } else {
        None
    }
}

pub open spec fn sequences_of(parts: Seq<Seq<u8>>) -> Option<Seq<Sequence>>
    decreases parts.len(),
{
    if parts.len() == 0 {
        Some(seq![])
    } else {
        match (sequences_of(parts.drop_last()), sequence_of(parts.last())) {
            (Some(front), Some(x)) => Some(front.push(x)),
            _ => None,
        }
    }
}

/// The set in a text, if the whole text is one.
pub open spec fn sequence_set_of(s: Seq<u8>) -> Option<Seq<Sequence>> {
    sequences_of(split(s, ',' as u8))
}

// ---------------------------------------------------------------------- lemmas

pub proof fn lemma_sequences_lawful()
    ensures
        g::lawful(seq_number_rule()),
        g::lawful(sequence_rule()),
        g::lawful(sequence_set_rule()),
{
    broadcast use g::group_lawful;

    reveal(seq_number_rule);
    reveal(sequence_rule);
    reveal(sequence_set_rule);
    number::lemma_numbers_lawful();
}

proof fn lemma_seq_number_reads(n: SeqOrUid, t: Seq<u8>)
    requires
        number_wf(n),
        t.len() > 0,
        !is_digit(t[0]),
    ensures
        seq_number_rule()(number_text(n) + t) == Outcome::Done(t, n),
{
    reveal(seq_number_rule);
    match n {
        SeqOrUid::Value(v) => number::lemma_number_reads(v, t),
        SeqOrUid::Asterisk => {
            reveal_strlit("*");
            let b = ascii::bytes_of("*");
            assert((b + t)[0] == '*' as u8);
            number::lemma_number_rejects(b + t);
            reading::lemma_tag_reads(b, t);
        },
    }
}

pub open spec fn after_sequence(t: Seq<u8>) -> bool {
    t.len() > 0 && !is_digit(t[0]) && t[0] != ':' as u8
}

proof fn lemma_sequence_reads(s: Sequence, t: Seq<u8>)
    requires
        sequence_wf(s),
        after_sequence(t),
    ensures
        sequence_rule()(sequence_text(s) + t) == Outcome::Done(t, s),
{
    reveal(sequence_rule);
    reveal_strlit(":");
    let colon = ascii::bytes_of(":");
    match s {
        Sequence::Single(a) => {
            lemma_seq_number_reads(a, t);
            reading::lemma_tag_rejects(colon, t);
        },
        Sequence::Range(a, b) => {
            let rest = colon + (number_text(b) + t);
            assert(sequence_text(s) + t =~= number_text(a) + rest);
            assert(rest[0] == ':' as u8);
            lemma_seq_number_reads(a, rest);
            reading::lemma_tag_reads(colon, number_text(b) + t);
            lemma_seq_number_reads(b, t);
        },
    }
}

/// A sequence set is read back, whatever follows but a digit, `:` or `,`.
pub proof fn lemma_sequence_set_reads(v: Seq<Sequence>, t: Seq<u8>)
    requires
        set_wf(v),
        after_sequence(t),
        t[0] != ',' as u8,
    ensures
        sequence_set_rule()(encode::flat(set_tokens(v)) + t) == Outcome::Done(t, v),
{
    broadcast use encode::group_flat;

    reveal(sequence_set_rule);
    reveal_strlit(",");
    let sep = ascii::bytes_of(",");
    let tokens = encode::parts::<Sequence>(v);
    let parts = encode::flat_parts(tokens);
    encode::lemma_flat_joined(tokens, encode::word(","));
    let follow = |x: Seq<u8>| after_sequence(x);
    assert forall|i: int| 0 <= i < parts.len() implies reading::reads_before(
        sequence_rule(),
        #[trigger] parts[i],
        v[i],
        follow,
    ) by {
        assert(parts[i] == sequence_text(v[i]));
        assert forall|x: Seq<u8>| follow(x) implies #[trigger] sequence_rule()(parts[i] + x)
            == Outcome::Done(x, v[i]) by {
            lemma_sequence_reads(v[i], x);
        }
    }
    assert forall|r: Seq<u8>| follow(#[trigger] (sep + r)) by {
        assert((sep + r)[0] == ',' as u8);
    }
    reading::lemma_tag_rejects(sep, t);
    reading::lemma_list_reads(sep, sequence_rule(), follow, parts, v, t);
}

pub open spec fn set_tokens(v: Seq<Sequence>) -> Seq<Token> {
    encode::joined(encode::parts::<Sequence>(v), encode::word(","))
}

/// The text of a set starts with a digit or a star.
pub proof fn lemma_set_first(v: Seq<Sequence>)
    requires
        set_wf(v),
    ensures
        encode::flat(set_tokens(v)).len() > 0,
        is_digit(encode::flat(set_tokens(v))[0]) || encode::flat(set_tokens(v))[0] == '*' as u8,
{
    broadcast use encode::group_flat;

    let tokens = encode::parts::<Sequence>(v);
    encode::lemma_flat_joined(tokens, encode::word(","));
    let parts = encode::flat_parts(tokens);
    assert(parts[0] == sequence_text(v[0]));
    assert(sequence_wf(v[0]));
    reveal_strlit("*");
    let a = match v[0] {
        Sequence::Single(a) => a,
        Sequence::Range(a, _) => a,
    };
    if let SeqOrUid::Value(n) = a {
        number::lemma_decimal(n as nat);
        assert(is_digit(number::decimal(n as nat)[0]));
    }
    assert(number_text(a).len() > 0);
    assert(parts[0][0] == number_text(a)[0]);
}

pub proof fn lemma_sequence_set_rejects(s: Seq<u8>)
    requires
        s.len() > 0,
        !is_digit(s[0]),
        s[0] != '*' as u8,
    ensures
        sequence_set_rule()(s) == Outcome::<Seq<Sequence>>::Reject,
{
    reveal(seq_number_rule);
    reveal(sequence_rule);
    reveal(sequence_set_rule);
    reveal_strlit("*");
    number::lemma_number_rejects(s);
    reading::lemma_tag_rejects(ascii::bytes_of("*"), s);
}

pub proof fn lemma_split_nonempty(s: Seq<u8>, b: u8)
    ensures
        split(s, b).len() > 0,
    decreases s.len(),
{
    if s.len() > 0 {
        lemma_split_nonempty(s.skip(1), b);
    }
}

/// How a text splits at the first place where the byte occurs.
pub proof fn lemma_split_at(s: Seq<u8>, b: u8, n: int)
    requires
        0 <= n <= s.len(),
        forall|i: int| 0 <= i < n ==> s[i] != b,
        n < s.len() ==> s[n] == b,
    ensures
        split(s, b) == (if n < s.len() {
            seq![s.take(n)] + split(s.skip(n + 1), b)
        } else {
            seq![s]
        }),
    decreases n,
{
    if s.len() == 0 {
        assert(s =~= Seq::<u8>::empty());
    } else if n == 0 {
        assert(s.take(0) =~= Seq::<u8>::empty());
    } else {
        let r = s.skip(1);
        assert forall|i: int| 0 <= i < n - 1 implies r[i] != b by {
            assert(r[i] == s[i + 1]);
        }
        lemma_split_at(r, b, n - 1);
        let rest = split(r, b);
        if n < s.len() {
            assert(r.skip(n) =~= s.skip(n + 1));
            assert(seq![s[0]] + r.take(n - 1) =~= s.take(n));
            assert(rest.update(0, seq![s[0]] + rest[0]) =~= seq![s.take(n)] + split(
                s.skip(n + 1),
                b,
            ));
        } else {
            assert(seq![s[0]] + r =~= s);
            assert(rest.update(0, seq![s[0]] + rest[0]) =~= seq![s]);
        }
    }
}

// ------------------------------------------------------------------ executable

fn find(s: &[u8], from: usize, b: u8) -> (n: usize)
    requires
        from <= s@.len(),
    ensures
        from <= n <= s@.len(),
        forall|i: int| from <= i < n ==> s@[i] != b,
        n < s@.len() ==> s@[n as int] == b,
{
    let mut n: usize = from;
    while n < s.len()
        invariant
            from <= n <= s@.len(),
            forall|i: int| from <= i < n ==> s@[i] != b,
        decreases s@.len() - n,
    {
        if s[n] == b {
            return n;
        }
        n = n + 1;
    }
    n
}

fn parse_number(s: &[u8]) -> (r: Option<SeqOrUid>)
    ensures
        r == number_of(s@),
{
    if ascii::is_text(s, "*") {
        return Some(SeqOrUid::Asterisk);
    }
    if s.len() == 0 || !are_digits(s) || s[0] == '0' as u8 {
        return None;
    }
    match parse_digits(s) {
        Some(n) => if n <= u32::MAX as u64 {
            Some(SeqOrUid::Value(n as u32))
        } else {
            None
        },
        None => None,
    }
}

fn parse_sequence(s: &[u8]) -> (r: Option<Sequence>)
    ensures
        r == sequence_of(s@),
{
    let colon: u8 = ':' as u8;
    let n: usize = find(s, 0, colon);
    proof {
        lemma_split_at(s@, colon, n as int);
    }
    if n == s.len() {
        return match parse_number(s) {
            Some(a) => Some(Sequence::Single(a)),
            None => None,
        };
    }
    let first: &[u8] = &s[0..n];
    let second: &[u8] = &s[n + 1..s.len()];
    assert(first@ =~= s@.take(n as int));
    assert(second@ =~= s@.skip(n + 1));
    let m: usize = find(second, 0, colon);
    proof {
        lemma_split_at(second@, colon, m as int);
        lemma_split_nonempty(second@.skip(m + 1), colon);
    }
    if m < second.len() {
        return None;
    }
    match (parse_number(first), parse_number(second)) {
        (Some(a), Some(b)) => Some(Sequence::Range(a, b)),
        _ => None,
    }
}

pub proof fn lemma_sequences_none(parts: Seq<Seq<u8>>, n: int)
    requires
        0 <= n < parts.len(),
        sequence_of(parts[n]) is None,
    ensures
        sequences_of(parts) is None,
    decreases parts.len(),
{
    if n < parts.len() - 1 {
        lemma_sequences_none(parts.drop_last(), n);
    }
}

/// Reads a whole text as a sequence set.
pub fn parse_sequence_set(s: &[u8]) -> (r: Option<SequenceSet>)
    ensures
        match r {
            Some(set) => sequence_set_of(s@) == Some(set.deep_view()),
            None => sequence_set_of(s@) is None,
        },
{
    let comma: u8 = ',' as u8;
    let mut set: Vec<Sequence> = Vec::new();
    let mut at: usize = 0;
    let ghost all = split(s@, comma);
    let ghost mut seen: int = 0;
    assert(s@.skip(0) =~= s@);
    assert(all.skip(0) =~= all);
    assert(all.take(0) =~= seq![]);
    loop
        invariant
            at <= s@.len(),
            comma == ',' as u8,
            all == split(s@, comma),
            0 <= seen <= all.len(),
            all.skip(seen) == split(s@.skip(at as int), comma),
            sequences_of(all.take(seen)) == Some(set@),
        decreases s@.len() - at,
    {
        let n: usize = find(s, at, comma);
        let part: &[u8] = &s[at..n];
        let ghost here = s@.skip(at as int);
        proof {
            lemma_split_at(here, comma, n - at);
            assert(here.take(n - at) =~= part@);
            assert(n == s@.len() ==> here =~= part@);
            assert(all.skip(seen).len() > 0);
            assert(all.skip(seen)[0] == part@);
            assert(all.take(seen + 1).drop_last() =~= all.take(seen));
            assert(all.take(seen + 1).last() == part@);
        }
        match parse_sequence(part) {
            Some(x) => set.push(x),
            None => {
                proof {
                    lemma_sequences_none(all, seen);
                }
                return None;
            },
        }
        proof {
            seen = seen + 1;
        }
        if n == s.len() {
            assert(all.skip(seen - 1).len() == 1);
            assert(all.take(seen) =~= all);
            return Some(SequenceSet(set));
        }
        proof {
            assert(here.skip(n - at + 1) =~= s@.skip(n + 1));
            assert(all.skip(seen) =~= all.skip(seen - 1).skip(1));
            assert(all.skip(seen) =~= split(s@.skip(n + 1), comma));
        }
        at = n + 1;
    }
}

fn seq_number<'a>(input: &'a [u8]) -> (res: IMAPResult<'a, SeqOrUid>)
    ensures
        g::agrees(res, seq_number_rule()(input@)),
{
    proof {
        reveal(seq_number_rule);
    }
    match nz_number(input) {
        Ok((rest, n)) => Ok((rest, SeqOrUid::Value(n))),
        Err(IMAPParseError::Error) => {
            let (rest, _) = tag(input, "*")?;
            Ok((rest, SeqOrUid::Asterisk))
        },
        Err(e) => Err(e),
    }
}

fn seq_range<'a>(input: &'a [u8]) -> (res: IMAPResult<'a, (SeqOrUid, SeqOrUid)>)
    ensures
        g::agrees(
            res,
            g::pair(g::terminated(seq_number_rule(), g::text(":")), seq_number_rule())(input@),
        ),
{
    let (rest, a) = seq_number(input)?;
    let (rest, _) = tag(rest, ":")?;
    let (rest, b) = seq_number(rest)?;
    Ok((rest, (a, b)))
}

fn sequence<'a>(input: &'a [u8]) -> (res: IMAPResult<'a, Sequence>)
    ensures
        g::agrees(res, sequence_rule()(input@)),
{
    proof {
        reveal(sequence_rule);
    }
    match seq_range(input) {
        Ok((rest, (a, b))) => Ok((rest, Sequence::Range(a, b))),
        Err(IMAPParseError::Error) => {
            let (rest, a) = seq_number(input)?;
            Ok((rest, Sequence::Single(a)))
        },
        Err(e) => Err(e),
    }
}

pub fn sequence_set<'a>(input: &'a [u8]) -> (res: IMAPResult<'a, SequenceSet>)
    ensures
        g::agrees(res, sequence_set_rule()(input@)),
{
    proof {
        reveal(sequence_set_rule);
    }
    let (rest, set) = list1(input, ",", sequence, Ghost(sequence_rule()))?;
    assert(set.deep_view() =~= set@);
    Ok((rest, SequenceSet(set)))
}

fn write_seq_number(ctx: &mut EncodeContext, n: SeqOrUid)
    ensures
        final(ctx)@ == old(ctx)@ + encode::plain(number_text(n)),
{
    match n {
        SeqOrUid::Value(n) => write_number(ctx, n as u64),
        SeqOrUid::Asterisk => ctx.write_text("*"),
    }
}

impl EncodeIntoContext for Sequence {
    open spec fn tokens(v: Sequence) -> Seq<Token> {
        encode::plain(sequence_text(v))
    }

    fn encode_ctx(&self, ctx: &mut EncodeContext) {
        broadcast use encode::lemma_plain_add;

        match *self {
            Sequence::Single(a) => write_seq_number(ctx, a),
            Sequence::Range(a, b) => {
                write_seq_number(ctx, a);
                ctx.write_text(":");
                write_seq_number(ctx, b);
            },
        }
        assert(ctx@ =~= old(ctx)@ + encode::plain(sequence_text(*self)));
        assert(ctx@ =~= old(ctx)@ + Self::tokens(self.deep_view()));
    }
}

impl EncodeIntoContext for SequenceSet {
    open spec fn tokens(v: Seq<Sequence>) -> Seq<Token> {
        set_tokens(v)
    }

    fn encode_ctx(&self, ctx: &mut EncodeContext) {
        let items: &[Sequence] = self.0.as_slice();
        assert(items.deep_view() =~= self.0@);
        join_serializable(items, ",", ctx);
        assert(ctx@ =~= old(ctx)@ + Self::tokens(self.deep_view()));
    }
}

} // verus!
