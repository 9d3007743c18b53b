//! How a decoder takes its input in, line by line.
use vstd::prelude::*;

use crate::ascii;
use crate::encode::LiteralMode;
use crate::fragmentizer as lines;
use crate::fragmentizer::runs;
use crate::fragmentizer::streaming as steps;
use crate::fragmentizer::streaming::{
    DecoderView, EventView, LiteralDescriptor, StepResult, StreamingResponseError,
};
use crate::fragmentizer::transfers;
use crate::fragmentizer::{FragmentInfo, LatestByte, LineEnding, LiteralAnnouncement};
use crate::grammar::Outcome;
use crate::number;
use crate::response;
use crate::response::ResponseView;

verus! {

// ------------------------------------------------------------------ definitions

/// What stands between the opening bracket of an announcement and the end of the
/// line.
pub open spec fn brackets_text(d: Seq<u8>, mode: LiteralMode) -> Seq<u8> {
    if mode == LiteralMode::NonSync {
        d + seq![43u8, 125u8, 13u8]
    } else {
        d + seq![125u8, 13u8]
    }
}

/// The line, up to its line feed, ends with an announcement whose opening bracket
/// stands at `k`.
pub open spec fn ends_with(x: Seq<u8>, k: int, d: Seq<u8>, mode: LiteralMode) -> bool {
    &&& 0 <= k < x.len()
    &&& x[k] == 123
    &&& transfers::is_numeral(d)
    &&& number::digits_value(d) <= u64::MAX
    &&& x.skip(k + 1) == brackets_text(d, mode)
}

/// The line, up to its line feed, announces such a literal.
pub open spec fn announces(x: Seq<u8>, a: LiteralAnnouncement) -> bool {
    exists|k: int, d: Seq<u8>|
        #[trigger] ends_with(x, k, d, a.mode) && number::digits_value(d) == a.length
}

/// How many bytes stand in front of the line feed.
pub open spec fn is_first_feed(input: Seq<u8>, n: int) -> bool {
    0 <= n < input.len() && input[n] == 10 && forall|i: int| 0 <= i < n ==> #[trigger] input[i] != 10
}

/// The memory that a message takes, this many bytes added.
pub open spec fn taken_up(s: DecoderView, more: int) -> int {
    transfers::at_hand(s, s.syntax).len() + transfers::at_hand(s, s.normalized).len() + s.line.len()
        + transfers::at_hand(s, s.literals).len() * vstd::layout::size_of::<LiteralDescriptor>()
        + more
}

pub open spec fn fails(r: StepResult, e: StreamingResponseError) -> bool {
    r == Err::<Option<EventView>, StreamingResponseError>(e)
}

pub open spec fn gives(r: StepResult, e: EventView) -> bool {
    r == Ok::<Option<EventView>, StreamingResponseError>(Some(e))
}

// ---------------------------------------------------------------------- lemmas

proof fn lemma_ends_with_is_found(x: Seq<u8>, k: int, d: Seq<u8>, mode: LiteralMode)
    requires
        ends_with(x, k, d, mode),
    ensures
        lines::advanced(LatestByte::Other, x) == (LatestByte::Cr {
            announcement: Some(
                LiteralAnnouncement { mode, length: number::digits_value(d) as u64 },
            ),
        }),
{
    let head = x.take(k);
    let text = lines::announcement_of(d, mode);
    transfers::lemma_numeral(d);
    assert(x =~= head + seq![123u8] + x.skip(k + 1));
    assert(x =~= head + text);
    lines::lemma_advanced_add(LatestByte::Other, head, text);
    lines::lemma_digits_announce(lines::advanced(LatestByte::Other, head), d, mode);
}

/// A line tells of an announcement exactly if it ends with one.
pub proof fn lemma_announces(x: Seq<u8>, a: LiteralAnnouncement)
    ensures
        announces(x, a) <==> lines::advanced(LatestByte::Other, x) == (LatestByte::Cr {
            announcement: Some(a),
        }),
{
    if announces(x, a) {
        let (k, d) = choose|k: int, d: Seq<u8>|
            #[trigger] ends_with(x, k, d, a.mode) && number::digits_value(d) == a.length;
        lemma_ends_with_is_found(x, k, d, a.mode);
    }
    if lines::advanced(LatestByte::Other, x) == (LatestByte::Cr { announcement: Some(a) }) {
        let (k, d) = transfers::lemma_told(x);
        assert(x.skip(k + 1) =~= brackets_text(d, a.mode));
        assert(ends_with(x, k, d, a.mode));
    }
}

// ------------------------------------------------------------------------ laws

/// A line is taken to announce a literal exactly if it ends with digits between
/// brackets, with or without a plus behind them.
pub proof fn law_announcements(x: Seq<u8>, a: LiteralAnnouncement)
    ensures
        x.len() > 0 && x.last() == 13 ==> (announces(x, a) <==> lines::line_info(
            lines::advanced(LatestByte::Other, x),
        ) == (FragmentInfo::Line { announcement: Some(a), ending: LineEnding::CrLf })),
        x.len() > 0 && x.last() == 13 && (forall|b: LiteralAnnouncement| !announces(x, b))
            ==> lines::line_info(lines::advanced(LatestByte::Other, x)) == (FragmentInfo::Line {
            announcement: None,
            ending: LineEnding::CrLf,
        }),
        x.len() == 0 || x.last() != 13 ==> (lines::line_info(
            lines::advanced(LatestByte::Other, x),
        ) matches FragmentInfo::Line { ending, .. } && ending == LineEnding::Lf),
{
    lemma_announces(x, a);
    let state = lines::advanced(LatestByte::Other, x);
    if x.len() > 0 && x.last() == 13 {
        if let LatestByte::Cr { announcement: Some(b) } = state {
            lemma_announces(x, b);
        }
    }
}

/// A new decoder has nothing, and the maximum that it was made with.
pub proof fn law_new_decoders(maximum: usize)
    ensures
        ({
            let s = steps::initial(maximum);
            &&& transfers::is_fresh(s)
            &&& !s.complete
            &&& s.input.len() == 0
            &&& s.consumed == 0
            &&& s.maximum == maximum
            &&& s.literals.len() == 0
        }),
{
}

/// Input waits behind what waits already, up to 65536 bytes in all. More is
/// refused, and the decoder has failed.
pub proof fn law_input_waits(s: DecoderView, bytes: Seq<u8>)
    requires
        !s.failed,
    ensures
        ({
            let (after, r) = steps::enqueued(s, bytes);
            &&& s.input.len() + bytes.len() <= 65536 ==> r is Ok && after == (DecoderView {
                input: s.input + bytes,
                ..s
            })
            &&& s.input.len() + bytes.len() > 65536 ==> r == Err::<(), StreamingResponseError>(
                StreamingResponseError::BufferLimit,
            ) && after == (DecoderView { failed: true, ..s })
        }),
{
}

/// Input without a line feed is kept where there is memory for it, and the
/// decoder waits for more. What is left of a complete message goes.
pub proof fn law_parts_of_lines_are_kept(s: DecoderView)
    requires
        !s.failed,
        s.remaining is None,
        forall|i: int| 0 <= i < s.input.len() ==> #[trigger] s.input[i] != 10,
    ensures
        ({
            let (after, r) = steps::stepped(s);
            &&& taken_up(s, s.input.len() as int) > s.maximum ==> fails(
                r,
                StreamingResponseError::BufferLimit,
            ) && after.failed
            &&& taken_up(s, s.input.len() as int) <= s.maximum ==> r == Ok::<
                Option<EventView>,
                StreamingResponseError,
            >(None) && after.line == s.line + s.input && after.input.len() == 0 && !after.failed
                && !after.complete && after.syntax == transfers::at_hand(s, s.syntax)
                && after.normalized == transfers::at_hand(s, s.normalized) && after.literals
                == transfers::at_hand(s, s.literals)
        }),
{
    let t = steps::renewed(s);
    lines::lemma_line_feed_is(t.input, t.input.len() as int);
    assert(t.input.take(t.input.len() as int) =~= t.input);
    assert(t.input.skip(t.input.len() as int) =~= seq![]);
    lemma_taken_up(s, t.input.len() as int);
}

proof fn lemma_taken_up(s: DecoderView, more: int)
    ensures
        steps::accounted(steps::renewed(s)) + more == taken_up(s, more),
{
    if s.complete {
        assert(steps::renewed(s).literals =~= transfers::at_hand(s, s.literals));
    }
}

/// What happens to a line that is there as a whole, `n` bytes of input and a line
/// feed: it is refused where memory is short or the line does not end as lines
/// do. A line that announces nothing completes the response or is refused, by
/// what the codec makes of it. So does a line that ends like an announcement but
/// is the end of a response. Where the codec asks for a literal of the announced
/// length, it starts, unless the announcement is one that no response may have.
#[verifier::spinoff_prover]
pub proof fn law_lines_are_taken(s: DecoderView, n: int, a: Option<LiteralAnnouncement>)
    requires
        runs::reachable(s),
        !s.failed,
        s.remaining is None,
        is_first_feed(s.input, n),
        a matches Some(x) ==> announces(s.line + s.input.take(n), x),
        a is None ==> forall|x: LiteralAnnouncement| !announces(s.line + s.input.take(n), x),
    ensures
        ({
            let x = s.line + s.input.take(n);
            let line = x.push(10u8);
            let text = transfers::at_hand(s, s.normalized) + line;
            let (after, r) = steps::stepped(s);
            let size = vstd::layout::size_of::<LiteralDescriptor>() as int;
            let used = taken_up(s, n + 1);
            let ends = x.len() > 0 && x.last() == 13;
            let read = response::response_rule()(text);
            let whole = read matches Outcome::Done(rest, _) && rest.len() == 0;
            &&& used > s.maximum ==> fails(r, StreamingResponseError::BufferLimit)
            &&& used <= s.maximum && !ends ==> fails(r, StreamingResponseError::Syntax)
            &&& used <= s.maximum && ends && a is None ==> {
                &&& used + 2 * line.len() > s.maximum ==> fails(
                    r,
                    StreamingResponseError::BufferLimit,
                )
                &&& used + 2 * line.len() <= s.maximum && whole ==> gives(
                    r,
                    EventView::Complete { structure: read->Done_1 },
                ) && after.complete && after.syntax == transfers::at_hand(s, s.syntax) + line
                    && after.literals == transfers::at_hand(s, s.literals) && after.input
                    == s.input.skip(n + 1)
                &&& used + 2 * line.len() <= s.maximum && !whole ==> fails(
                    r,
                    StreamingResponseError::Syntax,
                )
            }
            &&& used <= s.maximum && ends && a is Some ==> {
                let more = a->Some_0;
                let asks = read == Outcome::<ResponseView>::More(Some(more.length));
                &&& used + line.len() > s.maximum ==> fails(r, StreamingResponseError::BufferLimit)
                &&& used + line.len() <= s.maximum && whole ==> gives(
                    r,
                    EventView::Complete { structure: read->Done_1 },
                ) && after.complete && after.syntax == transfers::at_hand(s, s.syntax) + line
                    && after.literals == transfers::at_hand(s, s.literals) && after.input
                    == s.input.skip(n + 1)
                &&& used + line.len() <= s.maximum && !whole && !asks ==> fails(
                    r,
                    StreamingResponseError::Syntax,
                )
                &&& used + line.len() <= s.maximum && asks && more.mode == LiteralMode::NonSync
                    ==> fails(r, StreamingResponseError::NonSyncResponse)
                &&& used + line.len() <= s.maximum && asks && more.mode == LiteralMode::Sync
                    ==> forall|k: int, d: Seq<u8>|
                    #[trigger] transfers::announces_at(line, k, d, more.length)
                        && transfers::at_hand(s, s.literals).len() <= u32::MAX ==> (if used
                        + line.len() + k + 35 + size > s.maximum {
                        fails(r, StreamingResponseError::BufferLimit)
                    } else {
                        r matches Ok(Some(EventView::LiteralStart { prefix, .. })) && prefix
                            == line
                    })
            }
        }),
{
    let (maximum, operations) = choose|maximum: usize, operations: Seq<runs::Operation>|
        s == #[trigger] runs::reached(maximum, operations);
    runs::law_every_state_is_kept(maximum, operations);
    let t = steps::renewed(s);
    let x = s.line + s.input.take(n);
    let line = x.push(10u8);
    lines::lemma_line_feed_is(t.input, n);
    transfers::lemma_line_tells(t);
    assert(t.line + t.input.take(n + 1) =~= line);
    assert(line.drop_last() =~= x);
    lemma_taken_up(s, n + 1);
    let taken = steps::line_taken(t);
    assert(steps::accounted(taken) == taken_up(s, n + 1));
    assert(taken.normalized + taken.line == transfers::at_hand(s, s.normalized) + line) by {
        if s.complete {
            assert(t.normalized =~= transfers::at_hand(s, s.normalized));
        }
    }
    assert(taken.syntax == transfers::at_hand(s, s.syntax)) by {
        assert(t.syntax =~= transfers::at_hand(s, s.syntax));
    }
    assert(taken.literals == transfers::at_hand(s, s.literals)) by {
        assert(t.literals =~= transfers::at_hand(s, s.literals));
    }
    lemma_line_state(x, a);
    if let Some(more) = a {
        assert forall|k: int, d: Seq<u8>|
            #[trigger] transfers::announces_at(line, k, d, more.length) implies steps::last_bracket(
            line,
        ) == Some(k) by {
            transfers::lemma_announcing_bracket(line, k, d, more.length);
        }
        transfers::lemma_stand_in(taken.literals.len() as u32);
        lemma_announced_line_has_a_bracket(line, x, more);
        lemma_announced_line_is_taken(taken, more);
    }
}

/// What is known of a line by what it announces.
proof fn lemma_line_state(x: Seq<u8>, a: Option<LiteralAnnouncement>)
    requires
        a matches Some(b) ==> announces(x, b),
        a is None ==> forall|b: LiteralAnnouncement| !announces(x, b),
    ensures
        ({
            let state = lines::advanced(LatestByte::Other, x);
            let ends = x.len() > 0 && x.last() == 13;
            &&& ends ==> state == (LatestByte::Cr { announcement: a })
            &&& !ends ==> !(state is Cr)
        }),
{
    let state = lines::advanced(LatestByte::Other, x);
    match a {
        Some(b) => lemma_announces(x, b),
        None => {
            if let LatestByte::Cr { announcement: Some(b) } = state {
                lemma_announces(x, b);
            }
        },
    }
}

proof fn lemma_announced_line_has_a_bracket(line: Seq<u8>, x: Seq<u8>, a: LiteralAnnouncement)
    requires
        announces(x, a),
        line == x.push(10u8),
    ensures
        a.mode == LiteralMode::Sync ==> exists|k: int, d: Seq<u8>|
            #[trigger] transfers::announces_at(line, k, d, a.length),
{
    let (k, d) = choose|k: int, d: Seq<u8>|
        #[trigger] ends_with(x, k, d, a.mode) && number::digits_value(d) == a.length;
    if a.mode == LiteralMode::Sync {
        assert(line.skip(k + 1) =~= x.skip(k + 1).push(10u8));
        assert(line.skip(k + 1) =~= transfers::length_text(d));
        assert(transfers::announces_at(line, k, d, a.length));
    }
}

proof fn lemma_announced_line_is_taken(s: DecoderView, a: LiteralAnnouncement)
    ensures
        ({
            let r = steps::announced_step(s, a).1;
            let after = steps::announced_step(s, a).0;
            let read = response::response_rule()(s.normalized + s.line);
            let whole = read matches Outcome::Done(rest, _) && rest.len() == 0;
            let asks = read == Outcome::<ResponseView>::More(Some(a.length));
            &&& !steps::fits(s, s.line.len() as int) ==> fails(
                r,
                StreamingResponseError::BufferLimit,
            )
            &&& steps::fits(s, s.line.len() as int) && whole ==> gives(
                r,
                EventView::Complete { structure: read->Done_1 },
            ) && after.complete && after.syntax == s.syntax + s.line && after.literals
                == s.literals && after.input == s.input
            &&& steps::fits(s, s.line.len() as int) && !whole && !asks ==> fails(
                r,
                StreamingResponseError::Syntax,
            )
            &&& steps::fits(s, s.line.len() as int) && asks ==> steps::announced_step(s, a)
                == steps::literal_start(s, a)
        }),
{
}

// ------------------------------------------------------------------- references

/// The value of a digit in base 16, in either case.
pub open spec fn digit16(b: u8) -> Option<int> {
    if 48 <= b <= 57 {
        Some(b - 48)
    } else if 65 <= b <= 70 {
        Some(b - 55)
    } else if 97 <= b <= 102 {
        Some(b - 87)
    } else {
        None
    }
}

/// The number that eight digits in base 16 stand for.
pub open spec fn eight_stand_for(d: Seq<u8>, n: int) -> bool {
    &&& d.len() == 8
    &&& forall|i: int| 0 <= i < 8 ==> digit16(#[trigger] d[i]) is Some
    &&& n == 0x1000_0000 * digit16(d[0])->Some_0 + 0x100_0000 * digit16(d[1])->Some_0 + 0x10_0000
        * digit16(d[2])->Some_0 + 0x1_0000 * digit16(d[3])->Some_0 + 0x1000 * digit16(d[4])->Some_0
        + 0x100 * digit16(d[5])->Some_0 + 0x10 * digit16(d[6])->Some_0 + digit16(d[7])->Some_0
}

proof fn lemma_eight(d: Seq<u8>)
    requires
        d.len() == 8,
    ensures
        steps::all_hex(d) <==> forall|i: int| 0 <= i < 8 ==> digit16(#[trigger] d[i]) is Some,
        steps::all_hex(d) ==> eight_stand_for(d, steps::hex_number(d) as int),
{
    assert forall|i: int| 0 <= i < 8 implies (digit16(#[trigger] d[i]) is Some) == (
    steps::hex_value(d[i]) is Some) by {}
    if steps::all_hex(d) {
        reveal_with_fuel(steps::hex_number, 9);
        assert(steps::hex_value(d[0]) is Some && steps::hex_value(d[1]) is Some
            && steps::hex_value(d[2]) is Some && steps::hex_value(d[3]) is Some
            && steps::hex_value(d[4]) is Some && steps::hex_value(d[5]) is Some
            && steps::hex_value(d[6]) is Some && steps::hex_value(d[7]) is Some);
        let d7 = d.drop_last();
        let d6 = d7.drop_last();
        let d5 = d6.drop_last();
        let d4 = d5.drop_last();
        let d3 = d4.drop_last();
        let d2 = d3.drop_last();
        let d1 = d2.drop_last();
        let d0 = d1.drop_last();
        assert(steps::hex_number(d0) == 0);
        assert(steps::hex_number(d1) == digit16(d[0])->Some_0);
        assert(steps::hex_number(d2) == steps::hex_number(d1) * 16 + digit16(d[1])->Some_0);
        assert(steps::hex_number(d3) == steps::hex_number(d2) * 16 + digit16(d[2])->Some_0);
        assert(steps::hex_number(d4) == steps::hex_number(d3) * 16 + digit16(d[3])->Some_0);
        assert(steps::hex_number(d5) == steps::hex_number(d4) * 16 + digit16(d[4])->Some_0);
        assert(steps::hex_number(d6) == steps::hex_number(d5) * 16 + digit16(d[5])->Some_0);
        assert(steps::hex_number(d7) == steps::hex_number(d6) * 16 + digit16(d[6])->Some_0);
        assert(steps::hex_number(d) == steps::hex_number(d7) * 16 + digit16(d[7])->Some_0);
    }
}

/// A text refers to a literal of a response exactly if it is the marker and eight
/// digits in base 16, in either case, of the place of that literal.
pub proof fn law_references(data: Seq<u8>, literals: Seq<LiteralDescriptor>, n: int)
    requires
        steps::indexed(literals),
        data.len() < 22 || data[21] != 43,
    ensures
        data.len() == 29 && data.take(21) == ascii::bytes_of("~imap-stream-literal~")
            && eight_stand_for(data.skip(21), n) && n < literals.len() ==> steps::referenced(
            data,
            literals,
        ) == Some(literals[n]),
        steps::referenced(data, literals) matches Some(l) ==> data.len() == 29 && data.take(21)
            == ascii::bytes_of("~imap-stream-literal~") && eight_stand_for(
            data.skip(21),
            l.index as int,
        ) && l.index < literals.len() && l == literals[l.index as int],
{
    reveal_strlit("~imap-stream-literal~");
    let p = steps::marker_prefix();
    assert(p.len() == 21);
    if data.len() == 29 {
        let d = data.skip(21);
        lemma_eight(d);
        assert(d[0] == data[21]);
        if data.take(21) == p {
            assert(p.is_prefix_of(data));
        }
        if p.is_prefix_of(data) {
            assert(data.take(21) =~= p);
        }
        if eight_stand_for(d, n) {
            assert(steps::all_hex(d));
            assert(n == steps::hex_number(d));
        }
    }
    if steps::referenced(data, literals) is Some {
        assert(data.skip(21).len() == 8);
    }
}

/// A zero in front changes no number.
proof fn lemma_zero_in_front(d: Seq<u8>)
    ensures
        steps::hex_number(seq![48u8] + d) == steps::hex_number(d),
    decreases d.len(),
{
    let e = seq![48u8] + d;
    if d.len() == 0 {
        assert(e.drop_last() =~= seq![]);
        assert(steps::hex_number(e.drop_last()) == 0);
        assert(e.last() == 48);
    } else {
        lemma_zero_in_front(d.drop_last());
        assert(e.drop_last() =~= seq![48u8] + d.drop_last());
        assert(e.last() == d.last());
    }
}

/// The first of the eight may be a plus, which counts as a zero.
pub proof fn law_signed_references(data: Seq<u8>, literals: Seq<LiteralDescriptor>, n: int)
    requires
        steps::indexed(literals),
        data.len() == 29,
        data[21] == 43,
    ensures
        data.take(21) == ascii::bytes_of("~imap-stream-literal~") && eight_stand_for(
            seq![48u8] + data.skip(22),
            n,
        ) && n < literals.len() ==> steps::referenced(data, literals) == Some(literals[n]),
        steps::referenced(data, literals) matches Some(l) ==> data.take(21) == ascii::bytes_of(
            "~imap-stream-literal~",
        ) && eight_stand_for(seq![48u8] + data.skip(22), l.index as int) && l.index
            < literals.len() && l == literals[l.index as int],
{
    reveal_strlit("~imap-stream-literal~");
    let p = steps::marker_prefix();
    assert(p.len() == 21);
    let d = data.skip(21);
    let e = data.skip(22);
    let z = seq![48u8] + e;
    assert(d[0] == 43);
    assert(d.skip(1) =~= e);
    lemma_eight(z);
    lemma_zero_in_front(e);
    assert(!steps::all_hex(d)) by {
        assert(steps::hex_value(d[0]) is None);
    }
    assert(steps::all_hex(z) == steps::all_hex(e)) by {
        if steps::all_hex(z) {
            assert forall|i: int| 0 <= i < e.len() implies steps::hex_value(
                #[trigger] e[i],
            ) is Some by {
                assert(z[i + 1] == e[i]);
            }
        }
        if steps::all_hex(e) {
            assert forall|i: int| 0 <= i < z.len() implies steps::hex_value(
                #[trigger] z[i],
            ) is Some by {
                if i > 0 {
                    assert(z[i] == e[i - 1]);
                }
            }
        }
    }
    if data.take(21) == p {
        assert(p.is_prefix_of(data));
    }
    if p.is_prefix_of(data) {
        assert(data.take(21) =~= p);
    }
    if eight_stand_for(z, n) {
        assert(steps::all_hex(z));
        assert(n == steps::hex_number(z));
    }
}

/// Each error has its own name.
pub proof fn law_errors_are_named()
    ensures
        steps::error_name(StreamingResponseError::BufferLimit) == "BufferLimit"@,
        steps::error_name(StreamingResponseError::Syntax) == "Syntax"@,
        steps::error_name(StreamingResponseError::NonSyncResponse) == "NonSyncResponse"@,
        steps::error_name(StreamingResponseError::NullLiteral) == "NullLiteral"@,
        steps::error_name(StreamingResponseError::Failed) == "Failed"@,
{
}

} // verus!
