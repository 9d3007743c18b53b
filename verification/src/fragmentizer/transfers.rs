//! How literals pass through a decoder, by what comes in and what goes out.
use vstd::prelude::*;

use crate::ascii;
use crate::encode;
use crate::encode::{LiteralMode, Token};
use crate::fragmentizer as lines;
use crate::fragmentizer::runs;
use crate::fragmentizer::streaming as steps;
use crate::fragmentizer::streaming::{
    DecoderView, EventView, LiteralDescriptor, StreamingResponseError,
};
use crate::fragmentizer::{LatestByte, LiteralAnnouncement};
use crate::grammar::Outcome;
use crate::number;
use crate::response;
use crate::response::ResponseView;
use crate::strings;

verus! {

// ------------------------------------------------------------------ definitions

/// Digits.
pub open spec fn is_numeral(b: Seq<u8>) -> bool {
    b.len() > 0 && forall|i: int| 0 <= i < b.len() ==> 48 <= #[trigger] b[i] <= 57
}

/// What stands behind the opening bracket of an announcement.
pub open spec fn length_text(d: Seq<u8>) -> Seq<u8> {
    d + seq![125u8, 13u8, 10u8]
}

/// The line ends with the announcement of a literal of this length, whose opening
/// bracket stands at `k`.
pub open spec fn announces_at(line: Seq<u8>, k: int, d: Seq<u8>, length: u64) -> bool {
    &&& 0 <= k < line.len()
    &&& line[k] == 123
    &&& is_numeral(d)
    &&& number::digits_value(d) == length
    &&& line.skip(k + 1) == length_text(d)
}

/// A byte stands before the bracket, and it is the mark of a literal that may
/// hold any bytes.
pub open spec fn is_marked(line: Seq<u8>, k: int) -> bool {
    k > 0 && line[k - 1] == 126
}

/// A digit in base 16.
pub open spec fn sixteenth(n: int) -> u8 {
    if n < 10 {
        (48 + n) as u8
    } else {
        (55 + n) as u8
    }
}

/// Eight digits in base 16.
pub open spec fn eight_digits(n: int) -> Seq<u8> {
    seq![
        sixteenth(n / 0x1000_0000 % 16),
        sixteenth(n / 0x100_0000 % 16),
        sixteenth(n / 0x10_0000 % 16),
        sixteenth(n / 0x1_0000 % 16),
        sixteenth(n / 0x1000 % 16),
        sixteenth(n / 0x100 % 16),
        sixteenth(n / 0x10 % 16),
        sixteenth(n % 16),
    ]
}

/// The text that stands for a literal: one of 29 bytes that name its place.
pub open spec fn stand_in(index: int) -> Seq<u8> {
    ascii::bytes_of("{29}\r\n~imap-stream-literal~") + eight_digits(index)
}

/// What belongs to the message at hand: nothing, where the last one is complete.
pub open spec fn at_hand<T>(s: DecoderView, v: Seq<T>) -> Seq<T> {
    if s.complete {
        seq![]
    } else {
        v
    }
}

// ---------------------------------------------------------------------- lemmas

pub proof fn lemma_numeral(d: Seq<u8>)
    ensures
        is_numeral(d) <==> d.len() > 0 && number::all_digits(d),
{
    if number::all_digits(d) {
        let class = |x: u8| ascii::is_digit(x);
        assert forall|i: int| 0 <= i < d.len() implies 48 <= #[trigger] d[i] <= 57 by {
            assert(class(d[i]));
        }
    }
}

/// Where the state of a line tells of an announcement, the line holds it.
#[verifier::spinoff_prover]
pub proof fn lemma_told(x: Seq<u8>) -> (r: (int, Seq<u8>))
    ensures
        ({
            let k = r.0;
            let d = r.1;
            let tail = x.skip(k + 1);
            let told = 0 <= k < x.len() && x[k] == 123 && is_numeral(d);
            match lines::advanced(LatestByte::Other, x) {
                LatestByte::OpeningBracket => 0 <= k == x.len() - 1 && x[k] == 123,
                LatestByte::Digit { length } => told && number::digits_value(d) == length && tail
                    == d,
                LatestByte::Plus { length } => told && number::digits_value(d) == length && tail
                    == d + seq![43u8],
                LatestByte::ClosingBracket { announcement } => told && number::digits_value(d)
                    == announcement.length && tail == (if announcement.mode
                    == LiteralMode::NonSync {
                    d + seq![43u8] + seq![125u8]
                } else {
                    d + seq![125u8]
                }),
                LatestByte::Cr { announcement: Some(announcement) } => told
                    && number::digits_value(d) == announcement.length && tail == (
                if announcement.mode == LiteralMode::NonSync {
                    d + seq![43u8] + seq![125u8] + seq![13u8]
                } else {
                    d + seq![125u8] + seq![13u8]
                }),
                _ => true,
            }
        }),
    decreases x.len(),
{
    if x.len() == 0 {
        (0, x)
    } else {
        let y = x.drop_last();
        let b = x.last();
        let (k, d) = lemma_told(y);
        let before = lines::advanced(LatestByte::Other, y);
        if b == 123 {
            (x.len() - 1, d)
        } else {
            if 0 <= k < y.len() {
                assert(x.skip(k + 1) =~= y.skip(k + 1).push(b));
                assert(y.skip(k + 1).push(b) =~= y.skip(k + 1) + seq![b]);
            }
            match before {
                LatestByte::OpeningBracket => {
                    let one = seq![b];
                    assert(x.skip(k + 1) =~= one);
                    assert(one.drop_last() =~= seq![]);
                    assert(number::digits_value(one.drop_last()) == 0);
                    (k, one)
                },
                LatestByte::Digit { .. } => {
                    if ascii::is_digit(b) {
                        let more = d.push(b);
                        assert(more.drop_last() =~= d);
                        assert(x.skip(k + 1) =~= more);
                        (k, more)
                    } else {
                        (k, d)
                    }
                },
                _ => (k, d),
            }
        }
    }
}

proof fn lemma_last_bracket_is(line: Seq<u8>, k: int)
    requires
        0 <= k < line.len(),
        line[k] == 123,
        forall|i: int| k < i < line.len() ==> #[trigger] line[i] != 123,
    ensures
        steps::last_bracket(line) == Some(k),
    decreases line.len(),
{
    if k < line.len() - 1 {
        assert(line[line.len() - 1] != 123);
        lemma_last_bracket_is(line.drop_last(), k);
    }
}

/// The bracket of an announcement is the last one of its line.
pub proof fn lemma_announcing_bracket(line: Seq<u8>, k: int, d: Seq<u8>, length: u64)
    requires
        announces_at(line, k, d, length),
    ensures
        steps::last_bracket(line) == Some(k),
{
    assert(line.skip(k + 1).len() == line.len() - k - 1);
    assert(length_text(d).len() == d.len() + 3);
    assert forall|i: int| k < i < line.len() implies #[trigger] line[i] != 123 by {
        let j = i - k - 1;
        assert(line[i] == line.skip(k + 1)[j]);
        assert(line[i] == length_text(d)[j]);
        if j < d.len() {
            assert(length_text(d)[j] == d[j]);
            assert(48 <= d[j] <= 57);
        } else {
            assert(length_text(d)[j] == seq![125u8, 13u8, 10u8][j - d.len()]);
        }
    }
    lemma_last_bracket_is(line, k);
}

#[verifier::spinoff_prover]
pub proof fn lemma_stand_in(index: u32)
    ensures
        steps::replacement(index) == stand_in(index as int),
        stand_in(index as int).len() == 35,
{
    let m = steps::marker(index);
    let text = strings::announcement_text(29, LiteralMode::Sync);
    steps::lemma_power16_8();
    steps::lemma_hex(index, 8);
    reveal_strlit("~imap-stream-literal~");
    reveal_strlit("{29}\r\n~imap-stream-literal~");
    reveal_strlit("{");
    reveal_strlit("}");
    reveal_strlit("\r\n");
    assert(m.len() == 29);
    encode::lemma_flat_add(encode::plain(text), seq![Token::Literal(m, LiteralMode::Sync)]);
    encode::lemma_flat_plain(text);
    encode::lemma_flat_literal(m, LiteralMode::Sync);
    let d = number::decimal(29);
    assert(d =~= seq![50u8, 57u8]) by {
        assert(number::decimal(2) =~= seq![50u8]);
    }
    lemma_hex_digits(index);
    let p = ascii::bytes_of("{29}\r\n~imap-stream-literal~");
    assert(p =~= text + steps::marker_prefix());
    assert(text + (steps::marker_prefix() + steps::hex(index, 8)) =~= p + eight_digits(
        index as int,
    ));
}

/// The literal that stands in for another holds its marker, which has no NUL.
pub proof fn lemma_stand_in_marker(index: u32)
    ensures
        stand_in(index as int).skip(6) == steps::marker(index),
        forall|i: int| 6 <= i < 35 ==> #[trigger] stand_in(index as int)[i] != 0,
{
    let t = stand_in(index as int);
    lemma_stand_in(index);
    lemma_hex_digits(index);
    reveal_strlit("~imap-stream-literal~");
    reveal_strlit("{29}\r\n~imap-stream-literal~");
    let p = ascii::bytes_of("{29}\r\n~imap-stream-literal~");
    assert(p.skip(6) =~= steps::marker_prefix());
    assert(t.skip(6) =~= steps::marker(index));
    assert forall|i: int| 6 <= i < 35 implies #[trigger] t[i] != 0 by {
        if i >= 27 {
            assert(t[i] == eight_digits(index as int)[i - 27]);
        } else {
            assert(t[i] == p[i]);
            assert(i == 6 || i == 7 || i == 8 || i == 9 || i == 10 || i == 11 || i == 12 || i == 13
                || i == 14 || i == 15 || i == 16 || i == 17 || i == 18 || i == 19 || i == 20 || i
                == 21 || i == 22 || i == 23 || i == 24 || i == 25 || i == 26);
        }
    }
}

proof fn lemma_hex_digits(n: u32)
    ensures
        steps::hex(n, 8) == eight_digits(n as int),
{
    reveal_with_fuel(steps::hex, 9);
    let h = steps::hex(n, 8);
    let n1 = n / 16;
    let n2 = n1 / 16;
    let n3 = n2 / 16;
    let n4 = n3 / 16;
    let n5 = n4 / 16;
    let n6 = n5 / 16;
    let n7 = n6 / 16;
    assert(n1 == n / 0x10 && n2 == n / 0x100 && n3 == n / 0x1000 && n4 == n / 0x1_0000 && n5 == n
        / 0x10_0000 && n6 == n / 0x100_0000 && n7 == n / 0x1000_0000);
    assert(h =~= eight_digits(n as int));
}

/// The line that a step takes, and what it tells.
pub proof fn lemma_line_tells(t: DecoderView)
    requires
        t.latest_byte == lines::advanced(LatestByte::Other, t.line),
        lines::line_feed(t.input) < t.input.len(),
    ensures
        ({
            let n = lines::line_feed(t.input) as int;
            let line = steps::line_taken(t).line;
            &&& line == t.line + t.input.take(n + 1)
            &&& line.len() > 0
            &&& line.last() == 10
            &&& lines::advanced(t.latest_byte, t.input.take(n)) == lines::advanced(
                LatestByte::Other,
                line.drop_last(),
            )
        }),
{
    let n = lines::line_feed(t.input) as int;
    lines::lemma_line_feed(t.input);
    lines::lemma_advanced_add(LatestByte::Other, t.line, t.input.take(n));
    let line = t.line + t.input.take(n + 1);
    assert(line.drop_last() =~= t.line + t.input.take(n));
}

proof fn lemma_start_comes_from_a_line(t: DecoderView)
    requires
        steps::line_step(t).1 matches Ok(Some(EventView::LiteralStart { .. })),
    ensures
        lines::line_feed(t.input) < t.input.len(),
{
    lines::lemma_line_feed(t.input);
}

/// A literal starts only where the line tells that it is announced.
proof fn lemma_start_is_announced(t: DecoderView) -> (a: LiteralAnnouncement)
    requires
        t.latest_byte == lines::advanced(LatestByte::Other, t.line),
        lines::line_feed(t.input) < t.input.len(),
        steps::line_step(t).1 matches Ok(Some(EventView::LiteralStart { .. })),
    ensures
        a.mode == LiteralMode::Sync,
        lines::advanced(LatestByte::Other, steps::line_taken(t).line.drop_last()) == (
        LatestByte::Cr { announcement: Some(a) }),
        steps::line_step(t) == steps::literal_start(steps::line_taken(t), a),
{
    lemma_line_tells(t);
    let n = lines::line_feed(t.input) as int;
    let state = lines::advanced(t.latest_byte, t.input.take(n));
    state->Cr_announcement->Some_0
}

proof fn lemma_announced_line(line: Seq<u8>, a: LiteralAnnouncement) -> (r: (int, Seq<u8>))
    requires
        line.len() > 0,
        line.last() == 10,
        a.mode == LiteralMode::Sync,
        lines::advanced(LatestByte::Other, line.drop_last()) == (LatestByte::Cr {
            announcement: Some(a),
        }),
    ensures
        announces_at(line, r.0, r.1, a.length),
        steps::last_bracket(line) == Some(r.0),
{
    let x = line.drop_last();
    let (k, d) = lemma_told(x);
    assert(line =~= x.push(10u8));
    assert(line.skip(k + 1) =~= x.skip(k + 1).push(10u8));
    assert(line.skip(k + 1) =~= length_text(d));
    lemma_announcing_bracket(line, k, d, a.length);
    (k, d)
}

/// What the start of a literal does.
proof fn lemma_literal_start(s: DecoderView, a: LiteralAnnouncement, k: int, d: Seq<u8>)
    requires
        announces_at(s.line, k, d, a.length),
        steps::last_bracket(s.line) == Some(k),
        steps::literal_start(s, a).1 matches Ok(Some(EventView::LiteralStart { .. })),
    ensures
        ({
            let (after, r) = steps::literal_start(s, a);
            let literal = r->Ok_0->Some_0->LiteralStart_literal;
            &&& r->Ok_0->Some_0->prefix == s.line
            &&& literal.length == a.length
            &&& literal.binary <==> is_marked(s.line, k)
            &&& literal.index == s.literals.len()
            &&& after.literals == s.literals.push(literal)
            &&& after.remaining == Some(literal.length)
            &&& after.input == s.input
            &&& after.syntax == s.syntax + s.line
            &&& after.normalized == s.normalized + s.line.take(k) + stand_in(
                literal.index as int,
            )
            &&& after.line.len() == 0
            &&& after.complete == s.complete
        }),
{
    let literal = steps::literal_start(s, a).1->Ok_0->Some_0->LiteralStart_literal;
    lemma_stand_in(literal.index);
}

// ------------------------------------------------------------------------ laws

/// Each literal that starts is described by the line that announces it: its place
/// among the literals of the message, the length between the brackets, and that
/// it may hold any bytes exactly if the byte before the opening bracket marks it
/// so, whatever its place. The announcing line goes to the syntax as it is, and a
/// text that names the place stands in for the literal.
#[verifier::spinoff_prover]
pub proof fn law_literals_start_as_announced(s: DecoderView)
    requires
        runs::reachable(s),
        steps::stepped(s).1 matches Ok(Some(EventView::LiteralStart { .. })),
    ensures
        ({
            let after = steps::stepped(s).0;
            let literal = steps::stepped(s).1->Ok_0->Some_0->LiteralStart_literal;
            let prefix = steps::stepped(s).1->Ok_0->Some_0->prefix;
            let literals = at_hand(s, s.literals);
            exists|k: int, d: Seq<u8>|
                {
                    &&& #[trigger] announces_at(prefix, k, d, literal.length)
                    &&& literal.binary <==> is_marked(prefix, k)
                    &&& literal.index == literals.len()
                    &&& after.literals == literals.push(literal)
                    &&& after.remaining == Some(literal.length)
                    &&& s.line + s.input == prefix + after.input
                    &&& after.syntax == at_hand(s, s.syntax) + prefix
                    &&& after.normalized == at_hand(s, s.normalized) + prefix.take(k) + stand_in(
                        literal.index as int,
                    )
                    &&& after.line.len() == 0
                    &&& !after.complete
                    &&& !after.failed
                }
        }),
{
    let t = steps::renewed(s);
    let (maximum, operations) = choose|maximum: usize, operations: Seq<runs::Operation>|
        s == #[trigger] runs::reached(maximum, operations);
    runs::law_every_state_is_kept(maximum, operations);
    assert(t.remaining is None);
    lemma_start_comes_from_a_line(t);
    let a = lemma_start_is_announced(t);
    let line = steps::line_taken(t).line;
    let n = lines::line_feed(t.input) as int;
    lines::lemma_line_feed(t.input);
    lemma_line_tells(t);
    let (k, d) = lemma_announced_line(line, a);
    lemma_literal_start(steps::line_taken(t), a, k, d);
    assert(s.line + s.input =~= line + t.input.skip(n + 1));
    assert(announces_at(line, k, d, a.length));
}

/// Inside of a literal a step gives the next bytes of it, as many as there are;
/// the end, when none is left; or nothing, when no input is there. Only a NUL in
/// a literal that is not marked to hold any bytes is refused.
pub proof fn law_literals_go_through(s: DecoderView)
    requires
        !s.failed,
        !s.complete,
        s.literals.len() > 0,
        s.remaining is Some,
    ensures
        ({
            let (after, r) = steps::stepped(s);
            let index = s.literals.last().index;
            let left = s.remaining->0 as int;
            let count = if left < s.input.len() {
                left
            } else {
                s.input.len() as int
            };
            let data = s.input.take(count);
            let pure = s.literals.last().binary || forall|i: int|
                0 <= i < count ==> #[trigger] s.input[i] != 0;
            &&& left == 0 ==> r == Ok::<Option<EventView>, StreamingResponseError>(
                Some(EventView::LiteralEnd { index }),
            ) && after == (DecoderView { remaining: None, ..s })
            &&& left > 0 && s.input.len() == 0 ==> r == Ok::<
                Option<EventView>,
                StreamingResponseError,
            >(None) && after == s
            &&& left > 0 && s.input.len() > 0 && pure ==> r == Ok::<
                Option<EventView>,
                StreamingResponseError,
            >(Some(EventView::LiteralChunk { index, data })) && after.remaining == Some(
                (left - count) as u64,
            ) && after.input == s.input.skip(count) && !after.failed
            &&& left > 0 && s.input.len() > 0 && !pure ==> r == Err::<
                Option<EventView>,
                StreamingResponseError,
            >(StreamingResponseError::NullLiteral) && after.failed
            &&& after.literals == s.literals
            &&& after.syntax == s.syntax
            &&& after.normalized == s.normalized
            &&& after.line == s.line
            &&& after.complete == s.complete
        }),
{
    let left = s.remaining->0 as int;
    let count = if left < s.input.len() {
        left
    } else {
        s.input.len() as int
    };
    let data = s.input.take(count);
    if data.contains(0) {
        let i = data.index_of(0);
        assert(data[i] == 0);
        assert(s.input[i] == 0);
    }
    if exists|i: int| 0 <= i < count && #[trigger] s.input[i] == 0 {
        let i = choose|i: int| 0 <= i < count && #[trigger] s.input[i] == 0;
        assert(data[i] == 0);
        assert(data.contains(0));
    }
}

/// Nothing of a message has come yet.
pub open spec fn is_fresh(s: DecoderView) -> bool {
    &&& !s.failed
    &&& s.remaining is None
    &&& s.line.len() == 0
    &&& s.latest_byte == LatestByte::Other
    &&& s.complete || (s.syntax.len() == 0 && s.normalized.len() == 0 && s.literals.len() == 0)
}

/// A line that ends as lines do, and has no other line feed.
pub open spec fn is_line(b: Seq<u8>) -> bool {
    &&& b.len() >= 2
    &&& b[b.len() - 2] == 13
    &&& b[b.len() - 1] == 10
    &&& forall|i: int| 0 <= i < b.len() - 1 ==> #[trigger] b[i] != 10
}

/// The line that announces a literal of this length behind `head`.
pub open spec fn announcing_line(head: Seq<u8>, d: Seq<u8>) -> Seq<u8> {
    head + seq![123u8] + length_text(d)
}

/// The first line feed of the input ends the line in front.
proof fn lemma_front_line(t: DecoderView, line: Seq<u8>, rest: Seq<u8>)
    requires
        is_line(line),
        t.input == line + rest,
        t.line.len() == 0,
        t.latest_byte == LatestByte::Other,
    ensures
        lines::line_feed(t.input) == line.len() - 1,
        lines::line_feed(t.input) < t.input.len(),
        steps::line_taken(t).line == line,
        steps::line_taken(t).input == rest,
        steps::line_taken(t).latest_byte == LatestByte::Other,
        lines::advanced(t.latest_byte, t.input.take(line.len() - 1)) == lines::advanced(
            LatestByte::Other,
            line.drop_last(),
        ),
        lines::advanced(LatestByte::Other, line.drop_last()) is Cr,
{
    let n = line.len() - 1;
    assert forall|i: int| 0 <= i < n implies #[trigger] t.input[i] != 10 by {
        assert(t.input[i] == line[i]);
    }
    assert(t.input[n] == line[n]);
    lines::lemma_line_feed_is(t.input, n);
    assert(t.input.take(n) =~= line.drop_last());
    assert(t.input.take(n + 1) =~= line);
    assert(t.input.skip(n + 1) =~= rest);
    assert(t.line + line =~= line);
    let x = line.drop_last();
    assert(x.last() == 13);
}

/// The last line of a message completes it.
proof fn lemma_last_line(s: DecoderView, tail: Seq<u8>, v: ResponseView, rest: Seq<u8>)
    requires
        !s.failed,
        !s.complete,
        s.remaining is None,
        s.line.len() == 0,
        s.latest_byte == LatestByte::Other,
        is_line(tail),
        s.input == tail + rest,
        response::response_rule()(s.normalized + tail) == Outcome::Done(Seq::<u8>::empty(), v),
        steps::accounted(s) + 3 * tail.len() <= s.maximum,
    ensures
        ({
            let (after, r) = steps::stepped(s);
            &&& r == Ok::<Option<EventView>, StreamingResponseError>(
                Some(EventView::Complete { structure: v }),
            )
            &&& after.complete
            &&& !after.failed
            &&& after.input == rest
            &&& after.syntax == s.syntax + tail
            &&& after.literals == s.literals
        }),
{
    lemma_front_line(s, tail, rest);
    let taken = steps::line_taken(s);
    assert(lines::line_bytes(s.input) == tail.len());
    assert(steps::accounted(taken) == steps::accounted(s) + tail.len());
}

/// The line that announces the first literal of a message starts it.
#[verifier::spinoff_prover]
proof fn lemma_first_line(s: DecoderView, head: Seq<u8>, d: Seq<u8>, length: u64, rest: Seq<u8>)
    requires
        is_fresh(s),
        is_numeral(d),
        number::digits_value(d) == length,
        forall|i: int| 0 <= i < head.len() ==> #[trigger] head[i] != 10,
        s.input == announcing_line(head, d) + rest,
        response::response_rule()(announcing_line(head, d)) == Outcome::<ResponseView>::More(
            Some(length),
        ),
        3 * announcing_line(head, d).len() + 35 + vstd::layout::size_of::<LiteralDescriptor>()
            <= s.maximum,
    ensures
        ({
            let line = announcing_line(head, d);
            let literal = LiteralDescriptor {
                index: 0,
                length,
                binary: is_marked(line, head.len() as int),
            };
            let (after, r) = steps::stepped(s);
            &&& r == Ok::<Option<EventView>, StreamingResponseError>(
                Some(EventView::LiteralStart { literal, prefix: line }),
            )
            &&& !after.failed
            &&& !after.complete
            &&& after.remaining == Some(length)
            &&& after.line.len() == 0
            &&& after.latest_byte == LatestByte::Other
            &&& after.syntax == line
            &&& after.normalized == head + stand_in(0)
            &&& after.literals == seq![literal]
            &&& after.input == rest
            &&& after.maximum == s.maximum
        }),
{
    let line = announcing_line(head, d);
    let k = head.len() as int;
    let t = steps::renewed(s);
    let size = vstd::layout::size_of::<LiteralDescriptor>();
    assert(line.skip(k + 1) =~= length_text(d));
    assert(line[k] == 123);
    assert(announces_at(line, k, d, length));
    lemma_announcing_bracket(line, k, d, length);
    lemma_is_line(head, d);
    lemma_front_line(t, line, rest);
    lemma_numeral(d);
    let text = lines::announcement_of(d, LiteralMode::Sync);
    assert(line.drop_last() =~= head + text);
    lines::lemma_advanced_add(LatestByte::Other, head, text);
    lines::lemma_digits_announce(
        lines::advanced(LatestByte::Other, head),
        d,
        LiteralMode::Sync,
    );
    let a = LiteralAnnouncement { mode: LiteralMode::Sync, length };
    let taken = steps::line_taken(t);
    assert(t.literals.len() == 0);
    assert(t.literals.len() * size == 0);
    assert(taken.normalized + taken.line =~= line);
    assert(taken.syntax + taken.line =~= line);
    assert(steps::accounted(t) == 0);
    assert(steps::accounted(taken) == line.len());
    assert(lines::line_bytes(t.input) == line.len());
    lemma_stand_in(0);
    assert(steps::line_step(t) == steps::announced_step(taken, a));
    assert(steps::announced_step(taken, a) == steps::literal_start(taken, a));
    assert(line.take(k) =~= head);
    assert(taken.normalized + line.take(k) =~= head);
    let literal = LiteralDescriptor { index: 0, length, binary: is_marked(line, k) };
    assert(taken.literals.push(literal) =~= seq![literal]);
}

proof fn lemma_is_line(head: Seq<u8>, d: Seq<u8>)
    requires
        is_numeral(d),
        forall|i: int| 0 <= i < head.len() ==> #[trigger] head[i] != 10,
    ensures
        is_line(announcing_line(head, d)),
{
    let line = announcing_line(head, d);
    let k = head.len() as int;
    assert forall|i: int| 0 <= i < line.len() - 1 implies #[trigger] line[i] != 10 by {
        if i < k {
            assert(line[i] == head[i]);
        } else if k < i <= k + d.len() {
            assert(line[i] == d[i - k - 1]);
        }
    }
}

/// A response whose only literal is announced behind `head` comes out as the start
/// of that literal, its bytes, its end and the response, and without an error:
/// any bytes, where the announcement is marked for them, and otherwise any but
/// NUL. What follows the response is left alone.
#[verifier::spinoff_prover]
pub proof fn law_one_literal_goes_through(
    s: DecoderView,
    head: Seq<u8>,
    d: Seq<u8>,
    data: Seq<u8>,
    tail: Seq<u8>,
    v: ResponseView,
    rest: Seq<u8>,
)
    requires
        is_fresh(s),
        is_numeral(d),
        number::digits_value(d) == data.len(),
        data.len() <= u64::MAX,
        forall|i: int| 0 <= i < head.len() ==> #[trigger] head[i] != 10,
        is_line(tail),
        is_marked(head, head.len() as int) || forall|i: int|
            0 <= i < data.len() ==> #[trigger] data[i] != 0,
        s.input == announcing_line(head, d) + (data + (tail + rest)),
        response::response_rule()(announcing_line(head, d)) == Outcome::<ResponseView>::More(
            Some(data.len() as u64),
        ),
        response::response_rule()(head + stand_in(0) + tail) == Outcome::Done(
            Seq::<u8>::empty(),
            v,
        ),
        3 * announcing_line(head, d).len() + 3 * tail.len() + 35
            + vstd::layout::size_of::<LiteralDescriptor>() <= s.maximum,
    ensures
        ({
            let line = announcing_line(head, d);
            let literal = LiteralDescriptor {
                index: 0,
                length: data.len() as u64,
                binary: is_marked(head, head.len() as int),
            };
            let (started, start) = steps::stepped(s);
            let (filled, chunk) = if data.len() > 0 {
                steps::stepped(started)
            } else {
                (
                    started,
                    Ok::<Option<EventView>, StreamingResponseError>(
                        Some(EventView::LiteralChunk { index: 0, data }),
                    ),
                )
            };
            let (ended, end) = steps::stepped(filled);
            let (done, last) = steps::stepped(ended);
            &&& start == Ok::<Option<EventView>, StreamingResponseError>(
                Some(EventView::LiteralStart { literal, prefix: line }),
            )
            &&& chunk == Ok::<Option<EventView>, StreamingResponseError>(
                Some(EventView::LiteralChunk { index: 0, data }),
            )
            &&& end == Ok::<Option<EventView>, StreamingResponseError>(
                Some(EventView::LiteralEnd { index: 0 }),
            )
            &&& last == Ok::<Option<EventView>, StreamingResponseError>(
                Some(EventView::Complete { structure: v }),
            )
            &&& done.complete
            &&& !done.failed
            &&& done.literals == seq![literal]
            &&& done.syntax == line + tail
            &&& done.input == rest
        }),
{
    let line = announcing_line(head, d);
    let length = data.len() as u64;
    let size = vstd::layout::size_of::<LiteralDescriptor>();
    lemma_first_line(s, head, d, length, data + (tail + rest));
    let k = head.len() as int;
    if k > 0 {
        assert(line[k - 1] == head[k - 1]);
    }
    let started = steps::stepped(s).0;
    let filled = if data.len() > 0 {
        steps::stepped(started).0
    } else {
        started
    };
    assert(started.literals.last() == started.literals[0]);
    assert(started.input.take(data.len() as int) =~= data);
    assert(started.input.skip(data.len() as int) =~= tail + rest);
    if data.len() > 0 {
        assert forall|i: int| 0 <= i < data.len() implies #[trigger] started.input[i] == data[i] by {}
        law_literals_go_through(started);
    } else {
        assert(data + (tail + rest) =~= tail + rest);
    }
    assert(filled.input == tail + rest);
    assert(filled.remaining == Some(0u64));
    assert(filled.latest_byte == LatestByte::Other);
    law_literals_go_through(filled);
    let ended = steps::stepped(filled).0;
    lemma_stand_in(0);
    assert(ended.literals.len() * size == size) by (nonlinear_arith)
        requires
            ended.literals.len() == 1,
    ;
    lemma_last_line(ended, tail, v, rest);
}

} // verus!
