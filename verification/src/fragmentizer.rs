//! Lines and the literals that they announce.
use vstd::prelude::*;

use crate::ascii::is_digit;
use crate::encode::LiteralMode;
use crate::number;
use crate::strings;

pub mod cuts;
pub mod fetches;
pub mod intake;
pub mod runs;
pub mod streaming;
pub mod transfers;

verus! {

/// The end of a line in the manner of `{5}` or `{5+}`.
#[derive(Clone, Copy, Debug, PartialEq, Eq, Structural)]
pub struct LiteralAnnouncement {
    pub mode: LiteralMode,
    pub length: u64,
}

#[derive(Clone, Copy, Debug, PartialEq, Eq, Structural)]
pub enum LineEnding {
    Lf,
    CrLf,
}

#[derive(Clone, Copy, Debug, PartialEq, Eq, Structural)]
pub enum FragmentInfo {
    Line { announcement: Option<LiteralAnnouncement>, ending: LineEnding },
}

/// What the line holds right before the next byte.
#[derive(Clone, Copy, Debug, PartialEq, Eq, Structural)]
pub enum LatestByte {
    Other,
    OpeningBracket,
    Digit { length: u64 },
    Plus { length: u64 },
    ClosingBracket { announcement: LiteralAnnouncement },
    Cr { announcement: Option<LiteralAnnouncement> },
}

/// The number with one more digit, unless it gets too large.
pub open spec fn with_digit(length: u64, b: u8) -> Option<u64> {
    let n = length * 10 + (b - '0' as u8);
    if n <= u64::MAX {
        Some(n as u64)
    } else {
        None
    }
}

/// The state behind a byte of a line.
pub open spec fn advance(state: LatestByte, b: u8) -> LatestByte {
    if b == 0x0d {
        LatestByte::Cr {
            announcement: match state {
                LatestByte::ClosingBracket { announcement } => Some(announcement),
                _ => None,
            },
        }
    } else if b == 0x0a {
        LatestByte::Other
    } else if b == '{' as u8 {
        LatestByte::OpeningBracket
    } else {
        match state {
            LatestByte::OpeningBracket if is_digit(b) => LatestByte::Digit {
                length: (b - '0' as u8) as u64,
            },
            LatestByte::Digit { length } if is_digit(b) => match with_digit(length, b) {
                Some(length) => LatestByte::Digit { length },
                None => LatestByte::Other,
            },
            LatestByte::Digit { length } if b == '+' as u8 => LatestByte::Plus { length },
            LatestByte::Digit { length } if b == '}' as u8 => LatestByte::ClosingBracket {
                announcement: LiteralAnnouncement { mode: LiteralMode::Sync, length },
            },
            LatestByte::Plus { length } if b == '}' as u8 => LatestByte::ClosingBracket {
                announcement: LiteralAnnouncement { mode: LiteralMode::NonSync, length },
            },
            _ => LatestByte::Other,
        }
    }
}

/// The state behind several bytes.
pub open spec fn advanced(state: LatestByte, s: Seq<u8>) -> LatestByte
    decreases s.len(),
{
    if s.len() == 0 {
        state
    } else {
        advance(advanced(state, s.drop_last()), s.last())
    }
}

/// What is known of a line when its last byte, a line feed, comes.
pub open spec fn line_info(state: LatestByte) -> FragmentInfo {
    match state {
        LatestByte::Cr { announcement } => FragmentInfo::Line {
            announcement,
            ending: LineEnding::CrLf,
        },
        LatestByte::ClosingBracket { announcement } => FragmentInfo::Line {
            announcement: Some(announcement),
            ending: LineEnding::Lf,
        },
        _ => FragmentInfo::Line { announcement: None, ending: LineEnding::Lf },
    }
}

/// Where the first line feed stands, or the length where there is none.
pub open spec fn line_feed(s: Seq<u8>) -> nat
    decreases s.len(),
{
    if s.len() == 0 || s[0] == 0x0a {
        0
    } else {
        1 + line_feed(s.skip(1))
    }
}

/// How many bytes belong to the first line.
pub open spec fn line_bytes(s: Seq<u8>) -> nat {
    if line_feed(s) < s.len() {
        line_feed(s) + 1
    } else {
        s.len()
    }
}

// ---------------------------------------------------------------------- lemmas

pub proof fn lemma_line_feed(s: Seq<u8>)
    ensures
        line_feed(s) <= s.len(),
        line_feed(s) < s.len() ==> s[line_feed(s) as int] == 0x0a,
        forall|i: int| 0 <= i < line_feed(s) ==> #[trigger] s[i] != 0x0a,
    decreases s.len(),
{
    if s.len() > 0 && s[0] != 0x0a {
        lemma_line_feed(s.skip(1));
        assert forall|i: int| 0 <= i < line_feed(s) implies #[trigger] s[i] != 0x0a by {
            if i > 0 {
                assert(s.skip(1)[i - 1] == s[i]);
            }
        }
    }
}

pub proof fn lemma_line_feed_is(s: Seq<u8>, n: int)
    requires
        0 <= n <= s.len(),
        n < s.len() ==> s[n] == 0x0a,
        forall|i: int| 0 <= i < n ==> #[trigger] s[i] != 0x0a,
    ensures
        line_feed(s) == n,
{
    lemma_line_feed(s);
    let m = line_feed(s) as int;
    if m < n {
        assert(s[m] != 0x0a);
    }
}

pub proof fn lemma_advanced_add(state: LatestByte, a: Seq<u8>, b: Seq<u8>)
    ensures
        advanced(state, a + b) == advanced(advanced(state, a), b),
    decreases b.len(),
{
    if b.len() == 0 {
        assert(a + b =~= a);
    } else {
        lemma_advanced_add(state, a, b.drop_last());
        assert((a + b).drop_last() =~= a + b.drop_last());
    }
}

/// Digits behind an opening bracket are read as their value.
proof fn lemma_digits_advance(state: LatestByte, d: Seq<u8>)
    requires
        state is OpeningBracket,
        d.len() > 0,
        number::all_digits(d),
        number::digits_value(d) <= u64::MAX,
    ensures
        advanced(state, d) == (LatestByte::Digit { length: number::digits_value(d) as u64 }),
    decreases d.len(),
{
    if d.len() == 1 {
        assert(d.drop_last() =~= seq![]);
        assert(number::digits_value(d.drop_last()) == 0);
    } else {
        assert(number::all_digits(d.drop_last()));
        lemma_digits_advance(state, d.drop_last());
    }
}

proof fn lemma_one_advances(state: LatestByte, b: u8)
    ensures
        advanced(state, seq![b]) == advance(state, b),
{
    let one = seq![b];
    assert(one.drop_last() =~= seq![]);
    assert(advanced(state, one.drop_last()) == state);
}

/// An announcement has one line feed, at its end.
pub proof fn lemma_announcement_text(length: u64, mode: LiteralMode)
    ensures
        ({
            let text = strings::announcement_text(length as nat, mode);
            text.len() > 0 && text.last() == 0x0a && forall|i: int|
                0 <= i < text.len() - 1 ==> #[trigger] text[i] != 0x0a
        }),
{
    let text = strings::announcement_text(length as nat, mode);
    let d = number::decimal(length as nat);
    reveal_strlit("{");
    reveal_strlit("+");
    reveal_strlit("}");
    reveal_strlit("\r\n");
    number::lemma_decimal(length as nat);
    assert forall|i: int| 0 <= i < text.len() - 1 implies #[trigger] text[i] != 0x0a by {
        if 1 <= i < 1 + d.len() {
            assert(text[i] == d[i - 1]);
            assert(is_digit(d[i - 1]));
        }
    }
}

/// The announcement with these digits, up to its line feed.
pub open spec fn announcement_of(d: Seq<u8>, mode: LiteralMode) -> Seq<u8> {
    seq!['{' as u8] + d + (if mode == LiteralMode::NonSync {
        seq!['+' as u8]
    } else {
        seq![]
    }) + seq!['}' as u8, 0x0d]
}

pub proof fn lemma_digits_announce(state: LatestByte, d: Seq<u8>, mode: LiteralMode)
    requires
        d.len() > 0,
        number::all_digits(d),
        number::digits_value(d) <= u64::MAX,
    ensures
        advanced(state, announcement_of(d, mode)) == (LatestByte::Cr {
            announcement: Some(
                LiteralAnnouncement { mode, length: number::digits_value(d) as u64 },
            ),
        }),
{
    let text = announcement_of(d, mode);
    let open = seq!['{' as u8];
    let plus = seq!['+' as u8];
    let close = seq!['}' as u8];
    let cr = seq![0x0du8];
    let s1 = advanced(state, open);
    lemma_one_advances(state, '{' as u8);
    lemma_digits_advance(s1, d);
    lemma_advanced_add(state, open, d);
    let s2 = advanced(s1, d);
    if mode == LiteralMode::NonSync {
        assert(text =~= open + d + plus + close + cr);
        lemma_advanced_add(state, open + d, plus);
        lemma_one_advances(s2, '+' as u8);
        let s3 = advanced(s2, plus);
        lemma_advanced_add(state, open + d + plus, close);
        lemma_one_advances(s3, '}' as u8);
        lemma_advanced_add(state, open + d + plus + close, cr);
        lemma_one_advances(advanced(s3, close), 0x0d);
    } else {
        assert(text =~= open + d + close + cr);
        lemma_advanced_add(state, open + d, close);
        lemma_one_advances(s2, '}' as u8);
        lemma_advanced_add(state, open + d + close, cr);
        lemma_one_advances(advanced(s2, close), 0x0d);
    }
}

pub proof fn lemma_announcement_advances(state: LatestByte, length: u64, mode: LiteralMode)
    ensures
        advanced(state, strings::announcement_text(length as nat, mode).drop_last()) == (
        LatestByte::Cr { announcement: Some(LiteralAnnouncement { mode, length }) }),
{
    let d = number::decimal(length as nat);
    reveal_strlit("{");
    reveal_strlit("+");
    reveal_strlit("}");
    reveal_strlit("\r\n");
    number::lemma_decimal(length as nat);
    lemma_digits_announce(state, d, mode);
    assert(strings::announcement_text(length as nat, mode).drop_last() =~= announcement_of(d, mode));
}

/// Where a text announces a literal on its own, it does so behind any other.
pub proof fn lemma_announcement_stays(state: LatestByte, x: Seq<u8>)
    ensures
        ({
            let own = advanced(LatestByte::Other, x);
            own == advanced(state, x) || own is Other || own == (LatestByte::Cr {
                announcement: None,
            })
        }),
    decreases x.len(),
{
    if x.len() > 0 {
        lemma_announcement_stays(state, x.drop_last());
    }
}

/// The announcement of a literal at the end of a line is found, whatever stands
/// before it.
pub proof fn law_announcement_is_found(
    state: LatestByte,
    before: Seq<u8>,
    length: u64,
    mode: LiteralMode,
)
    requires
        forall|i: int| 0 <= i < before.len() ==> #[trigger] before[i] != 0x0a,
    ensures
        ({
            let line = before + strings::announcement_text(length as nat, mode);
            line_bytes(line) == line.len() && line_info(advanced(state, line.drop_last()))
                == (FragmentInfo::Line {
                announcement: Some(LiteralAnnouncement { mode, length }),
                ending: LineEnding::CrLf,
            })
        }),
{
    let text = strings::announcement_text(length as nat, mode);
    let line = before + text;
    lemma_announcement_text(length, mode);
    lemma_advanced_add(state, before, text.drop_last());
    lemma_announcement_advances(advanced(state, before), length, mode);
    assert(line.drop_last() =~= before + text.drop_last());
    assert forall|i: int| 0 <= i < line.len() - 1 implies #[trigger] line[i] != 0x0a by {
        if i >= before.len() {
            assert(line[i] == text[i - before.len()]);
        }
    }
    assert(line[line.len() - 1] == text.last());
    lemma_line_feed_is(line, line.len() - 1);
}

// ------------------------------------------------------------------ executable

/// Finds the ends of lines in input that comes in pieces.
#[derive(Clone, Copy, Debug, PartialEq, Eq, Structural)]
pub struct LineParser {
    pub latest_byte: LatestByte,
}

impl LineParser {
    /// A parser at the beginning of a line.
    pub fn new() -> (r: Self)
        ensures
            r.latest_byte == LatestByte::Other,
    {
        LineParser { latest_byte: LatestByte::Other }
    }

    fn next_byte(&mut self, b: u8)
        ensures
            final(self).latest_byte == advance(old(self).latest_byte, b),
    {
        let state: LatestByte = self.latest_byte;
        self.latest_byte = if b == 0x0d {
            match state {
                LatestByte::ClosingBracket { announcement } => LatestByte::Cr {
                    announcement: Some(announcement),
                },
                _ => LatestByte::Cr { announcement: None },
            }
        } else if b == 0x0a {
            LatestByte::Other
        } else if b == '{' as u8 {
            LatestByte::OpeningBracket
        } else {
            match state {
                LatestByte::OpeningBracket => if is_digit(b) {
                    LatestByte::Digit { length: (b - '0' as u8) as u64 }
                } else {
                    LatestByte::Other
                },
                LatestByte::Digit { length } => if is_digit(b) {
                    let n: u128 = length as u128 * 10 + (b - '0' as u8) as u128;
                    if n <= u64::MAX as u128 {
                        LatestByte::Digit { length: n as u64 }
                    } else {
                        LatestByte::Other
                    }
                } else if b == '+' as u8 {
                    LatestByte::Plus { length }
                } else if b == '}' as u8 {
                    LatestByte::ClosingBracket {
                        announcement: LiteralAnnouncement { mode: LiteralMode::Sync, length },
                    }
                } else {
                    LatestByte::Other
                },
                LatestByte::Plus { length } => if b == '}' as u8 {
                    LatestByte::ClosingBracket {
                        announcement: LiteralAnnouncement { mode: LiteralMode::NonSync, length },
                    }
                } else {
                    LatestByte::Other
                },
                _ => LatestByte::Other,
            }
        };
    }

    fn info(&self) -> (r: FragmentInfo)
        ensures
            r == line_info(self.latest_byte),
    {
        match self.latest_byte {
            LatestByte::Cr { announcement } => FragmentInfo::Line {
                announcement,
                ending: LineEnding::CrLf,
            },
            LatestByte::ClosingBracket { announcement } => FragmentInfo::Line {
                announcement: Some(announcement),
                ending: LineEnding::Lf,
            },
            _ => FragmentInfo::Line { announcement: None, ending: LineEnding::Lf },
        }
    }

    /// Takes in bytes up to the end of the line. Gives their number, and what
    /// the line is where it has ended.
    pub fn parse(&mut self, input: &[u8]) -> (r: (usize, Option<FragmentInfo>))
        ensures
            r.0 == line_bytes(input@),
            line_feed(input@) < input@.len() ==> r.1 == Some(
                line_info(
                    advanced(old(self).latest_byte, input@.take(line_feed(input@) as int)),
                ),
            ) && final(self).latest_byte == LatestByte::Other,
            line_feed(input@) == input@.len() ==> r.1 is None && final(self).latest_byte
                == advanced(old(self).latest_byte, input@),
    {
        let mut i: usize = 0;
        assert(input@.take(0) =~= seq![]);
        while i < input.len()
            invariant
                i <= input@.len(),
                self.latest_byte == advanced(old(self).latest_byte, input@.take(i as int)),
                forall|j: int| 0 <= j < i ==> #[trigger] input@[j] != 0x0a,
            decreases input@.len() - i,
        {
            if input[i] == 0x0a {
                proof {
                    lemma_line_feed_is(input@, i as int);
                }
                let info = self.info();
                self.latest_byte = LatestByte::Other;
                return (i + 1, Some(info));
            }
            assert(input@.take(i + 1).drop_last() =~= input@.take(i as int));
            self.next_byte(input[i]);
            i = i + 1;
        }
        proof {
            lemma_line_feed_is(input@, i as int);
            assert(input@.take(i as int) =~= input@);
        }
        (i, None)
    }
}

} // verus!
