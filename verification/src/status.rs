//! The items of the STATUS command.
use vstd::prelude::*;

use crate::ascii;
use crate::encode;
use crate::encode::{EncodeContext, EncodeIntoContext, Token};
use crate::grammar as g;
use crate::grammar::{tag_no_case, IMAPParseError, IMAPResult, Outcome, Rule};
use crate::reading;

verus! {

#[derive(Clone, Copy, Debug, PartialEq, Eq, Hash, Structural)]
pub enum StatusDataItemName {
    Messages,
    Recent,
    UidNext,
    UidValidity,
    Unseen,
    Deleted,
    DeletedStorage,
    Size,
    HighestModSeq,
}

impl DeepView for StatusDataItemName {
    type V = StatusDataItemName;

    open spec fn deep_view(&self) -> StatusDataItemName {
        *self
    }
}

pub open spec fn status_text(n: StatusDataItemName) -> Seq<u8> {
    match n {
        StatusDataItemName::Messages => ascii::bytes_of("MESSAGES"),
        StatusDataItemName::Recent => ascii::bytes_of("RECENT"),
        StatusDataItemName::UidNext => ascii::bytes_of("UIDNEXT"),
        StatusDataItemName::UidValidity => ascii::bytes_of("UIDVALIDITY"),
        StatusDataItemName::Unseen => ascii::bytes_of("UNSEEN"),
        StatusDataItemName::Deleted => ascii::bytes_of("DELETED"),
        StatusDataItemName::DeletedStorage => ascii::bytes_of("DELETED-STORAGE"),
        StatusDataItemName::Size => ascii::bytes_of("SIZE"),
        StatusDataItemName::HighestModSeq => ascii::bytes_of("HIGHESTMODSEQ"),
    }
}

pub open spec fn name_rule(n: StatusDataItemName) -> Rule<StatusDataItemName> {
    g::value(n, g::tag_no_case_rule(status_text(n)))
}

/// `status-att`. `DELETED-STORAGE` is tried before `DELETED`.
#[verifier::opaque]
pub open spec fn status_att_rule() -> Rule<StatusDataItemName> {
    g::alt(
        name_rule(StatusDataItemName::Messages),
        g::alt(
            name_rule(StatusDataItemName::Recent),
            g::alt(
                name_rule(StatusDataItemName::UidNext),
                g::alt(
                    name_rule(StatusDataItemName::UidValidity),
                    g::alt(
                        name_rule(StatusDataItemName::Unseen),
                        g::alt(
                            name_rule(StatusDataItemName::DeletedStorage),
                            g::alt(
                                name_rule(StatusDataItemName::Deleted),
                                g::alt(
                                    name_rule(StatusDataItemName::Size),
                                    name_rule(StatusDataItemName::HighestModSeq),
                                ),
                            ),
                        ),
                    ),
                ),
            ),
        ),
    )
}

pub proof fn lemma_status_lawful()
    ensures
        g::lawful(status_att_rule()),
{
    broadcast use g::group_lawful;

    reveal(status_att_rule);
}

proof fn reveal_names()
    ensures
        ascii::bytes_of("MESSAGES").len() == 8,
        ascii::bytes_of("MESSAGES")[0] == 'M' as u8,
        ascii::bytes_of("RECENT").len() == 6,
        ascii::bytes_of("RECENT")[0] == 'R' as u8,
        ascii::bytes_of("UIDNEXT").len() == 7,
        ascii::bytes_of("UIDNEXT")[0] == 'U' as u8,
        ascii::bytes_of("UIDNEXT")[1] == 'I' as u8,
        ascii::bytes_of("UIDNEXT")[3] == 'N' as u8,
        ascii::bytes_of("UIDVALIDITY").len() == 11,
        ascii::bytes_of("UIDVALIDITY")[0] == 'U' as u8,
        ascii::bytes_of("UIDVALIDITY")[1] == 'I' as u8,
        ascii::bytes_of("UIDVALIDITY")[3] == 'V' as u8,
        ascii::bytes_of("UNSEEN").len() == 6,
        ascii::bytes_of("UNSEEN")[0] == 'U' as u8,
        ascii::bytes_of("UNSEEN")[1] == 'N' as u8,
        ascii::bytes_of("DELETED").len() == 7,
        ascii::bytes_of("DELETED")[0] == 'D' as u8,
        ascii::bytes_of("DELETED-STORAGE").len() == 15,
        ascii::bytes_of("DELETED-STORAGE")[0] == 'D' as u8,
        ascii::bytes_of("DELETED-STORAGE")[7] == '-' as u8,
        ascii::bytes_of("SIZE").len() == 4,
        ascii::bytes_of("SIZE")[0] == 'S' as u8,
        ascii::bytes_of("HIGHESTMODSEQ").len() == 13,
        ascii::bytes_of("HIGHESTMODSEQ")[0] == 'H' as u8,
{
    reveal_strlit("MESSAGES");
    reveal_strlit("RECENT");
    reveal_strlit("UIDNEXT");
    reveal_strlit("UIDVALIDITY");
    reveal_strlit("UNSEEN");
    reveal_strlit("DELETED");
    reveal_strlit("DELETED-STORAGE");
    reveal_strlit("SIZE");
    reveal_strlit("HIGHESTMODSEQ");
}

/// A status item is read back.
pub proof fn lemma_status_att_reads(n: StatusDataItemName)
    ensures
        reading::reads(status_att_rule(), status_text(n), n),
        status_text(n).len() > 0,
{
    broadcast use reading::group_reading;

    reveal(status_att_rule);
    reveal_names();
    let b = status_text(n);
    assert forall|t: Seq<u8>| reading::ends(t) implies #[trigger] status_att_rule()(b + t)
        == Outcome::Done(t, n) by {
        let s = b + t;
        assert(s[0] == b[0]);
        reading::lemma_tag_no_case_reads(b, t);
        match n {
            StatusDataItemName::UidValidity => {
                reading::lemma_tag_no_case_rejects(ascii::bytes_of("UIDNEXT"), s, 3);
            },
            StatusDataItemName::Unseen => {
                reading::lemma_tag_no_case_rejects(ascii::bytes_of("UIDNEXT"), s, 1);
                reading::lemma_tag_no_case_rejects(ascii::bytes_of("UIDVALIDITY"), s, 1);
            },
            StatusDataItemName::Deleted => {
                assert(s[7] == t[0]);
                reading::lemma_tag_no_case_rejects(ascii::bytes_of("DELETED-STORAGE"), s, 7);
            },
            _ => {},
        }
    }
}

/// A status item starts with a letter.
pub proof fn lemma_status_att_rejects(s: Seq<u8>)
    requires
        s.len() > 0,
        !ascii::is_alpha(s[0]),
    ensures
        status_att_rule()(s) is Reject,
{
    broadcast use reading::group_reading;

    reveal(status_att_rule);
    reveal_names();
}

/// A byte that a name may have.
pub open spec fn is_name_char(b: u8) -> bool {
    ascii::is_alpha(b) || b == '-' as u8
}

proof fn lemma_name_chars(n: StatusDataItemName, i: int)
    requires
        0 <= i < status_text(n).len(),
    ensures
        is_name_char(status_text(n)[i]),
        is_name_char(ascii::upper(status_text(n)[i])),
{
    reveal_strlit("MESSAGES");
    reveal_strlit("RECENT");
    reveal_strlit("UIDNEXT");
    reveal_strlit("UIDVALIDITY");
    reveal_strlit("UNSEEN");
    reveal_strlit("DELETED");
    reveal_strlit("DELETED-STORAGE");
    reveal_strlit("SIZE");
    reveal_strlit("HIGHESTMODSEQ");
    assert(i == 0 || i == 1 || i == 2 || i == 3 || i == 4 || i == 5 || i == 6 || i == 7 || i == 8
        || i == 9 || i == 10 || i == 11 || i == 12 || i == 13 || i == 14);
}

/// What a name does on a word before a byte that no name has: it is read where
/// the word starts with it, and else rejected.
proof fn lemma_name_on_word(n: StatusDataItemName, b: Seq<u8>, t: Seq<u8>)
    requires
        t.len() > 0,
        !is_name_char(t[0]),
    ensures
        ({
            let m = status_text(n).len() as int;
            name_rule(n)(b + t) == if m <= b.len() && ascii::same_word(b.take(m), status_text(n)) {
                Outcome::Done(b.skip(m) + t, n)
            } else {
                Outcome::Reject
            }
        }),
{
    let w = status_text(n);
    let m = w.len() as int;
    let s = b + t;
    if m <= b.len() {
        assert(s.take(m) =~= b.take(m));
        assert(s.skip(m) =~= b.skip(m) + t);
    } else {
        lemma_name_chars(n, b.len() as int);
        assert(s[b.len() as int] == t[0]);
        assert(ascii::upper(w[b.len() as int]) != ascii::upper(t[0]));
        reading::lemma_tag_no_case_rejects(w, s, b.len() as int);
    }
}

/// A status item is read from a word that starts with its name.
pub proof fn lemma_status_att_on_word(b: Seq<u8>, t: Seq<u8>)
    requires
        t.len() > 0,
        !is_name_char(t[0]),
    ensures
        match status_att_rule()(b + t) {
            Outcome::Done(r, n) => {
                let m = status_text(n).len() as int;
                m <= b.len() && ascii::same_word(b.take(m), status_text(n)) && r == b.skip(m) + t
            },
            Outcome::Reject => forall|n: StatusDataItemName|
                !ascii::same_word(b, #[trigger] status_text(n)),
            _ => false,
        },
        forall|n: StatusDataItemName| #[trigger]
            ascii::same_word(b, status_text(n)) ==> status_att_rule()(b + t) == Outcome::Done(t, n),
{
    broadcast use ascii::lemma_same_word_head;

    reveal(status_att_rule);
    lemma_name_on_word(StatusDataItemName::Messages, b, t);
    lemma_name_on_word(StatusDataItemName::Recent, b, t);
    lemma_name_on_word(StatusDataItemName::UidNext, b, t);
    lemma_name_on_word(StatusDataItemName::UidValidity, b, t);
    lemma_name_on_word(StatusDataItemName::Unseen, b, t);
    lemma_name_on_word(StatusDataItemName::DeletedStorage, b, t);
    lemma_name_on_word(StatusDataItemName::Deleted, b, t);
    lemma_name_on_word(StatusDataItemName::Size, b, t);
    lemma_name_on_word(StatusDataItemName::HighestModSeq, b, t);
    assert forall|n: StatusDataItemName| #[trigger]
        ascii::same_word(b, status_text(n)) implies status_att_rule()(b + t) == Outcome::Done(
        t,
        n,
    ) by {
        reveal_names();
        assert(b.take(b.len() as int) =~= b);
        assert(b.skip(b.len() as int) + t =~= t);
        lemma_other_names(n, b);
    }
}

/// A word that is a name starts with no name that is tried before it.
proof fn lemma_other_names(n: StatusDataItemName, b: Seq<u8>)
    requires
        ascii::same_word(b, status_text(n)),
    ensures
        forall|k: StatusDataItemName|
            k != n && !(n is DeletedStorage && k is Deleted) && (#[trigger] status_text(k)).len()
                <= b.len() ==> !ascii::same_word(
                b.take(status_text(k).len() as int),
                status_text(k),
            ),
{
    broadcast use ascii::lemma_same_word_head;

    reveal_names();
    reveal_strlit("UIDNEXT");
    reveal_strlit("UIDVALIDITY");
    let w = status_text(n);
    assert(ascii::uppercase(b).len() == b.len());
    assert forall|k: StatusDataItemName|
        k != n && !(n is DeletedStorage && k is Deleted) && (#[trigger] status_text(k)).len()
            <= b.len() implies !ascii::same_word(
        b.take(status_text(k).len() as int),
        status_text(k),
    ) by {
        let m = status_text(k).len() as int;
        assert(b.take(m)[0] == b[0]);
        assert(b.take(m)[1] == b[1]);
        if n is UidValidity && k is UidNext {
            assert(ascii::uppercase(b)[3] == ascii::uppercase(w)[3]);
            assert(ascii::upper(b.take(m)[3]) == 'V' as u8);
            ascii::lemma_words_differ(b.take(m), status_text(k), 3);
        }
    }
}

fn name<'a>(input: &'a [u8], n: StatusDataItemName, text: &str) -> (res: IMAPResult<
    'a,
    StatusDataItemName,
>)
    requires
        ascii::bytes_of(text) == status_text(n),
    ensures
        g::agrees(res, name_rule(n)(input@)),
{
    let (rest, _) = tag_no_case(input, text)?;
    Ok((rest, n))
}

pub fn status_att<'a>(input: &'a [u8]) -> (res: IMAPResult<'a, StatusDataItemName>)
    ensures
        g::agrees(res, status_att_rule()(input@)),
{
    proof {
        reveal(status_att_rule);
    }
    match name(input, StatusDataItemName::Messages, "MESSAGES") {
        Err(IMAPParseError::Error) => {},
        res => return res,
    }
    match name(input, StatusDataItemName::Recent, "RECENT") {
        Err(IMAPParseError::Error) => {},
        res => return res,
    }
    match name(input, StatusDataItemName::UidNext, "UIDNEXT") {
        Err(IMAPParseError::Error) => {},
        res => return res,
    }
    match name(input, StatusDataItemName::UidValidity, "UIDVALIDITY") {
        Err(IMAPParseError::Error) => {},
        res => return res,
    }
    match name(input, StatusDataItemName::Unseen, "UNSEEN") {
        Err(IMAPParseError::Error) => {},
        res => return res,
    }
    match name(input, StatusDataItemName::DeletedStorage, "DELETED-STORAGE") {
        Err(IMAPParseError::Error) => {},
        res => return res,
    }
    match name(input, StatusDataItemName::Deleted, "DELETED") {
        Err(IMAPParseError::Error) => {},
        res => return res,
    }
    match name(input, StatusDataItemName::Size, "SIZE") {
        Err(IMAPParseError::Error) => {},
        res => return res,
    }
    name(input, StatusDataItemName::HighestModSeq, "HIGHESTMODSEQ")
}

impl EncodeIntoContext for StatusDataItemName {
    open spec fn tokens(v: StatusDataItemName) -> Seq<Token> {
        encode::plain(status_text(v))
    }

    fn encode_ctx(&self, ctx: &mut EncodeContext) {
        match *self {
            StatusDataItemName::Messages => ctx.write_text("MESSAGES"),
            StatusDataItemName::Recent => ctx.write_text("RECENT"),
            StatusDataItemName::UidNext => ctx.write_text("UIDNEXT"),
            StatusDataItemName::UidValidity => ctx.write_text("UIDVALIDITY"),
            StatusDataItemName::Unseen => ctx.write_text("UNSEEN"),
            StatusDataItemName::Deleted => ctx.write_text("DELETED"),
            StatusDataItemName::DeletedStorage => ctx.write_text("DELETED-STORAGE"),
            StatusDataItemName::Size => ctx.write_text("SIZE"),
            StatusDataItemName::HighestModSeq => ctx.write_text("HIGHESTMODSEQ"),
        }
        assert(ctx@ =~= old(ctx)@ + Self::tokens(self.deep_view()));
    }
}

} // verus!
