//! APPEND of a message that is sent apart from the command.
use vstd::prelude::*;

use crate::arguments as args;
use crate::arguments::{write_argument, write_optional_list};
use crate::ascii;
use crate::ascii::is_tag_char;
use crate::command;
use crate::command::{BodyView, CommandView, MessageView};
use crate::date::DateTime;
use crate::encode;
use crate::encode::{EncodeContext, EncodeIntoContext, Encoded, LiteralMode, Token};
use crate::flag::{Flag, FlagView};
use crate::mailbox;
use crate::mailbox::{Mailbox, MailboxView};
use crate::strings;

verus! {

/// An APPEND command whose message is announced by its length and sent later.
#[derive(Debug, PartialEq, Eq, Hash)]
pub struct StreamedAppend {
    pub tag: Vec<u8>,
    pub mailbox: Mailbox,
    pub flags: Vec<Flag>,
    pub date: Option<DateTime>,
    pub length: u64,
    pub mode: LiteralMode,
    /// The message is a `literal8` and may hold NUL.
    pub binary: bool,
}

pub struct StreamedAppendView {
    pub tag: Seq<u8>,
    pub mailbox: MailboxView,
    pub flags: Seq<FlagView>,
    pub date: Option<Seq<u8>>,
    pub length: u64,
    pub mode: LiteralMode,
    pub binary: bool,
}

impl DeepView for StreamedAppend {
    type V = StreamedAppendView;

    open spec fn deep_view(&self) -> StreamedAppendView {
        StreamedAppendView {
            tag: self.tag@,
            mailbox: self.mailbox.deep_view(),
            flags: self.flags.deep_view(),
            date: self.date.deep_view(),
            length: self.length,
            mode: self.mode,
            binary: self.binary,
        }
    }
}

pub open spec fn tag_ok(b: Seq<u8>) -> bool {
    b.len() > 0 && ascii::all_bytes(b, |x: u8| is_tag_char(x))
}

/// The command up to the first byte of the message.
pub open spec fn prefix_tokens(a: StreamedAppendView) -> Seq<Token> {
    encode::plain(a.tag) + encode::word(" APPEND") + args::argument(
        mailbox::mailbox_tokens(a.mailbox),
    ) + args::optional_parens(encode::parts::<Flag>(a.flags)) + command::date_argument(a.date)
        + encode::word(
        if a.binary {
            " ~"
        } else {
            " "
        },
    ) + encode::plain(strings::announcement_text(a.length as nat, a.mode))
}

/// The command that the prefix, the message and the end of the line make up.
pub open spec fn whole_command(a: StreamedAppendView, data: Seq<u8>) -> CommandView {
    CommandView {
        tag: a.tag,
        body: BodyView::Append {
            mailbox: a.mailbox,
            flags: a.flags,
            date: a.date,
            message: MessageView { binary: a.binary, data, mode: a.mode },
        },
    }
}

/// A message of the announced length, sent behind the prefix, gives what the
/// whole command would have given.
pub proof fn law_streamed_append_is_append(a: StreamedAppendView, data: Seq<u8>)
    requires
        data.len() == a.length,
    ensures
        prefix_tokens(a) + seq![Token::Literal(data, a.mode)] + encode::word("\r\n")
            == command::command_tokens(whole_command(a, data)),
{
    reveal_strlit(" APPEND");
    reveal_strlit(" ");
    reveal_strlit(" ~");
    reveal_strlit("~");
    reveal_strlit("APPEND");
    reveal_strlit("UID ");
    assert(encode::word(" APPEND") =~= encode::word(" ") + encode::word("APPEND"));
    assert(encode::word(" ~") =~= encode::word(" ") + encode::word("~"));
    assert(prefix_tokens(a) + seq![Token::Literal(data, a.mode)] + encode::word("\r\n")
        =~= command::command_tokens(whole_command(a, data)));
}

fn is_tag(b: &[u8]) -> (r: bool)
    ensures
        r == tag_ok(b@),
{
    let mut i: usize = 0;
    while i < b.len()
        invariant
            i <= b@.len(),
            forall|j: int| 0 <= j < i ==> is_tag_char(#[trigger] b@[j]),
        decreases b@.len() - i,
    {
        if !is_tag_char(b[i]) {
            assert(!is_tag_char(b@[i as int]));
            return false;
        }
        i = i + 1;
    }
    b.len() > 0
}

impl StreamedAppend {
    /// The command up to the first byte of the message, ready to be sent.
    pub fn encode_prefix(&self) -> (r: Result<Encoded, &'static str>)
        ensures
            match r {
                Ok(e) => tag_ok(self.tag@) && e@ == prefix_tokens(self.deep_view()),
                Err(e) => !tag_ok(self.tag@) && e@ == "Invalid tag"@,
            },
    {
        if !is_tag(self.tag.as_slice()) {
            return Err("Invalid tag");
        }
        let mut ctx = EncodeContext::new();
        ctx.write_bytes(self.tag.as_slice());
        ctx.write_text(" APPEND");
        write_argument(&self.mailbox, &mut ctx);
        write_optional_list(&self.flags, &mut ctx);
        let ghost before = ctx@;
        if let Some(d) = &self.date {
            write_argument(d, &mut ctx);
        }
        assert(ctx@ =~= before + command::date_argument(self.date.deep_view()));
        if self.binary {
            ctx.write_text(" ~");
        } else {
            ctx.write_text(" ");
        }
        strings::write_announcement(&mut ctx, self.length, self.mode);
        assert(ctx@ =~= prefix_tokens(self.deep_view()));
        Ok(ctx.into_encoded())
    }
}

} // verus!
