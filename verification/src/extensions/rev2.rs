//! The syntax of IMAP4rev2 extensions: ESEARCH, SEARCHRES and LIST-EXTENDED.
use vstd::prelude::*;

use crate::arguments as args;
use crate::ascii;
use crate::ascii::{is_alpha, is_digit};
use crate::command::{BodyView, CommandBody};
use crate::encode;
use crate::encode::{join_serializable, EncodeContext, EncodeIntoContext, Token};
use crate::flag::FlagNameAttribute;
use crate::grammar as g;
use crate::grammar::{
    parens0, parens1, repeat, tag, tag_no_case, IMAPErrorKind, IMAPParseError, IMAPResult, Outcome,
    Rule,
};
use crate::mailbox;
use crate::mailbox::{
    list_mailbox, mailbox, mailbox_list, write_delimiter, ListMailbox, Mailbox, MailboxListView,
    MailboxView, QuotedChar,
};
use crate::number;
use crate::number::{are_digits, number64, parse_digits};
use crate::reading;
use crate::response::{Data, DataView};
use crate::rev2::{
    ComponentView, ExtensionComponent, ExtensionValue, ListExtension, ListExtensionView, ListReturn,
    ListReturnView, MessageSet, MessageSetView, SearchReturn, SearchReturnData,
    SearchReturnDataView, SearchReturnView, ValueView,
};
use crate::search;
use crate::search::{criteria, write_criteria, KeyView, SearchKey};
use crate::sequence;
use crate::sequence::{parse_sequence_set, sequence_set, Sequence};
use crate::status;
use crate::status::{status_att, StatusDataItemName};
use crate::strings;
use crate::strings::{astring, atom, charset, AString, Atom, Charset, StringView};

verus! {

/// The largest value of `number64` in IMAP4rev2.
pub const NUMBER63_MAX: u64 = 0x7fff_ffff_ffff_ffff;

// ----------------------------------------------------------------------- rules

/// A number of at most 63 bits.
#[verifier::opaque]
pub open spec fn number63_rule() -> Rule<u64> {
    g::verify(number::number64_rule(), |n: u64| n <= NUMBER63_MAX)
}

#[verifier::opaque]
pub open spec fn nz_number63_rule() -> Rule<u64> {
    g::verify(number63_rule(), |n: u64| n > 0)
}

/// `"$" / sequence-set`.
#[verifier::opaque]
pub open spec fn message_set_rule() -> Rule<MessageSetView> {
    g::alt(
        g::value(MessageSetView::SearchResult, g::text("$")),
        g::mapped(
            sequence::sequence_set_rule(),
            |s: Seq<Sequence>| MessageSetView::SequenceSet(s),
        ),
    )
}

#[verifier::allow_in_spec]
pub fn is_label_first(b: u8) -> bool
    returns
        is_alpha(b) || b == '-' as u8 || b == '_' as u8 || b == '.' as u8,
{
    is_alpha(b) || b == '-' as u8 || b == '_' as u8 || b == '.' as u8
}

#[verifier::allow_in_spec]
pub fn is_label_char(b: u8) -> bool
    returns
        is_label_first(b) || is_digit(b) || b == ':' as u8,
{
    is_label_first(b) || is_digit(b) || b == ':' as u8
}

/// `tagged-ext-label = tagged-label-fchar *tagged-label-char`.
pub open spec fn is_label(b: Seq<u8>) -> bool {
    &&& b.len() > 0
    &&& is_label_first(b[0])
    &&& forall|i: int| 1 <= i < b.len() ==> is_label_char(#[trigger] b[i])
}

#[verifier::opaque]
pub open spec fn label_rule() -> Rule<Seq<u8>> {
    g::verify(strings::atom_rule(), |b: Seq<u8>| is_label(b))
}

/// `tagged-ext-comp`: a string, or components in parentheses, nested at most
/// `depth` levels deep.
#[verifier::opaque]
pub open spec fn component_rule(depth: nat) -> Rule<ComponentView>
    decreases depth,
{
    if depth == 0 {
        g::refuse(IMAPErrorKind::RecursionLimitExceeded)
    } else {
        g::alt(
            g::mapped(
                g::paren_list0(component_rule((depth - 1) as nat)),
                |v: Seq<ComponentView>| ComponentView::List(v),
            ),
            g::mapped(strings::astring_rule(), |s: StringView| ComponentView::String(s)),
        )
    }
}

/// How deep the components of an extension value may nest.
pub const COMPONENT_DEPTH: usize = 16;

/// A simple value is a number of at most 63 bits or a sequence set.
pub open spec fn is_simple_value(b: Seq<u8>) -> bool {
    if number::all_digits(b) {
        number::digits_value(b) <= NUMBER63_MAX
    } else {
        sequence::sequence_set_of(b) is Some
    }
}

/// `tagged-ext-val = tagged-ext-simple / "(" [tagged-ext-comp] ")"`.
#[verifier::opaque]
pub open spec fn extension_value_rule() -> Rule<ValueView> {
    g::alt(
        g::mapped(
            g::paren_list0(component_rule(COMPONENT_DEPTH as nat)),
            |v: Seq<ComponentView>| ValueView::List(v),
        ),
        g::mapped(
            g::verify(strings::atom_rule(), |b: Seq<u8>| is_simple_value(b)),
            |b: Seq<u8>| ValueView::Simple(b),
        ),
    )
}

/// The return option of this name. A parameter makes every option an extension.
pub open spec fn search_return_of(name: Seq<u8>, parameters: Option<ValueView>) -> SearchReturnView {
    if parameters is Some {
        SearchReturnView::Extension { name, parameters }
    } else if ascii::same_word(name, ascii::bytes_of("MIN")) {
        SearchReturnView::Min
    } else if ascii::same_word(name, ascii::bytes_of("MAX")) {
        SearchReturnView::Max
    } else if ascii::same_word(name, ascii::bytes_of("ALL")) {
        SearchReturnView::All
    } else if ascii::same_word(name, ascii::bytes_of("COUNT")) {
        SearchReturnView::Count
    } else if ascii::same_word(name, ascii::bytes_of("SAVE")) {
        SearchReturnView::Save
    } else {
        SearchReturnView::Extension { name, parameters }
    }
}

/// A label and, behind a space, its parameters.
#[verifier::opaque]
pub open spec fn option_rule() -> Rule<(Seq<u8>, Option<ValueView>)> {
    g::pair(label_rule(), g::opt(g::preceded(g::text(" "), extension_value_rule())))
}

#[verifier::opaque]
pub open spec fn search_return_rule() -> Rule<SearchReturnView> {
    g::mapped(option_rule(), |p: (Seq<u8>, Option<ValueView>)| search_return_of(p.0, p.1))
}

/// `"SEARCH RETURN (" … ")" [" CHARSET " charset] SP search-key *(SP search-key)`.
#[verifier::opaque]
pub open spec fn extended_search_rule() -> Rule<BodyView> {
    g::mapped(
        g::pair(
            g::preceded(g::word("SEARCH RETURN "), g::paren_list0(search_return_rule())),
            g::pair(
                g::opt(g::preceded(g::word(" CHARSET "), strings::charset_rule())),
                g::preceded(g::text(" "), search::criteria_rule()),
            ),
        ),
        |p: (Seq<SearchReturnView>, (Option<StringView>, Seq<KeyView>))|
            BodyView::SearchExtended {
                return_options: p.0,
                charset: p.1.0,
                criteria: p.1.1,
                uid: false,
            },
    )
}

/// Digits that stand for a number between the two bounds.
pub open spec fn is_number_between(b: Seq<u8>, low: nat, high: nat) -> bool {
    number::all_digits(b) && low <= number::digits_value(b) <= high
}

/// The items of ESEARCH that have a meaning of their own are checked:
/// MIN and MAX are numbers other than zero, COUNT is a number, ALL a sequence
/// set without `*`, MODSEQ a modification sequence other than zero.
pub open spec fn search_data_ok(d: SearchReturnDataView) -> bool {
    if ascii::same_word(d.name, ascii::bytes_of("MIN")) || ascii::same_word(
        d.name,
        ascii::bytes_of("MAX"),
    ) {
        d.value matches ValueView::Simple(b) && is_number_between(b, 1, u32::MAX as nat)
    } else if ascii::same_word(d.name, ascii::bytes_of("COUNT")) {
        d.value matches ValueView::Simple(b) && is_number_between(b, 0, u32::MAX as nat)
    } else if ascii::same_word(d.name, ascii::bytes_of("ALL")) {
        d.value matches ValueView::Simple(b) && !b.contains('*' as u8) && !b.contains('$' as u8)
            && sequence::sequence_set_of(b) is Some
    } else if ascii::same_word(d.name, ascii::bytes_of("MODSEQ")) {
        d.value matches ValueView::Simple(b) && is_number_between(b, 1, u64::MAX as nat)
    } else {
        true
    }
}

/// `search-return-data = label SP value`.
#[verifier::opaque]
pub open spec fn search_data_rule() -> Rule<SearchReturnDataView> {
    g::verify(
        g::mapped(
            g::pair(g::terminated(label_rule(), g::text(" ")), extension_value_rule()),
            |p: (Seq<u8>, ValueView)| SearchReturnDataView { name: p.0, value: p.1 },
        ),
        |d: SearchReturnDataView| search_data_ok(d),
    )
}

/// `esearch-response`, behind `* `.
#[verifier::opaque]
pub open spec fn esearch_rule() -> Rule<DataView> {
    g::mapped(
        g::preceded(
            g::word("ESEARCH"),
            g::pair(
                g::opt(
                    g::delimited(g::word(" (TAG "), strings::astring_rule(), g::text(")")),
                ),
                g::pair(g::opt(g::word(" UID")), g::repeated(g::text(" "), search_data_rule())),
            ),
        ),
        |p: (Option<StringView>, (Option<()>, Seq<SearchReturnDataView>))|
            DataView::ESearch { tag: p.0, uid: p.1.0 is Some, items: p.1.1 },
    )
}

/// The return option of LIST of this name.
pub open spec fn list_return_of(name: Seq<u8>, parameters: Option<ValueView>) -> ListReturnView {
    if parameters is Some {
        ListReturnView::Extension { name, parameters }
    } else if ascii::same_word(name, ascii::bytes_of("SUBSCRIBED")) {
        ListReturnView::Subscribed
    } else if ascii::same_word(name, ascii::bytes_of("CHILDREN")) {
        ListReturnView::Children
    } else if ascii::same_word(name, ascii::bytes_of("SPECIAL-USE")) {
        ListReturnView::SpecialUse
    } else {
        ListReturnView::Extension { name, parameters }
    }
}

/// `"STATUS " "(" status-att *(SP status-att) ")"`.
pub open spec fn status_option_rule() -> Rule<Seq<StatusDataItemName>> {
    g::preceded(g::word("STATUS "), g::paren_list1(status::status_att_rule()))
}

#[verifier::opaque]
pub open spec fn list_return_rule() -> Rule<ListReturnView> {
    g::alt(
        g::mapped(
            status_option_rule(),
            |v: Seq<StatusDataItemName>| ListReturnView::Status(v),
        ),
        g::mapped(option_rule(), |p: (Seq<u8>, Option<ValueView>)| list_return_of(p.0, p.1)),
    )
}

/// The selection options of LIST and the space behind them.
#[verifier::opaque]
pub open spec fn terminated_selection_rule() -> Rule<Seq<Seq<u8>>> {
    g::terminated(g::paren_list0(label_rule()), g::text(" "))
}

/// What a LIST command holds: selection options, reference, patterns, whether
/// they stand in parentheses, and return options.
pub struct ListParts {
    pub selection: Option<Seq<Seq<u8>>>,
    pub reference: MailboxView,
    pub patterns: Seq<StringView>,
    pub multiple: bool,
    pub return_options: Option<Seq<ListReturnView>>,
}

pub open spec fn patterns_rule() -> Rule<(Seq<StringView>, bool)> {
    g::alt(
        g::mapped(
            g::paren_list1(mailbox::list_mailbox_rule()),
            |v: Seq<StringView>| (v, true),
        ),
        g::mapped(mailbox::list_mailbox_rule(), |s: StringView| (seq![s], false)),
    )
}

pub open spec fn list_parts_rule() -> Rule<ListParts> {
    g::mapped(
        g::preceded(
            g::word("LIST "),
            g::pair(
                g::opt(terminated_selection_rule()),
                g::pair(
                    g::terminated(mailbox::mailbox_rule(), g::text(" ")),
                    g::pair(
                        patterns_rule(),
                        g::opt(
                            g::preceded(g::word(" RETURN "), g::paren_list0(list_return_rule())),
                        ),
                    ),
                ),
            ),
        ),
        |p: (
            Option<Seq<Seq<u8>>>,
            (MailboxView, ((Seq<StringView>, bool), Option<Seq<ListReturnView>>)),
        )|
            ListParts {
                selection: p.0,
                reference: p.1.0,
                patterns: p.1.1.0.0,
                multiple: p.1.1.0.1,
                return_options: p.1.1.1,
            },
    )
}

pub open spec fn is_recursive_match(b: Seq<u8>) -> bool {
    ascii::same_word(b, ascii::bytes_of("RECURSIVEMATCH"))
}

pub open spec fn is_remote(b: Seq<u8>) -> bool {
    ascii::same_word(b, ascii::bytes_of("REMOTE"))
}

/// RECURSIVEMATCH modifies other options and cannot stand alone; REMOTE does
/// not count as another.
pub open spec fn selection_ok(selection: Seq<Seq<u8>>) -> bool {
    (exists|i: int| 0 <= i < selection.len() && is_recursive_match(#[trigger] selection[i]))
        ==> exists|i: int|
        0 <= i < selection.len() && !is_recursive_match(#[trigger] selection[i]) && !is_remote(
            selection[i],
        )
}

/// A LIST command without any of the extensions.
pub open spec fn is_plain_list(p: ListParts) -> bool {
    p.selection is None && !p.multiple && p.return_options is None
}

pub open spec fn selection_of(p: ListParts) -> Seq<Seq<u8>> {
    match p.selection {
        Some(v) => v,
        None => seq![],
    }
}

pub open spec fn list_of(p: ListParts) -> BodyView {
    if is_plain_list(p) {
        BodyView::List { reference: p.reference, mailbox_wildcard: p.patterns[0] }
    } else {
        BodyView::ListExtended {
            selection: selection_of(p),
            reference: p.reference,
            patterns: p.patterns,
            return_options: p.return_options,
        }
    }
}

/// The LIST command, with and without extensions.
#[verifier::opaque]
pub open spec fn list_rule() -> Rule<BodyView> {
    g::mapped(
        g::insist(
            list_parts_rule(),
            |p: ListParts| is_plain_list(p) || selection_ok(selection_of(p)),
            IMAPErrorKind::Verify,
        ),
        |p: ListParts| list_of(p),
    )
}

/// `astring SP value`.
#[verifier::opaque]
pub open spec fn list_extension_rule() -> Rule<ListExtensionView> {
    g::mapped(
        g::pair(g::terminated(strings::astring_rule(), g::text(" ")), extension_value_rule()),
        |p: (StringView, ValueView)| ListExtensionView { tag: p.0, value: p.1 },
    )
}

/// A LIST response with extension data, behind `* `.
#[verifier::opaque]
pub open spec fn list_data_rule() -> Rule<DataView> {
    g::mapped(
        g::pair(
            g::preceded(g::word("LIST "), mailbox::mailbox_list_rule()),
            g::preceded(g::text(" "), g::paren_list0(list_extension_rule())),
        ),
        |p: (MailboxListView, Seq<ListExtensionView>)|
            DataView::ListExtended {
                items: p.0.0,
                delimiter: p.0.1,
                mailbox: p.0.2,
                extensions: p.1,
            },
    )
}

pub proof fn lemma_rev2_commands_lawful()
    ensures
        g::lawful(extended_search_rule()),
        g::lawful(list_rule()),
        g::lawful(esearch_rule()),
        g::lawful(list_data_rule()),
{
    broadcast use g::group_lawful;

    lemma_rev2_lawful();
    strings::lemma_strings_lawful();
    mailbox::lemma_mailboxes_lawful();
    status::lemma_status_lawful();
    search::lemma_criteria_lawful();
    reveal(extended_search_rule);
    reveal(search_data_rule);
    reveal(esearch_rule);
    reveal(list_return_rule);
    reveal(terminated_selection_rule);
    reveal(list_rule);
    reveal(list_extension_rule);
    reveal(list_data_rule);
}

pub proof fn lemma_rev2_lawful()
    ensures
        g::lawful(number63_rule()),
        g::lawful(nz_number63_rule()),
        g::lawful(message_set_rule()),
        g::lawful(label_rule()),
        g::lawful(extension_value_rule()),
        g::lawful(option_rule()),
        g::lawful(search_return_rule()),
{
    broadcast use g::group_lawful;

    reveal(number63_rule);
    reveal(nz_number63_rule);
    reveal(message_set_rule);
    reveal(label_rule);
    reveal(extension_value_rule);
    reveal(option_rule);
    reveal(search_return_rule);
    number::lemma_numbers_lawful();
    sequence::lemma_sequences_lawful();
    strings::lemma_strings_lawful();
    lemma_component_lawful(COMPONENT_DEPTH as nat);
}

pub proof fn lemma_component_lawful(depth: nat)
    ensures
        g::lawful(component_rule(depth)),
    decreases depth,
{
    broadcast use g::group_lawful;

    reveal_with_fuel(component_rule, 1);
    if depth > 0 {
        lemma_component_lawful((depth - 1) as nat);
        strings::lemma_strings_lawful();
    }
}

// ------------------------------------------------------------------- encodings

pub open spec fn message_set_tokens(v: MessageSetView) -> Seq<Token> {
    match v {
        MessageSetView::SearchResult => encode::word("$"),
        MessageSetView::SequenceSet(s) => sequence::set_tokens(s),
    }
}

pub open spec fn component_tokens(c: ComponentView) -> Seq<Token>
    decreases c,
{
    match c {
        ComponentView::String(s) => strings::string_tokens(s),
        ComponentView::List(v) => encode::paren_tokens(component_parts(v)),
    }
}

/// What is written for each of the components.
pub open spec fn component_parts(v: Seq<ComponentView>) -> Seq<Seq<Token>>
    decreases v,
{
    if v.len() == 0 {
        seq![]
    } else {
        component_parts(v.drop_last()).push(component_tokens(v[v.len() - 1]))
    }
}

pub proof fn lemma_component_parts(v: Seq<ComponentView>)
    ensures
        component_parts(v) == v.map_values(|c: ComponentView| component_tokens(c)),
    decreases v.len(),
{
    let all = v.map_values(|c: ComponentView| component_tokens(c));
    if v.len() > 0 {
        lemma_component_parts(v.drop_last());
        assert(component_parts(v) =~= all);
    } else {
        assert(component_parts(v) =~= all);
    }
}

pub open spec fn value_tokens(v: ValueView) -> Seq<Token> {
    match v {
        ValueView::Simple(b) => encode::plain(b),
        ValueView::List(v) => encode::paren_tokens(component_parts(v)),
    }
}

pub open spec fn option_tokens(name: Seq<u8>, parameters: Option<ValueView>) -> Seq<Token> {
    encode::plain(name) + match parameters {
        Some(v) => encode::word(" ") + value_tokens(v),
        None => seq![],
    }
}

pub open spec fn search_return_tokens(v: SearchReturnView) -> Seq<Token> {
    match v {
        SearchReturnView::Min => encode::word("MIN"),
        SearchReturnView::Max => encode::word("MAX"),
        SearchReturnView::All => encode::word("ALL"),
        SearchReturnView::Count => encode::word("COUNT"),
        SearchReturnView::Save => encode::word("SAVE"),
        SearchReturnView::Extension { name, parameters } => option_tokens(name, parameters),
    }
}

/// A search with return options, in front of which may stand `UID `.
pub open spec fn extended_search_tokens(
    return_options: Seq<SearchReturnView>,
    charset: Option<StringView>,
    criteria: Seq<KeyView>,
    uid: bool,
) -> Seq<Token> {
    uid_tokens(uid) + encode::word("SEARCH RETURN (") + encode::joined(
        encode::parts::<SearchReturn>(return_options),
        encode::word(" "),
    ) + encode::word(")") + charset_tokens(charset) + encode::word(" ") + search::criteria_tokens(
        criteria,
    )
}

pub open spec fn uid_tokens(uid: bool) -> Seq<Token> {
    if uid {
        encode::word("UID ")
    } else {
        seq![]
    }
}

pub open spec fn charset_tokens(charset: Option<StringView>) -> Seq<Token> {
    match charset {
        Some(c) => encode::word(" CHARSET ") + strings::string_tokens(c),
        None => seq![],
    }
}

pub open spec fn search_data_tokens(d: SearchReturnDataView) -> Seq<Token> {
    encode::plain(d.name) + encode::word(" ") + value_tokens(d.value)
}

pub open spec fn esearch_tokens(
    tag: Option<StringView>,
    uid: bool,
    items: Seq<SearchReturnDataView>,
) -> Seq<Token> {
    encode::word("* ESEARCH") + (match tag {
        Some(t) => encode::word(" (TAG ") + strings::string_tokens(t) + encode::word(")"),
        None => seq![],
    }) + (if uid {
        encode::word(" UID")
    } else {
        seq![]
    }) + encode::spread(encode::parts::<SearchReturnData>(items), encode::word(" "))
}

pub open spec fn list_return_tokens(v: ListReturnView) -> Seq<Token> {
    match v {
        ListReturnView::Subscribed => encode::word("SUBSCRIBED"),
        ListReturnView::Children => encode::word("CHILDREN"),
        ListReturnView::SpecialUse => encode::word("SPECIAL-USE"),
        ListReturnView::Status(names) => encode::word("STATUS (") + encode::joined(
            encode::parts::<StatusDataItemName>(names),
            encode::word(" "),
        ) + encode::word(")"),
        ListReturnView::Extension { name, parameters } => option_tokens(name, parameters),
    }
}

pub open spec fn extended_list_tokens(
    selection: Seq<Seq<u8>>,
    reference: MailboxView,
    patterns: Seq<StringView>,
    return_options: Option<Seq<ListReturnView>>,
) -> Seq<Token> {
    encode::word("LIST (") + encode::joined(encode::parts::<Atom>(selection), encode::word(" "))
        + encode::word(") ") + mailbox::mailbox_tokens(reference) + encode::word(" (")
        + encode::joined(encode::parts::<ListMailbox>(patterns), encode::word(" ")) + encode::word(
        ")",
    ) + return_options_tokens(return_options)
}

pub open spec fn list_extension_tokens(e: ListExtensionView) -> Seq<Token> {
    strings::string_tokens(e.tag) + encode::word(" ") + value_tokens(e.value)
}

pub open spec fn list_data_tokens(
    items: Seq<Seq<u8>>,
    delimiter: Option<u8>,
    mailbox: MailboxView,
    extensions: Seq<ListExtensionView>,
) -> Seq<Token> {
    encode::word("* LIST (") + encode::joined(
        encode::parts::<FlagNameAttribute>(items),
        encode::word(" "),
    ) + encode::word(") ") + encode::plain(mailbox::delimiter_text(delimiter)) + encode::word(" ")
        + mailbox::mailbox_tokens(mailbox) + encode::word(" (") + encode::joined(
        encode::parts::<ListExtension>(extensions),
        encode::word(" "),
    ) + encode::word(")")
}

// ---------------------------------------------------------------- reading back

/// A component that is nested at most `depth` levels deep.
pub open spec fn component_wf(c: ComponentView, depth: nat) -> bool
    decreases depth,
{
    match c {
        ComponentView::String(s) => depth >= 1 && strings::string_wf(s),
        ComponentView::List(v) => depth >= 2 && forall|i: int|
            0 <= i < v.len() ==> component_wf(#[trigger] v[i], (depth - 1) as nat),
    }
}

pub open spec fn value_wf(v: ValueView) -> bool {
    match v {
        ValueView::Simple(b) => strings::atom_wf(b) && is_simple_value(b),
        ValueView::List(v) => forall|i: int|
            0 <= i < v.len() ==> component_wf(#[trigger] v[i], COMPONENT_DEPTH as nat),
    }
}

proof fn lemma_component_rejects(depth: nat, s: Seq<u8>)
    requires
        depth >= 1,
        s.len() > 0,
        s[0] == ')' as u8,
    ensures
        component_rule(depth)(s) is Reject,
{
    broadcast use reading::group_reading;

    reveal_with_fuel(component_rule, 1);
    reveal_strlit("(");
    strings::lemma_string_rejects(s);
}

proof fn lemma_components_read(v: Seq<ComponentView>, depth: nat, t: Seq<u8>)
    requires
        depth >= 1,
        forall|i: int| 0 <= i < v.len() ==> component_wf(#[trigger] v[i], depth),
    ensures
        g::paren_list0(component_rule(depth))(
            encode::flat(encode::paren_tokens(component_parts(v))) + t,
        ) == Outcome::Done(t, v),
    decreases v, 0int,
{
    let tokens = component_parts(v);
    let parts = encode::flat_parts(tokens);
    lemma_component_parts(v);
    encode::lemma_flat_paren(tokens);
    assert forall|i: int| 0 <= i < parts.len() implies reading::reads(
        component_rule(depth),
        #[trigger] parts[i],
        v[i],
    ) by {
        assert(component_wf(v[i], depth));
        lemma_component_reads(v[i], depth);
    }
    reveal_strlit(")");
    assert((ascii::bytes_of(")") + t)[0] == ')' as u8);
    lemma_component_rejects(depth, ascii::bytes_of(")") + t);
    reading::lemma_parens_reads(component_rule(depth), parts, v, t);
}

/// A component is read back.
pub proof fn lemma_component_reads(c: ComponentView, depth: nat)
    requires
        component_wf(c, depth),
    ensures
        reading::reads(component_rule(depth), encode::flat(component_tokens(c)), c),
    decreases c, 1int,
{
    broadcast use reading::group_reading;

    reveal_with_fuel(component_rule, 1);
    reveal_strlit("(");
    let b = encode::flat(component_tokens(c));
    match c {
        ComponentView::String(s) => {
            strings::lemma_string_reads(s);
            strings::lemma_string_first(s);
            assert forall|t: Seq<u8>| reading::ends(t) implies #[trigger] component_rule(depth)(
                b + t,
            ) == Outcome::Done(t, c) by {
                assert((b + t)[0] == b[0]);
            }
        },
        ComponentView::List(v) => {
            assert forall|t: Seq<u8>| reading::ends(t) implies #[trigger] component_rule(depth)(
                b + t,
            ) == Outcome::Done(t, c) by {
                lemma_components_read(v, (depth - 1) as nat, t);
            }
        },
    }
}

/// An extension value is read back.
pub proof fn lemma_value_reads(v: ValueView)
    requires
        value_wf(v),
    ensures
        reading::reads(extension_value_rule(), encode::flat(value_tokens(v)), v),
{
    broadcast use {reading::group_reading, encode::group_flat};

    reveal(extension_value_rule);
    reveal_strlit("(");
    let b = encode::flat(value_tokens(v));
    assert forall|t: Seq<u8>| reading::ends(t) implies #[trigger] extension_value_rule()(b + t)
        == Outcome::Done(t, v) by {
        match v {
            ValueView::Simple(a) => {
                assert((b + t)[0] == a[0]);
                assert(ascii::is_atom_char(a[0]));
                strings::lemma_atom_reads(a);
            },
            ValueView::List(items) => {
                lemma_components_read(items, COMPONENT_DEPTH as nat, t);
            },
        }
    }
}

proof fn lemma_split_first(s: Seq<u8>, b: u8)
    requires
        s.len() > 0,
        s[0] != b,
    ensures
        sequence::split(s, b).len() > 0,
        sequence::split(s, b)[0].len() > 0,
        sequence::split(s, b)[0][0] == s[0],
{
    sequence::lemma_split_nonempty(s.skip(1), b);
}

/// A label is no value: it starts with neither a digit nor a star.
pub proof fn lemma_label_is_no_value(b: Seq<u8>, t: Seq<u8>)
    requires
        is_label(b),
        reading::ends(t),
    ensures
        strings::atom_wf(b),
        extension_value_rule()(b + t) is Reject,
{
    broadcast use reading::group_reading;

    reveal(extension_value_rule);
    reveal_strlit("(");
    reveal_strlit("*");
    assert forall|i: int| 0 <= i < b.len() implies ascii::is_atom_char(#[trigger] b[i]) by {}
    assert((b + t)[0] == b[0]);
    strings::lemma_atom_reads(b);
    assert(!is_digit(b[0]));
    assert(!number::all_digits(b));
    let parts = sequence::split(b, ',' as u8);
    lemma_split_first(b, ',' as u8);
    if b[0] != ':' as u8 {
        lemma_split_first(parts[0], ':' as u8);
    }
    assert(sequence::sequence_of(parts[0]) is None);
    sequence::lemma_sequences_none(parts, 0);
}

/// What may follow an option: a delimiter, and no value behind a space.
pub open spec fn option_follow(t: Seq<u8>) -> bool {
    reading::ends(t) && (t[0] == 0x20 ==> t.len() > 1 && t[1] != '(' as u8
        && extension_value_rule()(t.skip(1)) is Reject)
}

/// An option is read back.
pub proof fn lemma_option_reads(name: Seq<u8>, parameters: Option<ValueView>, t: Seq<u8>)
    requires
        is_label(name),
        parameters matches Some(v) ==> value_wf(v),
        option_follow(t),
    ensures
        option_rule()(encode::flat(option_tokens(name, parameters)) + t) == Outcome::Done(
            t,
            (name, parameters),
        ),
        extension_value_rule()(encode::flat(option_tokens(name, parameters)) + t) is Reject,
{
    broadcast use {reading::group_reading, encode::group_flat};

    reveal(option_rule);
    reveal(label_rule);
    reveal_strlit(" ");
    let sp = ascii::bytes_of(" ");
    let b = encode::flat(option_tokens(name, parameters));
    match parameters {
        None => {
            assert(b =~= name);
            lemma_label_is_no_value(name, t);
            strings::lemma_atom_reads(name);
            if t[0] == 0x20 {
                assert(t =~= sp + t.skip(1));
            }
        },
        Some(v) => {
            let rest = sp + (encode::flat(value_tokens(v)) + t);
            assert(b + t =~= name + rest);
            assert(rest[0] == 0x20);
            lemma_label_is_no_value(name, rest);
            strings::lemma_atom_reads(name);
            lemma_value_reads(v);
            reading::lemma_tag_reads(sp, encode::flat(value_tokens(v)) + t);
        },
    }
}

/// The text of an option starts like its name.
proof fn lemma_option_first(name: Seq<u8>, parameters: Option<ValueView>)
    requires
        is_label(name),
    ensures
        encode::flat(option_tokens(name, parameters)).len() > 0,
        encode::flat(option_tokens(name, parameters))[0] == name[0],
{
    let tail = match parameters {
        Some(v) => encode::word(" ") + value_tokens(v),
        None => seq![],
    };
    encode::lemma_flat_add(encode::plain(name), tail);
    encode::lemma_flat_plain(name);
}

/// An item that is read back before anything that may follow an option, and
/// that is no value itself.
pub open spec fn reads_option<T>(p: Rule<T>, b: Seq<u8>, v: T) -> bool {
    &&& b.len() > 0
    &&& b[0] != '(' as u8
    &&& forall|t: Seq<u8>|
        option_follow(t) ==> #[trigger] p(b + t) == Outcome::Done(t, v) && extension_value_rule()(
            b + t,
        ) is Reject
}

/// A list of options in parentheses is read back.
pub proof fn lemma_options_read<T>(p: Rule<T>, parts: Seq<Seq<u8>>, vals: Seq<T>, t: Seq<u8>)
    requires
        parts.len() == vals.len(),
        forall|i: int| 0 <= i < parts.len() ==> reads_option(p, #[trigger] parts[i], vals[i]),
        p(ascii::bytes_of(")") + t) is Reject,
    ensures
        g::paren_list0(p)(
            ascii::bytes_of("(") + encode::joined(parts, ascii::bytes_of(" ")) + ascii::bytes_of(
                ")",
            ) + t,
        ) == Outcome::Done(t, vals),
{
    broadcast use reading::group_reading;

    reveal_strlit("(");
    reveal_strlit(" ");
    reveal_strlit(")");
    let sep = ascii::bytes_of(" ");
    let close = ascii::bytes_of(")");
    let end = close + t;
    assert(end[0] == ')' as u8);
    assert forall|i: int| 0 <= i < parts.len() implies reading::reads_at(
        p,
        #[trigger] parts[i],
        vals[i],
        reading::rest_of(parts, sep, end, i),
    ) by {
        lemma_options_follow(p, parts, vals, end, i);
        assert(reads_option(p, parts[i], vals[i]));
    }
    reading::lemma_list_reads_direct(sep, p, parts, vals, end);
    let inner = encode::joined(parts, sep);
    assert(ascii::bytes_of("(") + inner + close + t =~= ascii::bytes_of("(") + (inner + end));
}

proof fn lemma_options_follow<T>(
    p: Rule<T>,
    parts: Seq<Seq<u8>>,
    vals: Seq<T>,
    end: Seq<u8>,
    i: int,
)
    requires
        parts.len() == vals.len(),
        forall|j: int| 0 <= j < parts.len() ==> reads_option(p, #[trigger] parts[j], vals[j]),
        0 <= i < parts.len(),
        end.len() > 0,
        end[0] == ')' as u8,
    ensures
        option_follow(reading::rest_of(parts, ascii::bytes_of(" "), end, i)),
    decreases parts.len() - i,
{
    reveal_strlit(" ");
    let sep = ascii::bytes_of(" ");
    let rest = reading::rest_of(parts, sep, end, i);
    let tail = parts.skip(i + 1);
    if i + 1 == parts.len() {
        assert(rest =~= end);
    } else {
        lemma_options_follow(p, parts, vals, end, i + 1);
        let next = reading::rest_of(parts, sep, end, i + 1);
        assert(tail.skip(1) =~= parts.skip(i + 2));
        assert(rest =~= sep + (parts[i + 1] + next));
        assert(rest[0] == 0x20);
        assert(rest.skip(1) =~= parts[i + 1] + next);
        assert(reads_option(p, parts[i + 1], vals[i + 1]));
        assert(p(parts[i + 1] + next) == Outcome::Done(next, vals[i + 1]));
    }
}

/// A message set that the grammar can express.
pub open spec fn message_set_wf(v: MessageSetView) -> bool {
    v matches MessageSetView::SequenceSet(s) ==> sequence::set_wf(s)
}

/// A message set is read back.
pub proof fn lemma_message_set_reads(v: MessageSetView)
    requires
        message_set_wf(v),
    ensures
        reading::reads(message_set_rule(), encode::flat(message_set_tokens(v)), v),
{
    broadcast use {reading::group_reading, encode::group_flat};

    reveal(message_set_rule);
    reveal_strlit("$");
    let b = encode::flat(message_set_tokens(v));
    assert forall|t: Seq<u8>| reading::ends(t) implies #[trigger] message_set_rule()(b + t)
        == Outcome::Done(t, v) by {
        if let MessageSetView::SequenceSet(s) = v {
            sequence::lemma_set_first(s);
            assert((b + t)[0] == b[0]);
            sequence::lemma_sequence_set_reads(s, t);
        }
    }
}

/// The name of a return option.
pub open spec fn search_return_name(v: SearchReturnView) -> Seq<u8> {
    match v {
        SearchReturnView::Min => ascii::bytes_of("MIN"),
        SearchReturnView::Max => ascii::bytes_of("MAX"),
        SearchReturnView::All => ascii::bytes_of("ALL"),
        SearchReturnView::Count => ascii::bytes_of("COUNT"),
        SearchReturnView::Save => ascii::bytes_of("SAVE"),
        SearchReturnView::Extension { name, .. } => name,
    }
}

pub open spec fn search_return_parameters(v: SearchReturnView) -> Option<ValueView> {
    match v {
        SearchReturnView::Extension { parameters, .. } => parameters,
        _ => None,
    }
}

/// A return option whose name, parameters and kind go together.
pub open spec fn search_return_wf(v: SearchReturnView) -> bool {
    &&& is_label(search_return_name(v))
    &&& search_return_parameters(v) matches Some(p) ==> value_wf(p)
    &&& search_return_of(search_return_name(v), search_return_parameters(v)) == v
}

/// The options that the grammar names are well-formed.
pub proof fn lemma_known_search_returns(v: SearchReturnView)
    requires
        !(v is Extension),
    ensures
        search_return_wf(v),
{
    broadcast use ascii::lemma_same_word_head;

    reveal_strlit("MIN");
    reveal_strlit("MAX");
    reveal_strlit("ALL");
    reveal_strlit("COUNT");
    reveal_strlit("SAVE");
}

/// A return option is read back.
pub proof fn lemma_search_return_reads(v: SearchReturnView)
    requires
        search_return_wf(v),
    ensures
        reads_option(search_return_rule(), encode::flat(search_return_tokens(v)), v),
{
    broadcast use encode::group_flat;

    reveal(search_return_rule);
    let name = search_return_name(v);
    let parameters = search_return_parameters(v);
    let b = encode::flat(search_return_tokens(v));
    assert(search_return_tokens(v) =~= option_tokens(name, parameters));
    lemma_option_first(name, parameters);
    assert forall|t: Seq<u8>| option_follow(t) implies #[trigger] search_return_rule()(b + t)
        == Outcome::Done(t, v) && extension_value_rule()(b + t) is Reject by {
        lemma_option_reads(name, parameters, t);
    }
}

/// A charset that the grammar can express.
pub open spec fn charset_wf(charset: Option<StringView>) -> bool {
    match charset {
        Some(StringView::Atom(b)) => strings::atom_wf(b),
        Some(StringView::Quoted(b)) => strings::quoted_wf(b),
        Some(StringView::Literal(_, _)) => false,
        None => true,
    }
}

/// `[" CHARSET " charset] SP search-key *(SP search-key)`.
pub open spec fn search_tail_rule() -> Rule<(Option<StringView>, Seq<KeyView>)> {
    g::pair(
        g::opt(g::preceded(g::word(" CHARSET "), strings::charset_rule())),
        g::preceded(g::text(" "), search::criteria_rule()),
    )
}

pub open spec fn search_tail_text(charset: Option<StringView>, criteria: Seq<KeyView>) -> Seq<u8> {
    encode::flat(charset_tokens(charset)) + ascii::bytes_of(" ") + encode::flat(
        search::criteria_tokens(criteria),
    )
}

/// Charset and criteria of a search are read back.
pub proof fn lemma_search_tail_reads(
    charset: Option<StringView>,
    criteria: Seq<KeyView>,
    t: Seq<u8>,
)
    requires
        charset_wf(charset),
        search::criteria_wf(criteria),
        t.len() > 0,
        t[0] == 0x0d,
    ensures
        search_tail_rule()(search_tail_text(charset, criteria) + t) == Outcome::Done(
            t,
            (charset, criteria),
        ),
        search_tail_text(charset, criteria).len() > 0,
        search_tail_text(charset, criteria)[0] == 0x20,
{
    reveal_strlit(" ");
    reveal_strlit(" CHARSET ");
    let space = ascii::bytes_of(" ");
    let word = ascii::bytes_of(" CHARSET ");
    let keys = encode::flat(search::criteria_tokens(criteria));
    let rest = space + (keys + t);
    let s = search_tail_text(charset, criteria) + t;
    search::lemma_criteria_reads(criteria, t);
    reading::lemma_tag_reads(space, keys + t);
    assert(rest[0] == 0x20);
    match charset {
        Some(c) => {
            let b = encode::flat(strings::string_tokens(c));
            encode::lemma_flat_add(encode::word(" CHARSET "), strings::string_tokens(c));
            encode::lemma_flat_word(" CHARSET ");
            assert(s =~= word + (b + rest));
            strings::lemma_charset_reads(c);
            assert(strings::charset_rule()(b + rest) == Outcome::Done(rest, c));
            reading::lemma_tag_no_case_reads(word, b + rest);
        },
        None => {
            assert(s =~= rest);
            search::lemma_criteria_start(criteria);
            assert(rest[1] == keys[0]);
            if ascii::upper(keys[0]) == 'C' as u8 {
                assert(rest[2] == keys[1]);
                reading::lemma_tag_no_case_rejects(word, rest, 2);
            } else {
                reading::lemma_tag_no_case_rejects(word, rest, 1);
            }
        },
    }
}

pub open spec fn search_returns_wf(v: Seq<SearchReturnView>) -> bool {
    forall|i: int| 0 <= i < v.len() ==> search_return_wf(#[trigger] v[i])
}

pub proof fn lemma_label_rejects(s: Seq<u8>)
    requires
        s.len() > 0,
        s[0] == ')' as u8,
    ensures
        label_rule()(s) is Reject,
        option_rule()(s) is Reject,
{
    reveal(label_rule);
    reveal(option_rule);
    reveal(strings::atom_rule);
    reading::lemma_take_while1_rejects(|x: u8| ascii::is_atom_char(x), s);
}

proof fn lemma_regrouped(
    a: Seq<u8>,
    b: Seq<u8>,
    x: Seq<u8>,
    c: Seq<u8>,
    d: Seq<u8>,
    e: Seq<u8>,
    f: Seq<u8>,
)
    ensures
        (a + b) + x + c + d + e + f == a + (b + x + c + (d + e + f)),
{
    assert((a + b) + x + c + d + e + f =~= a + (b + x + c + (d + e + f)));
}

/// The text of a search with return options.
proof fn lemma_extended_search_text(
    return_options: Seq<SearchReturnView>,
    charset: Option<StringView>,
    criteria: Seq<KeyView>,
)
    ensures
        ({
            let parts = encode::flat_parts(encode::parts::<SearchReturn>(return_options));
            encode::flat(extended_search_tokens(return_options, charset, criteria, false))
                == ascii::bytes_of("SEARCH RETURN ") + (ascii::bytes_of("(") + encode::joined(
                parts,
                ascii::bytes_of(" "),
            ) + ascii::bytes_of(")") + search_tail_text(charset, criteria))
        }),
{
    let tokens = encode::parts::<SearchReturn>(return_options);
    let list = encode::joined(tokens, encode::word(" "));
    let start = uid_tokens(false) + encode::word("SEARCH RETURN (");
    let cs = charset_tokens(charset);
    let keys = search::criteria_tokens(criteria);
    assert(start =~= encode::word("SEARCH RETURN ("));
    encode::lemma_flat_word("SEARCH RETURN (");
    encode::lemma_flat_word(")");
    encode::lemma_flat_word(" ");
    encode::lemma_flat_joined(tokens, encode::word(" "));
    encode::lemma_flat_add(start, list);
    encode::lemma_flat_add(start + list, encode::word(")"));
    encode::lemma_flat_add(start + list + encode::word(")"), cs);
    encode::lemma_flat_add(start + list + encode::word(")") + cs, encode::word(" "));
    encode::lemma_flat_add(start + list + encode::word(")") + cs + encode::word(" "), keys);
    let a = ascii::bytes_of("SEARCH RETURN ");
    let b = ascii::bytes_of("(");
    assert(ascii::bytes_of("SEARCH RETURN (") == a + b) by {
        reveal_strlit("SEARCH RETURN (");
        reveal_strlit("SEARCH RETURN ");
        reveal_strlit("(");
        assert(ascii::bytes_of("SEARCH RETURN (") =~= a + b);
    }
    let x = encode::joined(encode::flat_parts(tokens), ascii::bytes_of(" "));
    let c = ascii::bytes_of(")");
    let d = encode::flat(cs);
    let e = ascii::bytes_of(" ");
    let f = encode::flat(keys);
    lemma_regrouped(a, b, x, c, d, e, f);
}

/// A search with return options is read back.
pub proof fn lemma_extended_search_reads(
    return_options: Seq<SearchReturnView>,
    charset: Option<StringView>,
    criteria: Seq<KeyView>,
    t: Seq<u8>,
)
    requires
        search_returns_wf(return_options),
        charset_wf(charset),
        search::criteria_wf(criteria),
        t.len() > 0,
        t[0] == 0x0d,
    ensures
        extended_search_rule()(
            encode::flat(extended_search_tokens(return_options, charset, criteria, false)) + t,
        ) == Outcome::Done(
            t,
            BodyView::SearchExtended { return_options, charset, criteria, uid: false },
        ),
{
    let tokens = encode::parts::<SearchReturn>(return_options);
    let parts = encode::flat_parts(tokens);
    let tail = search_tail_text(charset, criteria) + t;
    let word = ascii::bytes_of("SEARCH RETURN ");
    let list = ascii::bytes_of("(") + encode::joined(parts, ascii::bytes_of(" "))
        + ascii::bytes_of(")");
    let s = encode::flat(extended_search_tokens(return_options, charset, criteria, false)) + t;
    lemma_extended_search_text(return_options, charset, criteria);
    assert(s =~= word + (list + tail));
    reading::lemma_tag_no_case_reads(word, list + tail);
    assert forall|i: int| 0 <= i < parts.len() implies reads_option(
        search_return_rule(),
        #[trigger] parts[i],
        return_options[i],
    ) by {
        assert(search_return_wf(return_options[i]));
        lemma_search_return_reads(return_options[i]);
    }
    reveal_strlit(")");
    let end = ascii::bytes_of(")") + tail;
    assert(end[0] == ')' as u8);
    lemma_label_rejects(end);
    reveal(search_return_rule);
    lemma_options_read(search_return_rule(), parts, return_options, tail);
    lemma_search_tail_reads(charset, criteria, t);
    reveal(extended_search_rule);
}

pub open spec fn search_data_wf(d: SearchReturnDataView) -> bool {
    is_label(d.name) && value_wf(d.value) && search_data_ok(d)
}

proof fn lemma_search_data_reads(d: SearchReturnDataView)
    requires
        search_data_wf(d),
    ensures
        reading::reads(search_data_rule(), encode::flat(search_data_tokens(d)), d),
        encode::flat(search_data_tokens(d)).len() > d.name.len(),
        encode::flat(search_data_tokens(d)).take(d.name.len() as int) == d.name,
        encode::flat(search_data_tokens(d))[d.name.len() as int] == 0x20,
{
    let space = ascii::bytes_of(" ");
    let b = encode::flat(value_tokens(d.value));
    let s = encode::flat(search_data_tokens(d));
    assert(s =~= d.name + (space + b)) by {
        broadcast use encode::group_flat;

    }
    reveal_strlit(" ");
    assert(s.take(d.name.len() as int) =~= d.name);
    lemma_value_reads(d.value);
    reveal(search_data_rule);
    reveal(label_rule);
    assert forall|t: Seq<u8>| reading::ends(t) implies #[trigger] search_data_rule()(s + t)
        == Outcome::Done(t, d) by {
        let rest = space + (b + t);
        assert(s + t =~= d.name + rest);
        assert(rest[0] == 0x20);
        lemma_label_is_no_value(d.name, rest);
        strings::lemma_atom_reads(d.name);
        assert(strings::atom_rule()(d.name + rest) == Outcome::Done(rest, d.name));
        reading::lemma_tag_reads(space, b + t);
        assert(extension_value_rule()(b + t) == Outcome::Done(t, d.value));
    }
}

/// Items of ESEARCH. Without the UID indicator, the name of the first item may
/// not start like one.
pub open spec fn esearch_wf(
    tag: Option<StringView>,
    uid: bool,
    items: Seq<SearchReturnDataView>,
) -> bool {
    &&& tag matches Some(t) ==> strings::string_wf(t)
    &&& forall|i: int| 0 <= i < items.len() ==> search_data_wf(#[trigger] items[i])
    &&& !uid && items.len() > 0 ==> !(items[0].name.len() >= 3 && ascii::same_word(
        items[0].name.take(3),
        ascii::bytes_of("UID"),
    ))
}

/// What stands behind `ESEARCH`.
pub open spec fn esearch_tail(
    tag: Option<StringView>,
    uid: bool,
    items: Seq<SearchReturnDataView>,
) -> Seq<u8> {
    (match tag {
        Some(x) => ascii::bytes_of(" (TAG ") + encode::flat(strings::string_tokens(x))
            + ascii::bytes_of(")"),
        None => seq![],
    }) + (if uid {
        ascii::bytes_of(" UID")
    } else {
        seq![]
    }) + encode::spread(
        encode::flat_parts(encode::parts::<SearchReturnData>(items)),
        ascii::bytes_of(" "),
    )
}

pub proof fn lemma_esearch_text(
    tag: Option<StringView>,
    uid: bool,
    items: Seq<SearchReturnDataView>,
)
    ensures
        encode::flat(esearch_tokens(tag, uid, items)) == ascii::bytes_of("* ") + (
        ascii::bytes_of("ESEARCH") + esearch_tail(tag, uid, items)),
{
    let tokens = encode::parts::<SearchReturnData>(items);
    let list = encode::spread(tokens, encode::word(" "));
    let start = encode::word("* ESEARCH");
    let tag_tokens = match tag {
        Some(x) => encode::word(" (TAG ") + strings::string_tokens(x) + encode::word(")"),
        None => seq![],
    };
    let tag_text = match tag {
        Some(x) => ascii::bytes_of(" (TAG ") + encode::flat(strings::string_tokens(x))
            + ascii::bytes_of(")"),
        None => seq![],
    };
    let uid_tokens = if uid {
        encode::word(" UID")
    } else {
        seq![]
    };
    let uid_text = if uid {
        ascii::bytes_of(" UID")
    } else {
        seq![]
    };
    encode::lemma_flat_word(" UID");
    encode::lemma_flat_word(" (TAG ");
    encode::lemma_flat_word(")");
    if let Some(x) = tag {
        encode::lemma_flat_add(encode::word(" (TAG "), strings::string_tokens(x));
        encode::lemma_flat_add(
            encode::word(" (TAG ") + strings::string_tokens(x),
            encode::word(")"),
        );
    }
    assert(encode::flat(tag_tokens) == tag_text);
    assert(encode::flat(uid_tokens) == uid_text);
    encode::lemma_flat_spread(tokens, encode::word(" "));
    encode::lemma_flat_word(" ");
    encode::lemma_flat_word("* ESEARCH");
    encode::lemma_flat_add(start, tag_tokens);
    encode::lemma_flat_add(start + tag_tokens, uid_tokens);
    encode::lemma_flat_add(start + tag_tokens + uid_tokens, list);
    let all = encode::spread(encode::flat_parts(tokens), ascii::bytes_of(" "));
    let a = ascii::bytes_of("* ");
    let b = ascii::bytes_of("ESEARCH");
    assert(ascii::bytes_of("* ESEARCH") == a + b) by {
        reveal_strlit("* ESEARCH");
        reveal_strlit("* ");
        reveal_strlit("ESEARCH");
        assert(ascii::bytes_of("* ESEARCH") =~= a + b);
    }
    encode::lemma_concat_assoc(a + b + tag_text, uid_text, all);
    encode::lemma_concat_assoc(a + b, tag_text, uid_text + all);
    encode::lemma_concat_assoc(a, b, tag_text + (uid_text + all));
    encode::lemma_concat_assoc(tag_text, uid_text, all);
}

/// The items of ESEARCH are read back, and cannot be taken for what may stand
/// in front of them.
proof fn lemma_esearch_items_read(items: Seq<SearchReturnDataView>, uid: bool, t: Seq<u8>)
    requires
        esearch_wf(None, uid, items),
        t.len() > 0,
        t[0] == 0x0d,
    ensures
        ({
            let parts = encode::flat_parts(encode::parts::<SearchReturnData>(items));
            let s = encode::spread(parts, ascii::bytes_of(" ")) + t;
            &&& g::repeated(g::text(" "), search_data_rule())(s) == Outcome::Done(t, items)
            &&& s.len() > 0
            &&& s[0] == 0x0d || (s[0] == 0x20 && s.len() > 1 && s[1] != '(' as u8)
            &&& !uid ==> g::word(" UID")(s) is Reject
        }),
{
    let tokens = encode::parts::<SearchReturnData>(items);
    let parts = encode::flat_parts(tokens);
    let space = ascii::bytes_of(" ");
    let s = encode::spread(parts, space) + t;
    reveal_strlit(" ");
    reveal_strlit(" UID");
    reveal_strlit("UID");
    let follow = |x: Seq<u8>| reading::ends(x);
    assert forall|i: int| 0 <= i < parts.len() implies reading::reads_before(
        search_data_rule(),
        #[trigger] parts[i],
        items[i],
        follow,
    ) by {
        assert(search_data_wf(items[i]));
        lemma_search_data_reads(items[i]);
        assert(parts[i] == encode::flat(search_data_tokens(items[i])));
    }
    assert forall|r: Seq<u8>| follow(#[trigger] (space + r)) by {
        assert((space + r)[0] == 0x20);
    }
    reading::lemma_tag_rejects(space, t);
    reading::lemma_list_reads(space, search_data_rule(), follow, parts, items, t);
    if items.len() == 0 {
        assert(s =~= t);
        reading::lemma_tag_no_case_rejects(ascii::bytes_of(" UID"), s, 0);
    } else {
        let d = items[0];
        assert(search_data_wf(d));
        lemma_search_data_reads(d);
        let b = parts[0];
        let n = d.name.len() as int;
        assert(b == encode::flat(search_data_tokens(d)));
        assert(s =~= space + (b + (encode::spread(parts.skip(1), space) + t)));
        assert(b.take(n)[0] == b[0]);
        assert(s[1] == d.name[0]);
        if !uid {
            let w = ascii::bytes_of(" UID");
            assert(b.len() > n);
            assert forall|i: int| 0 <= i < n implies s[i + 1] == d.name[i] by {
                assert(b.take(n)[i] == b[i]);
                assert(s[i + 1] == b[i]);
            }
            assert(s[n + 1] == b[n]);
            if n == 1 {
                reading::lemma_tag_no_case_rejects(w, s, 2);
            } else if n == 2 {
                reading::lemma_tag_no_case_rejects(w, s, 3);
            } else {
                let x = d.name.take(3);
                if ascii::upper(x[0]) != 'U' as u8 {
                    reading::lemma_tag_no_case_rejects(w, s, 1);
                } else if ascii::upper(x[1]) != 'I' as u8 {
                    reading::lemma_tag_no_case_rejects(w, s, 2);
                } else if ascii::upper(x[2]) != 'D' as u8 {
                    reading::lemma_tag_no_case_rejects(w, s, 3);
                } else {
                    assert(ascii::uppercase(x) =~= ascii::uppercase(ascii::bytes_of("UID")));
                }
            }
        }
    }
}

/// An ESEARCH response is read back.
pub proof fn lemma_esearch_reads(
    tag: Option<StringView>,
    uid: bool,
    items: Seq<SearchReturnDataView>,
    t: Seq<u8>,
)
    requires
        esearch_wf(tag, uid, items),
        t.len() > 0,
        t[0] == 0x0d,
    ensures
        esearch_rule()(ascii::bytes_of("ESEARCH") + esearch_tail(tag, uid, items) + t)
            == Outcome::Done(t, DataView::ESearch { tag, uid, items }),
{
    let parts = encode::flat_parts(encode::parts::<SearchReturnData>(items));
    let list = encode::spread(parts, ascii::bytes_of(" ")) + t;
    let word = ascii::bytes_of("ESEARCH");
    let uid_text = if uid {
        ascii::bytes_of(" UID")
    } else {
        seq![]
    };
    let tag_text = match tag {
        Some(x) => ascii::bytes_of(" (TAG ") + encode::flat(strings::string_tokens(x))
            + ascii::bytes_of(")"),
        None => seq![],
    };
    let open = ascii::bytes_of(" (TAG ");
    let close = ascii::bytes_of(")");
    let a = uid_text + list;
    reveal_strlit(" UID");
    reveal_strlit(" (TAG ");
    reveal_strlit(")");
    lemma_esearch_items_read(items, uid, t);
    assert(word + esearch_tail(tag, uid, items) + t =~= word + (tag_text + a));
    reading::lemma_tag_no_case_reads(word, tag_text + a);
    if uid {
        reading::lemma_tag_no_case_reads(ascii::bytes_of(" UID"), list);
    } else {
        assert(a =~= list);
    }
    match tag {
        Some(x) => {
            let b = encode::flat(strings::string_tokens(x));
            assert(tag_text + a =~= open + (b + (close + a)));
            reading::lemma_tag_no_case_reads(open, b + (close + a));
            strings::lemma_string_reads(x);
            assert((close + a)[0] == ')' as u8);
            assert(strings::astring_rule()(b + (close + a)) == Outcome::Done(close + a, x));
            reading::lemma_tag_reads(close, a);
        },
        None => {
            assert(tag_text + a =~= a);
            if uid {
                assert(a[1] == 'U' as u8);
                reading::lemma_tag_no_case_rejects(open, a, 1);
            } else if a[0] == 0x20 {
                reading::lemma_tag_no_case_rejects(open, a, 1);
            } else {
                reading::lemma_tag_no_case_rejects(open, a, 0);
            }
        },
    }
    reveal(esearch_rule);
}

/// The name of a return option of LIST.
pub open spec fn list_return_name(v: ListReturnView) -> Seq<u8> {
    match v {
        ListReturnView::Subscribed => ascii::bytes_of("SUBSCRIBED"),
        ListReturnView::Children => ascii::bytes_of("CHILDREN"),
        ListReturnView::SpecialUse => ascii::bytes_of("SPECIAL-USE"),
        ListReturnView::Status(_) => ascii::bytes_of("STATUS"),
        ListReturnView::Extension { name, .. } => name,
    }
}

pub open spec fn list_return_parameters(v: ListReturnView) -> Option<ValueView> {
    match v {
        ListReturnView::Extension { parameters, .. } => parameters,
        _ => None,
    }
}

/// A return option whose name, parameters and kind go together. An extension
/// named STATUS is none whose parameters are the names of status items.
pub open spec fn list_return_wf(v: ListReturnView) -> bool {
    match v {
        ListReturnView::Status(names) => names.len() > 0,
        _ => {
            let name = list_return_name(v);
            let parameters = list_return_parameters(v);
            &&& is_label(name)
            &&& parameters matches Some(p) ==> value_wf(p)
            &&& list_return_of(name, parameters) == v
            &&& ascii::same_word(name, ascii::bytes_of("STATUS")) ==> (parameters matches Some(
                p,
            ) ==> !names_status_items(p))
        },
    }
}

/// A component that names a status item.
pub open spec fn is_status_name(c: ComponentView) -> bool {
    exists|n: StatusDataItemName|
        c matches ComponentView::String(StringView::Atom(b)) && ascii::same_word(
            b,
            #[trigger] status::status_text(n),
        )
}

/// A value that reads as a list of status items.
#[verifier::opaque]
pub open spec fn names_status_items(p: ValueView) -> bool {
    p matches ValueView::List(v) && v.len() > 0 && forall|i: int|
        0 <= i < v.len() ==> is_status_name(#[trigger] v[i])
}

/// How a status item is read from a component that is none: not at all, or it
/// leaves something that goes on in the middle of a word.
proof fn lemma_status_name_stops(c: ComponentView, rest: Seq<u8>)
    requires
        component_wf(c, COMPONENT_DEPTH as nat),
        !is_status_name(c),
        rest.len() > 0,
        rest[0] == 0x20 || rest[0] == ')' as u8,
    ensures
        match status::status_att_rule()(encode::flat(component_tokens(c)) + rest) {
            Outcome::Done(r, _) => r.len() > 0 && r[0] != 0x20 && r[0] != ')' as u8 && r.len()
                <= (encode::flat(component_tokens(c)) + rest).len(),
            Outcome::Reject => true,
            _ => false,
        },
{
    let b = encode::flat(component_tokens(c));
    let s = b + rest;
    match c {
        ComponentView::String(StringView::Atom(a)) => {
            reveal(strings::string_tokens);
            encode::lemma_flat_plain(a);
            status::lemma_status_att_on_word(a, rest);
            if let Outcome::Done(r, n) = status::status_att_rule()(s) {
                let m = status::status_text(n).len() as int;
                if m == a.len() {
                    assert(a.take(m) =~= a);
                    assert(is_status_name(c));
                }
                assert(r[0] == a[m]);
                let class = |x: u8| ascii::is_astring_char(x);
                assert(class(a[m]));
            }
        },
        ComponentView::String(x) => {
            strings::lemma_string_first(x);
            assert(s[0] == b[0]);
            status::lemma_status_att_rejects(s);
        },
        ComponentView::List(v) => {
            reveal_strlit("(");
            encode::lemma_flat_paren(component_parts(v));
            assert(b[0] == '(' as u8);
            assert(s[0] == b[0]);
            status::lemma_status_att_rejects(s);
        },
    }
}

/// Components among which one names no status item are not read to their end.
proof fn lemma_status_names_stop(v: Seq<ComponentView>, parts: Seq<Seq<u8>>, k: int, t: Seq<u8>)
    requires
        0 <= k < v.len(),
        !is_status_name(v[k]),
        forall|i: int| 0 <= i < v.len() ==> component_wf(#[trigger] v[i], COMPONENT_DEPTH as nat),
        parts.len() == v.len(),
        forall|i: int|
            0 <= i < v.len() ==> #[trigger] parts[i] == encode::flat(component_tokens(v[i])),
        t.len() > 0,
        t[0] == ')' as u8,
    ensures
        g::repeated_from(
            g::text(" "),
            status::status_att_rule(),
            encode::spread(parts, ascii::bytes_of(" ")) + t,
        ) matches Outcome::Done(r, _) && r.len() > 0 && r[0] != ')' as u8,
    decreases v.len(),
{
    let space = ascii::bytes_of(" ");
    reveal_strlit(" ");
    let s = encode::spread(parts, space) + t;
    let rest = encode::spread(parts.skip(1), space) + t;
    assert(parts[0] == encode::flat(component_tokens(v[0])));
    let item = parts[0] + rest;
    assert(s =~= space + item);
    reading::lemma_tag_reads(space, item);
    assert(s[0] == 0x20);
    assert(s.len() == 1 + item.len() && item.len() >= rest.len());
    assert(rest.len() > 0 && (rest[0] == 0x20 || rest[0] == ')' as u8)) by {
        if parts.len() == 1 {
            assert(rest =~= t);
        }
    }
    assert(component_wf(v[0], COMPONENT_DEPTH as nat));
    if is_status_name(v[0]) {
        lemma_status_name_is_read(v[0], rest);
        assert forall|i: int| 0 <= i < v.skip(1).len() implies #[trigger] parts.skip(1)[i]
            == encode::flat(component_tokens(v.skip(1)[i])) by {
            assert(parts[i + 1] == encode::flat(component_tokens(v[i + 1])));
        }
        assert forall|i: int| 0 <= i < v.skip(1).len() implies component_wf(
            #[trigger] v.skip(1)[i],
            COMPONENT_DEPTH as nat,
        ) by {
            assert(component_wf(v[i + 1], COMPONENT_DEPTH as nat));
        }
        assert(v.skip(1)[k - 1] == v[k]);
        lemma_status_names_stop(v.skip(1), parts.skip(1), k - 1, t);
        let n = choose|n: StatusDataItemName|
            status::status_att_rule()(item) == Outcome::Done(rest, n);
        let xs = g::repeated_from(g::text(" "), status::status_att_rule(), rest);
        assert(g::repeated_from(g::text(" "), status::status_att_rule(), s) == Outcome::Done(
            xs->Done_0,
            seq![n] + xs->Done_1,
        ));
    } else {
        lemma_status_name_stops(v[0], rest);
        if let Outcome::Done(r, n) = status::status_att_rule()(item) {
            reading::lemma_tag_rejects(space, r);
            let none = Seq::<StatusDataItemName>::empty();
            assert(g::repeated_from(g::text(" "), status::status_att_rule(), r) == Outcome::Done(
                r,
                none,
            ));
            assert(g::repeated_from(g::text(" "), status::status_att_rule(), s) == Outcome::Done(
                r,
                seq![n] + none,
            ));
        }
    }
}

/// A component that names a status item is read as that item.
proof fn lemma_status_name_is_read(c: ComponentView, rest: Seq<u8>)
    requires
        is_status_name(c),
        rest.len() > 0,
        !status::is_name_char(rest[0]),
    ensures
        exists|n: StatusDataItemName|
            status::status_att_rule()(encode::flat(component_tokens(c)) + rest) == Outcome::Done(
                rest,
                n,
            ),
{
    let b = c->String_0->Atom_0;
    reveal(strings::string_tokens);
    encode::lemma_flat_plain(b);
    status::lemma_status_att_on_word(b, rest);
    let n = choose|n: StatusDataItemName| ascii::same_word(b, #[trigger] status::status_text(n));
    assert(status::status_att_rule()(b + rest) == Outcome::Done(rest, n));
}

/// A value that is no list of status items is not read as one.
proof fn lemma_no_status_list(p: ValueView, t: Seq<u8>)
    requires
        value_wf(p),
        !names_status_items(p),
        reading::ends(t),
    ensures
        g::paren_list1(status::status_att_rule())(encode::flat(value_tokens(p)) + t) is Reject,
{
    reveal(names_status_items);
    reveal_strlit("(");
    reveal_strlit(")");
    reveal_strlit(" ");
    let open = ascii::bytes_of("(");
    let space = ascii::bytes_of(" ");
    let s = encode::flat(value_tokens(p)) + t;
    match p {
        ValueView::Simple(b) => {
            encode::lemma_flat_plain(b);
            assert(s[0] == b[0]);
            let class = |x: u8| ascii::is_atom_char(x);
            assert(class(b[0]));
            reading::lemma_tag_rejects(open, s);
        },
        ValueView::List(v) => {
            let tokens = component_parts(v);
            let parts = encode::flat_parts(tokens);
            let close = ascii::bytes_of(")") + t;
            assert(close[0] == ')' as u8);
            lemma_component_parts(v);
            encode::lemma_flat_paren(tokens);
            let inner = encode::joined(parts, space) + close;
            assert(s =~= open + inner);
            reading::lemma_tag_reads(open, inner);
            if v.len() == 0 {
                assert(inner =~= close);
                status::lemma_status_att_rejects(close);
            } else {
                let k = choose|i: int| 0 <= i < v.len() && !is_status_name(#[trigger] v[i]);
                let rest = encode::spread(parts.skip(1), space) + close;
                assert forall|i: int| 0 <= i < v.len() implies #[trigger] parts[i] == encode::flat(
                    component_tokens(v[i]),
                ) by {
                    assert(tokens[i] == component_tokens(v[i]));
                }
                assert(parts[0] == encode::flat(component_tokens(v[0])));
                assert(inner =~= parts[0] + rest);
                assert(rest.len() > 0 && (rest[0] == 0x20 || rest[0] == ')' as u8)) by {
                    if parts.len() == 1 {
                        assert(rest =~= close);
                    }
                }
                assert(component_wf(v[0], COMPONENT_DEPTH as nat));
                if is_status_name(v[0]) {
                    lemma_status_name_is_read(v[0], rest);
                    assert forall|i: int| 0 <= i < v.skip(1).len() implies #[trigger] parts.skip(
                        1,
                    )[i] == encode::flat(component_tokens(v.skip(1)[i])) by {
                        assert(parts[i + 1] == encode::flat(component_tokens(v[i + 1])));
                    }
                    assert forall|i: int| 0 <= i < v.skip(1).len() implies component_wf(
                        #[trigger] v.skip(1)[i],
                        COMPONENT_DEPTH as nat,
                    ) by {
                        assert(component_wf(v[i + 1], COMPONENT_DEPTH as nat));
                    }
                    assert(v.skip(1)[k - 1] == v[k]);
                    lemma_status_names_stop(v.skip(1), parts.skip(1), k - 1, close);
                    if let Outcome::Done(r, _) = g::repeated_from(
                        g::text(" "),
                        status::status_att_rule(),
                        rest,
                    ) {
                        reading::lemma_tag_rejects(ascii::bytes_of(")"), r);
                    }
                } else {
                    lemma_status_name_stops(v[0], rest);
                    if let Outcome::Done(r, _) = status::status_att_rule()(inner) {
                        reading::lemma_tag_rejects(space, r);
                        reading::lemma_tag_rejects(ascii::bytes_of(")"), r);
                    }
                }
            }
        },
    }
}

/// The options that the grammar names are well-formed.
pub proof fn lemma_known_list_returns(v: ListReturnView)
    requires
        v is Subscribed || v is Children || v is SpecialUse,
    ensures
        list_return_wf(v),
{
    broadcast use ascii::lemma_same_word_head;

    reveal_strlit("SUBSCRIBED");
    reveal_strlit("CHILDREN");
    reveal_strlit("SPECIAL-USE");
    reveal_strlit("STATUS");
}

/// A label is only taken for the STATUS option where it is that word.
proof fn lemma_status_word(name: Seq<u8>, r: Seq<u8>)
    requires
        is_label(name),
        reading::ends(r),
    ensures
        g::word("STATUS ")(name + r) is Reject || (ascii::same_word(
            name,
            ascii::bytes_of("STATUS"),
        ) && r[0] == 0x20 && g::word("STATUS ")(name + r) == Outcome::Done(r.skip(1), ())),
{
    reveal_strlit("STATUS ");
    reveal_strlit("STATUS");
    let w = ascii::bytes_of("STATUS ");
    let s = name + r;
    let n = name.len() as int;
    assert(w.len() == 7);
    if n < 6 {
        assert(s[n] == r[0]);
        reading::lemma_tag_no_case_rejects(w, s, n);
    } else if n > 6 {
        assert(s[6] == name[6]);
        assert(is_label_char(name[6]));
        reading::lemma_tag_no_case_rejects(w, s, 6);
    } else {
        assert(s[6] == r[0]);
        if r[0] != 0x20 {
            reading::lemma_tag_no_case_rejects(w, s, 6);
        } else {
            let x = s.take(7);
            if ascii::same_word(x, w) {
                assert forall|i: int| 0 <= i < 6 implies ascii::uppercase(name)[i]
                    == #[trigger] ascii::uppercase(ascii::bytes_of("STATUS"))[i] by {
                    assert(ascii::uppercase(x)[i] == ascii::upper(name[i]));
                    assert(ascii::uppercase(w)[i] == ascii::upper(w[i]));
                    assert(w[i] == ascii::bytes_of("STATUS")[i]);
                }
                assert(ascii::uppercase(name) =~= ascii::uppercase(ascii::bytes_of("STATUS")));
                assert(s.skip(7) =~= r.skip(1));
            }
        }
    }
}

proof fn lemma_status_option_reads(names: Seq<StatusDataItemName>, t: Seq<u8>)
    requires
        names.len() > 0,
    ensures
        status_option_rule()(encode::flat(list_return_tokens(ListReturnView::Status(names))) + t)
            == Outcome::Done(t, names),
{
    let tokens = encode::parts::<StatusDataItemName>(names);
    let parts = encode::flat_parts(tokens);
    let word = ascii::bytes_of("STATUS ");
    let list = ascii::bytes_of("(") + encode::joined(parts, ascii::bytes_of(" "))
        + ascii::bytes_of(")");
    let b = encode::flat(list_return_tokens(ListReturnView::Status(names)));
    assert(b =~= word + list) by {
        broadcast use encode::group_flat;

        reveal_strlit("STATUS (");
        reveal_strlit("STATUS ");
        reveal_strlit("(");
        assert(ascii::bytes_of("STATUS (") =~= word + ascii::bytes_of("("));
        encode::lemma_flat_joined(tokens, encode::word(" "));
    }
    assert forall|i: int| 0 <= i < parts.len() implies reading::reads(
        status::status_att_rule(),
        #[trigger] parts[i],
        names[i],
    ) by {
        encode::lemma_flat_plain(status::status_text(names[i]));
        status::lemma_status_att_reads(names[i]);
    }
    reading::lemma_parens_reads(status::status_att_rule(), parts, names, t);
    assert(b + t =~= word + (list + t));
    reading::lemma_tag_no_case_reads(word, list + t);
}

proof fn lemma_status_return_reads(names: Seq<StatusDataItemName>)
    requires
        names.len() > 0,
    ensures
        reads_option(
            list_return_rule(),
            encode::flat(list_return_tokens(ListReturnView::Status(names))),
            ListReturnView::Status(names),
        ),
{
    reveal(list_return_rule);
    let v = ListReturnView::Status(names);
    let b = encode::flat(list_return_tokens(v));
    let name = ascii::bytes_of("STATUS");
    let tail = encode::joined(encode::parts::<StatusDataItemName>(names), encode::word(" "))
        + encode::word(")");
    let rest = ascii::bytes_of(" (") + encode::flat(tail);
    reveal_strlit(" (");
    reveal_strlit("STATUS");
    assert(b == name + rest) by {
        let head = encode::word("STATUS (");
        let items = encode::joined(encode::parts::<StatusDataItemName>(names), encode::word(" "));
        encode::lemma_concat_assoc(head, items, encode::word(")"));
        encode::lemma_flat_add(head, tail);
        encode::lemma_flat_word("STATUS (");
        reveal_strlit("STATUS (");
        assert(ascii::bytes_of("STATUS (") =~= name + ascii::bytes_of(" ("));
        encode::lemma_concat_assoc(name, ascii::bytes_of(" ("), encode::flat(tail));
    }
    assert(is_label(name));
    assert(b[0] == name[0]);
    assert forall|t: Seq<u8>| option_follow(t) implies #[trigger] list_return_rule()(b + t)
        == Outcome::Done(t, v) && extension_value_rule()(b + t) is Reject by {
        lemma_status_option_reads(names, t);
        assert(b + t =~= name + (rest + t));
        assert((rest + t)[0] == 0x20);
        lemma_label_is_no_value(name, rest + t);
    }
}

/// A return option of LIST is read back.
pub proof fn lemma_list_return_reads(v: ListReturnView)
    requires
        list_return_wf(v),
    ensures
        reads_option(list_return_rule(), encode::flat(list_return_tokens(v)), v),
{
    let b = encode::flat(list_return_tokens(v));
    match v {
        ListReturnView::Status(names) => {
            lemma_status_return_reads(names);
        },
        _ => {
            reveal(list_return_rule);
            let name = list_return_name(v);
            let parameters = list_return_parameters(v);
            assert(list_return_tokens(v) =~= option_tokens(name, parameters));
            lemma_option_first(name, parameters);
            assert forall|t: Seq<u8>| option_follow(t) implies #[trigger] list_return_rule()(b + t)
                == Outcome::Done(t, v) && extension_value_rule()(b + t) is Reject by {
                lemma_option_reads(name, parameters, t);
                lemma_option_is_no_status(name, parameters, t);
            }
        },
    }
}

pub proof fn lemma_option_is_no_status(name: Seq<u8>, parameters: Option<ValueView>, t: Seq<u8>)
    requires
        is_label(name),
        parameters matches Some(p) ==> value_wf(p),
        ascii::same_word(name, ascii::bytes_of("STATUS")) ==> (parameters matches Some(p)
            ==> !names_status_items(p)),
        option_follow(t),
    ensures
        status_option_rule()(encode::flat(option_tokens(name, parameters)) + t) is Reject,
{
    reveal_strlit("(");
    reveal_strlit(" ");
    let s = encode::flat(option_tokens(name, parameters)) + t;
    match parameters {
        None => {
            encode::lemma_concat_empty(encode::plain(name));
            encode::lemma_flat_plain(name);
            lemma_status_word(name, t);
            if t[0] == 0x20 {
                assert(t.skip(1)[0] == t[1]);
                reading::lemma_tag_rejects(ascii::bytes_of("("), t.skip(1));
            }
        },
        Some(p) => {
            let v = encode::flat(value_tokens(p));
            let r = ascii::bytes_of(" ") + (v + t);
            args::lemma_flat_then(encode::plain(name), encode::word(" ") + value_tokens(p), t);
            args::lemma_flat_then(encode::word(" "), value_tokens(p), t);
            encode::lemma_flat_plain(name);
            encode::lemma_flat_word(" ");
            assert(r[0] == 0x20);
            assert(r.skip(1) =~= v + t);
            lemma_status_word(name, r);
            if ascii::same_word(name, ascii::bytes_of("STATUS")) {
                lemma_no_status_list(p, t);
            }
        },
    }
}

pub open spec fn labels_wf(v: Seq<Seq<u8>>) -> bool {
    forall|i: int| 0 <= i < v.len() ==> is_label(#[trigger] v[i])
}

pub open spec fn patterns_wf(v: Seq<StringView>) -> bool {
    v.len() > 0 && forall|i: int| 0 <= i < v.len() ==> mailbox::list_mailbox_wf(#[trigger] v[i])
}

pub open spec fn list_returns_wf(v: Seq<ListReturnView>) -> bool {
    forall|i: int| 0 <= i < v.len() ==> list_return_wf(#[trigger] v[i])
}

pub proof fn lemma_selection_reads(v: Seq<Seq<u8>>, t: Seq<u8>)
    requires
        labels_wf(v),
    ensures
        terminated_selection_rule()(
            encode::flat(encode::paren_tokens(encode::parts::<Atom>(v))) + (ascii::bytes_of(" ")
                + t),
        ) == Outcome::Done(t, v),
{
    let tokens = encode::parts::<Atom>(v);
    let parts = encode::flat_parts(tokens);
    let space = ascii::bytes_of(" ");
    encode::lemma_flat_paren(tokens);
    reveal(label_rule);
    assert forall|i: int| 0 <= i < parts.len() implies reading::reads(
        label_rule(),
        #[trigger] parts[i],
        v[i],
    ) by {
        encode::lemma_flat_plain(v[i]);
        assert(is_label(v[i]));
        assert forall|x: Seq<u8>| reading::ends(x) implies #[trigger] label_rule()(parts[i] + x)
            == Outcome::Done(x, v[i]) by {
            lemma_label_is_no_value(v[i], x);
            strings::lemma_atom_reads(v[i]);
            assert(strings::atom_rule()(v[i] + x) == Outcome::Done(x, v[i]));
        }
    }
    reveal_strlit(")");
    let end = ascii::bytes_of(")") + (space + t);
    assert(end[0] == ')' as u8);
    lemma_label_rejects(end);
    reading::lemma_parens_reads(label_rule(), parts, v, space + t);
    reading::lemma_tag_reads(space, t);
    reveal(terminated_selection_rule);
}

pub proof fn lemma_patterns_read(v: Seq<StringView>, t: Seq<u8>)
    requires
        patterns_wf(v),
    ensures
        patterns_rule()(encode::flat(encode::paren_tokens(encode::parts::<ListMailbox>(v))) + t)
            == Outcome::Done(t, (v, true)),
{
    let tokens = encode::parts::<ListMailbox>(v);
    let parts = encode::flat_parts(tokens);
    encode::lemma_flat_paren(tokens);
    assert forall|i: int| 0 <= i < parts.len() implies reading::reads(
        mailbox::list_mailbox_rule(),
        #[trigger] parts[i],
        v[i],
    ) by {
        assert(mailbox::list_mailbox_wf(v[i]));
        mailbox::lemma_list_mailbox_reads(v[i]);
    }
    reading::lemma_parens_reads(mailbox::list_mailbox_rule(), parts, v, t);
}

/// ` RETURN (` … `)`, or nothing.
pub open spec fn return_options_tokens(v: Option<Seq<ListReturnView>>) -> Seq<Token> {
    match v {
        Some(v) => encode::word(" RETURN (") + encode::joined(
            encode::parts::<ListReturn>(v),
            encode::word(" "),
        ) + encode::word(")"),
        None => seq![],
    }
}

pub proof fn lemma_return_options_text(x: Seq<ListReturnView>)
    ensures
        encode::flat(return_options_tokens(Some(x))) == ascii::bytes_of(" RETURN ") + (
        ascii::bytes_of("(") + encode::joined(
            encode::flat_parts(encode::parts::<ListReturn>(x)),
            ascii::bytes_of(" "),
        ) + ascii::bytes_of(")")),
{
    let tokens = encode::parts::<ListReturn>(x);
    let list = encode::joined(tokens, encode::word(" "));
    let start = encode::word(" RETURN (");
    encode::lemma_flat_word(" RETURN (");
    encode::lemma_flat_word(")");
    encode::lemma_flat_word(" ");
    encode::lemma_flat_joined(tokens, encode::word(" "));
    encode::lemma_flat_add(start, list);
    encode::lemma_flat_add(start + list, encode::word(")"));
    let a = ascii::bytes_of(" RETURN ");
    let b = ascii::bytes_of("(");
    assert(ascii::bytes_of(" RETURN (") == a + b) by {
        reveal_strlit(" RETURN (");
        reveal_strlit(" RETURN ");
        reveal_strlit("(");
        assert(ascii::bytes_of(" RETURN (") =~= a + b);
    }
    let y = encode::joined(encode::flat_parts(tokens), ascii::bytes_of(" "));
    let c = ascii::bytes_of(")");
    assert((a + b) + y + c =~= a + (b + y + c));
}

pub proof fn lemma_return_options_read(v: Option<Seq<ListReturnView>>, t: Seq<u8>)
    requires
        v matches Some(x) ==> list_returns_wf(x),
        t.len() > 0,
        t[0] == 0x0d,
    ensures
        g::opt(g::preceded(g::word(" RETURN "), g::paren_list0(list_return_rule())))(
            encode::flat(return_options_tokens(v)) + t,
        ) == Outcome::Done(t, v),
{
    reveal_strlit(" RETURN ");
    let word = ascii::bytes_of(" RETURN ");
    let s = encode::flat(return_options_tokens(v)) + t;
    match v {
        None => {
            assert(s =~= t);
            reading::lemma_tag_no_case_rejects(word, t, 0);
        },
        Some(x) => {
            let tokens = encode::parts::<ListReturn>(x);
            let parts = encode::flat_parts(tokens);
            let list = ascii::bytes_of("(") + encode::joined(parts, ascii::bytes_of(" "))
                + ascii::bytes_of(")");
            lemma_return_options_text(x);
            assert(s =~= word + (list + t));
            assert forall|i: int| 0 <= i < parts.len() implies reads_option(
                list_return_rule(),
                #[trigger] parts[i],
                x[i],
            ) by {
                assert(list_return_wf(x[i]));
                lemma_list_return_reads(x[i]);
            }
            reveal_strlit(")");
            let end = ascii::bytes_of(")") + t;
            assert(end[0] == ')' as u8);
            assert(list_return_rule()(end) is Reject) by {
                reveal(list_return_rule);
                reveal_strlit("STATUS ");
                reading::lemma_tag_no_case_rejects(ascii::bytes_of("STATUS "), end, 0);
                lemma_label_rejects(end);
            }
            lemma_options_read(list_return_rule(), parts, x, t);
            reading::lemma_tag_no_case_reads(word, list + t);
        },
    }
}

proof fn lemma_list_words()
    ensures
        ascii::bytes_of("LIST (") == ascii::bytes_of("LIST ") + ascii::bytes_of("("),
        ascii::bytes_of(") ") == ascii::bytes_of(")") + ascii::bytes_of(" "),
        ascii::bytes_of(" (") == ascii::bytes_of(" ") + ascii::bytes_of("("),
        ascii::bytes_of("* LIST (") == ascii::bytes_of("* ") + (ascii::bytes_of("LIST ")
            + ascii::bytes_of("(")),
{
    reveal_strlit("LIST (");
    reveal_strlit("* LIST (");
    reveal_strlit("LIST ");
    reveal_strlit("* ");
    reveal_strlit("(");
    reveal_strlit(")");
    reveal_strlit(") ");
    reveal_strlit(" (");
    reveal_strlit(" ");
    assert(ascii::bytes_of("LIST (") =~= ascii::bytes_of("LIST ") + ascii::bytes_of("("));
    assert(ascii::bytes_of(") ") =~= ascii::bytes_of(")") + ascii::bytes_of(" "));
    assert(ascii::bytes_of(" (") =~= ascii::bytes_of(" ") + ascii::bytes_of("("));
    assert(ascii::bytes_of("* LIST (") =~= ascii::bytes_of("* ") + (ascii::bytes_of("LIST ")
        + ascii::bytes_of("(")));
}

/// A LIST command with extensions is read back.
pub proof fn lemma_extended_list_reads(
    selection: Seq<Seq<u8>>,
    reference: MailboxView,
    patterns: Seq<StringView>,
    return_options: Option<Seq<ListReturnView>>,
    t: Seq<u8>,
)
    requires
        labels_wf(selection),
        selection_ok(selection),
        mailbox::mailbox_wf(reference),
        patterns_wf(patterns),
        return_options matches Some(x) ==> list_returns_wf(x),
        t.len() > 0,
        t[0] == 0x0d,
    ensures
        list_rule()(
            encode::flat(extended_list_tokens(selection, reference, patterns, return_options)) + t,
        ) == Outcome::Done(
            t,
            BodyView::ListExtended { selection, reference, patterns, return_options },
        ),
{
    let word = ascii::bytes_of("LIST ");
    let space = ascii::bytes_of(" ");
    let sel = encode::flat(encode::paren_tokens(encode::parts::<Atom>(selection)));
    let name = encode::flat(mailbox::mailbox_tokens(reference));
    let pat = encode::flat(encode::paren_tokens(encode::parts::<ListMailbox>(patterns)));
    let ret = encode::flat(return_options_tokens(return_options));
    let c = ret + t;
    let b = space + (pat + c);
    let a = space + (name + b);
    let s = encode::flat(extended_list_tokens(selection, reference, patterns, return_options)) + t;
    assert(s == word + (sel + a)) by {
        broadcast use {encode::group_flat, encode::group_concat};

        lemma_list_words();
    }
    reveal_strlit(" ");
    reading::lemma_tag_no_case_reads(word, sel + a);
    lemma_selection_reads(selection, name + b);
    assert(b[0] == 0x20);
    mailbox::lemma_mailbox_reads(reference);
    assert(mailbox::mailbox_rule()(name + b) == Outcome::Done(b, reference));
    reading::lemma_tag_reads(space, pat + c);
    lemma_patterns_read(patterns, c);
    lemma_return_options_read(return_options, t);
    reveal(list_rule);
}

/// A LIST command without extensions is read back.
pub proof fn lemma_plain_list_reads(reference: MailboxView, wildcard: StringView, t: Seq<u8>)
    requires
        mailbox::mailbox_wf(reference),
        mailbox::list_mailbox_wf(wildcard),
        t.len() > 0,
        t[0] == 0x0d,
    ensures
        list_rule()(
            ascii::bytes_of("LIST ") + (encode::flat(mailbox::mailbox_tokens(reference)) + (
            ascii::bytes_of(" ") + (encode::flat(strings::string_tokens(wildcard)) + t))),
        ) == Outcome::Done(t, BodyView::List { reference, mailbox_wildcard: wildcard }),
{
    let word = ascii::bytes_of("LIST ");
    let space = ascii::bytes_of(" ");
    let open = ascii::bytes_of("(");
    let name = encode::flat(mailbox::mailbox_tokens(reference));
    let pat = encode::flat(strings::string_tokens(wildcard));
    let b = space + (pat + t);
    reveal_strlit(" ");
    reveal_strlit("(");
    assert(b[0] == 0x20);
    reading::lemma_tag_no_case_reads(word, name + b);
    mailbox::lemma_mailbox_reads(reference);
    mailbox::lemma_mailbox_first(reference);
    assert((name + b)[0] == name[0]);
    assert(terminated_selection_rule()(name + b) is Reject) by {
        reveal(terminated_selection_rule);
        reading::lemma_tag_rejects(open, name + b);
    }
    assert(mailbox::mailbox_rule()(name + b) == Outcome::Done(b, reference));
    reading::lemma_tag_reads(space, pat + t);
    mailbox::lemma_list_mailbox_reads(wildcard);
    assert((pat + t)[0] == pat[0]);
    reading::lemma_tag_rejects(open, pat + t);
    assert(mailbox::list_mailbox_rule()(pat + t) == Outcome::Done(t, wildcard));
    lemma_return_options_read(None, t);
    assert(Seq::<u8>::empty() + t =~= t);
    reveal(list_rule);
}

pub open spec fn list_extension_wf(e: ListExtensionView) -> bool {
    strings::string_wf(e.tag) && value_wf(e.value)
}

proof fn lemma_list_extension_reads(e: ListExtensionView)
    requires
        list_extension_wf(e),
    ensures
        reading::reads(list_extension_rule(), encode::flat(list_extension_tokens(e)), e),
{
    let space = ascii::bytes_of(" ");
    let a = encode::flat(strings::string_tokens(e.tag));
    let b = encode::flat(value_tokens(e.value));
    let s = encode::flat(list_extension_tokens(e));
    assert(s =~= a + (space + b)) by {
        broadcast use encode::group_flat;

    }
    reveal_strlit(" ");
    lemma_value_reads(e.value);
    strings::lemma_string_reads(e.tag);
    assert forall|t: Seq<u8>| reading::ends(t) implies #[trigger] list_extension_rule()(s + t)
        == Outcome::Done(t, e) by {
        reveal(list_extension_rule);
        let rest = space + (b + t);
        assert(s + t =~= a + rest);
        assert(rest[0] == 0x20);
        assert(strings::astring_rule()(a + rest) == Outcome::Done(rest, e.tag));
        reading::lemma_tag_reads(space, b + t);
        assert(extension_value_rule()(b + t) == Outcome::Done(t, e.value));
    }
}

pub open spec fn list_extensions_wf(v: Seq<ListExtensionView>) -> bool {
    forall|i: int| 0 <= i < v.len() ==> list_extension_wf(#[trigger] v[i])
}

/// The text of a LIST response with extension data.
pub proof fn lemma_list_data_text(
    items: Seq<Seq<u8>>,
    delimiter: Option<u8>,
    mailbox: MailboxView,
    extensions: Seq<ListExtensionView>,
)
    ensures
        encode::flat(list_data_tokens(items, delimiter, mailbox, extensions)) == ascii::bytes_of(
            "* ",
        ) + (ascii::bytes_of("LIST ") + (encode::flat(
            mailbox::mailbox_list_tokens((items, delimiter, mailbox)),
        ) + (ascii::bytes_of(" ") + encode::flat(
            encode::paren_tokens(encode::parts::<ListExtension>(extensions)),
        )))),
{
    broadcast use {encode::group_flat, encode::group_concat};

    lemma_list_words();
}

/// A LIST response with extension data is read back.
pub proof fn lemma_list_data_reads(
    items: Seq<Seq<u8>>,
    delimiter: Option<u8>,
    mailbox: MailboxView,
    extensions: Seq<ListExtensionView>,
    s: Seq<u8>,
    t: Seq<u8>,
)
    requires
        mailbox::mailbox_list_wf((items, delimiter, mailbox)),
        list_extensions_wf(extensions),
        ascii::bytes_of("* ") + s == encode::flat(
            list_data_tokens(items, delimiter, mailbox, extensions),
        ),
    ensures
        list_data_rule()(s + t) == Outcome::Done(
            t,
            DataView::ListExtended { items, delimiter, mailbox, extensions },
        ),
{
    let v = (items, delimiter, mailbox);
    let word = ascii::bytes_of("LIST ");
    let space = ascii::bytes_of(" ");
    let a = encode::flat(mailbox::mailbox_list_tokens(v));
    let tokens = encode::parts::<ListExtension>(extensions);
    let parts = encode::flat_parts(tokens);
    let list = encode::flat(encode::paren_tokens(tokens));
    lemma_list_data_text(items, delimiter, mailbox, extensions);
    let text = word + (a + (space + list));
    assert((ascii::bytes_of("* ") + s).skip(2) =~= s) by {
        reveal_strlit("* ");
    }
    assert((ascii::bytes_of("* ") + text).skip(2) =~= text) by {
        reveal_strlit("* ");
    }
    let rest = space + (list + t);
    assert(s + t =~= word + (a + rest));
    reveal_strlit(" ");
    assert(rest[0] == 0x20);
    reading::lemma_tag_no_case_reads(word, a + rest);
    mailbox::lemma_mailbox_list_reads(v);
    assert(mailbox::mailbox_list_rule()(a + rest) == Outcome::Done(rest, v));
    reading::lemma_tag_reads(space, list + t);
    encode::lemma_flat_paren(tokens);
    assert forall|i: int| 0 <= i < parts.len() implies reading::reads(
        list_extension_rule(),
        #[trigger] parts[i],
        extensions[i],
    ) by {
        assert(list_extension_wf(extensions[i]));
        lemma_list_extension_reads(extensions[i]);
    }
    reveal_strlit(")");
    let end = ascii::bytes_of(")") + t;
    assert(end[0] == ')' as u8);
    assert(list_extension_rule()(end) is Reject) by {
        reveal(list_extension_rule);
        strings::lemma_string_rejects(end);
    }
    reading::lemma_parens_reads(list_extension_rule(), parts, extensions, t);
    reveal(list_data_rule);
}

// ------------------------------------------------------------------ executable

pub fn number63<'a>(input: &'a [u8]) -> (res: IMAPResult<'a, u64>)
    ensures
        g::agrees(res, number63_rule()(input@)),
{
    proof {
        reveal(number63_rule);
    }
    let (rest, n) = number64(input)?;
    if n <= NUMBER63_MAX {
        Ok((rest, n))
    } else {
        Err(IMAPParseError::Error)
    }
}

pub fn nz_number63<'a>(input: &'a [u8]) -> (res: IMAPResult<'a, u64>)
    ensures
        g::agrees(res, nz_number63_rule()(input@)),
{
    proof {
        reveal(nz_number63_rule);
    }
    let (rest, n) = number63(input)?;
    if n > 0 {
        Ok((rest, n))
    } else {
        Err(IMAPParseError::Error)
    }
}

pub fn message_set<'a>(input: &'a [u8]) -> (res: IMAPResult<'a, MessageSet>)
    ensures
        g::agrees(res, message_set_rule()(input@)),
{
    proof {
        reveal(message_set_rule);
    }
    match tag(input, "$") {
        Ok((rest, _)) => Ok((rest, MessageSet::SearchResult)),
        Err(IMAPParseError::Error) => {
            let (rest, set) = sequence_set(input)?;
            Ok((rest, MessageSet::SequenceSet(set)))
        },
        Err(e) => Err(e),
    }
}

fn label_shaped(b: &[u8]) -> (r: bool)
    ensures
        r == is_label(b@),
{
    if b.len() == 0 || !is_label_first(b[0]) {
        return false;
    }
    let mut i: usize = 1;
    while i < b.len()
        invariant
            1 <= i <= b@.len(),
            forall|j: int| 1 <= j < i ==> is_label_char(#[trigger] b@[j]),
        decreases b@.len() - i,
    {
        if !is_label_char(b[i]) {
            return false;
        }
        i = i + 1;
    }
    true
}

fn label<'a>(input: &'a [u8]) -> (res: IMAPResult<'a, Atom>)
    ensures
        g::agrees(res, label_rule()(input@)),
{
    proof {
        reveal(label_rule);
    }
    let (rest, a) = atom(input)?;
    if label_shaped(a.bytes.as_slice()) {
        Ok((rest, a))
    } else {
        Err(IMAPParseError::Error)
    }
}

/// Reads further components, each behind a space, as long as they follow.
fn components_into<'a>(input: &'a [u8], first: Vec<ExtensionComponent>, depth: usize) -> (res:
    IMAPResult<'a, Vec<ExtensionComponent>>)
    ensures
        g::agrees(
            res,
            g::after(
                first.deep_view(),
                g::repeated_from(g::text(" "), component_rule(depth as nat), input@),
            ),
        ),
    decreases depth, 1int,
{
    let ghost p = component_rule(depth as nat);
    let ghost whole = g::after(first.deep_view(), g::repeated_from(g::text(" "), p, input@));
    let mut read = first;
    let mut at: &'a [u8] = input;
    loop
        invariant
            p == component_rule(depth as nat),
            whole == g::after(first.deep_view(), g::repeated_from(g::text(" "), p, input@)),
            whole == g::after(read.deep_view(), g::repeated_from(g::text(" "), p, at@)),
        decreases at@.len(),
    {
        let behind: &'a [u8] = match tag(at, " ") {
            Ok((rest, _)) => rest,
            Err(IMAPParseError::Error) => {
                assert(read.deep_view() + seq![] =~= read.deep_view());
                return Ok((at, read));
            },
            Err(e) => return Err(e),
        };
        if behind.len() >= at.len() {
            return Err(IMAPParseError::Error);
        }
        match component(behind, depth) {
            Ok((rest, x)) => {
                if rest.len() >= at.len() {
                    return Err(IMAPParseError::Error);
                }
                let ghost before = read.deep_view();
                let ghost seen = x.deep_view();
                read.push(x);
                proof {
                    assert(read.deep_view() =~= before.push(seen));
                    if let Outcome::Done(r, xs) = g::repeated_from(g::text(" "), p, rest@) {
                        assert(before + (seq![seen] + xs) =~= before.push(seen) + xs);
                    }
                }
                at = rest;
            },
            Err(IMAPParseError::Error) => {
                assert(read.deep_view() + seq![] =~= read.deep_view());
                return Ok((at, read));
            },
            Err(e) => return Err(e),
        }
    }
}

/// Reads components in parentheses.
fn components<'a>(input: &'a [u8], depth: usize) -> (res: IMAPResult<'a, Vec<ExtensionComponent>>)
    ensures
        g::agrees(res, g::paren_list0(component_rule(depth as nat))(input@)),
    decreases depth, 2int,
{
    let (rest, _) = tag(input, "(")?;
    let (rest, items) = match component(rest, depth) {
        Err(IMAPParseError::Error) => {
            let none: Vec<ExtensionComponent> = Vec::new();
            assert(none.deep_view() =~= seq![]);
            (rest, none)
        },
        Err(e) => return Err(e),
        Ok((rest, x)) => {
            let mut read: Vec<ExtensionComponent> = Vec::new();
            read.push(x);
            assert(read.deep_view() =~= seq![x.deep_view()]);
            components_into(rest, read, depth)?
        },
    };
    let (rest, _) = tag(rest, ")")?;
    Ok((rest, items))
}

fn component<'a>(input: &'a [u8], depth: usize) -> (res: IMAPResult<'a, ExtensionComponent>)
    ensures
        g::agrees(res, component_rule(depth as nat)(input@)),
    decreases depth, 0int,
{
    broadcast use crate::rev2::lemma_component_list_view;

    proof {
        reveal_with_fuel(component_rule, 1);
    }
    if depth == 0 {
        return Err(IMAPParseError::Failure(IMAPErrorKind::RecursionLimitExceeded));
    }
    match components(input, depth - 1) {
        Ok((rest, items)) => Ok((rest, ExtensionComponent::List(items))),
        Err(IMAPParseError::Error) => {
            let (rest, s) = astring(input)?;
            Ok((rest, ExtensionComponent::String(s)))
        },
        Err(e) => Err(e),
    }
}

fn is_simple(b: &[u8]) -> (r: bool)
    ensures
        r == is_simple_value(b@),
{
    if are_digits(b) {
        match parse_digits(b) {
            Some(n) => n <= NUMBER63_MAX,
            None => false,
        }
    } else {
        match parse_sequence_set(b) {
            Some(_) => true,
            None => false,
        }
    }
}

fn extension_value<'a>(input: &'a [u8]) -> (res: IMAPResult<'a, ExtensionValue>)
    ensures
        g::agrees(res, extension_value_rule()(input@)),
{
    proof {
        reveal(extension_value_rule);
    }
    match components(input, COMPONENT_DEPTH) {
        Ok((rest, items)) => Ok((rest, ExtensionValue::List(items))),
        Err(IMAPParseError::Error) => {
            let (rest, a) = atom(input)?;
            if is_simple(a.bytes.as_slice()) {
                Ok((rest, ExtensionValue::Simple(a)))
            } else {
                Err(IMAPParseError::Error)
            }
        },
        Err(e) => Err(e),
    }
}

fn option<'a>(input: &'a [u8]) -> (res: IMAPResult<'a, (Atom, Option<ExtensionValue>)>)
    ensures
        g::agrees(res, option_rule()(input@)),
{
    proof {
        reveal(option_rule);
    }
    let (rest, name) = label(input)?;
    let behind: &[u8] = match tag(rest, " ") {
        Ok((behind, _)) => behind,
        Err(IMAPParseError::Error) => return Ok((rest, (name, None))),
        Err(e) => return Err(e),
    };
    match extension_value(behind) {
        Ok((rest, v)) => Ok((rest, (name, Some(v)))),
        Err(IMAPParseError::Error) => Ok((rest, (name, None))),
        Err(e) => Err(e),
    }
}

fn search_return<'a>(input: &'a [u8]) -> (res: IMAPResult<'a, SearchReturn>)
    ensures
        g::agrees(res, search_return_rule()(input@)),
{
    proof {
        reveal(search_return_rule);
    }
    let (rest, (name, parameters)) = option(input)?;
    if parameters.is_some() {
        return Ok((rest, SearchReturn::Extension { name, parameters }));
    }
    let b: &[u8] = name.bytes.as_slice();
    let item = if ascii::is_word(b, "MIN") {
        SearchReturn::Min
    } else if ascii::is_word(b, "MAX") {
        SearchReturn::Max
    } else if ascii::is_word(b, "ALL") {
        SearchReturn::All
    } else if ascii::is_word(b, "COUNT") {
        SearchReturn::Count
    } else if ascii::is_word(b, "SAVE") {
        SearchReturn::Save
    } else {
        SearchReturn::Extension { name, parameters }
    };
    Ok((rest, item))
}

impl EncodeIntoContext for MessageSet {
    open spec fn tokens(v: MessageSetView) -> Seq<Token> {
        message_set_tokens(v)
    }

    fn encode_ctx(&self, ctx: &mut EncodeContext) {
        match self {
            MessageSet::SearchResult => ctx.write_text("$"),
            MessageSet::SequenceSet(s) => s.encode_ctx(ctx),
        }
        assert(ctx@ =~= old(ctx)@ + Self::tokens(self.deep_view()));
    }
}

fn write_components(items: &Vec<ExtensionComponent>, ctx: &mut EncodeContext)
    ensures
        final(ctx)@ == old(ctx)@ + encode::paren_tokens(component_parts(items.deep_view())),
    decreases items, 0int,
{
    let ghost all = items.deep_view().map_values(|c: ComponentView| component_tokens(c));
    proof {
        lemma_component_parts(items.deep_view());
    }
    ctx.write_text("(");
    let ghost start = ctx@;
    let mut i: usize = 0;
    assert(all.take(0) =~= seq![]);
    assert(ctx@ + encode::joined(all.take(0), encode::word(" ")) =~= ctx@);
    while i < items.len()
        invariant
            i <= items@.len(),
            all == items.deep_view().map_values(|c: ComponentView| component_tokens(c)),
            all.len() == items@.len(),
            ctx@ == start + encode::joined(all.take(i as int), encode::word(" ")),
        decreases items@.len() - i,
    {
        proof {
            encode::lemma_joined_push(all.take(i as int), all[i as int], encode::word(" "));
            assert(all.take(i + 1) =~= all.take(i as int).push(all[i as int]));
            assert(items.deep_view()[i as int] == items@[i as int].deep_view());
        }
        if i > 0 {
            ctx.write_text(" ");
        }
        assert(decreases_to!(*items => items@[i as int]));
        write_component(&items[i], ctx);
        proof {
            if i > 0 {
                assert(ctx@ =~= start + (encode::joined(all.take(i as int), encode::word(" "))
                    + encode::word(" ") + all[i as int]));
            } else {
                assert(ctx@ =~= start + all[0]);
            }
        }
        i = i + 1;
    }
    assert(all.take(i as int) =~= all);
    ctx.write_text(")");
    assert(ctx@ =~= old(ctx)@ + encode::paren_tokens(component_parts(items.deep_view())));
}

fn write_component(c: &ExtensionComponent, ctx: &mut EncodeContext)
    ensures
        final(ctx)@ == old(ctx)@ + component_tokens(c.deep_view()),
    decreases c, 1int,
{
    broadcast use crate::rev2::lemma_component_list_view;

    match c {
        ExtensionComponent::String(s) => s.encode_ctx(ctx),
        ExtensionComponent::List(v) => write_components(v, ctx),
    }
}

impl EncodeIntoContext for ExtensionComponent {
    open spec fn tokens(v: ComponentView) -> Seq<Token> {
        component_tokens(v)
    }

    fn encode_ctx(&self, ctx: &mut EncodeContext) {
        write_component(self, ctx);
        assert(ctx@ =~= old(ctx)@ + Self::tokens(self.deep_view()));
    }
}

impl EncodeIntoContext for ExtensionValue {
    open spec fn tokens(v: ValueView) -> Seq<Token> {
        value_tokens(v)
    }

    fn encode_ctx(&self, ctx: &mut EncodeContext) {
        match self {
            ExtensionValue::Simple(a) => a.encode_ctx(ctx),
            ExtensionValue::List(v) => write_components(v, ctx),
        }
        assert(ctx@ =~= old(ctx)@ + Self::tokens(self.deep_view()));
    }
}

fn write_option(name: &Atom, parameters: &Option<ExtensionValue>, ctx: &mut EncodeContext)
    ensures
        final(ctx)@ == old(ctx)@ + option_tokens(name.deep_view(), parameters.deep_view()),
{
    name.encode_ctx(ctx);
    if let Some(v) = parameters {
        ctx.write_text(" ");
        v.encode_ctx(ctx);
    }
    assert(ctx@ =~= old(ctx)@ + option_tokens(name.deep_view(), parameters.deep_view()));
}

impl EncodeIntoContext for SearchReturn {
    open spec fn tokens(v: SearchReturnView) -> Seq<Token> {
        search_return_tokens(v)
    }

    fn encode_ctx(&self, ctx: &mut EncodeContext) {
        match self {
            SearchReturn::Min => ctx.write_text("MIN"),
            SearchReturn::Max => ctx.write_text("MAX"),
            SearchReturn::All => ctx.write_text("ALL"),
            SearchReturn::Count => ctx.write_text("COUNT"),
            SearchReturn::Save => ctx.write_text("SAVE"),
            SearchReturn::Extension { name, parameters } => write_option(name, parameters, ctx),
        }
        assert(ctx@ =~= old(ctx)@ + Self::tokens(self.deep_view()));
    }
}

pub fn charset_option<'a>(input: &'a [u8]) -> (res: IMAPResult<'a, Option<Charset>>)
    ensures
        g::agrees(
            res,
            g::opt(g::preceded(g::word(" CHARSET "), strings::charset_rule()))(input@),
        ),
{
    let behind: &[u8] = match tag_no_case(input, " CHARSET ") {
        Ok((behind, _)) => behind,
        Err(IMAPParseError::Error) => return Ok((input, None)),
        Err(e) => return Err(e),
    };
    match charset(behind) {
        Ok((rest, c)) => Ok((rest, Some(c))),
        Err(IMAPParseError::Error) => Ok((input, None)),
        Err(e) => Err(e),
    }
}

pub fn extended_search<'a>(input: &'a [u8]) -> (res: IMAPResult<'a, CommandBody>)
    ensures
        g::agrees(res, extended_search_rule()(input@)),
{
    proof {
        reveal(extended_search_rule);
    }
    let (rest, _) = tag_no_case(input, "SEARCH RETURN ")?;
    let (rest, return_options) = parens0(rest, search_return, Ghost(search_return_rule()))?;
    let (rest, charset) = charset_option(rest)?;
    let (rest, _) = tag(rest, " ")?;
    let (rest, criteria) = criteria(rest)?;
    Ok((rest, CommandBody::SearchExtended { return_options, charset, criteria, uid: false }))
}

/// Writes a search with return options.
pub fn encode_search(
    return_options: &Vec<SearchReturn>,
    charset: &Option<Charset>,
    criteria: &Vec<SearchKey>,
    uid: bool,
    ctx: &mut EncodeContext,
)
    ensures
        final(ctx)@ == old(ctx)@ + extended_search_tokens(
            return_options.deep_view(),
            charset.deep_view(),
            criteria.deep_view(),
            uid,
        ),
{
    if uid {
        ctx.write_text("UID ");
    }
    ctx.write_text("SEARCH RETURN (");
    join_serializable(return_options.as_slice(), " ", ctx);
    ctx.write_text(")");
    if let Some(c) = charset {
        ctx.write_text(" CHARSET ");
        c.encode_ctx(ctx);
    }
    ctx.write_text(" ");
    write_criteria(criteria, ctx);
    assert(ctx@ =~= old(ctx)@ + extended_search_tokens(
        return_options.deep_view(),
        charset.deep_view(),
        criteria.deep_view(),
        uid,
    ));
}

fn number_between(v: &ExtensionValue, low: u64, high: u64) -> (r: bool)
    ensures
        r == (v.deep_view() matches ValueView::Simple(b) && is_number_between(
            b,
            low as nat,
            high as nat,
        )),
{
    match v {
        ExtensionValue::Simple(a) => {
            let b: &[u8] = a.bytes.as_slice();
            if !are_digits(b) {
                return false;
            }
            match parse_digits(b) {
                Some(n) => low <= n && n <= high,
                None => false,
            }
        },
        ExtensionValue::List(_) => false,
    }
}

fn contains_byte(b: &[u8], x: u8) -> (r: bool)
    ensures
        r == b@.contains(x),
{
    let mut i: usize = 0;
    while i < b.len()
        invariant
            i <= b@.len(),
            forall|j: int| 0 <= j < i ==> b@[j] != x,
        decreases b@.len() - i,
    {
        if b[i] == x {
            assert(b@[i as int] == x);
            return true;
        }
        i = i + 1;
    }
    false
}

fn explicit_set_value(v: &ExtensionValue) -> (r: bool)
    ensures
        r == (v.deep_view() matches ValueView::Simple(b) && !b.contains('*' as u8) && !b.contains(
            '$' as u8,
        ) && sequence::sequence_set_of(b) is Some),
{
    match v {
        ExtensionValue::Simple(a) => {
            let b: &[u8] = a.bytes.as_slice();
            !contains_byte(b, '*' as u8) && !contains_byte(b, '$' as u8) && parse_sequence_set(
                b,
            ).is_some()
        },
        ExtensionValue::List(_) => false,
    }
}

fn search_data<'a>(input: &'a [u8]) -> (res: IMAPResult<'a, SearchReturnData>)
    ensures
        g::agrees(res, search_data_rule()(input@)),
{
    proof {
        reveal(search_data_rule);
    }
    let (rest, name) = label(input)?;
    let (rest, _) = tag(rest, " ")?;
    let (rest, value) = extension_value(rest)?;
    let b: &[u8] = name.bytes.as_slice();
    let accepted: bool = if ascii::is_word(b, "MIN") || ascii::is_word(b, "MAX") {
        number_between(&value, 1, u32::MAX as u64)
    } else if ascii::is_word(b, "COUNT") {
        number_between(&value, 0, u32::MAX as u64)
    } else if ascii::is_word(b, "ALL") {
        explicit_set_value(&value)
    } else if ascii::is_word(b, "MODSEQ") {
        number_between(&value, 1, u64::MAX)
    } else {
        true
    };
    if accepted {
        Ok((rest, SearchReturnData { name, value }))
    } else {
        Err(IMAPParseError::Error)
    }
}

fn search_correlator<'a>(input: &'a [u8]) -> (res: IMAPResult<'a, AString>)
    ensures
        g::agrees(
            res,
            g::delimited(g::word(" (TAG "), strings::astring_rule(), g::text(")"))(input@),
        ),
{
    let (rest, _) = tag_no_case(input, " (TAG ")?;
    let (rest, t) = astring(rest)?;
    let (rest, _) = tag(rest, ")")?;
    Ok((rest, t))
}

pub fn esearch<'a>(input: &'a [u8]) -> (res: IMAPResult<'a, Data>)
    ensures
        g::agrees(res, esearch_rule()(input@)),
{
    proof {
        reveal(esearch_rule);
    }
    let (rest, _) = tag_no_case(input, "ESEARCH")?;
    let (rest, correlator) = match search_correlator(rest) {
        Ok((behind, t)) => (behind, Some(t)),
        Err(IMAPParseError::Error) => (rest, None),
        Err(e) => return Err(e),
    };
    let (rest, uid) = match tag_no_case(rest, " UID") {
        Ok((behind, _)) => (behind, true),
        Err(IMAPParseError::Error) => (rest, false),
        Err(e) => return Err(e),
    };
    let (rest, items) = repeat(rest, " ", search_data, Ghost(search_data_rule()))?;
    Ok((rest, Data::ESearch { tag: correlator, uid, items }))
}

impl EncodeIntoContext for SearchReturnData {
    open spec fn tokens(v: SearchReturnDataView) -> Seq<Token> {
        search_data_tokens(v)
    }

    fn encode_ctx(&self, ctx: &mut EncodeContext) {
        self.name.encode_ctx(ctx);
        ctx.write_text(" ");
        self.value.encode_ctx(ctx);
        assert(ctx@ =~= old(ctx)@ + Self::tokens(self.deep_view()));
    }
}

pub fn encode_esearch(
    tag: &Option<AString>,
    uid: bool,
    items: &Vec<SearchReturnData>,
    ctx: &mut EncodeContext,
)
    ensures
        final(ctx)@ == old(ctx)@ + esearch_tokens(tag.deep_view(), uid, items.deep_view()),
{
    ctx.write_text("* ESEARCH");
    if let Some(t) = tag {
        ctx.write_text(" (TAG ");
        t.encode_ctx(ctx);
        ctx.write_text(")");
    }
    if uid {
        ctx.write_text(" UID");
    }
    encode::write_spread(items.as_slice(), " ", ctx);
    assert(ctx@ =~= old(ctx)@ + esearch_tokens(tag.deep_view(), uid, items.deep_view()));
}

fn status_option<'a>(input: &'a [u8]) -> (res: IMAPResult<'a, Vec<StatusDataItemName>>)
    ensures
        g::agrees(res, status_option_rule()(input@)),
{
    let (rest, _) = tag_no_case(input, "STATUS ")?;
    parens1(rest, status_att, Ghost(status::status_att_rule()))
}

fn list_return<'a>(input: &'a [u8]) -> (res: IMAPResult<'a, ListReturn>)
    ensures
        g::agrees(res, list_return_rule()(input@)),
{
    proof {
        reveal(list_return_rule);
    }
    match status_option(input) {
        Ok((rest, names)) => return Ok((rest, ListReturn::Status(names))),
        Err(IMAPParseError::Error) => {},
        Err(e) => return Err(e),
    }
    let (rest, (name, parameters)) = option(input)?;
    if parameters.is_some() {
        return Ok((rest, ListReturn::Extension { name, parameters }));
    }
    let b: &[u8] = name.bytes.as_slice();
    let item = if ascii::is_word(b, "SUBSCRIBED") {
        ListReturn::Subscribed
    } else if ascii::is_word(b, "CHILDREN") {
        ListReturn::Children
    } else if ascii::is_word(b, "SPECIAL-USE") {
        ListReturn::SpecialUse
    } else {
        ListReturn::Extension { name, parameters }
    };
    Ok((rest, item))
}

fn terminated_selection<'a>(input: &'a [u8]) -> (res: IMAPResult<'a, Vec<Atom>>)
    ensures
        g::agrees(res, terminated_selection_rule()(input@)),
{
    proof {
        reveal(terminated_selection_rule);
    }
    let (rest, v) = parens0(input, label, Ghost(label_rule()))?;
    let (rest, _) = tag(rest, " ")?;
    Ok((rest, v))
}

fn patterns<'a>(input: &'a [u8]) -> (res: IMAPResult<'a, (Vec<ListMailbox>, bool)>)
    ensures
        g::agrees(res, patterns_rule()(input@)),
        res matches Ok((_, p)) ==> p.0@.len() > 0,
{
    match parens1(input, list_mailbox, Ghost(mailbox::list_mailbox_rule())) {
        Ok((rest, v)) => {
            proof {
                lemma_patterns_nonempty(input@);
            }
            return Ok((rest, (v, true)));
        },
        Err(IMAPParseError::Error) => {},
        Err(e) => return Err(e),
    }
    let (rest, s) = list_mailbox(input)?;
    let mut v: Vec<ListMailbox> = Vec::new();
    v.push(s);
    assert(v.deep_view() =~= seq![s.deep_view()]);
    Ok((rest, (v, false)))
}

/// A list in parentheses that has to hold an item holds one.
proof fn lemma_patterns_nonempty(s: Seq<u8>)
    ensures
        g::paren_list1(mailbox::list_mailbox_rule())(s) matches Outcome::Done(_, v) ==> v.len() > 0,
{
}

fn return_options<'a>(input: &'a [u8]) -> (res: IMAPResult<'a, Option<Vec<ListReturn>>>)
    ensures
        g::agrees(
            res,
            g::opt(g::preceded(g::word(" RETURN "), g::paren_list0(list_return_rule())))(input@),
        ),
{
    let behind: &[u8] = match tag_no_case(input, " RETURN ") {
        Ok((behind, _)) => behind,
        Err(IMAPParseError::Error) => return Ok((input, None)),
        Err(e) => return Err(e),
    };
    match parens0(behind, list_return, Ghost(list_return_rule())) {
        Ok((rest, v)) => Ok((rest, Some(v))),
        Err(IMAPParseError::Error) => Ok((input, None)),
        Err(e) => Err(e),
    }
}

fn accepts_selection(selection: &Vec<Atom>) -> (r: bool)
    ensures
        r == selection_ok(selection.deep_view()),
{
    let ghost v = selection.deep_view();
    let mut recursive: bool = false;
    let mut other: bool = false;
    let mut i: usize = 0;
    while i < selection.len()
        invariant
            i <= selection@.len(),
            v == selection.deep_view(),
            v.len() == selection@.len(),
            recursive == exists|j: int| 0 <= j < i && is_recursive_match(#[trigger] v[j]),
            other == exists|j: int|
                0 <= j < i && !is_recursive_match(#[trigger] v[j]) && !is_remote(v[j]),
        decreases selection@.len() - i,
    {
        let b: &[u8] = selection[i].bytes.as_slice();
        assert(v[i as int] == b@);
        if ascii::is_word(b, "RECURSIVEMATCH") {
            recursive = true;
        } else if !ascii::is_word(b, "REMOTE") {
            other = true;
        }
        i = i + 1;
    }
    !recursive || other
}

pub fn list<'a>(input: &'a [u8]) -> (res: IMAPResult<'a, CommandBody>)
    ensures
        g::agrees(res, list_rule()(input@)),
{
    proof {
        reveal(list_rule);
    }
    let (rest, _) = tag_no_case(input, "LIST ")?;
    let (rest, selection) = match terminated_selection(rest) {
        Ok((behind, v)) => (behind, Some(v)),
        Err(IMAPParseError::Error) => (rest, None),
        Err(e) => return Err(e),
    };
    let (rest, reference) = mailbox(rest)?;
    let (rest, _) = tag(rest, " ")?;
    let (rest, (patterns, multiple)) = patterns(rest)?;
    let (rest, return_options) = return_options(rest)?;
    if selection.is_none() && !multiple && return_options.is_none() {
        let mut patterns = patterns;
        let ghost all = patterns.deep_view();
        assert(all[0] == patterns@[0].deep_view());
        let mailbox_wildcard = patterns.swap_remove(0);
        return Ok((rest, CommandBody::List { reference, mailbox_wildcard }));
    }
    let selection: Vec<Atom> = match selection {
        Some(v) => v,
        None => {
            let none: Vec<Atom> = Vec::new();
            assert(none.deep_view() =~= seq![]);
            none
        },
    };
    if !accepts_selection(&selection) {
        return Err(IMAPParseError::Failure(IMAPErrorKind::Verify));
    }
    Ok((rest, CommandBody::ListExtended { selection, reference, patterns, return_options }))
}

impl EncodeIntoContext for ListReturn {
    open spec fn tokens(v: ListReturnView) -> Seq<Token> {
        list_return_tokens(v)
    }

    fn encode_ctx(&self, ctx: &mut EncodeContext) {
        match self {
            ListReturn::Subscribed => ctx.write_text("SUBSCRIBED"),
            ListReturn::Children => ctx.write_text("CHILDREN"),
            ListReturn::SpecialUse => ctx.write_text("SPECIAL-USE"),
            ListReturn::Status(names) => {
                ctx.write_text("STATUS (");
                join_serializable(names.as_slice(), " ", ctx);
                ctx.write_text(")");
            },
            ListReturn::Extension { name, parameters } => write_option(name, parameters, ctx),
        }
        assert(ctx@ =~= old(ctx)@ + Self::tokens(self.deep_view()));
    }
}

pub fn encode_list(
    selection: &Vec<Atom>,
    reference: &Mailbox,
    patterns: &Vec<ListMailbox>,
    return_options: &Option<Vec<ListReturn>>,
    ctx: &mut EncodeContext,
)
    ensures
        final(ctx)@ == old(ctx)@ + extended_list_tokens(
            selection.deep_view(),
            reference.deep_view(),
            patterns.deep_view(),
            return_options.deep_view(),
        ),
{
    ctx.write_text("LIST (");
    join_serializable(selection.as_slice(), " ", ctx);
    ctx.write_text(") ");
    reference.encode_ctx(ctx);
    ctx.write_text(" (");
    join_serializable(patterns.as_slice(), " ", ctx);
    ctx.write_text(")");
    if let Some(v) = return_options {
        ctx.write_text(" RETURN (");
        join_serializable(v.as_slice(), " ", ctx);
        ctx.write_text(")");
    }
    assert(ctx@ =~= old(ctx)@ + extended_list_tokens(
        selection.deep_view(),
        reference.deep_view(),
        patterns.deep_view(),
        return_options.deep_view(),
    ));
}

fn list_extension<'a>(input: &'a [u8]) -> (res: IMAPResult<'a, ListExtension>)
    ensures
        g::agrees(res, list_extension_rule()(input@)),
{
    proof {
        reveal(list_extension_rule);
    }
    let (rest, name) = astring(input)?;
    let (rest, _) = tag(rest, " ")?;
    let (rest, value) = extension_value(rest)?;
    Ok((rest, ListExtension { tag: name, value }))
}

pub fn list_data<'a>(input: &'a [u8]) -> (res: IMAPResult<'a, Data>)
    ensures
        g::agrees(res, list_data_rule()(input@)),
{
    proof {
        reveal(list_data_rule);
    }
    let (rest, _) = tag_no_case(input, "LIST ")?;
    let (rest, (items, delimiter, mailbox)) = mailbox_list(rest)?;
    let (rest, _) = tag(rest, " ")?;
    let (rest, extensions) = parens0(rest, list_extension, Ghost(list_extension_rule()))?;
    Ok((rest, Data::ListExtended { items, delimiter, mailbox, extensions }))
}

impl EncodeIntoContext for ListExtension {
    open spec fn tokens(v: ListExtensionView) -> Seq<Token> {
        list_extension_tokens(v)
    }

    fn encode_ctx(&self, ctx: &mut EncodeContext) {
        self.tag.encode_ctx(ctx);
        ctx.write_text(" ");
        self.value.encode_ctx(ctx);
        assert(ctx@ =~= old(ctx)@ + Self::tokens(self.deep_view()));
    }
}

pub fn encode_list_data(
    items: &Vec<FlagNameAttribute>,
    delimiter: &Option<QuotedChar>,
    mailbox: &Mailbox,
    extensions: &Vec<ListExtension>,
    ctx: &mut EncodeContext,
)
    ensures
        final(ctx)@ == old(ctx)@ + list_data_tokens(
            items.deep_view(),
            delimiter.deep_view(),
            mailbox.deep_view(),
            extensions.deep_view(),
        ),
{
    ctx.write_text("* LIST (");
    join_serializable(items.as_slice(), " ", ctx);
    ctx.write_text(") ");
    write_delimiter(delimiter, ctx);
    ctx.write_text(" ");
    mailbox.encode_ctx(ctx);
    ctx.write_text(" (");
    join_serializable(extensions.as_slice(), " ", ctx);
    ctx.write_text(")");
    assert(ctx@ =~= old(ctx)@ + list_data_tokens(
        items.deep_view(),
        delimiter.deep_view(),
        mailbox.deep_view(),
        extensions.deep_view(),
    ));
}

} // verus!
