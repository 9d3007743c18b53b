//! The literals of a response: what a response holds of them is what was read.
use vstd::prelude::*;

use crate::answers;
use crate::answers::{
    AnswerName, AnswerView, MetadataItemsView, NamespaceExtensionView, NamespaceView, QuotaGetView,
};
use crate::arguments as args;
use crate::ascii;
use crate::command;
use crate::command::{EntryValueView, IdFieldView};
use crate::body;
use crate::body::StructureView;
use crate::date;
use crate::encode::LiteralMode;
use crate::extensions::condstore_qresync as modseq;
use crate::extensions::rev2 as ext;
use crate::fetch;
use crate::fetch::{PlainItem, SectionTextView, SectionView};
use crate::flag;
use crate::flag::FlagView;
use crate::fragmentizer as lines;
use crate::fragmentizer::LatestByte;
use crate::grammar as g;
use crate::grammar::{Outcome, Rule};
use crate::mailbox;
use crate::mailbox::{MailboxListView, MailboxView};
use crate::number;
use crate::response;
use crate::response::{
    DataName, DataView, ItemView, NString8View, RespTextView, ResponseView,
    StatusBodyView, StatusDataItem, StatusKind, StatusView,
};
use crate::rev2::{ComponentView, ListExtensionView, SearchReturnDataView, ValueView};
use crate::sequence;
use crate::sequence::Sequence;
use crate::shapes;
use crate::spelling as sp;
use crate::status;
use crate::status::StatusDataItemName;
use crate::strings;
use crate::strings::StringView;
use crate::structure;
use crate::structure::{AddressView, EnvelopeView, ThreeLists, TwoStrings};
use crate::threads;
use crate::threads::ThreadView;

pub mod parts;

verus! {

// -------------------------------------------------------------------- payloads

pub open spec fn of_string(s: StringView) -> Seq<Seq<u8>> {
    match s {
        StringView::Literal(b, _) => seq![b],
        _ => seq![],
    }
}

pub open spec fn of_optional(s: Option<StringView>) -> Seq<Seq<u8>> {
    match s {
        Some(s) => of_string(s),
        None => seq![],
    }
}

pub open spec fn of_strings(v: Seq<StringView>) -> Seq<Seq<u8>> {
    sp::gathered(v, |s: StringView| of_string(s))
}

pub open spec fn of_mailbox(m: MailboxView) -> Seq<Seq<u8>> {
    match m {
        MailboxView::Inbox => seq![],
        MailboxView::Other(s) => of_string(s),
    }
}

pub open spec fn of_component(c: ComponentView) -> Seq<Seq<u8>>
    decreases c,
{
    match c {
        ComponentView::String(s) => of_string(s),
        ComponentView::List(v) => of_components(v),
    }
}

pub open spec fn of_components(v: Seq<ComponentView>) -> Seq<Seq<u8>>
    decreases v,
{
    if v.len() == 0 {
        seq![]
    } else {
        of_components(v.drop_last()) + of_component(v[v.len() - 1])
    }
}

pub open spec fn of_value(v: ValueView) -> Seq<Seq<u8>> {
    match v {
        ValueView::Simple(_) => seq![],
        ValueView::List(v) => of_components(v),
    }
}

pub open spec fn of_search_data(d: SearchReturnDataView) -> Seq<Seq<u8>> {
    of_value(d.value)
}

pub open spec fn of_list_extension(e: ListExtensionView) -> Seq<Seq<u8>> {
    of_string(e.tag) + of_value(e.value)
}

pub open spec fn of_section_text(x: SectionTextView) -> Seq<Seq<u8>> {
    match x {
        SectionTextView::HeaderFields(v) => of_strings(v),
        SectionTextView::HeaderFieldsNot(v) => of_strings(v),
        _ => seq![],
    }
}

pub open spec fn of_section(s: Option<SectionView>) -> Seq<Seq<u8>> {
    match s {
        Some(SectionView { part: _, text: Some(x) }) => of_section_text(x),
        _ => seq![],
    }
}

pub open spec fn of_binary(v: NString8View) -> Seq<Seq<u8>> {
    match v {
        NString8View::NString(s) => of_optional(s),
        NString8View::Literal8(s) => of_string(s),
    }
}

pub open spec fn of_two(a: Option<StringView>, b: Option<StringView>) -> Seq<Seq<u8>> {
    of_optional(a) + of_optional(b)
}

pub open spec fn of_address(a: AddressView) -> Seq<Seq<u8>> {
    of_two(a.name, a.adl) + of_two(a.mailbox, a.host)
}

pub open spec fn of_addresses(v: Seq<AddressView>) -> Seq<Seq<u8>> {
    sp::gathered(v, |a: AddressView| of_address(a))
}

pub open spec fn of_envelope(e: EnvelopeView) -> Seq<Seq<u8>> {
    (of_two(e.date, e.subject) + (of_addresses(e.from) + (of_addresses(e.sender) + of_addresses(
        e.reply_to,
    )))) + ((of_addresses(e.to) + (of_addresses(e.cc) + of_addresses(e.bcc))) + of_two(
        e.in_reply_to,
        e.message_id,
    ))
}

pub open spec fn of_item(i: ItemView) -> Seq<Seq<u8>> {
    match i {
        ItemView::Rfc822(s) | ItemView::Rfc822Header(s) | ItemView::Rfc822Text(s) => of_optional(s),
        ItemView::BodyExt { section, data, .. } => of_section(section) + of_optional(data),
        ItemView::Binary { value, .. } => of_binary(value),
        ItemView::Envelope(e) => of_envelope(e),
        ItemView::Body(b) | ItemView::BodyStructure(b) => parts::of_body(b),
        _ => seq![],
    }
}

pub open spec fn of_id_field(f: IdFieldView) -> Seq<Seq<u8>> {
    of_string(f.name) + of_optional(f.value)
}

pub open spec fn of_entry_value(e: EntryValueView) -> Seq<Seq<u8>> {
    of_string(e.entry) + of_binary(e.value)
}

pub open spec fn of_metadata_items(v: MetadataItemsView) -> Seq<Seq<u8>> {
    match v {
        MetadataItemsView::WithValues(v) => sp::gathered(
            v,
            |e: EntryValueView| of_entry_value(e),
        ),
        MetadataItemsView::WithoutValues(v) => of_strings(v),
    }
}

pub open spec fn of_namespace_extension(e: NamespaceExtensionView) -> Seq<Seq<u8>> {
    of_string(e.name) + of_strings(e.values)
}

pub open spec fn of_namespace(n: NamespaceView) -> Seq<Seq<u8>> {
    of_string(n.prefix) + sp::gathered(
        n.extensions,
        |e: NamespaceExtensionView| of_namespace_extension(e),
    )
}

pub open spec fn of_namespaces(v: Seq<NamespaceView>) -> Seq<Seq<u8>> {
    sp::gathered(v, |n: NamespaceView| of_namespace(n))
}

pub open spec fn of_answer(a: AnswerView) -> Seq<Seq<u8>> {
    match a {
        AnswerView::Sort(_, _) | AnswerView::Thread(_) => seq![],
        AnswerView::Quota { root, .. } => of_string(root),
        AnswerView::QuotaRoot { mailbox, roots } => of_mailbox(mailbox) + of_strings(roots),
        AnswerView::Id { parameters } => match parameters {
            Some(v) => sp::gathered(v, |f: IdFieldView| of_id_field(f)),
            None => seq![],
        },
        AnswerView::Metadata { mailbox, items } => of_mailbox(mailbox) + of_metadata_items(items),
        AnswerView::Namespace { personal, other, shared } => of_namespaces(personal) + (
        of_namespaces(other) + of_namespaces(shared)),
    }
}

pub open spec fn of_data(d: DataView) -> Seq<Seq<u8>> {
    match d {
        DataView::List { mailbox, .. } | DataView::Lsub { mailbox, .. } => of_mailbox(mailbox),
        DataView::ListExtended { mailbox, extensions, .. } => of_mailbox(mailbox) + sp::gathered(
            extensions,
            |e: ListExtensionView| of_list_extension(e),
        ),
        DataView::Status { mailbox, .. } => of_mailbox(mailbox),
        DataView::ESearch { tag, items, .. } => of_optional(tag) + sp::gathered(
            items,
            |d: SearchReturnDataView| of_search_data(d),
        ),
        DataView::Fetch { items, .. } => sp::gathered(items, |i: ItemView| of_item(i)),
        DataView::Answer(a) => of_answer(a),
        _ => seq![],
    }
}

/// The data of the literals that a response holds, from left to right.
pub open spec fn literal_payloads(r: ResponseView) -> Seq<Seq<u8>> {
    match r {
        ResponseView::Data(d) => of_data(d),
        _ => seq![],
    }
}

// --------------------------------------------------------------------- strings

pub proof fn lemma_numbers_quiet()
    ensures
        sp::quiet(number::digits_rule()),
        sp::quiet(number::number_rule()),
        sp::quiet(number::number64_rule()),
        sp::quiet(number::nz_number_rule()),
        sp::quiet(ext::number63_rule()),
        sp::quiet(modseq::mod_sequence_value_rule()),
{
    broadcast use sp::group_quiet;

    reveal(number::number_rule);
    reveal(number::number64_rule);
    reveal(number::nz_number_rule);
    reveal(ext::number63_rule);
    reveal(modseq::mod_sequence_value_rule);
}

proof fn lemma_quoted_body_quiet(s: Seq<u8>)
    ensures
        sp::is_quiet(strings::quoted_body(s), s),
    decreases s.len(),
{
    if s.len() == 0 || s[0] == '"' as u8 {
    } else if s[0] == '\\' as u8 {
        if s.len() >= 2 && strings::is_quoted_special(s[1]) {
            let t = s.skip(2);
            lemma_quoted_body_quiet(t);
            if let Outcome::Done(r, v) = strings::quoted_body(t) {
                assert(r =~= s.skip(s.len() - r.len()));
                assert forall|i: int| 0 <= i < s.len() - r.len() implies #[trigger] s[i]
                    != 0x0a by {
                    if i >= 2 {
                        assert(t[i - 2] == s[i]);
                    }
                }
            }
        }
    } else if ascii::is_text_byte(s[0]) {
        let t = s.skip(1);
        lemma_quoted_body_quiet(t);
        if let Outcome::Done(r, v) = strings::quoted_body(t) {
            assert(r =~= s.skip(s.len() - r.len()));
            assert forall|i: int| 0 <= i < s.len() - r.len() implies #[trigger] s[i] != 0x0a by {
                if i >= 1 {
                    assert(t[i - 1] == s[i]);
                }
            }
        }
    }
}

proof fn lemma_words_quiet()
    ensures
        sp::quiet(strings::atom_rule()),
        sp::quiet(strings::quoted_rule()),
        sp::quiet(date::letters_rule()),
        sp::quiet(date::date_time_rule()),
        sp::quiet(fetch::item_word_rule()),
        sp::quiet(ext::label_rule()),
        sp::quiet(flag::attribute_rule()),
        sp::quiet(flag::flag_rule()),
        sp::quiet(flag::flag_list_rule()),
        sp::quiet(g::word("NIL")),
{
    broadcast use sp::group_quiet;

    sp::lemma_marks_quiet();
    reveal(strings::atom_rule);
    reveal(strings::quoted_rule);
    reveal(date::date_time_rule);
    reveal(ext::label_rule);
    reveal(flag::attribute_rule);
    reveal(flag::flag_rule);
    reveal_strlit("NIL");
    let body = |s: Seq<u8>| strings::quoted_body(s);
    assert forall|s: Seq<u8>| sp::is_quiet(#[trigger] body(s), s) by {
        lemma_quoted_body_quiet(s);
    }
    assert(sp::quiet(body));
    sp::lemma_tag_no_case_quiet(ascii::bytes_of("NIL"));
}

/// What was read announces a literal of the length that was read.
spec fn is_announcement(o: Outcome<(u64, LiteralMode)>, s: Seq<u8>) -> bool {
    match o {
        Outcome::Done(r, a) => {
            let c = sp::front(s, r);
            &&& g::is_rest(o, s)
            &&& c.len() > 0
            &&& c.last() == 0x0a
            &&& sp::no_line_feed(c.drop_last())
            &&& sp::announces(c.drop_last(), a.0 as nat)
        },
        _ => true,
    }
}

proof fn lemma_announcement_read(s: Seq<u8>)
    ensures
        is_announcement(strings::announcement_rule()(s), s),
{
    if let Outcome::Done(r, a) = strings::announcement_rule()(s) {
        reveal_strlit("{");
        reveal_strlit("+");
        reveal_strlit("}");
        reveal_strlit("\r\n");
        reveal(number::number64_rule);
        let s1 = s.skip(1);
        let n = g::run_length(s1, |b: u8| ascii::is_digit(b)) as int;
        g::lemma_run_length(s1, |b: u8| ascii::is_digit(b));
        let d = s1.take(n);
        let s2 = s1.skip(n);
        let plus = s2.len() > 0 && s2[0] == '+' as u8;
        let mode = if plus {
            LiteralMode::NonSync
        } else {
            LiteralMode::Sync
        };
        let s3 = if plus {
            s2.skip(1)
        } else {
            s2
        };
        assert(ascii::bytes_of("{") =~= seq!['{' as u8]);
        assert(ascii::bytes_of("+") =~= seq!['+' as u8]);
        assert(ascii::bytes_of("}") =~= seq!['}' as u8]);
        assert(ascii::bytes_of("\r\n") =~= seq![0x0du8, 0x0au8]);
        assert(s.take(1)[0] == '{' as u8);
        assert(number::number64_rule()(s1) == Outcome::Done(s2, a.0));
        assert(number::all_digits(d)) by {
            assert forall|i: int| 0 <= i < d.len() implies ascii::is_digit(#[trigger] d[i]) by {
                assert(s1[i] == d[i]);
            }
        }
        if plus {
            assert(s2.take(1) =~= seq!['+' as u8]);
        } else if s2.len() > 0 {
            assert(s2.take(1)[0] == s2[0]);
        }
        assert(g::opt(g::text("+"))(s2) == Outcome::Done(
            s3,
            if plus {
                Some(())
            } else {
                None
            },
        ));
        assert(g::text("}")(s3) is Done);
        assert(s3.take(1)[0] == '}' as u8);
        let s4 = s3.skip(1);
        assert(g::text("\r\n")(s4) is Done);
        assert(s4.take(2)[0] == 0x0d && s4.take(2)[1] == 0x0a);
        assert(r == s4.skip(2));
        let text = lines::announcement_of(d, mode);
        let c = sp::front(s, r);
        assert(r =~= s.skip(s.len() - r.len()));
        assert(c =~= text + seq![0x0au8]);
        assert(c.drop_last() =~= text);
        lines::lemma_digits_announce(LatestByte::Other, d, mode);
        assert forall|i: int| 0 <= i < text.len() implies #[trigger] text[i] != 0x0a by {
            if 1 <= i < 1 + d.len() {
                assert(text[i] == d[i - 1]);
                assert(ascii::is_digit(d[i - 1]));
            }
        }
    }
}

proof fn lemma_announced_data(
    s: Seq<u8>,
    r: Seq<u8>,
    length: u64,
    mode: LiteralMode,
    binary: bool,
)
    requires
        is_announcement(Outcome::Done(r, (length, mode)), s),
    ensures
        strings::literal_data_rule(length, mode, binary)(r) matches Outcome::Done(r2, v)
            ==> r2.len() <= s.len() && r2 == s.skip(s.len() - r2.len()) && sp::holds_literals(
            sp::front(s, r2),
            of_string(v),
        ),
{
    if let Outcome::Done(r2, v) = strings::literal_data_rule(length, mode, binary)(r) {
        let data = r.take(length as int);
        let line = sp::front(s, r).drop_last();
        sp::lemma_literal_front(s, r, length as int);
        sp::lemma_spelled_literal(line, data);
        sp::lemma_held(line + seq![0x0au8] + data, seq![data]);
    }
}

proof fn lemma_announced_traced(p: Rule<(u64, LiteralMode)>, binary: bool)
    requires
        forall|s: Seq<u8>| is_announcement(#[trigger] p(s), s),
    ensures
        sp::traced(
            g::chain(p, |a: (u64, LiteralMode)| strings::literal_data_rule(a.0, a.1, binary)),
            |s: StringView| of_string(s),
        ),
{
    let f = |s: StringView| of_string(s);
    let q = |a: (u64, LiteralMode)| strings::literal_data_rule(a.0, a.1, binary);
    let c = g::chain(p, q);
    assert forall|s: Seq<u8>| sp::carries(#[trigger] c(s), s, f) by {
        assert(is_announcement(p(s), s));
        if let Outcome::Done(r, a) = p(s) {
            lemma_announced_data(s, r, a.0, a.1, binary);
            assert(c(s) == q(a)(r));
        }
    }
}

proof fn lemma_literal_traced(binary: bool)
    ensures
        sp::traced(
            g::chain(
                strings::announcement_rule(),
                |a: (u64, LiteralMode)| strings::literal_data_rule(a.0, a.1, binary),
            ),
            |s: StringView| of_string(s),
        ),
{
    let p = strings::announcement_rule();
    assert forall|s: Seq<u8>| is_announcement(#[trigger] p(s), s) by {
        lemma_announcement_read(s);
    }
    lemma_announced_traced(p, binary);
}

pub proof fn lemma_strings_traced()
    ensures
        sp::traced(strings::literal8_rule(), |s: StringView| of_string(s)),
        sp::traced(strings::string_rule(), |s: StringView| of_string(s)),
        sp::traced(strings::astring_rule(), |s: StringView| of_string(s)),
        sp::traced(strings::nstring_rule(), |s: Option<StringView>| of_optional(s)),
{
    let f = |s: StringView| of_string(s);
    let fo = |s: Option<StringView>| of_optional(s);
    reveal(strings::literal_rule);
    reveal(strings::literal8_rule);
    reveal(strings::string_rule);
    reveal(strings::astring_rule);
    reveal(strings::nstring_rule);
    lemma_words_quiet();
    sp::lemma_marks_quiet();
    lemma_literal_traced(false);
    lemma_literal_traced(true);
    sp::lemma_preceded_traced(
        g::text("~"),
        g::chain(
            strings::announcement_rule(),
            |a: (u64, LiteralMode)| strings::literal_data_rule(a.0, a.1, true),
        ),
        f,
    );
    let quoted = |b: Seq<u8>| StringView::Quoted(b);
    sp::lemma_quiet_mapped_traced(strings::quoted_rule(), quoted, f);
    sp::lemma_alt_traced(
        g::mapped(strings::quoted_rule(), quoted),
        strings::literal_rule(),
        f,
    );
    let word = g::take_while1_rule(|b: u8| ascii::is_astring_char(b));
    let atom = |b: Seq<u8>| StringView::Atom(b);
    sp::lemma_take_while1_quiet(|b: u8| ascii::is_astring_char(b));
    sp::lemma_quiet_mapped_traced(word, atom, f);
    sp::lemma_alt_traced(g::mapped(word, atom), strings::string_rule(), f);
    let some = |v: StringView| Some(v);
    sp::lemma_mapped_traced(strings::string_rule(), some, f, fo);
    sp::lemma_quiet_mapped_traced(g::word("NIL"), |a: ()| None::<StringView>, fo);
    sp::lemma_alt_traced(
        g::mapped(strings::string_rule(), some),
        g::value(None, g::word("NIL")),
        fo,
    );
}

// -------------------------------------------------------------------- mailboxes

proof fn lemma_mailbox_traced()
    ensures
        sp::traced(mailbox::mailbox_rule(), |m: MailboxView| of_mailbox(m)),
{
    reveal(mailbox::mailbox_rule);
    lemma_strings_traced();
    let f = |m: MailboxView| of_mailbox(m);
    let fs = |s: StringView| of_string(s);
    let p = strings::astring_rule();
    let c = mailbox::mailbox_rule();
    assert forall|s: Seq<u8>| sp::carries(#[trigger] c(s), s, f) by {
        assert(sp::carries(p(s), s, fs));
        if let Outcome::Done(r, v) = p(s) {
            let k = choose|k: Seq<Seq<u8>>| #[trigger]
                sp::spelled(sp::front(s, r), k) && (sp::none_is_inbox(k) ==> of_string(v) == k);
            if sp::none_is_inbox(k) {
                if let StringView::Literal(b, m) = v {
                    assert(k[0] == b);
                }
            }
            assert(sp::none_is_inbox(k) ==> of_mailbox(mailbox::mailbox_of(v)) == k);
        }
    }
}

proof fn lemma_quoted_char_quiet()
    ensures
        sp::quiet(mailbox::quoted_char_rule()),
{
    let p = mailbox::quoted_char_rule();
    assert forall|s: Seq<u8>| sp::is_quiet(#[trigger] p(s), s) by {}
}

proof fn lemma_delimiter_quiet()
    ensures
        sp::quiet(mailbox::delimiter_rule()),
{
    broadcast use sp::group_quiet;

    sp::lemma_marks_quiet();
    lemma_words_quiet();
    lemma_quoted_char_quiet();
}

proof fn lemma_mailbox_list_traced()
    ensures
        sp::traced(mailbox::mailbox_list_rule(), |p: MailboxListView| of_mailbox(p.2)),
{
    broadcast use sp::group_quiet;

    reveal(mailbox::mailbox_list_rule);
    sp::lemma_marks_quiet();
    lemma_words_quiet();
    lemma_delimiter_quiet();
    lemma_mailbox_traced();
    let f = |m: MailboxView| of_mailbox(m);
    let delimiter = g::terminated(mailbox::delimiter_rule(), g::text(" "));
    let attributes = g::terminated(g::paren_list0(flag::attribute_rule()), g::text(" "));
    assert(sp::quiet(g::paren_list0(flag::attribute_rule())));
    let none1 = |d: Option<u8>| Seq::<Seq<u8>>::empty();
    let none2 = |v: Seq<Seq<u8>>| Seq::<Seq<u8>>::empty();
    sp::lemma_quiet_traced(delimiter, none1);
    sp::lemma_quiet_traced(attributes, none2);
    let f1 = |p: (Option<u8>, MailboxView)| of_mailbox(p.1);
    let f2 = |p: (Seq<Seq<u8>>, (Option<u8>, MailboxView))| of_mailbox(p.1.1);
    assert forall|a: Option<u8>, b: MailboxView| f1((a, b)) == #[trigger] none1(a)
        + #[trigger] f(b) by {
        assert(f1((a, b)) =~= none1(a) + f(b));
    }
    sp::lemma_pair_traced(delimiter, mailbox::mailbox_rule(), none1, f, f1);
    let inner = g::pair(delimiter, mailbox::mailbox_rule());
    assert forall|a: Seq<Seq<u8>>, b: (Option<u8>, MailboxView)| f2((a, b)) == #[trigger] none2(a)
        + #[trigger] f1(b) by {
        assert(f2((a, b)) =~= none2(a) + f1(b));
    }
    sp::lemma_pair_traced(attributes, inner, none2, f1, f2);
    sp::lemma_mapped_traced(
        g::pair(attributes, inner),
        |p: (Seq<Seq<u8>>, (Option<u8>, MailboxView))| (p.0, p.1.0, p.1.1),
        f2,
        |p: MailboxListView| of_mailbox(p.2),
    );
}

// ------------------------------------------------------------------- extensions

proof fn lemma_components_gathered(v: Seq<ComponentView>)
    ensures
        of_components(v) == sp::gathered(v, |c: ComponentView| of_component(c)),
    decreases v.len(),
{
    if v.len() > 0 {
        lemma_components_gathered(v.drop_last());
    }
}

proof fn lemma_component_traced(depth: nat)
    ensures
        sp::traced(ext::component_rule(depth), |c: ComponentView| of_component(c)),
        sp::traced(
            g::paren_list0(ext::component_rule(depth)),
            |v: Seq<ComponentView>| of_components(v),
        ),
    decreases depth,
{
    let f = |c: ComponentView| of_component(c);
    let fs = |v: Seq<ComponentView>| of_components(v);
    reveal_with_fuel(ext::component_rule, 2);
    if depth > 0 {
        let p = ext::component_rule((depth - 1) as nat);
        lemma_component_traced((depth - 1) as nat);
        let list = |v: Seq<ComponentView>| ComponentView::List(v);
        let string = |s: StringView| ComponentView::String(s);
        sp::lemma_mapped_traced(g::paren_list0(p), list, fs, f);
        lemma_strings_traced();
        sp::lemma_mapped_traced(strings::astring_rule(), string, |s: StringView| of_string(s), f);
        sp::lemma_alt_traced(
            g::mapped(g::paren_list0(p), list),
            g::mapped(strings::astring_rule(), string),
            f,
        );
    }
    assert(sp::traced(ext::component_rule(depth), f));
    assert forall|v: Seq<ComponentView>| #[trigger] fs(v) == sp::gathered(v, f) by {
        lemma_components_gathered(v);
    }
    sp::lemma_paren_lists_traced(ext::component_rule(depth), f, fs);
}

proof fn lemma_value_traced()
    ensures
        sp::traced(ext::extension_value_rule(), |v: ValueView| of_value(v)),
{
    reveal(ext::extension_value_rule);
    let f = |v: ValueView| of_value(v);
    let p = g::paren_list0(ext::component_rule(ext::COMPONENT_DEPTH as nat));
    let q = g::verify(strings::atom_rule(), |b: Seq<u8>| ext::is_simple_value(b));
    lemma_component_traced(ext::COMPONENT_DEPTH as nat);
    lemma_words_quiet();
    sp::lemma_verify_quiet(strings::atom_rule(), |b: Seq<u8>| ext::is_simple_value(b));
    let list = |v: Seq<ComponentView>| ValueView::List(v);
    let simple = |b: Seq<u8>| ValueView::Simple(b);
    sp::lemma_mapped_traced(p, list, |v: Seq<ComponentView>| of_components(v), f);
    sp::lemma_quiet_mapped_traced(q, simple, f);
    sp::lemma_alt_traced(g::mapped(p, list), g::mapped(q, simple), f);
}

proof fn lemma_search_data_traced()
    ensures
        sp::traced(ext::search_data_rule(), |d: SearchReturnDataView| of_search_data(d)),
{
    reveal(ext::search_data_rule);
    let f = |d: SearchReturnDataView| of_search_data(d);
    let fv = |v: ValueView| of_value(v);
    let none = |b: Seq<u8>| Seq::<Seq<u8>>::empty();
    let label = g::terminated(ext::label_rule(), g::text(" "));
    sp::lemma_marks_quiet();
    lemma_words_quiet();
    sp::lemma_terminated_quiet(ext::label_rule(), g::text(" "));
    sp::lemma_quiet_traced(label, none);
    lemma_value_traced();
    let f1 = |p: (Seq<u8>, ValueView)| of_value(p.1);
    assert forall|a: Seq<u8>, b: ValueView| f1((a, b)) == #[trigger] none(a) + #[trigger] fv(b) by {
        assert(f1((a, b)) =~= none(a) + fv(b));
    }
    sp::lemma_pair_traced(label, ext::extension_value_rule(), none, fv, f1);
    let h = |p: (Seq<u8>, ValueView)| SearchReturnDataView { name: p.0, value: p.1 };
    let pair = g::pair(label, ext::extension_value_rule());
    sp::lemma_mapped_traced(pair, h, f1, f);
    sp::lemma_verify_traced(
        g::mapped(pair, h),
        |d: SearchReturnDataView| ext::search_data_ok(d),
        f,
    );
}

proof fn lemma_esearch_traced()
    ensures
        sp::traced(ext::esearch_rule(), |d: DataView| of_data(d)),
{
    reveal(ext::esearch_rule);
    reveal_strlit("ESEARCH");
    reveal_strlit(" (TAG ");
    reveal_strlit(" UID");
    sp::lemma_marks_quiet();
    sp::lemma_tag_no_case_quiet(ascii::bytes_of("ESEARCH"));
    sp::lemma_tag_no_case_quiet(ascii::bytes_of(" (TAG "));
    sp::lemma_tag_no_case_quiet(ascii::bytes_of(" UID"));
    lemma_strings_traced();
    lemma_search_data_traced();
    let f = |d: DataView| of_data(d);
    let fs = |s: StringView| of_string(s);
    let fo = |s: Option<StringView>| of_optional(s);
    let fd = |d: SearchReturnDataView| of_search_data(d);
    let fi = |v: Seq<SearchReturnDataView>| sp::gathered(v, fd);
    let tag = g::delimited(g::word(" (TAG "), strings::astring_rule(), g::text(")"));
    sp::lemma_delimited_traced(g::word(" (TAG "), strings::astring_rule(), g::text(")"), fs);
    sp::lemma_opt_traced(tag, fs, fo);
    let uid = g::opt(g::word(" UID"));
    sp::lemma_opt_quiet(g::word(" UID"));
    let none = |u: Option<()>| Seq::<Seq<u8>>::empty();
    sp::lemma_quiet_traced(uid, none);
    let items = g::repeated(g::text(" "), ext::search_data_rule());
    sp::lemma_repeated_traced(g::text(" "), ext::search_data_rule(), fd, fi);
    let f1 = |p: (Option<()>, Seq<SearchReturnDataView>)| fi(p.1);
    assert forall|a: Option<()>, b: Seq<SearchReturnDataView>| f1((a, b)) == #[trigger] none(a)
        + #[trigger] fi(b) by {
        assert(f1((a, b)) =~= none(a) + fi(b));
    }
    sp::lemma_pair_traced(uid, items, none, fi, f1);
    let f2 = |p: (Option<StringView>, (Option<()>, Seq<SearchReturnDataView>))|
        of_optional(p.0) + fi(p.1.1);
    let inner = g::pair(uid, items);
    sp::lemma_pair_traced(g::opt(tag), inner, fo, f1, f2);
    let whole = g::pair(g::opt(tag), inner);
    sp::lemma_preceded_traced(g::word("ESEARCH"), whole, f2);
    sp::lemma_mapped_traced(
        g::preceded(g::word("ESEARCH"), whole),
        |p: (Option<StringView>, (Option<()>, Seq<SearchReturnDataView>))|
            DataView::ESearch { tag: p.0, uid: p.1.0 is Some, items: p.1.1 },
        f2,
        f,
    );
}

proof fn lemma_list_data_traced()
    ensures
        sp::traced(ext::list_data_rule(), |d: DataView| of_data(d)),
{
    reveal(ext::list_data_rule);
    reveal(ext::list_extension_rule);
    reveal_strlit("LIST ");
    sp::lemma_marks_quiet();
    sp::lemma_tag_no_case_quiet(ascii::bytes_of("LIST "));
    lemma_strings_traced();
    lemma_value_traced();
    lemma_mailbox_list_traced();
    let f = |d: DataView| of_data(d);
    let fs = |s: StringView| of_string(s);
    let fv = |v: ValueView| of_value(v);
    let fe = |e: ListExtensionView| of_list_extension(e);
    let fm = |p: MailboxListView| of_mailbox(p.2);
    let fes = |v: Seq<ListExtensionView>| sp::gathered(v, fe);
    let tag = g::terminated(strings::astring_rule(), g::text(" "));
    sp::lemma_terminated_traced(strings::astring_rule(), g::text(" "), fs);
    let f1 = |p: (StringView, ValueView)| of_string(p.0) + of_value(p.1);
    sp::lemma_pair_traced(tag, ext::extension_value_rule(), fs, fv, f1);
    sp::lemma_mapped_traced(
        g::pair(tag, ext::extension_value_rule()),
        |p: (StringView, ValueView)| ListExtensionView { tag: p.0, value: p.1 },
        f1,
        fe,
    );
    sp::lemma_paren_lists_traced(ext::list_extension_rule(), fe, fes);
    let names = g::preceded(g::word("LIST "), mailbox::mailbox_list_rule());
    let more = g::preceded(g::text(" "), g::paren_list0(ext::list_extension_rule()));
    sp::lemma_preceded_traced(g::word("LIST "), mailbox::mailbox_list_rule(), fm);
    sp::lemma_preceded_traced(g::text(" "), g::paren_list0(ext::list_extension_rule()), fes);
    let f2 = |p: (MailboxListView, Seq<ListExtensionView>)| of_mailbox(p.0.2) + fes(p.1);
    sp::lemma_pair_traced(names, more, fm, fes, f2);
    sp::lemma_mapped_traced(
        g::pair(names, more),
        |p: (MailboxListView, Seq<ListExtensionView>)|
            DataView::ListExtended {
                items: p.0.0,
                delimiter: p.0.1,
                mailbox: p.0.2,
                extensions: p.1,
            },
        f2,
        f,
    );
}

// ------------------------------------------------------------------------ FETCH

proof fn lemma_section_text_traced(mime: bool)
    ensures
        sp::traced(fetch::section_text_rule(mime), |x: SectionTextView| of_section_text(x)),
{
    let f = |x: SectionTextView| of_section_text(x);
    let fs = |s: StringView| of_string(s);
    let fl = |v: Seq<StringView>| of_strings(v);
    sp::lemma_marks_quiet();
    lemma_strings_traced();
    sp::lemma_paren_lists_traced(strings::astring_rule(), fs, fl);
    sp::lemma_preceded_traced(g::text(" "), g::paren_list1(strings::astring_rule()), fl);
    let fields = |v: Seq<StringView>| SectionTextView::HeaderFields(v);
    let others = |v: Seq<StringView>| SectionTextView::HeaderFieldsNot(v);
    sp::lemma_mapped_traced(fetch::header_list_rule(), fields, fl, f);
    sp::lemma_mapped_traced(fetch::header_list_rule(), others, fl, f);
    lemma_constant_traced(SectionTextView::Header, f);
    lemma_constant_traced(SectionTextView::Text, f);
    lemma_constant_traced(SectionTextView::Mime, f);
    lemma_never_traced(f);
    let q = |w: Seq<u8>| fetch::section_text_of(w, mime);
    assert forall|w: Seq<u8>| sp::traced(#[trigger] q(w), f) by {}
    sp::lemma_take_while1_quiet(|b: u8| fetch::is_section_char(b));
    sp::lemma_chain_traced(g::take_while1_rule(|b: u8| fetch::is_section_char(b)), q, f);
}

pub proof fn lemma_constant_traced<T>(v: T, f: spec_fn(T) -> Seq<Seq<u8>>)
    requires
        f(v) == Seq::<Seq<u8>>::empty(),
    ensures
        sp::traced(g::success(v), f),
{
    let none = |x: T| Seq::<Seq<u8>>::empty();
    let p = g::success(v);
    sp::lemma_success_quiet(v);
    sp::lemma_quiet_traced(p, none);
    assert forall|s: Seq<u8>| sp::carries(#[trigger] p(s), s, f) by {
        assert(sp::carries(p(s), s, none));
    }
}

proof fn lemma_never_traced<T>(f: spec_fn(T) -> Seq<Seq<u8>>)
    ensures
        sp::traced(g::never::<T>(), f),
{
}

proof fn lemma_part_quiet()
    ensures
        sp::quiet(fetch::part_rule()),
        sp::quiet(fetch::binary_section_rule()),
        sp::quiet(response::origin_rule()),
        sp::quiet(response::modseq_item_rule()),
{
    broadcast use sp::group_quiet;

    sp::lemma_marks_quiet();
    lemma_numbers_quiet();
    reveal(fetch::binary_section_rule);
    reveal(response::modseq_item_rule);
}

proof fn lemma_section_traced()
    ensures
        sp::traced(fetch::body_section_rule(), |s: Option<SectionView>| of_section(s)),
{
    reveal(fetch::section_rule);
    let ft = |x: SectionTextView| of_section_text(x);
    let fo = |x: Option<SectionTextView>|
        match x {
            Some(x) => of_section_text(x),
            None => seq![],
        };
    let f = |s: SectionView| of_section(Some(s));
    let fs = |s: Option<SectionView>| of_section(s);
    let none = |p: Seq<u32>| Seq::<Seq<u8>>::empty();
    sp::lemma_marks_quiet();
    lemma_part_quiet();
    lemma_section_text_traced(false);
    lemma_section_text_traced(true);
    let alone = |x: SectionTextView| SectionView { part: seq![], text: Some(x) };
    sp::lemma_mapped_traced(fetch::section_text_rule(false), alone, ft, f);
    let dotted = g::preceded(g::text("."), fetch::section_text_rule(true));
    sp::lemma_preceded_traced(g::text("."), fetch::section_text_rule(true), ft);
    sp::lemma_opt_traced(dotted, ft, fo);
    sp::lemma_quiet_traced(fetch::part_rule(), none);
    let f1 = |p: (Seq<u32>, Option<SectionTextView>)| fo(p.1);
    assert forall|a: Seq<u32>, b: Option<SectionTextView>| f1((a, b)) == #[trigger] none(a)
        + #[trigger] fo(b) by {
        assert(f1((a, b)) =~= none(a) + fo(b));
    }
    sp::lemma_pair_traced(fetch::part_rule(), g::opt(dotted), none, fo, f1);
    let parted = g::pair(fetch::part_rule(), g::opt(dotted));
    let h = |p: (Seq<u32>, Option<SectionTextView>)| SectionView { part: p.0, text: p.1 };
    sp::lemma_mapped_traced(parted, h, f1, f);
    sp::lemma_alt_traced(
        g::mapped(fetch::section_text_rule(false), alone),
        g::mapped(parted, h),
        f,
    );
    sp::lemma_opt_traced(fetch::section_rule(), f, fs);
    sp::lemma_delimited_traced(g::text("["), g::opt(fetch::section_rule()), g::text("]"), fs);
}

proof fn lemma_body_item_traced()
    ensures
        sp::traced(response::body_item_rule(), |i: ItemView| of_item(i)),
{
    reveal(response::body_item_rule);
    let f = |i: ItemView| of_item(i);
    let fs = |s: Option<SectionView>| of_section(s);
    let fo = |s: Option<StringView>| of_optional(s);
    let none = |n: Option<u64>| Seq::<Seq<u8>>::empty();
    sp::lemma_marks_quiet();
    lemma_part_quiet();
    lemma_section_traced();
    lemma_strings_traced();
    let data = args::sp(strings::nstring_rule());
    sp::lemma_preceded_traced(g::text(" "), strings::nstring_rule(), fo);
    let origin = g::opt(response::origin_rule());
    sp::lemma_opt_quiet(response::origin_rule());
    sp::lemma_quiet_traced(origin, none);
    let f1 = |p: (Option<u64>, Option<StringView>)| of_optional(p.1);
    assert forall|a: Option<u64>, b: Option<StringView>| f1((a, b)) == #[trigger] none(a)
        + #[trigger] fo(b) by {
        assert(f1((a, b)) =~= none(a) + fo(b));
    }
    sp::lemma_pair_traced(origin, data, none, fo, f1);
    let f2 = |p: (Option<SectionView>, (Option<u64>, Option<StringView>))|
        of_section(p.0) + of_optional(p.1.1);
    sp::lemma_pair_traced(fetch::body_section_rule(), g::pair(origin, data), fs, f1, f2);
    sp::lemma_mapped_traced(
        g::pair(fetch::body_section_rule(), g::pair(origin, data)),
        |p: (Option<SectionView>, (Option<u64>, Option<StringView>))|
            ItemView::BodyExt { section: p.0, origin: p.1.0, data: p.1.1 },
        f2,
        f,
    );
}

pub proof fn lemma_two_strings_traced()
    ensures
        sp::traced(structure::two_strings_rule(), |p: TwoStrings| of_two(p.0, p.1)),
{
    let fo = |s: Option<StringView>| of_optional(s);
    lemma_strings_traced();
    shapes::lemma_two_traced(
        strings::nstring_rule(),
        strings::nstring_rule(),
        fo,
        fo,
        |p: TwoStrings| of_two(p.0, p.1),
    );
}

proof fn lemma_addresses_traced()
    ensures
        sp::traced(structure::addresses_rule(), |v: Seq<AddressView>| of_addresses(v)),
{
    reveal(structure::address_rule);
    reveal(structure::addresses_rule);
    let ft = |p: TwoStrings| of_two(p.0, p.1);
    let fp = |p: (TwoStrings, TwoStrings)| of_two(p.0.0, p.0.1) + of_two(p.1.0, p.1.1);
    let fa = |a: AddressView| of_address(a);
    let f = |v: Seq<AddressView>| of_addresses(v);
    let two = structure::two_strings_rule();
    lemma_two_strings_traced();
    shapes::lemma_two_traced(two, two, ft, ft, fp);
    shapes::lemma_enclosed_traced(shapes::two(two, two), fp);
    sp::lemma_mapped_traced(
        shapes::closing(shapes::two(two, two)),
        |p: (TwoStrings, TwoStrings)|
            AddressView { name: p.0.0, adl: p.0.1, mailbox: p.1.0, host: p.1.1 },
        fp,
        fa,
    );
    shapes::lemma_row_traced(structure::address_rule(), fa, f);
    shapes::lemma_enclosed_traced(shapes::row(structure::address_rule()), f);
    let none = Seq::<AddressView>::empty();
    shapes::lemma_nil_traced(none, f);
    sp::lemma_alt_traced(
        shapes::enclosed(shapes::row(structure::address_rule())),
        shapes::nil(none),
        f,
    );
}

pub proof fn lemma_envelope_traced()
    ensures
        sp::traced(structure::envelope_rule(), |e: EnvelopeView| of_envelope(e)),
{
    reveal(structure::envelope_rule);
    let ft = |p: TwoStrings| of_two(p.0, p.1);
    let fs = |v: Seq<AddressView>| of_addresses(v);
    let f2 = |p: (Seq<AddressView>, Seq<AddressView>)| of_addresses(p.0) + of_addresses(p.1);
    let f3 = |p: ThreeLists| of_addresses(p.0) + (of_addresses(p.1.0) + of_addresses(p.1.1));
    let fa = |p: (TwoStrings, ThreeLists)|
        of_two(p.0.0, p.0.1) + (of_addresses(p.1.0) + (of_addresses(p.1.1.0) + of_addresses(
            p.1.1.1,
        )));
    let fb = |p: (ThreeLists, TwoStrings)|
        (of_addresses(p.0.0) + (of_addresses(p.0.1.0) + of_addresses(p.0.1.1))) + of_two(
            p.1.0,
            p.1.1,
        );
    let fp = |p: ((TwoStrings, ThreeLists), (ThreeLists, TwoStrings))| fa(p.0) + fb(p.1);
    let strings = structure::two_strings_rule();
    let list = structure::addresses_rule();
    let lists = structure::three_lists_rule();
    lemma_two_strings_traced();
    lemma_addresses_traced();
    shapes::lemma_two_traced(list, list, fs, fs, f2);
    shapes::lemma_two_traced(list, shapes::two(list, list), fs, f2, f3);
    shapes::lemma_two_traced(strings, lists, ft, f3, fa);
    shapes::lemma_two_traced(lists, strings, f3, ft, fb);
    let a = shapes::two(strings, lists);
    let b = shapes::two(lists, strings);
    shapes::lemma_two_traced(a, b, fa, fb, fp);
    shapes::lemma_enclosed_traced(shapes::two(a, b), fp);
    sp::lemma_mapped_traced(
        shapes::enclosed(shapes::two(a, b)),
        |p: ((TwoStrings, ThreeLists), (ThreeLists, TwoStrings))|
            EnvelopeView {
                date: p.0.0.0,
                subject: p.0.0.1,
                from: p.0.1.0,
                sender: p.0.1.1.0,
                reply_to: p.0.1.1.1,
                to: p.1.0.0,
                cc: p.1.0.1.0,
                bcc: p.1.0.1.1,
                in_reply_to: p.1.1.0,
                message_id: p.1.1.1,
            },
        fp,
        |e: EnvelopeView| of_envelope(e),
    );
}

proof fn lemma_plain_item_traced(n: PlainItem)
    ensures
        sp::traced(response::plain_item_rule(n), |i: ItemView| of_item(i)),
{
    broadcast use {sp::lemma_preceded_quiet, sp::lemma_delimited_quiet};

    let f = |i: ItemView| of_item(i);
    let fo = |s: Option<StringView>| of_optional(s);
    sp::lemma_marks_quiet();
    lemma_numbers_quiet();
    lemma_words_quiet();
    lemma_part_quiet();
    match n {
        PlainItem::Flags => {
            sp::lemma_quiet_mapped_traced(
                args::sp(flag::flag_list_rule()),
                |v: Seq<FlagView>| ItemView::Flags(v),
                f,
            );
        },
        PlainItem::InternalDate => {
            sp::lemma_quiet_mapped_traced(
                args::sp(date::date_time_rule()),
                |b: Seq<u8>| ItemView::InternalDate(b),
                f,
            );
        },
        PlainItem::Rfc822 => {
            lemma_strings_traced();
            sp::lemma_preceded_traced(g::text(" "), strings::nstring_rule(), fo);
            sp::lemma_mapped_traced(
                args::sp(strings::nstring_rule()),
                |s: Option<StringView>| ItemView::Rfc822(s),
                fo,
                f,
            );
        },
        PlainItem::Rfc822Header => {
            lemma_strings_traced();
            sp::lemma_preceded_traced(g::text(" "), strings::nstring_rule(), fo);
            sp::lemma_mapped_traced(
                args::sp(strings::nstring_rule()),
                |s: Option<StringView>| ItemView::Rfc822Header(s),
                fo,
                f,
            );
        },
        PlainItem::Rfc822Text => {
            lemma_strings_traced();
            sp::lemma_preceded_traced(g::text(" "), strings::nstring_rule(), fo);
            sp::lemma_mapped_traced(
                args::sp(strings::nstring_rule()),
                |s: Option<StringView>| ItemView::Rfc822Text(s),
                fo,
                f,
            );
        },
        PlainItem::Rfc822Size => {
            sp::lemma_quiet_mapped_traced(
                args::sp(ext::number63_rule()),
                |n: u64| ItemView::Rfc822Size(n),
                f,
            );
        },
        PlainItem::Uid => {
            sp::lemma_quiet_mapped_traced(
                args::sp(number::nz_number_rule()),
                |n: u32| ItemView::Uid(n),
                f,
            );
        },
        PlainItem::ModSeq => {
            sp::lemma_quiet_mapped_traced(
                args::sp(response::modseq_item_rule()),
                |n: u64| ItemView::ModSeq(n),
                f,
            );
        },
        PlainItem::Body => {
            let h = |b: StructureView| ItemView::Body(b);
            let fb = |b: StructureView| parts::of_body(b);
            lemma_body_item_traced();
            parts::lemma_body_traced();
            sp::lemma_preceded_traced(g::text(" "), body::body_rule(), fb);
            sp::lemma_mapped_traced(args::sp(body::body_rule()), h, fb, f);
            sp::lemma_alt_traced(
                response::body_item_rule(),
                g::mapped(args::sp(body::body_rule()), h),
                f,
            );
        },
        PlainItem::Envelope => {
            let fe = |e: EnvelopeView| of_envelope(e);
            lemma_envelope_traced();
            sp::lemma_preceded_traced(g::text(" "), structure::envelope_rule(), fe);
            sp::lemma_mapped_traced(
                args::sp(structure::envelope_rule()),
                |e: EnvelopeView| ItemView::Envelope(e),
                fe,
                f,
            );
        },
        PlainItem::BodyStructure => {
            let fb = |b: StructureView| parts::of_body(b);
            parts::lemma_body_traced();
            sp::lemma_preceded_traced(g::text(" "), body::body_rule(), fb);
            sp::lemma_mapped_traced(
                args::sp(body::body_rule()),
                |b: StructureView| ItemView::BodyStructure(b),
                fb,
                f,
            );
        },
    }
}

proof fn lemma_nstring8_traced()
    ensures
        sp::traced(response::nstring8_rule(), |v: NString8View| of_binary(v)),
{
    reveal(response::nstring8_rule);
    let fb = |v: NString8View| of_binary(v);
    lemma_strings_traced();
    let plain = |s: Option<StringView>| NString8View::NString(s);
    let binary = |s: StringView| NString8View::Literal8(s);
    sp::lemma_mapped_traced(strings::literal8_rule(), binary, |s: StringView| of_string(s), fb);
    sp::lemma_mapped_traced(
        strings::nstring_rule(),
        plain,
        |s: Option<StringView>| of_optional(s),
        fb,
    );
    sp::lemma_alt_traced(
        g::mapped(strings::literal8_rule(), binary),
        g::mapped(strings::nstring_rule(), plain),
        fb,
    );
}

proof fn lemma_binary_items_traced()
    ensures
        sp::traced(
            g::mapped(
                g::pair(fetch::binary_section_rule(), args::sp(response::nstring8_rule())),
                |p: (Seq<u32>, NString8View)| ItemView::Binary { section: p.0, value: p.1 },
            ),
            |i: ItemView| of_item(i),
        ),
        sp::traced(
            g::mapped(
                g::pair(fetch::binary_section_rule(), args::sp(ext::number63_rule())),
                |p: (Seq<u32>, u64)| ItemView::BinarySize { section: p.0, size: p.1 },
            ),
            |i: ItemView| of_item(i),
        ),
{
    let f = |i: ItemView| of_item(i);
    let fb = |v: NString8View| of_binary(v);
    let none = |p: Seq<u32>| Seq::<Seq<u8>>::empty();
    sp::lemma_marks_quiet();
    lemma_numbers_quiet();
    lemma_part_quiet();
    lemma_strings_traced();
    lemma_nstring8_traced();
    sp::lemma_preceded_traced(g::text(" "), response::nstring8_rule(), fb);
    sp::lemma_quiet_traced(fetch::binary_section_rule(), none);
    let f1 = |p: (Seq<u32>, NString8View)| of_binary(p.1);
    assert forall|a: Seq<u32>, b: NString8View| f1((a, b)) == #[trigger] none(a) + #[trigger] fb(
        b,
    ) by {
        assert(f1((a, b)) =~= none(a) + fb(b));
    }
    sp::lemma_pair_traced(
        fetch::binary_section_rule(),
        args::sp(response::nstring8_rule()),
        none,
        fb,
        f1,
    );
    sp::lemma_mapped_traced(
        g::pair(fetch::binary_section_rule(), args::sp(response::nstring8_rule())),
        |p: (Seq<u32>, NString8View)| ItemView::Binary { section: p.0, value: p.1 },
        f1,
        f,
    );
    sp::lemma_preceded_quiet(g::text(" "), ext::number63_rule());
    sp::lemma_pair_quiet(fetch::binary_section_rule(), args::sp(ext::number63_rule()));
    sp::lemma_quiet_mapped_traced(
        g::pair(fetch::binary_section_rule(), args::sp(ext::number63_rule())),
        |p: (Seq<u32>, u64)| ItemView::BinarySize { section: p.0, size: p.1 },
        f,
    );
}

proof fn lemma_item_traced()
    ensures
        sp::traced(response::item_rule(), |i: ItemView| of_item(i)),
{
    reveal(response::item_rule);
    let f = |i: ItemView| of_item(i);
    let q = |w: Seq<u8>| response::item_value_rule(w);
    lemma_words_quiet();
    lemma_binary_items_traced();
    lemma_never_traced(f);
    assert forall|w: Seq<u8>| sp::traced(#[trigger] q(w), f) by {
        if let Some(n) = fetch::plain_item_of(w) {
            lemma_plain_item_traced(n);
        }
    }
    sp::lemma_chain_traced(fetch::item_word_rule(), q, f);
}

// -------------------------------------------------------------------- responses

proof fn lemma_sequences_quiet()
    ensures
        sp::quiet(sequence::sequence_set_rule()),
{
    broadcast use sp::group_quiet;

    reveal(sequence::seq_number_rule);
    reveal(sequence::sequence_rule);
    reveal(sequence::sequence_set_rule);
    sp::lemma_marks_quiet();
    lemma_numbers_quiet();
}

proof fn lemma_status_name_quiet(n: StatusDataItemName)
    ensures
        sp::quiet(status::name_rule(n)),
{
    reveal_strlit("MESSAGES");
    reveal_strlit("RECENT");
    reveal_strlit("UIDNEXT");
    reveal_strlit("UIDVALIDITY");
    reveal_strlit("UNSEEN");
    reveal_strlit("DELETED");
    reveal_strlit("DELETED-STORAGE");
    reveal_strlit("SIZE");
    reveal_strlit("HIGHESTMODSEQ");
    assert(sp::no_line_feed(status::status_text(n)));
    sp::lemma_tag_no_case_quiet(status::status_text(n));
    sp::lemma_value_quiet(n, g::tag_no_case_rule(status::status_text(n)));
}

proof fn lemma_status_item_quiet()
    ensures
        sp::quiet(response::status_item_rule()),
{
    broadcast use sp::group_quiet;

    reveal(status::status_att_rule);
    reveal(response::status_item_rule);
    sp::lemma_marks_quiet();
    lemma_numbers_quiet();
    lemma_status_name_quiet(StatusDataItemName::Messages);
    lemma_status_name_quiet(StatusDataItemName::Recent);
    lemma_status_name_quiet(StatusDataItemName::UidNext);
    lemma_status_name_quiet(StatusDataItemName::UidValidity);
    lemma_status_name_quiet(StatusDataItemName::Unseen);
    lemma_status_name_quiet(StatusDataItemName::Deleted);
    lemma_status_name_quiet(StatusDataItemName::DeletedStorage);
    lemma_status_name_quiet(StatusDataItemName::Size);
    lemma_status_name_quiet(StatusDataItemName::HighestModSeq);
}

proof fn lemma_resp_text_quiet()
    ensures
        sp::quiet(response::resp_text_rule()),
        sp::quiet(response::status_body_rule()),
{
    broadcast use sp::group_quiet;

    reveal(response::resp_text_code_rule);
    reveal(response::text_rule);
    reveal(response::resp_text_rule);
    reveal(response::status_body_rule);
    reveal_strlit("OK");
    reveal_strlit("NO");
    reveal_strlit("BAD");
    sp::lemma_marks_quiet();
    sp::lemma_tag_no_case_quiet(ascii::bytes_of("OK"));
    sp::lemma_tag_no_case_quiet(ascii::bytes_of("NO"));
    sp::lemma_tag_no_case_quiet(ascii::bytes_of("BAD"));
    lemma_numbers_quiet();
    lemma_words_quiet();
    lemma_sequences_quiet();
    let q = |w: Seq<u8>| response::code_arguments_rule(w);
    assert forall|w: Seq<u8>| sp::quiet(#[trigger] q(w)) by {}
}

/// What holds no literals in a response.
proof fn lemma_plain_data_quiet()
    ensures
        sp::quiet(args::sp(response::resp_text_rule())),
        sp::quiet(response::atoms_rule()),
        sp::quiet(answers::search_data_rule()),
        sp::quiet(args::sp(flag::flag_list_rule())),
        sp::quiet(g::repeated(g::text(" "), strings::atom_rule())),
        sp::quiet(
            g::pair(g::opt(g::word(" (EARLIER)")), args::sp(sequence::sequence_set_rule())),
        ),
        sp::quiet(args::sp(g::paren_list0(response::status_item_rule()))),
{
    broadcast use sp::group_quiet;

    reveal(modseq::search_sort_mod_seq_rule);
    reveal_strlit(" (EARLIER)");
    reveal_strlit("MODSEQ ");
    sp::lemma_marks_quiet();
    sp::lemma_tag_no_case_quiet(ascii::bytes_of(" (EARLIER)"));
    sp::lemma_tag_no_case_quiet(ascii::bytes_of("MODSEQ "));
    lemma_numbers_quiet();
    lemma_words_quiet();
    lemma_sequences_quiet();
    lemma_resp_text_quiet();
    lemma_status_item_quiet();
}

proof fn lemma_status_data_traced()
    ensures
        sp::traced(
            response::data_arguments_rule(DataName::Status),
            |r: ResponseView| literal_payloads(r),
        ),
{
    let f = |r: ResponseView| literal_payloads(r);
    let fm = |m: MailboxView| of_mailbox(m);
    let none = |v: Seq<StatusDataItem>| Seq::<Seq<u8>>::empty();
    sp::lemma_marks_quiet();
    lemma_plain_data_quiet();
    lemma_mailbox_traced();
    let name = args::sp(mailbox::mailbox_rule());
    let items = args::sp(g::paren_list0(response::status_item_rule()));
    sp::lemma_preceded_traced(g::text(" "), mailbox::mailbox_rule(), fm);
    sp::lemma_quiet_traced(items, none);
    let f1 = |p: (MailboxView, Seq<StatusDataItem>)| of_mailbox(p.0);
    assert forall|a: MailboxView, b: Seq<StatusDataItem>| f1((a, b)) == #[trigger] fm(a)
        + #[trigger] none(b) by {
        assert(f1((a, b)) =~= fm(a) + none(b));
    }
    sp::lemma_pair_traced(name, items, fm, none, f1);
    sp::lemma_mapped_traced(
        g::pair(name, items),
        |p: (MailboxView, Seq<StatusDataItem>)|
            ResponseView::Data(DataView::Status { mailbox: p.0, items: p.1 }),
        f1,
        f,
    );
}

proof fn lemma_thread_quiet(depth: nat)
    ensures
        sp::quiet(threads::thread_rule(depth)),
    decreases depth,
{
    broadcast use sp::group_quiet;

    reveal_with_fuel(threads::thread_rule, 1);
    sp::lemma_marks_quiet();
    lemma_numbers_quiet();
    if depth > 0 {
        lemma_thread_quiet((depth - 1) as nat);
    }
}

proof fn lemma_plain_answers_quiet()
    ensures
        sp::quiet(threads::threads_rule()),
        sp::quiet(answers::quota_get_rule()),
{
    broadcast use sp::group_quiet;

    reveal(threads::threads_rule);
    reveal(answers::quota_get_rule);
    sp::lemma_marks_quiet();
    lemma_numbers_quiet();
    lemma_words_quiet();
    lemma_thread_quiet(threads::THREAD_DEPTH as nat);
}

proof fn lemma_fields_traced()
    ensures
        sp::traced(command::id_field_rule(), |f: IdFieldView| of_id_field(f)),
        sp::traced(command::entry_value_rule(), |e: EntryValueView| of_entry_value(e)),
{
    reveal(command::id_field_rule);
    reveal(command::entry_value_rule);
    let fs = |s: StringView| of_string(s);
    let fo = |s: Option<StringView>| of_optional(s);
    let fb = |v: NString8View| of_binary(v);
    let fp = |p: (StringView, Option<StringView>)| of_string(p.0) + of_optional(p.1);
    let fq = |p: (StringView, NString8View)| of_string(p.0) + of_binary(p.1);
    lemma_strings_traced();
    lemma_nstring8_traced();
    shapes::lemma_two_traced(strings::string_rule(), strings::nstring_rule(), fs, fo, fp);
    shapes::lemma_two_traced(strings::astring_rule(), response::nstring8_rule(), fs, fb, fq);
    sp::lemma_mapped_traced(
        shapes::two(strings::string_rule(), strings::nstring_rule()),
        |p: (StringView, Option<StringView>)| IdFieldView { name: p.0, value: p.1 },
        fp,
        |f: IdFieldView| of_id_field(f),
    );
    sp::lemma_mapped_traced(
        shapes::two(strings::astring_rule(), response::nstring8_rule()),
        |p: (StringView, NString8View)| EntryValueView { entry: p.0, value: p.1 },
        fq,
        |e: EntryValueView| of_entry_value(e),
    );
}

proof fn lemma_id_traced()
    ensures
        sp::traced(
            command::id_rule(),
            |v: Option<Seq<IdFieldView>>| of_answer(AnswerView::Id { parameters: v }),
        ),
{
    let f = |f: IdFieldView| of_id_field(f);
    let fs = |v: Seq<IdFieldView>| sp::gathered(v, f);
    let fo = |v: Option<Seq<IdFieldView>>| of_answer(AnswerView::Id { parameters: v });
    lemma_fields_traced();
    sp::lemma_paren_lists_traced(command::id_field_rule(), f, fs);
    sp::lemma_mapped_traced(
        g::paren_list0(command::id_field_rule()),
        |v: Seq<IdFieldView>| Some(v),
        fs,
        fo,
    );
    shapes::lemma_nil_traced(None::<Seq<IdFieldView>>, fo);
    sp::lemma_alt_traced(
        g::mapped(
            g::paren_list0(command::id_field_rule()),
            |v: Seq<IdFieldView>| Some(v),
        ),
        shapes::nil(None::<Seq<IdFieldView>>),
        fo,
    );
}

proof fn lemma_quota_traced()
    ensures
        sp::traced(answers::answer_rule(AnswerName::Quota), |a: AnswerView| of_answer(a)),
{
    let fs = |s: StringView| of_string(s);
    let none = |v: Seq<QuotaGetView>| Seq::<Seq<u8>>::empty();
    let fp = |p: (StringView, Seq<QuotaGetView>)| of_string(p.0);
    let list = g::paren_list1(answers::quota_get_rule());
    let whole = shapes::two(strings::astring_rule(), list);
    lemma_strings_traced();
    lemma_plain_answers_quiet();
    sp::lemma_marks_quiet();
    assert(sp::quiet(list)) by {
        broadcast use sp::group_quiet;

    }
    sp::lemma_quiet_traced(list, none);
    assert forall|a: StringView, b: Seq<QuotaGetView>|
        fp((a, b)) == #[trigger] fs(a) + #[trigger] none(b) by {
        assert(fs(a) + none(b) =~= fs(a));
    }
    shapes::lemma_two_traced(strings::astring_rule(), list, fs, none, fp);
    sp::lemma_preceded_traced(g::text(" "), whole, fp);
    sp::lemma_mapped_traced(
        args::sp(whole),
        |p: (StringView, Seq<QuotaGetView>)| AnswerView::Quota { root: p.0, quotas: p.1 },
        fp,
        |a: AnswerView| of_answer(a),
    );
}

proof fn lemma_quota_root_traced()
    ensures
        sp::traced(answers::answer_rule(AnswerName::QuotaRoot), |a: AnswerView| of_answer(a)),
{
    let fs = |s: StringView| of_string(s);
    let fl = |v: Seq<StringView>| of_strings(v);
    let fm = |m: MailboxView| of_mailbox(m);
    let fp = |p: (MailboxView, Seq<StringView>)| of_mailbox(p.0) + of_strings(p.1);
    let first = args::sp(mailbox::mailbox_rule());
    let rest = g::repeated(g::text(" "), strings::astring_rule());
    lemma_strings_traced();
    lemma_mailbox_traced();
    sp::lemma_marks_quiet();
    sp::lemma_repeated_traced(g::text(" "), strings::astring_rule(), fs, fl);
    sp::lemma_preceded_traced(g::text(" "), mailbox::mailbox_rule(), fm);
    sp::lemma_pair_traced(first, rest, fm, fl, fp);
    sp::lemma_mapped_traced(
        g::pair(first, rest),
        |p: (MailboxView, Seq<StringView>)| AnswerView::QuotaRoot { mailbox: p.0, roots: p.1 },
        fp,
        |a: AnswerView| of_answer(a),
    );
}

proof fn lemma_metadata_items_traced()
    ensures
        sp::traced(answers::metadata_items_rule(), |v: MetadataItemsView| of_metadata_items(v)),
{
    reveal(answers::metadata_items_rule);
    let f = |v: MetadataItemsView| of_metadata_items(v);
    let fe = |e: EntryValueView| of_entry_value(e);
    let fv = |v: Seq<EntryValueView>| sp::gathered(v, fe);
    let fs = |s: StringView| of_string(s);
    let fl = |v: Seq<StringView>| of_strings(v);
    let list = g::separated_list1(g::text(" "), strings::astring_rule());
    lemma_strings_traced();
    lemma_fields_traced();
    sp::lemma_marks_quiet();
    sp::lemma_paren_lists_traced(command::entry_value_rule(), fe, fv);
    sp::lemma_separated_list1_traced(g::text(" "), strings::astring_rule(), fs, fl);
    sp::lemma_mapped_traced(
        g::paren_list1(command::entry_value_rule()),
        |v: Seq<EntryValueView>| MetadataItemsView::WithValues(v),
        fv,
        f,
    );
    sp::lemma_mapped_traced(
        list,
        |v: Seq<StringView>| MetadataItemsView::WithoutValues(v),
        fl,
        f,
    );
    sp::lemma_alt_traced(
        g::mapped(
            g::paren_list1(command::entry_value_rule()),
            |v: Seq<EntryValueView>| MetadataItemsView::WithValues(v),
        ),
        g::mapped(list, |v: Seq<StringView>| MetadataItemsView::WithoutValues(v)),
        f,
    );
}

proof fn lemma_metadata_traced()
    ensures
        sp::traced(answers::answer_rule(AnswerName::Metadata), |a: AnswerView| of_answer(a)),
{
    let fm = |m: MailboxView| of_mailbox(m);
    let fi = |v: MetadataItemsView| of_metadata_items(v);
    let fp = |p: (MailboxView, MetadataItemsView)| of_mailbox(p.0) + of_metadata_items(p.1);
    let whole = shapes::two(mailbox::mailbox_rule(), answers::metadata_items_rule());
    lemma_mailbox_traced();
    lemma_metadata_items_traced();
    sp::lemma_marks_quiet();
    shapes::lemma_two_traced(
        mailbox::mailbox_rule(),
        answers::metadata_items_rule(),
        fm,
        fi,
        fp,
    );
    sp::lemma_preceded_traced(g::text(" "), whole, fp);
    sp::lemma_mapped_traced(
        args::sp(whole),
        |p: (MailboxView, MetadataItemsView)| AnswerView::Metadata { mailbox: p.0, items: p.1 },
        fp,
        |a: AnswerView| of_answer(a),
    );
}

proof fn lemma_namespace_extension_traced()
    ensures
        sp::traced(
            answers::namespace_extension_rule(),
            |e: NamespaceExtensionView| of_namespace_extension(e),
        ),
{
    reveal(answers::namespace_extension_rule);
    let fs = |s: StringView| of_string(s);
    let fl = |v: Seq<StringView>| of_strings(v);
    let fp = |p: (StringView, Seq<StringView>)| of_string(p.0) + of_strings(p.1);
    let p = strings::string_rule();
    lemma_strings_traced();
    sp::lemma_paren_lists_traced(p, fs, fl);
    shapes::lemma_two_traced(p, g::paren_list1(p), fs, fl, fp);
    sp::lemma_mapped_traced(
        shapes::two(p, g::paren_list1(p)),
        |p: (StringView, Seq<StringView>)| NamespaceExtensionView { name: p.0, values: p.1 },
        fp,
        |e: NamespaceExtensionView| of_namespace_extension(e),
    );
}

proof fn lemma_namespaces_traced()
    ensures
        sp::traced(answers::namespaces_rule(), |v: Seq<NamespaceView>| of_namespaces(v)),
{
    reveal(answers::namespace_rule);
    reveal(answers::namespaces_rule);
    let fs = |s: StringView| of_string(s);
    let none = |d: Option<u8>| Seq::<Seq<u8>>::empty();
    let ff = |p: (StringView, Option<u8>)| of_string(p.0);
    let fe = |e: NamespaceExtensionView| of_namespace_extension(e);
    let fl = |v: Seq<NamespaceExtensionView>| sp::gathered(v, fe);
    let fp = |p: ((StringView, Option<u8>), Seq<NamespaceExtensionView>)|
        of_string(p.0.0) + sp::gathered(p.1, fe);
    let fn1 = |n: NamespaceView| of_namespace(n);
    let f = |v: Seq<NamespaceView>| of_namespaces(v);
    let first = shapes::two(strings::string_rule(), mailbox::delimiter_rule());
    let rest = g::repeated(g::text(" "), answers::namespace_extension_rule());
    lemma_strings_traced();
    lemma_delimiter_quiet();
    lemma_namespace_extension_traced();
    sp::lemma_marks_quiet();
    sp::lemma_quiet_traced(mailbox::delimiter_rule(), none);
    assert forall|a: StringView, b: Option<u8>|
        ff((a, b)) == #[trigger] fs(a) + #[trigger] none(b) by {
        assert(fs(a) + none(b) =~= fs(a));
    }
    shapes::lemma_two_traced(strings::string_rule(), mailbox::delimiter_rule(), fs, none, ff);
    sp::lemma_repeated_traced(g::text(" "), answers::namespace_extension_rule(), fe, fl);
    sp::lemma_pair_traced(first, rest, ff, fl, fp);
    shapes::lemma_enclosed_traced(g::pair(first, rest), fp);
    sp::lemma_mapped_traced(
        shapes::closing(g::pair(first, rest)),
        |p: ((StringView, Option<u8>), Seq<NamespaceExtensionView>)|
            NamespaceView { prefix: p.0.0, delimiter: p.0.1, extensions: p.1 },
        fp,
        fn1,
    );
    shapes::lemma_row_traced(answers::namespace_rule(), fn1, f);
    shapes::lemma_enclosed_traced(shapes::row(answers::namespace_rule()), f);
    let nothing = Seq::<NamespaceView>::empty();
    shapes::lemma_nil_traced(nothing, f);
    sp::lemma_alt_traced(
        shapes::enclosed(shapes::row(answers::namespace_rule())),
        shapes::nil(nothing),
        f,
    );
}

proof fn lemma_namespace_answer_traced()
    ensures
        sp::traced(answers::answer_rule(AnswerName::Namespace), |a: AnswerView| of_answer(a)),
{
    let f = |v: Seq<NamespaceView>| of_namespaces(v);
    let f2 = |p: (Seq<NamespaceView>, Seq<NamespaceView>)| of_namespaces(p.0) + of_namespaces(p.1);
    let f3 = |p: (Seq<NamespaceView>, (Seq<NamespaceView>, Seq<NamespaceView>))|
        of_namespaces(p.0) + (of_namespaces(p.1.0) + of_namespaces(p.1.1));
    let p = answers::namespaces_rule();
    let whole = shapes::two(p, shapes::two(p, p));
    lemma_namespaces_traced();
    sp::lemma_marks_quiet();
    shapes::lemma_two_traced(p, p, f, f, f2);
    shapes::lemma_two_traced(p, shapes::two(p, p), f, f2, f3);
    sp::lemma_preceded_traced(g::text(" "), whole, f3);
    sp::lemma_mapped_traced(
        args::sp(whole),
        |p: (Seq<NamespaceView>, (Seq<NamespaceView>, Seq<NamespaceView>))|
            AnswerView::Namespace { personal: p.0, other: p.1.0, shared: p.1.1 },
        f3,
        |a: AnswerView| of_answer(a),
    );
}

proof fn lemma_answer_traced(n: AnswerName)
    ensures
        sp::traced(answers::answer_rule(n), |a: AnswerView| of_answer(a)),
{
    let f = |a: AnswerView| of_answer(a);
    match n {
        AnswerName::Sort => {
            lemma_plain_data_quiet();
            sp::lemma_quiet_mapped_traced(
                answers::search_data_rule(),
                |p: (Seq<u32>, Option<u64>)| AnswerView::Sort(p.0, p.1),
                f,
            );
        },
        AnswerName::Thread => {
            lemma_plain_answers_quiet();
            sp::lemma_quiet_mapped_traced(
                threads::threads_rule(),
                |v: Seq<ThreadView>| AnswerView::Thread(v),
                f,
            );
        },
        AnswerName::Quota => lemma_quota_traced(),
        AnswerName::QuotaRoot => lemma_quota_root_traced(),
        AnswerName::Id => {
            let fo = |v: Option<Seq<IdFieldView>>| of_answer(AnswerView::Id { parameters: v });
            lemma_id_traced();
            sp::lemma_marks_quiet();
            sp::lemma_preceded_traced(g::text(" "), command::id_rule(), fo);
            sp::lemma_mapped_traced(
                args::sp(command::id_rule()),
                |v: Option<Seq<IdFieldView>>| AnswerView::Id { parameters: v },
                fo,
                f,
            );
        },
        AnswerName::Metadata => lemma_metadata_traced(),
        AnswerName::Namespace => lemma_namespace_answer_traced(),
    }
}

proof fn lemma_data_arguments_traced(n: DataName)
    ensures
        sp::traced(response::data_arguments_rule(n), |r: ResponseView| literal_payloads(r)),
{
    let f = |r: ResponseView| literal_payloads(r);
    let fm = |p: MailboxListView| of_mailbox(p.2);
    lemma_plain_data_quiet();
    match n {
        DataName::Okay => {
            sp::lemma_quiet_mapped_traced(
                args::sp(response::resp_text_rule()),
                |x: RespTextView|
                    ResponseView::Status(
                        StatusView::Untagged(response::status_body_of(StatusKind::Okay, x)),
                    ),
                f,
            );
        },
        DataName::No => {
            sp::lemma_quiet_mapped_traced(
                args::sp(response::resp_text_rule()),
                |x: RespTextView|
                    ResponseView::Status(
                        StatusView::Untagged(response::status_body_of(StatusKind::No, x)),
                    ),
                f,
            );
        },
        DataName::Bad => {
            sp::lemma_quiet_mapped_traced(
                args::sp(response::resp_text_rule()),
                |x: RespTextView|
                    ResponseView::Status(
                        StatusView::Untagged(response::status_body_of(StatusKind::Bad, x)),
                    ),
                f,
            );
        },
        DataName::Bye => {
            sp::lemma_quiet_mapped_traced(
                args::sp(response::resp_text_rule()),
                |x: RespTextView| ResponseView::Status(StatusView::Bye(x)),
                f,
            );
        },
        DataName::Capability => {
            sp::lemma_quiet_mapped_traced(
                response::atoms_rule(),
                |v: Seq<Seq<u8>>| ResponseView::Data(DataView::Capability(v)),
                f,
            );
        },
        DataName::List => {
            sp::lemma_marks_quiet();
            lemma_mailbox_list_traced();
            sp::lemma_preceded_traced(g::text(" "), mailbox::mailbox_list_rule(), fm);
            sp::lemma_mapped_traced(
                args::sp(mailbox::mailbox_list_rule()),
                |p: MailboxListView|
                    ResponseView::Data(
                        DataView::List { items: p.0, delimiter: p.1, mailbox: p.2 },
                    ),
                fm,
                f,
            );
        },
        DataName::Lsub => {
            sp::lemma_marks_quiet();
            lemma_mailbox_list_traced();
            sp::lemma_preceded_traced(g::text(" "), mailbox::mailbox_list_rule(), fm);
            sp::lemma_mapped_traced(
                args::sp(mailbox::mailbox_list_rule()),
                |p: MailboxListView|
                    ResponseView::Data(
                        DataView::Lsub { items: p.0, delimiter: p.1, mailbox: p.2 },
                    ),
                fm,
                f,
            );
        },
        DataName::Status => {
            lemma_status_data_traced();
        },
        DataName::Search => {
            sp::lemma_quiet_mapped_traced(
                answers::search_data_rule(),
                |p: (Seq<u32>, Option<u64>)| ResponseView::Data(DataView::Search(p.0, p.1)),
                f,
            );
        },
        DataName::Flags => {
            sp::lemma_quiet_mapped_traced(
                args::sp(flag::flag_list_rule()),
                |v: Seq<FlagView>| ResponseView::Data(DataView::Flags(v)),
                f,
            );
        },
        DataName::Enabled => {
            sp::lemma_quiet_mapped_traced(
                g::repeated(g::text(" "), strings::atom_rule()),
                |v: Seq<Seq<u8>>| ResponseView::Data(DataView::Enabled { capabilities: v }),
                f,
            );
        },
        DataName::Vanished => {
            sp::lemma_quiet_mapped_traced(
                g::pair(g::opt(g::word(" (EARLIER)")), args::sp(sequence::sequence_set_rule())),
                |p: (Option<()>, Seq<Sequence>)|
                    ResponseView::Data(
                        DataView::Vanished { earlier: p.0 is Some, known_uids: p.1 },
                    ),
                f,
            );
        },
        DataName::Answer(k) => {
            lemma_answer_traced(k);
            sp::lemma_mapped_traced(
                answers::answer_rule(k),
                |a: AnswerView| ResponseView::Data(DataView::Answer(a)),
                |a: AnswerView| of_answer(a),
                f,
            );
        },
    }
}

/// A word that stands for a response without literals.
proof fn lemma_word_traced(v: ResponseView, p: Rule<()>)
    requires
        sp::quiet(p),
        literal_payloads(v) == Seq::<Seq<u8>>::empty(),
    ensures
        sp::traced(g::value(v, p), |r: ResponseView| literal_payloads(r)),
{
    sp::lemma_quiet_mapped_traced(p, |a: ()| v, |r: ResponseView| literal_payloads(r));
}

proof fn lemma_fetch_traced(n: u32)
    ensures
        sp::traced(
            g::mapped(
                g::preceded(g::word("FETCH "), g::paren_list1(response::item_rule())),
                |v: Seq<ItemView>| ResponseView::Data(DataView::Fetch { seq: n, items: v }),
            ),
            |r: ResponseView| literal_payloads(r),
        ),
{
    let f = |r: ResponseView| literal_payloads(r);
    let fi = |i: ItemView| of_item(i);
    let fs = |v: Seq<ItemView>| sp::gathered(v, fi);
    reveal_strlit("FETCH ");
    sp::lemma_tag_no_case_quiet(ascii::bytes_of("FETCH "));
    lemma_item_traced();
    sp::lemma_paren_lists_traced(response::item_rule(), fi, fs);
    sp::lemma_preceded_traced(g::word("FETCH "), g::paren_list1(response::item_rule()), fs);
    sp::lemma_mapped_traced(
        g::preceded(g::word("FETCH "), g::paren_list1(response::item_rule())),
        |v: Seq<ItemView>| ResponseView::Data(DataView::Fetch { seq: n, items: v }),
        fs,
        f,
    );
}

proof fn lemma_numbered_traced(n: u32)
    ensures
        sp::traced(response::numbered_rule(n), |r: ResponseView| literal_payloads(r)),
{
    let f = |r: ResponseView| literal_payloads(r);
    reveal_strlit("EXISTS");
    reveal_strlit("RECENT");
    reveal_strlit("EXPUNGE");
    sp::lemma_tag_no_case_quiet(ascii::bytes_of("EXISTS"));
    sp::lemma_tag_no_case_quiet(ascii::bytes_of("RECENT"));
    sp::lemma_tag_no_case_quiet(ascii::bytes_of("EXPUNGE"));
    let exists_rule = g::value(ResponseView::Data(DataView::Exists(n)), g::word("EXISTS"));
    let recent_rule = g::value(ResponseView::Data(DataView::Recent(n)), g::word("RECENT"));
    let expunge_rule = g::value(ResponseView::Data(DataView::Expunge(n)), g::word("EXPUNGE"));
    let fetch_rule = g::mapped(
        g::preceded(g::word("FETCH "), g::paren_list1(response::item_rule())),
        |v: Seq<ItemView>| ResponseView::Data(DataView::Fetch { seq: n, items: v }),
    );
    lemma_word_traced(ResponseView::Data(DataView::Exists(n)), g::word("EXISTS"));
    lemma_word_traced(ResponseView::Data(DataView::Recent(n)), g::word("RECENT"));
    lemma_word_traced(ResponseView::Data(DataView::Expunge(n)), g::word("EXPUNGE"));
    lemma_fetch_traced(n);
    lemma_never_traced(f);
    sp::lemma_alt_traced(expunge_rule, fetch_rule, f);
    let last = if n == 0 {
        g::never()
    } else {
        g::alt(expunge_rule, fetch_rule)
    };
    sp::lemma_alt_traced(recent_rule, last, f);
    sp::lemma_alt_traced(exists_rule, g::alt(recent_rule, last), f);
}

proof fn lemma_untagged_traced()
    ensures
        sp::traced(response::untagged_rule(), |r: ResponseView| literal_payloads(r)),
{
    reveal(response::untagged_rule);
    let f = |r: ResponseView| literal_payloads(r);
    let fd = |d: DataView| of_data(d);
    sp::lemma_marks_quiet();
    lemma_numbers_quiet();
    lemma_words_quiet();
    let number = g::terminated(number::number_rule(), g::text(" "));
    sp::lemma_terminated_quiet(number::number_rule(), g::text(" "));
    let q = |n: u32| response::numbered_rule(n);
    assert forall|n: u32| sp::traced(#[trigger] q(n), f) by {
        lemma_numbered_traced(n);
    }
    sp::lemma_chain_traced(number, q, f);
    let data = |d: DataView| ResponseView::Data(d);
    lemma_list_data_traced();
    lemma_esearch_traced();
    sp::lemma_mapped_traced(ext::list_data_rule(), data, fd, f);
    sp::lemma_mapped_traced(ext::esearch_rule(), data, fd, f);
    let h = |w: Seq<u8>| response::named_data_rule(w);
    lemma_never_traced(f);
    assert forall|w: Seq<u8>| sp::traced(#[trigger] h(w), f) by {
        if let Some(n) = response::data_name_of(w) {
            lemma_data_arguments_traced(n);
        }
    }
    sp::lemma_chain_traced(date::letters_rule(), h, f);
    let named = g::chain(date::letters_rule(), h);
    let searched = g::mapped(ext::esearch_rule(), data);
    let listed = g::mapped(ext::list_data_rule(), data);
    sp::lemma_alt_traced(searched, named, f);
    sp::lemma_alt_traced(listed, g::alt(searched, named), f);
    sp::lemma_alt_traced(g::chain(number, q), g::alt(listed, g::alt(searched, named)), f);
}

/// What was read ends with a line end, and the value holds the literals before.
pub open spec fn closes(o: Outcome<ResponseView>, s: Seq<u8>) -> bool {
    match o {
        Outcome::Done(r, v) => {
            let c = sp::front(s, r);
            &&& g::is_rest(o, s)
            &&& c.len() >= 2
            &&& sp::holds_literals(c.take(c.len() - 2), literal_payloads(v))
        },
        _ => true,
    }
}

proof fn lemma_line_closes(s: Seq<u8>, r: Seq<u8>, v: ResponseView)
    requires
        r.len() <= s.len(),
        r == s.skip(s.len() - r.len()),
        sp::holds_literals(sp::front(s, r), literal_payloads(v)),
    ensures
        g::text("\r\n")(r) matches Outcome::Done(r2, _) ==> closes(Outcome::Done(r2, v), s),
{
    reveal_strlit("\r\n");
    if let Outcome::Done(r2, _) = g::text("\r\n")(r) {
        let c = sp::front(s, r2);
        assert(r2 =~= s.skip(s.len() - r2.len()));
        assert(c.take(c.len() - 2) =~= sp::front(s, r));
    }
}

/// The literals that a response holds are those of the text that was read.
pub proof fn lemma_response_closes(s: Seq<u8>)
    ensures
        closes(response::response_rule()(s), s),
{
    let f = |r: ResponseView| literal_payloads(r);
    let o = response::response_rule()(s);
    if let Outcome::Done(rest, v) = o {
        reveal(response::response_rule);
        reveal_strlit("+ ");
        reveal_strlit("* ");
        sp::lemma_marks_quiet();
        lemma_resp_text_quiet();
        lemma_untagged_traced();
        let end = g::text("\r\n");
        let plus = g::text("+ ");
        let star = g::text("* ");
        sp::lemma_tag_quiet(ascii::bytes_of("+ "));
        sp::lemma_tag_quiet(ascii::bytes_of("* "));
        let request = |x: RespTextView| ResponseView::CommandContinuationRequest(x);
        let p1 = g::mapped(g::preceded(plus, response::resp_text_rule()), request);
        sp::lemma_preceded_quiet(plus, response::resp_text_rule());
        sp::lemma_quiet_mapped_traced(g::preceded(plus, response::resp_text_rule()), request, f);
        let p2 = g::preceded(star, response::untagged_rule());
        sp::lemma_preceded_traced(star, response::untagged_rule(), f);
        let tag = g::terminated(
            g::take_while1_rule(|b: u8| ascii::is_tag_char(b)),
            g::text(" "),
        );
        sp::lemma_take_while1_quiet(|b: u8| ascii::is_tag_char(b));
        sp::lemma_terminated_quiet(
            g::take_while1_rule(|b: u8| ascii::is_tag_char(b)),
            g::text(" "),
        );
        sp::lemma_pair_quiet(tag, response::status_body_rule());
        let tagged = |p: (Seq<u8>, StatusBodyView)|
            ResponseView::Status(StatusView::Tagged { tag: p.0, body: p.1 });
        let p3 = g::mapped(g::pair(tag, response::status_body_rule()), tagged);
        sp::lemma_quiet_mapped_traced(g::pair(tag, response::status_body_rule()), tagged, f);
        assert(sp::carries(p1(s), s, f));
        assert(sp::carries(p2(s), s, f));
        assert(sp::carries(p3(s), s, f));
        if let Outcome::Done(r, x) = p1(s) {
            lemma_line_closes(s, r, x);
        }
        if let Outcome::Done(r, x) = p2(s) {
            lemma_line_closes(s, r, x);
        }
        if let Outcome::Done(r, x) = p3(s) {
            lemma_line_closes(s, r, x);
        }
    }
}

/// A response that was read from a whole text holds the literals of the text,
/// from left to right, and no others.
pub proof fn law_response_holds_its_literals(text: Seq<u8>, literals: Seq<Seq<u8>>)
    requires
        response::response_rule()(text) is Done,
        response::response_rule()(text)->Done_0.len() == 0,
        text.len() >= 2,
        sp::spelled(text.take(text.len() - 2), literals),
        sp::none_is_inbox(literals),
    ensures
        literal_payloads(response::response_rule()(text)->Done_1) == literals,
{
    lemma_response_closes(text);
    let rest = response::response_rule()(text)->Done_0;
    let v = response::response_rule()(text)->Done_1;
    assert(sp::front(text, rest) =~= text);
    let c = text.take(text.len() - 2);
    let k = choose|k: Seq<Seq<u8>>| #[trigger]
        sp::spelled(c, k) && (sp::none_is_inbox(k) ==> literal_payloads(v) == k);
    sp::lemma_spelled_once(c, k, literals);
}

} // verus!
