//! Untagged responses of extensions.
use vstd::prelude::*;

use crate::arguments as args;
use crate::arguments::{write_argument, write_list};
use crate::ascii;
use crate::command;
use crate::command::{entry_value, id_fields, write_id, EntryValue, EntryValueView, IdField, IdFieldView};
use crate::encode;
use crate::encode::{
    join_serializable, write_parens, write_spread, EncodeContext, EncodeIntoContext, Token,
};
use crate::extensions::condstore_qresync as modseq;
use crate::extensions::condstore_qresync::search_sort_mod_seq;
use crate::extensions::rev2 as ext;
use crate::extensions::rev2::{number63, NUMBER63_MAX};
use crate::grammar as g;
use crate::grammar::{
    list1, parens1, repeat, tag, tag_no_case, IMAPParseError, IMAPResult, Outcome, Rule,
};
use crate::mailbox;
use crate::mailbox::{delimiter, mailbox, write_delimiter, Mailbox, MailboxView, QuotedChar};
use crate::number;
use crate::number::{nz_number, write_number};
use crate::reading;
use crate::shapes;
use crate::strings;
use crate::strings::{astring, atom, string, AString, Atom, IString, StringView};
use crate::threads;
use crate::threads::{threads, write_threads, Thread, ThreadView};

verus! {

/// How much of a resource is used, and how much may be.
#[derive(Debug, PartialEq, Eq, Hash)]
pub struct QuotaGet {
    pub resource: Atom,
    pub usage: u64,
    pub limit: u64,
}

pub struct QuotaGetView {
    pub resource: Seq<u8>,
    pub usage: u64,
    pub limit: u64,
}

impl DeepView for QuotaGet {
    type V = QuotaGetView;

    open spec fn deep_view(&self) -> QuotaGetView {
        QuotaGetView { resource: self.resource.deep_view(), usage: self.usage, limit: self.limit }
    }
}

/// The entries of a METADATA response.
#[derive(Debug, PartialEq, Eq, Hash)]
pub enum MetadataItems {
    WithValues(Vec<EntryValue>),
    WithoutValues(Vec<AString>),
}

pub enum MetadataItemsView {
    WithValues(Seq<EntryValueView>),
    WithoutValues(Seq<StringView>),
}

impl DeepView for MetadataItems {
    type V = MetadataItemsView;

    open spec fn deep_view(&self) -> MetadataItemsView {
        match self {
            MetadataItems::WithValues(v) => MetadataItemsView::WithValues(v.deep_view()),
            MetadataItems::WithoutValues(v) => MetadataItemsView::WithoutValues(v.deep_view()),
        }
    }
}

/// An extension of a namespace: its name and its values.
#[derive(Debug, PartialEq, Eq, Hash)]
pub struct NamespaceExtension {
    pub name: IString,
    pub values: Vec<IString>,
}

pub struct NamespaceExtensionView {
    pub name: StringView,
    pub values: Seq<StringView>,
}

impl DeepView for NamespaceExtension {
    type V = NamespaceExtensionView;

    open spec fn deep_view(&self) -> NamespaceExtensionView {
        NamespaceExtensionView { name: self.name.deep_view(), values: self.values.deep_view() }
    }
}

/// A part of the mailbox hierarchy.
#[derive(Debug, PartialEq, Eq, Hash)]
pub struct Namespace {
    pub prefix: IString,
    pub delimiter: Option<QuotedChar>,
    pub extensions: Vec<NamespaceExtension>,
}

pub struct NamespaceView {
    pub prefix: StringView,
    pub delimiter: Option<u8>,
    pub extensions: Seq<NamespaceExtensionView>,
}

impl DeepView for Namespace {
    type V = NamespaceView;

    open spec fn deep_view(&self) -> NamespaceView {
        NamespaceView {
            prefix: self.prefix.deep_view(),
            delimiter: self.delimiter.deep_view(),
            extensions: self.extensions.deep_view(),
        }
    }
}

/// What a server answers to a command of an extension.
#[derive(Debug, PartialEq, Eq, Hash)]
pub enum Answer {
    /// The numbers found, in their order, and their highest modification
    /// sequence.
    Sort(Vec<u32>, Option<u64>),
    Thread(Vec<Thread>),
    Quota { root: AString, quotas: Vec<QuotaGet> },
    QuotaRoot { mailbox: Mailbox, roots: Vec<AString> },
    Id { parameters: Option<Vec<IdField>> },
    Metadata { mailbox: Mailbox, items: MetadataItems },
    Namespace { personal: Vec<Namespace>, other: Vec<Namespace>, shared: Vec<Namespace> },
}

pub enum AnswerView {
    Sort(Seq<u32>, Option<u64>),
    Thread(Seq<ThreadView>),
    Quota { root: StringView, quotas: Seq<QuotaGetView> },
    QuotaRoot { mailbox: MailboxView, roots: Seq<StringView> },
    Id { parameters: Option<Seq<IdFieldView>> },
    Metadata { mailbox: MailboxView, items: MetadataItemsView },
    Namespace {
        personal: Seq<NamespaceView>,
        other: Seq<NamespaceView>,
        shared: Seq<NamespaceView>,
    },
}

impl DeepView for Answer {
    type V = AnswerView;

    open spec fn deep_view(&self) -> AnswerView {
        match self {
            Answer::Sort(v, n) => AnswerView::Sort(v.deep_view(), *n),
            Answer::Thread(v) => AnswerView::Thread(v.deep_view()),
            Answer::Quota { root, quotas } => AnswerView::Quota {
                root: root.deep_view(),
                quotas: quotas.deep_view(),
            },
            Answer::QuotaRoot { mailbox, roots } => AnswerView::QuotaRoot {
                mailbox: mailbox.deep_view(),
                roots: roots.deep_view(),
            },
            Answer::Id { parameters } => AnswerView::Id { parameters: parameters.deep_view() },
            Answer::Metadata { mailbox, items } => AnswerView::Metadata {
                mailbox: mailbox.deep_view(),
                items: items.deep_view(),
            },
            Answer::Namespace { personal, other, shared } => AnswerView::Namespace {
                personal: personal.deep_view(),
                other: other.deep_view(),
                shared: shared.deep_view(),
            },
        }
    }
}

// ----------------------------------------------------------------------- names

#[derive(Clone, Copy, Debug, PartialEq, Eq, Hash, Structural)]
pub enum AnswerName {
    Sort,
    Thread,
    Quota,
    QuotaRoot,
    Id,
    Metadata,
    Namespace,
}

pub open spec fn answer_name_text(k: AnswerName) -> Seq<u8> {
    match k {
        AnswerName::Sort => ascii::bytes_of("SORT"),
        AnswerName::Thread => ascii::bytes_of("THREAD"),
        AnswerName::Quota => ascii::bytes_of("QUOTA"),
        AnswerName::QuotaRoot => ascii::bytes_of("QUOTAROOT"),
        AnswerName::Id => ascii::bytes_of("ID"),
        AnswerName::Metadata => ascii::bytes_of("METADATA"),
        AnswerName::Namespace => ascii::bytes_of("NAMESPACE"),
    }
}

/// The response of this name.
pub open spec fn answer_name_of(w: Seq<u8>) -> Option<AnswerName> {
    if ascii::same_word(w, ascii::bytes_of("SORT")) {
        Some(AnswerName::Sort)
    } else if ascii::same_word(w, ascii::bytes_of("THREAD")) {
        Some(AnswerName::Thread)
    } else if ascii::same_word(w, ascii::bytes_of("QUOTA")) {
        Some(AnswerName::Quota)
    } else if ascii::same_word(w, ascii::bytes_of("QUOTAROOT")) {
        Some(AnswerName::QuotaRoot)
    } else if ascii::same_word(w, ascii::bytes_of("ID")) {
        Some(AnswerName::Id)
    } else if ascii::same_word(w, ascii::bytes_of("METADATA")) {
        Some(AnswerName::Metadata)
    } else if ascii::same_word(w, ascii::bytes_of("NAMESPACE")) {
        Some(AnswerName::Namespace)
    } else {
        None
    }
}

pub fn find_answer_name(w: &[u8]) -> (r: Option<AnswerName>)
    ensures
        r == answer_name_of(w@),
{
    if ascii::is_word(w, "SORT") {
        Some(AnswerName::Sort)
    } else if ascii::is_word(w, "THREAD") {
        Some(AnswerName::Thread)
    } else if ascii::is_word(w, "QUOTA") {
        Some(AnswerName::Quota)
    } else if ascii::is_word(w, "QUOTAROOT") {
        Some(AnswerName::QuotaRoot)
    } else if ascii::is_word(w, "ID") {
        Some(AnswerName::Id)
    } else if ascii::is_word(w, "METADATA") {
        Some(AnswerName::Metadata)
    } else if ascii::is_word(w, "NAMESPACE") {
        Some(AnswerName::Namespace)
    } else {
        None
    }
}

// ----------------------------------------------------------------------- rules

pub open spec fn search_data_rule() -> Rule<(Seq<u32>, Option<u64>)> {
    g::pair(
        g::repeated(g::text(" "), number::nz_number_rule()),
        g::opt(args::sp(modseq::search_sort_mod_seq_rule())),
    )
}

/// `quota-resource = resource-name SP resource-usage SP resource-limit`.
#[verifier::opaque]
pub open spec fn quota_get_rule() -> Rule<QuotaGetView> {
    g::mapped(
        shapes::two(
            strings::atom_rule(),
            shapes::two(ext::number63_rule(), ext::number63_rule()),
        ),
        |p: (Seq<u8>, (u64, u64))| QuotaGetView { resource: p.0, usage: p.1.0, limit: p.1.1 },
    )
}

/// `entry-values / entry-list`.
#[verifier::opaque]
pub open spec fn metadata_items_rule() -> Rule<MetadataItemsView> {
    g::alt(
        g::mapped(
            g::paren_list1(command::entry_value_rule()),
            |v: Seq<EntryValueView>| MetadataItemsView::WithValues(v),
        ),
        g::mapped(
            g::separated_list1(g::text(" "), strings::astring_rule()),
            |v: Seq<StringView>| MetadataItemsView::WithoutValues(v),
        ),
    )
}

/// `namespace-response-extension = SP string SP "(" string *(SP string) ")"`,
/// behind its space.
#[verifier::opaque]
pub open spec fn namespace_extension_rule() -> Rule<NamespaceExtensionView> {
    g::mapped(
        shapes::two(strings::string_rule(), g::paren_list1(strings::string_rule())),
        |p: (StringView, Seq<StringView>)| NamespaceExtensionView { name: p.0, values: p.1 },
    )
}

/// `"(" string SP (DQUOTE QUOTED-CHAR DQUOTE / nil)
/// [namespace-response-extensions] ")"`, behind the opening parenthesis.
#[verifier::opaque]
pub open spec fn namespace_rule() -> Rule<NamespaceView> {
    g::mapped(
        shapes::closing(
            g::pair(
                shapes::two(strings::string_rule(), mailbox::delimiter_rule()),
                g::repeated(g::text(" "), namespace_extension_rule()),
            ),
        ),
        |p: ((StringView, Option<u8>), Seq<NamespaceExtensionView>)|
            NamespaceView { prefix: p.0.0, delimiter: p.0.1, extensions: p.1 },
    )
}

/// `namespace = nil / "(" 1*namespace-descr ")"`.
#[verifier::opaque]
pub open spec fn namespaces_rule() -> Rule<Seq<NamespaceView>> {
    g::alt(
        shapes::enclosed(shapes::row(namespace_rule())),
        shapes::nil(Seq::<NamespaceView>::empty()),
    )
}

/// What follows the name of the response.
pub open spec fn answer_rule(n: AnswerName) -> Rule<AnswerView> {
    match n {
        AnswerName::Sort => g::mapped(
            search_data_rule(),
            |p: (Seq<u32>, Option<u64>)| AnswerView::Sort(p.0, p.1),
        ),
        AnswerName::Thread => g::mapped(
            threads::threads_rule(),
            |v: Seq<ThreadView>| AnswerView::Thread(v),
        ),
        AnswerName::Quota => g::mapped(
            args::sp(shapes::two(strings::astring_rule(), g::paren_list1(quota_get_rule()))),
            |p: (StringView, Seq<QuotaGetView>)| AnswerView::Quota { root: p.0, quotas: p.1 },
        ),
        AnswerName::QuotaRoot => g::mapped(
            g::pair(
                args::sp(mailbox::mailbox_rule()),
                g::repeated(g::text(" "), strings::astring_rule()),
            ),
            |p: (MailboxView, Seq<StringView>)| AnswerView::QuotaRoot { mailbox: p.0, roots: p.1 },
        ),
        AnswerName::Id => g::mapped(
            args::sp(command::id_rule()),
            |v: Option<Seq<IdFieldView>>| AnswerView::Id { parameters: v },
        ),
        AnswerName::Metadata => g::mapped(
            args::sp(shapes::two(mailbox::mailbox_rule(), metadata_items_rule())),
            |p: (MailboxView, MetadataItemsView)|
                AnswerView::Metadata { mailbox: p.0, items: p.1 },
        ),
        AnswerName::Namespace => g::mapped(
            args::sp(
                shapes::two(namespaces_rule(), shapes::two(namespaces_rule(), namespaces_rule())),
            ),
            |p: (Seq<NamespaceView>, (Seq<NamespaceView>, Seq<NamespaceView>))|
                AnswerView::Namespace { personal: p.0, other: p.1.0, shared: p.1.1 },
        ),
    }
}

// ------------------------------------------------------------------- encodings

pub open spec fn number_tokens(n: u64) -> Seq<Token> {
    encode::plain(number::decimal(n as nat))
}

pub open spec fn search_tokens(v: Seq<u32>, n: Option<u64>) -> Seq<Token> {
    encode::spread(encode::parts::<u32>(v), encode::word(" ")) + match n {
        Some(n) => encode::word(" (MODSEQ ") + number_tokens(n) + encode::word(")"),
        None => seq![],
    }
}

pub open spec fn quota_get_tokens(q: QuotaGetView) -> Seq<Token> {
    shapes::two_tokens(
        encode::plain(q.resource),
        shapes::two_tokens(number_tokens(q.usage), number_tokens(q.limit)),
    )
}

pub open spec fn metadata_items_tokens(v: MetadataItemsView) -> Seq<Token> {
    match v {
        MetadataItemsView::WithValues(v) => encode::paren_tokens(encode::parts::<EntryValue>(v)),
        MetadataItemsView::WithoutValues(v) => encode::joined(
            encode::parts::<AString>(v),
            encode::word(" "),
        ),
    }
}

pub open spec fn namespace_extension_tokens(e: NamespaceExtensionView) -> Seq<Token> {
    shapes::two_tokens(
        strings::string_tokens(e.name),
        encode::paren_tokens(encode::parts::<IString>(e.values)),
    )
}

/// A namespace, behind its opening parenthesis.
pub open spec fn namespace_tokens(n: NamespaceView) -> Seq<Token> {
    shapes::closing_tokens(
        shapes::two_tokens(
            strings::string_tokens(n.prefix),
            encode::plain(mailbox::delimiter_text(n.delimiter)),
        ) + encode::spread(encode::parts::<NamespaceExtension>(n.extensions), encode::word(" ")),
    )
}

pub open spec fn namespaces_tokens(v: Seq<NamespaceView>) -> Seq<Token> {
    if v.len() == 0 {
        encode::word("NIL")
    } else {
        shapes::enclosed_tokens(shapes::row_tokens(encode::parts::<Namespace>(v)))
    }
}

pub open spec fn answer_name(a: AnswerView) -> AnswerName {
    match a {
        AnswerView::Sort(_, _) => AnswerName::Sort,
        AnswerView::Thread(_) => AnswerName::Thread,
        AnswerView::Quota { .. } => AnswerName::Quota,
        AnswerView::QuotaRoot { .. } => AnswerName::QuotaRoot,
        AnswerView::Id { .. } => AnswerName::Id,
        AnswerView::Metadata { .. } => AnswerName::Metadata,
        AnswerView::Namespace { .. } => AnswerName::Namespace,
    }
}

/// What stands behind the name of the response.
pub open spec fn arguments_tokens(a: AnswerView) -> Seq<Token> {
    match a {
        AnswerView::Sort(v, n) => search_tokens(v, n),
        AnswerView::Thread(v) => threads::threads_tokens(v),
        AnswerView::Quota { root, quotas } => args::argument(
            shapes::two_tokens(
                strings::string_tokens(root),
                encode::paren_tokens(encode::parts::<QuotaGet>(quotas)),
            ),
        ),
        AnswerView::QuotaRoot { mailbox, roots } => args::argument(
            mailbox::mailbox_tokens(mailbox),
        ) + encode::spread(encode::parts::<AString>(roots), encode::word(" ")),
        AnswerView::Id { parameters } => args::argument(command::id_tokens(parameters)),
        AnswerView::Metadata { mailbox, items } => args::argument(
            shapes::two_tokens(mailbox::mailbox_tokens(mailbox), metadata_items_tokens(items)),
        ),
        AnswerView::Namespace { personal, other, shared } => args::argument(
            shapes::two_tokens(
                namespaces_tokens(personal),
                shapes::two_tokens(namespaces_tokens(other), namespaces_tokens(shared)),
            ),
        ),
    }
}

/// The response, from `* ` to the end of the line.
pub open spec fn answer_tokens(a: AnswerView) -> Seq<Token> {
    encode::word("* ") + encode::plain(answer_name_text(answer_name(a))) + arguments_tokens(a)
}

// -------------------------------------------------------------- well-formedness

pub open spec fn quota_get_wf(q: QuotaGetView) -> bool {
    strings::atom_wf(q.resource) && q.usage <= NUMBER63_MAX && q.limit <= NUMBER63_MAX
}

pub open spec fn metadata_items_wf(v: MetadataItemsView) -> bool {
    match v {
        MetadataItemsView::WithValues(v) => v.len() > 0 && args::all_wf(
            v,
            |e: EntryValueView| command::entry_value_wf(e),
        ),
        MetadataItemsView::WithoutValues(v) => v.len() > 0 && args::all_wf(
            v,
            |s: StringView| strings::string_wf(s),
        ),
    }
}

pub open spec fn namespace_extension_wf(e: NamespaceExtensionView) -> bool {
    strings::istring_wf(e.name) && e.values.len() > 0 && args::all_wf(
        e.values,
        |s: StringView| strings::istring_wf(s),
    )
}

pub open spec fn namespace_wf(n: NamespaceView) -> bool {
    strings::istring_wf(n.prefix) && mailbox::delimiter_wf(n.delimiter) && args::all_wf(
        n.extensions,
        |e: NamespaceExtensionView| namespace_extension_wf(e),
    )
}

pub open spec fn namespaces_wf(v: Seq<NamespaceView>) -> bool {
    args::all_wf(v, |n: NamespaceView| namespace_wf(n))
}

/// A response that the grammar can express.
pub open spec fn answer_wf(a: AnswerView) -> bool {
    match a {
        AnswerView::Sort(v, n) => args::all_wf(v, |x: u32| x > 0) && (n matches Some(n) ==> 0 < n
            <= NUMBER63_MAX),
        AnswerView::Thread(v) => threads::threads_wf(v),
        AnswerView::Quota { root, quotas } => strings::string_wf(root) && quotas.len() > 0
            && args::all_wf(quotas, |q: QuotaGetView| quota_get_wf(q)),
        AnswerView::QuotaRoot { mailbox, roots } => mailbox::mailbox_wf(mailbox) && args::all_wf(
            roots,
            |s: StringView| strings::string_wf(s),
        ),
        AnswerView::Id { parameters } => parameters matches Some(v) ==> args::all_wf(
            v,
            |f: IdFieldView| command::id_field_wf(f),
        ),
        AnswerView::Metadata { mailbox, items } => mailbox::mailbox_wf(mailbox)
            && metadata_items_wf(items),
        AnswerView::Namespace { personal, other, shared } => namespaces_wf(personal)
            && namespaces_wf(other) && namespaces_wf(shared),
    }
}

// ------------------------------------------------------------------- streaming

proof fn lemma_namespaces_lawful()
    ensures
        g::lawful(namespaces_rule()),
{
    broadcast use g::group_lawful;

    reveal(namespace_extension_rule);
    reveal(namespace_rule);
    reveal(namespaces_rule);
    strings::lemma_strings_lawful();
    mailbox::lemma_delimiter_lawful();
    assert(g::lawful(namespace_extension_rule()));
    assert(g::lawful(namespace_rule()));
}

pub proof fn lemma_answer_lawful(n: AnswerName)
    ensures
        g::lawful(answer_rule(n)),
        g::lawful(search_data_rule()),
{
    broadcast use g::group_lawful;

    reveal(quota_get_rule);
    reveal(metadata_items_rule);
    strings::lemma_strings_lawful();
    number::lemma_numbers_lawful();
    modseq::lemma_modseq_lawful();
    mailbox::lemma_mailboxes_lawful();
    ext::lemma_rev2_lawful();
    command::lemma_argument_rules_lawful();
    threads::lemma_threads_lawful();
    lemma_namespaces_lawful();
    assert(g::lawful(quota_get_rule()));
    assert(g::lawful(metadata_items_rule()));
}

// --------------------------------------------------------------------- reading

/// The modification sequence behind the numbers of a search.
proof fn lemma_search_modseq_reads(n: Option<u64>, t: Seq<u8>)
    requires
        n matches Some(n) ==> 0 < n <= NUMBER63_MAX,
        args::line_end(t),
    ensures
        ({
            let r = encode::flat(
                match n {
                    Some(n) => encode::word(" (MODSEQ ") + number_tokens(n) + encode::word(")"),
                    None => seq![],
                },
            ) + t;
            &&& g::opt(args::sp(modseq::search_sort_mod_seq_rule()))(r) == Outcome::Done(t, n)
            &&& g::repeated_from(g::text(" "), number::nz_number_rule(), r) == Outcome::Done(
                r,
                Seq::<u32>::empty(),
            )
            &&& r.len() > 0
            &&& r[0] == 0x20 || r[0] == 0x0d
        }),
{
    let space = ascii::bytes_of(" ");
    reveal_strlit(" ");
    match n {
        Some(n) => {
            let d = number::decimal(n as nat);
            let close = ascii::bytes_of(")") + t;
            reveal_strlit(" (MODSEQ ");
            reveal_strlit("MODSEQ ");
            reveal_strlit("(");
            reveal_strlit(")");
            encode::lemma_flat_word(" (MODSEQ ");
            encode::lemma_flat_word(")");
            encode::lemma_flat_plain(d);
            args::lemma_flat_then(
                encode::word(" (MODSEQ ") + number_tokens(n),
                encode::word(")"),
                t,
            );
            args::lemma_flat_then(encode::word(" (MODSEQ "), number_tokens(n), close);
            let word = ascii::bytes_of("MODSEQ ") + (d + close);
            let open = ascii::bytes_of("(") + word;
            let r = ascii::bytes_of(" (MODSEQ ") + (d + close);
            assert(r =~= space + open);
            assert(close[0] == ')' as u8);
            modseq::law_modseq_range(n, close);
            reading::lemma_tag_reads(space, open);
            reading::lemma_tag_reads(ascii::bytes_of("("), word);
            reading::lemma_tag_no_case_reads(ascii::bytes_of("MODSEQ "), d + close);
            reading::lemma_tag_reads(ascii::bytes_of(")"), t);
            assert(open[0] == '(' as u8);
            number::lemma_number_rejects(open);
            reveal(modseq::search_sort_mod_seq_rule);
        },
        None => {
            assert(encode::flat(seq![]) + t =~= t);
            reading::lemma_tag_rejects(space, t);
        },
    }
}

/// Numbers and their highest modification sequence are read back.
pub proof fn lemma_search_numbers_read(v: Seq<u32>, n: Option<u64>, t: Seq<u8>)
    requires
        args::all_wf(v, |x: u32| x > 0),
        n matches Some(n) ==> 0 < n <= NUMBER63_MAX,
        args::line_end(t),
    ensures
        search_data_rule()(encode::flat(search_tokens(v, n)) + t) == Outcome::Done(t, (v, n)),
        (encode::flat(search_tokens(v, n)) + t).len() > 0,
        (encode::flat(search_tokens(v, n)) + t)[0] == 0x20 || (encode::flat(search_tokens(v, n))
            + t)[0] == 0x0d,
{
    let tokens = encode::parts::<u32>(v);
    let parts = encode::flat_parts(tokens);
    let space = ascii::bytes_of(" ");
    let last = match n {
        Some(n) => encode::word(" (MODSEQ ") + number_tokens(n) + encode::word(")"),
        None => seq![],
    };
    let numbers = encode::spread(tokens, encode::word(" "));
    reveal_strlit(" ");
    lemma_search_modseq_reads(n, t);
    let r = encode::flat(last) + t;
    encode::lemma_flat_spread(tokens, encode::word(" "));
    encode::lemma_flat_word(" ");
    args::lemma_flat_then(numbers, last, t);
    assert forall|i: int| 0 <= i < parts.len() implies reading::reads_at(
        number::nz_number_rule(),
        #[trigger] parts[i],
        v[i],
        reading::rest_of(parts, space, r, i),
    ) by {
        let wf = |x: u32| x > 0;
        assert(wf(v[i]));
        encode::lemma_flat_plain(number::decimal(v[i] as nat));
        let rest = reading::rest_of(parts, space, r, i);
        if parts.skip(i + 1).len() == 0 {
            assert(rest =~= r);
        } else {
            assert(rest[0] == 0x20);
        }
        number::lemma_number_reads(v[i], rest);
    }
    reading::lemma_list_reads_direct(space, number::nz_number_rule(), parts, v, r);
    let all = encode::spread(parts, space) + r;
    assert(all.len() > 0 && (all[0] == 0x20 || all[0] == 0x0d)) by {
        if parts.len() == 0 {
            assert(all =~= r);
        }
    }
}

proof fn lemma_number63_reads(n: u64)
    requires
        n <= NUMBER63_MAX,
    ensures
        reading::reads(ext::number63_rule(), encode::flat(number_tokens(n)), n),
{
    reveal(ext::number63_rule);
    encode::lemma_flat_plain(number::decimal(n as nat));
    assert forall|t: Seq<u8>| reading::ends(t) implies #[trigger] ext::number63_rule()(
        encode::flat(number_tokens(n)) + t,
    ) == Outcome::Done(t, n) by {
        number::lemma_number64_reads(n, t);
    }
}

proof fn lemma_quota_get_reads(q: QuotaGetView)
    requires
        quota_get_wf(q),
    ensures
        reading::reads(quota_get_rule(), encode::flat(quota_get_tokens(q)), q),
{
    reveal(quota_get_rule);
    let p = ext::number63_rule();
    let numbers = shapes::two_tokens(number_tokens(q.usage), number_tokens(q.limit));
    lemma_number63_reads(q.usage);
    lemma_number63_reads(q.limit);
    shapes::lemma_two_read(p, p, number_tokens(q.usage), q.usage, number_tokens(q.limit), q.limit);
    strings::lemma_atom_reads(q.resource);
    encode::lemma_flat_plain(q.resource);
    shapes::lemma_two_read(
        strings::atom_rule(),
        shapes::two(p, p),
        encode::plain(q.resource),
        q.resource,
        numbers,
        (q.usage, q.limit),
    );
    shapes::lemma_mapped_reads(
        shapes::two(strings::atom_rule(), shapes::two(p, p)),
        |p: (Seq<u8>, (u64, u64))| QuotaGetView { resource: p.0, usage: p.1.0, limit: p.1.1 },
        encode::flat(quota_get_tokens(q)),
        (q.resource, (q.usage, q.limit)),
    );
}

proof fn lemma_quota_reads(root: StringView, quotas: Seq<QuotaGetView>, t: Seq<u8>)
    requires
        answer_wf(AnswerView::Quota { root, quotas }),
        args::line_end(t),
    ensures
        reads_arguments(AnswerView::Quota { root, quotas }, t),
{
    let tokens = encode::parts::<QuotaGet>(quotas);
    assert forall|i: int| 0 <= i < quotas.len() implies reading::reads(
        quota_get_rule(),
        encode::flat(#[trigger] tokens[i]),
        quotas[i],
    ) by {
        let wf = |q: QuotaGetView| quota_get_wf(q);
        assert(wf(quotas[i]));
        lemma_quota_get_reads(quotas[i]);
    }
    let p = strings::astring_rule();
    let q = g::paren_list1(quota_get_rule());
    let a = strings::string_tokens(root);
    let b = encode::paren_tokens(tokens);
    shapes::lemma_parens_read(quota_get_rule(), tokens, quotas);
    strings::lemma_string_reads(root);
    shapes::lemma_two_read(p, q, a, root, b, quotas);
    args::lemma_delimited_argument(shapes::two(p, q), shapes::two_tokens(a, b), (root, quotas), t);
}

proof fn lemma_strings_read(v: Seq<StringView>, t: Seq<u8>)
    requires
        args::all_wf(v, |s: StringView| strings::string_wf(s)),
        args::line_end(t),
    ensures
        g::repeated(g::text(" "), strings::astring_rule())(
            encode::flat(encode::spread(encode::parts::<AString>(v), encode::word(" "))) + t,
        ) == Outcome::Done(t, v),
        reading::ends(
            encode::flat(encode::spread(encode::parts::<AString>(v), encode::word(" "))) + t,
        ),
        v.len() > 0 ==> g::separated_list1(g::text(" "), strings::astring_rule())(
            encode::flat(encode::joined(encode::parts::<AString>(v), encode::word(" "))) + t,
        ) == Outcome::Done(t, v),
{
    let tokens = encode::parts::<AString>(v);
    assert forall|i: int| 0 <= i < v.len() implies reading::reads(
        strings::astring_rule(),
        encode::flat(#[trigger] tokens[i]),
        v[i],
    ) by {
        let wf = |s: StringView| strings::string_wf(s);
        assert(wf(v[i]));
        strings::lemma_string_reads(v[i]);
    }
    shapes::lemma_spaced_read(strings::astring_rule(), tokens, v, t);
}

proof fn lemma_quota_root_reads(mailbox: MailboxView, roots: Seq<StringView>, t: Seq<u8>)
    requires
        answer_wf(AnswerView::QuotaRoot { mailbox, roots }),
        args::line_end(t),
    ensures
        reads_arguments(AnswerView::QuotaRoot { mailbox, roots }, t),
{
    let a = mailbox::mailbox_tokens(mailbox);
    let b = encode::spread(encode::parts::<AString>(roots), encode::word(" "));
    lemma_strings_read(roots, t);
    mailbox::lemma_mailbox_reads(mailbox);
    args::lemma_flat_then(args::argument(a), b, t);
    args::lemma_delimited_argument(mailbox::mailbox_rule(), a, mailbox, encode::flat(b) + t);
}

proof fn lemma_metadata_items_read(v: MetadataItemsView, t: Seq<u8>)
    requires
        metadata_items_wf(v),
        args::line_end(t),
    ensures
        metadata_items_rule()(encode::flat(metadata_items_tokens(v)) + t) == Outcome::Done(t, v),
{
    reveal(metadata_items_rule);
    let s = encode::flat(metadata_items_tokens(v)) + t;
    match v {
        MetadataItemsView::WithValues(v) => {
            let tokens = encode::parts::<EntryValue>(v);
            assert forall|i: int| 0 <= i < v.len() implies reading::reads(
                command::entry_value_rule(),
                encode::flat(#[trigger] tokens[i]),
                v[i],
            ) by {
                let wf = |e: EntryValueView| command::entry_value_wf(e);
                assert(wf(v[i]));
                command::lemma_entry_value_reads(v[i]);
            }
            shapes::lemma_parens_read(command::entry_value_rule(), tokens, v);
            assert(g::paren_list1(command::entry_value_rule())(s) == Outcome::Done(t, v));
        },
        MetadataItemsView::WithoutValues(v) => {
            let tokens = encode::parts::<AString>(v);
            lemma_strings_read(v, t);
            encode::lemma_flat_joined(tokens, encode::word(" "));
            let wf = |s: StringView| strings::string_wf(s);
            assert(wf(v[0]));
            strings::lemma_string_first(v[0]);
            assert(encode::flat_parts(tokens)[0] == encode::flat(strings::string_tokens(v[0])));
            assert(s[0] == encode::flat(strings::string_tokens(v[0]))[0]);
            reveal_strlit("(");
            reading::lemma_tag_rejects(ascii::bytes_of("("), s);
        },
    }
}

proof fn lemma_metadata_reads(mailbox: MailboxView, items: MetadataItemsView, t: Seq<u8>)
    requires
        answer_wf(AnswerView::Metadata { mailbox, items }),
        args::line_end(t),
    ensures
        reads_arguments(AnswerView::Metadata { mailbox, items }, t),
{
    let p = mailbox::mailbox_rule();
    let q = metadata_items_rule();
    let a = mailbox::mailbox_tokens(mailbox);
    let b = metadata_items_tokens(items);
    lemma_metadata_items_read(items, t);
    args::lemma_argument_reads(q, b, items, t);
    mailbox::lemma_mailbox_reads(mailbox);
    args::lemma_flat_then(a, args::argument(b), t);
    args::lemma_flat_then(encode::word(" "), b, t);
    encode::lemma_flat_word(" ");
    reveal_strlit(" ");
    let r = encode::flat(args::argument(b)) + t;
    assert(r[0] == 0x20);
    assert(p(encode::flat(a) + r) == Outcome::Done(r, mailbox));
    args::lemma_argument_reads(
        shapes::two(p, q),
        shapes::two_tokens(a, b),
        (mailbox, items),
        t,
    );
}

proof fn lemma_namespace_extension_reads(e: NamespaceExtensionView)
    requires
        namespace_extension_wf(e),
    ensures
        reading::reads(
            namespace_extension_rule(),
            encode::flat(namespace_extension_tokens(e)),
            e,
        ),
{
    reveal(namespace_extension_rule);
    let tokens = encode::parts::<IString>(e.values);
    let p = strings::string_rule();
    assert forall|i: int| 0 <= i < e.values.len() implies reading::reads(
        p,
        encode::flat(#[trigger] tokens[i]),
        e.values[i],
    ) by {
        let wf = |s: StringView| strings::istring_wf(s);
        assert(wf(e.values[i]));
        strings::lemma_string_reads(e.values[i]);
    }
    shapes::lemma_parens_read(p, tokens, e.values);
    strings::lemma_string_reads(e.name);
    shapes::lemma_two_read(
        p,
        g::paren_list1(p),
        strings::string_tokens(e.name),
        e.name,
        encode::paren_tokens(tokens),
        e.values,
    );
    shapes::lemma_mapped_reads(
        shapes::two(p, g::paren_list1(p)),
        |p: (StringView, Seq<StringView>)| NamespaceExtensionView { name: p.0, values: p.1 },
        encode::flat(namespace_extension_tokens(e)),
        (e.name, e.values),
    );
}

proof fn lemma_namespace_reads(n: NamespaceView)
    requires
        namespace_wf(n),
    ensures
        shapes::reads_alone(namespace_rule(), encode::flat(namespace_tokens(n)), n),
{
    reveal(namespace_rule);
    let tokens = encode::parts::<NamespaceExtension>(n.extensions);
    let e = namespace_extension_rule();
    assert forall|i: int| 0 <= i < n.extensions.len() implies reading::reads(
        e,
        encode::flat(#[trigger] tokens[i]),
        n.extensions[i],
    ) by {
        let wf = |e: NamespaceExtensionView| namespace_extension_wf(e);
        assert(wf(n.extensions[i]));
        lemma_namespace_extension_reads(n.extensions[i]);
    }
    let d = encode::plain(mailbox::delimiter_text(n.delimiter));
    let a = strings::string_tokens(n.prefix);
    let first = shapes::two(strings::string_rule(), mailbox::delimiter_rule());
    encode::lemma_flat_plain(mailbox::delimiter_text(n.delimiter));
    assert forall|t: Seq<u8>| reading::ends(t) implies #[trigger] mailbox::delimiter_rule()(
        encode::flat(d) + t,
    ) == Outcome::Done(t, n.delimiter) by {
        mailbox::lemma_delimiter_reads(n.delimiter, t);
    }
    strings::lemma_string_reads(n.prefix);
    shapes::lemma_two_read(
        strings::string_rule(),
        mailbox::delimiter_rule(),
        a,
        n.prefix,
        d,
        n.delimiter,
    );
    let rest = encode::spread(tokens, encode::word(" "));
    let close = ascii::bytes_of(")");
    reveal_strlit(")");
    encode::lemma_flat_word(")");
    assert forall|t: Seq<u8>| #[trigger] namespace_rule()(encode::flat(namespace_tokens(n)) + t)
        == Outcome::Done(t, n) by {
        let r = close + t;
        assert(r[0] == ')' as u8);
        args::lemma_flat_then(shapes::two_tokens(a, d) + rest, encode::word(")"), t);
        args::lemma_flat_then(shapes::two_tokens(a, d), rest, r);
        shapes::lemma_spaced_read(e, tokens, n.extensions, r);
        let behind = encode::flat(rest) + r;
        assert(first(encode::flat(shapes::two_tokens(a, d)) + behind) == Outcome::Done(
            behind,
            (n.prefix, n.delimiter),
        ));
        reading::lemma_tag_reads(close, t);
    }
}

proof fn lemma_namespaces_read(v: Seq<NamespaceView>)
    requires
        namespaces_wf(v),
    ensures
        reading::reads(namespaces_rule(), encode::flat(namespaces_tokens(v)), v),
{
    reveal(namespaces_rule);
    let b = encode::flat(namespaces_tokens(v));
    if v.len() == 0 {
        assert forall|t: Seq<u8>| reading::ends(t) implies #[trigger] namespaces_rule()(b + t)
            == Outcome::Done(t, v) by {
            shapes::lemma_nil_reads(v, t);
            assert(v =~= Seq::<NamespaceView>::empty());
        }
    } else {
        let tokens = encode::parts::<Namespace>(v);
        let inner = shapes::row_tokens(tokens);
        assert forall|i: int| 0 <= i < v.len() implies shapes::reads_alone(
            namespace_rule(),
            encode::flat(#[trigger] tokens[i]),
            v[i],
        ) by {
            let wf = |n: NamespaceView| namespace_wf(n);
            assert(wf(v[i]));
            lemma_namespace_reads(v[i]);
        }
        let p = shapes::row(namespace_rule());
        assert forall|t: Seq<u8>| reading::ends(t) implies #[trigger] p(encode::flat(inner) + t)
            == Outcome::Done(t, v) by {
            shapes::lemma_row_reads(namespace_rule(), tokens, v, t);
        }
        shapes::lemma_enclosed_reads(p, inner, v);
        assert forall|t: Seq<u8>| reading::ends(t) implies #[trigger] namespaces_rule()(b + t)
            == Outcome::Done(t, v) by {
            assert(shapes::enclosed(p)(b + t) == Outcome::Done(t, v));
        }
    }
}

proof fn lemma_namespace_answer_reads(
    personal: Seq<NamespaceView>,
    other: Seq<NamespaceView>,
    shared: Seq<NamespaceView>,
    t: Seq<u8>,
)
    requires
        answer_wf(AnswerView::Namespace { personal, other, shared }),
        args::line_end(t),
    ensures
        reads_arguments(AnswerView::Namespace { personal, other, shared }, t),
{
    let p = namespaces_rule();
    let a = namespaces_tokens(personal);
    let b = namespaces_tokens(other);
    let c = namespaces_tokens(shared);
    lemma_namespaces_read(personal);
    lemma_namespaces_read(other);
    lemma_namespaces_read(shared);
    shapes::lemma_two_read(p, p, b, other, c, shared);
    let rest = shapes::two_tokens(b, c);
    shapes::lemma_two_read(p, shapes::two(p, p), a, personal, rest, (other, shared));
    args::lemma_delimited_argument(
        shapes::two(p, shapes::two(p, p)),
        shapes::two_tokens(a, rest),
        (personal, (other, shared)),
        t,
    );
}

/// What follows the name of a response is read back, and begins with a space or
/// ends the line.
pub open spec fn reads_arguments(a: AnswerView, t: Seq<u8>) -> bool {
    let s = encode::flat(arguments_tokens(a)) + t;
    &&& answer_rule(answer_name(a))(s) == Outcome::Done(t, a)
    &&& s.len() > 0
    &&& s[0] == 0x20 || s[0] == 0x0d
}

pub proof fn lemma_arguments_read(a: AnswerView, t: Seq<u8>)
    requires
        answer_wf(a),
        args::line_end(t),
    ensures
        reads_arguments(a, t),
{
    match a {
        AnswerView::Sort(v, n) => lemma_search_numbers_read(v, n, t),
        AnswerView::Thread(v) => threads::lemma_threads_read(v, t),
        AnswerView::Quota { root, quotas } => lemma_quota_reads(root, quotas, t),
        AnswerView::QuotaRoot { mailbox, roots } => lemma_quota_root_reads(mailbox, roots, t),
        AnswerView::Id { parameters } => command::lemma_id_parameters_read(parameters, t),
        AnswerView::Metadata { mailbox, items } => lemma_metadata_reads(mailbox, items, t),
        AnswerView::Namespace { personal, other, shared } => {
            lemma_namespace_answer_reads(personal, other, shared, t);
        },
    }
}

// ------------------------------------------------------------------ executable

pub fn search_numbers<'a>(input: &'a [u8]) -> (res: IMAPResult<'a, (Vec<u32>, Option<u64>)>)
    ensures
        g::agrees(res, search_data_rule()(input@)),
{
    let (rest, v) = repeat(input, " ", nz_number, Ghost(number::nz_number_rule()))?;
    let behind: &[u8] = match tag(rest, " ") {
        Ok((behind, _)) => behind,
        Err(IMAPParseError::Error) => return Ok((rest, (v, None))),
        Err(e) => return Err(e),
    };
    match search_sort_mod_seq(behind) {
        Ok((rest, n)) => Ok((rest, (v, Some(n)))),
        Err(IMAPParseError::Error) => Ok((rest, (v, None))),
        Err(e) => Err(e),
    }
}

pub fn write_search_numbers(v: &Vec<u32>, n: &Option<u64>, ctx: &mut EncodeContext)
    ensures
        final(ctx)@ == old(ctx)@ + search_tokens(v.deep_view(), *n),
{
    write_spread(v.as_slice(), " ", ctx);
    if let Some(n) = n {
        ctx.write_text(" (MODSEQ ");
        write_number(ctx, *n);
        ctx.write_text(")");
    }
    assert(ctx@ =~= old(ctx)@ + search_tokens(v.deep_view(), *n));
}

fn quota_get<'a>(input: &'a [u8]) -> (res: IMAPResult<'a, QuotaGet>)
    ensures
        g::agrees(res, quota_get_rule()(input@)),
{
    proof {
        reveal(quota_get_rule);
    }
    let (rest, resource) = atom(input)?;
    let (rest, _) = tag(rest, " ")?;
    let (rest, usage) = number63(rest)?;
    let (rest, _) = tag(rest, " ")?;
    let (rest, limit) = number63(rest)?;
    Ok((rest, QuotaGet { resource, usage, limit }))
}

fn metadata_items<'a>(input: &'a [u8]) -> (res: IMAPResult<'a, MetadataItems>)
    ensures
        g::agrees(res, metadata_items_rule()(input@)),
{
    proof {
        reveal(metadata_items_rule);
    }
    match parens1(input, entry_value, Ghost(command::entry_value_rule())) {
        Ok((rest, v)) => Ok((rest, MetadataItems::WithValues(v))),
        Err(IMAPParseError::Error) => {
            let (rest, v) = list1(input, " ", astring, Ghost(strings::astring_rule()))?;
            Ok((rest, MetadataItems::WithoutValues(v)))
        },
        Err(e) => Err(e),
    }
}

fn namespace_extension<'a>(input: &'a [u8]) -> (res: IMAPResult<'a, NamespaceExtension>)
    ensures
        g::agrees(res, namespace_extension_rule()(input@)),
{
    proof {
        reveal(namespace_extension_rule);
    }
    let (rest, name) = string(input)?;
    let (rest, _) = tag(rest, " ")?;
    let (rest, values) = parens1(rest, string, Ghost(strings::string_rule()))?;
    Ok((rest, NamespaceExtension { name, values }))
}

fn namespace<'a>(input: &'a [u8]) -> (res: IMAPResult<'a, Namespace>)
    ensures
        g::agrees(res, namespace_rule()(input@)),
{
    proof {
        reveal(namespace_rule);
    }
    let (rest, prefix) = string(input)?;
    let (rest, _) = tag(rest, " ")?;
    let (rest, delimiter) = delimiter(rest)?;
    let (rest, extensions) = repeat(
        rest,
        " ",
        namespace_extension,
        Ghost(namespace_extension_rule()),
    )?;
    let (rest, _) = tag(rest, ")")?;
    Ok((rest, Namespace { prefix, delimiter, extensions }))
}

fn namespace_row<'a>(input: &'a [u8]) -> (res: IMAPResult<'a, Vec<Namespace>>)
    ensures
        g::agrees(res, shapes::enclosed(shapes::row(namespace_rule()))(input@)),
{
    let (rest, _) = tag(input, "(")?;
    let (rest, v) = repeat(rest, "(", namespace, Ghost(namespace_rule()))?;
    if v.len() == 0 {
        return Err(IMAPParseError::Error);
    }
    let (rest, _) = tag(rest, ")")?;
    Ok((rest, v))
}

fn namespaces<'a>(input: &'a [u8]) -> (res: IMAPResult<'a, Vec<Namespace>>)
    ensures
        g::agrees(res, namespaces_rule()(input@)),
{
    proof {
        reveal(namespaces_rule);
    }
    match namespace_row(input) {
        Err(IMAPParseError::Error) => {},
        res => return res,
    }
    let (rest, _) = tag_no_case(input, "NIL")?;
    let none: Vec<Namespace> = Vec::new();
    assert(none.deep_view() =~= Seq::<NamespaceView>::empty());
    Ok((rest, none))
}

fn mailbox_answer<'a>(input: &'a [u8], n: AnswerName) -> (res: IMAPResult<'a, Answer>)
    requires
        n is QuotaRoot || n is Metadata,
    ensures
        g::agrees(res, answer_rule(n)(input@)),
{
    let (rest, _) = tag(input, " ")?;
    let (rest, mailbox) = mailbox(rest)?;
    match n {
        AnswerName::QuotaRoot => {
            let (rest, roots) = repeat(rest, " ", astring, Ghost(strings::astring_rule()))?;
            Ok((rest, Answer::QuotaRoot { mailbox, roots }))
        },
        _ => {
            let (rest, _) = tag(rest, " ")?;
            let (rest, items) = metadata_items(rest)?;
            Ok((rest, Answer::Metadata { mailbox, items }))
        },
    }
}

/// Reads what follows the name of the response.
pub fn answer<'a>(input: &'a [u8], n: AnswerName) -> (res: IMAPResult<'a, Answer>)
    ensures
        g::agrees(res, answer_rule(n)(input@)),
{
    match n {
        AnswerName::Sort => {
            let (rest, (v, n)) = search_numbers(input)?;
            Ok((rest, Answer::Sort(v, n)))
        },
        AnswerName::Thread => {
            let (rest, v) = threads(input)?;
            Ok((rest, Answer::Thread(v)))
        },
        AnswerName::Quota => {
            let (rest, _) = tag(input, " ")?;
            let (rest, root) = astring(rest)?;
            let (rest, _) = tag(rest, " ")?;
            let (rest, quotas) = parens1(rest, quota_get, Ghost(quota_get_rule()))?;
            Ok((rest, Answer::Quota { root, quotas }))
        },
        AnswerName::QuotaRoot | AnswerName::Metadata => mailbox_answer(input, n),
        AnswerName::Id => {
            let (rest, _) = tag(input, " ")?;
            let (rest, parameters) = id_fields(rest)?;
            Ok((rest, Answer::Id { parameters }))
        },
        AnswerName::Namespace => {
            let (rest, _) = tag(input, " ")?;
            let (rest, personal) = namespaces(rest)?;
            let (rest, _) = tag(rest, " ")?;
            let (rest, other) = namespaces(rest)?;
            let (rest, _) = tag(rest, " ")?;
            let (rest, shared) = namespaces(rest)?;
            Ok((rest, Answer::Namespace { personal, other, shared }))
        },
    }
}

impl EncodeIntoContext for QuotaGet {
    open spec fn tokens(v: QuotaGetView) -> Seq<Token> {
        quota_get_tokens(v)
    }

    fn encode_ctx(&self, ctx: &mut EncodeContext) {
        self.resource.encode_ctx(ctx);
        ctx.write_text(" ");
        write_number(ctx, self.usage);
        ctx.write_text(" ");
        write_number(ctx, self.limit);
        assert(ctx@ =~= old(ctx)@ + Self::tokens(self.deep_view()));
    }
}

impl EncodeIntoContext for MetadataItems {
    open spec fn tokens(v: MetadataItemsView) -> Seq<Token> {
        metadata_items_tokens(v)
    }

    fn encode_ctx(&self, ctx: &mut EncodeContext) {
        match self {
            MetadataItems::WithValues(v) => write_parens(v.as_slice(), ctx),
            MetadataItems::WithoutValues(v) => join_serializable(v.as_slice(), " ", ctx),
        }
        assert(ctx@ =~= old(ctx)@ + Self::tokens(self.deep_view()));
    }
}

impl EncodeIntoContext for NamespaceExtension {
    open spec fn tokens(v: NamespaceExtensionView) -> Seq<Token> {
        namespace_extension_tokens(v)
    }

    fn encode_ctx(&self, ctx: &mut EncodeContext) {
        self.name.encode_ctx(ctx);
        ctx.write_text(" ");
        write_parens(self.values.as_slice(), ctx);
        assert(ctx@ =~= old(ctx)@ + Self::tokens(self.deep_view()));
    }
}

impl EncodeIntoContext for Namespace {
    open spec fn tokens(v: NamespaceView) -> Seq<Token> {
        namespace_tokens(v)
    }

    fn encode_ctx(&self, ctx: &mut EncodeContext) {
        self.prefix.encode_ctx(ctx);
        ctx.write_text(" ");
        write_delimiter(&self.delimiter, ctx);
        write_spread(self.extensions.as_slice(), " ", ctx);
        ctx.write_text(")");
        assert(ctx@ =~= old(ctx)@ + Self::tokens(self.deep_view()));
    }
}

fn write_namespaces(v: &Vec<Namespace>, ctx: &mut EncodeContext)
    ensures
        final(ctx)@ == old(ctx)@ + namespaces_tokens(v.deep_view()),
{
    if v.len() == 0 {
        ctx.write_text("NIL");
    } else {
        ctx.write_text("(");
        write_spread(v.as_slice(), "(", ctx);
        ctx.write_text(")");
    }
    assert(ctx@ =~= old(ctx)@ + namespaces_tokens(v.deep_view()));
}

fn write_name(a: &Answer, ctx: &mut EncodeContext)
    ensures
        final(ctx)@ == old(ctx)@ + encode::plain(answer_name_text(answer_name(a.deep_view()))),
{
    match a {
        Answer::Sort(_, _) => ctx.write_text("SORT"),
        Answer::Thread(_) => ctx.write_text("THREAD"),
        Answer::Quota { .. } => ctx.write_text("QUOTA"),
        Answer::QuotaRoot { .. } => ctx.write_text("QUOTAROOT"),
        Answer::Id { .. } => ctx.write_text("ID"),
        Answer::Metadata { .. } => ctx.write_text("METADATA"),
        Answer::Namespace { .. } => ctx.write_text("NAMESPACE"),
    }
}

fn write_quota(root: &AString, quotas: &Vec<QuotaGet>, ctx: &mut EncodeContext)
    ensures
        final(ctx)@ == old(ctx)@ + arguments_tokens(
            AnswerView::Quota { root: root.deep_view(), quotas: quotas.deep_view() },
        ),
{
    write_argument(root, ctx);
    write_list(quotas, ctx);
    assert(ctx@ =~= old(ctx)@ + arguments_tokens(
        AnswerView::Quota { root: root.deep_view(), quotas: quotas.deep_view() },
    ));
}

fn write_quota_root(mailbox: &Mailbox, roots: &Vec<AString>, ctx: &mut EncodeContext)
    ensures
        final(ctx)@ == old(ctx)@ + arguments_tokens(
            AnswerView::QuotaRoot { mailbox: mailbox.deep_view(), roots: roots.deep_view() },
        ),
{
    write_argument(mailbox, ctx);
    write_spread(roots.as_slice(), " ", ctx);
    assert(ctx@ =~= old(ctx)@ + arguments_tokens(
        AnswerView::QuotaRoot { mailbox: mailbox.deep_view(), roots: roots.deep_view() },
    ));
}

fn write_metadata(mailbox: &Mailbox, items: &MetadataItems, ctx: &mut EncodeContext)
    ensures
        final(ctx)@ == old(ctx)@ + arguments_tokens(
            AnswerView::Metadata { mailbox: mailbox.deep_view(), items: items.deep_view() },
        ),
{
    write_argument(mailbox, ctx);
    write_argument(items, ctx);
    assert(ctx@ =~= old(ctx)@ + arguments_tokens(
        AnswerView::Metadata { mailbox: mailbox.deep_view(), items: items.deep_view() },
    ));
}

fn write_namespace_answer(
    personal: &Vec<Namespace>,
    other: &Vec<Namespace>,
    shared: &Vec<Namespace>,
    ctx: &mut EncodeContext,
)
    ensures
        final(ctx)@ == old(ctx)@ + arguments_tokens(
            AnswerView::Namespace {
                personal: personal.deep_view(),
                other: other.deep_view(),
                shared: shared.deep_view(),
            },
        ),
{
    ctx.write_text(" ");
    write_namespaces(personal, ctx);
    ctx.write_text(" ");
    write_namespaces(other, ctx);
    ctx.write_text(" ");
    write_namespaces(shared, ctx);
    assert(ctx@ =~= old(ctx)@ + arguments_tokens(
        AnswerView::Namespace {
            personal: personal.deep_view(),
            other: other.deep_view(),
            shared: shared.deep_view(),
        },
    ));
}

fn write_arguments(a: &Answer, ctx: &mut EncodeContext)
    ensures
        encode::wrote(old(ctx)@, final(ctx)@, arguments_tokens(a.deep_view())),
{
    match a {
        Answer::Sort(v, n) => write_search_numbers(v, n, ctx),
        Answer::Thread(v) => write_threads(v, ctx),
        Answer::Quota { root, quotas } => write_quota(root, quotas, ctx),
        Answer::QuotaRoot { mailbox, roots } => write_quota_root(mailbox, roots, ctx),
        Answer::Id { parameters } => write_id(parameters, ctx),
        Answer::Metadata { mailbox, items } => write_metadata(mailbox, items, ctx),
        Answer::Namespace { personal, other, shared } => {
            write_namespace_answer(personal, other, shared, ctx);
        },
    }
}

impl EncodeIntoContext for Answer {
    open spec fn tokens(v: AnswerView) -> Seq<Token> {
        answer_tokens(v)
    }

    fn encode_ctx(&self, ctx: &mut EncodeContext) {
        ctx.write_text("* ");
        write_name(self, ctx);
        write_arguments(self, ctx);
        assert(ctx@ =~= old(ctx)@ + Self::tokens(self.deep_view()));
    }
}

} // verus!
