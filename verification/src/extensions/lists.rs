//! What LIST asks for and what it tells, by the texts alone.
use vstd::prelude::*;

use crate::arguments as args;
use crate::ascii;
use crate::command;
use crate::command::{BodyView, CommandView};
use crate::encode;
use crate::extensions::rev2 as ext;
use crate::extensions::searches as found;
use crate::extensions::texts;
use crate::grammar as g;
use crate::grammar::Outcome;
use crate::mailbox;
use crate::mailbox::{ListMailbox, MailboxView};
use crate::reading;
use crate::response;
use crate::response::{DataView, ResponseView};
use crate::rev2::{ListExtension, ListExtensionView, ListReturn, ListReturnView, ValueView};
use crate::status;
use crate::status::StatusDataItemName;
use crate::strings;
use crate::strings::{Atom, StringView};

verus! {

// ------------------------------------------------------------------ definitions

/// What a return option of LIST asks for, by its name and its parameters.
pub open spec fn asks(name: Seq<u8>, parameters: Option<ValueView>, v: ListReturnView) -> bool {
    if parameters is Some {
        v == ListReturnView::Extension { name, parameters }
    } else {
        match v {
            ListReturnView::Subscribed => texts::says(name, "SUBSCRIBED"@),
            ListReturnView::Children => texts::says(name, "CHILDREN"@),
            ListReturnView::SpecialUse => texts::says(name, "SPECIAL-USE"@),
            ListReturnView::Status(_) => false,
            ListReturnView::Extension { name: n, parameters: p } => {
                &&& n == name
                &&& p is None
                &&& !texts::says(name, "SUBSCRIBED"@)
                &&& !texts::says(name, "CHILDREN"@)
                &&& !texts::says(name, "SPECIAL-USE"@)
            },
        }
    }
}

/// The option asks for the status of mailboxes.
pub open spec fn asks_status(name: Seq<u8>, parameters: Option<ValueView>) -> bool {
    texts::says(name, "STATUS"@) && (parameters matches Some(p) && ext::names_status_items(p))
}

/// An option that can stand in the list of a LIST command.
pub open spec fn is_option(v: ListReturnView) -> bool {
    match v {
        ListReturnView::Extension { name, parameters } => {
            &&& texts::is_name(name)
            &&& parameters matches Some(p) ==> texts::is_value(p)
            &&& asks(name, parameters, v)
            &&& !asks_status(name, parameters)
        },
        ListReturnView::Status(names) => names.len() > 0,
        _ => true,
    }
}

/// How an option is written.
pub open spec fn asking_text(v: ListReturnView) -> Seq<u8> {
    match v {
        ListReturnView::Subscribed => ascii::bytes_of("SUBSCRIBED"),
        ListReturnView::Children => ascii::bytes_of("CHILDREN"),
        ListReturnView::SpecialUse => ascii::bytes_of("SPECIAL-USE"),
        ListReturnView::Status(names) => ascii::bytes_of("STATUS (") + found::spaced(
            names.map_values(|n: StatusDataItemName| status::status_text(n)),
        ) + seq![41u8],
        ListReturnView::Extension { name, parameters } => found::option_text(name, parameters),
    }
}

pub open spec fn are_options(v: Seq<ListReturnView>) -> bool {
    forall|i: int| 0 <= i < v.len() ==> is_option(#[trigger] v[i])
}

/// The options in parentheses behind RETURN, or nothing.
pub open spec fn return_text(v: Option<Seq<ListReturnView>>) -> Seq<u8> {
    match v {
        Some(x) => ascii::bytes_of(" RETURN (") + found::spaced(
            x.map_values(|o: ListReturnView| asking_text(o)),
        ) + seq![41u8],
        None => seq![],
    }
}

/// The selection in parentheses and a space, or nothing.
pub open spec fn selection_text(v: Option<Seq<Seq<u8>>>) -> Seq<u8> {
    match v {
        Some(x) => seq![40u8] + found::spaced(x) + seq![41u8, 32u8],
        None => seq![],
    }
}

/// The patterns, in parentheses or one of them without.
pub open spec fn patterns_text(v: Seq<StringView>, parens: bool) -> Seq<u8> {
    if parens {
        seq![40u8] + found::spaced(
            v.map_values(|p: StringView| encode::flat(strings::string_tokens(p))),
        ) + seq![41u8]
    } else {
        encode::flat(strings::string_tokens(v[0]))
    }
}

/// A LIST command, as it is written.
pub open spec fn list_text(
    selection: Option<Seq<Seq<u8>>>,
    reference: MailboxView,
    patterns: Seq<StringView>,
    parens: bool,
    options: Option<Seq<ListReturnView>>,
) -> Seq<u8> {
    ascii::bytes_of("LIST ") + selection_text(selection) + encode::flat(
        mailbox::mailbox_tokens(reference),
    ) + seq![32u8] + patterns_text(patterns, parens) + return_text(options)
}

/// A LIST command that can be written.
pub open spec fn is_list(
    selection: Option<Seq<Seq<u8>>>,
    reference: MailboxView,
    patterns: Seq<StringView>,
    parens: bool,
    options: Option<Seq<ListReturnView>>,
) -> bool {
    &&& selection matches Some(x) ==> forall|i: int|
        0 <= i < x.len() ==> texts::is_name(#[trigger] x[i])
    &&& mailbox::mailbox_wf(reference)
    &&& patterns.len() > 0
    &&& !parens ==> patterns.len() == 1
    &&& forall|i: int| 0 <= i < patterns.len() ==> mailbox::list_mailbox_wf(#[trigger] patterns[i])
    &&& options matches Some(x) ==> are_options(x)
}

/// The selection asks for matches below mailboxes, and for nothing that could
/// match there.
pub open spec fn is_idle(selection: Seq<Seq<u8>>) -> bool {
    &&& exists|i: int|
        0 <= i < selection.len() && texts::says(#[trigger] selection[i], "RECURSIVEMATCH"@)
    &&& forall|i: int|
        0 <= i < selection.len() ==> texts::says(#[trigger] selection[i], "RECURSIVEMATCH"@)
            || texts::says(selection[i], "REMOTE"@)
}

// ---------------------------------------------------------------------- lemmas

pub proof fn lemma_return_words(b: Seq<u8>)
    ensures
        texts::says(b, "SUBSCRIBED"@) <==> ascii::same_word(b, ascii::bytes_of("SUBSCRIBED")),
        texts::says(b, "CHILDREN"@) <==> ascii::same_word(b, ascii::bytes_of("CHILDREN")),
        texts::says(b, "SPECIAL-USE"@) <==> ascii::same_word(b, ascii::bytes_of("SPECIAL-USE")),
        texts::says(b, "STATUS"@) <==> ascii::same_word(b, ascii::bytes_of("STATUS")),
        texts::says(b, "SUBSCRIBED"@) ==> !texts::says(b, "CHILDREN"@) && !texts::says(
            b,
            "SPECIAL-USE"@,
        ),
        texts::says(b, "CHILDREN"@) ==> !texts::says(b, "SPECIAL-USE"@),
{
    reveal_strlit("SUBSCRIBED");
    reveal_strlit("CHILDREN");
    reveal_strlit("SPECIAL-USE");
    reveal_strlit("STATUS");
    texts::lemma_says(b, "SUBSCRIBED");
    texts::lemma_says(b, "CHILDREN");
    texts::lemma_says(b, "SPECIAL-USE");
    texts::lemma_says(b, "STATUS");
}

proof fn lemma_selection_words(b: Seq<u8>)
    ensures
        texts::says(b, "RECURSIVEMATCH"@) <==> ext::is_recursive_match(b),
        texts::says(b, "REMOTE"@) <==> ext::is_remote(b),
{
    reveal_strlit("RECURSIVEMATCH");
    reveal_strlit("REMOTE");
    texts::lemma_says(b, "RECURSIVEMATCH");
    texts::lemma_says(b, "REMOTE");
}

proof fn lemma_status_text(names: Seq<StatusDataItemName>)
    ensures
        asking_text(ListReturnView::Status(names)) == encode::flat(
            ext::list_return_tokens(ListReturnView::Status(names)),
        ),
{
    let tokens = encode::parts::<StatusDataItemName>(names);
    let list = encode::joined(tokens, encode::word(" "));
    let written = names.map_values(|n: StatusDataItemName| status::status_text(n));
    encode::lemma_flat_joined(tokens, encode::word(" "));
    encode::lemma_flat_word(" ");
    encode::lemma_flat_word(")");
    encode::lemma_flat_word("STATUS (");
    encode::lemma_flat_add(encode::word("STATUS ("), list);
    encode::lemma_flat_add(encode::word("STATUS (") + list, encode::word(")"));
    reveal_strlit(")");
    assert(ascii::bytes_of(")") =~= seq![41u8]);
    assert forall|i: int| 0 <= i < names.len() implies #[trigger] written[i] == encode::flat_parts(
        tokens,
    )[i] by {
        encode::lemma_flat_plain(status::status_text(names[i]));
    }
    assert(written =~= encode::flat_parts(tokens));
    found::lemma_spaced(written);
}

proof fn lemma_option(v: ListReturnView)
    requires
        is_option(v),
    ensures
        ext::list_return_wf(v),
{
    match v {
        ListReturnView::Extension { name, parameters } => {
            lemma_return_words(name);
            texts::lemma_name(name);
            if let Some(p) = parameters {
                texts::lemma_value(p);
            }
        },
        ListReturnView::Status(_) => {},
        _ => ext::lemma_known_list_returns(v),
    }
}

#[verifier::spinoff_prover]
proof fn lemma_options(v: Option<Seq<ListReturnView>>)
    requires
        v matches Some(x) ==> are_options(x),
    ensures
        v matches Some(x) ==> ext::list_returns_wf(x),
        return_text(v) == encode::flat(ext::return_options_tokens(v)),
{
    if let Some(x) = v {
        assert forall|i: int| 0 <= i < x.len() implies ext::list_return_wf(#[trigger] x[i]) by {
            lemma_option(x[i]);
        }
    }
    lemma_return_text(v);
}

proof fn lemma_selection(x: Seq<Seq<u8>>, t: Seq<u8>)
    requires
        forall|i: int| 0 <= i < x.len() ==> texts::is_name(#[trigger] x[i]),
    ensures
        ext::terminated_selection_rule()(selection_text(Some(x)) + t) == Outcome::Done(t, x),
{
    let tokens = encode::parts::<Atom>(x);
    assert forall|i: int| 0 <= i < x.len() implies ext::is_label(#[trigger] x[i]) by {
        texts::lemma_name(x[i]);
    }
    assert forall|i: int| 0 <= i < x.len() implies #[trigger] encode::flat_parts(tokens)[i]
        == x[i] by {
        encode::lemma_flat_plain(x[i]);
    }
    assert(encode::flat_parts(tokens) =~= x);
    found::lemma_spaced(x);
    encode::lemma_flat_paren(tokens);
    ext::lemma_selection_reads(x, t);
    reveal_strlit("(");
    reveal_strlit(")");
    reveal_strlit(" ");
    let y = found::spaced(x);
    assert(ascii::bytes_of("(") =~= seq![40u8]);
    assert(selection_text(Some(x)) + t =~= ascii::bytes_of("(") + y + ascii::bytes_of(")") + (
    ascii::bytes_of(" ") + t));
}

proof fn lemma_patterns(v: Seq<StringView>, parens: bool, t: Seq<u8>)
    requires
        v.len() > 0,
        !parens ==> v.len() == 1,
        forall|i: int| 0 <= i < v.len() ==> mailbox::list_mailbox_wf(#[trigger] v[i]),
        reading::ends(t),
    ensures
        ext::patterns_rule()(patterns_text(v, parens) + t) == Outcome::Done(t, (v, parens)),
{
    reveal_strlit("(");
    reveal_strlit(")");
    let open = ascii::bytes_of("(");
    assert(open =~= seq![40u8]);
    assert(ascii::bytes_of(")") =~= seq![41u8]);
    if parens {
        let tokens = encode::parts::<ListMailbox>(v);
        let written = v.map_values(|p: StringView| encode::flat(strings::string_tokens(p)));
        assert(written =~= encode::flat_parts(tokens));
        found::lemma_spaced(written);
        encode::lemma_flat_paren(tokens);
        ext::lemma_patterns_read(v, t);
    } else {
        let pat = encode::flat(strings::string_tokens(v[0]));
        assert(mailbox::list_mailbox_wf(v[0]));
        mailbox::lemma_list_mailbox_reads(v[0]);
        assert((pat + t)[0] == pat[0]);
        reading::lemma_tag_rejects(open, pat + t);
        assert(mailbox::list_mailbox_rule()(pat + t) == Outcome::Done(t, v[0]));
        assert(seq![v[0]] =~= v);
    }
}

/// The parts of a LIST command are read one by one.
#[verifier::spinoff_prover]
proof fn lemma_list_parts(
    word: Seq<u8>,
    selection: Option<Seq<Seq<u8>>>,
    reference: MailboxView,
    patterns: Seq<StringView>,
    parens: bool,
    options: Option<Seq<ListReturnView>>,
    t: Seq<u8>,
)
    requires
        texts::says(word, "LIST "@),
        is_list(selection, reference, patterns, parens, options),
        args::line_end(t),
    ensures
        ext::list_parts_rule()(
            word + (selection_text(selection) + (encode::flat(mailbox::mailbox_tokens(reference))
                + (seq![32u8] + (patterns_text(patterns, parens) + (return_text(options) + t))))),
        ) == Outcome::Done(
            t,
            ext::ListParts {
                selection,
                reference,
                patterns,
                multiple: parens,
                return_options: options,
            },
        ),
{
    let space = ascii::bytes_of(" ");
    reveal_strlit(" ");
    reveal_strlit("(");
    reveal_strlit("LIST ");
    reveal_strlit(" RETURN (");
    assert(space =~= seq![32u8]);
    let name = encode::flat(mailbox::mailbox_tokens(reference));
    let ret = return_text(options) + t;
    let pat = patterns_text(patterns, parens) + ret;
    let b = space + pat;
    let a = name + b;
    let sel = selection_text(selection);
    texts::lemma_word_reads(word, "LIST ", sel + a);
    assert(b[0] == 0x20);
    mailbox::lemma_mailbox_reads(reference);
    mailbox::lemma_mailbox_first(reference);
    assert(mailbox::mailbox_rule()(a) == Outcome::Done(b, reference));
    match selection {
        Some(x) => lemma_selection(x, a),
        None => {
            assert(sel + a =~= a);
            assert(a[0] == name[0]);
            reveal(ext::terminated_selection_rule);
            reading::lemma_tag_rejects(ascii::bytes_of("("), a);
        },
    }
    reading::lemma_tag_reads(space, pat);
    lemma_options(options);
    assert(reading::ends(ret)) by {
        if options is Some {
            assert(ret[0] == 0x20);
        } else {
            assert(ret =~= t);
        }
    }
    lemma_patterns(patterns, parens, ret);
    ext::lemma_return_options_read(options, t);
}

pub proof fn lemma_idle(selection: Seq<Seq<u8>>)
    ensures
        is_idle(selection) <==> !ext::selection_ok(selection),
{
    assert forall|i: int| 0 <= i < selection.len() implies texts::says(
        #[trigger] selection[i],
        "RECURSIVEMATCH"@,
    ) == ext::is_recursive_match(selection[i]) && texts::says(selection[i], "REMOTE"@)
        == ext::is_remote(selection[i]) by {
        lemma_selection_words(selection[i]);
    }
    if is_idle(selection) {
        let k = choose|i: int|
            0 <= i < selection.len() && texts::says(#[trigger] selection[i], "RECURSIVEMATCH"@);
        assert(ext::is_recursive_match(selection[k]));
    }
    if !ext::selection_ok(selection) {
        let k = choose|i: int|
            0 <= i < selection.len() && ext::is_recursive_match(#[trigger] selection[i]);
        assert(texts::says(selection[k], "RECURSIVEMATCH"@));
        assert forall|i: int| 0 <= i < selection.len() implies texts::says(
            #[trigger] selection[i],
            "RECURSIVEMATCH"@,
        ) || texts::says(selection[i], "REMOTE"@) by {
            assert(!(!ext::is_recursive_match(selection[i]) && !ext::is_remote(selection[i])));
        }
    }
}

// ------------------------------------------------------------------------ laws

/// A LIST command is read as what its text tells. Without a selection, without
/// parentheses around the pattern and without RETURN it is the plain command; with
/// any of them it is the extended one, with exactly that selection, reference,
/// patterns and options. A selection that could match nothing is refused.
#[verifier::spinoff_prover]
pub proof fn law_lists_are_read(
    word: Seq<u8>,
    selection: Option<Seq<Seq<u8>>>,
    reference: MailboxView,
    patterns: Seq<StringView>,
    parens: bool,
    options: Option<Seq<ListReturnView>>,
    t: Seq<u8>,
)
    requires
        texts::says(word, "LIST "@),
        is_list(selection, reference, patterns, parens, options),
        args::line_end(t),
    ensures
        ({
            let s = word + (selection_text(selection) + (encode::flat(
                mailbox::mailbox_tokens(reference),
            ) + (seq![32u8] + (patterns_text(patterns, parens) + (return_text(options) + t)))));
            let plain = selection is None && !parens && options is None;
            let idle = selection matches Some(x) && is_idle(x);
            &&& plain ==> ext::list_rule()(s) == Outcome::Done(
                t,
                BodyView::List { reference, mailbox_wildcard: patterns[0] },
            )
            &&& !plain && !idle ==> ext::list_rule()(s) == Outcome::Done(
                t,
                BodyView::ListExtended {
                    selection: (match selection {
                        Some(x) => x,
                        None => seq![],
                    }),
                    reference,
                    patterns,
                    return_options: options,
                },
            )
            &&& idle ==> ext::list_rule()(s) is Abort
        }),
{
    lemma_list_parts(word, selection, reference, patterns, parens, options, t);
    match selection {
        Some(x) => lemma_idle(x),
        None => lemma_idle(seq![]),
    }
    reveal(ext::list_rule);
}

/// The same of the whole line of a command.
#[verifier::spinoff_prover]
pub proof fn law_list_commands_are_read(
    tag: Seq<u8>,
    selection: Option<Seq<Seq<u8>>>,
    reference: MailboxView,
    patterns: Seq<StringView>,
    parens: bool,
    options: Option<Seq<ListReturnView>>,
    rest: Seq<u8>,
)
    requires
        tag.len() > 0,
        forall|i: int| 0 <= i < tag.len() ==> ascii::is_tag_char(#[trigger] tag[i]),
        is_list(selection, reference, patterns, parens, options),
    ensures
        ({
            let s = tag + seq![32u8] + list_text(selection, reference, patterns, parens, options)
                + seq![13u8, 10u8] + rest;
            let plain = selection is None && !parens && options is None;
            let idle = selection matches Some(x) && is_idle(x);
            &&& plain ==> command::command_rule()(s) == Outcome::Done(
                rest,
                CommandView {
                    tag,
                    body: BodyView::List { reference, mailbox_wildcard: patterns[0] },
                },
            )
            &&& !plain && !idle ==> command::command_rule()(s) == Outcome::Done(
                rest,
                CommandView {
                    tag,
                    body: BodyView::ListExtended {
                        selection: (match selection {
                            Some(x) => x,
                            None => seq![],
                        }),
                        reference,
                        patterns,
                        return_options: options,
                    },
                },
            )
            &&& idle ==> command::command_rule()(s) is Abort
        }),
{
    let t = seq![13u8, 10u8] + rest;
    let word = ascii::bytes_of("LIST ");
    let a = selection_text(selection);
    let b = encode::flat(mailbox::mailbox_tokens(reference));
    let c = patterns_text(patterns, parens);
    let d = return_text(options);
    let body = word + (a + (b + (seq![32u8] + (c + (d + t)))));
    reveal_strlit("LIST ");
    assert(texts::says(word, "LIST "@));
    assert(t[0] == 13);
    assert(body[0] == 'L' as u8);
    law_lists_are_read(word, selection, reference, patterns, parens, options, t);
    lemma_list_line(word, a, b, c, d, tag, rest);
    lemma_list_body(body);
    lemma_command_line(tag, body, rest);
}

proof fn lemma_list_line(
    word: Seq<u8>,
    a: Seq<u8>,
    b: Seq<u8>,
    c: Seq<u8>,
    d: Seq<u8>,
    tag: Seq<u8>,
    rest: Seq<u8>,
)
    ensures
        tag + seq![32u8] + (word + a + b + seq![32u8] + c + d) + seq![13u8, 10u8] + rest == tag + (
        seq![32u8] + (word + (a + (b + (seq![32u8] + (c + (d + (seq![13u8, 10u8] + rest)))))))),
{
    let t = seq![13u8, 10u8] + rest;
    assert((word + a + b + seq![32u8] + c + d) + t =~= word + (a + (b + (seq![32u8] + (c + (d
        + t))))));
    let x = word + a + b + seq![32u8] + c + d;
    assert(tag + seq![32u8] + x + seq![13u8, 10u8] + rest =~= tag + (seq![32u8] + (x + t)));
}

/// What LIST gives is what a command that starts like it gives.
proof fn lemma_list_body(body: Seq<u8>)
    requires
        body.len() > 0,
        body[0] == 'L' as u8,
        ext::list_rule()(body) is Done || ext::list_rule()(body) is Abort,
    ensures
        command::body_rule()(body) == ext::list_rule()(body),
{
    assert(ext::extended_search_rule()(body) is Reject) by {
        reveal(ext::extended_search_rule);
        reveal_strlit("SEARCH RETURN ");
        reading::lemma_tag_no_case_rejects(ascii::bytes_of("SEARCH RETURN "), body, 0);
    }
    reveal(command::body_rule);
}

/// A tag, a space, what a command asks for and the end of the line.
pub proof fn lemma_command_line(tag: Seq<u8>, body: Seq<u8>, rest: Seq<u8>)
    requires
        tag.len() > 0,
        forall|i: int| 0 <= i < tag.len() ==> ascii::is_tag_char(#[trigger] tag[i]),
    ensures
        command::body_rule()(body) matches Outcome::Done(r, v) && r == seq![13u8, 10u8] + rest
            ==> command::command_rule()(tag + (seq![32u8] + body)) == Outcome::Done(
            rest,
            CommandView { tag, body: command::body_rule()(body)->Done_1 },
        ),
        command::body_rule()(body) is Abort ==> command::command_rule()(
            tag + (seq![32u8] + body),
        ) is Abort,
{
    reveal_strlit("\r\n");
    reveal_strlit(" ");
    let space = ascii::bytes_of(" ");
    let crlf = ascii::bytes_of("\r\n");
    assert(space =~= seq![32u8]);
    assert(crlf =~= seq![13u8, 10u8]);
    let r = space + body;
    assert(r[0] == 32);
    reading::lemma_take_while1_reads(|x: u8| ascii::is_tag_char(x), tag, r);
    reading::lemma_tag_reads(space, body);
    reading::lemma_tag_reads(crlf, rest);
    reveal(command::command_rule);
}

/// A plain LIST comes only from a text that is LIST, a reference, a space and a
/// pattern, without parentheses around a selection or the pattern, and without
/// RETURN and options behind it.
#[verifier::spinoff_prover]
pub proof fn law_plain_lists_are_plain_texts(s: Seq<u8>)
    requires
        ext::list_rule()(s) matches Outcome::Done(_, b) && b is List,
    ensures
        ({
            let rest = ext::list_rule()(s)->Done_0;
            let body = ext::list_rule()(s)->Done_1;
            &&& s.len() > 5
            &&& texts::says(s.take(5), "LIST "@)
            &&& s[5] != 40
            &&& mailbox::mailbox_rule()(s.skip(5)) matches Outcome::Done(r, reference)
                && reference == body->List_reference && r.len() > 1 && r[0] == 32 && r[1] != 40
                && mailbox::list_mailbox_rule()(r.skip(1)) == Outcome::Done(
                rest,
                body->List_mailbox_wildcard,
            )
            &&& forall|x: Seq<ListReturnView>, t: Seq<u8>|
                are_options(x) && args::line_end(t) ==> rest != #[trigger] (return_text(Some(x))
                    + t)
        }),
{
    reveal(ext::list_rule);
    reveal(ext::terminated_selection_rule);
    reveal_strlit("LIST ");
    reveal_strlit(" ");
    reveal_strlit("(");
    let word = ascii::bytes_of("LIST ");
    let rest = ext::list_rule()(s)->Done_0;
    let a = s.skip(5);
    assert(s.len() >= 5 && ascii::same_word(s.take(5), word));
    texts::lemma_says(s.take(5), "LIST ");
    assert(g::word("LIST ")(s) == Outcome::Done(a, ()));
    let r = mailbox::mailbox_rule()(a)->Done_0;
    assert(mailbox::mailbox_rule()(a) is Done);
    let q = r.skip(1);
    assert(r.len() >= 1);
    assert(r.take(1) == ascii::bytes_of(" "));
    assert(r.take(1)[0] == r[0]);
    lemma_mailbox_needs_more(a);
    lemma_pattern_needs_more(q);
    assert(ext::patterns_rule()(q) is Done);
    assert(s[5] == a[0]);
    assert(r[1] == q[0]);
    assert forall|x: Seq<ListReturnView>, t: Seq<u8>|
        are_options(x) && args::line_end(t) implies rest != #[trigger] (return_text(Some(x)) + t) by {
        if rest == return_text(Some(x)) + t {
            lemma_options(Some(x));
            ext::lemma_return_options_read(Some(x), t);
        }
    }
}

/// A mailbox starts with no parenthesis, and is not empty.
proof fn lemma_mailbox_needs_more(s: Seq<u8>)
    requires
        mailbox::mailbox_rule()(s) is Done,
    ensures
        s.len() > 0,
        s[0] != 40,
{
    reveal(mailbox::mailbox_rule);
    reveal(strings::astring_rule);
    let class = |x: u8| ascii::is_astring_char(x);
    if s.len() == 0 {
        g::lemma_run_length_is(s, class, 0);
    } else if s[0] == 40 {
        strings::lemma_string_rejects(s);
    }
}

proof fn lemma_pattern_needs_more(s: Seq<u8>)
    requires
        mailbox::list_mailbox_rule()(s) is Done,
    ensures
        s.len() > 0,
        s[0] != 40,
{
    reveal(mailbox::list_mailbox_rule);
    let class = |x: u8| ascii::is_list_char(x);
    if s.len() == 0 || s[0] == 40 {
        g::lemma_run_length_is(s, class, 0);
        if s.len() > 0 {
            strings::lemma_string_rejects(s);
        }
    }
}

/// A return option of LIST is read as what its name asks for, in any case of its
/// letters; parameters make it an extension.
pub proof fn law_list_options(
    name: Seq<u8>,
    parameters: Option<ValueView>,
    v: ListReturnView,
    t: Seq<u8>,
)
    requires
        texts::is_name(name),
        parameters matches Some(p) ==> texts::is_value(p),
        asks(name, parameters, v),
        !asks_status(name, parameters),
        found::behind_option(t),
    ensures
        ext::list_return_rule()(found::option_text(name, parameters) + t) == Outcome::Done(t, v),
{
    lemma_return_words(name);
    found::lemma_option_text(name, parameters);
    texts::lemma_name(name);
    found::lemma_behind_option(t);
    if let Some(p) = parameters {
        texts::lemma_value(p);
    }
    ext::lemma_option_reads(name, parameters, t);
    ext::lemma_option_is_no_status(name, parameters, t);
    reveal(ext::list_return_rule);
}

/// Data that extends what LIST tells of a mailbox.
pub open spec fn is_extension(e: ListExtensionView) -> bool {
    strings::string_wf(e.tag) && texts::is_value(e.value)
}

pub open spec fn extension_text(e: ListExtensionView) -> Seq<u8> {
    encode::flat(strings::string_tokens(e.tag)) + seq![32u8] + found::value_text(e.value)
}

proof fn lemma_extension(e: ListExtensionView)
    requires
        is_extension(e),
    ensures
        ext::list_extension_wf(e),
        extension_text(e) == encode::flat(ext::list_extension_tokens(e)),
{
    texts::lemma_value(e.value);
    lemma_extension_text(e);
}

proof fn lemma_extension_text(e: ListExtensionView)
    ensures
        extension_text(e) == encode::flat(ext::list_extension_tokens(e)),
{
    let a = strings::string_tokens(e.tag);
    encode::lemma_flat_add(a + encode::word(" "), ext::value_tokens(e.value));
    encode::lemma_flat_add(a, encode::word(" "));
    encode::lemma_flat_word(" ");
    reveal_strlit(" ");
    assert(ascii::bytes_of(" ") =~= seq![32u8]);
    if let ValueView::Simple(b) = e.value {
        encode::lemma_flat_plain(b);
    }
}

/// What LIST tells of a mailbox, with data that extends it, is read as the
/// attributes, the delimiter, the mailbox and the data that the text tells.
#[verifier::spinoff_prover]
pub proof fn law_list_data_is_read(
    items: Seq<Seq<u8>>,
    delimiter: Option<u8>,
    mailbox: MailboxView,
    extensions: Seq<ListExtensionView>,
    rest: Seq<u8>,
)
    requires
        mailbox::mailbox_list_wf((items, delimiter, mailbox)),
        forall|i: int| 0 <= i < extensions.len() ==> is_extension(#[trigger] extensions[i]),
    ensures
        response::response_rule()(
            ascii::bytes_of("* LIST ") + encode::flat(
                mailbox::mailbox_list_tokens((items, delimiter, mailbox)),
            ) + ascii::bytes_of(" (") + found::spaced(
                extensions.map_values(|e: ListExtensionView| extension_text(e)),
            ) + seq![41u8, 13u8, 10u8] + rest,
        ) == Outcome::Done(
            rest,
            ResponseView::Data(
                DataView::ListExtended { items, delimiter, mailbox, extensions },
            ),
        ),
{
    let d = DataView::ListExtended { items, delimiter, mailbox, extensions };
    let r = ResponseView::Data(d);
    let tokens = encode::parts::<ListExtension>(extensions);
    let written = extensions.map_values(|e: ListExtensionView| extension_text(e));
    assert forall|i: int| 0 <= i < extensions.len() implies ext::list_extension_wf(
        #[trigger] extensions[i],
    ) by {
        lemma_extension(extensions[i]);
    }
    assert forall|i: int| 0 <= i < extensions.len() implies #[trigger] written[i]
        == encode::flat_parts(tokens)[i] by {
        lemma_extension(extensions[i]);
    }
    assert(written =~= encode::flat_parts(tokens));
    found::lemma_spaced(written);
    encode::lemma_flat_paren(tokens);
    ext::lemma_list_data_text(items, delimiter, mailbox, extensions);
    response::law_response_is_read_back(r, rest);
    encode::lemma_flat_add(response::line_tokens(r), encode::word("\r\n"));
    encode::lemma_flat_word("\r\n");
    reveal_strlit("\r\n");
    reveal_strlit("* LIST ");
    reveal_strlit("* ");
    reveal_strlit("LIST ");
    reveal_strlit(" (");
    reveal_strlit(" ");
    reveal_strlit("(");
    reveal_strlit(")");
    let a = encode::flat(mailbox::mailbox_list_tokens((items, delimiter, mailbox)));
    let b = found::spaced(written);
    let star = ascii::bytes_of("* ");
    let list = ascii::bytes_of("LIST ");
    let sp = ascii::bytes_of(" ");
    let open = ascii::bytes_of("(");
    let close = ascii::bytes_of(")");
    let crlf = ascii::bytes_of("\r\n");
    assert(ascii::bytes_of("* LIST ") =~= star + list);
    assert(ascii::bytes_of(" (") =~= sp + open);
    assert(seq![41u8, 13u8, 10u8] =~= close + crlf);
    lemma_regroup(star, list, a, sp, open, b, close, crlf, rest);
}

proof fn lemma_regroup(
    star: Seq<u8>,
    list: Seq<u8>,
    a: Seq<u8>,
    sp: Seq<u8>,
    open: Seq<u8>,
    b: Seq<u8>,
    close: Seq<u8>,
    crlf: Seq<u8>,
    rest: Seq<u8>,
)
    ensures
        (star + (list + (a + (sp + (open + b + close))))) + crlf + rest == (star + list) + a + (sp
            + open) + b + (close + crlf) + rest,
{
    assert((star + (list + (a + (sp + (open + b + close))))) + crlf =~= (star + list) + a + (sp
        + open) + b + (close + crlf));
}

// --------------------------------------------------------------------- writing

/// A return option is written by its name, and parameters behind a space.
pub proof fn law_list_options_are_written(v: ListReturnView)
    ensures
        encode::flat(ext::list_return_tokens(v)) == asking_text(v),
{
    encode::lemma_flat_word("SUBSCRIBED");
    encode::lemma_flat_word("CHILDREN");
    encode::lemma_flat_word("SPECIAL-USE");
    match v {
        ListReturnView::Extension { name, parameters } => {
            found::lemma_option_text(name, parameters);
        },
        ListReturnView::Status(names) => lemma_status_text(names),
        _ => {},
    }
}

proof fn lemma_return_text(v: Option<Seq<ListReturnView>>)
    ensures
        return_text(v) == encode::flat(ext::return_options_tokens(v)),
{
    if let Some(x) = v {
        let tokens = encode::parts::<ListReturn>(x);
        let written = x.map_values(|o: ListReturnView| asking_text(o));
        assert forall|i: int| 0 <= i < x.len() implies #[trigger] written[i] == encode::flat_parts(
            tokens,
        )[i] by {
            law_list_options_are_written(x[i]);
        }
        assert(written =~= encode::flat_parts(tokens));
        found::lemma_spaced(written);
        ext::lemma_return_options_text(x);
        let a = ascii::bytes_of(" RETURN ");
        let b = ascii::bytes_of("(");
        let c = ascii::bytes_of(")");
        let y = found::spaced(written);
        reveal_strlit(" RETURN (");
        reveal_strlit(" RETURN ");
        reveal_strlit("(");
        reveal_strlit(")");
        assert(ascii::bytes_of(" RETURN (") =~= a + b);
        assert(c =~= seq![41u8]);
        assert((a + b) + y + c =~= a + (b + y + c));
    }
}

/// A LIST command with extensions is written with its selection and its patterns
/// in parentheses, and with RETURN and its options where it has any.
#[verifier::spinoff_prover]
pub proof fn law_extended_lists_are_written(
    selection: Seq<Seq<u8>>,
    reference: MailboxView,
    patterns: Seq<StringView>,
    options: Option<Seq<ListReturnView>>,
)
    ensures
        encode::flat(
            command::body_tokens(
                BodyView::ListExtended { selection, reference, patterns, return_options: options },
            ),
        ) == list_text(Some(selection), reference, patterns, true, options),
{
    let sel = encode::parts::<Atom>(selection);
    let pat = encode::parts::<ListMailbox>(patterns);
    let a = encode::word("LIST (");
    let b = encode::joined(sel, encode::word(" "));
    let c = encode::word(") ");
    let d = mailbox::mailbox_tokens(reference);
    let e = encode::word(" (");
    let f = encode::joined(pat, encode::word(" "));
    let h = encode::word(")");
    let r = ext::return_options_tokens(options);
    encode::lemma_flat_word("LIST (");
    encode::lemma_flat_word(") ");
    encode::lemma_flat_word(" (");
    encode::lemma_flat_word(")");
    encode::lemma_flat_word(" ");
    encode::lemma_flat_joined(sel, encode::word(" "));
    encode::lemma_flat_joined(pat, encode::word(" "));
    encode::lemma_flat_add(a, b);
    encode::lemma_flat_add(a + b, c);
    encode::lemma_flat_add(a + b + c, d);
    encode::lemma_flat_add(a + b + c + d, e);
    encode::lemma_flat_add(a + b + c + d + e, f);
    encode::lemma_flat_add(a + b + c + d + e + f, h);
    encode::lemma_flat_add(a + b + c + d + e + f + h, r);
    lemma_return_text(options);
    assert forall|i: int| 0 <= i < selection.len() implies #[trigger] encode::flat_parts(sel)[i]
        == selection[i] by {
        encode::lemma_flat_plain(selection[i]);
    }
    assert(encode::flat_parts(sel) =~= selection);
    let written = patterns.map_values(|p: StringView| encode::flat(strings::string_tokens(p)));
    assert(written =~= encode::flat_parts(pat));
    found::lemma_spaced(selection);
    found::lemma_spaced(written);
    lemma_list_groups(
        found::spaced(selection),
        encode::flat(d),
        found::spaced(written),
        encode::flat(r),
    );
}

proof fn lemma_list_groups(sel: Seq<u8>, name: Seq<u8>, pat: Seq<u8>, ret: Seq<u8>)
    ensures
        ascii::bytes_of("LIST (") + sel + ascii::bytes_of(") ") + name + ascii::bytes_of(" (") + pat
            + ascii::bytes_of(")") + ret == ascii::bytes_of("LIST ") + (seq![40u8] + sel + seq![
            41u8,
            32u8,
        ]) + name + seq![32u8] + (seq![40u8] + pat + seq![41u8]) + ret,
{
    reveal_strlit("LIST (");
    reveal_strlit("LIST ");
    reveal_strlit(") ");
    reveal_strlit(" (");
    reveal_strlit(")");
    let w = ascii::bytes_of("LIST ");
    assert(ascii::bytes_of("LIST (") =~= w + seq![40u8]);
    assert(ascii::bytes_of(") ") =~= seq![41u8, 32u8]);
    assert(ascii::bytes_of(" (") =~= seq![32u8] + seq![40u8]);
    assert(ascii::bytes_of(")") =~= seq![41u8]);
    assert((w + seq![40u8]) + sel + seq![41u8, 32u8] + name + (seq![32u8] + seq![40u8]) + pat
        + seq![41u8] =~= w + (seq![40u8] + sel + seq![41u8, 32u8]) + name + seq![32u8] + (seq![40u8]
        + pat + seq![41u8]));
}

/// A plain LIST command is written with its reference and its pattern.
pub proof fn law_plain_lists_are_written(reference: MailboxView, wildcard: StringView)
    ensures
        encode::flat(
            command::body_tokens(BodyView::List { reference, mailbox_wildcard: wildcard }),
        ) == list_text(None, reference, seq![wildcard], false, None),
{
    let w = encode::word("LIST ");
    let m = mailbox::mailbox_tokens(reference);
    let p = strings::string_tokens(wildcard);
    encode::lemma_flat_word("LIST ");
    encode::lemma_flat_word(" ");
    encode::lemma_flat_add(w + m, args::argument(p));
    encode::lemma_flat_add(w, m);
    encode::lemma_flat_add(encode::word(" "), p);
    reveal_strlit(" ");
    let a = ascii::bytes_of("LIST ");
    let b = encode::flat(m);
    let c = encode::flat(p);
    let none = Seq::<u8>::empty();
    assert(ascii::bytes_of(" ") =~= seq![32u8]);
    assert((a + b) + (seq![32u8] + c) =~= a + none + b + seq![32u8] + c + none);
}

/// What LIST tells of a mailbox is written with the data that extends it in
/// parentheses.
#[verifier::spinoff_prover]
pub proof fn law_list_data_is_written(
    items: Seq<Seq<u8>>,
    delimiter: Option<u8>,
    mailbox: MailboxView,
    extensions: Seq<ListExtensionView>,
)
    ensures
        encode::flat(
            response::data_tokens(
                DataView::ListExtended { items, delimiter, mailbox, extensions },
            ),
        ) == ascii::bytes_of("* LIST ") + encode::flat(
            mailbox::mailbox_list_tokens((items, delimiter, mailbox)),
        ) + ascii::bytes_of(" (") + found::spaced(
            extensions.map_values(|e: ListExtensionView| extension_text(e)),
        ) + seq![41u8],
{
    let tokens = encode::parts::<ListExtension>(extensions);
    let written = extensions.map_values(|e: ListExtensionView| extension_text(e));
    assert forall|i: int| 0 <= i < extensions.len() implies #[trigger] written[i]
        == encode::flat_parts(tokens)[i] by {
        lemma_extension_text(extensions[i]);
    }
    assert(written =~= encode::flat_parts(tokens));
    found::lemma_spaced(written);
    encode::lemma_flat_paren(tokens);
    ext::lemma_list_data_text(items, delimiter, mailbox, extensions);
    reveal_strlit("* LIST ");
    reveal_strlit("* ");
    reveal_strlit("LIST ");
    reveal_strlit(" (");
    reveal_strlit(" ");
    reveal_strlit("(");
    reveal_strlit(")");
    let a = encode::flat(mailbox::mailbox_list_tokens((items, delimiter, mailbox)));
    let b = found::spaced(written);
    let star = ascii::bytes_of("* ");
    let list = ascii::bytes_of("LIST ");
    let sp = ascii::bytes_of(" ");
    let open = ascii::bytes_of("(");
    let close = ascii::bytes_of(")");
    assert(ascii::bytes_of("* LIST ") =~= star + list);
    assert(ascii::bytes_of(" (") =~= sp + open);
    assert(close =~= seq![41u8]);
    assert(star + (list + (a + (sp + (open + b + close)))) =~= (star + list) + a + (sp + open) + b
        + close);
}

/// The words in front of LIST and of what it tells are read in any case of their
/// letters, and nothing is read without them.
pub proof fn law_list_words(b: Seq<u8>, s: Seq<u8>)
    ensures
        texts::says(b, "LIST "@) ==> ext::list_rule()(b + s) == ext::list_rule()(
            ascii::bytes_of("LIST ") + s,
        ),
        texts::says(b, "LIST "@) ==> ext::list_data_rule()(b + s) == ext::list_data_rule()(
            ascii::bytes_of("LIST ") + s,
        ),
        ext::list_rule()(s) is Done || ext::list_data_rule()(s) is Done ==> s.len() >= 5
            && texts::says(s.take(5), "LIST "@),
{
    reveal(ext::list_rule);
    reveal(ext::list_data_rule);
    reveal_strlit("LIST ");
    let e = ascii::bytes_of("LIST ");
    reading::lemma_tag_no_case_reads(e, s);
    if texts::says(b, "LIST "@) {
        texts::lemma_word_reads(b, "LIST ", s);
    }
    if s.len() >= 5 {
        texts::lemma_says(s.take(5), "LIST ");
    }
}

/// RETURN is read in any case of its letters: the command is the same.
pub proof fn law_return_in_any_case(
    w: Seq<u8>,
    selection: Option<Seq<Seq<u8>>>,
    reference: MailboxView,
    patterns: Seq<StringView>,
    parens: bool,
    options: Seq<ListReturnView>,
    t: Seq<u8>,
)
    requires
        texts::says(w, " RETURN "@),
        is_list(selection, reference, patterns, parens, Some(options)),
        args::line_end(t),
    ensures
        ({
            let start = ascii::bytes_of("LIST ") + (selection_text(selection) + (encode::flat(
                mailbox::mailbox_tokens(reference),
            ) + (seq![32u8] + patterns_text(patterns, parens))));
            let list = seq![40u8] + found::spaced(
                options.map_values(|o: ListReturnView| asking_text(o)),
            ) + seq![41u8];
            ext::list_rule()(start + (w + (list + t))) == ext::list_rule()(
                start + (ascii::bytes_of(" RETURN ") + (list + t)),
            )
        }),
{
    let word = ascii::bytes_of("LIST ");
    let ret = ascii::bytes_of(" RETURN ");
    let sel = selection_text(selection);
    let name = encode::flat(mailbox::mailbox_tokens(reference));
    let pat = patterns_text(patterns, parens);
    let list = seq![40u8] + found::spaced(options.map_values(|o: ListReturnView| asking_text(o)))
        + seq![41u8];
    let start = word + (sel + (name + (seq![32u8] + pat)));
    reveal_strlit(" RETURN ");
    assert(texts::says(ret, " RETURN "@));
    lemma_list_front(selection, reference, patterns, parens, w, list + t);
    lemma_list_front(selection, reference, patterns, parens, ret, list + t);
    texts::lemma_word_reads(w, " RETURN ", list + t);
    texts::lemma_word_reads(ret, " RETURN ", list + t);
    let q = g::paren_list0(ext::list_return_rule())(list + t);
    assert(q is Done) by {
        lemma_options(Some(options));
        ext::lemma_return_options_read(Some(options), t);
        reveal_strlit(" RETURN (");
        assert(return_text(Some(options)) + t =~= ret + (list + t)) by {
            let y = found::spaced(options.map_values(|o: ListReturnView| asking_text(o)));
            assert(ascii::bytes_of(" RETURN (") =~= ret + seq![40u8]);
        }
    }
    reveal(ext::list_rule);
}

/// What stands in front of RETURN is read, whatever follows it.
proof fn lemma_list_front(
    selection: Option<Seq<Seq<u8>>>,
    reference: MailboxView,
    patterns: Seq<StringView>,
    parens: bool,
    w: Seq<u8>,
    rest: Seq<u8>,
)
    requires
        texts::says(w, " RETURN "@),
        is_list(selection, reference, patterns, parens, None),
    ensures
        ({
            let s = ascii::bytes_of("LIST ") + (selection_text(selection) + (encode::flat(
                mailbox::mailbox_tokens(reference),
            ) + (seq![32u8] + patterns_text(patterns, parens)))) + (w + rest);
            let after = g::opt(
                g::preceded(g::word(" RETURN "), g::paren_list0(ext::list_return_rule())),
            )(w + rest);
            after matches Outcome::Done(r, o) ==> ext::list_parts_rule()(s) == Outcome::Done(
                r,
                ext::ListParts {
                    selection,
                    reference,
                    patterns,
                    multiple: parens,
                    return_options: o,
                },
            )
        }),
{
    let word = ascii::bytes_of("LIST ");
    let space = ascii::bytes_of(" ");
    reveal_strlit(" ");
    reveal_strlit("(");
    reveal_strlit(" RETURN ");
    assert(space =~= seq![32u8]);
    let name = encode::flat(mailbox::mailbox_tokens(reference));
    let ret = w + rest;
    let pat = patterns_text(patterns, parens) + ret;
    let b = space + pat;
    let a = name + b;
    let sel = selection_text(selection);
    let s = word + (sel + (name + (seq![32u8] + patterns_text(patterns, parens)))) + (w + rest);
    assert(s =~= word + (sel + a));
    reading::lemma_tag_no_case_reads(word, sel + a);
    assert(b[0] == 0x20);
    mailbox::lemma_mailbox_reads(reference);
    mailbox::lemma_mailbox_first(reference);
    assert(mailbox::mailbox_rule()(a) == Outcome::Done(b, reference));
    match selection {
        Some(x) => lemma_selection(x, a),
        None => {
            assert(sel + a =~= a);
            assert(a[0] == name[0]);
            reveal(ext::terminated_selection_rule);
            reading::lemma_tag_rejects(ascii::bytes_of("("), a);
        },
    }
    reading::lemma_tag_reads(space, pat);
    assert(texts::raised(w[0]) as char == ' ');
    assert(ret[0] == 0x20);
    lemma_patterns(patterns, parens, ret);
}

/// STATUS is read in any case of its letters, with the items behind it.
pub proof fn law_status_in_any_case(w: Seq<u8>, names: Seq<StatusDataItemName>, t: Seq<u8>)
    requires
        texts::says(w, "STATUS "@),
        names.len() > 0,
    ensures
        ext::list_return_rule()(
            w + (seq![40u8] + found::spaced(
                names.map_values(|n: StatusDataItemName| status::status_text(n)),
            ) + seq![41u8] + t),
        ) == Outcome::Done(t, ListReturnView::Status(names)),
{
    let written = names.map_values(|n: StatusDataItemName| status::status_text(n));
    reveal_strlit("STATUS ");
    reveal_strlit("(");
    reveal_strlit(")");
    assert(ascii::bytes_of("(") =~= seq![40u8]);
    assert(ascii::bytes_of(")") =~= seq![41u8]);
    found::lemma_spaced(written);
    assert forall|i: int| 0 <= i < written.len() implies reading::reads(
        status::status_att_rule(),
        #[trigger] written[i],
        names[i],
    ) by {
        status::lemma_status_att_reads(names[i]);
    }
    reading::lemma_parens_reads(status::status_att_rule(), written, names, t);
    texts::lemma_word_reads(
        w,
        "STATUS ",
        seq![40u8] + found::spaced(written) + seq![41u8] + t,
    );
    reveal(ext::list_return_rule);
}

} // verus!
