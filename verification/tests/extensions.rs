use imap_codec::codec::{
    CommandCodec, CommandDecodeError, ResponseCodec, ResponseDecodeError,
};
use imap_codec::command::CommandBody;
use imap_codec::encode::{EncodeContext, EncodeIntoContext};
use imap_codec::extensions::condstore_qresync::{
    attr_flag, entry_flag_name, entry_name, entry_type_req, mod_sequence_value,
    mod_sequence_valzer, search_modseq_ext, search_modsequence, search_sort_mod_seq,
    write_search_modsequence, AttributeFlag, EntryTypeReq,
};
use imap_codec::extensions::rev2::{
    encode_esearch, encode_list_data, esearch, extended_search, list, list_data, message_set,
    number63, nz_number63,
};
use imap_codec::grammar::{IMAPErrorKind, IMAPParseError};
use imap_codec::mailbox::Mailbox;
use imap_codec::response::{Data, Response};
use imap_codec::rev2::{
    ExtensionComponent, ExtensionValue, ListReturn, MessageSet, SearchReturn, ValidationError,
};
use imap_codec::sequence::{SeqOrUid, Sequence, SequenceSet};
use imap_codec::status::StatusDataItemName;
use imap_codec::strings::{AString, Atom, AtomExt, Charset};

const REST: &[u8] = b" ";

fn atom(text: &str) -> Atom {
    Atom { bytes: text.as_bytes().to_vec() }
}

fn word(text: &str) -> ExtensionComponent {
    ExtensionComponent::String(AString::Atom(AtomExt { bytes: text.as_bytes().to_vec() }))
}

fn single(n: u32) -> Sequence {
    Sequence::Single(SeqOrUid::Value(n))
}

fn written<T: EncodeIntoContext>(value: &T) -> Vec<u8> {
    let mut ctx = EncodeContext::new();
    value.encode_ctx(&mut ctx);
    ctx.into_encoded().dump()
}

fn body(wire: &[u8]) -> CommandBody {
    CommandCodec::default().decode(wire).unwrap().1.body
}

fn data(wire: &[u8]) -> Data {
    match ResponseCodec::default().decode(wire).unwrap().1 {
        Response::Data(d) => d,
        other => panic!("{other:?}"),
    }
}

#[test]
fn message_sets_from_texts_and_numbers() {
    assert_eq!(MessageSet::try_from("$"), Ok(MessageSet::SearchResult));
    let set = SequenceSet(vec![
        single(1),
        Sequence::Range(SeqOrUid::Value(3), SeqOrUid::Asterisk),
    ]);
    assert_eq!(MessageSet::try_from("1,3:*"), Ok(MessageSet::from(set)));
    for text in ["", "$,1", "1:$", "0", "01", "1,", "1:2:3", "4294967296", "\u{131}"] {
        assert_eq!(MessageSet::try_from(text), Err(ValidationError), "{text}");
    }
    let seven = MessageSet::SequenceSet(SequenceSet(vec![single(7)]));
    assert_eq!(MessageSet::try_from(7u32), Ok(seven.clone()));
    assert_eq!(MessageSet::try_from(7i32), Ok(seven));
    assert_eq!(MessageSet::try_from(0u32), Err(ValidationError));
    assert_eq!(MessageSet::try_from(0i32), Err(ValidationError));
    assert_eq!(MessageSet::try_from(-1i32), Err(ValidationError));
}

#[test]
fn message_sets_are_read_and_written() {
    assert_eq!(message_set(b"$ "), Ok((REST, MessageSet::SearchResult)));
    assert_eq!(
        message_set(b"2,4 "),
        Ok((REST, MessageSet::SequenceSet(SequenceSet(vec![single(2), single(4)]))))
    );
    assert_eq!(message_set(b"x "), Err(IMAPParseError::Error));
    assert_eq!(message_set(b""), Err(IMAPParseError::Incomplete));
    assert_eq!(message_set(b"2"), Err(IMAPParseError::Incomplete));
    assert_eq!(written(&MessageSet::SearchResult), b"$");
    let set = MessageSet::try_from("10:20,42").unwrap();
    assert_eq!(written(&set), b"10:20,42");
}

#[test]
fn numbers_of_63_bits() {
    assert_eq!(number63(b"0 "), Ok((REST, 0)));
    assert_eq!(number63(b"9223372036854775807 "), Ok((REST, i64::MAX as u64)));
    assert_eq!(number63(b"9223372036854775808 "), Err(IMAPParseError::Error));
    assert_eq!(number63(b"18446744073709551616 "), Err(IMAPParseError::Error));
    assert_eq!(number63(b"12"), Err(IMAPParseError::Incomplete));
    assert_eq!(nz_number63(b"1 "), Ok((REST, 1)));
    assert_eq!(nz_number63(b"0 "), Err(IMAPParseError::Error));
    assert_eq!(mod_sequence_valzer(b"0 "), Ok((REST, 0)));
    assert_eq!(mod_sequence_value(b"0 "), Err(IMAPParseError::Error));
    assert_eq!(mod_sequence_value(b"5 "), Ok((REST, 5)));
}

#[test]
fn search_modsequences() {
    assert_eq!(search_sort_mod_seq(b"(MODSEQ 917) "), Ok((REST, 917)));
    assert_eq!(search_sort_mod_seq(b"(modseq 0) "), Err(IMAPParseError::Error));
    let answered = AttributeFlag::system(atom("Answered"));
    assert_eq!(attr_flag(b"\\\\Answered\""), Ok((b"\"".as_slice(), answered.clone())));
    assert_eq!(
        attr_flag(b"$Junk\""),
        Ok((b"\"".as_slice(), AttributeFlag::Keyword(atom("$Junk"))))
    );
    assert_eq!(attr_flag(br#"\\Recent""#), Err(IMAPParseError::Error));
    assert_eq!(attr_flag(br#"\\RECENT""#), Err(IMAPParseError::Error));
    assert_eq!(
        attr_flag(br#"\\Recently""#),
        Ok((b"\"".as_slice(), AttributeFlag::system(atom("Recently"))))
    );
    assert_eq!(
        attr_flag(b"Recent\""),
        Ok((b"\"".as_slice(), AttributeFlag::Keyword(atom("Recent"))))
    );
    assert_eq!(entry_flag_name(br#""/flags/\\Recent" "#), Err(IMAPParseError::Error));
    assert_eq!(
        search_modsequence(br#"MODSEQ "/flags/\\Recent" all 1 "#),
        Err(IMAPParseError::Error)
    );
    assert_eq!(
        CommandCodec::default().decode(b"A SEARCH MODSEQ \"/flags/\\\\Recent\" all 1\r\n"),
        Err(CommandDecodeError::Failed)
    );
    assert_eq!(entry_flag_name(b"\"/FLAGS/\\\\Answered\" "), Ok((REST, answered.clone())));
    assert_eq!(entry_name(b"\"/flags/x\" "), Ok((REST, AttributeFlag::Keyword(atom("x")))));
    assert_eq!(entry_name(b"\"/other/x\" "), Err(IMAPParseError::Error));
    for (text, kind) in [
        (b"priv ".as_slice(), EntryTypeReq::Private),
        (b"SHARED ", EntryTypeReq::Shared),
        (b"all ", EntryTypeReq::All),
    ] {
        assert_eq!(entry_type_req(text), Ok((REST, kind)));
    }
    assert_eq!(entry_type_req(b"none "), Err(IMAPParseError::Error));
    let entry = (answered, EntryTypeReq::All);
    assert_eq!(
        search_modseq_ext(b" \"/flags/\\\\Answered\" all "),
        Ok((REST, entry.clone()))
    );
    assert_eq!(
        search_modsequence(b"MODSEQ \"/flags/\\\\Answered\" all 620162338 "),
        Ok((REST, (Some(entry.clone()), 620162338)))
    );
    assert_eq!(search_modsequence(b"MODSEQ 0 "), Ok((REST, (None, 0))));
    let mut ctx = EncodeContext::new();
    write_search_modsequence(&Some(entry), 620162338, &mut ctx);
    assert_eq!(
        ctx.into_encoded().dump(),
        b"MODSEQ \"/flags/\\\\Answered\" all 620162338"
    );
    let mut ctx = EncodeContext::new();
    write_search_modsequence(&None, 7, &mut ctx);
    assert_eq!(ctx.into_encoded().dump(), b"MODSEQ 7");
}

#[test]
fn search_options_with_and_without_parameters() {
    let (rest, read) =
        extended_search(b"search return (min MAX ALL COUNT SAVE MIN 4 X-Y (a (b c))) CHARSET UTF-8 ALL\r\n")
            .unwrap();
    assert_eq!(rest, b"\r\n");
    match read {
        CommandBody::SearchExtended { return_options, charset, criteria, uid } => {
            assert_eq!(
                return_options,
                vec![
                    SearchReturn::Min,
                    SearchReturn::Max,
                    SearchReturn::All,
                    SearchReturn::Count,
                    SearchReturn::Save,
                    SearchReturn::Extension {
                        name: atom("MIN"),
                        parameters: Some(ExtensionValue::Simple(atom("4"))),
                    },
                    SearchReturn::Extension {
                        name: atom("X-Y"),
                        parameters: Some(ExtensionValue::List(vec![
                            word("a"),
                            ExtensionComponent::List(vec![word("b"), word("c")]),
                        ])),
                    },
                ]
            );
            assert_eq!(charset, Some(Charset::Atom(atom("UTF-8"))));
            assert_eq!(criteria.len(), 1);
            assert!(!uid);
        }
        other => panic!("{other:?}"),
    }
    assert_eq!(extended_search(b"SEARCH RETURN MIN ALL\r\n"), Err(IMAPParseError::Error));
    let command = CommandCodec::default()
        .decode(b"a uid search return (count x (y)) 1:4\r\n")
        .unwrap()
        .1;
    assert_eq!(
        CommandCodec::default().encode(&command).dump(),
        b"a UID SEARCH RETURN (COUNT x (y)) 1:4\r\n"
    );
}

#[test]
fn nesting_of_extension_values_is_bounded() {
    let nested = |depth: usize| {
        let mut text = b"* ESEARCH X ".to_vec();
        text.extend(vec![b'('; depth]);
        text.push(b'a');
        text.extend(vec![b')'; depth]);
        text.extend(b"\r\n");
        text
    };
    assert!(ResponseCodec::default().decode(&nested(16)).is_ok());
    assert_eq!(
        ResponseCodec::default().decode(&nested(17)),
        Err(ResponseDecodeError::Failed)
    );
    assert_eq!(
        esearch(&nested(17)[2..]),
        Err(IMAPParseError::Failure(IMAPErrorKind::RecursionLimitExceeded))
    );
}

#[test]
fn extended_search_results() {
    let (rest, read) = esearch(b"ESEARCH (TAG a1) UID MIN 2 ALL 2,10:20 NEW (x)\r\n").unwrap();
    assert_eq!(rest, b"\r\n");
    match read {
        Data::ESearch { tag, uid, items } => {
            assert_eq!(tag, Some(AString::Atom(AtomExt { bytes: b"a1".to_vec() })));
            assert!(uid);
            let names: Vec<&[u8]> = items.iter().map(|i| i.name.bytes.as_slice()).collect();
            assert_eq!(names, [b"MIN".as_slice(), b"ALL", b"NEW"]);
            assert_eq!(items[1].value, ExtensionValue::Simple(atom("2,10:20")));
            assert_eq!(items[2].value, ExtensionValue::List(vec![word("x")]));
            let mut ctx = EncodeContext::new();
            encode_esearch(&tag, uid, &items, &mut ctx);
            assert_eq!(
                ctx.into_encoded().dump(),
                b"* ESEARCH (TAG a1) UID MIN 2 ALL 2,10:20 NEW (x)"
            );
        }
        other => panic!("{other:?}"),
    }
    // What is no item ends the list; the message then goes on wrongly.
    let (rest, _) = esearch(b"ESEARCH COUNT 1 MAX 0\r\n").unwrap();
    assert_eq!(rest, b" MAX 0\r\n");
    let (rest, _) = esearch(b"ESEARCH MAX 4294967295 COUNT 4294967295\r\n").unwrap();
    assert_eq!(rest, b"\r\n");
    let (rest, _) = esearch(b"ESEARCH MAX 4294967296\r\n").unwrap();
    assert_eq!(rest, b" MAX 4294967296\r\n");
    let (rest, _) = esearch(b"ESEARCH MODSEQ 4:5\r\n").unwrap();
    assert_eq!(rest, b" MODSEQ 4:5\r\n");
}

#[test]
fn list_commands_plain_and_extended() {
    match list(b"LIST \"\" *\r\n").unwrap() {
        (b"\r\n", CommandBody::List { .. }) => {}
        other => panic!("{other:?}"),
    }
    match body(b"A LIST () \"\" * RETURN ()\r\n") {
        CommandBody::ListExtended { selection, reference, patterns, return_options } => {
            assert!(selection.is_empty());
            assert!(matches!(reference, Mailbox::Other(_)));
            assert_eq!(patterns.len(), 1);
            assert_eq!(return_options, Some(vec![]));
        }
        other => panic!("{other:?}"),
    }
    match body(b"A LIST (REMOTE) \"\" (a) RETURN (children Special-Use SUBSCRIBED STATUS (UNSEEN) CHILDREN 3)\r\n") {
        CommandBody::ListExtended { selection, return_options, .. } => {
            assert_eq!(selection, vec![atom("REMOTE")]);
            assert_eq!(
                return_options,
                Some(vec![
                    ListReturn::Children,
                    ListReturn::SpecialUse,
                    ListReturn::Subscribed,
                    ListReturn::Status(vec![StatusDataItemName::Unseen]),
                    ListReturn::Extension {
                        name: atom("CHILDREN"),
                        parameters: Some(ExtensionValue::Simple(atom("3"))),
                    },
                ])
            );
        }
        other => panic!("{other:?}"),
    }
    assert_eq!(
        list(b"LIST (RECURSIVEMATCH REMOTE) \"\" *\r\n"),
        Err(IMAPParseError::Failure(IMAPErrorKind::Verify))
    );
    assert!(list(b"LIST (RECURSIVEMATCH REMOTE SUBSCRIBED) \"\" *\r\n").is_ok());
    let command = CommandCodec::default()
        .decode(b"a list (SUBSCRIBED) \"\" a% return (status (size))\r\n")
        .unwrap()
        .1;
    assert_eq!(
        CommandCodec::default().encode(&command).dump(),
        b"a LIST (SUBSCRIBED) \"\" (a%) RETURN (STATUS (SIZE))\r\n"
    );
}

#[test]
fn list_data_plain_and_extended() {
    assert_eq!(list_data(b"LIST () NIL inbox\r\n"), Err(IMAPParseError::Error));
    match list_data(b"LIST () NIL inbox ()\r\n").unwrap() {
        (b"\r\n", Data::ListExtended { mailbox: Mailbox::Inbox, delimiter: None, extensions, .. }) => {
            assert!(extensions.is_empty());
        }
        other => panic!("{other:?}"),
    }
    match data(b"* LIST () NIL inbox\r\n") {
        Data::List { mailbox: Mailbox::Inbox, delimiter: None, .. } => {}
        other => panic!("{other:?}"),
    }
    match data(b"* LIST (\\Noselect) \"/\" a (CHILDINFO (x) \"n\" 4)\r\n") {
        Data::ListExtended { items, delimiter, mailbox, extensions } => {
            assert_eq!(extensions.len(), 2);
            assert_eq!(extensions[0].value, ExtensionValue::List(vec![word("x")]));
            assert_eq!(extensions[1].value, ExtensionValue::Simple(atom("4")));
            let mut ctx = EncodeContext::new();
            encode_list_data(&items, &delimiter, &mailbox, &extensions, &mut ctx);
            assert_eq!(
                ctx.into_encoded().dump(),
                b"* LIST (\\Noselect) \"/\" a (CHILDINFO (x) \"n\" 4)"
            );
        }
        other => panic!("{other:?}"),
    }
}

#[test]
fn codecs_say_what_is_missing() {
    let c = CommandCodec::default();
    assert_eq!(c.decode(b"A NOOP"), Err(CommandDecodeError::Incomplete));
    assert_eq!(c.decode(b"A NOPE\r\n"), Err(CommandDecodeError::Failed));
    assert_eq!(
        c.decode(b"A LOGIN {5}\r\n"),
        Err(CommandDecodeError::LiteralFound { length: 5 })
    );
    assert_eq!(
        c.decode(b"A LOGIN {5}\r\nab"),
        Err(CommandDecodeError::Incomplete)
    );
    let r = ResponseCodec::default();
    assert_eq!(r.decode(b"* 3 EXISTS\r"), Err(ResponseDecodeError::Incomplete));
    assert_eq!(r.decode(b"* 3 EXITS\r\n"), Err(ResponseDecodeError::Failed));
    assert_eq!(
        r.decode(b"* 1 FETCH (BODY[] {70000}\r\n"),
        Err(ResponseDecodeError::LiteralFound { length: 70000 })
    );
    let (rest, _) = c.decode(b"A NOOP\r\nB NOOP\r\n").unwrap();
    assert_eq!(rest, b"B NOOP\r\n");
}
