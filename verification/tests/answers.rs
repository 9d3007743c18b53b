use imap_codec::answers::{Answer, MetadataItems, Namespace, NamespaceExtension, QuotaGet};
use imap_codec::codec::{CommandCodec, CommandDecodeError, ResponseCodec, ResponseDecodeError};
use imap_codec::command::{CommandBody, Depth, EntryValue, GetMetadataOption, IdField};
use imap_codec::encode::LiteralMode;
use imap_codec::mailbox::Mailbox;
use imap_codec::response::{Data, NString8, Response};
use imap_codec::strings::{AString, Atom, AtomExt, IString, Literal, NString, Quoted};
use imap_codec::threads::Thread;

fn atom(text: &str) -> Atom {
    Atom { bytes: text.as_bytes().to_vec() }
}

fn plain(text: &str) -> AString {
    AString::Atom(AtomExt { bytes: text.as_bytes().to_vec() })
}

fn quoted(text: &str) -> IString {
    IString::Quoted(Quoted { bytes: text.as_bytes().to_vec() })
}

fn literal(bytes: &[u8]) -> IString {
    IString::Literal(Literal { bytes: bytes.to_vec(), mode: LiteralMode::Sync })
}

fn answer(wire: &[u8]) -> Answer {
    let c = ResponseCodec::default();
    let (rest, response) = c.decode(wire).unwrap();
    assert!(rest.is_empty());
    assert_eq!(
        String::from_utf8_lossy(&c.encode(&response).dump()),
        String::from_utf8_lossy(wire)
    );
    for n in 0..wire.len() {
        assert!(matches!(
            c.decode(&wire[..n]),
            Err(ResponseDecodeError::Incomplete) | Err(ResponseDecodeError::LiteralFound { .. })
        ));
    }
    match response {
        Response::Data(Data::Answer(a)) => a,
        other => panic!("{other:?}"),
    }
}

fn refused(wire: &[u8]) {
    assert_eq!(ResponseCodec::default().decode(wire), Err(ResponseDecodeError::Failed));
}

fn thread(members: &[u32], answers: Vec<Thread>) -> Thread {
    Thread { members: members.to_vec(), answers }
}

#[test]
fn sorted_numbers() {
    assert_eq!(answer(b"* SORT\r\n"), Answer::Sort(vec![], None));
    assert_eq!(answer(b"* SORT 5 3 4 1 2\r\n"), Answer::Sort(vec![5, 3, 4, 1, 2], None));
    assert_eq!(answer(b"* SORT 2 (MODSEQ 917)\r\n"), Answer::Sort(vec![2], Some(917)));
    refused(b"* SORT 0\r\n");
}

#[test]
fn threads_of_messages() {
    assert_eq!(answer(b"* THREAD\r\n"), Answer::Thread(vec![]));
    assert_eq!(
        answer(b"* THREAD (2)(3 6 (4 23)(44 7 96))\r\n"),
        Answer::Thread(vec![
            thread(&[2], vec![]),
            thread(&[3, 6], vec![thread(&[4, 23], vec![]), thread(&[44, 7, 96], vec![])]),
        ])
    );
    assert_eq!(
        answer(b"* THREAD ((3)(5))\r\n"),
        Answer::Thread(vec![thread(&[], vec![thread(&[3], vec![]), thread(&[5], vec![])])])
    );
    refused(b"* THREAD ()\r\n");
    refused(b"* THREAD ((3))\r\n");
    refused(b"* THREAD (3 (4))\r\n");
    refused(b"* THREAD (0)\r\n");
}

#[test]
fn nesting_of_threads_is_bounded() {
    let nested = |depth: usize| {
        let mut wire = b"* THREAD ".to_vec();
        for _ in 1..depth {
            wire.extend(b"(1 (2)");
        }
        wire.extend(b"(1");
        wire.extend(vec![b')'; depth]);
        wire.extend(b"\r\n");
        wire
    };
    answer(&nested(16));
    refused(&nested(17));
}

#[test]
fn quotas_and_their_roots() {
    assert_eq!(
        answer(b"* QUOTA \"\" (STORAGE 10 512)\r\n"),
        Answer::Quota {
            root: AString::String(quoted("")),
            quotas: vec![QuotaGet { resource: atom("STORAGE"), usage: 10, limit: 512 }],
        }
    );
    assert_eq!(
        answer(b"* QUOTA x (MESSAGE 0 9223372036854775807 STORAGE 1 2)\r\n"),
        Answer::Quota {
            root: plain("x"),
            quotas: vec![
                QuotaGet { resource: atom("MESSAGE"), usage: 0, limit: 9223372036854775807 },
                QuotaGet { resource: atom("STORAGE"), usage: 1, limit: 2 },
            ],
        }
    );
    assert_eq!(
        answer(b"* QUOTAROOT INBOX\r\n"),
        Answer::QuotaRoot { mailbox: Mailbox::Inbox, roots: vec![] }
    );
    assert_eq!(
        answer(b"* QUOTAROOT INBOX \"\" root\r\n"),
        Answer::QuotaRoot {
            mailbox: Mailbox::Inbox,
            roots: vec![AString::String(quoted("")), plain("root")],
        }
    );
    refused(b"* QUOTA x ()\r\n");
    refused(b"* QUOTA x (STORAGE 1)\r\n");
    refused(b"* QUOTA x (STORAGE 1 9223372036854775808)\r\n");
}

#[test]
fn servers_tell_who_they_are() {
    assert_eq!(answer(b"* ID NIL\r\n"), Answer::Id { parameters: None });
    assert_eq!(
        answer(b"* ID (\"name\" \"x\" \"version\" NIL)\r\n"),
        Answer::Id {
            parameters: Some(vec![
                IdField { name: quoted("name"), value: NString(Some(quoted("x"))) },
                IdField { name: quoted("version"), value: NString(None) },
            ])
        }
    );
    refused(b"* ID name\r\n");
}

#[test]
fn metadata_with_and_without_values() {
    assert_eq!(
        answer(b"* METADATA \"\" /shared/comment /private/comment\r\n"),
        answer_metadata(MetadataItems::WithoutValues(vec![
            plain("/shared/comment"),
            plain("/private/comment"),
        ]))
    );
    assert_eq!(
        answer(b"* METADATA \"\" (/a NIL /b {3}\r\nabc /c ~{2}\r\n\0x)\r\n"),
        answer_metadata(MetadataItems::WithValues(vec![
            EntryValue { entry: plain("/a"), value: NString8::NString(NString(None)) },
            EntryValue {
                entry: plain("/b"),
                value: NString8::NString(NString(Some(literal(b"abc")))),
            },
            EntryValue { entry: plain("/c"), value: NString8::Literal8(literal(b"\0x")) },
        ]))
    );
    refused(b"* METADATA \"\" ()\r\n");
    refused(b"* METADATA INBOX\r\n");
}

fn answer_metadata(items: MetadataItems) -> Answer {
    Answer::Metadata { mailbox: Mailbox::Other(AString::String(quoted(""))), items }
}

#[test]
fn namespaces() {
    let c = ResponseCodec::default();
    assert_eq!(
        answer(b"* NAMESPACE NIL NIL NIL\r\n"),
        Answer::Namespace { personal: vec![], other: vec![], shared: vec![] }
    );
    let wire =
        b"* NAMESPACE ((\"\" \"/\")) NIL ((\"#p/\" NIL \"X-P\" (\"F1\" \"F2\"))(\"#q\" \"\\\\\"))\r\n";
    let Answer::Namespace { personal, other, shared } = answer(wire) else { panic!() };
    assert_eq!(personal.len(), 1);
    assert_eq!(personal[0].prefix, quoted(""));
    assert_eq!(personal[0].delimiter.as_ref().map(|d| d.byte), Some(b'/'));
    assert!(other.is_empty());
    assert_eq!(
        shared[0],
        Namespace {
            prefix: quoted("#p/"),
            delimiter: None,
            extensions: vec![NamespaceExtension {
                name: quoted("X-P"),
                values: vec![quoted("F1"), quoted("F2")],
            }],
        }
    );
    assert_eq!(shared[1].delimiter.as_ref().map(|d| d.byte), Some(b'\\'));
    let (_, lower) = c.decode(b"* namespace nil nil nil\r\n").unwrap();
    assert_eq!(c.encode(&lower).dump(), b"* NAMESPACE NIL NIL NIL\r\n");
    refused(b"* NAMESPACE NIL NIL\r\n");
    refused(b"* NAMESPACE () NIL NIL\r\n");
}

#[test]
fn starting_tls_and_authenticating() {
    let c = CommandCodec::default();
    assert_eq!(c.decode(b"a starttls\r\n").unwrap().1.body, CommandBody::StartTls);
    assert_eq!(
        c.decode(b"a AUTHENTICATE PLAIN\r\n").unwrap().1.body,
        CommandBody::Authenticate { mechanism: atom("PLAIN"), initial_response: None }
    );
    for wire in [
        b"a AUTHENTICATE PLAIN dGVzdA==\r\n".as_slice(),
        b"a AUTHENTICATE EXTERNAL =\r\n",
        b"a STARTTLS\r\n",
    ] {
        let (rest, command) = c.decode(wire).unwrap();
        assert!(rest.is_empty());
        assert_eq!(c.encode(&command).dump(), wire);
    }
    assert_eq!(
        c.decode(b"a AUTHENTICATE PLAIN ***\r\n"),
        Err(CommandDecodeError::Failed)
    );
    assert_eq!(c.decode(b"a STARTTLS now\r\n"), Err(CommandDecodeError::Failed));
}

#[test]
fn metadata_is_asked_for_with_options() {
    let c = CommandCodec::default();
    let (_, command) = c.decode(b"a getmetadata (maxsize 1024 depth infinity) x /a\r\n").unwrap();
    assert_eq!(
        command.body,
        CommandBody::GetMetadata {
            options: vec![
                GetMetadataOption::MaxSize(1024),
                GetMetadataOption::Depth(Depth::Infinity),
            ],
            mailbox: Mailbox::Other(plain("x")),
            entries: vec![plain("/a")],
        }
    );
    assert_eq!(
        c.encode(&command).dump(),
        b"a GETMETADATA (MAXSIZE 1024 DEPTH infinity) x (/a)\r\n"
    );
    for wire in [
        b"a GETMETADATA (DEPTH 0) INBOX (/a /b)\r\n".as_slice(),
        b"a GETMETADATA (DEPTH 1 MAXSIZE 0) INBOX (/a)\r\n",
        b"a GETMETADATA INBOX (/a)\r\n",
        b"a SETMETADATA INBOX (/a ~{1}\r\n\0)\r\n",
    ] {
        let (rest, command) = c.decode(wire).unwrap();
        assert!(rest.is_empty());
        assert_eq!(c.encode(&command).dump(), wire);
    }
    for wire in [
        b"a GETMETADATA () INBOX /a\r\n".as_slice(),
        b"a GETMETADATA (DEPTH 2) INBOX /a\r\n",
        b"a GETMETADATA (MAXSIZE 4294967296) INBOX /a\r\n",
    ] {
        assert_eq!(c.decode(wire), Err(CommandDecodeError::Failed));
    }
}
