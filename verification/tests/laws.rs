use imap_codec::append::StreamedAppend;
use imap_codec::codec::{CommandCodec, CommandDecodeError, ResponseCodec, ResponseDecodeError};
use imap_codec::encode::LiteralMode;
use imap_codec::flag::Flag;
use imap_codec::mailbox::Mailbox;
use imap_codec::strings::Atom;

#[test]
fn decoded_commands_survive() {
    let c = CommandCodec::default();
    for (wire, canonical) in [
        (b"a login {2+}\r\nme \"p\\\"w\"\r\n".as_slice(), b"a LOGIN {2+}\r\nme \"p\\\"w\"\r\n".as_slice()),
        (b"t append inbox (\\seen) {3}\r\nabc\r\n", b"t APPEND INBOX (\\seen) {3}\r\nabc\r\n"),
        (b"a uid store 1:4 (unchangedsince 7) -flags.silent (x)\r\n",
         b"a UID STORE 1:4 (UNCHANGEDSINCE 7) -FLAGS.SILENT (x)\r\n"),
        (b"a select INBOX (qresync (42 9 1:7 (1,3 2,4)))\r\n",
         b"a SELECT INBOX (QRESYNC (42 9 1:7 (1,3 2,4)))\r\n"),
    ] {
        let (rest, command) = c.decode(wire).unwrap();
        assert!(rest.is_empty());
        let again = c.encode(&command).dump();
        assert_eq!(String::from_utf8_lossy(&again), String::from_utf8_lossy(canonical));
        assert_eq!(c.decode(&again), Ok((b"".as_slice(), command)));
    }
}

#[test]
fn decoded_responses_survive() {
    let c = ResponseCodec::default();
    for (wire, canonical) in [
        (b"* ok [uidnext 4392] next\r\n".as_slice(), b"* OK [UIDNEXT 4392] next\r\n".as_slice()),
        (b"* vanished (earlier) 41,43:116\r\n", b"* VANISHED (EARLIER) 41,43:116\r\n"),
        (b"* search 2 5 (modseq 917)\r\n", b"* SEARCH 2 5 (MODSEQ 917)\r\n"),
        (b"* 23 expunge\r\n", b"* 23 EXPUNGE\r\n"),
    ] {
        let (rest, response) = c.decode(wire).unwrap();
        assert!(rest.is_empty());
        let again = c.encode(&response).dump();
        assert_eq!(String::from_utf8_lossy(&again), String::from_utf8_lossy(canonical));
        assert_eq!(c.decode(&again), Ok((b"".as_slice(), response)));
    }
}

#[test]
fn messages_need_all_of_their_bytes_and_no_more() {
    let wire = b"a UID MOVE $ archive\r\n";
    let c = CommandCodec::default();
    for n in 0..wire.len() {
        assert_eq!(c.decode(&wire[..n]), Err(CommandDecodeError::Incomplete));
    }
    let stream = [wire.as_slice(), b"junk"].concat();
    let (rest, first) = c.decode(&stream).unwrap();
    assert_eq!(rest, b"junk");
    assert_eq!(c.decode(wire), Ok((b"".as_slice(), first)));

    let wire = b"* ESEARCH UID COUNT 3\r\n";
    let c = ResponseCodec::default();
    for n in 0..wire.len() {
        assert_eq!(c.decode(&wire[..n]), Err(ResponseDecodeError::Incomplete));
    }
    let stream = [wire.as_slice(), b"* 1 EXISTS\r\n"].concat();
    let (rest, first) = c.decode(&stream).unwrap();
    assert_eq!(rest, b"* 1 EXISTS\r\n");
    assert_eq!(c.decode(wire), Ok((b"".as_slice(), first)));
}

#[test]
fn streamed_append_is_an_append() {
    let streamed = StreamedAppend {
        tag: b"A1".to_vec(),
        mailbox: Mailbox::Inbox,
        flags: vec![Flag::System(Atom { bytes: b"Seen".to_vec() })],
        date: None,
        length: 5,
        mode: LiteralMode::NonSync,
        binary: false,
    };
    let mut wire = streamed.encode_prefix().unwrap().dump();
    wire.extend(b"hello\r\n");
    let (rest, command) = CommandCodec::default().decode(&wire).unwrap();
    assert!(rest.is_empty());
    assert_eq!(CommandCodec::default().encode(&command).dump(), wire);
}
