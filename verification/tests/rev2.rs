use imap_codec::codec::{CommandCodec, ResponseCodec};

#[test]
fn rev2_commands_survive_every_fragment_boundary_and_roundtrip() {
    for bytes in [
        b"A UID SEARCH RETURN (MIN MAX ALL COUNT SAVE) UID $ LARGER 4294967297\r\n".as_slice(),
        b"A SEARCH RETURN () ALL\r\n",
        b"A SEARCH RETURN (SAVE) CHARSET UTF-8 (OR $ 1:4) TEXT {2}\r\nhi\r\n",
        b"A FETCH $ (UID BODY.PEEK[]<4294967296.4294967297>)\r\n",
        b"A UID STORE $ +FLAGS.SILENT (\\Seen)\r\n",
        b"A COPY $ archive\r\n",
        b"A UID MOVE $ archive\r\n",
        b"A UID EXPUNGE $\r\n",
        b"A LIST (SUBSCRIBED RECURSIVEMATCH) \"\" (\"*\" \"Archive/%\") RETURN (SUBSCRIBED CHILDREN STATUS (MESSAGES SIZE DELETED))\r\n",
        b"A ENABLE IMAP4rev2 QRESYNC\r\n",
        b"A UID SEARCH RETURN (COUNT VENDOR-OPTION (\"hi\" (two))) ALL\r\n",
    ] {
        let (_, decoded) = CommandCodec::default()
            .decode(bytes)
            .unwrap_or_else(|e| panic!("{}: {e:?}", String::from_utf8_lossy(bytes)));
        let canonical = CommandCodec::default().encode(&decoded).dump();
        assert_eq!(CommandCodec::default().decode(&canonical).unwrap().1, decoded);
        for split in 0..bytes.len() {
            assert!(
                CommandCodec::default().decode(&bytes[..split]).is_err(),
                "premature decode at {split}"
            );
        }
    }
}

#[test]
fn rev2_responses_preserve_extensions_and_wide_sizes() {
    for bytes in [
        b"* ESEARCH (TAG \"A\") UID MIN 2 MAX 42 ALL 2,10:20,42 COUNT 13 MODSEQ 5150\r\n".as_slice(),
        b"* ESEARCH\r\n",
        b"* ESEARCH COUNT 0\r\n",
        b"* ESEARCH VENDOR (\"hello\" (one two))\r\n",
        b"* LIST (\\Subscribed \\HasChildren) \"/\" archive (\"CHILDINFO\" (\"SUBSCRIBED\") \"OLDNAME\" (\"old archive\"))\r\n",
        b"* LIST () NIL inbox ()\r\n",
        b"* STATUS inbox (MESSAGES 3 SIZE 4294967297 DELETED 1)\r\n",
        b"* 1 FETCH (RFC822.SIZE 4294967297 BINARY.SIZE[1] 4294967298 BODY[]<4294967296> {2}\r\nhi)\r\n",
        b"* CAPABILITY IMAP4rev2\r\n",
        b"A OK \r\n",
        b"A OK [CLOSED]\r\n",
        "A OK 完成\r\n".as_bytes(),
    ] {
        let (_, decoded) = ResponseCodec::default()
            .decode(bytes)
            .unwrap_or_else(|e| panic!("{}: {e:?}", String::from_utf8_lossy(bytes)));
        let canonical = ResponseCodec::default().encode(&decoded).dump();
        assert_eq!(ResponseCodec::default().decode(&canonical).unwrap().1, decoded);
        for split in 0..bytes.len() {
            assert!(
                ResponseCodec::default().decode(&bytes[..split]).is_err(),
                "premature decode at {split}"
            );
        }
    }
}

#[test]
fn rejects_invalid_sets_bounds_options_and_utf8() {
    for bytes in [
        b"A FETCH $,1 UID\r\n".as_slice(),
        b"A FETCH 1:$ UID\r\n",
        b"A LIST (RECURSIVEMATCH) \"\" *\r\n",
        b"A SEARCH RETURN (ALL) LARGER 9223372036854775808\r\n",
        b"A FETCH $ BODY[]<1.0>\r\n",
    ] {
        assert!(
            CommandCodec::default().decode(bytes).is_err(),
            "{}",
            String::from_utf8_lossy(bytes)
        );
    }
    for bytes in [
        b"* ESEARCH ALL $\r\n".as_slice(),
        b"* ESEARCH ALL 1:*\r\n",
        b"* ESEARCH MIN 0\r\n",
        b"* ESEARCH COUNT 4294967296\r\n",
        b"* STATUS inbox (SIZE 9223372036854775808)\r\n",
        b"A OK \xff\r\n",
    ] {
        assert!(
            ResponseCodec::default().decode(bytes).is_err(),
            "{}",
            String::from_utf8_lossy(bytes)
        );
    }
}
