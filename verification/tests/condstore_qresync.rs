use imap_codec::codec::{CommandCodec, ResponseCodec};
use imap_codec::response::{resp_text, resp_text_code};

#[test]
fn modseq_uses_rfc7162_positive_63_bit_range() {
    for value in [
        "0",
        "1",
        "9223372036854775807",
        "9223372036854775808",
        "18446744073709551615",
        "18446744073709551616",
    ] {
        let in_range = value.parse::<u64>().is_ok_and(|v| v <= i64::MAX as u64);
        for (template, zero_allowed) in [
            ("A SEARCH MODSEQ {}\r\n", true),
            ("A STORE 1 (UNCHANGEDSINCE {}) +FLAGS (\\Seen)\r\n", true),
            ("A FETCH 1 FLAGS (CHANGEDSINCE {})\r\n", false),
            ("A SELECT inbox (QRESYNC (42 {}))\r\n", false),
        ] {
            let wire = template.replace("{}", value);
            assert_eq!(
                CommandCodec::default().decode(wire.as_bytes()).is_ok(),
                in_range && (zero_allowed || value != "0"),
                "{wire}"
            );
        }
        let code = format!("HIGHESTMODSEQ {value}]");
        assert_eq!(
            resp_text_code(code.as_bytes()).is_ok(),
            in_range && value != "0",
            "{code}"
        );
        for (template, zero_allowed) in [
            ("* ESEARCH MODSEQ {}\r\n", false),
            ("* SEARCH 1 (MODSEQ {})\r\n", false),
            ("* 1 FETCH (MODSEQ ({}))\r\n", false),
            ("* STATUS INBOX (HIGHESTMODSEQ {})\r\n", true),
        ] {
            let wire = template.replace("{}", value);
            let decoded = ResponseCodec::default().decode(wire.as_bytes());
            assert_eq!(
                decoded.is_ok(),
                in_range && (zero_allowed || value != "0"),
                "{wire}"
            );
            if let Ok((_, response)) = decoded {
                assert_eq!(
                    ResponseCodec::default().encode(&response).dump(),
                    wire.as_bytes()
                );
            }
        }
    }
}

#[test]
fn test_condstore_qresync_codes() {
    assert!(resp_text(b"[MODIFIED 7,9] Conditional STORE failed\r\n").is_ok());
    assert!(
        resp_text(b"[NOMODSEQ] Sorry, this mailbox format doesn't support modsequences\r\n")
            .is_ok()
    );
    assert!(resp_text(b"[HIGHESTMODSEQ 715194045007] Highest\r\n").is_ok());
}
