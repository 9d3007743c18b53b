use imap_codec::append::StreamedAppend;
use imap_codec::capability_set::CapabilitySet;
use imap_codec::client_capabilities::{ClientCapabilities, Version};
use imap_codec::codec::{CommandCodec, ResponseCodec};
use imap_codec::encode::LiteralMode;
use imap_codec::flag::Flag;
use imap_codec::mailbox::Mailbox;
use imap_codec::strings::{AString, Atom, IString, Literal, Quoted};

fn names(list: &[&str]) -> CapabilitySet {
    CapabilitySet::from(list.iter().map(|s| s.to_string()).collect::<Vec<String>>())
}

fn client(list: &[&str], version: Version) -> ClientCapabilities {
    ClientCapabilities::new(names(list), version)
}

fn observe(c: &mut ClientCapabilities, wire: &[u8]) {
    c.observe(&ResponseCodec::default().decode(wire).unwrap().1);
}

fn validate(c: &ClientCapabilities, wire: &[u8]) -> Result<(), String> {
    c.validate(&CommandCodec::default().decode(wire).unwrap().1.body)
}

fn refused(c: &ClientCapabilities, wire: &[u8], reason: &str) {
    assert_eq!(validate(c, wire), Err(reason.to_string()));
}

#[test]
fn rev2_intrinsic_capabilities_require_explicit_enable_on_dual_server() {
    let mut c = client(&["IMAP4REV1", "IMAP4REV2", "ENABLE"], Version::Rev2);
    assert!(!c.supports("MOVE"));
    assert!(!c.rev2_active());
    c.observe(
        &ResponseCodec::default()
            .decode(b"* ENABLED IMAP4rev2\r\n")
            .unwrap()
            .1,
    );
    assert!(c.rev2_active());
    assert!(c.supports("MOVE"));
    assert!(c.supports("BINARY-FETCH"));
    assert!(!c.supports("BINARY"));
    assert!(validate(&c, b"A SEARCH RETURN (ALL SAVE) CHARSET UTF-8 UID $\r\n").is_ok());
    assert!(validate(&c, b"A FETCH $ BINARY.PEEK[]\r\n").is_ok());
    assert!(validate(&c, b"A CHECK\r\n").is_err());
    assert!(validate(&c, b"A FETCH 1 RFC822\r\n").is_err());
    assert!(validate(&c, b"A SEARCH NEW\r\n").is_err());
    assert!(!c.advertised().contains("MOVE"));
}

#[test]
fn qresync_is_enabled_explicitly_and_match_data_is_checked_without_expanding_ranges() {
    let mut c = client(&["IMAP4REV1", "ENABLE", "QRESYNC", "CONDSTORE"], Version::Rev1);
    let select = b"A SELECT inbox (QRESYNC (42 1000 1:4294967295 (1:3 4:6)))\r\n";
    assert!(validate(&c, select).is_err());
    c.observe(
        &ResponseCodec::default()
            .decode(b"* ENABLED QRESYNC\r\n")
            .unwrap()
            .1,
    );
    assert!(validate(&c, select).is_ok());
    assert!(validate(&c, b"A SELECT inbox (QRESYNC (42 1000 1:*))\r\n").is_err());
    assert!(validate(&c, b"A SELECT inbox (QRESYNC (42 1000 (1:3 4:5)))\r\n").is_err());
    assert!(validate(&c, b"A UID FETCH 1:* FLAGS (VANISHED)\r\n").is_err());
    assert!(validate(&c, b"A FETCH 1:* FLAGS (CHANGEDSINCE 1000 VANISHED)\r\n").is_err());
    assert!(validate(
        &c,
        b"A UID FETCH 1:* FLAGS (CHANGEDSINCE 1000 VANISHED)\r\n"
    )
    .is_ok());
}

#[test]
fn utf8_enable_is_distinct_from_advertisement_and_rev2() {
    let mut c = client(&["IMAP4REV1", "ENABLE", "UTF8=ACCEPT"], Version::Rev1);
    assert!(validate(&c, "A SELECT \"邮件\"\r\n".as_bytes()).is_err());
    c.observe(
        &ResponseCodec::default()
            .decode(b"* ENABLED UTF8=ACCEPT\r\n")
            .unwrap()
            .1,
    );
    assert!(validate(&c, "A SELECT \"邮件\"\r\n".as_bytes()).is_ok());
    assert!(validate(&c, b"A SEARCH CHARSET UTF-8 ALL\r\n").is_err());
    assert!(validate(&c, b"A SEARCH ALL\r\n").is_ok());
}

#[test]
fn new_transport_has_nothing_enabled() {
    let c = client(&["IMAP4REV1", "QRESYNC"], Version::Rev1);
    assert!(c.enabled().names().is_empty());
    assert_eq!(c.version(), Version::Rev1);
    assert!(c.advertised().contains("QRESYNC"));
    assert!(!c.advertised().contains("qresync"));
    assert!(!c.utf8_active());
}

#[test]
fn capability_sets_are_ordered_and_without_duplicates() {
    let mut set = names(&["MOVE", "IDLE", "MOVE", "ID", "AUTH=PLAIN"]);
    assert_eq!(set.names(), &vec!["AUTH=PLAIN", "ID", "IDLE", "MOVE"]);
    set.insert("ESEARCH".to_string());
    set.insert("ID".to_string());
    assert_eq!(set.names(), &vec!["AUTH=PLAIN", "ESEARCH", "ID", "IDLE", "MOVE"]);
    assert!(set.contains("ESEARCH"));
    assert!(!set.contains("ESEARC"));
    assert_eq!(set.clone(), set);
    assert!(CapabilitySet::new().names().is_empty());
}

#[test]
fn capability_lists_replace_what_is_advertised() {
    let mut c = client(&["IMAP4REV1", "IDLE"], Version::Rev1);
    observe(&mut c, b"* CAPABILITY imap4rev1 Move\r\n");
    assert_eq!(c.advertised().names(), &vec!["IMAP4REV1", "MOVE"]);
    observe(&mut c, b"A OK [CAPABILITY IMAP4rev1 quota] done\r\n");
    assert_eq!(c.advertised().names(), &vec!["IMAP4REV1", "QUOTA"]);
    observe(&mut c, b"* OK [CAPABILITY IMAP4rev1 id] hello\r\n");
    assert_eq!(c.advertised().names(), &vec!["ID", "IMAP4REV1"]);
    observe(&mut c, b"* BYE [CAPABILITY IMAP4rev1 idle] bye\r\n");
    observe(&mut c, b"A OK done\r\n");
    observe(&mut c, b"* 3 EXISTS\r\n");
    assert_eq!(c.advertised().names(), &vec!["ID", "IMAP4REV1"]);
    assert!(c.enabled().names().is_empty());
}

#[test]
fn enabled_grows_and_qresync_brings_condstore() {
    let mut c = client(&["IMAP4REV1"], Version::Rev1);
    observe(&mut c, b"* ENABLED UTF8=ACCEPT\r\n");
    assert_eq!(c.enabled().names(), &vec!["UTF8=ACCEPT"]);
    observe(&mut c, b"* ENABLED qresync\r\n");
    assert_eq!(c.enabled().names(), &vec!["CONDSTORE", "QRESYNC", "UTF8=ACCEPT"]);
    observe(&mut c, b"* ENABLED\r\n");
    assert_eq!(c.enabled().names(), &vec!["CONDSTORE", "QRESYNC", "UTF8=ACCEPT"]);
    assert_eq!(c.advertised().names(), &vec!["IMAP4REV1"]);
    let copy = c.clone();
    assert_eq!(copy.enabled(), c.enabled());
}

#[test]
fn rev2_alone_needs_no_enable() {
    let c = client(&["IMAP4REV2"], Version::Rev2);
    assert!(c.rev2_active());
    assert!(c.utf8_active());
    for name in [
        "NAMESPACE",
        "UNSELECT",
        "UIDPLUS",
        "ESEARCH",
        "SEARCHRES",
        "ENABLE",
        "IDLE",
        "SASL-IR",
        "LIST-EXTENDED",
        "LIST-STATUS",
        "MOVE",
        "LITERAL-",
        "BINARY-FETCH",
        "STATUS=SIZE",
    ] {
        assert!(c.supports(name), "{name}");
        assert!(c.require(name).is_ok());
    }
    assert!(!c.supports("LITERAL+"));
    assert!(!c.supports("CONDSTORE"));
    let declared_rev1 = client(&["IMAP4REV2"], Version::Rev1);
    assert!(!declared_rev1.rev2_active());
    assert!(!declared_rev1.supports("IDLE"));
}

#[test]
fn binary_brings_binary_fetch() {
    let c = client(&["BINARY"], Version::Rev1);
    assert!(c.supports("BINARY-FETCH"));
    assert!(validate(&c, b"A FETCH 1 BINARY[1]\r\n").is_ok());
    let c = client(&["BINARY-FETCH"], Version::Rev1);
    assert!(!c.supports("BINARY"));
}

#[test]
fn missing_capabilities_are_named() {
    let c = client(&["IMAP4REV1"], Version::Rev1);
    assert_eq!(c.require("IMAP4REV1"), Ok(()));
    assert_eq!(
        c.require("IDLE"),
        Err("IMAP capability IDLE is required".to_string())
    );
    for (wire, name) in [
        (b"A IDLE\r\n".as_slice(), "IDLE"),
        (b"A UNSELECT\r\n", "UNSELECT"),
        (b"A UID EXPUNGE 1\r\n", "UIDPLUS"),
        (b"A MOVE 1 x\r\n", "MOVE"),
        (b"A COPY $ x\r\n", "SEARCHRES"),
        (b"A ENABLE CONDSTORE\r\n", "ENABLE"),
        (b"A COMPRESS DEFLATE\r\n", "COMPRESS=DEFLATE"),
        (b"A GETQUOTA x\r\n", "QUOTA"),
        (b"A GETQUOTAROOT x\r\n", "QUOTA"),
        (b"A SETQUOTA x (STORAGE 1)\r\n", "QUOTA"),
        (b"A ID NIL\r\n", "ID"),
        (b"A GETMETADATA x /a\r\n", "METADATA"),
        (b"A SETMETADATA x (/a NIL)\r\n", "METADATA"),
        (b"A NAMESPACE\r\n", "NAMESPACE"),
        (b"A SORT (DATE) UTF-8 ALL\r\n", "SORT"),
        (b"A THREAD references UTF-8 ALL\r\n", "THREAD=REFERENCES"),
        (b"A SEARCH $\r\n", "SEARCHRES"),
        (b"A SEARCH UID $\r\n", "SEARCHRES"),
        (b"A SEARCH NOT (ALL OR SEEN $)\r\n", "SEARCHRES"),
        (b"A SEARCH MODSEQ 1\r\n", "CONDSTORE"),
        (b"A SEARCH RETURN (ALL) ALL\r\n", "ESEARCH"),
        (b"A LIST (SUBSCRIBED) \"\" *\r\n", "LIST-EXTENDED"),
        (b"A STATUS x (SIZE)\r\n", "STATUS=SIZE"),
        (b"A STATUS x (DELETED)\r\n", "QUOTA=RES-MESSAGE"),
        (b"A STATUS x (DELETED-STORAGE)\r\n", "QUOTA=RES-STORAGE"),
        (b"A STATUS x (MESSAGES HIGHESTMODSEQ)\r\n", "CONDSTORE"),
        (b"A APPEND x ~{1}\r\n\0\r\n", "BINARY"),
        (b"A FETCH $ UID\r\n", "SEARCHRES"),
        (b"A FETCH 1 BINARY.SIZE[1]\r\n", "BINARY-FETCH"),
        (b"A FETCH 1 MODSEQ\r\n", "CONDSTORE"),
        (b"A FETCH 1 UID (CHANGEDSINCE 1)\r\n", "CONDSTORE"),
        (b"A STORE $ FLAGS ()\r\n", "SEARCHRES"),
        (b"A STORE 1 (UNCHANGEDSINCE 1) FLAGS ()\r\n", "CONDSTORE"),
        (b"A SELECT x (CONDSTORE)\r\n", "CONDSTORE"),
        (b"A EXAMINE x (CONDSTORE)\r\n", "CONDSTORE"),
    ] {
        refused(&c, wire, &format!("IMAP capability {name} is required"));
    }
}

#[test]
fn ordinary_commands_need_nothing() {
    let c = client(&[], Version::Rev1);
    for wire in [
        b"A NOOP\r\n".as_slice(),
        b"A LOGIN a b\r\n",
        b"A SELECT x\r\n",
        b"A CHECK\r\n",
        b"A LSUB \"\" *\r\n",
        b"A LIST \"\" *\r\n",
        b"A SEARCH NEW\r\n",
        b"A SEARCH CHARSET UTF-8 ALL\r\n",
        b"A FETCH 1 RFC822\r\n",
        b"A FETCH 1 ALL\r\n",
        b"A STATUS x (RECENT)\r\n",
        b"A APPEND x {1}\r\na\r\n",
        b"A COPY 1 x\r\n",
        b"A STORE 1 FLAGS ()\r\n",
    ] {
        assert_eq!(validate(&c, wire), Ok(()));
    }
}

#[test]
fn rev2_refuses_what_it_removed() {
    let c = client(&["IMAP4REV2", "SPECIAL-USE"], Version::Rev2);
    refused(&c, b"A CHECK\r\n", "Command was removed from IMAP4rev2");
    refused(&c, b"A LSUB \"\" *\r\n", "Command was removed from IMAP4rev2");
    let keys = "IMAP4rev2 does not define RECENT, NEW or OLD search keys";
    refused(&c, b"A SEARCH NEW\r\n", keys);
    refused(&c, b"A SEARCH NOT OLD\r\n", keys);
    refused(&c, b"A SEARCH (SEEN RECENT)\r\n", keys);
    let body = "Use BODY sections for IMAP4rev2 FETCH";
    refused(&c, b"A FETCH 1 RFC822\r\n", body);
    refused(&c, b"A FETCH 1 (UID RFC822.HEADER)\r\n", body);
    refused(&c, b"A FETCH 1 RFC822.TEXT\r\n", body);
    assert_eq!(validate(&c, b"A FETCH 1 RFC822.SIZE\r\n"), Ok(()));
    refused(
        &c,
        b"A STATUS x (RECENT)\r\n",
        "RECENT status was removed from IMAP4rev2",
    );
    assert_eq!(validate(&c, b"A STATUS x (DELETED SIZE)\r\n"), Ok(()));
    assert_eq!(
        validate(&c, b"A LIST (special-use) \"\" * RETURN (SPECIAL-USE STATUS (SIZE))\r\n"),
        Ok(())
    );
}

#[test]
fn list_options_are_checked_in_order() {
    let c = client(&["LIST-EXTENDED"], Version::Rev1);
    let special = "IMAP capability SPECIAL-USE is required";
    refused(&c, b"A LIST (special-use) \"\" *\r\n", special);
    refused(&c, b"A LIST () \"\" * RETURN (SPECIAL-USE)\r\n", special);
    refused(
        &c,
        b"A LIST () \"\" * RETURN (STATUS (SIZE) SPECIAL-USE)\r\n",
        "IMAP capability LIST-STATUS is required",
    );
    let c = client(&["LIST-EXTENDED", "LIST-STATUS"], Version::Rev1);
    refused(
        &c,
        b"A LIST () \"\" * RETURN (STATUS (MESSAGES SIZE) SPECIAL-USE)\r\n",
        "IMAP capability STATUS=SIZE is required",
    );
    assert_eq!(
        validate(&c, b"A LIST () \"\" * RETURN (CHILDREN STATUS (MESSAGES))\r\n"),
        Ok(())
    );
}

#[test]
fn enable_asks_for_what_is_advertised_and_declared() {
    let c = client(&["ENABLE", "IMAP4REV2", "QRESYNC"], Version::Rev1);
    refused(
        &c,
        b"A ENABLE qresync imap4rev2\r\n",
        "IMAP version was declared as 4rev1",
    );
    refused(
        &c,
        b"A ENABLE UTF8=ACCEPT IMAP4rev2\r\n",
        "IMAP capability UTF8=ACCEPT is required",
    );
    assert_eq!(validate(&c, b"A ENABLE qresync\r\n"), Ok(()));
    let c = client(&["IMAP4REV2"], Version::Rev2);
    assert_eq!(validate(&c, b"A ENABLE IMAP4rev2\r\n"), Ok(()));
}

#[test]
fn saved_results_need_searchres() {
    let c = client(&["ESEARCH"], Version::Rev1);
    assert_eq!(validate(&c, b"A SEARCH RETURN (MIN) ALL\r\n"), Ok(()));
    refused(
        &c,
        b"A SEARCH RETURN (MIN SAVE) ALL\r\n",
        "IMAP capability SEARCHRES is required",
    );
}

#[test]
fn qresync_reasons() {
    let mut c = client(&["CONDSTORE"], Version::Rev1);
    let enabled = "IMAP capability QRESYNC has not been enabled";
    refused(&c, b"A SELECT x (QRESYNC (1 2))\r\n", enabled);
    refused(&c, b"A UID FETCH 1 UID (CHANGEDSINCE 1 VANISHED)\r\n", enabled);
    observe(&mut c, b"* ENABLED QRESYNC\r\n");
    assert_eq!(validate(&c, b"A SELECT x (QRESYNC (1 2))\r\n"), Ok(()));
    let star = "QRESYNC match sets cannot contain '*'";
    refused(&c, b"A SELECT x (QRESYNC (1 2 1,3:*))\r\n", star);
    refused(&c, b"A SELECT x (QRESYNC (1 2 (* 1)))\r\n", star);
    refused(&c, b"A SELECT x (QRESYNC (1 2 (1:2 *:3)))\r\n", star);
    refused(
        &c,
        b"A SELECT x (QRESYNC (1 2 (1:2,9:7 1:4)))\r\n",
        "QRESYNC sequence and UID match sets must have equal cardinality",
    );
    assert_eq!(
        validate(&c, b"A SELECT x (QRESYNC (1 2 (1:2,9:7 1:5)))\r\n"),
        Ok(())
    );
    let vanished = "VANISHED requires UID FETCH with CHANGEDSINCE";
    refused(&c, b"A FETCH 1 UID (CHANGEDSINCE 1 VANISHED)\r\n", vanished);
    refused(&c, b"A UID FETCH 1 UID (VANISHED)\r\n", vanished);
}

#[test]
fn utf8_mode_forbids_a_charset_unless_rev2() {
    let mut c = client(&["IMAP4REV1"], Version::Rev1);
    observe(&mut c, b"* ENABLED UTF8=ONLY\r\n");
    refused(
        &c,
        b"A SEARCH CHARSET UTF-8 ALL\r\n",
        "IMAP UTF-8 mode prohibits an explicit SEARCH CHARSET",
    );
    let c = client(&["IMAP4REV2"], Version::Rev2);
    assert_eq!(validate(&c, b"A SEARCH CHARSET UTF-8 ALL\r\n"), Ok(()));
}

#[test]
fn non_synchronizing_literals_are_negotiated() {
    let refusal = "Non-synchronizing literal was not negotiated";
    let small = b"A LOGIN {1+}\r\na b\r\n";
    let mut large = b"A APPEND x {4097+}\r\n".to_vec();
    large.extend(vec![b'a'; 4097]);
    large.extend(b"\r\n");
    let c = client(&[], Version::Rev1);
    refused(&c, small, refusal);
    assert_eq!(validate(&c, b"A LOGIN {1}\r\na b\r\n"), Ok(()));
    let c = client(&["LITERAL-"], Version::Rev1);
    assert_eq!(validate(&c, small), Ok(()));
    refused(&c, &large, refusal);
    let c = client(&["LITERAL+"], Version::Rev1);
    assert_eq!(validate(&c, small), Ok(()));
    assert_eq!(validate(&c, &large), Ok(()));
}

#[test]
fn first_offence_on_the_wire_is_reported() {
    let c = client(&[], Version::Rev1);
    refused(
        &c,
        "A LOGIN \"ä\" {1+}\r\na\r\n".as_bytes(),
        "UTF-8 quoted strings require UTF8=ACCEPT or IMAP4rev2",
    );
    refused(
        &c,
        "A LOGIN {1+}\r\na \"ä\"\r\n".as_bytes(),
        "Non-synchronizing literal was not negotiated",
    );
}

#[test]
fn responses_in_utf8_have_to_be_enabled() {
    let wire = "A OK 完成\r\n".as_bytes();
    let response = ResponseCodec::default().decode(wire).unwrap().1;
    let mut c = client(&["IMAP4REV1"], Version::Rev1);
    assert_eq!(
        c.validate_response(&response),
        Err("UTF-8 response syntax was not enabled".to_string())
    );
    observe(&mut c, b"* ENABLED UTF8=ACCEPT\r\n");
    assert_eq!(c.validate_response(&response), Ok(()));
    let c = client(&[], Version::Rev1);
    let literal = ResponseCodec::default()
        .decode("* 1 FETCH (RFC822 {2}\r\nä)\r\n".as_bytes())
        .unwrap()
        .1;
    assert_eq!(c.validate_response(&literal), Ok(()));
}

fn append(length: u64, mode: LiteralMode, binary: bool) -> StreamedAppend {
    StreamedAppend {
        tag: b"A1".to_vec(),
        mailbox: Mailbox::Inbox,
        flags: vec![Flag::System(Atom { bytes: b"Seen".to_vec() })],
        date: None,
        length,
        mode,
        binary,
    }
}

#[test]
fn streamed_append_is_validated_by_its_announced_length() {
    let c = client(&["LITERAL-", "BINARY"], Version::Rev1);
    let refusal = "Non-synchronizing APPEND length was not negotiated";
    let ok = |a: &StreamedAppend| c.validate_streamed_append(a);
    assert_eq!(ok(&append(4096, LiteralMode::NonSync, false)), Ok(()));
    assert_eq!(
        ok(&append(4097, LiteralMode::NonSync, false)),
        Err(refusal.to_string())
    );
    assert_eq!(ok(&append(u64::MAX, LiteralMode::Sync, true)), Ok(()));
    let c = client(&[], Version::Rev1);
    assert_eq!(
        c.validate_streamed_append(&append(1, LiteralMode::Sync, true)),
        Err("IMAP capability BINARY is required".to_string())
    );
    let mut invalid = append(1, LiteralMode::Sync, false);
    invalid.tag = b"A 1".to_vec();
    assert_eq!(
        c.validate_streamed_append(&invalid),
        Err("Invalid tag".to_string())
    );
}

#[test]
fn streamed_append_prefix_and_its_mailbox_are_checked() {
    let c = client(&[], Version::Rev1);
    let mut literal = append(3, LiteralMode::Sync, false);
    literal.mailbox = Mailbox::Other(AString::String(IString::Literal(Literal {
        bytes: b"x y".to_vec(),
        mode: LiteralMode::NonSync,
    })));
    assert_eq!(
        c.validate_streamed_append(&literal),
        Err("Non-synchronizing mailbox literal was not negotiated".to_string())
    );
    assert_eq!(
        literal.encode_prefix().unwrap().dump(),
        b"A1 APPEND {3+}\r\nx y (\\Seen) {3}\r\n"
    );
    let mut utf8 = append(3, LiteralMode::Sync, false);
    utf8.mailbox = Mailbox::Other(AString::String(IString::Quoted(Quoted {
        bytes: "邮件".as_bytes().to_vec(),
    })));
    assert_eq!(
        c.validate_streamed_append(&utf8),
        Err("UTF-8 quoted strings require UTF8=ACCEPT or IMAP4rev2".to_string())
    );
    assert_eq!(
        append(5, LiteralMode::NonSync, true)
            .encode_prefix()
            .unwrap()
            .dump(),
        b"A1 APPEND INBOX (\\Seen) ~{5+}\r\n"
    );
}

#[test]
fn every_state_is_sound() {
    let mut c = client(&["IMAP4REV1", "ENABLE"], Version::Rev1);
    for wire in [
        b"* ENABLED condstore\r\n".as_slice(),
        b"* CAPABILITY IMAP4rev1 qresync\r\n",
        b"* ENABLED QResync utf8=accept\r\n",
        b"* OK [CAPABILITY IMAP4rev2] hello\r\n",
        b"* 3 EXISTS\r\n",
    ] {
        observe(&mut c, wire);
        assert!(!c.enabled().contains("QRESYNC") || c.enabled().contains("CONDSTORE"));
        assert_eq!(c.version(), Version::Rev1);
    }
    assert_eq!(c.enabled().names(), &["CONDSTORE", "QRESYNC", "UTF8=ACCEPT"]);
    assert_eq!(c.advertised().names(), &["IMAP4REV2"]);
}
