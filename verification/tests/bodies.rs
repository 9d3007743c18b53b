use imap_codec::body::{
    BodyExtension, BodyStructure, Language, SpecificFields,
};
use imap_codec::codec::{ResponseCodec, ResponseDecodeError};
use imap_codec::fragmentizer::streaming::{StreamingResponseDecoder, StreamingResponseEvent};
use imap_codec::response::{Data, MessageDataItem, Response};
use imap_codec::strings::{IString, NString, Quoted};
use imap_codec::structure::Address;

fn quoted(text: &str) -> IString {
    IString::Quoted(Quoted { bytes: text.as_bytes().to_vec() })
}

fn some(text: &str) -> NString {
    NString(Some(quoted(text)))
}

fn line(item: &str) -> Vec<u8> {
    format!("* 1 FETCH ({item})\r\n").into_bytes()
}

fn item(text: &str) -> MessageDataItem {
    let wire = line(text);
    let c = ResponseCodec::default();
    let (rest, response) = c.decode(&wire).unwrap();
    assert!(rest.is_empty());
    assert_eq!(
        String::from_utf8_lossy(&c.encode(&response).dump()),
        String::from_utf8_lossy(&wire)
    );
    for n in 0..wire.len() {
        assert!(matches!(
            c.decode(&wire[..n]),
            Err(ResponseDecodeError::Incomplete) | Err(ResponseDecodeError::LiteralFound { .. })
        ));
    }
    match response {
        Response::Data(Data::Fetch { mut items, .. }) => items.remove(0),
        other => panic!("{other:?}"),
    }
}

fn body(text: &str) -> BodyStructure {
    match item(&format!("BODYSTRUCTURE {text}")) {
        MessageDataItem::BodyStructure(b) => b,
        other => panic!("{other:?}"),
    }
}

fn refused(text: &str) {
    assert_eq!(
        ResponseCodec::default().decode(&line(text)),
        Err(ResponseDecodeError::Failed)
    );
}

const ENVELOPE: &str = "(\"Wed, 17 Jul 1996 02:23:25 -0700 (PDT)\" \"IMAP4rev1 WG mtg\" \
    ((\"Terry Gray\" NIL \"gray\" \"cac.washington.edu\")) NIL NIL \
    ((NIL NIL \"imap\" \"cac.washington.edu\")(NIL NIL \"minutes\" \"CNRI.Reston.VA.US\")) \
    NIL NIL NIL \"<B27397-0100000@cac.washington.edu>\")";

const TEXT: &str = "(\"TEXT\" \"PLAIN\" (\"CHARSET\" \"US-ASCII\") NIL NIL \"7BIT\" 3028 92)";

#[test]
fn envelopes() {
    let MessageDataItem::Envelope(e) = item(&format!("ENVELOPE {ENVELOPE}")) else { panic!() };
    assert_eq!(e.subject, some("IMAP4rev1 WG mtg"));
    assert_eq!(
        e.from,
        vec![Address {
            name: some("Terry Gray"),
            adl: NString(None),
            mailbox: some("gray"),
            host: some("cac.washington.edu"),
        }]
    );
    assert!(e.sender.is_empty() && e.reply_to.is_empty() && e.cc.is_empty() && e.bcc.is_empty());
    assert_eq!(e.to.len(), 2);
    assert_eq!(e.to[1].mailbox, some("minutes"));
    assert_eq!(e.in_reply_to, NString(None));
    assert_eq!(e.message_id, some("<B27397-0100000@cac.washington.edu>"));
    refused("ENVELOPE (NIL NIL NIL NIL NIL NIL NIL NIL NIL)");
    refused("ENVELOPE (NIL NIL () NIL NIL NIL NIL NIL NIL NIL)");
}

#[test]
fn texts_tell_their_lines() {
    let BodyStructure::Single { media, subtype, fields, specific, extension } = body(TEXT) else {
        panic!()
    };
    assert_eq!(media, quoted("TEXT"));
    assert_eq!(subtype, quoted("PLAIN"));
    assert_eq!(fields.parameters.len(), 1);
    assert_eq!(fields.parameters[0].name, quoted("CHARSET"));
    assert_eq!(fields.encoding, quoted("7BIT"));
    assert_eq!(fields.size, 3028);
    assert_eq!(specific, SpecificFields::Text { lines: 92 });
    assert_eq!(extension, None);

    let bare = body("(\"TEXT\" \"PLAIN\" NIL NIL NIL \"7BIT\" 3028)");
    assert!(matches!(bare, BodyStructure::Single { specific: SpecificFields::Basic, .. }));
    let other = body("(\"IMAGE\" \"PNG\" NIL NIL NIL \"BASE64\" 17)");
    assert!(matches!(other, BodyStructure::Single { specific: SpecificFields::Basic, .. }));
    refused("BODYSTRUCTURE (\"IMAGE\" \"PNG\" NIL NIL NIL \"BASE64\" 17 3)");
    refused("BODYSTRUCTURE (\"IMAGE\" \"PNG\" NIL NIL NIL \"BASE64\" 4294967296)");
}

#[test]
fn structure_without_a_section_is_a_body() {
    let wire = format!("BODY {TEXT}");
    let MessageDataItem::Body(b) = item(&wire) else { panic!() };
    assert_eq!(b, body(TEXT));
    assert!(matches!(item("BODY[] \"x\""), MessageDataItem::BodyExt { .. }));
    refused("BODY NIL");
}

#[test]
fn extension_data_of_parts() {
    let text = "(\"IMAGE\" \"PNG\" NIL NIL NIL \"BASE64\" 17 \"md5\" \
        (\"attachment\" (\"filename\" \"a.png\")) (\"de\" \"en\") \"loc\" 7 (\"x\" NIL (8)))";
    let BodyStructure::Single { extension: Some(e), .. } = body(text) else { panic!() };
    assert_eq!(e.md5, some("md5"));
    let d = e.tail.unwrap();
    assert_eq!(d.disposition.unwrap().kind, quoted("attachment"));
    let l = d.tail.unwrap();
    assert_eq!(l.language, Language::List(vec![quoted("de"), quoted("en")]));
    let loc = l.tail.unwrap();
    assert_eq!(loc.location, some("loc"));
    assert_eq!(
        loc.extensions,
        vec![
            BodyExtension::Number(7),
            BodyExtension::List(vec![
                BodyExtension::String(some("x")),
                BodyExtension::String(NString(None)),
                BodyExtension::List(vec![BodyExtension::Number(8)]),
            ]),
        ]
    );
    for shorter in [
        "(\"IMAGE\" \"PNG\" NIL NIL NIL \"BASE64\" 17 NIL)",
        "(\"IMAGE\" \"PNG\" NIL NIL NIL \"BASE64\" 17 NIL NIL)",
        "(\"IMAGE\" \"PNG\" NIL NIL NIL \"BASE64\" 17 NIL NIL \"en\")",
        "(\"TEXT\" \"PLAIN\" NIL NIL NIL \"7BIT\" 1 2 NIL NIL NIL NIL)",
        "(\"TEXT\" \"PLAIN\" NIL NIL NIL \"7BIT\" 1 NIL NIL)",
    ] {
        body(shorter);
    }
}

#[test]
fn parts_of_several_bodies() {
    let text = format!("({TEXT}{TEXT} \"MIXED\" (\"BOUNDARY\" \"x\") NIL)");
    let BodyStructure::Multi { bodies, subtype, extension } = body(&text) else { panic!() };
    assert_eq!(bodies, vec![body(TEXT), body(TEXT)]);
    assert_eq!(subtype, quoted("MIXED"));
    assert_eq!(extension.unwrap().parameters[0].value, quoted("x"));
    refused("BODYSTRUCTURE (\"MIXED\")");
    refused(&format!("BODYSTRUCTURE ({TEXT})"));
}

#[test]
fn messages_in_messages() {
    let text = format!("(\"MESSAGE\" \"RFC822\" NIL NIL NIL \"7BIT\" 100 {ENVELOPE} {TEXT} 12)");
    let BodyStructure::Single { specific, .. } = body(&text) else { panic!() };
    let SpecificFields::Message { envelope, body: inner, lines } = specific else { panic!() };
    assert_eq!(envelope.subject, some("IMAP4rev1 WG mtg"));
    assert_eq!(*inner, body(TEXT));
    assert_eq!(lines, 12);
    refused(&format!(
        "BODYSTRUCTURE (\"MESSAGE\" \"X\" NIL NIL NIL \"7BIT\" 100 {ENVELOPE} {TEXT} 12)"
    ));
}

#[test]
fn nesting_of_bodies_is_bounded() {
    let nested = |depth: usize| {
        let mut text = TEXT.to_string();
        for _ in 1..depth {
            text = format!("({text} \"MIXED\")");
        }
        text
    };
    body(&nested(16));
    refused(&format!("BODYSTRUCTURE {}", nested(17)));
}

#[test]
fn literals_in_an_envelope_are_streamed() {
    let wire = b"* 1 FETCH (ENVELOPE ({3}\r\nabc {2}\r\nxy NIL NIL NIL NIL NIL NIL NIL NIL))\r\n";
    let mut decoder = StreamingResponseDecoder::new(4096);
    decoder.enqueue_input(wire).unwrap();
    let mut held = Vec::new();
    let mut complete = false;
    while let Some(event) = decoder.next().unwrap() {
        match event {
            StreamingResponseEvent::LiteralChunk { data, .. } => held.extend(data),
            StreamingResponseEvent::Complete { .. } => {
                assert_eq!(decoder.literals().len(), 2);
                complete = true;
            }
            _ => {}
        }
    }
    assert!(complete);
    assert_eq!(held, b"abcxy");
}
