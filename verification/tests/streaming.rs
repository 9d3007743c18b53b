use imap_codec::codec::ResponseCodec;
use imap_codec::fragmentizer::streaming::{
    literal_reference, LiteralDescriptor, StreamingResponseDecoder, StreamingResponseError,
    StreamingResponseEvent, INPUT_BUFFER,
};
use imap_codec::fragmentizer::{FragmentInfo, LineEnding, LineParser, LiteralAnnouncement};
use imap_codec::encode::LiteralMode;
use imap_codec::response::{Data, MessageDataItem, Response};
use imap_codec::strings::{IString, NString};

fn content(s: &IString) -> &[u8] {
    match s {
        IString::Quoted(q) => &q.bytes,
        IString::Literal(l) => &l.bytes,
    }
}

#[test]
fn bytewise_multiple_literals_keep_exact_boundaries_and_binary_nuls() {
    let wire = b"* 1 FETCH (BODY[] {3}\r\nabc BINARY[1] ~{3}\r\nx\0y)\r\nA OK done\r\n";
    let mut decoder = StreamingResponseDecoder::new(4096);
    let mut literals = Vec::<Vec<u8>>::new();
    let mut completed = 0;
    for &byte in wire {
        decoder.enqueue_input(&[byte]).unwrap();
        while let Some(event) = decoder.next().unwrap() {
            match event {
                StreamingResponseEvent::LiteralStart { literal, prefix } => {
                    assert_eq!(literal.index as usize, literals.len());
                    assert!(prefix.ends_with(b"{3}\r\n"));
                    literals.push(Vec::new());
                }
                StreamingResponseEvent::LiteralChunk { index, data } => {
                    literals[index as usize].extend(data)
                }
                StreamingResponseEvent::LiteralEnd { index } => {
                    assert_eq!(literals[index as usize].len(), 3)
                }
                StreamingResponseEvent::Complete { structure } => {
                    if completed == 0 {
                        assert_eq!(decoder.literals().len(), 2);
                        let Response::Data(Data::Fetch { items, .. }) = structure else {
                            panic!()
                        };
                        let MessageDataItem::BodyExt {
                            data: NString(Some(data)),
                            ..
                        } = &items[0]
                        else {
                            panic!()
                        };
                        assert_eq!(
                            literal_reference(content(data), decoder.literals())
                                .unwrap()
                                .index,
                            0
                        );
                        assert_eq!(
                            decoder.syntax_bytes(),
                            b"* 1 FETCH (BODY[] {3}\r\n BINARY[1] ~{3}\r\n)\r\n"
                        );
                    } else {
                        assert!(decoder.literals().is_empty());
                    }
                    completed += 1;
                }
            }
        }
    }
    assert_eq!(completed, 2);
    assert_eq!(literals, vec![b"abc".to_vec(), b"x\0y".to_vec()]);
    assert_eq!(decoder.take_consumed_input(), wire.len());
}

#[test]
fn response_text_literal_lookalike_does_not_consume_next_message() {
    let mut decoder = StreamingResponseDecoder::new(2048);
    decoder
        .enqueue_input(b"A OK note {123}\r\nB OK next\r\n")
        .unwrap();
    assert!(matches!(
        decoder.next().unwrap(),
        Some(StreamingResponseEvent::Complete { .. })
    ));
    assert!(decoder.literals().is_empty());
    assert!(matches!(
        decoder.next().unwrap(),
        Some(StreamingResponseEvent::Complete { .. })
    ));
}

#[test]
fn large_literal_stays_bounded_and_huge_declaration_is_not_allocated() {
    let mut decoder = StreamingResponseDecoder::new(2048);
    let length = 32 * 1024 * 1024;
    decoder
        .enqueue_input(format!("* 1 FETCH (BODY[] {{{length}}}\r\n").as_bytes())
        .unwrap();
    assert!(matches!(
        decoder.next().unwrap(),
        Some(StreamingResponseEvent::LiteralStart { .. })
    ));
    let chunk = vec![b'a'; INPUT_BUFFER];
    let mut received = 0;
    for _ in 0..length / INPUT_BUFFER {
        decoder.enqueue_input(&chunk).unwrap();
        while let Some(event) = decoder.next().unwrap() {
            if let StreamingResponseEvent::LiteralChunk { data, .. } = event {
                received += data.len();
            }
        }
        let (syntax, normalized, line) = decoder.buffers();
        assert!(syntax.capacity() < 2048);
        assert!(normalized.capacity() < 2048);
        assert!(line.capacity() < 2048);
    }
    assert_eq!(received, length);
    decoder.enqueue_input(b")\r\n").unwrap();
    assert!(matches!(
        decoder.next().unwrap(),
        Some(StreamingResponseEvent::Complete { .. })
    ));
    let mut decoder = StreamingResponseDecoder::new(2048);
    decoder
        .enqueue_input(b"* 1 FETCH (BODY[] {9223372036854775807}\r\n")
        .unwrap();
    let Some(StreamingResponseEvent::LiteralStart { literal, .. }) = decoder.next().unwrap() else {
        panic!()
    };
    assert_eq!(literal.length, i64::MAX as u64);
    assert!(decoder.next().unwrap().is_none());
}

#[test]
fn malformed_data_fails_closed_and_handoff_requires_completion() {
    for bytes in [
        b"* 1 FETCH (BODY[] {1+}\r\n".as_slice(),
        b"* 1 FETCH (BODY[] {1}\r\n\0",
        b"* 1 FETCH (BODY[] {0}\n",
    ] {
        let mut decoder = StreamingResponseDecoder::new(2048);
        decoder.enqueue_input(bytes).unwrap();
        let mut failure = false;
        loop {
            match decoder.next() {
                Err(_) => {
                    failure = true;
                    break;
                }
                Ok(None) => break,
                Ok(Some(_)) => {}
            }
        }
        assert!(failure);
        assert!(decoder.next().is_err());
    }
    let mut decoder = StreamingResponseDecoder::new(2048);
    decoder.enqueue_input(b"A OK done\r\nopaque").unwrap();
    assert!(decoder.take_unparsed_after_message().is_none());
    assert!(matches!(
        decoder.next().unwrap(),
        Some(StreamingResponseEvent::Complete { .. })
    ));
    assert_eq!(decoder.take_unparsed_after_message().unwrap(), b"opaque");
}

fn failure(bytes: &[u8], maximum: usize) -> StreamingResponseError {
    let mut decoder = StreamingResponseDecoder::new(maximum);
    decoder.enqueue_input(bytes).unwrap();
    loop {
        match decoder.next() {
            Err(e) => {
                assert!(matches!(decoder.next(), Err(StreamingResponseError::Failed)));
                assert_eq!(
                    decoder.enqueue_input(b"x"),
                    Err(StreamingResponseError::Failed)
                );
                return e;
            }
            Ok(None) => panic!("no failure"),
            Ok(Some(_)) => {}
        }
    }
}

#[test]
fn each_failure_has_its_error() {
    let [limit, non_sync, nul, syntax] = [
        StreamingResponseError::BufferLimit,
        StreamingResponseError::NonSyncResponse,
        StreamingResponseError::NullLiteral,
        StreamingResponseError::Syntax,
    ];
    assert_eq!(failure(b"* 1 FETCH (BODY[] {1+}\r\n", 2048), non_sync);
    assert_eq!(failure(b"* 1 FETCH (BODY[] {1}\r\n\0", 2048), nul);
    assert_eq!(failure(b"* 1 FETCH (BODY[] {0}\n", 2048), syntax);
    assert_eq!(failure(b"* nonsense\r\n", 2048), syntax);
    assert_eq!(failure(b"* nonsense {3}\r\n", 2048), syntax);
    assert_eq!(failure(b"A OK 123456789\r\n", 10), limit);
    assert_eq!(failure(b"A OK done\r\n", 32), limit);
    assert_eq!(failure(b"* 1 FETCH (BODY[] {1}\r\n", 100), limit);
    let mut decoder = StreamingResponseDecoder::new(2048);
    assert_eq!(
        decoder.enqueue_input(&vec![b'a'; INPUT_BUFFER + 1]),
        Err(limit)
    );
    assert_eq!(limit.message(), "IMAP response streaming: BufferLimit");
    assert_eq!(syntax.message(), "IMAP response streaming: Syntax");
    assert_eq!(
        non_sync.message(),
        "IMAP response streaming: NonSyncResponse"
    );
    assert_eq!(nul.message(), "IMAP response streaming: NullLiteral");
    assert_eq!(
        StreamingResponseError::Failed.message(),
        "IMAP response streaming: Failed"
    );
}

#[test]
fn limits_are_exact() {
    let mut decoder = StreamingResponseDecoder::new(33);
    decoder.enqueue_input(b"A OK done\r\n").unwrap();
    assert!(decoder.next().unwrap().is_some());
    let mut decoder = StreamingResponseDecoder::new(2048);
    decoder.enqueue_input(&vec![b'a'; INPUT_BUFFER]).unwrap();
    assert_eq!(decoder.buffered(), INPUT_BUFFER);
    assert_eq!(decoder.enqueue_input(b""), Ok(()));
    assert_eq!(
        decoder.enqueue_input(b"a"),
        Err(StreamingResponseError::BufferLimit)
    );
}

#[test]
fn consumed_input_is_counted_once() {
    let mut decoder = StreamingResponseDecoder::new(2048);
    decoder.enqueue_input(b"A OK done\r\nB").unwrap();
    assert!(decoder.next().unwrap().is_some());
    assert!(decoder.is_message_complete());
    assert_eq!(decoder.take_consumed_input(), 11);
    assert_eq!(decoder.take_consumed_input(), 0);
    assert_eq!(decoder.buffered(), 1);
    assert!(decoder.next().unwrap().is_none());
    assert!(!decoder.is_message_complete());
    assert_eq!(decoder.take_consumed_input(), 1);
}

#[test]
fn empty_literal_starts_and_ends() {
    let mut decoder = StreamingResponseDecoder::new(2048);
    decoder
        .enqueue_input(b"* 1 FETCH (BODY[] {0}\r\n)\r\n")
        .unwrap();
    assert!(matches!(
        decoder.next().unwrap(),
        Some(StreamingResponseEvent::LiteralStart { .. })
    ));
    assert!(matches!(
        decoder.next().unwrap(),
        Some(StreamingResponseEvent::LiteralEnd { index: 0 })
    ));
    assert!(matches!(
        decoder.next().unwrap(),
        Some(StreamingResponseEvent::Complete { .. })
    ));
}

#[test]
fn markers_refer_to_their_literals() {
    let literals: Vec<LiteralDescriptor> = (0..18)
        .map(|index| LiteralDescriptor {
            index,
            length: 7,
            binary: false,
        })
        .collect();
    let marker = |digits: &str| format!("~imap-stream-literal~{digits}").into_bytes();
    assert_eq!(
        literal_reference(&marker("00000011"), &literals),
        Some(&literals[17])
    );
    assert_eq!(
        literal_reference(&marker("0000000a"), &literals),
        Some(&literals[10])
    );
    assert_eq!(
        literal_reference(&marker("+000000A"), &literals),
        Some(&literals[10])
    );
    assert_eq!(literal_reference(&marker("00000012"), &literals), None);
    assert_eq!(literal_reference(&marker("0000001"), &literals), None);
    assert_eq!(literal_reference(&marker("-0000001"), &literals), None);
    assert_eq!(literal_reference(&marker("0000000G"), &literals), None);
    assert_eq!(literal_reference(b"00000001", &literals), None);
    assert_eq!(literal_reference(b"", &literals), None);
    assert_eq!(literal_reference(&marker("00000001"), &literals[1..]), None);
}

#[test]
fn lines_may_come_in_pieces() {
    let whole = b"A OK note {12}\r\n";
    for split in 0..whole.len() {
        let mut parser = LineParser::new();
        let (n, none) = parser.parse(&whole[..split]);
        assert_eq!(n, split);
        assert!(none.is_none());
        let (n, info) = parser.parse(&whole[split..]);
        assert_eq!(n, whole.len() - split);
        assert_eq!(
            info,
            Some(FragmentInfo::Line {
                announcement: Some(LiteralAnnouncement {
                    mode: LiteralMode::Sync,
                    length: 12
                }),
                ending: LineEnding::CrLf
            })
        );
    }
}

#[test]
fn announcements_are_recognized() {
    let info = |bytes: &[u8]| LineParser::new().parse(bytes);
    let line = |announcement, ending| Some(FragmentInfo::Line { announcement, ending });
    let sync = |length| {
        Some(LiteralAnnouncement {
            mode: LiteralMode::Sync,
            length,
        })
    };
    assert_eq!(info(b"x\ny"), (2, line(None, LineEnding::Lf)));
    assert_eq!(info(b"x\r\ny"), (3, line(None, LineEnding::CrLf)));
    assert_eq!(info(b"{7}\n"), (4, line(sync(7), LineEnding::Lf)));
    assert_eq!(
        info(b"{7+}\r\n"),
        (
            6,
            line(
                Some(LiteralAnnouncement {
                    mode: LiteralMode::NonSync,
                    length: 7
                }),
                LineEnding::CrLf
            )
        )
    );
    assert_eq!(info(b"{7} \r\n"), (6, line(None, LineEnding::CrLf)));
    assert_eq!(info(b"{{7}\r\n"), (6, line(sync(7), LineEnding::CrLf)));
    assert_eq!(info(b"{}\r\n"), (4, line(None, LineEnding::CrLf)));
    assert_eq!(info(b"{7}\r\r\n"), (6, line(None, LineEnding::CrLf)));
    assert_eq!(
        info(b"{18446744073709551615}\r\n"),
        (24, line(sync(u64::MAX), LineEnding::CrLf))
    );
    assert_eq!(
        info(b"{18446744073709551616}\r\n"),
        (24, line(None, LineEnding::CrLf))
    );
}

/// The events of an input that comes in pieces of this size, with the chunks of
/// each literal joined.
fn events_of(wire: &[u8], size: usize) -> (Vec<String>, StreamingResponseDecoder) {
    let mut decoder = StreamingResponseDecoder::new(4096);
    let mut events = Vec::<String>::new();
    let mut chunk = Vec::<u8>::new();
    for piece in wire.chunks(size) {
        decoder.enqueue_input(piece).unwrap();
        while let Some(event) = decoder.next().unwrap() {
            if let StreamingResponseEvent::LiteralChunk { data, .. } = event {
                chunk.extend(data);
            } else {
                if !chunk.is_empty() {
                    events.push(format!("{chunk:?}"));
                    chunk.clear();
                }
                events.push(format!("{event:?}"));
            }
        }
    }
    (events, decoder)
}

#[test]
fn cuts_do_not_matter() {
    let wire = b"* LIST () \"/\" {3}\r\na b ({1}\r\nx ({2}\r\nyz ({0}\r\n)))\r\n* 2 EXISTS\r\n* 1 FETCH (BODY[] {3}\r\nabc BINARY[1] ~{3}\r\nx\0y)\r\n* OK no";
    let (expected, mut whole) = events_of(wire, wire.len());
    assert_eq!(expected.len(), 4 * 2 + 3 + 1 + 1 + 2 * 3 + 1);
    let consumed = whole.take_consumed_input();
    assert_eq!(consumed, wire.len());
    for size in 1..wire.len() {
        let (events, mut decoder) = events_of(wire, size);
        assert_eq!(events, expected);
        assert_eq!(decoder.syntax_bytes(), whole.syntax_bytes());
        assert_eq!(decoder.literals(), whole.literals());
        assert_eq!(decoder.is_message_complete(), whole.is_message_complete());
        assert_eq!(decoder.take_consumed_input(), consumed);
    }
}

#[test]
fn streamed_literals_resolve_in_order() {
    let wire = b"* 3 FETCH (BODY[HEADER.FIELDS ({4}\r\nDate {7}\r\nSubject)] {2}\r\nhi RFC822.TEXT {1}\r\n!)\r\n";
    let mut decoder = StreamingResponseDecoder::new(4096);
    decoder.enqueue_input(wire).unwrap();
    let mut found = Vec::<u32>::new();
    while let Some(event) = decoder.next().unwrap() {
        let StreamingResponseEvent::Complete { structure } = event else {
            continue;
        };
        let text = ResponseCodec::default().encode(&structure).dump();
        let mark = b"~imap-stream-literal~";
        for start in 0..text.len() {
            if text[start..].starts_with(mark) {
                let payload = &text[start..start + mark.len() + 8];
                let literal = literal_reference(payload, decoder.literals()).unwrap();
                assert_eq!(literal, &decoder.literals()[found.len()]);
                found.push(literal.index);
            }
        }
        assert_eq!(found.len(), decoder.literals().len());
    }
    assert_eq!(found, [0, 1, 2, 3]);
}
