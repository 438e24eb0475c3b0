use curator::lines::LinesError;
use curator::protocol::agent::Agent;
use curator::server::CuratorState;
use curator::sse::{broker_frame_parts, frame_parts, scan_event_lines, SseBroker, SseEvent, SseReader};

fn read_all(reader: &mut SseReader, bytes: &[u8]) -> Option<SseEvent> {
    let mut name = None;
    reader.next_event_in_chunk(bytes, &mut name).unwrap()
}

#[test]
fn frame_with_name() {
    let event: SseEvent = (Some("run-task".into()), "{}".into());
    assert_eq!(frame_parts(&event).concat(), "event:run-task\ndata:{}\n\n");
}

#[test]
fn frame_without_name() {
    let event: SseEvent = (None, "hello".into());
    assert_eq!(frame_parts(&event).concat(), "data:hello\n\n");
    assert_eq!(frame_parts(&event), vec!["data:", "hello", "\n\n"]);
}

#[test]
fn broker_frame_has_spaces() {
    let event: SseEvent = (Some("n".into()), "d".into());
    assert_eq!(broker_frame_parts(&event).concat(), "event: n\ndata: d\n\n");
}

#[test]
fn read_back_a_framed_event() {
    let event: SseEvent = (Some("run-task".into()), "{\"task_id\": \"w\"}".into());
    let mut reader = SseReader::new();
    assert_eq!(read_all(&mut reader, frame_parts(&event).concat().as_bytes()), Some(event));
}

#[test]
fn read_back_a_broker_event() {
    let event: SseEvent = (Some("run-task".into()), "{}".into());
    let mut reader = SseReader::new();
    let text = broker_frame_parts(&event).concat();
    assert_eq!(read_all(&mut reader, text.as_bytes()), Some(event));
}

#[test]
fn event_split_over_chunks() {
    let mut reader = SseReader::new();
    let mut name = None;
    assert_eq!(reader.next_event_in_chunk(b"event: ru", &mut name), Ok(None));
    assert_eq!(reader.next_event_in_chunk(b"n-task\nda", &mut name), Ok(None));
    assert_eq!(name.as_deref(), Some("run-task"));
    assert_eq!(
        reader.next_event_in_chunk(b"ta:  payload  \n\n", &mut name),
        Ok(Some((Some("run-task".to_string()), "payload".to_string())))
    );
}

#[test]
fn data_without_event_name() {
    let mut reader = SseReader::new();
    assert_eq!(read_all(&mut reader, b"data:x\n"), Some((None, "x".to_string())));
}

#[test]
fn invalid_utf8_in_stream() {
    let mut reader = SseReader::new();
    let mut name = None;
    assert_eq!(reader.next_event_in_chunk(b"data:\xfe\n", &mut name), Err(LinesError::InvalidUtf8));
}

#[test]
fn scan_stops_at_first_data_line() {
    let lines: Vec<String> = vec!["event:a".into(), "data:1".into(), "event:b".into(), "data:2".into()];
    let mut name = None;
    assert_eq!(scan_event_lines(&lines, &mut name), Some((Some("a".to_string()), "1".to_string())));
    let other: Vec<String> = vec![": comment".into(), "event:  b ".into()];
    let mut name2 = None;
    assert_eq!(scan_event_lines(&other, &mut name2), None);
    assert_eq!(name2.as_deref(), Some("b"));
}

#[test]
fn curator_sse_client() {
    let mut state = CuratorState::new();
    let agent = Agent::new("app", vec![]);
    let mut rx = state.agent_connected(agent);

    let event_name = Some("run-task".to_string());
    let event_content = "{}".to_string();
    let expected_event = (event_name, event_content);
    state.notify_all(&expected_event);

    let mut reader = SseReader::new();
    let mut name = None;
    let mut received = None;
    while let Ok(Some(Ok(bytes))) = rx.try_next() {
        if let Some(event) = reader.next_event_in_chunk(&bytes, &mut name).unwrap() {
            received = Some(event);
            break;
        }
    }
    if let Some(event) = received {
        assert_eq!(event, expected_event);
    } else {
        panic!("No events from server");
    }
}

#[test]
fn broker_drops_closed_clients() {
    let mut broker = SseBroker::new();
    let mut open = broker.subscribe();
    let closed = broker.subscribe();
    drop(closed);
    broker.notify_all(&(None, "one".to_string()));
    // The open client got the event; the closed one is gone, so a second
    // event goes to one client only.
    let mut text = String::new();
    while let Ok(Ok(bytes)) = open.try_recv() {
        text.push_str(std::str::from_utf8(&bytes).unwrap());
    }
    assert_eq!(text, "data: one\n\n");
}

#[test]
fn foo() {
    let mut sse = SseBroker::new();

    let (tx, mut rx) = sse.new_channel();

    tx.send(Ok(bytes::Bytes::from("Hello "))).expect("Oops");
    tx.send(Ok(bytes::Bytes::from("to "))).expect("Oops");
    tx.send(Ok(bytes::Bytes::from("you"))).expect("Oops");
    drop(tx);

    let mut string = String::new();
    while let Ok(item) = rx.try_recv() {
        let bytes = item.ok().unwrap();
        string.push_str(std::str::from_utf8(&bytes[..]).unwrap());
    }
    assert_eq!(string, "Hello to you");
}

#[test]
fn split_chunks_read_like_one() {
    let stream: &[u8] = b"event: run-task\ndata: {}\n\n";
    let mut whole = SseReader::new();
    let mut whole_name = None;
    let at_once = whole.next_event_in_chunk(stream, &mut whole_name);
    let mut split = SseReader::new();
    let mut split_name = None;
    assert_eq!(split.next_event_in_chunk(&stream[..12], &mut split_name), Ok(None));
    let in_two = split.next_event_in_chunk(&stream[12..], &mut split_name);
    assert_eq!(at_once, in_two);
    assert_eq!(whole_name, split_name);
    assert_eq!(in_two, Ok(Some((Some("run-task".to_string()), "{}".to_string()))));
}

#[test]
fn events_one_per_chunk_read_in_order() {
    let events: Vec<SseEvent> = vec![
        (Some("run-task".into()), "{\"task_id\": \"w\"}".into()),
        (None, "second".into()),
        (Some("stop-task".into()), "{}".into()),
    ];
    let mut reader = SseReader::new();
    for event in &events {
        let chunk = frame_parts(event).concat();
        let mut name = None;
        assert_eq!(reader.next_event_in_chunk(chunk.as_bytes(), &mut name), Ok(Some(event.clone())));
    }
}

#[test]
fn broker_write_hands_every_part() {
    let mut broker = SseBroker::new();
    let mut rx = broker.subscribe();
    let (tx, _) = broker.new_channel();
    let (delivered, _) = SseBroker::send_client(&tx, &(Some("n".into()), "d".into()));
    // The other end of `tx` was dropped: the first part is refused.
    assert!(!delivered);
    broker.notify_all(&(Some("n".into()), "d".into()));
    let mut text = String::new();
    while let Ok(Ok(bytes)) = rx.try_recv() {
        text.push_str(std::str::from_utf8(&bytes).unwrap());
    }
    assert_eq!(text, "event: n\ndata: d\n\n");
}

#[test]
fn trim_agrees_with_str_trim() {
    let samples = [
        "", "   ", "  a b  ", "\t\n x \r\n", "\u{3000}y\u{2029}", "\u{85}z\u{a0}", "no-space", "\u{200b}w",
    ];
    for s in samples.iter() {
        assert_eq!(curator::text::trim(s), s.trim());
    }
}
