use agent_bridge::channel::{RequestChannel, SendError, WriteOutcome};
use agent_bridge::codec::{decode_request_bytes, encode_request, AgentRequest, AgentResponse};
use agent_bridge::commands::{
    clear_history_request, delete_conversation_request, interrupt_request,
    list_conversations_request, load_conversation_request, new_conversation_request,
    user_message_request,
};
use agent_bridge::frame::FrameAssembler;
use agent_bridge::pump::{Event, StreamPump, StreamSource};
use agent_bridge::supervisor::{Supervisor, SupervisorState};

#[test]
fn fallback_classification_stdout_and_stderr() {
    let mut stdout_pump = StreamPump::new(StreamSource::Stdout, 1024);
    let (events, _) = stdout_pump.feed(b"not json at all\n", 7);
    assert_eq!(
        events,
        vec![Event::Log {
            source: StreamSource::Stdout,
            message: "not json at all".to_string(),
            timestamp: 7
        }]
    );
    let mut stderr_pump = StreamPump::new(StreamSource::Stderr, 1024);
    let (events, _) = stderr_pump.feed(b"not json at all\n", 7);
    assert_eq!(
        events,
        vec![Event::Log {
            source: StreamSource::Stderr,
            message: "not json at all".to_string(),
            timestamp: 7
        }]
    );
}

#[test]
fn stderr_lines_are_never_protocol() {
    let mut pump = StreamPump::new(StreamSource::Stderr, 1024);
    let (events, _) = pump.feed(b"{\"type\":\"ready\",\"timestamp\":1}\n", 5);
    assert_eq!(
        events,
        vec![Event::Log {
            source: StreamSource::Stderr,
            message: "{\"type\":\"ready\",\"timestamp\":1}".to_string(),
            timestamp: 5
        }]
    );
}

#[test]
fn stdout_pump_decodes_responses() {
    let mut pump = StreamPump::new(StreamSource::Stdout, 1024);
    let (events, _) = pump.feed(b"{\"type\":\"ready\",\"timestamp\":1}\n[INFO] warmup\n", 9);
    assert_eq!(
        events,
        vec![
            Event::Response(AgentResponse::Ready { timestamp: 1 }),
            Event::Log {
                source: StreamSource::Stdout,
                message: "[INFO] warmup".to_string(),
                timestamp: 9
            },
        ]
    );
}

#[test]
fn every_line_maps_to_exactly_one_event() {
    let mut pump = StreamPump::new(StreamSource::Stdout, 1024);
    let payload = b"{\"type\":\"ready\",\"timestamp\":1}\nplain\n\n{\"type\":\"done\",\"id\":\"x\",\"timestamp\":2}\n";
    let (events, _) = pump.feed(payload, 0);
    // the empty line is dropped by the assembler; each kept line is one event
    assert_eq!(events.len(), 3);
}

#[test]
fn severed_pipe_reports_channel_closed_twice() {
    let mut channel = RequestChannel::new();
    let request = user_message_request("x".to_string(), "hi".to_string(), None);
    // the write fails: the child has gone away
    let bytes = channel.prepare_send(&request).expect("channel open");
    assert!(!bytes.is_empty());
    let result = channel.record_outcome(WriteOutcome::BrokenPipe);
    assert_eq!(result, Err(SendError::ChannelClosed));
    // a second send fails the same way, without writing
    assert!(channel.prepare_send(&request).is_none());
    assert_eq!(channel.severed_error(), SendError::ChannelClosed);
}

#[test]
fn other_write_faults_leave_channel_open() {
    let mut channel = RequestChannel::new();
    let request = interrupt_request();
    let _ = channel.prepare_send(&request).expect("open");
    let result = channel.record_outcome(WriteOutcome::Fault { cause: "timed out".to_string() });
    assert_eq!(result, Err(SendError::WriteFailure { cause: "timed out".to_string() }));
    assert!(channel.prepare_send(&request).is_some());
    let result = channel.record_outcome(WriteOutcome::Wrote);
    assert_eq!(result, Ok(()));
}

#[test]
fn no_cross_talk_between_whole_lines() {
    let channel = RequestChannel::new();
    let a = user_message_request("1".to_string(), "first".to_string(), None);
    let b = user_message_request("2".to_string(), "second".to_string(), None);
    let la = channel.prepare_send(&a).unwrap();
    let lb = channel.prepare_send(&b).unwrap();
    for (first, second, r1, r2) in [(&la, &lb, &a, &b), (&lb, &la, &b, &a)] {
        let mut wire: Vec<u8> = Vec::new();
        wire.extend_from_slice(first);
        wire.extend_from_slice(second);
        let mut fa = FrameAssembler::new(1 << 20);
        let (lines, overflow) = fa.feed(&wire);
        assert!(!overflow);
        assert_eq!(fa.buffered_len(), 0);
        assert_eq!(lines.len(), 2);
        assert_eq!(lines[0].as_bytes(), encode_request(r1).as_slice());
        assert_eq!(lines[1].as_bytes(), encode_request(r2).as_slice());
    }
}

#[test]
fn end_to_end_request_and_response_flow() {
    // spawn: the supervisor admits exactly one child
    let mut supervisor = Supervisor::new();
    assert!(supervisor.may_spawn());
    supervisor.on_spawn_result(true);
    assert_eq!(supervisor.current(), SupervisorState::Running);
    assert!(!supervisor.may_spawn());

    // the child's first line is the ready event, with a timestamp
    let mut pump = StreamPump::new(StreamSource::Stdout, agent_bridge::MAX_MESSAGE_SIZE);
    let (events, _) = pump.feed(b"{\"type\":\"ready\",\"timestamp\":1712000000123}\n", 0);
    assert_eq!(events, vec![Event::Response(AgentResponse::Ready { timestamp: 1712000000123 })]);

    // send {id:"42", kind:"user_message", message:"hello"}
    let channel = RequestChannel::new();
    let request = user_message_request("42".to_string(), "hello".to_string(), None);
    let wire = channel.prepare_send(&request).unwrap();
    assert_eq!(wire.last(), Some(&b'\n'));
    // the child reads back exactly the request that was sent
    let seen = decode_request_bytes(&wire[..wire.len() - 1]).unwrap();
    assert_eq!(seen.id, "42");
    assert_eq!(seen.kind, "user_message");
    assert_eq!(seen.message.as_deref(), Some("hello"));

    // the child answers with a token and then a done, chunked arbitrarily
    let reply = b"{\"type\":\"token\",\"id\":\"42\",\"token\":\"hel\",\"timestamp\":2}\n{\"type\":\"done\",\"id\":\"42\",\"timestamp\":3}\n";
    let mut events: Vec<Event> = Vec::new();
    for chunk in reply.chunks(11) {
        let (evs, overflow) = pump.feed(chunk, 4);
        assert!(!overflow);
        events.extend(evs);
    }
    assert_eq!(
        events,
        vec![
            Event::Response(AgentResponse::Token {
                id: "42".to_string(),
                token: "hel".to_string(),
                timestamp: 2
            }),
            Event::Response(AgentResponse::Done {
                id: "42".to_string(),
                data: None,
                timestamp: 3
            }),
        ]
    );

    // the child exits: terminal for this handle, a fresh spawn is allowed
    supervisor.on_child_exit(0);
    assert_eq!(supervisor.current(), SupervisorState::Exited(0));
    assert!(supervisor.may_spawn());
}

#[test]
fn spawn_rejected_while_running() {
    let mut supervisor = Supervisor::new();
    supervisor.on_spawn_result(true);
    assert!(!supervisor.may_spawn());
}

#[test]
fn failed_spawn_allows_retry() {
    let mut supervisor = Supervisor::new();
    supervisor.on_spawn_result(false);
    assert_eq!(supervisor.current(), SupervisorState::SpawnFailed);
    assert!(supervisor.may_spawn());
}

#[test]
fn command_builders_set_kinds() {
    let m = user_message_request("i".to_string(), "msg".to_string(), Some("imgs".to_string()));
    assert_eq!(m.kind, "user_message");
    assert_eq!(m.id, "i");
    assert_eq!(m.message.as_deref(), Some("msg"));
    assert_eq!(m.images.as_deref(), Some("imgs"));
    assert!(m.conversation_id.is_none());
    assert_eq!(clear_history_request().kind, "clear_history");
    assert_eq!(interrupt_request().kind, "interrupt");
    assert_eq!(list_conversations_request().kind, "list_conversations");
    assert_eq!(new_conversation_request().kind, "new_conversation");
    let l = load_conversation_request("c-3".to_string());
    assert_eq!(l.kind, "load_conversation");
    assert_eq!(l.conversation_id.as_deref(), Some("c-3"));
    let d = delete_conversation_request("c-3".to_string());
    assert_eq!(d.kind, "delete_conversation");
    assert_eq!(d.conversation_id.as_deref(), Some("c-3"));
}

#[test]
fn generated_ids_are_uuid_shaped() {
    let a = clear_history_request();
    let b = clear_history_request();
    assert_eq!(a.id.len(), 36);
    assert_eq!(b.id.len(), 36);
    assert_ne!(a.id, b.id);
    let parsed = uuid::Uuid::parse_str(&a.id);
    assert!(parsed.is_ok());
}

#[test]
fn overflow_is_reported_once_and_pump_recovers() {
    let mut pump = StreamPump::new(StreamSource::Stdout, 16);
    let (events, overflow) = pump.feed(&[b'x'; 17], 0);
    assert!(events.is_empty());
    assert!(overflow);
    let (events, overflow) = pump.feed(b"{\"type\":\"ready\",\"timestamp\":1}\n", 0);
    assert!(!overflow);
    assert_eq!(events, vec![Event::Response(AgentResponse::Ready { timestamp: 1 })]);
}
