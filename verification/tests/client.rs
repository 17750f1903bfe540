use nt_client::client::{step, Action, Client, ConnectionState, Event, Outbound};
use nt_client::error::Error;
use nt_client::message_type::Type;
use nt_client::messages::{decode_frame, Record};
use nt_client::subscription::{SubscriptionHandle, SubscriptionOptions};
use nt_client::topic::Property;
use nt_client::value::{decode_value, Value};

const STATES: [ConnectionState; 4] = [
    ConnectionState::Disconnected,
    ConnectionState::Connecting,
    ConnectionState::Connected,
    ConnectionState::Closing,
];

const EVENTS: [Event; 7] = [
    Event::Connect,
    Event::HandshakeOk,
    Event::Timeout,
    Event::PeerClosed,
    Event::TransportError,
    Event::DrainComplete,
    Event::Close,
];

fn connected(capacity: usize) -> Client {
    let mut c = Client::new(capacity);
    assert_eq!(c.handle(Event::Connect), Action::OpenTransport);
    assert_eq!(c.handle(Event::HandshakeOk), Action::StartLoops);
    assert_eq!(c.state(), ConnectionState::Connected);
    c
}

fn options(prefix: bool) -> SubscriptionOptions {
    SubscriptionOptions { periodic: 100, all: true, prefix, topicsonly: false }
}

fn double(x: f64) -> Value {
    Value::Double(x.to_bits())
}

fn drain(c: &mut Client) -> Vec<Outbound> {
    let mut out = Vec::new();
    while let Some(f) = c.next_outbound() {
        out.push(f);
    }
    out
}

#[test]
fn the_phases_follow_the_listed_transitions() {
    let (disconnected, connecting, up, closing) = (
        ConnectionState::Disconnected,
        ConnectionState::Connecting,
        ConnectionState::Connected,
        ConnectionState::Closing,
    );
    let listed = [
        (disconnected, Event::Connect, connecting, Action::OpenTransport),
        (connecting, Event::HandshakeOk, up, Action::StartLoops),
        (connecting, Event::Timeout, disconnected, Action::FailConnect),
        (connecting, Event::Close, disconnected, Action::FailConnect),
        (up, Event::PeerClosed, closing, Action::Drain),
        (up, Event::TransportError, closing, Action::Drain),
        (up, Event::Close, closing, Action::Drain),
        (closing, Event::DrainComplete, disconnected, Action::Finish),
    ];
    for s in STATES {
        for e in EVENTS {
            let expected = listed
                .iter()
                .find(|(from, event, _, _)| *from == s && *event == e)
                .map(|(_, _, to, action)| (*to, *action))
                .unwrap_or((s, Action::Nothing));
            assert_eq!(step(s, e), expected, "{:?} {:?}", s, e);
        }
    }
}

#[test]
fn a_connect_that_times_out_leads_back() {
    let mut c = Client::new(4);
    assert_eq!(c.state(), ConnectionState::Disconnected);
    assert_eq!(c.handle(Event::Connect), Action::OpenTransport);
    assert_eq!(c.state(), ConnectionState::Connecting);
    assert_eq!(c.handle(Event::Timeout), Action::FailConnect);
    assert_eq!(c.state(), ConnectionState::Disconnected);
    assert_eq!(c.outbound_len(), 0);
}

#[test]
fn operations_are_refused_while_the_connection_is_not_up() {
    let mut c = Client::new(4);
    for e in [None, Some(Event::Connect)] {
        if let Some(e) = e {
            c.handle(e);
        }
        assert!(matches!(c.publish("a", Type::Int, Value::Int(1), 0), Err(Error::Closed)));
        assert!(matches!(
            c.subscribe(vec!["a".to_string()], options(false)),
            Err(Error::Closed)
        ));
        assert!(matches!(c.unsubscribe(SubscriptionHandle { id: 0 }), Err(Error::Closed)));
        assert!(matches!(c.set_properties("a", vec![]), Err(Error::Closed)));
        assert_eq!(c.outbound_len(), 0);
        assert_eq!(c.pending_len(), 0);
        assert_eq!(c.registry().len(), 0);
    }
    let mut c = connected(4);
    c.handle(Event::PeerClosed);
    assert_eq!(c.state(), ConnectionState::Closing);
    assert!(matches!(c.publish("a", Type::Int, Value::Int(1), 0), Err(Error::Closed)));
}

#[test]
fn a_value_published_before_the_announcement_follows_it() {
    let mut c = connected(8);
    c.publish("temp", Type::Double, double(21.5), 5).unwrap();
    assert_eq!(c.pending_len(), 1);
    assert_eq!(
        drain(&mut c),
        vec![Outbound::Publish { name: "temp".to_string(), ty: Type::Double }]
    );
    let a = c.on_announce("temp", 3, Type::Double, vec![]).unwrap();
    assert_eq!(a.superseded_id, None);
    assert!(!a.type_conflict);
    assert_eq!(c.pending_len(), 0);
    let frames = drain(&mut c);
    assert_eq!(frames.len(), 1);
    match &frames[0] {
        Outbound::Data { topic_id, bytes } => {
            assert_eq!(*topic_id, 3);
            let records = decode_frame(bytes).unwrap();
            assert_eq!(
                records,
                vec![Record { topic_id: 3, timestamp: 5, ty: Type::Double, value: double(21.5) }]
            );
            assert_eq!(decode_value(Type::Double, &bytes[17..]).unwrap(), double(21.5));
        }
        other => panic!("unexpected {:?}", other),
    }
    // With the number known, the next value is queued at once, without a declaration.
    c.publish("temp", Type::Double, double(22.0), 6).unwrap();
    assert_eq!(c.pending_len(), 0);
    let frames = drain(&mut c);
    assert_eq!(frames.len(), 1);
    assert!(matches!(&frames[0], Outbound::Data { topic_id: 3, .. }));
}

#[test]
fn a_subscriber_by_prefix_gets_the_update_once() {
    let mut c = connected(8);
    let h = c.subscribe(vec!["robot/".to_string()], options(true)).unwrap();
    assert_eq!(
        drain(&mut c),
        vec![Outbound::Subscribe {
            id: h.id,
            patterns: vec!["robot/".to_string()],
            options: options(true)
        }]
    );
    c.on_announce("robot/x", 11, Type::Int, vec![]).unwrap();
    c.on_announce("arm/x", 12, Type::Int, vec![]).unwrap();
    let mut bytes = Vec::new();
    nt_client::messages::write_record(&mut bytes, 11, 1, Type::Int, &Value::Int(42));
    let records = decode_frame(&bytes).unwrap();
    assert_eq!(records.len(), 1);
    assert_eq!(c.on_record(&records[0]).unwrap(), vec![h.id]);
    assert_eq!(records[0].value, Value::Int(42));
    let other = Record { topic_id: 12, timestamp: 1, ty: Type::Int, value: Value::Int(1) };
    assert_eq!(c.on_record(&other).unwrap(), Vec::<u64>::new());
}

#[test]
fn records_that_do_not_belong_are_reported() {
    let mut c = connected(8);
    c.subscribe(vec!["".to_string()], options(true)).unwrap();
    c.on_announce("a", 1, Type::Json, vec![]).unwrap();
    let unknown = Record { topic_id: 2, timestamp: 0, ty: Type::Int, value: Value::Int(1) };
    assert!(matches!(c.on_record(&unknown), Err(Error::InvalidMessageType(_))));
    let wrong = Record { topic_id: 1, timestamp: 0, ty: Type::Int, value: Value::Int(1) };
    assert!(matches!(c.on_record(&wrong), Err(Error::InvalidMessageType(_))));
    // A record read from the wire has the one type of its code: it goes with every type of that code.
    let right = Record { topic_id: 1, timestamp: 0, ty: Type::String, value: Value::String("1".to_string()) };
    assert_eq!(c.on_record(&right).unwrap(), vec![0]);
    c.on_unannounce(1).unwrap();
    assert!(matches!(c.on_record(&right), Err(Error::InvalidMessageType(_))));
}

#[test]
fn publishes_leave_in_the_order_in_which_they_came() {
    let n = 20;
    let mut c = connected(n + 2);
    c.publish("t", Type::Int, Value::Int(-1), 0).unwrap();
    c.on_announce("t", 4, Type::Int, vec![]).unwrap();
    drain(&mut c);
    for i in 0..n {
        c.publish("t", Type::Int, Value::Int(i as i64), i as u64).unwrap();
    }
    assert_eq!(c.outbound_len(), n);
    let frames = drain(&mut c);
    for (i, f) in frames.iter().enumerate() {
        match f {
            Outbound::Data { topic_id, bytes } => {
                assert_eq!(*topic_id, 4);
                let r = decode_frame(bytes).unwrap();
                assert_eq!(r[0].value, Value::Int(i as i64));
                assert_eq!(r[0].timestamp, i as u64);
            }
            other => panic!("unexpected {:?}", other),
        }
    }
}

#[test]
fn a_full_queue_refuses_and_keeps_what_it_holds() {
    let mut c = connected(3);
    // A first publish takes two places: the declaration and the waiting value.
    c.publish("a", Type::Int, Value::Int(1), 0).unwrap();
    assert_eq!((c.outbound_len(), c.pending_len()), (1, 1));
    match c.publish("b", Type::Int, Value::Int(2), 0) {
        Err(Error::Io(s)) => assert_eq!(s, "outbound queue is full"),
        other => panic!("unexpected {:?}", other),
    }
    assert!(c.registry().get("b").is_none());
    c.publish("a", Type::Int, Value::Int(3), 0).unwrap();
    assert_eq!((c.outbound_len(), c.pending_len()), (1, 2));
    assert!(matches!(c.publish("a", Type::Int, Value::Int(4), 0), Err(Error::Io(_))));
    assert!(matches!(c.subscribe(vec!["a".to_string()], options(false)), Err(Error::Io(_))));
    assert!(matches!(c.set_properties("a", vec![]), Err(Error::Io(_))));
    assert_eq!((c.outbound_len(), c.pending_len()), (1, 2));
    c.next_outbound().unwrap();
    c.subscribe(vec!["a".to_string()], options(false)).unwrap();
    assert!(matches!(c.unsubscribe(SubscriptionHandle { id: 0 }), Err(Error::Io(_))));
    let zero = connected(0);
    let mut zero = zero;
    assert!(matches!(zero.publish("a", Type::Int, Value::Int(1), 0), Err(Error::Io(_))));
}

#[test]
fn publish_refuses_what_cannot_be_published() {
    let mut c = connected(8);
    assert!(matches!(
        c.publish("", Type::Int, Value::Int(1), 0),
        Err(Error::InvalidMessageString(_))
    ));
    assert!(matches!(
        c.publish("a", Type::Int, double(1.0), 0),
        Err(Error::InvalidMessageType(_))
    ));
    c.publish("a", Type::Int, Value::Int(1), 0).unwrap();
    assert!(matches!(
        c.publish("a", Type::Double, double(1.0), 0),
        Err(Error::InvalidMessageType(_))
    ));
    assert_eq!((c.outbound_len(), c.pending_len()), (1, 1));
    assert_eq!(c.registry().get("a").unwrap().ty, Type::Int);
}

#[test]
fn waiting_values_follow_in_order_and_misfits_are_dropped() {
    let mut c = connected(16);
    c.publish("a", Type::Int, Value::Int(1), 1).unwrap();
    c.publish("b", Type::Int, Value::Int(10), 2).unwrap();
    c.publish("a", Type::Int, Value::Int(2), 3).unwrap();
    c.publish("a", Type::Int, Value::Int(3), 4).unwrap();
    assert_eq!(c.pending_len(), 4);
    drain(&mut c);
    c.on_announce("a", 5, Type::Int, vec![]).unwrap();
    assert_eq!(c.pending_len(), 1);
    let values: Vec<Value> = drain(&mut c)
        .iter()
        .map(|f| match f {
            Outbound::Data { topic_id: 5, bytes } => decode_frame(bytes).unwrap().remove(0).value,
            other => panic!("unexpected {:?}", other),
        })
        .collect();
    assert_eq!(values, vec![Value::Int(1), Value::Int(2), Value::Int(3)]);
    // The server announces "b" with another type: the waiting integer cannot be sent.
    let a = c.on_announce("b", 6, Type::Double, vec![]).unwrap();
    assert!(a.type_conflict);
    assert_eq!(c.pending_len(), 0);
    assert_eq!(c.outbound_len(), 0);
}

#[test]
fn frames_for_a_superseded_number_are_dropped() {
    let mut c = connected(16);
    c.on_announce("a", 1, Type::Int, vec![]).unwrap();
    c.on_announce("b", 2, Type::Int, vec![]).unwrap();
    c.publish("a", Type::Int, Value::Int(1), 0).unwrap();
    c.publish("b", Type::Int, Value::Int(2), 0).unwrap();
    c.publish("a", Type::Int, Value::Int(3), 0).unwrap();
    assert_eq!(c.outbound_len(), 5);
    let a = c.on_announce("a", 9, Type::Int, vec![]).unwrap();
    assert_eq!(a.superseded_id, Some(1));
    let frames = drain(&mut c);
    assert_eq!(frames.len(), 3);
    assert!(matches!(&frames[0], Outbound::Publish { name, .. } if name == "a"));
    assert!(matches!(&frames[1], Outbound::Publish { name, .. } if name == "b"));
    assert!(matches!(&frames[2], Outbound::Data { topic_id: 2, .. }));
}

#[test]
fn unsubscribe_tells_the_server_and_keeps_the_number() {
    let mut c = connected(8);
    let a = c.subscribe(vec!["a".to_string()], options(false)).unwrap();
    c.unsubscribe(a).unwrap();
    assert!(matches!(c.unsubscribe(a), Err(Error::InvalidMessageType(_))));
    assert!(matches!(
        c.unsubscribe(SubscriptionHandle { id: 7 }),
        Err(Error::InvalidMessageType(_))
    ));
    let b = c.subscribe(vec!["b".to_string()], options(false)).unwrap();
    assert_eq!(b.id, 1);
    assert!(c.release(a.id));
    let d = c.subscribe(vec!["d".to_string()], options(false)).unwrap();
    assert_eq!(d.id, 0);
    let frames = drain(&mut c);
    assert_eq!(frames.len(), 4);
    assert_eq!(frames[1], Outbound::Unsubscribe { id: 0 });
}

#[test]
fn properties_are_written_and_told() {
    let mut c = connected(8);
    let p = |k: &str, v: &str| Property { key: k.to_string(), value: v.to_string() };
    assert!(matches!(c.set_properties("a", vec![]), Err(Error::InvalidMessageType(_))));
    c.on_announce("a", 1, Type::Int, vec![p("persistent", "false")]).unwrap();
    c.set_properties("a", vec![p("persistent", "true"), p("retained", "true")]).unwrap();
    assert_eq!(
        c.registry().get("a").unwrap().properties,
        vec![p("persistent", "true"), p("retained", "true")]
    );
    assert_eq!(
        drain(&mut c),
        vec![Outbound::SetProperties {
            name: "a".to_string(),
            properties: vec![p("persistent", "true"), p("retained", "true")]
        }]
    );
    assert!(c.on_properties("a", &vec![p("retained", "false")]));
    assert!(!c.on_properties("b", &vec![p("retained", "false")]));
    assert_eq!(
        c.registry().get("a").unwrap().properties,
        vec![p("persistent", "true"), p("retained", "false")]
    );
    assert_eq!(c.outbound_len(), 0);
}

#[test]
fn a_lost_connection_is_taken_up_with_what_persists() {
    let mut c = connected(16);
    c.publish("mine", Type::Int, Value::Int(1), 0).unwrap();
    c.on_announce("mine", 1, Type::Int, vec![]).unwrap();
    c.on_announce("theirs", 2, Type::Int, vec![]).unwrap();
    c.publish("late", Type::Double, double(1.0), 0).unwrap();
    let keep = c.subscribe(vec!["robot/".to_string()], options(true)).unwrap();
    let lose = c.subscribe(vec!["arm/".to_string()], options(true)).unwrap();
    assert!(c.mark_persistent(keep, true));
    assert_eq!(c.handle(Event::TransportError), Action::Drain);
    assert_eq!(c.state(), ConnectionState::Closing);
    assert_eq!(c.pending_len(), 0);
    assert!(c.outbound_len() > 0);
    assert_eq!(c.handle(Event::Connect), Action::Nothing);
    assert_eq!(c.handle(Event::DrainComplete), Action::Finish);
    assert_eq!(c.state(), ConnectionState::Disconnected);
    assert_eq!(c.outbound_len(), 0);
    assert_eq!(c.registry().resolve_id("mine"), None);
    assert!(c.registry().get("mine").is_some());
    assert!(c.registry().get("late").is_some());
    assert!(c.registry().get("theirs").is_none());
    c.handle(Event::Connect);
    assert_eq!(c.handle(Event::HandshakeOk), Action::StartLoops);
    assert_eq!(
        drain(&mut c),
        vec![
            Outbound::Publish { name: "mine".to_string(), ty: Type::Int },
            Outbound::Publish { name: "late".to_string(), ty: Type::Double },
            Outbound::Subscribe {
                id: keep.id,
                patterns: vec!["robot/".to_string()],
                options: options(true)
            },
        ]
    );
    assert!(matches!(c.unsubscribe(lose), Err(Error::InvalidMessageType(_))));
}
