use ternary_agent::comm::{AgentCommunication, AgentMessage};

#[test]
fn communication_send_receive() {
    let mut bus = AgentCommunication::new();
    bus.send(AgentMessage { from: 1, to: 2, tag: "hello".into(), payload: "world".into() });
    assert_eq!(bus.pending(2), 1);
    let msgs = bus.receive(2);
    assert_eq!(msgs.len(), 1);
    assert_eq!(msgs[0].tag, "hello");
    assert_eq!(bus.pending(2), 0);
}

#[test]
fn communication_broadcast() {
    let mut bus = AgentCommunication::new();
    bus.broadcast(1, "alert", "fire", &[1, 2, 3]);
    assert_eq!(bus.pending(1), 0); // sender excluded
    assert_eq!(bus.pending(2), 1);
    assert_eq!(bus.pending(3), 1);
}

#[test]
fn communication_default() {
    let bus = AgentCommunication::default();
    assert_eq!(bus.pending(0), 0);
}

#[test]
fn communication_messages_arrive_in_order() {
    let mut bus = AgentCommunication::new();
    bus.send(AgentMessage { from: 1, to: 5, tag: "a".into(), payload: "1".into() });
    bus.send(AgentMessage { from: 2, to: 6, tag: "b".into(), payload: "2".into() });
    bus.send(AgentMessage { from: 3, to: 5, tag: "c".into(), payload: "3".into() });
    assert_eq!(bus.pending(5), 2);
    assert_eq!(bus.pending(6), 1);
    let msgs = bus.receive(5);
    assert_eq!(msgs.len(), 2);
    assert_eq!(msgs[0].tag, "a");
    assert_eq!(msgs[0].from, 1);
    assert_eq!(msgs[1].tag, "c");
    assert_eq!(msgs[1].payload, "3");
    // the other inbox is untouched
    assert_eq!(bus.pending(6), 1);
    // a second receive finds nothing
    assert!(bus.receive(5).is_empty());
}

#[test]
fn communication_receive_unknown_agent() {
    let mut bus = AgentCommunication::new();
    assert!(bus.receive(42).is_empty());
    assert_eq!(bus.pending(42), 0);
}

#[test]
fn communication_broadcast_repeated_recipient() {
    let mut bus = AgentCommunication::new();
    bus.broadcast(7, "ping", "x", &[2, 7, 2, 3, 7]);
    assert_eq!(bus.pending(7), 0);
    assert_eq!(bus.pending(2), 2);
    assert_eq!(bus.pending(3), 1);
    let msgs = bus.receive(2);
    for m in &msgs {
        assert_eq!(m.from, 7);
        assert_eq!(m.to, 2);
        assert_eq!(m.tag, "ping");
        assert_eq!(m.payload, "x");
    }
}

#[test]
fn communication_broadcast_keeps_earlier_messages() {
    let mut bus = AgentCommunication::new();
    bus.send(AgentMessage { from: 9, to: 2, tag: "first".into(), payload: "".into() });
    bus.broadcast(1, "alert", "fire", &[2]);
    let msgs = bus.receive(2);
    assert_eq!(msgs.len(), 2);
    assert_eq!(msgs[0].tag, "first");
    assert_eq!(msgs[1].tag, "alert");
    assert_eq!(msgs[1].from, 1);
}
