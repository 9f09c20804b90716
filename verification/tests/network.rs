use simnet::demo::{DemoNode, Ping, PingNode, Pong, PongNode};
use simnet::logging::{DebugLogger, SilentLogger};
use simnet::message::MessageString;
use simnet::network::{Event, Network, Node};
use simnet::node::{PassiveNode, SequentialNode};

fn msg(text: &str) -> MessageString {
    MessageString::new(String::from(text))
}

#[test]
fn test_identity_assignment() {
    let mut net: Network<SequentialNode, SilentLogger> = Network::new(None, 4, SilentLogger {});
    for _ in 0..3 {
        net.add_node(SequentialNode::new());
    }
    assert_eq!(net.num_nodes(), 3);
    for i in 0..3 {
        assert_eq!(net.node(i).unwrap().ident(), i);
    }
    assert!(net.node(3).is_none());
    assert!(net.node(-1).is_none());
}

#[test]
fn test_network_wide_simulation() {
    // Verify simulation runs across all nodes
    let mut network: Network<PongNode, DebugLogger> = Network::new(None, 4, DebugLogger {});

    // Add multiple nodes
    for _ in 0..5 {
        network.add_node(PongNode::new());
    }

    assert_eq!(network.num_nodes(), 5);
    network.start_all_nodes();
    assert!(network.run_until_idle(10_000));
}

#[test]
fn test_faster_than_realtime() {
    // Verify simulated delays don't use real clock time
    let start = std::time::Instant::now();

    let mut network: Network<DemoNode, SilentLogger> = Network::new(None, 4, SilentLogger {});
    network.add_node(DemoNode::Pong(PongNode::new()));
    network.add_node(DemoNode::Ping(PingNode::new()));
    network.start_all_nodes();
    assert!(network.run_until_idle(10_000));

    // plenty of simulated units have passed, nearly no real time
    assert!(network.now() >= 5);
    assert!(start.elapsed() < std::time::Duration::from_secs(5));
}

#[test]
fn test_start_node_runs_once() {
    let mut net: Network<PassiveNode, SilentLogger> = Network::new(None, 1, SilentLogger {});
    net.add_node(PassiveNode::new());
    net.start_node(0);
    net.start_node(0); // a second start is a complete no-op
    net.start_node(7); // an absent identity is a complete no-op

    let mut starts = 0;
    let mut runs = 0;
    for ev in net.history() {
        match ev {
            Event::Started { ident, .. } => {
                assert_eq!(*ident, 0);
                starts += 1;
            },
            Event::Logged { ident, event, .. } => {
                if event.as_str() == "RUN" {
                    assert_eq!(*ident, 0);
                    runs += 1;
                }
            },
            _ => {},
        }
    }
    assert_eq!(starts, 1, "exactly one start event");
    assert_eq!(runs, 1, "the run loop ran exactly once");
}

#[test]
fn test_new_registers_supplied_nodes() {
    let nodes = vec![SequentialNode::new(), SequentialNode::new(), SequentialNode::new()];
    let net: Network<SequentialNode, SilentLogger> = Network::new(Some(nodes), 1, SilentLogger {});
    assert_eq!(net.num_nodes(), 3);
    for i in 0..3 {
        assert_eq!(net.node(i).unwrap().ident(), i);
    }
    assert_eq!(net.history().len(), 3);
    for (i, ev) in net.history().iter().enumerate() {
        match ev {
            Event::Added { ident, time } => {
                assert_eq!(*ident as usize, i);
                assert_eq!(*time, 0);
            },
            _ => panic!("only registration records expected"),
        }
    }
}

#[test]
fn test_broadcast_reaches_everyone_else() {
    let mut net: Network<PassiveNode, SilentLogger> = Network::new(None, 1, SilentLogger {});
    for _ in 0..4 {
        net.add_node(PassiveNode::new());
    }
    net.broadcast(1, msg("hello"), None);
    assert_eq!(net.pending_count(), 3);
    assert!(net.run_until_idle(1000));

    let mut targets = Vec::new();
    for ev in net.history() {
        if let Event::Received { sender, target, message, delivered, .. } = ev {
            assert_eq!(*sender, 1);
            assert!(*delivered);
            assert_eq!(message, "hello");
            targets.push(*target);
        }
    }
    targets.sort();
    assert_eq!(targets, vec![0, 2, 3]);
}

#[test]
fn test_send_to_nobody_is_dropped() {
    let mut net: Network<SequentialNode, SilentLogger> = Network::new(None, 1, SilentLogger {});
    net.add_node(SequentialNode::new());
    net.add_node(SequentialNode::new());
    net.start_all_nodes();
    net.send(0, 99, msg("lost"), None);
    assert!(net.run_until_idle(1000));

    let mut receives = 0;
    for ev in net.history() {
        match ev {
            Event::Received { target, delivered, time, .. } => {
                receives += 1;
                assert_eq!(*target, 99);
                assert!(!*delivered);
                assert_eq!(*time, 1);
            },
            Event::Handled { .. } => panic!("no handler may run for a missing identity"),
            _ => {},
        }
    }
    assert_eq!(receives, 1);
}

#[test]
fn test_receive_no_earlier_than_delay() {
    let mut net: Network<SequentialNode, SilentLogger> = Network::new(None, 2, SilentLogger {});
    net.add_node(SequentialNode::new());
    net.add_node(SequentialNode::new());
    net.send(0, 1, msg("a"), Some(7));
    net.send(0, 1, msg("b"), None);
    assert!(net.run_until_idle(1000));

    for ev in net.history() {
        if let Event::Received { message, time, .. } = ev {
            if message == "a" {
                assert!(*time >= 7);
            } else {
                assert!(*time >= 2);
            }
        }
    }
}

#[test]
fn test_delay_ordering() {
    // a later send with a shorter delay arrives first
    let mut net: Network<SequentialNode, SilentLogger> = Network::new(None, 1, SilentLogger {});
    net.add_node(SequentialNode::new());
    net.add_node(SequentialNode::new());
    net.send(0, 1, msg("slow"), Some(5));
    net.send(0, 1, msg("fast"), Some(2));
    assert!(net.run_until_idle(1000));

    let mut order = Vec::new();
    for ev in net.history() {
        if let Event::Received { message, time, .. } = ev {
            order.push((message.clone(), *time));
        }
    }
    assert_eq!(order, vec![(String::from("fast"), 2), (String::from("slow"), 5)]);
}

#[test]
fn test_sequential_handling_never_overlaps() {
    let mut net: Network<DemoNode, SilentLogger> = Network::new(None, 1, SilentLogger {});
    net.add_node(DemoNode::Pong(PongNode::new()));
    net.add_node(DemoNode::Ping(PingNode::new()));
    net.start_all_nodes();
    assert!(net.run_until_idle(10_000));

    // node 0 is the pong node; each of its handler spans takes 5 units
    let mut last_end = 0u64;
    let mut spans = 0;
    for ev in net.history() {
        if let Event::Handled { ident, start, end, .. } = ev {
            if *ident == 0 {
                assert!(*start >= last_end, "handler spans must not overlap");
                assert!(*start <= *end);
                last_end = *end;
                spans += 1;
            }
        }
    }
    assert_eq!(spans, 2);
}

#[test]
fn test_ping_pong_end_to_end() {
    // 10 pong nodes (identities 0 through 9) and 1 ping node (identity 10),
    // with a default 2-unit network delay
    let mut net: Network<DemoNode, SilentLogger> = Network::new(None, 2, SilentLogger {});
    for _ in 0..10 {
        net.add_node(DemoNode::Pong(PongNode::new()));
    }
    net.add_node(DemoNode::Ping(PingNode::new()));
    assert_eq!(net.num_nodes(), 11);
    net.start_all_nodes();
    assert!(net.run_until_idle(100_000));

    // each pong node's handler ran exactly twice, both times on its own ping
    let mut handled_per_node = vec![0usize; 10];
    for ev in net.history() {
        if let Event::Handled { ident, message, .. } = ev {
            if *ident < 10 {
                assert_eq!(*message, Ping::new(*ident).to_string());
                handled_per_node[*ident as usize] += 1;
            }
        }
    }
    assert_eq!(handled_per_node, vec![2usize; 10]);

    // the ping node received exactly 10 x 2 pong replies, each matching the
    // payload it sent to that pong node
    let mut pongs_per_node = vec![0usize; 10];
    for ev in net.history() {
        if let Event::Received { sender, target, message, delivered, .. } = ev {
            if *target == 10 && message.starts_with("Pong(") {
                assert!(*delivered);
                assert_eq!(*message, Pong::new(*sender).to_string());
                pongs_per_node[*sender as usize] += 1;
            }
        }
    }
    assert_eq!(pongs_per_node, vec![2usize; 10]);
}

fn run_fingerprint() -> Vec<(u8, i32, String, u64)> {
    let mut net: Network<DemoNode, SilentLogger> = Network::new(None, 3, SilentLogger {});
    for _ in 0..4 {
        net.add_node(DemoNode::Pong(PongNode::new()));
    }
    net.add_node(DemoNode::Ping(PingNode::new()));
    net.start_all_nodes();
    assert!(net.run_until_idle(100_000));

    let mut out = Vec::new();
    for ev in net.history() {
        out.push(match ev {
            Event::Added { ident, time } => (0u8, *ident, String::new(), *time),
            Event::Started { ident, time } => (1, *ident, String::new(), *time),
            Event::Sent { target, message, time, .. } => (2, *target, message.clone(), *time),
            Event::Broadcast { sender, message, time, .. } => (3, *sender, message.clone(), *time),
            Event::Received { target, message, time, .. } => (4, *target, message.clone(), *time),
            Event::Handled { ident, message, start, .. } => (5, *ident, message.clone(), *start),
            Event::Logged { ident, event, time, .. } => (6, *ident, event.clone(), *time),
        });
    }
    out
}

#[test]
fn test_runs_are_reproducible() {
    assert_eq!(run_fingerprint(), run_fingerprint());
}
