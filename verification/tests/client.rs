use std::collections::HashMap;

use neobft::config::Config;
use neobft::protocol::zyzzyva::client::{Action, Client, Event, Invocation, Status};
use neobft::protocol::zyzzyva::message::SpeculativeResponse;
use neobft::transport::Receiver;

fn client(n_fault: usize) -> Client<u64, u64> {
    let config = Config {
        replica_address: (0..3 * n_fault as u64 + 1).collect(),
        multicast_address: None,
        n_fault,
        signing_key: HashMap::new(),
    };
    Client::register_new(1000, 77, config)
}

fn response(request_number: u32, replica_id: u8, result: &[u8]) -> Event {
    let response = SpeculativeResponse {
        view_number: 0,
        request_number,
    };
    Event::Response(response, replica_id, result.to_vec())
}

fn waits(client: &mut Client<u64, u64>, invocation: &mut Invocation, event: Event) -> bool {
    matches!(client.step(invocation, event), Action::Wait)
}

#[test]
fn request_goes_to_the_primary() {
    let mut client = client(1);
    assert_eq!(*client.get_address(), 1000);
    let (invocation, primary) = client.invoke(vec![1, 2], 5);
    assert_eq!(primary, 0);
    assert_eq!(invocation.request().op, vec![1, 2]);
    assert_eq!(invocation.request().request_number, 1);
    assert_eq!(invocation.request().client_id, 77);
    assert_eq!(invocation.commit_timeout(), 105);
    assert_eq!(invocation.resend_timeout(), 1005);
    let (invocation, _) = client.invoke(vec![], 5);
    assert_eq!(invocation.request().request_number, 2);
}

#[test]
fn commit_needs_all_replicas() {
    let mut client = client(1);
    let (mut invocation, _) = client.invoke(vec![1], 0);
    for id in 0..3 {
        assert!(waits(&mut client, &mut invocation, response(1, id, b"ok")));
    }
    match client.step(&mut invocation, response(1, 3, b"ok")) {
        Action::Return(result) => assert_eq!(result, b"ok"),
        action => panic!("unexpected {action:?}"),
    }
}

#[test]
fn replica_counts_once() {
    let mut client = client(1);
    let (mut invocation, _) = client.invoke(vec![1], 0);
    for _ in 0..10 {
        assert!(waits(&mut client, &mut invocation, response(1, 0, b"ok")));
    }
    assert!(waits(&mut client, &mut invocation, Event::CommitTimeout));
}

#[test]
fn disagreeing_replica_prevents_commit() {
    let mut client = client(1);
    let (mut invocation, _) = client.invoke(vec![1], 0);
    assert!(waits(&mut client, &mut invocation, response(1, 0, b"no")));
    for id in 1..4 {
        assert!(waits(&mut client, &mut invocation, response(1, id, b"ok")));
    }
    // the replica changes its mind
    match client.step(&mut invocation, response(1, 0, b"ok")) {
        Action::Return(result) => assert_eq!(result, b"ok"),
        action => panic!("unexpected {action:?}"),
    }
}

#[test]
fn other_responses_are_ignored() {
    let mut client = client(0);
    let (mut invocation, _) = client.invoke(vec![1], 0);
    assert!(waits(&mut client, &mut invocation, response(0, 0, b"ok")));
    assert!(waits(&mut client, &mut invocation, response(2, 0, b"ok")));
    assert!(matches!(
        client.step(&mut invocation, response(1, 0, b"ok")),
        Action::Return(_)
    ));
}

#[test]
fn certificate_needs_replies() {
    let mut client = client(1);
    let (mut invocation, _) = client.invoke(vec![1], 0);
    for id in 0..2 {
        client.step(&mut invocation, response(1, id, b"ok"));
        assert!(waits(&mut client, &mut invocation, Event::CommitTimeout));
    }
    client.step(&mut invocation, response(1, 2, b"ok"));
    assert!(matches!(
        client.step(&mut invocation, Event::CommitTimeout),
        Action::Commit(result) if result == b"ok"
    ));
}

#[test]
fn commit_timer_waits_for_replies() {
    let mut client = client(2);
    let (mut invocation, _) = client.invoke(vec![1], 0);
    for id in 0..4 {
        client.step(&mut invocation, response(1, id, b"ok"));
    }
    assert!(waits(&mut client, &mut invocation, Event::CommitTimeout));
    assert_eq!(invocation.commit_timeout(), 100);
}

#[test]
fn resend_timer_restarts_both_timers() {
    let mut client = client(1);
    let (mut invocation, _) = client.invoke(vec![4], 0);
    let action = client.step(&mut invocation, Event::ResendTimeout { now: 1003 });
    assert!(matches!(action, Action::Resend));
    assert_eq!(invocation.commit_timeout(), 1103);
    assert_eq!(invocation.resend_timeout(), 2003);
    assert_eq!(invocation.request().op, vec![4]);
    assert_eq!(invocation.request().request_number, 1);
}

#[test]
fn view_never_goes_back() {
    let mut client = client(1);
    let (mut invocation, _) = client.invoke(vec![1], 0);
    for view_number in [6, 2] {
        let newer = SpeculativeResponse {
            view_number,
            request_number: 1,
        };
        client.step(&mut invocation, Event::Response(newer, 0, vec![]));
    }
    let (_, primary) = client.invoke(vec![1], 0);
    assert_eq!(primary, 6 % 4);
}

#[test]
fn status_of_a_response() {
    let mut client = client(1);
    let (mut invocation, _) = client.invoke(vec![1], 0);
    let answer = SpeculativeResponse {
        view_number: 0,
        request_number: 1,
    };
    let mut statuses = Vec::new();
    for id in 0..5 {
        statuses.push(client.receive_response(&mut invocation, answer, id, b"ok".to_vec()));
    }
    assert!(matches!(statuses[0], Status::Other));
    assert!(matches!(statuses[1], Status::Other));
    assert!(matches!(&statuses[2], Status::Certified(result) if result == b"ok"));
    assert!(matches!(statuses[3], Status::Committed(_)));
    // more replicas than the cluster should have
    assert!(matches!(statuses[4], Status::Certified(_)));
}

#[test]
fn certified_result_is_unique() {
    let mut client = client(1);
    let (mut invocation, _) = client.invoke(vec![1], 0);
    let answer = SpeculativeResponse {
        view_number: 0,
        request_number: 1,
    };
    let mut certified = Vec::new();
    for (id, result) in [(0, b"a"), (1, b"b"), (2, b"a"), (3, b"a")] {
        let status = client.receive_response(&mut invocation, answer, id, result.to_vec());
        if matches!(status, Status::Certified(_)) {
            certified.push(result);
        }
    }
    assert_eq!(certified, vec![b"a"]);
}

#[test]
fn foreign_responses_are_ignored() {
    let events = |foreign: bool| {
        let mut events = Vec::new();
        for id in 0..4 {
            if foreign {
                events.push(response(1, 3 - id, b"ok"));
                let newer = SpeculativeResponse {
                    view_number: 9,
                    request_number: 3,
                };
                events.push(Event::Response(newer, id, b"ok".to_vec()));
            }
            events.push(response(2, id, b"ok"));
        }
        events
    };
    let mut outcomes = Vec::new();
    for foreign in [false, true] {
        let mut client = client(1);
        client.invoke(vec![1], 0);
        let (mut invocation, _) = client.invoke(vec![2], 0);
        let mut returned = Vec::new();
        for event in events(foreign) {
            if let Action::Return(result) = client.step(&mut invocation, event) {
                returned.push(result);
            }
        }
        let number = client.request_number();
        let (_, primary) = client.invoke(vec![3], 0);
        outcomes.push((returned, number, primary));
    }
    assert_eq!(outcomes[0], outcomes[1]);
    assert_eq!(outcomes[0], (vec![b"ok".to_vec()], 2, 0));
}

#[test]
fn requests_are_numbered() {
    let mut client = client(1);
    for number in 1..=5 {
        let (mut invocation, _) = client.invoke(vec![number as u8], 0);
        assert_eq!(invocation.request().request_number, number);
        for now in [1000, 2000] {
            client.step(&mut invocation, response(number - 1, 0, b"late"));
            client.step(&mut invocation, Event::ResendTimeout { now });
            assert_eq!(invocation.request().request_number, number);
            assert_eq!(invocation.request().client_id, 77);
            assert_eq!(invocation.request().op, vec![number as u8]);
        }
    }
}

#[test]
fn commit_is_of_the_certified_result() {
    let mut client = client(1);
    let (mut invocation, _) = client.invoke(vec![1], 0);
    assert_eq!(invocation.certification(), None);
    client.step(&mut invocation, response(1, 0, b"no"));
    for id in 1..4 {
        assert_eq!(invocation.certification(), None);
        assert!(waits(&mut client, &mut invocation, Event::CommitTimeout));
        client.step(&mut invocation, response(1, id, b"ok"));
    }
    assert_eq!(invocation.certification(), Some(&b"ok".to_vec()));
    // the timer runs out again and again, and the result stays
    for _ in 0..2 {
        match client.step(&mut invocation, Event::CommitTimeout) {
            Action::Commit(result) => assert_eq!(result, b"ok"),
            action => panic!("unexpected {action:?}"),
        }
        client.step(&mut invocation, Event::ResendTimeout { now: 1000 });
    }
}

#[test]
fn first_certified_result_stays() {
    let mut client = client(1);
    let (mut invocation, _) = client.invoke(vec![1], 0);
    for id in 0..3 {
        client.step(&mut invocation, response(1, id, b"a"));
    }
    // replicas change their mind
    for id in 0..3 {
        client.step(&mut invocation, response(1, id, b"b"));
    }
    match client.step(&mut invocation, Event::CommitTimeout) {
        Action::Commit(result) => assert_eq!(result, b"a"),
        action => panic!("unexpected {action:?}"),
    }
}

#[test]
fn responses_to_other_requests_certify_nothing() {
    let mut client = client(1);
    client.invoke(vec![1], 0);
    let (mut invocation, _) = client.invoke(vec![1], 0);
    for id in 0..4 {
        client.step(&mut invocation, response(1, id, b"ok"));
    }
    assert_eq!(invocation.certification(), None);
    assert!(waits(&mut client, &mut invocation, Event::CommitTimeout));
}
