use std::collections::HashMap;

use neobft::app::App;
use neobft::common::Digest;
use neobft::config::Config;
use neobft::protocol::neo::message::{
    MulticastVerifyingKey, OrderedMulticast, Reply, Request, SignedReply, Status,
    VerifiedOrderedMulticast,
};
use neobft::protocol::neo::model::{Notice, Output};
use neobft::protocol::neo::replica::Replica;
use neobft::protocol::neo::shared::{Authentication, Receipt, SequenceWindow, Shared};
use neobft::transport::Receiver;

/// Answers with the operation in reverse and remembers nothing.
struct Reverse;

impl App for Reverse {
    fn execute(&mut self, _op_number: u32, op: Vec<u8>) -> Vec<u8> {
        op.into_iter().rev().collect()
    }
}

type TestReplica = Replica<String, u64, u64, Reverse>;

fn config() -> Config<String, u64> {
    Config {
        replica_address: (0..4).map(|i| format!("replica-{i}")).collect(),
        multicast_address: None,
        n_fault: 1,
        signing_key: HashMap::new(),
    }
}

fn replica() -> TestReplica {
    Replica::register_new(
        config(),
        2,
        Reverse,
        10,
        MulticastVerifyingKey::PublicKey(0),
        false,
    )
}

fn digest(n: u32) -> Digest {
    let mut bytes = [0; 32];
    bytes[..4].copy_from_slice(&n.to_be_bytes());
    Digest { bytes }
}

fn multicast(n: u32, client_id: u32, request_number: u32) -> OrderedMulticast {
    OrderedMulticast {
        sequence_number: n,
        linked: digest(n.wrapping_sub(1)),
        digest: digest(n),
        request: Request {
            client_id,
            request_number,
            op: vec![n as u8, 1, 2],
        },
    }
}

/// Message `n` of client 7, which numbers its requests like the multicast.
fn message(n: u32, status: Status) -> VerifiedOrderedMulticast {
    VerifiedOrderedMulticast {
        meta: multicast(n, 7, n),
        status,
    }
}

fn sequence_numbers(replica: &TestReplica) -> Vec<u32> {
    replica
        .log()
        .iter()
        .map(|entry| entry.meta.sequence_number)
        .collect()
}

fn executed(output: &[Output<String>]) -> Vec<u32> {
    output
        .iter()
        .map(|output| match output {
            Output::Sign { reply, .. } => reply.op_number,
            output => panic!("unexpected {output:?}"),
        })
        .collect()
}

fn mentioned(output: &[Output<String>]) -> Vec<Notice> {
    output
        .iter()
        .map(|output| match output {
            Output::Mention(notice) => *notice,
            output => panic!("unexpected {output:?}"),
        })
        .collect()
}

fn sign(reply: Reply) -> SignedReply {
    SignedReply {
        reply,
        signature: vec![9, 9],
    }
}

#[test]
fn signed_message_is_logged_executed_and_answered() {
    let mut replica = replica();
    let mut output = replica.handle_request(1, "client".into(), message(1, Status::Signed));
    assert_eq!(replica.op_number(), 1);
    assert_eq!(output.len(), 1);
    match output.pop().unwrap() {
        Output::Sign {
            remote,
            client_id,
            reply,
        } => {
            assert_eq!(remote, "client");
            assert_eq!(client_id, 7);
            assert_eq!(reply.view_number, 0);
            assert_eq!(reply.replica_id, 2);
            assert_eq!(reply.op_number, 1);
            assert_eq!(reply.log_hash.bytes, [0; 32]);
            assert_eq!(reply.request_number, 1);
            assert_eq!(reply.result, vec![2, 1, 1]);
        }
        output => panic!("unexpected {output:?}"),
    }
}

#[test]
fn first_sequence_number_is_the_first_entry() {
    let mut replica = replica();
    replica.handle_request(40, "client".into(), message(40, Status::Signed));
    replica.handle_request(40, "client".into(), message(41, Status::Signed));
    assert_eq!(sequence_numbers(&replica), vec![40, 41]);
    assert_eq!(replica.op_number(), 2);
}

#[test]
fn log_is_append_only_and_in_sequence() {
    let mut replica = replica();
    let mut before: Vec<u32> = Vec::new();
    for n in [3, 1, 5, 2, 4] {
        replica.handle_request(1, "client".into(), message(n, Status::Signed));
        let after = sequence_numbers(&replica);
        assert_eq!(after[..before.len()], before[..]);
        assert_eq!(after, (1..=after.len() as u32).collect::<Vec<_>>());
        before = after;
    }
    assert_eq!(before, vec![1, 2, 3, 4, 5]);
}

#[test]
fn nothing_ready_waits() {
    let mut replica = replica();
    for n in [4, 3, 2] {
        let output = replica.handle_request(1, "client".into(), message(n, Status::Signed));
        assert!(output.is_empty());
    }
    assert_eq!(replica.report().reorder_remaining, Some(3));
    let output = replica.handle_request(1, "client".into(), message(1, Status::Signed));
    assert_eq!(executed(&output), vec![1, 2, 3, 4]);
    assert_eq!(replica.report().reorder_remaining, None);
}

#[test]
fn arrival_order_does_not_matter() {
    let mut logs = Vec::new();
    for order in [[1, 2, 3], [3, 2, 1], [2, 3, 1], [3, 1, 2]] {
        let mut replica = replica();
        let mut output = Vec::new();
        for n in order {
            output.extend(replica.handle_request(1, "client".into(), message(n, Status::Signed)));
        }
        logs.push((sequence_numbers(&replica), executed(&output)));
    }
    for log in &logs {
        assert_eq!(*log, (vec![1, 2, 3], vec![1, 2, 3]));
    }
}

#[test]
fn unsigned_messages_wait_for_a_signed_successor() {
    let mut replica = replica();
    for n in [1, 2, 3] {
        let output = replica.handle_request(1, "client".into(), message(n, Status::Unsigned));
        assert!(output.is_empty());
    }
    assert_eq!(replica.report().chain_remaining, Some(3));
    let output = replica.handle_request(1, "client".into(), message(4, Status::Signed));
    assert_eq!(executed(&output), vec![1, 2, 3, 4]);
    assert_eq!(replica.report().chain_remaining, None);
}

#[test]
fn nothing_vouched_waits() {
    let mut replica = replica();
    replica.handle_request(1, "client".into(), message(3, Status::Signed));
    // message 3 waits for messages 1 and 2, and vouches for message 2
    let output = replica.handle_request(1, "client".into(), message(2, Status::Skipped));
    assert!(output.is_empty());
    assert_eq!(replica.report().chain_remaining, None);
    assert_eq!(replica.report().reorder_remaining, Some(2));
    let output = replica.handle_request(1, "client".into(), message(1, Status::Unsigned));
    assert_eq!(executed(&output), vec![1, 2, 3]);
}

#[test]
fn only_authentic_messages_enter() {
    let mut replica = replica();
    let mut forged = message(1, Status::Unsigned);
    forged.meta.digest = digest(1000);
    replica.handle_request(1, "client".into(), forged);
    replica.handle_request(1, "client".into(), message(2, Status::Unsigned));
    let output = replica.handle_request(1, "client".into(), message(3, Status::Signed));
    // message 2 enters and finds that message 1 is forged
    assert_eq!(mentioned(&output), vec![Notice::BrokenChain(1)]);
    assert_eq!(replica.op_number(), 0);
    assert_eq!(replica.report().chain_remaining, None);
    assert_eq!(replica.report().reorder_remaining, Some(2));
    let output = replica.handle_request(1, "client".into(), message(1, Status::Unsigned));
    assert_eq!(executed(&output), vec![1, 2, 3]);
}

#[test]
fn contradicted_message_is_dropped() {
    let mut replica = replica();
    replica.handle_request(1, "client".into(), message(2, Status::Signed));
    let mut forged = message(1, Status::Unsigned);
    forged.meta.digest = digest(1000);
    let output = replica.handle_request(1, "client".into(), forged);
    assert_eq!(mentioned(&output), vec![Notice::BrokenChain(1)]);
    assert_eq!(replica.op_number(), 0);
    assert_eq!(replica.report().chain_remaining, None);
    assert_eq!(replica.report().reorder_remaining, Some(1));
}

#[test]
fn logged_successor_vouches_for_a_late_message() {
    let mut replica = replica();
    replica.handle_request(1, "client".into(), message(1, Status::Signed));
    replica.handle_request(1, "client".into(), message(2, Status::Signed));
    // a repetition of the first message is authentic, but its turn is over
    let output = replica.handle_request(1, "client".into(), message(1, Status::Unsigned));
    assert!(output.is_empty());
    assert_eq!(replica.op_number(), 2);
    assert_eq!(replica.report().reorder_remaining, Some(1));
}

#[test]
fn duplicates_are_mentioned() {
    let mut replica = replica();
    for status in [Status::Unsigned, Status::Skipped] {
        let output = replica.handle_request(1, "client".into(), message(5, status));
        match status {
            Status::Unsigned => assert!(output.is_empty()),
            _ => assert_eq!(mentioned(&output), vec![Notice::DuplicatedChain(5)]),
        }
    }
    assert_eq!(replica.report().chain_remaining, Some(1));
    assert!(replica
        .handle_request(1, "client".into(), message(3, Status::Signed))
        .is_empty());
    let output = replica.handle_request(1, "client".into(), message(3, Status::Signed));
    assert_eq!(mentioned(&output), vec![Notice::DuplicatedSequence(3)]);
    assert_eq!(replica.report().reorder_remaining, Some(1));
}

#[test]
fn break_is_mentioned_before_what_it_lets_in() {
    let mut replica = replica();
    replica.handle_request(1, "client".into(), message(1, Status::Signed));
    let mut forged = message(2, Status::Unsigned);
    forged.meta.digest = digest(1000);
    replica.handle_request(1, "client".into(), forged);
    replica.handle_request(1, "client".into(), message(3, Status::Unsigned));
    replica.handle_request(1, "client".into(), message(4, Status::Signed));
    assert_eq!(replica.report().reorder_remaining, Some(2));
    let again = replica.handle_request(1, "client".into(), message(4, Status::Signed));
    assert_eq!(mentioned(&again), vec![Notice::DuplicatedSequence(4)]);
    let output = replica.handle_request(1, "client".into(), message(2, Status::Unsigned));
    assert_eq!(executed(&output), vec![2, 3, 4]);
}

#[test]
fn sequence_may_start_from_zero() {
    let mut replica = replica();
    let output = replica.handle_request(0, "client".into(), message(0, Status::Signed));
    assert_eq!(executed(&output), vec![1]);
    let output = replica.handle_request(0, "client".into(), message(1, Status::Signed));
    assert_eq!(executed(&output), vec![2]);
    assert_eq!(sequence_numbers(&replica), vec![0, 1]);
}

#[test]
fn message_zero_can_wait_and_be_vouched_for() {
    for status in [Status::Unsigned, Status::Skipped] {
        let mut replica = replica();
        assert!(replica
            .handle_request(0, "client".into(), message(0, status))
            .is_empty());
        assert_eq!(replica.report().chain_remaining, Some(1));
        let output = replica.handle_request(0, "client".into(), message(1, Status::Signed));
        assert_eq!(executed(&output), vec![1, 2]);
        assert_eq!(replica.report().chain_remaining, None);
    }
}

#[test]
fn message_zero_can_be_contradicted() {
    let mut replica = replica();
    replica.handle_request(0, "client".into(), message(1, Status::Signed));
    let mut forged = message(0, Status::Unsigned);
    forged.meta.digest = digest(1000);
    let output = replica.handle_request(0, "client".into(), forged);
    assert_eq!(mentioned(&output), vec![Notice::BrokenChain(0)]);
    assert_eq!(replica.op_number(), 0);
}

#[test]
fn last_sequence_number_but_one_is_handled() {
    let n = u32::MAX - 1;
    let mut replica = replica();
    let output = replica.handle_request(n, "client".into(), message(n, Status::Signed));
    assert_eq!(executed(&output), vec![1]);
}

/// All orders of the numbers from 1 to `n`.
fn orders(n: u32) -> Vec<Vec<u32>> {
    if n == 0 {
        return vec![Vec::new()];
    }
    let mut all = Vec::new();
    for order in orders(n - 1) {
        for i in 0..=order.len() {
            let mut longer = order.clone();
            longer.insert(i, n);
            all.push(longer);
        }
    }
    all
}

#[test]
fn vouched_messages_in_any_order() {
    for order in orders(5) {
        let mut replica = replica();
        let mut output = Vec::new();
        for n in &order {
            let status = match n {
                5 => Status::Signed,
                2 => Status::Skipped,
                _ => Status::Unsigned,
            };
            output.extend(replica.handle_request(1, "client".into(), message(*n, status)));
        }
        assert_eq!(sequence_numbers(&replica), vec![1, 2, 3, 4, 5]);
        assert_eq!(executed(&output), vec![1, 2, 3, 4, 5]);
        assert_eq!(replica.op_number(), 5);
        assert_eq!(replica.report().chain_remaining, None);
        assert_eq!(replica.report().reorder_remaining, None);
    }
}

#[test]
fn authentic_messages_in_any_order() {
    for order in orders(5) {
        let mut replica = replica();
        let mut output = Vec::new();
        for n in &order {
            let message = message(39 + *n, Status::Signed);
            output.extend(replica.handle_request(40, "client".into(), message));
        }
        assert_eq!(sequence_numbers(&replica), vec![40, 41, 42, 43, 44]);
        assert_eq!(executed(&output), vec![1, 2, 3, 4, 5]);
    }
}

#[test]
fn executed_numbers_of_a_client_increase() {
    let mut replica = replica();
    let mut executed: Vec<(u32, u32, u32)> = Vec::new();
    let requests = [(7, 2), (8, 1), (7, 1), (7, 5), (8, 1), (8, 3), (7, 5), (7, 6)];
    for (i, (client_id, request_number)) in requests.into_iter().enumerate() {
        let message = VerifiedOrderedMulticast {
            meta: multicast(i as u32 + 1, client_id, request_number),
            status: Status::Signed,
        };
        for output in replica.handle_request(1, "client".into(), message) {
            if let Output::Sign {
                client_id, reply, ..
            } = output
            {
                executed.push((client_id, reply.request_number, reply.op_number));
            }
        }
    }
    assert_eq!(
        executed,
        vec![(7, 2, 1), (8, 1, 2), (7, 5, 4), (8, 3, 6), (7, 6, 8)]
    );
}

#[test]
fn counters_add_up() {
    let mut replica = replica();
    let statuses = [Status::Signed, Status::Unsigned, Status::Skipped];
    for n in 1..=20 {
        let status = statuses[(n % 3) as usize];
        replica.handle_request(1, "client".into(), message(n, status));
        let report = replica.report();
        assert_eq!(
            report.signed_count + report.unsigned_count + report.skipped_count,
            n
        );
    }
}

#[test]
fn handling_sets_one_route() {
    let mut replica = replica();
    for (n, client_id, remote) in [(3, 7, "first"), (2, 8, "other")] {
        let message = VerifiedOrderedMulticast {
            meta: multicast(n, client_id, 1),
            status: Status::Signed,
        };
        replica.handle_request(1, remote.into(), message);
    }
    let last = VerifiedOrderedMulticast {
        meta: multicast(1, 9, 1),
        status: Status::Signed,
    };
    let remotes: Vec<(u32, String)> = replica
        .handle_request(1, "last".into(), last)
        .into_iter()
        .map(|output| match output {
            Output::Sign {
                client_id, remote, ..
            } => (client_id, remote),
            output => panic!("unexpected {output:?}"),
        })
        .collect();
    let expected = [(9, "last"), (8, "other"), (7, "first")];
    assert_eq!(
        remotes,
        expected.map(|(client_id, remote)| (client_id, String::from(remote)))
    );
}

#[test]
fn requests_execute_at_most_once() {
    let mut replica = replica();
    let first = VerifiedOrderedMulticast {
        meta: multicast(1, 7, 5),
        status: Status::Signed,
    };
    let again = VerifiedOrderedMulticast {
        meta: multicast(2, 7, 5),
        status: Status::Signed,
    };
    let stale = VerifiedOrderedMulticast {
        meta: multicast(3, 7, 4),
        status: Status::Signed,
    };
    assert_eq!(replica.handle_request(1, "client".into(), first).len(), 1);
    // the reply is not signed yet
    assert!(replica.handle_request(1, "client".into(), again).is_empty());
    assert!(replica.handle_request(1, "client".into(), stale).is_empty());
    assert_eq!(replica.op_number(), 3);
}

#[test]
fn repetition_gets_recorded_reply() {
    let mut replica = replica();
    let mut output = replica.handle_request(
        1,
        "here".into(),
        VerifiedOrderedMulticast {
            meta: multicast(1, 7, 5),
            status: Status::Signed,
        },
    );
    let reply = match output.pop() {
        Some(Output::Sign { reply, .. }) => reply,
        output => panic!("unexpected {output:?}"),
    };
    replica.install_reply(7, 5, sign(reply));
    let mut output = replica.handle_request(
        1,
        "there".into(),
        VerifiedOrderedMulticast {
            meta: multicast(2, 7, 5),
            status: Status::Signed,
        },
    );
    assert_eq!(output.len(), 1);
    match output.pop() {
        Some(Output::Resend { remote, signed }) => {
            assert_eq!(remote, "there");
            assert_eq!(signed.signature, vec![9, 9]);
            assert_eq!(signed.reply.op_number, 1);
            assert_eq!(signed.reply.request_number, 5);
            assert_eq!(signed.reply.result, vec![2, 1, 1]);
        }
        output => panic!("unexpected {output:?}"),
    }
}

#[test]
fn late_reply_is_dropped() {
    let mut replica = replica();
    let mut first = replica.handle_request(1, "client".into(), message(1, Status::Signed));
    replica.handle_request(1, "client".into(), message(2, Status::Signed));
    let reply = match first.pop() {
        Some(Output::Sign { reply, .. }) => reply,
        output => panic!("unexpected {output:?}"),
    };
    replica.install_reply(7, 1, sign(reply));
    let again = VerifiedOrderedMulticast {
        meta: multicast(3, 7, 2),
        status: Status::Signed,
    };
    assert!(replica.handle_request(1, "client".into(), again).is_empty());
}

#[test]
fn clients_are_told_apart() {
    let mut replica = replica();
    for (n, client_id) in [(1, 7), (2, 8)] {
        let output = replica.handle_request(
            1,
            format!("client-{client_id}"),
            VerifiedOrderedMulticast {
                meta: multicast(n, client_id, 1),
                status: Status::Signed,
            },
        );
        match &output[..] {
            [Output::Sign {
                remote,
                client_id: answered,
                ..
            }] => {
                assert_eq!(*remote, format!("client-{client_id}"));
                assert_eq!(*answered, client_id);
            }
            output => panic!("unexpected {output:?}"),
        }
    }
}

#[test]
fn report_counts_messages() {
    let mut replica = replica();
    replica.handle_request(1, "client".into(), message(1, Status::Signed));
    replica.handle_request(1, "client".into(), message(3, Status::Skipped));
    replica.handle_request(1, "client".into(), message(5, Status::Unsigned));
    replica.handle_request(1, "client".into(), message(7, Status::Unsigned));
    replica.handle_request(1, "client".into(), message(10, Status::Signed));
    let report = replica.report();
    assert_eq!(report.signed_count, 2);
    assert_eq!(report.unsigned_count, 2);
    assert_eq!(report.skipped_count, 1);
    assert_eq!(report.chain_remaining, Some(3));
    assert_eq!(report.reorder_remaining, Some(1));
}

#[test]
fn replica_answers_at_its_configured_address() {
    let replica = replica();
    assert_eq!(replica.get_address(), "replica-2");
    let shared = replica.shared();
    assert_eq!(shared.get_address(), "replica-2");
    assert_eq!(shared.id(), 2);
    assert_eq!(shared.skip_size(), 10);
    assert_eq!(shared.config().n_fault, 1);
    assert!(matches!(
        shared.multicast_key(),
        MulticastVerifyingKey::PublicKey(0)
    ));
}

#[test]
fn old_signatures_are_skipped_with_a_public_key() {
    let shared: Shared<String, u64, u64> =
        Shared::new(config(), 0, MulticastVerifyingKey::PublicKey(0), 10);
    let mut window = SequenceWindow {
        sequence_start: 1,
        max_signed: 20,
    };
    match shared.receive_multicast(&mut window, multicast(30, 7, 1)) {
        Receipt::Skipped(verified) => {
            assert_eq!(verified.status, Status::Skipped);
            assert_eq!(verified.meta.sequence_number, 30);
        }
        receipt => panic!("unexpected {receipt:?}"),
    }
    assert!(matches!(
        shared.receive_multicast(&mut window, multicast(31, 7, 1)),
        Receipt::Check(_)
    ));
}

#[test]
fn signatures_are_always_checked_with_a_shared_secret() {
    let shared: Shared<String, u64, u64> =
        Shared::new(config(), 0, MulticastVerifyingKey::HMac(0), 10);
    let mut window = SequenceWindow {
        sequence_start: 1,
        max_signed: 20,
    };
    assert!(matches!(
        shared.receive_multicast(&mut window, multicast(3, 7, 1)),
        Receipt::Check(_)
    ));
}

#[test]
fn window_precedes_messages() {
    let shared: Shared<String, u64, u64> =
        Shared::new(config(), 0, MulticastVerifyingKey::HMac(0), 10);
    let mut window = SequenceWindow::new();
    assert_eq!(window.sequence_start, u32::MAX);
    assert_eq!(window.max_signed, 0);
    for (n, start) in [(5, 5), (9, 5), (3, 3), (4, 3)] {
        shared.receive_multicast(&mut window, multicast(n, 7, 1));
        assert_eq!(window.sequence_start, start);
    }
    assert_eq!(window.max_signed, 0);
}

#[test]
fn only_good_signatures_move_the_window() {
    let shared: Shared<String, u64, u64> =
        Shared::new(config(), 0, MulticastVerifyingKey::HMac(0), 10);
    let mut window = SequenceWindow::new();
    let cases = [
        (5, Authentication::Signed, 5, Some(Status::Signed)),
        (9, Authentication::Unsigned, 5, Some(Status::Unsigned)),
        (9, Authentication::Rejected, 5, None),
        (4, Authentication::Signed, 5, Some(Status::Signed)),
        (6, Authentication::Signed, 6, Some(Status::Signed)),
    ];
    for (n, authentication, max_signed, status) in cases {
        let verified =
            shared.conclude_multicast(&mut window, multicast(n, 7, 1), authentication);
        assert_eq!(window.max_signed, max_signed);
        assert_eq!(verified.map(|verified| verified.status), status);
    }
}

#[test]
fn digests_compare_by_their_bytes() {
    assert!(digest(5).same_as(&digest(5)));
    assert!(!digest(5).same_as(&digest(6)));
    let mut last = digest(5);
    last.bytes[31] = 1;
    assert!(!digest(5).same_as(&last));
    assert_eq!(Digest::default().bytes, [0; 32]);
}
