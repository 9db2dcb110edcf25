use std::cell::RefCell;
use std::collections::HashMap;

use neobft::config::Config;
use neobft::transport::{Receiver, TxAgent};

struct Agent {
    config: Config<u64, u64>,
    sent: RefCell<Vec<(u64, u64, Vec<u8>)>>,
}

struct Here(u64);

impl Receiver<u64> for Here {
    fn get_address(&self) -> &u64 {
        &self.0
    }
}

impl TxAgent for Agent {
    type Address = u64;
    type SigningKey = u64;

    fn config(&self) -> &Config<u64, u64> {
        &self.config
    }

    fn send_message<R: Receiver<u64>, M: FnOnce(&mut [u8]) -> u16>(
        &self,
        source: &R,
        dest: &u64,
        message: M,
    ) {
        let mut buffer = [0; 16];
        let length = message(&mut buffer);
        let bytes = buffer[..length as usize].to_vec();
        self.sent
            .borrow_mut()
            .push((*source.get_address(), *dest, bytes));
    }

    fn send_message_to_all<R: Receiver<u64>, M: FnOnce(&mut [u8]) -> u16>(
        &self,
        _source: &R,
        _message: M,
    ) {
    }
}

fn agent() -> Agent {
    Agent {
        config: Config {
            replica_address: vec![10, 11, 12],
            multicast_address: Some(99),
            n_fault: 0,
            signing_key: HashMap::new(),
        },
        sent: RefCell::new(Vec::new()),
    }
}

fn hello(buffer: &mut [u8]) -> u16 {
    buffer[..2].copy_from_slice(b"hi");
    2
}

#[test]
fn replicas_are_reached_by_their_id() {
    let agent = agent();
    agent.send_message_to_replica(&Here(5), 2, hello);
    assert_eq!(*agent.sent.borrow(), vec![(5, 12, b"hi".to_vec())]);
}

#[test]
fn multicast_goes_to_the_common_address() {
    let agent = agent();
    agent.send_message_to_multicast(&Here(5), hello);
    assert_eq!(*agent.sent.borrow(), vec![(5, 99, b"hi".to_vec())]);
}
