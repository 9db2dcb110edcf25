use std::collections::HashMap;

use neobft::common::SigningKey;
use neobft::config::{key_file_name, Config};
use neobft::config_text::ConfigError;
use neobft::text::is_white_space;

#[derive(Debug, Clone, PartialEq)]
struct Key(u64);

impl SigningKey for Key {
    type VerifyingKey = u64;

    fn verifying_key(&self) -> u64 {
        self.0 * 10
    }
}

fn read(text: &str) -> Result<Config<String, Key>, ConfigError> {
    Config::from_str(text)
}

fn error(text: &str) -> ConfigError {
    read(text).unwrap_err()
}

#[test]
fn text_is_read() {
    let config = read(
        "# a cluster\n\nf 1\nreplica 10.0.0.1:3000\r\n  replica 10.0.0.2:3000  # second\n\t#\nmulticast 10.0.0.255:1\n",
    )
    .unwrap();
    assert_eq!(config.n_fault, 1);
    assert_eq!(
        config.replica_address,
        vec!["10.0.0.1:3000", "10.0.0.2:3000"]
    );
    assert_eq!(config.multicast_address, Some("10.0.0.255:1".into()));
    assert!(config.signing_key.is_empty());
}

#[test]
fn multicast_is_optional() {
    let config = read("f 0").unwrap();
    assert_eq!(config.multicast_address, None);
    assert!(config.replica_address.is_empty());
}

#[test]
fn last_entry_counts() {
    let config = read("f 1\nmulticast a\nf 2\nmulticast b").unwrap();
    assert_eq!(config.n_fault, 2);
    assert_eq!(config.multicast_address, Some("b".into()));
}

#[test]
fn value_starts_after_one_white_space_character() {
    assert_eq!(error("f  1"), ConfigError::InvalidFault);
    let config = read("f\u{3000}1\nreplica \ta b").unwrap();
    assert_eq!(config.replica_address, vec!["\ta b"]);
}

#[test]
fn numbers_are_read() {
    assert_eq!(read("f +7").unwrap().n_fault, 7);
    assert_eq!(read("f 007").unwrap().n_fault, 7);
    let max = format!("f {}", usize::MAX);
    assert_eq!(read(&max).unwrap().n_fault, usize::MAX);
    for text in ["", "+", "-1", "++1", "1x", "x", "1 2", "18446744073709551616", "99999999999999999999999"] {
        assert_eq!(text.parse::<usize>().is_err(), true);
        if !text.is_empty() {
            assert_eq!(error(&format!("f {text}")), ConfigError::InvalidFault);
        }
    }
}

#[test]
fn wrong_lines_are_rejected() {
    assert_eq!(error("f 1\nreplica"), ConfigError::MissingValue);
    assert_eq!(error("f#1"), ConfigError::MissingValue);
    assert_eq!(error("f 1\nclient a"), ConfigError::UnknownKeyword);
    assert_eq!(error("F 1"), ConfigError::UnknownKeyword);
    assert_eq!(error(""), ConfigError::MissingFault);
    assert_eq!(error("replica a"), ConfigError::MissingFault);
    // the first wrong line decides
    assert_eq!(error("f x\nclient a"), ConfigError::InvalidFault);
    assert_eq!(error("client a\nf x"), ConfigError::UnknownKeyword);
}

#[test]
fn comments_are_ignored() {
    assert_eq!(
        read("f 1 # two # signs").unwrap().n_fault,
        read("f 1").unwrap().n_fault
    );
}

#[test]
fn white_space_around_is_ignored() {
    assert_eq!(read("\u{2003}\t f 1 \u{a0}\r\n").unwrap().n_fault, 1);
}

#[test]
fn white_space_is_what_unicode_says() {
    for c in '\0'..=char::MAX {
        assert_eq!(is_white_space(c), c.is_whitespace());
    }
}

fn read_numbered(text: &str) -> Result<Config<u64, Key>, ConfigError> {
    Config::read_with(text, |address| address.parse().ok())
}

#[test]
fn addresses_are_parsed() {
    let config = read_numbered("f 1\nreplica 5\nreplica 6\nmulticast 7").unwrap();
    assert_eq!(config.replica_address, vec![5, 6]);
    assert_eq!(config.multicast_address, Some(7));
    assert_eq!(config.n_fault, 1);
    assert_eq!(*config.replica(1), 6);
    assert!(config.signing_key.is_empty());
}

#[test]
fn wrong_addresses_are_rejected() {
    for text in [
        "f 1\nreplica x",
        "f 1\nreplica 1\nmulticast x",
        "f 1\nreplica 1\nreplica x\nreplica 3",
        // a later line would have replaced the wrong one
        "multicast x\nf 1\nmulticast 7",
    ] {
        assert_eq!(
            read_numbered(text).unwrap_err(),
            ConfigError::InvalidAddress
        );
    }
}

#[test]
fn what_is_wrong_first_decides() {
    assert_eq!(
        read_numbered("replica x\nclient 1").unwrap_err(),
        ConfigError::InvalidAddress
    );
    assert_eq!(
        read_numbered("client 1\nreplica x").unwrap_err(),
        ConfigError::UnknownKeyword
    );
    // a missing entry is noticed at the end
    assert_eq!(
        read_numbered("multicast x").unwrap_err(),
        ConfigError::InvalidAddress
    );
    assert_eq!(
        read_numbered("multicast 7").unwrap_err(),
        ConfigError::MissingFault
    );
}

#[test]
fn decoration_is_ignored() {
    let plain = "f 1\nreplica 5\nmulticast 7";
    let decorated =
        "\n# a cluster\n  f 1\t# faulty\r\n\u{3000}\nreplica 5#first#\n\t# more\n multicast 7 \n\n";
    let plain = read_numbered(plain).unwrap();
    let decorated = read_numbered(decorated).unwrap();
    assert_eq!(decorated.n_fault, plain.n_fault);
    assert_eq!(decorated.replica_address, plain.replica_address);
    assert_eq!(decorated.multicast_address, plain.multicast_address);
    assert_eq!(decorated.replica_address, vec![5]);
}

fn numbered(replica_address: Vec<u64>) -> Config<u64, Key> {
    Config {
        replica_address,
        multicast_address: Some(9),
        n_fault: 1,
        signing_key: HashMap::new(),
    }
}

#[test]
fn replicas_take_turns() {
    let config = numbered(vec![10, 11, 12, 13]);
    for view_number in 0..=255 {
        assert_eq!(config.view_primary(view_number), view_number % 4);
    }
}

#[test]
fn replicas_find_their_keys() {
    let mut config = numbered(vec![10, 11, 12]);
    config.signing_key.insert(5, Key(5));
    config.collect_signing_key(vec![Key(1), Key(2), Key(3)]);
    let expected = [(5, Key(5)), (10, Key(1)), (11, Key(2)), (12, Key(3))];
    assert_eq!(config.signing_key, HashMap::from(expected));
    assert_eq!(config.replica_address, vec![10, 11, 12]);
    assert_eq!(config.multicast_address, Some(9));
}

#[test]
fn last_key_counts_for_a_shared_address() {
    let mut config = numbered(vec![10, 10]);
    config.collect_signing_key(vec![Key(1), Key(2)]);
    assert_eq!(config.signing_key, HashMap::from([(10, Key(2))]));
}

#[test]
fn verifying_keys_belong_to_signing_keys() {
    let mut config = numbered(vec![10, 11]);
    assert!(config.verifying_key().is_empty());
    config.collect_signing_key(vec![Key(1), Key(2)]);
    assert_eq!(config.verifying_key(), HashMap::from([(10, 10), (11, 20)]));
}

#[test]
fn key_files_are_numbered() {
    assert_eq!(key_file_name("replica", 0), "replica-0.pem");
    assert_eq!(key_file_name("r\u{e9}", 105), "r\u{e9}-105.pem");
    assert_eq!(
        key_file_name("", usize::MAX),
        format!("-{}.pem", usize::MAX)
    );
}
