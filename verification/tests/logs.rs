use trie_healing::logs::{
    fetch_logs_with_filter, AddressFilter, BlockIdentifier, BlockLogs, BlockTag, Log, LogsError,
    LogsFilter, Receipt, RpcLog, TopicFilter, TxReceipt,
};
use trie_healing::hex::{digit, parse_hex_bytes, parse_quantity};
use trie_healing::primitives::{H160, H256};

fn addr(byte: u8) -> H160 {
    H160([byte; 20])
}

fn topic(byte: u8) -> H256 {
    H256([byte; 32])
}

fn log_of(address: u8, topics: &[u8], data: &[u8]) -> Log {
    Log {
        address: addr(address),
        topics: topics.iter().map(|t| topic(*t)).collect(),
        data: data.to_vec(),
    }
}

fn query(address_filters: Option<AddressFilter>, topics: Vec<TopicFilter>) -> LogsFilter {
    LogsFilter {
        from_block: BlockIdentifier::Number(1),
        to_block: BlockIdentifier::Tag(BlockTag::Latest),
        address_filters,
        topics,
    }
}

fn chain() -> Vec<BlockLogs> {
    vec![
        BlockLogs {
            number: 10,
            hash: topic(0xb0),
            transactions: vec![
                TxReceipt {
                    tx_hash: topic(0xa0),
                    receipt: Receipt {
                        succeeded: true,
                        logs: vec![log_of(1, &[1, 2], &[0x01]), log_of(2, &[1], &[0x02])],
                    },
                },
                TxReceipt {
                    tx_hash: topic(0xa1),
                    receipt: Receipt {
                        succeeded: false,
                        logs: vec![log_of(1, &[1, 2], &[0x03])],
                    },
                },
                TxReceipt {
                    tx_hash: topic(0xa2),
                    receipt: Receipt {
                        succeeded: true,
                        logs: vec![log_of(1, &[3, 2, 4], &[0x04])],
                    },
                },
            ],
        },
        BlockLogs {
            number: 11,
            hash: topic(0xb1),
            transactions: vec![TxReceipt {
                tx_hash: topic(0xa3),
                receipt: Receipt {
                    succeeded: true,
                    logs: vec![log_of(3, &[], &[0x05]), log_of(1, &[1, 9], &[0x06])],
                },
            }],
        },
    ]
}

fn data_of(logs: &[RpcLog]) -> Vec<u8> {
    logs.iter().map(|l| l.log.data[0]).collect()
}

#[test]
fn range_with_its_first_block_after_its_last_is_empty() {
    assert_eq!(LogsFilter::check_range(3, 2), Err(LogsError::EmptyRange));
    assert_eq!(LogsFilter::check_range(2, 2), Ok(()));
    assert_eq!(LogsFilter::check_range(0, u64::MAX), Ok(()));
}

#[test]
fn query_without_filters_gives_every_log_of_successful_transactions() {
    let logs = fetch_logs_with_filter(&query(None, vec![]), 10, 11, &chain()).unwrap();
    assert_eq!(data_of(&logs), vec![1, 2, 4, 5, 6]);
    assert_eq!(
        logs[2],
        RpcLog {
            log: log_of(1, &[3, 2, 4], &[0x04]),
            log_index: 2,
            transaction_hash: topic(0xa2),
            transaction_index: 2,
            block_number: 10,
            block_hash: topic(0xb0),
            removed: false,
        }
    );
    // the count begins again in each block
    let indexes: Vec<u64> = logs.iter().map(|l| l.log_index).collect();
    assert_eq!(indexes, vec![0, 1, 2, 0, 1]);
    assert_eq!(logs[4].block_number, 11);
    assert_eq!(logs[4].transaction_index, 0);
}

#[test]
fn address_filter_keeps_the_positions_of_the_logs() {
    let one = query(Some(AddressFilter::Single(addr(1))), vec![]);
    let logs = fetch_logs_with_filter(&one, 10, 11, &chain()).unwrap();
    assert_eq!(data_of(&logs), vec![1, 4, 6]);
    let indexes: Vec<u64> = logs.iter().map(|l| l.log_index).collect();
    assert_eq!(indexes, vec![0, 2, 1]);
    let many = query(Some(AddressFilter::Many(vec![addr(2), addr(3)])), vec![]);
    assert_eq!(data_of(&fetch_logs_with_filter(&many, 10, 11, &chain()).unwrap()), vec![2, 5]);
    let none_listed = query(Some(AddressFilter::Many(vec![])), vec![]);
    assert_eq!(
        data_of(&fetch_logs_with_filter(&none_listed, 10, 11, &chain()).unwrap()),
        vec![1, 2, 4, 5, 6]
    );
    let stranger = query(Some(AddressFilter::Single(addr(9))), vec![]);
    assert_eq!(fetch_logs_with_filter(&stranger, 10, 11, &chain()), Ok(vec![]));
}

#[test]
fn topic_filters_go_by_position() {
    let first_is_one = query(None, vec![TopicFilter::Topic(Some(topic(1)))]);
    assert_eq!(
        data_of(&fetch_logs_with_filter(&first_is_one, 10, 11, &chain()).unwrap()),
        vec![1, 2, 6]
    );
    let second_is_two = query(
        None,
        vec![TopicFilter::Topic(None), TopicFilter::Topic(Some(topic(2)))],
    );
    // a log with one topic has none for the second filter
    assert_eq!(
        data_of(&fetch_logs_with_filter(&second_is_two, 10, 11, &chain()).unwrap()),
        vec![1, 4]
    );
    let any_first = query(None, vec![TopicFilter::Topic(None)]);
    assert_eq!(
        data_of(&fetch_logs_with_filter(&any_first, 10, 11, &chain()).unwrap()),
        vec![1, 2, 4, 6]
    );
}

#[test]
fn one_of_several_topics() {
    let either = query(
        None,
        vec![TopicFilter::Topics(vec![Some(topic(3)), Some(topic(9))])],
    );
    assert_eq!(data_of(&fetch_logs_with_filter(&either, 10, 11, &chain()).unwrap()), vec![4]);
    let with_wildcard = query(None, vec![TopicFilter::Topics(vec![Some(topic(3)), None])]);
    assert_eq!(
        data_of(&fetch_logs_with_filter(&with_wildcard, 10, 11, &chain()).unwrap()),
        vec![1, 2, 4, 6]
    );
    let empty_list = query(None, vec![TopicFilter::Topics(vec![])]);
    assert_eq!(
        data_of(&fetch_logs_with_filter(&empty_list, 10, 11, &chain()).unwrap()),
        vec![1, 2, 4, 6]
    );
}

#[test]
fn address_and_topics_together() {
    let both = query(
        Some(AddressFilter::Single(addr(1))),
        vec![
            TopicFilter::Topic(Some(topic(1))),
            TopicFilter::Topics(vec![Some(topic(9)), Some(topic(7))]),
        ],
    );
    let logs = fetch_logs_with_filter(&both, 10, 11, &chain()).unwrap();
    assert_eq!(data_of(&logs), vec![6]);
    assert!(both.matches(&log_of(1, &[1, 7, 5], &[])));
    assert!(!both.matches(&log_of(2, &[1, 7, 5], &[])));
    assert!(!both.matches(&log_of(1, &[1], &[])));
    assert!(!both.matches(&log_of(1, &[1, 8], &[])));
}

#[test]
fn empty_range_is_refused_before_any_block_is_looked_at() {
    assert_eq!(
        fetch_logs_with_filter(&query(None, vec![]), 12, 11, &chain()),
        Err(LogsError::EmptyRange)
    );
    assert_eq!(
        fetch_logs_with_filter(&query(None, vec![]), 1, 0, &vec![]),
        Err(LogsError::EmptyRange)
    );
    assert!(fetch_logs_with_filter(&query(None, vec![]), 11, 11, &chain()).is_ok());
}

#[test]
fn no_blocks_no_logs() {
    assert_eq!(fetch_logs_with_filter(&query(None, vec![]), 10, 11, &vec![]), Ok(vec![]));
    let log = log_of(4, &[1, 2], &[7, 8]);
    assert_eq!(log.clone(), log);
}

#[test]
fn block_is_read_by_name_or_number() {
    assert_eq!(
        BlockIdentifier::parse(b"latest"),
        Some(BlockIdentifier::Tag(BlockTag::Latest))
    );
    assert_eq!(
        BlockIdentifier::parse(b"earliest"),
        Some(BlockIdentifier::Tag(BlockTag::Earliest))
    );
    assert_eq!(
        BlockIdentifier::parse(b"finalized"),
        Some(BlockIdentifier::Tag(BlockTag::Finalized))
    );
    assert_eq!(
        BlockIdentifier::parse(b"safe"),
        Some(BlockIdentifier::Tag(BlockTag::Safe))
    );
    assert_eq!(
        BlockIdentifier::parse(b"pending"),
        Some(BlockIdentifier::Tag(BlockTag::Pending))
    );
    assert_eq!(
        BlockIdentifier::parse(b"0x1b4"),
        Some(BlockIdentifier::Number(436))
    );
    assert_eq!(BlockIdentifier::parse(b"Latest"), None);
    assert_eq!(BlockIdentifier::parse(b"436"), None);
    assert_eq!(BlockIdentifier::parse(b""), None);
    assert!(BlockTag::Safe.is_named(b"safe"));
    assert!(!BlockTag::Safe.is_named(b"safer"));
}

#[test]
fn quantities_are_hex_behind_a_prefix() {
    assert_eq!(parse_quantity(b"0x0"), Some(0));
    assert_eq!(parse_quantity(b"0xff"), Some(255));
    assert_eq!(parse_quantity(b"0xFf"), Some(255));
    assert_eq!(parse_quantity(b"0x0010"), Some(16));
    assert_eq!(parse_quantity(b"0xffffffffffffffff"), Some(u64::MAX));
    assert_eq!(parse_quantity(b"0x10000000000000000"), None);
    assert_eq!(parse_quantity(b"0x"), None);
    assert_eq!(parse_quantity(b"ff"), None);
    assert_eq!(parse_quantity(b"0xfg"), None);
    assert_eq!(parse_quantity(b"0X10"), None);
    assert_eq!(digit(b'7'), Some(7));
    assert_eq!(digit(b'c'), Some(12));
    assert_eq!(digit(b'C'), Some(12));
    assert_eq!(digit(b'g'), None);
    assert_eq!(digit(b'/'), None);
}

#[test]
fn hex_bytes_take_two_digits_each() {
    assert_eq!(parse_hex_bytes(b"0x"), Some(vec![]));
    assert_eq!(parse_hex_bytes(b"0x00ff1A"), Some(vec![0, 255, 26]));
    assert_eq!(parse_hex_bytes(b"0x0"), None);
    assert_eq!(parse_hex_bytes(b"00ff"), None);
    assert_eq!(parse_hex_bytes(b"0x0g"), None);
    assert_eq!(H160::try_from_slice(&[5; 20]), Some(H160([5; 20])));
    assert_eq!(H160::try_from_slice(&[5; 21]), None);
    assert!(H160([5; 20]).same(&H160([5; 20])));
    assert!(!H160([5; 20]).same(&H160([6; 20])));
}

#[test]
fn query_without_topics_asks_nothing_of_them() {
    let from = BlockIdentifier::Number(1);
    let to = BlockIdentifier::Tag(BlockTag::Latest);
    let bare = LogsFilter::new(from, to, None, None);
    assert_eq!(bare, query(None, vec![]));
    let given = LogsFilter::new(
        from,
        to,
        Some(AddressFilter::Single(addr(1))),
        Some(vec![TopicFilter::Topic(None)]),
    );
    assert_eq!(
        given,
        query(
            Some(AddressFilter::Single(addr(1))),
            vec![TopicFilter::Topic(None)]
        )
    );
}
