//! Queries for the logs that transactions left: which blocks, which
//! addresses, which topics, and the logs that pass.

use vstd::prelude::*;
use crate::hex::{parse_quantity, quantity};
use crate::primitives::{bytes_equal, bytes_to_vec, H160, H256};

verus! {

/// The addresses that a query asks for: one, or several.
#[derive(Debug, Clone, PartialEq, Eq)]
pub enum AddressFilter {
    Single(H160),
    Many(Vec<H160>),
}

/// What a query asks of the topic at one position: one topic or any
/// (`None`), or one of several.
#[derive(Debug, Clone, PartialEq, Eq)]
pub enum TopicFilter {
    Topic(Option<H256>),
    Topics(Vec<Option<H256>>),
}

/// A named block.
#[derive(Debug, Clone, Copy, PartialEq, Eq)]
pub enum BlockTag {
    Earliest,
    Finalized,
    Safe,
    Latest,
    Pending,
}

/// A block, by its number or by a name.
#[derive(Debug, Clone, Copy, PartialEq, Eq)]
pub enum BlockIdentifier {
    Number(u64),
    Tag(BlockTag),
}

impl BlockTag {
    /// The name of the block, in ASCII: `earliest`, `finalized`, `safe`,
    /// `latest` or `pending`.
    pub open spec fn name(self) -> Seq<u8> {
        match self {
            BlockTag::Earliest => seq![0x65u8, 0x61, 0x72, 0x6c, 0x69, 0x65, 0x73, 0x74],
            BlockTag::Finalized => seq![0x66u8, 0x69, 0x6e, 0x61, 0x6c, 0x69, 0x7a, 0x65, 0x64],
            BlockTag::Safe => seq![0x73u8, 0x61, 0x66, 0x65],
            BlockTag::Latest => seq![0x6cu8, 0x61, 0x74, 0x65, 0x73, 0x74],
            BlockTag::Pending => seq![0x70u8, 0x65, 0x6e, 0x64, 0x69, 0x6e, 0x67],
        }
    }

    /// Whether `text` is the name of the block.
    pub fn is_named(self, text: &[u8]) -> (b: bool)
        ensures
            b == (text@ == self.name()),
    {
        match self {
            BlockTag::Earliest => {
                let name = [0x65u8, 0x61, 0x72, 0x6c, 0x69, 0x65, 0x73, 0x74];
                assert(name@ =~= self.name());
                bytes_equal(text, name.as_slice())
            },
            BlockTag::Finalized => {
                let name = [0x66u8, 0x69, 0x6e, 0x61, 0x6c, 0x69, 0x7a, 0x65, 0x64];
                assert(name@ =~= self.name());
                bytes_equal(text, name.as_slice())
            },
            BlockTag::Safe => {
                let name = [0x73u8, 0x61, 0x66, 0x65];
                assert(name@ =~= self.name());
                bytes_equal(text, name.as_slice())
            },
            BlockTag::Latest => {
                let name = [0x6cu8, 0x61, 0x74, 0x65, 0x73, 0x74];
                assert(name@ =~= self.name());
                bytes_equal(text, name.as_slice())
            },
            BlockTag::Pending => {
                let name = [0x70u8, 0x65, 0x6e, 0x64, 0x69, 0x6e, 0x67];
                assert(name@ =~= self.name());
                bytes_equal(text, name.as_slice())
            },
        }
    }
}

/// The block that `text` names: by one of the five names, or by a number
/// written as `0x` and hex digits that 64 bits hold.
pub open spec fn block_named(text: Seq<u8>) -> Option<BlockIdentifier> {
    if text == BlockTag::Earliest.name() {
        Some(BlockIdentifier::Tag(BlockTag::Earliest))
    } else if text == BlockTag::Finalized.name() {
        Some(BlockIdentifier::Tag(BlockTag::Finalized))
    } else if text == BlockTag::Safe.name() {
        Some(BlockIdentifier::Tag(BlockTag::Safe))
    } else if text == BlockTag::Latest.name() {
        Some(BlockIdentifier::Tag(BlockTag::Latest))
    } else if text == BlockTag::Pending.name() {
        Some(BlockIdentifier::Tag(BlockTag::Pending))
    } else {
        match quantity(text) {
            Some(n) => if n <= u64::MAX {
                Some(BlockIdentifier::Number(n as u64))
            } else {
                None
            },
            None => None,
        }
    }
}

impl BlockIdentifier {
    /// Reads a block from the text of a request.
    pub fn parse(text: &[u8]) -> (res: Option<BlockIdentifier>)
        ensures
            res == block_named(text@),
    {
        if BlockTag::Earliest.is_named(text) {
            Some(BlockIdentifier::Tag(BlockTag::Earliest))
        } else if BlockTag::Finalized.is_named(text) {
            Some(BlockIdentifier::Tag(BlockTag::Finalized))
        } else if BlockTag::Safe.is_named(text) {
            Some(BlockIdentifier::Tag(BlockTag::Safe))
        } else if BlockTag::Latest.is_named(text) {
            Some(BlockIdentifier::Tag(BlockTag::Latest))
        } else if BlockTag::Pending.is_named(text) {
            Some(BlockIdentifier::Tag(BlockTag::Pending))
        } else {
            match parse_quantity(text) {
                Some(n) => Some(BlockIdentifier::Number(n)),
                None => None,
            }
        }
    }
}

/// A query for logs.
#[derive(Debug, Clone, PartialEq, Eq)]
pub struct LogsFilter {
    /// The oldest block to take logs from.
    pub from_block: BlockIdentifier,
    /// The newest block to take logs from.
    pub to_block: BlockIdentifier,
    /// The addresses that the logs come from; none given means any.
    pub address_filters: Option<AddressFilter>,
    /// What is asked of the topics, position by position.
    pub topics: Vec<TopicFilter>,
}

/// A log that a transaction left.
#[derive(Debug, PartialEq, Eq)]
pub struct Log {
    pub address: H160,
    pub topics: Vec<H256>,
    pub data: Vec<u8>,
}

/// A log as plain sequences.
pub struct LogModel {
    pub address: Seq<u8>,
    pub topics: Seq<Seq<u8>>,
    pub data: Seq<u8>,
}

impl View for Log {
    type V = LogModel;

    open spec fn view(&self) -> LogModel {
        LogModel {
            address: self.address@,
            topics: Seq::new(self.topics@.len(), |i: int| self.topics@[i]@),
            data: self.data@,
        }
    }
}

impl Clone for Log {
    fn clone(&self) -> (res: Log)
        ensures
            res@ == self@,
    {
        let mut topics: Vec<H256> = Vec::new();
        let mut i: usize = 0;
        while i < self.topics.len()
            invariant
                i <= self.topics@.len(),
                topics@ == self.topics@.subrange(0, i as int),
            decreases self.topics@.len() - i,
        {
            topics.push(self.topics[i]);
            i += 1;
            assert(topics@ =~= self.topics@.subrange(0, i as int));
        }
        assert(topics@ =~= self.topics@);
        let res = Log { address: self.address, topics, data: bytes_to_vec(self.data.as_slice()) };
        assert(res@.topics =~= self@.topics);
        res
    }
}

/// What a transaction left behind: whether it succeeded, and its logs.
#[derive(Debug, PartialEq, Eq)]
pub struct Receipt {
    pub succeeded: bool,
    pub logs: Vec<Log>,
}

/// A transaction of a block, by its hash, with its receipt.
#[derive(Debug, PartialEq, Eq)]
pub struct TxReceipt {
    pub tx_hash: H256,
    pub receipt: Receipt,
}

/// What a query reads of one block: its number and hash, and its
/// transactions in their order.
#[derive(Debug, PartialEq, Eq)]
pub struct BlockLogs {
    pub number: u64,
    pub hash: H256,
    pub transactions: Vec<TxReceipt>,
}

/// A log in an answer, with its place in the chain.
#[derive(Debug, PartialEq, Eq)]
pub struct RpcLog {
    pub log: Log,
    /// The position of the log among the logs of its block's successful
    /// transactions.
    pub log_index: u64,
    pub transaction_hash: H256,
    pub transaction_index: u64,
    pub block_number: u64,
    pub block_hash: H256,
    pub removed: bool,
}

/// A log in an answer, as plain values.
pub struct RpcLogModel {
    pub log: LogModel,
    pub log_index: nat,
    pub transaction_hash: Seq<u8>,
    pub transaction_index: nat,
    pub block_number: nat,
    pub block_hash: Seq<u8>,
    pub removed: bool,
}

impl View for RpcLog {
    type V = RpcLogModel;

    open spec fn view(&self) -> RpcLogModel {
        RpcLogModel {
            log: self.log@,
            log_index: self.log_index as nat,
            transaction_hash: self.transaction_hash@,
            transaction_index: self.transaction_index as nat,
            block_number: self.block_number as nat,
            block_hash: self.block_hash@,
            removed: self.removed,
        }
    }
}

/// Why a query is refused.
#[derive(Debug, Clone, Copy, PartialEq, Eq, Structural)]
pub enum LogsError {
    /// The first block of the range lies after its last.
    EmptyRange,
    /// A block holds more logs than 64 bits can count.
    TooManyLogs,
}

/// The views of `logs`, one by one.
pub open spec fn log_views(logs: Seq<RpcLog>) -> Seq<RpcLogModel> {
    Seq::new(logs.len(), |i: int| logs[i]@)
}

/// Whether `address` is one of `addresses`.
pub open spec fn holds_address(addresses: Seq<H160>, address: Seq<u8>) -> bool {
    exists|i: int| 0 <= i < addresses.len() && (#[trigger] addresses[i])@ == address
}

/// Whether a log from `address` passes the address filter: no filter and
/// an empty list let every address pass.
pub open spec fn address_matches(filter: Option<AddressFilter>, address: Seq<u8>) -> bool {
    match filter {
        None => true,
        Some(AddressFilter::Single(wanted)) => wanted@ == address,
        Some(AddressFilter::Many(wanted)) => wanted@.len() == 0 || holds_address(
            wanted@,
            address,
        ),
    }
}

/// Whether `topic` is one of `wanted`, where `None` stands for any topic.
pub open spec fn holds_topic(wanted: Seq<Option<H256>>, topic: Seq<u8>) -> bool {
    exists|i: int|
        0 <= i < wanted.len() && ((#[trigger] wanted[i]) is None || wanted[i]->Some_0@ == topic)
}

/// Whether `topic` passes the filter for its position.
pub open spec fn topic_matches(filter: TopicFilter, topic: Seq<u8>) -> bool {
    match filter {
        TopicFilter::Topic(None) => true,
        TopicFilter::Topic(Some(wanted)) => wanted@ == topic,
        TopicFilter::Topics(wanted) => wanted@.len() == 0 || holds_topic(wanted@, topic),
    }
}

/// Whether the topics of a log pass the filters: the log has a topic for
/// every filter, and each passes the filter at its position.
pub open spec fn topics_match(filters: Seq<TopicFilter>, topics: Seq<H256>) -> bool {
    &&& filters.len() <= topics.len()
    &&& forall|i: int| 0 <= i < filters.len() ==> topic_matches(#[trigger] filters[i], topics[i]@)
}

impl LogsFilter {
    /// Whether `log` is among what the query asks for.
    pub open spec fn passes(self, log: Log) -> bool {
        address_matches(self.address_filters, log.address@) && topics_match(
            self.topics@,
            log.topics@,
        )
    }
}

impl BlockLogs {
    /// The number of logs in the successful ones of the first `t`
    /// transactions.
    pub open spec fn counted_logs(self, t: nat) -> nat
        decreases t,
    {
        if t == 0 {
            0
        } else {
            self.counted_logs((t - 1) as nat) + if self.transactions@[t - 1].receipt.succeeded {
                self.transactions@[t - 1].receipt.logs@.len()
            } else {
                0
            }
        }
    }

    /// Of the first `n` logs of transaction `tx`, those that pass `filter`,
    /// where the first log of the transaction has the index `first`.
    pub open spec fn receipt_logs(self, filter: LogsFilter, tx: int, n: nat, first: nat) -> Seq<
        RpcLogModel,
    >
        decreases n,
    {
        if n == 0 {
            Seq::empty()
        } else {
            let before = self.receipt_logs(filter, tx, (n - 1) as nat, first);
            let log = self.transactions@[tx].receipt.logs@[n - 1];
            if filter.passes(log) {
                before.push(
                    RpcLogModel {
                        log: log@,
                        log_index: (first + n - 1) as nat,
                        transaction_hash: self.transactions@[tx].tx_hash@,
                        transaction_index: tx as nat,
                        block_number: self.number as nat,
                        block_hash: self.hash@,
                        removed: false,
                    },
                )
            } else {
                before
            }
        }
    }

    /// The logs of the first `t` transactions that pass `filter`. Failed
    /// transactions give no logs and take no index.
    pub open spec fn block_logs(self, filter: LogsFilter, t: nat) -> Seq<RpcLogModel>
        decreases t,
    {
        if t == 0 {
            Seq::empty()
        } else {
            let before = self.block_logs(filter, (t - 1) as nat);
            if self.transactions@[t - 1].receipt.succeeded {
                before + self.receipt_logs(
                    filter,
                    t - 1,
                    self.transactions@[t - 1].receipt.logs@.len(),
                    self.counted_logs((t - 1) as nat),
                )
            } else {
                before
            }
        }
    }
}

/// The logs of the first `b` blocks that pass `filter`.
pub open spec fn range_logs(filter: LogsFilter, blocks: Seq<BlockLogs>, b: nat) -> Seq<RpcLogModel>
    decreases b,
{
    if b == 0 {
        Seq::empty()
    } else {
        range_logs(filter, blocks, (b - 1) as nat) + blocks[b - 1].block_logs(
            filter,
            blocks[b - 1].transactions@.len(),
        )
    }
}

#[verifier::loop_isolation(false)]
fn address_passes(filter: &Option<AddressFilter>, address: &H160) -> (b: bool)
    ensures
        b == address_matches(*filter, address@),
{
    match filter {
        None => true,
        Some(AddressFilter::Single(wanted)) => wanted.same(address),
        Some(AddressFilter::Many(wanted)) => {
            if wanted.len() == 0 {
                return true;
            }
            let mut i: usize = 0;
            while i < wanted.len()
                invariant
                    i <= wanted@.len(),
                    forall|j: int| 0 <= j < i ==> (#[trigger] wanted@[j])@ != address@,
                decreases wanted@.len() - i,
            {
                if wanted[i].same(address) {
                    assert(wanted@[i as int]@ == address@);
                    return true;
                }
                i += 1;
            }
            false
        },
    }
}

#[verifier::loop_isolation(false)]
fn topic_passes(filter: &TopicFilter, topic: &H256) -> (b: bool)
    ensures
        b == topic_matches(*filter, topic@),
{
    match filter {
        TopicFilter::Topic(None) => true,
        TopicFilter::Topic(Some(wanted)) => wanted.same(topic),
        TopicFilter::Topics(wanted) => {
            if wanted.len() == 0 {
                return true;
            }
            let mut i: usize = 0;
            while i < wanted.len()
                invariant
                    i <= wanted@.len(),
                    forall|j: int|
                        0 <= j < i ==> !((#[trigger] wanted@[j]) is None || wanted@[j]->Some_0@
                            == topic@),
                decreases wanted@.len() - i,
            {
                match &wanted[i] {
                    None => {
                        assert(wanted@[i as int] is None);
                        return true;
                    },
                    Some(one) => {
                        if one.same(topic) {
                            assert(wanted@[i as int]->Some_0@ == topic@);
                            return true;
                        }
                    },
                }
                i += 1;
            }
            false
        },
    }
}

fn topics_pass(filters: &Vec<TopicFilter>, topics: &Vec<H256>) -> (b: bool)
    ensures
        b == topics_match(filters@, topics@),
{
    if filters.len() > topics.len() {
        return false;
    }
    let mut i: usize = 0;
    while i < filters.len()
        invariant
            i <= filters@.len() <= topics@.len(),
            forall|j: int| 0 <= j < i ==> topic_matches(#[trigger] filters@[j], topics@[j]@),
        decreases filters@.len() - i,
    {
        if !topic_passes(&filters[i], &topics[i]) {
            return false;
        }
        i += 1;
    }
    true
}

impl LogsFilter {
    /// The query made of the parts of a request; topics that are not given
    /// ask nothing.
    pub fn new(
        from_block: BlockIdentifier,
        to_block: BlockIdentifier,
        address_filters: Option<AddressFilter>,
        topics: Option<Vec<TopicFilter>>,
    ) -> (filter: LogsFilter)
        ensures
            filter.from_block == from_block,
            filter.to_block == to_block,
            filter.address_filters == address_filters,
            filter.topics@ == match topics {
                Some(given) => given@,
                None => Seq::<TopicFilter>::empty(),
            },
    {
        let topics = match topics {
            Some(given) => given,
            None => Vec::new(),
        };
        LogsFilter { from_block, to_block, address_filters, topics }
    }

    /// Whether the blocks from `from` to `to`, both included, are a range
    /// that holds a block. A caller asks this before it reads the blocks of
    /// the range; `fetch_logs_with_filter` asks it again.
    pub fn check_range(from: u64, to: u64) -> (res: Result<(), LogsError>)
        ensures
            res is Ok <==> from <= to,
            res matches Err(e) ==> e == LogsError::EmptyRange,
    {
        if from > to {
            Err(LogsError::EmptyRange)
        } else {
            Ok(())
        }
    }

    /// Whether `log` is among what the query asks for.
    pub fn matches(&self, log: &Log) -> (b: bool)
        ensures
            b == self.passes(*log),
    {
        address_passes(&self.address_filters, &log.address) && topics_pass(
            &self.topics,
            &log.topics,
        )
    }
}

/// Appends the logs of one block that pass `filter`.
fn push_block_logs(filter: &LogsFilter, block: &BlockLogs, out: &mut Vec<RpcLog>)
    requires
        block.counted_logs(block.transactions@.len()) <= u64::MAX,
    ensures
        log_views(final(out)@) == log_views(old(out)@) + block.block_logs(
            *filter,
            block.transactions@.len(),
        ),
{
    let ghost start = log_views(out@);
    let mut index: u64 = 0;
    let mut t: usize = 0;
    assert(start + block.block_logs(*filter, 0) =~= start);
    while t < block.transactions.len()
        invariant
            t <= block.transactions@.len(),
            block.counted_logs(block.transactions@.len()) <= u64::MAX,
            index == block.counted_logs(t as nat),
            log_views(out@) == start + block.block_logs(*filter, t as nat),
        decreases block.transactions@.len() - t,
    {
        let tx = &block.transactions[t];
        proof {
            lemma_counted_logs_grow(*block, (t + 1) as nat, block.transactions@.len());
        }
        if tx.receipt.succeeded {
            let ghost before = log_views(out@);
            let ghost first = index as nat;
            let mut n: usize = 0;
            assert(before + block.receipt_logs(*filter, t as int, 0, first) =~= before);
            while n < tx.receipt.logs.len()
                invariant
                    n <= tx.receipt.logs@.len(),
                    t < block.transactions@.len(),
                    *tx == block.transactions@[t as int],
                    tx.receipt.succeeded,
                    index == first + n,
                    first == block.counted_logs(t as nat),
                    block.counted_logs((t + 1) as nat) <= u64::MAX,
                    log_views(out@) == before + block.receipt_logs(
                        *filter,
                        t as int,
                        n as nat,
                        first,
                    ),
                decreases tx.receipt.logs@.len() - n,
            {
                let log = &tx.receipt.logs[n];
                let ghost so_far = log_views(out@);
                if filter.matches(log) {
                    out.push(
                        RpcLog {
                            log: log.clone(),
                            log_index: index,
                            transaction_hash: tx.tx_hash,
                            transaction_index: t as u64,
                            block_number: block.number,
                            block_hash: block.hash,
                            removed: false,
                        },
                    );
                    assert(log_views(out@) =~= so_far.push(out@.last()@));
                }
                index += 1;
                n += 1;
                assert(log_views(out@) =~= before + block.receipt_logs(
                    *filter,
                    t as int,
                    n as nat,
                    first,
                ));
            }
            assert(start + block.block_logs(*filter, t as nat) + block.receipt_logs(
                *filter,
                t as int,
                n as nat,
                first,
            ) =~= start + block.block_logs(*filter, (t + 1) as nat));
        }
        t += 1;
    }
}

/// The count of logs grows with the number of transactions counted.
pub proof fn lemma_counted_logs_grow(block: BlockLogs, t: nat, u: nat)
    requires
        t <= u,
    ensures
        block.counted_logs(t) <= block.counted_logs(u),
    decreases u,
{
    if t < u {
        lemma_counted_logs_grow(block, t, (u - 1) as nat);
    }
}

/// The number of logs in the successful transactions of `block`, where 64
/// bits can hold it.
fn count_block_logs(block: &BlockLogs) -> (res: Option<u64>)
    ensures
        res is Some <==> block.counted_logs(block.transactions@.len()) <= u64::MAX,
        res matches Some(n) ==> n == block.counted_logs(block.transactions@.len()),
{
    let mut total: u64 = 0;
    let mut t: usize = 0;
    while t < block.transactions.len()
        invariant
            t <= block.transactions@.len(),
            total == block.counted_logs(t as nat),
        decreases block.transactions@.len() - t,
    {
        if block.transactions[t].receipt.succeeded {
            let more = block.transactions[t].receipt.logs.len() as u64;
            match total.checked_add(more) {
                Some(sum) => {
                    total = sum;
                },
                None => {
                    proof {
                        lemma_counted_logs_grow(
                            *block,
                            (t + 1) as nat,
                            block.transactions@.len(),
                        );
                    }
                    return None;
                },
            }
        }
        t += 1;
    }
    Some(total)
}

/// Whether the logs of each block can be counted in 64 bits.
pub open spec fn countable(blocks: Seq<BlockLogs>) -> bool {
    forall|b: int|
        0 <= b < blocks.len() ==> (#[trigger] blocks[b]).counted_logs(
            blocks[b].transactions@.len(),
        ) <= u64::MAX
}

/// Answers the query `filter`, whose first and last block have the numbers
/// `from` and `to`, from `blocks`: the blocks of that range as the store
/// holds them, in their order.
///
/// A range whose first block lies after its last is refused before a
/// block is looked at. Else the answer holds the logs of `blocks` that
/// pass `filter`: block by block, transaction by transaction, log by log,
/// each with the hash and the position of its transaction, the number and
/// the hash of its block, and its own position among the logs of the
/// successful transactions of its block. Logs that do not pass keep their
/// position; failed transactions have none to give. A block with more logs
/// than 64 bits can count is refused.
pub fn fetch_logs_with_filter(
    filter: &LogsFilter,
    from: u64,
    to: u64,
    blocks: &Vec<BlockLogs>,
) -> (res: Result<Vec<RpcLog>, LogsError>)
    ensures
        res is Ok <==> from <= to && countable(blocks@),
        res matches Ok(logs) ==> log_views(logs@) == range_logs(*filter, blocks@, blocks@.len()),
        res matches Err(e) ==> e == if from > to {
            LogsError::EmptyRange
        } else {
            LogsError::TooManyLogs
        },
{
    match LogsFilter::check_range(from, to) {
        Err(e) => {
            return Err(e);
        },
        Ok(_) => {},
    }
    let mut logs: Vec<RpcLog> = Vec::new();
    let mut b: usize = 0;
    assert(log_views(logs@) =~= range_logs(*filter, blocks@, 0));
    while b < blocks.len()
        invariant
            b <= blocks@.len(),
            forall|k: int|
                0 <= k < b ==> (#[trigger] blocks@[k]).counted_logs(blocks@[k].transactions@.len())
                    <= u64::MAX,
            from <= to,
            log_views(logs@) == range_logs(*filter, blocks@, b as nat),
        decreases blocks@.len() - b,
    {
        if count_block_logs(&blocks[b]).is_none() {
            return Err(LogsError::TooManyLogs);
        }
        push_block_logs(filter, &blocks[b], &mut logs);
        b += 1;
    }
    Ok(logs)
}

} // verus!
