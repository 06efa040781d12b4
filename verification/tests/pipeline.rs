use splits::account::Account;
use splits::codec::{encode_create_split_call, CreateSplitCall};
use splits::config::Config;
use splits::query::{
    build_create_split_filter, FetchOutcome, SplitAccountStream, Step, StreamError,
};
use splits::split_main::SplitMain;
use splits::types::{Address, BlockTag, Log, Uint256};

fn addr(fill: u8) -> Address {
    Address::new(vec![fill; 20])
}

fn keccak(s: &str) -> Vec<u8> {
    alloy_primitives::keccak256(s.as_bytes()).0.to_vec()
}

fn event_log(split: &Address, hash: Option<Vec<u8>>, removed: bool) -> Log {
    let mut topic1 = vec![0u8; 12];
    topic1.extend_from_slice(&split.bytes);
    Log {
        topics: vec![keccak("CreateSplit(address)"), topic1],
        data: vec![],
        transaction_hash: hash,
        removed,
    }
}

fn sample_input() -> Vec<u8> {
    encode_create_split_call(&CreateSplitCall {
        accounts: vec![addr(0xaa), addr(0xbb)],
        percent_allocations: vec![140000, 860000],
        distributor_fee: 9998,
        controller: addr(0x11),
    })
}

/// Drives the machine one item forward, answering every fetch request
/// from the given table of (hash, outcome) pairs.
fn drive(
    stream: &mut SplitAccountStream,
    lookups: &[(Vec<u8>, FetchOutcome)],
) -> Option<Result<Account, StreamError>> {
    match stream.next_step() {
        Step::Done => None,
        Step::Item(item) => Some(item),
        Step::Fetch(hash) => {
            let outcome = lookups
                .iter()
                .find(|(h, _)| *h == hash)
                .map(|(_, o)| o.clone())
                .unwrap_or(FetchOutcome::NotFound);
            Some(stream.resolve(outcome))
        }
    }
}

#[test]
fn range_with_removed_missing_and_decodable_logs() {
    // Three logs over [14206768, latest]: one removed, one whose
    // transaction lookup fails, one fully decodable.
    let filter = build_create_split_filter(&addr(0x99), 14206768, None);
    assert_eq!(filter.from_block, BlockTag::Number(14206768));
    assert_eq!(filter.to_block, BlockTag::Latest);

    let logs = vec![
        event_log(&addr(0x01), Some(vec![0x01; 32]), true),
        event_log(&addr(0x02), Some(vec![0x02; 32]), false),
        event_log(&addr(0x03), Some(vec![0x03; 32]), false),
    ];
    let lookups = vec![
        (vec![0x02; 32], FetchOutcome::NotFound),
        (vec![0x03; 32], FetchOutcome::Found(sample_input())),
    ];

    let mut stream = SplitAccountStream::new(logs, true);
    assert_eq!(stream.remaining(), 2);

    let first = drive(&mut stream, &lookups).unwrap();
    assert_eq!(first, Err(StreamError::TransactionNotFound));

    let second = drive(&mut stream, &lookups).unwrap().unwrap();
    assert_eq!(second.address.bytes, vec![0x03; 20]);
    assert_eq!(
        second
            .accounts
            .iter()
            .map(|a| a.bytes.clone())
            .collect::<Vec<_>>(),
        vec![vec![0xaa; 20], vec![0xbb; 20]]
    );
    assert_eq!(second.percents_allocation, vec![140000, 860000]);
    assert_eq!(second.distributor_fee, 9998);

    assert!(drive(&mut stream, &lookups).is_none());
}

#[test]
fn empty_log_result_produces_empty_sequence() {
    let mut stream = SplitAccountStream::new(vec![], true);
    assert_eq!(stream.remaining(), 0);
    assert!(drive(&mut stream, &[]).is_none());
}

#[test]
fn one_item_per_surviving_log_in_log_order() {
    let logs = vec![
        event_log(&addr(0x0a), Some(vec![0x0a; 32]), false),
        event_log(&addr(0x0b), Some(vec![0x0b; 32]), true),
        event_log(&addr(0x0c), Some(vec![0x0c; 32]), false),
        event_log(&addr(0x0d), Some(vec![0x0d; 32]), false),
    ];
    let input = sample_input();
    let lookups: Vec<(Vec<u8>, FetchOutcome)> = vec![
        (vec![0x0a; 32], FetchOutcome::Found(input.clone())),
        (vec![0x0c; 32], FetchOutcome::NotFound),
        (vec![0x0d; 32], FetchOutcome::Found(input.clone())),
    ];
    let mut stream = SplitAccountStream::new(logs, true);
    let mut produced = Vec::new();
    while let Some(item) = drive(&mut stream, &lookups) {
        produced.push(item);
    }
    // One item per surviving log (4 logs, 1 removed), in chain order.
    assert_eq!(produced.len(), 3);
    assert_eq!(produced[0].as_ref().unwrap().address.bytes, vec![0x0a; 20]);
    assert_eq!(produced[1], Err(StreamError::TransactionNotFound));
    assert_eq!(produced[2].as_ref().unwrap().address.bytes, vec![0x0d; 20]);
}

#[test]
fn missing_transaction_reference_is_one_failure_item() {
    let logs = vec![
        event_log(&addr(0x0a), None, false),
        event_log(&addr(0x0b), Some(vec![0x0b; 32]), false),
    ];
    let lookups = vec![(vec![0x0b; 32], FetchOutcome::Found(sample_input()))];
    let mut stream = SplitAccountStream::new(logs, true);
    let first = drive(&mut stream, &lookups).unwrap();
    assert_eq!(first, Err(StreamError::MissingTransactionHash));
    let second = drive(&mut stream, &lookups).unwrap();
    assert!(second.is_ok());
    assert!(drive(&mut stream, &lookups).is_none());
}

#[test]
fn transport_failure_is_confined_to_its_item() {
    let logs = vec![
        event_log(&addr(0x0a), Some(vec![0x0a; 32]), false),
        event_log(&addr(0x0b), Some(vec![0x0b; 32]), false),
    ];
    let lookups = vec![
        (
            vec![0x0a; 32],
            FetchOutcome::Failed(String::from("connection reset")),
        ),
        (vec![0x0b; 32], FetchOutcome::Found(sample_input())),
    ];
    let mut stream = SplitAccountStream::new(logs, true);
    let first = drive(&mut stream, &lookups).unwrap();
    assert_eq!(
        first,
        Err(StreamError::Transport(String::from("connection reset")))
    );
    assert!(drive(&mut stream, &lookups).unwrap().is_ok());
}

#[test]
fn undecodable_transaction_input_is_a_call_decode_failure() {
    let logs = vec![event_log(&addr(0x0a), Some(vec![0x0a; 32]), false)];
    let lookups = vec![(vec![0x0a; 32], FetchOutcome::Found(vec![0u8; 10]))];
    let mut stream = SplitAccountStream::new(logs, true);
    let item = drive(&mut stream, &lookups).unwrap();
    assert!(matches!(item, Err(StreamError::CallDecode(_))));
}

#[test]
fn undecodable_event_payload_is_an_event_decode_failure() {
    let mut log = event_log(&addr(0x0a), Some(vec![0x0a; 32]), false);
    log.topics[0][0] ^= 0xff;
    let lookups = vec![(vec![0x0a; 32], FetchOutcome::Found(sample_input()))];
    let mut stream = SplitAccountStream::new(vec![log], true);
    let item = drive(&mut stream, &lookups).unwrap();
    assert!(matches!(item, Err(StreamError::EventDecode(_))));
}

#[test]
fn unsupported_network_is_rejected_before_any_call() {
    assert!(Config::try_new(999).is_none());
    assert!(Config::try_new(0).is_none());
}

#[test]
fn supported_network_resolves_the_fixed_address() {
    let config = Config::try_new(1).unwrap();
    let expected = vec![
        0x2e, 0xd6, 0xc4, 0xb5, 0xda, 0x63, 0x78, 0xc7, 0x89, 0x7a, 0xc6, 0x7b, 0xa9, 0xe4,
        0x31, 0x02, 0xfe, 0xb6, 0x94, 0xee,
    ];
    assert_eq!(config.main_address.bytes, expected);
    assert_eq!(Config::default().main_address.bytes, expected);
    assert_eq!(Config::new(1).main_address.bytes, expected);
}

#[test]
fn distribute_request_is_pure_encoding_to_the_contract() {
    let main = SplitMain::new(addr(0x55));
    let account = Account::new(
        addr(0xad),
        vec![addr(0x8a), addr(0xbb)],
        vec![140000, 860000],
        9998,
    );
    let request = main.distribute_erc20(account, addr(0xa0), addr(0xdb));
    assert_eq!(request.to.bytes, vec![0x55; 20]);
    let digest = keccak("distributeERC20(address,address,address[],uint32[],uint32,address)");
    assert_eq!(&request.input[0..4], &digest[0..4]);
    // selector + 6 head words + (1 + 2) account words + (1 + 2) allocation words
    assert_eq!(request.input.len(), 4 + 32 * 12);
    // the split address sits in the first argument word
    assert_eq!(request.input[4 + 31], 0xad);
    // the fee word ends in 9998 = 0x270e big-endian
    assert_eq!(
        &request.input[4 + 32 * 4 + 28..4 + 32 * 5],
        &[0x00, 0x00, 0x27, 0x0e]
    );
}

#[test]
fn withdraw_request_is_pure_encoding_to_the_contract() {
    let main = SplitMain::new(addr(0x55));
    let mut eth = vec![0u8; 32];
    eth[31] = 0x05;
    let request = main.withdraw(addr(0xdb), Uint256::new(eth.clone()), addr(0xa0));
    assert_eq!(request.to.bytes, vec![0x55; 20]);
    let digest = keccak("withdraw(address,uint256,address[])");
    assert_eq!(&request.input[0..4], &digest[0..4]);
    // selector + 3 head words + (1 + 1) token words
    assert_eq!(request.input.len(), 4 + 32 * 5);
    // the native amount word is carried verbatim
    assert_eq!(&request.input[4 + 32..4 + 64], &eth[..]);
    // the token array holds exactly the one token address
    assert_eq!(request.input[4 + 32 * 3 + 31], 1);
    assert_eq!(request.input[4 + 32 * 4 + 31], 0xa0);
}

#[test]
fn balance_call_builders_target_the_contract() {
    let main = SplitMain::new(addr(0x55));
    let q = main.build_erc20_balance_call(&addr(0x01), &addr(0x02));
    assert_eq!(q.to.bytes, vec![0x55; 20]);
    let digest = keccak("getERC20Balance(address,address)");
    assert_eq!(&q.input[0..4], &digest[0..4]);
    let q2 = main.build_eth_balance_call(&addr(0x01));
    assert_eq!(q2.to.bytes, vec![0x55; 20]);
}

#[test]
fn filter_event_topic_is_the_event_digest() {
    let filter = build_create_split_filter(&addr(0x99), 1, Some(2));
    assert_eq!(filter.address.bytes, vec![0x99; 20]);
    assert_eq!(filter.event_topic, keccak("CreateSplit(address)"));
    assert_eq!(filter.from_block, BlockTag::Number(1));
    assert_eq!(filter.to_block, BlockTag::Number(2));
}
