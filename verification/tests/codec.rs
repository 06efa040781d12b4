use splits::account::Account;
use splits::codec::{
    decode_create_split_call, decode_create_split_event, decode_uint256_return,
    encode_create_split_call, encode_erc20_balance_call, encode_eth_balance_call, CreateSplitCall,
    DecodeError,
};
use splits::types::{Address, Log, Uint256};

fn addr(fill: u8) -> Address {
    Address::new(vec![fill; 20])
}

fn sample_call() -> CreateSplitCall {
    CreateSplitCall {
        accounts: vec![addr(0xaa), addr(0xbb)],
        percent_allocations: vec![140000, 860000],
        distributor_fee: 9998,
        controller: addr(0x11),
    }
}

fn keccak(s: &str) -> Vec<u8> {
    alloy_primitives::keccak256(s.as_bytes()).0.to_vec()
}

#[test]
fn create_split_round_trip_strict() {
    let call = sample_call();
    let bytes = encode_create_split_call(&call);
    let decoded = decode_create_split_call(&bytes, true).unwrap();
    assert_eq!(decoded.accounts.len(), 2);
    assert_eq!(decoded.accounts[0].bytes, vec![0xaa; 20]);
    assert_eq!(decoded.accounts[1].bytes, vec![0xbb; 20]);
    assert_eq!(decoded.percent_allocations, vec![140000, 860000]);
    assert_eq!(decoded.distributor_fee, 9998);
    assert_eq!(decoded.controller.bytes, vec![0x11; 20]);
}

#[test]
fn create_split_round_trip_empty_arrays() {
    let call = CreateSplitCall {
        accounts: vec![],
        percent_allocations: vec![],
        distributor_fee: 0,
        controller: addr(0),
    };
    let bytes = encode_create_split_call(&call);
    assert_eq!(bytes.len(), 196);
    let decoded = decode_create_split_call(&bytes, true).unwrap();
    assert_eq!(decoded.accounts.len(), 0);
    assert_eq!(decoded.percent_allocations.len(), 0);
    assert_eq!(decoded.distributor_fee, 0);
}

#[test]
fn create_split_lenient_tolerates_trailing_bytes() {
    let call = sample_call();
    let mut bytes = encode_create_split_call(&call);
    bytes.push(0xff);
    bytes.push(0x00);
    assert_eq!(
        decode_create_split_call(&bytes, true),
        Err(DecodeError::BadPayload)
    );
    let decoded = decode_create_split_call(&bytes, false).unwrap();
    assert_eq!(decoded.percent_allocations, vec![140000, 860000]);
}

#[test]
fn create_split_encoding_layout() {
    let call = sample_call();
    let bytes = encode_create_split_call(&call);
    // selector, 4 head words, 1+2 account words, 1+2 allocation words
    assert_eq!(bytes.len(), 4 + 32 * 10);
    let digest = keccak("createSplit(address[],uint32[],uint32,address)");
    assert_eq!(&bytes[0..4], &digest[0..4]);
    // accounts tail offset is 128, its length word holds 2
    assert_eq!(bytes[4 + 31], 128);
    assert_eq!(bytes[4 + 32 * 4 + 31], 2);
    // fee word ends in 9998 = 0x270e big-endian
    assert_eq!(&bytes[4 + 32 * 2 + 28..4 + 32 * 3], &[0x00, 0x00, 0x27, 0x0e]);
}

#[test]
fn decode_rejects_short_input() {
    assert_eq!(
        decode_create_split_call(&vec![], true),
        Err(DecodeError::TooShort)
    );
    assert_eq!(
        decode_create_split_call(&vec![0x01, 0x02, 0x03], true),
        Err(DecodeError::TooShort)
    );
    let mut truncated = encode_create_split_call(&sample_call());
    truncated.truncate(100);
    assert_eq!(
        decode_create_split_call(&truncated, true),
        Err(DecodeError::TooShort)
    );
}

#[test]
fn decode_rejects_wrong_selector() {
    let mut bytes = encode_create_split_call(&sample_call());
    bytes[0] ^= 0xff;
    assert_eq!(
        decode_create_split_call(&bytes, true),
        Err(DecodeError::SelectorMismatch)
    );
}

#[test]
fn decode_rejects_corrupt_payload() {
    // A correct selector over all-zero words: the first offset word is 0,
    // not 128.
    let digest = keccak("createSplit(address[],uint32[],uint32,address)");
    let mut bytes = digest[0..4].to_vec();
    bytes.extend(std::iter::repeat(0u8).take(192));
    assert_eq!(
        decode_create_split_call(&bytes, true),
        Err(DecodeError::BadPayload)
    );
    // Nonzero padding in the fee word is a type mismatch.
    let mut bad_fee = encode_create_split_call(&sample_call());
    bad_fee[4 + 32 * 2] = 0x01;
    assert_eq!(
        decode_create_split_call(&bad_fee, true),
        Err(DecodeError::BadPayload)
    );
}

#[test]
fn decode_rejects_mismatched_array_lengths() {
    // Rewrite the allocations length word from 2 to 1: the interface
    // pairs one allocation with each participant.
    let mut bytes = encode_create_split_call(&sample_call());
    let alloc_len_word = 4 + 32 * 7;
    bytes[alloc_len_word + 31] = 1;
    assert!(decode_create_split_call(&bytes, true).is_err());
}

fn event_log(split: &Address, removed: bool) -> Log {
    let mut topic1 = vec![0u8; 12];
    topic1.extend_from_slice(&split.bytes);
    Log {
        topics: vec![keccak("CreateSplit(address)"), topic1],
        data: vec![],
        transaction_hash: Some(vec![0x77; 32]),
        removed,
    }
}

#[test]
fn event_decode_recovers_split_address() {
    let log = event_log(&addr(0x42), false);
    let decoded = decode_create_split_event(&log, true).unwrap();
    assert_eq!(decoded.bytes, vec![0x42; 20]);
}

#[test]
fn event_decode_rejects_malformed_logs() {
    let mut one_topic = event_log(&addr(0x42), false);
    one_topic.topics.pop();
    assert_eq!(
        decode_create_split_event(&one_topic, true),
        Err(DecodeError::TooShort)
    );

    let mut wrong_topic = event_log(&addr(0x42), false);
    wrong_topic.topics[0][0] ^= 0xff;
    assert_eq!(
        decode_create_split_event(&wrong_topic, true),
        Err(DecodeError::SelectorMismatch)
    );

    let mut trailing = event_log(&addr(0x42), false);
    trailing.data.push(0x01);
    assert_eq!(
        decode_create_split_event(&trailing, true),
        Err(DecodeError::BadPayload)
    );
    assert!(decode_create_split_event(&trailing, false).is_ok());

    let mut bad_padding = event_log(&addr(0x42), false);
    bad_padding.topics[1][0] = 0x01;
    assert_eq!(
        decode_create_split_event(&bad_padding, true),
        Err(DecodeError::BadPayload)
    );
}

#[test]
fn balance_calls_and_return() {
    let q = encode_erc20_balance_call(&addr(0x01), &addr(0x02));
    let digest = keccak("getERC20Balance(address,address)");
    assert_eq!(&q[0..4], &digest[0..4]);
    assert_eq!(q.len(), 4 + 64);
    assert_eq!(q[4 + 31], 0x01);
    assert_eq!(q[4 + 63], 0x02);

    let q2 = encode_eth_balance_call(&addr(0x03));
    let digest2 = keccak("getETHBalance(address)");
    assert_eq!(&q2[0..4], &digest2[0..4]);
    assert_eq!(q2.len(), 4 + 32);

    let mut ret = vec![0u8; 32];
    ret[31] = 0x2a;
    let amount = decode_uint256_return(&ret, true).unwrap();
    assert_eq!(amount.be_bytes, ret);

    assert_eq!(
        decode_uint256_return(&vec![0u8; 31], true),
        Err(DecodeError::TooShort)
    );
    let long = vec![0u8; 33];
    assert_eq!(
        decode_uint256_return(&long, true),
        Err(DecodeError::BadPayload)
    );
    assert_eq!(
        decode_uint256_return(&long, false).unwrap().be_bytes,
        vec![0u8; 32]
    );
}

#[test]
fn record_construction_keeps_fields() {
    let account = Account::new(
        addr(0x10),
        vec![addr(0x20), addr(0x21)],
        vec![1, 2],
        7,
    );
    assert_eq!(account.address.bytes, vec![0x10; 20]);
    assert_eq!(account.accounts.len(), 2);
    assert_eq!(account.percents_allocation, vec![1, 2]);
    assert_eq!(account.distributor_fee, 7);
}

#[test]
fn uint256_wraps_its_bytes() {
    let w = Uint256::new(vec![9u8; 32]);
    assert_eq!(w.be_bytes, vec![9u8; 32]);
}
