use shasper::chain_spec::ChainSpec;
use shasper::messages::{
    response_kind, ErrorMessage, GoodbyeReason, HelloMessage, PubsubType, RPCErrorResponse, RPCRequest, RPCResponse,
    RPCType, ResponseKind,
};
use shasper::order::compare_hello;
use std::cmp::Ordering;

#[test]
fn goodbye_reasons_read_and_write() {
    assert_eq!(GoodbyeReason::from(1u64), GoodbyeReason::ClientShutdown);
    assert_eq!(GoodbyeReason::from(2u64), GoodbyeReason::IrrelevantNetwork);
    assert_eq!(GoodbyeReason::from(3u64), GoodbyeReason::Fault);
    assert_eq!(GoodbyeReason::from(0u64), GoodbyeReason::Unknown);
    assert_eq!(GoodbyeReason::from(42u64), GoodbyeReason::Unknown);
    let n: u64 = GoodbyeReason::Fault.into();
    assert_eq!(n, 3);
    assert_eq!(GoodbyeReason::from_number(7).to_number(), 0);
    assert_eq!(GoodbyeReason::from_number(2).to_number(), 2);
}

#[test]
fn pubsub_topics_read_back() {
    let all = [
        PubsubType::Block,
        PubsubType::Attestation,
        PubsubType::VoluntaryExit,
        PubsubType::ProposerSlashing,
        PubsubType::AttesterSlashing,
    ];
    for t in all {
        let topic = t.gossipsub_topic_hash();
        assert_eq!(PubsubType::from_gossipsub_topic_hash(&topic), Some(t));
    }
    assert_eq!(PubsubType::Block.gossipsub_topic_hash(), "/eth2/beacon_block/ssz/beacon_block");
    assert_eq!(PubsubType::from_gossipsub_topic_hash("/eth2/beacon_block/ssz/other"), None);
}

#[test]
fn rpc_requests_and_responses() {
    let bye = RPCRequest::Goodbye(GoodbyeReason::Fault);
    assert!(bye.is_goodbye());
    assert!(!bye.expect_response());
    assert_eq!(bye.typ(), RPCType::Goodbye);
    assert_eq!(RPCType::all().len(), 4);
    assert_eq!(RPCType::Hello.protocol_name(), "/eth2/beacon_chain/req/hello/1/ssz");
    let ok = RPCErrorResponse::Success(RPCResponse::BeaconBlocks(vec![1, 2]));
    assert_eq!(ok.as_u8(), 0);
    assert!(RPCErrorResponse::is_response(0));
    assert!(!RPCErrorResponse::is_response(2));
    let err = RPCErrorResponse::from_error(2, ErrorMessage { error_message: b"boom".to_vec() });
    assert_eq!(err.as_u8(), 2);
    let err = RPCErrorResponse::from_error(9, ErrorMessage { error_message: vec![] });
    assert_eq!(err.as_u8(), 255);
}

#[test]
fn error_messages_as_text() {
    let m = ErrorMessage { error_message: "wrong fork ✓".as_bytes().to_vec() };
    assert_eq!(m.as_string(), "wrong fork ✓");
    let bad = ErrorMessage { error_message: vec![0xff, 0xfe] };
    assert_eq!(bad.as_string(), "");
}

#[test]
fn hello_messages_order_by_head_slot() {
    let a = HelloMessage {
        fork_version: [0; 4],
        finalized_root: [1; 32],
        finalized_epoch: 9,
        head_root: [2; 32],
        head_slot: 5,
    };
    let b = HelloMessage { head_slot: 7, finalized_epoch: 1, ..a };
    assert_eq!(compare_hello(&a, &b), Ordering::Less);
    assert_eq!(compare_hello(&b, &a), Ordering::Greater);
    assert_eq!(compare_hello(&a, &HelloMessage { head_root: [3; 32], ..a }), Ordering::Equal);
}

#[test]
fn chain_spec_names() {
    assert_eq!(ChainSpec::from("dev"), Some(ChainSpec::Development));
    assert_eq!(ChainSpec::from("main"), None);
}

#[test]
fn outbound_responses_read_by_code() {
    assert_eq!(response_kind(0, RPCType::Hello), ResponseKind::Typed(RPCType::Hello));
    assert_eq!(response_kind(0, RPCType::BeaconBlocks), ResponseKind::Typed(RPCType::BeaconBlocks));
    assert_eq!(response_kind(0, RPCType::RecentBeaconBlocks), ResponseKind::Typed(RPCType::RecentBeaconBlocks));
    assert_eq!(response_kind(0, RPCType::Goodbye), ResponseKind::Unknown(0));
    assert_eq!(response_kind(1, RPCType::Hello), ResponseKind::Unknown(1));
    assert_eq!(response_kind(255, RPCType::BeaconBlocks), ResponseKind::Unknown(255));
}
