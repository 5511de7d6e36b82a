//! Messages exchanged with peers: RPC requests and responses, goodbye
//! reasons, and the gossip topics.

use vstd::prelude::*;
use vstd::utf8::{valid_utf8, encode_utf8};
use crate::hash::H256;
use crate::handler::BeaconBlocksRequest;

verus! {

/// The HELLO request and response.
#[derive(Clone, Copy, Debug)]
pub struct HelloMessage {
    /// The fork version of the chain we are broadcasting.
    pub fork_version: [u8; 4],
    /// Latest finalized root.
    pub finalized_root: H256,
    /// Latest finalized epoch.
    pub finalized_epoch: u64,
    /// The latest block root.
    pub head_root: H256,
    /// The slot of the latest block root.
    pub head_slot: u64,
}

/// The reason given for a goodbye. Any unknown number reads as `Unknown`,
/// which writes as zero: reading then writing may not give the same number.
#[derive(Clone, Copy, Debug, PartialEq, Eq, Structural)]
pub enum GoodbyeReason {
    /// This node has shut down.
    ClientShutdown,
    /// Incompatible networks.
    IrrelevantNetwork,
    /// Error or fault in the RPC.
    Fault,
    /// Unknown reason.
    Unknown,
}

/// The goodbye reason a number reads as.
pub open spec fn goodbye_from_number(id: u64) -> GoodbyeReason {
    if id == 1 {
        GoodbyeReason::ClientShutdown
    } else if id == 2 {
        GoodbyeReason::IrrelevantNetwork
    } else if id == 3 {
        GoodbyeReason::Fault
    } else {
        GoodbyeReason::Unknown
    }
}

/// The number a goodbye reason writes as.
pub open spec fn goodbye_number(r: GoodbyeReason) -> u64 {
    match r {
        GoodbyeReason::ClientShutdown => 1,
        GoodbyeReason::IrrelevantNetwork => 2,
        GoodbyeReason::Fault => 3,
        GoodbyeReason::Unknown => 0,
    }
}

impl From<u64> for GoodbyeReason {
    fn from(id: u64) -> (r: GoodbyeReason) {
        match id {
            1 => GoodbyeReason::ClientShutdown,
            2 => GoodbyeReason::IrrelevantNetwork,
            3 => GoodbyeReason::Fault,
            _ => GoodbyeReason::Unknown,
        }
    }
}

impl vstd::std_specs::convert::FromSpecImpl<u64> for GoodbyeReason {
    open spec fn obeys_from_spec() -> bool {
        true
    }

    open spec fn from_spec(id: u64) -> GoodbyeReason {
        goodbye_from_number(id)
    }
}

impl From<GoodbyeReason> for u64 {
    fn from(reason: GoodbyeReason) -> (r: u64) {
        match reason {
            GoodbyeReason::ClientShutdown => 1,
            GoodbyeReason::IrrelevantNetwork => 2,
            GoodbyeReason::Fault => 3,
            GoodbyeReason::Unknown => 0,
        }
    }
}

impl vstd::std_specs::convert::FromSpecImpl<GoodbyeReason> for u64 {
    open spec fn obeys_from_spec() -> bool {
        true
    }

    open spec fn from_spec(reason: GoodbyeReason) -> u64 {
        goodbye_number(reason)
    }
}

impl GoodbyeReason {
    /// The reason a number reads as.
    pub fn from_number(id: u64) -> (r: GoodbyeReason)
        ensures
            r == goodbye_from_number(id),
    {
        GoodbyeReason::from(id)
    }

    /// The number the reason writes as.
    pub fn to_number(self) -> (r: u64)
        ensures
            r == goodbye_number(self),
    {
        u64::from(self)
    }
}

/// Every reason but `Unknown` reads back from the number it writes as;
/// `Unknown` reads back from zero as well.
pub proof fn lemma_goodbye_roundtrip(r: GoodbyeReason)
    ensures
        goodbye_from_number(goodbye_number(r)) == r,
{
}

/// Request a number of recent beacon blocks from a peer.
#[derive(Clone, Debug)]
pub struct RecentBeaconBlocksRequest {
    /// The roots of the requested blocks.
    pub block_roots: Vec<H256>,
}

/// RPC type.
#[derive(Clone, Copy, Debug, PartialEq, Eq, Structural)]
pub enum RPCType {
    /// The HELLO handshake.
    Hello,
    /// A goodbye.
    Goodbye,
    /// A request for beacon blocks.
    BeaconBlocks,
    /// A request for recent beacon blocks.
    RecentBeaconBlocks,
}

/// The protocol name of an RPC type.
pub open spec fn protocol_name_spec(t: RPCType) -> Seq<char> {
    match t {
        RPCType::Hello => "/eth2/beacon_chain/req/hello/1/ssz"@,
        RPCType::Goodbye => "/eth2/beacon_chain/req/goodbye/1/ssz"@,
        RPCType::BeaconBlocks => "/eth2/beacon_chain/req/beacon_blocks/1/ssz"@,
        RPCType::RecentBeaconBlocks => "/eth2/beacon_chain/req/recent_beacon_blocks/1/ssz"@,
    }
}

impl RPCType {
    /// All RPC types.
    pub fn all() -> (r: Vec<RPCType>)
        ensures
            r@ == seq![RPCType::Hello, RPCType::Goodbye, RPCType::BeaconBlocks, RPCType::RecentBeaconBlocks],
    {
        let mut r: Vec<RPCType> = Vec::new();
        r.push(RPCType::Hello);
        r.push(RPCType::Goodbye);
        r.push(RPCType::BeaconBlocks);
        r.push(RPCType::RecentBeaconBlocks);
        r
    }

    /// The protocol name under which the type is negotiated.
    pub fn protocol_name(&self) -> (r: &'static str)
        ensures
            r@ == protocol_name_spec(*self),
    {
        match self {
            RPCType::Hello => "/eth2/beacon_chain/req/hello/1/ssz",
            RPCType::Goodbye => "/eth2/beacon_chain/req/goodbye/1/ssz",
            RPCType::BeaconBlocks => "/eth2/beacon_chain/req/beacon_blocks/1/ssz",
            RPCType::RecentBeaconBlocks => "/eth2/beacon_chain/req/recent_beacon_blocks/1/ssz",
        }
    }
}

/// Possible RPC requests.
#[derive(Clone, Debug)]
pub enum RPCRequest {
    /// The HELLO handshake.
    Hello(HelloMessage),
    /// A goodbye.
    Goodbye(GoodbyeReason),
    /// A request for beacon blocks.
    BeaconBlocks(BeaconBlocksRequest),
    /// A request for recent beacon blocks.
    RecentBeaconBlocks(RecentBeaconBlocksRequest),
}

impl RPCRequest {
    /// Whether this is a goodbye.
    pub fn is_goodbye(&self) -> (r: bool)
        ensures
            r == (*self is Goodbye),
    {
        match self {
            RPCRequest::Goodbye(_) => true,
            _ => false,
        }
    }

    /// Whether the peer answers this request: all but goodbyes.
    pub fn expect_response(&self) -> (r: bool)
        ensures
            r == !(*self is Goodbye),
    {
        match self {
            RPCRequest::Goodbye(_) => false,
            _ => true,
        }
    }

    /// The RPC type of the request.
    pub fn typ(&self) -> (r: RPCType)
        ensures
            r == match *self {
                RPCRequest::Hello(_) => RPCType::Hello,
                RPCRequest::Goodbye(_) => RPCType::Goodbye,
                RPCRequest::BeaconBlocks(_) => RPCType::BeaconBlocks,
                RPCRequest::RecentBeaconBlocks(_) => RPCType::RecentBeaconBlocks,
            },
    {
        match self {
            RPCRequest::Hello(_) => RPCType::Hello,
            RPCRequest::Goodbye(_) => RPCType::Goodbye,
            RPCRequest::BeaconBlocks(_) => RPCType::BeaconBlocks,
            RPCRequest::RecentBeaconBlocks(_) => RPCType::RecentBeaconBlocks,
        }
    }
}

/// A successful RPC response; blocks travel encoded.
#[derive(Clone, Debug)]
pub enum RPCResponse {
    /// A HELLO message.
    Hello(HelloMessage),
    /// Encoded blocks answering a request for beacon blocks.
    BeaconBlocks(Vec<u8>),
    /// Encoded blocks answering a request for recent beacon blocks.
    RecentBeaconBlocks(Vec<u8>),
}

/// How a response to an outbound request is read, by its leading code byte.
#[derive(Clone, Copy, Debug, PartialEq, Eq, Structural)]
pub enum ResponseKind {
    /// A successful response of the request's type, to be decoded as such.
    Typed(RPCType),
    /// A response kept as raw bytes beside its code.
    Unknown(u8),
}

/// The kind of a response with code byte `code` to a request of type `typ`:
/// code zero is success, read by the request's type, except that goodbyes
/// have no typed response; any other code is kept as unknown.
pub fn response_kind(code: u8, typ: RPCType) -> (r: ResponseKind)
    ensures
        r == if code == 0 && typ != RPCType::Goodbye { ResponseKind::Typed(typ) } else { ResponseKind::Unknown(code) },
{
    if code == 0 {
        match typ {
            RPCType::Goodbye => ResponseKind::Unknown(code),
            _ => ResponseKind::Typed(typ),
        }
    } else {
        ResponseKind::Unknown(code)
    }
}

/// The UTF-8 text of an RPC error.
#[derive(Clone, Debug)]
pub struct ErrorMessage {
    /// The UTF-8 encoded error message.
    pub error_message: Vec<u8>,
}

/// `String::from_utf8`: the text whose UTF-8 encoding is `bytes`, when they
/// are valid UTF-8.
#[verifier::external_body]
fn string_from_utf8(bytes: Vec<u8>) -> (r: Option<String>)
    ensures
        match r {
            Some(s) => valid_utf8(bytes@) && encode_utf8(s@) == bytes@,
            None => !valid_utf8(bytes@),
        },
{
    match String::from_utf8(bytes) {
        Ok(s) => Some(s),
        Err(_) => None,
    }
}

impl ErrorMessage {
    /// The message as text; empty when it is not valid UTF-8.
    pub fn as_string(&self) -> (r: String)
        ensures
            valid_utf8(self.error_message@) ==> encode_utf8(r@) == self.error_message@,
            !valid_utf8(self.error_message@) ==> r@ == Seq::<char>::empty(),
    {
        match string_from_utf8(self.error_message.clone()) {
            Some(s) => s,
            None => String::new(),
        }
    }
}

/// An RPC response: a success, or an error with its message.
#[derive(Clone, Debug)]
pub enum RPCErrorResponse {
    /// The request succeeded.
    Success(RPCResponse),
    /// The request was invalid.
    InvalidRequest(ErrorMessage),
    /// The server failed.
    ServerError(ErrorMessage),
    /// Any other error.
    Unknown(ErrorMessage),
}

impl RPCErrorResponse {
    /// The response code written before the response.
    pub fn as_u8(&self) -> (r: u8)
        ensures
            r == match *self {
                RPCErrorResponse::Success(_) => 0u8,
                RPCErrorResponse::InvalidRequest(_) => 1u8,
                RPCErrorResponse::ServerError(_) => 2u8,
                RPCErrorResponse::Unknown(_) => 255u8,
            },
    {
        match self {
            RPCErrorResponse::Success(_) => 0,
            RPCErrorResponse::InvalidRequest(_) => 1,
            RPCErrorResponse::ServerError(_) => 2,
            RPCErrorResponse::Unknown(_) => 255,
        }
    }

    /// Whether a response code announces a response rather than an error.
    pub fn is_response(response_code: u8) -> (r: bool)
        ensures
            r == (response_code == 0),
    {
        match response_code {
            0 => true,
            _ => false,
        }
    }

    /// The error response for a response code and its message.
    pub fn from_error(response_code: u8, err: ErrorMessage) -> (r: Self)
        ensures
            r == if response_code == 1 {
                RPCErrorResponse::InvalidRequest(err)
            } else if response_code == 2 {
                RPCErrorResponse::ServerError(err)
            } else {
                RPCErrorResponse::Unknown(err)
            },
    {
        match response_code {
            1 => RPCErrorResponse::InvalidRequest(err),
            2 => RPCErrorResponse::ServerError(err),
            _ => RPCErrorResponse::Unknown(err),
        }
    }
}

/// An error response keeps its code: reading the code back gives the same kind.
pub proof fn lemma_error_code_roundtrip(code: u8, err: ErrorMessage)
    requires
        code != 0,
    ensures
        ({
            let r = if code == 1 {
                RPCErrorResponse::InvalidRequest(err)
            } else if code == 2 {
                RPCErrorResponse::ServerError(err)
            } else {
                RPCErrorResponse::Unknown(err)
            };
            (code == 1 || code == 2 || code == 255) ==> match r {
                RPCErrorResponse::Success(_) => 0u8,
                RPCErrorResponse::InvalidRequest(_) => 1u8,
                RPCErrorResponse::ServerError(_) => 2u8,
                RPCErrorResponse::Unknown(_) => 255u8,
            } == code
        }),
{
}

/// Gossip message types.
#[derive(Clone, Copy, Debug, PartialEq, Eq, Structural)]
pub enum PubsubType {
    /// A new block.
    Block,
    /// A new attestation.
    Attestation,
    /// A voluntary exit.
    VoluntaryExit,
    /// A proposer slashing.
    ProposerSlashing,
    /// An attester slashing.
    AttesterSlashing,
}

/// The gossip topic of a message type.
pub open spec fn topic_spec(t: PubsubType) -> Seq<char> {
    match t {
        PubsubType::Block => "/eth2/beacon_block/ssz/beacon_block"@,
        PubsubType::Attestation => "/eth2/beacon_block/ssz/beacon_attestation"@,
        PubsubType::VoluntaryExit => "/eth2/beacon_block/ssz/voluntary_exit"@,
        PubsubType::ProposerSlashing => "/eth2/beacon_block/ssz/proposer_slashing"@,
        PubsubType::AttesterSlashing => "/eth2/beacon_block/ssz/attester_slashing"@,
    }
}

/// The message type of a gossip topic, if it is one of ours.
pub open spec fn topic_type_spec(topic: Seq<char>) -> Option<PubsubType> {
    if topic == topic_spec(PubsubType::Block) {
        Some(PubsubType::Block)
    } else if topic == topic_spec(PubsubType::Attestation) {
        Some(PubsubType::Attestation)
    } else if topic == topic_spec(PubsubType::VoluntaryExit) {
        Some(PubsubType::VoluntaryExit)
    } else if topic == topic_spec(PubsubType::ProposerSlashing) {
        Some(PubsubType::ProposerSlashing)
    } else if topic == topic_spec(PubsubType::AttesterSlashing) {
        Some(PubsubType::AttesterSlashing)
    } else {
        None
    }
}

/// Whether two texts are equal.
pub(crate) fn same_text(a: &str, b: &str) -> (r: bool)
    ensures
        r == (a@ == b@),
{
    a.to_owned() == b.to_owned()
}

impl PubsubType {
    /// The message type of a gossip topic, if it is one of ours.
    pub fn from_gossipsub_topic_hash(topic: &str) -> (r: Option<PubsubType>)
        ensures
            r == topic_type_spec(topic@),
    {
        if same_text(topic, "/eth2/beacon_block/ssz/beacon_block") {
            Some(PubsubType::Block)
        } else if same_text(topic, "/eth2/beacon_block/ssz/beacon_attestation") {
            Some(PubsubType::Attestation)
        } else if same_text(topic, "/eth2/beacon_block/ssz/voluntary_exit") {
            Some(PubsubType::VoluntaryExit)
        } else if same_text(topic, "/eth2/beacon_block/ssz/proposer_slashing") {
            Some(PubsubType::ProposerSlashing)
        } else if same_text(topic, "/eth2/beacon_block/ssz/attester_slashing") {
            Some(PubsubType::AttesterSlashing)
        } else {
            None
        }
    }

    /// The gossip topic of the message type.
    pub fn gossipsub_topic_hash(&self) -> (r: String)
        ensures
            r@ == topic_spec(*self),
    {
        match self {
            PubsubType::Block => "/eth2/beacon_block/ssz/beacon_block".to_owned(),
            PubsubType::Attestation => "/eth2/beacon_block/ssz/beacon_attestation".to_owned(),
            PubsubType::VoluntaryExit => "/eth2/beacon_block/ssz/voluntary_exit".to_owned(),
            PubsubType::ProposerSlashing => "/eth2/beacon_block/ssz/proposer_slashing".to_owned(),
            PubsubType::AttesterSlashing => "/eth2/beacon_block/ssz/attester_slashing".to_owned(),
        }
    }
}

/// Every message type reads back from its own topic.
pub proof fn lemma_topic_roundtrip(t: PubsubType)
    ensures
        topic_type_spec(topic_spec(t)) == Some(t),
{
    reveal_strlit("/eth2/beacon_block/ssz/beacon_block");
    reveal_strlit("/eth2/beacon_block/ssz/beacon_attestation");
    reveal_strlit("/eth2/beacon_block/ssz/voluntary_exit");
    reveal_strlit("/eth2/beacon_block/ssz/proposer_slashing");
    reveal_strlit("/eth2/beacon_block/ssz/attester_slashing");
    let b = topic_spec(PubsubType::Block);
    let a = topic_spec(PubsubType::Attestation);
    let v = topic_spec(PubsubType::VoluntaryExit);
    let p = topic_spec(PubsubType::ProposerSlashing);
    let s = topic_spec(PubsubType::AttesterSlashing);
    assert(b.len() != a.len() && b.len() != v.len() && b.len() != p.len() && b.len() != s.len());
    assert(a.len() != v.len() && a.len() != p.len() && a.len() != s.len());
    assert(v.len() != p.len() && v.len() != s.len());
    assert(p[23] != s[23]);
}

} // verus!
