use vstd::prelude::*;

verus! {

/// The height written in `end_block_num` of a version that is still in effect.
pub const MAX_BLOCK_NUM: i64 = 9223372036854775807;

/// A block of the accepted branch of the chain.
#[derive(Clone, Debug, PartialEq, Eq)]
pub struct Block {
    pub block_id: String,
    pub block_num: i64,
    pub state_root_hash: String,
}

/// One key/value attribute of a ledger event.
#[derive(Clone, Debug, PartialEq, Eq)]
pub struct EventAttribute {
    pub key: String,
    pub value: String,
}

/// One metadata entry; it is stored as a mapping that holds this one key.
#[derive(Clone, Debug, PartialEq, Eq)]
pub struct Metadata {
    pub key: String,
    pub value: String,
}

/// An agent as it stands in a decoded agent list.
#[derive(Clone, Debug, PartialEq, Eq)]
pub struct AgentEntry {
    pub public_key: String,
    pub org_id: String,
    pub active: bool,
    pub roles: Vec<String>,
    pub metadata: Vec<Metadata>,
}

/// An organization as it stands in a decoded organization list.
#[derive(Clone, Debug, PartialEq, Eq)]
pub struct OrganizationEntry {
    pub org_id: String,
    pub name: String,
    pub address: String,
    pub metadata: Vec<Metadata>,
}

/// The payload of a state change, decoded as its address asks.
#[derive(Clone, Debug, PartialEq, Eq)]
pub enum Payload {
    Agents(Vec<AgentEntry>),
    Organizations(Vec<OrganizationEntry>),
    /// The bytes did not decode as the list that the address asks for.
    Malformed(String),
    /// The address asks for no decoding.
    Undecoded,
}

/// One address/value pair of a state-delta record.
#[derive(Clone, Debug, PartialEq, Eq)]
pub struct StateChange {
    pub address: String,
    pub payload: Payload,
}

/// A ledger event: its type, its attributes and, for a state-delta event whose
/// data is a well-formed list of state changes, that list.
#[derive(Clone, Debug, PartialEq, Eq)]
pub struct Event {
    pub event_type: String,
    pub attributes: Vec<EventAttribute>,
    pub state_changes: Option<Vec<StateChange>>,
}

/// A version of an agent, ready to be stored.
#[derive(Clone, Debug, PartialEq, Eq)]
pub struct NewAgent {
    pub public_key: String,
    pub org_id: String,
    pub active: bool,
    pub roles: Vec<String>,
    pub metadata: Vec<Metadata>,
    pub start_block_num: i64,
    pub end_block_num: i64,
}

/// A version of an organization, ready to be stored.
#[derive(Clone, Debug, PartialEq, Eq)]
pub struct NewOrganization {
    pub org_id: String,
    pub name: String,
    pub address: String,
    pub metadata: Vec<Metadata>,
    pub start_block_num: i64,
    pub end_block_num: i64,
}

/// Why a batch of events was rejected.
#[derive(Clone, Debug, PartialEq, Eq)]
pub enum EventError {
    /// A required attribute, named here, is absent.
    MissingAttribute(String),
    /// `block_num` is not a decimal `i64`; the parser's message.
    InvalidBlockNum(String),
    /// The batch holds no block-commit event.
    NoBlock,
    /// A state change in a known namespace has an address of unknown kind.
    UnknownAddress(String),
    /// A state change's payload did not decode; the address and the reason.
    MalformedPayload(String, String),
}

} // verus!

verus! {

/// What an error says, without the diagnostic text of an outside decoder.
pub enum EventErrorView {
    MissingAttribute(Seq<char>),
    InvalidBlockNum,
    NoBlock,
    UnknownAddress(Seq<char>),
    MalformedPayload(Seq<char>),
}

impl View for EventError {
    type V = EventErrorView;

    open spec fn view(&self) -> EventErrorView {
        match self {
            EventError::MissingAttribute(k) => EventErrorView::MissingAttribute(k@),
            EventError::InvalidBlockNum(_) => EventErrorView::InvalidBlockNum,
            EventError::NoBlock => EventErrorView::NoBlock,
            EventError::UnknownAddress(a) => EventErrorView::UnknownAddress(a@),
            EventError::MalformedPayload(a, _) => EventErrorView::MalformedPayload(a@),
        }
    }
}

/// A result with its error seen through its view.
pub open spec fn outcome<T>(r: Result<T, EventError>) -> Result<T, EventErrorView> {
    match r {
        Ok(v) => Ok(v),
        Err(e) => Err(e@),
    }
}

} // verus!
