use vstd::prelude::*;

use crate::models::{
    outcome, AgentEntry, Block, Event, EventAttribute, EventError, EventErrorView, NewAgent,
    NewOrganization, OrganizationEntry, Payload, StateChange, MAX_BLOCK_NUM,
};
use crate::number::{parse_i64, parsed_i64};
use crate::store::{applied_batch, Projection, ProjectionView};
use vstd::string::StrSliceExecFns;

verus! {

/// The value of the first attribute with the given key.
pub open spec fn find_attr(attrs: Seq<EventAttribute>, key: Seq<char>) -> Option<String>
    decreases attrs.len(),
{
    if attrs.len() == 0 {
        None
    } else if attrs[0].key@ == key {
        Some(attrs[0].value)
    } else {
        find_attr(attrs.skip(1), key)
    }
}

/// Reads a required attribute: the value of the first attribute with `key`.
pub fn require_attr(attributes: &Vec<EventAttribute>, key: &str) -> (r: Result<String, EventError>)
    ensures
        outcome(r) == match find_attr(attributes@, key@) {
            Some(v) => Ok(v),
            None => Err(EventErrorView::MissingAttribute(key@)),
        },
{
    let mut i: usize = 0;
    assert(attributes@.skip(0) =~= attributes@);
    while i < attributes.len()
        invariant
            0 <= i <= attributes@.len(),
            find_attr(attributes@, key@) == find_attr(attributes@.skip(i as int), key@),
        decreases attributes@.len() - i,
    {
        assert(attributes@.skip(i as int).skip(1) =~= attributes@.skip(i + 1));
        if attributes[i].key.as_str().to_owned() == key.to_owned() {
            return Ok(attributes[i].value.clone());
        }
        i = i + 1;
    }
    Err(EventError::MissingAttribute(key.to_owned()))
}

/// A block-commit notification.
pub open spec fn is_commit(e: Event) -> bool {
    e.event_type@ == "sawtooth/block-commit"@
}

/// The last block-commit event of a batch.
pub open spec fn last_commit(events: Seq<Event>) -> Option<Event>
    decreases events.len(),
{
    if events.len() == 0 {
        None
    } else if is_commit(events.last()) {
        Some(events.last())
    } else {
        last_commit(events.drop_last())
    }
}

/// The block that a block-commit event describes, or why it describes none.
pub open spec fn block_of(e: Event) -> Result<Block, EventErrorView> {
    let a = e.attributes@;
    match find_attr(a, "block_id"@) {
        None => Err(EventErrorView::MissingAttribute("block_id"@)),
        Some(id) => match find_attr(a, "block_num"@) {
            None => Err(EventErrorView::MissingAttribute("block_num"@)),
            Some(num) => match parsed_i64(num@) {
                None => Err(EventErrorView::InvalidBlockNum),
                Some(n) => match find_attr(a, "state_root_hash"@) {
                    None => Err(EventErrorView::MissingAttribute("state_root_hash"@)),
                    Some(h) => Ok(Block { block_id: id, block_num: n, state_root_hash: h }),
                },
            },
        },
    }
}

/// The block of a batch: that of its last block-commit event.
pub open spec fn batch_block(events: Seq<Event>) -> Result<Block, EventErrorView> {
    match last_commit(events) {
        None => Err(EventErrorView::NoBlock),
        Some(e) => block_of(e),
    }
}

fn block_from_event(event: &Event) -> (r: Result<Block, EventError>)
    ensures
        outcome(r) == block_of(*event),
{
    let block_id = match require_attr(&event.attributes, "block_id") {
        Ok(v) => v,
        Err(e) => return Err(e),
    };
    let num = match require_attr(&event.attributes, "block_num") {
        Ok(v) => v,
        Err(e) => return Err(e),
    };
    let block_num = match parse_i64(num.as_str()) {
        Ok(n) => n,
        Err(msg) => return Err(EventError::InvalidBlockNum(msg)),
    };
    let state_root_hash = match require_attr(&event.attributes, "state_root_hash") {
        Ok(v) => v,
        Err(e) => return Err(e),
    };
    Ok(Block { block_id, block_num, state_root_hash })
}

/// Extracts the block of a batch. Only the last block-commit event counts;
/// earlier ones are passed over.
pub fn get_block(events: &Vec<Event>) -> (r: Result<Block, EventError>)
    ensures
        outcome(r) == batch_block(events@),
{
    let commit = "sawtooth/block-commit".to_owned();
    let mut i: usize = events.len();
    assert(events@.take(i as int) =~= events@);
    while i > 0
        invariant
            i <= events@.len(),
            commit@ == "sawtooth/block-commit"@,
            last_commit(events@) == last_commit(events@.take(i as int)),
        decreases i,
    {
        i = i - 1;
        assert(events@.take(i + 1).drop_last() =~= events@.take(i as int));
        if events[i].event_type == commit {
            return block_from_event(&events[i]);
        }
    }
    Err(EventError::NoBlock)
}

/// Which decoder, if any, a state-change address selects.
#[derive(Clone, Copy, Debug, PartialEq, Eq, Structural)]
pub enum AddressKind {
    /// Outside both namespaces: the change is passed over.
    Foreign,
    /// An agent list.
    Agents,
    /// An organization list.
    Organizations,
    /// Inside a namespace, of no kind known here: the batch fails.
    Unknown,
}

/// `s` begins with `p`.
pub open spec fn starts_with(s: Seq<char>, p: Seq<char>) -> bool {
    p.len() <= s.len() && s.subrange(0, p.len() as int) == p
}

/// The kind of an address. `cad11d` is the namespace of agents and
/// organizations, `621dee` that of products; only agent lists (`cad11d00`)
/// and organization lists (`cad11d01`) are decoded here.
pub open spec fn address_kind_of(a: Seq<char>) -> AddressKind {
    if !starts_with(a, "cad11d"@) && !starts_with(a, "621dee"@) {
        AddressKind::Foreign
    } else if starts_with(a, "cad11d00"@) {
        AddressKind::Agents
    } else if starts_with(a, "cad11d01"@) {
        AddressKind::Organizations
    } else {
        AddressKind::Unknown
    }
}

fn has_prefix(s: &str, p: &str) -> (r: bool)
    ensures
        r == starts_with(s@, p@),
{
    let n = p.unicode_len();
    if s.unicode_len() < n {
        return false;
    }
    let mut i: usize = 0;
    while i < n
        invariant
            n == p@.len(),
            n <= s@.len(),
            i <= n,
            forall|j: int| 0 <= j < i ==> s@[j] == p@[j],
        decreases n - i,
    {
        if s.get_char(i) != p.get_char(i) {
            assert(s@.subrange(0, n as int)[i as int] != p@[i as int]);
            return false;
        }
        i = i + 1;
    }
    assert(s@.subrange(0, n as int) =~= p@);
    true
}

/// Classifies a state-change address by its namespace and type prefix.
pub fn address_kind(address: &str) -> (r: AddressKind)
    ensures
        r == address_kind_of(address@),
{
    if !has_prefix(address, "cad11d") && !has_prefix(address, "621dee") {
        AddressKind::Foreign
    } else if has_prefix(address, "cad11d00") {
        AddressKind::Agents
    } else if has_prefix(address, "cad11d01") {
        AddressKind::Organizations
    } else {
        AddressKind::Unknown
    }
}

/// The stored version of an agent that a block starts.
pub open spec fn agent_record(e: AgentEntry, block_num: i64) -> NewAgent {
    NewAgent {
        public_key: e.public_key,
        org_id: e.org_id,
        active: e.active,
        roles: e.roles,
        metadata: e.metadata,
        start_block_num: block_num,
        end_block_num: MAX_BLOCK_NUM,
    }
}

/// The stored version of an organization that a block starts.
pub open spec fn organization_record(e: OrganizationEntry, block_num: i64) -> NewOrganization {
    NewOrganization {
        org_id: e.org_id,
        name: e.name,
        address: e.address,
        metadata: e.metadata,
        start_block_num: block_num,
        end_block_num: MAX_BLOCK_NUM,
    }
}

/// An insertion into the projection.
#[derive(Clone, Debug, PartialEq, Eq)]
pub enum DbOperation {
    InsertAgents(Vec<NewAgent>),
    InsertOrganizations(Vec<NewOrganization>),
}

/// An insertion, with the rows it stores.
pub enum DbOperationView {
    InsertAgents(Seq<NewAgent>),
    InsertOrganizations(Seq<NewOrganization>),
}

impl View for DbOperation {
    type V = DbOperationView;

    open spec fn view(&self) -> DbOperationView {
        match self {
            DbOperation::InsertAgents(v) => DbOperationView::InsertAgents(v@),
            DbOperation::InsertOrganizations(v) => DbOperationView::InsertOrganizations(v@),
        }
    }
}

/// Stamps each agent of a list with the block that starts its version.
pub fn agent_records(agents: Vec<AgentEntry>, block_num: i64) -> (r: Vec<NewAgent>)
    ensures
        r@ == agents@.map_values(|e: AgentEntry| agent_record(e, block_num)),
{
    let ghost all = agents@;
    let mut rest = agents;
    let mut r: Vec<NewAgent> = Vec::new();
    while rest.len() > 0
        invariant
            all.len() == r@.len() + rest@.len(),
            rest@ == all.skip(r@.len() as int),
            r@ == all.take(r@.len() as int).map_values(|e: AgentEntry| agent_record(e, block_num)),
        decreases rest@.len(),
    {
        let ghost k = r@.len() as int;
        let e = rest.remove(0);
        assert(all.skip(k).skip(1) =~= all.skip(k + 1));
        r.push(NewAgent {
            public_key: e.public_key,
            org_id: e.org_id,
            active: e.active,
            roles: e.roles,
            metadata: e.metadata,
            start_block_num: block_num,
            end_block_num: MAX_BLOCK_NUM,
        });
        assert(r@ =~= all.take(k + 1).map_values(|e: AgentEntry| agent_record(e, block_num)));
    }
    assert(all.take(all.len() as int) =~= all);
    r
}

/// Stamps each organization of a list with the block that starts its version.
pub fn organization_records(orgs: Vec<OrganizationEntry>, block_num: i64) -> (r: Vec<NewOrganization>)
    ensures
        r@ == orgs@.map_values(|e: OrganizationEntry| organization_record(e, block_num)),
{
    let ghost all = orgs@;
    let mut rest = orgs;
    let mut r: Vec<NewOrganization> = Vec::new();
    while rest.len() > 0
        invariant
            all.len() == r@.len() + rest@.len(),
            rest@ == all.skip(r@.len() as int),
            r@ == all.take(r@.len() as int).map_values(
                |e: OrganizationEntry| organization_record(e, block_num),
            ),
        decreases rest@.len(),
    {
        let ghost k = r@.len() as int;
        let e = rest.remove(0);
        assert(all.skip(k).skip(1) =~= all.skip(k + 1));
        r.push(NewOrganization {
            org_id: e.org_id,
            name: e.name,
            address: e.address,
            metadata: e.metadata,
            start_block_num: block_num,
            end_block_num: MAX_BLOCK_NUM,
        });
        assert(r@ =~= all.take(k + 1).map_values(
            |e: OrganizationEntry| organization_record(e, block_num),
        ));
    }
    assert(all.take(all.len() as int) =~= all);
    r
}

/// The insertion that a state change asks for, or why it asks for none.
pub open spec fn operation_of(c: StateChange, block_num: i64) -> Result<DbOperationView, EventErrorView> {
    match address_kind_of(c.address@) {
        AddressKind::Agents => match c.payload {
            Payload::Agents(list) => Ok(
                DbOperationView::InsertAgents(
                    list@.map_values(|e: AgentEntry| agent_record(e, block_num)),
                ),
            ),
            _ => Err(EventErrorView::MalformedPayload(c.address@)),
        },
        AddressKind::Organizations => match c.payload {
            Payload::Organizations(list) => Ok(
                DbOperationView::InsertOrganizations(
                    list@.map_values(|e: OrganizationEntry| organization_record(e, block_num)),
                ),
            ),
            _ => Err(EventErrorView::MalformedPayload(c.address@)),
        },
        _ => Err(EventErrorView::UnknownAddress(c.address@)),
    }
}

/// What a state change contributes to a batch: nothing when its address is
/// outside both namespaces.
pub open spec fn change_outcome(c: StateChange, block_num: i64) -> Option<
    Result<DbOperationView, EventErrorView>,
> {
    if address_kind_of(c.address@) == AddressKind::Foreign {
        None
    } else {
        Some(operation_of(c, block_num))
    }
}

/// The insertions of a sequence of state changes, in order; the first failing
/// change fails them all.
pub open spec fn batch_operations(cs: Seq<StateChange>, block_num: i64) -> Result<
    Seq<DbOperationView>,
    EventErrorView,
>
    decreases cs.len(),
{
    if cs.len() == 0 {
        Ok(Seq::empty())
    } else {
        match batch_operations(cs.drop_last(), block_num) {
            Err(e) => Err(e),
            Ok(ops) => match change_outcome(cs.last(), block_num) {
                None => Ok(ops),
                Some(Err(e)) => Err(e),
                Some(Ok(o)) => Ok(ops.push(o)),
            },
        }
    }
}

/// A result of one insertion, seen through the views.
pub open spec fn operation_outcome(r: Result<DbOperation, EventError>) -> Result<
    DbOperationView,
    EventErrorView,
> {
    match r {
        Ok(op) => Ok(op@),
        Err(e) => Err(e@),
    }
}

/// A result of a sequence of insertions, seen through the views.
pub open spec fn operations_outcome(r: Result<Vec<DbOperation>, EventError>) -> Result<
    Seq<DbOperationView>,
    EventErrorView,
> {
    match r {
        Ok(ops) => Ok(ops@.map_values(|o: DbOperation| o@)),
        Err(e) => Err(e@),
    }
}

/// A failed prefix fails every extension of it.
proof fn lemma_failure_persists(s: Seq<StateChange>, t: Seq<StateChange>, block_num: i64)
    requires
        batch_operations(s, block_num) is Err,
    ensures
        batch_operations(s + t, block_num) == batch_operations(s, block_num),
    decreases t.len(),
{
    if t.len() == 0 {
        assert(s + t =~= s);
    } else {
        lemma_failure_persists(s, t.drop_last(), block_num);
        assert((s + t).drop_last() =~= s + t.drop_last());
    }
}

/// Turns one state change into its insertion.
pub fn state_change_to_db_operation(change: StateChange, block_num: i64) -> (r: Result<
    DbOperation,
    EventError,
>)
    ensures
        operation_outcome(r) == operation_of(change, block_num),
        address_kind_of(change.address@) != AddressKind::Foreign && address_kind_of(
            change.address@,
        ) != AddressKind::Unknown ==> match change.payload {
            Payload::Malformed(msg) => r == Err::<DbOperation, EventError>(
                EventError::MalformedPayload(change.address, msg),
            ),
            _ => true,
        },
{
    match address_kind(change.address.as_str()) {
        AddressKind::Agents => match change.payload {
            Payload::Agents(list) => Ok(DbOperation::InsertAgents(agent_records(list, block_num))),
            Payload::Malformed(msg) => Err(EventError::MalformedPayload(change.address, msg)),
            _ => Err(EventError::MalformedPayload(change.address, "not an agent list".to_owned())),
        },
        AddressKind::Organizations => match change.payload {
            Payload::Organizations(list) => Ok(
                DbOperation::InsertOrganizations(organization_records(list, block_num)),
            ),
            Payload::Malformed(msg) => Err(EventError::MalformedPayload(change.address, msg)),
            _ => Err(
                EventError::MalformedPayload(change.address, "not an organization list".to_owned()),
            ),
        },
        _ => Err(EventError::UnknownAddress(change.address)),
    }
}

/// Turns a sequence of state changes into insertions, in order, passing over
/// those outside both namespaces.
pub fn state_changes_to_db_operations(changes: Vec<StateChange>, block_num: i64) -> (r: Result<
    Vec<DbOperation>,
    EventError,
>)
    ensures
        operations_outcome(r) == batch_operations(changes@, block_num),
{
    let ghost all = changes@;
    let mut rest = changes;
    let mut ops: Vec<DbOperation> = Vec::new();
    let total: usize = rest.len();
    let mut i: usize = 0;
    assert(all.take(0) =~= Seq::<StateChange>::empty());
    assert(ops@.map_values(|o: DbOperation| o@) =~= Seq::<DbOperationView>::empty());
    while rest.len() > 0
        invariant
            all.len() == i + rest@.len(),
            all.len() == total,
            all == changes@,
            rest@ == all.skip(i as int),
            batch_operations(all.take(i as int), block_num) == Ok::<
                Seq<DbOperationView>,
                EventErrorView,
            >(ops@.map_values(|o: DbOperation| o@)),
        decreases rest@.len(),
    {
        let c = rest.remove(0);
        assert(all.skip(i as int).skip(1) =~= all.skip(i + 1));
        assert(all.take(i + 1).drop_last() =~= all.take(i as int));
        let ghost done = all.take(i + 1);
        let ghost gc = c;
        assert(done.last() == gc);
        if address_kind(c.address.as_str()) != AddressKind::Foreign {
            match state_change_to_db_operation(c, block_num) {
                Ok(op) => {
                    let ghost before = ops@;
                    let ghost v = op@;
                    ops.push(op);
                    assert(ops@.map_values(|o: DbOperation| o@) =~= before.map_values(
                        |o: DbOperation| o@,
                    ).push(v));
                },
                Err(e) => {
                    proof {
                        assert(batch_operations(done, block_num) == Err::<
                            Seq<DbOperationView>,
                            EventErrorView,
                        >(e@));
                        lemma_failure_persists(done, all.skip(i + 1), block_num);
                        assert(done + all.skip(i + 1) =~= all);
                        assert(batch_operations(all, block_num) == Err::<
                            Seq<DbOperationView>,
                            EventErrorView,
                        >(e@));
                    }
                    return Err(e);
                },
            }
        }
        i = i + 1;
    }
    assert(all.take(i as int) =~= all);
    Ok(ops)
}

/// A state-delta notification.
pub open spec fn is_delta(e: Event) -> bool {
    e.event_type@ == "sawtooth/state-delta"@
}

/// The state changes that one event contributes: those of a state-delta
/// event whose data was a well-formed list.
pub open spec fn event_changes(e: Event) -> Seq<StateChange> {
    if is_delta(e) && e.state_changes is Some {
        e.state_changes->Some_0@
    } else {
        Seq::empty()
    }
}

/// The state changes of a batch, event after event.
pub open spec fn delta_changes(events: Seq<Event>) -> Seq<StateChange>
    decreases events.len(),
{
    if events.len() == 0 {
        Seq::empty()
    } else {
        delta_changes(events.drop_last()) + event_changes(events.last())
    }
}

/// The insertions that a batch asks for at the given height.
pub open spec fn batch_db_operations(events: Seq<Event>, block_num: i64) -> Result<
    Seq<DbOperationView>,
    EventErrorView,
> {
    batch_operations(delta_changes(events), block_num)
}

/// Gathers the state changes of the state-delta events of a batch, in order.
pub fn collect_state_changes(events: Vec<Event>) -> (r: Vec<StateChange>)
    ensures
        r@ == delta_changes(events@),
{
    let ghost all = events@;
    let delta = "sawtooth/state-delta".to_owned();
    let mut rest = events;
    let mut r: Vec<StateChange> = Vec::new();
    let total: usize = rest.len();
    let mut i: usize = 0;
    assert(all.take(0) =~= Seq::<Event>::empty());
    while rest.len() > 0
        invariant
            all == events@,
            all.len() == total,
            all.len() == i + rest@.len(),
            rest@ == all.skip(i as int),
            delta@ == "sawtooth/state-delta"@,
            r@ == delta_changes(all.take(i as int)),
        decreases rest@.len(),
    {
        let e = rest.remove(0);
        assert(all.skip(i as int).skip(1) =~= all.skip(i + 1));
        assert(all.take(i + 1).drop_last() =~= all.take(i as int));
        let ghost ge = e;
        let ghost before = r@;
        if e.event_type == delta {
            if let Some(mut changes) = e.state_changes {
                r.append(&mut changes);
            }
        }
        assert(r@ =~= before + event_changes(ge));
        i = i + 1;
    }
    assert(all.take(i as int) =~= all);
    r
}

/// The insertions that a batch asks for at the given height, in the order of
/// its events and of their state changes.
pub fn get_db_operations(events: Vec<Event>, block_num: i64) -> (r: Result<
    Vec<DbOperation>,
    EventError,
>)
    ensures
        operations_outcome(r) == batch_db_operations(events@, block_num),
{
    state_changes_to_db_operations(collect_state_changes(events), block_num)
}

/// The projection after a batch of events, or why the batch is rejected.
pub open spec fn handled(p: ProjectionView, events: Seq<Event>) -> Result<ProjectionView, EventErrorView> {
    match batch_block(events) {
        Err(e) => Err(e),
        Ok(b) => match batch_db_operations(events, b.block_num) {
            Err(e) => Err(e),
            Ok(ops) => Ok(applied_batch(p, b, ops)),
        },
    }
}

/// Keeps the projection up to date with the batches of events of the chain.
pub struct BlockEventHandler {
    pub projection: Projection,
}

impl BlockEventHandler {
    /// A handler that keeps the given projection.
    pub fn new(projection: Projection) -> (r: Self)
        ensures
            r.projection == projection,
    {
        Self { projection }
    }

    /// Applies a batch of events as one unit: either all of it takes effect,
    /// or, on an error, the projection is left exactly as it was.
    pub fn handle_events(&mut self, events: Vec<Event>) -> (r: Result<(), EventError>)
        ensures
            match handled(old(self).projection@, events@) {
                Ok(q) => r is Ok && final(self).projection@ == q,
                Err(e) => r is Err && r->Err_0@ == e && final(self).projection@ == old(
                    self,
                ).projection@,
            },
    {
        let block = match get_block(&events) {
            Ok(b) => b,
            Err(e) => return Err(e),
        };
        let ops = match get_db_operations(events, block.block_num) {
            Ok(ops) => ops,
            Err(e) => return Err(e),
        };
        self.projection.apply_batch(block, ops);
        Ok(())
    }
}

proof fn lemma_no_commit(events: Seq<Event>)
    requires
        forall|i: int| 0 <= i < events.len() ==> is_delta(#[trigger] events[i]),
    ensures
        last_commit(events) is None,
    decreases events.len(),
{
    reveal_strlit("sawtooth/state-delta");
    reveal_strlit("sawtooth/block-commit");
    if events.len() > 0 {
        assert(is_delta(events[events.len() - 1]));
        assert("sawtooth/state-delta"@[9] != "sawtooth/block-commit"@[9]);
        lemma_no_commit(events.drop_last());
    }
}

/// A batch whose events are all state-delta notifications holds no block and
/// is rejected.
pub proof fn lemma_no_commit_rejected(p: ProjectionView, events: Seq<Event>)
    requires
        forall|i: int| 0 <= i < events.len() ==> is_delta(#[trigger] events[i]),
    ensures
        handled(p, events) == Err::<ProjectionView, EventErrorView>(EventErrorView::NoBlock),
{
    lemma_no_commit(events);
}

/// A state change outside both namespaces is passed over: taking it out of a
/// batch changes neither its insertions nor its error.
pub proof fn lemma_foreign_change_ignored(
    s: Seq<StateChange>,
    c: StateChange,
    t: Seq<StateChange>,
    block_num: i64,
)
    requires
        address_kind_of(c.address@) == AddressKind::Foreign,
    ensures
        batch_operations(s.push(c) + t, block_num) == batch_operations(s + t, block_num),
    decreases t.len(),
{
    if t.len() == 0 {
        assert(s.push(c) + t =~= s.push(c));
        assert(s + t =~= s);
        assert(s.push(c).drop_last() =~= s);
    } else {
        lemma_foreign_change_ignored(s, c, t.drop_last(), block_num);
        assert((s.push(c) + t).drop_last() =~= s.push(c) + t.drop_last());
        assert((s + t).drop_last() =~= s + t.drop_last());
    }
}

/// One failing state change fails the whole sequence of changes, whatever
/// comes before or after it.
pub proof fn lemma_failing_change_fails(cs: Seq<StateChange>, k: int, block_num: i64)
    requires
        0 <= k < cs.len(),
        change_outcome(cs[k], block_num) matches Some(Err(_)),
    ensures
        batch_operations(cs, block_num) is Err,
{
    let head = cs.take(k + 1);
    assert(head.drop_last() =~= cs.take(k));
    assert(head.last() == cs[k]);
    assert(batch_operations(head, block_num) is Err);
    lemma_failure_persists(head, cs.skip(k + 1), block_num);
    assert(head + cs.skip(k + 1) =~= cs);
}

/// A batch with a failing state change, such as a payload that does not
/// decode, is rejected whole, even where changes before it succeed: neither
/// their rows nor the block are stored.
pub proof fn lemma_failing_change_rejected(p: ProjectionView, events: Seq<Event>, k: int)
    requires
        batch_block(events) is Ok,
        0 <= k < delta_changes(events).len(),
        change_outcome(delta_changes(events)[k], batch_block(events)->Ok_0.block_num) matches Some(
            Err(_),
        ),
    ensures
        handled(p, events) is Err,
{
    lemma_failing_change_fails(delta_changes(events), k, batch_block(events)->Ok_0.block_num);
}

/// A batch with a state change of unknown kind inside a namespace is rejected
/// whole: neither its insertions nor its block are stored.
pub proof fn lemma_unknown_address_rejected(p: ProjectionView, events: Seq<Event>, k: int)
    requires
        0 <= k < delta_changes(events).len(),
        address_kind_of(delta_changes(events)[k].address@) == AddressKind::Unknown,
    ensures
        handled(p, events) is Err,
{
    match batch_block(events) {
        Ok(b) => lemma_failing_change_fails(delta_changes(events), k, b.block_num),
        Err(_) => {},
    }
}

/// Each agent of a decoded list keeps its metadata entries, one stored entry
/// per decoded one and in the same order, each holding its single key.
pub proof fn lemma_metadata_kept(agents: Seq<AgentEntry>, block_num: i64, i: int)
    requires
        0 <= i < agents.len(),
    ensures
        agents.map_values(|e: AgentEntry| agent_record(e, block_num))[i].metadata@ == agents[i].metadata@,
{
}

} // verus!
