use grid_daemon::block::{
    address_kind, agent_records, get_block, get_db_operations, require_attr,
    state_change_to_db_operation, AddressKind, BlockEventHandler, DbOperation,
};
use grid_daemon::models::{
    AgentEntry, Block, Event, EventAttribute, EventError, Metadata, NewAgent, OrganizationEntry,
    Payload, StateChange, MAX_BLOCK_NUM,
};
use grid_daemon::store::{reconcile, Projection, Reconcile};

fn attr(key: &str, value: &str) -> EventAttribute {
    EventAttribute { key: key.to_string(), value: value.to_string() }
}

fn commit(block_id: &str, block_num: &str, state_root_hash: &str) -> Event {
    Event {
        event_type: "sawtooth/block-commit".to_string(),
        attributes: vec![
            attr("block_id", block_id),
            attr("block_num", block_num),
            attr("state_root_hash", state_root_hash),
        ],
        state_changes: None,
    }
}

fn delta(changes: Vec<StateChange>) -> Event {
    Event {
        event_type: "sawtooth/state-delta".to_string(),
        attributes: vec![],
        state_changes: Some(changes),
    }
}

fn address(prefix: &str) -> String {
    let mut a = prefix.to_string();
    while a.len() < 70 {
        a.push('0');
    }
    a
}

fn agent(public_key: &str, org_id: &str) -> AgentEntry {
    AgentEntry {
        public_key: public_key.to_string(),
        org_id: org_id.to_string(),
        active: true,
        roles: vec!["Admin".to_string()],
        metadata: vec![],
    }
}

fn agents_change(agents: Vec<AgentEntry>) -> StateChange {
    StateChange { address: address("cad11d00"), payload: Payload::Agents(agents) }
}

fn org(org_id: &str, name: &str) -> OrganizationEntry {
    OrganizationEntry {
        org_id: org_id.to_string(),
        name: name.to_string(),
        address: "addr".to_string(),
        metadata: vec![Metadata { key: "k".to_string(), value: "v".to_string() }],
    }
}

fn block(block_id: &str, block_num: i64) -> Block {
    Block { block_id: block_id.to_string(), block_num, state_root_hash: "R".to_string() }
}

fn stored_agent(public_key: &str, start: i64, end: i64) -> NewAgent {
    NewAgent {
        public_key: public_key.to_string(),
        org_id: "org1".to_string(),
        active: true,
        roles: vec![],
        metadata: vec![],
        start_block_num: start,
        end_block_num: end,
    }
}

#[test]
fn require_attr_takes_first_match() {
    let attrs = vec![attr("a", "1"), attr("b", "2"), attr("a", "3")];
    assert_eq!(require_attr(&attrs, "a"), Ok("1".to_string()));
    assert_eq!(require_attr(&attrs, "b"), Ok("2".to_string()));
}

#[test]
fn require_attr_names_missing_key() {
    let attrs = vec![attr("a", "1")];
    assert_eq!(require_attr(&attrs, "c"), Err(EventError::MissingAttribute("c".to_string())));
}

#[test]
fn get_block_reads_commit() {
    let events = vec![commit("B1", "12", "R1")];
    assert_eq!(
        get_block(&events),
        Ok(Block { block_id: "B1".to_string(), block_num: 12, state_root_hash: "R1".to_string() })
    );
}

#[test]
fn get_block_last_commit_wins() {
    let events = vec![commit("B1", "not a number", "R1"), delta(vec![]), commit("B2", "-7", "R2")];
    let b = get_block(&events).unwrap();
    assert_eq!(b.block_id, "B2");
    assert_eq!(b.block_num, -7);
    assert_eq!(b.state_root_hash, "R2");
}

#[test]
fn get_block_accepts_plus_sign() {
    let events = vec![commit("B1", "+42", "R1")];
    assert_eq!(get_block(&events).unwrap().block_num, 42);
}

#[test]
fn get_block_rejects_bad_number() {
    for bad in ["12a", "", "-", "+", "9223372036854775808", " 1"] {
        let events = vec![commit("B1", bad, "R1")];
        assert!(matches!(get_block(&events), Err(EventError::InvalidBlockNum(_))), "{}", bad);
    }
    let events = vec![commit("B1", "-9223372036854775808", "R1")];
    assert_eq!(get_block(&events).unwrap().block_num, i64::MIN);
}

#[test]
fn get_block_missing_attribute() {
    let mut e = commit("B1", "1", "R1");
    e.attributes.remove(2);
    assert_eq!(
        get_block(&vec![e]),
        Err(EventError::MissingAttribute("state_root_hash".to_string()))
    );
    let mut e = commit("B1", "1", "R1");
    e.attributes.remove(0);
    assert_eq!(get_block(&vec![e]), Err(EventError::MissingAttribute("block_id".to_string())));
}

#[test]
fn get_block_without_commit() {
    assert_eq!(get_block(&vec![]), Err(EventError::NoBlock));
    assert_eq!(get_block(&vec![delta(vec![])]), Err(EventError::NoBlock));
}

#[test]
fn address_kinds() {
    assert_eq!(address_kind(&address("cad11d00")), AddressKind::Agents);
    assert_eq!(address_kind(&address("cad11d01")), AddressKind::Organizations);
    assert_eq!(address_kind(&address("cad11d02")), AddressKind::Unknown);
    assert_eq!(address_kind(&address("621dee01")), AddressKind::Unknown);
    assert_eq!(address_kind(&address("000000")), AddressKind::Foreign);
    assert_eq!(address_kind("cad11"), AddressKind::Foreign);
    assert_eq!(address_kind("cad11d0"), AddressKind::Unknown);
}

#[test]
fn agent_records_stamp_height() {
    let rows = agent_records(vec![agent("02ab", "org1"), agent("03cd", "org2")], 5);
    assert_eq!(rows.len(), 2);
    assert_eq!(rows[1].public_key, "03cd");
    assert_eq!(rows[1].org_id, "org2");
    assert_eq!(rows[0].start_block_num, 5);
    assert_eq!(rows[0].end_block_num, MAX_BLOCK_NUM);
}

#[test]
fn metadata_entries_stay_separate() {
    let mut a = agent("02ab", "org1");
    a.metadata = vec![
        Metadata { key: "color".to_string(), value: "red".to_string() },
        Metadata { key: "size".to_string(), value: "M".to_string() },
    ];
    let rows = agent_records(vec![a], 3);
    assert_eq!(rows[0].metadata.len(), 2);
    assert_eq!(rows[0].metadata[0], Metadata { key: "color".to_string(), value: "red".to_string() });
    assert_eq!(rows[0].metadata[1], Metadata { key: "size".to_string(), value: "M".to_string() });
}

#[test]
fn organization_change_becomes_insert() {
    let change = StateChange {
        address: address("cad11d01"),
        payload: Payload::Organizations(vec![org("org1", "Org One")]),
    };
    match state_change_to_db_operation(change, 9).unwrap() {
        DbOperation::InsertOrganizations(rows) => {
            assert_eq!(rows.len(), 1);
            assert_eq!(rows[0].name, "Org One");
            assert_eq!(rows[0].metadata.len(), 1);
            assert_eq!(rows[0].start_block_num, 9);
            assert_eq!(rows[0].end_block_num, MAX_BLOCK_NUM);
        },
        other => panic!("unexpected {:?}", other),
    }
}

#[test]
fn mismatched_payload_is_malformed() {
    let change = StateChange { address: address("cad11d01"), payload: Payload::Undecoded };
    assert!(matches!(
        state_change_to_db_operation(change, 1),
        Err(EventError::MalformedPayload(_, _))
    ));
    let change = StateChange {
        address: address("cad11d00"),
        payload: Payload::Malformed("bad bytes".to_string()),
    };
    assert_eq!(
        state_change_to_db_operation(change, 1),
        Err(EventError::MalformedPayload(address("cad11d00"), "bad bytes".to_string()))
    );
}

#[test]
fn foreign_changes_are_skipped() {
    let events = vec![
        commit("B1", "1", "R1"),
        delta(vec![
            StateChange { address: address("abcdef00"), payload: Payload::Undecoded },
            agents_change(vec![agent("02ab", "org1")]),
        ]),
    ];
    let ops = get_db_operations(events, 1).unwrap();
    assert_eq!(ops.len(), 1);
    let mut h = BlockEventHandler::new(Projection::new());
    let events = vec![
        commit("B1", "1", "R1"),
        delta(vec![StateChange { address: address("abcdef00"), payload: Payload::Undecoded }]),
    ];
    assert_eq!(h.handle_events(events), Ok(()));
    assert_eq!(h.projection.blocks.len(), 1);
    assert!(h.projection.agents.is_empty());
    assert!(h.projection.organizations.is_empty());
}

#[test]
fn undecodable_envelope_is_skipped() {
    let mut bad = delta(vec![]);
    bad.state_changes = None;
    let events = vec![bad, delta(vec![agents_change(vec![agent("02ab", "org1")])])];
    assert_eq!(get_db_operations(events, 2).unwrap().len(), 1);
}

#[test]
fn no_commit_event_is_rejected() {
    let mut h = BlockEventHandler::new(Projection::new());
    let events = vec![delta(vec![agents_change(vec![agent("02ab", "org1")])])];
    assert_eq!(h.handle_events(events), Err(EventError::NoBlock));
    assert!(h.projection.blocks.is_empty());
    assert!(h.projection.agents.is_empty());
    assert!(h.projection.organizations.is_empty());
}

#[test]
fn unknown_address_rejects_batch() {
    let mut h = BlockEventHandler::new(Projection::new());
    let events = vec![
        commit("B1", "3", "R1"),
        delta(vec![
            agents_change(vec![agent("02ab", "org1")]),
            StateChange { address: address("cad11d02"), payload: Payload::Undecoded },
        ]),
    ];
    assert_eq!(h.handle_events(events), Err(EventError::UnknownAddress(address("cad11d02"))));
    assert_eq!(h.projection, Projection::new());
}

#[test]
fn happy_path() {
    let mut h = BlockEventHandler::new(Projection::new());
    let events = vec![
        commit("B1", "12", "R1"),
        delta(vec![agents_change(vec![agent("02ab", "org1")])]),
    ];
    assert_eq!(h.handle_events(events), Ok(()));
    assert_eq!(
        h.projection.blocks,
        vec![Block { block_id: "B1".to_string(), block_num: 12, state_root_hash: "R1".to_string() }]
    );
    assert_eq!(
        h.projection.agents,
        vec![NewAgent {
            public_key: "02ab".to_string(),
            org_id: "org1".to_string(),
            active: true,
            roles: vec!["Admin".to_string()],
            metadata: vec![],
            start_block_num: 12,
            end_block_num: MAX_BLOCK_NUM,
        }]
    );
}

#[test]
fn fork_replaces_block_and_versions() {
    let mut h = BlockEventHandler::new(Projection::new());
    let first = vec![commit("B0", "9", "R0"), delta(vec![agents_change(vec![agent("01aa", "org0")])])];
    assert_eq!(h.handle_events(first), Ok(()));
    let a = vec![commit("B1", "10", "RA"), delta(vec![agents_change(vec![agent("02ab", "org1")])])];
    assert_eq!(h.handle_events(a), Ok(()));
    assert_eq!(h.projection.agents.len(), 2);
    let b = vec![commit("B2", "10", "RB"), delta(vec![agents_change(vec![agent("03cd", "org2")])])];
    assert_eq!(h.handle_events(b), Ok(()));
    assert!(h.projection.blocks.iter().all(|b| b.block_id != "B1"));
    assert_eq!(h.projection.blocks.len(), 2);
    assert_eq!(h.projection.blocks[1].block_id, "B2");
    assert_eq!(h.projection.blocks[1].block_num, 10);
    assert_eq!(h.projection.agents.len(), 2);
    assert_eq!(h.projection.agents[0].public_key, "01aa");
    assert_eq!(h.projection.agents[1].public_key, "03cd");
    assert_eq!(h.projection.agents[1].start_block_num, 10);
}

#[test]
fn duplicate_delivery_changes_nothing() {
    let mut h = BlockEventHandler::new(Projection::new());
    let batch = || vec![commit("B1", "4", "R1"), delta(vec![agents_change(vec![agent("02ab", "org1")])])];
    assert_eq!(h.handle_events(batch()), Ok(()));
    let before = h.projection.clone();
    assert_eq!(h.handle_events(batch()), Ok(()));
    assert_eq!(h.projection, before);
}

#[test]
fn failed_batch_leaves_projection_unchanged() {
    let mut h = BlockEventHandler::new(Projection::new());
    assert_eq!(h.handle_events(vec![commit("B0", "1", "R0")]), Ok(()));
    let before = h.projection.clone();
    let events = vec![
        commit("B1", "2", "R1"),
        delta(vec![
            agents_change(vec![agent("02ab", "org1")]),
            StateChange {
                address: address("cad11d01"),
                payload: Payload::Malformed("truncated".to_string()),
            },
        ]),
    ];
    assert!(matches!(h.handle_events(events), Err(EventError::MalformedPayload(_, _))));
    assert_eq!(h.projection, before);
}

#[test]
fn resolve_fork_reopens_closed_versions() {
    let mut p = Projection::new();
    p.insert_block(block("B5", 5));
    p.insert_block(block("B6", 6));
    p.insert_block(block("B7", 7));
    p.insert_agents(vec![stored_agent("a", 5, 6), stored_agent("b", 6, MAX_BLOCK_NUM), stored_agent("c", 4, 5)]);
    p.resolve_fork(6);
    assert_eq!(p.blocks, vec![block("B5", 5)]);
    assert_eq!(p.agents, vec![stored_agent("a", 5, MAX_BLOCK_NUM), stored_agent("c", 4, 5)]);
}

#[test]
fn lookup_block_finds_height() {
    let mut p = Projection::new();
    p.insert_block(block("B5", 5));
    p.insert_block(block("B6", 6));
    assert_eq!(p.lookup_block(6), Some(&block("B6", 6)));
    assert_eq!(p.lookup_block(7), None);
}

#[test]
fn execute_inserts_organizations() {
    let mut p = Projection::new();
    DbOperation::InsertOrganizations(vec![]).execute(&mut p);
    let op = state_change_to_db_operation(
        StateChange {
            address: address("cad11d01"),
            payload: Payload::Organizations(vec![org("o1", "One"), org("o2", "Two")]),
        },
        3,
    )
    .unwrap();
    op.execute(&mut p);
    assert_eq!(p.organizations.len(), 2);
    assert_eq!(p.organizations[1].org_id, "o2");
}

#[test]
fn new_version_ends_open_version() {
    let mut h = BlockEventHandler::new(Projection::new());
    let batch = |id: &str, num: &str| vec![commit(id, num, "R"), delta(vec![agents_change(vec![agent("k", "org1")])])];
    assert_eq!(h.handle_events(batch("B1", "1")), Ok(()));
    assert_eq!(h.handle_events(batch("B2", "2")), Ok(()));
    assert_eq!(h.projection.agents.len(), 2);
    assert_eq!(h.projection.agents[0].start_block_num, 1);
    assert_eq!(h.projection.agents[0].end_block_num, 2);
    assert_eq!(h.projection.agents[1].start_block_num, 2);
    assert_eq!(h.projection.agents[1].end_block_num, MAX_BLOCK_NUM);
}

#[test]
fn other_keys_stay_open() {
    let mut p = Projection::new();
    p.insert_agents(vec![stored_agent("a", 1, MAX_BLOCK_NUM), stored_agent("b", 1, MAX_BLOCK_NUM)]);
    p.insert_agents(vec![stored_agent("a", 3, MAX_BLOCK_NUM)]);
    assert_eq!(
        p.agents,
        vec![stored_agent("a", 1, 3), stored_agent("b", 1, MAX_BLOCK_NUM), stored_agent("a", 3, MAX_BLOCK_NUM)]
    );
}

#[test]
fn fork_with_new_version_keeps_old_closed() {
    let mut h = BlockEventHandler::new(Projection::new());
    let batch = |id: &str, num: &str| vec![commit(id, num, "R"), delta(vec![agents_change(vec![agent("k", "org1")])])];
    assert_eq!(h.handle_events(batch("B5", "5")), Ok(()));
    assert_eq!(h.handle_events(batch("B10", "10")), Ok(()));
    assert_eq!(h.handle_events(batch("C10", "10")), Ok(()));
    let open: Vec<_> = h.projection.agents.iter().filter(|a| a.end_block_num == MAX_BLOCK_NUM).collect();
    assert_eq!(open.len(), 1);
    assert_eq!(h.projection.agents.len(), 2);
    assert_eq!(h.projection.agents[0].start_block_num, 5);
    assert_eq!(h.projection.agents[0].end_block_num, 10);
    assert_eq!(h.projection.agents[1].start_block_num, 10);
    assert_eq!(h.projection.blocks.iter().map(|b| b.block_id.as_str()).collect::<Vec<_>>(), vec!["B5", "C10"]);
}

#[test]
fn fork_without_new_version_reopens() {
    let mut h = BlockEventHandler::new(Projection::new());
    let batch = |id: &str, num: &str| vec![commit(id, num, "R"), delta(vec![agents_change(vec![agent("k", "org1")])])];
    assert_eq!(h.handle_events(batch("B5", "5")), Ok(()));
    assert_eq!(h.handle_events(batch("B10", "10")), Ok(()));
    assert_eq!(h.handle_events(vec![commit("C10", "10", "R")]), Ok(()));
    assert_eq!(h.projection.agents.len(), 1);
    assert_eq!(h.projection.agents[0].start_block_num, 5);
    assert_eq!(h.projection.agents[0].end_block_num, MAX_BLOCK_NUM);
}

#[test]
fn reconcile_decisions() {
    let b = block("B1", 4);
    assert_eq!(reconcile(None, &b), Reconcile::New);
    assert_eq!(reconcile(Some(&block("B1", 4)), &b), Reconcile::Duplicate);
    assert_eq!(reconcile(Some(&block("B0", 4)), &b), Reconcile::Fork);
}
