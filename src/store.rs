use vstd::prelude::*;

use crate::block::{
    batch_block, batch_db_operations, batch_operations, change_outcome, handled, DbOperation,
    DbOperationView,
};
use crate::models::Event;
use crate::versions::{
    agent_history, agents_versioned, end_agent_versions, end_organization_versions,
    lemma_agents_versioned_history, lemma_agents_versioned_starts,
    lemma_organizations_versioned_history, lemma_organizations_versioned_starts,
    lemma_agent_history_one_open, lemma_organization_history_one_open, one_open_agent,
    one_open_organization, organization_history, organizations_versioned,
};
use crate::versions::{same_agent, same_organization};
use crate::models::{Block, NewAgent, NewOrganization, StateChange, MAX_BLOCK_NUM};

verus! {

/// The relational projection: the accepted blocks and the versions of every
/// agent and organization.
#[derive(Clone, Debug, PartialEq, Eq)]
pub struct Projection {
    pub blocks: Vec<Block>,
    pub agents: Vec<NewAgent>,
    pub organizations: Vec<NewOrganization>,
}

/// The contents of a projection, row by row in the order they were stored.
pub struct ProjectionView {
    pub blocks: Seq<Block>,
    pub agents: Seq<NewAgent>,
    pub organizations: Seq<NewOrganization>,
}

impl View for Projection {
    type V = ProjectionView;

    open spec fn view(&self) -> ProjectionView {
        ProjectionView {
            blocks: self.blocks@,
            agents: self.agents@,
            organizations: self.organizations@,
        }
    }
}

/// The first stored block at a height.
pub open spec fn find_block(blocks: Seq<Block>, block_num: i64) -> Option<Block>
    decreases blocks.len(),
{
    if blocks.len() == 0 {
        None
    } else if blocks[0].block_num == block_num {
        Some(blocks[0])
    } else {
        find_block(blocks.skip(1), block_num)
    }
}

/// The blocks below a height.
pub open spec fn blocks_below(blocks: Seq<Block>, block_num: i64) -> Seq<Block>
    decreases blocks.len(),
{
    if blocks.len() == 0 {
        blocks
    } else if blocks.last().block_num < block_num {
        blocks_below(blocks.drop_last(), block_num).push(blocks.last())
    } else {
        blocks_below(blocks.drop_last(), block_num)
    }
}

/// An agent version as it stands once every block from `block_num` up is
/// retracted: a version that those blocks had closed is open again.
pub open spec fn reopened_agent(a: NewAgent, block_num: i64) -> NewAgent {
    if a.end_block_num >= block_num {
        NewAgent { end_block_num: MAX_BLOCK_NUM, ..a }
    } else {
        a
    }
}

pub open spec fn reopened_organization(o: NewOrganization, block_num: i64) -> NewOrganization {
    if o.end_block_num >= block_num {
        NewOrganization { end_block_num: MAX_BLOCK_NUM, ..o }
    } else {
        o
    }
}

/// The agent versions that began below a height, reopened where needed.
pub open spec fn agents_below(rows: Seq<NewAgent>, block_num: i64) -> Seq<NewAgent>
    decreases rows.len(),
{
    if rows.len() == 0 {
        rows
    } else if rows.last().start_block_num < block_num {
        agents_below(rows.drop_last(), block_num).push(reopened_agent(rows.last(), block_num))
    } else {
        agents_below(rows.drop_last(), block_num)
    }
}

/// The organization versions that began below a height, reopened where needed.
pub open spec fn organizations_below(rows: Seq<NewOrganization>, block_num: i64) -> Seq<
    NewOrganization,
>
    decreases rows.len(),
{
    if rows.len() == 0 {
        rows
    } else if rows.last().start_block_num < block_num {
        organizations_below(rows.drop_last(), block_num).push(
            reopened_organization(rows.last(), block_num),
        )
    } else {
        organizations_below(rows.drop_last(), block_num)
    }
}

/// The projection once every block from `block_num` up is retracted.
pub open spec fn forked(p: ProjectionView, block_num: i64) -> ProjectionView {
    ProjectionView {
        blocks: blocks_below(p.blocks, block_num),
        agents: agents_below(p.agents, block_num),
        organizations: organizations_below(p.organizations, block_num),
    }
}

/// The projection after one insertion: each new version is stored after
/// the others and ends the version of its key that was in effect at its start.
pub open spec fn applied_operation(p: ProjectionView, op: DbOperationView) -> ProjectionView {
    match op {
        DbOperationView::InsertAgents(rows) => ProjectionView {
            agents: agents_versioned(p.agents, rows),
            ..p
        },
        DbOperationView::InsertOrganizations(rows) => ProjectionView {
            organizations: organizations_versioned(p.organizations, rows),
            ..p
        },
    }
}

/// The projection after a sequence of insertions, in order.
pub open spec fn applied_operations(p: ProjectionView, ops: Seq<DbOperationView>) -> ProjectionView
    decreases ops.len(),
{
    if ops.len() == 0 {
        p
    } else {
        applied_operation(applied_operations(p, ops.drop_last()), ops.last())
    }
}

/// How a batch's block stands against the block stored at its height.
#[derive(Clone, Copy, Debug, PartialEq, Eq, Structural)]
pub enum Reconcile {
    /// No block is stored at that height: a new tip.
    New,
    /// The same block is stored: a repeated delivery, passed over whole.
    Duplicate,
    /// Another block is stored: a fork, retracted before the batch applies.
    Fork,
}

/// What a batch with block `incoming` does, given the block stored at its height.
pub open spec fn reconcile_of(stored: Option<Block>, incoming: Block) -> Reconcile {
    match stored {
        None => Reconcile::New,
        Some(s) => if s.block_id@ == incoming.block_id@ {
            Reconcile::Duplicate
        } else {
            Reconcile::Fork
        },
    }
}

/// Decides what a batch with block `incoming` does, given the block stored at
/// its height, if any.
pub fn reconcile(stored: Option<&Block>, incoming: &Block) -> (r: Reconcile)
    ensures
        r == reconcile_of(
            match stored {
                Some(s) => Some(*s),
                None => None,
            },
            *incoming,
        ),
{
    match stored {
        None => Reconcile::New,
        Some(s) => if s.block_id == incoming.block_id {
            Reconcile::Duplicate
        } else {
            Reconcile::Fork
        },
    }
}

/// The projection after a batch with block `b` and insertions `ops`. A block
/// already stored under the same id at that height is a repeated delivery and
/// changes nothing; one under another id is a fork, retracted first.
pub open spec fn applied_batch(p: ProjectionView, b: Block, ops: Seq<DbOperationView>) -> ProjectionView {
    match find_block(p.blocks, b.block_num) {
        Some(s) => if s.block_id@ == b.block_id@ {
            p
        } else {
            let q = applied_operations(forked(p, b.block_num), ops);
            ProjectionView { blocks: q.blocks.push(b), ..q }
        },
        None => {
            let q = applied_operations(p, ops);
            ProjectionView { blocks: q.blocks.push(b), ..q }
        },
    }
}

fn keep_blocks_below(blocks: Vec<Block>, block_num: i64) -> (r: Vec<Block>)
    ensures
        r@ == blocks_below(blocks@, block_num),
{
    let ghost all = blocks@;
    let mut rest = blocks;
    let mut r: Vec<Block> = Vec::new();
    let total: usize = rest.len();
    let mut i: usize = 0;
    assert(all.take(0) =~= Seq::<Block>::empty());
    while rest.len() > 0
        invariant
            all == blocks@,
            all.len() == total,
            all.len() == i + rest@.len(),
            rest@ == all.skip(i as int),
            r@ == blocks_below(all.take(i as int), block_num),
        decreases rest@.len(),
    {
        let b = rest.remove(0);
        assert(all.skip(i as int).skip(1) =~= all.skip(i + 1));
        assert(all.take(i + 1).drop_last() =~= all.take(i as int));
        if b.block_num < block_num {
            r.push(b);
        }
        i = i + 1;
    }
    assert(all.take(i as int) =~= all);
    r
}

fn keep_agents_below(rows: Vec<NewAgent>, block_num: i64) -> (r: Vec<NewAgent>)
    ensures
        r@ == agents_below(rows@, block_num),
{
    let ghost all = rows@;
    let mut rest = rows;
    let mut r: Vec<NewAgent> = Vec::new();
    let total: usize = rest.len();
    let mut i: usize = 0;
    assert(all.take(0) =~= Seq::<NewAgent>::empty());
    while rest.len() > 0
        invariant
            all == rows@,
            all.len() == total,
            all.len() == i + rest@.len(),
            rest@ == all.skip(i as int),
            r@ == agents_below(all.take(i as int), block_num),
        decreases rest@.len(),
    {
        let mut a = rest.remove(0);
        assert(all.skip(i as int).skip(1) =~= all.skip(i + 1));
        assert(all.take(i + 1).drop_last() =~= all.take(i as int));
        if a.start_block_num < block_num {
            if a.end_block_num >= block_num {
                a.end_block_num = MAX_BLOCK_NUM;
            }
            r.push(a);
        }
        i = i + 1;
    }
    assert(all.take(i as int) =~= all);
    r
}

fn keep_organizations_below(rows: Vec<NewOrganization>, block_num: i64) -> (r: Vec<
    NewOrganization,
>)
    ensures
        r@ == organizations_below(rows@, block_num),
{
    let ghost all = rows@;
    let mut rest = rows;
    let mut r: Vec<NewOrganization> = Vec::new();
    let total: usize = rest.len();
    let mut i: usize = 0;
    assert(all.take(0) =~= Seq::<NewOrganization>::empty());
    while rest.len() > 0
        invariant
            all == rows@,
            all.len() == total,
            all.len() == i + rest@.len(),
            rest@ == all.skip(i as int),
            r@ == organizations_below(all.take(i as int), block_num),
        decreases rest@.len(),
    {
        let mut o = rest.remove(0);
        assert(all.skip(i as int).skip(1) =~= all.skip(i + 1));
        assert(all.take(i + 1).drop_last() =~= all.take(i as int));
        if o.start_block_num < block_num {
            if o.end_block_num >= block_num {
                o.end_block_num = MAX_BLOCK_NUM;
            }
            r.push(o);
        }
        i = i + 1;
    }
    assert(all.take(i as int) =~= all);
    r
}

impl Projection {
    /// An empty projection.
    pub fn new() -> (r: Projection)
        ensures
            r@.blocks.len() == 0,
            r@.agents.len() == 0,
            r@.organizations.len() == 0,
            well_formed(r@),
    {
        Projection { blocks: Vec::new(), agents: Vec::new(), organizations: Vec::new() }
    }

    /// The stored block at a height, if any.
    pub fn lookup_block(&self, block_num: i64) -> (r: Option<&Block>)
        ensures
            match r {
                Some(b) => find_block(self@.blocks, block_num) == Some(*b),
                None => find_block(self@.blocks, block_num) is None,
            },
    {
        let mut i: usize = 0;
        assert(self.blocks@.skip(0) =~= self.blocks@);
        while i < self.blocks.len()
            invariant
                i <= self.blocks@.len(),
                find_block(self.blocks@, block_num) == find_block(
                    self.blocks@.skip(i as int),
                    block_num,
                ),
            decreases self.blocks@.len() - i,
        {
            assert(self.blocks@.skip(i as int).skip(1) =~= self.blocks@.skip(i + 1));
            if self.blocks[i].block_num == block_num {
                return Some(&self.blocks[i]);
            }
            i = i + 1;
        }
        None
    }

    /// Retracts every block from `block_num` up and the versions they began,
    /// and reopens the versions that they had closed.
    pub fn resolve_fork(&mut self, block_num: i64)
        ensures
            final(self)@ == forked(old(self)@, block_num),
    {
        let mut blocks: Vec<Block> = Vec::new();
        let mut agents: Vec<NewAgent> = Vec::new();
        let mut organizations: Vec<NewOrganization> = Vec::new();
        std::mem::swap(&mut blocks, &mut self.blocks);
        std::mem::swap(&mut agents, &mut self.agents);
        std::mem::swap(&mut organizations, &mut self.organizations);
        self.blocks = keep_blocks_below(blocks, block_num);
        self.agents = keep_agents_below(agents, block_num);
        self.organizations = keep_organizations_below(organizations, block_num);
    }

    /// Stores a block.
    pub fn insert_block(&mut self, block: Block)
        ensures
            final(self)@ == (ProjectionView { blocks: old(self)@.blocks.push(block), ..old(self)@ }),
    {
        self.blocks.push(block);
    }

    /// Stores agent versions one after another; each ends the version of its
    /// key that was in effect at its start.
    pub fn insert_agents(&mut self, rows: Vec<NewAgent>)
        ensures
            final(self)@ == (ProjectionView {
                agents: agents_versioned(old(self)@.agents, rows@),
                ..old(self)@
            }),
    {
        let ghost start = self@;
        let ghost all = rows@;
        let mut rest = rows;
        let total: usize = rest.len();
        let mut i: usize = 0;
        assert(all.take(0) =~= Seq::<NewAgent>::empty());
        while rest.len() > 0
            invariant
                all == rows@,
                all.len() == total,
                all.len() == i + rest@.len(),
                rest@ == all.skip(i as int),
                self@ == (ProjectionView { agents: agents_versioned(start.agents, all.take(i as int)), ..start }),
            decreases rest@.len(),
        {
            let r = rest.remove(0);
            assert(all.skip(i as int).skip(1) =~= all.skip(i + 1));
            assert(all.take(i + 1).drop_last() =~= all.take(i as int));
            let mut current: Vec<NewAgent> = Vec::new();
            std::mem::swap(&mut current, &mut self.agents);
            self.agents = end_agent_versions(current, &r);
            self.agents.push(r);
            i = i + 1;
        }
        assert(all.take(i as int) =~= all);
    }

    /// Stores organization versions one after another; each ends the version
    /// of its key that was in effect at its start.
    pub fn insert_organizations(&mut self, rows: Vec<NewOrganization>)
        ensures
            final(self)@ == (ProjectionView {
                organizations: organizations_versioned(old(self)@.organizations, rows@),
                ..old(self)@
            }),
    {
        let ghost start = self@;
        let ghost all = rows@;
        let mut rest = rows;
        let total: usize = rest.len();
        let mut i: usize = 0;
        assert(all.take(0) =~= Seq::<NewOrganization>::empty());
        while rest.len() > 0
            invariant
                all == rows@,
                all.len() == total,
                all.len() == i + rest@.len(),
                rest@ == all.skip(i as int),
                self@ == (ProjectionView {
                    organizations: organizations_versioned(start.organizations, all.take(i as int)),
                    ..start
                }),
            decreases rest@.len(),
        {
            let r = rest.remove(0);
            assert(all.skip(i as int).skip(1) =~= all.skip(i + 1));
            assert(all.take(i + 1).drop_last() =~= all.take(i as int));
            let mut current: Vec<NewOrganization> = Vec::new();
            std::mem::swap(&mut current, &mut self.organizations);
            self.organizations = end_organization_versions(current, &r);
            self.organizations.push(r);
            i = i + 1;
        }
        assert(all.take(i as int) =~= all);
    }
}

impl DbOperation {
    /// Performs the insertion on a projection.
    pub fn execute(self, store: &mut Projection)
        ensures
            final(store)@ == applied_operation(old(store)@, self@),
    {
        match self {
            DbOperation::InsertAgents(rows) => store.insert_agents(rows),
            DbOperation::InsertOrganizations(rows) => store.insert_organizations(rows),
        }
    }
}

impl Projection {
    /// Performs insertions in order.
    pub fn execute_all(&mut self, ops: Vec<DbOperation>)
        ensures
            final(self)@ == applied_operations(old(self)@, ops@.map_values(|o: DbOperation| o@)),
    {
        let ghost start = self@;
        let ghost all = ops@;
        let ghost views = ops@.map_values(|o: DbOperation| o@);
        let mut rest = ops;
        let total: usize = rest.len();
        let mut i: usize = 0;
        assert(views.take(0) =~= Seq::<DbOperationView>::empty());
        while rest.len() > 0
            invariant
                all == ops@,
                views == all.map_values(|o: DbOperation| o@),
                all.len() == total,
                all.len() == i + rest@.len(),
                rest@ == all.skip(i as int),
                self@ == applied_operations(start, views.take(i as int)),
            decreases rest@.len(),
        {
            let op = rest.remove(0);
            assert(all.skip(i as int).skip(1) =~= all.skip(i + 1));
            assert(views.take(i + 1).drop_last() =~= views.take(i as int));
            op.execute(self);
            i = i + 1;
        }
        assert(views.take(i as int) =~= views);
    }

    /// Applies a batch with its block and insertions. A block already stored
    /// under the same id at that height is a repeated delivery and is passed
    /// over whole; one under another id is a fork, retracted first.
    pub fn apply_batch(&mut self, block: Block, ops: Vec<DbOperation>)
        ensures
            final(self)@ == applied_batch(
                old(self)@,
                block,
                ops@.map_values(|o: DbOperation| o@),
            ),
    {
        match reconcile(self.lookup_block(block.block_num), &block) {
            Reconcile::Duplicate => return,
            Reconcile::Fork => self.resolve_fork(block.block_num),
            Reconcile::New => {},
        }
        self.execute_all(ops);
        self.insert_block(block);
    }
}

/// Every version that a sequence of insertions stores begins at `block_num`.
pub open spec fn starts_at(ops: Seq<DbOperationView>, block_num: i64) -> bool {
    forall|i: int|
        0 <= i < ops.len() ==> match #[trigger] ops[i] {
            DbOperationView::InsertAgents(rows) => forall|j: int|
                0 <= j < rows.len() ==> (#[trigger] rows[j]).start_block_num == block_num,
            DbOperationView::InsertOrganizations(rows) => forall|j: int|
                0 <= j < rows.len() ==> (#[trigger] rows[j]).start_block_num == block_num,
        }
}

proof fn lemma_batch_starts_at(cs: Seq<StateChange>, block_num: i64)
    requires
        batch_operations(cs, block_num) is Ok,
    ensures
        starts_at(batch_operations(cs, block_num)->Ok_0, block_num),
    decreases cs.len(),
{
    if cs.len() > 0 {
        lemma_batch_starts_at(cs.drop_last(), block_num);
        let prev = batch_operations(cs.drop_last(), block_num)->Ok_0;
        match change_outcome(cs.last(), block_num) {
            Some(Ok(o)) => {
                let ops = prev.push(o);
                assert forall|i: int| 0 <= i < ops.len() implies match #[trigger] ops[i] {
                    DbOperationView::InsertAgents(rows) => forall|j: int|
                        0 <= j < rows.len() ==> (#[trigger] rows[j]).start_block_num == block_num,
                    DbOperationView::InsertOrganizations(rows) => forall|j: int|
                        0 <= j < rows.len() ==> (#[trigger] rows[j]).start_block_num == block_num,
                } by {
                    if i < prev.len() {
                        assert(ops[i] == prev[i]);
                    }
                }
            },
            _ => {},
        }
    }
}

/// Insertions keep the blocks and the start of every stored version, add
/// versions after them only, and keep each key's history ordered.
proof fn lemma_insertions_append(p: ProjectionView, ops: Seq<DbOperationView>, block_num: i64)
    requires
        starts_at(ops, block_num),
    ensures
        applied_operations(p, ops).blocks == p.blocks,
        applied_operations(p, ops).agents.len() >= p.agents.len(),
        applied_operations(p, ops).organizations.len() >= p.organizations.len(),
        forall|i: int|
            0 <= i < p.agents.len() ==> (#[trigger] applied_operations(p, ops).agents[i]).start_block_num
                == p.agents[i].start_block_num,
        forall|i: int|
            p.agents.len() <= i < applied_operations(p, ops).agents.len() ==> (
            #[trigger] applied_operations(p, ops).agents[i]).start_block_num == block_num,
        forall|i: int|
            0 <= i < p.organizations.len() ==> (#[trigger] applied_operations(
                p,
                ops,
            ).organizations[i]).start_block_num == p.organizations[i].start_block_num,
        forall|i: int|
            p.organizations.len() <= i < applied_operations(p, ops).organizations.len() ==> (
            #[trigger] applied_operations(p, ops).organizations[i]).start_block_num == block_num,
        block_num < MAX_BLOCK_NUM && agent_history(p.agents) ==> agent_history(
            applied_operations(p, ops).agents,
        ),
        block_num < MAX_BLOCK_NUM && organization_history(p.organizations)
            ==> organization_history(applied_operations(p, ops).organizations),
    decreases ops.len(),
{
    if ops.len() > 0 {
        let prev = ops.drop_last();
        assert forall|i: int| 0 <= i < prev.len() implies match #[trigger] prev[i] {
            DbOperationView::InsertAgents(rows) => forall|j: int|
                0 <= j < rows.len() ==> (#[trigger] rows[j]).start_block_num == block_num,
            DbOperationView::InsertOrganizations(rows) => forall|j: int|
                0 <= j < rows.len() ==> (#[trigger] rows[j]).start_block_num == block_num,
        } by {
            assert(prev[i] == ops[i]);
        }
        lemma_insertions_append(p, prev, block_num);
        let q = applied_operations(p, prev);
        assert(ops.last() == ops[ops.len() - 1]);
        match ops.last() {
            DbOperationView::InsertAgents(rows) => {
                lemma_agents_versioned_starts(q.agents, rows);
                if block_num < MAX_BLOCK_NUM && agent_history(p.agents) {
                    lemma_agents_versioned_history(q.agents, rows);
                }
            },
            DbOperationView::InsertOrganizations(rows) => {
                lemma_organizations_versioned_starts(q.organizations, rows);
                if block_num < MAX_BLOCK_NUM && organization_history(p.organizations) {
                    lemma_organizations_versioned_history(q.organizations, rows);
                }
            },
        }
    }
}

proof fn lemma_below(p: ProjectionView, block_num: i64)
    ensures
        forall|i: int|
            0 <= i < forked(p, block_num).blocks.len() ==> (#[trigger] forked(
                p,
                block_num,
            ).blocks[i]).block_num < block_num,
        forall|i: int|
            0 <= i < forked(p, block_num).agents.len() ==> (#[trigger] forked(
                p,
                block_num,
            ).agents[i]).start_block_num < block_num,
        forall|i: int|
            0 <= i < forked(p, block_num).organizations.len() ==> (#[trigger] forked(
                p,
                block_num,
            ).organizations[i]).start_block_num < block_num,
{
    lemma_blocks_below(p.blocks, block_num);
    lemma_agents_below(p.agents, block_num);
    lemma_organizations_below(p.organizations, block_num);
}

proof fn lemma_blocks_below(s: Seq<Block>, block_num: i64)
    ensures
        forall|i: int|
            0 <= i < blocks_below(s, block_num).len() ==> (#[trigger] blocks_below(
                s,
                block_num,
            )[i]).block_num < block_num,
    decreases s.len(),
{
    if s.len() > 0 {
        lemma_blocks_below(s.drop_last(), block_num);
        let r = blocks_below(s, block_num);
        let prev = blocks_below(s.drop_last(), block_num);
        assert forall|i: int| 0 <= i < r.len() implies (#[trigger] r[i]).block_num < block_num by {
            if i < prev.len() {
                assert(r[i] == prev[i]);
            }
        }
    }
}

proof fn lemma_agents_below(s: Seq<NewAgent>, block_num: i64)
    ensures
        forall|i: int|
            0 <= i < agents_below(s, block_num).len() ==> (#[trigger] agents_below(
                s,
                block_num,
            )[i]).start_block_num < block_num,
    decreases s.len(),
{
    if s.len() > 0 {
        lemma_agents_below(s.drop_last(), block_num);
        let r = agents_below(s, block_num);
        let prev = agents_below(s.drop_last(), block_num);
        assert forall|i: int| 0 <= i < r.len() implies (#[trigger] r[i]).start_block_num < block_num by {
            if i < prev.len() {
                assert(r[i] == prev[i]);
            }
        }
    }
}

proof fn lemma_organizations_below(s: Seq<NewOrganization>, block_num: i64)
    ensures
        forall|i: int|
            0 <= i < organizations_below(s, block_num).len() ==> (#[trigger] organizations_below(
                s,
                block_num,
            )[i]).start_block_num < block_num,
    decreases s.len(),
{
    if s.len() > 0 {
        lemma_organizations_below(s.drop_last(), block_num);
        let r = organizations_below(s, block_num);
        let prev = organizations_below(s.drop_last(), block_num);
        assert forall|i: int| 0 <= i < r.len() implies (#[trigger] r[i]).start_block_num < block_num by {
            if i < prev.len() {
                assert(r[i] == prev[i]);
            }
        }
    }
}

/// When a batch brings a block at a height where another block is stored,
/// the new block replaces every block from that height up, and every agent or
/// organization version that begins at that height or above is one that this
/// batch stored: the versions of the retracted branch are gone.
pub proof fn lemma_fork_replaces_branch(p: ProjectionView, events: Seq<Event>)
    requires
        handled(p, events) is Ok,
        find_block(p.blocks, batch_block(events)->Ok_0.block_num) is Some,
        find_block(p.blocks, batch_block(events)->Ok_0.block_num)->Some_0.block_id@
            != batch_block(events)->Ok_0.block_id@,
    ensures
        ({
            let b = batch_block(events)->Ok_0;
            let q = handled(p, events)->Ok_0;
            let kept = forked(p, b.block_num);
            &&& q.blocks.len() == kept.blocks.len() + 1
            &&& q.blocks.last() == b
            &&& forall|i: int|
                0 <= i < q.blocks.len() - 1 ==> (#[trigger] q.blocks[i]).block_num < b.block_num
            &&& forall|i: int|
                0 <= i < q.agents.len() ==> ((#[trigger] q.agents[i]).start_block_num
                    < b.block_num) == (i < kept.agents.len())
            &&& forall|i: int|
                kept.agents.len() <= i < q.agents.len() ==> (#[trigger] q.agents[i]).start_block_num
                    == b.block_num
            &&& forall|i: int|
                0 <= i < q.organizations.len() ==> ((#[trigger] q.organizations[i]).start_block_num
                    < b.block_num) == (i < kept.organizations.len())
        }),
{
    let b = batch_block(events)->Ok_0;
    let ops = batch_db_operations(events, b.block_num)->Ok_0;
    let kept = forked(p, b.block_num);
    lemma_batch_starts_at(crate::block::delta_changes(events), b.block_num);
    lemma_insertions_append(kept, ops, b.block_num);
    lemma_below(p, b.block_num);
    let q = handled(p, events)->Ok_0;
    assert forall|i: int| 0 <= i < q.agents.len() implies ((#[trigger] q.agents[i]).start_block_num
        < b.block_num) == (i < kept.agents.len()) by {
        if i < kept.agents.len() {
            assert(q.agents[i].start_block_num == kept.agents[i].start_block_num);
        }
    }
    assert forall|i: int|
        0 <= i < q.organizations.len() implies ((#[trigger] q.organizations[i]).start_block_num
        < b.block_num) == (i < kept.organizations.len()) by {
        if i < kept.organizations.len() {
            assert(q.organizations[i].start_block_num == kept.organizations[i].start_block_num);
        }
    }
    assert forall|i: int| 0 <= i < q.blocks.len() - 1 implies (#[trigger] q.blocks[i]).block_num
        < b.block_num by {
        assert(q.blocks[i] == kept.blocks[i]);
    }
}

proof fn lemma_agents_below_bounded(s: Seq<NewAgent>, r: NewAgent, block_num: i64)
    requires
        r.start_block_num < block_num,
        forall|k: int|
            0 <= k < s.len() && same_agent(#[trigger] s[k], r) ==> s[k].end_block_num
                <= r.start_block_num,
    ensures
        forall|k: int|
            0 <= k < agents_below(s, block_num).len() && same_agent(
                #[trigger] agents_below(s, block_num)[k],
                r,
            ) ==> agents_below(s, block_num)[k].end_block_num <= r.start_block_num,
    decreases s.len(),
{
    if s.len() > 0 {
        lemma_agents_below_bounded(s.drop_last(), r, block_num);
        let out = agents_below(s, block_num);
        let prev = agents_below(s.drop_last(), block_num);
        assert(s.last() == s[s.len() - 1]);
        assert forall|k: int|
            0 <= k < out.len() && same_agent(#[trigger] out[k], r) implies out[k].end_block_num
            <= r.start_block_num by {
            if k < prev.len() {
                assert(out[k] == prev[k]);
            }
        }
    }
}

/// Retracting the versions from a height up keeps each key's history ordered.
proof fn lemma_agents_below_history(s: Seq<NewAgent>, block_num: i64)
    requires
        agent_history(s),
    ensures
        agent_history(agents_below(s, block_num)),
    decreases s.len(),
{
    if s.len() > 0 {
        let d = s.drop_last();
        assert forall|i: int, j: int|
            0 <= i < j < d.len() && same_agent(#[trigger] d[i], #[trigger] d[j]) implies d[i].end_block_num
            <= d[j].start_block_num by {
            assert(d[i] == s[i] && d[j] == s[j]);
        }
        lemma_agents_below_history(d, block_num);
        let last = s.last();
        assert(last == s[s.len() - 1]);
        if last.start_block_num < block_num {
            assert forall|k: int| 0 <= k < d.len() && same_agent(#[trigger] d[k], last) implies d[k].end_block_num
                <= last.start_block_num by {
                assert(d[k] == s[k]);
            }
            lemma_agents_below_bounded(d, last, block_num);
            let out = agents_below(s, block_num);
            let prev = agents_below(d, block_num);
            assert forall|i: int| 0 <= i < out.len() implies (#[trigger] out[i]).start_block_num
                < MAX_BLOCK_NUM by {
                if i < prev.len() {
                    assert(out[i] == prev[i]);
                }
            }
            assert forall|i: int, j: int|
                0 <= i < j < out.len() && same_agent(#[trigger] out[i], #[trigger] out[j]) implies out[i].end_block_num
                <= out[j].start_block_num by {
                assert(out[i] == prev[i]);
                if j < prev.len() {
                    assert(out[j] == prev[j]);
                }
            }
        }
    }
}

proof fn lemma_organizations_below_bounded(s: Seq<NewOrganization>, r: NewOrganization, block_num: i64)
    requires
        r.start_block_num < block_num,
        forall|k: int|
            0 <= k < s.len() && same_organization(#[trigger] s[k], r) ==> s[k].end_block_num
                <= r.start_block_num,
    ensures
        forall|k: int|
            0 <= k < organizations_below(s, block_num).len() && same_organization(
                #[trigger] organizations_below(s, block_num)[k],
                r,
            ) ==> organizations_below(s, block_num)[k].end_block_num <= r.start_block_num,
    decreases s.len(),
{
    if s.len() > 0 {
        lemma_organizations_below_bounded(s.drop_last(), r, block_num);
        let out = organizations_below(s, block_num);
        let prev = organizations_below(s.drop_last(), block_num);
        assert(s.last() == s[s.len() - 1]);
        assert forall|k: int|
            0 <= k < out.len() && same_organization(#[trigger] out[k], r) implies out[k].end_block_num
            <= r.start_block_num by {
            if k < prev.len() {
                assert(out[k] == prev[k]);
            }
        }
    }
}

/// Retracting the versions from a height up keeps each key's history ordered.
proof fn lemma_organizations_below_history(s: Seq<NewOrganization>, block_num: i64)
    requires
        organization_history(s),
    ensures
        organization_history(organizations_below(s, block_num)),
    decreases s.len(),
{
    if s.len() > 0 {
        let d = s.drop_last();
        assert forall|i: int, j: int|
            0 <= i < j < d.len() && same_organization(#[trigger] d[i], #[trigger] d[j]) implies d[i].end_block_num
            <= d[j].start_block_num by {
            assert(d[i] == s[i] && d[j] == s[j]);
        }
        lemma_organizations_below_history(d, block_num);
        let last = s.last();
        assert(last == s[s.len() - 1]);
        if last.start_block_num < block_num {
            assert forall|k: int| 0 <= k < d.len() && same_organization(#[trigger] d[k], last) implies d[k].end_block_num
                <= last.start_block_num by {
                assert(d[k] == s[k]);
            }
            lemma_organizations_below_bounded(d, last, block_num);
            let out = organizations_below(s, block_num);
            let prev = organizations_below(d, block_num);
            assert forall|i: int| 0 <= i < out.len() implies (#[trigger] out[i]).start_block_num
                < MAX_BLOCK_NUM by {
                if i < prev.len() {
                    assert(out[i] == prev[i]);
                }
            }
            assert forall|i: int, j: int|
                0 <= i < j < out.len() && same_organization(#[trigger] out[i], #[trigger] out[j]) implies out[i].end_block_num
                <= out[j].start_block_num by {
                assert(out[i] == prev[i]);
                if j < prev.len() {
                    assert(out[j] == prev[j]);
                }
            }
        }
    }
}

/// At most one stored block per height.
pub open spec fn one_block_per_height(blocks: Seq<Block>) -> bool {
    forall|i: int, j: int|
        0 <= i < j < blocks.len() ==> (#[trigger] blocks[i]).block_num != (#[trigger] blocks[j]).block_num
}

/// The invariant of a projection: one block per height, and for every agent
/// and organization a history whose versions follow one another.
pub open spec fn well_formed(p: ProjectionView) -> bool {
    &&& one_block_per_height(p.blocks)
    &&& agent_history(p.agents)
    &&& organization_history(p.organizations)
}

proof fn lemma_find_block_none(blocks: Seq<Block>, block_num: i64)
    requires
        find_block(blocks, block_num) is None,
    ensures
        forall|i: int| 0 <= i < blocks.len() ==> (#[trigger] blocks[i]).block_num != block_num,
    decreases blocks.len(),
{
    if blocks.len() > 0 {
        lemma_find_block_none(blocks.skip(1), block_num);
        assert forall|i: int| 0 <= i < blocks.len() implies (#[trigger] blocks[i]).block_num
            != block_num by {
            if i > 0 {
                assert(blocks[i] == blocks.skip(1)[i - 1]);
            }
        }
    }
}

proof fn lemma_blocks_below_avoid(s: Seq<Block>, n: i64, block_num: i64)
    requires
        forall|k: int| 0 <= k < s.len() ==> (#[trigger] s[k]).block_num != n,
    ensures
        forall|k: int|
            0 <= k < blocks_below(s, block_num).len() ==> (#[trigger] blocks_below(
                s,
                block_num,
            )[k]).block_num != n,
    decreases s.len(),
{
    if s.len() > 0 {
        lemma_blocks_below_avoid(s.drop_last(), n, block_num);
        let out = blocks_below(s, block_num);
        let prev = blocks_below(s.drop_last(), block_num);
        assert(s.last() == s[s.len() - 1]);
        assert forall|k: int| 0 <= k < out.len() implies (#[trigger] out[k]).block_num != n by {
            if k < prev.len() {
                assert(out[k] == prev[k]);
            }
        }
    }
}

proof fn lemma_blocks_below_distinct(s: Seq<Block>, block_num: i64)
    requires
        one_block_per_height(s),
    ensures
        one_block_per_height(blocks_below(s, block_num)),
    decreases s.len(),
{
    if s.len() > 0 {
        let d = s.drop_last();
        assert forall|i: int, j: int| 0 <= i < j < d.len() implies (#[trigger] d[i]).block_num
            != (#[trigger] d[j]).block_num by {
            assert(d[i] == s[i] && d[j] == s[j]);
        }
        lemma_blocks_below_distinct(d, block_num);
        let last = s[s.len() - 1];
        assert forall|k: int| 0 <= k < d.len() implies (#[trigger] d[k]).block_num
            != last.block_num by {
            assert(d[k] == s[k]);
        }
        lemma_blocks_below_avoid(d, last.block_num, block_num);
        let out = blocks_below(s, block_num);
        let prev = blocks_below(d, block_num);
        assert forall|i: int, j: int| 0 <= i < j < out.len() implies (#[trigger] out[i]).block_num
            != (#[trigger] out[j]).block_num by {
            assert(out[i] == prev[i]);
            if j < prev.len() {
                assert(out[j] == prev[j]);
            }
        }
    }
}

/// A batch that is applied keeps the projection's invariant, so that every
/// agent and every organization keeps at most one open version, and every
/// height at most one block. Heights below the open sentinel are assumed: a
/// version that starts at the sentinel could not be told from an open one.
pub proof fn lemma_batch_keeps_invariant(p: ProjectionView, events: Seq<Event>)
    requires
        well_formed(p),
        handled(p, events) is Ok,
        batch_block(events)->Ok_0.block_num < MAX_BLOCK_NUM,
    ensures
        well_formed(handled(p, events)->Ok_0),
        one_open_agent(handled(p, events)->Ok_0.agents),
        one_open_organization(handled(p, events)->Ok_0.organizations),
{
    let b = batch_block(events)->Ok_0;
    let n = b.block_num;
    let ops = batch_db_operations(events, n)->Ok_0;
    let q = handled(p, events)->Ok_0;
    lemma_batch_starts_at(crate::block::delta_changes(events), n);
    match find_block(p.blocks, n) {
        Some(s) => {
            if s.block_id@ != b.block_id@ {
                let kept = forked(p, n);
                lemma_below(p, n);
                lemma_blocks_below_distinct(p.blocks, n);
                lemma_agents_below_history(p.agents, n);
                lemma_organizations_below_history(p.organizations, n);
                lemma_insertions_append(kept, ops, n);
                assert forall|i: int, j: int| 0 <= i < j < q.blocks.len() implies (
                #[trigger] q.blocks[i]).block_num != (#[trigger] q.blocks[j]).block_num by {
                    assert(q.blocks[i] == kept.blocks[i]);
                    if j < kept.blocks.len() {
                        assert(q.blocks[j] == kept.blocks[j]);
                    }
                }
            }
        },
        None => {
            lemma_find_block_none(p.blocks, n);
            lemma_insertions_append(p, ops, n);
            assert forall|i: int, j: int| 0 <= i < j < q.blocks.len() implies (
            #[trigger] q.blocks[i]).block_num != (#[trigger] q.blocks[j]).block_num by {
                assert(q.blocks[i] == p.blocks[i]);
                if j < p.blocks.len() {
                    assert(q.blocks[j] == p.blocks[j]);
                }
            }
        },
    }
    lemma_agent_history_one_open(q.agents);
    lemma_organization_history_one_open(q.organizations);
}

/// A batch applied to a projection with no blocks stores exactly its own
/// block, and every version it stores begins at that block's height.
pub proof fn lemma_first_batch(p: ProjectionView, events: Seq<Event>)
    requires
        p.blocks.len() == 0,
        p.agents.len() == 0,
        p.organizations.len() == 0,
        handled(p, events) is Ok,
    ensures
        handled(p, events)->Ok_0.blocks == seq![batch_block(events)->Ok_0],
        forall|i: int|
            0 <= i < handled(p, events)->Ok_0.agents.len() ==> (#[trigger] handled(
                p,
                events,
            )->Ok_0.agents[i]).start_block_num == batch_block(events)->Ok_0.block_num,
        forall|i: int|
            0 <= i < handled(p, events)->Ok_0.organizations.len() ==> (#[trigger] handled(
                p,
                events,
            )->Ok_0.organizations[i]).start_block_num == batch_block(events)->Ok_0.block_num,
{
    let b = batch_block(events)->Ok_0;
    let ops = batch_db_operations(events, b.block_num)->Ok_0;
    lemma_batch_starts_at(crate::block::delta_changes(events), b.block_num);
    lemma_insertions_append(p, ops, b.block_num);
    assert(handled(p, events)->Ok_0.blocks =~= seq![b]);
}

} // verus!
