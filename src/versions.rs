use vstd::prelude::*;

use crate::models::{NewAgent, NewOrganization, MAX_BLOCK_NUM};

verus! {

/// Two NewAgents are versions of the same agent: same public key and organization.
pub open spec fn same_agent(a: NewAgent, b: NewAgent) -> bool {
    a.public_key@ == b.public_key@ && a.org_id@ == b.org_id@
}

/// A stored version once `r` is stored after it: a version of the same key
/// still in effect at `r`'s start ends there.
pub open spec fn ended_agent(a: NewAgent, r: NewAgent) -> NewAgent {
    if same_agent(a, r) && a.end_block_num > r.start_block_num {
        NewAgent { end_block_num: r.start_block_num, ..a }
    } else {
        a
    }
}

/// The stored versions once `r` is stored after them.
pub open spec fn agent_versioned(rows: Seq<NewAgent>, r: NewAgent) -> Seq<NewAgent> {
    rows.map_values(|a: NewAgent| ended_agent(a, r)).push(r)
}

/// The stored versions once `new` is stored after them, one after another.
pub open spec fn agents_versioned(rows: Seq<NewAgent>, new: Seq<NewAgent>) -> Seq<NewAgent>
    decreases new.len(),
{
    if new.len() == 0 {
        rows
    } else {
        agent_versioned(agents_versioned(rows, new.drop_last()), new.last())
    }
}

/// The versions of each key follow one another in the order they are stored:
/// an earlier one ends no later than a later one starts, and every version
/// starts below the open sentinel.
pub open spec fn agent_history(rows: Seq<NewAgent>) -> bool {
    &&& forall|i: int| 0 <= i < rows.len() ==> (#[trigger] rows[i]).start_block_num < MAX_BLOCK_NUM
    &&& forall|i: int, j: int|
        0 <= i < j < rows.len() && same_agent(#[trigger] rows[i], #[trigger] rows[j])
            ==> rows[i].end_block_num <= rows[j].start_block_num
}

/// At most one version of each key is open.
pub open spec fn one_open_agent(rows: Seq<NewAgent>) -> bool {
    forall|i: int, j: int|
        0 <= i < j < rows.len() && same_agent(#[trigger] rows[i], #[trigger] rows[j])
            ==> !(rows[i].end_block_num == MAX_BLOCK_NUM && rows[j].end_block_num == MAX_BLOCK_NUM)
}

/// An ordered history has at most one open version per key.
pub proof fn lemma_agent_history_one_open(rows: Seq<NewAgent>)
    requires
        agent_history(rows),
    ensures
        one_open_agent(rows),
{
    assert forall|i: int, j: int|
        0 <= i < j < rows.len() && same_agent(#[trigger] rows[i], #[trigger] rows[j]) implies !(
        rows[i].end_block_num == MAX_BLOCK_NUM && rows[j].end_block_num == MAX_BLOCK_NUM) by {
        assert(rows[j].start_block_num < MAX_BLOCK_NUM);
    }
}

/// Ends the versions that `r` supersedes.
pub fn end_agent_versions(rows: Vec<NewAgent>, r: &NewAgent) -> (out: Vec<NewAgent>)
    ensures
        out@ == rows@.map_values(|a: NewAgent| ended_agent(a, *r)),
{
    let ghost all = rows@;
    let mut rest = rows;
    let mut out: Vec<NewAgent> = Vec::new();
    let total: usize = rest.len();
    let mut i: usize = 0;
    while rest.len() > 0
        invariant
            all == rows@,
            all.len() == total,
            all.len() == i + rest@.len(),
            rest@ == all.skip(i as int),
            out@ == all.take(i as int).map_values(|a: NewAgent| ended_agent(a, *r)),
        decreases rest@.len(),
    {
        let mut a = rest.remove(0);
        assert(all.skip(i as int).skip(1) =~= all.skip(i + 1));
        if a.public_key == r.public_key && a.org_id == r.org_id && a.end_block_num > r.start_block_num {
            a.end_block_num = r.start_block_num;
        }
        out.push(a);
        i = i + 1;
        assert(out@ =~= all.take(i as int).map_values(|a: NewAgent| ended_agent(a, *r)));
    }
    assert(all.take(i as int) =~= all);
    out
}

/// Storing versions keeps the start of every stored version and appends the
/// new ones.
pub proof fn lemma_agents_versioned_starts(rows: Seq<NewAgent>, new: Seq<NewAgent>)
    ensures
        agents_versioned(rows, new).len() == rows.len() + new.len(),
        forall|i: int|
            0 <= i < rows.len() ==> (#[trigger] agents_versioned(rows, new)[i]).start_block_num
                == rows[i].start_block_num,
        forall|i: int|
            rows.len() <= i < rows.len() + new.len() ==> (#[trigger] agents_versioned(
                rows,
                new,
            )[i]).start_block_num == new[i - rows.len()].start_block_num,
    decreases new.len(),
{
    if new.len() > 0 {
        lemma_agents_versioned_starts(rows, new.drop_last());
    }
}

/// Storing a version after an ordered history keeps it ordered.
pub proof fn lemma_agent_versioned_history(rows: Seq<NewAgent>, r: NewAgent)
    requires
        agent_history(rows),
        r.start_block_num < MAX_BLOCK_NUM,
    ensures
        agent_history(agent_versioned(rows, r)),
{
    let out = agent_versioned(rows, r);
    assert forall|i: int| 0 <= i < out.len() implies (#[trigger] out[i]).start_block_num
        < MAX_BLOCK_NUM by {
        if i < rows.len() {
            assert(out[i] == ended_agent(rows[i], r));
        }
    }
    assert forall|i: int, j: int|
        0 <= i < j < out.len() && same_agent(#[trigger] out[i], #[trigger] out[j]) implies out[i].end_block_num
        <= out[j].start_block_num by {
        assert(out[i] == ended_agent(rows[i], r));
        if j < rows.len() {
            assert(out[j] == ended_agent(rows[j], r));
            assert(same_agent(rows[i], rows[j]));
        }
    }
}

/// Storing versions after an ordered history keeps it ordered.
pub proof fn lemma_agents_versioned_history(rows: Seq<NewAgent>, new: Seq<NewAgent>)
    requires
        agent_history(rows),
        forall|i: int| 0 <= i < new.len() ==> (#[trigger] new[i]).start_block_num < MAX_BLOCK_NUM,
    ensures
        agent_history(agents_versioned(rows, new)),
    decreases new.len(),
{
    if new.len() > 0 {
        lemma_agents_versioned_history(rows, new.drop_last());
        assert(new.last() == new[new.len() - 1]);
        lemma_agent_versioned_history(agents_versioned(rows, new.drop_last()), new.last());
    }
}

/// Two NewOrganizations are versions of the same organization: same organization id.
pub open spec fn same_organization(a: NewOrganization, b: NewOrganization) -> bool {
    a.org_id@ == b.org_id@
}

/// A stored version once `r` is stored after it: a version of the same key
/// still in effect at `r`'s start ends there.
pub open spec fn ended_organization(a: NewOrganization, r: NewOrganization) -> NewOrganization {
    if same_organization(a, r) && a.end_block_num > r.start_block_num {
        NewOrganization { end_block_num: r.start_block_num, ..a }
    } else {
        a
    }
}

/// The stored versions once `r` is stored after them.
pub open spec fn organization_versioned(rows: Seq<NewOrganization>, r: NewOrganization) -> Seq<NewOrganization> {
    rows.map_values(|a: NewOrganization| ended_organization(a, r)).push(r)
}

/// The stored versions once `new` is stored after them, one after another.
pub open spec fn organizations_versioned(rows: Seq<NewOrganization>, new: Seq<NewOrganization>) -> Seq<NewOrganization>
    decreases new.len(),
{
    if new.len() == 0 {
        rows
    } else {
        organization_versioned(organizations_versioned(rows, new.drop_last()), new.last())
    }
}

/// The versions of each key follow one another in the order they are stored:
/// an earlier one ends no later than a later one starts, and every version
/// starts below the open sentinel.
pub open spec fn organization_history(rows: Seq<NewOrganization>) -> bool {
    &&& forall|i: int| 0 <= i < rows.len() ==> (#[trigger] rows[i]).start_block_num < MAX_BLOCK_NUM
    &&& forall|i: int, j: int|
        0 <= i < j < rows.len() && same_organization(#[trigger] rows[i], #[trigger] rows[j])
            ==> rows[i].end_block_num <= rows[j].start_block_num
}

/// At most one version of each key is open.
pub open spec fn one_open_organization(rows: Seq<NewOrganization>) -> bool {
    forall|i: int, j: int|
        0 <= i < j < rows.len() && same_organization(#[trigger] rows[i], #[trigger] rows[j])
            ==> !(rows[i].end_block_num == MAX_BLOCK_NUM && rows[j].end_block_num == MAX_BLOCK_NUM)
}

/// An ordered history has at most one open version per key.
pub proof fn lemma_organization_history_one_open(rows: Seq<NewOrganization>)
    requires
        organization_history(rows),
    ensures
        one_open_organization(rows),
{
    assert forall|i: int, j: int|
        0 <= i < j < rows.len() && same_organization(#[trigger] rows[i], #[trigger] rows[j]) implies !(
        rows[i].end_block_num == MAX_BLOCK_NUM && rows[j].end_block_num == MAX_BLOCK_NUM) by {
        assert(rows[j].start_block_num < MAX_BLOCK_NUM);
    }
}

/// Ends the versions that `r` supersedes.
pub fn end_organization_versions(rows: Vec<NewOrganization>, r: &NewOrganization) -> (out: Vec<NewOrganization>)
    ensures
        out@ == rows@.map_values(|a: NewOrganization| ended_organization(a, *r)),
{
    let ghost all = rows@;
    let mut rest = rows;
    let mut out: Vec<NewOrganization> = Vec::new();
    let total: usize = rest.len();
    let mut i: usize = 0;
    while rest.len() > 0
        invariant
            all == rows@,
            all.len() == total,
            all.len() == i + rest@.len(),
            rest@ == all.skip(i as int),
            out@ == all.take(i as int).map_values(|a: NewOrganization| ended_organization(a, *r)),
        decreases rest@.len(),
    {
        let mut a = rest.remove(0);
        assert(all.skip(i as int).skip(1) =~= all.skip(i + 1));
        if a.org_id == r.org_id && a.end_block_num > r.start_block_num {
            a.end_block_num = r.start_block_num;
        }
        out.push(a);
        i = i + 1;
        assert(out@ =~= all.take(i as int).map_values(|a: NewOrganization| ended_organization(a, *r)));
    }
    assert(all.take(i as int) =~= all);
    out
}

/// Storing versions keeps the start of every stored version and appends the
/// new ones.
pub proof fn lemma_organizations_versioned_starts(rows: Seq<NewOrganization>, new: Seq<NewOrganization>)
    ensures
        organizations_versioned(rows, new).len() == rows.len() + new.len(),
        forall|i: int|
            0 <= i < rows.len() ==> (#[trigger] organizations_versioned(rows, new)[i]).start_block_num
                == rows[i].start_block_num,
        forall|i: int|
            rows.len() <= i < rows.len() + new.len() ==> (#[trigger] organizations_versioned(
                rows,
                new,
            )[i]).start_block_num == new[i - rows.len()].start_block_num,
    decreases new.len(),
{
    if new.len() > 0 {
        lemma_organizations_versioned_starts(rows, new.drop_last());
    }
}

/// Storing a version after an ordered history keeps it ordered.
pub proof fn lemma_organization_versioned_history(rows: Seq<NewOrganization>, r: NewOrganization)
    requires
        organization_history(rows),
        r.start_block_num < MAX_BLOCK_NUM,
    ensures
        organization_history(organization_versioned(rows, r)),
{
    let out = organization_versioned(rows, r);
    assert forall|i: int| 0 <= i < out.len() implies (#[trigger] out[i]).start_block_num
        < MAX_BLOCK_NUM by {
        if i < rows.len() {
            assert(out[i] == ended_organization(rows[i], r));
        }
    }
    assert forall|i: int, j: int|
        0 <= i < j < out.len() && same_organization(#[trigger] out[i], #[trigger] out[j]) implies out[i].end_block_num
        <= out[j].start_block_num by {
        assert(out[i] == ended_organization(rows[i], r));
        if j < rows.len() {
            assert(out[j] == ended_organization(rows[j], r));
            assert(same_organization(rows[i], rows[j]));
        }
    }
}

/// Storing versions after an ordered history keeps it ordered.
pub proof fn lemma_organizations_versioned_history(rows: Seq<NewOrganization>, new: Seq<NewOrganization>)
    requires
        organization_history(rows),
        forall|i: int| 0 <= i < new.len() ==> (#[trigger] new[i]).start_block_num < MAX_BLOCK_NUM,
    ensures
        organization_history(organizations_versioned(rows, new)),
    decreases new.len(),
{
    if new.len() > 0 {
        lemma_organizations_versioned_history(rows, new.drop_last());
        assert(new.last() == new[new.len() - 1]);
        lemma_organization_versioned_history(organizations_versioned(rows, new.drop_last()), new.last());
    }
}

} // verus!
