//! Which jobs keep the record of another job.
//!
//! Two rules keep a record. The first keeps every job that an unfinished job
//! waits for, through the whole chain. The second keeps every job of a pipeline
//! that has one job which has not stopped.

use crate::state;
use vstd::prelude::*;

verus! {

/// One record, in the form that the two rules read.
#[derive(Debug)]
pub struct Node {
    pub id: u128,
    /// The pipeline of the job.
    pub group: Option<u128>,
    /// True when the job stopped.
    pub terminal: bool,
    /// The jobs that must succeed before this job starts.
    pub needs: Vec<u128>,
    /// The jobs that must stop before this job starts.
    pub after: Vec<u128>,
}

/// What a node says.
pub struct Link {
    pub id: u128,
    pub group: Option<u128>,
    pub terminal: bool,
    pub needs: Seq<u128>,
    pub after: Seq<u128>,
}

impl View for Node {
    type V = Link;

    open spec fn view(&self) -> Link {
        Link {
            id: self.id,
            group: self.group,
            terminal: self.terminal,
            needs: self.needs@,
            after: self.after@,
        }
    }
}

/// What the nodes say.
pub open spec fn links(nodes: Seq<Node>) -> Seq<Link> {
    nodes.map_values(|n: Node| n@)
}

/// The rule that keeps a record, with the unfinished jobs that hold it.
#[derive(Debug)]
pub enum Hold {
    /// Each of the jobs waits for the job, itself or through other jobs.
    Needed(Vec<u128>),
    /// Each of the jobs is in the pipeline of the job.
    Pipeline(Vec<u128>),
}

/// True when the node names the id as a job that it waits for.
pub open spec fn names(node: Link, id: u128) -> bool {
    node.needs.contains(id) || node.after.contains(id)
}

/// True when the chain from the node at `i` to the id has at most `n` jobs
/// between them.
pub open spec fn reaches(nodes: Seq<Link>, i: int, id: u128, n: nat) -> bool
    decreases n,
{
    ||| names(nodes[i], id)
    ||| n > 0 && exists|j: int|
        0 <= j < nodes.len() && names(nodes[i], (#[trigger] nodes[j]).id) && reaches(
            nodes,
            j,
            id,
            (n - 1) as nat,
        )
}

/// True when the job at `i` waits for the id, itself or through other jobs.
pub open spec fn waits_for(nodes: Seq<Link>, i: int, id: u128) -> bool {
    exists|n: nat| reaches(nodes, i, id, n)
}

/// True when the job at `i` has not stopped, and it waits for the id.
pub open spec fn needer(nodes: Seq<Link>, i: int, id: u128) -> bool {
    !nodes[i].terminal && waits_for(nodes, i, id)
}

/// True when the job at `i` has not stopped, and it is in the pipeline.
pub open spec fn mate(nodes: Seq<Link>, i: int, group: Option<u128>) -> bool {
    !nodes[i].terminal && group is Some && nodes[i].group == group
}

/// The ids of the first `n` nodes that hold the id by the first rule.
pub open spec fn needers(nodes: Seq<Link>, id: u128, n: nat) -> Seq<u128>
    decreases n,
{
    if n == 0 {
        Seq::empty()
    } else if needer(nodes, n - 1, id) {
        needers(nodes, id, (n - 1) as nat).push(nodes[n - 1].id)
    } else {
        needers(nodes, id, (n - 1) as nat)
    }
}

/// The ids of the first `n` nodes that hold a job of the pipeline by the second
/// rule.
pub open spec fn mates(nodes: Seq<Link>, group: Option<u128>, n: nat) -> Seq<u128>
    decreases n,
{
    if n == 0 {
        Seq::empty()
    } else if mate(nodes, n - 1, group) {
        mates(nodes, group, (n - 1) as nat).push(nodes[n - 1].id)
    } else {
        mates(nodes, group, (n - 1) as nat)
    }
}

/// The pipeline of the first node with the id.
pub open spec fn group_of(nodes: Seq<Link>, id: u128) -> Option<u128>
    decreases nodes.len(),
{
    if nodes.len() == 0 {
        None
    } else if nodes[0].id == id {
        nodes[0].group
    } else {
        group_of(nodes.skip(1), id)
    }
}

/// What keeps the record of the job.
pub open spec fn held(nodes: Seq<Link>, id: u128) -> (Seq<u128>, Seq<u128>) {
    (needers(nodes, id, nodes.len()), mates(nodes, group_of(nodes, id), nodes.len()))
}

proof fn lemma_more_reach(nodes: Seq<Link>, i: int, id: u128, n: nat)
    requires
        reaches(nodes, i, id, n),
    ensures
        reaches(nodes, i, id, n + 1),
    decreases n,
{
    if !names(nodes[i], id) {
        let j = choose|j: int|
            0 <= j < nodes.len() && names(nodes[i], (#[trigger] nodes[j]).id) && reaches(
                nodes,
                j,
                id,
                (n - 1) as nat,
            );
        lemma_more_reach(nodes, j, id, (n - 1) as nat);
    }
}

/// The marks hold every job that names the id or a marked job.
spec fn closed_under(nodes: Seq<Link>, marks: Seq<bool>, id: u128) -> bool {
    forall|i: int|
        0 <= i < nodes.len() && !(#[trigger] marks[i]) ==> !names(nodes[i], id) && forall|j: int|
            0 <= j < nodes.len() && #[trigger] marks[j] ==> !names(nodes[i], nodes[j].id)
}

proof fn lemma_closed(nodes: Seq<Link>, marks: Seq<bool>, id: u128, i: int, n: nat)
    requires
        marks.len() == nodes.len(),
        closed_under(nodes, marks, id),
        0 <= i < nodes.len(),
        reaches(nodes, i, id, n),
    ensures
        marks[i],
    decreases n,
{
    if !marks[i] {
        let j = choose|j: int|
            0 <= j < nodes.len() && names(nodes[i], (#[trigger] nodes[j]).id) && reaches(
                nodes,
                j,
                id,
                (n - 1) as nat,
            );
        lemma_closed(nodes, marks, id, j, (n - 1) as nat);
        assert(marks[j]);
    }
}

/// The number of places without a mark.
spec fn unmarked(marks: Seq<bool>) -> nat
    decreases marks.len(),
{
    if marks.len() == 0 {
        0
    } else {
        unmarked(marks.drop_last()) + if marks.last() {
            0nat
        } else {
            1nat
        }
    }
}

proof fn lemma_unmarked(marks: Seq<bool>, i: int)
    requires
        0 <= i < marks.len(),
        !marks[i],
    ensures
        unmarked(marks.update(i, true)) + 1 == unmarked(marks),
    decreases marks.len(),
{
    let next = marks.update(i, true);
    if i == marks.len() - 1 {
        assert(next.drop_last() == marks.drop_last());
    } else {
        assert(next.drop_last() == marks.drop_last().update(i, true));
        lemma_unmarked(marks.drop_last(), i);
    }
}

fn is_named(node: &Node, id: u128) -> (r: bool)
    ensures
        r == names(node@, id),
{
    state::holds_id(&node.needs, id) || state::holds_id(&node.after, id)
}

/// True when the node names a job that has a mark.
fn names_a_mark(nodes: &Vec<Node>, marks: &Vec<bool>, i: usize) -> (r: bool)
    requires
        i < nodes@.len(),
        marks@.len() == nodes@.len(),
    ensures
        r == exists|j: int|
            0 <= j < nodes@.len() && names(links(nodes@)[i as int], (#[trigger] links(nodes@)[j]).id) && marks@[j],
{
    let mut j: usize = 0;
    while j < nodes.len()
        invariant
            i < nodes@.len(),
            marks@.len() == nodes@.len(),
            j <= nodes@.len(),
            forall|k: int|
                0 <= k < j ==> !(names(links(nodes@)[i as int], (#[trigger] links(nodes@)[k]).id) && marks@[k]),
        decreases nodes@.len() - j,
    {
        if marks[j] && is_named(&nodes[i], nodes[j].id) {
            assert(links(nodes@)[j as int].id == nodes@[j as int].id);
            return true;
        }
        j += 1;
    }
    false
}

/// Marks each job that waits for the id, itself or through other jobs.
fn marked(nodes: &Vec<Node>, id: u128) -> (r: Vec<bool>)
    ensures
        r@.len() == nodes@.len(),
        forall|i: int| 0 <= i < nodes@.len() ==> #[trigger] r@[i] == waits_for(links(nodes@), i, id),
{
    let mut marks: Vec<bool> = Vec::new();
    let mut i: usize = 0;
    while i < nodes.len()
        invariant
            i <= nodes@.len(),
            marks@.len() == i,
            forall|k: int| 0 <= k < i ==> !(#[trigger] marks@[k]),
        decreases nodes@.len() - i,
    {
        marks.push(false);
        i += 1;
    }
    let mut changed = true;
    while changed
        invariant
            marks@.len() == nodes@.len(),
            forall|k: int| 0 <= k < nodes@.len() && #[trigger] marks@[k] ==> waits_for(links(nodes@), k, id),
            !changed ==> closed_under(links(nodes@), marks@, id),
        decreases unmarked(marks@), (if changed { 1int } else { 0int }),
    {
        changed = false;
        let ghost start = marks@;
        let mut i: usize = 0;
        while i < nodes.len()
            invariant
                i <= nodes@.len(),
                marks@.len() == nodes@.len(),
                start.len() == nodes@.len(),
                forall|k: int|
                    0 <= k < nodes@.len() && #[trigger] marks@[k] ==> waits_for(links(nodes@), k, id),
                !changed ==> marks@ == start && forall|k: int|
                    0 <= k < i && !(#[trigger] marks@[k]) ==> !names(links(nodes@)[k], id) && forall|j: int|
                        0 <= j < nodes@.len() && #[trigger] marks@[j] ==> !names(
                            links(nodes@)[k],
                            links(nodes@)[j].id,
                        ),
                changed ==> unmarked(marks@) < unmarked(start),
                unmarked(marks@) <= unmarked(start),
            decreases nodes@.len() - i,
        {
            if !marks[i] && (is_named(&nodes[i], id) || names_a_mark(nodes, &marks, i)) {
                proof {
                    if names(links(nodes@)[i as int], id) {
                        assert(reaches(links(nodes@), i as int, id, 0));
                    } else {
                        let j = choose|j: int|
                            0 <= j < nodes@.len() && names(
                                links(nodes@)[i as int],
                                (#[trigger] links(nodes@)[j]).id,
                            ) && marks@[j];
                        assert(waits_for(links(nodes@), j, id));
                        let n = choose|n: nat| reaches(links(nodes@), j, id, n);
                        assert(reaches(links(nodes@), i as int, id, n + 1));
                    }
                    assert(waits_for(links(nodes@), i as int, id));
                    lemma_unmarked(marks@, i as int);
                }
                marks.set(i, true);
                changed = true;
            }
            i += 1;
        }
    }
    proof {
        assert forall|i: int| 0 <= i < nodes@.len() implies #[trigger] marks@[i] == waits_for(
            links(nodes@),
            i,
            id,
        ) by {
            if waits_for(links(nodes@), i, id) {
                let n = choose|n: nat| reaches(links(nodes@), i, id, n);
                lemma_closed(links(nodes@), marks@, id, i, n);
            }
        }
    }
    marks
}

fn group_at(nodes: &Vec<Node>, id: u128) -> (r: Option<u128>)
    ensures
        r == group_of(links(nodes@), id),
{
    let mut i: usize = 0;
    assert(links(nodes@).skip(0) == links(nodes@));
    while i < nodes.len()
        invariant
            i <= nodes@.len(),
            group_of(links(nodes@), id) == group_of(links(nodes@).skip(i as int), id),
        decreases nodes@.len() - i,
    {
        if nodes[i].id == id {
            return nodes[i].group;
        }
        assert(links(nodes@).skip(i as int).skip(1) == links(nodes@).skip(i + 1));
        i += 1;
    }
    None
}

/// Gives the rule that keeps the record of the job, or `None` when no rule
/// does. The first rule comes before the second.
pub fn hold_reason(nodes: &Vec<Node>, id: u128) -> (r: Option<Hold>)
    ensures
        match r {
            Some(Hold::Needed(holders)) => {
                &&& holders@ == held(links(nodes@), id).0
                &&& holders@.len() > 0
            },
            Some(Hold::Pipeline(holders)) => {
                &&& held(links(nodes@), id).0.len() == 0
                &&& holders@ == held(links(nodes@), id).1
                &&& holders@.len() > 0
            },
            None => held(links(nodes@), id).0.len() == 0 && held(links(nodes@), id).1.len() == 0,
        },
{
    let marks = marked(nodes, id);
    let group = group_at(nodes, id);
    let mut needed: Vec<u128> = Vec::new();
    let mut pipeline: Vec<u128> = Vec::new();
    let mut i: usize = 0;
    while i < nodes.len()
        invariant
            i <= nodes@.len(),
            marks@.len() == nodes@.len(),
            forall|k: int| 0 <= k < nodes@.len() ==> #[trigger] marks@[k] == waits_for(links(nodes@), k, id),
            needed@ == needers(links(nodes@), id, i as nat),
            pipeline@ == mates(links(nodes@), group, i as nat),
        decreases nodes@.len() - i,
    {
        if !nodes[i].terminal {
            if marks[i] {
                needed.push(nodes[i].id);
            }
            if same_group(group, nodes[i].group) {
                pipeline.push(nodes[i].id);
            }
        }
        i += 1;
    }
    if needed.len() > 0 {
        return Some(Hold::Needed(needed));
    }
    if pipeline.len() > 0 {
        return Some(Hold::Pipeline(pipeline));
    }
    None
}

/// True when both jobs are in one pipeline.
fn same_group(a: Option<u128>, b: Option<u128>) -> (r: bool)
    ensures
        r == (a is Some && b == a),
{
    match (a, b) {
        (Some(x), Some(y)) => x == y,
        _ => false,
    }
}

/// True when a rule keeps the record of the job.
pub open spec fn is_held(nodes: Seq<Link>, id: u128) -> bool {
    held(nodes, id).0.len() > 0 || held(nodes, id).1.len() > 0
}

proof fn lemma_needers(nodes: Seq<Link>, id: u128, i: int, n: nat)
    requires
        0 <= i < n,
        needer(nodes, i, id),
    ensures
        needers(nodes, id, n).len() > 0,
    decreases n,
{
    if i < n - 1 {
        lemma_needers(nodes, id, i, (n - 1) as nat);
    }
}

proof fn lemma_mates(nodes: Seq<Link>, group: Option<u128>, i: int, n: nat)
    requires
        0 <= i < n,
        mate(nodes, i, group),
    ensures
        mates(nodes, group, n).len() > 0,
    decreases n,
{
    if i < n - 1 {
        lemma_mates(nodes, group, i, (n - 1) as nat);
    }
}

/// A job that has not stopped keeps the record of every job in the chain of
/// what it waits for: where it waits for a job, and that job waits for a third,
/// the third stays too.
pub proof fn law_the_whole_chain_stays(nodes: Seq<Link>, i: int, j: int, id: u128)
    requires
        0 <= i < nodes.len(),
        0 <= j < nodes.len(),
        !nodes[i].terminal,
        waits_for(nodes, i, nodes[j].id),
        names(nodes[j], id),
    ensures
        is_held(nodes, nodes[j].id),
        is_held(nodes, id),
{
    lemma_needers(nodes, nodes[j].id, i, nodes.len());
    let n = choose|n: nat| reaches(nodes, i, nodes[j].id, n);
    lemma_chain(nodes, i, j, id, n);
    lemma_needers(nodes, id, i, nodes.len());
}

proof fn lemma_chain(nodes: Seq<Link>, i: int, j: int, id: u128, n: nat)
    requires
        0 <= j < nodes.len(),
        reaches(nodes, i, nodes[j].id, n),
        names(nodes[j], id),
    ensures
        reaches(nodes, i, id, n + 1),
    decreases n,
{
    if names(nodes[i], nodes[j].id) {
        assert(reaches(nodes, j, id, 0));
        lemma_up(nodes, j, id, n);
    } else {
        let k = choose|k: int|
            0 <= k < nodes.len() && names(nodes[i], (#[trigger] nodes[k]).id) && reaches(
                nodes,
                k,
                nodes[j].id,
                (n - 1) as nat,
            );
        lemma_chain(nodes, k, j, id, (n - 1) as nat);
    }
}

proof fn lemma_up(nodes: Seq<Link>, i: int, id: u128, n: nat)
    requires
        reaches(nodes, i, id, 0),
    ensures
        reaches(nodes, i, id, n),
    decreases n,
{
    if n > 0 {
        lemma_up(nodes, i, id, (n - 1) as nat);
        lemma_more_reach(nodes, i, id, (n - 1) as nat);
    }
}

/// While one job of a pipeline has not stopped, every record of the pipeline
/// stays.
pub proof fn law_a_pipeline_stays_whole(nodes: Seq<Link>, i: int, id: u128)
    requires
        0 <= i < nodes.len(),
        !nodes[i].terminal,
        nodes[i].group is Some,
        group_of(nodes, id) == nodes[i].group,
    ensures
        is_held(nodes, id),
{
    lemma_mates(nodes, group_of(nodes, id), i, nodes.len());
}

/// The places of a chain: each job names the next one as a job that it waits
/// for, and the last job names the id.
pub open spec fn chain(nodes: Seq<Link>, path: Seq<int>, id: u128) -> bool {
    &&& path.len() > 0
    &&& forall|k: int| 0 <= k < path.len() ==> 0 <= #[trigger] path[k] < nodes.len()
    &&& forall|k: int|
        0 <= k < path.len() - 1 ==> {
            let next = nodes[path[k + 1]].id;
            nodes[#[trigger] path[k]].needs.contains(next) || nodes[path[k]].after.contains(next)
        }
    &&& nodes[path.last()].needs.contains(id) || nodes[path.last()].after.contains(id)
}

proof fn lemma_chain_is_reached(nodes: Seq<Link>, path: Seq<int>, id: u128)
    requires
        chain(nodes, path, id),
    ensures
        reaches(nodes, path[0], id, (path.len() - 1) as nat),
    decreases path.len(),
{
    if path.len() > 1 {
        let rest = path.skip(1);
        assert forall|k: int| 0 <= k < rest.len() implies 0 <= #[trigger] rest[k] < nodes.len() by {
            assert(rest[k] == path[k + 1]);
        }
        assert forall|k: int| 0 <= k < rest.len() - 1 implies ({
            let next = nodes[rest[k + 1]].id;
            nodes[#[trigger] rest[k]].needs.contains(next) || nodes[rest[k]].after.contains(next)
        }) by {
            assert(rest[k] == path[k + 1]);
            assert(rest[k + 1] == path[k + 2]);
        }
        assert(rest.last() == path.last());
        lemma_chain_is_reached(nodes, rest, id);
        let j = path[1];
        assert(rest[0] == j);
        assert(names(nodes[path[0]], nodes[j].id));
    }
}

proof fn lemma_reached_is_a_chain(nodes: Seq<Link>, i: int, id: u128, n: nat) -> (path: Seq<int>)
    requires
        0 <= i < nodes.len(),
        reaches(nodes, i, id, n),
    ensures
        chain(nodes, path, id),
        path[0] == i,
    decreases n,
{
    if names(nodes[i], id) {
        seq![i]
    } else {
        let j = choose|j: int|
            0 <= j < nodes.len() && names(nodes[i], (#[trigger] nodes[j]).id) && reaches(
                nodes,
                j,
                id,
                (n - 1) as nat,
            );
        let rest = lemma_reached_is_a_chain(nodes, j, id, (n - 1) as nat);
        let path = seq![i] + rest;
        assert forall|k: int| 0 <= k < path.len() implies 0 <= #[trigger] path[k] < nodes.len() by {
            if k > 0 {
                assert(path[k] == rest[k - 1]);
            }
        }
        assert forall|k: int| 0 <= k < path.len() - 1 implies ({
            let next = nodes[path[k + 1]].id;
            nodes[#[trigger] path[k]].needs.contains(next) || nodes[path[k]].after.contains(next)
        }) by {
            if k > 0 {
                assert(path[k] == rest[k - 1]);
                assert(path[k + 1] == rest[k]);
            }
        }
        assert(path.last() == rest.last());
        path
    }
}

/// A job waits for another exactly when a chain leads from the one to the other,
/// in which each job names the next one.
pub proof fn law_to_wait_is_a_chain(nodes: Seq<Link>, i: int, id: u128)
    requires
        0 <= i < nodes.len(),
    ensures
        waits_for(nodes, i, id) <==> exists|path: Seq<int>|
            path[0] == i && #[trigger] chain(nodes, path, id),
{
    if waits_for(nodes, i, id) {
        let n = choose|n: nat| reaches(nodes, i, id, n);
        let path = lemma_reached_is_a_chain(nodes, i, id, n);
        assert(path[0] == i && chain(nodes, path, id));
    }
    if exists|path: Seq<int>| path[0] == i && #[trigger] chain(nodes, path, id) {
        let path = choose|path: Seq<int>| path[0] == i && #[trigger] chain(nodes, path, id);
        lemma_chain_is_reached(nodes, path, id);
    }
}

/// Each job that holds a record has not stopped. Where the first rule names it,
/// it waits for the job; where the second rule names it, it has the group of the
/// job.
pub proof fn law_a_holder_has_a_reason(nodes: Seq<Link>, id: u128, h: u128)
    ensures
        held(nodes, id).0.contains(h) ==> exists|i: int|
            0 <= i < nodes.len() && (#[trigger] nodes[i]).id == h && !nodes[i].terminal && waits_for(
                nodes,
                i,
                id,
            ),
        held(nodes, id).1.contains(h) ==> exists|i: int|
            0 <= i < nodes.len() && (#[trigger] nodes[i]).id == h && !nodes[i].terminal
                && nodes[i].group is Some && nodes[i].group == group_of(nodes, id),
{
    if held(nodes, id).0.contains(h) {
        lemma_a_needer(nodes, id, h, nodes.len());
    }
    if held(nodes, id).1.contains(h) {
        lemma_a_mate(nodes, group_of(nodes, id), h, nodes.len());
    }
}

proof fn lemma_a_needer(nodes: Seq<Link>, id: u128, h: u128, n: nat)
    requires
        n <= nodes.len(),
        needers(nodes, id, n).contains(h),
    ensures
        exists|i: int|
            0 <= i < n && (#[trigger] nodes[i]).id == h && !nodes[i].terminal && waits_for(
                nodes,
                i,
                id,
            ),
    decreases n,
{
    if n > 0 {
        let less = needers(nodes, id, (n - 1) as nat);
        if less.contains(h) {
            lemma_a_needer(nodes, id, h, (n - 1) as nat);
        } else {
            let all = needers(nodes, id, n);
            let k = all.index_of(h);
            if k < less.len() {
                assert(less[k] == h);
            }
            assert(nodes[n - 1].id == h);
        }
    }
}

proof fn lemma_a_mate(nodes: Seq<Link>, group: Option<u128>, h: u128, n: nat)
    requires
        n <= nodes.len(),
        mates(nodes, group, n).contains(h),
    ensures
        exists|i: int|
            0 <= i < n && (#[trigger] nodes[i]).id == h && !nodes[i].terminal && nodes[i].group is Some
                && nodes[i].group == group,
    decreases n,
{
    if n > 0 {
        let less = mates(nodes, group, (n - 1) as nat);
        if less.contains(h) {
            lemma_a_mate(nodes, group, h, (n - 1) as nat);
        } else {
            let all = mates(nodes, group, n);
            let k = all.index_of(h);
            if k < less.len() {
                assert(less[k] == h);
            }
            assert(nodes[n - 1].id == h);
        }
    }
}

/// A record is held exactly where some job that has not stopped waits for the
/// job or has its group. With no such job nothing holds the record.
pub proof fn law_nothing_else_holds_a_record(nodes: Seq<Link>, id: u128)
    ensures
        is_held(nodes, id) <==> exists|i: int|
            0 <= i < nodes.len() && !(#[trigger] nodes[i]).terminal && (waits_for(nodes, i, id) || (
            nodes[i].group is Some && nodes[i].group == group_of(nodes, id))),
{
    let (a, b) = held(nodes, id);
    if a.len() > 0 {
        assert(a.contains(a[0]));
        law_a_holder_has_a_reason(nodes, id, a[0]);
    }
    if b.len() > 0 {
        assert(b.contains(b[0]));
        law_a_holder_has_a_reason(nodes, id, b[0]);
    }
    if exists|i: int|
        0 <= i < nodes.len() && !(#[trigger] nodes[i]).terminal && (waits_for(nodes, i, id) || (
        nodes[i].group is Some && nodes[i].group == group_of(nodes, id))) {
        let i = choose|i: int|
            0 <= i < nodes.len() && !(#[trigger] nodes[i]).terminal && (waits_for(nodes, i, id) || (
            nodes[i].group is Some && nodes[i].group == group_of(nodes, id)));
        if waits_for(nodes, i, id) {
            lemma_needers(nodes, id, i, nodes.len());
        } else {
            lemma_mates(nodes, group_of(nodes, id), i, nodes.len());
        }
    }
}

/// The group of a job is the group in its own record, and a job with no record
/// has none.
pub proof fn law_the_group_is_the_one_of_the_record(nodes: Seq<Link>, id: u128, i: int)
    requires
        0 <= i <= nodes.len(),
        forall|j: int| 0 <= j < i ==> (#[trigger] nodes[j]).id != id,
        i < nodes.len() ==> nodes[i].id == id,
    ensures
        group_of(nodes, id) == if i < nodes.len() {
            nodes[i].group
        } else {
            None
        },
    decreases i,
{
    if i > 0 {
        let rest = nodes.skip(1);
        assert forall|j: int| 0 <= j < i - 1 implies (#[trigger] rest[j]).id != id by {
            assert(rest[j] == nodes[j + 1]);
        }
        assert(nodes[0].id != id);
        law_the_group_is_the_one_of_the_record(rest, id, i - 1);
    }
}

/// Every job that holds a record is named, by each rule by which it holds.
pub proof fn law_every_holder_is_named(nodes: Seq<Link>, id: u128, i: int)
    requires
        0 <= i < nodes.len(),
        !nodes[i].terminal,
    ensures
        waits_for(nodes, i, id) ==> held(nodes, id).0.contains(nodes[i].id),
        nodes[i].group is Some && nodes[i].group == group_of(nodes, id) ==> held(
            nodes,
            id,
        ).1.contains(nodes[i].id),
{
    if waits_for(nodes, i, id) {
        lemma_needer_named(nodes, id, i, nodes.len());
    }
    if nodes[i].group is Some && nodes[i].group == group_of(nodes, id) {
        lemma_mate_named(nodes, group_of(nodes, id), i, nodes.len());
    }
}

proof fn lemma_needer_named(nodes: Seq<Link>, id: u128, i: int, n: nat)
    requires
        0 <= i < n,
        needer(nodes, i, id),
    ensures
        needers(nodes, id, n).contains(nodes[i].id),
    decreases n,
{
    let all = needers(nodes, id, n);
    if i < n - 1 {
        lemma_needer_named(nodes, id, i, (n - 1) as nat);
        let less = needers(nodes, id, (n - 1) as nat);
        let k = less.index_of(nodes[i].id);
        assert(all[k] == nodes[i].id);
    } else {
        assert(all.last() == nodes[i].id);
    }
}

proof fn lemma_mate_named(nodes: Seq<Link>, group: Option<u128>, i: int, n: nat)
    requires
        0 <= i < n,
        mate(nodes, i, group),
    ensures
        mates(nodes, group, n).contains(nodes[i].id),
    decreases n,
{
    let all = mates(nodes, group, n);
    if i < n - 1 {
        lemma_mate_named(nodes, group, i, (n - 1) as nat);
        let less = mates(nodes, group, (n - 1) as nat);
        let k = less.index_of(nodes[i].id);
        assert(all[k] == nodes[i].id);
    } else {
        assert(all.last() == nodes[i].id);
    }
}

/// The answer about a record names exactly its holders. Where no job that has
/// not stopped waits for the job or has its group, there is no answer, and each
/// job that an answer names is such a job.
pub proof fn law_an_answer_names_the_holders(
    nodes: &Vec<Node>,
    id: u128,
    r: Option<Hold>,
    h: u128,
)
    requires
        call_ensures(hold_reason, (nodes, id), r),
    ensures
        r is None <==> forall|i: int|
            0 <= i < nodes@.len() && !(#[trigger] nodes@[i]).terminal ==> !waits_for(
                links(nodes@),
                i,
                id,
            ) && (nodes@[i].group is None || nodes@[i].group != group_of(links(nodes@), id)),
        r matches Some(Hold::Needed(list)) ==> list@.contains(h) ==> exists|i: int|
            0 <= i < nodes@.len() && (#[trigger] nodes@[i]).id == h && !nodes@[i].terminal
                && waits_for(links(nodes@), i, id),
        r matches Some(Hold::Pipeline(list)) ==> list@.contains(h) ==> exists|i: int|
            0 <= i < nodes@.len() && (#[trigger] nodes@[i]).id == h && !nodes@[i].terminal
                && nodes@[i].group is Some && nodes@[i].group == group_of(links(nodes@), id),
{
    let all = links(nodes@);
    assert forall|i: int| 0 <= i < nodes@.len() implies #[trigger] all[i] == nodes@[i]@ by {}
    law_nothing_else_holds_a_record(all, id);
    law_a_holder_has_a_reason(all, id, h);
    if is_held(all, id) {
        let i = choose|i: int|
            0 <= i < all.len() && !(#[trigger] all[i]).terminal && (waits_for(all, i, id) || (
            all[i].group is Some && all[i].group == group_of(all, id)));
        assert(!nodes@[i].terminal);
    } else {
        assert forall|i: int| 0 <= i < nodes@.len() && !(#[trigger] nodes@[i]).terminal implies !waits_for(
            all,
            i,
            id,
        ) && (nodes@[i].group is None || nodes@[i].group != group_of(all, id)) by {
            assert(!all[i].terminal);
        }
    }
    if let Some(Hold::Needed(list)) = r {
        if list@.contains(h) {
            let i = choose|i: int|
                0 <= i < all.len() && (#[trigger] all[i]).id == h && !all[i].terminal && waits_for(
                    all,
                    i,
                    id,
                );
            assert(nodes@[i].id == h);
        }
    }
    if let Some(Hold::Pipeline(list)) = r {
        if list@.contains(h) {
            let i = choose|i: int|
                0 <= i < all.len() && (#[trigger] all[i]).id == h && !all[i].terminal
                    && all[i].group is Some && all[i].group == group_of(all, id);
            assert(nodes@[i].id == h);
        }
    }
}

} // verus!
