//! The session that a process belongs to.
//!
//! A chain lists the processes above a command, from its parent upward. Two
//! commands are of one session when their chains share a process below the
//! point where the session ends: a terminal multiplexer, a login service, a
//! terminal program, a service manager, or the first process of the machine.

use crate::job::Ancestor;
use vstd::prelude::*;

verus! {

/// True when the session of the chain can end at process `i`: the first
/// process of the machine, or a process with no terminal that stands above a
/// process with one or that the first process of the machine started.
pub open spec fn ends_session(chain: Seq<Ancestor>, i: int) -> bool {
    chain[i].pid == 1 || (!chain[i].terminal && (chain[i].ppid <= 1 || exists|j: int|
        0 <= j < i && #[trigger] chain[j].terminal))
}

/// The position of the first process from `i` where the session can end, or of
/// the last process where there is none.
pub open spec fn boundary_from(chain: Seq<Ancestor>, i: nat) -> nat
    decreases chain.len() - i,
{
    if i + 1 >= chain.len() || ends_session(chain, i as int) {
        i
    } else {
        boundary_from(chain, i + 1)
    }
}

/// The position of the process where the session of the chain ends.
pub open spec fn boundary(chain: Seq<Ancestor>) -> Option<nat> {
    if chain.len() == 0 {
        None
    } else {
        Some(boundary_from(chain, 0))
    }
}

pub proof fn lemma_boundary(chain: Seq<Ancestor>, i: nat)
    requires
        i < chain.len(),
    ensures
        i <= boundary_from(chain, i) < chain.len(),
    decreases chain.len() - i,
{
    if i + 1 < chain.len() && !ends_session(chain, i as int) {
        lemma_boundary(chain, i + 1);
    }
}

/// Gives the position of the process where the session of the chain ends.
pub fn boundary_index(chain: &[Ancestor]) -> (r: Option<usize>)
    ensures
        match r {
            Some(i) => boundary(chain@) == Some(i as nat) && i < chain@.len(),
            None => boundary(chain@) is None,
        },
{
    if chain.len() == 0 {
        return None;
    }
    let mut i: usize = 0;
    let mut terminal = false;
    while chain.len() - i > 1
        invariant
            i < chain@.len(),
            boundary(chain@) == Some(boundary_from(chain@, i as nat)),
            terminal == (exists|j: int| 0 <= j < i && #[trigger] chain@[j].terminal),
        decreases chain@.len() - i,
    {
        let p = &chain[i];
        if p.pid == 1 || (!p.terminal && (p.ppid <= 1 || terminal)) {
            return Some(i);
        }
        if p.terminal {
            terminal = true;
        }
        i += 1;
    }
    Some(i)
}

/// True when the two records name one process: the number and the start time
/// agree, and the start time is known.
pub open spec fn same_process(a: Ancestor, b: Ancestor) -> bool {
    a.start is Some && a.pid == b.pid && a.start == b.start
}

/// True when the chains share a process below the boundary of each of them.
pub open spec fn one_session(a: Seq<Ancestor>, b: Seq<Ancestor>) -> bool {
    exists|i: int, j: int|
        0 <= i < a.len() && 0 <= j < b.len() && i < boundary_from(a, 0) && j < boundary_from(b, 0)
            && #[trigger] same_process(a[i], b[j])
}

/// Tests if two records name one process.
pub fn is_same_process(a: &Ancestor, b: &Ancestor) -> (r: bool)
    ensures
        r == same_process(*a, *b),
{
    match (a.start, b.start) {
        (Some(x), Some(y)) => a.pid == b.pid && x == y,
        _ => false,
    }
}

/// Tests if the two chains are of one session.
pub fn shared(a: &[Ancestor], b: &[Ancestor]) -> (r: bool)
    ensures
        r == one_session(a@, b@),
{
    let (ends_a, ends_b): (usize, usize) = match (boundary_index(a), boundary_index(b)) {
        (Some(x), Some(y)) => (x, y),
        _ => {
            return false;
        },
    };
    let mut i: usize = 0;
    while i < ends_a
        invariant
            i <= ends_a < a@.len(),
            ends_b < b@.len(),
            ends_a == boundary_from(a@, 0),
            ends_b == boundary_from(b@, 0),
            forall|x: int, y: int|
                0 <= x < i && 0 <= y < ends_b ==> !(#[trigger] same_process(a@[x], b@[y])),
        decreases ends_a - i,
    {
        let mut j: usize = 0;
        while j < ends_b
            invariant
                i < ends_a < a@.len(),
                j <= ends_b < b@.len(),
                ends_a == boundary_from(a@, 0),
                ends_b == boundary_from(b@, 0),
                forall|y: int| 0 <= y < j ==> !(#[trigger] same_process(a@[i as int], b@[y])),
            decreases ends_b - j,
        {
            if is_same_process(&a[i], &b[j]) {
                assert(same_process(a@[i as int], b@[j as int]));
                return true;
            }
            j += 1;
        }
        i += 1;
    }
    false
}

/// The test of two chains does not depend on which of them comes first.
pub proof fn law_shared_both_ways(a: Seq<Ancestor>, b: Seq<Ancestor>)
    ensures
        one_session(a, b) == one_session(b, a),
{
    if one_session(a, b) {
        let (i, j) = choose|i: int, j: int|
            0 <= i < a.len() && 0 <= j < b.len() && i < boundary_from(a, 0) && j < boundary_from(
                b,
                0,
            ) && #[trigger] same_process(a[i], b[j]);
        assert(same_process(b[j], a[i]));
    }
    if one_session(b, a) {
        let (i, j) = choose|i: int, j: int|
            0 <= i < b.len() && 0 <= j < a.len() && i < boundary_from(b, 0) && j < boundary_from(
                a,
                0,
            ) && #[trigger] same_process(b[i], a[j]);
        assert(same_process(a[j], b[i]));
    }
}

/// The session of a chain ends at the first process, from the bottom, that is
/// the first process of the machine, or that has no terminal and either was
/// started by the first process of the machine or stands above a process with a
/// terminal. A chain with no such process ends at its last one.
pub proof fn law_where_a_session_ends(chain: Seq<Ancestor>, n: nat)
    requires
        n < chain.len(),
    ensures
        boundary(chain) == Some(n) <==> {
            &&& forall|i: int|
                0 <= i < n ==> (#[trigger] chain[i]).pid != 1 && (chain[i].terminal || (
                chain[i].ppid > 1 && forall|j: int| 0 <= j < i ==> !(#[trigger] chain[j]).terminal))
            &&& n + 1 == chain.len() || chain[n as int].pid == 1 || (!chain[n as int].terminal && (
            chain[n as int].ppid <= 1 || exists|j: int|
                0 <= j < n && (#[trigger] chain[j]).terminal))
        },
        boundary(Seq::<Ancestor>::empty()) is None,
{
    lemma_first_end(chain, 0);
    let b = boundary_from(chain, 0);
    assert forall|i: int| 0 <= i < chain.len() implies #[trigger] ends_session(chain, i) == (
    chain[i].pid == 1 || (!chain[i].terminal && (chain[i].ppid <= 1 || !(forall|j: int|
        0 <= j < i ==> !(#[trigger] chain[j]).terminal)))) by {}
    if b < n {
        assert(ends_session(chain, b as int));
        assert(chain[b as int].pid == chain[b as int].pid);
    }
    if n < b {
        assert(!ends_session(chain, n as int));
    }
    if b == n {
        assert forall|i: int| 0 <= i < n implies (#[trigger] chain[i]).pid != 1 && (
        chain[i].terminal || (chain[i].ppid > 1 && forall|j: int|
            0 <= j < i ==> !(#[trigger] chain[j]).terminal)) by {
            assert(!ends_session(chain, i));
        }
    }
}

proof fn lemma_first_end(chain: Seq<Ancestor>, i: nat)
    requires
        i < chain.len(),
    ensures
        i <= boundary_from(chain, i) < chain.len(),
        forall|k: int| i <= k < boundary_from(chain, i) ==> !(#[trigger] ends_session(chain, k)),
        boundary_from(chain, i) + 1 == chain.len() || ends_session(
            chain,
            boundary_from(chain, i) as int,
        ),
    decreases chain.len() - i,
{
    if i + 1 < chain.len() && !ends_session(chain, i as int) {
        lemma_first_end(chain, i + 1);
    }
}

/// Two chains are of one session exactly when a process with one number and one
/// known start time stands in both of them below the end of the session.
pub proof fn law_what_a_session_shares(a: Seq<Ancestor>, b: Seq<Ancestor>)
    ensures
        one_session(a, b) <==> exists|i: int, j: int|
            0 <= i < a.len() && 0 <= j < b.len() && i < boundary(a)->0 && j < boundary(b)->0 && (
            #[trigger] a[i]).pid == (#[trigger] b[j]).pid && a[i].start == b[j].start
                && a[i].start is Some,
{
    if one_session(a, b) {
        let (i, j) = choose|i: int, j: int|
            0 <= i < a.len() && 0 <= j < b.len() && i < boundary_from(a, 0) && j < boundary_from(
                b,
                0,
            ) && #[trigger] same_process(a[i], b[j]);
        assert(a[i].pid == b[j].pid);
    }
    if exists|i: int, j: int|
        0 <= i < a.len() && 0 <= j < b.len() && i < boundary(a)->0 && j < boundary(b)->0 && (
        #[trigger] a[i]).pid == (#[trigger] b[j]).pid && a[i].start == b[j].start
            && a[i].start is Some {
        let (i, j) = choose|i: int, j: int|
            0 <= i < a.len() && 0 <= j < b.len() && i < boundary(a)->0 && j < boundary(b)->0 && (
            #[trigger] a[i]).pid == (#[trigger] b[j]).pid && a[i].start == b[j].start
                && a[i].start is Some;
        assert(same_process(a[i], b[j]));
    }
}

/// Two chains are of one session exactly where a process with one number and one
/// known start time stands below the end of the session in both of them.
pub proof fn law_which_chains_share_a_session(
    a: &[Ancestor],
    b: &[Ancestor],
    end_a: Option<usize>,
    end_b: Option<usize>,
    r: bool,
)
    requires
        call_ensures(shared, (a, b), r),
        call_ensures(boundary_index, (a,), end_a),
        call_ensures(boundary_index, (b,), end_b),
    ensures
        end_a is None <==> a@.len() == 0,
        r <==> exists|i: int, j: int|
            0 <= i < a@.len() && 0 <= j < b@.len() && i < end_a->0 && j < end_b->0 && (
            #[trigger] a@[i]).pid == (#[trigger] b@[j]).pid && a@[i].start == b@[j].start
                && a@[i].start is Some,
{
    law_what_a_session_shares(a@, b@);
}

} // verus!
