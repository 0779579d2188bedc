//! A file that describes several stages, which qex submits together.
//!
//! The names in the file belong to that file and to that one submission. The
//! stages of one submission share a group id.

use crate::ids;
use crate::job;
use crate::paths;
use crate::text;
use vstd::prelude::*;
use vstd::string::*;

verus! {

/// What a stage claims.
#[derive(Debug, Clone)]
pub struct Resources {
    pub cpu: Option<u64>,
    /// A size, such as `8GB`.
    pub mem: Option<String>,
}

/// One stage of a pipeline.
#[derive(Debug)]
pub struct Stage {
    /// The name of this stage. The other stages use it in `needs` and `after`.
    pub name: String,
    pub cwd: Option<String>,
    pub command: Vec<String>,
    pub timeout: Option<String>,
    pub tags: Vec<String>,
    pub priority: Option<i32>,
    pub env_capture: Option<String>,
    /// The stages that must succeed before this one.
    pub needs: Vec<String>,
    /// The stages that must stop before this one, whatever their result.
    pub after: Vec<String>,
    pub resources: Resources,
    pub env: Vec<(String, String)>,
}

/// A file that describes several stages.
#[derive(Debug)]
pub struct PipelineFile {
    /// A name for the whole pipeline.
    pub name: Option<String>,
    /// The stages.
    pub jobs: Vec<Stage>,
}

/// The names of the stages.
pub open spec fn stage_names(jobs: Seq<Stage>) -> Seq<Seq<char>> {
    jobs.map_values(|s: Stage| s.name@)
}

/// The names that a stage waits for.
pub open spec fn waits(stage: Stage) -> Seq<Seq<char>> {
    text::views(stage.needs@) + text::views(stage.after@)
}

// ---------------------------------------------------------------------------
// The order of the stages.
// ---------------------------------------------------------------------------

/// The position of the last of the first `n` names that is the name.
pub open spec fn position(names: Seq<Seq<char>>, name: Seq<char>, n: nat) -> Option<usize>
    decreases n,
{
    if n == 0 {
        None
    } else if names[n - 1] == name {
        Some((n - 1) as usize)
    } else {
        position(names, name, (n - 1) as nat)
    }
}

/// The positions of the stages that the list names. A name that no stage has
/// gives none.
pub open spec fn positions(names: Seq<Seq<char>>, list: Seq<Seq<char>>) -> Seq<usize>
    decreases list.len(),
{
    if list.len() == 0 {
        Seq::empty()
    } else {
        let rest = positions(names, list.drop_last());
        match position(names, list.last(), names.len()) {
            Some(i) => rest.push(i),
            None => rest,
        }
    }
}

/// For each stage, the positions of the stages that it waits for.
pub open spec fn graph_of(jobs: Seq<Stage>) -> Seq<Seq<usize>> {
    Seq::new(jobs.len(), |i: int| positions(stage_names(jobs), waits(jobs[i])))
}

/// What a walk over the stages comes to.
pub enum Walk {
    /// The stages that were put in order.
    Done(Seq<usize>),
    /// The stages of a circle. The first one is the last one.
    Circle(Seq<usize>),
}

/// The path from the first place where `at` stands on it, with `at` after it.
pub open spec fn circle_at(path: Seq<usize>, at: usize) -> Seq<usize>
    decreases path.len(),
{
    if path.len() == 0 || path[0] == at {
        path.push(at)
    } else {
        circle_at(path.skip(1), at)
    }
}

/// Puts a stage in order, after the stages that it waits for. `path` holds the
/// stages that wait for this one, and `done` the stages that are in order.
pub open spec fn visited(
    graph: Seq<Seq<usize>>,
    at: usize,
    path: Seq<usize>,
    done: Seq<usize>,
) -> Walk
    decreases graph.len() - path.len(), 1nat, 0nat,
{
    if path.contains(at) {
        Walk::Circle(circle_at(path, at))
    } else if done.contains(at) || path.len() >= graph.len() {
        Walk::Done(done)
    } else {
        match visited_all(graph, graph[at as int], 0, path.push(at), done) {
            Walk::Done(d) => Walk::Done(d.push(at)),
            Walk::Circle(c) => Walk::Circle(c),
        }
    }
}

/// Puts the stages of the list in order, from position `k`.
pub open spec fn visited_all(
    graph: Seq<Seq<usize>>,
    list: Seq<usize>,
    k: nat,
    path: Seq<usize>,
    done: Seq<usize>,
) -> Walk
    decreases graph.len() - path.len() + 1, 0nat, list.len() - k,
{
    if k >= list.len() {
        Walk::Done(done)
    } else if path.len() > graph.len() {
        Walk::Done(done)
    } else {
        match visited(graph, list[k as int], path, done) {
            Walk::Done(d) => visited_all(graph, list, k + 1, path, d),
            Walk::Circle(c) => Walk::Circle(c),
        }
    }
}

/// Puts the stages from `start` on in order.
pub open spec fn ordered_from(graph: Seq<Seq<usize>>, start: nat, done: Seq<usize>) -> Walk
    decreases graph.len() - start,
{
    if start >= graph.len() {
        Walk::Done(done)
    } else {
        match visited(graph, start as usize, Seq::empty(), done) {
            Walk::Done(d) => ordered_from(graph, start + 1, d),
            Walk::Circle(c) => Walk::Circle(c),
        }
    }
}

/// Every stage waits for stages of the file only.
pub open spec fn graph_wf(graph: Seq<Seq<usize>>) -> bool {
    forall|i: int, k: int|
        0 <= i < graph.len() && 0 <= k < graph[i].len() ==> (#[trigger] graph[i][k]) < graph.len()
}

/// The lists of the executable graph.
pub open spec fn rows(graph: Seq<Vec<usize>>) -> Seq<Seq<usize>> {
    graph.map_values(|v: Vec<usize>| v@)
}

/// The marks say which stages are on the path and which are in order.
spec fn marks_wf(marks: Seq<u8>, path: Seq<usize>, done: Seq<usize>) -> bool {
    &&& forall|i: usize|
        i < marks.len() ==> {
            &&& #[trigger] marks[i as int] == 1 <==> path.contains(i)
            &&& marks[i as int] == 2 <==> done.contains(i)
            &&& marks[i as int] <= 2
        }
    &&& path.no_duplicates()
    &&& forall|k: int| 0 <= k < path.len() ==> (#[trigger] path[k]) < marks.len()
}

proof fn lemma_path_is_short(path: Seq<usize>, n: nat)
    requires
        path.no_duplicates(),
        forall|k: int| 0 <= k < path.len() ==> (#[trigger] path[k]) < n,
    ensures
        path.len() <= n,
{
    let ints = path.map_values(|u: usize| u as int);
    assert(ints.no_duplicates()) by {
        assert forall|i: int, j: int| 0 <= i < ints.len() && 0 <= j < ints.len() && i
            != j implies ints[i] != ints[j] by {
            assert(path[i] != path[j]);
        }
    }
    ints.unique_seq_to_set();
    vstd::set_lib::lemma_int_range(0, n as int);
    let range = vstd::set_lib::set_int_range(0, n as int);
    assert(ints.to_set().subset_of(range)) by {
        assert forall|x: int| ints.to_set().contains(x) implies range.contains(x) by {
            let k = choose|k: int| 0 <= k < ints.len() && ints[k] == x;
            assert(path[k] < n);
        }
    }
    vstd::set_lib::lemma_len_subset(ints.to_set(), range);
}

fn circle(path: &Vec<usize>, at: usize) -> (r: Vec<usize>)
    ensures
        r@ == circle_at(path@, at),
{
    let mut i: usize = 0;
    assert(path@.skip(0) == path@);
    while i < path.len() && path[i] != at
        invariant
            i <= path@.len(),
            circle_at(path@, at) == circle_at(path@.skip(i as int), at),
        decreases path@.len() - i,
    {
        assert(path@.skip(i as int).skip(1) == path@.skip(i + 1));
        i += 1;
    }
    let mut out: Vec<usize> = Vec::new();
    let ghost start = i as int;
    while i < path.len()
        invariant
            0 <= start <= i <= path@.len(),
            out@ == path@.subrange(start, i as int),
        decreases path@.len() - i,
    {
        out.push(path[i]);
        assert(path@.subrange(start, i + 1) == path@.subrange(start, i as int).push(
            path@[i as int],
        ));
        i += 1;
    }
    assert(path@.subrange(start, path@.len() as int) == path@.skip(start));
    out.push(at);
    out
}

fn visit(
    graph: &Vec<Vec<usize>>,
    at: usize,
    marks: &mut Vec<u8>,
    done: &mut Vec<usize>,
    path: &mut Vec<usize>,
) -> (r: Result<(), Vec<usize>>)
    requires
        graph_wf(rows(graph@)),
        at < graph@.len(),
        old(marks)@.len() == graph@.len(),
        marks_wf(old(marks)@, old(path)@, old(done)@),
    ensures
        match r {
            Ok(_) => {
                &&& visited(rows(graph@), at, old(path)@, old(done)@) == Walk::Done(final(done)@)
                &&& final(path)@ == old(path)@
                &&& final(marks)@.len() == graph@.len()
                &&& marks_wf(final(marks)@, final(path)@, final(done)@)
            },
            Err(c) => visited(rows(graph@), at, old(path)@, old(done)@) == Walk::Circle(c@),
        },
    decreases graph@.len() - old(path)@.len(),
{
    let ghost g = rows(graph@);
    let ghost path0 = path@;
    let ghost done0 = done@;
    let ghost marks0 = marks@;
    proof {
        lemma_path_is_short(path@, graph@.len());
    }
    if marks[at] == 1 {
        return Err(circle(path, at));
    }
    if marks[at] == 2 {
        return Ok(());
    }
    assert(!path@.contains(at) && !done@.contains(at)) by {
        assert(marks@[at as int] != 1);
    }
    marks.set(at, 1);
    path.push(at);
    let ghost path1 = path@;
    proof {
        assert(path1.no_duplicates()) by {
            assert forall|i: int, j: int| 0 <= i < path1.len() && 0 <= j < path1.len() && i
                != j implies path1[i] != path1[j] by {
                if i == path0.len() {
                    assert(path0.contains(path0[j]));
                }
                if j == path0.len() {
                    assert(path0.contains(path0[i]));
                }
            }
        }
        assert(marks_wf(marks@, path1, done@)) by {
            assert forall|i: usize| i < marks@.len() implies {
                &&& #[trigger] marks@[i as int] == 1 <==> path1.contains(i)
                &&& marks@[i as int] == 2 <==> done@.contains(i)
                &&& marks@[i as int] <= 2
            } by {
                lemma_push_contains(path0, at, i);
                assert(marks0[i as int] <= 2);
            }
        }
        lemma_path_is_short(path1, graph@.len());
    }
    let ghost list = g[at as int];
    assert(list == graph@[at as int]@);
    let mut k: usize = 0;
    while k < graph[at].len()
        invariant
            g == rows(graph@),
            graph_wf(g),
            at < graph@.len(),
            list == graph@[at as int]@,
            list == g[at as int],
            k <= list.len(),
            marks@.len() == graph@.len(),
            path@ == path1,
            path1 == path0.push(at),
            !path0.contains(at),
            !done0.contains(at),
            done0 == old(done)@,
            g.len() == graph@.len(),
            path1.len() <= graph@.len(),
            path0 == old(path)@,
            marks_wf(marks@, path@, done@),
            visited_all(g, list, 0, path1, done0) == visited_all(g, list, k as nat, path1, done@),
        decreases list.len() - k,
    {
        let next: usize = graph[at][k];
        assert(g[at as int][k as int] == next);
        match visit(graph, next, marks, done, path) {
            Ok(_) => {},
            Err(c) => {
                return Err(c);
            },
        }
        k += 1;
    }
    let ghost marks1 = marks@;
    let ghost done1 = done@;
    let _ = path.pop();
    assert(path@ == path0);
    marks.set(at, 2);
    done.push(at);
    proof {
        assert forall|i: usize| i < marks@.len() implies {
            &&& #[trigger] marks@[i as int] == 1 <==> path0.contains(i)
            &&& marks@[i as int] == 2 <==> done@.contains(i)
            &&& marks@[i as int] <= 2
        } by {
            lemma_push_contains(path0, at, i);
            lemma_push_contains(done1, at, i);
            assert(marks1[i as int] <= 2);
        }
    }
    Ok(())
}

proof fn lemma_push_contains(s: Seq<usize>, x: usize, y: usize)
    ensures
        s.push(x).contains(y) <==> s.contains(y) || x == y,
{
    if s.contains(y) {
        let k = choose|k: int| 0 <= k < s.len() && s[k] == y;
        assert(s.push(x)[k] == y);
    }
    assert(s.push(x)[s.len() as int] == x);
    if s.push(x).contains(y) && x != y {
        let k = choose|k: int| 0 <= k < s.push(x).len() && s.push(x)[k] == y;
        assert(s[k] == y);
    }
}

fn find_name(jobs: &Vec<Stage>, name: &str) -> (r: Option<usize>)
    ensures
        r == position(stage_names(jobs@), name@, jobs@.len()),
        r matches Some(i) ==> i < jobs@.len(),
        r is Some <==> stage_names(jobs@).contains(name@),
{
    let ghost names = stage_names(jobs@);
    let mut n: usize = jobs.len();
    while n > 0
        invariant
            n <= jobs@.len(),
            names == stage_names(jobs@),
            position(names, name@, jobs@.len()) == position(names, name@, n as nat),
            forall|k: int| n <= k < jobs@.len() ==> names[k] != name@,
        decreases n,
    {
        if text::same(jobs[n - 1].name.as_str(), name) {
            assert(names[n - 1] == name@);
            return Some(n - 1);
        }
        n -= 1;
    }
    None
}

fn add_positions(jobs: &Vec<Stage>, list: &Vec<String>, out: &mut Vec<usize>)
    requires
        forall|k: int| 0 <= k < old(out)@.len() ==> (#[trigger] old(out)@[k]) < jobs@.len(),
    ensures
        final(out)@ == old(out)@ + positions(stage_names(jobs@), text::views(list@)),
        forall|k: int| 0 <= k < final(out)@.len() ==> (#[trigger] final(out)@[k]) < jobs@.len(),
{
    let ghost names = stage_names(jobs@);
    let ghost all = text::views(list@);
    let mut i: usize = 0;
    assert(all.take(0) == Seq::<Seq<char>>::empty());
    while i < list.len()
        invariant
            i <= list@.len(),
            names == stage_names(jobs@),
            all == text::views(list@),
            out@ == old(out)@ + positions(names, all.take(i as int)),
            forall|k: int| 0 <= k < out@.len() ==> (#[trigger] out@[k]) < jobs@.len(),
        decreases list@.len() - i,
    {
        assert(all.take(i + 1).drop_last() == all.take(i as int));
        assert(all[i as int] == list@[i as int]@);
        assert(names.len() == jobs@.len());
        match find_name(jobs, list[i].as_str()) {
            Some(p) => {
                out.push(p);
            },
            None => {},
        }
        assert(out@ == old(out)@ + positions(names, all.take(i + 1)));
        i += 1;
    }
    assert(all.take(all.len() as int) == all);
}

proof fn lemma_positions_of_both(
    names: Seq<Seq<char>>,
    a: Seq<Seq<char>>,
    b: Seq<Seq<char>>,
)
    ensures
        positions(names, a + b) == positions(names, a) + positions(names, b),
    decreases b.len(),
{
    if b.len() == 0 {
        assert(a + b == a);
        assert(positions(names, a) + positions(names, b) == positions(names, a));
    } else {
        lemma_positions_of_both(names, a, b.drop_last());
        assert((a + b).drop_last() == a + b.drop_last());
        assert((a + b).last() == b.last());
        assert(positions(names, a + b) == positions(names, a) + positions(names, b));
    }
}

fn build_graph(jobs: &Vec<Stage>) -> (r: Vec<Vec<usize>>)
    ensures
        rows(r@) == graph_of(jobs@),
        graph_wf(rows(r@)),
{
    let ghost names = stage_names(jobs@);
    let mut out: Vec<Vec<usize>> = Vec::new();
    let mut i: usize = 0;
    while i < jobs.len()
        invariant
            i <= jobs@.len(),
            names == stage_names(jobs@),
            out@.len() == i,
            forall|k: int|
                0 <= k < i ==> #[trigger] out@[k]@ == positions(names, waits(jobs@[k])),
            forall|k: int, m: int|
                0 <= k < i && 0 <= m < out@[k]@.len() ==> (#[trigger] out@[k]@[m]) < jobs@.len(),
        decreases jobs@.len() - i,
    {
        let mut row: Vec<usize> = Vec::new();
        add_positions(jobs, &jobs[i].needs, &mut row);
        add_positions(jobs, &jobs[i].after, &mut row);
        proof {
            lemma_positions_of_both(
                names,
                text::views(jobs@[i as int].needs@),
                text::views(jobs@[i as int].after@),
            );
            assert(row@ == positions(names, waits(jobs@[i as int])));
        }
        out.push(row);
        i += 1;
    }
    proof {
        assert(rows(out@) == graph_of(jobs@));
        assert forall|a: int, k: int|
            0 <= a < rows(out@).len() && 0 <= k < rows(out@)[a].len() implies (
        #[trigger] rows(out@)[a][k]) < rows(out@).len() by {
            assert(rows(out@)[a] == out@[a]@);
            assert(out@[a]@[k] < jobs@.len());
        }
    }
    out
}

/// The text of a circle.
pub open spec fn circle_text(names: Seq<Seq<char>>, circle: Seq<usize>) -> Seq<char> {
    "the stages make a circle: "@ + text::joined(
        circle.map_values(|i: usize| names[i as int]),
        " -> "@,
    ) + ". A stage cannot wait for itself, and no stage can start."@
}

fn text_of_circle(jobs: &Vec<Stage>, circle: &Vec<usize>) -> (r: String)
    requires
        forall|k: int| 0 <= k < circle@.len() ==> (#[trigger] circle@[k]) < jobs@.len(),
    ensures
        r@ == circle_text(stage_names(jobs@), circle@),
{
    let ghost names = stage_names(jobs@);
    let ghost want = circle@.map_values(|i: usize| names[i as int]);
    let mut words: Vec<String> = Vec::new();
    let mut i: usize = 0;
    while i < circle.len()
        invariant
            i <= circle@.len(),
            names == stage_names(jobs@),
            want == circle@.map_values(|i: usize| names[i as int]),
            forall|k: int| 0 <= k < circle@.len() ==> (#[trigger] circle@[k]) < jobs@.len(),
            text::views(words@) == want.take(i as int),
        decreases circle@.len() - i,
    {
        let ghost before = words@;
        words.push(jobs[circle[i]].name.clone());
        assert(text::views(words@) == text::views(before).push(want[i as int]));
        assert(want.take(i + 1) == want.take(i as int).push(want[i as int]));
        i += 1;
    }
    assert(want.take(want.len() as int) == want);
    let mut m = text::owned("the stages make a circle: ");
    m.append(text::join(&words, " -> ").as_str());
    m.append(". A stage cannot wait for itself, and no stage can start.");
    m
}

/// True when the stage at `a` waits for the stage at `b`.
pub open spec fn edge(graph: Seq<Seq<usize>>, a: usize, b: usize) -> bool {
    graph[a as int].contains(b)
}

/// Each stage of the path waits for the one after it.
pub open spec fn chain(graph: Seq<Seq<usize>>, path: Seq<usize>) -> bool {
    forall|k: int|
        0 <= k < path.len() - 1 ==> edge(graph, #[trigger] path[k], path[k + 1])
}

/// Every position is that of a stage.
pub open spec fn in_range(list: Seq<usize>, n: nat) -> bool {
    forall|k: int| 0 <= k < list.len() ==> (#[trigger] list[k]) < n
}

/// The list is a circle: each stage waits for the one after it, and the last one
/// is the first one.
pub open spec fn is_circle(graph: Seq<Seq<usize>>, c: Seq<usize>) -> bool {
    &&& c.len() >= 2
    &&& c[0] == c.last()
    &&& chain(graph, c)
    &&& in_range(c, graph.len())
}

/// No stage stands twice in the list, and each stands after the stages that it
/// waits for.
pub open spec fn is_sound(graph: Seq<Seq<usize>>, done: Seq<usize>) -> bool {
    &&& done.no_duplicates()
    &&& in_range(done, graph.len())
    &&& forall|i: int, b: usize|
        0 <= i < done.len() && #[trigger] edge(graph, done[i], b) ==> done.take(i).contains(b)
}

spec fn disjoint(a: Seq<usize>, b: Seq<usize>) -> bool {
    forall|x: usize| !(#[trigger] a.contains(x) && b.contains(x))
}

/// What a walk from the path and the list comes to.
spec fn good(graph: Seq<Seq<usize>>, path: Seq<usize>, done: Seq<usize>, w: Walk) -> bool {
    match w {
        Walk::Done(d) => {
            &&& is_sound(graph, d)
            &&& disjoint(d, path)
            &&& forall|x: usize| done.contains(x) ==> #[trigger] d.contains(x)
        },
        Walk::Circle(c) => is_circle(graph, c),
    }
}

proof fn lemma_circle(graph: Seq<Seq<usize>>, path: Seq<usize>, at: usize)
    requires
        path.contains(at),
        chain(graph, path),
        in_range(path, graph.len()),
        edge(graph, path.last(), at),
    ensures
        is_circle(graph, circle_at(path, at)),
    decreases path.len(),
{
    if path[0] == at {
        let c = path.push(at);
        assert forall|k: int| 0 <= k < c.len() - 1 implies edge(
            graph,
            #[trigger] c[k],
            c[k + 1],
        ) by {
            if k < path.len() - 1 {
                assert(edge(graph, path[k], path[k + 1]));
            }
        }
    } else {
        let rest = path.skip(1);
        let k = choose|k: int| 0 <= k < path.len() && path[k] == at;
        assert(rest[k - 1] == at);
        assert forall|j: int| 0 <= j < rest.len() - 1 implies edge(
            graph,
            #[trigger] rest[j],
            rest[j + 1],
        ) by {
            assert(edge(graph, path[j + 1], path[j + 2]));
        }
        lemma_circle(graph, rest, at);
    }
}

spec fn ready(graph: Seq<Seq<usize>>, path: Seq<usize>, done: Seq<usize>) -> bool {
    &&& graph_wf(graph)
    &&& path.no_duplicates()
    &&& in_range(path, graph.len())
    &&& chain(graph, path)
    &&& is_sound(graph, done)
    &&& disjoint(done, path)
}

proof fn lemma_visited(graph: Seq<Seq<usize>>, at: usize, path: Seq<usize>, done: Seq<usize>)
    requires
        ready(graph, path, done),
        at < graph.len(),
        path.len() > 0 ==> edge(graph, path.last(), at),
    ensures
        good(graph, path, done, visited(graph, at, path, done)),
        visited(graph, at, path, done) matches Walk::Done(d) ==> d.contains(at),
    decreases graph.len() - path.len(), 1nat, 0nat,
{
    if path.contains(at) {
        lemma_circle(graph, path, at);
    } else if done.contains(at) {
    } else {
        let longer = path.push(at);
        assert(longer.no_duplicates()) by {
            assert forall|i: int, j: int| 0 <= i < longer.len() && 0 <= j < longer.len() && i
                != j implies longer[i] != longer[j] by {
                if i == path.len() {
                    assert(path.contains(path[j]));
                }
                if j == path.len() {
                    assert(path.contains(path[i]));
                }
            }
        }
        lemma_path_is_short(longer, graph.len());
        assert(chain(graph, longer)) by {
            assert forall|k: int| 0 <= k < longer.len() - 1 implies edge(
                graph,
                #[trigger] longer[k],
                longer[k + 1],
            ) by {
                if k < path.len() - 1 {
                    assert(edge(graph, path[k], path[k + 1]));
                }
            }
        }
        assert(disjoint(done, longer)) by {
            assert forall|x: usize| !(#[trigger] done.contains(x) && longer.contains(x)) by {
                lemma_push_contains(path, at, x);
            }
        }
        let list = graph[at as int];
        lemma_visited_all(graph, list, 0, longer, done);
        match visited_all(graph, list, 0, longer, done) {
            Walk::Done(d) => {
                let all = d.push(at);
                lemma_push_contains(path, at, at);
                assert(longer.contains(at));
                assert(!d.contains(at));
                assert(all.no_duplicates()) by {
                    assert forall|i: int, j: int| 0 <= i < all.len() && 0 <= j < all.len() && i
                        != j implies all[i] != all[j] by {
                        if i == d.len() {
                            assert(d.contains(d[j]));
                        }
                        if j == d.len() {
                            assert(d.contains(d[i]));
                        }
                    }
                }
                assert forall|i: int, b: usize|
                    0 <= i < all.len() && #[trigger] edge(graph, all[i], b) implies all.take(
                    i,
                ).contains(b) by {
                    if i < d.len() {
                        assert(edge(graph, d[i], b));
                        assert(all.take(i) == d.take(i));
                    } else {
                        let k = choose|k: int| 0 <= k < list.len() && list[k] == b;
                        assert(d.contains(list[k]));
                        assert(all.take(i) == d);
                    }
                }
                assert(in_range(all, graph.len()));
                assert(disjoint(all, path)) by {
                    assert forall|x: usize| !(#[trigger] all.contains(x) && path.contains(x)) by {
                        lemma_push_contains(d, at, x);
                        lemma_push_contains(path, at, x);
                    }
                }
                assert forall|x: usize| done.contains(x) implies #[trigger] all.contains(x) by {
                    lemma_push_contains(d, at, x);
                    assert(d.contains(x));
                }
                lemma_push_contains(d, at, at);
            },
            Walk::Circle(c) => {},
        }
    }
}

proof fn lemma_visited_all(
    graph: Seq<Seq<usize>>,
    list: Seq<usize>,
    k: nat,
    path: Seq<usize>,
    done: Seq<usize>,
)
    requires
        ready(graph, path, done),
        path.len() > 0,
        path.len() <= graph.len(),
        list == graph[path.last() as int],
        k <= list.len(),
    ensures
        good(graph, path, done, visited_all(graph, list, k, path, done)),
        visited_all(graph, list, k, path, done) matches Walk::Done(d) ==> forall|j: int|
            k <= j < list.len() ==> d.contains(#[trigger] list[j]),
    decreases graph.len() - path.len() + 1, 0nat, list.len() - k,
{
    if k < list.len() {
        let at = list[k as int];
        assert(path.last() == path[path.len() - 1]);
        assert(graph[path.last() as int][k as int] < graph.len());
        assert(edge(graph, path.last(), at));
        lemma_visited(graph, at, path, done);
        match visited(graph, at, path, done) {
            Walk::Done(d) => {
                lemma_visited_all(graph, list, k + 1, path, d);
                match visited_all(graph, list, k + 1, path, d) {
                    Walk::Done(e) => {
                        assert forall|x: usize| done.contains(x) implies #[trigger] e.contains(
                            x,
                        ) by {
                            assert(d.contains(x));
                        }
                        assert(e.contains(at)) by {
                            assert(d.contains(at));
                        }
                    },
                    Walk::Circle(c) => {},
                }
            },
            Walk::Circle(c) => {},
        }
    }
}

proof fn lemma_ordered(graph: Seq<Seq<usize>>, start: nat, done: Seq<usize>)
    requires
        graph_wf(graph),
        graph.len() <= usize::MAX,
        is_sound(graph, done),
        forall|x: usize| x < start && x < graph.len() ==> done.contains(x),
    ensures
        match ordered_from(graph, start, done) {
            Walk::Done(d) => is_sound(graph, d) && forall|x: usize|
                x < graph.len() ==> #[trigger] d.contains(x),
            Walk::Circle(c) => is_circle(graph, c),
        },
    decreases graph.len() - start,
{
    if start < graph.len() {
        let none: Seq<usize> = Seq::empty();
        assert(disjoint(done, none));
        lemma_visited(graph, start as usize, none, done);
        match visited(graph, start as usize, none, done) {
            Walk::Done(d) => {
                assert forall|x: usize| x < start + 1 && x < graph.len() implies d.contains(
                    x,
                ) by {
                    if x < start {
                        assert(done.contains(x));
                    }
                }
                lemma_ordered(graph, start + 1, d);
            },
            Walk::Circle(c) => {},
        }
    }
}

/// The order of the stages of a file, or the circle that they make.
pub open spec fn stage_order(jobs: Seq<Stage>) -> Walk {
    ordered_from(graph_of(jobs), 0, Seq::empty())
}

proof fn lemma_graph_wf(jobs: Seq<Stage>)
    requires
        jobs.len() <= usize::MAX,
    ensures
        graph_wf(graph_of(jobs)),
{
    let names = stage_names(jobs);
    assert forall|i: int, k: int|
        0 <= i < graph_of(jobs).len() && 0 <= k < graph_of(jobs)[i].len() implies (
    #[trigger] graph_of(jobs)[i][k]) < graph_of(jobs).len() by {
        lemma_positions(names, waits(jobs[i]));
        assert(graph_of(jobs)[i] == positions(names, waits(jobs[i])));
    }
}

proof fn lemma_position(names: Seq<Seq<char>>, name: Seq<char>, n: nat)
    requires
        n <= names.len() <= usize::MAX,
    ensures
        position(names, name, n) matches Some(i) ==> i < n && names[i as int] == name,
        position(names, name, n) is None ==> forall|k: int| 0 <= k < n ==> names[k] != name,
    decreases n,
{
    if n > 0 && names[n - 1] != name {
        lemma_position(names, name, (n - 1) as nat);
    }
}

proof fn lemma_positions(names: Seq<Seq<char>>, list: Seq<Seq<char>>)
    requires
        names.len() <= usize::MAX,
    ensures
        in_range(positions(names, list), names.len()),
        forall|k: int|
            0 <= k < list.len() && names.contains(#[trigger] list[k]) ==> exists|i: usize|
                positions(names, list).contains(i) && #[trigger] names[i as int] == list[k],
    decreases list.len(),
{
    if list.len() > 0 {
        lemma_positions(names, list.drop_last());
        lemma_position(names, list.last(), names.len());
        let rest = positions(names, list.drop_last());
        assert forall|k: int| 0 <= k < list.len() && names.contains(#[trigger] list[k]) implies exists|
            i: usize,
        |
            positions(names, list).contains(i) && #[trigger] names[i as int] == list[k] by {
            if k < list.len() - 1 {
                assert(list.drop_last()[k] == list[k]);
                let i = choose|i: usize|
                    rest.contains(i) && #[trigger] names[i as int] == list.drop_last()[k];
                match position(names, list.last(), names.len()) {
                    Some(p) => {
                        lemma_push_contains(rest, p, i);
                    },
                    None => {},
                }
                assert(positions(names, list).contains(i) && names[i as int] == list[k]);
            } else {
                let m = choose|m: int| 0 <= m < names.len() && names[m] == list[k];
                let i = position(names, list.last(), names.len())->0;
                lemma_push_contains(rest, i, i);
                assert(positions(names, list).contains(i) && names[i as int] == list[k]);
            }
        }
    }
}

impl PipelineFile {
    /// Gives the stages in an order where each stage comes after the stages
    /// that it waits for, or the text of the circle that they make.
    pub fn order(&self) -> (r: Result<Vec<usize>, String>)
        ensures
            match r {
                Ok(d) => stage_order(self.jobs@) == Walk::Done(d@),
                Err(e) => stage_order(self.jobs@) matches Walk::Circle(c) && e@ == circle_text(
                    stage_names(self.jobs@),
                    c,
                ),
            },
    {
        let graph = build_graph(&self.jobs);
        let ghost g = rows(graph@);
        assert(graph@.len() == g.len());
        let total: usize = graph.len();
        let mut marks: Vec<u8> = Vec::new();
        let mut i: usize = 0;
        while i < total
            invariant
                i <= total,
                marks@.len() == i,
                forall|k: int| 0 <= k < i ==> #[trigger] marks@[k] == 0,
            decreases total - i,
        {
            marks.push(0);
            i += 1;
        }
        let mut done: Vec<usize> = Vec::new();
        let mut path: Vec<usize> = Vec::new();
        let mut start: usize = 0;
        while start < total
            invariant
                start <= total,
                total == graph@.len(),
                g == rows(graph@),
                g == graph_of(self.jobs@),
                graph_wf(g),
                marks@.len() == graph@.len(),
                path@ == Seq::<usize>::empty(),
                marks_wf(marks@, path@, done@),
                stage_order(self.jobs@) == ordered_from(g, start as nat, done@),
            decreases total - start,
        {
            match visit(&graph, start, &mut marks, &mut done, &mut path) {
                Ok(_) => {},
                Err(c) => {
                    assert(stage_order(self.jobs@) == Walk::Circle(c@));
                    proof {
                        lemma_ordered(g, 0, Seq::empty());
                    }
                    return Err(text_of_circle(&self.jobs, &c));
                },
            }
            start += 1;
        }
        Ok(done)
    }
}

/// The order of the stages holds each stage one time, and each stage stands
/// after every stage of the file that it waits for.
pub proof fn law_the_order_respects_every_wait(jobs: Seq<Stage>, order: Seq<usize>)
    requires
        jobs.len() <= usize::MAX,
        stage_order(jobs) == Walk::Done(order),
    ensures
        order.no_duplicates(),
        forall|x: usize| x < jobs.len() <==> #[trigger] order.contains(x),
        forall|i: int, k: int|
            0 <= i < order.len() && 0 <= k < waits(jobs[order[i] as int]).len()
                && stage_names(jobs).contains(#[trigger] waits(jobs[order[i] as int])[k])
                ==> exists|j: int|
                0 <= j < i && stage_names(jobs)[(#[trigger] order[j]) as int] == waits(
                    jobs[order[i] as int],
                )[k],
{
    let g = graph_of(jobs);
    lemma_graph_wf(jobs);
    lemma_ordered(g, 0, Seq::empty());
    assert forall|x: usize| #[trigger] order.contains(x) implies x < jobs.len() by {
        let k = choose|k: int| 0 <= k < order.len() && order[k] == x;
        assert(order[k] < g.len());
    }
    let names = stage_names(jobs);
    assert forall|i: int, k: int|
        0 <= i < order.len() && 0 <= k < waits(jobs[order[i] as int]).len() && names.contains(
            #[trigger] waits(jobs[order[i] as int])[k],
        ) implies exists|j: int|
        0 <= j < i && names[(#[trigger] order[j]) as int] == waits(jobs[order[i] as int])[k] by {
        let at = order[i];
        assert(at < g.len());
        let list = waits(jobs[at as int]);
        lemma_positions(names, list);
        assert(g[at as int] == positions(names, list));
        let b = choose|b: usize|
            positions(names, list).contains(b) && #[trigger] names[b as int] == list[k];
        assert(edge(g, order[i], b));
        assert(order.take(i).contains(b));
        let j = choose|j: int| 0 <= j < order.take(i).len() && order.take(i)[j] == b;
        assert(order[j] == b);
    }
}

/// A file has no order exactly when its stages make a circle, and the stages
/// that the fault names are such a circle.
pub proof fn law_no_order_exactly_for_a_circle(jobs: Seq<Stage>)
    requires
        jobs.len() <= usize::MAX,
    ensures
        stage_order(jobs) is Circle <==> exists|c: Seq<usize>| is_circle(graph_of(jobs), c),
        stage_order(jobs) matches Walk::Circle(c) ==> is_circle(graph_of(jobs), c),
{
    let g = graph_of(jobs);
    lemma_graph_wf(jobs);
    lemma_ordered(g, 0, Seq::empty());
    if exists|c: Seq<usize>| is_circle(g, c) {
        let c = choose|c: Seq<usize>| is_circle(g, c);
        match stage_order(jobs) {
            Walk::Done(d) => {
                assert(c[0] < g.len());
                assert(d.contains(c[0]));
                let at = choose|i: int| 0 <= i < d.len() && d[i] == c[0];
                lemma_down(g, d, c, at, c.len() - 1);
                let low = choose|i: int| 0 <= i <= at - (c.len() - 1) && d[i] == c[c.len() - 1];
                assert(d[low] == d[at]);
                assert(false);
            },
            Walk::Circle(_) => {},
        }
    }
}

proof fn lemma_down(graph: Seq<Seq<usize>>, d: Seq<usize>, c: Seq<usize>, at: int, k: int)
    requires
        is_sound(graph, d),
        chain(graph, c),
        0 <= k < c.len(),
        0 <= at < d.len(),
        d[at] == c[0],
    ensures
        exists|i: int| 0 <= i <= at - k && #[trigger] d[i] == c[k],
    decreases k,
{
    if k > 0 {
        lemma_down(graph, d, c, at, k - 1);
        let i = choose|i: int| 0 <= i <= at - (k - 1) && #[trigger] d[i] == c[k - 1];
        assert(edge(graph, c[k - 1], c[k - 1 + 1]));
        assert(edge(graph, d[i], c[k]));
        let j = choose|j: int| 0 <= j < d.take(i).len() && d.take(i)[j] == c[k];
        assert(d[j] == c[k]);
    }
}

// ---------------------------------------------------------------------------
// The faults that a person makes.
// ---------------------------------------------------------------------------

/// The fault of one stage, where the stages before it have none.
pub open spec fn stage_fault(jobs: Seq<Stage>, i: int) -> Option<Seq<char>> {
    let stage = jobs[i];
    let name = stage.name@;
    if text::trimmed(name).len() == 0 {
        Some("each stage needs a name, because the other stages use it"@)
    } else if ids::id_form(name) {
        Some(
            "the stage name `"@ + name
                + "` has the form of a job id. Use a name that a person can read, such as `build`."@,
        )
    } else if stage_names(jobs).take(i).contains(name) {
        Some(
            "two stages have the name `"@ + name
                + "`. Each name in a pipeline must be different, because the other stages use it."@,
        )
    } else if stage.command@.len() == 0 {
        Some("the stage `"@ + name + "` has no command"@)
    } else {
        None
    }
}

/// The first fault of a stage, from stage `i` on.
pub open spec fn first_stage_fault(jobs: Seq<Stage>, i: nat) -> Option<Seq<char>>
    decreases jobs.len() - i,
{
    if i >= jobs.len() {
        None
    } else {
        match stage_fault(jobs, i as int) {
            Some(f) => Some(f),
            None => first_stage_fault(jobs, i + 1),
        }
    }
}

/// The text for a stage that waits for a name that no stage has.
pub open spec fn unknown_text(jobs: Seq<Stage>, stage: Seq<char>, dep: Seq<char>) -> Seq<char> {
    "the stage `"@ + stage + "` waits for `"@ + dep
        + "`, and this file has no stage with that name. A stage can wait for the stages of its own file only.\n\nThe stages of this file are: "@
        + text::joined(stage_names(jobs), ", "@)
}

/// The first name of the list from `k` on that no stage has.
pub open spec fn first_unknown(names: Seq<Seq<char>>, list: Seq<Seq<char>>, k: nat) -> Option<
    Seq<char>,
>
    decreases list.len() - k,
{
    if k >= list.len() {
        None
    } else if !names.contains(list[k as int]) {
        Some(list[k as int])
    } else {
        first_unknown(names, list, k + 1)
    }
}

/// The first fault of what a stage waits for, from stage `i` on.
pub open spec fn first_wait_fault(jobs: Seq<Stage>, i: nat) -> Option<Seq<char>>
    decreases jobs.len() - i,
{
    if i >= jobs.len() {
        None
    } else {
        match first_unknown(stage_names(jobs), waits(jobs[i as int]), 0) {
            Some(dep) => Some(unknown_text(jobs, jobs[i as int].name@, dep)),
            None => first_wait_fault(jobs, i + 1),
        }
    }
}

/// The fault of a file: of a stage, of what a stage waits for, or a circle.
pub open spec fn file_fault(jobs: Seq<Stage>) -> Option<Seq<char>> {
    if jobs.len() == 0 {
        Some("this pipeline file has no stage. Add a `[[jobs]]` section."@)
    } else {
        match first_stage_fault(jobs, 0) {
            Some(f) => Some(f),
            None => match first_wait_fault(jobs, 0) {
                Some(f) => Some(f),
                None => match stage_order(jobs) {
                    Walk::Done(_) => None,
                    Walk::Circle(c) => Some(circle_text(stage_names(jobs), c)),
                },
            },
        }
    }
}

/// True when one of the first `n` stages has the name.
fn named_before(jobs: &Vec<Stage>, name: &str, n: usize) -> (r: bool)
    requires
        n <= jobs@.len(),
    ensures
        r == stage_names(jobs@).take(n as int).contains(name@),
{
    let ghost names = stage_names(jobs@).take(n as int);
    let mut i: usize = 0;
    while i < n
        invariant
            i <= n <= jobs@.len(),
            names == stage_names(jobs@).take(n as int),
            forall|k: int| 0 <= k < i ==> names[k] != name@,
        decreases n - i,
    {
        if text::same(jobs[i].name.as_str(), name) {
            assert(names[i as int] == name@);
            return true;
        }
        i += 1;
    }
    false
}

fn check_stage(jobs: &Vec<Stage>, i: usize) -> (r: Result<(), String>)
    requires
        i < jobs@.len(),
    ensures
        match r {
            Ok(_) => stage_fault(jobs@, i as int) is None,
            Err(e) => stage_fault(jobs@, i as int) == Some(e@),
        },
{
    let stage = &jobs[i];
    let name = stage.name.as_str();
    if text::is_empty(text::trim(name).as_str()) {
        return Err(text::owned("each stage needs a name, because the other stages use it"));
    }
    if ids::is_id(name) {
        let mut m = text::owned("the stage name `");
        m.append(name);
        m.append(
            "` has the form of a job id. Use a name that a person can read, such as `build`.",
        );
        return Err(m);
    }
    if named_before(jobs, name, i) {
        let mut m = text::owned("two stages have the name `");
        m.append(name);
        m.append(
            "`. Each name in a pipeline must be different, because the other stages use it.",
        );
        return Err(m);
    }
    if stage.command.len() == 0 {
        let mut m = text::owned("the stage `");
        m.append(name);
        m.append("` has no command");
        return Err(m);
    }
    Ok(())
}

fn all_names(jobs: &Vec<Stage>) -> (r: Vec<String>)
    ensures
        text::views(r@) == stage_names(jobs@),
{
    let ghost want = stage_names(jobs@);
    let mut out: Vec<String> = Vec::new();
    let mut i: usize = 0;
    while i < jobs.len()
        invariant
            i <= jobs@.len(),
            want == stage_names(jobs@),
            text::views(out@) == want.take(i as int),
        decreases jobs@.len() - i,
    {
        let ghost before = out@;
        out.push(jobs[i].name.clone());
        assert(text::views(out@) == text::views(before).push(want[i as int]));
        assert(want.take(i + 1) == want.take(i as int).push(want[i as int]));
        i += 1;
    }
    assert(want.take(want.len() as int) == want);
    out
}

/// The position of the first name of the list that no stage has.
fn unknown_of(jobs: &Vec<Stage>, list: &Vec<String>) -> (r: Option<usize>)
    ensures
        match r {
            Some(k) => {
                &&& k < list@.len()
                &&& !stage_names(jobs@).contains(list@[k as int]@)
                &&& forall|j: int|
                    0 <= j < k ==> stage_names(jobs@).contains(#[trigger] list@[j]@)
            },
            None => forall|j: int|
                0 <= j < list@.len() ==> stage_names(jobs@).contains(#[trigger] list@[j]@),
        },
{
    let mut i: usize = 0;
    while i < list.len()
        invariant
            i <= list@.len(),
            forall|j: int| 0 <= j < i ==> stage_names(jobs@).contains(#[trigger] list@[j]@),
        decreases list@.len() - i,
    {
        match find_name(jobs, list[i].as_str()) {
            Some(_) => {},
            None => {
                return Some(i);
            },
        }
        i += 1;
    }
    None
}

proof fn lemma_first_unknown(names: Seq<Seq<char>>, list: Seq<Seq<char>>, k: nat, n: int)
    requires
        k <= n <= list.len(),
        forall|j: int| k <= j < n ==> names.contains(#[trigger] list[j]),
    ensures
        first_unknown(names, list, k) == first_unknown(names, list, n as nat),
    decreases n - k,
{
    if k < n {
        assert(names.contains(list[k as int]));
        lemma_first_unknown(names, list, k + 1, n);
    }
}

fn check_waits(jobs: &Vec<Stage>, i: usize) -> (r: Result<(), String>)
    requires
        i < jobs@.len(),
    ensures
        match r {
            Ok(_) => first_unknown(stage_names(jobs@), waits(jobs@[i as int]), 0) is None,
            Err(e) => first_unknown(stage_names(jobs@), waits(jobs@[i as int]), 0) matches Some(
                dep,
            ) && e@ == unknown_text(jobs@, jobs@[i as int].name@, dep),
        },
{
    let stage = &jobs[i];
    let ghost names = stage_names(jobs@);
    let ghost list = waits(jobs@[i as int]);
    let first = unknown_of(jobs, &stage.needs);
    let dep: &String = match first {
        Some(k) => {
            proof {
                assert forall|j: int| 0 <= j < k implies names.contains(#[trigger] list[j]) by {
                    assert(list[j] == stage.needs@[j]@);
                }
                lemma_first_unknown(names, list, 0, k as int);
                assert(list[k as int] == stage.needs@[k as int]@);
            }
            &stage.needs[k]
        },
        None => {
            let second = unknown_of(jobs, &stage.after);
            let ghost n = stage.needs@.len();
            match second {
                Some(k) => {
                    proof {
                        assert forall|j: int| 0 <= j < n + k implies names.contains(
                            #[trigger] list[j],
                        ) by {
                            if j < n {
                                assert(list[j] == stage.needs@[j]@);
                            } else {
                                assert(list[j] == stage.after@[j - n]@);
                            }
                        }
                        lemma_first_unknown(names, list, 0, n + k);
                        assert(list[n + k] == stage.after@[k as int]@);
                    }
                    &stage.after[k]
                },
                None => {
                    proof {
                        assert forall|j: int| 0 <= j < list.len() implies names.contains(
                            #[trigger] list[j],
                        ) by {
                            if j < n {
                                assert(list[j] == stage.needs@[j]@);
                            } else {
                                assert(list[j] == stage.after@[j - n]@);
                            }
                        }
                        lemma_first_unknown(names, list, 0, list.len() as int);
                    }
                    return Ok(());
                },
            }
        },
    };
    let mut m = text::owned("the stage `");
    m.append(stage.name.as_str());
    m.append("` waits for `");
    m.append(dep.as_str());
    m.append(
        "`, and this file has no stage with that name. A stage can wait for the stages of its own file only.\n\nThe stages of this file are: ",
    );
    m.append(text::join(&all_names(jobs), ", ").as_str());
    Err(m)
}

impl PipelineFile {
    /// Tests the file for the faults that a person makes.
    pub fn validate(&self) -> (r: Result<(), String>)
        ensures
            match r {
                Ok(_) => file_fault(self.jobs@) is None,
                Err(e) => file_fault(self.jobs@) == Some(e@),
            },
    {
        if self.jobs.len() == 0 {
            return Err(
                text::owned("this pipeline file has no stage. Add a `[[jobs]]` section."),
            );
        }
        let mut i: usize = 0;
        while i < self.jobs.len()
            invariant
                i <= self.jobs@.len(),
                self.jobs@.len() > 0,
                first_stage_fault(self.jobs@, 0) == first_stage_fault(self.jobs@, i as nat),
            decreases self.jobs@.len() - i,
        {
            match check_stage(&self.jobs, i) {
                Ok(_) => {},
                Err(e) => {
                    return Err(e);
                },
            }
            i += 1;
        }
        let mut i: usize = 0;
        while i < self.jobs.len()
            invariant
                i <= self.jobs@.len(),
                self.jobs@.len() > 0,
                first_stage_fault(self.jobs@, 0) is None,
                first_wait_fault(self.jobs@, 0) == first_wait_fault(self.jobs@, i as nat),
            decreases self.jobs@.len() - i,
        {
            match check_waits(&self.jobs, i) {
                Ok(_) => {},
                Err(e) => {
                    return Err(e);
                },
            }
            i += 1;
        }
        match self.order() {
            Ok(_) => Ok(()),
            Err(e) => Err(e),
        }
    }
}

// ---------------------------------------------------------------------------
// The file.
// ---------------------------------------------------------------------------

/// The formats of a pipeline file.
#[derive(Debug, Clone, Copy, PartialEq, Eq, Structural)]
pub enum Format {
    Toml,
    Yaml,
    Json,
}

/// The format that the extension of a path selects.
pub open spec fn format_of(path: Seq<char>) -> Format {
    match paths::extension_of(path) {
        Some(e) => if text::lowered(e) == "yaml"@ || text::lowered(e) == "yml"@ {
            Format::Yaml
        } else if text::lowered(e) == "json"@ {
            Format::Json
        } else {
            Format::Toml
        },
        None => Format::Toml,
    }
}

/// Selects the format of a pipeline file by its extension.
pub fn format_for(path: &str) -> (r: Format)
    ensures
        r == format_of(path@),
{
    match paths::extension(path) {
        Some(e) => {
            let e = text::lower(e.as_str());
            if text::same(e.as_str(), "yaml") || text::same(e.as_str(), "yml") {
                Format::Yaml
            } else if text::same(e.as_str(), "json") {
                Format::Json
            } else {
                Format::Toml
            }
        },
        None => Format::Toml,
    }
}

/// What a reader gets about a file that is not a pipeline file.
pub const FORM: &'static str = "\n\nA pipeline file has this form:\n\n    [[jobs]]\n    name = \"build\"\n    command = [\"make\"]\n\n    [[jobs]]\n    name = \"test\"\n    command = [\"make\", \"test\"]\n    needs = [\"build\"]\n\nFor every field, run `qex help pipeline`.";

/// The text for a file that qex cannot read as a pipeline file.
pub fn error(path: &str, detail: &str) -> (r: String)
    ensures
        r@ == "incorrect pipeline file "@ + path@ + ": "@ + detail@ + FORM@,
{
    let mut m = text::owned("incorrect pipeline file ");
    m.append(path);
    m.append(": ");
    m.append(detail);
    m.append(FORM);
    m
}

/// The job file of one stage, with the pipeline that it belongs to. The caller
/// adds the dependencies, because it holds the id that qex made for each earlier
/// stage.
#[derive(Debug)]
pub struct StageSpec {
    pub name: String,
    pub cwd: Option<String>,
    pub command: Vec<String>,
    pub timeout: Option<String>,
    pub tags: Vec<String>,
    pub priority: Option<i32>,
    pub env_capture: Option<String>,
    pub needs: Vec<u128>,
    pub after: Vec<u128>,
    pub resources: Resources,
    pub env: Vec<(String, String)>,
    pub group: u128,
    pub group_name: String,
}

fn copy_pairs(list: &Vec<(String, String)>) -> (r: Vec<(String, String)>)
    ensures
        text::pairs(r@) == text::pairs(list@),
{
    let mut out: Vec<(String, String)> = Vec::new();
    let mut i: usize = 0;
    while i < list.len()
        invariant
            i <= list@.len(),
            text::pairs(out@) == text::pairs(list@).take(i as int),
        decreases list@.len() - i,
    {
        let ghost before = out@;
        out.push((list[i].0.clone(), list[i].1.clone()));
        assert(text::pairs(out@) == text::pairs(before).push(text::pairs(list@)[i as int]));
        assert(text::pairs(list@).take(i + 1) == text::pairs(list@).take(i as int).push(
            text::pairs(list@)[i as int],
        ));
        i += 1;
    }
    assert(text::pairs(list@).take(list@.len() as int) == text::pairs(list@));
    out
}

/// Makes the specification of one stage.
pub fn stage_spec(stage: &Stage, group: u128, group_name: &str) -> (r: StageSpec)
    ensures
        r.name@ == stage.name@,
        text::opt_view(r.cwd) == text::opt_view(stage.cwd),
        text::views(r.command@) == text::views(stage.command@),
        text::opt_view(r.timeout) == text::opt_view(stage.timeout),
        text::views(r.tags@) == text::views(stage.tags@),
        r.priority == stage.priority,
        text::opt_view(r.env_capture) == text::opt_view(stage.env_capture),
        r.needs@.len() == 0,
        r.after@.len() == 0,
        r.resources.cpu == stage.resources.cpu,
        text::opt_view(r.resources.mem) == text::opt_view(stage.resources.mem),
        text::pairs(r.env@) == text::pairs(stage.env@),
        r.group == group,
        r.group_name@ == group_name@,
{
    StageSpec {
        name: stage.name.clone(),
        cwd: job::copy_opt(&stage.cwd),
        command: job::copy_texts(&stage.command),
        timeout: job::copy_opt(&stage.timeout),
        tags: job::copy_texts(&stage.tags),
        priority: stage.priority,
        env_capture: job::copy_opt(&stage.env_capture),
        needs: Vec::new(),
        after: Vec::new(),
        resources: Resources {
            cpu: stage.resources.cpu,
            mem: job::copy_opt(&stage.resources.mem),
        },
        env: copy_pairs(&stage.env),
        group,
        group_name: text::owned(group_name),
    }
}

/// In a file with no fault each name is the name of one stage, and each name
/// that a stage waits for is the name of a stage.
pub proof fn law_a_valid_file_names_its_stages(jobs: Seq<Stage>, i: int)
    requires
        file_fault(jobs) is None,
        0 <= i < jobs.len(),
    ensures
        jobs[i].command@.len() > 0,
        !ids::id_form(jobs[i].name@),
        forall|j: int| 0 <= j < jobs.len() && j != i ==> (#[trigger] jobs[j]).name@ != jobs[i].name@,
        forall|k: int|
            0 <= k < waits(jobs[i]).len() ==> stage_names(jobs).contains(
                #[trigger] waits(jobs[i])[k],
            ),
{
    lemma_no_stage_fault(jobs, 0, i);
    let names = stage_names(jobs);
    assert forall|j: int| 0 <= j < jobs.len() && j != i implies (#[trigger] jobs[j]).name@
        != jobs[i].name@ by {
        lemma_no_stage_fault(jobs, 0, j);
        if j < i {
            assert(names.take(i)[j] == jobs[j].name@);
        } else {
            assert(names.take(j)[i] == jobs[i].name@);
        }
    }
    lemma_no_wait_fault(jobs, 0, i);
    assert forall|k: int| 0 <= k < waits(jobs[i]).len() implies names.contains(
        #[trigger] waits(jobs[i])[k],
    ) by {
        lemma_none_unknown(names, waits(jobs[i]), 0, k);
    }
}

proof fn lemma_no_stage_fault(jobs: Seq<Stage>, i: nat, j: int)
    requires
        first_stage_fault(jobs, i) is None,
        i <= j < jobs.len(),
    ensures
        stage_fault(jobs, j) is None,
    decreases j - i,
{
    if i < j {
        lemma_no_stage_fault(jobs, i + 1, j);
    }
}

proof fn lemma_no_wait_fault(jobs: Seq<Stage>, i: nat, j: int)
    requires
        first_wait_fault(jobs, i) is None,
        i <= j < jobs.len(),
    ensures
        first_unknown(stage_names(jobs), waits(jobs[j]), 0) is None,
    decreases j - i,
{
    if i < j {
        lemma_no_wait_fault(jobs, i + 1, j);
    }
}

proof fn lemma_none_unknown(names: Seq<Seq<char>>, list: Seq<Seq<char>>, k: nat, j: int)
    requires
        first_unknown(names, list, k) is None,
        k <= j < list.len(),
    ensures
        names.contains(list[j]),
    decreases j - k,
{
    if k < j {
        lemma_none_unknown(names, list, k + 1, j);
    }
}

/// A stage waits for a name exactly where it needs it or comes after it.
pub proof fn law_what_a_stage_waits_for(stage: Stage, name: Seq<char>)
    ensures
        waits(stage).contains(name) <==> (exists|k: int|
            0 <= k < stage.needs@.len() && (#[trigger] stage.needs@[k])@ == name) || (exists|k: int|
            0 <= k < stage.after@.len() && (#[trigger] stage.after@[k])@ == name),
{
    let a = text::views(stage.needs@);
    let b = text::views(stage.after@);
    let all = waits(stage);
    if all.contains(name) {
        let k = all.index_of(name);
        if k < a.len() {
            assert(a[k] == stage.needs@[k]@);
        } else {
            assert(b[k - a.len()] == stage.after@[k - a.len()]@);
        }
    }
    if exists|k: int| 0 <= k < stage.needs@.len() && (#[trigger] stage.needs@[k])@ == name {
        let k = choose|k: int| 0 <= k < stage.needs@.len() && (#[trigger] stage.needs@[k])@ == name;
        assert(all[k] == a[k]);
    }
    if exists|k: int| 0 <= k < stage.after@.len() && (#[trigger] stage.after@[k])@ == name {
        let k = choose|k: int| 0 <= k < stage.after@.len() && (#[trigger] stage.after@[k])@ == name;
        assert(all[a.len() + k] == b[k]);
    }
}

/// No two stages have one name.
pub open spec fn names_differ(jobs: Seq<Stage>) -> bool {
    forall|i: int, j: int|
        0 <= i < j < jobs.len() ==> (#[trigger] jobs[i]).name@ != (#[trigger] jobs[j]).name@
}

proof fn lemma_position_of(names: Seq<Seq<char>>, name: Seq<char>, n: nat)
    requires
        n <= names.len() <= usize::MAX,
    ensures
        position(names, name, n) matches Some(i) ==> i < n && names[i as int] == name,
        position(names, name, n) is None ==> forall|k: int|
            0 <= k < n ==> #[trigger] names[k] != name,
    decreases n,
{
    if n > 0 {
        lemma_position_of(names, name, (n - 1) as nat);
    }
}

proof fn lemma_positions_of(names: Seq<Seq<char>>, list: Seq<Seq<char>>, b: usize)
    requires
        names.len() <= usize::MAX,
        forall|i: int, j: int| 0 <= i < j < names.len() ==> names[i] != names[j],
    ensures
        positions(names, list).contains(b) <==> b < names.len() && list.contains(names[b as int]),
    decreases list.len(),
{
    if list.len() > 0 {
        let less = list.drop_last();
        let rest = positions(names, less);
        let last = list.last();
        lemma_positions_of(names, less, b);
        lemma_position_of(names, last, names.len());
        let all = positions(names, list);
        if rest.contains(b) {
            let k = rest.index_of(b);
            assert(all[k] == b);
        }
        if b < names.len() && list.contains(names[b as int]) {
            let k = list.index_of(names[b as int]);
            if k < less.len() {
                assert(less[k] == names[b as int]);
            } else {
                assert(last == names[b as int]);
                let i = position(names, last, names.len())->0;
                assert(names[i as int] == names[b as int]);
                assert(i == b);
                assert(all.last() == b);
            }
        }
        if b < names.len() && less.contains(names[b as int]) {
            let k = less.index_of(names[b as int]);
            assert(list[k] == names[b as int]);
        }
        if all.contains(b) && !rest.contains(b) {
            let k = all.index_of(b);
            if k < rest.len() {
                assert(rest[k] == b);
            }
            assert(list[list.len() - 1] == names[b as int]);
        }
    }
}

/// One stage leads to another exactly where it waits for the name of the other.
pub proof fn law_a_stage_leads_to_what_it_waits_for(jobs: Seq<Stage>, a: usize, b: usize)
    requires
        jobs.len() <= usize::MAX,
        names_differ(jobs),
        a < jobs.len(),
    ensures
        edge(graph_of(jobs), a, b) <==> b < jobs.len() && waits(jobs[a as int]).contains(
            jobs[b as int].name@,
        ),
{
    let names = stage_names(jobs);
    assert forall|i: int, j: int| 0 <= i < j < names.len() implies names[i] != names[j] by {
        assert(jobs[i].name@ != jobs[j].name@);
    }
    lemma_positions_of(names, waits(jobs[a as int]), b);
}

/// The stages of a list wait for each other in a circle: each one waits for the
/// next one, and the last one is the first one again.
pub open spec fn wait_in_a_circle(jobs: Seq<Stage>, c: Seq<usize>) -> bool {
    &&& c.len() >= 2
    &&& c[0] == c.last()
    &&& forall|k: int| 0 <= k < c.len() ==> (#[trigger] c[k]) < jobs.len()
    &&& forall|k: int|
        0 <= k < c.len() - 1 ==> waits(jobs[(#[trigger] c[k]) as int]).contains(
            jobs[c[k + 1] as int].name@,
        )
}

proof fn lemma_circles(jobs: Seq<Stage>, c: Seq<usize>)
    requires
        jobs.len() <= usize::MAX,
        names_differ(jobs),
    ensures
        is_circle(graph_of(jobs), c) <==> wait_in_a_circle(jobs, c),
{
    let graph = graph_of(jobs);
    if is_circle(graph, c) {
        assert forall|k: int| 0 <= k < c.len() - 1 implies waits(
            jobs[(#[trigger] c[k]) as int],
        ).contains(jobs[c[k + 1] as int].name@) by {
            assert(edge(graph, c[k], c[k + 1]));
            law_a_stage_leads_to_what_it_waits_for(jobs, c[k], c[k + 1]);
        }
    }
    if wait_in_a_circle(jobs, c) {
        assert forall|k: int| 0 <= k < c.len() - 1 implies edge(
            graph,
            #[trigger] c[k],
            c[k + 1],
        ) by {
            assert(c[k + 1] < jobs.len());
            law_a_stage_leads_to_what_it_waits_for(jobs, c[k], c[k + 1]);
        }
    }
}

/// A stage is in order: it has a name that is not blank and not an id, no
/// earlier stage has the name, and it has a command.
pub open spec fn stage_in_order(jobs: Seq<Stage>, i: int) -> bool {
    &&& text::trimmed(jobs[i].name@).len() > 0
    &&& !ids::id_form(jobs[i].name@)
    &&& forall|j: int| 0 <= j < i ==> (#[trigger] jobs[j]).name@ != jobs[i].name@
    &&& jobs[i].command@.len() > 0
}

/// A file is valid exactly where it has a stage, each stage is in order, each
/// stage waits for stages of the file only, and no stages wait for each other in
/// a circle.
pub proof fn law_which_files_are_valid(file: &PipelineFile, r: Result<(), String>)
    requires
        file.jobs@.len() <= usize::MAX,
        call_ensures(PipelineFile::validate, (file,), r),
    ensures
        r is Ok <==> {
            let jobs = file.jobs@;
            &&& jobs.len() > 0
            &&& forall|i: int| 0 <= i < jobs.len() ==> #[trigger] stage_in_order(jobs, i)
            &&& forall|i: int| 0 <= i < jobs.len() ==> #[trigger] waits_known(jobs, i)
            &&& forall|c: Seq<usize>| !#[trigger] wait_in_a_circle(jobs, c)
        },
{
    let jobs = file.jobs@;
    lemma_first_stage_fault(jobs, 0);
    lemma_first_wait_fault(jobs, 0);
    if forall|i: int| 0 <= i < jobs.len() ==> #[trigger] stage_in_order(jobs, i) {
        assert(names_differ(jobs)) by {
            assert forall|i: int, j: int| 0 <= i < j < jobs.len() implies (
            #[trigger] jobs[i]).name@ != (#[trigger] jobs[j]).name@ by {
                assert(stage_in_order(jobs, j));
            }
        }
        law_no_order_exactly_for_a_circle(jobs);
        assert forall|c: Seq<usize>| is_circle(graph_of(jobs), c)
            <==> #[trigger] wait_in_a_circle(jobs, c) by {
            lemma_circles(jobs, c);
        }
        if stage_order(jobs) is Circle {
            let c = choose|c: Seq<usize>| is_circle(graph_of(jobs), c);
            assert(wait_in_a_circle(jobs, c));
        }
    }
}

proof fn lemma_stage_fault(jobs: Seq<Stage>, i: int)
    requires
        0 <= i < jobs.len(),
    ensures
        stage_fault(jobs, i) is None <==> stage_in_order(jobs, i),
{
    let names = stage_names(jobs).take(i);
    let name = jobs[i].name@;
    if names.contains(name) {
        let k = names.index_of(name);
        assert(jobs[k].name@ == name);
    } else {
        assert forall|j: int| 0 <= j < i implies (#[trigger] jobs[j]).name@ != name by {
            assert(names[j] == jobs[j].name@);
        }
    }
}

proof fn lemma_first_stage_fault(jobs: Seq<Stage>, i: nat)
    requires
        i <= jobs.len(),
    ensures
        first_stage_fault(jobs, i) is None <==> forall|k: int|
            i <= k < jobs.len() ==> #[trigger] stage_in_order(jobs, k),
    decreases jobs.len() - i,
{
    if i < jobs.len() {
        lemma_first_stage_fault(jobs, i + 1);
        lemma_stage_fault(jobs, i as int);
        if stage_fault(jobs, i as int) is None && first_stage_fault(jobs, i + 1) is None {
            assert forall|k: int| i <= k < jobs.len() implies #[trigger] stage_in_order(jobs, k) by {
                if k > i as int {
                    assert(i + 1 <= k);
                }
            }
        } else if stage_fault(jobs, i as int) is Some {
            assert(!stage_in_order(jobs, i as int));
        } else {
            let k = choose|k: int| i + 1 <= k < jobs.len() && !#[trigger] stage_in_order(jobs, k);
            assert(!stage_in_order(jobs, k));
        }
    }
}

/// The stage waits for stages of the file only.
pub open spec fn waits_known(jobs: Seq<Stage>, i: int) -> bool {
    forall|k: int|
        0 <= k < waits(jobs[i]).len() ==> exists|j: int|
            0 <= j < jobs.len() && (#[trigger] jobs[j]).name@ == #[trigger] waits(jobs[i])[k]
}

proof fn lemma_first_wait_fault(jobs: Seq<Stage>, i: nat)
    requires
        i <= jobs.len(),
    ensures
        first_wait_fault(jobs, i) is None <==> forall|k: int|
            i <= k < jobs.len() ==> #[trigger] waits_known(jobs, k),
    decreases jobs.len() - i,
{
    if i < jobs.len() {
        lemma_first_wait_fault(jobs, i + 1);
        lemma_unknown(jobs, waits(jobs[i as int]), 0);
        assert(first_unknown(stage_names(jobs), waits(jobs[i as int]), 0) is None <==> waits_known(
            jobs,
            i as int,
        ));
        if waits_known(jobs, i as int) && first_wait_fault(jobs, i + 1) is None {
            assert forall|k: int| i <= k < jobs.len() implies #[trigger] waits_known(jobs, k) by {
                if k > i as int {
                    assert(i + 1 <= k);
                }
            }
        } else if waits_known(jobs, i as int) {
            let k = choose|k: int| i + 1 <= k < jobs.len() && !#[trigger] waits_known(jobs, k);
            assert(!waits_known(jobs, k));
        }
    }
}

proof fn lemma_unknown(jobs: Seq<Stage>, list: Seq<Seq<char>>, i: nat)
    requires
        i <= list.len(),
    ensures
        first_unknown(stage_names(jobs), list, i) is None <==> forall|k: int|
            i <= k < list.len() ==> exists|j: int|
                0 <= j < jobs.len() && (#[trigger] jobs[j]).name@ == #[trigger] list[k],
    decreases list.len() - i,
{
    let names = stage_names(jobs);
    if i < list.len() {
        lemma_unknown(jobs, list, i + 1);
        let name = list[i as int];
        if names.contains(name) {
            let j = names.index_of(name);
            assert(jobs[j].name@ == name);
        } else {
            assert forall|j: int| 0 <= j < jobs.len() implies (#[trigger] jobs[j]).name@ != name by {
                assert(names[j] == jobs[j].name@);
            }
        }
        if first_unknown(names, list, i) is None {
            assert forall|k: int| i <= k < list.len() implies exists|j: int|
                0 <= j < jobs.len() && (#[trigger] jobs[j]).name@ == #[trigger] list[k] by {
                if k > i as int {
                    assert(exists|j: int|
                        0 <= j < jobs.len() && (#[trigger] jobs[j]).name@ == list[k]);
                }
            }
        }
    }
}

/// The order holds each stage one time, and a stage that needs another one or
/// comes after it stands behind it.
pub proof fn law_a_stage_stands_behind_what_it_waits_for(
    file: &PipelineFile,
    r: Result<Vec<usize>, String>,
    a: usize,
    b: usize,
)
    requires
        file.jobs@.len() <= usize::MAX,
        names_differ(file.jobs@),
        call_ensures(PipelineFile::order, (file,), r),
        r is Ok,
        a < file.jobs@.len(),
        b < file.jobs@.len(),
        waits(file.jobs@[a as int]).contains(file.jobs@[b as int].name@),
    ensures
        r->Ok_0@.no_duplicates(),
        exists|i: int, j: int|
            0 <= j < i < r->Ok_0@.len() && #[trigger] r->Ok_0@[i] == a && #[trigger] r->Ok_0@[j]
                == b,
{
    let jobs = file.jobs@;
    let order = r->Ok_0@;
    law_the_order_respects_every_wait(jobs, order);
    assert(order.contains(a));
    let i = order.index_of(a);
    let name = jobs[b as int].name@;
    let k = waits(jobs[a as int]).index_of(name);
    let names = stage_names(jobs);
    assert(names[b as int] == name);
    assert(names.contains(waits(jobs[order[i] as int])[k]));
    let j = choose|j: int|
        0 <= j < i && names[(#[trigger] order[j]) as int] == waits(jobs[order[i] as int])[k];
    assert(order.contains(order[j]));
    assert(order[j] < jobs.len());
    if order[j] != b {
        assert(jobs[order[j] as int].name@ == jobs[b as int].name@);
        assert(false);
    }
}

/// The extension of a file decides its format: `yaml` and `yml` are one, `json`
/// is another, and every other file is read as TOML.
pub proof fn law_the_format_of_a_file(
    path: &str,
    dir: Seq<char>,
    stem: Seq<char>,
    ext: Seq<char>,
    r: Format,
)
    requires
        call_ensures(format_for, (path,), r),
        path@ == dir + (stem.push('.') + ext),
        dir.len() == 0 || dir.last() == '/',
        stem.len() > 0,
        ext.len() > 0,
        forall|j: int| 0 <= j < stem.len() ==> #[trigger] stem[j] != '/',
        forall|j: int| 0 <= j < ext.len() ==> #[trigger] ext[j] != '/' && ext[j] != '.',
    ensures
        r is Yaml <==> text::lowered(ext) == "yaml"@ || text::lowered(ext) == "yml"@,
        r is Json <==> text::lowered(ext) == "json"@,
{
    paths::law_the_extension_of_a_file(dir, stem, ext, ext);
    reveal_strlit("yaml");
    reveal_strlit("yml");
    reveal_strlit("json");
    assert("json"@[0] == 'j');
    assert("yaml"@[0] == 'y');
    assert("yml"@[0] == 'y');
}

} // verus!
