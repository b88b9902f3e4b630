//! The dependency cycle detector: a depth-first search over the
//! `depends_on` relation between tasks. The detector reports an empty edge
//! list exactly when the relation is acyclic.
use vstd::prelude::*;
use vstd::string::StringExecFns;

use crate::model::extract_tag_value_array;
use crate::model::tag_array;
use crate::model::Task;
use crate::model::Workspace;
use crate::text::str_eq;
use crate::values::str_views;

verus! {

/// The dependency ids one task names.
pub open spec fn task_deps(t: Task) -> Seq<Seq<char>> {
    match tag_array(t, "depends_on"@) {
        Some(a) => a,
        None => Seq::empty(),
    }
}

/// The dependency edge relation: task `i` names the id of task `j`.
pub open spec fn edge(tasks: Seq<Task>, i: int, j: int) -> bool {
    &&& 0 <= i < tasks.len()
    &&& 0 <= j < tasks.len()
    &&& task_deps(tasks[i]).contains(tasks[j].id@)
}

/// Whether `c` lists the task positions of a dependency cycle.
pub open spec fn is_cycle(tasks: Seq<Task>, c: Seq<int>) -> bool {
    &&& c.len() >= 1
    &&& forall|k: int| 0 <= k < c.len() - 1 ==> edge(tasks, #[trigger] c[k], c[k + 1])
    &&& edge(tasks, c[c.len() - 1], c[0])
}

/// Whether the dependency relation over `tasks` has no cycle.
pub open spec fn acyclic(tasks: Seq<Task>) -> bool {
    !exists|c: Seq<int>| is_cycle(tasks, c)
}

/// Whether `rank` orders every dependency edge descendingly.
pub open spec fn rank_respects_edges(tasks: Seq<Task>, rank: Map<int, int>) -> bool {
    forall|i: int, j: int|
        #[trigger] edge(tasks, i, j) ==> rank.contains_key(i) && rank.contains_key(j)
            && rank[j] < rank[i]
}

/// Along a cycle, an edge-descending rank falls by at least one per step.
proof fn lemma_rank_descends(tasks: Seq<Task>, rank: Map<int, int>, c: Seq<int>, k: int)
    requires
        is_cycle(tasks, c),
        rank_respects_edges(tasks, rank),
        0 <= k < c.len(),
    ensures
        rank[c[k]] <= rank[c[0]] - k,
    decreases k,
{
    if k > 0 {
        lemma_rank_descends(tasks, rank, c, k - 1);
        assert(edge(tasks, c[k - 1], c[k]));
    }
}

/// A rank that orders every edge descendingly rules out every cycle.
pub proof fn lemma_ranked_acyclic(tasks: Seq<Task>, rank: Map<int, int>)
    requires
        rank_respects_edges(tasks, rank),
    ensures
        acyclic(tasks),
{
    if !acyclic(tasks) {
        let c = choose|c: Seq<int>| is_cycle(tasks, c);
        lemma_rank_descends(tasks, rank, c, c.len() - 1);
        assert(edge(tasks, c[c.len() - 1], c[0]));
    }
}

/// A pair of tasks that name one another is a cycle.
pub proof fn lemma_mutual_dependency_is_cycle(tasks: Seq<Task>, i: int, j: int)
    requires
        0 <= i < tasks.len(),
        0 <= j < tasks.len(),
        task_deps(tasks[i]).contains(tasks[j].id@),
        task_deps(tasks[j]).contains(tasks[i].id@),
    ensures
        !acyclic(tasks),
{
    let c = seq![i, j];
    assert(edge(tasks, c[0], c[1]));
    assert(edge(tasks, c[1], c[0]));
    assert(is_cycle(tasks, c));
}

/// How many entries of `s` are false.
pub open spec fn count_false(s: Seq<bool>) -> int
    decreases s.len(),
{
    if s.len() == 0 {
        0
    } else {
        count_false(s.drop_last()) + if s.last() {
            0int
        } else {
            1int
        }
    }
}

/// The false count is never negative.
proof fn lemma_count_false_nonneg(s: Seq<bool>)
    ensures
        count_false(s) >= 0,
    decreases s.len(),
{
    if s.len() > 0 {
        lemma_count_false_nonneg(s.drop_last());
    }
}

/// Pointwise implication lowers the false count; a witness makes it strict.
proof fn lemma_count_false_mono(a: Seq<bool>, b: Seq<bool>)
    requires
        a.len() == b.len(),
        forall|i: int| 0 <= i < a.len() && a[i] ==> b[i],
    ensures
        count_false(b) <= count_false(a),
        forall|j: int|
            0 <= j < a.len() && !a[j] && b[j] ==> count_false(b) < count_false(a),
    decreases a.len(),
{
    if a.len() > 0 {
        assert(forall|i: int|
            0 <= i < a.drop_last().len() && a.drop_last()[i] ==> b.drop_last()[i]) by {
            assert(forall|i: int| 0 <= i < a.len() - 1 ==> a.drop_last()[i] == a[i]);
            assert(forall|i: int| 0 <= i < b.len() - 1 ==> b.drop_last()[i] == b[i]);
        }
        lemma_count_false_mono(a.drop_last(), b.drop_last());
        assert forall|j: int|
            0 <= j < a.len() && !a[j] && b[j] implies count_false(b) < count_false(a) by {
            if j == a.len() - 1 {
            } else {
                lemma_count_false_strict(a.drop_last(), b.drop_last(), j);
            }
        }
    }
}

/// The strict part of `lemma_count_false_mono`, by the witness index.
proof fn lemma_count_false_strict(a: Seq<bool>, b: Seq<bool>, j: int)
    requires
        a.len() == b.len(),
        forall|i: int| 0 <= i < a.len() && a[i] ==> b[i],
        0 <= j < a.len(),
        !a[j],
        b[j],
    ensures
        count_false(b) < count_false(a),
    decreases a.len(),
{
    assert(forall|i: int|
        0 <= i < a.drop_last().len() && a.drop_last()[i] ==> b.drop_last()[i]) by {
        assert(forall|i: int| 0 <= i < a.len() - 1 ==> a.drop_last()[i] == a[i]);
        assert(forall|i: int| 0 <= i < b.len() - 1 ==> b.drop_last()[i] == b[i]);
    }
    if j == a.len() - 1 {
        lemma_count_false_mono(a.drop_last(), b.drop_last());
    } else {
        lemma_count_false_strict(a.drop_last(), b.drop_last(), j);
    }
}

/// The standing state of the search: stack entries are visited, the ghost
/// chain mirrors the stack as a path of consecutive edges, and finished
/// nodes carry ranks that descend along every edge out of them.
#[verifier::opaque]
pub open spec fn dfs_inv(
    tasks: Seq<Task>,
    visited: Seq<bool>,
    on_stack: Seq<bool>,
    rank: Map<int, int>,
    chain: Seq<int>,
    counter: int,
) -> bool {
    &&& visited.len() == tasks.len()
    &&& on_stack.len() == tasks.len()
    &&& forall|i: int| 0 <= i < tasks.len() && #[trigger] on_stack[i] ==> visited[i]
    &&& forall|k: int|
        0 <= k < chain.len() ==> 0 <= #[trigger] chain[k] < tasks.len() && on_stack[chain[k]]
    &&& forall|i: int|
        0 <= i < tasks.len() && #[trigger] on_stack[i] ==> chain.contains(i)
    &&& forall|k: int|
        0 <= k < chain.len() - 1 ==> edge(tasks, #[trigger] chain[k], chain[k + 1])
    &&& forall|i: int|
        #![trigger visited[i], on_stack[i]]
        0 <= i < tasks.len() && visited[i] && !on_stack[i] ==> rank.contains_key(i)
            && rank[i] < counter
    &&& forall|i: int, j: int|
        #[trigger] edge(tasks, i, j) && visited[i] && !on_stack[i] ==> visited[j]
            && !on_stack[j] && rank[j] < rank[i]
    &&& forall|k: int|
        #[trigger] rank.contains_key(k) ==> 0 <= k < tasks.len() && visited[k]
            && !on_stack[k]
}

/// Finds the first task whose id is `id`.
fn find_task(tasks: &Vec<Task>, id: &str) -> (r: Option<usize>)
    ensures
        match r {
            Some(j) => j < tasks@.len() && tasks@[j as int].id@ == id@,
            None => forall|j: int| 0 <= j < tasks@.len() ==> (#[trigger] tasks@[j]).id@
                != id@,
        },
{
    let mut j: usize = 0;
    while j < tasks.len()
        invariant
            0 <= j <= tasks@.len(),
            forall|k: int| 0 <= k < j ==> (#[trigger] tasks@[k]).id@ != id@,
        decreases tasks@.len() - j,
    {
        if str_eq(tasks[j].id.as_str(), id) {
            return Some(j);
        }
        j = j + 1;
    }
    None
}

/// Entering an unvisited node extends the chain and keeps the state.
proof fn lemma_dfs_push(
    tasks: Seq<Task>,
    visited: Seq<bool>,
    on_stack: Seq<bool>,
    rank: Map<int, int>,
    chain: Seq<int>,
    counter: int,
    u: int,
)
    requires
        dfs_inv(tasks, visited, on_stack, rank, chain, counter),
        0 <= u < tasks.len(),
        !visited[u],
        chain.len() > 0 ==> edge(tasks, chain[chain.len() - 1], u),
    ensures
        dfs_inv(
            tasks,
            visited.update(u, true),
            on_stack.update(u, true),
            rank,
            chain.push(u),
            counter,
        ),
        !on_stack[u],
        !rank.contains_key(u),
        forall|k: int| 0 <= k < chain.len() ==> chain[k] != u,
        forall|i: int|
            0 <= i < tasks.len() && !visited.update(u, true)[i] ==> !on_stack.update(
                u,
                true,
            )[i],
{
    reveal(dfs_inv);
    let visited1 = visited.update(u, true);
    let on_stack1 = on_stack.update(u, true);
    let chain1 = chain.push(u);
    assert forall|i: int|
        0 <= i < tasks.len() && #[trigger] on_stack1[i] implies chain1.contains(i) by {
        if i == u {
            assert(chain1[chain1.len() - 1] == i);
        } else {
            assert(on_stack[i]);
            let k = choose|k: int| 0 <= k < chain.len() && chain[k] == i;
            assert(chain1[k] == i);
        }
    }
    assert(dfs_inv(tasks, visited1, on_stack1, rank, chain1, counter));
}

/// A dependency onto a node of the standing chain closes a cycle.
proof fn lemma_dfs_cycle_found(
    tasks: Seq<Task>,
    visited: Seq<bool>,
    on_stack: Seq<bool>,
    rank: Map<int, int>,
    chain1: Seq<int>,
    counter: int,
    u: int,
    j: int,
)
    requires
        dfs_inv(tasks, visited, on_stack, rank, chain1, counter),
        chain1.len() > 0,
        chain1[chain1.len() - 1] == u,
        0 <= j < tasks.len(),
        on_stack[j],
        edge(tasks, u, j),
    ensures
        !acyclic(tasks),
{
    reveal(dfs_inv);
    assert(chain1.contains(j));
    let p = choose|p: int| 0 <= p < chain1.len() && chain1[p] == j;
    let c = chain1.subrange(p, chain1.len() as int);
    assert(c.len() >= 1);
    assert(c[0] == j);
    assert(c[c.len() - 1] == chain1[chain1.len() - 1]);
    assert forall|k: int| 0 <= k < c.len() - 1 implies edge(
        tasks,
        #[trigger] c[k],
        c[k + 1],
    ) by {
        assert(c[k] == chain1[p + k]);
        assert(c[k + 1] == chain1[p + k + 1]);
    }
    assert(edge(tasks, c[c.len() - 1], c[0]));
    assert(is_cycle(tasks, c));
}

/// Leaving a node whose dependencies have all finished assigns it the next
/// rank and restores the chain.
proof fn lemma_dfs_finish(
    tasks: Seq<Task>,
    visited: Seq<bool>,
    entry_on_stack: Seq<bool>,
    rank_cur: Map<int, int>,
    chain: Seq<int>,
    counter_cur: int,
    u: int,
    dviews: Seq<Seq<char>>,
)
    requires
        dfs_inv(
            tasks,
            visited,
            entry_on_stack.update(u, true),
            rank_cur,
            chain.push(u),
            counter_cur,
        ),
        0 <= u < tasks.len(),
        entry_on_stack.len() == tasks.len(),
        !entry_on_stack[u],
        forall|k: int| 0 <= k < chain.len() ==> chain[k] != u,
        task_deps(tasks[u]) == dviews,
        forall|d: int, j: int|
            #![trigger dviews[d], tasks[j]]
            0 <= d < dviews.len() && 0 <= j < tasks.len() && tasks[j].id@ == dviews[d]
                ==> visited[j] && !entry_on_stack.update(u, true)[j],
    ensures
        dfs_inv(
            tasks,
            visited,
            entry_on_stack,
            rank_cur.insert(u, counter_cur),
            chain,
            counter_cur + 1,
        ),
{
    reveal(dfs_inv);
    let on_stack1 = entry_on_stack.update(u, true);
    let chain1 = chain.push(u);
    let rank_new = rank_cur.insert(u, counter_cur);
    assert forall|i: int, j: int|
        #[trigger] edge(tasks, i, j) && visited[i] && !entry_on_stack[i] implies visited[j]
        && !entry_on_stack[j] && rank_new[j] < rank_new[i] by {
        if i == u {
            assert(task_deps(tasks[u]).contains(tasks[j].id@));
            let d = choose|d: int| 0 <= d < dviews.len() && dviews[d] == tasks[j].id@;
            assert(visited[j] && !on_stack1[j]);
            assert(j != u);
            assert(rank_cur.contains_key(j) && rank_cur[j] < counter_cur);
        } else {
            assert(visited[i] && !on_stack1[i]);
            assert(visited[j] && !on_stack1[j] && rank_cur[j] < rank_cur[i]);
            assert(j != u);
            assert(rank_cur.contains_key(j));
            assert(rank_cur.contains_key(i));
        }
    }
    assert forall|i: int|
        #![trigger visited[i], entry_on_stack[i]]
        0 <= i < tasks.len() && visited[i] && !entry_on_stack[i] implies
        rank_new.contains_key(i) && rank_new[i] < counter_cur + 1 by {
        if i != u {
            assert(visited[i] && !on_stack1[i]);
        }
    }
    assert forall|i: int|
        0 <= i < tasks.len() && #[trigger] entry_on_stack[i] implies chain.contains(i) by {
        assert(on_stack1[i]);
        assert(chain1.contains(i));
        let k = choose|k: int| 0 <= k < chain1.len() && chain1[k] == i;
        assert(i != u);
        assert(k < chain.len());
        assert(chain[k] == i);
    }
    assert forall|k: int| #[trigger] rank_new.contains_key(k) implies 0 <= k < tasks.len()
        && visited[k] && !entry_on_stack[k] by {
        if k != u {
            assert(rank_cur.contains_key(k));
            assert(visited[k] && !on_stack1[k]);
        } else {
            assert(on_stack1[u]);
            assert(visited[u]);
        }
    }
    assert forall|k: int| 0 <= k < chain.len() implies 0 <= #[trigger] chain[k]
        < tasks.len() && entry_on_stack[chain[k]] by {
        assert(chain1[k] == chain[k]);
        assert(0 <= chain1[k] < tasks.len() && on_stack1[chain1[k]]);
        assert(chain[k] != u);
    }
    assert forall|i: int|
        0 <= i < tasks.len() && #[trigger] entry_on_stack[i] implies visited[i] by {
        assert(on_stack1[i]);
    }
    assert forall|k: int| 0 <= k < chain.len() - 1 implies edge(
        tasks,
        #[trigger] chain[k],
        chain[k + 1],
    ) by {
        assert(chain1[k] == chain[k]);
        assert(chain1[k + 1] == chain[k + 1]);
        assert(edge(tasks, chain1[k], chain1[k + 1]));
    }
    assert(dfs_inv(tasks, visited, entry_on_stack, rank_new, chain, counter_cur + 1));
}

/// The fresh all-false search state is standing.
proof fn lemma_dfs_init(tasks: Seq<Task>, visited: Seq<bool>, on_stack: Seq<bool>)
    requires
        visited.len() == tasks.len(),
        on_stack.len() == tasks.len(),
        forall|i: int| 0 <= i < tasks.len() ==> !visited[i] && !on_stack[i],
    ensures
        dfs_inv(tasks, visited, on_stack, Map::empty(), Seq::<int>::empty(), 0),
{
    reveal(dfs_inv);
}

/// When every node has been visited and the stack is empty, the collected
/// ranks order every edge, so the relation is acyclic.
proof fn lemma_dfs_complete(
    tasks: Seq<Task>,
    visited: Seq<bool>,
    on_stack: Seq<bool>,
    rank: Map<int, int>,
    counter: int,
)
    requires
        dfs_inv(tasks, visited, on_stack, rank, Seq::<int>::empty(), counter),
        forall|i: int| 0 <= i < tasks.len() ==> visited[i],
    ensures
        acyclic(tasks),
{
    reveal(dfs_inv);
    assert forall|i: int| 0 <= i < tasks.len() implies !on_stack[i] by {
        if on_stack[i] {
            assert(Seq::<int>::empty().contains(i));
        }
    }
    assert forall|a: int, b: int| #[trigger] edge(tasks, a, b) implies rank.contains_key(a)
        && rank.contains_key(b) && rank[b] < rank[a] by {
        assert(visited[a] && !on_stack[a]);
    }
    lemma_ranked_acyclic(tasks, rank);
}

/// One depth-first visit from the unvisited node `u`. On `false` the node
/// finishes with a fresh rank, the stack and the path are restored and the
/// standing state is preserved; on `true` the tasks contain a cycle.
fn has_cycle(
    tasks: &Vec<Task>,
    u: usize,
    visited: &mut Vec<bool>,
    on_stack: &mut Vec<bool>,
    path: &mut Vec<String>,
    Ghost(rank): Ghost<Map<int, int>>,
    Ghost(chain): Ghost<Seq<int>>,
    Ghost(counter): Ghost<int>,
    Ghost(fuel): Ghost<int>,
) -> (res: (bool, Ghost<Map<int, int>>, Ghost<int>))
    requires
        fuel == count_false(old(visited)@),
        forall|a: int, b: int|
            0 <= a < b < tasks@.len() ==> tasks@[a].id@ != tasks@[b].id@,
        dfs_inv(tasks@, old(visited)@, old(on_stack)@, rank, chain, counter),
        old(visited)@.len() == tasks@.len(),
        old(on_stack)@.len() == tasks@.len(),
        forall|i: int|
            0 <= i < tasks@.len() && !old(visited)@[i] ==> !old(on_stack)@[i],
        u < tasks@.len(),
        !old(visited)@[u as int],
        chain.len() > 0 ==> edge(tasks@, chain[chain.len() - 1], u as int),
    ensures
        !res.0 ==> dfs_inv(tasks@, final(visited)@, final(on_stack)@, res.1@, chain, res.2@),
        !res.0 ==> final(on_stack)@ == old(on_stack)@,
        !res.0 ==> final(visited)@.len() == tasks@.len(),
        !res.0 ==> forall|i: int|
            0 <= i < tasks@.len() && old(visited)@[i] ==> final(visited)@[i],
        !res.0 ==> final(visited)@[u as int],
        !res.0 ==> forall|k: int|
            #[trigger] rank.contains_key(k) ==> res.1@.contains_key(k) && res.1@[k]
                == rank[k],
        !res.0 ==> res.2@ >= counter,
        !res.0 ==> final(path)@ == old(path)@,
        !res.0 ==> forall|i: int|
            0 <= i < tasks@.len() && !final(visited)@[i] ==> !final(on_stack)@[i],
        res.0 ==> !acyclic(tasks@),
        res.0 ==> final(path)@.len() >= 1,
    decreases fuel,
{
    let ghost entry_visited = visited@;
    let ghost entry_on_stack = on_stack@;
    let n = tasks.len();
    proof {
        lemma_dfs_push(tasks@, visited@, on_stack@, rank, chain, counter, u as int);
    }
    visited.set(u, true);
    on_stack.set(u, true);
    let ghost chain1 = chain.push(u as int);
    proof {
        lemma_count_false_strict(entry_visited, visited@, u as int);
    }
    let deps: Vec<String> = match extract_tag_value_array(&tasks[u], "depends_on") {
        Some(a) => a,
        None => Vec::new(),
    };
    proof {
        assert(task_deps(tasks@[u as int]) =~= crate::values::str_views(deps@));
    }
    let ghost mut rank_cur: Map<int, int> = rank;
    let ghost mut counter_cur: int = counter;
    let mut di: usize = 0;
    while di < deps.len()
        invariant
            forall|a: int, b: int|
                0 <= a < b < tasks@.len() ==> tasks@[a].id@ != tasks@[b].id@,
            u < tasks@.len(),
            0 <= di <= deps@.len(),
            dfs_inv(tasks@, visited@, on_stack@, rank_cur, chain1, counter_cur),
            chain1 == chain.push(u as int),
            forall|k: int| 0 <= k < chain.len() ==> chain[k] != u as int,
            task_deps(tasks@[u as int]) == crate::values::str_views(deps@),
            on_stack@ == entry_on_stack.update(u as int, true),
            !entry_on_stack[u as int],
            entry_on_stack.len() == tasks@.len(),
            visited@.len() == tasks@.len(),
            visited@[u as int],
            forall|i: int| 0 <= i < tasks@.len() && entry_visited[i] ==> visited@[i],
            entry_visited.len() == tasks@.len(),
            !entry_visited[u as int],
            fuel == count_false(entry_visited),
            forall|i: int| 0 <= i < tasks@.len() && !visited@[i] ==> !on_stack@[i],
            forall|k: int|
                #[trigger] rank.contains_key(k) ==> rank_cur.contains_key(k) && rank_cur[k]
                    == rank[k],
            counter_cur >= counter,
            path@ == old(path)@,
            forall|d: int, j: int|
                #![trigger deps@[d], tasks@[j]]
                0 <= d < di && 0 <= j < tasks@.len() && tasks@[j].id@ == deps@[d]@
                    ==> visited@[j] && !on_stack@[j],
        decreases deps@.len() - di,
    {
        let dep = &deps[di];
        match find_task(tasks, dep.as_str()) {
            None => {
                proof {
                    assert forall|j: int|
                        0 <= j < tasks@.len() && tasks@[j].id@ == deps@[di as int]@
                            implies false by {
                        assert(tasks@[j].id@ != dep@);
                    }
                }
            },
            Some(j) => {
                proof {
                    assert forall|j2: int|
                        0 <= j2 < tasks@.len() && tasks@[j2].id@ == deps@[di as int]@
                            implies j2 == j as int by {
                        if j2 < j as int {
                            assert(tasks@[j2].id@ != tasks@[j as int].id@);
                        } else if j2 > j as int {
                            assert(tasks@[j as int].id@ != tasks@[j2].id@);
                        }
                    }
                    assert(str_views(deps@)[di as int] == deps@[di as int]@);
                    assert(task_deps(tasks@[u as int]).contains(tasks@[j as int].id@));
                    assert(edge(tasks@, u as int, j as int));
                }
                let is_visited = visited[j];
                if !is_visited {
                    let mut entry = String::new();
                    entry.append(tasks[u].id.as_str());
                    entry.append(" -> ");
                    entry.append(dep.as_str());
                    path.push(entry);
                    proof {
                        lemma_count_false_strict(entry_visited, visited@, u as int);
                        lemma_count_false_nonneg(visited@);
                    }
                    let ghost rank_pre = rank_cur;
                    let ghost fuel_next = count_false(visited@);
                    let r = has_cycle(
                        tasks,
                        j,
                        visited,
                        on_stack,
                        path,
                        Ghost(rank_cur),
                        Ghost(chain1),
                        Ghost(counter_cur),
                        Ghost(fuel_next),
                    );
                    if r.0 {
                        return r;
                    }
                    proof {
                        rank_cur = r.1@;
                        counter_cur = r.2@;
                        assert forall|k: int| #[trigger] rank.contains_key(k) implies
                            rank_cur.contains_key(k) && rank_cur[k] == rank[k] by {
                            assert(rank_pre.contains_key(k) && rank_pre[k] == rank[k]);
                            assert(rank_cur.contains_key(k) && rank_cur[k] == rank_pre[k]);
                        }
                    }
                    let _ = path.pop();
                    proof {
                        assert(path@ =~= old(path)@);
                        assert(visited@[j as int]);
                    }
                } else {
                    let stacked = on_stack[j];
                    if stacked {
                        let mut entry = String::new();
                        entry.append(tasks[u].id.as_str());
                        entry.append(" -> ");
                        entry.append(dep.as_str());
                        path.push(entry);
                        let mut mark = String::new();
                        mark.append(dep.as_str());
                        mark.append(" (cyclic)");
                        path.push(mark);
                        proof {
                            lemma_dfs_cycle_found(
                                tasks@,
                                visited@,
                                on_stack@,
                                rank_cur,
                                chain1,
                                counter_cur,
                                u as int,
                                j as int,
                            );
                        }
                        return (true, Ghost(rank_cur), Ghost(counter_cur));
                    }
                }
            },
        }
        di = di + 1;
    }
    proof {
        lemma_dfs_finish(
            tasks@,
            visited@,
            entry_on_stack,
            rank_cur,
            chain,
            counter_cur,
            u as int,
            crate::values::str_views(deps@),
        );
    }
    on_stack.set(u, false);
    let ghost rank_new = rank_cur.insert(u as int, counter_cur);
    proof {
        assert(on_stack@ =~= entry_on_stack);
        assert(path@ =~= old(path)@);
    }
    (false, Ghost(rank_new), Ghost(counter_cur + 1))
}

/// Searches every component of the dependency relation and reports the
/// edges of one cycle, `task -> dependency` entries followed by a marked
/// cyclic endpoint; the report is empty exactly when the relation is
/// acyclic.
pub fn detect_cyclic_dependencies(workspace: &Workspace) -> (r: Vec<String>)
    requires
        workspace.wf(),
    ensures
        r@.len() == 0 <==> acyclic(workspace.tasks@),
{
    let tasks = &workspace.tasks;
    let n = tasks.len();
    let mut visited: Vec<bool> = Vec::new();
    let mut on_stack: Vec<bool> = Vec::new();
    let mut k: usize = 0;
    while k < n
        invariant
            0 <= k <= n,
            visited@.len() == k,
            on_stack@.len() == k,
            forall|i: int| 0 <= i < k ==> !visited@[i] && !on_stack@[i],
        decreases n - k,
    {
        visited.push(false);
        on_stack.push(false);
        k = k + 1;
    }
    let mut cycles: Vec<String> = Vec::new();
    let ghost mut rank: Map<int, int> = Map::empty();
    let ghost mut counter: int = 0;
    proof {
        lemma_dfs_init(tasks@, visited@, on_stack@);
    }
    let mut i: usize = 0;
    while i < n
        invariant
            0 <= i <= n,
            n == tasks@.len(),
            workspace.wf(),
            tasks == &workspace.tasks,
            dfs_inv(tasks@, visited@, on_stack@, rank, Seq::<int>::empty(), counter),
            visited@.len() == tasks@.len(),
            on_stack@.len() == tasks@.len(),
            forall|j: int| 0 <= j < tasks@.len() ==> !(#[trigger] on_stack@[j]),
            forall|j: int| 0 <= j < i ==> visited@[j],
            cycles@.len() == 0,
        decreases n - i,
    {
        let already = visited[i];
        if !already {
            let mut path: Vec<String> = Vec::new();
            let ghost fuel_here = count_false(visited@);
            let r = has_cycle(
                tasks,
                i,
                &mut visited,
                &mut on_stack,
                &mut path,
                Ghost(rank),
                Ghost(Seq::<int>::empty()),
                Ghost(counter),
                Ghost(fuel_here),
            );
            if r.0 {
                let mut m: usize = 0;
                while m < path.len()
                    invariant
                        0 <= m <= path@.len(),
                        cycles@.len() == m,
                    decreases path@.len() - m,
                {
                    cycles.push(path[m].clone());
                    m = m + 1;
                }
                proof {
                    assert(cycles@.len() >= 1);
                    assert(!acyclic(workspace.tasks@));
                }
                return cycles;
            }
            proof {
                rank = r.1@;
                counter = r.2@;
                assert forall|j: int|
                    0 <= j < tasks@.len() implies !(#[trigger] on_stack@[j]) by {}
            }
        }
        i = i + 1;
    }
    proof {
        lemma_dfs_complete(tasks@, visited@, on_stack@, rank, counter);
    }
    cycles
}

} // verus!
