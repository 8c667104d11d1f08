//! Which task may run next.
//!
//! Tasks are numbered by their place among the keys of the dependency map.
//! Task `u`'s list names the tasks that wait for `u`; a task may run once
//! every task it waits for has completed. The scheduler keeps, for each task,
//! how many of the list entries that name it belong to tasks that have not
//! completed (its in-degree), and a first-in first-out queue of tasks whose
//! in-degree has reached zero and that have not been handed out yet.

use vstd::prelude::*;

use crate::name_map::{keys_unique, lemma_entries_map_at, NameMap};
use queues::IsQueue;

verus! {

// ---------------------------------------------------------------------------
// The queue of the `queues` crate
// ---------------------------------------------------------------------------
#[verifier::external_type_specification]
#[verifier::external_body]
#[verifier::reject_recursive_types(T)]
pub struct ExQueue<T: Clone>(queues::Queue<T>);

/// The items of a queue, oldest first.
pub uninterp spec fn queue_items(q: queues::Queue<usize>) -> Seq<usize>;

/// `queues::Queue::new`: an empty queue.
#[verifier::external_body]
fn queue_new() -> (q: queues::Queue<usize>)
    ensures
        queue_items(q) == Seq::<usize>::empty(),
{
    queues::Queue::new()
}

/// `IsQueue::add` on `queues::Queue`: pushes `x` behind the other items
/// (it always returns `Ok(None)`, which is dropped).
#[verifier::external_body]
fn queue_add(q: &mut queues::Queue<usize>, x: usize)
    ensures
        queue_items(*final(q)) == queue_items(*old(q)).push(x),
{
    let _ = q.add(x);
}

/// `IsQueue::remove` on `queues::Queue`: takes out the oldest item, or
/// fails (here: `None`) on an empty queue, which it leaves as it is.
#[verifier::external_body]
fn queue_remove(q: &mut queues::Queue<usize>) -> (r: Option<usize>)
    ensures
        queue_items(*old(q)).len() == 0 ==> r is None && queue_items(*final(q)) == queue_items(
            *old(q),
        ),
        queue_items(*old(q)).len() > 0 ==> r == Some(queue_items(*old(q))[0]) && queue_items(
            *final(q),
        ) == queue_items(*old(q)).drop_first(),
{
    q.remove().ok()
}

// ---------------------------------------------------------------------------
// Counting
// ---------------------------------------------------------------------------
/// How often `t` occurs in `s`.
pub open spec fn count_in(s: Seq<usize>, t: usize) -> nat
    decreases s.len(),
{
    if s.len() == 0 {
        0
    } else {
        count_in(s.drop_last(), t) + if s.last() == t {
            1nat
        } else {
            0nat
        }
    }
}

/// The entries naming `t` in the lists of the tasks below `u` that have not
/// completed.
pub open spec fn pending(down: Seq<Seq<usize>>, done: Seq<bool>, t: usize, u: int) -> nat
    decreases u,
{
    if u <= 0 {
        0
    } else {
        pending(down, done, t, u - 1) + if done[u - 1] {
            0nat
        } else {
            count_in(down[u - 1], t)
        }
    }
}

/// `n` flags, all false.
pub open spec fn all_false(n: nat) -> Seq<bool> {
    Seq::new(n, |i: int| false)
}

/// The number of `true` flags.
pub open spec fn count_true(s: Seq<bool>) -> nat
    decreases s.len(),
{
    if s.len() == 0 {
        0
    } else {
        count_true(s.drop_last()) + if s.last() {
            1nat
        } else {
            0nat
        }
    }
}

/// How often the name `x` occurs in `list`.
pub open spec fn count_name(list: Seq<Seq<char>>, x: Seq<char>) -> nat
    decreases list.len(),
{
    if list.len() == 0 {
        0
    } else {
        count_name(list.drop_last(), x) + if list.last() == x {
            1nat
        } else {
            0nat
        }
    }
}

/// How often the name `x` occurs in the lists of the first `u` entries.
pub open spec fn dep_count(es: Seq<(Seq<char>, Seq<Seq<char>>)>, x: Seq<char>, u: int) -> nat
    decreases u,
{
    if u <= 0 {
        0
    } else {
        dep_count(es, x, u - 1) + count_name(es[u - 1].1, x)
    }
}

/// Every name in a list is itself a key.
pub open spec fn deps_closed(m: Map<Seq<char>, Seq<Seq<char>>>) -> bool {
    forall|k: Seq<char>, i: int|
        m.contains_key(k) && 0 <= i < m[k].len() ==> #[trigger] m.contains_key(#[trigger] m[k][i])
}

/// No name occurs more often in all lists together than a `u16` counts.
pub open spec fn in_degrees_fit(es: Seq<(Seq<char>, Seq<Seq<char>>)>) -> bool {
    forall|x: Seq<char>| #[trigger] dep_count(es, x, es.len() as int) <= u16::MAX
}

pub proof fn lemma_count_in_contains(s: Seq<usize>, t: usize)
    ensures
        count_in(s, t) > 0 <==> s.contains(t),
    decreases s.len(),
{
    if s.len() > 0 {
        lemma_count_in_contains(s.drop_last(), t);
        if s.drop_last().contains(t) {
            let i = choose|i: int| 0 <= i < s.drop_last().len() && s.drop_last()[i] == t;
            assert(s[i] == t);
        }
        if s.contains(t) && s.last() != t {
            let i = choose|i: int| 0 <= i < s.len() && s[i] == t;
            assert(s.drop_last()[i] == t);
        }
    }
}

proof fn lemma_count_in_take(s: Seq<usize>, t: usize, k: int)
    requires
        0 <= k < s.len(),
    ensures
        count_in(s.take(k + 1), t) == count_in(s.take(k), t) + if s[k] == t {
            1nat
        } else {
            0nat
        },
        count_in(s.take(k + 1), t) <= count_in(s, t),
    decreases s.len() - k,
{
    assert(s.take(k + 1).drop_last() =~= s.take(k));
    if k + 1 < s.len() {
        lemma_count_in_take(s, t, k + 1);
    } else {
        assert(s.take(k + 1) =~= s);
    }
}

proof fn lemma_pending_same(down: Seq<Seq<usize>>, d1: Seq<bool>, d2: Seq<bool>, t: usize, u: int)
    requires
        forall|v: int| 0 <= v < u ==> d1[v] == d2[v],
    ensures
        pending(down, d1, t, u) == pending(down, d2, t, u),
    decreases u,
{
    if u > 0 {
        lemma_pending_same(down, d1, d2, t, u - 1);
    }
}

/// Completing `id` takes its list's entries naming `t` out of the count.
proof fn lemma_pending_complete(down: Seq<Seq<usize>>, done: Seq<bool>, t: usize, u: int, id: int)
    requires
        0 <= id < u <= done.len(),
        !done[id],
    ensures
        pending(down, done.update(id, true), t, u) + count_in(down[id], t) == pending(
            down,
            done,
            t,
            u,
        ),
    decreases u,
{
    let d2 = done.update(id, true);
    if u - 1 == id {
        lemma_pending_same(down, d2, done, t, id);
    } else {
        lemma_pending_complete(down, done, t, u - 1, id);
    }
}

/// An unfinished task's entries are part of the count.
proof fn lemma_pending_ge(down: Seq<Seq<usize>>, done: Seq<bool>, t: usize, u: int, id: int)
    requires
        0 <= id < u,
        !done[id],
    ensures
        pending(down, done, t, u) >= count_in(down[id], t),
    decreases u,
{
    if u - 1 != id {
        lemma_pending_ge(down, done, t, u - 1, id);
    }
}

proof fn lemma_pending_mono(down: Seq<Seq<usize>>, done: Seq<bool>, t: usize, u: int, w: int)
    requires
        0 <= u <= w,
    ensures
        pending(down, done, t, u) <= pending(down, done, t, w),
    decreases w - u,
{
    if u < w {
        lemma_pending_mono(down, done, t, u, w - 1);
    }
}

/// The count is zero exactly when no unfinished task below `u` lists `t`.
proof fn lemma_pending_zero(down: Seq<Seq<usize>>, done: Seq<bool>, t: usize, u: int)
    requires
        u >= 0,
    ensures
        pending(down, done, t, u) == 0 <==> forall|v: int|
            0 <= v < u && !done[v] ==> !(#[trigger] down[v]).contains(t),
    decreases u,
{
    if u > 0 {
        lemma_pending_zero(down, done, t, u - 1);
        lemma_count_in_contains(down[u - 1], t);
    }
}

proof fn lemma_count_true_set(s: Seq<bool>, id: int)
    requires
        0 <= id < s.len(),
        !s[id],
    ensures
        count_true(s.update(id, true)) == count_true(s) + 1,
    decreases s.len(),
{
    let s2 = s.update(id, true);
    if id == s.len() - 1 {
        assert(s2.drop_last() =~= s.drop_last());
    } else {
        assert(s2.drop_last() =~= s.drop_last().update(id, true));
        lemma_count_true_set(s.drop_last(), id);
    }
}

proof fn lemma_count_true_le(s: Seq<bool>)
    ensures
        count_true(s) <= s.len(),
    decreases s.len(),
{
    if s.len() > 0 {
        lemma_count_true_le(s.drop_last());
    }
}

proof fn lemma_count_true_none(s: Seq<bool>)
    requires
        forall|i: int| 0 <= i < s.len() ==> !s[i],
    ensures
        count_true(s) == 0,
    decreases s.len(),
{
    if s.len() > 0 {
        lemma_count_true_none(s.drop_last());
    }
}

/// Counting ids equals counting the names they stand for.
proof fn lemma_count_ids(ids: Seq<usize>, list: Seq<Seq<char>>, names: Seq<Seq<char>>, t: usize)
    requires
        ids.len() == list.len(),
        names.no_duplicates(),
        t < names.len(),
        forall|k: int| 0 <= k < ids.len() ==> #[trigger] ids[k] < names.len() && names[ids[k] as int] == list[k],
    ensures
        count_in(ids, t) == count_name(list, names[t as int]),
    decreases ids.len(),
{
    if ids.len() > 0 {
        assert forall|k: int| 0 <= k < ids.drop_last().len() implies ids.drop_last()[k] < names.len()
            && names[ids.drop_last()[k] as int] == list.drop_last()[k] by {
            assert(ids.drop_last()[k] == ids[k]);
            assert(list.drop_last()[k] == list[k]);
        }
        lemma_count_ids(ids.drop_last(), list.drop_last(), names, t);
        let k = ids.len() - 1;
        assert(ids[k] < names.len() && names[ids[k] as int] == list[k]);
        if ids[k] != t {
            assert(names[ids[k] as int] != names[t as int]);
        }
    }
}

/// `pos` gives, for each item of `s`, a place in `list` that holds it, the
/// places rising from one item to the next.
pub open spec fn positions_in(pos: Seq<int>, s: Seq<usize>, list: Seq<usize>) -> bool {
    &&& pos.len() == s.len()
    &&& forall|i: int| 0 <= i < pos.len() ==> 0 <= #[trigger] pos[i] < list.len() && list[pos[i]] == s[i]
    &&& forall|i: int, j: int| 0 <= i < j < pos.len() ==> #[trigger] pos[i] < #[trigger] pos[j]
}

/// `s` is made of items of `list`, taken in their order in `list`.
pub open spec fn subsequence_of(s: Seq<usize>, list: Seq<usize>) -> bool {
    exists|pos: Seq<int>| positions_in(pos, s, list)
}

// ---------------------------------------------------------------------------
// The scheduler's state
// ---------------------------------------------------------------------------
/// What a scheduler knows: the tasks, their lists as ids, their in-degrees,
/// the queue, and which tasks were handed out and have completed.
struct Schedule {
    names: Vec<String>,
    downstream: Vec<Vec<usize>>,
    indegree: Vec<u16>,
    queue: queues::Queue<usize>,
    handed_out: Vec<bool>,
    completed: Vec<bool>,
    executed: usize,
    order: Ghost<Seq<usize>>,
}

pub open spec fn ids_view(v: Seq<Vec<usize>>) -> Seq<Seq<usize>> {
    v.map_values(|x: Vec<usize>| x@)
}

impl Schedule {
    /// The task names, by id.
    pub closed spec fn names_view(&self) -> Seq<Seq<char>> {
        self.names@.map_values(|s: String| s@)
    }

    /// For each task, the ids of its list: the tasks waiting for it.
    pub closed spec fn down_view(&self) -> Seq<Seq<usize>> {
        ids_view(self.downstream@)
    }

    /// Tasks ready to run and not handed out yet, oldest first.
    pub closed spec fn queue_view(&self) -> Seq<usize> {
        queue_items(self.queue)
    }

    /// Which tasks have been handed out to run.
    pub closed spec fn handed_view(&self) -> Seq<bool> {
        self.handed_out@
    }

    /// Which tasks have completed.
    pub closed spec fn completed_view(&self) -> Seq<bool> {
        self.completed@
    }

    /// How many tasks have completed.
    pub closed spec fn executed_view(&self) -> nat {
        self.executed as nat
    }

    /// The number of tasks.
    pub open spec fn size(&self) -> nat {
        self.names_view().len()
    }

    /// Task `t` waits for task `u`: `u`'s list names `t`.
    pub open spec fn waits_for(&self, t: usize, u: int) -> bool {
        self.down_view()[u].contains(t)
    }

    /// Every task that `t` waits for has completed.
    pub open spec fn upstream_done(&self, t: usize) -> bool {
        forall|u: int| 0 <= u < self.size() && #[trigger] self.waits_for(t, u) ==> self.completed_view()[u]
    }

    /// Every task handed out is recorded once, and every task it waits for
    /// was handed out before it.
    pub closed spec fn order_ok(&self) -> bool {
        let n = self.names@.len();
        let o = self.order@;
        let down = self.down_view();
        &&& o.no_duplicates()
        &&& forall|i: int| 0 <= i < o.len() ==> #[trigger] o[i] < n
        &&& forall|t: int| 0 <= t < n ==> (#[trigger] self.handed_out@[t] <==> o.contains(t as usize))
        &&& forall|i: int, u: int|
            #![trigger down[u].contains(o[i])]
            0 <= i < o.len() && 0 <= u < n && down[u].contains(o[i]) ==> o.take(i).contains(u as usize)
    }

    /// The scheduler's invariant.
    pub closed spec fn wf(&self) -> bool {
        let n = self.names@.len();
        let down = self.down_view();
        let q = queue_items(self.queue);
        &&& self.downstream@.len() == n
        &&& self.indegree@.len() == n
        &&& self.handed_out@.len() == n
        &&& self.completed@.len() == n
        &&& forall|u: int, k: int| 0 <= u < n && 0 <= k < down[u].len() ==> #[trigger] down[u][k] < n
        &&& forall|t: int|
            0 <= t < n ==> #[trigger] self.indegree@[t] == pending(down, self.completed@, t as usize, n as int)
        &&& forall|i: int| 0 <= i < q.len() ==> #[trigger] q[i] < n
        &&& q.no_duplicates()
        &&& forall|t: int|
            0 <= t < n ==> (#[trigger] self.indegree@[t] == 0 <==> (self.handed_out@[t] || q.contains(t as usize)))
        &&& forall|i: int| 0 <= i < q.len() ==> !self.handed_out@[#[trigger] q[i] as int]
        &&& forall|t: int| 0 <= t < n ==> #[trigger] self.completed@[t] ==> self.handed_out@[t]
        &&& self.executed == count_true(self.completed@)
        &&& self.order_ok()
    }

    /// Numbers the keys of `deps` and queues the tasks that wait for no one.
    pub fn new(deps: &NameMap<Vec<String>>) -> (r: Self)
        requires
            deps_closed(deps@),
            in_degrees_fit(deps.entry_seq()),
        ensures
            r.wf(),
            r.names_view() == deps.entry_seq().map_values(|e: (Seq<char>, Seq<Seq<char>>)| e.0),
            forall|u: int|
                0 <= u < r.size() ==> (#[trigger] r.down_view()[u]).len() == deps@[r.names_view()[u]].len(),
            forall|u: int, k: int|
                0 <= u < r.size() && 0 <= k < r.down_view()[u].len() ==> r.names_view()[#[trigger] r.down_view()[u][k] as int]
                    == deps@[r.names_view()[u]][k],
            r.executed_view() == 0,
            forall|t: int| 0 <= t < r.size() ==> !(#[trigger] r.handed_view()[t]),
            forall|t: int| 0 <= t < r.size() ==> !(#[trigger] r.completed_view()[t]),
            forall|t: usize| t < r.size() ==> (r.queue_view().contains(t) <==> r.upstream_done(t)),
    {
        let names = deps.keys();
        let ghost es = deps.entry_seq();
        let ghost nv = names@.map_values(|s: String| s@);
        let n = names.len();
        proof {
            assert(nv.len() == es.len());
            assert forall|i: int, j: int| 0 <= i < es.len() && 0 <= j < es.len() && i != j implies es[i].0
                != es[j].0 by {
                assert(nv[i] == es[i].0 && nv[j] == es[j].0);
            }
            assert(keys_unique(es));
        }
        // The lists, as ids.
        let mut downstream: Vec<Vec<usize>> = Vec::new();
        let mut u: usize = 0;
        while u < n
            invariant
                u <= n,
                n == names@.len(),
                nv == names@.map_values(|s: String| s@),
                nv == es.map_values(|e: (Seq<char>, Seq<Seq<char>>)| e.0),
                es.len() == n,
                nv.no_duplicates(),
                es == deps.entry_seq(),
                keys_unique(es),
                deps_closed(deps@),
                deps@ == crate::name_map::entries_map(es),
                downstream@.len() == u,
                forall|v: int| 0 <= v < u ==> (#[trigger] downstream@[v])@.len() == deps@[nv[v]].len(),
                forall|v: int, k: int|
                    0 <= v < u && 0 <= k < downstream@[v]@.len() ==> #[trigger] downstream@[v]@[k] < n
                        && nv[downstream@[v]@[k] as int] == deps@[nv[v]][k],
            decreases n - u,
        {
            proof {
                lemma_entries_map_at(es, u as int);
                assert(nv[u as int] == es[u as int].0);
            }
            let list = match deps.get(&names[u]) {
                Some(l) => l,
                None => {
                    proof {
                        assert(false);
                    }
                    return Schedule::empty();
                },
            };
            let mut ids: Vec<usize> = Vec::new();
            let mut k: usize = 0;
            while k < list.len()
                invariant
                    k <= list.len(),
                    u < n,
                    n == names@.len(),
                    nv == names@.map_values(|s: String| s@),
                    list.deep_view() == deps@[nv[u as int]],
                    deps@.contains_key(nv[u as int]),
                    deps_closed(deps@),
                    deps@ == crate::name_map::entries_map(es),
                    nv == es.map_values(|e: (Seq<char>, Seq<Seq<char>>)| e.0),
                    es.len() == n,
                    ids@.len() == k,
                    forall|m: int| 0 <= m < k ==> #[trigger] ids@[m] < n && nv[ids@[m] as int]
                        == deps@[nv[u as int]][m],
                decreases list.len() - k,
            {
                let ghost x = list.deep_view()[k as int];
                assert(x == list@[k as int]@);
                assert(x == deps@[nv[u as int]][k as int]);
                assert(deps@.contains_key(x));
                let j = match index_of_name(&names, &list[k]) {
                    Some(j) => j,
                    None => {
                        proof {
                            let w = choose|w: int| 0 <= w < es.len() && es[w].0 == x;
                            assert(nv[w] == x);
                            assert(false);
                        }
                        return Schedule::empty();
                    },
                };
                ids.push(j);
                k = k + 1;
            }
            downstream.push(ids);
            u = u + 1;
        }
        // The in-degrees.
        let ghost falses = all_false(n as nat);
        let ghost down = ids_view(downstream@);
        proof {
            assert forall|v: int| 0 <= v < n implies #[trigger] es[v].1 == deps@[nv[v]] by {
                lemma_entries_map_at(es, v);
            }
            assert forall|t: usize| t < n implies #[trigger] pending(down, falses, t, n as int) <= u16::MAX by {
                lemma_pending_names(down, falses, es, nv, t, n as int);
                assert(dep_count(es, nv[t as int], es.len() as int) <= u16::MAX);
            }
        }
        let mut indegree: Vec<u16> = Vec::new();
        let mut t: usize = 0;
        while t < n
            invariant
                t <= n,
                indegree@.len() == t,
                forall|m: int| 0 <= m < t ==> #[trigger] indegree@[m] == 0,
            decreases n - t,
        {
            indegree.push(0);
            t = t + 1;
        }
        let mut u: usize = 0;
        while u < n
            invariant
                u <= n,
                n == downstream@.len(),
                down == ids_view(downstream@),
                falses == all_false(n as nat),
                down.len() == n,
                indegree@.len() == n,
                forall|v: int, k: int| 0 <= v < n && 0 <= k < down[v].len() ==> #[trigger] down[v][k] < n,
                forall|t: usize| t < n ==> #[trigger] pending(down, falses, t, n as int) <= u16::MAX,
                forall|t: int| 0 <= t < n ==> #[trigger] indegree@[t] == pending(down, falses, t as usize, u as int),
            decreases n - u,
        {
            let list = &downstream[u];
            assert(list@ == down[u as int]);
            let mut k: usize = 0;
            while k < list.len()
                invariant
                    u < n,
                    k <= list.len(),
                    list@ == down[u as int],
                    falses == all_false(n as nat),
                    down.len() == n,
                    indegree@.len() == n,
                    forall|k2: int| 0 <= k2 < list@.len() ==> #[trigger] list@[k2] < n,
                    forall|t: usize| t < n ==> #[trigger] pending(down, falses, t, n as int) <= u16::MAX,
                    forall|t: int| 0 <= t < n ==> #[trigger] indegree@[t] == pending(down, falses, t as usize, u as int)
                        + count_in(list@.take(k as int), t as usize),
                decreases list.len() - k,
            {
                let d = list[k];
                proof {
                    assert(list@[k as int] < n);
                    assert(!falses[u as int]);
                    assert(down.len() == n);
                    lemma_count_in_take(list@, d, k as int);
                    lemma_pending_mono(down, falses, d, u + 1, n as int);
                    assert(pending(down, falses, d, u + 1) == pending(down, falses, d, u as int)
                        + count_in(down[u as int], d));
                    assert forall|t: int| 0 <= t < n && t != d implies #[trigger] count_in(list@.take(k + 1), t as usize)
                        == count_in(list@.take(k as int), t as usize) by {
                        lemma_count_in_take(list@, t as usize, k as int);
                    }
                }
                let cur = indegree[d];
                indegree.set(d, cur + 1);
                k = k + 1;
            }
            assert(list@.take(k as int) =~= list@);
            u = u + 1;
        }
        // The queue of tasks that wait for no one.
        let mut queue = queue_new();
        let mut t: usize = 0;
        while t < n
            invariant
                t <= n,
                indegree@.len() == n,
                forall|i: int| 0 <= i < queue_items(queue).len() ==> #[trigger] queue_items(queue)[i] < t,
                queue_items(queue).no_duplicates(),
                forall|s: int| 0 <= s < t ==> (#[trigger] indegree@[s] == 0 <==> queue_items(queue).contains(s as usize)),
            decreases n - t,
        {
            let ghost before = queue_items(queue);
            if indegree[t] == 0 {
                queue_add(&mut queue, t);
                proof {
                    assert forall|s: int| 0 <= s < t + 1 implies (#[trigger] indegree@[s] == 0
                        <==> queue_items(queue).contains(s as usize)) by {
                        if queue_items(queue).contains(s as usize) && s != t {
                            let i = choose|i: int| 0 <= i < queue_items(queue).len() && queue_items(queue)[i] == s as usize;
                            assert(before[i] == s);
                        }
                        if s < t && before.contains(s as usize) {
                            let i = choose|i: int| 0 <= i < before.len() && before[i] == s as usize;
                            assert(queue_items(queue)[i] == s);
                        }
                        if s == t {
                            assert(queue_items(queue)[before.len() as int] == t);
                        }
                    }
                }
            } else {
                proof {
                    if before.contains(t) {
                        let i = choose|i: int| 0 <= i < before.len() && before[i] == t;
                    }
                }
            }
            t = t + 1;
        }
        let mut handed_out: Vec<bool> = Vec::new();
        let mut completed: Vec<bool> = Vec::new();
        let mut t: usize = 0;
        while t < n
            invariant
                t <= n,
                handed_out@.len() == t,
                completed@.len() == t,
                forall|m: int| 0 <= m < t ==> !(#[trigger] handed_out@[m]),
                forall|m: int| 0 <= m < t ==> !(#[trigger] completed@[m]),
            decreases n - t,
        {
            handed_out.push(false);
            completed.push(false);
            t = t + 1;
        }
        proof {
            assert(completed@ =~= falses);
            lemma_count_true_none(completed@);
        }
        let r = Schedule {
            names,
            downstream,
            indegree,
            queue,
            handed_out,
            completed,
            executed: 0,
            order: Ghost(Seq::empty()),
        };
        proof {
            assert(r.down_view() == down);
            assert(r.completed@ == falses);
            assert forall|t: usize| t < r.size() implies (r.queue_view().contains(t) <==> r.upstream_done(t)) by {
                lemma_pending_zero(down, falses, t, n as int);
                assert(r.indegree@[t as int] == pending(down, falses, t, n as int));
                assert(r.indegree@[t as int] == 0 <==> r.queue_view().contains(t));
                if r.upstream_done(t) {
                    assert forall|v: int| 0 <= v < n && !falses[v] implies !(#[trigger] down[v]).contains(t) by {
                        if down[v].contains(t) {
                            assert(r.waits_for(t, v));
                        }
                    }
                } else {
                    let u = choose|u: int| 0 <= u < r.size() && #[trigger] r.waits_for(t, u) && !r.completed_view()[u];
                    assert(down[u].contains(t));
                }
            }
            assert forall|t: int| 0 <= t < n implies (#[trigger] r.indegree@[t] == 0 <==> (r.handed_out@[t]
                || queue_items(r.queue).contains(t as usize))) by {}
        }
        r
    }

    /// A scheduler with no tasks.
    fn empty() -> (r: Self)
        ensures
            r.wf(),
            r.size() == 0,
    {
        let r = Schedule {
            names: Vec::new(),
            downstream: Vec::new(),
            indegree: Vec::new(),
            queue: queue_new(),
            handed_out: Vec::new(),
            completed: Vec::new(),
            executed: 0,
            order: Ghost(Seq::empty()),
        };
        proof {
            assert(r.completed@ =~= Seq::<bool>::empty());
        }
        r
    }

    /// The name of task `id`.
    pub fn task_name(&self, id: usize) -> (s: &String)
        requires
            id < self.size(),
        ensures
            s@ == self.names_view()[id as int],
    {
        &self.names[id]
    }

    /// The number of tasks.
    pub fn total(&self) -> (n: usize)
        ensures
            n == self.size(),
    {
        self.names.len()
    }

    /// How many tasks have completed.
    pub fn executed(&self) -> (n: usize)
        requires
            self.wf(),
        ensures
            n == self.executed_view(),
            n == count_true(self.completed_view()),
            n <= self.size(),
    {
        proof {
            lemma_count_true_le(self.completed@);
        }
        self.executed
    }

    /// Whether every task has completed.
    pub fn all_executed(&self) -> (b: bool)
        requires
            self.wf(),
        ensures
            b == (self.executed_view() == self.size()),
    {
        self.executed == self.names.len()
    }

    /// Whether `id` has been handed out and has not completed yet.
    pub fn is_running(&self, id: usize) -> (b: bool)
        requires
            self.wf(),
        ensures
            b == (id < self.size() && self.handed_view()[id as int] && !self.completed_view()[id as int]),
    {
        id < self.names.len() && self.handed_out[id] && !self.completed[id]
    }

    /// Hands out the oldest ready task. A task is handed out at most once,
    /// and only when every task it waits for has completed.
    pub fn pop_ready(&mut self) -> (r: Option<usize>)
        requires
            old(self).wf(),
        ensures
            final(self).wf(),
            final(self).names_view() == old(self).names_view(),
            final(self).down_view() == old(self).down_view(),
            final(self).completed_view() == old(self).completed_view(),
            final(self).executed_view() == old(self).executed_view(),
            old(self).queue_view().len() == 0 ==> r is None && final(self).queue_view() == old(
                self,
            ).queue_view() && final(self).handed_view() == old(self).handed_view(),
            old(self).queue_view().len() > 0 ==> r == Some(old(self).queue_view()[0])
                && final(self).queue_view() == old(self).queue_view().drop_first()
                && final(self).handed_view() == old(self).handed_view().update(
                old(self).queue_view()[0] as int,
                true,
            ),
            r matches Some(t) ==> t < final(self).size() && !old(self).handed_view()[t as int]
                && final(self).upstream_done(t),
    {
        let ghost q0 = queue_items(self.queue);
        let ghost n = self.names@.len();
        let ghost down = self.down_view();
        let nn = self.names.len();
        assert(n == nn);
        let r = queue_remove(&mut self.queue);
        match r {
            Some(t) => {
                proof {
                    assert(q0[0] == t);
                    assert(self.indegree@[t as int] == 0);
                    lemma_pending_zero(down, self.completed@, t, n as int);
                }
                self.handed_out.set(t, true);
                proof {
                    let q = queue_items(self.queue);
                    assert forall|i: int| 0 <= i < q.len() implies !self.handed_out@[#[trigger] q[i] as int] by {
                        assert(q[i] == q0[i + 1]);
                        assert(q0[i + 1] != q0[0]);
                    }
                    assert forall|s: int| 0 <= s < n implies (#[trigger] self.indegree@[s] == 0 <==> (
                    self.handed_out@[s] || q.contains(s as usize))) by {
                        if q0.contains(s as usize) && s != t {
                            let i = choose|i: int| 0 <= i < q0.len() && q0[i] == s as usize;
                            assert(i > 0);
                            assert(q[i - 1] == s);
                        }
                        if q.contains(s as usize) {
                            let i = choose|i: int| 0 <= i < q.len() && q[i] == s as usize;
                            assert(q0[i + 1] == s);
                        }
                    }
                    assert forall|i: int, j: int| 0 <= i < q.len() && 0 <= j < q.len() && i != j implies q[i]
                        != q[j] by {
                        assert(q[i] == q0[i + 1] && q[j] == q0[j + 1]);
                    }
                    assert forall|u: int| 0 <= u < n && #[trigger] self.waits_for(t, u) implies self.completed_view()[u] by {
                        assert(down[u].contains(t));
                    }
                }
                let ghost o0 = self.order@;
                self.order = Ghost(self.order@.push(t));
                proof {
                    let o = self.order@;
                    assert(!o0.contains(t));
                    assert forall|i: int, j: int| 0 <= i < o.len() && 0 <= j < o.len() && i != j implies o[i]
                        != o[j] by {
                        if i == o0.len() {
                            assert(o0.contains(o[j]));
                        } else if j == o0.len() {
                            assert(o0.contains(o[i]));
                        }
                    }
                    assert forall|s: int| 0 <= s < n implies (#[trigger] self.handed_out@[s] <==> o.contains(s as usize)) by {
                        if o.contains(s as usize) && s != t {
                            let i = choose|i: int| 0 <= i < o.len() && o[i] == s as usize;
                            assert(o0[i] == s);
                        }
                        if o0.contains(s as usize) {
                            let i = choose|i: int| 0 <= i < o0.len() && o0[i] == s as usize;
                            assert(o[i] == s);
                        }
                        if s == t {
                            assert(o[o0.len() as int] == t);
                        }
                    }
                    assert forall|i: int, u: int|
                        #![trigger down[u].contains(o[i])]
                        0 <= i < o.len() && 0 <= u < n && down[u].contains(o[i]) implies o.take(i).contains(u as usize) by {
                        if i < o0.len() {
                            assert(o[i] == o0[i]);
                            assert(o.take(i) =~= o0.take(i));
                        } else {
                            assert(self.waits_for(t, u));
                            assert(self.completed@[u]);
                            assert(o0.contains(u as usize));
                            assert(o.take(i) =~= o0);
                        }
                    }
                    assert(self.order_ok());
                }
                Some(t)
            },
            None => None,
        }
    }

    /// Records that running task `id` has completed: every task in its list
    /// loses one in-degree, and a task whose in-degree reaches zero joins the
    /// queue. Afterwards a task is newly queued exactly when it waits for
    /// `id` and every task it waits for has completed.
    pub fn complete(&mut self, id: usize) -> (added: Vec<usize>)
        requires
            old(self).wf(),
            id < old(self).size(),
            old(self).handed_view()[id as int],
            !old(self).completed_view()[id as int],
        ensures
            final(self).wf(),
            final(self).names_view() == old(self).names_view(),
            final(self).down_view() == old(self).down_view(),
            final(self).handed_view() == old(self).handed_view(),
            final(self).completed_view() == old(self).completed_view().update(id as int, true),
            final(self).executed_view() == old(self).executed_view() + 1,
            final(self).queue_view() == old(self).queue_view() + added@,
            subsequence_of(added@, old(self).down_view()[id as int]),
            forall|t: usize|
                t < final(self).size() ==> (final(self).queue_view().contains(t) <==> (old(
                    self,
                ).queue_view().contains(t) || (old(self).waits_for(t, id as int)
                    && final(self).upstream_done(t)))),
    {
        let ghost n = self.names@.len() as int;
        let ghost names0 = self.names@;
        let nn = self.names.len();
        assert(n == nn);
        let ghost down = self.down_view();
        let ghost c0 = self.completed@;
        let ghost c1 = c0.update(id as int, true);
        let ghost q0 = queue_items(self.queue);
        let ghost h = self.handed_out@;
        let list = &self.downstream[id];
        assert(list@ == down[id as int]);
        proof {
            assert forall|t: int| 0 <= t < n implies (pending(down, c0, t as usize, n) == 0 <==> (h[t]
                || q0.contains(t as usize))) by {
                assert(self.indegree@[t] == pending(down, c0, t as usize, n));
            }
            assert(list@.take(0) =~= Seq::<usize>::empty());
            assert forall|t: int| 0 <= t < n implies #[trigger] pending(down, c1, t as usize, n) + count_in(
                down[id as int],
                t as usize,
            ) == pending(down, c0, t as usize, n) by {
                lemma_pending_complete(down, c0, t as usize, n, id as int);
            }
        }
        let ghost ord0 = self.order@;
        let mut added: Vec<usize> = Vec::new();
        let ghost mut pos: Seq<int> = Seq::empty();
        let mut k: usize = 0;
        while k < list.len()
            invariant
                k <= list.len(),
                self.order@ == ord0,
                pos.len() == added@.len(),
                forall|i: int| 0 <= i < pos.len() ==> 0 <= #[trigger] pos[i] < k && list@[pos[i]] == added@[i],
                forall|i: int, j: int| 0 <= i < j < pos.len() ==> #[trigger] pos[i] < #[trigger] pos[j],
                queue_items(self.queue) == q0 + added@,
                id < n,
                n == self.names@.len(),
                self.completed@ == c0,
                self.names@ == names0,
                n <= usize::MAX,
                self.handed_out@ == h,
                self.down_view() == down,
                self.downstream@.len() == n,
                self.executed == count_true(c0),
                self.indegree@.len() == n,
                list@ == down[id as int],
                forall|k2: int| 0 <= k2 < list@.len() ==> #[trigger] list@[k2] < n,
                h.len() == n,
                !c0[id as int],
                c0.len() == n,
                forall|t: int| 0 <= t < n ==> #[trigger] pending(down, c1, t as usize, n) + count_in(
                    down[id as int],
                    t as usize,
                ) == pending(down, c0, t as usize, n),
                forall|t: int| 0 <= t < n ==> #[trigger] self.indegree@[t] + count_in(list@.take(k as int), t as usize)
                    == pending(down, c0, t as usize, n),
                q0.no_duplicates(),
                forall|i: int| 0 <= i < q0.len() ==> #[trigger] q0[i] < n,
                forall|i: int| 0 <= i < q0.len() ==> !h[#[trigger] q0[i] as int],
                forall|t: int| 0 <= t < n ==> (pending(down, c0, t as usize, n) == 0 <==> (h[t] || q0.contains(t as usize))),
                queue_items(self.queue).take(q0.len() as int) == q0,
                queue_items(self.queue).len() >= q0.len(),
                queue_items(self.queue).no_duplicates(),
                forall|i: int| 0 <= i < queue_items(self.queue).len() ==> #[trigger] queue_items(self.queue)[i] < n,
                forall|i: int| 0 <= i < queue_items(self.queue).len() ==> !h[#[trigger] queue_items(self.queue)[i] as int],
                forall|t: int| 0 <= t < n ==> (#[trigger] self.indegree@[t] == 0 <==> (h[t] || queue_items(self.queue).contains(t as usize))),
            decreases list.len() - k,
        {
            let d = list[k];
            let ghost qb = queue_items(self.queue);
            assert(list@[k as int] == d);
            proof {
                lemma_count_in_take(list@, d, k as int);
                lemma_pending_ge(down, c0, d, n, id as int);
                assert forall|t: int| 0 <= t < n && t != d implies #[trigger] count_in(list@.take(k + 1), t as usize)
                    == count_in(list@.take(k as int), t as usize) by {
                    lemma_count_in_take(list@, t as usize, k as int);
                }
                // `d` has an entry in the list of `id`, which has not completed.
                lemma_count_in_contains(list@, d);
                assert(list@[k as int] == d);
                assert(pending(down, c0, d, n) > 0);
                assert(!h[d as int] && !q0.contains(d)) by {
                    if h[d as int] || q0.contains(d) {
                        assert(pending(down, c0, d, n) == 0);
                    }
                }
            }
            let cur = self.indegree[d];
            self.indegree.set(d, cur - 1);
            if cur - 1 == 0 {
                proof {
                    if qb.contains(d) {
                        assert(self.indegree@[d as int] + 1 == cur);
                    }
                }
                queue_add(&mut self.queue, d);
                let ghost added0 = added@;
                added.push(d);
                proof {
                    pos = pos.push(k as int);
                }
                proof {
                    let q = queue_items(self.queue);
                    assert(q == qb.push(d));
                    assert(q =~= q0 + added@) by {
                        assert(qb == q0 + added0);
                        assert(added@ == added0.push(d));
                    }
                    assert(q.take(q0.len() as int) =~= qb.take(q0.len() as int));
                    assert forall|i: int, j: int| 0 <= i < q.len() && 0 <= j < q.len() && i != j implies q[i]
                        != q[j] by {
                        if i == qb.len() && j < qb.len() {
                            assert(qb[j] == q[j]);
                        }
                        if j == qb.len() && i < qb.len() {
                            assert(qb[i] == q[i]);
                        }
                    }
                    assert forall|t: int| 0 <= t < n implies (#[trigger] self.indegree@[t] == 0 <==> (h[t]
                        || q.contains(t as usize))) by {
                        if q.contains(t as usize) && t != d {
                            let i = choose|i: int| 0 <= i < q.len() && q[i] == t as usize;
                            assert(i < qb.len());
                            assert(qb[i] == t);
                        }
                        if qb.contains(t as usize) {
                            let i = choose|i: int| 0 <= i < qb.len() && qb[i] == t as usize;
                            assert(q[i] == t);
                        }
                        if t == d {
                            assert(q[qb.len() as int] == d);
                        }
                    }
                }
            } else {
                proof {
                    let q = queue_items(self.queue);
                    assert forall|t: int| 0 <= t < n implies (#[trigger] self.indegree@[t] == 0 <==> (h[t]
                        || q.contains(t as usize))) by {
                        if t == d && q.contains(d) {
                            assert(false) by {
                                assert(qb.contains(d));
                            }
                        }
                    }
                }
            }
            k = k + 1;
        }
        assert(list@.take(k as int) =~= list@);
        assert(positions_in(pos, added@, down[id as int]));
        assert(self.order_ok()) by {
            assert(old(self).order_ok());
            assert(self.names@ == old(self).names@);
            assert(self.down_view() == old(self).down_view());
        }
        self.completed.set(id, true);
        proof {
            lemma_count_true_set(c0, id as int);
            lemma_count_true_le(c1);
        }
        self.executed = self.executed + 1;
        proof {
            let q = queue_items(self.queue);
            assert(self.completed@ == c1);
            assert(self.down_view() == down);
            assert forall|t: usize| t < self.size() implies (q.contains(t) <==> (q0.contains(t) || (down[id as int].contains(t)
                && self.upstream_done(t)))) by {
                lemma_pending_zero(down, c1, t, n);
                lemma_count_in_contains(down[id as int], t);
                lemma_pending_ge(down, c0, t, n, id as int);
                assert(self.indegree@[t as int] + count_in(down[id as int], t) == pending(down, c0, t, n));
                assert(pending(down, c1, t, n) + count_in(down[id as int], t) == pending(down, c0, t, n));
                assert(self.indegree@[t as int] == pending(down, c1, t, n));
                if q0.contains(t) {
                    let i = choose|i: int| 0 <= i < q0.len() && q0[i] == t;
                    assert(q.take(q0.len() as int)[i] == t);
                    assert(q[i] == t);
                }
                if q.contains(t) && !q0.contains(t) {
                    assert(self.indegree@[t as int] == 0);
                    let i = choose|i: int| 0 <= i < q.len() && q[i] == t;
                    assert(!h[t as int]);
                    if !down[id as int].contains(t) {
                        assert(pending(down, c0, t, n) == 0);
                        assert(h[t as int] || q0.contains(t));
                    }
                    assert forall|u: int| 0 <= u < self.size() && #[trigger] self.waits_for(t, u) implies self.completed_view()[u] by {
                        if !c1[u] {
                            assert(!down[u].contains(t));
                        }
                    }
                }
                if down[id as int].contains(t) && self.upstream_done(t) {
                    assert forall|v: int| 0 <= v < n && !c1[v] implies !(#[trigger] down[v]).contains(t) by {
                        if down[v].contains(t) {
                            assert(self.waits_for(t, v));
                        }
                    }
                    assert(pending(down, c1, t, n) == 0);
                    assert(self.indegree@[t as int] == 0);
                    assert(pending(down, c0, t, n) > 0);
                    assert(!h[t as int]);
                    assert(q.contains(t));
                }
            }
            assert forall|t: int| 0 <= t < n && #[trigger] self.completed@[t] implies self.handed_out@[t] by {}
        }
        added
    }
}

// ---------------------------------------------------------------------------
// The scheduler
// ---------------------------------------------------------------------------
/// Decides which task may run next.
pub struct Scheduler {
    state: Schedule,
}

impl Scheduler {
    /// What every scheduler keeps: each in-degree counts the list entries
    /// naming the task that belong to tasks that have not completed; a task
    /// is queued or handed out exactly when its in-degree is zero; a queued
    /// task is queued once and not handed out; a completed task was handed
    /// out; and the number of completed tasks is counted.
    #[verifier::type_invariant]
    pub closed spec fn wf(&self) -> bool {
        self.state.wf()
    }

    /// The task names, by id.
    pub closed spec fn names_view(&self) -> Seq<Seq<char>> {
        self.state.names_view()
    }

    /// For each task, the ids of its list: the tasks waiting for it.
    pub closed spec fn down_view(&self) -> Seq<Seq<usize>> {
        self.state.down_view()
    }

    /// Tasks ready to run and not handed out yet, oldest first.
    pub closed spec fn queue_view(&self) -> Seq<usize> {
        self.state.queue_view()
    }

    /// Which tasks have been handed out to run.
    pub closed spec fn handed_view(&self) -> Seq<bool> {
        self.state.handed_view()
    }

    /// Which tasks have completed.
    pub closed spec fn completed_view(&self) -> Seq<bool> {
        self.state.completed_view()
    }

    /// How many tasks have completed.
    pub closed spec fn executed_view(&self) -> nat {
        self.state.executed_view()
    }

    /// The number of tasks.
    pub open spec fn size(&self) -> nat {
        self.names_view().len()
    }

    /// Task `t` waits for task `u`: `u`'s list names `t`.
    pub open spec fn waits_for(&self, t: usize, u: int) -> bool {
        self.down_view()[u].contains(t)
    }

    /// Every task that `t` waits for has completed.
    pub open spec fn upstream_done(&self, t: usize) -> bool {
        forall|u: int| 0 <= u < self.size() && #[trigger] self.waits_for(t, u) ==> self.completed_view()[u]
    }

    /// What callers may rely on: the views have one entry per task, list
    /// entries and queued ids are task ids, the queue holds no task twice and
    /// no task already handed out, a task is queued or handed out exactly
    /// when every task it waits for has completed, a completed task was
    /// handed out, and the completed tasks are counted.
    pub open spec fn well_shaped(&self) -> bool {
        let n = self.size();
        let q = self.queue_view();
        &&& self.down_view().len() == n
        &&& self.handed_view().len() == n
        &&& self.completed_view().len() == n
        &&& forall|u: int, k: int|
            0 <= u < n && 0 <= k < self.down_view()[u].len() ==> #[trigger] self.down_view()[u][k] < n
        &&& q.no_duplicates()
        &&& forall|i: int| 0 <= i < q.len() ==> #[trigger] q[i] < n
        &&& forall|i: int| 0 <= i < q.len() ==> !self.handed_view()[#[trigger] q[i] as int]
        &&& forall|t: usize|
            t < n ==> (#[trigger] self.upstream_done(t) <==> (self.handed_view()[t as int] || q.contains(t)))
        &&& forall|t: int| 0 <= t < n && #[trigger] self.completed_view()[t] ==> self.handed_view()[t]
        &&& self.executed_view() == count_true(self.completed_view())
    }

    proof fn lemma_shape(&self)
        requires
            self.state.wf(),
        ensures
            self.well_shaped(),
    {
        let st = self.state;
        let n = st.names@.len() as int;
        let down = st.down_view();
        assert forall|t: usize| t < n implies (#[trigger] self.upstream_done(t) <==> (self.handed_view()[t as int]
            || self.queue_view().contains(t))) by {
            lemma_pending_zero(down, st.completed@, t, n);
            assert(st.indegree@[t as int] == pending(down, st.completed@, t, n));
            if self.upstream_done(t) {
                assert forall|v: int| 0 <= v < n && !st.completed@[v] implies !(#[trigger] down[v]).contains(t) by {
                    if down[v].contains(t) {
                        assert(self.waits_for(t, v));
                    }
                }
            } else {
                let u = choose|u: int| 0 <= u < self.size() && #[trigger] self.waits_for(t, u) && !self.completed_view()[u];
                assert(down[u].contains(t));
            }
        }
    }

    /// Every scheduler is well shaped (see `well_shaped`).
    pub proof fn lemma_well_shaped(&self)
        requires
            self.wf(),
        ensures
            self.well_shaped(),
    {
        self.lemma_shape();
    }

    proof fn lemma_upstream_done(&self)
        ensures
            forall|t: usize| #[trigger] self.upstream_done(t) == self.state.upstream_done(t),
    {
        assert forall|t: usize| #[trigger] self.upstream_done(t) == self.state.upstream_done(t) by {
            if self.upstream_done(t) {
                assert forall|u: int| 0 <= u < self.state.size() && #[trigger] self.state.waits_for(t, u) implies self.state.completed_view()[u] by {
                    assert(self.waits_for(t, u));
                }
            }
            if self.state.upstream_done(t) {
                assert forall|u: int| 0 <= u < self.size() && #[trigger] self.waits_for(t, u) implies self.completed_view()[u] by {
                    assert(self.state.waits_for(t, u));
                }
            }
        }
    }

    /// Numbers the keys of `deps` (task `u` is the `u`-th key) and queues
    /// the tasks that wait for no one.
    pub fn new(deps: &NameMap<Vec<String>>) -> (r: Self)
        requires
            deps_closed(deps@),
            in_degrees_fit(deps.entry_seq()),
        ensures
            r.names_view() == deps.entry_seq().map_values(|e: (Seq<char>, Seq<Seq<char>>)| e.0),
            forall|u: int|
                0 <= u < r.size() ==> (#[trigger] r.down_view()[u]).len() == deps@[r.names_view()[u]].len(),
            forall|u: int, k: int|
                0 <= u < r.size() && 0 <= k < r.down_view()[u].len() ==> r.names_view()[#[trigger] r.down_view()[u][k] as int]
                    == deps@[r.names_view()[u]][k],
            r.executed_view() == 0,
            forall|t: int| 0 <= t < r.size() ==> !(#[trigger] r.handed_view()[t]),
            forall|t: int| 0 <= t < r.size() ==> !(#[trigger] r.completed_view()[t]),
            forall|t: usize| t < r.size() ==> (r.queue_view().contains(t) <==> r.upstream_done(t)),
            r.well_shaped(),
    {
        let r = Scheduler { state: Schedule::new(deps) };
        proof {
            r.lemma_upstream_done();
            r.lemma_shape();
        }
        r
    }

    /// The name of task `id`.
    pub fn task_name(&self, id: usize) -> (s: &String)
        requires
            id < self.size(),
        ensures
            s@ == self.names_view()[id as int],
    {
        self.state.task_name(id)
    }

    /// The number of tasks.
    pub fn total(&self) -> (n: usize)
        ensures
            n == self.size(),
    {
        self.state.total()
    }

    /// How many tasks have completed.
    pub fn executed(&self) -> (n: usize)
        ensures
            n == self.executed_view(),
            n == count_true(self.completed_view()),
            n <= self.size(),
    {
        proof {
            use_type_invariant(self);
        }
        self.state.executed()
    }

    /// Whether every task has completed.
    pub fn all_executed(&self) -> (b: bool)
        ensures
            b == (self.executed_view() == self.size()),
    {
        proof {
            use_type_invariant(self);
        }
        self.state.all_executed()
    }

    /// Whether `id` has been handed out and has not completed yet.
    pub fn is_running(&self, id: usize) -> (b: bool)
        ensures
            b == (id < self.size() && self.handed_view()[id as int] && !self.completed_view()[id as int]),
    {
        proof {
            use_type_invariant(self);
        }
        self.state.is_running(id)
    }

    /// Hands out the oldest ready task. A task is handed out at most once,
    /// and only when every task it waits for has completed.
    pub fn pop_ready(&mut self) -> (r: Option<usize>)
        ensures
            final(self).names_view() == old(self).names_view(),
            final(self).down_view() == old(self).down_view(),
            final(self).completed_view() == old(self).completed_view(),
            final(self).executed_view() == old(self).executed_view(),
            old(self).queue_view().len() == 0 ==> r is None && final(self).queue_view() == old(
                self,
            ).queue_view() && final(self).handed_view() == old(self).handed_view(),
            old(self).queue_view().len() > 0 ==> r == Some(old(self).queue_view()[0])
                && final(self).queue_view() == old(self).queue_view().drop_first()
                && final(self).handed_view() == old(self).handed_view().update(
                old(self).queue_view()[0] as int,
                true,
            ),
            r matches Some(t) ==> t < final(self).size() && !old(self).handed_view()[t as int]
                && final(self).upstream_done(t),
            final(self).well_shaped(),
    {
        proof {
            use_type_invariant(&*self);
        }
        let mut state = Schedule::empty();
        std::mem::swap(&mut state, &mut self.state);
        let r = state.pop_ready();
        self.state = state;
        proof {
            self.lemma_upstream_done();
            self.lemma_shape();
        }
        r
    }

    /// Records that running task `id` has completed: every task in its list
    /// loses one in-degree, and a task whose in-degree reaches zero joins the
    /// queue. The tasks that joined are returned in the order they joined; a
    /// task joins exactly when it waits for `id` and every task it waits for
    /// has completed.
    pub fn complete(&mut self, id: usize) -> (added: Vec<usize>)
        requires
            id < old(self).size(),
            old(self).handed_view()[id as int],
            !old(self).completed_view()[id as int],
        ensures
            final(self).names_view() == old(self).names_view(),
            final(self).down_view() == old(self).down_view(),
            final(self).handed_view() == old(self).handed_view(),
            final(self).completed_view() == old(self).completed_view().update(id as int, true),
            final(self).executed_view() == old(self).executed_view() + 1,
            final(self).queue_view() == old(self).queue_view() + added@,
            forall|i: int| 0 <= i < added@.len() ==> #[trigger] added@[i] < final(self).size(),
            subsequence_of(added@, old(self).down_view()[id as int]),
            final(self).well_shaped(),
            forall|t: usize|
                #![trigger final(self).queue_view().contains(t)]
                t < final(self).size() ==> (final(self).queue_view().contains(t) <==> (old(
                    self,
                ).queue_view().contains(t) || (old(self).waits_for(t, id as int)
                    && final(self).upstream_done(t)))),
    {
        proof {
            use_type_invariant(&*self);
        }
        let ghost before = self.state;
        let mut state = Schedule::empty();
        std::mem::swap(&mut state, &mut self.state);
        let added = state.complete(id);
        self.state = state;
        proof {
            self.lemma_upstream_done();
            self.lemma_shape();
            assert forall|i: int| 0 <= i < added@.len() implies #[trigger] added@[i] < self.size() by {
                let k = before.queue_view().len() + i;
                assert(state.queue_view()[k] == added@[i]);
                assert(state.queue_view()[k] < state.names@.len());
            }
            assert forall|t: usize| #![trigger self.queue_view().contains(t)] t < self.size() implies (self.queue_view().contains(t) <==> (old(
                self,
            ).queue_view().contains(t) || (old(self).waits_for(t, id as int) && self.upstream_done(t)))) by {
                assert(t < state.size());
                let a = state.queue_view().contains(t);
                let b = before.queue_view().contains(t);
                let c = before.waits_for(t, id as int);
                let d = state.upstream_done(t);
                assert(self.upstream_done(t) == state.upstream_done(t));
                assert(old(self).waits_for(t, id as int) == before.waits_for(t, id as int));
            }
        }
        added
    }

    /// Task `p[k + 1]` waits for task `p[k]`, both being tasks.
    pub open spec fn chain_step(&self, p: Seq<usize>, k: int) -> bool {
        &&& p[k] < self.size()
        &&& p[k + 1] < self.size()
        &&& self.waits_for(p[k + 1], p[k] as int)
    }

    /// `p` is a chain of tasks, each waiting for the one before it.
    pub open spec fn is_chain(&self, p: Seq<usize>) -> bool {
        &&& p.len() > 0
        &&& p[0] < self.size()
        &&& forall|k: int| 0 <= k < p.len() - 1 ==> #[trigger] self.chain_step(p, k)
    }

    /// `c` is a cycle: a chain whose first task waits for its last.
    pub open spec fn is_cycle(&self, c: Seq<usize>) -> bool {
        self.is_chain(c) && self.waits_for(c[0], c.last() as int)
    }

    /// When the last task of a chain has been handed out, so has the first,
    /// and earlier when the chain has more than one task.
    proof fn lemma_chain_handed(&self, p: Seq<usize>) -> (ij: (int, int))
        requires
            self.state.wf(),
            self.is_chain(p),
            self.handed_view()[p.last() as int],
        ensures
            0 <= ij.0 <= ij.1 < self.state.order@.len(),
            self.state.order@[ij.0] == p[0],
            self.state.order@[ij.1] == p.last(),
            p.len() > 1 ==> ij.0 < ij.1,
        decreases p.len(),
    {
        let o = self.state.order@;
        let last = p.len() - 1;
        if p.len() == 1 {
            assert(o.contains(p[0]));
            let i = choose|i: int| 0 <= i < o.len() && o[i] == p[0];
            (i, i)
        } else {
            let q = p.drop_last();
            assert forall|k: int| 0 <= k < q.len() - 1 implies #[trigger] self.chain_step(q, k) by {
                assert(self.chain_step(p, k));
                assert(q[k] == p[k] && q[k + 1] == p[k + 1]);
            }
            assert(self.chain_step(p, last - 1));
            assert(o.contains(p.last()));
            let i1 = choose|i: int| 0 <= i < o.len() && o[i] == p.last();
            let u = p[last - 1] as int;
            assert(self.state.down_view()[u].contains(o[i1]));
            assert(o.take(i1).contains(u as usize));
            let j = choose|j: int| 0 <= j < o.take(i1).len() && o.take(i1)[j] == u as usize;
            assert(o[j] == q.last());
            assert(o.contains(q.last()));
            let ab = self.lemma_chain_handed(q);
            assert(ab.1 == j);
            (ab.0, i1)
        }
    }

    /// A task that waits, directly or through a chain of tasks, for a task
    /// on a cycle of waiting tasks is never handed out and never completes;
    /// with `path` holding just `cycle[0]`, this covers the cycle itself.
    pub proof fn lemma_cycle_never_runs(&self, cycle: Seq<usize>, path: Seq<usize>)
        requires
            self.wf(),
            self.is_cycle(cycle),
            self.is_chain(path),
            path[0] == cycle[0],
        ensures
            !self.handed_view()[path.last() as int],
            !self.completed_view()[path.last() as int],
    {
        let o = self.state.order@;
        let c2 = cycle.push(cycle[0]);
        let m = cycle.len() - 1;
        if m > 0 {
            assert(self.chain_step(cycle, m - 1));
        }
        assert(cycle[m] < self.size());
        assert forall|k: int| 0 <= k < c2.len() - 1 implies #[trigger] self.chain_step(c2, k) by {
            if k < m {
                assert(self.chain_step(cycle, k));
                assert(c2[k] == cycle[k] && c2[k + 1] == cycle[k + 1]);
            } else {
                assert(c2[k] == cycle[m] && c2[k + 1] == cycle[0]);
            }
        }
        if self.handed_view()[cycle[0] as int] {
            let ab = self.lemma_chain_handed(c2);
            assert(o[ab.0] == o[ab.1]);
        }
        if self.handed_view()[path.last() as int] {
            let ab = self.lemma_chain_handed(path);
            assert(o.contains(cycle[0]));
        }
        self.lemma_shape();
        let t = path.last() as int;
        if path.len() > 1 {
            assert(self.chain_step(path, path.len() - 2));
        }
        assert(0 <= t < self.size());
        assert(self.completed_view()[t] ==> self.handed_view()[t]);
    }

    /// When nothing is queued or running and some task has not completed,
    /// that task waits for another task that has not completed either. So
    /// the tasks left over wait for each other in a cycle: with no cycle
    /// among them, the run cannot stall before every task has completed.
    pub proof fn lemma_stalled_tasks_wait_on_each_other(&self, t: usize)
        requires
            self.well_shaped(),
            self.queue_view().len() == 0,
            forall|s: int| 0 <= s < self.size() ==> #[trigger] self.handed_view()[s] ==> self.completed_view()[s],
            t < self.size(),
            !self.completed_view()[t as int],
        ensures
            exists|u: int| 0 <= u < self.size() && #[trigger] self.waits_for(t, u) && !self.completed_view()[u],
    {
        assert(!self.handed_view()[t as int]);
        assert(!self.queue_view().contains(t));
        assert(!self.upstream_done(t));
    }
}

/// The count of in-degrees matches the count of names.
proof fn lemma_pending_names(
    down: Seq<Seq<usize>>,
    falses: Seq<bool>,
    es: Seq<(Seq<char>, Seq<Seq<char>>)>,
    nv: Seq<Seq<char>>,
    t: usize,
    u: int,
)
    requires
        0 <= u <= down.len(),
        down.len() == es.len(),
        nv.len() == es.len(),
        nv.no_duplicates(),
        t < nv.len(),
        forall|i: int| 0 <= i < falses.len() ==> !falses[i],
        falses.len() >= u,
        forall|v: int| 0 <= v < down.len() ==> (#[trigger] down[v]).len() == es[v].1.len(),
        forall|v: int, k: int|
            0 <= v < down.len() && 0 <= k < down[v].len() ==> #[trigger] down[v][k] < nv.len() && nv[down[v][k] as int]
                == es[v].1[k],
    ensures
        pending(down, falses, t, u) == dep_count(es, nv[t as int], u),
    decreases u,
{
    if u > 0 {
        lemma_pending_names(down, falses, es, nv, t, u - 1);
        lemma_count_ids(down[u - 1], es[u - 1].1, nv, t);
    }
}

/// The position of a name among `names`.
fn index_of_name(names: &Vec<String>, x: &String) -> (r: Option<usize>)
    ensures
        match r {
            Some(j) => j < names@.len() && names@[j as int]@ == x@,
            None => forall|j: int| 0 <= j < names@.len() ==> names@[j]@ != x@,
        },
{
    let mut j: usize = 0;
    while j < names.len()
        invariant
            j <= names.len(),
            forall|m: int| 0 <= m < j ==> names@[m]@ != x@,
        decreases names.len() - j,
    {
        if names[j] == *x {
            return Some(j);
        }
        j = j + 1;
    }
    None
}

proof fn lemma_count_name_take(s: Seq<Seq<char>>, x: Seq<char>, k: int)
    requires
        0 <= k < s.len(),
    ensures
        count_name(s.take(k + 1), x) == count_name(s.take(k), x) + if s[k] == x {
            1nat
        } else {
            0nat
        },
        count_name(s.take(k + 1), x) <= count_name(s, x),
    decreases s.len() - k,
{
    assert(s.take(k + 1).drop_last() =~= s.take(k));
    if k + 1 < s.len() {
        lemma_count_name_take(s, x, k + 1);
    } else {
        assert(s.take(k + 1) =~= s);
    }
}

proof fn lemma_count_name_absent(s: Seq<Seq<char>>, x: Seq<char>)
    requires
        forall|j: int| 0 <= j < s.len() ==> s[j] != x,
    ensures
        count_name(s, x) == 0,
    decreases s.len(),
{
    if s.len() > 0 {
        assert forall|j: int| 0 <= j < s.drop_last().len() implies s.drop_last()[j] != x by {
            assert(s.drop_last()[j] == s[j]);
        }
        lemma_count_name_absent(s.drop_last(), x);
    }
}

proof fn lemma_dep_count_mono(es: Seq<(Seq<char>, Seq<Seq<char>>)>, x: Seq<char>, u: int, w: int)
    requires
        0 <= u <= w,
    ensures
        dep_count(es, x, u) <= dep_count(es, x, w),
    decreases w - u,
{
    if u < w {
        lemma_dep_count_mono(es, x, u, w - 1);
    }
}

proof fn lemma_dep_count_absent(es: Seq<(Seq<char>, Seq<Seq<char>>)>, x: Seq<char>, u: int)
    requires
        0 <= u <= es.len(),
        forall|v: int, j: int| 0 <= v < u && 0 <= j < es[v].1.len() ==> es[v].1[j] != x,
    ensures
        dep_count(es, x, u) == 0,
    decreases u,
{
    if u > 0 {
        lemma_dep_count_absent(es, x, u - 1);
        assert forall|j: int| 0 <= j < es[u - 1].1.len() implies #[trigger] es[u - 1].1[j] != x by {}
        lemma_count_name_absent(es[u - 1].1, x);
    }
}

/// Whether a dependency map can be scheduled: every name in a list is a key,
/// and no name occurs in all lists together more often than a `u16` counts.
pub fn dependencies_fit(deps: &NameMap<Vec<String>>) -> (b: bool)
    ensures
        b == (deps_closed(deps@) && in_degrees_fit(deps.entry_seq())),
{
    let names = deps.keys();
    let entries = deps.entries();
    let ghost es = deps.entry_seq();
    let ghost nv = names@.map_values(|s: String| s@);
    let n = entries.len();
    proof {
        assert(entries@.map_values(|e: (String, Vec<String>)| (e.0@, e.1.deep_view())).len() == es.len());
        assert(nv.len() == es.len());
        assert forall|i: int, j: int| 0 <= i < es.len() && 0 <= j < es.len() && i != j implies es[i].0
            != es[j].0 by {
            assert(nv[i] == es[i].0 && nv[j] == es[j].0);
        }
        assert(keys_unique(es));
    }
    // Every name in a list is a key.
    let mut u: usize = 0;
    while u < n
        invariant
            u <= n,
            n == es.len(),
            keys_unique(es),
            es == deps.entry_seq(),
            entries@.map_values(|e: (String, Vec<String>)| (e.0@, e.1.deep_view())) == es,
            deps@ == crate::name_map::entries_map(es),
            forall|v: int, j: int|
                0 <= v < u && 0 <= j < es[v].1.len() ==> #[trigger] deps@.contains_key(es[v].1[j]),
        decreases n - u,
    {
        let list = &entries[u].1;
        assert(list.deep_view() == es[u as int].1);
        let mut k: usize = 0;
        while k < list.len()
            invariant
                k <= list.len(),
                u < n,
                n == es.len(),
                keys_unique(es),
                es == deps.entry_seq(),
                deps@ == crate::name_map::entries_map(es),
                list.deep_view() == es[u as int].1,
                forall|v: int, j: int|
                    0 <= v < u && 0 <= j < es[v].1.len() ==> #[trigger] deps@.contains_key(es[v].1[j]),
                forall|j: int| 0 <= j < k ==> #[trigger] deps@.contains_key(es[u as int].1[j]),
            decreases list.len() - k,
        {
            assert(list@[k as int]@ == es[u as int].1[k as int]);
            if !deps.contains_key(&list[k]) {
                proof {
                    lemma_entries_map_at(es, u as int);
                    let key = es[u as int].0;
                    assert(deps@.contains_key(key) && 0 <= k < deps@[key].len());
                    assert(!deps@.contains_key(deps@[key][k as int]));
                }
                return false;
            }
            k = k + 1;
        }
        u = u + 1;
    }
    proof {
        assert forall|key: Seq<char>, i: int|
            deps@.contains_key(key) && 0 <= i < deps@[key].len() implies #[trigger] deps@.contains_key(
            #[trigger] deps@[key][i],
        ) by {
            let v = choose|v: int| 0 <= v < es.len() && es[v].0 == key;
            lemma_entries_map_at(es, v);
        }
        assert(deps_closed(deps@));
    }
    // No name occurs too often.
    let mut t: usize = 0;
    while t < n
        invariant
            t <= n,
            n == es.len(),
            names@.len() == n,
            es == deps.entry_seq(),
            nv == names@.map_values(|s: String| s@),
            nv == es.map_values(|e: (Seq<char>, Seq<Seq<char>>)| e.0),
            entries@.map_values(|e: (String, Vec<String>)| (e.0@, e.1.deep_view())) == es,
            forall|s: int| 0 <= s < t ==> dep_count(es, #[trigger] nv[s], n as int) <= u16::MAX,
        decreases n - t,
    {
        let x = &names[t];
        let ghost xv = x@;
        assert(xv == nv[t as int]);
        let mut cnt: u16 = 0;
        let mut u: usize = 0;
        while u < n
            invariant
                u <= n,
                n == es.len(),
                es == deps.entry_seq(),
                xv == x@,
                entries@.map_values(|e: (String, Vec<String>)| (e.0@, e.1.deep_view())) == es,
                cnt == dep_count(es, xv, u as int),
            decreases n - u,
        {
            let list = &entries[u].1;
            let ghost l = es[u as int].1;
            assert(list.deep_view() == l);
            let mut k: usize = 0;
            assert(l.take(0) =~= Seq::<Seq<char>>::empty());
            while k < list.len()
                invariant
                    k <= list.len(),
                    u < n,
                    n == es.len(),
                    es == deps.entry_seq(),
                    xv == x@,
                    l == es[u as int].1,
                    list.deep_view() == l,
                    cnt == dep_count(es, xv, u as int) + count_name(l.take(k as int), xv),
                decreases list.len() - k,
            {
                proof {
                    lemma_count_name_take(l, xv, k as int);
                }
                assert(list@[k as int]@ == l[k as int]);
                if list[k] == *x {
                    if cnt == u16::MAX {
                        proof {
                            assert(dep_count(es, xv, u + 1) == dep_count(es, xv, u as int) + count_name(l, xv));
                            lemma_dep_count_mono(es, xv, u + 1, n as int);
                            assert(dep_count(es, xv, es.len() as int) > u16::MAX);
                        }
                        return false;
                    }
                    cnt = cnt + 1;
                }
                k = k + 1;
            }
            assert(l.take(k as int) =~= l);
            u = u + 1;
        }
        t = t + 1;
    }
    proof {
        assert forall|y: Seq<char>| #[trigger] dep_count(es, y, es.len() as int) <= u16::MAX by {
            if exists|s: int| 0 <= s < n && nv[s] == y {
                let s = choose|s: int| 0 <= s < n && nv[s] == y;
                assert(dep_count(es, nv[s], n as int) <= u16::MAX);
            } else {
                assert forall|v: int, j: int| 0 <= v < es.len() && 0 <= j < es[v].1.len() implies es[v].1[j]
                    != y by {
                    lemma_entries_map_at(es, v);
                    assert(deps@.contains_key(es[v].0) && deps@[es[v].0] == es[v].1);
                    assert(deps@.contains_key(deps@[es[v].0][j]));
                    if es[v].1[j] == y {
                        let w = choose|w: int| 0 <= w < es.len() && es[w].0 == y;
                        assert(nv[w] == y);
                    }
                }
                lemma_dep_count_absent(es, y, es.len() as int);
            }
        }
    }
    true
}

} // verus!
