//! Deterministic task scheduling: tasks run in ascending id order, and a
//! work-stealing plan that deals tasks round-robin to workers and lets idle
//! workers steal from the fullest queue, reproducibly.

use vstd::prelude::*;
use vstd::multiset::Multiset;

verus! {

#[derive(Debug, Clone)]
pub struct ScheduledTask<T> {
    pub id: u64,
    pub payload: T,
}

#[derive(Debug, Default)]
pub struct TaskScheduler;

#[derive(Debug, Clone, PartialEq, Eq)]
pub struct WorkStealingPlan {
    pub worker_count: usize,
    pub execution_order: Vec<u64>,
}

/// Task `a` runs before task `b`: smaller id first, ties in input order.
pub open spec fn runs_before<T>(tasks: Seq<ScheduledTask<T>>, a: int, b: int) -> bool {
    tasks[a].id < tasks[b].id || (tasks[a].id == tasks[b].id && a < b)
}

/// `order` lists every task position exactly once, in ascending id order,
/// tasks with equal ids in input order.
pub open spec fn is_id_order<T>(tasks: Seq<ScheduledTask<T>>, order: Seq<int>) -> bool {
    &&& order.len() == tasks.len()
    &&& forall|k: int| 0 <= k < order.len() ==> 0 <= #[trigger] order[k] < tasks.len()
    &&& forall|k: int, l: int|
        0 <= k < l < order.len() ==> runs_before(tasks, #[trigger] order[k], #[trigger] order[l])
    &&& forall|m: int| 0 <= m < tasks.len() ==> #[trigger] order.contains(m)
}

pub open spec fn index_view(s: Seq<usize>) -> Seq<int> {
    s.map_values(|i: usize| i as int)
}

/// The run order of tasks is determined by the tasks alone.
pub proof fn lemma_id_order_unique<T>(tasks: Seq<ScheduledTask<T>>, o1: Seq<int>, o2: Seq<int>)
    requires
        is_id_order(tasks, o1),
        is_id_order(tasks, o2),
    ensures
        o1 == o2,
{
    assert forall|k: int| 0 <= k < o1.len() implies o1[k] == o2[k] by {
        lemma_id_order_prefix(tasks, o1, o2, k);
    }
    assert(o1 =~= o2);
}

proof fn lemma_id_order_prefix<T>(tasks: Seq<ScheduledTask<T>>, o1: Seq<int>, o2: Seq<int>, k: int)
    requires
        is_id_order(tasks, o1),
        is_id_order(tasks, o2),
        0 <= k < o1.len(),
    ensures
        o1[k] == o2[k],
    decreases k,
{
    if k > 0 {
        lemma_id_order_prefix(tasks, o1, o2, k - 1);
    }
    assert forall|m: int| 0 <= m < k implies o1[m] == o2[m] by {
        lemma_id_order_prefix(tasks, o1, o2, m);
    }
    if o1[k] != o2[k] {
        let a = o1[k];
        let b = o2[k];
        assert(o2.contains(a));
        assert(o1.contains(b));
        let l2 = choose|l: int| 0 <= l < o2.len() && o2[l] == a;
        let l1 = choose|l: int| 0 <= l < o1.len() && o1[l] == b;
        if l2 < k {
            assert(o1[l2] == a);
            assert(runs_before(tasks, o1[l2], o1[k]));
        }
        if l1 < k {
            assert(o2[l1] == b);
            assert(runs_before(tasks, o2[l1], o2[k]));
        }
        assert(l2 > k);
        assert(l1 > k);
        assert(runs_before(tasks, o2[k], o2[l2]));
        assert(runs_before(tasks, o1[k], o1[l1]));
    }
}

/// Positions of the tasks in run order.
fn id_order<T>(tasks: &Vec<ScheduledTask<T>>) -> (order: Vec<usize>)
    ensures
        is_id_order(tasks@, index_view(order@)),
{
    let n = tasks.len();
    let mut order: Vec<usize> = Vec::new();
    for i in 0..n
        invariant
            n == tasks.len(),
            order.len() == i,
            forall|k: int| 0 <= k < order.len() ==> #[trigger] order@[k] < i,
            forall|k: int, l: int|
                0 <= k < l < order.len() ==> runs_before(
                    tasks@,
                    #[trigger] order@[k] as int,
                    #[trigger] order@[l] as int,
                ),
            forall|m: int| 0 <= m < i ==> #[trigger] order@.contains(m as usize),
    {
        let id = tasks[i].id;
        let mut p: usize = 0;
        while p < order.len() && tasks[order[p]].id <= id
            invariant
                n == tasks.len(),
                i < n,
                id == tasks@[i as int].id,
                p <= order.len(),
                forall|k: int| 0 <= k < order.len() ==> #[trigger] order@[k] < i,
                forall|k: int, l: int|
                    0 <= k < l < order.len() ==> runs_before(
                        tasks@,
                        #[trigger] order@[k] as int,
                        #[trigger] order@[l] as int,
                    ),
                forall|k: int| 0 <= k < p ==> tasks@[#[trigger] order@[k] as int].id <= id,
            decreases order.len() - p,
        {
            p = p + 1;
        }
        proof {
            if p < order.len() {
                assert forall|k: int| p <= k < order.len() implies id < tasks@[
                    #[trigger] order@[k] as int].id by {
                    if k > p {
                        assert(runs_before(tasks@, order@[p as int] as int, order@[k] as int));
                    }
                }
            }
        }
        let ghost before = order@;
        order.insert(p, i);
        proof {
            let s = order@;
            assert(s =~= before.insert(p as int, i));
            assert forall|k: int, l: int| 0 <= k < l < s.len() implies runs_before(
                tasks@,
                #[trigger] s[k] as int,
                #[trigger] s[l] as int,
            ) by {
                if l < p {
                    assert(s[k] == before[k] && s[l] == before[l]);
                } else if l == p {
                    assert(s[k] == before[k]);
                } else if k < p {
                    assert(s[k] == before[k] && s[l] == before[l - 1]);
                } else if k == p {
                    assert(s[l] == before[l - 1]);
                } else {
                    assert(s[k] == before[k - 1] && s[l] == before[l - 1]);
                }
            }
            assert forall|m: int| 0 <= m < i + 1 implies #[trigger] s.contains(m as usize) by {
                if m == i {
                    assert(s[p as int] == m as usize);
                } else {
                    assert(before.contains(m as usize));
                    let k = choose|k: int| 0 <= k < before.len() && before[k] == m as usize;
                    if k < p {
                        assert(s[k] == m as usize);
                    } else {
                        assert(s[k + 1] == m as usize);
                    }
                }
            }
        }
    }
    proof {
        let v = index_view(order@);
        assert forall|m: int| 0 <= m < tasks@.len() implies #[trigger] v.contains(m) by {
            assert(order@.contains(m as usize));
            let k = choose|k: int| 0 <= k < order@.len() && order@[k] == m as usize;
            assert(v[k] == m);
        }
    }
    order
}


/// Ids of the tasks, in input order.
pub open spec fn task_ids<T>(tasks: Seq<ScheduledTask<T>>) -> Seq<u64> {
    tasks.map_values(|t: ScheduledTask<T>| t.id)
}

/// Nondecreasing.
pub open spec fn ascending(s: Seq<u64>) -> bool {
    forall|i: int, j: int| 0 <= i < j < s.len() ==> #[trigger] s[i] <= #[trigger] s[j]
}

/// The ids in ascending order.
pub open spec fn sorted_ids_of(ids: Seq<u64>) -> Seq<u64> {
    choose|s: Seq<u64>| ascending(s) && s.to_multiset() == ids.to_multiset()
}

/// Round-robin dealing: the id at position `k` goes to queue `k % workers`.
pub open spec fn deal(ids: Seq<u64>, workers: nat) -> Seq<Seq<u64>>
    decreases ids.len(),
{
    if ids.len() == 0 {
        Seq::new(workers, |q: int| Seq::<u64>::empty())
    } else {
        let prev = deal(ids.drop_last(), workers);
        let q = (ids.len() - 1) % (workers as int);
        prev.update(q, prev[q].push(ids.last()))
    }
}

/// `d` is the queue an idle worker steals from: among queues holding more
/// than one task, the longest, the lowest index on ties.
pub open spec fn is_donor(qs: Seq<Seq<u64>>, d: int) -> bool {
    &&& 0 <= d < qs.len()
    &&& qs[d].len() > 1
    &&& forall|j: int|
        0 <= j < qs.len() && (#[trigger] qs[j]).len() > 1 ==> qs[j].len() < qs[d].len() || (
        qs[j].len() == qs[d].len() && d <= j)
}

pub open spec fn donor_of(qs: Seq<Seq<u64>>) -> Option<int> {
    if exists|d: int| is_donor(qs, d) {
        Some(choose|d: int| is_donor(qs, d))
    } else {
        None
    }
}

/// Turn of worker `w`: take the front of its own queue, or else steal the
/// back of the donor queue, or else do nothing.
pub open spec fn steal_step(st: (Seq<Seq<u64>>, Seq<u64>), w: int) -> (Seq<Seq<u64>>, Seq<u64>) {
    let qs = st.0;
    let order = st.1;
    if qs[w].len() > 0 {
        (qs.update(w, qs[w].drop_first()), order.push(qs[w][0]))
    } else {
        match donor_of(qs) {
            Some(d) => (qs.update(d, qs[d].drop_last()), order.push(qs[d].last())),
            None => st,
        }
    }
}

/// The turns of workers `w`, `w + 1`, ..., `workers - 1`.
pub open spec fn steal_round(st: (Seq<Seq<u64>>, Seq<u64>), w: int, workers: int) -> (
    Seq<Seq<u64>>,
    Seq<u64>,
)
    decreases workers - w,
{
    if w >= workers {
        st
    } else {
        steal_round(steal_step(st, w), w + 1, workers)
    }
}

/// Rounds repeat until `n` tasks have been ordered (at most `fuel` rounds).
pub open spec fn run_rounds(st: (Seq<Seq<u64>>, Seq<u64>), n: nat, workers: int, fuel: nat) -> Seq<u64>
    decreases fuel,
{
    if fuel == 0 || st.1.len() >= n {
        st.1
    } else {
        run_rounds(steal_round(st, 0, workers), n, workers, (fuel - 1) as nat)
    }
}

/// The execution order of the work-stealing plan for ascending ids.
pub open spec fn stealing_order(sorted: Seq<u64>, workers: nat) -> Seq<u64> {
    run_rounds((deal(sorted, workers), Seq::<u64>::empty()), sorted.len(), workers as int, sorted.len())
}

/// Everything still queued.
pub open spec fn queued(qs: Seq<Seq<u64>>) -> Multiset<u64>
    decreases qs.len(),
{
    if qs.len() == 0 {
        Multiset::empty()
    } else {
        queued(qs.drop_last()).add(qs.last().to_multiset())
    }
}

pub open spec fn queue_views(qs: Seq<Vec<u64>>) -> Seq<Seq<u64>> {
    qs.map_values(|q: Vec<u64>| q@)
}

/// Two ascending sequences with the same elements are equal.
pub proof fn lemma_ascending_unique(s: Seq<u64>, t: Seq<u64>)
    requires
        ascending(s),
        ascending(t),
        s.to_multiset() == t.to_multiset(),
    ensures
        s == t,
    decreases s.len(),
{
    broadcast use vstd::seq_lib::group_to_multiset_ensures;

    if s.len() == 0 {
        assert(s.to_multiset().len() == 0);
        assert(t.to_multiset().len() == t.len());
        assert(t =~= s);
    } else {
        assert(s.to_multiset().len() == s.len());
        assert(t.to_multiset().len() == t.len());
        assert(t.len() > 0);
        assert(s.contains(s[0]));
        assert(s.to_multiset().count(s[0]) > 0);
        assert(t.to_multiset().count(s[0]) > 0);
        assert(t.contains(s[0]));
        assert(t.contains(t[0]));
        assert(t.to_multiset().count(t[0]) > 0);
        assert(s.to_multiset().count(t[0]) > 0);
        assert(s.contains(t[0]));
        let ks = choose|k: int| 0 <= k < t.len() && t[k] == s[0];
        let kt = choose|k: int| 0 <= k < s.len() && s[k] == t[0];
        if ks > 0 {
            assert(t[0] <= t[ks]);
        }
        if kt > 0 {
            assert(s[0] <= s[kt]);
        }
        assert(s[0] == t[0]);
        let s2 = s.drop_first();
        let t2 = t.drop_first();
        assert(s.remove(0) =~= s2);
        assert(t.remove(0) =~= t2);
        assert(s2.to_multiset() == s.to_multiset().remove(s[0]));
        assert(t2.to_multiset() == t.to_multiset().remove(t[0]));
        assert(ascending(s2)) by {
            assert forall|i: int, j: int| 0 <= i < j < s2.len() implies #[trigger] s2[i]
                <= #[trigger] s2[j] by {
                assert(s2[i] == s[i + 1] && s2[j] == s[j + 1]);
            }
        }
        assert(ascending(t2)) by {
            assert forall|i: int, j: int| 0 <= i < j < t2.len() implies #[trigger] t2[i]
                <= #[trigger] t2[j] by {
                assert(t2[i] == t[i + 1] && t2[j] == t[j + 1]);
            }
        }
        lemma_ascending_unique(s2, t2);
        assert forall|i: int| 0 <= i < s.len() implies s[i] == t[i] by {
            if i > 0 {
                assert(s[i] == s2[i - 1]);
                assert(t[i] == t2[i - 1]);
            }
        }
        assert(s =~= t);
    }
}

proof fn lemma_donor_unique(qs: Seq<Seq<u64>>, d1: int, d2: int)
    requires
        is_donor(qs, d1),
        is_donor(qs, d2),
    ensures
        d1 == d2,
{
    assert(qs[d1].len() > 1 && qs[d2].len() > 1);
}

/// Changing one queue by one element changes what is queued by that
/// element.
proof fn lemma_queued_update(qs: Seq<Seq<u64>>, i: int, x: Seq<u64>, y: Seq<u64>, a: u64)
    requires
        0 <= i < qs.len(),
        y.to_multiset() == x.to_multiset().insert(a),
    ensures
        queued(qs.update(i, y)) == queued(qs.update(i, x)).insert(a),
    decreases qs.len(),
{
    let qy = qs.update(i, y);
    let qx = qs.update(i, x);
    if i == qs.len() - 1 {
        assert(qy.drop_last() =~= qx.drop_last());
        assert(queued(qy) =~= queued(qx).insert(a));
    } else {
        lemma_queued_update(qs.drop_last(), i, x, y, a);
        assert(qy.drop_last() =~= qs.drop_last().update(i, y));
        assert(qx.drop_last() =~= qs.drop_last().update(i, x));
        assert(queued(qy) =~= queued(qx).insert(a));
    }
}

proof fn lemma_queued_empty(w: nat)
    ensures
        queued(Seq::new(w, |q: int| Seq::<u64>::empty())) == Multiset::<u64>::empty(),
    decreases w,
{
    let qs = Seq::new(w, |q: int| Seq::<u64>::empty());
    if w > 0 {
        lemma_queued_empty((w - 1) as nat);
        assert(qs.drop_last() =~= Seq::new((w - 1) as nat, |q: int| Seq::<u64>::empty()));
        assert(qs.last() =~= Seq::<u64>::empty());
        vstd::seq_lib::to_multiset_len(qs.last());
        vstd::multiset::lemma_multiset_empty_len(qs.last().to_multiset());
        assert(qs.last().to_multiset() =~= Multiset::<u64>::empty());
        assert(queued(qs) =~= Multiset::<u64>::empty());
    }
}

/// Something is queued only if some queue is non-empty.
proof fn lemma_queued_nonempty(qs: Seq<Seq<u64>>)
    requires
        queued(qs).len() > 0,
    ensures
        exists|v: int| 0 <= v < qs.len() && (#[trigger] qs[v]).len() > 0,
    decreases qs.len(),
{
    broadcast use vstd::seq_lib::group_to_multiset_ensures;

    if qs.len() == 0 {
    } else if qs.last().len() > 0 {
        assert(qs[qs.len() - 1].len() > 0);
    } else {
        assert(qs.last().to_multiset().len() == 0);
        lemma_queued_nonempty(qs.drop_last());
        let v = choose|v: int| 0 <= v < qs.drop_last().len() && (#[trigger] qs.drop_last()[v]).len()
            > 0;
        assert(qs[v].len() > 0);
    }
}

/// A turn either orders one more id, taken from a queue, or changes
/// nothing.
proof fn lemma_step_facts(st: (Seq<Seq<u64>>, Seq<u64>), w: int)
    requires
        0 <= w < st.0.len(),
    ensures
        steal_step(st, w).0.len() == st.0.len(),
        steal_step(st, w) == st || (steal_step(st, w).1.len() == st.1.len() + 1 && queued(
            steal_step(st, w).0,
        ).add(steal_step(st, w).1.to_multiset()) == queued(st.0).add(st.1.to_multiset())),
        st.0[w].len() > 0 ==> steal_step(st, w).1.len() == st.1.len() + 1,
{
    broadcast use vstd::seq_lib::group_to_multiset_ensures;

    let qs = st.0;
    let order = st.1;
    let nx = steal_step(st, w);
    if qs[w].len() > 0 {
        let a = qs[w][0];
        assert(qs[w].remove(0) =~= qs[w].drop_first());
        assert(qs[w].contains(a));
        assert(qs[w].to_multiset().count(a) > 0);
        assert(qs[w].to_multiset() =~= qs[w].drop_first().to_multiset().insert(a));
        lemma_queued_update(qs, w, qs[w].drop_first(), qs[w], a);
        assert(qs.update(w, qs[w]) =~= qs);
        assert(queued(nx.0).add(nx.1.to_multiset()) =~= queued(qs).add(order.to_multiset()));
    } else {
        match donor_of(qs) {
            Some(d) => {
                let dd = choose|d: int| is_donor(qs, d);
                assert(is_donor(qs, dd));
                let a = qs[d].last();
                assert(qs[d].remove(qs[d].len() - 1) =~= qs[d].drop_last());
                assert(qs[d].contains(a));
                assert(qs[d].to_multiset().count(a) > 0);
                assert(qs[d].to_multiset() =~= qs[d].drop_last().to_multiset().insert(a));
                lemma_queued_update(qs, d, qs[d].drop_last(), qs[d], a);
                assert(qs.update(d, qs[d]) =~= qs);
                assert(queued(nx.0).add(nx.1.to_multiset()) =~= queued(qs).add(order.to_multiset()));
            },
            None => {},
        }
    }
}

/// Over a round, what is queued or ordered stays the same and the order
/// only grows; it grows when some worker still to play has work.
proof fn lemma_round_facts(st: (Seq<Seq<u64>>, Seq<u64>), w: int, workers: int)
    requires
        0 <= w <= workers,
        st.0.len() == workers,
    ensures
        steal_round(st, w, workers).0.len() == workers,
        steal_round(st, w, workers).1.len() >= st.1.len(),
        queued(steal_round(st, w, workers).0).add(steal_round(st, w, workers).1.to_multiset())
            == queued(st.0).add(st.1.to_multiset()),
        (exists|v: int| w <= v < workers && (#[trigger] st.0[v]).len() > 0) ==> steal_round(
            st,
            w,
            workers,
        ).1.len() > st.1.len(),
    decreases workers - w,
{
    if w < workers {
        lemma_step_facts(st, w);
        let nx = steal_step(st, w);
        lemma_round_facts(nx, w + 1, workers);
        if exists|v: int| w <= v < workers && (#[trigger] st.0[v]).len() > 0 {
            let v = choose|v: int| w <= v < workers && (#[trigger] st.0[v]).len() > 0;
            if nx == st && v > w {
                assert(nx.0[v].len() > 0);
            }
        }
    }
}

proof fn lemma_deal_facts(ids: Seq<u64>, workers: nat)
    requires
        workers >= 1,
    ensures
        deal(ids, workers).len() == workers,
        queued(deal(ids, workers)) == ids.to_multiset(),
    decreases ids.len(),
{
    broadcast use vstd::seq_lib::group_to_multiset_ensures;

    if ids.len() == 0 {
        lemma_queued_empty(workers);
        assert(ids =~= Seq::<u64>::empty());
        vstd::seq_lib::to_multiset_len(ids);
        vstd::multiset::lemma_multiset_empty_len(ids.to_multiset());
    } else {
        let prev = deal(ids.drop_last(), workers);
        lemma_deal_facts(ids.drop_last(), workers);
        let q = (ids.len() - 1) % (workers as int);
        lemma_queued_update(prev, q, prev[q], prev[q].push(ids.last()), ids.last());
        assert(prev.update(q, prev[q]) =~= prev);
        assert(ids =~= ids.drop_last().push(ids.last()));
    }
}

fn copy_ids(v: &Vec<u64>) -> (r: Vec<u64>)
    ensures
        r@ == v@,
{
    let mut r: Vec<u64> = Vec::new();
    for i in 0..v.len()
        invariant
            r@ == v@.take(i as int),
    {
        r.push(v[i]);
        assert(r@ =~= v@.take(i + 1));
    }
    assert(v@.take(v.len() as int) =~= v@);
    r
}

fn sort_ids(v: &Vec<u64>) -> (r: Vec<u64>)
    ensures
        ascending(r@),
        r@.to_multiset() == v@.to_multiset(),
{
    broadcast use vstd::seq_lib::group_to_multiset_ensures;

    let mut out: Vec<u64> = Vec::new();
    proof {
        assert(v@.take(0) =~= Seq::<u64>::empty());
        assert(out@ =~= Seq::<u64>::empty());
    }
    for i in 0..v.len()
        invariant
            ascending(out@),
            out@.to_multiset() == v@.take(i as int).to_multiset(),
    {
        let x = v[i];
        let mut p: usize = 0;
        while p < out.len() && out[p] <= x
            invariant
                p <= out.len(),
                ascending(out@),
                forall|k: int| 0 <= k < p ==> #[trigger] out@[k] <= x,
            decreases out.len() - p,
        {
            p = p + 1;
        }
        let ghost before = out@;
        out.insert(p, x);
        proof {
            let s = out@;
            assert(s =~= before.insert(p as int, x));
            assert forall|a: int, b: int| 0 <= a < b < s.len() implies #[trigger] s[a]
                <= #[trigger] s[b] by {
                if b < p {
                    assert(s[a] == before[a] && s[b] == before[b]);
                } else if b == p {
                    assert(s[a] == before[a]);
                } else if a < p {
                    assert(s[a] == before[a] && s[b] == before[b - 1]);
                } else if a == p {
                    assert(s[b] == before[b - 1]);
                    assert(before[p as int] <= before[b - 1]);
                } else {
                    assert(s[a] == before[a - 1] && s[b] == before[b - 1]);
                }
            }
            vstd::seq_lib::to_multiset_insert(before, p as int, x);
            assert(v@.take(i + 1) =~= v@.take(i as int).push(v@[i as int]));
            vstd::seq_lib::to_multiset_build(v@.take(i as int), v@[i as int]);
        }
    }
    assert(v@.take(v.len() as int) =~= v@);
    out
}

fn deal_queues(ids: &Vec<u64>, workers: usize) -> (qs: Vec<Vec<u64>>)
    requires
        workers >= 1,
    ensures
        queue_views(qs@) == deal(ids@, workers as nat),
{
    let mut qs: Vec<Vec<u64>> = Vec::new();
    for q in 0..workers
        invariant
            queue_views(qs@) =~= Seq::new(q as nat, |k: int| Seq::<u64>::empty()),
    {
        let ghost before = qs@;
        let e: Vec<u64> = Vec::new();
        qs.push(e);
        assert(queue_views(qs@) =~= queue_views(before).push(e@));
    }
    proof {
        assert(ids@.take(0) =~= Seq::<u64>::empty());
    }
    for idx in 0..ids.len()
        invariant
            workers >= 1,
            queue_views(qs@) == deal(ids@.take(idx as int), workers as nat),
            qs.len() == workers,
    {
        proof {
            lemma_deal_facts(ids@.take(idx as int), workers as nat);
        }
        let q = idx % workers;
        let mut cur = copy_ids(&qs[q]);
        cur.push(ids[idx]);
        qs.set(q, cur);
        proof {
            let t = ids@.take(idx + 1);
            assert(t.drop_last() =~= ids@.take(idx as int));
            assert(queue_views(qs@) =~= deal(t, workers as nat));
        }
    }
    assert(ids@.take(ids.len() as int) =~= ids@);
    qs
}

fn donor_index(qs: &Vec<Vec<u64>>) -> (d: Option<usize>)
    ensures
        d matches Some(i) ==> donor_of(queue_views(qs@)) == Some(i as int),
        d is None ==> donor_of(queue_views(qs@)) is None,
{
    let ghost v = queue_views(qs@);
    let mut best: Option<usize> = None;
    for k in 0..qs.len()
        invariant
            v == queue_views(qs@),
            best matches Some(b) ==> b < k && v[b as int].len() > 1 && forall|j: int|
                0 <= j < k && (#[trigger] v[j]).len() > 1 ==> v[j].len() < v[b as int].len() || (
                v[j].len() == v[b as int].len() && b <= j),
            best is None ==> forall|j: int| 0 <= j < k ==> (#[trigger] v[j]).len() <= 1,
    {
        assert(v[k as int] == qs@[k as int]@);
        if qs[k].len() > 1 {
            match best {
                None => {
                    best = Some(k);
                },
                Some(b) => {
                    assert(v[b as int] == qs@[b as int]@);
                    if qs[k].len() > qs[b].len() {
                        best = Some(k);
                    }
                },
            }
        }
    }
    proof {
        match best {
            Some(b) => {
                assert(is_donor(v, b as int));
                let c = choose|d: int| is_donor(v, d);
                lemma_donor_unique(v, c, b as int);
            },
            None => {
                if exists|d: int| is_donor(v, d) {
                    let c = choose|d: int| is_donor(v, d);
                    assert(v[c].len() > 1);
                }
            },
        }
    }
    best
}

/// One worker's turn, in place.
fn steal_turn(qs: &mut Vec<Vec<u64>>, order: &mut Vec<u64>, w: usize)
    requires
        w < old(qs).len(),
    ensures
        final(qs).len() == old(qs).len(),
        (queue_views(final(qs)@), final(order)@) == steal_step(
            (queue_views(old(qs)@), old(order)@),
            w as int,
        ),
{
    let ghost v = queue_views(qs@);
    assert(v[w as int] == qs@[w as int]@);
    if qs[w].len() > 0 {
        let mut cur = copy_ids(&qs[w]);
        let a = cur.remove(0);
        qs.set(w, cur);
        order.push(a);
        assert(queue_views(qs@) =~= v.update(w as int, v[w as int].drop_first()));
    } else {
        match donor_index(qs) {
            Some(d) => {
                assert(v[d as int] == qs@[d as int]@);
                let mut cur = copy_ids(&qs[d]);
                let a = cur[cur.len() - 1];
                cur.pop();
                qs.set(d, cur);
                order.push(a);
                assert(queue_views(qs@) =~= v.update(d as int, v[d as int].drop_last()));
            },
            None => {},
        }
    }
}

/// Position of the last task with id `id`.
pub open spec fn last_with_id<T>(tasks: Seq<ScheduledTask<T>>, id: u64) -> int {
    choose|i: int|
        0 <= i < tasks.len() && tasks[i].id == id && forall|j: int|
            i < j < tasks.len() ==> (#[trigger] tasks[j]).id != id
}

/// The execution order of the plan for these tasks and this worker count.
pub open spec fn plan_order<T>(tasks: Seq<ScheduledTask<T>>, worker_count: usize) -> Seq<u64> {
    stealing_order(
        sorted_ids_of(task_ids(tasks)),
        (if worker_count > 1 { worker_count } else { 1 }) as nat,
    )
}

fn last_index_with_id<T>(tasks: &Vec<ScheduledTask<T>>, id: u64) -> (i: usize)
    requires
        task_ids(tasks@).contains(id),
    ensures
        i as int == last_with_id(tasks@, id),
        i < tasks@.len(),
{
    let mut k = tasks.len();
    while k > 0
        invariant
            k <= tasks@.len(),
            task_ids(tasks@).contains(id),
            forall|j: int| k <= j < tasks@.len() ==> (#[trigger] tasks@[j]).id != id,
        decreases k,
    {
        if tasks[k - 1].id == id {
            proof {
                let i = (k - 1) as int;
                let c = last_with_id(tasks@, id);
                assert(0 <= i < tasks@.len() && tasks@[i].id == id && forall|j: int|
                    i < j < tasks@.len() ==> (#[trigger] tasks@[j]).id != id);
                if c < i {
                    assert(tasks@[i].id != id);
                }
                if c > i {
                    assert(tasks@[c].id != id);
                }
            }
            return k - 1;
        }
        k = k - 1;
    }
    proof {
        let j = choose|j: int| 0 <= j < task_ids(tasks@).len() && task_ids(tasks@)[j] == id;
        assert(tasks@[j].id == id);
    }
    0
}

impl TaskScheduler {
    pub fn new() -> (s: Self) {
        TaskScheduler
    }

    /// The reproducible work-stealing order of the tasks' ids: ids are
    /// sorted, dealt round-robin to `max(worker_count, 1)` queues, then in
    /// rounds each worker takes the front of its queue or, when it is empty,
    /// steals the back of the longest queue holding more than one id (the
    /// lowest-numbered on ties), until every id is ordered.
    pub fn build_work_stealing_plan<T>(&self, tasks: &[ScheduledTask<T>], worker_count: usize) -> (plan: WorkStealingPlan)
        ensures
            plan.worker_count == (if worker_count > 1 { worker_count } else { 1 }),
            plan.execution_order@ == stealing_order(
                sorted_ids_of(task_ids(tasks@)),
                plan.worker_count as nat,
            ),
            plan.execution_order@.to_multiset() == task_ids(tasks@).to_multiset(),
    {
        broadcast use vstd::seq_lib::group_to_multiset_ensures;

        let workers: usize = if worker_count > 1 { worker_count } else { 1 };
        let mut ids: Vec<u64> = Vec::new();
        for i in 0..tasks.len()
            invariant
                ids@ == task_ids(tasks@).take(i as int),
        {
            ids.push(tasks[i].id);
            assert(ids@ =~= task_ids(tasks@).take(i + 1));
        }
        assert(task_ids(tasks@).take(tasks@.len() as int) =~= task_ids(tasks@));
        let sorted = sort_ids(&ids);
        proof {
            assert(ascending(sorted@) && sorted@.to_multiset() == ids@.to_multiset());
            let c = sorted_ids_of(ids@);
            lemma_ascending_unique(c, sorted@);
        }
        let n = sorted.len();
        let ghost wn = workers as int;
        let mut qs = deal_queues(&sorted, workers);
        let mut order: Vec<u64> = Vec::new();
        let ghost mut fuel: nat = n as nat;
        proof {
            lemma_deal_facts(sorted@, workers as nat);
            assert(order@.to_multiset() =~= Multiset::<u64>::empty()) by {
                vstd::seq_lib::to_multiset_len(order@);
                vstd::multiset::lemma_multiset_empty_len(order@.to_multiset());
            }
            assert(queued(queue_views(qs@)).add(order@.to_multiset()) =~= sorted@.to_multiset());
        }
        while order.len() < n
            invariant
                n == sorted@.len(),
                wn == workers,
                workers >= 1,
                qs.len() == workers,
                queue_views(qs@).len() == workers,
                stealing_order(sorted@, workers as nat) == run_rounds(
                    (queue_views(qs@), order@),
                    n as nat,
                    wn,
                    fuel,
                ),
                queued(queue_views(qs@)).add(order@.to_multiset()) == sorted@.to_multiset(),
                queued(queue_views(qs@)).len() <= fuel,
            decreases n - order.len(),
        {
            let ghost start = (queue_views(qs@), order@);
            proof {
                vstd::seq_lib::to_multiset_len(sorted@);
                vstd::seq_lib::to_multiset_len(order@);
                lemma_queued_nonempty(start.0);
            }
            for w in 0..workers
                invariant
                    qs.len() == workers,
                    wn == workers,
                    queue_views(qs@).len() == workers,
                    steal_round(start, 0, wn) == steal_round((queue_views(qs@), order@), w as int, wn),
            {
                steal_turn(&mut qs, &mut order, w);
            }
            proof {
                lemma_round_facts(start, 0, wn);
                vstd::seq_lib::to_multiset_len(sorted@);
                vstd::seq_lib::to_multiset_len(order@);
                vstd::seq_lib::to_multiset_len(start.1);
                fuel = (fuel - 1) as nat;
            }
        }
        proof {
            vstd::seq_lib::to_multiset_len(sorted@);
            vstd::seq_lib::to_multiset_len(order@);
        }
        WorkStealingPlan { worker_count: workers, execution_order: order }
    }

    /// Runs `op` on the tasks in the order of the work-stealing plan; where
    /// several tasks share an id, the last of them (in input order) stands
    /// for that id.
    pub fn run_work_stealing_deterministic<T, R, F: Fn(&ScheduledTask<T>) -> R>(
        &self,
        tasks: Vec<ScheduledTask<T>>,
        worker_count: usize,
        op: F,
    ) -> (r: Vec<R>)
        requires
            forall|i: int| 0 <= i < tasks@.len() ==> op.requires((&tasks@[i],)),
        ensures
            r@.len() == plan_order(tasks@, worker_count).len(),
            forall|k: int|
                0 <= k < r@.len() ==> op.ensures(
                    (&tasks@[last_with_id(tasks@, plan_order(tasks@, worker_count)[k])],),
                    #[trigger] r@[k],
                ),
    {
        broadcast use vstd::seq_lib::group_to_multiset_ensures;

        let plan = self.build_work_stealing_plan(tasks.as_slice(), worker_count);
        let order = plan.execution_order;
        let mut out: Vec<R> = Vec::new();
        for k in 0..order.len()
            invariant
                order@ == plan_order(tasks@, worker_count),
                order@.to_multiset() == task_ids(tasks@).to_multiset(),
                forall|i: int| 0 <= i < tasks@.len() ==> op.requires((&tasks@[i],)),
                out.len() == k,
                forall|j: int|
                    0 <= j < k ==> op.ensures(
                        (&tasks@[last_with_id(tasks@, order@[j])],),
                        #[trigger] out@[j],
                    ),
        {
            proof {
                let x = order@[k as int];
                assert(order@.contains(x));
                vstd::seq_lib::to_multiset_contains(order@, x);
                vstd::seq_lib::to_multiset_contains(task_ids(tasks@), x);
            }
            let i = last_index_with_id(&tasks, order[k]);
            let res = op(&tasks[i]);
            out.push(res);
        }
        out
    }

    /// Runs `op` on every task in ascending id order (equal ids in input
    /// order) and returns the results in that order.
    pub fn run_deterministic<T, R, F: Fn(&ScheduledTask<T>) -> R>(
        &self,
        tasks: Vec<ScheduledTask<T>>,
        op: F,
    ) -> (r: Vec<R>)
        requires
            forall|i: int| 0 <= i < tasks@.len() ==> op.requires((&tasks@[i],)),
        ensures
            exists|order: Seq<int>|
                #![trigger is_id_order(tasks@, order)]
                is_id_order(tasks@, order) && r@.len() == order.len() && forall|k: int|
                    0 <= k < order.len() ==> op.ensures((&tasks@[order[k]],), #[trigger] r@[k]),
    {
        let order = id_order(&tasks);
        let mut out: Vec<R> = Vec::new();
        for k in 0..order.len()
            invariant
                is_id_order(tasks@, index_view(order@)),
                forall|i: int| 0 <= i < tasks@.len() ==> op.requires((&tasks@[i],)),
                out.len() == k,
                forall|j: int|
                    0 <= j < k ==> op.ensures((&tasks@[order@[j] as int],), #[trigger] out@[j]),
        {
            assert(index_view(order@)[k as int] == order@[k as int]);
            let res = op(&tasks[order[k]]);
            out.push(res);
        }
        proof {
            let v = index_view(order@);
            assert forall|k: int| 0 <= k < v.len() implies op.ensures(
                (&tasks@[v[k]],),
                #[trigger] out@[k],
            ) by {
                assert(v[k] == order@[k]);
            }
        }
        out
    }
}

/// The work-stealing plan depends only on which task ids there are, with
/// their repeats: two task lists that hold the same ids in any order get the
/// same execution order for every worker count.
pub proof fn lemma_plan_ignores_task_order<T>(a: Seq<ScheduledTask<T>>, b: Seq<ScheduledTask<T>>, workers: nat)
    requires
        task_ids(a).to_multiset() == task_ids(b).to_multiset(),
    ensures
        stealing_order(sorted_ids_of(task_ids(a)), workers) == stealing_order(
            sorted_ids_of(task_ids(b)),
            workers,
        ),
{
    assert(sorted_ids_of(task_ids(a)) == sorted_ids_of(task_ids(b)));
}

/// The ids at positions `m` and beyond that position `k % workers == q`
/// deals to queue `q`, in order.
pub open spec fn dealt_from(s: Seq<u64>, workers: int, q: int, m: int) -> Seq<u64>
    decreases s.len(),
{
    if s.len() == 0 || s.len() <= m {
        seq![]
    } else {
        let p = dealt_from(s.drop_last(), workers, q, m);
        if (s.len() - 1) % workers == q {
            p.push(s.last())
        } else {
            p
        }
    }
}

proof fn lemma_dealt_from_step(s: Seq<u64>, workers: int, q: int, m: int)
    requires
        workers >= 1,
        0 <= m < s.len(),
    ensures
        m % workers == q ==> dealt_from(s, workers, q, m).len() > 0 && dealt_from(s, workers, q, m)[0]
            == s[m] && dealt_from(s, workers, q, m).drop_first() == dealt_from(s, workers, q, m + 1),
        m % workers != q ==> dealt_from(s, workers, q, m) == dealt_from(s, workers, q, m + 1),
    decreases s.len(),
{
    let t = s.drop_last();
    if m < s.len() - 1 {
        lemma_dealt_from_step(t, workers, q, m);
        assert(t[m] == s[m]);
        if m % workers == q {
            let a = dealt_from(t, workers, q, m);
            if (s.len() - 1) % workers == q {
                assert(a.push(s.last()).drop_first() =~= a.drop_first().push(s.last()));
            }
        }
    } else {
        assert(dealt_from(t, workers, q, m) =~= Seq::<u64>::empty());
        assert(dealt_from(s, workers, q, m + 1) =~= Seq::<u64>::empty());
        if m % workers == q {
            assert(dealt_from(s, workers, q, m) =~= seq![s.last()]);
        }
    }
}

proof fn lemma_dealt_from_end(s: Seq<u64>, workers: int, q: int, m: int)
    requires
        m >= s.len(),
    ensures
        dealt_from(s, workers, q, m).len() == 0,
{
}

proof fn lemma_deal_is_dealt_from(s: Seq<u64>, workers: int)
    requires
        workers >= 1,
    ensures
        deal(s, workers as nat).len() == workers,
        forall|q: int| 0 <= q < workers ==> #[trigger] deal(s, workers as nat)[q] == dealt_from(s, workers, q, 0),
    decreases s.len(),
{
    if s.len() > 0 {
        lemma_deal_is_dealt_from(s.drop_last(), workers);
    }
}

/// The dealing state after the first `m` ids were taken in order.
pub open spec fn taken_in_order(st: (Seq<Seq<u64>>, Seq<u64>), s: Seq<u64>, workers: int, m: int) -> bool {
    &&& 0 <= m <= s.len()
    &&& st.0.len() == workers
    &&& forall|q: int| 0 <= q < workers ==> #[trigger] st.0[q] == dealt_from(s, workers, q, m)
    &&& st.1 == s.take(m)
}

proof fn lemma_mod_next(m: int, workers: int, w: int)
    requires
        workers >= 1,
        m >= 0,
        m % workers == w,
        w + 1 < workers,
    ensures
        (m + 1) % workers == w + 1,
{
    vstd::arithmetic::div_mod::lemma_fundamental_div_mod(m, workers);
    let d = m / workers;
    assert(m == workers * d + w);
    assert(m + 1 == workers * d + (w + 1));
    vstd::arithmetic::div_mod::lemma_mod_multiples_vanish(d, w + 1, workers);
    vstd::arithmetic::div_mod::lemma_small_mod((w + 1) as nat, workers as nat);
}

proof fn lemma_round_takes_in_order(st: (Seq<Seq<u64>>, Seq<u64>), s: Seq<u64>, workers: int, w: int, m: int)
    requires
        workers >= 1,
        0 <= w <= workers,
        taken_in_order(st, s, workers, m),
        m < s.len() && w < workers ==> m % workers == w,
    ensures
        taken_in_order(
            steal_round(st, w, workers),
            s,
            workers,
            if m + (workers - w) < s.len() { m + (workers - w) } else { s.len() as int },
        ),
    decreases workers - w,
{
    if w < workers {
        let qs = st.0;
        if m < s.len() {
            lemma_dealt_from_step(s, workers, w, m);
            let next = steal_step(st, w);
            assert(qs[w].len() > 0);
            assert(next.1 =~= s.take(m + 1));
            assert forall|q: int| 0 <= q < workers implies #[trigger] next.0[q] == dealt_from(s, workers, q, m + 1) by {
                lemma_dealt_from_step(s, workers, q, m);
            }
            if m + 1 < s.len() && w + 1 < workers {
                lemma_mod_next(m, workers, w);
            }
            lemma_round_takes_in_order(next, s, workers, w + 1, m + 1);
        } else {
            assert forall|q: int| 0 <= q < workers implies (#[trigger] qs[q]).len() == 0 by {
                lemma_dealt_from_end(s, workers, q, m);
            }
            assert(!exists|d: int| is_donor(qs, d));
            assert(steal_step(st, w) == st);
            lemma_round_takes_in_order(st, s, workers, w + 1, m);
        }
    }
}

proof fn lemma_rounds_take_in_order(st: (Seq<Seq<u64>>, Seq<u64>), s: Seq<u64>, workers: int, m: int, fuel: nat)
    requires
        workers >= 1,
        taken_in_order(st, s, workers, m),
        m < s.len() ==> m % workers == 0,
        fuel >= s.len() - m,
    ensures
        run_rounds(st, s.len(), workers, fuel) == s,
    decreases fuel,
{
    if fuel == 0 || st.1.len() >= s.len() {
        assert(s.take(m) =~= s);
    } else {
        lemma_round_takes_in_order(st, s, workers, 0, m);
        let m2 = if m + workers < s.len() { m + workers } else { s.len() as int };
        if m2 < s.len() {
            vstd::arithmetic::div_mod::lemma_mod_add_multiples_vanish(m, workers);
        }
        lemma_rounds_take_in_order(steal_round(st, 0, workers), s, workers, m2, (fuel - 1) as nat);
    }
}

/// Round-robin dealing never leaves a queue with more than one task beside
/// an empty one, so nothing is ever stolen: for every worker count the plan
/// takes the ids in the order they were dealt, and the work-stealing order
/// of a task list is its ascending id order.
pub proof fn lemma_stealing_order_is_dealt_order(s: Seq<u64>, workers: nat)
    requires
        workers >= 1,
    ensures
        stealing_order(s, workers) == s,
{
    lemma_deal_is_dealt_from(s, workers as int);
    let st = (deal(s, workers), Seq::<u64>::empty());
    assert(s.take(0) =~= Seq::<u64>::empty());
    vstd::arithmetic::div_mod::lemma_small_mod(0, workers);
    lemma_rounds_take_in_order(st, s, workers as int, 0, s.len());
}

proof fn lemma_permuted_ids_multiset(ids: Seq<u64>, order: Seq<int>)
    requires
        order.len() == ids.len(),
        forall|k: int| 0 <= k < order.len() ==> 0 <= #[trigger] order[k] < ids.len(),
        forall|k: int, l: int| 0 <= k < l < order.len() ==> #[trigger] order[k] != #[trigger] order[l],
        forall|m: int| 0 <= m < ids.len() ==> #[trigger] order.contains(m),
    ensures
        order.map_values(|i: int| ids[i]).to_multiset() == ids.to_multiset(),
    decreases ids.len(),
{
    let n = ids.len();
    let b = order.map_values(|i: int| ids[i]);
    if n == 0 {
        assert(b =~= Seq::<u64>::empty());
        assert(ids =~= Seq::<u64>::empty());
    } else {
        assert(order.contains(n - 1));
        let p = choose|p: int| 0 <= p < order.len() && order[p] == n - 1;
        let o2 = order.remove(p);
        let ids2 = ids.drop_last();
        assert forall|k: int| 0 <= k < o2.len() implies 0 <= #[trigger] o2[k] < ids2.len() by {
            let k0 = if k < p { k } else { k + 1 };
            assert(o2[k] == order[k0]);
            if k0 < p {
                assert(order[k0] != order[p]);
            } else {
                assert(order[p] != order[k0]);
            }
        }
        assert forall|k: int, l: int| 0 <= k < l < o2.len() implies #[trigger] o2[k] != #[trigger] o2[l] by {
            let k0 = if k < p { k } else { k + 1 };
            let l0 = if l < p { l } else { l + 1 };
            assert(o2[k] == order[k0] && o2[l] == order[l0]);
        }
        assert forall|m: int| 0 <= m < ids2.len() implies #[trigger] o2.contains(m) by {
            assert(order.contains(m));
            let k = choose|k: int| 0 <= k < order.len() && order[k] == m;
            if k < p {
                assert(o2[k] == m);
            } else {
                assert(k != p);
                assert(o2[k - 1] == m);
            }
        }
        lemma_permuted_ids_multiset(ids2, o2);
        let b2 = o2.map_values(|i: int| ids2[i]);
        assert forall|k: int| 0 <= k < b2.len() implies #[trigger] b2[k] == b.remove(p)[k] by {
            let k0 = if k < p { k } else { k + 1 };
            assert(o2[k] == order[k0]);
        }
        assert(b2 =~= b.remove(p));
        vstd::seq_lib::to_multiset_remove(b, p);
        assert(ids =~= ids2.push(ids[n - 1]));
        vstd::seq_lib::to_multiset_build(ids2, ids[n - 1]);
        vstd::seq_lib::to_multiset_contains(b, b[p]);
        assert(b.to_multiset() =~= b.to_multiset().remove(ids[n - 1]).insert(ids[n - 1]));
    }
}

/// With pairwise distinct ids, running with work stealing applies the
/// operation to the same tasks in the same order as the deterministic run,
/// whatever the worker count: step `k` of the plan runs task `order[k]` of
/// the ascending id order.
pub proof fn lemma_work_stealing_runs_in_id_order<T>(
    tasks: Seq<ScheduledTask<T>>,
    worker_count: usize,
    order: Seq<int>,
)
    requires
        is_id_order(tasks, order),
        forall|i: int, j: int| 0 <= i < j < tasks.len() ==> (#[trigger] tasks[i]).id != (#[trigger] tasks[j]).id,
    ensures
        plan_order(tasks, worker_count).len() == order.len(),
        forall|k: int|
            0 <= k < order.len() ==> last_with_id(tasks, #[trigger] plan_order(tasks, worker_count)[k])
                == order[k],
{
    let ids = task_ids(tasks);
    let b = order.map_values(|i: int| ids[i]);
    assert forall|k: int, l: int| 0 <= k < l < order.len() implies #[trigger] order[k] != #[trigger] order[l] by {
        assert(runs_before(tasks, order[k], order[l]));
    }
    lemma_permuted_ids_multiset(ids, order);
    assert forall|i: int, j: int| 0 <= i < j < b.len() implies #[trigger] b[i] <= #[trigger] b[j] by {
        assert(runs_before(tasks, order[i], order[j]));
    }
    assert(ascending(b));
    let sorted = sorted_ids_of(ids);
    assert(ascending(sorted) && sorted.to_multiset() == ids.to_multiset());
    lemma_ascending_unique(sorted, b);
    let w: nat = (if worker_count > 1 { worker_count } else { 1 }) as nat;
    lemma_stealing_order_is_dealt_order(sorted, w);
    assert(plan_order(tasks, worker_count) == b);
    vstd::seq_lib::to_multiset_len(b);
    vstd::seq_lib::to_multiset_len(ids);
    assert forall|k: int| 0 <= k < order.len() implies last_with_id(
        tasks,
        #[trigger] plan_order(tasks, worker_count)[k],
    ) == order[k] by {
        let id = b[k];
        let o = order[k];
        assert(tasks[o].id == id);
        assert(forall|j: int| o < j < tasks.len() ==> (#[trigger] tasks[j]).id != id);
        let c = last_with_id(tasks, id);
        assert(0 <= c < tasks.len() && tasks[c].id == id);
        if c < o {
            assert(tasks[c].id != tasks[o].id);
        } else if o < c {
            assert(tasks[o].id != tasks[c].id);
        }
    }
}

/// Position in `o` of the first task, at or after `j`, whose id exceeds
/// `x`; the length of `o` where there is none.
pub open spec fn first_above<T>(tasks: Seq<ScheduledTask<T>>, o: Seq<int>, x: u64, j: int) -> int
    decreases o.len() - j,
{
    if j < 0 || j >= o.len() {
        o.len() as int
    } else if tasks[o[j]].id > x {
        j
    } else {
        first_above(tasks, o, x, j + 1)
    }
}

proof fn lemma_first_above_facts<T>(tasks: Seq<ScheduledTask<T>>, o: Seq<int>, x: u64, j: int)
    requires
        0 <= j <= o.len(),
    ensures
        j <= first_above(tasks, o, x, j) <= o.len(),
        forall|k: int| j <= k < first_above(tasks, o, x, j) ==> tasks[#[trigger] o[k]].id <= x,
        first_above(tasks, o, x, j) < o.len() ==> tasks[o[first_above(tasks, o, x, j)]].id > x,
    decreases o.len() - j,
{
    if j < o.len() && tasks[o[j]].id <= x {
        lemma_first_above_facts(tasks, o, x, j + 1);
    }
}

/// `o` orders the first `m` task positions as [`is_id_order`] orders all.
pub open spec fn id_order_upto<T>(tasks: Seq<ScheduledTask<T>>, o: Seq<int>, m: int) -> bool {
    &&& o.len() == m
    &&& forall|k: int| 0 <= k < o.len() ==> 0 <= #[trigger] o[k] < m
    &&& forall|k: int, l: int| 0 <= k < l < o.len() ==> runs_before(tasks, #[trigger] o[k], #[trigger] o[l])
    &&& forall|i: int| 0 <= i < m ==> #[trigger] o.contains(i)
}

proof fn lemma_id_order_upto_exists<T>(tasks: Seq<ScheduledTask<T>>, m: int)
    requires
        0 <= m <= tasks.len(),
    ensures
        exists|o: Seq<int>| #[trigger] id_order_upto(tasks, o, m),
    decreases m,
{
    if m == 0 {
        assert(id_order_upto(tasks, Seq::<int>::empty(), 0));
    } else {
        lemma_id_order_upto_exists(tasks, m - 1);
        let o1 = choose|o: Seq<int>| #[trigger] id_order_upto(tasks, o, m - 1);
        let i = m - 1;
        let x = tasks[i].id;
        lemma_first_above_facts(tasks, o1, x, 0);
        let p = first_above(tasks, o1, x, 0);
        let o = o1.insert(p, i);
        assert forall|k: int| 0 <= k < o.len() implies 0 <= #[trigger] o[k] < m by {
            if k < p {
                assert(o[k] == o1[k]);
            } else if k > p {
                assert(o[k] == o1[k - 1]);
            }
        }
        assert forall|k: int, l: int| 0 <= k < l < o.len() implies runs_before(
            tasks,
            #[trigger] o[k],
            #[trigger] o[l],
        ) by {
            if l < p {
                assert(o[k] == o1[k] && o[l] == o1[l]);
            } else if l == p {
                assert(o[k] == o1[k]);
                assert(tasks[o1[k]].id <= x);
            } else if k < p {
                assert(o[k] == o1[k] && o[l] == o1[l - 1]);
            } else if k == p {
                assert(o[l] == o1[l - 1]);
                if l - 1 > p {
                    assert(runs_before(tasks, o1[p], o1[l - 1]));
                }
            } else {
                assert(o[k] == o1[k - 1] && o[l] == o1[l - 1]);
            }
        }
        assert forall|j: int| 0 <= j < m implies #[trigger] o.contains(j) by {
            if j == i {
                assert(o[p] == j);
            } else {
                assert(o1.contains(j));
                let k = choose|k: int| 0 <= k < o1.len() && o1[k] == j;
                if k < p {
                    assert(o[k] == j);
                } else {
                    assert(o[k + 1] == j);
                }
            }
        }
        assert(id_order_upto(tasks, o, m));
    }
}

/// Every task list has an ascending id order: the order in which
/// `run_deterministic` runs the tasks always exists.
pub proof fn lemma_id_order_exists<T>(tasks: Seq<ScheduledTask<T>>)
    ensures
        exists|o: Seq<int>| is_id_order(tasks, o),
{
    lemma_id_order_upto_exists(tasks, tasks.len() as int);
    let o = choose|o: Seq<int>| #[trigger] id_order_upto(tasks, o, tasks.len() as int);
    assert(is_id_order(tasks, o));
}

/// With pairwise distinct ids, for every worker count, the work-stealing
/// run applies the operation to the tasks in the order of the
/// deterministic run: there is an ascending id order, and step `k` of the
/// plan runs its `k`-th task.
pub proof fn lemma_work_stealing_matches_deterministic<T>(tasks: Seq<ScheduledTask<T>>, worker_count: usize)
    requires
        forall|i: int, j: int| 0 <= i < j < tasks.len() ==> (#[trigger] tasks[i]).id != (#[trigger] tasks[j]).id,
    ensures
        exists|o: Seq<int>|
            #![trigger is_id_order(tasks, o)]
            is_id_order(tasks, o) && plan_order(tasks, worker_count).len() == tasks.len() && forall|k: int|
                0 <= k < o.len() ==> last_with_id(tasks, #[trigger] plan_order(tasks, worker_count)[k])
                    == o[k],
{
    lemma_id_order_exists(tasks);
    let o = choose|o: Seq<int>| #[trigger] is_id_order(tasks, o);
    lemma_work_stealing_runs_in_id_order(tasks, worker_count, o);
}

} // verus!
