use vstd::prelude::*;
use crate::task::{Status, Task};

verus! {

// The registry is a sequence of task records whose ids strictly
// increase in submission order.  Dependency edges are recorded in the
// `next` lists: task `d` carries `x` in `d.next` exactly when `x` was
// submitted with a dependency on `d` and `d` has not completed yet.
// A task's `in_degree` caches the number of such live edges into it.

/// Ids strictly increase along the registry, so every id occurs at most
/// once and the first record carries the smallest id.
pub open spec fn ids_increasing(s: Seq<Task>) -> bool {
    forall|i: int, j: int| 0 <= i < j < s.len() ==> s[i].id < s[j].id
}

/// Some record in `s` has this id.
pub open spec fn has_id(s: Seq<Task>, id: u64) -> bool {
    exists|i: int| 0 <= i < s.len() && s[i].id == id
}

/// The position of the record with this id (meaningful when `has_id`
/// holds and ids are unique).
pub open spec fn idx_of(s: Seq<Task>, id: u64) -> int {
    choose|i: int| 0 <= i < s.len() && s[i].id == id
}

/// The record with this id.
pub open spec fn task_of(s: Seq<Task>, id: u64) -> Task {
    s[idx_of(s, id)]
}

/// The number of records whose `next` list mentions `id`: the number of
/// dependency edges into `id` that are still live.
pub open spec fn edge_count(s: Seq<Task>, id: u64) -> nat
    decreases s.len(),
{
    if s.len() == 0 {
        0
    } else {
        edge_count(s.drop_last(), id) + (if s.last().next@.contains(id) {
            1nat
        } else {
            0nat
        })
    }
}

/// How many of the ids in `deps` are present in `s`, counting repeated
/// ids once: the in-degree that a task submitted with dependency list
/// `deps` receives.
pub open spec fn live_dep_count(s: Seq<Task>, deps: Seq<u64>) -> nat
    decreases deps.len(),
{
    if deps.len() == 0 {
        0
    } else {
        live_dep_count(s, deps.drop_last()) + (if has_id(s, deps.last())
            && !deps.drop_last().contains(deps.last()) {
            1nat
        } else {
            0nat
        })
    }
}

/// The registry's internal consistency: unique increasing ids, cached
/// in-degrees that match the live edges, no `Done` record, running
/// records fully released, duplicate-free `next` lists whose edges point
/// forward to records still present.
pub open spec fn wf_tasks(s: Seq<Task>) -> bool {
    &&& ids_increasing(s)
    &&& (forall|j: int|
        0 <= j < s.len() ==> (#[trigger] s[j]).in_degree == edge_count(s, s[j].id))
    &&& (forall|j: int|
        0 <= j < s.len() ==> (#[trigger] s[j]).status == Status::Pending || s[j].status
            == Status::Running)
    &&& (forall|j: int|
        0 <= j < s.len() && (#[trigger] s[j]).status == Status::Running ==> s[j].in_degree == 0)
    &&& (forall|j: int, a: int, b: int|
        0 <= j < s.len() && 0 <= a < b < s[j].next@.len() ==> #[trigger] s[j].next@[a]
            != #[trigger] s[j].next@[b])
    &&& (forall|j: int, a: int|
        0 <= j < s.len() && 0 <= a < s[j].next@.len() ==> (#[trigger] s[j].next@[a]) > s[j].id
            && has_id(s, s[j].next@[a]))
}

/// Holds of an id whose task's in-degree is about to drop from one to
/// zero: completing one of its dependencies releases it.
pub open spec fn drops_to_zero(s: Seq<Task>) -> spec_fn(u64) -> bool {
    |x: u64| has_id(s, x) && task_of(s, x).in_degree == 1
}

/// The ids that completing `removed` against registry `s` releases into
/// the ready queue: those in its `next` list, in that order, whose
/// in-degree drops to zero.
pub open spec fn released(s: Seq<Task>, removed: Task) -> Seq<u64> {
    removed.next@.filter(drops_to_zero(s))
}

/// Filtering a prefix one element further keeps the filtered prefix and
/// appends the new element exactly when it satisfies the predicate.
pub proof fn lemma_filter_extend(s: Seq<u64>, pred: spec_fn(u64) -> bool, i: int)
    requires
        0 <= i < s.len(),
    ensures
        s.subrange(0, i + 1).filter(pred) == (if pred(s[i]) {
            s.subrange(0, i).filter(pred).push(s[i])
        } else {
            s.subrange(0, i).filter(pred)
        }),
{
    reveal(Seq::filter);
    let p = s.subrange(0, i + 1);
    assert(p.drop_last() =~= s.subrange(0, i));
    assert(p.last() == s[i]);
}

/// What filtering keeps: exactly the elements that satisfy the
/// predicate, each of them drawn from the source.
pub proof fn lemma_filter_props(s: Seq<u64>, pred: spec_fn(u64) -> bool)
    ensures
        forall|i: int|
            0 <= i < s.filter(pred).len() ==> s.contains(#[trigger] s.filter(pred)[i]) && pred(
                s.filter(pred)[i],
            ),
        forall|i: int| 0 <= i < s.len() && pred(s[i]) ==> s.filter(pred).contains(s[i]),
    decreases s.len(),
{
    reveal(Seq::filter);
    let out = s.filter(pred);
    if s.len() > 0 {
        let sub = s.drop_last();
        lemma_filter_props(sub, pred);
        assert forall|i: int| 0 <= i < out.len() implies s.contains(#[trigger] out[i]) && pred(
            out[i],
        ) by {
            if i < sub.filter(pred).len() {
                assert(out[i] == sub.filter(pred)[i]);
                assert(sub.contains(out[i]));
                let w = choose|w: int| 0 <= w < sub.len() && sub[w] == out[i];
                assert(s[w] == out[i]);
            } else {
                assert(out[i] == s.last());
                assert(s[s.len() - 1] == s.last());
            }
        }
        assert forall|i: int| 0 <= i < s.len() && pred(s[i]) implies out.contains(s[i]) by {
            if i < s.len() - 1 {
                assert(sub[i] == s[i]);
                assert(sub.filter(pred).contains(s[i]));
                let w = choose|w: int|
                    0 <= w < sub.filter(pred).len() && sub.filter(pred)[w] == s[i];
                assert(out[w] == s[i]);
            } else {
                assert(out[out.len() - 1] == s.last());
            }
        }
    }
}

/// Filtering a duplicate-free sequence yields a duplicate-free sequence.
pub proof fn lemma_filter_distinct(s: Seq<u64>, pred: spec_fn(u64) -> bool, a: int, b: int)
    requires
        forall|x: int, y: int| 0 <= x < y < s.len() ==> s[x] != s[y],
        0 <= a < b < s.filter(pred).len(),
    ensures
        s.filter(pred)[a] != s.filter(pred)[b],
    decreases s.len(),
{
    reveal(Seq::filter);
    let out = s.filter(pred);
    let sub = s.drop_last();
    assert(s.len() > 0);
    assert forall|x: int, y: int| 0 <= x < y < sub.len() implies sub[x] != sub[y] by {
        assert(sub[x] == s[x] && sub[y] == s[y]);
    }
    if b < sub.filter(pred).len() {
        lemma_filter_distinct(sub, pred, a, b);
        assert(out[a] == sub.filter(pred)[a] && out[b] == sub.filter(pred)[b]);
    } else {
        assert(pred(s.last()));
        assert(out[b] == s.last());
        assert(out[a] == sub.filter(pred)[a]);
        lemma_filter_props(sub, pred);
        assert(sub.contains(out[a]));
        let w = choose|w: int| 0 <= w < sub.len() && sub[w] == out[a];
        assert(s[w] == out[a]);
        assert(s[s.len() - 1] == s.last());
    }
}

/// With strictly increasing ids, a position holding a given id is unique.
pub proof fn lemma_id_unique(s: Seq<Task>, i: int, j: int)
    requires
        ids_increasing(s),
        0 <= i < s.len(),
        0 <= j < s.len(),
        s[i].id == s[j].id,
    ensures
        i == j,
{
    if i < j {
        assert(s[i].id < s[j].id);
    }
    if j < i {
        assert(s[j].id < s[i].id);
    }
}

/// `idx_of` finds the one position of a present id.
pub proof fn lemma_idx_of(s: Seq<Task>, id: u64)
    requires
        ids_increasing(s),
        has_id(s, id),
    ensures
        0 <= idx_of(s, id) < s.len(),
        s[idx_of(s, id)].id == id,
        forall|i: int| 0 <= i < s.len() && (#[trigger] s[i]).id == id ==> i == idx_of(s, id),
{
    let w = choose|i: int| 0 <= i < s.len() && s[i].id == id;
    assert(0 <= w < s.len() && s[w].id == id);
    assert forall|i: int| 0 <= i < s.len() && (#[trigger] s[i]).id == id implies i == idx_of(
        s,
        id,
    ) by {
        lemma_id_unique(s, i, idx_of(s, id));
    }
}

/// Appending a record adds one live edge into each id its `next` list
/// mentions and none into any other id.
pub proof fn lemma_edge_count_push(s: Seq<Task>, t: Task, y: u64)
    ensures
        edge_count(s.push(t), y) == edge_count(s, y) + (if t.next@.contains(y) {
            1nat
        } else {
            0nat
        }),
{
    assert(s.push(t).drop_last() =~= s);
    assert(s.push(t).last() == t);
}

/// The edge count reads only the `next` lists.
pub proof fn lemma_edge_count_congruent(s1: Seq<Task>, s2: Seq<Task>, y: u64)
    requires
        s1.len() == s2.len(),
        forall|i: int| 0 <= i < s1.len() ==> (#[trigger] s1[i]).next@ == s2[i].next@,
    ensures
        edge_count(s1, y) == edge_count(s2, y),
    decreases s1.len(),
{
    if s1.len() > 0 {
        assert forall|i: int|
            0 <= i < s1.drop_last().len() implies (#[trigger] s1.drop_last()[i]).next@
            == s2.drop_last()[i].next@ by {
            assert(s1.drop_last()[i] == s1[i]);
            assert(s2.drop_last()[i] == s2[i]);
        }
        lemma_edge_count_congruent(s1.drop_last(), s2.drop_last(), y);
        assert(s1.last() == s1[s1.len() - 1]);
        assert(s2.last() == s2[s1.len() - 1]);
    }
}

/// Replacing one record with a copy whose `next` list gained the single
/// new id `x` raises the edge count of `x` by one and no other.
pub proof fn lemma_edge_count_update_push(s: Seq<Task>, j: int, t: Task, x: u64, y: u64)
    requires
        0 <= j < s.len(),
        t.next@ == s[j].next@.push(x),
        !s[j].next@.contains(x),
    ensures
        edge_count(s.update(j, t), y) == edge_count(s, y) + (if y == x {
            1nat
        } else {
            0nat
        }),
    decreases s.len(),
{
    let s2 = s.update(j, t);
    if j == s.len() - 1 {
        assert(s2.drop_last() =~= s.drop_last());
        assert(s2.last() == t);
        assert(s.last() == s[j]);
        if y == x {
            assert(t.next@.contains(x)) by {
                assert(t.next@[s[j].next@.len() as int] == x);
            }
            assert(!s[j].next@.contains(y));
        } else {
            assert(t.next@.contains(y) == s[j].next@.contains(y)) by {
                if s[j].next@.contains(y) {
                    let a = choose|a: int| 0 <= a < s[j].next@.len() && s[j].next@[a] == y;
                    assert(t.next@[a] == y);
                }
                if t.next@.contains(y) {
                    let a = choose|a: int| 0 <= a < t.next@.len() && t.next@[a] == y;
                    assert(a < s[j].next@.len() ==> s[j].next@[a] == y);
                    assert(a == s[j].next@.len() ==> y == x);
                }
            }
        }
    } else {
        assert(s2.drop_last() =~= s.drop_last().update(j, t));
        assert(s2.last() == s.last());
        assert(s.drop_last()[j] == s[j]);
        lemma_edge_count_update_push(s.drop_last(), j, t, x, y);
    }
}

/// Removing one record lowers the edge count of each id in its `next`
/// list by one and changes no other count.
pub proof fn lemma_edge_count_remove(s: Seq<Task>, j: int, y: u64)
    requires
        0 <= j < s.len(),
    ensures
        edge_count(s, y) == edge_count(s.remove(j), y) + (if s[j].next@.contains(y) {
            1nat
        } else {
            0nat
        }),
    decreases s.len(),
{
    if j == s.len() - 1 {
        assert(s.remove(j) =~= s.drop_last());
        assert(s.last() == s[j]);
    } else {
        assert(s.remove(j).drop_last() =~= s.drop_last().remove(j));
        assert(s.remove(j).last() == s.last());
        assert(s.drop_last()[j] == s[j]);
        lemma_edge_count_remove(s.drop_last(), j, y);
    }
}

/// A positive edge count names a record whose `next` list holds the id.
pub proof fn lemma_edge_count_pos_witness(s: Seq<Task>, y: u64)
    requires
        edge_count(s, y) > 0,
    ensures
        exists|k: int| 0 <= k < s.len() && (#[trigger] s[k]).next@.contains(y),
    decreases s.len(),
{
    if s.last().next@.contains(y) {
        assert(s[s.len() - 1].next@.contains(y));
    } else {
        lemma_edge_count_pos_witness(s.drop_last(), y);
        let k = choose|k: int|
            0 <= k < s.drop_last().len() && (#[trigger] s.drop_last()[k]).next@.contains(y);
        assert(s[k].next@.contains(y));
    }
}

/// An edge in some `next` list makes the edge count positive.
pub proof fn lemma_edge_count_at_least_one(s: Seq<Task>, k: int, y: u64)
    requires
        0 <= k < s.len(),
        s[k].next@.contains(y),
    ensures
        edge_count(s, y) > 0,
    decreases s.len(),
{
    if k == s.len() - 1 {
        assert(s.last() == s[k]);
    } else {
        assert(s.drop_last()[k] == s[k]);
        lemma_edge_count_at_least_one(s.drop_last(), k, y);
    }
}

/// A blocked record (positive in-degree) has a live dependency: a record
/// still present, with a smaller id, whose `next` list names it.
pub proof fn lemma_blocked_has_live_dep(s: Seq<Task>, j: int)
    requires
        wf_tasks(s),
        0 <= j < s.len(),
        s[j].in_degree > 0,
    ensures
        exists|k: int|
            0 <= k < s.len() && (#[trigger] s[k]).next@.contains(s[j].id) && s[k].id < s[j].id,
{
    assert(edge_count(s, s[j].id) > 0);
    lemma_edge_count_pos_witness(s, s[j].id);
    let k = choose|k: int| 0 <= k < s.len() && (#[trigger] s[k]).next@.contains(s[j].id);
    let a = choose|a: int| 0 <= a < s[k].next@.len() && s[k].next@[a] == s[j].id;
    assert(s[k].next@[a] > s[k].id);
}

/// A registry in which every record is blocked is empty: ids strictly
/// increase, so the record with the smallest id would need a live
/// dependency with a yet smaller id.  This is why an acyclic submission
/// set cannot stall: whenever records remain and none is mid-execution,
/// at least one of them has in-degree zero and sits in the ready queue.
pub proof fn lemma_all_blocked_means_empty(s: Seq<Task>)
    requires
        wf_tasks(s),
        forall|j: int| 0 <= j < s.len() ==> (#[trigger] s[j]).in_degree > 0,
    ensures
        s.len() == 0,
{
    if s.len() > 0 {
        lemma_blocked_has_live_dep(s, 0);
        let k = choose|k: int|
            0 <= k < s.len() && (#[trigger] s[k]).next@.contains(s[0].id) && s[k].id < s[0].id;
        assert(k > 0 ==> s[0].id < s[k].id);
        assert(false);
    }
}

/// `live_dep_count` grows left to right: extending the scanned prefix of
/// the dependency list by one id adds one exactly when that id is
/// present in the registry and new to the prefix.
pub proof fn lemma_live_dep_count_extend(s: Seq<Task>, deps: Seq<u64>, i: int)
    requires
        0 <= i < deps.len(),
    ensures
        live_dep_count(s, deps.subrange(0, i + 1)) == live_dep_count(s, deps.subrange(0, i)) + (
        if has_id(s, deps[i]) && !deps.subrange(0, i).contains(deps[i]) {
            1nat
        } else {
            0nat
        }),
{
    let p = deps.subrange(0, i + 1);
    assert(p.drop_last() =~= deps.subrange(0, i));
    assert(p.last() == deps[i]);
}

} // verus!
