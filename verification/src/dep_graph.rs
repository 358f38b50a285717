use crate::types::{Task, TaskId, Work};
use vstd::prelude::*;

verus! {

/// Leveling failed: the listed task ids remain stuck because each of them
/// waits on another stuck task (or on an id outside the graph), so no
/// further task can ever become runnable.
#[derive(Debug)]
pub struct CycleDetected {
    pub stuck: Vec<TaskId>,
}

/// Tasks together with the dependency map derived from their conflicts:
/// `dependencies[i]` lists the ids task `i` must wait on. Built once per
/// scheduling run by `from_tasks`, which assigns ids by position, so a task
/// only ever depends on tasks with strictly smaller id.
pub struct DependencyGraph<W: Work> {
    pub tasks: Vec<Task<W>>,
    pub dependencies: Vec<Vec<TaskId>>,
}

/// The per-task rows of a vector of id lists, as mathematical sequences.
pub open spec fn rows_of(v: Seq<Vec<TaskId>>) -> Seq<Seq<TaskId>> {
    Seq::new(v.len(), |k: int| v[k]@)
}

/// `id` occurs in one of the first `k` levels.
pub open spec fn placed_before(levels: Seq<Seq<TaskId>>, k: int, id: TaskId) -> bool {
    exists|k2: int, i: int|
        0 <= k2 < k && k2 < levels.len() && 0 <= i < levels[k2].len() && levels[k2][i] == id
}

/// `id` occurs somewhere in the levels.
pub open spec fn placed(levels: Seq<Seq<TaskId>>, id: TaskId) -> bool {
    placed_before(levels, levels.len() as int, id)
}

/// Every dependency of task `m` occurs in a level strictly before level `k`.
pub open spec fn deps_placed_before(
    deps: Seq<Seq<TaskId>>,
    levels: Seq<Seq<TaskId>>,
    k: int,
    m: TaskId,
) -> bool {
    forall|di: int|
        0 <= di < deps[m as int].len() ==> placed_before(levels, k, #[trigger] deps[m as int][di])
}

/// Structural soundness of a leveling of the ids `0..deps.len()`:
/// levels are nonempty, hold only ids in range, are strictly sorted, never
/// repeat an id placed earlier, contain only tasks whose dependencies all
/// lie in strictly earlier levels, and are greedy: a task in level `k >= 1`
/// was not yet runnable one level earlier.
pub open spec fn levels_wf(deps: Seq<Seq<TaskId>>, levels: Seq<Seq<TaskId>>) -> bool {
    &&& forall|k: int| 0 <= k < levels.len() ==> #[trigger] levels[k].len() > 0
    &&& forall|k: int, i: int|
        0 <= k < levels.len() && 0 <= i < levels[k].len() ==> (#[trigger] levels[k][i] as int)
            < deps.len()
    &&& forall|k: int, i1: int, i2: int|
        0 <= k < levels.len() && 0 <= i1 < i2 < levels[k].len() ==> #[trigger] levels[k][i1]
            < #[trigger] levels[k][i2]
    &&& forall|k: int, i: int|
        0 <= k < levels.len() && 0 <= i < levels[k].len() ==> !placed_before(
            levels,
            k,
            #[trigger] levels[k][i],
        )
    &&& forall|k: int, i: int|
        0 <= k < levels.len() && 0 <= i < levels[k].len() ==> deps_placed_before(
            deps,
            levels,
            k,
            #[trigger] levels[k][i],
        )
    &&& forall|k: int, i: int|
        1 <= k < levels.len() && 0 <= i < levels[k].len() ==> !deps_placed_before(
            deps,
            levels,
            k - 1,
            #[trigger] levels[k][i],
        )
}

/// A complete leveling: structurally sound, and every id of the graph is
/// placed (each one exactly once, by `lemma_each_task_placed_exactly_once`).
pub open spec fn valid_leveling(deps: Seq<Seq<TaskId>>, levels: Seq<Seq<TaskId>>) -> bool {
    &&& levels_wf(deps, levels)
    &&& forall|id: TaskId| (id as int) < deps.len() ==> placed(levels, id)
}

/// Task `m` has a dependency that is itself a member of `r`, or one that
/// points outside the graph and so can never be satisfied.
pub open spec fn waits_on_blocked(deps: Seq<Seq<TaskId>>, r: Seq<TaskId>, m: TaskId) -> bool {
    exists|di: int|
        0 <= di < deps[m as int].len() && ((deps[m as int][di] as int) >= deps.len() || r.contains(
            deps[m as int][di],
        ))
}

/// Every member of `r` waits on a dependency that is itself a member of
/// `r`, or on an id outside the graph and so never satisfiable.
pub open spec fn blocked_set(deps: Seq<Seq<TaskId>>, r: Seq<TaskId>) -> bool {
    forall|si: int|
        #![trigger r[si]]
        0 <= si < r.len() ==> waits_on_blocked(deps, r, r[si])
}

/// What a cycle report guarantees: a nonempty, strictly sorted list of ids
/// in range, each waiting on another listed id or on an id out of range.
pub open spec fn stuck_report(deps: Seq<Seq<TaskId>>, stuck: Seq<TaskId>) -> bool {
    &&& stuck.len() > 0
    &&& forall|s1: int, s2: int|
        0 <= s1 < s2 < stuck.len() ==> #[trigger] stuck[s1] < #[trigger] stuck[s2]
    &&& forall|si: int| 0 <= si < stuck.len() ==> (#[trigger] stuck[si] as int) < deps.len()
    &&& blocked_set(deps, stuck)
}

/// How many entries of `s` are true.
pub open spec fn count_true(s: Seq<bool>) -> nat
    decreases s.len(),
{
    if s.len() == 0 {
        0
    } else {
        count_true(s.drop_last()) + (if s.last() {
            1nat
        } else {
            0nat
        })
    }
}

proof fn lemma_count_true_le(s: Seq<bool>)
    ensures
        count_true(s) <= s.len(),
    decreases s.len(),
{
    if s.len() > 0 {
        lemma_count_true_le(s.drop_last());
    }
}

proof fn lemma_count_true_all(s: Seq<bool>)
    requires
        forall|i: int| 0 <= i < s.len() ==> s[i],
    ensures
        count_true(s) == s.len(),
    decreases s.len(),
{
    if s.len() > 0 {
        assert(forall|i: int| 0 <= i < s.drop_last().len() ==> s.drop_last()[i]);
        lemma_count_true_all(s.drop_last());
    }
}

proof fn lemma_count_true_none(s: Seq<bool>)
    requires
        forall|i: int| 0 <= i < s.len() ==> !s[i],
    ensures
        count_true(s) == 0,
    decreases s.len(),
{
    if s.len() > 0 {
        assert(forall|i: int| 0 <= i < s.drop_last().len() ==> !s.drop_last()[i]);
        lemma_count_true_none(s.drop_last());
    }
}

proof fn lemma_count_true_update_true(s: Seq<bool>, i: int)
    requires
        0 <= i < s.len(),
        !s[i],
    ensures
        count_true(s.update(i, true)) == count_true(s) + 1,
    decreases s.len(),
{
    let t = s.update(i, true);
    if i == s.len() - 1 {
        assert(t.drop_last() =~= s.drop_last());
    } else {
        assert(t.drop_last() =~= s.drop_last().update(i, true));
        lemma_count_true_update_true(s.drop_last(), i);
        assert(t.last() == s.last());
    }
}

proof fn lemma_count_true_full(s: Seq<bool>)
    requires
        count_true(s) == s.len(),
    ensures
        forall|i: int| 0 <= i < s.len() ==> s[i],
    decreases s.len(),
{
    if s.len() > 0 {
        lemma_count_true_le(s.drop_last());
        lemma_count_true_full(s.drop_last());
        assert forall|i: int| 0 <= i < s.len() implies s[i] by {
            if i < s.len() - 1 {
                assert(s.drop_last()[i]);
            }
        }
    }
}

proof fn lemma_count_true_below_full(s: Seq<bool>, i: int)
    requires
        0 <= i < s.len(),
        !s[i],
    ensures
        count_true(s) < s.len(),
{
    lemma_count_true_le(s);
    if count_true(s) == s.len() {
        lemma_count_true_full(s);
    }
}

/// Appending a level neither adds nor removes placements below the old
/// length, and placement in the extended leveling is placement in the old
/// one or membership in the new level.
proof fn lemma_placed_before_push(levels: Seq<Seq<TaskId>>, level: Seq<TaskId>)
    ensures
        forall|k: int, id: TaskId|
            k <= levels.len() ==> #[trigger] placed_before(levels.push(level), k, id)
                == placed_before(levels, k, id),
        forall|id: TaskId|
            #[trigger] placed_before(levels.push(level), levels.len() as int + 1, id) == (placed_before(
                levels,
                levels.len() as int,
                id,
            ) || level.contains(id)),
{
    let ext = levels.push(level);
    assert forall|k: int, id: TaskId| k <= levels.len() implies #[trigger] placed_before(
        ext,
        k,
        id,
    ) == placed_before(levels, k, id) by {
        if placed_before(ext, k, id) {
            let (k2, i) = choose|k2: int, i: int|
                0 <= k2 < k && k2 < ext.len() && 0 <= i < ext[k2].len() && ext[k2][i] == id;
            assert(ext[k2] == levels[k2]);
            assert(placed_before(levels, k, id));
        }
        if placed_before(levels, k, id) {
            let (k2, i) = choose|k2: int, i: int|
                0 <= k2 < k && k2 < levels.len() && 0 <= i < levels[k2].len() && levels[k2][i]
                    == id;
            assert(ext[k2] == levels[k2]);
            assert(placed_before(ext, k, id));
        }
    }
    assert forall|id: TaskId| #[trigger] placed_before(ext, levels.len() as int + 1, id) == (placed_before(
        levels,
        levels.len() as int,
        id,
    ) || level.contains(id)) by {
        if placed_before(ext, levels.len() as int + 1, id) {
            let (k2, i) = choose|k2: int, i: int|
                0 <= k2 < levels.len() as int + 1 && k2 < ext.len() && 0 <= i < ext[k2].len()
                    && ext[k2][i] == id;
            if k2 < levels.len() {
                assert(ext[k2] == levels[k2]);
                assert(placed_before(levels, levels.len() as int, id));
            } else {
                assert(ext[k2] == level);
                assert(level[i] == id);
            }
        }
        if placed_before(levels, levels.len() as int, id) {
            let (k2, i) = choose|k2: int, i: int|
                0 <= k2 < levels.len() && 0 <= i < levels[k2].len() && levels[k2][i] == id;
            assert(ext[k2] == levels[k2]);
            assert(placed_before(ext, levels.len() as int + 1, id));
        }
        if level.contains(id) {
            let i = choose|i: int| 0 <= i < level.len() && level[i] == id;
            assert(ext[levels.len() as int][i] == id);
            assert(placed_before(ext, levels.len() as int + 1, id));
        }
    }
}

/// Whether a task's dependencies all lie below level `k` is unchanged by
/// appending a level at or above `k`.
proof fn lemma_deps_placed_before_push(
    deps: Seq<Seq<TaskId>>,
    levels: Seq<Seq<TaskId>>,
    level: Seq<TaskId>,
)
    ensures
        forall|k: int, m: TaskId|
            k <= levels.len() ==> #[trigger] deps_placed_before(deps, levels.push(level), k, m)
                == deps_placed_before(deps, levels, k, m),
{
    lemma_placed_before_push(levels, level);
    let ext = levels.push(level);
    assert forall|k: int, m: TaskId| k <= levels.len() implies #[trigger] deps_placed_before(
        deps,
        ext,
        k,
        m,
    ) == deps_placed_before(deps, levels, k, m) by {
        if deps_placed_before(deps, ext, k, m) {
            assert forall|di: int| 0 <= di < deps[m as int].len() implies placed_before(
                levels,
                k,
                #[trigger] deps[m as int][di],
            ) by {
                assert(placed_before(ext, k, deps[m as int][di]));
            }
        }
        if deps_placed_before(deps, levels, k, m) {
            assert forall|di: int| 0 <= di < deps[m as int].len() implies placed_before(
                ext,
                k,
                #[trigger] deps[m as int][di],
            ) by {
                assert(placed_before(levels, k, deps[m as int][di]));
            }
        }
    }
}

/// Everything of a task except its id: the builder reassigns ids by
/// position and keeps every other field as the caller handed it in.
pub open spec fn same_task_fields<W: Work>(a: Task<W>, b: Task<W>) -> bool {
    &&& a.name == b.name
    &&& a.reads == b.reads
    &&& a.writes == b.writes
    &&& a.work == b.work
}

/// All dependencies of task `m` point at entries of `completed` that are true.
pub open spec fn ready(deps: Seq<Seq<TaskId>>, completed: Seq<bool>, m: TaskId) -> bool {
    forall|di: int|
        0 <= di < deps[m as int].len() ==> (#[trigger] deps[m as int][di] as int) < completed.len()
            && completed[deps[m as int][di] as int]
}

/// Membership in a pushed sequence: the old members and the new element.
proof fn lemma_push_contains(s: Seq<TaskId>, x: TaskId)
    ensures
        forall|d: TaskId| #[trigger] s.push(x).contains(d) <==> (s.contains(d) || d == x),
{
    assert forall|d: TaskId| #[trigger] s.push(x).contains(d) <==> (s.contains(d) || d == x) by {
        if s.push(x).contains(d) {
            let k = choose|k: int| 0 <= k < s.push(x).len() && s.push(x)[k] == d;
            if k < s.len() {
                assert(s[k] == d);
            }
        }
        if s.contains(d) {
            let k = choose|k: int| 0 <= k < s.len() && s[k] == d;
            assert(s.push(x)[k] == d);
        }
        if d == x {
            assert(s.push(x)[s.len() as int] == d);
        }
    }
}

/// Pushing an element above every member keeps a sequence strictly sorted.
proof fn lemma_push_sorted(s: Seq<TaskId>, x: TaskId)
    requires
        forall|c1: int, c2: int| 0 <= c1 < c2 < s.len() ==> #[trigger] s[c1] < #[trigger] s[c2],
        forall|c: int| 0 <= c < s.len() ==> #[trigger] s[c] < x,
    ensures
        forall|c1: int, c2: int|
            0 <= c1 < c2 < s.push(x).len() ==> #[trigger] s.push(x)[c1] < #[trigger] s.push(x)[c2],
{
    assert forall|c1: int, c2: int| 0 <= c1 < c2 < s.push(x).len() implies #[trigger] s.push(
        x,
    )[c1] < #[trigger] s.push(x)[c2] by {
        if c2 == s.len() {
            assert(s.push(x)[c1] == s[c1]);
        } else {
            assert(s.push(x)[c1] == s[c1] && s.push(x)[c2] == s[c2]);
        }
    }
}

/// Every task id appears in at most one position of a well-formed leveling:
/// two equal members stand at the same place.
pub proof fn lemma_each_task_placed_exactly_once(
    deps: Seq<Seq<TaskId>>,
    levels: Seq<Seq<TaskId>>,
    k1: int,
    i1: int,
    k2: int,
    i2: int,
)
    requires
        levels_wf(deps, levels),
        0 <= k1 < levels.len(),
        0 <= i1 < levels[k1].len(),
        0 <= k2 < levels.len(),
        0 <= i2 < levels[k2].len(),
        levels[k1][i1] == levels[k2][i2],
    ensures
        k1 == k2,
        i1 == i2,
{
    if k1 < k2 {
        assert(placed_before(levels, k2, levels[k2][i2]));
    }
    if k2 < k1 {
        assert(placed_before(levels, k1, levels[k1][i1]));
    }
    if k1 == k2 && i1 < i2 {
        assert(levels[k1][i1] < levels[k2][i2]);
    }
    if k1 == k2 && i2 < i1 {
        assert(levels[k1][i2] < levels[k1][i1]);
    }
}

/// Placement below a level is placement below any later level.
proof fn lemma_placed_before_mono(levels: Seq<Seq<TaskId>>, k1: int, k2: int)
    requires
        k1 <= k2,
    ensures
        forall|m: TaskId| placed_before(levels, k1, m) ==> placed_before(levels, k2, m),
{
    assert forall|m: TaskId| placed_before(levels, k1, m) implies placed_before(
        levels,
        k2,
        m,
    ) by {
        let (ka, i) = choose|ka: int, i: int|
            0 <= ka < k1 && ka < levels.len() && 0 <= i < levels[ka].len() && levels[ka][i] == m;
        assert(0 <= ka < k2 && ka < levels.len() && 0 <= i < levels[ka].len() && levels[ka][i]
            == m);
    }
}

/// A task placed at level `k - 1` of one valid leveling is placed below
/// level `k` of another, provided the two levelings already agree on
/// everything placed below `k - 1`.
proof fn lemma_level_transfer(
    deps: Seq<Seq<TaskId>>,
    la: Seq<Seq<TaskId>>,
    lb: Seq<Seq<TaskId>>,
    k: int,
    m: TaskId,
)
    requires
        valid_leveling(deps, la),
        valid_leveling(deps, lb),
        k >= 1,
        forall|k2: int, m2: TaskId|
            0 <= k2 <= k - 1 ==> #[trigger] placed_before(la, k2, m2) == placed_before(lb, k2, m2),
        placed_before(la, k, m),
    ensures
        placed_before(lb, k, m),
{
    let (ka, i) = choose|ka: int, i: int|
        0 <= ka < k && ka < la.len() && 0 <= i < la[ka].len() && la[ka][i] == m;
    if ka < k - 1 {
        assert(placed_before(la, k - 1, m));
        assert(placed_before(lb, k - 1, m));
        lemma_placed_before_mono(lb, k - 1, k);
    } else {
        // m sits in level k - 1 of `la`. Find its level in `lb` and pin it
        // to k - 1 through soundness and greediness.
        assert((m as int) < deps.len());
        assert(placed(lb, m));
        let (kb, ib) = choose|kb: int, ib: int|
            0 <= kb < lb.len() && 0 <= ib < lb[kb].len() && lb[kb][ib] == m;
        if kb < k - 1 {
            // Were m's dependencies already satisfied below kb in `lb`,
            // they would be below kb in `la` too, and `la` would not have
            // waited until level k - 1 with m.
            assert(deps_placed_before(deps, lb, kb, m));
            assert(ka >= 1);
            assert(!deps_placed_before(deps, la, ka - 1, m));
            assert forall|di: int| 0 <= di < deps[m as int].len() implies placed_before(
                la,
                ka - 1,
                #[trigger] deps[m as int][di],
            ) by {
                assert(placed_before(lb, kb, deps[m as int][di]));
                assert(placed_before(la, kb, deps[m as int][di]));
                lemma_placed_before_mono(la, kb, ka - 1);
            }
        }
        if kb >= k {
            // Conversely, m's dependencies sit below k - 1 in `la`, hence
            // in `lb`; `lb` could not greedily delay m past level k - 1.
            assert(!deps_placed_before(deps, lb, kb - 1, m));
            assert(deps_placed_before(deps, la, ka, m));
            assert forall|di: int| 0 <= di < deps[m as int].len() implies placed_before(
                lb,
                kb - 1,
                #[trigger] deps[m as int][di],
            ) by {
                assert(placed_before(la, ka, deps[m as int][di]));
                assert(placed_before(lb, ka, deps[m as int][di]));
                lemma_placed_before_mono(lb, ka, kb - 1);
            }
        }
        assert(kb == k - 1);
        assert(placed_before(lb, k, m));
    }
}

/// Two valid levelings of the same dependency map place exactly the same
/// ids below every level.
proof fn lemma_placed_before_agree(
    deps: Seq<Seq<TaskId>>,
    la: Seq<Seq<TaskId>>,
    lb: Seq<Seq<TaskId>>,
    k: int,
)
    requires
        valid_leveling(deps, la),
        valid_leveling(deps, lb),
        k >= 0,
    ensures
        forall|k2: int, m: TaskId|
            0 <= k2 <= k ==> #[trigger] placed_before(la, k2, m) == placed_before(lb, k2, m),
    decreases k,
{
    if k > 0 {
        lemma_placed_before_agree(deps, la, lb, k - 1);
        assert forall|k2: int, m: TaskId| 0 <= k2 <= k implies #[trigger] placed_before(
            la,
            k2,
            m,
        ) == placed_before(lb, k2, m) by {
            if k2 == k {
                if placed_before(la, k, m) {
                    lemma_level_transfer(deps, la, lb, k, m);
                }
                if placed_before(lb, k, m) {
                    lemma_level_transfer(deps, lb, la, k, m);
                }
            }
        }
    }
}

/// Two strictly sorted id sequences with the same members are equal.
proof fn lemma_sorted_same_members_equal(a: Seq<TaskId>, b: Seq<TaskId>)
    requires
        forall|c1: int, c2: int| 0 <= c1 < c2 < a.len() ==> #[trigger] a[c1] < #[trigger] a[c2],
        forall|c1: int, c2: int| 0 <= c1 < c2 < b.len() ==> #[trigger] b[c1] < #[trigger] b[c2],
        forall|m: TaskId| #[trigger] a.contains(m) == b.contains(m),
    ensures
        a =~= b,
    decreases a.len(),
{
    if a.len() == 0 {
        if b.len() > 0 {
            assert(b.contains(b[0]));
            assert(a.contains(b[0]));
        }
    } else {
        assert(a.contains(a[0]));
        assert(b.contains(a[0]));
        let j = choose|j: int| 0 <= j < b.len() && b[j] == a[0];
        assert(b.contains(b[0]));
        assert(a.contains(b[0]));
        let i = choose|i: int| 0 <= i < a.len() && a[i] == b[0];
        if i > 0 && j > 0 {
            assert(a[0] < a[i] && b[0] < b[j]);
        }
        assert(a[0] == b[0]);
        let at = a.subrange(1, a.len() as int);
        let bt = b.subrange(1, b.len() as int);
        assert forall|m: TaskId| #[trigger] at.contains(m) == bt.contains(m) by {
            if at.contains(m) {
                let x = choose|x: int| 0 <= x < at.len() && at[x] == m;
                assert(a[x + 1] == m && a[0] < m);
                assert(a.contains(m));
                assert(b.contains(m));
                let y = choose|y: int| 0 <= y < b.len() && b[y] == m;
                assert(y > 0);
                assert(bt[y - 1] == m);
            }
            if bt.contains(m) {
                let x = choose|x: int| 0 <= x < bt.len() && bt[x] == m;
                assert(b[x + 1] == m && b[0] < m);
                assert(b.contains(m));
                assert(a.contains(m));
                let y = choose|y: int| 0 <= y < a.len() && a[y] == m;
                assert(y > 0);
                assert(at[y - 1] == m);
            }
        }
        lemma_sorted_same_members_equal(at, bt);
        assert(a.len() == b.len());
        assert forall|x: int| 0 <= x < a.len() implies a[x] == b[x] by {
            if x > 0 {
                assert(at[x - 1] == bt[x - 1]);
            }
        }
    }
}

/// Leveling is deterministic: the same dependency map admits exactly one
/// valid leveling, so the plan depends only on the input ordering and the
/// declared conflicts.
pub proof fn lemma_leveling_deterministic(
    deps: Seq<Seq<TaskId>>,
    la: Seq<Seq<TaskId>>,
    lb: Seq<Seq<TaskId>>,
)
    requires
        valid_leveling(deps, la),
        valid_leveling(deps, lb),
    ensures
        la == lb,
{
    let kmax = (if la.len() >= lb.len() {
        la.len()
    } else {
        lb.len()
    }) as int;
    lemma_placed_before_agree(deps, la, lb, kmax + 1);
    if la.len() < lb.len() {
        // The first extra level of `lb` holds a task that `la` has already
        // placed, yet `lb` never repeats a placement.
        let m = lb[la.len() as int][0];
        assert(lb[la.len() as int].len() > 0);
        assert((m as int) < deps.len());
        assert(!placed_before(lb, la.len() as int, m));
        assert(placed(la, m));
        assert(placed_before(la, la.len() as int, m));
        assert(placed_before(lb, la.len() as int, m));
    }
    if lb.len() < la.len() {
        let m = la[lb.len() as int][0];
        assert(la[lb.len() as int].len() > 0);
        assert((m as int) < deps.len());
        assert(!placed_before(la, lb.len() as int, m));
        assert(placed(lb, m));
        assert(placed_before(lb, lb.len() as int, m));
        assert(placed_before(la, lb.len() as int, m));
    }
    assert(la.len() == lb.len());
    assert forall|k: int| 0 <= k < la.len() implies la[k] == lb[k] by {
        assert forall|m: TaskId| #[trigger] la[k].contains(m) == lb[k].contains(m) by {
            if la[k].contains(m) {
                let i = choose|i: int| 0 <= i < la[k].len() && la[k][i] == m;
                assert(placed_before(la, k + 1, m));
                assert(!placed_before(la, k, m));
                assert(placed_before(lb, k + 1, m));
                assert(!placed_before(lb, k, m));
                let (k2, i2) = choose|k2: int, i2: int|
                    0 <= k2 < k + 1 && k2 < lb.len() && 0 <= i2 < lb[k2].len() && lb[k2][i2] == m;
                assert(k2 == k);
                assert(lb[k].contains(m));
            }
            if lb[k].contains(m) {
                let i = choose|i: int| 0 <= i < lb[k].len() && lb[k][i] == m;
                assert(placed_before(lb, k + 1, m));
                assert(!placed_before(lb, k, m));
                assert(placed_before(la, k + 1, m));
                assert(!placed_before(la, k, m));
                let (k2, i2) = choose|k2: int, i2: int|
                    0 <= k2 < k + 1 && k2 < la.len() && 0 <= i2 < la[k2].len() && la[k2][i2] == m;
                assert(k2 == k);
                assert(la[k].contains(m));
            }
        }
        lemma_sorted_same_members_equal(la[k], lb[k]);
    }
    assert(la =~= lb);
}

/// No member of a blocked set of ids is ever placed below level `k` of a
/// well-formed leveling.
proof fn lemma_blocked_never_placed(
    deps: Seq<Seq<TaskId>>,
    levels: Seq<Seq<TaskId>>,
    r: Seq<TaskId>,
    k: int,
)
    requires
        levels_wf(deps, levels),
        blocked_set(deps, r),
        k >= 0,
    ensures
        forall|si: int| 0 <= si < r.len() ==> !placed_before(levels, k, #[trigger] r[si]),
    decreases k,
{
    if k > 0 {
        lemma_blocked_never_placed(deps, levels, r, k - 1);
        assert forall|si: int| 0 <= si < r.len() implies !placed_before(
            levels,
            k,
            #[trigger] r[si],
        ) by {
            if placed_before(levels, k, r[si]) {
                let m = r[si];
                let (k2, i) = choose|k2: int, i: int|
                    0 <= k2 < k && k2 < levels.len() && 0 <= i < levels[k2].len() && levels[k2][i]
                        == m;
                if k2 < k - 1 {
                    assert(placed_before(levels, k - 1, m));
                } else {
                    // m sits in level k2 == k - 1, so all its dependencies
                    // are placed even earlier; yet one of them is blocked.
                    assert(deps_placed_before(deps, levels, k2, m));
                    assert(waits_on_blocked(deps, r, m));
                    let di = choose|di: int|
                        0 <= di < deps[m as int].len() && ((deps[m as int][di] as int)
                            >= deps.len() || r.contains(deps[m as int][di]));
                    let d = deps[m as int][di];
                    assert(placed_before(levels, k2, d));
                    let (k3, i3) = choose|k3: int, i3: int|
                        0 <= k3 < k2 && k3 < levels.len() && 0 <= i3 < levels[k3].len()
                            && levels[k3][i3] == d;
                    assert((d as int) < deps.len());
                    assert(r.contains(d));
                    let sj = choose|sj: int| 0 <= sj < r.len() && r[sj] == d;
                    assert(placed_before(levels, k - 1, d));
                }
            }
        }
    }
}

/// Cycle handling, in general form: once a nonempty set of ids exists in
/// which every member waits on another member (or on an id out of range),
/// no complete leveling of the graph can exist. Together with the contract
/// of `execution_levels` this pins down when leveling must fail.
pub proof fn lemma_blocked_set_refutes_leveling(
    deps: Seq<Seq<TaskId>>,
    levels: Seq<Seq<TaskId>>,
    r: Seq<TaskId>,
)
    requires
        valid_leveling(deps, levels),
        forall|si: int| 0 <= si < r.len() ==> (#[trigger] r[si] as int) < deps.len(),
        blocked_set(deps, r),
    ensures
        r.len() == 0,
{
    if r.len() > 0 {
        lemma_blocked_never_placed(deps, levels, r, levels.len() as int);
        assert((r[0] as int) < deps.len());
        assert(placed(levels, r[0]));
        assert(!placed_before(levels, levels.len() as int, r[0]));
    }
}

/// The character contents of a sequence of names.
pub open spec fn views_of(names: Seq<String>) -> Seq<Seq<char>> {
    Seq::new(names.len(), |x: int| names[x]@)
}

/// The names joined with single spaces.
pub open spec fn spec_joined(names: Seq<Seq<char>>) -> Seq<char>
    decreases names.len(),
{
    if names.len() == 0 {
        Seq::empty()
    } else if names.len() == 1 {
        names[0]
    } else {
        spec_joined(names.drop_last()) + " "@ + names.last()
    }
}

/// Join names with single spaces.
fn join_names(names: &Vec<String>) -> (r: String)
    ensures
        r@ == spec_joined(views_of(names@)),
{
    let ghost v = views_of(names@);
    let mut r = String::new();
    let mut x: usize = 0;
    proof {
        assert(v.take(0) =~= Seq::<Seq<char>>::empty());
        assert(r@ =~= spec_joined(v.take(0)));
    }
    while x < names.len()
        invariant
            x <= names@.len(),
            v == views_of(names@),
            r@ == spec_joined(v.take(x as int)),
        decreases names@.len() - x,
    {
        if x > 0 {
            r.append(" ");
        }
        r.append(names[x].as_str());
        proof {
            assert(v.take(x as int + 1).drop_last() =~= v.take(x as int));
            assert(v.take(x as int + 1).last() == v[x as int]);
            assert(r@ =~= spec_joined(v.take(x as int + 1)));
        }
        x += 1;
    }
    proof {
        assert(v.take(names@.len() as int) =~= v);
    }
    r
}

/// All of `deps` point at already completed ids.
fn deps_done(deps: &Vec<TaskId>, completed: &Vec<bool>) -> (r: bool)
    ensures
        r == (forall|di: int|
            0 <= di < deps@.len() ==> (#[trigger] deps@[di] as int) < completed@.len()
                && completed@[deps@[di] as int]),
{
    let mut di: usize = 0;
    while di < deps.len()
        invariant
            di <= deps@.len(),
            forall|k: int|
                0 <= k < di ==> (#[trigger] deps@[k] as int) < completed@.len()
                    && completed@[deps@[k] as int],
        decreases deps@.len() - di,
    {
        let d = deps[di];
        if d >= completed.len() {
            assert(!((deps@[di as int] as int) < completed@.len()));
            return false;
        }
        if !completed[d] {
            assert(!completed@[deps@[di as int] as int]);
            return false;
        }
        di += 1;
    }
    true
}

impl<W: Work> DependencyGraph<W> {
    /// The dependency map as a sequence of mathematical rows, indexed by
    /// task id.
    pub open spec fn dep_rows(self) -> Seq<Seq<TaskId>> {
        rows_of(self.dependencies@)
    }

    /// Build the dependency graph for an ordered sequence of tasks.
    ///
    /// Id assignment is an explicit step of construction: task `i` is the
    /// task at position `i` of the input, whatever id the caller had set on
    /// it; every other field is kept. Task `i` then depends on exactly the
    /// earlier tasks it conflicts with, listed in increasing id order, so
    /// every dependency has a strictly smaller id than its owner. Every id
    /// has an entry, possibly empty. Building never fails.
    pub fn from_tasks(tasks: Vec<Task<W>>) -> (g: Self)
        ensures
            g.tasks@.len() == tasks@.len(),
            forall|i: int|
                0 <= i < tasks@.len() ==> (#[trigger] g.tasks@[i]).id == i && same_task_fields(
                    g.tasks@[i],
                    tasks@[i],
                ),
            g.dependencies@.len() == tasks@.len(),
            forall|i: int, d: TaskId|
                0 <= i < tasks@.len() ==> (#[trigger] g.dependencies@[i]@.contains(d) <==> (
                (d as int) < i && tasks@[i].spec_conflicts(tasks@[d as int]))),
            forall|i: int, c1: int, c2: int|
                0 <= i < tasks@.len() && 0 <= c1 < c2 < g.dependencies@[i]@.len()
                    ==> #[trigger] g.dependencies@[i]@[c1] < #[trigger] g.dependencies@[i]@[c2],
    {
        let ghost orig = tasks@;
        let mut input = tasks;
        let mut owned: Vec<Task<W>> = Vec::new();
        while input.len() > 0
            invariant
                owned@.len() + input@.len() == orig.len(),
                forall|i: int|
                    0 <= i < owned@.len() ==> (#[trigger] owned@[i]).id == i && same_task_fields(
                        owned@[i],
                        orig[i],
                    ),
                forall|x: int|
                    0 <= x < input@.len() ==> #[trigger] input@[x] == orig[owned@.len() + x],
            decreases input@.len(),
        {
            let t = input.remove(0);
            let id = owned.len();
            owned.push(
                Task { id, name: t.name, reads: t.reads, writes: t.writes, work: t.work },
            );
        }
        let n = owned.len();
        let mut dependencies: Vec<Vec<TaskId>> = Vec::new();
        let mut i: usize = 0;
        while i < n
            invariant
                n == owned@.len() == orig.len(),
                i <= n,
                dependencies@.len() == i,
                forall|p: int|
                    0 <= p < n ==> (#[trigger] owned@[p]).id == p && same_task_fields(
                        owned@[p],
                        orig[p],
                    ),
                forall|p: int, d: TaskId|
                    0 <= p < i ==> (#[trigger] dependencies@[p]@.contains(d) <==> ((d as int) < p
                        && orig[p].spec_conflicts(orig[d as int]))),
                forall|p: int, c1: int, c2: int|
                    0 <= p < i && 0 <= c1 < c2 < dependencies@[p]@.len()
                        ==> #[trigger] dependencies@[p]@[c1] < #[trigger] dependencies@[p]@[c2],
            decreases n - i,
        {
            let mut deps: Vec<TaskId> = Vec::new();
            let mut j: usize = 0;
            while j < i
                invariant
                    j <= i < n == owned@.len() == orig.len(),
                    forall|p: int|
                        0 <= p < n ==> (#[trigger] owned@[p]).id == p && same_task_fields(
                            owned@[p],
                            orig[p],
                        ),
                    forall|d: TaskId|
                        #![trigger deps@.contains(d)]
                        deps@.contains(d) <==> ((d as int) < j && orig[i as int].spec_conflicts(
                            orig[d as int],
                        )),
                    forall|c1: int, c2: int|
                        0 <= c1 < c2 < deps@.len() ==> #[trigger] deps@[c1] < #[trigger] deps@[c2],
                decreases i - j,
            {
                let conflict = owned[i].conflicts_with(&owned[j]);
                proof {
                    assert(owned@[i as int].reads == orig[i as int].reads);
                    assert(owned@[i as int].writes == orig[i as int].writes);
                    assert(owned@[j as int].reads == orig[j as int].reads);
                    assert(owned@[j as int].writes == orig[j as int].writes);
                    assert(owned@[i as int].spec_conflicts(owned@[j as int]) == orig[
                        i as int
                    ].spec_conflicts(orig[j as int]));
                }
                if conflict {
                    let ghost before = deps@;
                    deps.push(j);
                    proof {
                        assert forall|d: TaskId| #![trigger deps@.contains(d)]
                            deps@.contains(d) <==> (before.contains(d) || d == j) by {
                            if deps@.contains(d) {
                                let x = choose|x: int| 0 <= x < deps@.len() && deps@[x] == d;
                                if x < before.len() {
                                    assert(before[x] == d);
                                }
                            }
                            if before.contains(d) {
                                let x = choose|x: int| 0 <= x < before.len() && before[x] == d;
                                assert(deps@[x] == d);
                            }
                            if d == j {
                                assert(deps@[before.len() as int] == j);
                            }
                        }
                        assert forall|c1: int, c2: int| 0 <= c1 < c2 < deps@.len() implies
                            #[trigger] deps@[c1] < #[trigger] deps@[c2] by {
                            if c2 == deps@.len() - 1 {
                                assert(before.contains(before[c1]));
                            }
                        }
                    }
                }
                j += 1;
            }
            dependencies.push(deps);
            i += 1;
        }
        DependencyGraph { tasks: owned, dependencies }
    }

    /// The names of the dependencies of task `i`, in dependency order.
    pub open spec fn spec_dep_names(self, i: int) -> Seq<Seq<char>> {
        Seq::new(
            self.dependencies@[i]@.len(),
            |x: int| self.tasks@[self.dependencies@[i]@[x] as int].name@,
        )
    }

    /// The report line for task `i` and its dependencies.
    pub open spec fn spec_dep_line(self, i: int) -> Seq<char> {
        "Task "@ + self.tasks@[i].name@ + (if self.dependencies@[i]@.len() == 0 {
            ": no dependencies\n"@
        } else {
            ": depends on "@ + spec_joined(self.spec_dep_names(i)) + "\n"@
        })
    }

    /// The dependency section of the report: a heading, then one line per
    /// task, in id order, for the first `i` tasks.
    pub open spec fn spec_dep_section(self, i: int) -> Seq<char>
        decreases i,
    {
        if i <= 0 {
            "=== Dependency Graph ===\n"@
        } else {
            self.spec_dep_section(i - 1) + self.spec_dep_line(i - 1)
        }
    }

    /// The names of the tasks of level `k`, in level order.
    pub open spec fn spec_level_names(self, levels: Seq<Seq<TaskId>>, k: int) -> Seq<Seq<char>> {
        Seq::new(levels[k].len(), |x: int| self.tasks@[levels[k][x] as int].name@)
    }

    /// The report line for one execution level.
    pub open spec fn spec_level_line(self, levels: Seq<Seq<TaskId>>, k: int) -> Seq<char> {
        "Level: "@ + spec_joined(self.spec_level_names(levels, k)) + " (can run in parallel)\n"@
    }

    /// The level section of the report: a heading, then one line per level,
    /// in execution order, for the first `k` levels.
    pub open spec fn spec_level_section(self, levels: Seq<Seq<TaskId>>, k: int) -> Seq<char>
        decreases k,
    {
        if k <= 0 {
            "=== Execution Levels ===\n"@
        } else {
            self.spec_level_section(levels, k - 1) + self.spec_level_line(levels, k - 1)
        }
    }

    /// The whole report: every task with the names it depends on, then
    /// every level with the names it groups.
    pub open spec fn spec_report(self, levels: Seq<Seq<TaskId>>) -> Seq<char> {
        self.spec_dep_section(self.dependencies@.len() as int) + self.spec_level_section(
            levels,
            levels.len() as int,
        )
    }

    /// The names of the given tasks, in the given order: the lookup behind
    /// a human-readable rendering of dependencies and levels. Reporting has
    /// no effect on scheduling decisions.
    pub fn task_names(&self, ids: &Vec<TaskId>) -> (names: Vec<String>)
        requires
            forall|x: int| 0 <= x < ids@.len() ==> (#[trigger] ids@[x] as int) < self.tasks@.len(),
        ensures
            names@.len() == ids@.len(),
            forall|x: int|
                0 <= x < ids@.len() ==> #[trigger] names@[x]@ == self.tasks@[ids@[x] as int].name@,
    {
        let mut names: Vec<String> = Vec::new();
        let mut x: usize = 0;
        while x < ids.len()
            invariant
                x <= ids@.len(),
                names@.len() == x,
                forall|y: int|
                    0 <= y < ids@.len() ==> (#[trigger] ids@[y] as int) < self.tasks@.len(),
                forall|y: int|
                    0 <= y < x ==> #[trigger] names@[y]@ == self.tasks@[ids@[y] as int].name@,
            decreases ids@.len() - x,
        {
            names.push(self.tasks[ids[x]].name.clone());
            x += 1;
        }
        names
    }

    /// Render a human-readable report of per-task dependency names and
    /// per-level task-name groupings, for the given levels. A pure
    /// reporting function: it has no effect on scheduling decisions.
    #[verifier::loop_isolation(false)]
    pub fn visualize(&self, levels: &Vec<Vec<TaskId>>) -> (r: String)
        requires
            self.dependencies@.len() == self.tasks@.len(),
            forall|i: int, x: int|
                0 <= i < self.dependencies@.len() && 0 <= x < self.dependencies@[i]@.len() ==> (
                #[trigger] self.dependencies@[i]@[x] as int) < self.tasks@.len(),
            forall|k: int, x: int|
                0 <= k < levels@.len() && 0 <= x < levels@[k]@.len() ==> (
                #[trigger] levels@[k]@[x] as int) < self.tasks@.len(),
        ensures
            r@ == self.spec_report(rows_of(levels@)),
    {
        let ghost rows = rows_of(levels@);
        let mut r = String::new();
        r.append("=== Dependency Graph ===\n");
        proof {
            assert(r@ =~= self.spec_dep_section(0));
        }
        let mut i: usize = 0;
        let n = self.dependencies.len();
        while i < n
            invariant
                i <= n,
                n == self.dependencies@.len(),
                r@ == self.spec_dep_section(i as int),
            decreases n - i,
        {
            r.append("Task ");
            r.append(self.tasks[i].name.as_str());
            if self.dependencies[i].len() == 0 {
                r.append(": no dependencies\n");
            } else {
                r.append(": depends on ");
                let names = self.task_names(&self.dependencies[i]);
                let joined = join_names(&names);
                r.append(joined.as_str());
                r.append("\n");
                proof {
                    assert(views_of(names@) =~= self.spec_dep_names(i as int));
                }
            }
            proof {
                assert(r@ =~= self.spec_dep_section(i as int + 1));
            }
            i += 1;
        }
        r.append("=== Execution Levels ===\n");
        proof {
            assert(r@ =~= self.spec_dep_section(n as int) + self.spec_level_section(rows, 0));
        }
        let mut k: usize = 0;
        while k < levels.len()
            invariant
                k <= levels@.len(),
                n == self.dependencies@.len(),
                rows == rows_of(levels@),
                r@ == self.spec_dep_section(n as int) + self.spec_level_section(rows, k as int),
            decreases levels@.len() - k,
        {
            r.append("Level: ");
            let names = self.task_names(&levels[k]);
            let joined = join_names(&names);
            r.append(joined.as_str());
            r.append(" (can run in parallel)\n");
            proof {
                assert(rows[k as int] == levels@[k as int]@);
                assert(views_of(names@) =~= self.spec_level_names(rows, k as int));
                assert(r@ =~= self.spec_dep_section(n as int) + self.spec_level_section(
                    rows,
                    k as int + 1,
                ));
            }
            k += 1;
        }
        r
    }

    /// Group the task ids `0..self.dependencies.len()` into execution
    /// levels: an ordered sequence of batches, each batch nonempty and
    /// listed in increasing id order, such that every task appears exactly
    /// once, all of a task's dependencies lie in strictly earlier batches,
    /// and each task stands in the earliest batch whose predecessors
    /// satisfy its dependencies. Tasks within one batch are therefore
    /// mutually independent and may run in parallel; batches must run in
    /// order. After `from_tasks` the leveled ids are exactly the tasks'
    /// ids.
    ///
    /// When no remaining task is runnable the ids left over form a cycle
    /// (each waits on another leftover id, or on an id outside the graph);
    /// they are reported, in increasing order, as `CycleDetected`.
    #[verifier::loop_isolation(false)]
    pub fn execution_levels(&self) -> (r: Result<Vec<Vec<TaskId>>, CycleDetected>)
        ensures
            r is Ok ==> valid_leveling(self.dep_rows(), rows_of(r->Ok_0@)),
            r is Err ==> stuck_report(self.dep_rows(), r->Err_0.stuck@),
    {
        let ghost deps = self.dep_rows();
        let n = self.dependencies.len();
        proof {
            assert(deps.len() == n);
        }

        let mut completed: Vec<bool> = Vec::new();
        let mut f: usize = 0;
        while f < n
            invariant
                completed@.len() == f,
                f <= n,
                forall|x: int| 0 <= x < f ==> !completed@[x],
            decreases n - f,
        {
            completed.push(false);
            f += 1;
        }
        proof {
            lemma_count_true_none(completed@);
        }

        let mut remaining: usize = n;
        let mut levels: Vec<Vec<TaskId>> = Vec::new();

        while remaining > 0
            invariant
                completed@.len() == n,
                remaining + count_true(completed@) == n,
                forall|m: TaskId|
                    (m as int) < n ==> #[trigger] completed@[m as int] == placed(
                        rows_of(levels@),
                        m,
                    ),
                levels_wf(deps, rows_of(levels@)),
                forall|m: TaskId|
                    (m as int) < n && !(#[trigger] completed@[m as int]) && levels@.len() > 0
                        ==> !deps_placed_before(
                        deps,
                        rows_of(levels@),
                        levels@.len() as int - 1,
                        m,
                    ),
            decreases remaining,
        {
            let ghost lv0 = rows_of(levels@);
            let ghost completed0 = completed@;

            // Collect every not yet completed task whose dependencies are
            // all completed.
            let mut current: Vec<TaskId> = Vec::new();
            let mut id: usize = 0;
            while id < n
                invariant
                    id <= n,
                    forall|c1: int, c2: int|
                        0 <= c1 < c2 < current@.len() ==> #[trigger] current@[c1]
                            < #[trigger] current@[c2],
                    forall|ci: int| 0 <= ci < current@.len() ==> (#[trigger] current@[ci] as int) < id,
                    forall|ci: int|
                        0 <= ci < current@.len() ==> !completed0[#[trigger] current@[ci] as int]
                            && ready(deps, completed0, current@[ci]),
                    forall|m: TaskId|
                        (m as int) < id && !completed0[m as int] && ready(deps, completed0, m)
                            ==> #[trigger] current@.contains(m),
                decreases n - id,
            {
                proof {
                    assert(deps[id as int] == self.dependencies@[id as int]@);
                }
                if !completed[id] {
                    if deps_done(&self.dependencies[id], &completed) {
                        proof {
                            lemma_push_contains(current@, id);
                            lemma_push_sorted(current@, id);
                        }
                        current.push(id);
                    }
                }
                id += 1;
            }

            if current.len() == 0 {
                // No task is runnable though some remain: report the stuck
                // ids rather than looping or dropping tasks.
                let mut stuck: Vec<TaskId> = Vec::new();
                let mut s: usize = 0;
                while s < n
                    invariant
                        s <= n,
                        forall|c1: int, c2: int|
                            0 <= c1 < c2 < stuck@.len() ==> #[trigger] stuck@[c1]
                                < #[trigger] stuck@[c2],
                        forall|si: int|
                            0 <= si < stuck@.len() ==> (#[trigger] stuck@[si] as int) < s
                                && !completed0[stuck@[si] as int],
                        forall|m: TaskId|
                            (m as int) < s && !completed0[m as int] ==> #[trigger] stuck@.contains(
                                m,
                            ),
                    decreases n - s,
                {
                    if !completed[s] {
                        proof {
                            lemma_push_contains(stuck@, s);
                            lemma_push_sorted(stuck@, s);
                        }
                        stuck.push(s);
                    }
                    s += 1;
                }
                proof {
                    if stuck@.len() == 0 {
                        assert forall|x: int| 0 <= x < n implies completed0[x] by {
                            if !completed0[x] {
                                assert(stuck@.contains(x as TaskId));
                            }
                        }
                        lemma_count_true_all(completed0);
                    }
                    assert forall|si: int| #![trigger stuck@[si]] 0 <= si < stuck@.len() implies
                        waits_on_blocked(deps, stuck@, stuck@[si]) by {
                        let m = stuck@[si];
                        assert(!completed0[m as int]);
                        assert(!current@.contains(m));
                        assert(!ready(deps, completed0, m));
                        let di = choose|di: int|
                            0 <= di < deps[m as int].len() && !((deps[m as int][di] as int)
                                < completed0.len() && completed0[deps[m as int][di] as int]);
                        let d = deps[m as int][di];
                        if (d as int) < n {
                            assert(!completed0[d as int]);
                            assert(stuck@.contains(d));
                        }
                        assert(0 <= di < deps[m as int].len() && ((deps[m as int][di] as int)
                            >= deps.len() || stuck@.contains(deps[m as int][di])));
                        assert(waits_on_blocked(deps, stuck@, m));
                    }
                    assert(stuck@.len() > 0);
                    assert(blocked_set(deps, stuck@));
                    assert(stuck_report(deps, stuck@));
                }
                return Err(CycleDetected { stuck });
            }

            // Mark the current level as completed.
            let ghost cur = current@;
            let mut idx: usize = 0;
            while idx < current.len()
                invariant
                    idx <= cur.len(),
                    completed@.len() == n,
                    remaining + count_true(completed@) == n,
                    count_true(completed@) == count_true(completed0) + idx,
                    forall|m: TaskId|
                        (m as int) < n ==> #[trigger] completed@[m as int] == (completed0[m as int]
                            || cur.take(idx as int).contains(m)),
                decreases cur.len() - idx,
            {
                let t = current[idx];
                proof {
                    if cur.take(idx as int).contains(t) {
                        let x = choose|x: int|
                            0 <= x < cur.take(idx as int).len() && cur.take(idx as int)[x] == t;
                        assert(cur[x] == t && cur[x] < cur[idx as int]);
                    }
                    assert(!completed@[t as int]);
                    lemma_count_true_below_full(completed@, t as int);
                    lemma_count_true_update_true(completed@, t as int);
                }
                completed.set(t, true);
                remaining -= 1;
                proof {
                    assert(cur.take(idx as int + 1) =~= cur.take(idx as int).push(
                        cur[idx as int],
                    ));
                    lemma_push_contains(cur.take(idx as int), cur[idx as int]);
                }
                idx += 1;
            }
            proof {
                assert(cur.take(cur.len() as int) =~= cur);
            }

            let ghost lv1 = lv0.push(cur);
            levels.push(current);
            proof {
                assert(rows_of(levels@) =~= lv1);
                lemma_placed_before_push(lv0, cur);
                lemma_deps_placed_before_push(deps, lv0, cur);

                // Nonemptiness and sorting carry over level by level.
                assert forall|k: int| 0 <= k < lv1.len() implies #[trigger] lv1[k].len() > 0 by {
                    if k < lv0.len() {
                        assert(lv1[k] == lv0[k]);
                    } else {
                        assert(lv1[k] == cur);
                    }
                }
                assert forall|k: int, i1: int, i2: int|
                    0 <= k < lv1.len() && 0 <= i1 < i2 < lv1[k].len() implies #[trigger] lv1[k][i1]
                    < #[trigger] lv1[k][i2] by {
                    if k < lv0.len() {
                        assert(lv1[k] == lv0[k]);
                    } else {
                        assert(lv1[k] == cur);
                    }
                }

                // Each id is now completed exactly when it is placed.
                assert forall|m: TaskId| (m as int) < n implies #[trigger] completed@[m as int]
                    == placed(lv1, m) by {
                    assert(placed_before(lv1, lv0.len() as int + 1, m) == (placed_before(
                        lv0,
                        lv0.len() as int,
                        m,
                    ) || cur.contains(m)));
                }

                // The extended leveling is still well-formed.
                assert forall|k: int, i: int|
                    0 <= k < lv1.len() && 0 <= i < lv1[k].len() implies (#[trigger] lv1[k][i] as int)
                    < deps.len() && !placed_before(lv1, k, lv1[k][i]) && deps_placed_before(
                    deps,
                    lv1,
                    k,
                    lv1[k][i],
                ) && (k >= 1 ==> !deps_placed_before(deps, lv1, k - 1, lv1[k][i])) by {
                    if k < lv0.len() {
                        assert(lv1[k] == lv0[k]);
                        assert(placed_before(lv1, k, lv1[k][i]) == placed_before(
                            lv0,
                            k,
                            lv1[k][i],
                        ));
                    } else {
                        let c = cur[i];
                        assert(lv1[k] == cur);
                        assert(!completed0[c as int] && ready(deps, completed0, c));
                        // Soundness: each completed dependency was placed.
                        assert forall|di: int| 0 <= di < deps[c as int].len() implies placed_before(
                            lv1,
                            k,
                            #[trigger] deps[c as int][di],
                        ) by {
                            let d = deps[c as int][di];
                            assert((d as int) < completed0.len() && completed0[d as int]);
                            assert(placed(lv0, d));
                            assert(placed_before(lv1, lv0.len() as int, d));
                        }
                        // Greediness: it was not runnable one level earlier.
                        if k >= 1 {
                            assert(!deps_placed_before(deps, lv0, lv0.len() as int - 1, c));
                            assert(!deps_placed_before(deps, lv1, k - 1, c));
                        }
                        // Freshness: it was not placed before.
                        assert(placed_before(lv1, k, c) == placed_before(
                            lv0,
                            lv0.len() as int,
                            c,
                        ));
                        assert(!placed(lv0, c));
                    }
                }

                // Ids still waiting were scanned and found not runnable, so
                // they cannot have all dependencies placed by now.
                assert forall|m: TaskId|
                    (m as int) < n && !(#[trigger] completed@[m as int]) implies
                    !deps_placed_before(deps, lv1, lv1.len() as int - 1, m) by {
                    assert(!completed0[m as int] && !cur.contains(m));
                    if deps_placed_before(deps, lv1, lv0.len() as int, m) {
                        assert(deps_placed_before(deps, lv0, lv0.len() as int, m));
                        assert forall|di: int| 0 <= di < deps[m as int].len() implies (
                        #[trigger] deps[m as int][di] as int) < completed0.len()
                            && completed0[deps[m as int][di] as int] by {
                            let d = deps[m as int][di];
                            assert(placed_before(lv0, lv0.len() as int, d));
                            let (k2, i2) = choose|k2: int, i2: int|
                                0 <= k2 < lv0.len() && 0 <= i2 < lv0[k2].len() && lv0[k2][i2] == d;
                            assert((d as int) < deps.len());
                            assert(placed(lv0, d));
                        }
                        assert(ready(deps, completed0, m));
                        assert(cur.contains(m));
                    }
                }
            }
        }
        proof {
            lemma_count_true_full(completed@);
            assert forall|id: TaskId| (id as int) < deps.len() implies placed(
                rows_of(levels@),
                id,
            ) by {
                assert(completed@[id as int]);
            }
            assert(valid_leveling(deps, rows_of(levels@)));
        }
        Ok(levels)
    }
}

} // verus!

