//! Reverse-reachability propagation: given a collection of targets and a
//! marker label carried by some of them, computes every target that either
//! carries the marker directly or transitively depends on a target that does.

use vstd::prelude::*;

use crate::string::{spec_intern_table, InternString, Interner};
use crate::targets::{Target, TargetLabelKey, Targets};

verus! {

/// Target `t` carries the marker label.
pub open spec fn is_marked(t: Target, marker: InternString) -> bool {
    t.labels@.contains(marker)
}

/// Some target in `ts` has identity `k` and carries the marker.
pub open spec fn key_marked(ts: Seq<Target>, marker: InternString, k: TargetLabelKey) -> bool {
    exists|i: int| 0 <= i < ts.len() && ts[i].spec_label_key() == k && is_marked(ts[i], marker)
}

/// Some target in `ts` has identity `k1` and forward-depends on identity `k2`
/// (so the target of identity `k1` is a dependent of `k2`).
pub open spec fn key_depends_on(ts: Seq<Target>, k1: TargetLabelKey, k2: TargetLabelKey) -> bool {
    exists|i: int| 0 <= i < ts.len() && ts[i].spec_label_key() == k1 && ts[i].deps@.contains(k2)
}

/// A dependency chain: it starts at a marked identity, and each later element
/// directly depends on its predecessor.
pub open spec fn is_closure_path(
    ts: Seq<Target>,
    marker: InternString,
    p: Seq<TargetLabelKey>,
) -> bool {
    &&& p.len() > 0
    &&& key_marked(ts, marker, p[0])
    &&& forall|j: int| 0 <= j < p.len() - 1 ==> key_depends_on(ts, p[j + 1], #[trigger] p[j])
}

/// Identity `k` belongs to the closure: some dependency chain leads from a
/// marked identity to `k` (a chain of length one makes every marked identity
/// a member).
pub open spec fn in_closure(ts: Seq<Target>, marker: InternString, k: TargetLabelKey) -> bool {
    exists|p: Seq<TargetLabelKey>| is_closure_path(ts, marker, p) && p.last() == k
}

/// A marked identity belongs to the closure.
proof fn lemma_closure_base(ts: Seq<Target>, marker: InternString, k: TargetLabelKey)
    requires
        key_marked(ts, marker, k),
    ensures
        in_closure(ts, marker, k),
{
    let p = seq![k];
    assert(p.last() == k);
    assert(is_closure_path(ts, marker, p));
}

/// A dependent of a closure member belongs to the closure.
proof fn lemma_closure_step(
    ts: Seq<Target>,
    marker: InternString,
    k1: TargetLabelKey,
    k2: TargetLabelKey,
)
    requires
        in_closure(ts, marker, k1),
        key_depends_on(ts, k2, k1),
    ensures
        in_closure(ts, marker, k2),
{
    let p = choose|p: Seq<TargetLabelKey>| is_closure_path(ts, marker, p) && p.last() == k1;
    let p2 = p.push(k2);
    assert(p2[0] == p[0]);
    assert forall|j: int| 0 <= j < p2.len() - 1 implies key_depends_on(ts, p2[j + 1], #[trigger] p2[j]) by {
        if j < p.len() - 1 {
            assert(key_depends_on(ts, p[j + 1], p[j]));
            assert(p2[j] == p[j] && p2[j + 1] == p[j + 1]);
        } else {
            assert(p2[j] == p.last() && p2[j + 1] == k2);
        }
    }
    assert(is_closure_path(ts, marker, p2));
    assert(p2.last() == k2);
}

/// Position `x` is listed in the work list `todo`.
spec fn in_todo(todo: Seq<usize>, x: int) -> bool {
    exists|y: int| 0 <= y < todo.len() && todo[y] as int == x
}

/// Some included position holds a target of identity `k`.
spec fn flags_have_key(ts: Seq<Target>, flags: Seq<bool>, k: TargetLabelKey) -> bool {
    exists|i: int| 0 <= i < ts.len() && flags[i] && ts[i].spec_label_key() == k
}

/// An inclusion that contains every marked target and is closed under taking
/// dependents contains the whole closure.
proof fn lemma_closed_contains_closure(
    ts: Seq<Target>,
    marker: InternString,
    flags: Seq<bool>,
    p: Seq<TargetLabelKey>,
)
    requires
        flags.len() == ts.len(),
        forall|i: int| 0 <= i < ts.len() && is_marked(ts[i], marker) ==> flags[i],
        forall|i: int, j: int|
            0 <= i < ts.len() && 0 <= j < ts.len() && flags[i] && ts[j].deps@.contains(
                ts[i].spec_label_key(),
            ) ==> flags[j],
        is_closure_path(ts, marker, p),
    ensures
        flags_have_key(ts, flags, p.last()),
    decreases p.len(),
{
    if p.len() == 1 {
        assert(key_marked(ts, marker, p[0]));
        let i = choose|i: int|
            0 <= i < ts.len() && ts[i].spec_label_key() == p[0] && is_marked(ts[i], marker);
        assert(flags[i]);
        assert(flags_have_key(ts, flags, p.last()));
    } else {
        let q = p.drop_last();
        assert(q[0] == p[0]);
        assert forall|j: int| 0 <= j < q.len() - 1 implies key_depends_on(ts, q[j + 1], #[trigger] q[j]) by {
            assert(key_depends_on(ts, p[j + 1], p[j]));
        }
        assert(is_closure_path(ts, marker, q));
        lemma_closed_contains_closure(ts, marker, flags, q);
        let i = choose|i: int|
            0 <= i < ts.len() && flags[i] && ts[i].spec_label_key() == q.last();
        assert(key_depends_on(ts, p.last(), p[p.len() - 2]));
        let j = choose|j: int|
            0 <= j < ts.len() && ts[j].spec_label_key() == p.last() && ts[j].deps@.contains(
                p[p.len() - 2],
            );
        assert(q.last() == p[p.len() - 2]);
        assert(ts[j].deps@.contains(ts[i].spec_label_key()));
        assert(flags[j]);
        assert(flags_have_key(ts, flags, p.last()));
    }
}

/// How a push to the work list changes what it lists.
proof fn lemma_in_todo_push(todo: Seq<usize>, v: usize, x: int)
    ensures
        in_todo(todo.push(v), x) <==> (in_todo(todo, x) || x == v as int),
{
    if in_todo(todo, x) {
        let y = choose|y: int| 0 <= y < todo.len() && todo[y] as int == x;
        assert(todo.push(v)[y] as int == x);
    }
    if x == v as int {
        assert(todo.push(v)[todo.len() as int] as int == x);
    }
    if in_todo(todo.push(v), x) {
        let y = choose|y: int| 0 <= y < todo.push(v).len() && todo.push(v)[y] as int == x;
        if y < todo.len() {
            assert(todo[y] as int == x);
        }
    }
}

/// How popping the last element changes what the work list lists.
proof fn lemma_in_todo_drop_last(todo: Seq<usize>, x: int)
    requires
        todo.len() > 0,
    ensures
        in_todo(todo, x) <==> (in_todo(todo.drop_last(), x) || x == todo.last() as int),
{
    if in_todo(todo, x) {
        let y = choose|y: int| 0 <= y < todo.len() && todo[y] as int == x;
        if y < todo.len() - 1 {
            assert(todo.drop_last()[y] as int == x);
        }
    }
    if in_todo(todo.drop_last(), x) {
        let y = choose|y: int| 0 <= y < todo.drop_last().len() && todo.drop_last()[y] as int == x;
        assert(todo[y] as int == x);
    }
    if x == todo.last() as int {
        assert(todo[todo.len() - 1] as int == x);
    }
}

/// How many positions an inclusion still leaves out.
spec fn count_false(flags: Seq<bool>) -> nat
    decreases flags.len(),
{
    if flags.len() == 0 {
        0
    } else {
        count_false(flags.drop_last()) + if flags.last() {
            0nat
        } else {
            1nat
        }
    }
}

/// Newly including one left-out position lowers the count of left-out
/// positions by exactly one.
proof fn lemma_count_false_update(flags: Seq<bool>, i: int)
    requires
        0 <= i < flags.len(),
        !flags[i],
    ensures
        count_false(flags.update(i, true)) + 1 == count_false(flags),
    decreases flags.len(),
{
    let updated = flags.update(i, true);
    if i == flags.len() - 1 {
        assert(updated.drop_last() =~= flags.drop_last());
        assert(updated.last());
        assert(!flags.last());
    } else {
        assert(updated.drop_last() =~= flags.drop_last().update(i, true));
        assert(updated.last() == flags.last());
        lemma_count_false_update(flags.drop_last(), i);
    }
}

/// How a push to a key list changes what it lists.
proof fn lemma_contains_push(s: Seq<TargetLabelKey>, v: TargetLabelKey, x: TargetLabelKey)
    ensures
        s.push(v).contains(x) <==> (s.contains(x) || x == v),
{
    if s.contains(x) {
        let y = choose|y: int| 0 <= y < s.len() && s[y] == x;
        assert(s.push(v)[y] == x);
    }
    if x == v {
        assert(s.push(v)[s.len() as int] == x);
    }
    if s.push(v).contains(x) {
        let y = choose|y: int| 0 <= y < s.push(v).len() && s.push(v)[y] == x;
        if y < s.len() {
            assert(s[y] == x);
        }
    }
}

/// Whether `v` lists the handle `x`.
fn contains_handle(v: &Vec<InternString>, x: InternString) -> (r: bool)
    ensures
        r == v@.contains(x),
{
    let n = v.len();
    let mut i: usize = 0;
    while i < n
        invariant
            n == v@.len(),
            i <= n,
            forall|j: int| 0 <= j < i ==> v@[j] != x,
        decreases n - i,
    {
        if v[i] == x {
            assert(v@[i as int] == x);
            return true;
        }
        i = i + 1;
    }
    false
}

/// Whether `v` lists the identity `k`.
fn contains_key(v: &Vec<TargetLabelKey>, k: TargetLabelKey) -> (r: bool)
    ensures
        r == v@.contains(k),
{
    let n = v.len();
    let mut i: usize = 0;
    while i < n
        invariant
            n == v@.len(),
            i <= n,
            forall|j: int| 0 <= j < i ==> v@[j] != k,
        decreases n - i,
    {
        if v[i] == k {
            assert(v@[i as int] == k);
            return true;
        }
        i = i + 1;
    }
    false
}

/// Reverse-reachability propagation over a target collection: the identities
/// of every target that carries the marker or transitively depends on a
/// target that does, each exactly once.
///
/// An empty collection, or a marker that no target carries, yields an empty
/// result; a cyclic graph terminates all the same, since a position is pushed
/// onto the work list only when it is newly included.
pub fn closure(targets: &Targets, marker: InternString) -> (res: Vec<TargetLabelKey>)
    ensures
        forall|k: TargetLabelKey| res@.contains(k) <==> in_closure(targets@, marker, k),
        forall|a: int, b: int| 0 <= a < b < res@.len() ==> res@[a] != res@[b],
        res@.len() <= targets@.len(),
{
    let ghost ts = targets@;
    let n = targets.len_targets_upperbound();
    let mut in_set: Vec<bool> = Vec::new();
    while in_set.len() < n
        invariant
            in_set@.len() <= n,
            forall|x: int| 0 <= x < in_set@.len() ==> !in_set@[x],
        decreases n - in_set@.len(),
    {
        in_set.push(false);
    }
    let mut todo: Vec<usize> = Vec::new();

    // Index & seed pass: include every marked target and queue it.
    let mut i: usize = 0;
    while i < n
        invariant
            ts == targets@,
            n == ts.len(),
            in_set@.len() == n,
            i <= n,
            forall|x: int|
                0 <= x < n && #[trigger] in_set@[x] ==> in_closure(
                    ts,
                    marker,
                    ts[x].spec_label_key(),
                ),
            forall|y: int|
                0 <= y < todo@.len() ==> #[trigger] todo@[y] < n && in_set@[todo@[y] as int],
            forall|x: int| 0 <= x < n && #[trigger] in_set@[x] ==> in_todo(todo@, x),
            forall|x: int| 0 <= x < i && is_marked(#[trigger] ts[x], marker) ==> in_set@[x],
        decreases n - i,
    {
        if contains_handle(&targets.get(i).labels, marker) {
            in_set.set(i, true);
            let ghost todo_mid = todo@;
            todo.push(i);
            proof {
                assert(ts[i as int].spec_label_key() == ts[i as int].spec_label_key()
                    && is_marked(ts[i as int], marker));
                assert(key_marked(ts, marker, ts[i as int].spec_label_key()));
                lemma_closure_base(ts, marker, ts[i as int].spec_label_key());
                assert forall|x: int| 0 <= x < n && #[trigger] in_set@[x] implies in_todo(
                    todo@,
                    x,
                ) by {
                    lemma_in_todo_push(todo_mid, i, x);
                }
            }
        }
        i = i + 1;
    }

    // Propagate: pop an included position, include every dependent of its
    // identity, queueing only the newly included ones.
    while todo.len() > 0
        invariant
            ts == targets@,
            n == ts.len(),
            in_set@.len() == n,
            forall|x: int|
                0 <= x < n && #[trigger] in_set@[x] ==> in_closure(
                    ts,
                    marker,
                    ts[x].spec_label_key(),
                ),
            forall|y: int|
                0 <= y < todo@.len() ==> #[trigger] todo@[y] < n && in_set@[todo@[y] as int],
            forall|x: int| 0 <= x < n && is_marked(#[trigger] ts[x], marker) ==> in_set@[x],
            forall|x: int, y: int|
                0 <= x < n && 0 <= y < n && in_set@[x] && !in_todo(todo@, x)
                    && ts[y].deps@.contains(#[trigger] ts[x].spec_label_key()) ==> #[trigger] in_set@[y],
        decreases count_false(in_set@) + todo@.len(),
    {
        let ghost todo_before = todo@;
        let ghost set_before = in_set@;
        let cur = todo.pop().unwrap();
        proof {
            assert(todo@ =~= todo_before.drop_last());
            assert(cur == todo_before.last());
            assert(todo_before[todo_before.len() - 1] == cur);
            assert(in_set@[cur as int]);
            assert forall|x: int| !in_todo(todo@, x) && in_todo(todo_before, x) implies x
                == cur as int by {
                lemma_in_todo_drop_last(todo_before, x);
            }
        }
        let k = targets.get(cur).label_key();
        let ghost kk = ts[cur as int].spec_label_key();
        proof {
            assert(in_closure(ts, marker, kk));
        }
        let mut j: usize = 0;
        while j < n
            invariant
                ts == targets@,
                n == ts.len(),
                in_set@.len() == n,
                j <= n,
                cur < n,
                k == kk,
                kk == ts[cur as int].spec_label_key(),
                in_closure(ts, marker, kk),
                forall|x: int|
                    0 <= x < n && #[trigger] in_set@[x] ==> in_closure(
                        ts,
                        marker,
                        ts[x].spec_label_key(),
                    ),
                forall|y: int|
                    0 <= y < todo@.len() ==> #[trigger] todo@[y] < n && in_set@[todo@[y] as int],
                forall|x: int| 0 <= x < n && is_marked(#[trigger] ts[x], marker) ==> in_set@[x],
                forall|x: int, y: int|
                    0 <= x < n && 0 <= y < n && in_set@[x] && !in_todo(todo@, x)
                        && ts[x].spec_label_key() != kk && ts[y].deps@.contains(
                        #[trigger] ts[x].spec_label_key(),
                    ) ==> #[trigger] in_set@[y],
                forall|y: int| 0 <= y < j && ts[y].deps@.contains(kk) ==> in_set@[y],
                count_false(in_set@) + todo@.len() + 1 == count_false(set_before)
                    + todo_before.len(),
            decreases n - j,
        {
            if !in_set[j] && contains_key(&targets.get(j).deps, k) {
                let ghost set_mid = in_set@;
                let ghost todo_mid = todo@;
                in_set.set(j, true);
                todo.push(j);
                proof {
                    lemma_count_false_update(set_mid, j as int);
                    assert(ts[j as int].spec_label_key() == ts[j as int].spec_label_key()
                        && ts[j as int].deps@.contains(kk));
                    assert(key_depends_on(ts, ts[j as int].spec_label_key(), kk));
                    lemma_closure_step(ts, marker, kk, ts[j as int].spec_label_key());
                    assert forall|x: int| in_todo(todo_mid, x) implies in_todo(todo@, x) by {
                        lemma_in_todo_push(todo_mid, j, x);
                    }
                    assert(in_todo(todo@, j as int)) by {
                        lemma_in_todo_push(todo_mid, j, j as int);
                    }
                }
            }
            j = j + 1;
        }
        proof {
            assert forall|x: int, y: int|
                0 <= x < n && 0 <= y < n && in_set@[x] && !in_todo(todo@, x)
                    && ts[y].deps@.contains(#[trigger] ts[x].spec_label_key()) implies #[trigger] in_set@[y] by {
                if ts[x].spec_label_key() == kk {
                    assert(ts[y].deps@.contains(kk));
                }
            }
        }
    }

    // Result pass: one key per included identity, decoupled from the
    // collection.
    let mut res: Vec<TargetLabelKey> = Vec::new();
    i = 0;
    while i < n
        invariant
            ts == targets@,
            n == ts.len(),
            in_set@.len() == n,
            i <= n,
            forall|x: int|
                0 <= x < n && #[trigger] in_set@[x] ==> in_closure(
                    ts,
                    marker,
                    ts[x].spec_label_key(),
                ),
            forall|x: int| 0 <= x < n && is_marked(#[trigger] ts[x], marker) ==> in_set@[x],
            forall|x: int, y: int|
                0 <= x < n && 0 <= y < n && in_set@[x] && ts[y].deps@.contains(
                    #[trigger] ts[x].spec_label_key(),
                ) ==> #[trigger] in_set@[y],
            forall|k2: TargetLabelKey|
                #[trigger] res@.contains(k2) <==> (exists|x: int|
                    0 <= x < i && #[trigger] in_set@[x] && ts[x].spec_label_key() == k2),
            forall|a: int, b: int| 0 <= a < b < res@.len() ==> res@[a] != res@[b],
            res@.len() <= i,
        decreases n - i,
    {
        if in_set[i] {
            let k2 = targets.get(i).label_key();
            if !contains_key(&res, k2) {
                let ghost res_mid = res@;
                res.push(k2);
                proof {
                    assert forall|z: TargetLabelKey| #[trigger]
                        res@.contains(z) <==> (res_mid.contains(z) || z == k2) by {
                        lemma_contains_push(res_mid, k2, z);
                    }
                }
            }
        }
        i = i + 1;
    }
    proof {
        assert forall|k2: TargetLabelKey| in_closure(ts, marker, k2) implies #[trigger]
            res@.contains(k2) by {
            let p = choose|p: Seq<TargetLabelKey>| is_closure_path(ts, marker, p) && p.last()
                == k2;
            lemma_closed_contains_closure(ts, marker, in_set@, p);
        }
    }
    res
}

/// The label whose presence marks a target for propagation.
pub open spec fn spec_sudo_label() -> Seq<char> {
    "uses_sudo"@
}

/// Computes every target that must run with elevated privileges: those
/// carrying the `uses_sudo` label and, transitively, every target that
/// depends on one. The marker label is interned first, so the table may gain
/// its entry; the targets themselves are only read.
///
/// Propagation follows concrete per-target labels only; labels attached to
/// target patterns are not expanded.
pub fn requires_sudo_recursively(interner: &mut Interner, targets: &Targets) -> (res: Vec<
    TargetLabelKey,
>)
    ensures
        final(interner).wf(),
        final(interner)@ == spec_intern_table(old(interner)@, spec_sudo_label()),
        forall|k: TargetLabelKey|
            res@.contains(k) <==> in_closure(
                targets@,
                InternString::spec_of(old(interner)@, spec_sudo_label()),
                k,
            ),
        forall|a: int, b: int| 0 <= a < b < res@.len() ==> res@[a] != res@[b],
        res@.len() <= targets@.len(),
{
    let marker = InternString::new(interner, "uses_sudo");
    closure(targets, marker)
}

/// The two collections describe one graph: the same identities with the same
/// forward edges, position by position.
pub open spec fn same_graph(ts1: Seq<Target>, ts2: Seq<Target>) -> bool {
    &&& ts1.len() == ts2.len()
    &&& forall|i: int|
        0 <= i < ts1.len() ==> (#[trigger] ts2[i]).spec_label_key() == ts1[i].spec_label_key()
    &&& forall|i: int| 0 <= i < ts1.len() ==> (#[trigger] ts2[i]).deps@ == ts1[i].deps@
}

/// Monotonicity: for a fixed graph, marking additional targets can only add
/// identities to the closure, never remove any.
pub proof fn lemma_closure_monotone(
    ts1: Seq<Target>,
    ts2: Seq<Target>,
    marker: InternString,
    k: TargetLabelKey,
)
    requires
        same_graph(ts1, ts2),
        forall|i: int|
            0 <= i < ts1.len() && is_marked(#[trigger] ts1[i], marker) ==> is_marked(
                ts2[i],
                marker,
            ),
        in_closure(ts1, marker, k),
    ensures
        in_closure(ts2, marker, k),
{
    let p = choose|p: Seq<TargetLabelKey>| is_closure_path(ts1, marker, p) && p.last() == k;
    assert(key_marked(ts2, marker, p[0])) by {
        let i = choose|i: int|
            0 <= i < ts1.len() && ts1[i].spec_label_key() == p[0] && is_marked(ts1[i], marker);
        assert(ts2[i].spec_label_key() == p[0] && is_marked(ts2[i], marker));
    }
    assert forall|j: int| 0 <= j < p.len() - 1 implies key_depends_on(
        ts2,
        p[j + 1],
        #[trigger] p[j],
    ) by {
        assert(key_depends_on(ts1, p[j + 1], p[j]));
        let i = choose|i: int|
            0 <= i < ts1.len() && ts1[i].spec_label_key() == p[j + 1] && ts1[i].deps@.contains(
                p[j],
            );
        assert(ts2[i].spec_label_key() == p[j + 1] && ts2[i].deps@.contains(p[j]));
    }
    assert(is_closure_path(ts2, marker, p));
}

} // verus!
