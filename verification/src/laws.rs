use vstd::prelude::*;

use crate::diff::appends_of;
use crate::diff::attr_key;
use crate::diff::attr_ok;
use crate::diff::attr_patch_valid;
use crate::diff::child_part_ok;
use crate::diff::flat;
use crate::diff::is_diff;
use crate::diff::lemma_flat_front;
use crate::diff::lemma_flat_push;
use crate::diff::rem_req;
use crate::diff::set_req;
use crate::dom::NodeV;
use crate::dom::AttrV;
use crate::patch::apply_all;
use crate::patch::apply_patch;
use crate::patch::lemma_normalize_run;
use crate::patch::lemma_normalize_single;
use crate::patch::lemma_run_len_is;
use crate::patch::apply_script;
use crate::patch::normalize;
use crate::patch::run_len;
use crate::patch::run_parent;
use crate::patch::patch_path;
use crate::patch::ApplyError;
use crate::patch::PatchV;

verus! {

/// Recovers the attribute-patch section and the per-child patch lists that
/// an equal-tag diff is composed of.
pub proof fn is_diff_witnesses(id: Seq<usize>, s: NodeV, t: NodeV, ps: Seq<PatchV>) -> (w: (
    Seq<PatchV>,
    Seq<Seq<PatchV>>,
))
    requires
        is_diff(id, s, t, ps),
        s.tag == t.tag,
    ensures
        ps == w.0 + appends_of(id, s, t) + flat(w.1),
        attr_ok(id, s.attrs, t.attrs, w.0),
        w.1.len() == s.children.len(),
        forall|i: int| 0 <= i < s.children.len() ==> child_part_ok(id, s, t, #[trigger] w.1[i], i),
{
    let (aps, parts) = choose|aps: Seq<PatchV>, parts: Seq<Seq<PatchV>>|
        #![trigger attr_ok(id, s.attrs, t.attrs, aps), flat(parts)]
        {
            &&& ps == aps + appends_of(id, s, t) + flat(parts)
            &&& attr_ok(id, s.attrs, t.attrs, aps)
            &&& parts.len() == s.children.len()
            &&& forall|i: int|
                0 <= i < s.children.len() ==> child_part_ok(id, s, t, #[trigger] parts[i], i)
        };
    (aps, parts)
}

/// Every element of a concatenation of lists satisfies any property that
/// every element of every list satisfies.
pub proof fn lemma_flat_all(parts: Seq<Seq<PatchV>>, pred: spec_fn(PatchV) -> bool)
    requires
        forall|i: int, x: int|
            0 <= i < parts.len() && 0 <= x < parts[i].len() ==> pred(#[trigger] parts[i][x]),
    ensures
        forall|j: int| 0 <= j < flat(parts).len() ==> pred(#[trigger] flat(parts)[j]),
    decreases parts.len(),
{
    if parts.len() > 0 {
        let pd = parts.drop_last();
        assert forall|i: int, x: int|
            0 <= i < pd.len() && 0 <= x < pd[i].len() implies pred(#[trigger] pd[i][x]) by {
            assert(pd[i] == parts[i]);
            assert(pred(parts[i][x]));
        }
        lemma_flat_all(pd, pred);
        assert forall|j: int| 0 <= j < flat(parts).len() implies pred(#[trigger] flat(parts)[j]) by {
            if j < flat(pd).len() {
                assert(flat(parts)[j] == flat(pd)[j]);
            } else {
                assert(flat(parts)[j] == parts.last()[j - flat(pd).len()]);
                assert(parts.last() == parts[parts.len() - 1]);
            }
        }
    }
}

/// Every patch a diff emits is addressed at or below the pair's own path.
pub proof fn lemma_paths_prefixed(id: Seq<usize>, s: NodeV, t: NodeV, ps: Seq<PatchV>)
    requires
        is_diff(id, s, t, ps),
    ensures
        forall|j: int|
            0 <= j < ps.len() ==> id.is_prefix_of(patch_path(#[trigger] ps[j])),
    decreases s,
{
    if s.tag != t.tag {
        assert(patch_path(ps[0]) == id);
        assert(id.is_prefix_of(id));
    } else {
        let (aps, parts) = is_diff_witnesses(id, s, t, ps);
        let app = appends_of(id, s, t);
        assert forall|i: int, x: int|
            0 <= i < parts.len() && 0 <= x < parts[i].len() implies id.is_prefix_of(
            patch_path(#[trigger] parts[i][x]),
        ) by {
            assert(child_part_ok(id, s, t, parts[i], i));
            let cid = id.push(i as usize);
            if i < t.children.len() {
                lemma_paths_prefixed(cid, s.children[i], t.children[i], parts[i]);
                assert(cid.is_prefix_of(patch_path(parts[i][x])));
                assert(cid.subrange(0, id.len() as int) =~= id);
                assert(patch_path(parts[i][x]).subrange(0, id.len() as int) =~= id);
            } else {
                assert(parts[i][x] == PatchV::RemoveNode(cid));
                assert(cid.subrange(0, id.len() as int) =~= id);
            }
        }
        lemma_flat_all(parts, |p: PatchV| id.is_prefix_of(patch_path(p)));
        assert forall|j: int| 0 <= j < ps.len() implies id.is_prefix_of(
            patch_path(#[trigger] ps[j]),
        ) by {
            if j < aps.len() {
                assert(attr_patch_valid(id, s.attrs, t.attrs, aps[j]));
                assert(ps[j] == aps[j]);
                assert(id.subrange(0, id.len() as int) =~= id);
            } else if j < aps.len() + app.len() {
                assert(ps[j] == app[j - aps.len()]);
                let x = j - aps.len();
                assert(patch_path(app[x]) == id.push((s.children.len() + x) as usize));
                assert(patch_path(app[x]).subrange(0, id.len() as int) =~= id);
            } else {
                assert(ps[j] == flat(parts)[j - aps.len() - app.len()]);
            }
        }
    }
}

/// Diffing a tree against itself yields the empty script.
pub proof fn lemma_diff_idempotent(id: Seq<usize>, x: NodeV, ps: Seq<PatchV>)
    requires
        is_diff(id, x, x, ps),
    ensures
        ps == Seq::<PatchV>::empty(),
    decreases x,
{
    let (aps, parts) = is_diff_witnesses(id, x, x, ps);
    if aps.len() > 0 {
        assert(attr_patch_valid(id, x.attrs, x.attrs, aps[0]));
        assert(false);
    }
    assert(appends_of(id, x, x) =~= Seq::<PatchV>::empty());
    assert forall|i: int| 0 <= i < parts.len() implies #[trigger] parts[i] =~= Seq::<
        PatchV,
    >::empty() by {
        assert(child_part_ok(id, x, x, parts[i], i));
        lemma_diff_idempotent(id.push(i as usize), x.children[i], parts[i]);
    }
    let f = |p: PatchV| false;
    lemma_flat_all(parts, f);
    if flat(parts).len() > 0 {
        assert(f(flat(parts)[0]));
        assert(false);
    }
    assert(flat(parts) =~= Seq::<PatchV>::empty());
    assert(ps =~= Seq::<PatchV>::empty());
}

/// For an equal-tag pair, the patches addressed at the pair's own path are
/// exactly the required attribute edits: every removed key has its removal,
/// every changed-or-added key has its set carrying the target's value, each
/// key is patched at most once, and no other patch — in particular none for
/// an unchanged key — is addressed there.
pub proof fn lemma_attribute_patch_coverage(id: Seq<usize>, s: NodeV, t: NodeV, ps: Seq<PatchV>)
    requires
        is_diff(id, s, t, ps),
        s.tag == t.tag,
    ensures
        forall|k: Seq<char>|
            #[trigger] rem_req(s.attrs, t.attrs, k) ==> ps.contains(
                PatchV::RemoveAttribute(id, k),
            ),
        forall|k: Seq<char>|
            #[trigger] set_req(s.attrs, t.attrs, k) ==> ps.contains(
                PatchV::SetAttribute(id, k, t.attrs[k]),
            ),
        forall|j: int|
            0 <= j < ps.len() && patch_path(#[trigger] ps[j]) == id ==> attr_patch_valid(
                id,
                s.attrs,
                t.attrs,
                ps[j],
            ),
        forall|j1: int, j2: int|
            0 <= j1 < j2 < ps.len() && patch_path(#[trigger] ps[j1]) == id && patch_path(
                #[trigger] ps[j2],
            ) == id ==> attr_key(ps[j1]) != attr_key(ps[j2]),
{
    let (aps, parts) = is_diff_witnesses(id, s, t, ps);
    let app = appends_of(id, s, t);
    assert forall|k: Seq<char>| #[trigger] rem_req(s.attrs, t.attrs, k) implies ps.contains(
        PatchV::RemoveAttribute(id, k),
    ) by {
        assert(aps.contains(PatchV::RemoveAttribute(id, k)));
        let j = choose|j: int| 0 <= j < aps.len() && aps[j] == PatchV::RemoveAttribute(id, k);
        assert(ps[j] == aps[j]);
    }
    assert forall|k: Seq<char>| #[trigger] set_req(s.attrs, t.attrs, k) implies ps.contains(
        PatchV::SetAttribute(id, k, t.attrs[k]),
    ) by {
        assert(aps.contains(PatchV::SetAttribute(id, k, t.attrs[k])));
        let j = choose|j: int|
            0 <= j < aps.len() && aps[j] == PatchV::SetAttribute(id, k, t.attrs[k]);
        assert(ps[j] == aps[j]);
    }
    assert forall|i: int, x: int|
        0 <= i < parts.len() && 0 <= x < parts[i].len() implies patch_path(
        #[trigger] parts[i][x],
    ).len() > id.len() by {
        assert(child_part_ok(id, s, t, parts[i], i));
        let cid = id.push(i as usize);
        if i < t.children.len() {
            lemma_paths_prefixed(cid, s.children[i], t.children[i], parts[i]);
            assert(cid.is_prefix_of(patch_path(parts[i][x])));
        } else {
            assert(parts[i][x] == PatchV::RemoveNode(cid));
        }
    }
    lemma_flat_all(parts, |p: PatchV| patch_path(p).len() > id.len());
    assert forall|j: int|
        0 <= j < ps.len() && patch_path(#[trigger] ps[j]) == id implies 0 <= j < aps.len() && ps[j]
        == aps[j] by {
        if j >= aps.len() + app.len() {
            assert(ps[j] == flat(parts)[j - aps.len() - app.len()]);
            assert(patch_path(ps[j]).len() > id.len());
        } else if j >= aps.len() {
            let x = j - aps.len();
            assert(ps[j] == app[x]);
            assert(patch_path(app[x]) == id.push((s.children.len() + x) as usize));
        } else {
            assert(ps[j] == aps[j]);
        }
    }
}

/// The subtree a path addresses, if each index is in range.
pub open spec fn lookup(t: NodeV, q: Seq<usize>) -> Option<NodeV>
    decreases q.len(),
{
    if q.len() == 0 {
        Some(t)
    } else if (q[0] as int) < t.children.len() {
        lookup(t.children[q[0] as int], q.skip(1))
    } else {
        None
    }
}

/// The tree with the subtree at a resolvable path replaced.
pub open spec fn update_at(t: NodeV, q: Seq<usize>, n: NodeV) -> NodeV
    decreases q.len(),
{
    if q.len() == 0 {
        n
    } else if (q[0] as int) < t.children.len() {
        NodeV {
            children: t.children.update(
                q[0] as int,
                update_at(t.children[q[0] as int], q.skip(1), n),
            ),
            ..t
        }
    } else {
        t
    }
}

pub proof fn lemma_lookup_update_same(t: NodeV, q: Seq<usize>, n: NodeV)
    requires
        lookup(t, q) is Some,
    ensures
        lookup(update_at(t, q, n), q) == Some(n),
    decreases q.len(),
{
    if q.len() > 0 {
        lemma_lookup_update_same(t.children[q[0] as int], q.skip(1), n);
    }
}

pub proof fn lemma_update_twice(t: NodeV, q: Seq<usize>, a: NodeV, b: NodeV)
    requires
        lookup(t, q) is Some,
    ensures
        update_at(update_at(t, q, a), q, b) == update_at(t, q, b),
    decreases q.len(),
{
    if q.len() > 0 {
        let i = q[0] as int;
        lemma_update_twice(t.children[i], q.skip(1), a, b);
        assert(update_at(t, q, a).children[i] == update_at(t.children[i], q.skip(1), a));
        assert(update_at(update_at(t, q, a), q, b).children =~= update_at(t, q, b).children);
        assert(update_at(update_at(t, q, a), q, b) =~= update_at(t, q, b));
    }
}

pub proof fn lemma_update_self(t: NodeV, q: Seq<usize>, s: NodeV)
    requires
        lookup(t, q) == Some(s),
    ensures
        update_at(t, q, s) == t,
    decreases q.len(),
{
    if q.len() > 0 {
        let i = q[0] as int;
        lemma_update_self(t.children[i], q.skip(1), s);
        assert(update_at(t, q, s).children =~= t.children);
        assert(update_at(t, q, s) =~= t);
    }
}

pub proof fn lemma_lookup_child(t: NodeV, q: Seq<usize>, s: NodeV, i: int)
    requires
        lookup(t, q) == Some(s),
        0 <= i < s.children.len(),
        i <= usize::MAX as int,
    ensures
        lookup(t, q.push(i as usize)) == Some(s.children[i]),
    decreases q.len(),
{
    if q.len() == 0 {
        let q2 = q.push(i as usize);
        assert(q2[0] == i as usize);
        assert(q2.skip(1) =~= Seq::<usize>::empty());
        assert(lookup(s.children[i], Seq::<usize>::empty()) == Some(s.children[i]));
    } else {
        assert(q.push(i as usize)[0] == q[0]);
        assert(q.push(i as usize).skip(1) =~= q.skip(1).push(i as usize));
        lemma_lookup_child(t.children[q[0] as int], q.skip(1), s, i);
    }
}

pub proof fn lemma_update_child_nest(t: NodeV, q: Seq<usize>, s: NodeV, i: int, c: NodeV)
    requires
        lookup(t, q) == Some(s),
        0 <= i < s.children.len(),
        i <= usize::MAX as int,
    ensures
        update_at(t, q.push(i as usize), c) == update_at(
            t,
            q,
            NodeV { children: s.children.update(i, c), ..s },
        ),
    decreases q.len(),
{
    if q.len() == 0 {
        let q2 = q.push(i as usize);
        assert(q2[0] == i as usize);
        assert(q2.skip(1) =~= Seq::<usize>::empty());
        assert(update_at(s.children[i], Seq::<usize>::empty(), c) == c);
        assert(update_at(t, q2, c) =~= (NodeV { children: s.children.update(i, c), ..s }));
    } else {
        assert(q.push(i as usize)[0] == q[0]);
        assert(q.push(i as usize).skip(1) =~= q.skip(1).push(i as usize));
        lemma_update_child_nest(t.children[q[0] as int], q.skip(1), s, i, c);
        assert(update_at(t, q.push(i as usize), c) =~= update_at(
            t,
            q,
            NodeV { children: s.children.update(i, c), ..s },
        ));
    }
}

pub proof fn lemma_apply_replace(t: NodeV, q: Seq<usize>, n: NodeV)
    requires
        lookup(t, q) is Some,
    ensures
        apply_patch(PatchV::ReplaceNode(q, n), t) == Ok::<NodeV, ApplyError>(update_at(t, q, n)),
    decreases q.len(),
{
    if q.len() == 0 {
    } else if q.len() == 1 {
        assert(q.skip(1).len() == 0);
        assert(update_at(t.children[q[0] as int], q.skip(1), n) == n);
        assert(update_at(t, q, n) =~= (NodeV {
            children: t.children.update(q[0] as int, n),
            ..t
        }));
    } else {
        lemma_apply_replace(t.children[q[0] as int], q.skip(1), n);
    }
}

pub proof fn lemma_apply_remove(t: NodeV, q: Seq<usize>, s: NodeV, j: int)
    requires
        lookup(t, q) == Some(s),
        0 <= j < s.children.len(),
        j <= usize::MAX as int,
    ensures
        apply_patch(PatchV::RemoveNode(q.push(j as usize)), t) == Ok::<NodeV, ApplyError>(
            update_at(t, q, NodeV { children: s.children.remove(j), ..s }),
        ),
    decreases q.len(),
{
    let q2 = q.push(j as usize);
    if q.len() == 0 {
        assert(q2.len() == 1);
        assert(q2[0] == j as usize);
        assert(update_at(t, q, NodeV { children: s.children.remove(j), ..s }) == (NodeV {
            children: s.children.remove(j),
            ..s
        }));
    } else {
        assert(q2[0] == q[0]);
        assert(q2.skip(1) =~= q.skip(1).push(j as usize));
        lemma_apply_remove(t.children[q[0] as int], q.skip(1), s, j);
    }
}

pub proof fn lemma_apply_attr_remove(t: NodeV, q: Seq<usize>, s: NodeV, k: Seq<char>)
    requires
        lookup(t, q) == Some(s),
    ensures
        apply_patch(PatchV::RemoveAttribute(q, k), t) == Ok::<NodeV, ApplyError>(
            update_at(t, q, NodeV { attrs: s.attrs.remove(k), ..s }),
        ),
    decreases q.len(),
{
    if q.len() > 0 {
        lemma_apply_attr_remove(t.children[q[0] as int], q.skip(1), s, k);
    }
}

pub proof fn lemma_apply_attr_set(t: NodeV, q: Seq<usize>, s: NodeV, k: Seq<char>, v: AttrV)
    requires
        lookup(t, q) == Some(s),
    ensures
        apply_patch(PatchV::SetAttribute(q, k, v), t) == Ok::<NodeV, ApplyError>(
            update_at(t, q, NodeV { attrs: s.attrs.insert(k, v), ..s }),
        ),
    decreases q.len(),
{
    if q.len() > 0 {
        lemma_apply_attr_set(t.children[q[0] as int], q.skip(1), s, k, v);
    }
}

pub proof fn lemma_apply_all_append(a: Seq<PatchV>, b: Seq<PatchV>, t: NodeV, t1: NodeV)
    requires
        apply_all(a, t) == Ok::<NodeV, ApplyError>(t1),
    ensures
        apply_all(a + b, t) == apply_all(b, t1),
    decreases a.len(),
{
    if a.len() == 0 {
        assert(a + b =~= b);
    } else {
        assert((a + b)[0] == a[0]);
        match apply_patch(a[0], t) {
            Ok(t2) => {
                assert((a + b).skip(1) =~= a.skip(1) + b);
                lemma_apply_all_append(a.skip(1), b, t2, t1);
            },
            Err(_) => {
                assert(false);
            },
        }
    }
}

pub proof fn lemma_run_len_members(s: Seq<PatchV>, par: Seq<usize>)
    ensures
        0 <= run_len(s, par) <= s.len(),
        forall|k: int| 0 <= k < run_len(s, par) ==> run_parent(#[trigger] s[k]) == Some(par),
        run_len(s, par) < s.len() ==> run_parent(s[run_len(s, par)]) != Some(par),
    decreases s.len(),
{
    if s.len() > 0 && run_parent(s[0]) == Some(par) {
        lemma_run_len_members(s.skip(1), par);
        let n = run_len(s, par);
        assert(n == 1 + run_len(s.skip(1), par));
        assert forall|k: int| 0 <= k < n implies run_parent(#[trigger] s[k]) == Some(par) by {
            if k > 0 {
                assert(s.skip(1)[k - 1] == s[k]);
            }
        }
        if n < s.len() {
            assert(s.skip(1)[n - 1] == s[n]);
        }
    }
}

/// A list of patches none of which is a child removal passes through the
/// reordering unchanged.
pub proof fn lemma_normalize_none_prefix(a: Seq<PatchV>, b: Seq<PatchV>)
    requires
        forall|j: int| 0 <= j < a.len() ==> run_parent(#[trigger] a[j]) is None,
    ensures
        normalize(a + b) == a + normalize(b),
    decreases a.len(),
{
    if a.len() == 0 {
        assert(a + b =~= b);
        assert(a + normalize(b) =~= normalize(b));
    } else {
        assert((a + b)[0] == a[0]);
        lemma_normalize_single(a + b);
        assert((a + b).skip(1) =~= a.skip(1) + b);
        lemma_normalize_none_prefix(a.skip(1), b);
        assert(seq![a[0]] + (a.skip(1) + normalize(b)) =~= a + normalize(b));
    }
}

/// Whether the boundary between two patch lists can merge two removal runs:
/// it cannot when the first list does not end inside a run that the second
/// list's first patch continues.
pub open spec fn runs_separated(a: Seq<PatchV>, b: Seq<PatchV>) -> bool {
    a.len() == 0 || b.len() == 0 || !(run_parent(a.last()) is Some && run_parent(b[0])
        == run_parent(a.last()))
}

/// Reordering distributes over concatenation when no removal run crosses
/// the boundary.
pub proof fn lemma_normalize_split(a: Seq<PatchV>, b: Seq<PatchV>)
    requires
        runs_separated(a, b),
    ensures
        normalize(a + b) == normalize(a) + normalize(b),
    decreases a.len(),
{
    if a.len() == 0 {
        assert(a + b =~= b);
        assert(normalize(a) + normalize(b) =~= normalize(b));
    } else if b.len() == 0 {
        assert(a + b =~= a);
        assert(normalize(a) + normalize(b) =~= normalize(a));
    } else {
        assert((a + b)[0] == a[0]);
        match run_parent(a[0]) {
            None => {
                lemma_normalize_single(a + b);
                lemma_normalize_single(a);
                assert((a + b).skip(1) =~= a.skip(1) + b);
                if a.len() == 1 {
                    assert(a.skip(1).len() == 0);
                } else {
                    assert(a.skip(1).last() == a.last());
                }
                lemma_normalize_split(a.skip(1), b);
                assert(seq![a[0]] + (normalize(a.skip(1)) + normalize(b)) =~= (seq![a[0]]
                    + normalize(a.skip(1))) + normalize(b));
            },
            Some(par) => {
                lemma_run_len_members(a, par);
                let na = run_len(a, par);
                assert(na >= 1);
                assert forall|k: int| 0 <= k < na implies run_parent(#[trigger] (a + b)[k])
                    == Some(par) by {
                    assert((a + b)[k] == a[k]);
                }
                if na < a.len() {
                    assert((a + b)[na] == a[na]);
                } else {
                    assert(a.last() == a[a.len() - 1]);
                    assert(run_parent(a.last()) == Some(par));
                    assert((a + b)[na] == b[0]);
                    assert(run_parent(b[0]) != Some(par));
                }
                lemma_run_len_is(a + b, par, na);
                lemma_normalize_run(a + b, par, na);
                lemma_normalize_run(a, par, na);
                assert((a + b).subrange(0, na) =~= a.subrange(0, na));
                assert((a + b).skip(na) =~= a.skip(na) + b);
                if na < a.len() {
                    assert(a.skip(na).last() == a.last());
                }
                lemma_normalize_split(a.skip(na), b);
                assert(a.subrange(0, na).reverse() + (normalize(a.skip(na)) + normalize(b)) =~= (
                a.subrange(0, na).reverse() + normalize(a.skip(na))) + normalize(b));
            },
        }
    }
}

/// An attribute patch that is still due against the current attribute map.
pub open spec fn attr_pending(
    id: Seq<usize>,
    sa: Map<Seq<char>, AttrV>,
    ta: Map<Seq<char>, AttrV>,
    p: PatchV,
) -> bool {
    match p {
        PatchV::RemoveAttribute(pid, k) => pid == id && sa.contains_key(k) && !ta.contains_key(k),
        PatchV::SetAttribute(pid, k, v) => pid == id && ta.contains_key(k) && v == ta[k],
        _ => false,
    }
}

proof fn lemma_contains_tail(s: Seq<PatchV>, x: PatchV)
    requires
        s.contains(x),
        s.len() > 0,
        s[0] != x,
    ensures
        s.skip(1).contains(x),
{
    let j = choose|j: int| 0 <= j < s.len() && s[j] == x;
    assert(s.skip(1)[j - 1] == x);
}

/// Replaying a complete, duplicate-free batch of due attribute patches
/// rewrites the node's attribute map to the target map.
pub proof fn lemma_apply_attr_section(
    tr: NodeV,
    id: Seq<usize>,
    s: NodeV,
    ta: Map<Seq<char>, AttrV>,
    aps: Seq<PatchV>,
)
    requires
        lookup(tr, id) == Some(s),
        forall|j: int| 0 <= j < aps.len() ==> attr_pending(id, s.attrs, ta, #[trigger] aps[j]),
        forall|j1: int, j2: int|
            0 <= j1 < j2 < aps.len() ==> attr_key(#[trigger] aps[j1]) != attr_key(
                #[trigger] aps[j2],
            ),
        forall|k: Seq<char>|
            #[trigger] rem_req(s.attrs, ta, k) ==> aps.contains(PatchV::RemoveAttribute(id, k)),
        forall|k: Seq<char>|
            #[trigger] set_req(s.attrs, ta, k) ==> aps.contains(PatchV::SetAttribute(id, k, ta[k])),
    ensures
        apply_all(aps, tr) == Ok::<NodeV, ApplyError>(update_at(tr, id, NodeV { attrs: ta, ..s })),
    decreases aps.len(),
{
    let sa = s.attrs;
    if aps.len() == 0 {
        assert forall|k: Seq<char>| #[trigger] sa.dom().contains(k) implies ta.dom().contains(
            k,
        ) by {
            assert(sa.contains_key(k));
            if !ta.contains_key(k) {
                assert(rem_req(sa, ta, k));
                assert(false);
            }
        }
        assert forall|k: Seq<char>| #[trigger] ta.dom().contains(k) implies sa.dom().contains(k)
            && sa[k] == ta[k] by {
            assert(ta.contains_key(k));
            if !sa.contains_key(k) || sa[k] != ta[k] {
                assert(set_req(sa, ta, k));
                assert(false);
            }
        }
        assert(sa.dom() =~= ta.dom());
        assert(sa =~= ta);
        assert((NodeV { attrs: ta, ..s }) =~= s);
        lemma_update_self(tr, id, s);
    } else {
        let p0 = aps[0];
        assert(attr_pending(id, sa, ta, p0));
        match p0 {
            PatchV::RemoveAttribute(_, k) => {
                lemma_apply_attr_remove(tr, id, s, k);
                let s1 = NodeV { attrs: sa.remove(k), ..s };
                let t1 = update_at(tr, id, s1);
                lemma_lookup_update_same(tr, id, s1);
                assert forall|j: int|
                    0 <= j < aps.skip(1).len() implies attr_pending(
                    id,
                    s1.attrs,
                    ta,
                    #[trigger] aps.skip(1)[j],
                ) by {
                    assert(aps.skip(1)[j] == aps[j + 1]);
                    assert(attr_key(aps[j + 1]) != attr_key(aps[0]));
                }
                assert forall|k2: Seq<char>|
                    #[trigger] rem_req(s1.attrs, ta, k2) implies aps.skip(1).contains(
                    PatchV::RemoveAttribute(id, k2),
                ) by {
                    assert(rem_req(sa, ta, k2));
                    assert(k2 != k);
                    lemma_contains_tail(aps, PatchV::RemoveAttribute(id, k2));
                }
                assert forall|k2: Seq<char>|
                    #[trigger] set_req(s1.attrs, ta, k2) implies aps.skip(1).contains(
                    PatchV::SetAttribute(id, k2, ta[k2]),
                ) by {
                    assert(k2 != k);
                    assert(set_req(sa, ta, k2));
                    lemma_contains_tail(aps, PatchV::SetAttribute(id, k2, ta[k2]));
                }
                lemma_apply_attr_section(t1, id, s1, ta, aps.skip(1));
                assert((NodeV { attrs: ta, ..s1 }) =~= (NodeV { attrs: ta, ..s }));
                lemma_update_twice(tr, id, s1, NodeV { attrs: ta, ..s });
            },
            PatchV::SetAttribute(_, k, v) => {
                lemma_apply_attr_set(tr, id, s, k, v);
                let s1 = NodeV { attrs: sa.insert(k, v), ..s };
                let t1 = update_at(tr, id, s1);
                lemma_lookup_update_same(tr, id, s1);
                assert forall|j: int|
                    0 <= j < aps.skip(1).len() implies attr_pending(
                    id,
                    s1.attrs,
                    ta,
                    #[trigger] aps.skip(1)[j],
                ) by {
                    assert(aps.skip(1)[j] == aps[j + 1]);
                    assert(attr_key(aps[j + 1]) != attr_key(aps[0]));
                }
                assert forall|k2: Seq<char>|
                    #[trigger] rem_req(s1.attrs, ta, k2) implies aps.skip(1).contains(
                    PatchV::RemoveAttribute(id, k2),
                ) by {
                    assert(k2 != k);
                    assert(rem_req(sa, ta, k2));
                    lemma_contains_tail(aps, PatchV::RemoveAttribute(id, k2));
                }
                assert forall|k2: Seq<char>|
                    #[trigger] set_req(s1.attrs, ta, k2) implies aps.skip(1).contains(
                    PatchV::SetAttribute(id, k2, ta[k2]),
                ) by {
                    assert(k2 != k);
                    assert(set_req(sa, ta, k2));
                    lemma_contains_tail(aps, PatchV::SetAttribute(id, k2, ta[k2]));
                }
                lemma_apply_attr_section(t1, id, s1, ta, aps.skip(1));
                assert((NodeV { attrs: ta, ..s1 }) =~= (NodeV { attrs: ta, ..s }));
                lemma_update_twice(tr, id, s1, NodeV { attrs: ta, ..s });
            },
            _ => {
                assert(false);
            },
        }
    }
}

/// The removals that trim a node's child list from `n` children down to
/// `m`, highest index first.
pub open spec fn desc_removals(q: Seq<usize>, m: int, n: int) -> Seq<PatchV> {
    Seq::new(
        if n >= m {
            (n - m) as nat
        } else {
            0
        },
        |x: int| PatchV::RemoveNode(q.push((n - 1 - x) as usize)),
    )
}

/// Replaying removals of the trailing children in descending index order
/// trims the child list, one last child at a time.
pub proof fn lemma_apply_desc_removals(tr: NodeV, id: Seq<usize>, s: NodeV, m: int)
    requires
        lookup(tr, id) == Some(s),
        0 <= m <= s.children.len(),
        s.children.len() <= usize::MAX as int,
    ensures
        apply_all(desc_removals(id, m, s.children.len() as int), tr) == Ok::<NodeV, ApplyError>(
            update_at(tr, id, NodeV { children: s.children.subrange(0, m), ..s }),
        ),
    decreases s.children.len() - m,
{
    let n = s.children.len() as int;
    if m == n {
        assert(desc_removals(id, m, n).len() == 0);
        assert(s.children.subrange(0, m) =~= s.children);
        assert((NodeV { children: s.children.subrange(0, m), ..s }) =~= s);
        lemma_update_self(tr, id, s);
    } else {
        let ds = desc_removals(id, m, n);
        assert(ds[0] == PatchV::RemoveNode(id.push((n - 1) as usize)));
        lemma_apply_remove(tr, id, s, n - 1);
        let s1 = NodeV { children: s.children.remove(n - 1), ..s };
        let t1 = update_at(tr, id, s1);
        lemma_lookup_update_same(tr, id, s1);
        assert(s1.children =~= s.children.subrange(0, n - 1));
        lemma_apply_desc_removals(t1, id, s1, m);
        assert(ds.skip(1) =~= desc_removals(id, m, n - 1));
        assert(s1.children.subrange(0, m) =~= s.children.subrange(0, m));
        assert((NodeV { children: s1.children.subrange(0, m), ..s1 }) =~= (NodeV {
            children: s.children.subrange(0, m),
            ..s
        }));
        lemma_update_twice(tr, id, s1, NodeV { children: s.children.subrange(0, m), ..s });
    }
}

pub proof fn lemma_flat_split(parts: Seq<Seq<PatchV>>, m: int)
    requires
        0 <= m <= parts.len(),
    ensures
        flat(parts) == flat(parts.subrange(0, m)) + flat(parts.subrange(m, parts.len() as int)),
    decreases parts.len(),
{
    let n = parts.len() as int;
    if m == n {
        assert(parts.subrange(0, m) =~= parts);
        assert(flat(parts.subrange(m, n)) =~= Seq::<PatchV>::empty());
        assert(flat(parts) =~= flat(parts) + flat(parts.subrange(m, n)));
    } else {
        let pd = parts.drop_last();
        lemma_flat_split(pd, m);
        assert(parts.subrange(0, m) =~= pd.subrange(0, m));
        assert(parts.subrange(m, n) =~= pd.subrange(m, n - 1).push(parts.last()));
        lemma_flat_push(pd.subrange(m, n - 1), parts.last());
        assert(flat(parts) =~= flat(parts.subrange(0, m)) + flat(parts.subrange(m, n)));
    }
}

proof fn lemma_flat_singletons(pb: Seq<Seq<PatchV>>, id: Seq<usize>, base: int)
    requires
        forall|x: int|
            0 <= x < pb.len() ==> #[trigger] pb[x] == seq![
                PatchV::RemoveNode(id.push((base + x) as usize)),
            ],
    ensures
        flat(pb) == Seq::new(
            pb.len(),
            |x: int| PatchV::RemoveNode(id.push((base + x) as usize)),
        ),
    decreases pb.len(),
{
    let target = Seq::new(pb.len(), |x: int| PatchV::RemoveNode(id.push((base + x) as usize)));
    if pb.len() == 0 {
        assert(flat(pb) =~= target);
    } else {
        let pd = pb.drop_last();
        assert forall|x: int|
            0 <= x < pd.len() implies #[trigger] pd[x] == seq![
            PatchV::RemoveNode(id.push((base + x) as usize)),
        ] by {
            assert(pd[x] == pb[x]);
        }
        lemma_flat_singletons(pd, id, base);
        assert(pb.last() == pb[pb.len() - 1]);
        assert(flat(pb) =~= target);
    }
}

/// Every removal patch a diff emits is addressed strictly below the pair's
/// own path, so its parent lies at or below that path.
pub proof fn lemma_removal_paths_long(id: Seq<usize>, s: NodeV, t: NodeV, ps: Seq<PatchV>)
    requires
        is_diff(id, s, t, ps),
    ensures
        forall|j: int|
            0 <= j < ps.len() && ps[j] is RemoveNode ==> patch_path(#[trigger] ps[j]).len()
                > id.len(),
    decreases s,
{
    if s.tag != t.tag {
    } else {
        let (aps, parts) = is_diff_witnesses(id, s, t, ps);
        let app = appends_of(id, s, t);
        assert forall|i: int, x: int|
            0 <= i < parts.len() && 0 <= x < parts[i].len() && parts[i][x]
                is RemoveNode implies patch_path(#[trigger] parts[i][x]).len() > id.len() by {
            assert(child_part_ok(id, s, t, parts[i], i));
            let cid = id.push(i as usize);
            if i < t.children.len() {
                lemma_removal_paths_long(cid, s.children[i], t.children[i], parts[i]);
            } else {
                assert(parts[i][x] == PatchV::RemoveNode(cid));
            }
        }
        let pred = |p: PatchV| p is RemoveNode ==> patch_path(p).len() > id.len();
        assert forall|i: int, x: int|
            0 <= i < parts.len() && 0 <= x < parts[i].len() implies pred(
            #[trigger] parts[i][x],
        ) by {}
        lemma_flat_all(parts, pred);
        assert forall|j: int|
            0 <= j < ps.len() && ps[j] is RemoveNode implies patch_path(#[trigger] ps[j]).len()
            > id.len() by {
            if j < aps.len() {
                assert(ps[j] == aps[j]);
                assert(attr_patch_valid(id, s.attrs, t.attrs, aps[j]));
            } else if j < aps.len() + app.len() {
                assert(ps[j] == app[j - aps.len()]);
            } else {
                assert(ps[j] == flat(parts)[j - aps.len() - app.len()]);
                assert(pred(ps[j]));
            }
        }
    }
}

/// Every node of the tree has machine-representable arity, so child indices
/// round-trip through the path type.
pub open spec fn machine_sized(s: NodeV) -> bool
    decreases s,
{
    s.children.len() <= usize::MAX && forall|i: int|
        0 <= i < s.children.len() ==> machine_sized(#[trigger] s.children[i])
}

/// No node pair the diff recursion compares has more target children than
/// source children: the script contains no append patches. Appends are
/// addressed by the position the new child will take, which does not yet
/// resolve against the source shape, so a script with appends stops with an
/// error instead of round-tripping.
pub open spec fn no_appends(s: NodeV, t: NodeV) -> bool
    decreases s,
{
    s.tag != t.tag || (t.children.len() <= s.children.len() && forall|i: int|
        0 <= i < t.children.len() ==> no_appends(#[trigger] s.children[i], t.children[i]))
}

/// Replaying the per-child patch lists from child `i` on rewrites children
/// `i` up to the target count into the target's children, leaving all other
/// children alone.
proof fn lemma_apply_parts(
    tr: NodeV,
    id: Seq<usize>,
    s: NodeV,
    t: NodeV,
    parts: Seq<Seq<PatchV>>,
    i: int,
    cur: NodeV,
)
    requires
        s.tag == t.tag,
        no_appends(s, t),
        machine_sized(s),
        t.children.len() <= s.children.len(),
        parts.len() == s.children.len(),
        forall|x: int| 0 <= x < s.children.len() ==> child_part_ok(id, s, t, #[trigger] parts[x], x),
        0 <= i <= t.children.len(),
        lookup(tr, id) == Some(cur),
        cur.children.len() == s.children.len(),
        forall|x: int| i <= x < s.children.len() ==> cur.children[x] == #[trigger] s.children[x],
    ensures
        apply_all(normalize(flat(parts.subrange(i, t.children.len() as int))), tr) == Ok::<
            NodeV,
            ApplyError,
        >(
            update_at(
                tr,
                id,
                NodeV {
                    children: Seq::new(
                        cur.children.len(),
                        |x: int|
                            if i <= x < t.children.len() {
                                t.children[x]
                            } else {
                                cur.children[x]
                            },
                    ),
                    ..cur
                },
            ),
        ),
    decreases s, 0int, t.children.len() - i,
{
    let tl = t.children.len() as int;
    let fin = NodeV {
        children: Seq::new(
            cur.children.len(),
            |x: int|
                if i <= x < tl {
                    t.children[x]
                } else {
                    cur.children[x]
                },
        ),
        ..cur
    };
    if i == tl {
        assert(parts.subrange(i, tl).len() == 0);
        assert(flat(parts.subrange(i, tl)) =~= Seq::<PatchV>::empty());
        assert(normalize(Seq::<PatchV>::empty()) =~= Seq::<PatchV>::empty());
        assert(fin.children =~= cur.children);
        assert(fin =~= cur);
        lemma_update_self(tr, id, cur);
    } else {
        assert(child_part_ok(id, s, t, parts[i], i));
        let cid = id.push(i as usize);
        let sc = s.children[i];
        let tc = t.children[i];
        assert(is_diff(cid, sc, tc, parts[i]));
        let sub = parts.subrange(i, tl);
        assert(sub[0] == parts[i]);
        lemma_flat_front(sub);
        assert(sub.skip(1) =~= parts.subrange(i + 1, tl));
        let rest = flat(parts.subrange(i + 1, tl));
        // The boundary between this child's patches and the later
        // children's patches separates removal runs: their parents disagree
        // at the child index.
        lemma_paths_prefixed(cid, sc, tc, parts[i]);
        lemma_removal_paths_long(cid, sc, tc, parts[i]);
        assert forall|y: int|
            0 <= y < parts[i].len() && parts[i][y] is RemoveNode implies run_parent(
            #[trigger] parts[i][y],
        ) matches Some(pp) && pp.len() > id.len() && pp[id.len() as int] == i by {
            let pth = patch_path(parts[i][y]);
            assert(cid.is_prefix_of(pth));
            assert(pth.len() > cid.len());
            let pp = pth.drop_last();
            assert(pp.len() >= cid.len());
            assert forall|z: int| 0 <= z < cid.len() implies pp[z] == cid[z] by {
                assert(pth.subrange(0, cid.len() as int)[z] == cid[z]);
            }
            assert(pp[id.len() as int] == i);
            assert(run_parent(parts[i][y]) == Some(pp));
        }
        let predr = |p: PatchV|
            p is RemoveNode ==> (run_parent(p) matches Some(pp) && pp.len() > id.len()
                && pp[id.len() as int] != i);
        assert forall|x: int, y: int|
            0 <= x < parts.subrange(i + 1, tl).len() && 0 <= y < parts.subrange(i + 1, tl)[x].len()
            implies predr(#[trigger] parts.subrange(i + 1, tl)[x][y]) by {
            let xx = i + 1 + x;
            assert(parts.subrange(i + 1, tl)[x] == parts[xx]);
            assert(child_part_ok(id, s, t, parts[xx], xx));
            let cxx = id.push(xx as usize);
            let p = parts[xx][y];
            if p is RemoveNode {
                lemma_paths_prefixed(cxx, s.children[xx], t.children[xx], parts[xx]);
                lemma_removal_paths_long(cxx, s.children[xx], t.children[xx], parts[xx]);
                let pth = patch_path(p);
                assert(cxx.is_prefix_of(pth));
                assert(pth.len() > cxx.len());
                let pp = pth.drop_last();
                assert(pp.len() >= cxx.len());
                assert forall|z: int| 0 <= z < cxx.len() implies pp[z] == cxx[z] by {
                    assert(pth.subrange(0, cxx.len() as int)[z] == cxx[z]);
                }
                assert(pp[id.len() as int] == xx);
                assert(xx <= usize::MAX as int);
                assert(run_parent(p) == Some(pp));
            }
        }
        lemma_flat_all(parts.subrange(i + 1, tl), predr);
        assert(runs_separated(parts[i], rest)) by {
            if parts[i].len() > 0 && rest.len() > 0 {
                let la = parts[i].last();
                assert(la == parts[i][parts[i].len() - 1]);
                if la is RemoveNode && run_parent(rest[0]) == run_parent(la) {
                    assert(predr(rest[0]));
                    if rest[0] is RemoveNode {
                        assert(false);
                    } else {
                        assert(run_parent(rest[0]) is None);
                        assert(false);
                    }
                } else {
                    if !(la is RemoveNode) {
                        assert(run_parent(la) is None);
                    }
                }
            }
        }
        lemma_normalize_split(parts[i], rest);
        // Apply this child's patches, then the rest by induction.
        assert(cur.children[i] == sc);
        assert(i <= usize::MAX as int);
        lemma_lookup_child(tr, id, cur, i);
        lemma_apply_diff_at(tr, cid, sc, tc, parts[i]);
        let tr1 = update_at(tr, cid, tc);
        lemma_update_child_nest(tr, id, cur, i, tc);
        let cur1 = NodeV { children: cur.children.update(i, tc), ..cur };
        assert(tr1 == update_at(tr, id, cur1));
        lemma_lookup_update_same(tr, id, cur1);
        lemma_apply_parts(tr1, id, s, t, parts, i + 1, cur1);
        let fin1 = NodeV {
            children: Seq::new(
                cur1.children.len(),
                |x: int|
                    if i + 1 <= x < tl {
                        t.children[x]
                    } else {
                        cur1.children[x]
                    },
            ),
            ..cur1
        };
        assert(fin1.children =~= fin.children);
        assert(fin1 =~= fin);
        lemma_update_twice(tr, id, cur1, fin);
        lemma_apply_all_append(
            normalize(parts[i]),
            normalize(rest),
            tr,
            tr1,
        );
        assert(normalize(flat(sub)) == normalize(parts[i]) + normalize(rest));
    }
}

/// Round trip at a subtree: applying the normalized script the diff emitted
/// for a pair to a tree holding the source at that path replaces it by the
/// target.
pub proof fn lemma_apply_diff_at(tr: NodeV, id: Seq<usize>, s: NodeV, t: NodeV, ps: Seq<PatchV>)
    requires
        is_diff(id, s, t, ps),
        no_appends(s, t),
        machine_sized(s),
        lookup(tr, id) == Some(s),
    ensures
        apply_all(normalize(ps), tr) == Ok::<NodeV, ApplyError>(update_at(tr, id, t)),
    decreases s, 1int, 0int,
{
    if s.tag != t.tag {
        assert(ps == seq![PatchV::ReplaceNode(id, t)]);
        assert(run_parent(ps[0]) is None);
        lemma_normalize_single(ps);
        assert(ps.skip(1) =~= Seq::<PatchV>::empty());
        assert(normalize(Seq::<PatchV>::empty()) =~= Seq::<PatchV>::empty());
        assert(normalize(ps) =~= ps);
        lemma_apply_replace(tr, id, t);
        assert(apply_all(ps.skip(1), update_at(tr, id, t)) == Ok::<NodeV, ApplyError>(
            update_at(tr, id, t),
        ));
    } else {
        let (aps, parts) = is_diff_witnesses(id, s, t, ps);
        let tl = t.children.len() as int;
        let sl = s.children.len() as int;
        assert(appends_of(id, s, t) =~= Seq::<PatchV>::empty());
        assert(ps =~= aps + flat(parts));
        // Split the per-child section from the trailing removal run.
        lemma_flat_split(parts, tl);
        let pa = parts.subrange(0, tl);
        let pb = parts.subrange(tl, sl);
        assert forall|x: int|
            0 <= x < pb.len() implies #[trigger] pb[x] == seq![
            PatchV::RemoveNode(id.push((tl + x) as usize)),
        ] by {
            assert(pb[x] == parts[tl + x]);
            assert(child_part_ok(id, s, t, parts[tl + x], tl + x));
        }
        lemma_flat_singletons(pb, id, tl);
        let run_asc = Seq::new((sl - tl) as nat, |x: int| PatchV::RemoveNode(
            id.push((tl + x) as usize),
        ));
        assert(flat(pb) =~= run_asc);
        assert(ps =~= aps + (flat(pa) + run_asc));
        // The attribute section carries no removals; the boundary between
        // the per-child section and the trailing run separates runs.
        assert forall|j: int| 0 <= j < aps.len() implies run_parent(#[trigger] aps[j]) is None by {
            assert(attr_patch_valid(id, s.attrs, t.attrs, aps[j]));
        }
        lemma_normalize_none_prefix(aps, flat(pa) + run_asc);
        let predp = |p: PatchV|
            p is RemoveNode ==> (run_parent(p) matches Some(pp) && pp.len() > id.len());
        assert forall|x: int, y: int|
            0 <= x < pa.len() && 0 <= y < pa[x].len() implies predp(#[trigger] pa[x][y]) by {
            assert(pa[x] == parts[x]);
            assert(child_part_ok(id, s, t, parts[x], x));
            let cx = id.push(x as usize);
            let p = parts[x][y];
            if p is RemoveNode {
                lemma_removal_paths_long(cx, s.children[x], t.children[x], parts[x]);
                let pth = patch_path(p);
                assert(pth.len() > cx.len());
                assert(run_parent(p) == Some(pth.drop_last()));
            }
        }
        lemma_flat_all(pa, predp);
        assert forall|x: int| 0 <= x < run_asc.len() implies run_parent(#[trigger] run_asc[x])
            == Some(id) by {
            assert(id.push((tl + x) as usize).drop_last() =~= id);
        }
        assert(runs_separated(flat(pa), run_asc)) by {
            if flat(pa).len() > 0 && run_asc.len() > 0 {
                let la = flat(pa).last();
                assert(la == flat(pa)[flat(pa).len() - 1]);
                assert(predp(la));
                if la is RemoveNode && run_parent(run_asc[0]) == run_parent(la) {
                    assert(run_parent(la) == Some(id));
                    assert(false);
                } else {
                    if !(la is RemoveNode) {
                        assert(run_parent(la) is None);
                    }
                }
            }
        }
        lemma_normalize_split(flat(pa), run_asc);
        // The trailing ascending run reorders into the descending run.
        let ndesc = desc_removals(id, tl, sl);
        if sl > tl {
            lemma_run_len_is(run_asc, id, sl - tl);
            lemma_normalize_run(run_asc, id, sl - tl);
            assert(run_asc.subrange(0, sl - tl) =~= run_asc);
            assert(run_asc.skip(sl - tl) =~= Seq::<PatchV>::empty());
            assert(normalize(Seq::<PatchV>::empty()) =~= Seq::<PatchV>::empty());
            assert(run_asc.reverse() =~= ndesc);
            assert(normalize(run_asc) =~= ndesc);
        } else {
            assert(run_asc.len() == 0);
            assert(normalize(run_asc) =~= Seq::<PatchV>::empty());
            assert(ndesc.len() == 0);
            assert(normalize(run_asc) =~= ndesc);
        }
        assert(normalize(ps) == aps + (normalize(flat(pa)) + ndesc));
        // Replay: attributes, then children, then the trailing removals.
        assert forall|j: int| 0 <= j < aps.len() implies attr_pending(
            id,
            s.attrs,
            t.attrs,
            #[trigger] aps[j],
        ) by {
            assert(attr_patch_valid(id, s.attrs, t.attrs, aps[j]));
        }
        lemma_apply_attr_section(tr, id, s, t.attrs, aps);
        let sa2 = NodeV { attrs: t.attrs, ..s };
        let t1 = update_at(tr, id, sa2);
        lemma_lookup_update_same(tr, id, sa2);
        lemma_apply_all_append(aps, normalize(flat(pa)) + ndesc, tr, t1);
        lemma_apply_parts(t1, id, s, t, parts, 0, sa2);
        let node2 = NodeV {
            children: Seq::new(
                sa2.children.len(),
                |x: int|
                    if 0 <= x < tl {
                        t.children[x]
                    } else {
                        sa2.children[x]
                    },
            ),
            ..sa2
        };
        assert(pa =~= parts.subrange(0, tl));
        let t2 = update_at(t1, id, node2);
        lemma_lookup_update_same(t1, id, node2);
        lemma_apply_all_append(normalize(flat(pa)), ndesc, t1, t2);
        assert(node2.children.len() == sl);
        lemma_apply_desc_removals(t2, id, node2, tl);
        let node3 = NodeV { children: node2.children.subrange(0, tl), ..node2 };
        assert(node3.children =~= t.children);
        assert(node3 =~= t);
        lemma_update_twice(t1, id, node2, t);
        lemma_update_twice(tr, id, sa2, t);
    }
}

proof fn lemma_flat_decomp(parts: Seq<Seq<PatchV>>, j: int) -> (ix: (int, int))
    requires
        0 <= j < flat(parts).len(),
    ensures
        0 <= ix.0 < parts.len(),
        0 <= ix.1 < parts[ix.0].len(),
        flat(parts)[j] == parts[ix.0][ix.1],
        j == flat(parts.subrange(0, ix.0)).len() + ix.1,
    decreases parts.len(),
{
    assert(parts.len() > 0);
    let pd = parts.drop_last();
    if j < flat(pd).len() {
        let ix = lemma_flat_decomp(pd, j);
        assert(pd[ix.0] == parts[ix.0]);
        assert(pd.subrange(0, ix.0) =~= parts.subrange(0, ix.0));
        assert(flat(parts)[j] == flat(pd)[j]);
        ix
    } else {
        assert(flat(parts)[j] == parts.last()[j - flat(pd).len()]);
        assert(parts.last() == parts[parts.len() - 1]);
        assert(parts.subrange(0, parts.len() - 1) =~= pd);
        (parts.len() - 1, j - flat(pd).len())
    }
}

proof fn lemma_flat_contains(parts: Seq<Seq<PatchV>>, i: int, x: int)
    requires
        0 <= i < parts.len(),
        0 <= x < parts[i].len(),
    ensures
        flat(parts).contains(parts[i][x]),
    decreases parts.len(),
{
    let pd = parts.drop_last();
    if i < parts.len() - 1 {
        assert(pd[i] == parts[i]);
        lemma_flat_contains(pd, i, x);
        let jj = choose|jj: int| 0 <= jj < flat(pd).len() && flat(pd)[jj] == parts[i][x];
        assert(flat(parts)[jj] == parts[i][x]);
    } else {
        assert(parts.last() == parts[parts.len() - 1]);
        assert(flat(parts)[flat(pd).len() + x] == parts[i][x]);
    }
}

/// The pair of subtrees the diff recursion compares at a path, if it
/// descends that far: recursion continues only through equal-tag nodes at
/// indices both trees still have.
pub open spec fn diff_visits(s: NodeV, t: NodeV, q: Seq<usize>) -> Option<(NodeV, NodeV)>
    decreases q.len(),
{
    if q.len() == 0 {
        Some((s, t))
    } else if s.tag == t.tag && (q[0] as int) < s.children.len() && (q[0] as int)
        < t.children.len() {
        diff_visits(s.children[q[0] as int], t.children[q[0] as int], q.skip(1))
    } else {
        None
    }
}

/// Tag mismatch exclusivity: wherever the diff recursion meets two nodes
/// whose tags disagree, the script holds exactly one patch at or below that
/// path — a single replacement by the target subtree — regardless of any
/// attribute or child differences underneath.
pub proof fn lemma_tag_mismatch_exclusive(
    id: Seq<usize>,
    s: NodeV,
    t: NodeV,
    ps: Seq<PatchV>,
    q: Seq<usize>,
)
    requires
        is_diff(id, s, t, ps),
        machine_sized(s),
        machine_sized(t),
        diff_visits(s, t, q) is Some,
        (diff_visits(s, t, q)->Some_0).0.tag != (diff_visits(s, t, q)->Some_0).1.tag,
    ensures
        ps.contains(PatchV::ReplaceNode(id + q, (diff_visits(s, t, q)->Some_0).1)),
        forall|j: int|
            0 <= j < ps.len() && (id + q).is_prefix_of(patch_path(#[trigger] ps[j])) ==> ps[j]
                == PatchV::ReplaceNode(id + q, (diff_visits(s, t, q)->Some_0).1),
        forall|j1: int, j2: int|
            0 <= j1 < j2 < ps.len() ==> !(ps[j1] == PatchV::ReplaceNode(
                id + q,
                (diff_visits(s, t, q)->Some_0).1,
            ) && ps[j2] == PatchV::ReplaceNode(id + q, (diff_visits(s, t, q)->Some_0).1)),
    decreases q.len(),
{
    let t2 = (diff_visits(s, t, q)->Some_0).1;
    let idq = id + q;
    let rp = PatchV::ReplaceNode(idq, t2);
    if q.len() == 0 {
        assert(idq =~= id);
        assert(t2 == t);
        assert(ps == seq![PatchV::ReplaceNode(id, t)]);
        assert(ps[0] == rp);
        assert forall|j: int|
            0 <= j < ps.len() && (id + q).is_prefix_of(patch_path(#[trigger] ps[j])) implies ps[j]
            == rp by {}
    } else {
        assert(s.tag == t.tag);
        let q0 = q[0] as int;
        let (aps, parts) = is_diff_witnesses(id, s, t, ps);
        let app = appends_of(id, s, t);
        assert(child_part_ok(id, s, t, parts[q0], q0));
        let cid = id.push(q[0]);
        let sc = s.children[q0];
        let tc = t.children[q0];
        assert(is_diff(cid, sc, tc, parts[q0]));
        assert(diff_visits(sc, tc, q.skip(1)) == diff_visits(s, t, q));
        lemma_tag_mismatch_exclusive(cid, sc, tc, parts[q0], q.skip(1));
        assert(cid + q.skip(1) =~= idq);
        // The replacement is in this child's section.
        assert(parts[q0].contains(rp));
        let x0 = choose|x0: int| 0 <= x0 < parts[q0].len() && parts[q0][x0] == rp;
        lemma_flat_contains(parts, q0, x0);
        let jj = choose|jj: int| 0 <= jj < flat(parts).len() && flat(parts)[jj] == rp;
        assert(ps[aps.len() + app.len() + jj] == rp);
        assert(ps.contains(rp));
        // Nothing outside this child's section is addressed at or below the
        // mismatch path.
        assert(idq.len() > id.len());
        assert(idq[id.len() as int] == q[0]);
        assert forall|j: int|
            0 <= j < ps.len() && idq.is_prefix_of(patch_path(#[trigger] ps[j])) implies ps[j]
            == rp by {
            let pth = patch_path(ps[j]);
            assert(pth.subrange(0, idq.len() as int) == idq);
            assert(pth.len() >= idq.len());
            assert(pth[id.len() as int] == q[0]) by {
                assert(pth.subrange(0, idq.len() as int)[id.len() as int] == idq[id.len() as int]);
            }
            if j < aps.len() {
                assert(ps[j] == aps[j]);
                assert(attr_patch_valid(id, s.attrs, t.attrs, aps[j]));
                assert(pth == id);
                assert(false);
            } else if j < aps.len() + app.len() {
                let x = j - aps.len();
                assert(ps[j] == app[x]);
                assert(pth == id.push((s.children.len() + x) as usize));
                assert(pth[id.len() as int] == (s.children.len() + x) as usize);
                assert(q0 < s.children.len());
                assert(s.children.len() + x < t.children.len());
                assert(s.children.len() + x <= usize::MAX);
                assert(pth.len() == id.len() + 1);
                assert(idq.len() <= pth.len());
                assert(q.len() == 1);
                assert(q[0] as int == q0);
                assert(q0 < s.children.len() + x);
                assert(false);
            } else {
                let jf = j - aps.len() - app.len();
                assert(ps[j] == flat(parts)[jf]);
                let ix = lemma_flat_decomp(parts, jf);
                assert(child_part_ok(id, s, t, parts[ix.0], ix.0));
                let cx = id.push(ix.0 as usize);
                if ix.0 < t.children.len() {
                    lemma_paths_prefixed(cx, s.children[ix.0], t.children[ix.0], parts[ix.0]);
                    assert(cx.is_prefix_of(pth));
                    assert(pth.subrange(0, cx.len() as int)[id.len() as int] == cx[id.len() as int]);
                    assert(pth[id.len() as int] == ix.0 as usize);
                } else {
                    assert(parts[ix.0][ix.1] == PatchV::RemoveNode(cx));
                    assert(pth == cx);
                    assert(pth[id.len() as int] == ix.0 as usize);
                }
                assert(ix.0 <= usize::MAX as int);
                assert(ix.0 as usize == q[0]);
                assert(ix.0 == q0);
                assert(parts[q0][ix.1] == ps[j]);
            }
        }
        // And it occurs only once.
        assert forall|j1: int, j2: int| 0 <= j1 < j2 < ps.len() implies !(ps[j1] == rp && ps[j2]
            == rp) by {
            if ps[j1] == rp && ps[j2] == rp {
                assert(idq.is_prefix_of(patch_path(rp))) by {
                    assert(patch_path(rp).subrange(0, idq.len() as int) =~= idq);
                }
                assert(j1 >= aps.len() + app.len()) by {
                    if j1 < aps.len() {
                        assert(attr_patch_valid(id, s.attrs, t.attrs, aps[j1]));
                    } else if j1 < aps.len() + app.len() {
                        assert(ps[j1] == app[j1 - aps.len()]);
                    }
                }
                assert(j2 >= aps.len() + app.len()) by {
                    if j2 < aps.len() {
                        assert(attr_patch_valid(id, s.attrs, t.attrs, aps[j2]));
                    } else if j2 < aps.len() + app.len() {
                        assert(ps[j2] == app[j2 - aps.len()]);
                    }
                }
                let jf1 = j1 - aps.len() - app.len();
                let jf2 = j2 - aps.len() - app.len();
                assert(ps[j1] == flat(parts)[jf1]);
                assert(ps[j2] == flat(parts)[jf2]);
                let ix1 = lemma_flat_decomp(parts, jf1);
                let ix2 = lemma_flat_decomp(parts, jf2);
                assert(s.children.len() <= usize::MAX);
                lemma_part_holder(id, s, t, parts, ix1.0, ix1.1, rp, q0, q[0]);
                assert(ix1.0 == q0);
                lemma_part_holder(id, s, t, parts, ix2.0, ix2.1, rp, q0, q[0]);
                assert(ix2.0 == q0);
                assert(ix1.1 != ix2.1);
                if ix1.1 < ix2.1 {
                    assert(!(parts[q0][ix1.1] == rp && parts[q0][ix2.1] == rp));
                } else {
                    assert(!(parts[q0][ix2.1] == rp && parts[q0][ix1.1] == rp));
                }
                assert(false);
            }
        }
    }
}

/// A patch whose path passes through child `q0` can only come from child
/// `q0`'s section of the script.
proof fn lemma_part_holder(
    id: Seq<usize>,
    s: NodeV,
    t: NodeV,
    parts: Seq<Seq<PatchV>>,
    i: int,
    x: int,
    p: PatchV,
    q0: int,
    q0u: usize,
)
    requires
        s.tag == t.tag,
        parts.len() == s.children.len(),
        forall|ii: int|
            0 <= ii < s.children.len() ==> child_part_ok(id, s, t, #[trigger] parts[ii], ii),
        0 <= i < parts.len(),
        0 <= x < parts[i].len(),
        parts[i][x] == p,
        patch_path(p).len() > id.len(),
        patch_path(p)[id.len() as int] == q0u,
        q0 == q0u as int,
        0 <= q0 < parts.len(),
        s.children.len() <= usize::MAX,
    ensures
        i == q0,
{
    assert(i <= usize::MAX as int);
    assert(child_part_ok(id, s, t, parts[i], i));
    let cx = id.push(i as usize);
    let pth = patch_path(p);
    if i < t.children.len() {
        lemma_paths_prefixed(cx, s.children[i], t.children[i], parts[i]);
        assert(cx.is_prefix_of(pth));
        assert(pth.subrange(0, cx.len() as int)[id.len() as int] == cx[id.len() as int]);
        assert(pth[id.len() as int] == i as usize);
    } else {
        assert(parts[i][x] == PatchV::RemoveNode(cx));
        assert(pth == cx);
        assert(pth[id.len() as int] == i as usize);
    }
    assert(i as usize == q0u);
}

/// Round trip: replaying the script the diff engine produced against the
/// source tree yields the target tree, for every source/target pair whose
/// comparison asks for no trailing appends (see [`no_appends`]) and whose
/// source has machine-representable arity everywhere.
pub proof fn lemma_round_trip(s: NodeV, t: NodeV, ps: Seq<PatchV>)
    requires
        is_diff(Seq::empty(), s, t, ps),
        no_appends(s, t),
        machine_sized(s),
    ensures
        apply_script(ps, s) == Ok::<NodeV, ApplyError>(t),
{
    assert(lookup(s, Seq::<usize>::empty()) == Some(s));
    lemma_apply_diff_at(s, Seq::empty(), s, t, ps);
    assert(update_at(s, Seq::<usize>::empty(), t) == t);
}

} // verus!
