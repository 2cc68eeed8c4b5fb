use vstd::prelude::*;

use crate::dom::clone_id;
use crate::dom::lemma_children_view_push;
use crate::dom::lemma_children_view_remove;
use crate::dom::lemma_children_view_update;
use crate::dom::lemma_node_child_view;
use crate::dom::lemma_node_view_len;
use crate::dom::Attribute;
use crate::dom::AttrV;
use crate::dom::Id;
use crate::dom::Node;
use crate::dom::NodeV;

verus! {

broadcast use vstd::std_specs::vec::group_vec_axioms;

/// One edit operation, addressed by a path into the tree it was computed
/// against.
#[derive(Debug)]
pub enum Patch {
    /// Delete the child addressed by the path; the path must be non-empty.
    RemoveNode(Id),
    /// Append the node as the new last child of the node addressed by the
    /// path.
    AppendNode(Id, Node),
    /// Replace the node addressed by the path (the root is allowed).
    ReplaceNode(Id, Node),
    /// Delete the named attribute of the node addressed by the path, if
    /// present.
    RemoveAttribute(Id, String),
    /// Insert or overwrite the named attribute of the node addressed by the
    /// path.
    SetAttribute(Id, String, Attribute),
}

/// The mathematical value of a [`Patch`].
#[verifier::ext_equal]
pub enum PatchV {
    RemoveNode(Seq<usize>),
    AppendNode(Seq<usize>, NodeV),
    ReplaceNode(Seq<usize>, NodeV),
    RemoveAttribute(Seq<usize>, Seq<char>),
    SetAttribute(Seq<usize>, Seq<char>, AttrV),
}

impl View for Patch {
    type V = PatchV;

    open spec fn view(&self) -> PatchV {
        match self {
            Patch::RemoveNode(id) => PatchV::RemoveNode(id@),
            Patch::AppendNode(id, n) => PatchV::AppendNode(id@, n@),
            Patch::ReplaceNode(id, n) => PatchV::ReplaceNode(id@, n@),
            Patch::RemoveAttribute(id, k) => PatchV::RemoveAttribute(id@, k@),
            Patch::SetAttribute(id, k, v) => PatchV::SetAttribute(id@, k@, v@),
        }
    }
}

/// The values of a patch list, in order.
pub open spec fn patches_view(s: Seq<Patch>) -> Seq<PatchV> {
    s.map_values(|p: Patch| p@)
}

pub proof fn lemma_patches_view_push(s: Seq<Patch>, p: Patch)
    ensures
        patches_view(s.push(p)) == patches_view(s).push(p@),
{
    assert(patches_view(s.push(p)) =~= patches_view(s).push(p@));
}

impl Clone for Patch {
    fn clone(&self) -> (r: Self)
        ensures
            r@ == self@,
    {
        match self {
            Patch::RemoveNode(id) => Patch::RemoveNode(clone_id(id)),
            Patch::AppendNode(id, n) => Patch::AppendNode(clone_id(id), n.clone()),
            Patch::ReplaceNode(id, n) => Patch::ReplaceNode(clone_id(id), n.clone()),
            Patch::RemoveAttribute(id, k) => Patch::RemoveAttribute(clone_id(id), k.clone()),
            Patch::SetAttribute(id, k, v) => Patch::SetAttribute(
                clone_id(id),
                k.clone(),
                v.clone(),
            ),
        }
    }
}

/// Equality of two paths, by content.
fn ids_eq(a: &Id, b: &Id) -> (r: bool)
    ensures
        r == (a@ == b@),
{
    if a.len() != b.len() {
        return false;
    }
    let mut i: usize = 0;
    while i < a.len()
        invariant
            a@.len() == b@.len(),
            i <= a@.len(),
            forall|j: int| 0 <= j < i ==> a@[j] == b@[j],
        decreases a@.len() - i,
    {
        if a[i] != b[i] {
            return false;
        }
        i = i + 1;
    }
    proof {
        assert(a@ =~= b@);
    }
    true
}

impl PartialEq for Patch {
    fn eq(&self, other: &Patch) -> (r: bool) {
        match (self, other) {
            (Patch::RemoveNode(a), Patch::RemoveNode(b)) => ids_eq(a, b),
            (Patch::AppendNode(a, n), Patch::AppendNode(b, m)) => ids_eq(a, b) && *n == *m,
            (Patch::ReplaceNode(a, n), Patch::ReplaceNode(b, m)) => ids_eq(a, b) && *n == *m,
            (Patch::RemoveAttribute(a, k), Patch::RemoveAttribute(b, l)) => ids_eq(a, b) && *k
                == *l,
            (Patch::SetAttribute(a, k, v), Patch::SetAttribute(b, l, w)) => ids_eq(a, b) && *k
                == *l && *v == *w,
            _ => false,
        }
    }
}

impl vstd::std_specs::cmp::PartialEqSpecImpl for Patch {
    open spec fn obeys_eq_spec() -> bool {
        true
    }

    open spec fn eq_spec(&self, other: &Patch) -> bool {
        self@ == other@
    }
}

/// Why a patch script could not be replayed.
#[derive(Debug, PartialEq, Eq, Structural, Clone, Copy)]
pub enum ApplyError {
    /// A node removal addressed the root.
    RootRemoval,
    /// Navigating to the parent of the addressed node failed before the
    /// final step.
    MissingParent,
    /// The final index of a removal or replacement is out of range on an
    /// otherwise valid parent.
    MissingChild,
    /// Navigating to the node addressed by an append or attribute patch
    /// failed.
    MissingNode,
}

/// The path a patch carries.
pub open spec fn patch_path(p: PatchV) -> Seq<usize> {
    match p {
        PatchV::RemoveNode(q) => q,
        PatchV::AppendNode(q, _) => q,
        PatchV::ReplaceNode(q, _) => q,
        PatchV::RemoveAttribute(q, _) => q,
        PatchV::SetAttribute(q, _, _) => q,
    }
}

/// The same patch, re-addressed.
pub open spec fn patch_with_path(p: PatchV, q: Seq<usize>) -> PatchV {
    match p {
        PatchV::RemoveNode(_) => PatchV::RemoveNode(q),
        PatchV::AppendNode(_, n) => PatchV::AppendNode(q, n),
        PatchV::ReplaceNode(_, n) => PatchV::ReplaceNode(q, n),
        PatchV::RemoveAttribute(_, k) => PatchV::RemoveAttribute(q, k),
        PatchV::SetAttribute(_, k, v) => PatchV::SetAttribute(q, k, v),
    }
}

/// What one patch does to a tree: descend along the patch's path and perform
/// the edit, or report why the path does not resolve.
pub open spec fn apply_patch(p: PatchV, t: NodeV) -> Result<NodeV, ApplyError>
    decreases patch_path(p).len(),
{
    match p {
        PatchV::RemoveNode(q) => {
            if q.len() == 0 {
                Err(ApplyError::RootRemoval)
            } else if q.len() == 1 {
                if (q[0] as int) < t.children.len() {
                    Ok(NodeV { children: t.children.remove(q[0] as int), ..t })
                } else {
                    Err(ApplyError::MissingChild)
                }
            } else {
                if (q[0] as int) < t.children.len() {
                    match apply_patch(PatchV::RemoveNode(q.skip(1)), t.children[q[0] as int]) {
                        Ok(c) => Ok(NodeV { children: t.children.update(q[0] as int, c), ..t }),
                        Err(e) => Err(e),
                    }
                } else {
                    Err(ApplyError::MissingParent)
                }
            }
        },
        PatchV::ReplaceNode(q, n) => {
            if q.len() == 0 {
                Ok(n)
            } else if q.len() == 1 {
                if (q[0] as int) < t.children.len() {
                    Ok(NodeV { children: t.children.update(q[0] as int, n), ..t })
                } else {
                    Err(ApplyError::MissingChild)
                }
            } else {
                if (q[0] as int) < t.children.len() {
                    match apply_patch(PatchV::ReplaceNode(q.skip(1), n), t.children[q[0] as int]) {
                        Ok(c) => Ok(NodeV { children: t.children.update(q[0] as int, c), ..t }),
                        Err(e) => Err(e),
                    }
                } else {
                    Err(ApplyError::MissingParent)
                }
            }
        },
        PatchV::AppendNode(q, n) => {
            if q.len() == 0 {
                Ok(NodeV { children: t.children.push(n), ..t })
            } else {
                if (q[0] as int) < t.children.len() {
                    match apply_patch(PatchV::AppendNode(q.skip(1), n), t.children[q[0] as int]) {
                        Ok(c) => Ok(NodeV { children: t.children.update(q[0] as int, c), ..t }),
                        Err(e) => Err(e),
                    }
                } else {
                    Err(ApplyError::MissingNode)
                }
            }
        },
        PatchV::RemoveAttribute(q, k) => {
            if q.len() == 0 {
                Ok(NodeV { attrs: t.attrs.remove(k), ..t })
            } else {
                if (q[0] as int) < t.children.len() {
                    match apply_patch(
                        PatchV::RemoveAttribute(q.skip(1), k),
                        t.children[q[0] as int],
                    ) {
                        Ok(c) => Ok(NodeV { children: t.children.update(q[0] as int, c), ..t }),
                        Err(e) => Err(e),
                    }
                } else {
                    Err(ApplyError::MissingNode)
                }
            }
        },
        PatchV::SetAttribute(q, k, v) => {
            if q.len() == 0 {
                Ok(NodeV { attrs: t.attrs.insert(k, v), ..t })
            } else {
                if (q[0] as int) < t.children.len() {
                    match apply_patch(
                        PatchV::SetAttribute(q.skip(1), k, v),
                        t.children[q[0] as int],
                    ) {
                        Ok(c) => Ok(NodeV { children: t.children.update(q[0] as int, c), ..t }),
                        Err(e) => Err(e),
                    }
                } else {
                    Err(ApplyError::MissingNode)
                }
            }
        },
    }
}

/// What a patch list does to a tree when replayed in order, stopping at the
/// first error.
pub open spec fn apply_all(ps: Seq<PatchV>, t: NodeV) -> Result<NodeV, ApplyError>
    decreases ps.len(),
{
    if ps.len() == 0 {
        Ok(t)
    } else {
        match apply_patch(ps[0], t) {
            Ok(t2) => apply_all(ps.skip(1), t2),
            Err(e) => Err(e),
        }
    }
}

/// The parent a removal patch addresses: its path without the final index.
/// Anything else, including a removal of the root, has no such parent.
pub open spec fn run_parent(p: PatchV) -> Option<Seq<usize>> {
    match p {
        PatchV::RemoveNode(q) => if q.len() > 0 {
            Some(q.drop_last())
        } else {
            None
        },
        _ => None,
    }
}

/// The length of the leading run of removal patches that address children of
/// `par`.
pub open spec fn run_len(ps: Seq<PatchV>, par: Seq<usize>) -> int
    decreases ps.len(),
{
    if ps.len() > 0 && run_parent(ps[0]) == Some(par) {
        1 + run_len(ps.skip(1), par)
    } else {
        0
    }
}

pub proof fn lemma_run_len_bounds(ps: Seq<PatchV>, par: Seq<usize>)
    ensures
        0 <= run_len(ps, par) <= ps.len(),
    decreases ps.len(),
{
    if ps.len() > 0 && run_parent(ps[0]) == Some(par) {
        lemma_run_len_bounds(ps.skip(1), par);
    }
}

/// Paths are positional, so replaying several removals under one parent in
/// the ascending order the diff engine emits them would shift later siblings
/// under the earlier targets. The apply engine therefore replays each
/// consecutive run of same-parent removals in descending index order; this
/// reordering is what `normalize` denotes, and it leaves every other patch,
/// and the relative order of everything else, untouched.
pub open spec fn normalize(ps: Seq<PatchV>) -> Seq<PatchV>
    decreases ps.len(),
    via normalize_decreases
{
    if ps.len() == 0 {
        Seq::empty()
    } else {
        match run_parent(ps[0]) {
            Some(par) => ps.subrange(0, run_len(ps, par)).reverse() + normalize(
                ps.skip(run_len(ps, par)),
            ),
            None => seq![ps[0]] + normalize(ps.skip(1)),
        }
    }
}

#[via_fn]
proof fn normalize_decreases(ps: Seq<PatchV>) {
    if ps.len() > 0 {
        match run_parent(ps[0]) {
            Some(par) => {
                lemma_run_len_bounds(ps.skip(1), par);
                assert(run_len(ps, par) == 1 + run_len(ps.skip(1), par));
            },
            None => {},
        }
    }
}

/// What a patch list does to a tree under the removal-run reordering
/// described at [`normalize`]. This is the contract of [`apply`].
pub open spec fn apply_script(ps: Seq<PatchV>, t: NodeV) -> Result<NodeV, ApplyError> {
    apply_all(normalize(ps), t)
}

pub proof fn lemma_run_len_is(s: Seq<PatchV>, par: Seq<usize>, n: int)
    requires
        0 <= n <= s.len(),
        forall|k: int| 0 <= k < n ==> run_parent(#[trigger] s[k]) == Some(par),
        n == s.len() || run_parent(s[n]) != Some(par),
    ensures
        run_len(s, par) == n,
    decreases n,
{
    if n == 0 {
    } else {
        assert(run_parent(s[0]) == Some(par));
        assert forall|k: int| 0 <= k < n - 1 implies run_parent(#[trigger] s.skip(1)[k]) == Some(
            par,
        ) by {
            assert(s.skip(1)[k] == s[k + 1]);
        }
        if n - 1 < s.skip(1).len() {
            assert(s.skip(1)[n - 1] == s[n]);
        }
        lemma_run_len_is(s.skip(1), par, n - 1);
    }
}

pub proof fn lemma_normalize_run(ps: Seq<PatchV>, par: Seq<usize>, n: int)
    requires
        ps.len() > 0,
        run_parent(ps[0]) == Some(par),
        n == run_len(ps, par),
    ensures
        normalize(ps) == ps.subrange(0, n).reverse() + normalize(ps.skip(n)),
{
}

pub proof fn lemma_normalize_single(ps: Seq<PatchV>)
    requires
        ps.len() > 0,
        run_parent(ps[0]) == None::<Seq<usize>>,
    ensures
        normalize(ps) == seq![ps[0]] + normalize(ps.skip(1)),
{
}

/// Whether `b` is a removal addressing a child of the same parent as the
/// removal `a`.
fn same_run(a: &Patch, b: &Patch) -> (r: bool)
    ensures
        r == (run_parent(a@) is Some && run_parent(b@) == run_parent(a@)),
{
    match (a, b) {
        (Patch::RemoveNode(qa), Patch::RemoveNode(qb)) => {
            if qa.len() == 0 || qb.len() == 0 {
                return false;
            }
            proof {
                assert(run_parent(a@) == Some(qa@.drop_last()));
                assert(run_parent(b@) == Some(qb@.drop_last()));
            }
            if qa.len() != qb.len() {
                proof {
                    assert(qa@.drop_last().len() != qb@.drop_last().len());
                    assert(qa@.drop_last() != qb@.drop_last());
                }
                return false;
            }
            let mut x: usize = 0;
            let n = qa.len() - 1;
            while x < n
                invariant
                    run_parent(a@) == Some(qa@.drop_last()),
                    run_parent(b@) == Some(qb@.drop_last()),
                    qa@.len() == qb@.len(),
                    n == qa@.len() - 1,
                    x <= n,
                    forall|y: int| 0 <= y < x ==> qa@[y] == qb@[y],
                decreases n - x,
            {
                if qa[x] != qb[x] {
                    proof {
                        assert(qa@.drop_last()[x as int] != qb@.drop_last()[x as int]);
                        assert(qa@.drop_last() != qb@.drop_last());
                    }
                    return false;
                }
                x = x + 1;
            }
            proof {
                assert(qa@.drop_last() =~= qb@.drop_last());
            }
            true
        },
        _ => false,
    }
}

/// Replays removal runs in descending index order, as [`normalize`] denotes:
/// each maximal consecutive run of removals under one parent is reversed,
/// and everything else keeps its place.
fn reorder_removals(patches: &Vec<Patch>) -> (r: Vec<Patch>)
    ensures
        patches_view(r@) == normalize(patches_view(patches@)),
{
    let ghost all = patches_view(patches@);
    let mut out: Vec<Patch> = Vec::new();
    let mut i: usize = 0;
    proof {
        assert(patches_view(out@) =~= Seq::<PatchV>::empty());
        assert(all.skip(0) =~= all);
        assert(patches_view(out@) + normalize(all.skip(0)) =~= normalize(all));
    }
    while i < patches.len()
        invariant
            i <= patches@.len(),
            all == patches_view(patches@),
            normalize(all) == patches_view(out@) + normalize(all.skip(i as int)),
        decreases patches@.len() - i,
    {
        proof {
            assert(all[i as int] == patches@[i as int]@);
        }
        let is_run_start = match &patches[i] {
            Patch::RemoveNode(q) => q.len() > 0,
            _ => false,
        };
        if is_run_start {
            let ghost par = run_parent(all[i as int])->Some_0;
            let mut j: usize = i + 1;
            while j < patches.len()
                invariant_except_break
                    i < j <= patches@.len(),
                    all == patches_view(patches@),
                    run_parent(all[i as int]) == Some(par),
                    forall|k: int| i <= k < j ==> run_parent(#[trigger] all[k]) == Some(par),
                ensures
                    i < j <= patches@.len(),
                    forall|k: int| i <= k < j ==> run_parent(#[trigger] all[k]) == Some(par),
                    j == patches@.len() || run_parent(all[j as int]) != Some(par),
                decreases patches@.len() - j,
            {
                proof {
                    assert(all[j as int] == patches@[j as int]@);
                }
                if !same_run(&patches[i], &patches[j]) {
                    break;
                }
                j = j + 1;
            }
            proof {
                assert forall|k: int| 0 <= k < j - i implies run_parent(
                    #[trigger] all.skip(i as int)[k],
                ) == Some(par) by {
                    assert(all.skip(i as int)[k] == all[i + k]);
                }
                if (j as int) - (i as int) < all.skip(i as int).len() {
                    assert(all.skip(i as int)[j - i] == all[j as int]);
                }
                lemma_run_len_is(all.skip(i as int), par, j - i);
                assert(all.skip(i as int)[0] == all[i as int]);
                lemma_normalize_run(all.skip(i as int), par, j - i);
                assert(all.skip(i as int).subrange(0, j - i) =~= all.subrange(i as int, j as int));
                assert(all.skip(i as int).skip(j - i) =~= all.skip(j as int));
            }
            let ghost out0 = out@;
            let mut k: usize = j;
            while k > i
                invariant
                    i <= k,
                    k <= j,
                    j <= patches@.len(),
                    all == patches_view(patches@),
                    patches_view(out@) == patches_view(out0) + all.subrange(
                        k as int,
                        j as int,
                    ).reverse(),
                decreases k - i,
            {
                k = k - 1;
                let ghost outb = out@;
                out.push(patches[k].clone());
                proof {
                    lemma_patches_view_push(outb, out@.last());
                    assert(out@.drop_last() == outb);
                    assert(all[k as int] == patches@[k as int]@);
                    assert(all.subrange(k as int, j as int).reverse() =~= all.subrange(
                        k as int + 1,
                        j as int,
                    ).reverse().push(all[k as int]));
                    assert(patches_view(out@) =~= patches_view(outb).push(all[k as int]));
                }
            }
            proof {
                assert(patches_view(out0) + (all.subrange(i as int, j as int).reverse()
                    + normalize(all.skip(j as int))) =~= (patches_view(out0) + all.subrange(
                    i as int,
                    j as int,
                ).reverse()) + normalize(all.skip(j as int)));
            }
            i = j;
        } else {
            let ghost out0 = out@;
            out.push(patches[i].clone());
            proof {
                lemma_patches_view_push(out0, out@.last());
                assert(out@.drop_last() == out0);
                assert(run_parent(all[i as int]) == None::<Seq<usize>>);
                assert(all.skip(i as int)[0] == all[i as int]);
                lemma_normalize_single(all.skip(i as int));
                assert(all.skip(i as int).skip(1) =~= all.skip(i as int + 1));
                assert(patches_view(out@) =~= patches_view(out0).push(all[i as int]));
                assert(patches_view(out0) + (seq![all[i as int]] + normalize(
                    all.skip(i as int + 1),
                )) =~= patches_view(out0).push(all[i as int]) + normalize(all.skip(i as int + 1)));
            }
            i = i + 1;
        }
    }
    proof {
        assert(all.skip(patches@.len() as int) =~= Seq::<PatchV>::empty());
        assert(patches_view(out@) + normalize(Seq::<PatchV>::empty()) =~= patches_view(out@));
    }
    out
}

/// The patch a depth-`d` descent still has to perform: the same edit,
/// re-addressed by the remaining path.
pub open spec fn patch_at_depth(p: PatchV, d: int) -> PatchV {
    patch_with_path(p, patch_path(p).skip(d))
}

pub open spec fn res_matches(r: Result<Node, ApplyError>, s: Result<NodeV, ApplyError>) -> bool {
    match r {
        Ok(n) => s == Ok::<NodeV, ApplyError>(n@),
        Err(e) => s == Err::<NodeV, ApplyError>(e),
    }
}

pub proof fn lemma_patch_at_zero(p: PatchV)
    ensures
        patch_at_depth(p, 0) == p,
{
    assert(patch_path(p).skip(0) =~= patch_path(p));
}

/// Performs the edit a patch describes, having already descended `d` steps
/// of its path.
fn apply_one(p: &Patch, d: usize, t: Node) -> (r: Result<Node, ApplyError>)
    requires
        d <= patch_path(p@).len(),
    ensures
        res_matches(r, apply_patch(patch_at_depth(p@, d as int), t@)),
    decreases patch_path(p@).len() - d,
{
    let ghost t0 = t;
    let mut t = t;
    proof {
        lemma_node_view_len(t0);
    }
    match p {
        Patch::RemoveNode(path) => {
            let ghost q = path@.skip(d as int);
            if path.len() == d {
                Err(ApplyError::RootRemoval)
            } else if path.len() == d + 1 {
                let j = path[d];
                proof {
                    assert(q.len() == 1);
                    assert(q[0] == path@[d as int]);
                }
                if j < t.children.len() {
                    t.children.remove(j);
                    proof {
                        lemma_children_view_remove(t0.children@, j as int);
                        assert(t@ =~= (NodeV {
                            children: t0@.children.remove(j as int),
                            ..t0@
                        }));
                    }
                    Ok(t)
                } else {
                    Err(ApplyError::MissingChild)
                }
            } else {
                let i = path[d];
                proof {
                    assert(q.len() >= 2);
                    assert(q[0] == path@[d as int]);
                }
                if i < t.children.len() {
                    let c = t.children[i].clone();
                    proof {
                        lemma_node_child_view(t0, i as int);
                        assert(c@ == t0@.children[i as int]);
                        assert(q.skip(1) =~= path@.skip(d as int + 1));
                    }
                    match apply_one(p, d + 1, c) {
                        Ok(c2) => {
                            let ghost c2g = c2;
                            t.children.set(i, c2);
                            proof {
                                lemma_children_view_update(t0.children@, i as int, c2g);
                                assert(t@ =~= (NodeV {
                                    children: t0@.children.update(i as int, c2g@),
                                    ..t0@
                                }));
                            }
                            Ok(t)
                        },
                        Err(e) => Err(e),
                    }
                } else {
                    Err(ApplyError::MissingParent)
                }
            }
        },
        Patch::ReplaceNode(path, node) => {
            let ghost q = path@.skip(d as int);
            if path.len() == d {
                Ok(node.clone())
            } else if path.len() == d + 1 {
                let j = path[d];
                proof {
                    assert(q.len() == 1);
                    assert(q[0] == path@[d as int]);
                }
                if j < t.children.len() {
                    let c = node.clone();
                    let ghost cg = c;
                    t.children.set(j, c);
                    proof {
                        lemma_children_view_update(t0.children@, j as int, cg);
                        assert(t@ =~= (NodeV {
                            children: t0@.children.update(j as int, cg@),
                            ..t0@
                        }));
                    }
                    Ok(t)
                } else {
                    Err(ApplyError::MissingChild)
                }
            } else {
                let i = path[d];
                proof {
                    assert(q.len() >= 2);
                    assert(q[0] == path@[d as int]);
                }
                if i < t.children.len() {
                    let c = t.children[i].clone();
                    proof {
                        lemma_node_child_view(t0, i as int);
                        assert(c@ == t0@.children[i as int]);
                        assert(q.skip(1) =~= path@.skip(d as int + 1));
                    }
                    match apply_one(p, d + 1, c) {
                        Ok(c2) => {
                            let ghost c2g = c2;
                            t.children.set(i, c2);
                            proof {
                                lemma_children_view_update(t0.children@, i as int, c2g);
                                assert(t@ =~= (NodeV {
                                    children: t0@.children.update(i as int, c2g@),
                                    ..t0@
                                }));
                            }
                            Ok(t)
                        },
                        Err(e) => Err(e),
                    }
                } else {
                    Err(ApplyError::MissingParent)
                }
            }
        },
        Patch::AppendNode(path, node) => {
            let ghost q = path@.skip(d as int);
            if path.len() == d {
                let c = node.clone();
                let ghost cg = c;
                t.children.push(c);
                proof {
                    lemma_children_view_push(t0.children@, cg);
                    assert(t@ =~= (NodeV { children: t0@.children.push(cg@), ..t0@ }));
                }
                Ok(t)
            } else {
                let i = path[d];
                proof {
                    assert(q.len() >= 1);
                    assert(q[0] == path@[d as int]);
                }
                if i < t.children.len() {
                    let c = t.children[i].clone();
                    proof {
                        lemma_node_child_view(t0, i as int);
                        assert(c@ == t0@.children[i as int]);
                        assert(q.skip(1) =~= path@.skip(d as int + 1));
                    }
                    match apply_one(p, d + 1, c) {
                        Ok(c2) => {
                            let ghost c2g = c2;
                            t.children.set(i, c2);
                            proof {
                                lemma_children_view_update(t0.children@, i as int, c2g);
                                assert(t@ =~= (NodeV {
                                    children: t0@.children.update(i as int, c2g@),
                                    ..t0@
                                }));
                            }
                            Ok(t)
                        },
                        Err(e) => Err(e),
                    }
                } else {
                    Err(ApplyError::MissingNode)
                }
            }
        },
        Patch::RemoveAttribute(path, key) => {
            let ghost q = path@.skip(d as int);
            if path.len() == d {
                t.attributes.remove(key);
                proof {
                    assert(t@ =~= (NodeV { attrs: t0@.attrs.remove(key@), ..t0@ }));
                }
                Ok(t)
            } else {
                let i = path[d];
                proof {
                    assert(q.len() >= 1);
                    assert(q[0] == path@[d as int]);
                }
                if i < t.children.len() {
                    let c = t.children[i].clone();
                    proof {
                        lemma_node_child_view(t0, i as int);
                        assert(c@ == t0@.children[i as int]);
                        assert(q.skip(1) =~= path@.skip(d as int + 1));
                    }
                    match apply_one(p, d + 1, c) {
                        Ok(c2) => {
                            let ghost c2g = c2;
                            t.children.set(i, c2);
                            proof {
                                lemma_children_view_update(t0.children@, i as int, c2g);
                                assert(t@ =~= (NodeV {
                                    children: t0@.children.update(i as int, c2g@),
                                    ..t0@
                                }));
                            }
                            Ok(t)
                        },
                        Err(e) => Err(e),
                    }
                } else {
                    Err(ApplyError::MissingNode)
                }
            }
        },
        Patch::SetAttribute(path, key, value) => {
            let ghost q = path@.skip(d as int);
            if path.len() == d {
                t.attributes.insert(key.clone(), value.clone());
                proof {
                    assert(t@ =~= (NodeV { attrs: t0@.attrs.insert(key@, value@), ..t0@ }));
                }
                Ok(t)
            } else {
                let i = path[d];
                proof {
                    assert(q.len() >= 1);
                    assert(q[0] == path@[d as int]);
                }
                if i < t.children.len() {
                    let c = t.children[i].clone();
                    proof {
                        lemma_node_child_view(t0, i as int);
                        assert(c@ == t0@.children[i as int]);
                        assert(q.skip(1) =~= path@.skip(d as int + 1));
                    }
                    match apply_one(p, d + 1, c) {
                        Ok(c2) => {
                            let ghost c2g = c2;
                            t.children.set(i, c2);
                            proof {
                                lemma_children_view_update(t0.children@, i as int, c2g);
                                assert(t@ =~= (NodeV {
                                    children: t0@.children.update(i as int, c2g@),
                                    ..t0@
                                }));
                            }
                            Ok(t)
                        },
                        Err(e) => Err(e),
                    }
                } else {
                    Err(ApplyError::MissingNode)
                }
            }
        },
    }
}

/// Replays a patch script against a tree, in order, stopping at the first
/// error; on an error the partially edited working copy is discarded, so a
/// caller never observes a half-applied result. Consecutive same-parent
/// removal runs are replayed in descending index order (see [`normalize`]).
#[verifier::loop_isolation(false)]
pub fn apply(patches: Vec<Patch>, src: Node) -> (r: Result<Node, ApplyError>)
    ensures
        res_matches(r, apply_script(patches_view(patches@), src@)),
{
    let ghost ops = normalize(patches_view(patches@));
    let ghost s0 = src@;
    let ordered = reorder_removals(&patches);
    let mut tar = src;
    let mut idx: usize = 0;
    proof {
        assert(ops.skip(0) =~= ops);
    }
    while idx < ordered.len()
        invariant
            idx <= ordered@.len(),
            ops == patches_view(ordered@),
            apply_all(ops, s0) == apply_all(ops.skip(idx as int), tar@),
        decreases ordered@.len() - idx,
    {
        proof {
            assert(ops[idx as int] == ordered@[idx as int]@);
            assert(ops.skip(idx as int)[0] == ops[idx as int]);
            lemma_patch_at_zero(ordered@[idx as int]@);
            assert(ops.skip(idx as int).skip(1) =~= ops.skip(idx as int + 1));
        }
        let t = tar;
        match apply_one(&ordered[idx], 0, t) {
            Ok(n) => {
                tar = n;
            },
            Err(e) => {
                proof {
                    assert(apply_patch(ops.skip(idx as int)[0], t@) == Err::<NodeV, ApplyError>(
                        e,
                    ));
                    assert(apply_all(ops.skip(idx as int), t@) == Err::<NodeV, ApplyError>(e));
                    assert(apply_all(ops, s0) == Err::<NodeV, ApplyError>(e));
                }
                return Err(e);
            },
        }
        idx = idx + 1;
    }
    proof {
        assert(ops.skip(ordered@.len() as int) =~= Seq::<PatchV>::empty());
    }
    Ok(tar)
}

} // verus!
