use vstd::prelude::*;

use crate::dom::attr_eq;
use crate::dom::clone_id;
use crate::dom::lemma_node_child_view;
use crate::dom::lemma_node_view_len;
use crate::dom::AttrV;
use crate::dom::Id;
use crate::dom::Node;
use crate::dom::NodeV;
use crate::patch::patches_view;
use crate::patch::Patch;
use crate::patch::PatchV;

verus! {

broadcast use vstd::std_specs::vec::group_vec_axioms;

/// The key must be deleted: present in the source, absent from the target.
pub open spec fn rem_req(sa: Map<Seq<char>, AttrV>, ta: Map<Seq<char>, AttrV>, k: Seq<char>) -> bool {
    sa.contains_key(k) && !ta.contains_key(k)
}

/// The key must be set: present in the target with a value the source lacks
/// or disagrees on.
pub open spec fn set_req(sa: Map<Seq<char>, AttrV>, ta: Map<Seq<char>, AttrV>, k: Seq<char>) -> bool {
    ta.contains_key(k) && (!sa.contains_key(k) || sa[k] != ta[k])
}

/// The key an attribute patch speaks of.
pub open spec fn attr_key(p: PatchV) -> Seq<char> {
    match p {
        PatchV::RemoveAttribute(_, k) => k,
        PatchV::SetAttribute(_, k, _) => k,
        _ => Seq::empty(),
    }
}

/// An attribute patch at `id` that the difference of `sa` and `ta` requires.
pub open spec fn attr_patch_valid(
    id: Seq<usize>,
    sa: Map<Seq<char>, AttrV>,
    ta: Map<Seq<char>, AttrV>,
    p: PatchV,
) -> bool {
    match p {
        PatchV::RemoveAttribute(pid, k) => pid == id && rem_req(sa, ta, k),
        PatchV::SetAttribute(pid, k, v) => pid == id && set_req(sa, ta, k) && v == ta[k],
        _ => false,
    }
}

/// The attribute patches exactly cover the difference of the two attribute
/// maps: every patch is required, each key appears at most once, and every
/// removed or changed-or-added key has its patch. Their order is
/// unspecified.
pub open spec fn attr_ok(
    id: Seq<usize>,
    sa: Map<Seq<char>, AttrV>,
    ta: Map<Seq<char>, AttrV>,
    aps: Seq<PatchV>,
) -> bool {
    &&& forall|j: int| 0 <= j < aps.len() ==> attr_patch_valid(id, sa, ta, #[trigger] aps[j])
    &&& forall|j1: int, j2: int|
        0 <= j1 < j2 < aps.len() ==> attr_key(#[trigger] aps[j1]) != attr_key(#[trigger] aps[j2])
    &&& forall|k: Seq<char>|
        #[trigger] rem_req(sa, ta, k) ==> aps.contains(PatchV::RemoveAttribute(id, k))
    &&& forall|k: Seq<char>|
        #[trigger] set_req(sa, ta, k) ==> aps.contains(PatchV::SetAttribute(id, k, ta[k]))
}

/// The append patches a node pair requires: one for each trailing child of
/// the target beyond the source's count, in ascending order, addressed by
/// the position the new child will take.
pub open spec fn appends_of(id: Seq<usize>, s: NodeV, t: NodeV) -> Seq<PatchV> {
    if s.children.len() < t.children.len() {
        Seq::new(
            (t.children.len() - s.children.len()) as nat,
            |k: int|
                PatchV::AppendNode(
                    id.push((s.children.len() + k) as usize),
                    t.children[s.children.len() + k],
                ),
        )
    } else {
        Seq::empty()
    }
}

/// The concatenation of per-child patch lists, in child order.
pub open spec fn flat(parts: Seq<Seq<PatchV>>) -> Seq<PatchV>
    decreases parts.len(),
{
    if parts.len() == 0 {
        Seq::empty()
    } else {
        flat(parts.drop_last()) + parts.last()
    }
}

pub proof fn lemma_flat_push(parts: Seq<Seq<PatchV>>, q: Seq<PatchV>)
    ensures
        flat(parts.push(q)) == flat(parts) + q,
{
    assert(parts.push(q).drop_last() =~= parts);
    assert(parts.push(q).last() == q);
}

pub proof fn lemma_flat_front(parts: Seq<Seq<PatchV>>)
    requires
        parts.len() > 0,
    ensures
        flat(parts) == parts[0] + flat(parts.skip(1)),
    decreases parts.len(),
{
    reveal_with_fuel(flat, 2);
    if parts.len() == 1 {
        assert(parts.drop_last().len() == 0);
        assert(parts.skip(1).len() == 0);
        assert(flat(parts) =~= parts[0] + flat(parts.skip(1)));
    } else {
        lemma_flat_front(parts.drop_last());
        assert(parts.drop_last()[0] == parts[0]);
        assert(parts.skip(1).drop_last() =~= parts.drop_last().skip(1));
        assert(parts.skip(1).last() == parts.last());
        assert(flat(parts.skip(1)) == flat(parts.skip(1).drop_last()) + parts.skip(1).last());
        assert(flat(parts) =~= parts[0] + flat(parts.skip(1)));
    }
}

/// The patch list a per-child step of the diff emits: a recursive diff where
/// the target still has a child at this index, a single removal where it
/// does not.
pub open spec fn child_part_ok(
    id: Seq<usize>,
    s: NodeV,
    t: NodeV,
    part: Seq<PatchV>,
    i: int,
) -> bool
    decreases s, 0int,
{
    if !(0 <= i < s.children.len()) {
        true
    } else if i < t.children.len() {
        is_diff(id.push(i as usize), s.children[i], t.children[i], part)
    } else {
        part == seq![PatchV::RemoveNode(id.push(i as usize))]
    }
}

/// What the diff engine emits for a source/target pair at `id`: on a tag
/// mismatch a single replacement and nothing deeper; on equal tags the
/// attribute patches (in unspecified order), then the trailing appends in
/// ascending order, then each child's patches in child order.
pub open spec fn is_diff(id: Seq<usize>, s: NodeV, t: NodeV, ps: Seq<PatchV>) -> bool
    decreases s, 1int,
{
    if s.tag != t.tag {
        ps == seq![PatchV::ReplaceNode(id, t)]
    } else {
        exists|aps: Seq<PatchV>, parts: Seq<Seq<PatchV>>|
            #![trigger attr_ok(id, s.attrs, t.attrs, aps), flat(parts)]
            {
                &&& ps == aps + appends_of(id, s, t) + flat(parts)
                &&& attr_ok(id, s.attrs, t.attrs, aps)
                &&& parts.len() == s.children.len()
                &&& forall|i: int|
                    0 <= i < s.children.len() ==> child_part_ok(id, s, t, #[trigger] parts[i], i)
            }
    }
}

proof fn lemma_push_contains(s: Seq<PatchV>, x: PatchV)
    ensures
        forall|y: PatchV| #[trigger] s.push(x).contains(y) <==> s.contains(y) || y == x,
{
    assert forall|y: PatchV| #[trigger] s.push(x).contains(y) implies s.contains(y) || y == x by {
        let i = choose|i: int| 0 <= i < s.push(x).len() && s.push(x)[i] == y;
        if i < s.len() {
            assert(s[i] == y);
        }
    }
    assert forall|y: PatchV| s.contains(y) || y == x implies #[trigger] s.push(x).contains(y) by {
        if s.contains(y) {
            let i = choose|i: int| 0 <= i < s.len() && s[i] == y;
            assert(s.push(x)[i] == y);
        } else {
            assert(s.push(x)[s.len() as int] == y);
        }
    }
}

/// The ordered patch script that turns `src` into `tar`: positional,
/// index-driven, and total — any two trees yield a script.
pub fn diff(src: Node, tar: Node) -> (r: Vec<Patch>)
    ensures
        is_diff(Seq::empty(), src@, tar@, patches_view(r@)),
{
    let id: Id = Vec::new();
    diff_at(&id, &src, &tar)
}

#[verifier::loop_isolation(false)]
fn diff_at(id: &Id, src: &Node, tar: &Node) -> (r: Vec<Patch>)
    ensures
        is_diff(id@, src@, tar@, patches_view(r@)),
    decreases *src,
{
    let mut patches: Vec<Patch> = Vec::new();
    if !(src.tag == tar.tag) {
        patches.push(Patch::ReplaceNode(clone_id(id), tar.clone()));
        proof {
            assert(patches_view(patches@) =~= seq![PatchV::ReplaceNode(id@, tar@)]);
        }
        return patches;
    }
    proof {
        use_type_invariant(&src.attributes);
        use_type_invariant(&tar.attributes);
        src.attributes.lemma_keys();
        tar.attributes.lemma_keys();
        lemma_node_view_len(*src);
        lemma_node_view_len(*tar);
    }
    let ghost sa = src@.attrs;
    let ghost ta = tar@.attrs;
    let ghost sk = src.attributes.keys();
    let ghost tk = tar.attributes.keys();
    // Attribute removals and changes: walk the source's keys.
    let mut k: usize = 0;
    while k < src.attributes.len()
        invariant
            k <= sk.len(),
            forall|j: int|
                0 <= j < patches@.len() ==> attr_patch_valid(
                    id@,
                    sa,
                    ta,
                    (#[trigger] patches@[j])@,
                ),
            forall|j: int|
                0 <= j < patches@.len() ==> sk.subrange(0, k as int).contains(
                    attr_key((#[trigger] patches@[j])@),
                ),
            forall|j1: int, j2: int|
                0 <= j1 < j2 < patches@.len() ==> attr_key((#[trigger] patches@[j1])@) != attr_key(
                    (#[trigger] patches@[j2])@,
                ),
            forall|x: int|
                0 <= x < k && rem_req(sa, ta, #[trigger] sk[x]) ==> patches_view(
                    patches@,
                ).contains(PatchV::RemoveAttribute(id@, sk[x])),
            forall|x: int|
                0 <= x < k && set_req(sa, ta, #[trigger] sk[x]) ==> patches_view(
                    patches@,
                ).contains(PatchV::SetAttribute(id@, sk[x], ta[sk[x]])),
        decreases sk.len() - k,
    {
        let key = src.attributes.key_at(k);
        let ghost before = patches@;
        match tar.attributes.get(key) {
            None => {
                patches.push(Patch::RemoveAttribute(clone_id(id), key.clone()));
                proof {
                    assert(patches@.last()@ == PatchV::RemoveAttribute(id@, sk[k as int]));
                    lemma_push_contains(patches_view(before), patches@.last()@);
                    assert(patches_view(patches@) =~= patches_view(before).push(
                        patches@.last()@,
                    ));
                    assert(sk.subrange(0, k as int + 1)[k as int] == sk[k as int]);
                    assert(sk.subrange(0, k as int + 1).contains(sk[k as int]));
                    assert forall|j: int|
                        0 <= j < patches@.len() implies sk.subrange(0, k as int + 1).contains(
                        attr_key((#[trigger] patches@[j])@),
                    ) by {
                        if j < patches@.len() - 1 {
                            assert(sk.subrange(0, k as int).contains(attr_key(patches@[j]@)));
                            let y = choose|y: int|
                                0 <= y < k && sk.subrange(0, k as int)[y] == attr_key(
                                    patches@[j]@,
                                );
                            assert(sk.subrange(0, k as int + 1)[y] == attr_key(patches@[j]@));
                        }
                    }
                    assert forall|j1: int, j2: int|
                        0 <= j1 < j2 < patches@.len() implies attr_key((#[trigger] patches@[j1])@)
                        != attr_key((#[trigger] patches@[j2])@) by {
                        if j2 == patches@.len() - 1 {
                            let y = choose|y: int|
                                0 <= y < k && sk.subrange(0, k as int)[y] == attr_key(
                                    patches@[j1]@,
                                );
                            assert(sk[y] == attr_key(patches@[j1]@));
                            assert(sk[y] != sk[k as int]);
                        }
                    }
                }
            },
            Some(tv) => {
                let sv = src.attributes.value_at(k);
                if !attr_eq(sv, tv) {
                    patches.push(
                        Patch::SetAttribute(clone_id(id), key.clone(), tv.clone()),
                    );
                    proof {
                        assert(patches@.last()@ == PatchV::SetAttribute(
                            id@,
                            sk[k as int],
                            ta[sk[k as int]],
                        ));
                        lemma_push_contains(patches_view(before), patches@.last()@);
                        assert(patches_view(patches@) =~= patches_view(before).push(
                            patches@.last()@,
                        ));
                        assert(sk.subrange(0, k as int + 1)[k as int] == sk[k as int]);
                    assert(sk.subrange(0, k as int + 1).contains(sk[k as int]));
                        assert forall|j: int|
                            0 <= j < patches@.len() implies sk.subrange(0, k as int + 1).contains(
                            attr_key((#[trigger] patches@[j])@),
                        ) by {
                            if j < patches@.len() - 1 {
                                assert(sk.subrange(0, k as int).contains(attr_key(patches@[j]@)));
                                let y = choose|y: int|
                                    0 <= y < k && sk.subrange(0, k as int)[y] == attr_key(
                                        patches@[j]@,
                                    );
                                assert(sk.subrange(0, k as int + 1)[y] == attr_key(patches@[j]@));
                            }
                        }
                        assert forall|j1: int, j2: int|
                            0 <= j1 < j2 < patches@.len() implies attr_key(
                            (#[trigger] patches@[j1])@,
                        ) != attr_key((#[trigger] patches@[j2])@) by {
                            if j2 == patches@.len() - 1 {
                                let y = choose|y: int|
                                    0 <= y < k && sk.subrange(0, k as int)[y] == attr_key(
                                        patches@[j1]@,
                                    );
                                assert(sk[y] == attr_key(patches@[j1]@));
                                assert(sk[y] != sk[k as int]);
                            }
                        }
                    }
                } else {
                    proof {
                        assert forall|j: int|
                            0 <= j < patches@.len() implies sk.subrange(0, k as int + 1).contains(
                            attr_key((#[trigger] patches@[j])@),
                        ) by {
                            assert(sk.subrange(0, k as int).contains(attr_key(patches@[j]@)));
                            let y = choose|y: int|
                                0 <= y < k && sk.subrange(0, k as int)[y] == attr_key(
                                    patches@[j]@,
                                );
                            assert(sk.subrange(0, k as int + 1)[y] == attr_key(patches@[j]@));
                        }
                        assert(!rem_req(sa, ta, sk[k as int]));
                        assert(!set_req(sa, ta, sk[k as int]));
                    }
                }
            },
        }
        k = k + 1;
    }
    // Attribute additions: target keys the source lacks.
    let ghost n_src_patches = patches@.len() as int;
    let mut y: usize = 0;
    while y < tar.attributes.len()
        invariant
            y <= tk.len(),
            n_src_patches <= patches@.len(),
            forall|j: int|
                0 <= j < patches@.len() ==> attr_patch_valid(
                    id@,
                    sa,
                    ta,
                    (#[trigger] patches@[j])@,
                ),
            forall|j: int|
                0 <= j < n_src_patches ==> sk.contains(attr_key((#[trigger] patches@[j])@)),
            forall|j: int|
                n_src_patches <= j < patches@.len() ==> !sa.contains_key(
                    attr_key((#[trigger] patches@[j])@),
                ) && tk.subrange(0, y as int).contains(attr_key(patches@[j]@)),
            forall|j1: int, j2: int|
                0 <= j1 < j2 < patches@.len() ==> attr_key((#[trigger] patches@[j1])@) != attr_key(
                    (#[trigger] patches@[j2])@,
                ),
            forall|x: int|
                rem_req(sa, ta, #[trigger] sk[x]) && 0 <= x < sk.len() ==> patches_view(
                    patches@,
                ).contains(PatchV::RemoveAttribute(id@, sk[x])),
            forall|x: int|
                set_req(sa, ta, #[trigger] sk[x]) && 0 <= x < sk.len() ==> patches_view(
                    patches@,
                ).contains(PatchV::SetAttribute(id@, sk[x], ta[sk[x]])),
            forall|x: int|
                0 <= x < y && !sa.contains_key(#[trigger] tk[x]) ==> patches_view(
                    patches@,
                ).contains(PatchV::SetAttribute(id@, tk[x], ta[tk[x]])),
        decreases tk.len() - y,
    {
        let key = tar.attributes.key_at(y);
        let ghost before = patches@;
        match src.attributes.get(key) {
            Some(_) => {},
            None => {
                let tv = tar.attributes.value_at(y);
                patches.push(Patch::SetAttribute(clone_id(id), key.clone(), tv.clone()));
                proof {
                    assert(patches@.last()@ == PatchV::SetAttribute(
                        id@,
                        tk[y as int],
                        ta[tk[y as int]],
                    ));
                    lemma_push_contains(patches_view(before), patches@.last()@);
                    assert(patches_view(patches@) =~= patches_view(before).push(
                        patches@.last()@,
                    ));
                    assert(tk.subrange(0, y as int + 1)[y as int] == tk[y as int]);
                    assert(tk.subrange(0, y as int + 1).contains(tk[y as int]));
                    assert forall|j: int|
                        n_src_patches <= j < patches@.len() implies !sa.contains_key(
                        attr_key((#[trigger] patches@[j])@),
                    ) && tk.subrange(0, y as int + 1).contains(attr_key(patches@[j]@)) by {
                        if j < patches@.len() - 1 {
                            assert(tk.subrange(0, y as int).contains(attr_key(patches@[j]@)));
                            let x = choose|x: int|
                                0 <= x < y && tk.subrange(0, y as int)[x] == attr_key(
                                    patches@[j]@,
                                );
                            assert(tk.subrange(0, y as int + 1)[x] == attr_key(patches@[j]@));
                        }
                    }
                    assert forall|j1: int, j2: int|
                        0 <= j1 < j2 < patches@.len() implies attr_key((#[trigger] patches@[j1])@)
                        != attr_key((#[trigger] patches@[j2])@) by {
                        if j2 == patches@.len() - 1 {
                            if j1 < n_src_patches {
                                assert(sk.contains(attr_key(patches@[j1]@)));
                                assert(sa.contains_key(attr_key(patches@[j1]@)));
                            } else {
                                let x = choose|x: int|
                                    0 <= x < y && tk.subrange(0, y as int)[x] == attr_key(
                                        patches@[j1]@,
                                    );
                                assert(tk[x] == attr_key(patches@[j1]@));
                                assert(tk[x] != tk[y as int]);
                            }
                        }
                    }
                }
            },
        }
        y = y + 1;
    }
    let ghost aps = patches_view(patches@);
    proof {
        assert forall|kk: Seq<char>| #[trigger] rem_req(sa, ta, kk) implies aps.contains(
            PatchV::RemoveAttribute(id@, kk),
        ) by {
            assert(sk.contains(kk));
            let x = choose|x: int| 0 <= x < sk.len() && sk[x] == kk;
        }
        assert forall|kk: Seq<char>| #[trigger] set_req(sa, ta, kk) implies aps.contains(
            PatchV::SetAttribute(id@, kk, ta[kk]),
        ) by {
            if sa.contains_key(kk) {
                assert(sk.contains(kk));
                let x = choose|x: int| 0 <= x < sk.len() && sk[x] == kk;
            } else {
                assert(tk.contains(kk));
                let x = choose|x: int| 0 <= x < tk.len() && tk[x] == kk;
            }
        }
        assert forall|j: int| 0 <= j < aps.len() implies attr_patch_valid(
            id@,
            sa,
            ta,
            #[trigger] aps[j],
        ) by {
            assert(aps[j] == patches@[j]@);
        }
        assert forall|j1: int, j2: int| 0 <= j1 < j2 < aps.len() implies attr_key(
            #[trigger] aps[j1],
        ) != attr_key(#[trigger] aps[j2]) by {
            assert(aps[j1] == patches@[j1]@ && aps[j2] == patches@[j2]@);
        }
        assert(attr_ok(id@, sa, ta, aps));
    }
    // Trailing appends for extra target children, ascending.
    let ghost app_full = appends_of(id@, src@, tar@);
    if src.children.len() < tar.children.len() {
        let mut n: usize = src.children.len();
        while n < tar.children.len()
            invariant
                src.children@.len() <= n <= tar.children@.len(),
                src.children@.len() < tar.children@.len(),
                patches_view(patches@) == aps + app_full.subrange(
                    0,
                    n - src.children@.len(),
                ),
            decreases tar.children@.len() - n,
        {
            let mut nid = clone_id(id);
            nid.push(n);
            let ghost before = patches@;
            patches.push(Patch::AppendNode(nid, tar.children[n].clone()));
            proof {
                lemma_node_child_view(*tar, n as int);
                assert(patches@.last()@ == app_full[n - src.children@.len()]);
                assert(patches_view(patches@) =~= patches_view(before).push(patches@.last()@));
                assert(aps + app_full.subrange(0, n + 1 - src.children@.len()) =~= (aps
                    + app_full.subrange(0, n - src.children@.len())).push(
                    app_full[n - src.children@.len()],
                ));
            }
            n = n + 1;
        }
        proof {
            assert(app_full.subrange(0, app_full.len() as int) =~= app_full);
        }
    } else {
        proof {
            assert(patches_view(patches@) =~= aps + app_full);
        }
    }
    // Per-child recursion or removal, in child order.
    let ghost mut parts: Seq<Seq<PatchV>> = Seq::empty();
    proof {
        assert(flat(parts) =~= Seq::<PatchV>::empty());
        assert(patches_view(patches@) =~= aps + app_full + flat(parts));
    }
    let mut i: usize = 0;
    while i < src.children.len()
        invariant
            i <= src.children@.len(),
            parts.len() == i,
            patches_view(patches@) == aps + app_full + flat(parts),
            forall|x: int| 0 <= x < i ==> child_part_ok(id@, src@, tar@, #[trigger] parts[x], x),
        decreases src.children@.len() - i,
    {
        let mut nid = clone_id(id);
        nid.push(i);
        if i < tar.children.len() {
            let mut sub = diff_at(&nid, &src.children[i], &tar.children[i]);
            let ghost subv = patches_view(sub@);
            let ghost pprev = parts;
            proof {
                lemma_node_child_view(*src, i as int);
                lemma_node_child_view(*tar, i as int);
                parts = parts.push(subv);
                lemma_flat_push(pprev, subv);
                assert(child_part_ok(id@, src@, tar@, subv, i as int));
            }
            let ghost before = patches@;
            patches.append(&mut sub);
            proof {
                assert(patches_view(patches@) =~= patches_view(before) + subv);
                assert((aps + app_full + flat(pprev)) + subv =~= aps + app_full + (flat(pprev)
                    + subv));
                assert(patches_view(patches@) == aps + app_full + flat(parts));
            }
        } else {
            let ghost pprev = parts;
            let ghost before = patches@;
            patches.push(Patch::RemoveNode(nid));
            proof {
                let rp = PatchV::RemoveNode(id@.push(i as usize));
                assert(patches@.last()@ == rp);
                assert(patches_view(patches@) =~= patches_view(before).push(rp));
                parts = parts.push(seq![rp]);
                lemma_flat_push(pprev, seq![rp]);
                assert(patches_view(before).push(rp) =~= patches_view(before) + seq![rp]);
                assert((aps + app_full + flat(pprev)) + seq![rp] =~= aps + app_full + (flat(
                    pprev,
                ) + seq![rp]));
                assert(patches_view(patches@) == aps + app_full + flat(parts));
                assert(child_part_ok(id@, src@, tar@, seq![rp], i as int));
            }
        }
        i = i + 1;
    }
    proof {
        assert(is_diff(id@, src@, tar@, patches_view(patches@)));
    }
    patches
}

} // verus!
