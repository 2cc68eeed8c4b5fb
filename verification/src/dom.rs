use vstd::prelude::*;

verus! {

broadcast use vstd::std_specs::vec::group_vec_axioms;

/// A positional path: the sequence of child indices that leads from the root
/// of a tree to one of its nodes. The empty path denotes the root itself.
///
/// A path is a coordinate relative to one fixed tree shape, not a stable
/// handle: structural edits shift the meaning of paths that address later
/// siblings.
pub type Id = Vec<usize>;

/// A typed attribute value attached to a node by key.
///
/// Numbers carry the bit pattern of a 64-bit IEEE 754 value, so attribute
/// equality stays structural: two numeric attributes are equal exactly when
/// their bit patterns are.
#[derive(Debug)]
pub enum Attribute {
    String(String),
    Number(u64),
    Bool(bool),
}

/// The mathematical value of an [`Attribute`].
#[verifier::ext_equal]
pub enum AttrV {
    String(Seq<char>),
    Number(u64),
    Bool(bool),
}

impl View for Attribute {
    type V = AttrV;

    open spec fn view(&self) -> AttrV {
        match self {
            Attribute::String(s) => AttrV::String(s@),
            Attribute::Number(x) => AttrV::Number(*x),
            Attribute::Bool(b) => AttrV::Bool(*b),
        }
    }
}

impl Clone for Attribute {
    fn clone(&self) -> (r: Self)
        ensures
            r == *self,
    {
        match self {
            Attribute::String(s) => Attribute::String(s.clone()),
            Attribute::Number(x) => Attribute::Number(*x),
            Attribute::Bool(b) => Attribute::Bool(*b),
        }
    }
}

impl PartialEq for Attribute {
    fn eq(&self, other: &Attribute) -> (r: bool) {
        attr_eq(self, other)
    }
}

impl vstd::std_specs::cmp::PartialEqSpecImpl for Attribute {
    open spec fn obeys_eq_spec() -> bool {
        true
    }

    open spec fn eq_spec(&self, other: &Attribute) -> bool {
        self@ == other@
    }
}

/// Structural equality of attribute values: same variant, equal payload.
pub(crate) fn attr_eq(a: &Attribute, b: &Attribute) -> (r: bool)
    ensures
        r == (a@ == b@),
{
    match (a, b) {
        (Attribute::String(x), Attribute::String(y)) => *x == *y,
        (Attribute::Number(x), Attribute::Number(y)) => *x == *y,
        (Attribute::Bool(x), Attribute::Bool(y)) => *x == *y,
        _ => false,
    }
}

/// The attributes of a node: a mapping from string keys to attribute values
/// with unique keys. Entry order is an implementation detail; the
/// mathematical value is the map itself.
#[derive(Debug)]
pub struct AttrMap {
    entries: Vec<(String, Attribute)>,
}

/// The map denoted by a list of key/value entries; a later entry for the
/// same key wins (with unique keys the question never arises).
pub closed spec fn entries_map(s: Seq<(String, Attribute)>) -> Map<Seq<char>, AttrV>
    decreases s.len(),
{
    if s.len() == 0 {
        Map::empty()
    } else {
        entries_map(s.drop_last()).insert(s.last().0@, s.last().1@)
    }
}

impl View for AttrMap {
    type V = Map<Seq<char>, AttrV>;

    closed spec fn view(&self) -> Map<Seq<char>, AttrV> {
        entries_map(self.entries@)
    }
}

proof fn lemma_entries_dom(s: Seq<(String, Attribute)>)
    ensures
        forall|k: Seq<char>|
            entries_map(s).contains_key(k) <==> (exists|i: int|
                0 <= i < s.len() && (#[trigger] s[i]).0@ == k),
    decreases s.len(),
{
    if s.len() > 0 {
        let sd = s.drop_last();
        lemma_entries_dom(sd);
        assert(entries_map(s) == entries_map(sd).insert(s.last().0@, s.last().1@));
        assert forall|k: Seq<char>| entries_map(s).contains_key(k) implies (exists|i: int|
            0 <= i < s.len() && (#[trigger] s[i]).0@ == k) by {
            if k == s.last().0@ {
                assert((s[s.len() - 1]).0@ == k);
            } else {
                assert(entries_map(sd).contains_key(k));
                let i = choose|i: int| 0 <= i < sd.len() && (#[trigger] sd[i]).0@ == k;
                assert(sd[i] == s[i]);
                assert((s[i]).0@ == k);
            }
        }
        assert forall|k: Seq<char>| (exists|i: int|
            0 <= i < s.len() && (#[trigger] s[i]).0@ == k) implies entries_map(s).contains_key(
            k,
        ) by {
            let i = choose|i: int| 0 <= i < s.len() && (#[trigger] s[i]).0@ == k;
            if i < s.len() - 1 {
                assert(sd[i] == s[i]);
                assert((sd[i]).0@ == k);
                assert(entries_map(sd).contains_key(k));
            } else {
                assert(k == s.last().0@);
            }
        }
    }
}

/// Pairwise-distinct keys, by string content.
spec fn entries_unique(s: Seq<(String, Attribute)>) -> bool {
    forall|i: int, j: int| 0 <= i < j < s.len() ==> (#[trigger] s[i]).0@ != #[trigger] s[j].0@
}

proof fn lemma_entries_at(s: Seq<(String, Attribute)>)
    requires
        entries_unique(s),
    ensures
        forall|i: int|
            0 <= i < s.len() ==> entries_map(s).contains_key((#[trigger] s[i]).0@) && entries_map(s)[s[i].0@]
                == s[i].1@,
    decreases s.len(),
{
    if s.len() > 0 {
        let sd = s.drop_last();
        assert(entries_unique(sd));
        lemma_entries_at(sd);
        assert(entries_map(s) == entries_map(sd).insert(s.last().0@, s.last().1@));
        assert forall|i: int|
            0 <= i < s.len() implies entries_map(s).contains_key((#[trigger] s[i]).0@)
            && entries_map(s)[s[i].0@] == s[i].1@ by {
            if i < s.len() - 1 {
                assert(sd[i] == s[i]);
                assert(entries_map(sd).contains_key((sd[i]).0@));
                assert((s[i]).0@ != (s[s.len() - 1]).0@);
            }
        }
    }
}

fn find_key(es: &Vec<(String, Attribute)>, key: &String) -> (r: Option<usize>)
    ensures
        match r {
            Some(i) => i < es@.len() && es@[i as int].0@ == key@,
            None => forall|i: int| 0 <= i < es@.len() ==> (#[trigger] es@[i]).0@ != key@,
        },
{
    let mut i: usize = 0;
    while i < es.len()
        invariant
            i <= es@.len(),
            forall|j: int| 0 <= j < i ==> (#[trigger] es@[j]).0@ != key@,
        decreases es@.len() - i,
    {
        if es[i].0 == *key {
            return Some(i);
        }
        i = i + 1;
    }
    None
}

impl AttrMap {
    /// Keys must be pairwise distinct.
    #[verifier::type_invariant]
    pub closed spec fn wf(self) -> bool {
        entries_unique(self.entries@)
    }

    /// The keys, in entry order.
    pub closed spec fn keys(self) -> Seq<Seq<char>> {
        self.entries@.map_values(|e: (String, Attribute)| e.0@)
    }

    /// Relates the key list to the map: no duplicates, and the keys
    /// enumerate the map's domain.
    pub proof fn lemma_keys(self)
        requires
            self.wf(),
        ensures
            self.keys().no_duplicates(),
            forall|k: Seq<char>| #[trigger] self@.contains_key(k) ==> self.keys().contains(k),
            forall|k: Seq<char>| #[trigger] self.keys().contains(k) ==> self@.contains_key(k),
            forall|i: int|
                0 <= i < self.keys().len() ==> self@.contains_key(#[trigger] self.keys()[i]),
    {
        lemma_entries_dom(self.entries@);
        lemma_entries_at(self.entries@);
        assert forall|k: Seq<char>| self@.contains_key(k) implies self.keys().contains(k) by {
            let i = choose|i: int| 0 <= i < self.entries@.len() && (#[trigger] self.entries@[i]).0@
                == k;
            assert(self.keys()[i] == k);
        }
        assert forall|k: Seq<char>| self.keys().contains(k) implies self@.contains_key(k) by {
            let i = choose|i: int| 0 <= i < self.keys().len() && self.keys()[i] == k;
            assert(self.entries@[i].0@ == k);
        }
    }

    /// An empty attribute mapping.
    pub fn new() -> (r: AttrMap)
        ensures
            r@ == Map::<Seq<char>, AttrV>::empty(),
            r.keys() == Seq::<Seq<char>>::empty(),
    {
        let r = AttrMap { entries: Vec::new() };
        proof {
            assert(r.keys() =~= Seq::<Seq<char>>::empty());
        }
        r
    }

    /// The number of attributes.
    pub fn len(&self) -> (n: usize)
        ensures
            n == self.keys().len(),
    {
        self.entries.len()
    }

    /// The key of the `i`-th entry.
    pub fn key_at(&self, i: usize) -> (k: &String)
        requires
            i < self.keys().len(),
        ensures
            k@ == self.keys()[i as int],
            self@.contains_key(k@),
    {
        proof {
            use_type_invariant(self);
            self.lemma_keys();
        }
        &self.entries[i].0
    }

    /// The value of the `i`-th entry.
    pub fn value_at(&self, i: usize) -> (v: &Attribute)
        requires
            i < self.keys().len(),
        ensures
            self@.contains_key(self.keys()[i as int]),
            v@ == self@[self.keys()[i as int]],
    {
        proof {
            use_type_invariant(self);
            lemma_entries_at(self.entries@);
        }
        &self.entries[i].1
    }

    /// Looks a key up.
    pub fn get(&self, key: &String) -> (r: Option<&Attribute>)
        ensures
            match r {
                Some(v) => self@.contains_key(key@) && v@ == self@[key@],
                None => !self@.contains_key(key@),
            },
    {
        proof {
            use_type_invariant(self);
            lemma_entries_dom(self.entries@);
            lemma_entries_at(self.entries@);
        }
        match find_key(&self.entries, key) {
            Some(i) => Some(&self.entries[i].1),
            None => None,
        }
    }

    /// Inserts a key, overwriting any previous value for it.
    pub fn insert(&mut self, key: String, value: Attribute)
        ensures
            final(self)@ == old(self)@.insert(key@, value@),
    {
        proof {
            use_type_invariant(&*self);
        }
        let mut es: Vec<(String, Attribute)> = Vec::new();
        core::mem::swap(&mut es, &mut self.entries);
        let ghost s0 = es@;
        match find_key(&es, &key) {
            Some(i) => {
                let ghost kv = (key, value);
                es.set(i, (key, value));
                proof {
                    lemma_entries_update(s0, i as int, kv);
                }
            },
            None => {
                es.push((key, value));
                proof {
                    assert(es@.drop_last() =~= s0);
                    assert(entries_unique(es@));
                }
            },
        }
        core::mem::swap(&mut es, &mut self.entries);
    }

    /// Removes a key; absence is a no-op.
    pub fn remove(&mut self, key: &String)
        ensures
            final(self)@ == old(self)@.remove(key@),
    {
        proof {
            use_type_invariant(&*self);
        }
        let mut es: Vec<(String, Attribute)> = Vec::new();
        core::mem::swap(&mut es, &mut self.entries);
        let ghost s0 = es@;
        match find_key(&es, key) {
            Some(i) => {
                es.remove(i);
                proof {
                    lemma_entries_remove(s0, i as int);
                }
            },
            None => {
                proof {
                    lemma_entries_dom(s0);
                    assert(entries_map(s0).remove(key@) =~= entries_map(s0));
                }
            },
        }
        core::mem::swap(&mut es, &mut self.entries);
    }
}

/// Updating an entry in place, keeping its key, denotes an insert.
proof fn lemma_entries_update(s: Seq<(String, Attribute)>, i: int, e: (String, Attribute))
    requires
        entries_unique(s),
        0 <= i < s.len(),
        s[i].0@ == e.0@,
    ensures
        entries_map(s.update(i, e)) == entries_map(s).insert(e.0@, e.1@),
        entries_unique(s.update(i, e)),
    decreases s.len(),
{
    let su = s.update(i, e);
    assert forall|a: int, b: int| 0 <= a < b < su.len() implies (#[trigger] su[a]).0@
        != (#[trigger] su[b]).0@ by {
        assert(s[a].0@ != s[b].0@);
    }
    if i == s.len() - 1 {
        assert(su.drop_last() =~= s.drop_last());
        assert(entries_map(s).insert(e.0@, e.1@) =~= entries_map(s.drop_last()).insert(
            e.0@,
            e.1@,
        ));
    } else {
        assert(su.drop_last() =~= s.drop_last().update(i, e));
        assert(entries_unique(s.drop_last()));
        assert(s.drop_last()[i] == s[i]);
        lemma_entries_update(s.drop_last(), i, e);
        assert(su.last() == s.last());
        assert(s[i].0@ != s[s.len() - 1].0@);
        assert(entries_map(s.drop_last()).insert(e.0@, e.1@).insert(s.last().0@, s.last().1@)
            =~= entries_map(s.drop_last()).insert(s.last().0@, s.last().1@).insert(e.0@, e.1@));
    }
}

/// Removing an entry denotes removing its key from the map.
proof fn lemma_entries_remove(s: Seq<(String, Attribute)>, i: int)
    requires
        entries_unique(s),
        0 <= i < s.len(),
    ensures
        entries_map(s.remove(i)) == entries_map(s).remove(s[i].0@),
        entries_unique(s.remove(i)),
    decreases s.len(),
{
    let sr = s.remove(i);
    assert forall|a: int, b: int| 0 <= a < b < sr.len() implies (#[trigger] sr[a]).0@
        != (#[trigger] sr[b]).0@ by {
        let a0 = if a < i {
            a
        } else {
            a + 1
        };
        let b0 = if b < i {
            b
        } else {
            b + 1
        };
        assert(sr[a] == s[a0] && sr[b] == s[b0]);
        assert(s[a0].0@ != s[b0].0@);
    }
    if i == s.len() - 1 {
        assert(sr =~= s.drop_last());
        lemma_entries_dom(s.drop_last());
        assert forall|j: int| 0 <= j < s.drop_last().len() implies (#[trigger] s.drop_last()[j]).0@
            != s[i].0@ by {
            assert(s[j].0@ != s[i].0@);
        }
        assert(!entries_map(s.drop_last()).contains_key(s[i].0@));
        assert(entries_map(s).remove(s[i].0@) =~= entries_map(s.drop_last()));
    } else {
        assert(sr.drop_last() =~= s.drop_last().remove(i));
        assert(entries_unique(s.drop_last()));
        lemma_entries_remove(s.drop_last(), i);
        assert(sr.last() == s.last());
        assert(s.drop_last()[i] == s[i]);
        assert(s[i].0@ != s[s.len() - 1].0@);
        assert(entries_map(s.drop_last()).remove(s[i].0@).insert(s.last().0@, s.last().1@)
            =~= entries_map(s.drop_last()).insert(s.last().0@, s.last().1@).remove(s[i].0@));
    }
}

impl Clone for AttrMap {
    fn clone(&self) -> (r: Self)
        ensures
            r@ == self@,
            r.keys() == self.keys(),
    {
        proof {
            use_type_invariant(self);
        }
        let mut out: Vec<(String, Attribute)> = Vec::new();
        let mut i: usize = 0;
        while i < self.entries.len()
            invariant
                i <= self.entries@.len(),
                out@ =~= self.entries@.subrange(0, i as int),
            decreases self.entries@.len() - i,
        {
            let k = self.entries[i].0.clone();
            let v = self.entries[i].1.clone();
            out.push((k, v));
            i = i + 1;
        }
        proof {
            assert(out@ =~= self.entries@);
        }
        let r = AttrMap { entries: out };
        r
    }
}

/// A tagged, attributed, ordered-children tree value. Each node exclusively
/// owns its children; trees are acyclic by construction.
#[derive(Debug)]
pub struct Node {
    pub tag: String,
    pub children: Vec<Node>,
    pub attributes: AttrMap,
}

/// The mathematical value of a [`Node`]: its tag, its attribute map, and the
/// values of its children, in order.
#[verifier::ext_equal]
pub struct NodeV {
    pub tag: Seq<char>,
    pub attrs: Map<Seq<char>, AttrV>,
    pub children: Seq<NodeV>,
}

/// The mathematical value of a node.
pub open spec fn node_view(n: Node) -> NodeV
    decreases n, 0int,
{
    NodeV {
        tag: n.tag@,
        attrs: n.attributes@,
        children: children_view_upto(n.children@, n.children@.len() as int),
    }
}

/// The values of the first `m` nodes of a child list, in order.
pub open spec fn children_view_upto(s: Seq<Node>, m: int) -> Seq<NodeV>
    decreases s, m,
{
    if m <= 0 || m > s.len() {
        Seq::empty()
    } else {
        children_view_upto(s, m - 1).push(node_view(s[m - 1]))
    }
}

pub proof fn lemma_children_view(s: Seq<Node>, m: int)
    requires
        0 <= m <= s.len(),
    ensures
        children_view_upto(s, m).len() == m,
        forall|j: int| 0 <= j < m ==> children_view_upto(s, m)[j] == node_view(#[trigger] s[j]),
    decreases m,
{
    if m > 0 {
        lemma_children_view(s, m - 1);
    }
}

/// The values of a whole child list, in order.
pub open spec fn children_view(s: Seq<Node>) -> Seq<NodeV> {
    children_view_upto(s, s.len() as int)
}

pub proof fn lemma_children_view_is_map(s: Seq<Node>)
    ensures
        children_view(s).len() == s.len(),
        forall|j: int| 0 <= j < s.len() ==> children_view(s)[j] == (#[trigger] s[j])@,
{
    lemma_children_view(s, s.len() as int);
}

pub proof fn lemma_children_view_remove(s: Seq<Node>, j: int)
    requires
        0 <= j < s.len(),
    ensures
        children_view(s.remove(j)) == children_view(s).remove(j),
{
    lemma_children_view_is_map(s);
    lemma_children_view_is_map(s.remove(j));
    assert forall|x: int| 0 <= x < s.len() - 1 implies children_view(s.remove(j))[x]
        == children_view(s).remove(j)[x] by {
        assert(children_view(s.remove(j))[x] == (s.remove(j)[x])@);
        if x < j {
            assert(s.remove(j)[x] == s[x]);
        } else {
            assert(s.remove(j)[x] == s[x + 1]);
        }
    }
    assert(children_view(s.remove(j)) =~= children_view(s).remove(j));
}

pub proof fn lemma_children_view_update(s: Seq<Node>, j: int, c: Node)
    requires
        0 <= j < s.len(),
    ensures
        children_view(s.update(j, c)) == children_view(s).update(j, c@),
{
    lemma_children_view_is_map(s);
    lemma_children_view_is_map(s.update(j, c));
    assert forall|x: int| 0 <= x < s.len() implies children_view(s.update(j, c))[x]
        == children_view(s).update(j, c@)[x] by {
        assert(children_view(s.update(j, c))[x] == (s.update(j, c)[x])@);
    }
    assert(children_view(s.update(j, c)) =~= children_view(s).update(j, c@));
}

pub proof fn lemma_children_view_push(s: Seq<Node>, c: Node)
    ensures
        children_view(s.push(c)) == children_view(s).push(c@),
{
    lemma_children_view_is_map(s);
    lemma_children_view_is_map(s.push(c));
    assert forall|x: int| 0 <= x < s.len() + 1 implies children_view(s.push(c))[x]
        == children_view(s).push(c@)[x] by {
        assert(children_view(s.push(c))[x] == (s.push(c)[x])@);
        if x < s.len() {
            assert(s.push(c)[x] == s[x]);
        } else {
            assert(s.push(c)[x] == c);
        }
    }
    assert(children_view(s.push(c)) =~= children_view(s).push(c@));
}

impl View for Node {
    type V = NodeV;

    open spec fn view(&self) -> NodeV {
        node_view(*self)
    }
}

/// The view of a child is the corresponding child of the view.
pub proof fn lemma_node_child_view(n: Node, i: int)
    requires
        0 <= i < n.children@.len(),
    ensures
        (#[trigger] n.children@[i])@ == n@.children[i],
{
    lemma_children_view(n.children@, n.children@.len() as int);
}

/// A view has exactly one child value per child.
pub proof fn lemma_node_view_len(n: Node)
    ensures
        (#[trigger] n@.children).len() == n.children@.len(),
{
    lemma_children_view(n.children@, n.children@.len() as int);
}

impl Node {
    /// A childless, attribute-less node with the given tag.
    pub fn new(tag: String) -> (n: Node)
        ensures
            n@ == (NodeV {
                tag: tag@,
                attrs: Map::<Seq<char>, AttrV>::empty(),
                children: Seq::<NodeV>::empty(),
            }),
    {
        let n = Node { tag, children: Vec::new(), attributes: AttrMap::new() };
        proof {
            assert(n@.attrs =~= Map::<Seq<char>, AttrV>::empty());
            assert(n@.children =~= Seq::<NodeV>::empty());
            assert(n@ =~= (NodeV {
                tag: n.tag@,
                attrs: Map::<Seq<char>, AttrV>::empty(),
                children: Seq::<NodeV>::empty(),
            }));
        }
        n
    }
}

fn clone_node(n: &Node) -> (r: Node)
    ensures
        r@ == n@,
    decreases *n,
{
    let mut kids: Vec<Node> = Vec::new();
    let mut i: usize = 0;
    while i < n.children.len()
        invariant
            i <= n.children@.len(),
            kids@.len() == i,
            forall|j: int| 0 <= j < i ==> #[trigger] kids@[j]@ == n.children@[j]@,
        decreases n.children@.len() - i,
    {
        kids.push(clone_node(&n.children[i]));
        i = i + 1;
    }
    let r = Node { tag: n.tag.clone(), children: kids, attributes: n.attributes.clone() };
    proof {
        assert forall|j: int| 0 <= j < kids@.len() implies r@.children[j] == n@.children[j] by {
            lemma_node_child_view(r, j);
            lemma_node_child_view(*n, j);
            assert(r.children@[j]@ == n.children@[j]@);
        }
        lemma_node_view_len(r);
        lemma_node_view_len(*n);
        assert(r@.children =~= n@.children);
        assert(r@ =~= n@);
    }
    r
}

impl Clone for Node {
    /// A deep copy with the same mathematical value.
    fn clone(&self) -> (r: Self)
        ensures
            r@ == self@,
    {
        clone_node(self)
    }
}

/// Structural equality of attribute maps, regardless of entry order.
fn attr_maps_eq(a: &AttrMap, b: &AttrMap) -> (r: bool)
    ensures
        r == (a@ == b@),
{
    proof {
        use_type_invariant(a);
        use_type_invariant(b);
        a.lemma_keys();
        b.lemma_keys();
    }
    let mut i: usize = 0;
    let n = a.len();
    while i < n
        invariant
            n == a.keys().len(),
            i <= n,
            forall|j: int|
                0 <= j < i ==> b@.contains_key(#[trigger] a.keys()[j]) && b@[a.keys()[j]]
                    == a@[a.keys()[j]],
        decreases n - i,
    {
        let k = a.key_at(i);
        let v = a.value_at(i);
        match b.get(k) {
            Some(w) => {
                if !attr_eq(v, w) {
                    proof {
                        assert(a@[k@] != b@[k@]);
                    }
                    return false;
                }
            },
            None => {
                return false;
            },
        }
        i = i + 1;
    }
    let mut j: usize = 0;
    let m = b.len();
    while j < m
        invariant
            m == b.keys().len(),
            j <= m,
            forall|x: int|
                0 <= x < a.keys().len() ==> b@.contains_key(#[trigger] a.keys()[x])
                    && b@[a.keys()[x]] == a@[a.keys()[x]],
            forall|y: int| 0 <= y < j ==> a@.contains_key(#[trigger] b.keys()[y]),
        decreases m - j,
    {
        let k = b.key_at(j);
        match a.get(k) {
            Some(_) => {},
            None => {
                return false;
            },
        }
        j = j + 1;
    }
    proof {
        use_type_invariant(a);
        use_type_invariant(b);
        a.lemma_keys();
        b.lemma_keys();
        assert forall|k: Seq<char>| a@.contains_key(k) implies b@.contains_key(k) && b@[k]
            == a@[k] by {
            let x = choose|x: int| 0 <= x < a.keys().len() && a.keys()[x] == k;
        }
        assert forall|k: Seq<char>| b@.contains_key(k) implies a@.contains_key(k) by {
            let y = choose|y: int| 0 <= y < b.keys().len() && b.keys()[y] == k;
        }
        assert(a@ =~= b@);
    }
    true
}

/// Structural tree equality: equal tags, equal attribute maps, and pairwise
/// equal children.
fn node_eq(a: &Node, b: &Node) -> (r: bool)
    ensures
        r == (a@ == b@),
    decreases *a,
{
    if !(a.tag == b.tag) {
        return false;
    }
    if !attr_maps_eq(&a.attributes, &b.attributes) {
        return false;
    }
    if a.children.len() != b.children.len() {
        proof {
            lemma_node_view_len(*a);
            lemma_node_view_len(*b);
            assert(a@.children.len() != b@.children.len());
        }
        return false;
    }
    let mut i: usize = 0;
    while i < a.children.len()
        invariant
            a.children@.len() == b.children@.len(),
            i <= a.children@.len(),
            a@.tag == b@.tag,
            a@.attrs == b@.attrs,
            forall|j: int| 0 <= j < i ==> #[trigger] a@.children[j] == b@.children[j],
        decreases a.children@.len() - i,
    {
        if !node_eq(&a.children[i], &b.children[i]) {
            proof {
                lemma_node_child_view(*a, i as int);
                lemma_node_child_view(*b, i as int);
                assert(a@.children[i as int] != b@.children[i as int]);
            }
            return false;
        }
        proof {
            lemma_node_child_view(*a, i as int);
            lemma_node_child_view(*b, i as int);
        }
        i = i + 1;
    }
    proof {
        lemma_node_view_len(*a);
        lemma_node_view_len(*b);
        assert(a@.children =~= b@.children);
        assert(a@ =~= b@);
    }
    true
}

impl PartialEq for Node {
    fn eq(&self, other: &Node) -> (r: bool) {
        node_eq(self, other)
    }
}

impl vstd::std_specs::cmp::PartialEqSpecImpl for Node {
    open spec fn obeys_eq_spec() -> bool {
        true
    }

    open spec fn eq_spec(&self, other: &Node) -> bool {
        self@ == other@
    }
}

/// A fresh path with the same indices.
pub(crate) fn clone_id(id: &Id) -> (r: Id)
    ensures
        r@ == id@,
{
    let mut r: Vec<usize> = Vec::new();
    let mut i: usize = 0;
    while i < id.len()
        invariant
            i <= id@.len(),
            r@ =~= id@.subrange(0, i as int),
        decreases id@.len() - i,
    {
        r.push(id[i]);
        i = i + 1;
    }
    proof {
        assert(r@ =~= id@);
    }
    r
}

} // verus!
