//! The routing table: a trie over path segments, keyed by method.
use vstd::prelude::*;
use vstd::string::StringSliceAdditionalSpecFns;

use crate::error::ServerError;
use crate::method::Method;
use crate::path::{
    bytes_eq, is_param, lemma_segments_normalized, param_name, segment_is_param,
    segment_param_name, segments, split_segments, SEPARATOR,
};

verus! {

/// The key of a trie edge as a value: the method, whether the edge stands
/// for a parameter, and the literal segment (empty for a parameter).
pub type KeyView = (Method, bool, Seq<u8>);

/// The edge that a concrete segment `s` takes literally.
pub open spec fn literal_key(m: Method, s: Seq<u8>) -> KeyView {
    (m, false, s)
}

/// The edge that any concrete segment may take as a parameter.
pub open spec fn dynamic_key(m: Method) -> KeyView {
    (m, true, Seq::empty())
}

/// The edge under which a registered segment is stored.
pub open spec fn pattern_key(m: Method, s: Seq<u8>) -> KeyView {
    if is_param(s) {
        dynamic_key(m)
    } else {
        literal_key(m, s)
    }
}

/// The edges along which a registered pattern is stored.
pub open spec fn pattern_keys(m: Method, pattern: Seq<Seq<u8>>) -> Seq<KeyView> {
    pattern.map_values(|s: Seq<u8>| pattern_key(m, s))
}

/// The edges that a concrete path takes when every segment goes literally.
pub open spec fn literal_keys(m: Method, segs: Seq<Seq<u8>>) -> Seq<KeyView> {
    segs.map_values(|s: Seq<u8>| literal_key(m, s))
}

/// The entries of `ps` whose name is not `name`, in order.
pub open spec fn without_name(ps: Seq<(Seq<u8>, usize)>, name: Seq<u8>) -> Seq<(Seq<u8>, usize)>
    decreases ps.len(),
{
    if ps.len() == 0 {
        Seq::empty()
    } else {
        let rest = without_name(ps.drop_last(), name);
        if ps.last().0 == name {
            rest
        } else {
            rest.push(ps.last())
        }
    }
}

/// The parameter names of a pattern, each with its zero-based position;
/// a name used twice keeps its last position.
pub open spec fn pattern_params(pattern: Seq<Seq<u8>>) -> Seq<(Seq<u8>, usize)>
    decreases pattern.len(),
{
    if pattern.len() == 0 {
        Seq::empty()
    } else {
        let rest = pattern_params(pattern.drop_last());
        if is_param(pattern.last()) {
            let name = param_name(pattern.last());
            without_name(rest, name).push((name, (pattern.len() - 1) as usize))
        } else {
            rest
        }
    }
}

/// No two entries share a name.
pub open spec fn names_distinct(ps: Seq<(Seq<u8>, usize)>) -> bool {
    forall|a: int, b: int| 0 <= a < b < ps.len() ==> #[trigger] ps[a].0 != #[trigger] ps[b].0
}

/// Each parameter name paired with the concrete segment at its position.
pub open spec fn bind_params(params: Seq<(Seq<u8>, usize)>, segs: Seq<Seq<u8>>) -> Seq<
    (Seq<u8>, Seq<u8>),
> {
    params.map_values(|p: (Seq<u8>, usize)| (p.0, segs[p.1 as int]))
}

/// Whether `ks` is a prefix of `full`.
pub open spec fn is_prefix_of(ks: Seq<KeyView>, full: Seq<KeyView>) -> bool {
    ks.len() <= full.len() && full.subrange(0, ks.len() as int) == ks
}

/// The key of a trie edge.
#[derive(Debug)]
pub struct RoutingKey {
    pub method: Method,
    pub dynamic: bool,
    pub segment: Vec<u8>,
}

impl View for RoutingKey {
    type V = KeyView;

    open spec fn view(&self) -> KeyView {
        (self.method, self.dynamic, self.segment@)
    }
}

/// A node of the routing trie. The root stands for the empty path; each
/// child is reached by one segment under one method. A node may hold the
/// handler registered for the path that leads to it, with the positions of
/// that path's parameters.
#[derive(Debug)]
pub struct RoutingTable<H> {
    route: Option<H>,
    children: Vec<(RoutingKey, RoutingTable<H>)>,
    params: Vec<(Vec<u8>, usize)>,
}

/// Index of the first child under key `k`, or -1.
pub closed spec fn first_index<H>(cs: Seq<(RoutingKey, RoutingTable<H>)>, k: KeyView) -> int
    decreases cs.len(),
{
    if cs.len() == 0 {
        -1
    } else {
        let i = first_index(cs.drop_last(), k);
        if i >= 0 {
            i
        } else if cs.last().0@ == k {
            cs.len() - 1
        } else {
            -1
        }
    }
}

/// The first index under key `k` is the least index whose key is `k`.
proof fn lemma_first_index<H>(cs: Seq<(RoutingKey, RoutingTable<H>)>, k: KeyView)
    ensures
        -1 <= first_index(cs, k) < cs.len(),
        first_index(cs, k) >= 0 ==> cs[first_index(cs, k)].0@ == k,
        forall|j: int| 0 <= j < cs.len() && cs[j].0@ == k ==> first_index(cs, k) >= 0 && first_index(cs, k) <= j,
    decreases cs.len(),
{
    if cs.len() > 0 {
        lemma_first_index(cs.drop_last(), k);
        assert forall|j: int| 0 <= j < cs.len() - 1 implies #[trigger] cs[j] == cs.drop_last()[j] by {}
    }
}

/// Replacing the child at one index under the same key keeps every first index.
proof fn lemma_first_index_update<H>(
    cs: Seq<(RoutingKey, RoutingTable<H>)>,
    i: int,
    x: (RoutingKey, RoutingTable<H>),
    k: KeyView,
)
    requires
        0 <= i < cs.len(),
        x.0@ == cs[i].0@,
    ensures
        first_index(cs.update(i, x), k) == first_index(cs, k),
{
    let cu = cs.update(i, x);
    lemma_first_index(cs, k);
    lemma_first_index(cu, k);
    assert forall|j: int| 0 <= j < cs.len() implies #[trigger] cu[j].0@ == cs[j].0@ by {}
    let a = first_index(cs, k);
    let b = first_index(cu, k);
    if a >= 0 {
        assert(cu[a].0@ == k);
        assert(b >= 0 && b <= a);
        assert(cs[b].0@ == k);
    } else if b >= 0 {
        assert(cs[b].0@ == k);
    }
}

/// Appending a child keeps the first index of every key already present.
proof fn lemma_first_index_push<H>(
    cs: Seq<(RoutingKey, RoutingTable<H>)>,
    x: (RoutingKey, RoutingTable<H>),
    k: KeyView,
)
    ensures
        first_index(cs.push(x), k) == if first_index(cs, k) >= 0 {
            first_index(cs, k)
        } else if x.0@ == k {
            cs.len() as int
        } else {
            -1
        },
{
    assert(cs.push(x).drop_last() =~= cs);
}

/// Dropping a name keeps the other entries, each from the input.
proof fn lemma_without_name(ps: Seq<(Seq<u8>, usize)>, name: Seq<u8>)
    ensures
        forall|k: int|
            0 <= k < without_name(ps, name).len() ==> ps.contains(#[trigger] without_name(ps, name)[k])
                && without_name(ps, name)[k].0 != name,
        forall|x: (Seq<u8>, usize)| ps.contains(x) && x.0 != name ==> #[trigger] without_name(
            ps,
            name,
        ).contains(x),
        names_distinct(ps) ==> names_distinct(without_name(ps, name)),
    decreases ps.len(),
{
    if ps.len() > 0 {
        let init = ps.drop_last();
        let rest = without_name(init, name);
        let r = without_name(ps, name);
        lemma_without_name(init, name);
        assert forall|k: int| 0 <= k < r.len() implies ps.contains(#[trigger] r[k]) && r[k].0 != name by {
            if k < rest.len() {
                assert(r[k] == rest[k]);
                let i = choose|i: int| 0 <= i < init.len() && init[i] == rest[k];
                assert(ps[i] == init[i]);
            } else {
                assert(ps[ps.len() - 1] == r[k]);
            }
        }
        assert forall|x: (Seq<u8>, usize)| ps.contains(x) && x.0 != name implies #[trigger] r.contains(
            x,
        ) by {
            let i = choose|i: int| 0 <= i < ps.len() && ps[i] == x;
            if i < ps.len() - 1 {
                assert(init[i] == x);
                assert(rest.contains(x));
                let k = choose|k: int| 0 <= k < rest.len() && rest[k] == x;
                assert(r[k] == x);
            } else {
                assert(r[r.len() - 1] == x);
            }
        }
        if names_distinct(ps) {
            assert forall|a: int, b: int| 0 <= a < b < init.len() implies #[trigger] init[a].0
                != #[trigger] init[b].0 by {
                assert(init[a] == ps[a] && init[b] == ps[b]);
            }
            assert forall|a: int, b: int| 0 <= a < b < r.len() implies #[trigger] r[a].0
                != #[trigger] r[b].0 by {
                if b < rest.len() {
                    assert(r[a] == rest[a] && r[b] == rest[b]);
                } else {
                    assert(r[a] == rest[a]);
                    assert(init.contains(rest[a]));
                    let i = choose|i: int| 0 <= i < init.len() && init[i] == rest[a];
                    assert(ps[i] == init[i]);
                    assert(r[b] == ps[ps.len() - 1]);
                }
            }
        }
    }
}

/// The recorded positions lie within the pattern, and no name is recorded
/// twice.
proof fn lemma_pattern_params_bound(pattern: Seq<Seq<u8>>)
    requires
        pattern.len() <= usize::MAX,
    ensures
        forall|j: int|
            0 <= j < pattern_params(pattern).len() ==> #[trigger] pattern_params(pattern)[j].1
                < pattern.len(),
        names_distinct(pattern_params(pattern)),
    decreases pattern.len(),
{
    if pattern.len() > 0 {
        let rest = pattern_params(pattern.drop_last());
        let pp = pattern_params(pattern);
        lemma_pattern_params_bound(pattern.drop_last());
        if is_param(pattern.last()) {
            let name = param_name(pattern.last());
            let w = without_name(rest, name);
            lemma_without_name(rest, name);
            assert forall|j: int| 0 <= j < pp.len() implies #[trigger] pp[j].1 < pattern.len() by {
                if j < w.len() {
                    assert(pp[j] == w[j]);
                    assert(rest.contains(w[j]));
                    let i = choose|i: int| 0 <= i < rest.len() && rest[i] == w[j];
                    assert(rest[i].1 < pattern.len() - 1);
                }
            }
            assert forall|a: int, b: int| 0 <= a < b < pp.len() implies #[trigger] pp[a].0
                != #[trigger] pp[b].0 by {
                assert(pp[a] == w[a]);
                if b < w.len() {
                    assert(pp[b] == w[b]);
                }
            }
        } else {
            assert forall|j: int| 0 <= j < pp.len() implies #[trigger] pp[j].1 < pattern.len() by {
                assert(pp[j] == rest[j]);
            }
        }
    }
}

/// Prefix and equality of edge sequences with the same first edge come
/// down to their tails.
proof fn lemma_prefix_front(ks: Seq<KeyView>, pk: Seq<KeyView>)
    requires
        ks.len() > 0,
        pk.len() > 0,
        ks[0] == pk[0],
    ensures
        is_prefix_of(ks, pk) == is_prefix_of(ks.drop_first(), pk.drop_first()),
        (ks == pk) == (ks.drop_first() == pk.drop_first()),
{
    let ks1 = ks.drop_first();
    let rest = pk.drop_first();
    if ks1 == rest {
        assert(ks =~= pk) by {
            assert forall|j: int| 0 <= j < ks.len() implies ks[j] == pk[j] by {
                if j > 0 {
                    assert(ks[j] == ks1[j - 1]);
                    assert(pk[j] == rest[j - 1]);
                }
            }
        }
    }
    if ks.len() <= pk.len() {
        let a = pk.subrange(0, ks.len() as int);
        let b = rest.subrange(0, ks1.len() as int);
        assert(a.drop_first() =~= b);
        if b == ks1 {
            assert forall|j: int| 0 <= j < ks.len() implies a[j] == ks[j] by {
                if j > 0 {
                    assert(a[j] == b[j - 1]);
                    assert(ks[j] == ks1[j - 1]);
                }
            }
            assert(a =~= ks);
        }
        if a == ks {
            assert(b =~= ks1);
        }
    }
}

/// The entries of `ps` whose name is not `name`.
fn drop_name(ps: Vec<(Vec<u8>, usize)>, name: &[u8]) -> (r: Vec<(Vec<u8>, usize)>)
    ensures
        r@.map_values(|p: (Vec<u8>, usize)| (p.0@, p.1)) == without_name(
            ps@.map_values(|p: (Vec<u8>, usize)| (p.0@, p.1)),
            name@,
        ),
{
    let ghost pv = ps@.map_values(|p: (Vec<u8>, usize)| (p.0@, p.1));
    let mut r: Vec<(Vec<u8>, usize)> = Vec::new();
    let mut i: usize = 0;
    while i < ps.len()
        invariant
            i <= ps@.len(),
            pv == ps@.map_values(|p: (Vec<u8>, usize)| (p.0@, p.1)),
            r@.map_values(|p: (Vec<u8>, usize)| (p.0@, p.1)) == without_name(
                pv.subrange(0, i as int),
                name@,
            ),
        decreases ps@.len() - i,
    {
        assert(pv.subrange(0, i + 1).drop_last() =~= pv.subrange(0, i as int));
        if !bytes_eq(ps[i].0.as_slice(), name) {
            let entry = (ps[i].0.clone(), ps[i].1);
            assert(entry.0@ =~= pv[i as int].0);
            r.push(entry);
            assert(r@.map_values(|p: (Vec<u8>, usize)| (p.0@, p.1)) =~= without_name(
                pv.subrange(0, i as int),
                name@,
            ).push(pv[i as int]));
        }
        i = i + 1;
    }
    assert(pv.subrange(0, i as int) =~= pv);
    r
}

impl<H> RoutingTable<H> {
    /// The child reached from this node along edge `k`.
    pub closed spec fn child(self, k: KeyView) -> Option<RoutingTable<H>> {
        let i = first_index(self.children@, k);
        if i >= 0 {
            Some(self.children@[i].1)
        } else {
            None
        }
    }

    /// The node reached from this one along the edges `ks`.
    pub closed spec fn node_at(self, ks: Seq<KeyView>) -> Option<RoutingTable<H>>
        decreases ks.len(),
    {
        if ks.len() == 0 {
            Some(self)
        } else {
            match self.node_at(ks.drop_last()) {
                Some(n) => n.child(ks.last()),
                None => None,
            }
        }
    }

    /// Whether the trie has a node at the end of the edges `ks`.
    pub closed spec fn has_node(self, ks: Seq<KeyView>) -> bool {
        self.node_at(ks) is Some
    }

    /// The handler bound at the end of the edges `ks`, if any.
    pub closed spec fn route_at(self, ks: Seq<KeyView>) -> Option<H> {
        match self.node_at(ks) {
            Some(n) => n.route,
            None => None,
        }
    }

    /// The parameters recorded at the end of the edges `ks` (none where
    /// there is no node).
    pub closed spec fn params_at(self, ks: Seq<KeyView>) -> Seq<(Seq<u8>, usize)> {
        match self.node_at(ks) {
            Some(n) => n.params@.map_values(|p: (Vec<u8>, usize)| (p.0@, p.1)),
            None => Seq::empty(),
        }
    }

    /// No two children of this node share a key; in particular a node has
    /// at most one parameter edge per method.
    pub closed spec fn keys_unique(self) -> bool {
        forall|i: int, j: int|
            0 <= i < j < self.children@.len() ==> #[trigger] self.children@[i].0@
                != #[trigger] self.children@[j].0@
    }

    /// No node of the trie has two children under the same key.
    pub closed spec fn all_keys_unique(self) -> bool {
        forall|ks: Seq<KeyView>| #[trigger] self.has_node(ks) ==> self.node_at(ks)->0.keys_unique()
    }

    /// The table's invariant: the root binds no handler, no node has two
    /// children under one key, and the parameter
    /// positions recorded at a node lie within the path that leads to it.
    pub open spec fn wf(self) -> bool {
        &&& self.route_at(Seq::empty()) is None
        &&& self.all_keys_unique()
        &&& forall|ks: Seq<KeyView>, j: int|
            #![trigger self.params_at(ks)[j]]
            0 <= j < self.params_at(ks).len() ==> self.params_at(ks)[j].1 < ks.len()
    }

    /// The edges that a lookup of method `m` takes from the node at `prefix`
    /// through `segs`: at each segment the literal edge if the trie has it,
    /// else the parameter edge; `None` where neither exists.
    pub open spec fn walk(self, m: Method, prefix: Seq<KeyView>, segs: Seq<Seq<u8>>) -> Option<
        Seq<KeyView>,
    >
        decreases segs.len(),
    {
        if segs.len() == 0 {
            Some(prefix)
        } else {
            let lit = prefix.push(literal_key(m, segs[0]));
            let dy = prefix.push(dynamic_key(m));
            if self.has_node(lit) {
                self.walk(m, lit, segs.drop_first())
            } else if self.has_node(dy) {
                self.walk(m, dy, segs.drop_first())
            } else {
                None
            }
        }
    }

    /// The handler that a request of method `m` for the segments `segs`
    /// resolves to.
    pub open spec fn resolved_segs(self, m: Method, segs: Seq<Seq<u8>>) -> Option<H> {
        match self.walk(m, Seq::empty(), segs) {
            Some(ks) => self.route_at(ks),
            None => None,
        }
    }

    /// The handler that a request of method `m` for `path` resolves to.
    pub open spec fn resolved(self, m: Method, path: Seq<u8>) -> Option<H> {
        self.resolved_segs(m, segments(path))
    }

    /// The relation between a table before (`self`) and after (`t`) the
    /// handler `h` with parameters `pv` is bound at the end of the edges
    /// `pk`: the nodes along `pk` now exist, `h` and `pv` sit at its end, and
    /// nothing else changes.
    pub open spec fn binds(
        self,
        t: Self,
        pk: Seq<KeyView>,
        h: H,
        pv: Seq<(Seq<u8>, usize)>,
    ) -> bool {
        &&& forall|ks: Seq<KeyView>| #[trigger]
            t.has_node(ks) == (self.has_node(ks) || is_prefix_of(ks, pk))
        &&& forall|ks: Seq<KeyView>| #[trigger]
            t.route_at(ks) == if ks == pk {
                Some(h)
            } else {
                self.route_at(ks)
            }
        &&& forall|ks: Seq<KeyView>| #[trigger]
            t.params_at(ks) == if ks == pk {
                pv
            } else {
                self.params_at(ks)
            }
    }

    /// The relation between a table before (`self`) and after (`t`) the
    /// handler `h` is registered for method `m` and `pattern`.
    pub open spec fn registers(self, t: Self, m: Method, pattern: Seq<Seq<u8>>, h: H) -> bool {
        self.binds(t, pattern_keys(m, pattern), h, pattern_params(pattern))
    }
}

} // verus!

verus! {

impl<H> RoutingTable<H> {
    /// An empty table: a root with no handler and no children.
    pub fn new() -> (r: Self)
        ensures
            r.wf(),
            forall|ks: Seq<KeyView>| #[trigger] r.has_node(ks) == (ks.len() == 0),
            forall|ks: Seq<KeyView>| #[trigger] r.route_at(ks) is None,
            forall|ks: Seq<KeyView>| #[trigger] r.params_at(ks) == Seq::<(Seq<u8>, usize)>::empty(),
    {
        let r = RoutingTable { route: None, children: Vec::new(), params: Vec::new() };
        assert forall|ks: Seq<KeyView>| #[trigger] r.has_node(ks) == (ks.len() == 0) by {
            r.lemma_empty_node_at(ks);
        }
        assert forall|ks: Seq<KeyView>| #[trigger] r.params_at(ks) == Seq::<(Seq<u8>, usize)>::empty() by {
            r.lemma_empty_node_at(ks);
            if ks.len() == 0 {
                assert(r.params_at(ks) =~= Seq::<(Seq<u8>, usize)>::empty());
            }
        }
        assert forall|ks: Seq<KeyView>| #[trigger] r.route_at(ks) is None by {
            r.lemma_empty_node_at(ks);
        }
        r
    }

    /// An empty node has no node below it.
    proof fn lemma_empty_node_at(self, ks: Seq<KeyView>)
        requires
            self.route is None,
            self.children@.len() == 0,
            self.params@.len() == 0,
        ensures
            self.node_at(ks) == if ks.len() == 0 {
                Some(self)
            } else {
                None
            },
        decreases ks.len(),
    {
        if ks.len() > 0 {
            self.lemma_empty_node_at(ks.drop_last());
            if ks.len() == 1 {
                reveal_with_fuel(first_index, 1);
            }
        }
    }

    /// The index of the first child under the key `(m, dynamic, seg)`.
    fn find_child(&self, m: Method, dynamic: bool, seg: &[u8]) -> (r: Option<usize>)
        ensures
            match r {
                Some(i) => i < self.children@.len() && first_index(self.children@, (m, dynamic, seg@))
                    == i,
                None => first_index(self.children@, (m, dynamic, seg@)) == -1,
            },
    {
        let ghost k: KeyView = (m, dynamic, seg@);
        proof {
            lemma_first_index(self.children@, k);
        }
        let mut i: usize = 0;
        while i < self.children.len()
            invariant
                i <= self.children@.len(),
                k == (m, dynamic, seg@),
                forall|j: int| 0 <= j < i ==> #[trigger] self.children@[j].0@ != k,
                -1 <= first_index(self.children@, k) < self.children@.len(),
                first_index(self.children@, k) >= 0 ==> self.children@[first_index(self.children@, k)].0@ == k,
                forall|j: int| 0 <= j < self.children@.len() && self.children@[j].0@ == k ==> first_index(self.children@, k) >= 0 && first_index(self.children@, k) <= j,
            decreases self.children@.len() - i,
        {
            let key = &self.children[i].0;
            let same_method = key.method == m;
            let same_kind = key.dynamic == dynamic;
            let same_segment = bytes_eq(key.segment.as_slice(), seg);
            assert(key@ == self.children@[i as int].0@);
            if same_method && same_kind && same_segment {
                return Some(i);
            }
            i = i + 1;
        }
        None
    }

    /// Following one more edge from the node at `prefix`.
    proof fn lemma_node_at_push(self, prefix: Seq<KeyView>, k: KeyView)
        ensures
            self.node_at(prefix.push(k)) == match self.node_at(prefix) {
                Some(n) => n.child(k),
                None => None,
            },
    {
        assert(prefix.push(k).drop_last() =~= prefix);
    }

    /// The node that a lookup of method `m` for `segs` ends at.
    fn walk_node(&self, m: Method, segs: &Vec<Vec<u8>>) -> (r: Option<&RoutingTable<H>>)
        ensures
            match r {
                Some(n) => {
                    &&& self.walk(m, Seq::empty(), segs@.map_values(|v: Vec<u8>| v@)) is Some
                    &&& self.node_at(self.walk(m, Seq::empty(), segs@.map_values(|v: Vec<u8>| v@))->0)
                        == Some(*n)
                },
                None => self.walk(m, Seq::empty(), segs@.map_values(|v: Vec<u8>| v@)) is None,
            },
    {
        let ghost sv = segs@.map_values(|v: Vec<u8>| v@);
        let mut table: &RoutingTable<H> = self;
        let ghost mut prefix: Seq<KeyView> = Seq::empty();
        let mut i: usize = 0;
        assert(sv.skip(0) =~= sv);
        while i < segs.len()
            invariant
                i <= segs@.len(),
                sv == segs@.map_values(|v: Vec<u8>| v@),
                self.node_at(prefix) == Some(*table),
                self.walk(m, Seq::empty(), sv) == self.walk(m, prefix, sv.skip(i as int)),
            decreases segs@.len() - i,
        {
            let ghost rest = sv.skip(i as int);
            assert(rest[0] == sv[i as int]);
            assert(rest.drop_first() =~= sv.skip(i + 1));
            let seg = segs[i].as_slice();
            proof {
                self.lemma_node_at_push(prefix, literal_key(m, sv[i as int]));
                self.lemma_node_at_push(prefix, dynamic_key(m));
                lemma_first_index(table.children@, literal_key(m, sv[i as int]));
                lemma_first_index(table.children@, dynamic_key(m));
            }
            match table.find_child(m, false, seg) {
                Some(j) => {
                    proof {
                        prefix = prefix.push(literal_key(m, sv[i as int]));
                    }
                    table = &table.children[j].1;
                },
                None => {
                    let empty: Vec<u8> = Vec::new();
                    assert(empty@ =~= Seq::<u8>::empty());
                    match table.find_child(m, true, empty.as_slice()) {
                        Some(j) => {
                            proof {
                                prefix = prefix.push(dynamic_key(m));
                            }
                            table = &table.children[j].1;
                        },
                        None => {
                            return None;
                        },
                    }
                },
            }
            i = i + 1;
        }
        assert(sv.skip(i as int) =~= Seq::<Seq<u8>>::empty());
        Some(table)
    }

    /// Following the first edge, then the rest.
    proof fn lemma_node_at_front(self, ks: Seq<KeyView>)
        requires
            ks.len() > 0,
        ensures
            self.node_at(ks) == match self.child(ks[0]) {
                Some(c) => c.node_at(ks.drop_first()),
                None => None,
            },
        decreases ks.len(),
    {
        if ks.len() > 1 {
            self.lemma_node_at_front(ks.drop_last());
            assert(ks.drop_last().drop_first() =~= ks.drop_first().drop_last());
            assert(ks.drop_last()[0] == ks[0]);
            assert(ks.drop_first().last() == ks.last());
            match self.child(ks[0]) {
                Some(c) => {
                    assert(c.node_at(ks.drop_first()) == match c.node_at(
                        ks.drop_first().drop_last(),
                    ) {
                        Some(n) => n.child(ks.drop_first().last()),
                        None => None,
                    });
                },
                None => {},
            }
        } else {
            assert(ks.drop_last() =~= Seq::<KeyView>::empty());
            assert(ks.drop_first() =~= Seq::<KeyView>::empty());
            assert(self.node_at(ks.drop_last()) == Some(self));
            assert(ks.last() == ks[0]);
            match self.child(ks[0]) {
                Some(c) => {
                    assert(c.node_at(ks.drop_first()) == Some(c));
                },
                None => {},
            }
        }
    }

    /// Two tables whose roots agree on route, parameters and the child
    /// under each edge agree at every non-root path in the same way.
    proof fn lemma_same_children(self, t: Self, ks: Seq<KeyView>)
        requires
            ks.len() > 0,
            self.child(ks[0]) == t.child(ks[0]),
        ensures
            self.node_at(ks) == t.node_at(ks),
    {
        self.lemma_node_at_front(ks);
        t.lemma_node_at_front(ks);
    }

    /// The subtree under a child keeps the uniqueness of keys.
    proof fn lemma_child_unique(self, k: KeyView)
        requires
            self.all_keys_unique(),
            self.child(k) is Some,
        ensures
            self.child(k)->0.all_keys_unique(),
    {
        let c = self.child(k)->0;
        assert forall|ks1: Seq<KeyView>| #[trigger] c.has_node(ks1) implies c.node_at(
            ks1,
        )->0.keys_unique() by {
            let ks = seq![k] + ks1;
            assert(ks.drop_first() =~= ks1);
            assert(ks[0] == k);
            self.lemma_node_at_front(ks);
            assert(self.has_node(ks));
        }
    }

    /// A node whose own keys are unique, and whose children's subtrees keep
    /// their keys unique, keeps keys unique throughout.
    proof fn lemma_unique_from_children(self)
        requires
            self.keys_unique(),
            forall|k: KeyView| #[trigger] self.child(k) is Some ==> self.child(k)->0.all_keys_unique(),
        ensures
            self.all_keys_unique(),
    {
        assert forall|ks: Seq<KeyView>| #[trigger] self.has_node(ks) implies self.node_at(
            ks,
        )->0.keys_unique() by {
            if ks.len() > 0 {
                self.lemma_node_at_front(ks);
                let c = self.child(ks[0])->0;
                assert(c.has_node(ks.drop_first()));
            }
        }
    }

    /// Binds `handler` with `params` at the end of the pattern edges of
    /// `segs` from position `pos` on, creating the nodes on the way.
    fn bind(
        &mut self,
        segs: &Vec<Vec<u8>>,
        pos: usize,
        m: Method,
        handler: H,
        params: Vec<(Vec<u8>, usize)>,
    )
        requires
            pos <= segs@.len(),
        ensures
            old(self).binds(
                *final(self),
                pattern_keys(m, segs@.map_values(|v: Vec<u8>| v@).skip(pos as int)),
                handler,
                params@.map_values(|p: (Vec<u8>, usize)| (p.0@, p.1)),
            ),
            old(self).all_keys_unique() ==> final(self).all_keys_unique(),
        decreases segs@.len() - pos,
    {
        let ghost sv = segs@.map_values(|v: Vec<u8>| v@);
        let ghost pk = pattern_keys(m, sv.skip(pos as int));
        let ghost pv = params@.map_values(|p: (Vec<u8>, usize)| (p.0@, p.1));
        let ghost before = *self;
        if pos == segs.len() {
            assert(pk =~= Seq::<KeyView>::empty());
            self.route = Some(handler);
            self.params = params;
            let ghost after = *self;
            assert forall|ks: Seq<KeyView>|
                #![trigger after.has_node(ks)]
                #![trigger after.route_at(ks)]
                #![trigger after.params_at(ks)]
                after.has_node(ks) == (before.has_node(ks) || is_prefix_of(ks, pk))
                && after.route_at(ks) == (if ks == pk { Some(handler) } else { before.route_at(ks) })
                && after.params_at(ks) == (if ks == pk { pv } else { before.params_at(ks) }) by {
                if ks.len() > 0 {
                    before.lemma_same_children(after, ks);
                } else {
                    assert(ks =~= pk);
                }
            }
            proof {
                if before.all_keys_unique() {
                    assert(before.has_node(Seq::empty()));
                    assert forall|k2: KeyView| #[trigger] after.child(k2) is Some implies after.child(
                        k2,
                    )->0.all_keys_unique() by {
                        before.lemma_child_unique(k2);
                    }
                    after.lemma_unique_from_children();
                }
            }
        } else {
            let ghost rest = pattern_keys(m, sv.skip(pos + 1));
            assert(pk.drop_first() =~= rest);
            let seg = segs[pos].as_slice();
            let dynamic = segment_is_param(seg);
            let key = if dynamic {
                RoutingKey { method: m, dynamic: true, segment: Vec::new() }
            } else {
                RoutingKey { method: m, dynamic: false, segment: segs[pos].clone() }
            };
            assert(key.segment@ =~= if dynamic { Seq::<u8>::empty() } else { sv[pos as int] });
            let ghost k = key@;
            assert(k == pk[0]);
            proof {
                lemma_first_index(before.children@, k);
            }
            match self.find_child(key.method, key.dynamic, key.segment.as_slice()) {
                Some(i) => {
                    let (old_key, mut child) = self.children.remove(i);
                    let ghost c0 = child;
                    assert(c0 == before.children@[i as int].1);
                    child.bind(segs, pos + 1, m, handler, params);
                    let ghost c1 = child;
                    self.children.insert(i, (old_key, child));
                    let ghost after = *self;
                    assert(after.children@ =~= before.children@.update(
                        i as int,
                        (before.children@[i as int].0, c1),
                    ));
                    assert forall|ks: Seq<KeyView>|
                #![trigger after.has_node(ks)]
                #![trigger after.route_at(ks)]
                #![trigger after.params_at(ks)]
                        after.has_node(ks) == (before.has_node(ks) || is_prefix_of(ks, pk))
                        && after.route_at(ks) == (if ks == pk { Some(handler) } else { before.route_at(ks) })
                        && after.params_at(ks) == (if ks == pk { pv } else { before.params_at(ks) }) by {
                        if ks.len() > 0 {
                            lemma_first_index_update(
                                before.children@,
                                i as int,
                                (before.children@[i as int].0, c1),
                                ks[0],
                            );
                            lemma_first_index(before.children@, ks[0]);
                            before.lemma_node_at_front(ks);
                            after.lemma_node_at_front(ks);
                            if ks[0] == k {
                                let ks1 = ks.drop_first();
                                assert(after.child(ks[0]) == Some(c1));
                                assert(before.child(ks[0]) == Some(c0));
                                assert(c0.has_node(ks1) == before.has_node(ks));
                                lemma_prefix_front(ks, pk);
                                assert(after.has_node(ks) == c1.has_node(ks1));
                                assert(after.route_at(ks) == c1.route_at(ks1));
                                assert(after.params_at(ks) == c1.params_at(ks1));
                                assert(before.route_at(ks) == c0.route_at(ks1));
                                assert(before.params_at(ks) == c0.params_at(ks1));
                            } else {
                                assert(after.child(ks[0]) == before.child(ks[0]));
                                assert(ks != pk);
                                assert(!is_prefix_of(ks, pk)) by {
                                    if is_prefix_of(ks, pk) {
                                        assert(pk.subrange(0, ks.len() as int)[0] == pk[0]);
                                    }
                                }
                            }
                        } else {
                            assert(ks != pk);
                        }
                    }
                    proof {
                        if before.all_keys_unique() {
                            assert(before.has_node(Seq::empty()));
                            before.lemma_child_unique(k);
                            assert forall|a: int, b: int|
                                0 <= a < b < after.children@.len() implies #[trigger] after.children@[a].0@
                                != #[trigger] after.children@[b].0@ by {
                                assert(after.children@[a].0@ == before.children@[a].0@);
                                assert(after.children@[b].0@ == before.children@[b].0@);
                            }
                            assert forall|k2: KeyView| #[trigger] after.child(k2) is Some implies after.child(
                                k2,
                            )->0.all_keys_unique() by {
                                lemma_first_index_update(
                                    before.children@,
                                    i as int,
                                    (before.children@[i as int].0, c1),
                                    k2,
                                );
                                lemma_first_index(before.children@, k2);
                                if k2 != k {
                                    before.lemma_child_unique(k2);
                                }
                            }
                            after.lemma_unique_from_children();
                        }
                    }
                },
                None => {
                    let mut child: RoutingTable<H> = RoutingTable::new();
                    let ghost c0 = child;
                    child.bind(segs, pos + 1, m, handler, params);
                    let ghost c1 = child;
                    let ghost entry = (key, c1);
                    self.children.push((key, child));
                    let ghost after = *self;
                    let ghost n = before.children@.len() as int;
                    assert(after.children@ =~= before.children@.push(entry));
                    assert forall|ks: Seq<KeyView>|
                #![trigger after.has_node(ks)]
                #![trigger after.route_at(ks)]
                #![trigger after.params_at(ks)]
                        after.has_node(ks) == (before.has_node(ks) || is_prefix_of(ks, pk))
                        && after.route_at(ks) == (if ks == pk { Some(handler) } else { before.route_at(ks) })
                        && after.params_at(ks) == (if ks == pk { pv } else { before.params_at(ks) }) by {
                        if ks.len() > 0 {
                            lemma_first_index_push(before.children@, entry, ks[0]);
                            before.lemma_node_at_front(ks);
                            after.lemma_node_at_front(ks);
                            if ks[0] == k {
                                let ks1 = ks.drop_first();
                                assert(c0.has_node(ks1) == (ks1.len() == 0));
                                assert(!before.has_node(ks));
                                lemma_prefix_front(ks, pk);
                                assert(after.has_node(ks) == c1.has_node(ks1));
                                assert(after.route_at(ks) == c1.route_at(ks1));
                                assert(after.params_at(ks) == c1.params_at(ks1));
                                assert(before.route_at(ks) == c0.route_at(ks1));
                                assert(before.params_at(ks) == c0.params_at(ks1));
                                if ks1.len() == 0 {
                                    assert(rest.subrange(0, 0) =~= ks1);
                                }
                            } else {
                                let fi = first_index(before.children@, ks[0]);
                                lemma_first_index(before.children@, ks[0]);
                                if fi >= 0 {
                                    assert(after.children@[fi] == before.children@[fi]);
                                }
                                assert(after.child(ks[0]) == before.child(ks[0]));
                                assert(ks != pk);
                                assert(!is_prefix_of(ks, pk)) by {
                                    if is_prefix_of(ks, pk) {
                                        assert(pk.subrange(0, ks.len() as int)[0] == pk[0]);
                                    }
                                }
                            }
                        } else {
                            assert(ks != pk);
                        }
                    }
                    proof {
                        if before.all_keys_unique() {
                            assert(before.has_node(Seq::empty()));
                            assert forall|a: int, b: int|
                                0 <= a < b < after.children@.len() implies #[trigger] after.children@[a].0@
                                != #[trigger] after.children@[b].0@ by {
                                assert(after.children@[a].0@ == before.children@[a].0@);
                                if b < n {
                                    assert(after.children@[b].0@ == before.children@[b].0@);
                                }
                            }
                            assert forall|k2: KeyView| #[trigger] after.child(k2) is Some implies after.child(
                                k2,
                            )->0.all_keys_unique() by {
                                lemma_first_index_push(before.children@, entry, k2);
                                lemma_first_index(before.children@, k2);
                                if k2 != k {
                                    let fi = first_index(before.children@, k2);
                                    assert(after.children@[fi] == before.children@[fi]);
                                    before.lemma_child_unique(k2);
                                }
                            }
                            after.lemma_unique_from_children();
                        }
                    }
                },
            }
        }
    }

    /// Registers `handler` for requests of method `method` on `path`, whose
    /// segments written `{name}` match any segment and are recorded with
    /// their positions. A second registration of the same method and
    /// pattern replaces the first. A path with no segment, such as `/`, is
    /// refused and leaves the table as it was.
    pub fn at(&mut self, path: &str, method: Method, handler: H) -> (r: Result<(), ServerError>)
        requires
            old(self).wf(),
        ensures
            final(self).wf(),
            r is Ok == (segments(path.spec_bytes()).len() > 0),
            r is Ok ==> old(self).registers(*final(self), method, segments(path.spec_bytes()), handler),
            r matches Err(e) ==> e is IllegalPath && *final(self) == *old(self),
    {
        let segs = split_segments(path.as_bytes());
        let ghost sv = segs@.map_values(|v: Vec<u8>| v@);
        if segs.len() == 0 {
            return Err(ServerError::IllegalPath);
        }
        let mut params: Vec<(Vec<u8>, usize)> = Vec::new();
        let mut i: usize = 0;
        while i < segs.len()
            invariant
                i <= segs@.len(),
                sv == segs@.map_values(|v: Vec<u8>| v@),
                params@.map_values(|p: (Vec<u8>, usize)| (p.0@, p.1)) == pattern_params(
                    sv.subrange(0, i as int),
                ),
            decreases segs@.len() - i,
        {
            let seg = segs[i].as_slice();
            assert(sv.subrange(0, i + 1).drop_last() =~= sv.subrange(0, i as int));
            if segment_is_param(seg) {
                let name = segment_param_name(seg);
                params = drop_name(params, name.as_slice());
                params.push((name, i));
                assert(params@.map_values(|p: (Vec<u8>, usize)| (p.0@, p.1)) =~= without_name(
                    pattern_params(sv.subrange(0, i as int)),
                    param_name(sv[i as int]),
                ).push((param_name(sv[i as int]), i)));
            }
            i = i + 1;
        }
        assert(sv.subrange(0, i as int) =~= sv);
        assert(sv.skip(0) =~= sv);
        let ghost before = *self;
        self.bind(&segs, 0, method, handler, params);
        proof {
            let pk = pattern_keys(method, sv);
            lemma_pattern_params_bound(sv);
            assert(pk.len() > 0);
            assert(self.route_at(Seq::empty()) == before.route_at(Seq::empty()));
            assert forall|ks: Seq<KeyView>, j: int|
                #![trigger self.params_at(ks)[j]]
                0 <= j < self.params_at(ks).len() implies self.params_at(ks)[j].1 < ks.len() by {
                if ks != pk {
                    assert(self.params_at(ks) == before.params_at(ks));
                    assert(before.params_at(ks)[j].1 < ks.len());
                } else {
                    assert(self.params_at(ks) == pattern_params(sv));
                }
            }
        }
        Ok(())
    }

    /// A lookup that succeeds has followed one edge per segment.
    proof fn lemma_walk_len(self, m: Method, prefix: Seq<KeyView>, segs: Seq<Seq<u8>>)
        ensures
            self.walk(m, prefix, segs) matches Some(ks) ==> ks.len() == prefix.len() + segs.len(),
        decreases segs.len(),
    {
        if segs.len() > 0 {
            self.lemma_walk_len(m, prefix.push(literal_key(m, segs[0])), segs.drop_first());
            self.lemma_walk_len(m, prefix.push(dynamic_key(m)), segs.drop_first());
        }
    }

    /// The parameters of the route that a request of method `method` on
    /// `path` resolves to, each name paired with the segment of `path` at
    /// its position; `None` where no route matches.
    pub fn path_params(&self, method: Method, path: &str) -> (r: Option<Vec<(Vec<u8>, Vec<u8>)>>)
        requires
            self.wf(),
        ensures
            r is Some == (self.resolved(method, path.spec_bytes()) is Some),
            r matches Some(v) ==> v@.map_values(|p: (Vec<u8>, Vec<u8>)| (p.0@, p.1@)) == bind_params(
                self.params_at(self.walk(method, Seq::empty(), segments(path.spec_bytes()))->0),
                segments(path.spec_bytes()),
            ),
    {
        let segs = split_segments(path.as_bytes());
        let ghost sv = segs@.map_values(|v: Vec<u8>| v@);
        let node = match self.walk_node(method, &segs) {
            Some(node) => node,
            None => {
                return None;
            },
        };
        if node.route.is_none() {
            return None;
        }
        let ghost ks = self.walk(method, Seq::empty(), sv)->0;
        let ghost pv = node.params@.map_values(|p: (Vec<u8>, usize)| (p.0@, p.1));
        proof {
            self.lemma_walk_len(method, Seq::empty(), sv);
            assert(self.params_at(ks) == pv);
        }
        let mut out: Vec<(Vec<u8>, Vec<u8>)> = Vec::new();
        let mut i: usize = 0;
        while i < node.params.len()
            invariant
                i <= node.params@.len(),
                sv == segs@.map_values(|v: Vec<u8>| v@),
                pv == node.params@.map_values(|p: (Vec<u8>, usize)| (p.0@, p.1)),
                self.params_at(ks) == pv,
                ks.len() == sv.len(),
                self.wf(),
                out@.len() == i,
                out@.map_values(|p: (Vec<u8>, Vec<u8>)| (p.0@, p.1@)) == bind_params(
                    pv.subrange(0, i as int),
                    sv,
                ),
            decreases node.params@.len() - i,
        {
            let name = node.params[i].0.clone();
            let idx = node.params[i].1;
            assert(pv[i as int].1 == idx);
            assert(self.params_at(ks)[i as int].1 < ks.len());
            let value = segs[idx].clone();
            assert(name@ =~= pv[i as int].0);
            assert(value@ =~= sv[idx as int]);
            let ghost prev = out@.map_values(|p: (Vec<u8>, Vec<u8>)| (p.0@, p.1@));
            let ghost prev_out = out@;
            out.push((name, value));
            assert forall|j: int| 0 <= j <= i implies #[trigger] bind_params(pv.subrange(0, i + 1), sv)[j]
                == out@.map_values(|p: (Vec<u8>, Vec<u8>)| (p.0@, p.1@))[j] by {
                if j < i {
                    assert(bind_params(pv.subrange(0, i as int), sv)[j] == prev[j]);
                    assert(out@[j] == prev_out[j]);
                }
            }
            assert(out@.map_values(|p: (Vec<u8>, Vec<u8>)| (p.0@, p.1@)) =~= bind_params(
                pv.subrange(0, i + 1),
                sv,
            ));
            i = i + 1;
        }
        assert(pv.subrange(0, i as int) =~= pv);
        Some(out)
    }

    /// The handler bound for requests of method `method` on `path`.
    /// Empty segments are skipped, a literal edge is preferred to a
    /// parameter edge, and `None` means that no route matches.
    pub fn resolve(&self, method: Method, path: &str) -> (r: Option<&H>)
        ensures
            match r {
                Some(h) => self.resolved(method, path.spec_bytes()) == Some(*h),
                None => self.resolved(method, path.spec_bytes()) is None,
            },
    {
        let segs = split_segments(path.as_bytes());
        match self.walk_node(method, &segs) {
            Some(node) => match &node.route {
                Some(h) => Some(h),
                None => None,
            },
            None => None,
        }
    }
}

} // verus!

verus! {

/// Whether the edges `ks` are ones a lookup of method `m` for `segs` could
/// take: one per segment, each literal for that segment or a parameter.
pub open spec fn fits(ks: Seq<KeyView>, m: Method, segs: Seq<Seq<u8>>) -> bool {
    &&& ks.len() == segs.len()
    &&& forall|j: int|
        0 <= j < ks.len() ==> #[trigger] ks[j] == literal_key(m, segs[j]) || ks[j] == dynamic_key(m)
}

impl<H> RoutingTable<H> {
    /// Every prefix of a path in the trie is in the trie.
    proof fn lemma_has_node_prefix(self, ks: Seq<KeyView>, n: int)
        requires
            self.has_node(ks),
            0 <= n <= ks.len(),
        ensures
            self.has_node(ks.subrange(0, n)),
        decreases ks.len() - n,
    {
        if n < ks.len() {
            assert(ks.drop_last() =~= ks.subrange(0, ks.len() - 1));
            self.lemma_has_node_prefix(ks.drop_last(), n);
            assert(ks.drop_last().subrange(0, n) =~= ks.subrange(0, n));
        } else {
            assert(ks.subrange(0, n) =~= ks);
        }
    }

    /// Where the trie holds the literal edges of `segs` after `prefix`, a
    /// lookup takes exactly those edges.
    proof fn lemma_walk_literal(self, m: Method, prefix: Seq<KeyView>, segs: Seq<Seq<u8>>)
        requires
            self.has_node(prefix + literal_keys(m, segs)),
        ensures
            self.walk(m, prefix, segs) == Some(prefix + literal_keys(m, segs)),
        decreases segs.len(),
    {
        let full = prefix + literal_keys(m, segs);
        if segs.len() == 0 {
            assert(full =~= prefix);
        } else {
            let lit = prefix.push(literal_key(m, segs[0]));
            self.lemma_has_node_prefix(full, prefix.len() + 1 as int);
            assert(full.subrange(0, prefix.len() + 1 as int) =~= lit);
            assert(lit + literal_keys(m, segs.drop_first()) =~= full);
            self.lemma_walk_literal(m, lit, segs.drop_first());
        }
    }

    /// The edges a lookup takes after `prefix` fit the segments.
    proof fn lemma_walk_fits(self, m: Method, prefix: Seq<KeyView>, segs: Seq<Seq<u8>>)
        ensures
            self.walk(m, prefix, segs) matches Some(ks) ==> ks.len() == prefix.len() + segs.len()
                && ks.subrange(0, prefix.len() as int) == prefix && fits(
                ks.subrange(prefix.len() as int, ks.len() as int),
                m,
                segs,
            ),
        decreases segs.len(),
    {
        if segs.len() == 0 {
            if self.walk(m, prefix, segs) is Some {
                let ks = self.walk(m, prefix, segs)->0;
                assert(ks.subrange(0, prefix.len() as int) =~= prefix);
            }
        } else {
            let lit = prefix.push(literal_key(m, segs[0]));
            let dy = prefix.push(dynamic_key(m));
            let next = if self.has_node(lit) {
                lit
            } else {
                dy
            };
            self.lemma_walk_fits(m, next, segs.drop_first());
            if self.walk(m, prefix, segs) is Some {
                let ks = self.walk(m, prefix, segs)->0;
                assert(self.walk(m, next, segs.drop_first()) == Some(ks));
                assert(ks.subrange(0, prefix.len() as int) =~= next.subrange(0, prefix.len() as int));
                assert(next.subrange(0, prefix.len() as int) =~= prefix);
                let tail = ks.subrange(prefix.len() as int, ks.len() as int);
                let tail1 = ks.subrange(next.len() as int, ks.len() as int);
                assert forall|j: int| 0 <= j < tail.len() implies #[trigger] tail[j] == literal_key(
                    m,
                    segs[j],
                ) || tail[j] == dynamic_key(m) by {
                    if j == 0 {
                        assert(tail[0] == ks[prefix.len() as int]);
                        assert(ks[prefix.len() as int] == ks.subrange(0, next.len() as int)[prefix.len() as int]);
                    } else {
                        assert(tail[j] == tail1[j - 1]);
                        assert(segs[j] == segs.drop_first()[j - 1]);
                    }
                }
            }
        }
    }

    /// A lookup of a method other than the registered one sees the same
    /// trie before and after the registration.
    proof fn lemma_walk_other_method(
        self,
        t: Self,
        m: Method,
        pattern: Seq<Seq<u8>>,
        h: H,
        m2: Method,
        prefix: Seq<KeyView>,
        segs: Seq<Seq<u8>>,
    )
        requires
            self.registers(t, m, pattern, h),
            pattern.len() > 0,
            m2 != m,
            prefix.len() == 0 || prefix[0].0 == m2,
        ensures
            t.walk(m2, prefix, segs) == self.walk(m2, prefix, segs),
        decreases segs.len(),
    {
        if segs.len() > 0 {
            let pk = pattern_keys(m, pattern);
            let lit = prefix.push(literal_key(m2, segs[0]));
            let dy = prefix.push(dynamic_key(m2));
            assert(lit[0].0 == m2);
            assert(dy[0].0 == m2);
            assert(pk[0].0 == m);
            assert(!is_prefix_of(lit, pk)) by {
                if is_prefix_of(lit, pk) {
                    assert(pk.subrange(0, lit.len() as int)[0] == pk[0]);
                }
            }
            assert(!is_prefix_of(dy, pk)) by {
                if is_prefix_of(dy, pk) {
                    assert(pk.subrange(0, dy.len() as int)[0] == pk[0]);
                }
            }
            assert(t.has_node(lit) == self.has_node(lit));
            assert(t.has_node(dy) == self.has_node(dy));
            self.lemma_walk_other_method(t, m, pattern, h, m2, lit, segs.drop_first());
            self.lemma_walk_other_method(t, m, pattern, h, m2, dy, segs.drop_first());
        }
    }
}

/// A handler registered for a pattern without parameters is what a lookup
/// of that method and those segments finds.
pub proof fn law_literal_route_resolves<H>(
    t: RoutingTable<H>,
    t2: RoutingTable<H>,
    m: Method,
    pattern: Seq<Seq<u8>>,
    h: H,
)
    requires
        t.registers(t2, m, pattern, h),
        forall|j: int| 0 <= j < pattern.len() ==> !is_param(#[trigger] pattern[j]),
    ensures
        t2.resolved_segs(m, pattern) == Some(h),
{
    let pk = pattern_keys(m, pattern);
    assert(pk =~= literal_keys(m, pattern));
    assert(pk.subrange(0, pk.len() as int) =~= pk);
    assert(t2.has_node(pk));
    assert(Seq::<KeyView>::empty() + pk =~= pk);
    t2.lemma_walk_literal(m, Seq::empty(), pattern);
}

/// Registering another route leaves what a lookup finds for a path whose
/// literal edges the trie already holds unchanged, unless it is that very
/// pattern under that method.
pub proof fn law_literal_route_kept<H>(
    t: RoutingTable<H>,
    t2: RoutingTable<H>,
    m2: Method,
    pattern2: Seq<Seq<u8>>,
    h2: H,
    m: Method,
    segs: Seq<Seq<u8>>,
)
    requires
        t.registers(t2, m2, pattern2, h2),
        t.has_node(literal_keys(m, segs)),
        literal_keys(m, segs) != pattern_keys(m2, pattern2),
    ensures
        t2.resolved_segs(m, segs) == t.resolved_segs(m, segs),
{
    let lk = literal_keys(m, segs);
    assert(Seq::<KeyView>::empty() + lk =~= lk);
    assert(t2.has_node(lk));
    t.lemma_walk_literal(m, Seq::empty(), segs);
    t2.lemma_walk_literal(m, Seq::empty(), segs);
}

/// Where the trie holds the literal edges of a path, a lookup takes them,
/// whatever parameter edges stand beside them.
pub proof fn law_literal_precedence<H>(t: RoutingTable<H>, m: Method, segs: Seq<Seq<u8>>)
    requires
        t.has_node(literal_keys(m, segs)),
    ensures
        t.resolved_segs(m, segs) == t.route_at(literal_keys(m, segs)),
{
    assert(Seq::<KeyView>::empty() + literal_keys(m, segs) =~= literal_keys(m, segs));
    t.lemma_walk_literal(m, Seq::empty(), segs);
}

/// A path resolves to no handler where no handler is bound on any edges
/// that a lookup of it could take.
pub proof fn law_unregistered_not_found<H>(t: RoutingTable<H>, m: Method, segs: Seq<Seq<u8>>)
    requires
        forall|ks: Seq<KeyView>| fits(ks, m, segs) ==> #[trigger] t.route_at(ks) is None,
    ensures
        t.resolved_segs(m, segs) is None,
{
    t.lemma_walk_fits(m, Seq::empty(), segs);
    if t.walk(m, Seq::empty(), segs) is Some {
        let ks = t.walk(m, Seq::empty(), segs)->0;
        assert(ks.subrange(0, ks.len() as int) =~= ks);
    }
}

/// Each parameter segment of a pattern whose name is not used again
/// later is recorded with its position.
proof fn lemma_pattern_params_contains(pattern: Seq<Seq<u8>>, j: int)
    requires
        0 <= j < pattern.len() <= usize::MAX,
        is_param(pattern[j]),
        forall|k: int|
            j < k < pattern.len() && is_param(#[trigger] pattern[k]) ==> param_name(pattern[k])
                != param_name(pattern[j]),
    ensures
        pattern_params(pattern).contains((param_name(pattern[j]), j as usize)),
    decreases pattern.len(),
{
    let pp = pattern_params(pattern);
    let x = (param_name(pattern[j]), j as usize);
    if j == pattern.len() - 1 {
        assert(pp[pp.len() - 1] == x);
    } else {
        let init = pattern.drop_last();
        assert forall|k: int|
            j < k < init.len() && is_param(#[trigger] init[k]) implies param_name(init[k])
                != param_name(init[j]) by {
            assert(init[k] == pattern[k]);
        }
        lemma_pattern_params_contains(init, j);
        let rest = pattern_params(init);
        if is_param(pattern.last()) {
            let name = param_name(pattern.last());
            assert(pattern.last() == pattern[pattern.len() - 1]);
            lemma_without_name(rest, name);
            assert(without_name(rest, name).contains(x));
            let k = choose|k: int| 0 <= k < without_name(rest, name).len() && without_name(rest, name)[k] == x;
            assert(pp[k] == x);
        }
    }
}

impl<H> RoutingTable<H> {
    /// A lookup in a trie where only `pattern` is registered under `m`
    /// follows the pattern's edges for any segments that fit it.
    proof fn lemma_walk_pattern(
        self,
        t: Self,
        m: Method,
        pattern: Seq<Seq<u8>>,
        h: H,
        segs: Seq<Seq<u8>>,
        i: int,
    )
        requires
            self.registers(t, m, pattern, h),
            forall|j: int|
                0 <= j < pattern.len() && is_param(#[trigger] pattern[j]) ==> !self.has_node(
                    pattern_keys(m, pattern).subrange(0, j).push(literal_key(m, segs[j])),
                ),
            segs.len() == pattern.len(),
            forall|j: int|
                0 <= j < pattern.len() && !is_param(pattern[j]) ==> #[trigger] segs[j] == pattern[j],
            0 <= i <= segs.len(),
        ensures
            t.walk(m, pattern_keys(m, pattern).subrange(0, i), segs.skip(i)) == Some(
                pattern_keys(m, pattern),
            ),
        decreases segs.len() - i,
    {
        let pk = pattern_keys(m, pattern);
        let prefix = pk.subrange(0, i);
        if i == segs.len() {
            assert(prefix =~= pk);
        } else {
            let rest = segs.skip(i);
            assert(rest[0] == segs[i]);
            assert(rest.drop_first() =~= segs.skip(i + 1));
            let next = pk.subrange(0, i + 1);
            assert(next.subrange(0, next.len() as int) =~= next);
            assert(is_prefix_of(next, pk));
            assert(t.has_node(next));
            let lit = prefix.push(literal_key(m, segs[i]));
            if is_param(pattern[i]) {
                assert(prefix.push(dynamic_key(m)) =~= next);
                assert(!self.has_node(lit));
                assert(!is_prefix_of(lit, pk)) by {
                    if is_prefix_of(lit, pk) {
                        assert(pk.subrange(0, lit.len() as int)[i] == pk[i]);
                    }
                }
            } else {
                assert(lit =~= next);
            }
            self.lemma_walk_pattern(t, m, pattern, h, segs, i + 1);
        }
    }
}

/// After a pattern is registered, every path that fits it resolves to its
/// handler, whatever segment stands at a parameter's position, provided no
/// literal edge registered before diverts the lookup there; each parameter
/// name is bound to the segment at its last position, and no name twice.
pub proof fn law_parameter_binds<H>(
    t: RoutingTable<H>,
    t2: RoutingTable<H>,
    m: Method,
    pattern: Seq<Seq<u8>>,
    h: H,
    segs: Seq<Seq<u8>>,
)
    requires
        t.registers(t2, m, pattern, h),
        forall|j: int|
            0 <= j < pattern.len() && is_param(#[trigger] pattern[j]) ==> !t.has_node(
                pattern_keys(m, pattern).subrange(0, j).push(literal_key(m, segs[j])),
            ),
        segs.len() == pattern.len() <= usize::MAX,
        forall|j: int|
            0 <= j < pattern.len() && !is_param(pattern[j]) ==> #[trigger] segs[j] == pattern[j],
    ensures
        t2.resolved_segs(m, segs) == Some(h),
        t2.walk(m, Seq::empty(), segs) == Some(pattern_keys(m, pattern)),
        t2.params_at(pattern_keys(m, pattern)) == pattern_params(pattern),
        names_distinct(pattern_params(pattern)),
        forall|j: int|
            0 <= j < pattern.len() && is_param(pattern[j]) && (forall|k: int|
                j < k < pattern.len() && is_param(#[trigger] pattern[k]) ==> param_name(pattern[k])
                    != param_name(pattern[j])) ==> bind_params(pattern_params(pattern), segs).contains(
                (param_name(#[trigger] pattern[j]), segs[j]),
            ),
{
    lemma_pattern_params_bound(pattern);
    let pk = pattern_keys(m, pattern);
    t.lemma_walk_pattern(t2, m, pattern, h, segs, 0);
    assert(pk.subrange(0, 0) =~= Seq::<KeyView>::empty());
    assert(segs.skip(0) =~= segs);
    assert forall|j: int|
        0 <= j < pattern.len() && is_param(pattern[j]) && (forall|k: int|
            j < k < pattern.len() && is_param(#[trigger] pattern[k]) ==> param_name(pattern[k])
                != param_name(pattern[j])) implies bind_params(pattern_params(pattern), segs).contains(
        (param_name(#[trigger] pattern[j]), segs[j]),
    ) by {
        lemma_pattern_params_contains(pattern, j);
        let k = choose|k: int|
            0 <= k < pattern_params(pattern).len() && pattern_params(pattern)[k] == (
                param_name(pattern[j]),
                j as usize,
            );
        assert(bind_params(pattern_params(pattern), segs)[k] == (param_name(pattern[j]), segs[j]));
    }
}

/// Registering a route for one method changes no lookup of another.
pub proof fn law_method_isolation<H>(
    t: RoutingTable<H>,
    t2: RoutingTable<H>,
    m: Method,
    pattern: Seq<Seq<u8>>,
    h: H,
    m2: Method,
    segs: Seq<Seq<u8>>,
)
    requires
        t.registers(t2, m, pattern, h),
        pattern.len() > 0,
        m2 != m,
    ensures
        t2.resolved_segs(m2, segs) == t.resolved_segs(m2, segs),
{
    t.lemma_walk_other_method(t2, m, pattern, h, m2, Seq::empty(), segs);
    t.lemma_walk_fits(m2, Seq::empty(), segs);
    if t.walk(m2, Seq::empty(), segs) is Some {
        let ks = t.walk(m2, Seq::empty(), segs)->0;
        let pk = pattern_keys(m, pattern);
        if ks.len() == 0 {
            assert(ks != pk);
        } else {
            assert(ks.subrange(0, ks.len() as int) =~= ks);
            assert(ks[0] == literal_key(m2, segs[0]) || ks[0] == dynamic_key(m2));
            assert(ks[0] != pk[0]);
        }
    }
}

/// The two spellings of a path that differ by a doubled or trailing `/`
/// resolve alike.
pub proof fn law_slash_normalization<H>(t: RoutingTable<H>, m: Method, p: Seq<u8>, q: Seq<u8>)
    ensures
        t.resolved(m, p + seq![SEPARATOR, SEPARATOR] + q) == t.resolved(m, p + seq![SEPARATOR] + q),
        t.resolved(m, p.push(SEPARATOR)) == t.resolved(m, p),
{
    lemma_segments_normalized(p, q);
}

} // verus!

verus! {

/// Two tries with the same nodes take the same edges on every lookup.
proof fn lemma_walk_same_nodes<H>(
    t: RoutingTable<H>,
    u: RoutingTable<H>,
    m: Method,
    prefix: Seq<KeyView>,
    segs: Seq<Seq<u8>>,
)
    requires
        forall|ks: Seq<KeyView>| #[trigger] t.has_node(ks) == u.has_node(ks),
    ensures
        t.walk(m, prefix, segs) == u.walk(m, prefix, segs),
    decreases segs.len(),
{
    if segs.len() > 0 {
        lemma_walk_same_nodes(t, u, m, prefix.push(literal_key(m, segs[0])), segs.drop_first());
        lemma_walk_same_nodes(t, u, m, prefix.push(dynamic_key(m)), segs.drop_first());
    }
}

/// Registering two routes with different patterns, or the same pattern
/// under different methods, in either order gives the same lookups and the
/// same recorded parameters: in particular a literal route and a parameter
/// route beside it resolve alike whichever was registered first.
pub proof fn law_registration_order<H>(
    t: RoutingTable<H>,
    a1: RoutingTable<H>,
    a2: RoutingTable<H>,
    b1: RoutingTable<H>,
    b2: RoutingTable<H>,
    m1: Method,
    first: Seq<Seq<u8>>,
    h1: H,
    m2: Method,
    second: Seq<Seq<u8>>,
    h2: H,
    m: Method,
    segs: Seq<Seq<u8>>,
)
    requires
        t.registers(a1, m1, first, h1),
        a1.registers(a2, m2, second, h2),
        t.registers(b1, m2, second, h2),
        b1.registers(b2, m1, first, h1),
        pattern_keys(m1, first) != pattern_keys(m2, second),
    ensures
        a2.resolved_segs(m, segs) == b2.resolved_segs(m, segs),
        a2.walk(m, Seq::empty(), segs) == b2.walk(m, Seq::empty(), segs),
        forall|ks: Seq<KeyView>| #[trigger] a2.params_at(ks) == b2.params_at(ks),
{
    assert forall|ks: Seq<KeyView>| #[trigger] a2.has_node(ks) == b2.has_node(ks) by {
        assert(a1.has_node(ks) == (t.has_node(ks) || is_prefix_of(ks, pattern_keys(m1, first))));
        assert(b1.has_node(ks) == (t.has_node(ks) || is_prefix_of(ks, pattern_keys(m2, second))));
    }
    assert forall|ks: Seq<KeyView>| #[trigger] a2.route_at(ks) == b2.route_at(ks) by {
        assert(a1.route_at(ks) == if ks == pattern_keys(m1, first) { Some(h1) } else { t.route_at(ks) });
        assert(b1.route_at(ks) == if ks == pattern_keys(m2, second) { Some(h2) } else { t.route_at(ks) });
    }
    assert forall|ks: Seq<KeyView>| #[trigger] a2.params_at(ks) == b2.params_at(ks) by {
        assert(a1.params_at(ks) == if ks == pattern_keys(m1, first) {
            pattern_params(first)
        } else {
            t.params_at(ks)
        });
        assert(b1.params_at(ks) == if ks == pattern_keys(m2, second) {
            pattern_params(second)
        } else {
            t.params_at(ks)
        });
    }
    lemma_walk_same_nodes(a2, b2, m, Seq::empty(), segs);
}

} // verus!
