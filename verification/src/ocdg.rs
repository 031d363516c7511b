//! The derived graph and its layered evidence index: nodes carry a type
//! label and a lifeline, directed edges are deduplicated per ordered object
//! pair, and evidence maps each (source, target, relation kind) triple to
//! the duplicate-free set of event identifiers that justify it. Evidence
//! only ever grows, by set union, so merging is idempotent and insensitive
//! to the order proposals arrive in.

use vstd::prelude::*;

use crate::relations::Relations;

verus! {

/// Evidence handed from an evaluator to the index: a single justifying
/// event, or a set of them held as a duplicate-free vector.
#[derive(Debug)]
pub enum EventAdd {
    SINGLE(usize),
    MULTI(Vec<usize>),
}

/// The set of event identifiers an `EventAdd` stands for.
pub open spec fn eadd_set(a: EventAdd) -> Set<usize> {
    match a {
        EventAdd::SINGLE(e) => Set::new(|x: usize| x == e),
        EventAdd::MULTI(v) => set_of(v@),
    }
}

/// The set of values a sequence holds.
pub open spec fn set_of(s: Seq<usize>) -> Set<usize> {
    Set::new(|x: usize| s.contains(x))
}

/// The sequence holds no value twice.
pub open spec fn seq_distinct(s: Seq<usize>) -> bool {
    forall|i: int, j: int| 0 <= i < j < s.len() ==> s[i] != s[j]
}

/// Per-node attributes: the object's type label and its lifeline, the
/// ordered event identifiers it participates in.
#[derive(Debug)]
pub struct NodeInfo {
    pub node_type: String,
    pub object_events: Vec<usize>,
}

/// One node of the graph: the object identifier and its attributes.
#[derive(Debug)]
pub struct NodeEntry {
    pub oid: usize,
    pub info: NodeInfo,
}

/// One cell of the layered evidence index: the justifying events for one
/// ordered pair and one relation kind.
#[derive(Debug)]
pub struct EvidenceEntry {
    pub src: usize,
    pub tgt: usize,
    pub rel: Relations,
    pub eids: Vec<usize>,
}

/// The single, fatal error class: construction queried lifeline or
/// adjacency state for an object the log never declared.
#[derive(Debug, PartialEq, Eq, Structural, Clone, Copy)]
pub struct IntegrityError {
    pub oid: usize,
}

/// The object-centric directed graph: node attributes in first-appearance
/// order, deduplicated directed edges, and the evidence index.
pub struct Ocdg {
    pub node_attributes: Vec<NodeEntry>,
    pub iedges: Vec<(usize, usize)>,
    pub irels: Vec<EvidenceEntry>,
}

/// The object has a node among the entries.
pub open spec fn registered_in(nodes: Seq<NodeEntry>, o: usize) -> bool {
    exists|i: int| 0 <= i < nodes.len() && (#[trigger] nodes[i]).oid == o
}

/// The object's recorded lifeline: the first matching entry's event list.
pub open spec fn events_in(nodes: Seq<NodeEntry>, o: usize) -> Seq<usize>
    decreases nodes.len(),
{
    if nodes.len() == 0 {
        Seq::empty()
    } else if nodes[0].oid == o {
        nodes[0].info.object_events@
    } else {
        events_in(nodes.subrange(1, nodes.len() as int), o)
    }
}

/// The object's recorded type label: the first matching entry's label.
pub open spec fn type_in(nodes: Seq<NodeEntry>, o: usize) -> Seq<char>
    decreases nodes.len(),
{
    if nodes.len() == 0 {
        Seq::empty()
    } else if nodes[0].oid == o {
        nodes[0].info.node_type@
    } else {
        type_in(nodes.subrange(1, nodes.len() as int), o)
    }
}

/// Node entries hold each object at most once.
pub open spec fn nodes_distinct_seq(nodes: Seq<NodeEntry>) -> bool {
    forall|i: int, j: int|
        0 <= i < j < nodes.len() ==> (#[trigger] nodes[i]).oid != (#[trigger] nodes[j]).oid
}

/// Evidence entries hold each (source, target, kind) triple at most once.
pub open spec fn rels_distinct_seq(rels: Seq<EvidenceEntry>) -> bool {
    forall|i: int, j: int|
        0 <= i < j < rels.len() ==> !((#[trigger] rels[i]).src == (#[trigger] rels[j]).src
            && rels[i].tgt == rels[j].tgt && rels[i].rel == rels[j].rel)
}

/// Union of the event sets of every entry matching the triple.
pub open spec fn ev_in(rels: Seq<EvidenceEntry>, s: usize, t: usize, k: Relations) -> Set<usize>
    decreases rels.len(),
{
    if rels.len() == 0 {
        Set::empty()
    } else {
        let last = rels[rels.len() - 1];
        let rest = ev_in(rels.drop_last(), s, t, k);
        if last.src == s && last.tgt == t && last.rel == k {
            rest.union(set_of(last.eids@))
        } else {
            rest
        }
    }
}

/// Some entry matches the triple.
pub open spec fn has_rel_in(rels: Seq<EvidenceEntry>, s: usize, t: usize, k: Relations) -> bool {
    exists|i: int|
        0 <= i < rels.len() && (#[trigger] rels[i]).src == s && rels[i].tgt == t && rels[i].rel
            == k
}

/// Some entry matches the ordered pair, whatever its kind.
pub open spec fn any_rel_in(rels: Seq<EvidenceEntry>, s: usize, t: usize) -> bool {
    exists|i: int| 0 <= i < rels.len() && (#[trigger] rels[i]).src == s && rels[i].tgt == t
}

impl Ocdg {
    /// The object has a node in the graph.
    pub open spec fn registered(&self, o: usize) -> bool {
        registered_in(self.node_attributes@, o)
    }

    /// The object's recorded lifeline.
    pub open spec fn events_of(&self, o: usize) -> Seq<usize> {
        events_in(self.node_attributes@, o)
    }

    /// The object's recorded type label.
    pub open spec fn type_str(&self, o: usize) -> Seq<char> {
        type_in(self.node_attributes@, o)
    }

    /// The node identifiers in first-appearance order.
    pub open spec fn node_ids(&self) -> Seq<usize> {
        self.node_attributes@.map_values(|e: NodeEntry| e.oid)
    }

    /// The evidence set recorded for the triple; empty when none was.
    pub open spec fn evidence(&self, s: usize, t: usize, k: Relations) -> Set<usize> {
        ev_in(self.irels@, s, t, k)
    }

    /// Some evidence cell exists for the triple.
    pub open spec fn has_rel(&self, s: usize, t: usize, k: Relations) -> bool {
        has_rel_in(self.irels@, s, t, k)
    }

    /// Some evidence cell exists for the ordered pair.
    pub open spec fn any_rel(&self, s: usize, t: usize) -> bool {
        any_rel_in(self.irels@, s, t)
    }

    /// The directed edge exists.
    pub open spec fn has_pair(&self, s: usize, t: usize) -> bool {
        self.iedges@.contains((s, t))
    }

    /// Structural invariant of the graph: nodes, edges and evidence triples
    /// are deduplicated, evidence vectors are sets, an edge exists exactly
    /// when some evidence cell exists for its pair, and every recorded
    /// endpoint has a node.
    pub open spec fn wf(&self) -> bool {
        &&& nodes_distinct_seq(self.node_attributes@)
        &&& forall|i: int, j: int|
            0 <= i < j < self.iedges@.len() ==> self.iedges@[i] != self.iedges@[j]
        &&& rels_distinct_seq(self.irels@)
        &&& forall|n: int|
            0 <= n < self.irels@.len() ==> seq_distinct((#[trigger] self.irels@[n]).eids@)
        &&& forall|n: int|
            0 <= n < self.irels@.len() ==> self.iedges@.contains(
                ((#[trigger] self.irels@[n]).src, self.irels@[n].tgt),
            )
        &&& forall|n: int|
            0 <= n < self.iedges@.len() ==> any_rel_in(
                self.irels@,
                (#[trigger] self.iedges@[n]).0,
                self.iedges@[n].1,
            )
        &&& forall|n: int|
            0 <= n < self.irels@.len() ==> self.registered((#[trigger] self.irels@[n]).src)
                && self.registered(self.irels@[n].tgt)
        &&& forall|n: int|
            0 <= n < self.iedges@.len() ==> self.registered((#[trigger] self.iedges@[n]).0)
                && self.registered(self.iedges@[n].1)
    }
}

impl Default for Ocdg {
    /// The empty graph.
    fn default() -> (g: Ocdg)
        ensures
            g.node_attributes@.len() == 0,
            g.iedges@.len() == 0,
            g.irels@.len() == 0,
            g.wf(),
    {
        Ocdg { node_attributes: Vec::new(), iedges: Vec::new(), irels: Vec::new() }
    }
}

/// At the first entry whose key matches, the recursive lookups read that
/// entry, provided keys are unique.
pub proof fn lemma_node_at(nodes: Seq<NodeEntry>, o: usize, i: int)
    requires
        nodes_distinct_seq(nodes),
        0 <= i < nodes.len(),
        nodes[i].oid == o,
    ensures
        registered_in(nodes, o),
        events_in(nodes, o) == nodes[i].info.object_events@,
        type_in(nodes, o) == nodes[i].info.node_type@,
    decreases nodes.len(),
{
    if i == 0 {
    } else {
        assert(nodes[0].oid != o);
        let rest = nodes.subrange(1, nodes.len() as int);
        assert(rest[i - 1] == nodes[i]);
        lemma_node_at(rest, o, i - 1);
    }
}

/// An unregistered object reads as the empty lifeline and empty label.
pub proof fn lemma_node_absent(nodes: Seq<NodeEntry>, o: usize)
    requires
        !registered_in(nodes, o),
    ensures
        events_in(nodes, o) == Seq::<usize>::empty(),
        type_in(nodes, o) == Seq::<char>::empty(),
    decreases nodes.len(),
{
    if nodes.len() > 0 {
        assert(nodes[0].oid != o);
        let rest = nodes.subrange(1, nodes.len() as int);
        assert(forall|j: int| 0 <= j < rest.len() ==> rest[j] == nodes[j + 1]);
        lemma_node_absent(rest, o);
    }
}

/// Appending a node entry leaves every other object's view unchanged.
pub proof fn lemma_node_push_other(nodes: Seq<NodeEntry>, e: NodeEntry, o: usize)
    requires
        o != e.oid,
    ensures
        registered_in(nodes.push(e), o) == registered_in(nodes, o),
        events_in(nodes.push(e), o) == events_in(nodes, o),
        type_in(nodes.push(e), o) == type_in(nodes, o),
    decreases nodes.len(),
{
    let p = nodes.push(e);
    if nodes.len() == 0 {
        assert(p.len() == 1 && p[0] == e);
        assert(p[0].oid != o);
        assert(p.subrange(1, 1) =~= Seq::<NodeEntry>::empty());
        assert(events_in(p, o) == events_in(p.subrange(1, 1), o));
        assert(type_in(p, o) == type_in(p.subrange(1, 1), o));
        assert(events_in(Seq::<NodeEntry>::empty(), o) == Seq::<usize>::empty());
        assert(type_in(Seq::<NodeEntry>::empty(), o) == Seq::<char>::empty());
        assert(events_in(nodes, o) == Seq::<usize>::empty());
        assert(type_in(nodes, o) == Seq::<char>::empty());
    } else {
        assert(p[0] == nodes[0]);
        let rest = nodes.subrange(1, nodes.len() as int);
        assert(p.subrange(1, p.len() as int) =~= rest.push(e));
        lemma_node_push_other(rest, e, o);
        assert(registered_in(p, o) == registered_in(nodes, o)) by {
            if registered_in(p, o) {
                let i = choose|i: int| 0 <= i < p.len() && (#[trigger] p[i]).oid == o;
                assert(i < nodes.len() && nodes[i] == p[i]);
            }
            if registered_in(nodes, o) {
                let i = choose|i: int| 0 <= i < nodes.len() && (#[trigger] nodes[i]).oid == o;
                assert(p[i] == nodes[i]);
            }
        }
    }
}

/// Appending a fresh node entry registers it with its own attributes.
pub proof fn lemma_node_push_new(nodes: Seq<NodeEntry>, e: NodeEntry)
    requires
        !registered_in(nodes, e.oid),
    ensures
        registered_in(nodes.push(e), e.oid),
        events_in(nodes.push(e), e.oid) == e.info.object_events@,
        type_in(nodes.push(e), e.oid) == e.info.node_type@,
    decreases nodes.len(),
{
    let p = nodes.push(e);
    if nodes.len() == 0 {
        assert(p[0] == e);
    } else {
        assert(p[nodes.len() as int] == e);
        assert(nodes[0].oid != e.oid);
        assert(p[0] == nodes[0]);
        let rest = nodes.subrange(1, nodes.len() as int);
        assert(p.subrange(1, p.len() as int) =~= rest.push(e));
        assert(!registered_in(rest, e.oid)) by {
            if registered_in(rest, e.oid) {
                let i = choose|i: int| 0 <= i < rest.len() && (#[trigger] rest[i]).oid == e.oid;
                assert(nodes[i + 1] == rest[i]);
            }
        }
        lemma_node_push_new(rest, e);
    }
}

/// Replacing the entry at a key's unique position with one that keeps the
/// key changes that object's view alone.
pub proof fn lemma_node_update(nodes: Seq<NodeEntry>, i: int, e: NodeEntry, o: usize)
    requires
        nodes_distinct_seq(nodes),
        0 <= i < nodes.len(),
        nodes[i].oid == e.oid,
    ensures
        nodes_distinct_seq(nodes.update(i, e)),
        registered_in(nodes.update(i, e), o) == registered_in(nodes, o),
        o == e.oid ==> events_in(nodes.update(i, e), o) == e.info.object_events@,
        o == e.oid ==> type_in(nodes.update(i, e), o) == e.info.node_type@,
        o != e.oid ==> events_in(nodes.update(i, e), o) == events_in(nodes, o),
        o != e.oid ==> type_in(nodes.update(i, e), o) == type_in(nodes, o),
    decreases nodes.len(),
{
    let u = nodes.update(i, e);
    assert(u.len() == nodes.len());
    assert(forall|j: int| 0 <= j < nodes.len() && j != i ==> u[j] == nodes[j]);
    assert(u[i] == e);
    assert(registered_in(u, o) == registered_in(nodes, o)) by {
        if registered_in(u, o) {
            let w = choose|w: int| 0 <= w < u.len() && (#[trigger] u[w]).oid == o;
            if w == i {
                assert(nodes[i].oid == o);
            } else {
                assert(nodes[w].oid == o);
            }
        }
        if registered_in(nodes, o) {
            let w = choose|w: int| 0 <= w < nodes.len() && (#[trigger] nodes[w]).oid == o;
            if w == i {
                assert(u[i].oid == o);
            } else {
                assert(u[w].oid == o);
            }
        }
    }
    if i == 0 {
        if o != e.oid {
            assert(u.subrange(1, u.len() as int) =~= nodes.subrange(1, nodes.len() as int));
        }
    } else {
        assert(u[0] == nodes[0]);
        if nodes[0].oid == o {
        } else {
            let rest = nodes.subrange(1, nodes.len() as int);
            assert(u.subrange(1, u.len() as int) =~= rest.update(i - 1, e));
            assert(rest[i - 1] == nodes[i]);
            lemma_node_update(rest, i - 1, e, o);
        }
    }
}

/// Appending an evidence entry adds its events to its own triple's set and
/// leaves every other triple's set unchanged.
pub proof fn lemma_ev_push(rels: Seq<EvidenceEntry>, e: EvidenceEntry, s: usize, t: usize, k: Relations)
    ensures
        e.src == s && e.tgt == t && e.rel == k ==> ev_in(rels.push(e), s, t, k) == ev_in(
            rels,
            s,
            t,
            k,
        ).union(set_of(e.eids@)),
        !(e.src == s && e.tgt == t && e.rel == k) ==> ev_in(rels.push(e), s, t, k) == ev_in(
            rels,
            s,
            t,
            k,
        ),
{
    let p = rels.push(e);
    assert(p.drop_last() =~= rels);
    assert(p[p.len() - 1] == e);
}

/// With unique triples, the triple's evidence set is exactly its entry's.
pub proof fn lemma_ev_at(rels: Seq<EvidenceEntry>, s: usize, t: usize, k: Relations, i: int)
    requires
        rels_distinct_seq(rels),
        0 <= i < rels.len(),
        rels[i].src == s,
        rels[i].tgt == t,
        rels[i].rel == k,
    ensures
        ev_in(rels, s, t, k) == set_of(rels[i].eids@),
    decreases rels.len(),
{
    let last = rels[rels.len() - 1];
    let pre = rels.drop_last();
    assert(forall|j: int| 0 <= j < pre.len() ==> pre[j] == rels[j]);
    if i == rels.len() - 1 {
        assert(!has_rel_in(pre, s, t, k)) by {
            if has_rel_in(pre, s, t, k) {
                let w = choose|w: int|
                    0 <= w < pre.len() && (#[trigger] pre[w]).src == s && pre[w].tgt == t
                        && pre[w].rel == k;
                assert(rels[w].src == s && rels[w].tgt == t && rels[w].rel == k);
            }
        }
        lemma_ev_none(pre, s, t, k);
        assert(ev_in(rels, s, t, k) =~= set_of(rels[i].eids@));
    } else {
        assert(!(last.src == s && last.tgt == t && last.rel == k));
        lemma_ev_at(pre, s, t, k, i);
    }
}

/// A triple with no entry has empty evidence.
pub proof fn lemma_ev_none(rels: Seq<EvidenceEntry>, s: usize, t: usize, k: Relations)
    requires
        !has_rel_in(rels, s, t, k),
    ensures
        ev_in(rels, s, t, k) == Set::<usize>::empty(),
    decreases rels.len(),
{
    if rels.len() > 0 {
        let pre = rels.drop_last();
        assert(forall|j: int| 0 <= j < pre.len() ==> pre[j] == rels[j]);
        assert(!has_rel_in(pre, s, t, k)) by {
            if has_rel_in(pre, s, t, k) {
                let w = choose|w: int|
                    0 <= w < pre.len() && (#[trigger] pre[w]).src == s && pre[w].tgt == t
                        && pre[w].rel == k;
                assert(rels[w].src == s && rels[w].tgt == t && rels[w].rel == k);
            }
        }
        lemma_ev_none(pre, s, t, k);
        assert(!(rels[rels.len() - 1].src == s && rels[rels.len() - 1].tgt == t
            && rels[rels.len() - 1].rel == k));
    }
}

/// Membership in a pushed sequence of identifiers.
pub proof fn lemma_push_contains(s: Seq<usize>, x: usize, y: usize)
    ensures
        s.push(x).contains(y) <==> (s.contains(y) || y == x),
{
    if s.contains(y) {
        let i = choose|i: int| 0 <= i < s.len() && s[i] == y;
        assert(s.push(x)[i] == y);
    }
    if y == x {
        assert(s.push(x)[s.len() as int] == y);
    }
    if s.push(x).contains(y) {
        let i = choose|i: int| 0 <= i < s.push(x).len() && s.push(x)[i] == y;
        if i < s.len() {
            assert(s[i] == y);
        }
    }
}

/// Membership in a pushed sequence of ordered pairs.
pub proof fn lemma_pair_push_contains(s: Seq<(usize, usize)>, x: (usize, usize), y: (usize, usize))
    ensures
        s.push(x).contains(y) <==> (s.contains(y) || y == x),
{
    if s.contains(y) {
        let i = choose|i: int| 0 <= i < s.len() && s[i] == y;
        assert(s.push(x)[i] == y);
    }
    if y == x {
        assert(s.push(x)[s.len() as int] == y);
    }
    if s.push(x).contains(y) {
        let i = choose|i: int| 0 <= i < s.push(x).len() && s.push(x)[i] == y;
        if i < s.len() {
            assert(s[i] == y);
        }
    }
}

/// Replacing an entry by one with the same triple leaves every other
/// triple's evidence unchanged.
pub proof fn lemma_ev_update_other(
    rels: Seq<EvidenceEntry>,
    i: int,
    e: EvidenceEntry,
    s: usize,
    t: usize,
    k: Relations,
)
    requires
        0 <= i < rels.len(),
        rels[i].src == e.src,
        rels[i].tgt == e.tgt,
        rels[i].rel == e.rel,
        !(e.src == s && e.tgt == t && e.rel == k),
    ensures
        ev_in(rels.update(i, e), s, t, k) == ev_in(rels, s, t, k),
    decreases rels.len(),
{
    let u = rels.update(i, e);
    if i == rels.len() - 1 {
        assert(u.drop_last() =~= rels.drop_last());
    } else {
        assert(u.drop_last() =~= rels.drop_last().update(i, e));
        assert(u[u.len() - 1] == rels[rels.len() - 1]);
        assert(rels.drop_last()[i] == rels[i]);
        lemma_ev_update_other(rels.drop_last(), i, e, s, t, k);
    }
}

/// Adds an identifier to a duplicate-free vector unless already present.
pub fn vec_insert_unique(v: &mut Vec<usize>, x: usize)
    requires
        seq_distinct(old(v)@),
    ensures
        seq_distinct(final(v)@),
        set_of(final(v)@) == set_of(old(v)@).insert(x),
        old(v)@.contains(x) ==> final(v)@ == old(v)@,
        !old(v)@.contains(x) ==> final(v)@ == old(v)@.push(x),
{
    let present = crate::log::contains_id(v, x);
    if !present {
        let ghost pre = v@;
        v.push(x);
        proof {
            assert(seq_distinct(v@)) by {
                assert(forall|i: int| 0 <= i < pre.len() ==> v@[i] == pre[i]);
                assert(v@[pre.len() as int] == x);
            }
            assert(set_of(v@) =~= set_of(pre).insert(x)) by {
                assert forall|y: usize| set_of(v@).contains(y) <==> set_of(pre).insert(x).contains(
                    y,
                ) by {
                    lemma_push_contains(pre, x, y);
                }
            }
        }
    } else {
        proof {
            assert(set_of(v@) =~= set_of(v@).insert(x));
        }
    }
}

/// Turns delivered evidence into a duplicate-free vector of the same set.
pub fn eadd_to_vec(eids: &EventAdd) -> (r: Vec<usize>)
    ensures
        seq_distinct(r@),
        set_of(r@) == eadd_set(*eids),
{
    match eids {
        EventAdd::SINGLE(e) => {
            let mut r: Vec<usize> = Vec::new();
            r.push(*e);
            proof {
                assert(set_of(r@) =~= eadd_set(*eids)) by {
                    assert(r@[0] == *e);
                    assert(forall|y: usize| r@.contains(y) ==> y == *e);
                }
            }
            r
        },
        EventAdd::MULTI(v) => {
            let mut r: Vec<usize> = Vec::new();
            let n = v.len();
            let mut i: usize = 0;
            proof {
                assert(set_of(r@) =~= set_of(v@.take(0)));
            }
            while i < n
                invariant
                    0 <= i <= n,
                    n == v@.len(),
                    seq_distinct(r@),
                    set_of(r@) == set_of(v@.take(i as int)),
                decreases n - i,
            {
                let ghost pre = r@;
                vec_insert_unique(&mut r, v[i]);
                proof {
                    assert(v@.take(i + 1).drop_last() =~= v@.take(i as int));
                    assert(v@.take(i + 1)[i as int] == v@[i as int]);
                    assert(set_of(v@.take(i + 1)) =~= set_of(v@.take(i as int)).insert(v@[i as int]))
                        by {
                        assert forall|y: usize|
                            set_of(v@.take(i + 1)).contains(y) <==> set_of(
                                v@.take(i as int),
                            ).insert(v@[i as int]).contains(y) by {
                            assert(v@.take(i + 1) =~= v@.take(i as int).push(v@[i as int]));
                            lemma_push_contains(v@.take(i as int), v@[i as int], y);
                        }
                    }
                }
                i = i + 1;
            }
            proof {
                assert(v@.take(n as int) =~= v@);
            }
            r
        },
    }
}

impl Ocdg {
    /// The graph has a node for the object.
    pub fn contains_node(&self, oid: usize) -> (r: bool)
        ensures
            r == self.registered(oid),
    {
        let n = self.node_attributes.len();
        let mut i: usize = 0;
        while i < n
            invariant
                0 <= i <= n,
                n == self.node_attributes@.len(),
                forall|k: int| 0 <= k < i ==> (#[trigger] self.node_attributes@[k]).oid != oid,
            decreases n - i,
        {
            if self.node_attributes[i].oid == oid {
                proof {
                    assert((self.node_attributes@[i as int]).oid == oid);
                }
                return true;
            }
            i = i + 1;
        }
        false
    }

    /// Position of the object's node entry.
    fn find_node_index(&self, oid: usize) -> (r: usize)
        requires
            self.registered(oid),
        ensures
            r < self.node_attributes@.len(),
            self.node_attributes@[r as int].oid == oid,
    {
        let n = self.node_attributes.len();
        let mut i: usize = 0;
        while i < n
            invariant
                0 <= i <= n,
                n == self.node_attributes@.len(),
                forall|k: int| 0 <= k < i ==> (#[trigger] self.node_attributes@[k]).oid != oid,
            decreases n - i,
        {
            if self.node_attributes[i].oid == oid {
                return i;
            }
            i = i + 1;
        }
        proof {
            let w = choose|w: int|
                0 <= w < self.node_attributes@.len() && (#[trigger] self.node_attributes@[w]).oid
                    == oid;
            assert(false);
        }
        0
    }

    /// Borrows the node entry of a registered object.
    pub fn get_node(&self, oid: usize) -> (r: &NodeEntry)
        requires
            self.wf(),
            self.registered(oid),
        ensures
            r.oid == oid,
            r.info.object_events@ == self.events_of(oid),
            r.info.node_type@ == self.type_str(oid),
    {
        let i = self.find_node_index(oid);
        proof {
            lemma_node_at(self.node_attributes@, oid, i as int);
        }
        &self.node_attributes[i]
    }

    /// The directed edge already exists in the deduplicated edge list.
    pub fn find_edge(&self, s: usize, t: usize) -> (r: bool)
        ensures
            r == self.has_pair(s, t),
    {
        let n = self.iedges.len();
        let mut i: usize = 0;
        while i < n
            invariant
                0 <= i <= n,
                n == self.iedges@.len(),
                forall|k: int| 0 <= k < i ==> #[trigger] self.iedges@[k] != (s, t),
            decreases n - i,
        {
            if self.iedges[i].0 == s && self.iedges[i].1 == t {
                proof {
                    assert(self.iedges@[i as int] == (s, t));
                }
                return true;
            }
            i = i + 1;
        }
        proof {
            if self.has_pair(s, t) {
                let w = choose|w: int| 0 <= w < self.iedges@.len() && self.iedges@[w] == (s, t);
                assert(self.iedges@[w] != (s, t));
            }
        }
        false
    }

    /// Some evidence cell exists for the ordered pair: the precondition an
    /// adjacent pair must meet before instance-tier evaluation.
    pub fn has_any_relation(&self, s: usize, t: usize) -> (r: bool)
        ensures
            r == self.any_rel(s, t),
    {
        let n = self.irels.len();
        let mut i: usize = 0;
        while i < n
            invariant
                0 <= i <= n,
                n == self.irels@.len(),
                forall|k: int|
                    0 <= k < i ==> !((#[trigger] self.irels@[k]).src == s && self.irels@[k].tgt
                        == t),
            decreases n - i,
        {
            if self.irels[i].src == s && self.irels[i].tgt == t {
                proof {
                    assert((self.irels@[i as int]).src == s && (self.irels@[i as int]).tgt == t);
                }
                return true;
            }
            i = i + 1;
        }
        false
    }

    /// Position of the evidence cell for the triple, if any.
    fn find_rel_index(&self, s: usize, t: usize, k: Relations) -> (r: Option<usize>)
        ensures
            r matches Some(i) ==> i < self.irels@.len() && self.irels@[i as int].src == s
                && self.irels@[i as int].tgt == t && self.irels@[i as int].rel == k,
            r is None ==> !self.has_rel(s, t, k),
    {
        let n = self.irels.len();
        let mut i: usize = 0;
        while i < n
            invariant
                0 <= i <= n,
                n == self.irels@.len(),
                forall|w: int|
                    0 <= w < i ==> !((#[trigger] self.irels@[w]).src == s && self.irels@[w].tgt
                        == t && self.irels@[w].rel == k),
            decreases n - i,
        {
            if self.irels[i].src == s && self.irels[i].tgt == t && self.irels[i].rel == k {
                return Some(i);
            }
            i = i + 1;
        }
        None
    }

    /// Creates the node for an object seen for the first time, with its
    /// type label and an empty lifeline.
    pub fn init_object_key(&mut self, oid: usize, node_type: String)
        requires
            old(self).wf(),
            !old(self).registered(oid),
        ensures
            final(self).wf(),
            forall|o: usize|
                #[trigger] final(self).registered(o) <==> old(self).registered(o) || o == oid,
            final(self).events_of(oid) == Seq::<usize>::empty(),
            final(self).type_str(oid) == node_type@,
            forall|o: usize|
                o != oid ==> #[trigger] final(self).events_of(o) == old(self).events_of(o),
            forall|o: usize|
                o != oid ==> #[trigger] final(self).type_str(o) == old(self).type_str(o),
            final(self).node_ids() == old(self).node_ids().push(oid),
            final(self).iedges == old(self).iedges,
            final(self).irels == old(self).irels,
    {
        let ghost pre = self.node_attributes@;
        let entry = NodeEntry {
            oid,
            info: NodeInfo { node_type, object_events: Vec::new() },
        };
        let ghost ge = entry;
        self.node_attributes.push(entry);
        proof {
            lemma_node_push_new(pre, ge);
            assert forall|o: usize| o != oid implies #[trigger] events_in(pre.push(ge), o)
                == events_in(pre, o) by {
                lemma_node_push_other(pre, ge, o);
            }
            assert forall|o: usize| o != oid implies #[trigger] type_in(pre.push(ge), o)
                == type_in(pre, o) by {
                lemma_node_push_other(pre, ge, o);
            }
            assert forall|o: usize|
                #[trigger] registered_in(pre.push(ge), o) <==> registered_in(pre, o) || o
                    == oid by {
                if o != oid {
                    lemma_node_push_other(pre, ge, o);
                }
            }
            assert(self.node_ids() =~= old(self).node_ids().push(oid));
            assert(nodes_distinct_seq(self.node_attributes@)) by {
                assert(forall|i: int|
                    0 <= i < pre.len() ==> (#[trigger] pre[i]).oid != oid);
                assert(forall|i: int|
                    0 <= i < pre.len() ==> self.node_attributes@[i] == pre[i]);
                assert(self.node_attributes@[pre.len() as int] == ge);
            }
            assert forall|n: int| 0 <= n < self.irels@.len() implies self.registered(
                (#[trigger] self.irels@[n]).src,
            ) && self.registered(self.irels@[n].tgt) by {
                assert(old(self).registered(self.irels@[n].src));
                assert(old(self).registered(self.irels@[n].tgt));
            }
            assert forall|n: int| 0 <= n < self.iedges@.len() implies self.registered(
                (#[trigger] self.iedges@[n]).0,
            ) && self.registered(self.iedges@[n].1) by {
                assert(old(self).registered(self.iedges@[n].0));
                assert(old(self).registered(self.iedges@[n].1));
            }
        }
    }

    /// Appends an event to a registered object's lifeline.
    pub fn add_eid_to_oe(&mut self, oid: usize, eid: usize)
        requires
            old(self).wf(),
            old(self).registered(oid),
        ensures
            final(self).wf(),
            final(self).events_of(oid) == old(self).events_of(oid).push(eid),
            final(self).type_str(oid) == old(self).type_str(oid),
            forall|o: usize| #[trigger] final(self).registered(o) == old(self).registered(o),
            forall|o: usize|
                o != oid ==> #[trigger] final(self).events_of(o) == old(self).events_of(o),
            forall|o: usize|
                o != oid ==> #[trigger] final(self).type_str(o) == old(self).type_str(o),
            final(self).node_ids() == old(self).node_ids(),
            final(self).iedges == old(self).iedges,
            final(self).irels == old(self).irels,
    {
        let ghost pre = self.node_attributes@;
        let i = self.find_node_index(oid);
        let mut entry = self.node_attributes.remove(i);
        let ghost mid = entry;
        entry.info.object_events.push(eid);
        let ghost ge = entry;
        self.node_attributes.insert(i, entry);
        proof {
            assert(self.node_attributes@ =~= pre.update(i as int, ge));
            assert(ge.oid == oid);
            assert(ge.info.object_events@ == mid.info.object_events@.push(eid));
            lemma_node_at(pre, oid, i as int);
            lemma_node_update(pre, i as int, ge, oid);
            assert forall|o: usize| o != oid implies #[trigger] self.events_of(o) == old(
                self,
            ).events_of(o) by {
                lemma_node_update(pre, i as int, ge, o);
            }
            assert forall|o: usize| o != oid implies #[trigger] self.type_str(o) == old(
                self,
            ).type_str(o) by {
                lemma_node_update(pre, i as int, ge, o);
            }
            assert forall|o: usize| #[trigger] self.registered(o) == old(self).registered(
                o,
            ) by {
                lemma_node_update(pre, i as int, ge, o);
            }
            assert(self.node_ids() =~= old(self).node_ids());
            assert forall|n: int| 0 <= n < self.irels@.len() implies self.registered(
                (#[trigger] self.irels@[n]).src,
            ) && self.registered(self.irels@[n].tgt) by {
                lemma_node_update(pre, i as int, ge, self.irels@[n].src);
                lemma_node_update(pre, i as int, ge, self.irels@[n].tgt);
            }
            assert forall|n: int| 0 <= n < self.iedges@.len() implies self.registered(
                (#[trigger] self.iedges@[n]).0,
            ) && self.registered(self.iedges@[n].1) by {
                lemma_node_update(pre, i as int, ge, self.iedges@[n].0);
                lemma_node_update(pre, i as int, ge, self.iedges@[n].1);
            }
        }
    }

    /// Unions delivered evidence into the cell for the ordered pair and
    /// kind, creating the directed edge and the cell when absent. This is
    /// the only way relation evidence becomes visible; it is idempotent and
    /// order-insensitive because the merge is a pure set union.
    pub fn apply_new_edges(&mut self, edge: (usize, usize), eids: EventAdd, rel: Relations)
        requires
            old(self).wf(),
            old(self).registered(edge.0),
            old(self).registered(edge.1),
        ensures
            final(self).wf(),
            final(self).node_attributes == old(self).node_attributes,
            final(self).evidence(edge.0, edge.1, rel) == old(self).evidence(
                edge.0,
                edge.1,
                rel,
            ).union(eadd_set(eids)),
            forall|s: usize, t: usize, k: Relations|
                !(s == edge.0 && t == edge.1 && k == rel) ==> #[trigger] final(self).evidence(
                    s,
                    t,
                    k,
                ) == old(self).evidence(s, t, k),
            forall|s: usize, t: usize|
                #[trigger] final(self).has_pair(s, t) <==> old(self).has_pair(s, t) || (s == edge.0
                    && t == edge.1),
            forall|s: usize, t: usize|
                #[trigger] final(self).any_rel(s, t) <==> old(self).any_rel(s, t) || (s == edge.0
                    && t == edge.1),
            final(self).iedges@ == if old(self).has_pair(edge.0, edge.1) {
                old(self).iedges@
            } else {
                old(self).iedges@.push(edge)
            },
    {
        let ghost pre_edges = self.iedges@;
        if !self.find_edge(edge.0, edge.1) {
            self.iedges.push(edge);
            proof {
                assert forall|s: usize, t: usize|
                    #[trigger] self.iedges@.contains((s, t)) <==> pre_edges.contains((s, t)) || (s
                        == edge.0 && t == edge.1) by {
                    lemma_pair_push_contains(pre_edges, edge, (s, t));
                }
                assert(forall|i: int|
                    0 <= i < pre_edges.len() ==> self.iedges@[i] == pre_edges[i]);
                assert(self.iedges@[pre_edges.len() as int] == edge);
            }
        }
        let ghost cur_edges = self.iedges@;
        let ghost pre_rels = self.irels@;
        match self.find_rel_index(edge.0, edge.1, rel) {
            Some(i) => {
                let mut entry = self.irels.remove(i);
                let ghost mid = entry;
                match &eids {
                    EventAdd::SINGLE(e) => {
                        vec_insert_unique(&mut entry.eids, *e);
                    },
                    EventAdd::MULTI(v) => {
                        let m = v.len();
                        let mut j: usize = 0;
                        proof {
                            assert(set_of(entry.eids@) =~= set_of(mid.eids@).union(
                                set_of(v@.take(0)),
                            ));
                        }
                        while j < m
                            invariant
                                0 <= j <= m,
                                m == v@.len(),
                                seq_distinct(entry.eids@),
                                entry.src == mid.src && entry.tgt == mid.tgt && entry.rel
                                    == mid.rel,
                                set_of(entry.eids@) == set_of(mid.eids@).union(
                                    set_of(v@.take(j as int)),
                                ),
                            decreases m - j,
                        {
                            let ghost prev = entry.eids@;
                            vec_insert_unique(&mut entry.eids, v[j]);
                            proof {
                                assert(set_of(entry.eids@) == set_of(prev).insert(v@[j as int]));
                                assert(v@.take(j + 1) =~= v@.take(j as int).push(v@[j as int]));
                                assert(set_of(v@.take(j + 1)) =~= set_of(v@.take(j as int)).insert(
                                    v@[j as int],
                                )) by {
                                    assert forall|y: usize|
                                        set_of(v@.take(j + 1)).contains(y) <==> set_of(
                                            v@.take(j as int),
                                        ).insert(v@[j as int]).contains(y) by {
                                        lemma_push_contains(v@.take(j as int), v@[j as int], y);
                                    }
                                }
                                assert(set_of(entry.eids@) =~= set_of(mid.eids@).union(
                                    set_of(v@.take(j + 1)),
                                ));
                            }
                            j = j + 1;
                        }
                        proof {
                            assert(v@.take(m as int) =~= v@);
                        }
                    },
                }
                let ghost ge = entry;
                self.irels.insert(i, entry);
                proof {
                    assert(self.irels@ =~= pre_rels.update(i as int, ge));
                    assert(set_of(ge.eids@) =~= set_of(mid.eids@).union(eadd_set(eids)));
                    assert(ge.src == edge.0 && ge.tgt == edge.1 && ge.rel == rel);
                    assert(rels_distinct_seq(self.irels@)) by {
                        assert(forall|a: int|
                            0 <= a < pre_rels.len() && a != i ==> self.irels@[a] == pre_rels[a]);
                    }
                    lemma_ev_at(pre_rels, edge.0, edge.1, rel, i as int);
                    lemma_ev_at(self.irels@, edge.0, edge.1, rel, i as int);
                    assert(self.evidence(edge.0, edge.1, rel) =~= old(self).evidence(
                        edge.0,
                        edge.1,
                        rel,
                    ).union(eadd_set(eids)));
                    assert forall|s: usize, t: usize, k: Relations|
                        !(s == edge.0 && t == edge.1 && k == rel) implies #[trigger] self.evidence(
                        s, t, k) == old(self).evidence(s, t, k) by {
                        lemma_ev_update_other(pre_rels, i as int, ge, s, t, k);
                    }
                    assert forall|s: usize, t: usize|
                        #[trigger] self.any_rel(s, t) <==> old(self).any_rel(s, t) || (s
                            == edge.0 && t == edge.1) by {
                        if any_rel_in(self.irels@, s, t) {
                            let w = choose|w: int|
                                0 <= w < self.irels@.len() && (#[trigger] self.irels@[w]).src == s
                                    && self.irels@[w].tgt == t;
                            if w == i {
                                assert(pre_rels[w].src == s && pre_rels[w].tgt == t);
                            } else {
                                assert(pre_rels[w].src == s && pre_rels[w].tgt == t);
                            }
                        }
                        if any_rel_in(pre_rels, s, t) {
                            let w = choose|w: int|
                                0 <= w < pre_rels.len() && (#[trigger] pre_rels[w]).src == s
                                    && pre_rels[w].tgt == t;
                            if w == i {
                                assert((self.irels@[w]).src == s && (self.irels@[w]).tgt == t);
                            } else {
                                assert((self.irels@[w]).src == s && (self.irels@[w]).tgt == t);
                            }
                        }
                    }
                    assert(old(self).has_pair(edge.0, edge.1)) by {
                        assert(pre_rels[i as int].src == edge.0 && pre_rels[i as int].tgt
                            == edge.1);
                        assert(pre_edges.contains((pre_rels[i as int].src, pre_rels[i as int].tgt)));
                    }
                    assert(self.iedges@ == pre_edges);
                    assert forall|n: int| 0 <= n < self.irels@.len() implies self.iedges@.contains(
                        ((#[trigger] self.irels@[n]).src, self.irels@[n].tgt),
                    ) by {
                        if n != i {
                            assert(self.irels@[n] == pre_rels[n]);
                        }
                    }
                    assert forall|n: int| 0 <= n < self.iedges@.len() implies any_rel_in(
                        self.irels@,
                        (#[trigger] self.iedges@[n]).0,
                        self.iedges@[n].1,
                    ) by {
                        assert(any_rel_in(pre_rels, self.iedges@[n].0, self.iedges@[n].1));
                        let w = choose|w: int|
                            0 <= w < pre_rels.len() && (#[trigger] pre_rels[w]).src
                                == self.iedges@[n].0 && pre_rels[w].tgt == self.iedges@[n].1;
                        assert((self.irels@[w]).src == self.iedges@[n].0 && (self.irels@[w]).tgt
                            == self.iedges@[n].1);
                    }
                    assert forall|n: int| 0 <= n < self.irels@.len() implies self.registered(
                        (#[trigger] self.irels@[n]).src,
                    ) && self.registered(self.irels@[n].tgt) by {
                        if n != i {
                            assert(self.irels@[n] == pre_rels[n]);
                        }
                    }
                }
            },
            None => {
                let fresh = eadd_to_vec(&eids);
                let entry = EvidenceEntry { src: edge.0, tgt: edge.1, rel, eids: fresh };
                let ghost ge = entry;
                self.irels.push(entry);
                proof {
                    assert(self.irels@ == pre_rels.push(ge));
                    assert(forall|n: int|
                        0 <= n < pre_rels.len() ==> self.irels@[n] == pre_rels[n]);
                    assert(self.irels@[pre_rels.len() as int] == ge);
                    lemma_ev_push(pre_rels, ge, edge.0, edge.1, rel);
                    lemma_ev_none(pre_rels, edge.0, edge.1, rel);
                    assert(self.evidence(edge.0, edge.1, rel) =~= old(self).evidence(
                        edge.0,
                        edge.1,
                        rel,
                    ).union(eadd_set(eids)));
                    assert forall|s: usize, t: usize, k: Relations|
                        !(s == edge.0 && t == edge.1 && k == rel) implies #[trigger] self.evidence(
                        s, t, k) == old(self).evidence(s, t, k) by {
                        lemma_ev_push(pre_rels, ge, s, t, k);
                    }
                    assert forall|s: usize, t: usize|
                        #[trigger] self.any_rel(s, t) <==> old(self).any_rel(s, t) || (s
                            == edge.0 && t == edge.1) by {
                        if any_rel_in(self.irels@, s, t) {
                            let w = choose|w: int|
                                0 <= w < self.irels@.len() && (#[trigger] self.irels@[w]).src == s
                                    && self.irels@[w].tgt == t;
                            if w < pre_rels.len() {
                                assert(pre_rels[w].src == s && pre_rels[w].tgt == t);
                            }
                        }
                        if any_rel_in(pre_rels, s, t) {
                            let w = choose|w: int|
                                0 <= w < pre_rels.len() && (#[trigger] pre_rels[w]).src == s
                                    && pre_rels[w].tgt == t;
                            assert((self.irels@[w]).src == s && (self.irels@[w]).tgt == t);
                        }
                    }
                    assert(rels_distinct_seq(self.irels@)) by {
                        assert(!has_rel_in(pre_rels, edge.0, edge.1, rel));
                    }
                    assert(self.iedges@.contains((edge.0, edge.1)));
                    assert forall|n: int| 0 <= n < self.irels@.len() implies self.iedges@.contains(
                        ((#[trigger] self.irels@[n]).src, self.irels@[n].tgt),
                    ) by {
                        if n < pre_rels.len() {
                            assert(pre_edges.contains((pre_rels[n].src, pre_rels[n].tgt)));
                            if self.iedges@ != pre_edges {
                                let w = choose|w: int|
                                    0 <= w < pre_edges.len() && pre_edges[w] == (
                                        pre_rels[n].src,
                                        pre_rels[n].tgt,
                                    );
                                assert(self.iedges@[w] == (pre_rels[n].src, pre_rels[n].tgt));
                            }
                        }
                    }
                    assert forall|n: int| 0 <= n < self.iedges@.len() implies any_rel_in(
                        self.irels@,
                        (#[trigger] self.iedges@[n]).0,
                        self.iedges@[n].1,
                    ) by {
                        if n < pre_edges.len() && self.iedges@[n] == pre_edges[n] {
                            assert(any_rel_in(pre_rels, pre_edges[n].0, pre_edges[n].1));
                            let w = choose|w: int|
                                0 <= w < pre_rels.len() && (#[trigger] pre_rels[w]).src
                                    == pre_edges[n].0 && pre_rels[w].tgt == pre_edges[n].1;
                            assert((self.irels@[w]).src == self.iedges@[n].0
                                && (self.irels@[w]).tgt == self.iedges@[n].1);
                        } else {
                            assert(self.iedges@[n] == edge);
                            assert((self.irels@[pre_rels.len() as int]).src == edge.0
                                && (self.irels@[pre_rels.len() as int]).tgt == edge.1);
                        }
                    }
                }
            },
        }
    }

    /// Reads the recorded evidence vector for an ordered pair and kind, as
    /// the export collaborator enumerates it.
    pub fn relation_evidence(&self, s: usize, t: usize, k: Relations) -> (r: Option<&Vec<usize>>)
        requires
            self.wf(),
        ensures
            r is Some <==> self.has_rel(s, t, k),
            r matches Some(v) ==> set_of(v@) == self.evidence(s, t, k) && seq_distinct(v@),
    {
        match self.find_rel_index(s, t, k) {
            Some(i) => {
                proof {
                    assert((self.irels@[i as int]).src == s && (self.irels@[i as int]).tgt == t
                        && (self.irels@[i as int]).rel == k);
                    lemma_ev_at(self.irels@, s, t, k, i as int);
                }
                Some(&self.irels[i].eids)
            },
            None => None,
        }
    }

    /// The object's outgoing neighborhood: every target it has a directed
    /// edge to, each exactly once, in edge-insertion order.
    pub fn out_neighbors(&self, oid1: usize) -> (r: Vec<usize>)
        requires
            self.wf(),
        ensures
            seq_distinct(r@),
            forall|j: int| 0 <= j < r@.len() ==> self.has_pair(oid1, #[trigger] r@[j]),
            forall|t: usize| self.has_pair(oid1, t) ==> r@.contains(t),
    {
        let n = self.iedges.len();
        let mut r: Vec<usize> = Vec::new();
        let mut i: usize = 0;
        while i < n
            invariant
                0 <= i <= n,
                n == self.iedges@.len(),
                self.wf(),
                seq_distinct(r@),
                forall|j: int| #![trigger r@[j]]
                    0 <= j < r@.len() ==> exists|w: int|
                        0 <= w < i && #[trigger] self.iedges@[w] == (oid1, r@[j]),
                forall|w: int|
                    0 <= w < i && (#[trigger] self.iedges@[w]).0 == oid1 ==> r@.contains(
                        self.iedges@[w].1,
                    ),
            decreases n - i,
        {
            if self.iedges[i].0 == oid1 {
                let t = self.iedges[i].1;
                let ghost pre = r@;
                proof {
                    assert(self.iedges@[i as int] == (oid1, t));
                    if pre.contains(t) {
                        let j = choose|j: int| 0 <= j < pre.len() && pre[j] == t;
                        let w = choose|w: int|
                            0 <= w < i && #[trigger] self.iedges@[w] == (oid1, pre[j]);
                        assert(self.iedges@[w] == self.iedges@[i as int]);
                        assert(false);
                    }
                }
                r.push(t);
                proof {
                    assert(seq_distinct(r@)) by {
                        assert(forall|j: int| 0 <= j < pre.len() ==> r@[j] == pre[j]);
                        assert(r@[pre.len() as int] == t);
                        assert(!pre.contains(t));
                        assert(forall|j: int|
                            0 <= j < pre.len() ==> #[trigger] pre[j] != t);
                    }
                    assert forall|j: int| #![trigger r@[j]] 0 <= j < r@.len() implies exists|w: int|
                        0 <= w < i + 1 && #[trigger] self.iedges@[w] == (oid1, r@[j]) by {
                        if j < pre.len() {
                            assert(r@[j] == pre[j]);
                            let w = choose|w: int|
                                0 <= w < i && #[trigger] self.iedges@[w] == (oid1, pre[j]);
                            assert(self.iedges@[w] == (oid1, r@[j]));
                        } else {
                            assert(r@[j] == t);
                            assert(self.iedges@[i as int] == (oid1, r@[j]));
                        }
                    }
                    assert forall|w: int|
                        0 <= w < i + 1 && (#[trigger] self.iedges@[w]).0 == oid1 implies r@.contains(
                        self.iedges@[w].1,
                    ) by {
                        if w < i {
                            assert(pre.contains(self.iedges@[w].1));
                            let j = choose|j: int|
                                0 <= j < pre.len() && pre[j] == self.iedges@[w].1;
                            assert(r@[j] == self.iedges@[w].1);
                        } else {
                            assert(r@[pre.len() as int] == t);
                        }
                    }
                }
            }
            i = i + 1;
        }
        proof {
            assert forall|j: int| 0 <= j < r@.len() implies self.has_pair(
                oid1,
                #[trigger] r@[j],
            ) by {
                let w = choose|w: int| 0 <= w < n && #[trigger] self.iedges@[w] == (oid1, r@[j]);
                assert(self.iedges@.contains((oid1, r@[j])));
            }
            assert forall|t: usize| self.has_pair(oid1, t) implies r@.contains(t) by {
                let w = choose|w: int|
                    0 <= w < self.iedges@.len() && self.iedges@[w] == (oid1, t);
                assert((self.iedges@[w]).0 == oid1);
            }
        }
        r
    }
}

} // verus!
