//! The abstract object-centric event log the miner consumes, and the
//! specification-level view of it: per-object lifelines, co-occurrence,
//! and first-appearance order of objects.

use vstd::prelude::*;

verus! {

/// One event of the log: its identifier and the set of objects it involves
/// (the "object map"), held as a duplicate-free vector.
pub struct OcelEvent {
    pub eid: usize,
    pub omap: Vec<usize>,
}

/// One object declaration of the log: its identifier and its type label.
pub struct OcelObject {
    pub oid: usize,
    pub obj_type: String,
}

/// The event log: events in their defined iteration order (assumed
/// chronological), and the declared objects with their type labels.
pub struct Ocel {
    pub events: Vec<OcelEvent>,
    pub objects: Vec<OcelObject>,
}

impl Ocel {
    /// Stated input invariants: event identifiers are unique, each event's
    /// object map is a set (no duplicates), and object identifiers are
    /// declared at most once.
    pub open spec fn wf(&self) -> bool {
        &&& forall|i: int, j: int|
            0 <= i < j < self.events@.len() ==> self.events@[i].eid != self.events@[j].eid
        &&& forall|k: int, i: int, j: int|
            0 <= k < self.events@.len() && 0 <= i < j < self.events@[k].omap@.len()
                ==> self.events@[k].omap@[i] != self.events@[k].omap@[j]
        &&& forall|i: int, j: int|
            0 <= i < j < self.objects@.len() ==> self.objects@[i].oid != self.objects@[j].oid
    }

    /// The object is declared in the log.
    pub open spec fn declared(&self, o: usize) -> bool {
        exists|i: int| 0 <= i < self.objects@.len() && #[trigger] self.objects@[i].oid == o
    }

    /// Index of the object's declaration.
    pub open spec fn decl_index(&self, o: usize) -> int {
        choose|i: int| 0 <= i < self.objects@.len() && #[trigger] self.objects@[i].oid == o
    }

    /// The declared type label of an object, as a character sequence.
    pub open spec fn type_of(&self, o: usize) -> Seq<char> {
        self.objects@[self.decl_index(o)].obj_type@
    }

    /// The object participates in the event at index `i`.
    pub open spec fn event_has(&self, i: int, o: usize) -> bool {
        self.events@[i].omap@.contains(o)
    }

    /// The object participates in at least one of the first `n` events.
    pub open spec fn occurs_upto(&self, o: usize, n: int) -> bool {
        exists|i: int| 0 <= i < n && i < self.events@.len() && #[trigger] self.event_has(i, o)
    }

    /// The object participates in at least one event of the log.
    pub open spec fn occurs(&self, o: usize) -> bool {
        self.occurs_upto(o, self.events@.len() as int)
    }

    /// The object's lifeline after the first `n` events have been ingested:
    /// the identifiers of the events it participates in, in log order.
    pub open spec fn lifeline_upto(&self, o: usize, n: int) -> Seq<usize>
        decreases n,
    {
        if n <= 0 || n > self.events@.len() {
            Seq::empty()
        } else if self.event_has(n - 1, o) {
            self.lifeline_upto(o, n - 1).push(self.events@[n - 1].eid)
        } else {
            self.lifeline_upto(o, n - 1)
        }
    }

    /// The object's full lifeline over the whole log.
    pub open spec fn lifeline(&self, o: usize) -> Seq<usize> {
        self.lifeline_upto(o, self.events@.len() as int)
    }

    /// Objects in first-appearance order after scanning events `0..i` whole
    /// and the first `j` entries of event `i`'s object map.
    pub open spec fn nodes_scan(&self, i: int, j: int) -> Seq<usize>
        decreases i, j,
    {
        if i < 0 || i > self.events@.len() {
            Seq::empty()
        } else if j <= 0 {
            if i <= 0 {
                Seq::empty()
            } else {
                self.nodes_scan(i - 1, self.events@[i - 1].omap@.len() as int)
            }
        } else {
            let pre = self.nodes_scan(i, j - 1);
            if j > self.events@[i].omap@.len() {
                pre
            } else {
                let o = self.events@[i].omap@[j - 1];
                if pre.contains(o) {
                    pre
                } else {
                    pre.push(o)
                }
            }
        }
    }

    /// Every object of the log in order of first appearance.
    pub open spec fn nodes_order(&self) -> Seq<usize> {
        self.nodes_scan(self.events@.len() as int, 0)
    }

    /// Identifier of the first event-referenced object that was never
    /// declared, scanning events in order and each object map in order;
    /// meaningful only when such an object exists.
    pub open spec fn first_undeclared(&self) -> usize {
        choose|o: usize| self.occurs(o) && !self.declared(o)
    }

    /// Some event references an object the log never declares.
    pub open spec fn has_undeclared(&self) -> bool {
        exists|o: usize| #[trigger] self.occurs(o) && !self.declared(o)
    }

    /// The log holds an event with this identifier.
    pub open spec fn has_eid(&self, e: usize) -> bool {
        exists|i: int| 0 <= i < self.events@.len() && (#[trigger] self.events@[i]).eid == e
    }

    /// Index of the event with this identifier.
    pub open spec fn eid_index(&self, e: usize) -> int {
        choose|i: int| 0 <= i < self.events@.len() && (#[trigger] self.events@[i]).eid == e
    }

    /// The object map of the event with this identifier.
    pub open spec fn omap_of(&self, e: usize) -> Seq<usize> {
        self.events@[self.eid_index(e)].omap@
    }

    /// Looks an object's declaration up; `Some` exactly for declared objects.
    pub fn find_type(&self, o: usize) -> (r: Option<&String>)
        requires
            self.wf(),
        ensures
            r is Some <==> self.declared(o),
            r matches Some(t) ==> t@ == self.type_of(o),
    {
        let n = self.objects.len();
        let mut i: usize = 0;
        while i < n
            invariant
                0 <= i <= n,
                n == self.objects@.len(),
                forall|k: int| 0 <= k < i ==> #[trigger] self.objects@[k].oid != o,
            decreases n - i,
        {
            if self.objects[i].oid == o {
                proof {
                    assert(self.objects@[i as int].oid == o);
                    assert(self.declared(o));
                    let di = self.decl_index(o);
                    assert(0 <= di < self.objects@.len() && self.objects@[di].oid == o);
                    if di < i as int {
                        assert(self.objects@[di].oid != self.objects@[i as int].oid);
                    } else if di > i as int {
                        assert(self.objects@[i as int].oid != self.objects@[di].oid);
                    }
                    assert(di == i as int);
                }
                return Some(&self.objects[i].obj_type);
            }
            i = i + 1;
        }
        None
    }

    /// Looks an event up by identifier; `Some` exactly when the log holds it.
    pub fn find_event(&self, eid: usize) -> (r: Option<&OcelEvent>)
        ensures
            r is Some <==> exists|i: int|
                0 <= i < self.events@.len() && #[trigger] self.events@[i].eid == eid,
            r matches Some(ev) ==> exists|i: int|
                0 <= i < self.events@.len() && #[trigger] self.events@[i].eid == eid
                    && *ev == self.events@[i],
    {
        let n = self.events.len();
        let mut i: usize = 0;
        while i < n
            invariant
                0 <= i <= n,
                n == self.events@.len(),
                forall|k: int| 0 <= k < i ==> #[trigger] self.events@[k].eid != eid,
            decreases n - i,
        {
            if self.events[i].eid == eid {
                proof {
                    assert(self.events@[i as int].eid == eid);
                }
                return Some(&self.events[i]);
            }
            i = i + 1;
        }
        None
    }
}

/// With unique event identifiers, an event's position is the position of
/// its identifier.
pub proof fn lemma_eid_unique(log: Ocel, e: usize, i: int)
    requires
        log.wf(),
        0 <= i < log.events@.len(),
        log.events@[i].eid == e,
    ensures
        log.has_eid(e),
        log.eid_index(e) == i,
        log.omap_of(e) == log.events@[i].omap@,
{
    assert(log.has_eid(e));
    let w = log.eid_index(e);
    assert(0 <= w < log.events@.len() && log.events@[w].eid == e);
    if w < i {
        assert(log.events@[w].eid != log.events@[i].eid);
    } else if w > i {
        assert(log.events@[i].eid != log.events@[w].eid);
    }
}

/// Scans a vector of identifiers (an object map, a lifeline, a neighbor
/// list) for one identifier.
pub fn contains_id(v: &Vec<usize>, x: usize) -> (r: bool)
    ensures
        r <==> v@.contains(x),
{
    let n = v.len();
    let mut i: usize = 0;
    while i < n
        invariant
            0 <= i <= n,
            n == v@.len(),
            forall|k: int| 0 <= k < i ==> #[trigger] v@[k] != x,
        decreases n - i,
    {
        if v[i] == x {
            proof {
                assert(v@[i as int] == x);
            }
            return true;
        }
        i = i + 1;
    }
    false
}

} // verus!
