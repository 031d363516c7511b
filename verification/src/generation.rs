//! The twelve relation evaluators and their specifications. Each evaluator
//! is a pure function of frozen lifeline and graph state; it returns a list
//! of (source, target, evidence, kind) proposals and mutates nothing. The
//! contribution of a proposal list to an ordered pair and kind is a set of
//! event identifiers, so contracts are stated over that set.

use vstd::prelude::*;

use array_tool::vec::Intersect;

use crate::log::Ocel;
use crate::log::contains_id;
use crate::ocdg::EventAdd;
use crate::ocdg::IntegrityError;
use crate::ocdg::Ocdg;
use crate::ocdg::eadd_set;
use crate::ocdg::seq_distinct;
use crate::ocdg::set_of;
use crate::ocdg::vec_insert_unique;
use crate::relations::Relations;

verus! {

/// One edge proposal: source, target, justifying events, relation kind.
pub type Proposal = (usize, usize, EventAdd, Relations);

/// The set holding exactly one event identifier.
pub open spec fn single_ev(e: usize) -> Set<usize> {
    Set::new(|x: usize| x == e)
}

/// The last event of a non-empty lifeline.
pub open spec fn last_of(s: Seq<usize>) -> usize {
    s[s.len() - 1]
}

/// What a proposal list contributes to the evidence of an ordered pair and
/// kind: the union of the event sets of its matching proposals.
pub open spec fn pe(props: Seq<Proposal>, s: usize, t: usize, k: Relations) -> Set<usize>
    decreases props.len(),
{
    if props.len() == 0 {
        Set::empty()
    } else {
        let last = props[props.len() - 1];
        let rest = pe(props.drop_last(), s, t, k);
        if last.0 == s && last.1 == t && last.3 == k {
            rest.union(eadd_set(last.2))
        } else {
            rest
        }
    }
}

/// Contribution distributes over concatenation of proposal lists.
pub proof fn lemma_pe_concat(a: Seq<Proposal>, b: Seq<Proposal>, s: usize, t: usize, k: Relations)
    ensures
        pe(a + b, s, t, k) == pe(a, s, t, k).union(pe(b, s, t, k)),
    decreases b.len(),
{
    if b.len() == 0 {
        assert(a + b =~= a);
        assert(pe(a, s, t, k).union(pe(b, s, t, k)) =~= pe(a, s, t, k));
    } else {
        let b0 = b.drop_last();
        let x = b[b.len() - 1];
        assert((a + b).drop_last() =~= a + b0);
        assert((a + b)[(a + b).len() - 1] == x);
        lemma_pe_concat(a, b0, s, t, k);
        if x.0 == s && x.1 == t && x.3 == k {
            assert(pe(a + b, s, t, k) =~= pe(a, s, t, k).union(pe(b, s, t, k)));
        } else {
            assert(pe(a + b, s, t, k) =~= pe(a, s, t, k).union(pe(b, s, t, k)));
        }
    }
}

/// Contribution of a proposal list extended by one proposal.
pub proof fn lemma_pe_push(props: Seq<Proposal>, p: Proposal, s: usize, t: usize, k: Relations)
    ensures
        pe(props.push(p), s, t, k) == if p.0 == s && p.1 == t && p.3 == k {
            pe(props, s, t, k).union(eadd_set(p.2))
        } else {
            pe(props, s, t, k)
        },
{
    assert(props.push(p).drop_last() =~= props);
    assert(props.push(p)[props.push(p).len() - 1] == p);
}

/// First occurrences of a sequence's values, in order.
pub open spec fn dedup_first(s: Seq<usize>) -> Seq<usize>
    decreases s.len(),
{
    if s.len() == 0 {
        Seq::empty()
    } else {
        let pre = dedup_first(s.drop_last());
        if s.drop_last().contains(s.last()) {
            pre
        } else {
            pre.push(s.last())
        }
    }
}

/// Values of the left sequence, first occurrences only, that also occur in
/// the right sequence, in the left sequence's order.
pub open spec fn inter_seq(a: Seq<usize>, b: Seq<usize>) -> Seq<usize> {
    dedup_first(a).filter(|e: usize| b.contains(e))
}

/// Relies on array_tool's `Vec::intersect`: it keeps the first occurrence
/// of each value of the left vector, in order, and drops those that do not
/// occur in the right vector.
#[verifier::external_body]
fn vec_intersect(a: &Vec<usize>, b: &Vec<usize>) -> (r: Vec<usize>)
    ensures
        r@ == inter_seq(a@, b@),
{
    a.intersect(b.clone())
}

/// Copies a vector of identifiers.
pub fn copy_ids(v: &Vec<usize>) -> (r: Vec<usize>)
    ensures
        r@ == v@,
{
    let n = v.len();
    let mut r: Vec<usize> = Vec::new();
    let mut i: usize = 0;
    while i < n
        invariant
            0 <= i <= n,
            n == v@.len(),
            r@ == v@.take(i as int),
        decreases n - i,
    {
        r.push(v[i]);
        proof {
            assert(r@ =~= v@.take(i + 1));
        }
        i = i + 1;
    }
    proof {
        assert(v@.take(n as int) =~= v@);
    }
    r
}

/// Both objects share their first event.
pub open spec fn cobirth_cond(g: Ocdg, a: usize, b: usize) -> bool {
    g.events_of(a)[0] == g.events_of(b)[0]
}

/// Both objects share their last event.
pub open spec fn codeath_cond(g: Ocdg, a: usize, b: usize) -> bool {
    last_of(g.events_of(a)) == last_of(g.events_of(b))
}

/// Same type, and the source's lifeline ends exactly where the target's
/// begins.
pub open spec fn inherit_cond(g: Ocdg, a: usize, b: usize) -> bool {
    g.type_str(a) == g.type_str(b) && last_of(g.events_of(a)) == g.events_of(b)[0]
}

/// Different types, and the source's lifeline ends exactly where the
/// target's begins.
pub open spec fn consumes_cond(g: Ocdg, a: usize, b: usize) -> bool {
    g.type_str(a) != g.type_str(b) && last_of(g.events_of(a)) == g.events_of(b)[0]
}

/// Same type and distinct last events.
pub open spec fn merge_cond(g: Ocdg, a: usize, b: usize) -> bool {
    g.type_str(a) == g.type_str(b) && last_of(g.events_of(a)) != last_of(g.events_of(b))
}

/// The source's lifeline is strictly longer and covers the target's whole
/// lifeline, measured on the deduplicated intersection.
pub open spec fn minion_cond(g: Ocdg, a: usize, b: usize) -> bool {
    g.events_of(a).len() > g.events_of(b).len() && inter_seq(
        g.events_of(a),
        g.events_of(b),
    ).len() == g.events_of(b).len()
}

/// The shorter of the two lifelines; the source's on a tie.
pub open spec fn peeler_short(g: Ocdg, a: usize, b: usize) -> Seq<usize> {
    if g.events_of(a).len() > g.events_of(b).len() {
        g.events_of(b)
    } else {
        g.events_of(a)
    }
}

/// Some event of the walked lifeline involves both objects and a third one.
pub open spec fn peeler_fail(log: Ocel, walked: Seq<usize>, a: usize, b: usize) -> bool {
    exists|i: int|
        0 <= i < walked.len() && (#[trigger] log.omap_of(walked[i])).len() > 2 && log.omap_of(
            walked[i],
        ).contains(a) && log.omap_of(walked[i]).contains(b)
}

/// Neither object's first or last event appears anywhere in the other's
/// lifeline.
pub open spec fn engages_cond(g: Ocdg, a: usize, b: usize) -> bool {
    &&& !g.events_of(b).contains(g.events_of(a)[0])
    &&& !g.events_of(b).contains(last_of(g.events_of(a)))
    &&& !g.events_of(a).contains(g.events_of(b)[0])
    &&& !g.events_of(a).contains(last_of(g.events_of(b)))
}

/// A neighbor conforms to a split from `a`: same type, and its lifeline
/// begins exactly at `a`'s last event.
pub open spec fn split_conf(g: Ocdg, a: usize, t: usize) -> bool {
    g.type_str(t) == g.type_str(a) && g.events_of(t)[0] == last_of(g.events_of(a))
}

/// At least two distinct outgoing neighbors conform: the fan-out that SPLIT
/// requires before it fires.
pub open spec fn split_fanout(g: Ocdg, a: usize, ns: Seq<usize>) -> bool {
    exists|x: int, y: int|
        0 <= x < y < ns.len() && split_conf(g, a, #[trigger] ns[x]) && split_conf(
            g,
            a,
            #[trigger] ns[y],
        )
}

/// What one whole-tier evaluation of `kind` on object `a` with outgoing
/// neighborhood `ns` contributes to the evidence of (s, t, k).
pub open spec fn whole_contrib(
    kind: Relations,
    g: Ocdg,
    a: usize,
    ns: Seq<usize>,
    s: usize,
    t: usize,
    k: Relations,
) -> Set<usize> {
    match kind {
        Relations::SPLIT => if k == kind && s == a && ns.contains(t) && split_conf(g, a, t)
            && split_fanout(g, a, ns) {
            single_ev(last_of(g.events_of(a)))
        } else {
            Set::empty()
        },
        _ => Set::empty(),
    }
}

/// The pair member that is not `a`, for a proposal aimed at (s, t).
pub open spec fn pair_other(a: usize, s: usize, t: usize) -> usize {
    if s == a {
        t
    } else {
        s
    }
}

/// SPLIT fires from `s` to `t`: `t` is an outgoing neighbor conforming to
/// the split, and at least two distinct outgoing neighbors conform.
pub open spec fn split_fires(g: Ocdg, a: usize, t: usize) -> bool {
    &&& g.has_pair(a, t)
    &&& split_conf(g, a, t)
    &&& exists|t1: usize, t2: usize|
        t1 != t2 && #[trigger] g.has_pair(a, t1) && split_conf(g, a, t1) && #[trigger] g.has_pair(
            a,
            t2,
        ) && split_conf(g, a, t2)
}

/// What the whole-tier pass of one per-object task contributes.
pub open spec fn task_whole_contrib(
    g: Ocdg,
    a: usize,
    sel: Seq<Relations>,
    s: usize,
    t: usize,
    k: Relations,
) -> Set<usize> {
    if sel.contains(Relations::SPLIT) && k == Relations::SPLIT && s == a && split_fires(g, a, t) {
        single_ev(last_of(g.events_of(a)))
    } else {
        Set::empty()
    }
}

/// What running every selected instance kind on the ordered pair (a, b)
/// contributes.
pub open spec fn inst_sel_contrib(
    log: Ocel,
    g: Ocdg,
    a: usize,
    b: usize,
    sel: Seq<Relations>,
    s: usize,
    t: usize,
    k: Relations,
) -> Set<usize> {
    if sel.contains(k) {
        exec_contrib(k, log, g, a, b, s, t, k)
    } else {
        Set::empty()
    }
}

/// What the instance-tier pass of one per-object task contributes, with the
/// pairs evaluated restricted to the processed prefix of the neighborhood.
pub open spec fn task_inst_partial(
    log: Ocel,
    g: Ocdg,
    a: usize,
    sel: Seq<Relations>,
    processed: Seq<usize>,
    s: usize,
    t: usize,
    k: Relations,
) -> Set<usize> {
    if (s == a || t == a) && processed.contains(pair_other(a, s, t)) {
        inst_sel_contrib(log, g, a, pair_other(a, s, t), sel, s, t, k)
    } else {
        Set::empty()
    }
}

/// What the instance-tier pass of one per-object task contributes in full:
/// every outgoing neighbor of `a` is an evaluated pair.
pub open spec fn task_inst_contrib(
    log: Ocel,
    g: Ocdg,
    a: usize,
    sel: Seq<Relations>,
    s: usize,
    t: usize,
    k: Relations,
) -> Set<usize> {
    if (s == a || t == a) && g.has_pair(a, pair_other(a, s, t)) {
        inst_sel_contrib(log, g, a, pair_other(a, s, t), sel, s, t, k)
    } else {
        Set::empty()
    }
}

/// Every registered object of a frozen graph has a non-empty lifeline whose
/// events the log holds: what the ingestion pass guarantees to the parallel
/// pass.
pub open spec fn frozen_ok(log: Ocel, g: Ocdg) -> bool {
    &&& forall|o: usize| #[trigger] g.registered(o) ==> g.events_of(o).len() > 0
    &&& forall|o: usize, i: int|
        g.registered(o) && 0 <= i < g.events_of(o).len() ==> log.has_eid(
            #[trigger] g.events_of(o)[i],
        )
}

/// Membership in a pushed sequence of relation kinds.
pub proof fn lemma_rel_push_contains(s: Seq<Relations>, x: Relations, y: Relations)
    ensures
        s.push(x).contains(y) <==> (s.contains(y) || y == x),
{
    if s.contains(y) {
        let i = choose|i: int| 0 <= i < s.len() && s[i] == y;
        assert(s.push(x)[i] == y);
    }
    if y == x {
        assert(s.push(x)[s.len() as int] == y);
    }
    if s.push(x).contains(y) {
        let i = choose|i: int| 0 <= i < s.push(x).len() && s.push(x)[i] == y;
        if i < s.len() {
            assert(s[i] == y);
        }
    }
}

/// What one instance-tier evaluation of `kind` on the ordered pair (a, b)
/// contributes to the evidence of (s, t, k).
pub open spec fn exec_contrib(
    kind: Relations,
    log: Ocel,
    g: Ocdg,
    a: usize,
    b: usize,
    s: usize,
    t: usize,
    k: Relations,
) -> Set<usize> {
    match kind {
        Relations::COLIFE => if k == kind && s == a && t == b && g.events_of(a) == g.events_of(b) {
            set_of(g.events_of(a))
        } else {
            Set::empty()
        },
        Relations::COBIRTH => if k == kind && a < b && cobirth_cond(g, a, b) && ((s == a && t == b)
            || (s == b && t == a)) {
            single_ev(g.events_of(a)[0])
        } else {
            Set::empty()
        },
        Relations::CODEATH => if k == kind && a < b && codeath_cond(g, a, b) && ((s == a && t == b)
            || (s == b && t == a)) {
            single_ev(last_of(g.events_of(a)))
        } else {
            Set::empty()
        },
        Relations::INHERITANCE => if k == kind && s == a && t == b && inherit_cond(g, a, b) {
            single_ev(last_of(g.events_of(a)))
        } else {
            Set::empty()
        },
        Relations::CONSUMES => if k == kind && s == a && t == b && consumes_cond(g, a, b) {
            single_ev(last_of(g.events_of(a)))
        } else {
            Set::empty()
        },
        Relations::MERGE => if k == kind && s == a && t == b && merge_cond(g, a, b) {
            single_ev(last_of(g.events_of(a)))
        } else {
            Set::empty()
        },
        Relations::MINION => if k == kind && s == a && t == b && minion_cond(g, a, b) {
            set_of(inter_seq(g.events_of(a), g.events_of(b)))
        } else {
            Set::empty()
        },
        Relations::PEELER => if k == kind && a < b && !peeler_fail(log, peeler_short(g, a, b), a, b)
            && ((s == a && t == b) || (s == b && t == a)) {
            set_of(peeler_short(g, a, b))
        } else {
            Set::empty()
        },
        Relations::ENGAGES => if k == kind && a < b && engages_cond(g, a, b) && ((s == a && t == b)
            || (s == b && t == a)) {
            set_of(g.events_of(a)).intersect(set_of(g.events_of(b)))
        } else {
            Set::empty()
        },
        _ => Set::empty(),
    }
}

/// What one primitive-tier evaluation of `kind` on the ordered pair
/// (a, b), while event `eid` is being ingested, contributes to (s, t, k).
pub open spec fn prim_contrib(
    kind: Relations,
    g: Ocdg,
    a: usize,
    b: usize,
    eid: usize,
    s: usize,
    t: usize,
    k: Relations,
) -> Set<usize> {
    match kind {
        Relations::INTERACTS => if k == kind && s == a && t == b {
            single_ev(eid)
        } else {
            Set::empty()
        },
        Relations::DESCENDANTS => if k == kind && s == a && t == b && g.events_of(a).len() > 1 && (
        !g.registered(b) || g.events_of(b).len() == 1) {
            single_ev(eid)
        } else {
            Set::empty()
        },
        _ => Set::empty(),
    }
}

impl Relations {
    /// Primitive-tier evaluation, run inline while an event is ingested:
    /// INTERACTS fires for every ordered pair of the event's object set;
    /// DESCENDANTS fires when, with the event already appended, the
    /// source's lifeline has grown past one event while the target's is the
    /// single event just appended. Other kinds propose nothing here.
    pub fn execute_primitive(&self, ocdg: &Ocdg, oid1: usize, oid2: usize, eid: usize) -> (r: Vec<
        Proposal,
    >)
        requires
            ocdg.wf(),
            *self == Relations::DESCENDANTS ==> ocdg.registered(oid1),
        ensures
            forall|s: usize, t: usize, k: Relations|
                #[trigger] pe(r@, s, t, k) == prim_contrib(*self, *ocdg, oid1, oid2, eid, s, t, k),
            forall|j: int|
                0 <= j < r@.len() ==> (#[trigger] r@[j]).0 == oid1 && r@[j].1 == oid2 && r@[j].3
                    == *self,
    {
        let mut to_add: Vec<Proposal> = Vec::new();
        match self {
            Relations::INTERACTS => {
                to_add.push((oid1, oid2, EventAdd::SINGLE(eid), Relations::INTERACTS));
                proof {
                    assert forall|s: usize, t: usize, k: Relations|
                        #[trigger] pe(to_add@, s, t, k) == prim_contrib(
                            *self,
                            *ocdg,
                            oid1,
                            oid2,
                            eid,
                            s,
                            t,
                            k,
                        ) by {
                        assert(to_add@.drop_last() =~= Seq::<Proposal>::empty());
                        assert(pe(Seq::<Proposal>::empty(), s, t, k) == Set::<usize>::empty());
                        assert(pe(to_add@, s, t, k) =~= prim_contrib(
                            *self,
                            *ocdg,
                            oid1,
                            oid2,
                            eid,
                            s,
                            t,
                            k,
                        ));
                    }
                }
            },
            Relations::DESCENDANTS => {
                let src_len = ocdg.get_node(oid1).info.object_events.len();
                let tar_known = ocdg.contains_node(oid2);
                let fires = if tar_known {
                    let tar_len = ocdg.get_node(oid2).info.object_events.len();
                    src_len > 1 && tar_len == 1
                } else {
                    src_len > 1
                };
                if fires {
                    to_add.push((oid1, oid2, EventAdd::SINGLE(eid), Relations::DESCENDANTS));
                }
                proof {
                    assert forall|s: usize, t: usize, k: Relations|
                        #[trigger] pe(to_add@, s, t, k) == prim_contrib(
                            *self,
                            *ocdg,
                            oid1,
                            oid2,
                            eid,
                            s,
                            t,
                            k,
                        ) by {
                        if fires {
                            assert(to_add@.drop_last() =~= Seq::<Proposal>::empty());
                            assert(pe(Seq::<Proposal>::empty(), s, t, k) == Set::<usize>::empty());
                        }
                        assert(pe(to_add@, s, t, k) =~= prim_contrib(
                            *self,
                            *ocdg,
                            oid1,
                            oid2,
                            eid,
                            s,
                            t,
                            k,
                        ));
                    }
                }
            },
            _ => {
                proof {
                    assert forall|s: usize, t: usize, k: Relations|
                        #[trigger] pe(to_add@, s, t, k) == prim_contrib(
                            *self,
                            *ocdg,
                            oid1,
                            oid2,
                            eid,
                            s,
                            t,
                            k,
                        ) by {
                        assert(pe(to_add@, s, t, k) =~= prim_contrib(
                            *self,
                            *ocdg,
                            oid1,
                            oid2,
                            eid,
                            s,
                            t,
                            k,
                        ));
                    }
                }
            },
        }
        to_add
    }

    /// Instance-tier evaluation on an ordered, already-adjacent pair with
    /// frozen lifelines. Each kind's firing rule and evidence are exactly
    /// the ones `exec_contrib` states; kinds of other tiers propose nothing.
    pub fn execute(&self, log: &Ocel, ocdg: &Ocdg, oid1: usize, oid2: usize) -> (r: Vec<Proposal>)
        requires
            log.wf(),
            ocdg.wf(),
            ocdg.registered(oid1),
            ocdg.registered(oid2),
            ocdg.events_of(oid1).len() > 0,
            ocdg.events_of(oid2).len() > 0,
            forall|i: int|
                0 <= i < ocdg.events_of(oid1).len() ==> log.has_eid(
                    #[trigger] ocdg.events_of(oid1)[i],
                ),
            forall|i: int|
                0 <= i < ocdg.events_of(oid2).len() ==> log.has_eid(
                    #[trigger] ocdg.events_of(oid2)[i],
                ),
        ensures
            forall|s: usize, t: usize, k: Relations|
                #[trigger] pe(r@, s, t, k) == exec_contrib(*self, *log, *ocdg, oid1, oid2, s, t, k),
            forall|j: int|
                0 <= j < r@.len() ==> ((#[trigger] r@[j]).0 == oid1 || r@[j].0 == oid2) && (r@[j].1
                    == oid1 || r@[j].1 == oid2),
    {
        let mut to_add: Vec<Proposal> = Vec::new();
        let n1 = ocdg.get_node(oid1);
        let n2 = ocdg.get_node(oid2);
        match self {
            Relations::COLIFE => {
                if n1.info.object_events == n2.info.object_events {
                    proof {
                        assert(n1.info.object_events@ =~= n2.info.object_events@);
                    }
                    let ev = copy_ids(&n1.info.object_events);
                    to_add.push((oid1, oid2, EventAdd::MULTI(ev), Relations::COLIFE));
                }
                proof {
                    assert forall|s: usize, t: usize, k: Relations|
                        #[trigger] pe(to_add@, s, t, k) == exec_contrib(
                            *self, *log, *ocdg, oid1, oid2, s, t, k,
                        ) by {
                        if to_add@.len() > 0 {
                            assert(to_add@.drop_last() =~= Seq::<Proposal>::empty());
                            assert(pe(Seq::<Proposal>::empty(), s, t, k) == Set::<usize>::empty());
                        }
                        assert(pe(to_add@, s, t, k) =~= exec_contrib(
                            *self, *log, *ocdg, oid1, oid2, s, t, k,
                        ));
                    }
                }
            },
            Relations::COBIRTH => {
                if oid1 < oid2 {
                    let src_first = n1.info.object_events[0];
                    let tar_first = n2.info.object_events[0];
                    if src_first == tar_first {
                        to_add.push((oid1, oid2, EventAdd::SINGLE(src_first), Relations::COBIRTH));
                        to_add.push((oid2, oid1, EventAdd::SINGLE(src_first), Relations::COBIRTH));
                    }
                }
                proof {
                    assert forall|s: usize, t: usize, k: Relations|
                        #[trigger] pe(to_add@, s, t, k) == exec_contrib(
                            *self, *log, *ocdg, oid1, oid2, s, t, k,
                        ) by {
                        if to_add@.len() > 0 {
                            assert(to_add@ =~= Seq::<Proposal>::empty().push(to_add@[0]).push(
                                to_add@[1],
                            ));
                            lemma_pe_push(Seq::<Proposal>::empty(), to_add@[0], s, t, k);
                            lemma_pe_push(
                                Seq::<Proposal>::empty().push(to_add@[0]),
                                to_add@[1],
                                s,
                                t,
                                k,
                            );
                            assert(pe(Seq::<Proposal>::empty(), s, t, k) == Set::<usize>::empty());
                        }
                        assert(pe(to_add@, s, t, k) =~= exec_contrib(
                            *self, *log, *ocdg, oid1, oid2, s, t, k,
                        ));
                    }
                }
            },
            Relations::CODEATH => {
                if oid1 < oid2 {
                    let src_last = n1.info.object_events[n1.info.object_events.len() - 1];
                    let tar_last = n2.info.object_events[n2.info.object_events.len() - 1];
                    if src_last == tar_last {
                        to_add.push((oid1, oid2, EventAdd::SINGLE(src_last), Relations::CODEATH));
                        to_add.push((oid2, oid1, EventAdd::SINGLE(src_last), Relations::CODEATH));
                    }
                }
                proof {
                    assert forall|s: usize, t: usize, k: Relations|
                        #[trigger] pe(to_add@, s, t, k) == exec_contrib(
                            *self, *log, *ocdg, oid1, oid2, s, t, k,
                        ) by {
                        if to_add@.len() > 0 {
                            assert(to_add@ =~= Seq::<Proposal>::empty().push(to_add@[0]).push(
                                to_add@[1],
                            ));
                            lemma_pe_push(Seq::<Proposal>::empty(), to_add@[0], s, t, k);
                            lemma_pe_push(
                                Seq::<Proposal>::empty().push(to_add@[0]),
                                to_add@[1],
                                s,
                                t,
                                k,
                            );
                            assert(pe(Seq::<Proposal>::empty(), s, t, k) == Set::<usize>::empty());
                        }
                        assert(pe(to_add@, s, t, k) =~= exec_contrib(
                            *self, *log, *ocdg, oid1, oid2, s, t, k,
                        ));
                    }
                }
            },
            Relations::INHERITANCE => {
                let src_last = n1.info.object_events[n1.info.object_events.len() - 1];
                let tar_first = n2.info.object_events[0];
                if n1.info.node_type == n2.info.node_type && src_last == tar_first {
                    to_add.push((oid1, oid2, EventAdd::SINGLE(src_last), Relations::INHERITANCE));
                }
                proof {
                    assert forall|s: usize, t: usize, k: Relations|
                        #[trigger] pe(to_add@, s, t, k) == exec_contrib(
                            *self, *log, *ocdg, oid1, oid2, s, t, k,
                        ) by {
                        if to_add@.len() > 0 {
                            assert(to_add@.drop_last() =~= Seq::<Proposal>::empty());
                            assert(pe(Seq::<Proposal>::empty(), s, t, k) == Set::<usize>::empty());
                        }
                        assert(pe(to_add@, s, t, k) =~= exec_contrib(
                            *self, *log, *ocdg, oid1, oid2, s, t, k,
                        ));
                    }
                }
            },
            Relations::CONSUMES => {
                let src_last = n1.info.object_events[n1.info.object_events.len() - 1];
                let tar_first = n2.info.object_events[0];
                if !(n1.info.node_type == n2.info.node_type) && src_last == tar_first {
                    to_add.push((oid1, oid2, EventAdd::SINGLE(src_last), Relations::CONSUMES));
                }
                proof {
                    assert forall|s: usize, t: usize, k: Relations|
                        #[trigger] pe(to_add@, s, t, k) == exec_contrib(
                            *self, *log, *ocdg, oid1, oid2, s, t, k,
                        ) by {
                        if to_add@.len() > 0 {
                            assert(to_add@.drop_last() =~= Seq::<Proposal>::empty());
                            assert(pe(Seq::<Proposal>::empty(), s, t, k) == Set::<usize>::empty());
                        }
                        assert(pe(to_add@, s, t, k) =~= exec_contrib(
                            *self, *log, *ocdg, oid1, oid2, s, t, k,
                        ));
                    }
                }
            },
            Relations::MERGE => {
                let src_last = n1.info.object_events[n1.info.object_events.len() - 1];
                let tar_last = n2.info.object_events[n2.info.object_events.len() - 1];
                if n1.info.node_type == n2.info.node_type && src_last != tar_last {
                    to_add.push((oid1, oid2, EventAdd::SINGLE(src_last), Relations::MERGE));
                }
                proof {
                    assert forall|s: usize, t: usize, k: Relations|
                        #[trigger] pe(to_add@, s, t, k) == exec_contrib(
                            *self, *log, *ocdg, oid1, oid2, s, t, k,
                        ) by {
                        if to_add@.len() > 0 {
                            assert(to_add@.drop_last() =~= Seq::<Proposal>::empty());
                            assert(pe(Seq::<Proposal>::empty(), s, t, k) == Set::<usize>::empty());
                        }
                        assert(pe(to_add@, s, t, k) =~= exec_contrib(
                            *self, *log, *ocdg, oid1, oid2, s, t, k,
                        ));
                    }
                }
            },
            Relations::MINION => {
                if n1.info.object_events.len() > n2.info.object_events.len() {
                    let common = vec_intersect(&n1.info.object_events, &n2.info.object_events);
                    if common.len() == n2.info.object_events.len() {
                        to_add.push((oid1, oid2, EventAdd::MULTI(common), Relations::MINION));
                    }
                }
                proof {
                    assert forall|s: usize, t: usize, k: Relations|
                        #[trigger] pe(to_add@, s, t, k) == exec_contrib(
                            *self, *log, *ocdg, oid1, oid2, s, t, k,
                        ) by {
                        if to_add@.len() > 0 {
                            assert(to_add@.drop_last() =~= Seq::<Proposal>::empty());
                            assert(pe(Seq::<Proposal>::empty(), s, t, k) == Set::<usize>::empty());
                        }
                        assert(pe(to_add@, s, t, k) =~= exec_contrib(
                            *self, *log, *ocdg, oid1, oid2, s, t, k,
                        ));
                    }
                }
            },
            Relations::PEELER => {
                if oid1 < oid2 {
                    let shorter = if n1.info.object_events.len() > n2.info.object_events.len() {
                        &n2.info.object_events
                    } else {
                        &n1.info.object_events
                    };
                    proof {
                        assert(shorter@ == peeler_short(*ocdg, oid1, oid2));
                    }
                    let m = shorter.len();
                    let mut shared: Vec<usize> = Vec::new();
                    let mut failed = false;
                    let mut i: usize = 0;
                    while i < m
                        invariant
                            0 <= i <= m,
                            m == shorter@.len(),
                            shorter@ == peeler_short(*ocdg, oid1, oid2),
                            log.wf(),
                            forall|w: int| 0 <= w < m ==> log.has_eid(#[trigger] shorter@[w]),
                            !failed ==> shared@ == shorter@.take(i as int),
                            !failed ==> forall|w: int|
                                0 <= w < i ==> !((#[trigger] log.omap_of(shorter@[w])).len() > 2
                                    && log.omap_of(shorter@[w]).contains(oid1) && log.omap_of(
                                    shorter@[w],
                                ).contains(oid2)),
                            failed ==> peeler_fail(*log, shorter@, oid1, oid2),
                        decreases m - i,
                    {
                        if !failed {
                            let e = shorter[i];
                            let evr = log.find_event(e).unwrap();
                            proof {
                                let w = choose|w: int|
                                    0 <= w < log.events@.len() && #[trigger] log.events@[w].eid
                                        == e && *evr == log.events@[w];
                                crate::log::lemma_eid_unique(*log, e, w);
                                assert(evr.omap@ == log.omap_of(e));
                            }
                            let big = evr.omap.len() > 2;
                            let has1 = contains_id(&evr.omap, oid1);
                            let has2 = contains_id(&evr.omap, oid2);
                            if big && has1 && has2 {
                                failed = true;
                                proof {
                                    assert(log.omap_of(shorter@[i as int]).len() > 2
                                        && log.omap_of(shorter@[i as int]).contains(oid1)
                                        && log.omap_of(shorter@[i as int]).contains(oid2));
                                }
                            } else {
                                shared.push(e);
                                proof {
                                    assert(shared@ =~= shorter@.take(i + 1));
                                }
                            }
                        }
                        i = i + 1;
                    }
                    if !failed {
                        proof {
                            assert(shared@ =~= shorter@) by {
                                assert(shorter@.take(m as int) =~= shorter@);
                            }
                            assert(!peeler_fail(*log, shorter@, oid1, oid2));
                        }
                        let shared2 = copy_ids(&shared);
                        to_add.push((oid1, oid2, EventAdd::MULTI(shared), Relations::PEELER));
                        to_add.push((oid2, oid1, EventAdd::MULTI(shared2), Relations::PEELER));
                    }
                }
                proof {
                    assert forall|s: usize, t: usize, k: Relations|
                        #[trigger] pe(to_add@, s, t, k) == exec_contrib(
                            *self, *log, *ocdg, oid1, oid2, s, t, k,
                        ) by {
                        if to_add@.len() > 0 {
                            assert(to_add@ =~= Seq::<Proposal>::empty().push(to_add@[0]).push(
                                to_add@[1],
                            ));
                            lemma_pe_push(Seq::<Proposal>::empty(), to_add@[0], s, t, k);
                            lemma_pe_push(
                                Seq::<Proposal>::empty().push(to_add@[0]),
                                to_add@[1],
                                s,
                                t,
                                k,
                            );
                            assert(pe(Seq::<Proposal>::empty(), s, t, k) == Set::<usize>::empty());
                        }
                        assert(pe(to_add@, s, t, k) =~= exec_contrib(
                            *self, *log, *ocdg, oid1, oid2, s, t, k,
                        ));
                    }
                }
            },
            Relations::ENGAGES => {
                if oid1 < oid2 {
                    let src_first = n1.info.object_events[0];
                    let src_last = n1.info.object_events[n1.info.object_events.len() - 1];
                    let tar_first = n2.info.object_events[0];
                    let tar_last = n2.info.object_events[n2.info.object_events.len() - 1];
                    let apart = !contains_id(&n2.info.object_events, src_first) && !contains_id(
                        &n2.info.object_events,
                        src_last,
                    ) && !contains_id(&n1.info.object_events, tar_first) && !contains_id(
                        &n1.info.object_events,
                        tar_last,
                    );
                    if apart {
                        let src = &n1.info.object_events;
                        let tar = &n2.info.object_events;
                        let sn = src.len();
                        let mut inter: Vec<usize> = Vec::new();
                        let mut i: usize = 0;
                        proof {
                            assert(set_of(inter@) =~= set_of(src@.take(0)).intersect(set_of(tar@)));
                        }
                        while i < sn
                            invariant
                                0 <= i <= sn,
                                sn == src@.len(),
                                seq_distinct(inter@),
                                set_of(inter@) == set_of(src@.take(i as int)).intersect(
                                    set_of(tar@),
                                ),
                            decreases sn - i,
                        {
                            let e = src[i];
                            let ghost prev = inter@;
                            let hit = contains_id(tar, e);
                            if hit {
                                vec_insert_unique(&mut inter, e);
                                proof {
                                    assert(set_of(inter@) == set_of(prev).insert(src@[i as int]));
                                }
                            } else {
                                proof {
                                    assert(inter@ == prev);
                                    assert(!tar@.contains(src@[i as int]));
                                }
                            }
                            proof {
                                assert(src@.take(i + 1) =~= src@.take(i as int).push(
                                    src@[i as int],
                                ));
                                assert forall|y: usize|
                                    set_of(src@.take(i + 1)).contains(y) <==> set_of(
                                        src@.take(i as int),
                                    ).contains(y) || y == src@[i as int] by {
                                    crate::ocdg::lemma_push_contains(
                                        src@.take(i as int),
                                        src@[i as int],
                                        y,
                                    );
                                }
                                assert forall|y: usize| #![trigger set_of(inter@).contains(y)]
                                    set_of(inter@).contains(y) == (set_of(
                                        src@.take(i + 1),
                                    ).contains(y) && set_of(tar@).contains(y)) by {
                                    assert(set_of(prev).contains(y) == (src@.take(
                                        i as int,
                                    ).contains(y) && tar@.contains(y)));
                                    if hit {
                                        assert(set_of(inter@).contains(y) == (set_of(
                                            prev,
                                        ).contains(y) || y == src@[i as int]));
                                        assert(tar@.contains(src@[i as int]));
                                    } else {
                                        assert(!tar@.contains(src@[i as int]));
                                    }
                                }
                                assert(set_of(inter@) =~= set_of(src@.take(i + 1)).intersect(
                                    set_of(tar@),
                                ));
                            }
                            i = i + 1;
                        }
                        proof {
                            assert(src@.take(sn as int) =~= src@);
                        }
                        let inter2 = copy_ids(&inter);
                        to_add.push((oid1, oid2, EventAdd::MULTI(inter), Relations::ENGAGES));
                        to_add.push((oid2, oid1, EventAdd::MULTI(inter2), Relations::ENGAGES));
                    }
                }
                proof {
                    assert forall|s: usize, t: usize, k: Relations|
                        #[trigger] pe(to_add@, s, t, k) == exec_contrib(
                            *self, *log, *ocdg, oid1, oid2, s, t, k,
                        ) by {
                        if to_add@.len() > 0 {
                            assert(to_add@ =~= Seq::<Proposal>::empty().push(to_add@[0]).push(
                                to_add@[1],
                            ));
                            lemma_pe_push(Seq::<Proposal>::empty(), to_add@[0], s, t, k);
                            lemma_pe_push(
                                Seq::<Proposal>::empty().push(to_add@[0]),
                                to_add@[1],
                                s,
                                t,
                                k,
                            );
                            assert(pe(Seq::<Proposal>::empty(), s, t, k) == Set::<usize>::empty());
                        }
                        assert(pe(to_add@, s, t, k) =~= exec_contrib(
                            *self, *log, *ocdg, oid1, oid2, s, t, k,
                        ));
                    }
                }
            },
            _ => {
                proof {
                    assert forall|s: usize, t: usize, k: Relations|
                        #[trigger] pe(to_add@, s, t, k) == exec_contrib(
                            *self, *log, *ocdg, oid1, oid2, s, t, k,
                        ) by {
                        assert(pe(to_add@, s, t, k) =~= exec_contrib(
                            *self, *log, *ocdg, oid1, oid2, s, t, k,
                        ));
                    }
                }
            },
        }
        to_add
    }

    /// Whole-tier evaluation: SPLIT looks at an object's whole outgoing
    /// neighborhood and, when more than one neighbor of the same type starts
    /// its lifeline at the object's last event, proposes a directed edge to
    /// each such neighbor. Other kinds propose nothing here.
    pub fn execute_whole(&self, ocdg: &Ocdg, oid1: usize, neighbors: &Vec<usize>) -> (r: Vec<
        Proposal,
    >)
        requires
            ocdg.wf(),
            ocdg.registered(oid1),
            ocdg.events_of(oid1).len() > 0,
            seq_distinct(neighbors@),
            forall|j: int|
                0 <= j < neighbors@.len() ==> ocdg.registered(#[trigger] neighbors@[j])
                    && ocdg.events_of(neighbors@[j]).len() > 0,
        ensures
            forall|s: usize, t: usize, k: Relations|
                #[trigger] pe(r@, s, t, k) == whole_contrib(
                    *self,
                    *ocdg,
                    oid1,
                    neighbors@,
                    s,
                    t,
                    k,
                ),
            forall|j: int|
                0 <= j < r@.len() ==> (#[trigger] r@[j]).0 == oid1 && neighbors@.contains(r@[j].1),
    {
        let mut to_add: Vec<Proposal> = Vec::new();
        match self {
            Relations::SPLIT => {
                let n1 = ocdg.get_node(oid1);
                let src_e = n1.info.object_events[n1.info.object_events.len() - 1];
                let nn = neighbors.len();
                let mut conf: Vec<usize> = Vec::new();
                let mut i: usize = 0;
                while i < nn
                    invariant
                        0 <= i <= nn,
                        nn == neighbors@.len(),
                        ocdg.wf(),
                        src_e == last_of(ocdg.events_of(oid1)),
                        seq_distinct(conf@),
                        forall|j: int| #![trigger conf@[j]]
                            0 <= j < conf@.len() ==> split_conf(*ocdg, oid1, conf@[j]) && exists|
                                w: int,
                            |
                                0 <= w < i && #[trigger] neighbors@[w] == conf@[j],
                        forall|w: int|
                            0 <= w < i && split_conf(*ocdg, oid1, #[trigger] neighbors@[w])
                                ==> conf@.contains(neighbors@[w]),
                    decreases nn - i,
                {
                    let b = neighbors[i];
                    let nb = ocdg.get_node(b);
                    if nb.info.node_type == n1.info.node_type && nb.info.object_events[0] == src_e {
                        let ghost pre = conf@;
                        proof {
                            assert(split_conf(*ocdg, oid1, b));
                            if pre.contains(b) {
                                let j = choose|j: int| 0 <= j < pre.len() && pre[j] == b;
                                let w = choose|w: int|
                                    0 <= w < i && #[trigger] neighbors@[w] == pre[j];
                                assert(neighbors@[w] == neighbors@[i as int]);
                                assert(false);
                            }
                        }
                        conf.push(b);
                        proof {
                            assert(seq_distinct(conf@)) by {
                                assert(forall|j: int| 0 <= j < pre.len() ==> conf@[j] == pre[j]);
                                assert(conf@[pre.len() as int] == b);
                                assert(forall|j: int| 0 <= j < pre.len() ==> #[trigger] pre[j] != b);
                            }
                            assert forall|j: int| #![trigger conf@[j]] 0 <= j < conf@.len() implies
                                split_conf(*ocdg, oid1, conf@[j]) && exists|w: int|
                                    0 <= w < i + 1 && #[trigger] neighbors@[w] == conf@[j] by {
                                if j < pre.len() {
                                    assert(conf@[j] == pre[j]);
                                    let w = choose|w: int|
                                        0 <= w < i && #[trigger] neighbors@[w] == pre[j];
                                    assert(neighbors@[w] == conf@[j]);
                                } else {
                                    assert(conf@[j] == b);
                                    assert(neighbors@[i as int] == conf@[j]);
                                }
                            }
                            assert forall|w: int|
                                0 <= w < i + 1 && split_conf(
                                    *ocdg,
                                    oid1,
                                    #[trigger] neighbors@[w],
                                ) implies conf@.contains(neighbors@[w]) by {
                                if w < i {
                                    assert(pre.contains(neighbors@[w]));
                                    let j = choose|j: int|
                                        0 <= j < pre.len() && pre[j] == neighbors@[w];
                                    assert(conf@[j] == neighbors@[w]);
                                } else {
                                    assert(conf@[pre.len() as int] == neighbors@[w]);
                                }
                            }
                        }
                    } else {
                        proof {
                            assert(!split_conf(*ocdg, oid1, neighbors@[i as int]));
                            assert forall|w: int|
                                0 <= w < i + 1 && split_conf(
                                    *ocdg,
                                    oid1,
                                    #[trigger] neighbors@[w],
                                ) implies conf@.contains(neighbors@[w]) by {}
                        }
                    }
                    i = i + 1;
                }
                if conf.len() > 1 {
                    proof {
                        assert(split_fanout(*ocdg, oid1, neighbors@)) by {
                            assert(conf@[0] != conf@[1]);
                            let w0 = choose|w: int|
                                0 <= w < nn && #[trigger] neighbors@[w] == conf@[0];
                            let w1 = choose|w: int|
                                0 <= w < nn && #[trigger] neighbors@[w] == conf@[1];
                            assert(w0 != w1);
                            if w0 < w1 {
                                assert(split_conf(*ocdg, oid1, neighbors@[w0]) && split_conf(
                                    *ocdg,
                                    oid1,
                                    neighbors@[w1],
                                ));
                            } else {
                                assert(split_conf(*ocdg, oid1, neighbors@[w1]) && split_conf(
                                    *ocdg,
                                    oid1,
                                    neighbors@[w0],
                                ));
                            }
                        }
                    }
                    let cn = conf.len();
                    let mut m: usize = 0;
                    while m < cn
                        invariant
                            0 <= m <= cn,
                            cn == conf@.len(),
                            cn > 1,
                            src_e == last_of(ocdg.events_of(oid1)),
                            seq_distinct(conf@),
                            forall|j: int| #![trigger conf@[j]]
                                0 <= j < conf@.len() ==> split_conf(*ocdg, oid1, conf@[j])
                                    && neighbors@.contains(conf@[j]),
                            forall|t: usize|
                                neighbors@.contains(t) && split_conf(*ocdg, oid1, t)
                                    ==> conf@.contains(t),
                            split_fanout(*ocdg, oid1, neighbors@),
                            forall|s: usize, t: usize, k: Relations|
                                #[trigger] pe(to_add@, s, t, k) == if k == Relations::SPLIT && s
                                    == oid1 && conf@.take(m as int).contains(t) {
                                    single_ev(src_e)
                                } else {
                                    Set::<usize>::empty()
                                },
                            forall|j: int|
                                0 <= j < to_add@.len() ==> (#[trigger] to_add@[j]).0 == oid1
                                    && neighbors@.contains(to_add@[j].1),
                        decreases cn - m,
                    {
                        let b = conf[m];
                        let ghost pre = to_add@;
                        to_add.push((oid1, b, EventAdd::SINGLE(src_e), Relations::SPLIT));
                        proof {
                            assert forall|s: usize, t: usize, k: Relations|
                                #[trigger] pe(to_add@, s, t, k) == if k == Relations::SPLIT && s
                                    == oid1 && conf@.take(m + 1).contains(t) {
                                    single_ev(src_e)
                                } else {
                                    Set::<usize>::empty()
                                } by {
                                lemma_pe_push(
                                    pre,
                                    (oid1, b, EventAdd::SINGLE(src_e), Relations::SPLIT),
                                    s,
                                    t,
                                    k,
                                );
                                assert(conf@.take(m + 1) =~= conf@.take(m as int).push(
                                    conf@[m as int],
                                ));
                                crate::ocdg::lemma_push_contains(conf@.take(m as int), conf@[m as int], t);
                                assert(pe(to_add@, s, t, k) =~= if k == Relations::SPLIT && s
                                    == oid1 && conf@.take(m + 1).contains(t) {
                                    single_ev(src_e)
                                } else {
                                    Set::<usize>::empty()
                                });
                            }
                        }
                        m = m + 1;
                    }
                    proof {
                        assert(conf@.take(cn as int) =~= conf@);
                    }
                }
                proof {
                    assert forall|s: usize, t: usize, k: Relations|
                        #[trigger] pe(to_add@, s, t, k) == whole_contrib(
                            *self,
                            *ocdg,
                            oid1,
                            neighbors@,
                            s,
                            t,
                            k,
                        ) by {
                        if conf@.len() <= 1 {
                            assert(!split_fanout(*ocdg, oid1, neighbors@)) by {
                                if split_fanout(*ocdg, oid1, neighbors@) {
                                    let (x, y): (int, int) = choose|x: int, y: int|
                                        0 <= x < y < neighbors@.len() && split_conf(
                                            *ocdg,
                                            oid1,
                                            #[trigger] neighbors@[x],
                                        ) && split_conf(*ocdg, oid1, #[trigger] neighbors@[y]);
                                    assert(neighbors@[x] != neighbors@[y]);
                                    assert(conf@.contains(neighbors@[x]));
                                    assert(conf@.contains(neighbors@[y]));
                                    let jx = choose|j: int|
                                        0 <= j < conf@.len() && conf@[j] == neighbors@[x];
                                    let jy = choose|j: int|
                                        0 <= j < conf@.len() && conf@[j] == neighbors@[y];
                                    assert(jx != jy);
                                    assert(false);
                                }
                            }
                            assert(pe(to_add@, s, t, k) =~= whole_contrib(
                                *self,
                                *ocdg,
                                oid1,
                                neighbors@,
                                s,
                                t,
                                k,
                            ));
                        } else {
                            assert(pe(to_add@, s, t, k) =~= whole_contrib(
                                *self,
                                *ocdg,
                                oid1,
                                neighbors@,
                                s,
                                t,
                                k,
                            ));
                        }
                    }
                }
            },
            _ => {
                proof {
                    assert forall|s: usize, t: usize, k: Relations|
                        #[trigger] pe(to_add@, s, t, k) == whole_contrib(
                            *self,
                            *ocdg,
                            oid1,
                            neighbors@,
                            s,
                            t,
                            k,
                        ) by {
                        assert(pe(to_add@, s, t, k) =~= whole_contrib(
                            *self,
                            *ocdg,
                            oid1,
                            neighbors@,
                            s,
                            t,
                            k,
                        ));
                    }
                }
            },
        }
        to_add
    }
}


/// One parallel-phase task: for one object, run the whole-tier evaluator
/// over its frozen outgoing neighborhood, then every selected instance-tier
/// evaluator on each adjacent pair that already carries some evidence. The task
/// only reads frozen state and returns its proposals by value.
pub fn whole_instance_edges(
    log: &Ocel,
    ocdg: &Ocdg,
    oid1: usize,
    rel_whole: &Vec<Relations>,
    rel_inst: &Vec<Relations>,
) -> (r: Vec<Proposal>)
    requires
        log.wf(),
        ocdg.wf(),
        ocdg.registered(oid1),
        frozen_ok(*log, *ocdg),
    ensures
        forall|s: usize, t: usize, k: Relations|
            #[trigger] pe(r@, s, t, k) == task_whole_contrib(
                *ocdg,
                oid1,
                rel_whole@,
                s,
                t,
                k,
            ).union(task_inst_contrib(*log, *ocdg, oid1, rel_inst@, s, t, k)),
        forall|j: int|
            0 <= j < r@.len() ==> ocdg.registered((#[trigger] r@[j]).0) && ocdg.registered(
                r@[j].1,
            ),
{
    let neighbors = ocdg.out_neighbors(oid1);
    let mut props: Vec<Proposal> = Vec::new();
    let wn = rel_whole.len();
    let mut wi: usize = 0;
    proof {
        assert(forall|j: int|
            0 <= j < neighbors@.len() ==> ocdg.registered(#[trigger] neighbors@[j])
                && ocdg.events_of(neighbors@[j]).len() > 0) by {
            assert(forall|j: int|
                0 <= j < neighbors@.len() ==> ocdg.has_pair(oid1, #[trigger] neighbors@[j]));
            assert forall|j: int|
                0 <= j < neighbors@.len() implies ocdg.registered(#[trigger] neighbors@[j]) by {
                let w = choose|w: int|
                    0 <= w < ocdg.iedges@.len() && ocdg.iedges@[w] == (oid1, neighbors@[j]);
                assert(ocdg.registered(ocdg.iedges@[w].1));
            }
        }
    }
    while wi < wn
        invariant
            0 <= wi <= wn,
            wn == rel_whole@.len(),
            log.wf(),
            ocdg.wf(),
            ocdg.registered(oid1),
            frozen_ok(*log, *ocdg),
            seq_distinct(neighbors@),
            forall|j: int| 0 <= j < neighbors@.len() ==> ocdg.has_pair(oid1, #[trigger] neighbors@[j]),
            forall|t: usize| ocdg.has_pair(oid1, t) ==> neighbors@.contains(t),
            forall|j: int|
                0 <= j < neighbors@.len() ==> ocdg.registered(#[trigger] neighbors@[j])
                    && ocdg.events_of(neighbors@[j]).len() > 0,
            forall|s: usize, t: usize, k: Relations|
                #[trigger] pe(props@, s, t, k) == if rel_whole@.take(wi as int).contains(k) {
                    whole_contrib(k, *ocdg, oid1, neighbors@, s, t, k)
                } else {
                    Set::<usize>::empty()
                },
            forall|j: int|
                0 <= j < props@.len() ==> ocdg.registered((#[trigger] props@[j]).0)
                    && ocdg.registered(props@[j].1),
        decreases wn - wi,
    {
        let kind = rel_whole[wi];
        let mut blk = kind.execute_whole(ocdg, oid1, &neighbors);
        let ghost pre = props@;
        let ghost blkv = blk@;
        props.append(&mut blk);
        proof {
            assert(props@ == pre + blkv);
            assert forall|s: usize, t: usize, k: Relations|
                #[trigger] pe(props@, s, t, k) == if rel_whole@.take(wi + 1).contains(k) {
                    whole_contrib(k, *ocdg, oid1, neighbors@, s, t, k)
                } else {
                    Set::<usize>::empty()
                } by {
                lemma_pe_concat(pre, blkv, s, t, k);
                assert(rel_whole@.take(wi + 1) =~= rel_whole@.take(wi as int).push(
                    rel_whole@[wi as int],
                ));
                lemma_rel_push_contains(rel_whole@.take(wi as int), rel_whole@[wi as int], k);
                assert(pe(blkv, s, t, k) == whole_contrib(kind, *ocdg, oid1, neighbors@, s, t, k));
                assert(pe(props@, s, t, k) =~= if rel_whole@.take(wi + 1).contains(k) {
                    whole_contrib(k, *ocdg, oid1, neighbors@, s, t, k)
                } else {
                    Set::<usize>::empty()
                });
            }
            assert forall|j: int|
                0 <= j < props@.len() implies ocdg.registered((#[trigger] props@[j]).0)
                    && ocdg.registered(props@[j].1) by {
                if j < pre.len() {
                    assert(props@[j] == pre[j]);
                } else {
                    assert(props@[j] == blkv[j - pre.len()]);
                    assert(blkv[j - pre.len()].0 == oid1 && neighbors@.contains(
                        blkv[j - pre.len()].1,
                    ));
                    let w = choose|w: int|
                        0 <= w < neighbors@.len() && neighbors@[w] == blkv[j - pre.len()].1;
                    assert(ocdg.registered(neighbors@[w]));
                }
            }
        }
        wi = wi + 1;
    }
    proof {
        assert forall|s: usize, t: usize, k: Relations|
            #[trigger] pe(props@, s, t, k) == task_whole_contrib(
                *ocdg,
                oid1,
                rel_whole@,
                s,
                t,
                k,
            ) by {
            assert(rel_whole@.take(wn as int) =~= rel_whole@);
            if rel_whole@.contains(k) && k == Relations::SPLIT {
                assert(whole_contrib(k, *ocdg, oid1, neighbors@, s, t, k) =~= task_whole_contrib(
                    *ocdg,
                    oid1,
                    rel_whole@,
                    s,
                    t,
                    k,
                )) by {
                    if split_fanout(*ocdg, oid1, neighbors@) {
                        let (x, y): (int, int) = choose|x: int, y: int|
                            0 <= x < y < neighbors@.len() && split_conf(
                                *ocdg,
                                oid1,
                                #[trigger] neighbors@[x],
                            ) && split_conf(*ocdg, oid1, #[trigger] neighbors@[y]);
                        assert(neighbors@[x] != neighbors@[y]);
                        assert(ocdg.has_pair(oid1, neighbors@[x]) && ocdg.has_pair(
                            oid1,
                            neighbors@[y],
                        ));
                    }
                    if exists|t1: usize, t2: usize|
                        t1 != t2 && #[trigger] ocdg.has_pair(oid1, t1) && split_conf(
                            *ocdg,
                            oid1,
                            t1,
                        ) && #[trigger] ocdg.has_pair(oid1, t2) && split_conf(*ocdg, oid1, t2) {
                        let (t1, t2): (usize, usize) = choose|t1: usize, t2: usize|
                            t1 != t2 && #[trigger] ocdg.has_pair(oid1, t1) && split_conf(
                                *ocdg,
                                oid1,
                                t1,
                            ) && #[trigger] ocdg.has_pair(oid1, t2) && split_conf(*ocdg, oid1, t2);
                        assert(neighbors@.contains(t1) && neighbors@.contains(t2));
                        let j1 = choose|j: int| 0 <= j < neighbors@.len() && neighbors@[j] == t1;
                        let j2 = choose|j: int| 0 <= j < neighbors@.len() && neighbors@[j] == t2;
                        assert(j1 != j2);
                        if j1 < j2 {
                            assert(split_conf(*ocdg, oid1, neighbors@[j1]) && split_conf(
                                *ocdg,
                                oid1,
                                neighbors@[j2],
                            ));
                        } else {
                            assert(split_conf(*ocdg, oid1, neighbors@[j2]) && split_conf(
                                *ocdg,
                                oid1,
                                neighbors@[j1],
                            ));
                        }
                        assert(split_fanout(*ocdg, oid1, neighbors@));
                    }
                }
            } else {
                assert(pe(props@, s, t, k) =~= task_whole_contrib(
                    *ocdg,
                    oid1,
                    rel_whole@,
                    s,
                    t,
                    k,
                ));
            }
        }
    }
    let ghost wpart = props@;
    let nn = neighbors.len();
    let mut ni: usize = 0;
    while ni < nn
        invariant
            0 <= ni <= nn,
            nn == neighbors@.len(),
            log.wf(),
            ocdg.wf(),
            ocdg.registered(oid1),
            frozen_ok(*log, *ocdg),
            seq_distinct(neighbors@),
            forall|j: int| 0 <= j < neighbors@.len() ==> ocdg.has_pair(oid1, #[trigger] neighbors@[j]),
            forall|t: usize| ocdg.has_pair(oid1, t) ==> neighbors@.contains(t),
            forall|j: int|
                0 <= j < neighbors@.len() ==> ocdg.registered(#[trigger] neighbors@[j])
                    && ocdg.events_of(neighbors@[j]).len() > 0,
            forall|s: usize, t: usize, k: Relations|
                #[trigger] pe(props@, s, t, k) == task_whole_contrib(
                    *ocdg,
                    oid1,
                    rel_whole@,
                    s,
                    t,
                    k,
                ).union(
                    task_inst_partial(
                        *log,
                        *ocdg,
                        oid1,
                        rel_inst@,
                        neighbors@.take(ni as int),
                        s,
                        t,
                        k,
                    ),
                ),
            forall|j: int|
                0 <= j < props@.len() ==> ocdg.registered((#[trigger] props@[j]).0)
                    && ocdg.registered(props@[j].1),
        decreases nn - ni,
    {
        let b = neighbors[ni];
        let admits = ocdg.has_any_relation(oid1, b);
        proof {
            assert(ocdg.has_pair(oid1, b));
            let w = choose|w: int| 0 <= w < ocdg.iedges@.len() && ocdg.iedges@[w] == (oid1, b);
            assert(crate::ocdg::any_rel_in(ocdg.irels@, ocdg.iedges@[w].0, ocdg.iedges@[w].1));
            assert(admits);
        }
        if admits {
            let rn = rel_inst.len();
            let mut ri: usize = 0;
            while ri < rn
                invariant
                    0 <= ri <= rn,
                    rn == rel_inst@.len(),
                    0 <= ni < nn,
                    nn == neighbors@.len(),
                    b == neighbors@[ni as int],
                    log.wf(),
                    ocdg.wf(),
                    ocdg.registered(oid1),
                    frozen_ok(*log, *ocdg),
                    seq_distinct(neighbors@),
                    forall|j: int|
                        0 <= j < neighbors@.len() ==> ocdg.has_pair(
                            oid1,
                            #[trigger] neighbors@[j],
                        ),
                    forall|j: int|
                        0 <= j < neighbors@.len() ==> ocdg.registered(#[trigger] neighbors@[j])
                            && ocdg.events_of(neighbors@[j]).len() > 0,
                    forall|s: usize, t: usize, k: Relations|
                        #[trigger] pe(props@, s, t, k) == task_whole_contrib(
                            *ocdg,
                            oid1,
                            rel_whole@,
                            s,
                            t,
                            k,
                        ).union(
                            task_inst_partial(
                                *log,
                                *ocdg,
                                oid1,
                                rel_inst@,
                                neighbors@.take(ni as int),
                                s,
                                t,
                                k,
                            ),
                        ).union(
                            task_inst_partial(
                                *log,
                                *ocdg,
                                oid1,
                                rel_inst@.take(ri as int),
                                seq![b],
                                s,
                                t,
                                k,
                            ),
                        ),
                    forall|j: int|
                        0 <= j < props@.len() ==> ocdg.registered((#[trigger] props@[j]).0)
                            && ocdg.registered(props@[j].1),
                decreases rn - ri,
            {
                let kind = rel_inst[ri];
                let mut blk = kind.execute(log, ocdg, oid1, b);
                let ghost pre = props@;
                let ghost blkv = blk@;
                props.append(&mut blk);
                proof {
                    assert(props@ == pre + blkv);
                    assert forall|s: usize, t: usize, k: Relations|
                        #[trigger] pe(props@, s, t, k) == task_whole_contrib(
                            *ocdg,
                            oid1,
                            rel_whole@,
                            s,
                            t,
                            k,
                        ).union(
                            task_inst_partial(
                                *log,
                                *ocdg,
                                oid1,
                                rel_inst@,
                                neighbors@.take(ni as int),
                                s,
                                t,
                                k,
                            ),
                        ).union(
                            task_inst_partial(
                                *log,
                                *ocdg,
                                oid1,
                                rel_inst@.take(ri + 1),
                                seq![b],
                                s,
                                t,
                                k,
                            ),
                        ) by {
                        lemma_pe_concat(pre, blkv, s, t, k);
                        assert(pe(blkv, s, t, k) == exec_contrib(
                            kind,
                            *log,
                            *ocdg,
                            oid1,
                            b,
                            s,
                            t,
                            k,
                        ));
                        assert(rel_inst@.take(ri + 1) =~= rel_inst@.take(ri as int).push(
                            rel_inst@[ri as int],
                        ));
                        lemma_rel_push_contains(rel_inst@.take(ri as int), rel_inst@[ri as int], k);
                        assert(seq![b].contains(b)) by {
                            assert(seq![b][0] == b);
                        }
                        if !(s == oid1 || t == oid1) || pair_other(oid1, s, t) != b {
                            assert(exec_contrib(kind, *log, *ocdg, oid1, b, s, t, k)
                                =~= Set::<usize>::empty());
                        }
                        assert(pe(props@, s, t, k) =~= task_whole_contrib(
                            *ocdg,
                            oid1,
                            rel_whole@,
                            s,
                            t,
                            k,
                        ).union(
                            task_inst_partial(
                                *log,
                                *ocdg,
                                oid1,
                                rel_inst@,
                                neighbors@.take(ni as int),
                                s,
                                t,
                                k,
                            ),
                        ).union(
                            task_inst_partial(
                                *log,
                                *ocdg,
                                oid1,
                                rel_inst@.take(ri + 1),
                                seq![b],
                                s,
                                t,
                                k,
                            ),
                        ));
                    }
                    assert forall|j: int|
                        0 <= j < props@.len() implies ocdg.registered((#[trigger] props@[j]).0)
                            && ocdg.registered(props@[j].1) by {
                        if j < pre.len() {
                            assert(props@[j] == pre[j]);
                        } else {
                            assert(props@[j] == blkv[j - pre.len()]);
                            assert((blkv[j - pre.len()].0 == oid1 || blkv[j - pre.len()].0 == b)
                                && (blkv[j - pre.len()].1 == oid1 || blkv[j - pre.len()].1 == b));
                        }
                    }
                }
                ri = ri + 1;
            }
            proof {
                assert(rel_inst@.take(rn as int) =~= rel_inst@);
            }
        }
        proof {
            assert forall|s: usize, t: usize, k: Relations|
                #[trigger] pe(props@, s, t, k) == task_whole_contrib(
                    *ocdg,
                    oid1,
                    rel_whole@,
                    s,
                    t,
                    k,
                ).union(
                    task_inst_partial(
                        *log,
                        *ocdg,
                        oid1,
                        rel_inst@,
                        neighbors@.take(ni + 1),
                        s,
                        t,
                        k,
                    ),
                ) by {
                assert(neighbors@.take(ni + 1) =~= neighbors@.take(ni as int).push(
                    neighbors@[ni as int],
                ));
                crate::ocdg::lemma_push_contains(
                    neighbors@.take(ni as int),
                    neighbors@[ni as int],
                    pair_other(oid1, s, t),
                );
                assert(seq![b].contains(pair_other(oid1, s, t)) ==> pair_other(oid1, s, t)
                    == b) by {
                    if seq![b].contains(pair_other(oid1, s, t)) {
                        let w = choose|w: int|
                            0 <= w < seq![b].len() && seq![b][w] == pair_other(oid1, s, t);
                        assert(seq![b][0] == b);
                    }
                }
                assert(seq![b][0] == b);
                if neighbors@.take(ni as int).contains(b) {
                    let w = choose|w: int|
                        0 <= w < ni && neighbors@.take(ni as int)[w] == b;
                    assert(neighbors@[w] == neighbors@[ni as int]);
                    assert(false);
                }
                assert(pe(props@, s, t, k) =~= task_whole_contrib(
                    *ocdg,
                    oid1,
                    rel_whole@,
                    s,
                    t,
                    k,
                ).union(
                    task_inst_partial(
                        *log,
                        *ocdg,
                        oid1,
                        rel_inst@,
                        neighbors@.take(ni + 1),
                        s,
                        t,
                        k,
                    ),
                ));
            }
        }
        ni = ni + 1;
    }
    proof {
        assert forall|s: usize, t: usize, k: Relations|
            #[trigger] pe(props@, s, t, k) == task_whole_contrib(
                *ocdg,
                oid1,
                rel_whole@,
                s,
                t,
                k,
            ).union(task_inst_contrib(*log, *ocdg, oid1, rel_inst@, s, t, k)) by {
            assert(neighbors@.take(nn as int) =~= neighbors@);
            assert(pe(props@, s, t, k) =~= task_whole_contrib(
                *ocdg,
                oid1,
                rel_whole@,
                s,
                t,
                k,
            ).union(task_inst_contrib(*log, *ocdg, oid1, rel_inst@, s, t, k)));
        }
    }
    props
}


/// Some proposal of the list aims at the ordered pair.
pub open spec fn ppair(props: Seq<Proposal>, s: usize, t: usize) -> bool
    decreases props.len(),
{
    if props.len() == 0 {
        false
    } else {
        let last = props[props.len() - 1];
        ppair(props.drop_last(), s, t) || (last.0 == s && last.1 == t)
    }
}

/// Merges a list of proposals into the graph, last first; the merge is a
/// set union per (source, target, kind), so the order never matters.
pub fn apply_all(g: &mut Ocdg, props: Vec<Proposal>)
    requires
        old(g).wf(),
        forall|j: int|
            0 <= j < props@.len() ==> old(g).registered((#[trigger] props@[j]).0) && old(
                g,
            ).registered(props@[j].1),
    ensures
        final(g).wf(),
        final(g).node_attributes == old(g).node_attributes,
        forall|s: usize, t: usize, k: Relations|
            #[trigger] final(g).evidence(s, t, k) == old(g).evidence(s, t, k).union(
                pe(props@, s, t, k),
            ),
        forall|s: usize, t: usize|
            #[trigger] final(g).has_pair(s, t) <==> old(g).has_pair(s, t) || ppair(props@, s, t),
{
    let mut rest = props;
    while rest.len() > 0
        invariant
            g.wf(),
            g.node_attributes == old(g).node_attributes,
            forall|j: int|
                0 <= j < rest@.len() ==> old(g).registered((#[trigger] rest@[j]).0) && old(
                    g,
                ).registered(rest@[j].1),
            forall|s: usize, t: usize, k: Relations|
                #[trigger] g.evidence(s, t, k).union(pe(rest@, s, t, k)) == old(g).evidence(
                    s,
                    t,
                    k,
                ).union(pe(props@, s, t, k)),
            forall|s: usize, t: usize, k: Relations|
                old(g).evidence(s, t, k).subset_of(#[trigger] g.evidence(s, t, k)),
            forall|s: usize, t: usize|
                (#[trigger] g.has_pair(s, t) || ppair(rest@, s, t)) <==> (old(g).has_pair(s, t)
                    || ppair(props@, s, t)),
        decreases rest@.len(),
    {
        let ghost prerest = rest@;
        let ghost preg = *g;
        let p = rest.pop().unwrap();
        proof {
            assert(prerest[prerest.len() - 1] == p);
            assert(rest@ == prerest.drop_last());
        }
        g.apply_new_edges((p.0, p.1), p.2, p.3);
        proof {
            assert forall|s: usize, t: usize, k: Relations|
                #[trigger] g.evidence(s, t, k).union(pe(rest@, s, t, k)) == old(g).evidence(
                    s,
                    t,
                    k,
                ).union(pe(props@, s, t, k)) by {
                if s == p.0 && t == p.1 && k == p.3 {
                    assert(g.evidence(s, t, k) == preg.evidence(s, t, k).union(eadd_set(p.2)));
                } else {
                    assert(g.evidence(s, t, k) == preg.evidence(s, t, k));
                }
                assert(g.evidence(s, t, k).union(pe(rest@, s, t, k)) =~= preg.evidence(
                    s,
                    t,
                    k,
                ).union(pe(prerest, s, t, k)));
            }
            assert forall|s: usize, t: usize, k: Relations|
                old(g).evidence(s, t, k).subset_of(#[trigger] g.evidence(s, t, k)) by {
                if s == p.0 && t == p.1 && k == p.3 {
                    assert(g.evidence(s, t, k) == preg.evidence(s, t, k).union(eadd_set(p.2)));
                } else {
                    assert(g.evidence(s, t, k) == preg.evidence(s, t, k));
                }
            }
            assert forall|s: usize, t: usize|
                (#[trigger] g.has_pair(s, t) || ppair(rest@, s, t)) <==> (old(g).has_pair(s, t)
                    || ppair(props@, s, t)) by {
                assert(g.has_pair(s, t) <==> preg.has_pair(s, t) || (s == p.0 && t == p.1));
                assert((g.has_pair(s, t) || ppair(rest@, s, t)) == (preg.has_pair(s, t) || ppair(
                    prerest,
                    s,
                    t,
                )));
            }
        }
    }
    proof {
        assert forall|s: usize, t: usize, k: Relations|
            #[trigger] g.evidence(s, t, k) == old(g).evidence(s, t, k).union(
                pe(props@, s, t, k),
            ) by {
            assert(pe(rest@, s, t, k) == Set::<usize>::empty());
            assert(g.evidence(s, t, k) =~= g.evidence(s, t, k).union(pe(rest@, s, t, k)));
        }
        assert forall|s: usize, t: usize|
            #[trigger] g.has_pair(s, t) <==> old(g).has_pair(s, t) || ppair(props@, s, t) by {
            assert(!ppair(rest@, s, t));
        }
    }
}

/// Objects are never mentioned before `n` events have been ingested: their
/// lifeline so far is empty.
pub proof fn lemma_lifeline_empty(log: Ocel, o: usize, n: int)
    requires
        !log.occurs_upto(o, n),
    ensures
        log.lifeline_upto(o, n) == Seq::<usize>::empty(),
    decreases n,
{
    if n > 0 && n <= log.events@.len() {
        assert(!log.event_has(n - 1, o));
        assert(!log.occurs_upto(o, n - 1)) by {
            if log.occurs_upto(o, n - 1) {
                let i = choose|i: int|
                    0 <= i < n - 1 && i < log.events@.len() && #[trigger] log.event_has(i, o);
                assert(log.event_has(i, o));
            }
        }
        lemma_lifeline_empty(log, o, n - 1);
    }
}

/// Membership in the first-appearance scan: an object is there exactly when
/// one of the scanned events mentions it.
pub proof fn lemma_nodes_scan_contains(log: Ocel, i: int, j: int, o: usize)
    requires
        0 <= i <= log.events@.len(),
        i < log.events@.len() ==> 0 <= j <= log.events@[i].omap@.len(),
        i == log.events@.len() ==> j == 0,
    ensures
        log.nodes_scan(i, j).contains(o) <==> (log.occurs_upto(o, i) || (i < log.events@.len()
            && log.events@[i].omap@.take(j).contains(o))),
    decreases i, j,
{
    if j <= 0 {
        if i <= 0 {
            assert(!log.nodes_scan(i, j).contains(o));
            assert(!log.occurs_upto(o, i));
        } else {
            lemma_nodes_scan_contains(log, i - 1, log.events@[i - 1].omap@.len() as int, o);
            assert(log.events@[i - 1].omap@.take(log.events@[i - 1].omap@.len() as int)
                =~= log.events@[i - 1].omap@);
            assert(log.occurs_upto(o, i) <==> (log.occurs_upto(o, i - 1) || log.events@[i
                - 1].omap@.contains(o))) by {
                if log.occurs_upto(o, i) {
                    let w = choose|w: int|
                        0 <= w < i && w < log.events@.len() && #[trigger] log.event_has(w, o);
                    if w < i - 1 {
                        assert(log.occurs_upto(o, i - 1));
                    }
                }
                if log.occurs_upto(o, i - 1) {
                    let w = choose|w: int|
                        0 <= w < i - 1 && w < log.events@.len() && #[trigger] log.event_has(w, o);
                    assert(log.event_has(w, o));
                }
                if log.events@[i - 1].omap@.contains(o) {
                    assert(log.event_has(i - 1, o));
                }
            }
        }
    } else {
        lemma_nodes_scan_contains(log, i, j - 1, o);
        let pre = log.nodes_scan(i, j - 1);
        let x = log.events@[i].omap@[j - 1];
        assert(log.events@[i].omap@.take(j) =~= log.events@[i].omap@.take(j - 1).push(x));
        crate::ocdg::lemma_push_contains(log.events@[i].omap@.take(j - 1), x, o);
        if pre.contains(x) {
            assert(log.nodes_scan(i, j) == pre);
        } else {
            assert(log.nodes_scan(i, j) == pre.push(x));
            assert(pre.push(x).contains(o) <==> pre.contains(o) || o == x) by {
                if pre.contains(o) {
                    let w = choose|w: int| 0 <= w < pre.len() && pre[w] == o;
                    assert(pre.push(x)[w] == o);
                }
                if o == x {
                    assert(pre.push(x)[pre.len() as int] == o);
                }
                if pre.push(x).contains(o) {
                    let w = choose|w: int| 0 <= w < pre.push(x).len() && pre.push(x)[w] == o;
                    if w < pre.len() {
                        assert(pre[w] == o);
                    }
                }
            }
        }
    }
}

/// A node list registers an object exactly when its identifier projection
/// holds it.
pub proof fn lemma_ids_registered(nodes: Seq<crate::ocdg::NodeEntry>, o: usize)
    ensures
        crate::ocdg::registered_in(nodes, o) <==> nodes.map_values(
            |e: crate::ocdg::NodeEntry| e.oid,
        ).contains(o),
{
    let ids = nodes.map_values(|e: crate::ocdg::NodeEntry| e.oid);
    if crate::ocdg::registered_in(nodes, o) {
        let i = choose|i: int| 0 <= i < nodes.len() && (#[trigger] nodes[i]).oid == o;
        assert(ids[i] == o);
    }
    if ids.contains(o) {
        let i = choose|i: int| 0 <= i < ids.len() && ids[i] == o;
        assert(nodes[i].oid == o);
    }
}


/// The instance evaluators read only lifelines and type labels, so their
/// contribution is the same on any two graphs with the same node attributes.
pub proof fn lemma_exec_contrib_attrs(
    log: Ocel,
    g1: Ocdg,
    g2: Ocdg,
    a: usize,
    b: usize,
    s: usize,
    t: usize,
    k: Relations,
)
    requires
        g1.node_attributes == g2.node_attributes,
    ensures
        exec_contrib(k, log, g1, a, b, s, t, k) == exec_contrib(k, log, g2, a, b, s, t, k),
{
    assert(g1.events_of(a) == g2.events_of(a));
    assert(g1.events_of(b) == g2.events_of(b));
    assert(g1.type_str(a) == g2.type_str(a));
    assert(g1.type_str(b) == g2.type_str(b));
    assert(peeler_short(g1, a, b) == peeler_short(g2, a, b));
    assert(exec_contrib(k, log, g1, a, b, s, t, k) =~= exec_contrib(k, log, g2, a, b, s, t, k));
}

/// A proposal list aims at a pair exactly when one of its entries does.
pub proof fn lemma_ppair_iff(props: Seq<Proposal>, s: usize, t: usize)
    ensures
        ppair(props, s, t) <==> exists|j: int|
            0 <= j < props.len() && (#[trigger] props[j]).0 == s && props[j].1 == t,
    decreases props.len(),
{
    if props.len() > 0 {
        let pre = props.drop_last();
        assert(forall|j: int| 0 <= j < pre.len() ==> pre[j] == props[j]);
        lemma_ppair_iff(pre, s, t);
        if ppair(pre, s, t) {
            let j = choose|j: int|
                0 <= j < pre.len() && (#[trigger] pre[j]).0 == s && pre[j].1 == t;
            assert(props[j].0 == s && props[j].1 == t);
        }
        if exists|j: int| 0 <= j < props.len() && (#[trigger] props[j]).0 == s && props[j].1
            == t {
            let j = choose|j: int|
                0 <= j < props.len() && (#[trigger] props[j]).0 == s && props[j].1 == t;
            if j < pre.len() {
                assert(pre[j].0 == s && pre[j].1 == t);
            }
        }
    }
}

/// Two distinct objects co-occur in one of the first `n` events.
pub open spec fn adjacent_upto(log: Ocel, s: usize, t: usize, n: int) -> bool {
    s != t && exists|i: int|
        0 <= i < n && i < log.events@.len() && (#[trigger] log.events@[i]).omap@.contains(s)
            && log.events@[i].omap@.contains(t)
}

/// Two distinct objects co-occur somewhere in the log: exactly the pairs
/// that get a primitive edge during ingestion.
pub open spec fn adjacent(log: Ocel, s: usize, t: usize) -> bool {
    adjacent_upto(log, s, t, log.events@.len() as int)
}

/// INTERACTS evidence accumulated over the first `n` events.
pub open spec fn co_upto(log: Ocel, s: usize, t: usize, n: int) -> Set<usize>
    decreases n,
{
    if n <= 0 || n > log.events@.len() {
        Set::empty()
    } else {
        let pre = co_upto(log, s, t, n - 1);
        if s != t && log.events@[n - 1].omap@.contains(s) && log.events@[n - 1].omap@.contains(t) {
            pre.union(single_ev(log.events@[n - 1].eid))
        } else {
            pre
        }
    }
}

/// DESCENDANTS evidence accumulated over the first `n` events: the source
/// already lived before the event, the target was born by it.
pub open spec fn desc_upto(log: Ocel, s: usize, t: usize, n: int) -> Set<usize>
    decreases n,
{
    if n <= 0 || n > log.events@.len() {
        Set::empty()
    } else {
        let pre = desc_upto(log, s, t, n - 1);
        if s != t && log.events@[n - 1].omap@.contains(s) && log.events@[n - 1].omap@.contains(t)
            && log.lifeline_upto(s, n).len() > 1 && log.lifeline_upto(t, n).len() == 1 {
            pre.union(single_ev(log.events@[n - 1].eid))
        } else {
            pre
        }
    }
}

/// Evidence the ingestion pass has recorded after `n` events.
pub open spec fn phase1_upto(log: Ocel, s: usize, t: usize, k: Relations, n: int) -> Set<usize> {
    match k {
        Relations::INTERACTS => co_upto(log, s, t, n),
        Relations::DESCENDANTS => desc_upto(log, s, t, n),
        _ => Set::empty(),
    }
}

/// What one pair of one event contributes during ingestion, assuming both
/// objects belong to the event's object set.
pub open spec fn prim_pair_c(log: Ocel, ei: int, s: usize, t: usize, k: Relations) -> Set<usize> {
    if k == Relations::INTERACTS {
        single_ev(log.events@[ei].eid)
    } else if k == Relations::DESCENDANTS && log.lifeline_upto(s, ei + 1).len() > 1
        && log.lifeline_upto(t, ei + 1).len() == 1 {
        single_ev(log.events@[ei].eid)
    } else {
        Set::empty()
    }
}

/// The ordered pairs of one event's object set already evaluated, when the
/// outer index stands at `x1` and the inner at `x2`.
pub open spec fn pair_done(omap: Seq<usize>, x1: int, x2: int, s: usize, t: usize) -> bool {
    s != t && ((exists|a: int| 0 <= a < x1 && #[trigger] omap[a] == s && omap.contains(t)) || (x1
        < omap.len() && omap[x1] == s && omap.take(x2).contains(t)))
}

/// SPLIT fires from `s` to `t`, stated over the log's adjacency and the
/// graph's frozen lifelines.
pub open spec fn split_fires_log(log: Ocel, g: Ocdg, s: usize, t: usize) -> bool {
    &&& adjacent(log, s, t)
    &&& split_conf(g, s, t)
    &&& exists|t1: usize, t2: usize|
        t1 != t2 && #[trigger] adjacent(log, s, t1) && split_conf(g, s, t1)
            && #[trigger] adjacent(log, s, t2) && split_conf(g, s, t2)
}

/// The whole contract of construction: the evidence the finished graph
/// holds for an ordered pair and kind. Primitive kinds are always
/// evaluated; instance and whole kinds only when selected, and only on
/// pairs made adjacent by ingestion.
pub open spec fn expected_ev(
    log: Ocel,
    sel: Seq<Relations>,
    g: Ocdg,
    s: usize,
    t: usize,
    k: Relations,
) -> Set<usize> {
    match k {
        Relations::INTERACTS => co_upto(log, s, t, log.events@.len() as int),
        Relations::DESCENDANTS => desc_upto(log, s, t, log.events@.len() as int),
        Relations::SPLIT => if sel.contains(k) && split_fires_log(log, g, s, t) {
            single_ev(last_of(g.events_of(s)))
        } else {
            Set::empty()
        },
        _ => if sel.contains(k) && adjacent(log, s, t) {
            exec_contrib(k, log, g, s, t, s, t, k).union(exec_contrib(k, log, g, t, s, s, t, k))
        } else {
            Set::empty()
        },
    }
}

/// What the parallel pass contributes once every per-object task has run,
/// the evaluated neighborhoods being those of the frozen ingestion graph.
pub open spec fn phase2_partial(
    log: Ocel,
    g: Ocdg,
    selw: Seq<Relations>,
    seli: Seq<Relations>,
    processed: Seq<usize>,
    s: usize,
    t: usize,
    k: Relations,
) -> Set<usize> {
    (if processed.contains(s) {
        task_whole_contrib(g, s, selw, s, t, k).union(task_inst_contrib(log, g, s, seli, s, t, k))
    } else {
        Set::empty()
    }).union(
        if processed.contains(t) {
            task_inst_contrib(log, g, t, seli, s, t, k)
        } else {
            Set::empty()
        },
    )
}

/// An object that occurs in the first `n` events has a non-empty lifeline.
pub proof fn lemma_lifeline_nonempty(log: Ocel, o: usize, n: int)
    requires
        log.occurs_upto(o, n),
        n <= log.events@.len(),
    ensures
        log.lifeline_upto(o, n).len() > 0,
    decreases n,
{
    let i = choose|i: int| 0 <= i < n && i < log.events@.len() && #[trigger] log.event_has(i, o);
    if log.event_has(n - 1, o) {
    } else {
        assert(i < n - 1);
        assert(log.occurs_upto(o, n - 1));
        lemma_lifeline_nonempty(log, o, n - 1);
    }
}

/// Every event of a lifeline prefix is an event of the log.
pub proof fn lemma_lifeline_eids(log: Ocel, o: usize, n: int)
    requires
        n <= log.events@.len(),
    ensures
        forall|j: int|
            0 <= j < log.lifeline_upto(o, n).len() ==> log.has_eid(
                #[trigger] log.lifeline_upto(o, n)[j],
            ),
    decreases n,
{
    if n > 0 {
        lemma_lifeline_eids(log, o, n - 1);
        if log.event_has(n - 1, o) {
            assert(log.lifeline_upto(o, n) == log.lifeline_upto(o, n - 1).push(
                log.events@[n - 1].eid,
            ));
            assert(log.has_eid(log.events@[n - 1].eid));
            assert(forall|j: int|
                0 <= j < log.lifeline_upto(o, n - 1).len() ==> log.lifeline_upto(o, n)[j]
                    == log.lifeline_upto(o, n - 1)[j]);
        }
    }
}


/// Builds the object-centric directed graph for a log and a selection of
/// relation kinds. Ingestion walks the events in log order, registering
/// lifelines and merging primitive-tier evidence immediately; the
/// per-object tasks then evaluate the selected instance- and whole-tier
/// kinds against the frozen state, and their proposals are reconciled by
/// set union. Fails, reporting the object, exactly when an event references
/// an object the log never declares.
#[verifier::rlimit(100)]
pub fn generate_ocdg(log: Ocel, relations: Vec<Relations>) -> (r: Result<Ocdg, IntegrityError>)
    requires
        log.wf(),
    ensures
        r is Ok <==> !log.has_undeclared(),
        r matches Err(e) ==> log.occurs(e.oid) && !log.declared(e.oid),
        r matches Ok(g) ==> {
            &&& g.wf()
            &&& forall|o: usize| #[trigger] g.registered(o) <==> log.occurs(o)
            &&& g.node_ids() == log.nodes_order()
            &&& forall|o: usize|
                #[trigger] g.registered(o) ==> g.events_of(o) == log.lifeline(o) && g.type_str(o)
                    == log.type_of(o)
            &&& forall|s: usize, t: usize, k: Relations|
                #[trigger] g.evidence(s, t, k) == expected_ev(log, relations@, g, s, t, k)
        },
{
    let mut rel_inst: Vec<Relations> = Vec::new();
    let mut rel_whole: Vec<Relations> = Vec::new();
    let rl = relations.len();
    let mut ri: usize = 0;
    while ri < rl
        invariant
            0 <= ri <= rl,
            rl == relations@.len(),
            forall|k: Relations|
                #[trigger] rel_inst@.contains(k) <==> relations@.take(ri as int).contains(k)
                    && k.tier() == 2,
            forall|k: Relations|
                #[trigger] rel_whole@.contains(k) <==> relations@.take(ri as int).contains(k)
                    && k.tier() == 3,
        decreases rl - ri,
    {
        let k = relations[ri];
        let ghost pi = rel_inst@;
        let ghost pw = rel_whole@;
        let tier = k.relation_type();
        if tier == 2 {
            rel_inst.push(k);
        } else if tier == 3 {
            rel_whole.push(k);
        }
        proof {
            assert(relations@.take(ri + 1) =~= relations@.take(ri as int).push(
                relations@[ri as int],
            ));
            assert forall|x: Relations|
                #[trigger] rel_inst@.contains(x) <==> relations@.take(ri + 1).contains(x)
                    && x.tier() == 2 by {
                lemma_rel_push_contains(relations@.take(ri as int), relations@[ri as int], x);
                if tier == 2 {
                    lemma_rel_push_contains(pi, k, x);
                }
            }
            assert forall|x: Relations|
                #[trigger] rel_whole@.contains(x) <==> relations@.take(ri + 1).contains(x)
                    && x.tier() == 3 by {
                lemma_rel_push_contains(relations@.take(ri as int), relations@[ri as int], x);
                if tier == 3 {
                    lemma_rel_push_contains(pw, k, x);
                }
            }
        }
        ri = ri + 1;
    }
    proof {
        assert(relations@.take(rl as int) =~= relations@);
    }
    let mut ocdg = Ocdg::default();
    let en = log.events.len();
    let mut ei: usize = 0;
    proof {
        assert forall|s: usize, t: usize, k: Relations|
            #[trigger] ocdg.evidence(s, t, k) == phase1_upto(log, s, t, k, 0) by {
            assert(ocdg.evidence(s, t, k) =~= phase1_upto(log, s, t, k, 0));
        }
    }
    while ei < en
        invariant
            0 <= ei <= en,
            en == log.events@.len(),
            log.wf(),
            ocdg.wf(),
            forall|o: usize| #[trigger] ocdg.registered(o) <==> log.occurs_upto(o, ei as int),
            ocdg.node_ids() == log.nodes_scan(ei as int, 0),
            forall|o: usize|
                #[trigger] ocdg.registered(o) ==> ocdg.events_of(o) == log.lifeline_upto(
                    o,
                    ei as int,
                ),
            forall|o: usize|
                #[trigger] ocdg.registered(o) ==> ocdg.type_str(o) == log.type_of(o)
                    && log.declared(o),
            forall|s: usize, t: usize, k: Relations|
                #[trigger] ocdg.evidence(s, t, k) == phase1_upto(log, s, t, k, ei as int),
            forall|s: usize, t: usize|
                #[trigger] ocdg.has_pair(s, t) <==> adjacent_upto(log, s, t, ei as int),
        decreases en - ei,
    {
        let eid = log.events[ei].eid;
        let om = log.events[ei].omap.len();
        let ghost omap = log.events@[ei as int].omap@;
        let ghost gstart = ocdg;
        let ghost irels0 = ocdg.irels@;
        let ghost iedges0 = ocdg.iedges@;
        let mut oi: usize = 0;
        while oi < om
            invariant
                0 <= oi <= om,
                0 <= ei < en,
                en == log.events@.len(),
                om == omap.len(),
                omap == log.events@[ei as int].omap@,
                eid == log.events@[ei as int].eid,
                log.wf(),
                ocdg.wf(),
                ocdg.irels@ == irels0,
                ocdg.iedges@ == iedges0,
                forall|o: usize|
                    #[trigger] ocdg.registered(o) <==> log.occurs_upto(o, ei as int)
                        || omap.take(oi as int).contains(o),
                ocdg.node_ids() == log.nodes_scan(ei as int, oi as int),
                forall|o: usize|
                    #[trigger] ocdg.registered(o) && !omap.take(oi as int).contains(o)
                        ==> ocdg.events_of(o) == log.lifeline_upto(o, ei as int),
                forall|o: usize|
                    omap.take(oi as int).contains(o) ==> #[trigger] ocdg.events_of(o)
                        == log.lifeline_upto(o, ei + 1),
                forall|o: usize|
                    #[trigger] ocdg.registered(o) ==> ocdg.type_str(o) == log.type_of(o)
                        && log.declared(o),
            decreases om - oi,
        {
            let o = log.events[ei].omap[oi];
            proof {
                assert(omap[oi as int] == o);
                assert(omap.contains(o));
                assert(log.event_has(ei as int, o));
                if omap.take(oi as int).contains(o) {
                    let w = choose|w: int| 0 <= w < oi && omap.take(oi as int)[w] == o;
                    assert(omap[w] == omap[oi as int]);
                    assert(false);
                }
            }
            if !ocdg.contains_node(o) {
                match log.find_type(o) {
                    Some(ty) => {
                        let ty2 = ty.clone();
                        ocdg.init_object_key(o, ty2);
                        proof {
                            assert(!log.occurs_upto(o, ei as int));
                            lemma_lifeline_empty(log, o, ei as int);
                            assert(ocdg.events_of(o) == log.lifeline_upto(o, ei as int));
                        }
                    },
                    None => {
                        proof {
                            assert(log.occurs(o)) by {
                                assert(0 <= ei < log.events@.len() && log.event_has(ei as int, o));
                            }
                            assert(log.has_undeclared()) by {
                                assert(log.occurs(o) && !log.declared(o));
                            }
                        }
                        return Err(IntegrityError { oid: o });
                    },
                }
            }
            ocdg.add_eid_to_oe(o, eid);
            proof {
                assert(omap.take(oi + 1) =~= omap.take(oi as int).push(o));
                assert forall|x: usize|
                    omap.take(oi + 1).contains(x) <==> omap.take(oi as int).contains(x) || x
                        == o by {
                    crate::ocdg::lemma_push_contains(omap.take(oi as int), o, x);
                }
                assert(ocdg.events_of(o) == log.lifeline_upto(o, ei + 1)) by {
                    assert(log.event_has(ei as int, o));
                    assert(log.lifeline_upto(o, ei + 1) == log.lifeline_upto(o, ei as int).push(
                        eid,
                    ));
                }
                assert(ocdg.node_ids() == log.nodes_scan(ei as int, oi + 1)) by {
                    lemma_nodes_scan_contains(log, ei as int, oi as int, o);
                    lemma_ids_registered(ocdg.node_attributes@, o);
                    if log.nodes_scan(ei as int, oi as int).contains(o) {
                        assert(log.nodes_scan(ei as int, oi + 1) == log.nodes_scan(
                            ei as int,
                            oi as int,
                        ));
                    } else {
                        assert(log.nodes_scan(ei as int, oi + 1) == log.nodes_scan(
                            ei as int,
                            oi as int,
                        ).push(o));
                    }
                }
            }
            oi = oi + 1;
        }
        proof {
            assert(omap.take(om as int) =~= omap);
            assert forall|o: usize|
                #[trigger] ocdg.registered(o) <==> log.occurs_upto(o, ei + 1) by {
                if log.occurs_upto(o, ei + 1) && !log.occurs_upto(o, ei as int) {
                    let w = choose|w: int|
                        0 <= w < ei + 1 && w < log.events@.len() && #[trigger] log.event_has(w, o);
                    assert(w == ei as int);
                    assert(omap.contains(o));
                }
                if omap.contains(o) {
                    assert(log.event_has(ei as int, o));
                    assert(log.occurs_upto(o, ei + 1));
                }
                if log.occurs_upto(o, ei as int) {
                    let w = choose|w: int|
                        0 <= w < ei && w < log.events@.len() && #[trigger] log.event_has(w, o);
                    assert(log.occurs_upto(o, ei + 1));
                }
            }
            assert forall|o: usize|
                #[trigger] ocdg.registered(o) ==> ocdg.events_of(o) == log.lifeline_upto(
                    o,
                    ei + 1,
                ) by {
                if ocdg.registered(o) && !omap.contains(o) {
                    assert(!log.event_has(ei as int, o));
                    assert(log.lifeline_upto(o, ei + 1) == log.lifeline_upto(o, ei as int));
                }
            }
            assert(ocdg.node_ids() == log.nodes_scan(ei + 1, 0)) by {
                assert(log.nodes_scan(ei + 1, 0) == log.nodes_scan(ei as int, omap.len() as int));
            }
        }
        proof {
            assert forall|s: usize, t: usize, k: Relations|
                #[trigger] ocdg.evidence(s, t, k) == phase1_upto(log, s, t, k, ei as int).union(
                    if pair_done(omap, 0, 0, s, t) {
                        prim_pair_c(log, ei as int, s, t, k)
                    } else {
                        Set::<usize>::empty()
                    },
                ) by {
                assert(!pair_done(omap, 0, 0, s, t));
                assert(gstart.evidence(s, t, k) == phase1_upto(log, s, t, k, ei as int));
                assert(ocdg.irels@ == gstart.irels@);
                assert(ocdg.evidence(s, t, k) == gstart.evidence(s, t, k));
                assert(ocdg.evidence(s, t, k) =~= phase1_upto(log, s, t, k, ei as int).union(
                    Set::<usize>::empty(),
                ));
            }
            assert forall|s: usize, t: usize|
                #[trigger] ocdg.has_pair(s, t) <==> adjacent_upto(log, s, t, ei as int)
                    || pair_done(omap, 0, 0, s, t) by {
                assert(!pair_done(omap, 0, 0, s, t));
                assert(gstart.has_pair(s, t) <==> adjacent_upto(log, s, t, ei as int));
                assert(ocdg.iedges@ == gstart.iedges@);
                assert(ocdg.has_pair(s, t) == gstart.has_pair(s, t));
            }
        }
        let mut oi1: usize = 0;
        while oi1 < om
            invariant
                0 <= oi1 <= om,
                0 <= ei < en,
                en == log.events@.len(),
                om == omap.len(),
                omap == log.events@[ei as int].omap@,
                eid == log.events@[ei as int].eid,
                log.wf(),
                ocdg.wf(),
                forall|o: usize| #[trigger] ocdg.registered(o) <==> log.occurs_upto(o, ei + 1),
                ocdg.node_ids() == log.nodes_scan(ei + 1, 0),
                forall|o: usize|
                    #[trigger] ocdg.registered(o) ==> ocdg.events_of(o) == log.lifeline_upto(
                        o,
                        ei + 1,
                    ),
                forall|o: usize|
                    #[trigger] ocdg.registered(o) ==> ocdg.type_str(o) == log.type_of(o)
                        && log.declared(o),
                forall|s: usize, t: usize, k: Relations|
                    #[trigger] ocdg.evidence(s, t, k) == phase1_upto(log, s, t, k, ei as int).union(
                        if pair_done(omap, oi1 as int, 0, s, t) {
                            prim_pair_c(log, ei as int, s, t, k)
                        } else {
                            Set::<usize>::empty()
                        },
                    ),
                forall|s: usize, t: usize|
                    #[trigger] ocdg.has_pair(s, t) <==> adjacent_upto(log, s, t, ei as int)
                        || pair_done(omap, oi1 as int, 0, s, t),
            decreases om - oi1,
        {
            let o1 = log.events[ei].omap[oi1];
            let mut oi2: usize = 0;
            while oi2 < om
                invariant
                    0 <= oi2 <= om,
                    0 <= oi1 < om,
                    0 <= ei < en,
                    en == log.events@.len(),
                    om == omap.len(),
                    omap == log.events@[ei as int].omap@,
                    eid == log.events@[ei as int].eid,
                    o1 == omap[oi1 as int],
                    log.wf(),
                    ocdg.wf(),
                    forall|o: usize| #[trigger] ocdg.registered(o) <==> log.occurs_upto(o, ei + 1),
                    ocdg.node_ids() == log.nodes_scan(ei + 1, 0),
                    forall|o: usize|
                        #[trigger] ocdg.registered(o) ==> ocdg.events_of(o) == log.lifeline_upto(
                            o,
                            ei + 1,
                        ),
                    forall|o: usize|
                        #[trigger] ocdg.registered(o) ==> ocdg.type_str(o) == log.type_of(o)
                            && log.declared(o),
                    forall|s: usize, t: usize, k: Relations|
                        #[trigger] ocdg.evidence(s, t, k) == phase1_upto(
                            log,
                            s,
                            t,
                            k,
                            ei as int,
                        ).union(
                            if pair_done(omap, oi1 as int, oi2 as int, s, t) {
                                prim_pair_c(log, ei as int, s, t, k)
                            } else {
                                Set::<usize>::empty()
                            },
                        ),
                    forall|s: usize, t: usize|
                        #[trigger] ocdg.has_pair(s, t) <==> adjacent_upto(log, s, t, ei as int)
                            || pair_done(omap, oi1 as int, oi2 as int, s, t),
                decreases om - oi2,
            {
                let o2 = log.events[ei].omap[oi2];
                proof {
                    assert(omap[oi2 as int] == o2);
                    assert(omap.contains(o1));
                    assert(omap.contains(o2));
                }
                if o1 != o2 {
                    let ghost gpre = ocdg;
                    proof {
                        assert(log.event_has(ei as int, o1));
                        assert(log.event_has(ei as int, o2));
                        assert(ocdg.registered(o1) && ocdg.registered(o2));
                        assert(ocdg.events_of(o1) == log.lifeline_upto(o1, ei + 1));
                        assert(ocdg.events_of(o2) == log.lifeline_upto(o2, ei + 1));
                    }
                    let pr1 = Relations::INTERACTS.execute_primitive(&ocdg, o1, o2, eid);
                    let ghost pr1v = pr1@;
                    apply_all(&mut ocdg, pr1);
                    let ghost gmid = ocdg;
                    proof {
                        assert(ocdg.node_attributes == gpre.node_attributes);
                        assert(ocdg.registered(o1) && ocdg.registered(o2));
                        assert(ocdg.events_of(o1) == gpre.events_of(o1));
                        assert(ocdg.events_of(o2) == gpre.events_of(o2));
                    }
                    let pr2 = Relations::DESCENDANTS.execute_primitive(&ocdg, o1, o2, eid);
                    let ghost pr2v = pr2@;
                    apply_all(&mut ocdg, pr2);
                    proof {
                        assert(ocdg.node_attributes == gpre.node_attributes);
                        assert(ocdg.registered(o1) && ocdg.registered(o2));
                        assert(ocdg.events_of(o1) == gpre.events_of(o1));
                        assert(ocdg.events_of(o2) == gpre.events_of(o2));
                        assert forall|o: usize|
                            #[trigger] ocdg.registered(o) <==> log.occurs_upto(o, ei + 1) by {
                            assert(ocdg.registered(o) == gpre.registered(o));
                            assert(gpre.registered(o) <==> log.occurs_upto(o, ei + 1));
                        }
                        assert forall|o: usize| #[trigger] ocdg.registered(o) implies
                            ocdg.events_of(o) == log.lifeline_upto(o, ei + 1) by {
                            assert(ocdg.registered(o) == gpre.registered(o));
                            assert(ocdg.events_of(o) == gpre.events_of(o));
                        }
                        assert forall|o: usize| #[trigger] ocdg.registered(o) implies
                            ocdg.type_str(o) == log.type_of(o) && log.declared(o) by {
                            assert(ocdg.registered(o) == gpre.registered(o));
                            assert(ocdg.type_str(o) == gpre.type_str(o));
                        }
                        assert(ocdg.node_ids() == gpre.node_ids());
                    }
                    proof {
                        assert forall|s: usize, t: usize, k: Relations|
                            #[trigger] ocdg.evidence(s, t, k) == phase1_upto(
                                log,
                                s,
                                t,
                                k,
                                ei as int,
                            ).union(
                                if pair_done(omap, oi1 as int, oi2 + 1, s, t) {
                                    prim_pair_c(log, ei as int, s, t, k)
                                } else {
                                    Set::<usize>::empty()
                                },
                            ) by {
                            assert(omap.take(oi2 + 1) =~= omap.take(oi2 as int).push(o2));
                            crate::ocdg::lemma_push_contains(omap.take(oi2 as int), o2, t);
                            assert(ocdg.events_of(o1) == log.lifeline_upto(o1, ei + 1));
                            assert(ocdg.events_of(o2) == log.lifeline_upto(o2, ei + 1));
                            assert(ocdg.evidence(s, t, k) =~= phase1_upto(
                                log,
                                s,
                                t,
                                k,
                                ei as int,
                            ).union(
                                if pair_done(omap, oi1 as int, oi2 + 1, s, t) {
                                    prim_pair_c(log, ei as int, s, t, k)
                                } else {
                                    Set::<usize>::empty()
                                },
                            ));
                        }
                        assert forall|s: usize, t: usize|
                            #[trigger] ocdg.has_pair(s, t) <==> adjacent_upto(
                                log,
                                s,
                                t,
                                ei as int,
                            ) || pair_done(omap, oi1 as int, oi2 + 1, s, t) by {
                            assert(omap.take(oi2 + 1) =~= omap.take(oi2 as int).push(o2));
                            crate::ocdg::lemma_push_contains(omap.take(oi2 as int), o2, t);
                            lemma_ppair_iff(pr1v, s, t);
                            lemma_ppair_iff(pr2v, s, t);
                            if s == o1 && t == o2 {
                                assert(pe(pr1v, o1, o2, Relations::INTERACTS) == single_ev(eid));
                                assert(single_ev(eid).contains(eid));
                                assert(pr1v.len() > 0) by {
                                    if pr1v.len() == 0 {
                                        assert(pe(pr1v, o1, o2, Relations::INTERACTS)
                                            =~= Set::<usize>::empty());
                                    }
                                }
                                assert(pr1v[0].0 == o1 && pr1v[0].1 == o2);
                                assert(ppair(pr1v, s, t));
                            } else {
                                assert(!ppair(pr1v, s, t)) by {
                                    if ppair(pr1v, s, t) {
                                        let j = choose|j: int|
                                            0 <= j < pr1v.len() && (#[trigger] pr1v[j]).0 == s
                                                && pr1v[j].1 == t;
                                        assert(pr1v[j].0 == o1 && pr1v[j].1 == o2);
                                    }
                                }
                                assert(!ppair(pr2v, s, t)) by {
                                    if ppair(pr2v, s, t) {
                                        let j = choose|j: int|
                                            0 <= j < pr2v.len() && (#[trigger] pr2v[j]).0 == s
                                                && pr2v[j].1 == t;
                                        assert(pr2v[j].0 == o1 && pr2v[j].1 == o2);
                                    }
                                }
                            }
                        }
                    }
                } else {
                    proof {
                        assert forall|s: usize, t: usize|
                            pair_done(omap, oi1 as int, oi2 + 1, s, t) <==> pair_done(
                                omap,
                                oi1 as int,
                                oi2 as int,
                                s,
                                t,
                            ) by {
                            assert(omap.take(oi2 + 1) =~= omap.take(oi2 as int).push(o2));
                            crate::ocdg::lemma_push_contains(omap.take(oi2 as int), o2, t);
                        }
                        assert forall|s: usize, t: usize, k: Relations|
                            #[trigger] ocdg.evidence(s, t, k) == phase1_upto(
                                log,
                                s,
                                t,
                                k,
                                ei as int,
                            ).union(
                                if pair_done(omap, oi1 as int, oi2 + 1, s, t) {
                                    prim_pair_c(log, ei as int, s, t, k)
                                } else {
                                    Set::<usize>::empty()
                                },
                            ) by {}
                    }
                }
                oi2 = oi2 + 1;
            }
            proof {
                assert(omap.take(om as int) =~= omap);
                assert forall|s: usize, t: usize|
                    pair_done(omap, oi1 + 1, 0, s, t) <==> pair_done(
                        omap,
                        oi1 as int,
                        om as int,
                        s,
                        t,
                    ) by {
                    if pair_done(omap, oi1 + 1, 0, s, t) {
                        let a = choose|a: int|
                            0 <= a < oi1 + 1 && #[trigger] omap[a] == s && omap.contains(t);
                        if a == oi1 as int {
                            assert(omap[oi1 as int] == s && omap.take(om as int).contains(t));
                        }
                    }
                }
            }
            oi1 = oi1 + 1;
        }
        proof {
            assert forall|s: usize, t: usize, k: Relations|
                #[trigger] ocdg.evidence(s, t, k) == phase1_upto(log, s, t, k, ei + 1) by {
                assert(pair_done(omap, om as int, 0, s, t) <==> (s != t && omap.contains(s)
                    && omap.contains(t))) by {
                    if s != t && omap.contains(s) && omap.contains(t) {
                        let a = choose|a: int| 0 <= a < omap.len() && omap[a] == s;
                        assert(omap[a] == s && omap.contains(t));
                    }
                }
                assert(ocdg.evidence(s, t, k) =~= phase1_upto(log, s, t, k, ei + 1));
            }
            assert forall|s: usize, t: usize|
                #[trigger] ocdg.has_pair(s, t) <==> adjacent_upto(log, s, t, ei + 1) by {
                assert(pair_done(omap, om as int, 0, s, t) <==> (s != t && omap.contains(s)
                    && omap.contains(t))) by {
                    if s != t && omap.contains(s) && omap.contains(t) {
                        let a = choose|a: int| 0 <= a < omap.len() && omap[a] == s;
                        assert(omap[a] == s && omap.contains(t));
                    }
                }
                if adjacent_upto(log, s, t, ei + 1) && !adjacent_upto(log, s, t, ei as int) {
                    let w = choose|w: int|
                        0 <= w < ei + 1 && w < log.events@.len()
                            && (#[trigger] log.events@[w]).omap@.contains(s)
                            && log.events@[w].omap@.contains(t);
                    assert(w == ei as int);
                }
                if s != t && omap.contains(s) && omap.contains(t) {
                    assert(0 <= ei < log.events@.len() && log.events@[ei as int].omap@.contains(s)
                        && log.events@[ei as int].omap@.contains(t));
                    assert(adjacent_upto(log, s, t, ei + 1));
                }
                if adjacent_upto(log, s, t, ei as int) {
                    let w = choose|w: int|
                        0 <= w < ei && w < log.events@.len()
                            && (#[trigger] log.events@[w]).omap@.contains(s)
                            && log.events@[w].omap@.contains(t);
                    assert(adjacent_upto(log, s, t, ei + 1));
                }
            }
        }
        ei = ei + 1;
    }
    proof {
        assert(!log.has_undeclared()) by {
            if log.has_undeclared() {
                let o = choose|o: usize| #[trigger] log.occurs(o) && !log.declared(o);
                assert(ocdg.registered(o));
            }
        }
        assert(frozen_ok(log, ocdg)) by {
            assert forall|o: usize| #[trigger] ocdg.registered(o) implies ocdg.events_of(o).len()
                > 0 by {
                lemma_lifeline_nonempty(log, o, en as int);
            }
            assert forall|o: usize, i: int|
                ocdg.registered(o) && 0 <= i < ocdg.events_of(o).len() implies log.has_eid(
                #[trigger] ocdg.events_of(o)[i],
            ) by {
                lemma_lifeline_eids(log, o, en as int);
            }
        }
    }
    let ghost g1 = ocdg;
    let mut all_props: Vec<Proposal> = Vec::new();
    let nn = ocdg.node_attributes.len();
    let mut ni: usize = 0;
    proof {
        assert forall|s: usize, t: usize, k: Relations|
            #[trigger] pe(all_props@, s, t, k) == phase2_partial(
                log,
                g1,
                rel_whole@,
                rel_inst@,
                g1.node_ids().take(0),
                s,
                t,
                k,
            ) by {
            assert(pe(all_props@, s, t, k) =~= phase2_partial(
                log,
                g1,
                rel_whole@,
                rel_inst@,
                g1.node_ids().take(0),
                s,
                t,
                k,
            ));
        }
    }
    while ni < nn
        invariant
            0 <= ni <= nn,
            nn == ocdg.node_attributes@.len(),
            ocdg == g1,
            log.wf(),
            ocdg.wf(),
            frozen_ok(log, ocdg),
            forall|s: usize, t: usize, k: Relations|
                #[trigger] pe(all_props@, s, t, k) == phase2_partial(
                    log,
                    g1,
                    rel_whole@,
                    rel_inst@,
                    g1.node_ids().take(ni as int),
                    s,
                    t,
                    k,
                ),
            forall|j: int|
                0 <= j < all_props@.len() ==> ocdg.registered((#[trigger] all_props@[j]).0)
                    && ocdg.registered(all_props@[j].1),
        decreases nn - ni,
    {
        let a = ocdg.node_attributes[ni].oid;
        proof {
            assert(ocdg.node_attributes@[ni as int].oid == a);
            assert(ocdg.registered(a));
            assert(g1.node_ids()[ni as int] == a);
        }
        let mut blk = whole_instance_edges(&log, &ocdg, a, &rel_whole, &rel_inst);
        let ghost pre = all_props@;
        let ghost blkv = blk@;
        all_props.append(&mut blk);
        proof {
            assert(all_props@ == pre + blkv);
            let ghost ids = g1.node_ids();
            assert forall|s: usize, t: usize, k: Relations|
                #[trigger] pe(all_props@, s, t, k) == phase2_partial(
                    log,
                    g1,
                    rel_whole@,
                    rel_inst@,
                    ids.take(ni + 1),
                    s,
                    t,
                    k,
                ) by {
                lemma_pe_concat(pre, blkv, s, t, k);
                assert(pe(blkv, s, t, k) == task_whole_contrib(g1, a, rel_whole@, s, t, k).union(
                    task_inst_contrib(log, g1, a, rel_inst@, s, t, k),
                ));
                assert(ids.take(ni + 1) =~= ids.take(ni as int).push(a));
                crate::ocdg::lemma_push_contains(ids.take(ni as int), a, s);
                crate::ocdg::lemma_push_contains(ids.take(ni as int), a, t);
                if !(s == a || t == a) {
                    assert(task_whole_contrib(g1, a, rel_whole@, s, t, k)
                        =~= Set::<usize>::empty());
                    assert(task_inst_contrib(log, g1, a, rel_inst@, s, t, k)
                        =~= Set::<usize>::empty());
                }
                assert(pe(all_props@, s, t, k) =~= phase2_partial(
                    log,
                    g1,
                    rel_whole@,
                    rel_inst@,
                    ids.take(ni + 1),
                    s,
                    t,
                    k,
                ));
            }
            assert forall|j: int|
                0 <= j < all_props@.len() implies ocdg.registered((#[trigger] all_props@[j]).0)
                    && ocdg.registered(all_props@[j].1) by {
                if j < pre.len() {
                    assert(all_props@[j] == pre[j]);
                } else {
                    assert(all_props@[j] == blkv[j - pre.len()]);
                }
            }
        }
        ni = ni + 1;
    }
    apply_all(&mut ocdg, all_props);
    proof {
        let ghost gf = ocdg;
        assert(forall|o: usize| #[trigger] gf.registered(o) == g1.registered(o));
        assert(forall|o: usize| #[trigger] gf.events_of(o) == g1.events_of(o));
        assert(forall|o: usize| #[trigger] gf.type_str(o) == g1.type_str(o));
        assert(gf.node_ids() == g1.node_ids());
        assert forall|s: usize, t: usize, k: Relations|
            #[trigger] gf.evidence(s, t, k) == expected_ev(log, relations@, gf, s, t, k) by {
            let ghost ids = g1.node_ids();
            assert(ids.take(nn as int) =~= ids);
            lemma_ids_registered(g1.node_attributes@, s);
            lemma_ids_registered(g1.node_attributes@, t);
            assert(pe(all_props@, s, t, k) == phase2_partial(
                log,
                g1,
                rel_whole@,
                rel_inst@,
                ids,
                s,
                t,
                k,
            ));
            assert forall|x: usize, y: usize| #[trigger] g1.has_pair(x, y) implies g1.registered(
                x,
            ) && g1.registered(y) by {
                let w = choose|w: int| 0 <= w < g1.iedges@.len() && g1.iedges@[w] == (x, y);
                assert(g1.registered(g1.iedges@[w].0) && g1.registered(g1.iedges@[w].1));
            }
            assert(forall|x: usize, y: usize|
                #[trigger] g1.has_pair(x, y) <==> adjacent_upto(log, x, y, en as int));
            assert(adjacent(log, s, t) == adjacent_upto(log, s, t, en as int));
            assert(adjacent(log, t, s) == adjacent(log, s, t)) by {
                if adjacent_upto(log, t, s, en as int) {
                    let w = choose|w: int|
                        0 <= w < en && w < log.events@.len()
                            && (#[trigger] log.events@[w]).omap@.contains(t)
                            && log.events@[w].omap@.contains(s);
                    assert(adjacent_upto(log, s, t, en as int));
                }
                if adjacent_upto(log, s, t, en as int) {
                    let w = choose|w: int|
                        0 <= w < en && w < log.events@.len()
                            && (#[trigger] log.events@[w]).omap@.contains(s)
                            && log.events@[w].omap@.contains(t);
                    assert(adjacent_upto(log, t, s, en as int));
                }
            }
            if k == Relations::INTERACTS || k == Relations::DESCENDANTS {
                assert(exec_contrib(k, log, g1, s, pair_other(s, s, t), s, t, k)
                    =~= Set::<usize>::empty());
                assert(exec_contrib(k, log, g1, t, pair_other(t, s, t), s, t, k)
                    =~= Set::<usize>::empty());
                assert(gf.evidence(s, t, k) =~= expected_ev(log, relations@, gf, s, t, k));
            } else if k == Relations::SPLIT {
                assert(split_conf(g1, s, t) == split_conf(gf, s, t));
                assert(rel_whole@.contains(k) <==> relations@.contains(k)) by {
                    assert(k.tier() == 3);
                }
                assert(split_fires(g1, s, t) == split_fires_log(log, gf, s, t)) by {
                    if split_fires(g1, s, t) {
                        let (t1, t2): (usize, usize) = choose|t1: usize, t2: usize|
                            t1 != t2 && #[trigger] g1.has_pair(s, t1) && split_conf(g1, s, t1)
                                && #[trigger] g1.has_pair(s, t2) && split_conf(g1, s, t2);
                        assert(adjacent(log, s, t1) && split_conf(gf, s, t1) && adjacent(
                            log,
                            s,
                            t2,
                        ) && split_conf(gf, s, t2));
                    }
                    if split_fires_log(log, gf, s, t) {
                        let (t1, t2): (usize, usize) = choose|t1: usize, t2: usize|
                            t1 != t2 && #[trigger] adjacent(log, s, t1) && split_conf(gf, s, t1)
                                && #[trigger] adjacent(log, s, t2) && split_conf(gf, s, t2);
                        assert(g1.has_pair(s, t1) && split_conf(g1, s, t1) && g1.has_pair(s, t2)
                            && split_conf(g1, s, t2));
                    }
                }
                assert(split_fires(g1, s, t) ==> g1.registered(s));
                assert(g1.evidence(s, t, k) == phase1_upto(log, s, t, k, en as int));
                assert(g1.evidence(s, t, k) =~= Set::<usize>::empty());
                assert(exec_contrib(k, log, g1, s, pair_other(s, s, t), s, t, k)
                    =~= Set::<usize>::empty());
                assert(exec_contrib(k, log, g1, t, pair_other(t, s, t), s, t, k)
                    =~= Set::<usize>::empty());
                assert(gf.events_of(s) == g1.events_of(s));
                assert(gf.evidence(s, t, k) =~= expected_ev(log, relations@, gf, s, t, k));
            } else {
                assert(k.tier() == 2);
                assert(rel_inst@.contains(k) <==> relations@.contains(k));
                assert(g1.evidence(s, t, k) == phase1_upto(log, s, t, k, en as int));
                assert(g1.evidence(s, t, k) =~= Set::<usize>::empty());
                assert(g1.node_attributes == gf.node_attributes);
                if adjacent_upto(log, s, t, en as int) {
                    let w = choose|w: int|
                        0 <= w < en && w < log.events@.len()
                            && (#[trigger] log.events@[w]).omap@.contains(s)
                            && log.events@[w].omap@.contains(t);
                    assert(log.event_has(w, s) && log.event_has(w, t));
                    assert(log.occurs_upto(s, en as int) && log.occurs_upto(t, en as int));
                    assert(g1.registered(s) && g1.registered(t));
                    assert(ids.contains(s) && ids.contains(t));
                }
                assert(task_whole_contrib(g1, s, rel_whole@, s, t, k) =~= Set::<usize>::empty());
                assert(task_whole_contrib(g1, t, rel_whole@, s, t, k) =~= Set::<usize>::empty());
                lemma_exec_contrib_attrs(log, g1, gf, s, t, s, t, k);
                lemma_exec_contrib_attrs(log, g1, gf, t, s, s, t, k);
                if s == t {
                    assert(!adjacent(log, s, t));
                    assert(!g1.has_pair(s, pair_other(s, s, t)));
                    assert(gf.evidence(s, t, k) =~= expected_ev(log, relations@, gf, s, t, k));
                } else {
                    assert(pair_other(s, s, t) == t && pair_other(t, s, t) == s);
                    assert(gf.evidence(s, t, k) =~= expected_ev(log, relations@, gf, s, t, k));
                }
            }
        }
        assert forall|o: usize|
            #[trigger] gf.registered(o) ==> gf.events_of(o) == log.lifeline(o) && gf.type_str(o)
                == log.type_of(o) by {}
        assert(gf.node_ids() == log.nodes_order()) by {
            assert(log.nodes_scan(en as int, 0) == log.nodes_order());
        }
    }
    Ok(ocdg)
}

} // verus!
