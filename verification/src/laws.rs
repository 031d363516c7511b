//! Laws of the construction, proved from the contracts alone: what the
//! primitive evidence sets contain, when COLIFE holds, that construction is
//! deterministic under re-runs, and that the canonicalized kinds carry one
//! consistent evidence set in both directions.

use vstd::prelude::*;

use crate::generation::adjacent_upto;
use crate::generation::co_upto;
use crate::generation::desc_upto;
use crate::generation::exec_contrib;
use crate::generation::expected_ev;
use crate::generation::peeler_short;
use crate::generation::split_conf;
use crate::generation::split_fires_log;
use crate::log::Ocel;
use crate::ocdg::Ocdg;
use crate::ocdg::set_of;
use crate::relations::Relations;

verus! {

/// An event identifier lies on a lifeline prefix exactly when one of the
/// scanned events carries it and involves the object.
pub proof fn lemma_lifeline_mem(log: Ocel, o: usize, n: int, e: usize)
    requires
        n <= log.events@.len(),
    ensures
        log.lifeline_upto(o, n).contains(e) <==> exists|i: int|
            0 <= i < n && (#[trigger] log.events@[i]).eid == e && log.events@[i].omap@.contains(o),
    decreases n,
{
    if n > 0 {
        lemma_lifeline_mem(log, o, n - 1, e);
        let pre = log.lifeline_upto(o, n - 1);
        if log.event_has(n - 1, o) {
            assert(log.lifeline_upto(o, n) == pre.push(log.events@[n - 1].eid));
            crate::ocdg::lemma_push_contains(pre, log.events@[n - 1].eid, e);
        }
        if exists|i: int|
            0 <= i < n && (#[trigger] log.events@[i]).eid == e && log.events@[i].omap@.contains(
                o,
            ) {
            let i = choose|i: int|
                0 <= i < n && (#[trigger] log.events@[i]).eid == e
                    && log.events@[i].omap@.contains(o);
            if i < n - 1 {
                assert(log.lifeline_upto(o, n - 1).contains(e));
                if !log.event_has(n - 1, o) {
                } else {
                    crate::ocdg::lemma_push_contains(pre, log.events@[n - 1].eid, e);
                }
            } else {
                assert(log.event_has(n - 1, o));
            }
        }
    }
}

/// INTERACTS evidence after ingestion holds exactly the events in which the
/// ordered pair of distinct objects co-occurs.
pub proof fn lemma_interacts_iff(log: Ocel, s: usize, t: usize, n: int, e: usize)
    requires
        n <= log.events@.len(),
    ensures
        co_upto(log, s, t, n).contains(e) <==> exists|i: int|
            0 <= i < n && (#[trigger] log.events@[i]).eid == e && s != t
                && log.events@[i].omap@.contains(s) && log.events@[i].omap@.contains(t),
    decreases n,
{
    if n > 0 {
        lemma_interacts_iff(log, s, t, n - 1, e);
        if exists|i: int|
            0 <= i < n && (#[trigger] log.events@[i]).eid == e && s != t
                && log.events@[i].omap@.contains(s) && log.events@[i].omap@.contains(t) {
            let i = choose|i: int|
                0 <= i < n && (#[trigger] log.events@[i]).eid == e && s != t
                    && log.events@[i].omap@.contains(s) && log.events@[i].omap@.contains(t);
            if i < n - 1 {
                assert(co_upto(log, s, t, n - 1).contains(e));
            }
        }
    }
}

/// DESCENDANTS evidence after ingestion holds exactly the events at which
/// the source already had a longer history while the event was the target's
/// first.
pub proof fn lemma_descendants_iff(log: Ocel, s: usize, t: usize, n: int, e: usize)
    requires
        n <= log.events@.len(),
    ensures
        desc_upto(log, s, t, n).contains(e) <==> exists|i: int|
            0 <= i < n && (#[trigger] log.events@[i]).eid == e && s != t
                && log.events@[i].omap@.contains(s) && log.events@[i].omap@.contains(t)
                && log.lifeline_upto(s, i + 1).len() > 1 && log.lifeline_upto(t, i + 1).len() == 1,
    decreases n,
{
    if n > 0 {
        lemma_descendants_iff(log, s, t, n - 1, e);
        if exists|i: int|
            0 <= i < n && (#[trigger] log.events@[i]).eid == e && s != t
                && log.events@[i].omap@.contains(s) && log.events@[i].omap@.contains(t)
                && log.lifeline_upto(s, i + 1).len() > 1 && log.lifeline_upto(t, i + 1).len()
                == 1 {
            let i = choose|i: int|
                0 <= i < n && (#[trigger] log.events@[i]).eid == e && s != t
                    && log.events@[i].omap@.contains(s) && log.events@[i].omap@.contains(t)
                    && log.lifeline_upto(s, i + 1).len() > 1 && log.lifeline_upto(t, i + 1).len()
                    == 1;
            if i < n - 1 {
                assert(desc_upto(log, s, t, n - 1).contains(e));
            }
        }
    }
}

/// The instance evaluators read only lifelines and type labels: two graphs
/// that agree on them pointwise get the same contribution.
pub proof fn lemma_exec_contrib_pointwise(
    log: Ocel,
    g1: Ocdg,
    g2: Ocdg,
    a: usize,
    b: usize,
    s: usize,
    t: usize,
    k: Relations,
)
    requires
        g1.events_of(a) == g2.events_of(a),
        g1.events_of(b) == g2.events_of(b),
        g1.type_str(a) == g2.type_str(a),
        g1.type_str(b) == g2.type_str(b),
    ensures
        exec_contrib(k, log, g1, a, b, s, t, k) == exec_contrib(k, log, g2, a, b, s, t, k),
{
    assert(peeler_short(g1, a, b) == peeler_short(g2, a, b));
    assert(exec_contrib(k, log, g1, a, b, s, t, k) =~= exec_contrib(k, log, g2, a, b, s, t, k));
}

/// Any two graphs that agree with the construction contract on the same log
/// and selection agree on every lifeline, type label and evidence set:
/// re-running construction, under any task scheduling the merge order
/// admits, reproduces the same graph.
pub proof fn theorem_idempotent(log: Ocel, sel: Seq<Relations>, g1: Ocdg, g2: Ocdg)
    requires
        forall|o: usize| #[trigger] g1.registered(o) <==> log.occurs(o),
        forall|o: usize| #[trigger] g2.registered(o) <==> log.occurs(o),
        forall|o: usize|
            #[trigger] g1.registered(o) ==> g1.events_of(o) == log.lifeline(o) && g1.type_str(o)
                == log.type_of(o),
        forall|o: usize|
            #[trigger] g2.registered(o) ==> g2.events_of(o) == log.lifeline(o) && g2.type_str(o)
                == log.type_of(o),
        g1.node_ids() == log.nodes_order(),
        g2.node_ids() == log.nodes_order(),
        forall|s: usize, t: usize, k: Relations|
            #[trigger] g1.evidence(s, t, k) == expected_ev(log, sel, g1, s, t, k),
        forall|s: usize, t: usize, k: Relations|
            #[trigger] g2.evidence(s, t, k) == expected_ev(log, sel, g2, s, t, k),
    ensures
        g1.node_ids() == g2.node_ids(),
        forall|o: usize| #[trigger] g1.registered(o) == g2.registered(o),
        forall|o: usize| #[trigger] g1.events_of(o) == g2.events_of(o),
        forall|o: usize| #[trigger] g1.type_str(o) == g2.type_str(o),
        forall|s: usize, t: usize, k: Relations|
            #[trigger] g1.evidence(s, t, k) == g2.evidence(s, t, k),
{
    assert forall|o: usize| #[trigger] g1.registered(o) == g2.registered(o) by {}
    assert forall|o: usize| #[trigger] g1.events_of(o) == g2.events_of(o) by {
        assert(g1.registered(o) == g2.registered(o));
        if !g1.registered(o) {
            assert(!g2.registered(o));
            crate::ocdg::lemma_node_absent(g1.node_attributes@, o);
            crate::ocdg::lemma_node_absent(g2.node_attributes@, o);
        } else {
            assert(g2.registered(o));
        }
    }
    assert forall|o: usize| #[trigger] g1.type_str(o) == g2.type_str(o) by {
        assert(g1.registered(o) == g2.registered(o));
        if !g1.registered(o) {
            assert(!g2.registered(o));
            crate::ocdg::lemma_node_absent(g1.node_attributes@, o);
            crate::ocdg::lemma_node_absent(g2.node_attributes@, o);
        } else {
            assert(g2.registered(o));
        }
    }
    assert forall|s: usize, t: usize, k: Relations|
        #[trigger] g1.evidence(s, t, k) == g2.evidence(s, t, k) by {
        lemma_exec_contrib_pointwise(log, g1, g2, s, t, s, t, k);
        lemma_exec_contrib_pointwise(log, g1, g2, t, s, s, t, k);
        assert(split_conf(g1, s, t) == split_conf(g2, s, t));
        assert(split_fires_log(log, g1, s, t) == split_fires_log(log, g2, s, t)) by {
            assert forall|x: usize| split_conf(g1, s, x) == split_conf(g2, s, x) by {}
        }
        assert(expected_ev(log, sel, g1, s, t, k) =~= expected_ev(log, sel, g2, s, t, k));
    }
}

/// For the canonicalized kinds the construction adds both directed edges
/// with one and the same evidence set: swapping the pair never yields a
/// second, inconsistent set.
pub proof fn theorem_canonical_symmetry(
    log: Ocel,
    sel: Seq<Relations>,
    g: Ocdg,
    s: usize,
    t: usize,
    k: Relations,
)
    requires
        forall|x: usize, y: usize, r: Relations|
            #[trigger] g.evidence(x, y, r) == expected_ev(log, sel, g, x, y, r),
        k == Relations::COBIRTH || k == Relations::CODEATH || k == Relations::PEELER || k
            == Relations::ENGAGES,
    ensures
        g.evidence(s, t, k) == g.evidence(t, s, k),
{
    let en = log.events@.len() as int;
    assert(adjacent_upto(log, s, t, en) == adjacent_upto(log, t, s, en)) by {
        if adjacent_upto(log, s, t, en) {
            let w = choose|i: int|
                0 <= i < en && i < log.events@.len()
                    && (#[trigger] log.events@[i]).omap@.contains(s)
                    && log.events@[i].omap@.contains(t);
            assert(adjacent_upto(log, t, s, en));
        }
        if adjacent_upto(log, t, s, en) {
            let w = choose|i: int|
                0 <= i < en && i < log.events@.len()
                    && (#[trigger] log.events@[i]).omap@.contains(t)
                    && log.events@[i].omap@.contains(s);
            assert(adjacent_upto(log, s, t, en));
        }
    }
    assert(g.evidence(s, t, k) =~= g.evidence(t, s, k)) by {
        assert(exec_contrib(k, log, g, s, t, s, t, k) =~= exec_contrib(k, log, g, s, t, t, s, k));
        assert(exec_contrib(k, log, g, t, s, s, t, k) =~= exec_contrib(k, log, g, t, s, t, s, k));
        assert(expected_ev(log, sel, g, s, t, k) =~= expected_ev(log, sel, g, t, s, k));
    }
}

/// COLIFE holds of an ordered pair of distinct objects exactly when their
/// full lifelines are equal, order included, and the objects live at all.
pub proof fn theorem_colife_iff(log: Ocel, sel: Seq<Relations>, g: Ocdg, a: usize, b: usize)
    requires
        log.wf(),
        sel.contains(Relations::COLIFE),
        forall|o: usize| #[trigger] g.registered(o) <==> log.occurs(o),
        forall|o: usize|
            #[trigger] g.registered(o) ==> g.events_of(o) == log.lifeline(o) && g.type_str(o)
                == log.type_of(o),
        forall|x: usize, y: usize, r: Relations|
            #[trigger] g.evidence(x, y, r) == expected_ev(log, sel, g, x, y, r),
        a != b,
    ensures
        g.evidence(a, b, Relations::COLIFE) != Set::<usize>::empty() <==> (log.lifeline(a)
            == log.lifeline(b) && log.lifeline(a).len() > 0),
{
    let en = log.events@.len() as int;
    if log.lifeline(a) == log.lifeline(b) && log.lifeline(a).len() > 0 {
        let e = log.lifeline(a)[0];
        assert(log.lifeline(a).contains(e));
        assert(log.lifeline(b).contains(e));
        lemma_lifeline_mem(log, a, en, e);
        lemma_lifeline_mem(log, b, en, e);
        let i = choose|i: int|
            0 <= i < en && (#[trigger] log.events@[i]).eid == e && log.events@[i].omap@.contains(
                a,
            );
        let j = choose|i: int|
            0 <= i < en && (#[trigger] log.events@[i]).eid == e && log.events@[i].omap@.contains(
                b,
            );
        assert(i == j) by {
            if i < j {
                assert(log.events@[i].eid != log.events@[j].eid);
            } else if j < i {
                assert(log.events@[j].eid != log.events@[i].eid);
            }
        }
        assert(adjacent_upto(log, a, b, en));
        assert(log.occurs(a) && log.occurs(b)) by {
            assert(log.event_has(i, a) && log.event_has(i, b));
        }
        assert(g.registered(a) && g.registered(b));
        assert(g.events_of(a) == log.lifeline(a) && g.events_of(b) == log.lifeline(b));
        assert(exec_contrib(Relations::COLIFE, log, g, a, b, a, b, Relations::COLIFE) == set_of(
            g.events_of(a),
        ));
        assert(g.evidence(a, b, Relations::COLIFE).contains(e)) by {
            assert(set_of(g.events_of(a)).contains(e));
        }
    }
    if g.evidence(a, b, Relations::COLIFE) != Set::<usize>::empty() {
        assert(expected_ev(log, sel, g, a, b, Relations::COLIFE) != Set::<usize>::empty());
        assert(adjacent_upto(log, a, b, en)) by {
            if !adjacent_upto(log, a, b, en) {
                assert(expected_ev(log, sel, g, a, b, Relations::COLIFE)
                    =~= Set::<usize>::empty());
            }
        }
        let w = choose|i: int|
            0 <= i < en && i < log.events@.len() && (#[trigger] log.events@[i]).omap@.contains(a)
                && log.events@[i].omap@.contains(b);
        assert(log.occurs(a) && log.occurs(b)) by {
            assert(log.event_has(w, a) && log.event_has(w, b));
        }
        assert(g.registered(a) && g.registered(b));
        assert(g.events_of(a) == log.lifeline(a) && g.events_of(b) == log.lifeline(b));
        assert(exec_contrib(Relations::COLIFE, log, g, b, a, a, b, Relations::COLIFE)
            =~= Set::<usize>::empty());
        assert(g.events_of(a) == g.events_of(b)) by {
            if g.events_of(a) != g.events_of(b) {
                assert(exec_contrib(Relations::COLIFE, log, g, a, b, a, b, Relations::COLIFE)
                    =~= Set::<usize>::empty());
                assert(expected_ev(log, sel, g, a, b, Relations::COLIFE)
                    =~= Set::<usize>::empty());
            }
        }
        crate::generation::lemma_lifeline_nonempty(log, a, en);
    }
}


/// After construction, INTERACTS evidence for every ordered pair of
/// distinct objects of an event's object set contains that event.
pub proof fn theorem_interacts_covers_event(
    log: Ocel,
    sel: Seq<Relations>,
    g: Ocdg,
    i: int,
    s: usize,
    t: usize,
)
    requires
        forall|x: usize, y: usize, r: Relations|
            #[trigger] g.evidence(x, y, r) == expected_ev(log, sel, g, x, y, r),
        0 <= i < log.events@.len(),
        s != t,
        log.events@[i].omap@.contains(s),
        log.events@[i].omap@.contains(t),
    ensures
        g.evidence(s, t, Relations::INTERACTS).contains(log.events@[i].eid),
{
    lemma_interacts_iff(log, s, t, log.events@.len() as int, log.events@[i].eid);
}

/// After construction, DESCENDANTS evidence for an ordered pair contains an
/// event exactly when, immediately after that event was applied, the
/// source's lifeline had more than one event and the target's exactly one.
pub proof fn theorem_descendants_iff(
    log: Ocel,
    sel: Seq<Relations>,
    g: Ocdg,
    s: usize,
    t: usize,
    e: usize,
)
    requires
        forall|x: usize, y: usize, r: Relations|
            #[trigger] g.evidence(x, y, r) == expected_ev(log, sel, g, x, y, r),
    ensures
        g.evidence(s, t, Relations::DESCENDANTS).contains(e) <==> exists|i: int|
            0 <= i < log.events@.len() && (#[trigger] log.events@[i]).eid == e && s != t
                && log.events@[i].omap@.contains(s) && log.events@[i].omap@.contains(t)
                && log.lifeline_upto(s, i + 1).len() > 1 && log.lifeline_upto(t, i + 1).len() == 1,
{
    lemma_descendants_iff(log, s, t, log.events@.len() as int, e);
}

} // verus!
