use ocdg::generation::generate_ocdg;
use ocdg::log::Ocel;
use ocdg::log::OcelEvent;
use ocdg::log::OcelObject;
use ocdg::ocdg::Ocdg;
use ocdg::relations::Relations;

fn obj(oid: usize, ty: &str) -> OcelObject {
    OcelObject { oid, obj_type: ty.to_string() }
}

fn ev(eid: usize, omap: Vec<usize>) -> OcelEvent {
    OcelEvent { eid, omap }
}

fn all_kinds() -> Vec<Relations> {
    vec![
        Relations::INTERACTS,
        Relations::COLIFE,
        Relations::COBIRTH,
        Relations::CODEATH,
        Relations::DESCENDANTS,
        Relations::INHERITANCE,
        Relations::CONSUMES,
        Relations::SPLIT,
        Relations::MERGE,
        Relations::MINION,
        Relations::PEELER,
        Relations::ENGAGES,
    ]
}

fn scenario_log() -> Ocel {
    Ocel {
        events: vec![ev(10, vec![1, 2]), ev(20, vec![2, 3])],
        objects: vec![obj(1, "A"), obj(2, "A"), obj(3, "A")],
    }
}

fn evidence_sorted(g: &Ocdg, s: usize, t: usize, k: Relations) -> Option<Vec<usize>> {
    g.relation_evidence(s, t, k).map(|v| {
        let mut v = v.clone();
        v.sort();
        v
    })
}

fn lifeline(g: &Ocdg, oid: usize) -> Vec<usize> {
    for entry in &g.node_attributes {
        if entry.oid == oid {
            return entry.info.object_events.clone();
        }
    }
    panic!("object {} has no node", oid);
}

#[test]
fn scenario_lifelines_and_nodes() {
    let g = generate_ocdg(scenario_log(), all_kinds()).unwrap();
    assert_eq!(lifeline(&g, 1), vec![10]);
    assert_eq!(lifeline(&g, 2), vec![10, 20]);
    assert_eq!(lifeline(&g, 3), vec![20]);
    let ids: Vec<usize> = g.node_attributes.iter().map(|e| e.oid).collect();
    assert_eq!(ids, vec![1, 2, 3]);
}

#[test]
fn scenario_interacts() {
    let g = generate_ocdg(scenario_log(), all_kinds()).unwrap();
    assert_eq!(evidence_sorted(&g, 1, 2, Relations::INTERACTS), Some(vec![10]));
    assert_eq!(evidence_sorted(&g, 2, 1, Relations::INTERACTS), Some(vec![10]));
    assert_eq!(evidence_sorted(&g, 2, 3, Relations::INTERACTS), Some(vec![20]));
    assert_eq!(evidence_sorted(&g, 3, 2, Relations::INTERACTS), Some(vec![20]));
    assert_eq!(evidence_sorted(&g, 1, 3, Relations::INTERACTS), None);
}

#[test]
fn scenario_descendants() {
    let g = generate_ocdg(scenario_log(), all_kinds()).unwrap();
    assert_eq!(evidence_sorted(&g, 2, 3, Relations::DESCENDANTS), Some(vec![20]));
    assert_eq!(evidence_sorted(&g, 1, 2, Relations::DESCENDANTS), None);
    assert_eq!(evidence_sorted(&g, 2, 1, Relations::DESCENDANTS), None);
    assert_eq!(evidence_sorted(&g, 3, 2, Relations::DESCENDANTS), None);
}

#[test]
fn scenario_cobirth_codeath() {
    let g = generate_ocdg(scenario_log(), all_kinds()).unwrap();
    assert_eq!(evidence_sorted(&g, 1, 2, Relations::COBIRTH), Some(vec![10]));
    assert_eq!(evidence_sorted(&g, 2, 1, Relations::COBIRTH), Some(vec![10]));
    assert_eq!(evidence_sorted(&g, 2, 3, Relations::COBIRTH), None);
    assert_eq!(evidence_sorted(&g, 2, 3, Relations::CODEATH), Some(vec![20]));
    assert_eq!(evidence_sorted(&g, 3, 2, Relations::CODEATH), Some(vec![20]));
    assert_eq!(evidence_sorted(&g, 1, 2, Relations::CODEATH), None);
}

#[test]
fn scenario_inheritance() {
    let g = generate_ocdg(scenario_log(), all_kinds()).unwrap();
    assert_eq!(evidence_sorted(&g, 1, 2, Relations::INHERITANCE), Some(vec![10]));
    assert_eq!(evidence_sorted(&g, 2, 3, Relations::INHERITANCE), Some(vec![20]));
    assert_eq!(evidence_sorted(&g, 2, 1, Relations::INHERITANCE), None);
    assert_eq!(evidence_sorted(&g, 1, 2, Relations::CONSUMES), None);
}

#[test]
fn scenario_merge_is_broad() {
    // MERGE fires whenever types match and last events differ.
    let g = generate_ocdg(scenario_log(), all_kinds()).unwrap();
    assert_eq!(evidence_sorted(&g, 1, 2, Relations::MERGE), Some(vec![10]));
    assert_eq!(evidence_sorted(&g, 2, 1, Relations::MERGE), Some(vec![20]));
    assert_eq!(evidence_sorted(&g, 2, 3, Relations::MERGE), None);
}

#[test]
fn scenario_minion_uses_real_intersection() {
    // The lifeline of 2 covers the lifeline of 1 and is strictly longer, so
    // MINION fires with the intersection {10}. If the intersection were the
    // whole left lifeline, its length would be 2 and nothing would fire.
    let g = generate_ocdg(scenario_log(), all_kinds()).unwrap();
    assert_eq!(evidence_sorted(&g, 2, 1, Relations::MINION), Some(vec![10]));
    assert_eq!(evidence_sorted(&g, 1, 2, Relations::MINION), None);
    assert_eq!(evidence_sorted(&g, 2, 3, Relations::MINION), Some(vec![20]));
}

#[test]
fn scenario_peeler_and_engages() {
    let g = generate_ocdg(scenario_log(), all_kinds()).unwrap();
    // Both shared events are two-party, so PEELER keeps the shorter lifeline.
    assert_eq!(evidence_sorted(&g, 1, 2, Relations::PEELER), Some(vec![10]));
    assert_eq!(evidence_sorted(&g, 2, 1, Relations::PEELER), Some(vec![10]));
    // The first event of 1 lies on the lifeline of 2, so ENGAGES cannot fire.
    assert_eq!(evidence_sorted(&g, 1, 2, Relations::ENGAGES), None);
}

#[test]
fn peeler_fails_on_three_party_event() {
    let log = Ocel {
        events: vec![ev(10, vec![1, 2, 3])],
        objects: vec![obj(1, "A"), obj(2, "A"), obj(3, "A")],
    };
    let g = generate_ocdg(log, vec![Relations::PEELER]).unwrap();
    assert_eq!(evidence_sorted(&g, 1, 2, Relations::PEELER), None);
    assert_eq!(evidence_sorted(&g, 2, 1, Relations::PEELER), None);
}

#[test]
fn split_needs_two_conforming_neighbors() {
    // Object 1 dies at event 30, where objects 2 and 3 of the same type are
    // born: a fan-out of two, so SPLIT fires towards both.
    let log = Ocel {
        events: vec![ev(10, vec![1]), ev(30, vec![1, 2, 3])],
        objects: vec![obj(1, "A"), obj(2, "A"), obj(3, "A")],
    };
    let g = generate_ocdg(log, vec![Relations::SPLIT]).unwrap();
    assert_eq!(evidence_sorted(&g, 1, 2, Relations::SPLIT), Some(vec![30]));
    assert_eq!(evidence_sorted(&g, 1, 3, Relations::SPLIT), Some(vec![30]));
    assert_eq!(evidence_sorted(&g, 2, 3, Relations::SPLIT), None);

    // With a single conforming neighbor nothing fires.
    let log2 = Ocel {
        events: vec![ev(10, vec![1]), ev(30, vec![1, 2])],
        objects: vec![obj(1, "A"), obj(2, "A")],
    };
    let g2 = generate_ocdg(log2, vec![Relations::SPLIT]).unwrap();
    assert_eq!(evidence_sorted(&g2, 1, 2, Relations::SPLIT), None);
}

#[test]
fn colife_on_equal_lifelines() {
    let log = Ocel {
        events: vec![ev(10, vec![1, 2]), ev(20, vec![1, 2])],
        objects: vec![obj(1, "A"), obj(2, "B")],
    };
    let g = generate_ocdg(log, vec![Relations::COLIFE]).unwrap();
    assert_eq!(evidence_sorted(&g, 1, 2, Relations::COLIFE), Some(vec![10, 20]));
    assert_eq!(evidence_sorted(&g, 2, 1, Relations::COLIFE), Some(vec![10, 20]));
}

#[test]
fn undeclared_object_is_fatal() {
    let log = Ocel {
        events: vec![ev(10, vec![1, 9])],
        objects: vec![obj(1, "A")],
    };
    let r = generate_ocdg(log, all_kinds());
    assert!(r.is_err());
    assert_eq!(r.err().unwrap().oid, 9);
}

#[test]
fn empty_log_and_empty_selection_are_valid() {
    let g = generate_ocdg(Ocel { events: vec![], objects: vec![] }, all_kinds()).unwrap();
    assert!(g.node_attributes.is_empty());
    assert!(g.iedges.is_empty());
    assert!(g.irels.is_empty());

    let g2 = generate_ocdg(scenario_log(), vec![]).unwrap();
    assert_eq!(evidence_sorted(&g2, 1, 2, Relations::INTERACTS), Some(vec![10]));
    assert_eq!(evidence_sorted(&g2, 1, 2, Relations::COBIRTH), None);
}

#[test]
fn rerunning_construction_reproduces_the_graph() {
    let g1 = generate_ocdg(scenario_log(), all_kinds()).unwrap();
    let g2 = generate_ocdg(scenario_log(), all_kinds()).unwrap();
    let ids1: Vec<usize> = g1.node_attributes.iter().map(|e| e.oid).collect();
    let ids2: Vec<usize> = g2.node_attributes.iter().map(|e| e.oid).collect();
    assert_eq!(ids1, ids2);
    for s in 1..=3usize {
        for t in 1..=3usize {
            for k in all_kinds() {
                assert_eq!(evidence_sorted(&g1, s, t, k), evidence_sorted(&g2, s, t, k));
            }
        }
    }
}

#[test]
fn relation_tiers_and_indices() {
    assert_eq!(Relations::INTERACTS.relation_type(), 1);
    assert_eq!(Relations::DESCENDANTS.relation_type(), 1);
    assert_eq!(Relations::SPLIT.relation_type(), 3);
    assert_eq!(Relations::COLIFE.relation_type(), 2);
    assert_eq!(Relations::ENGAGES.relation_type(), 2);
    let idx: Vec<u8> = all_kinds().iter().map(|k| k.relation_index()).collect();
    let mut sorted = idx.clone();
    sorted.sort();
    assert_eq!(sorted, (0..12).collect::<Vec<u8>>());
    assert_eq!(Relations::INTERACTS.relation_index(), 0);
    assert_eq!(Relations::ENGAGES.relation_index(), 11);
}

#[test]
fn engages_on_disjoint_ends() {
    // 1 and 2 share only the middle event 20; each is born and dies away
    // from the other's lifeline.
    let log = Ocel {
        events: vec![
            ev(10, vec![1]),
            ev(15, vec![2]),
            ev(20, vec![1, 2]),
            ev(30, vec![1]),
            ev(35, vec![2]),
        ],
        objects: vec![obj(1, "A"), obj(2, "B")],
    };
    let g = generate_ocdg(log, vec![Relations::ENGAGES]).unwrap();
    assert_eq!(evidence_sorted(&g, 1, 2, Relations::ENGAGES), Some(vec![20]));
    assert_eq!(evidence_sorted(&g, 2, 1, Relations::ENGAGES), Some(vec![20]));
}

#[test]
fn relation_names_round_trip() {
    for k in all_kinds() {
        let name = k.name_string();
        assert_eq!(Relations::parse_name(&name), Ok(k));
        assert_eq!(name.parse::<Relations>(), Ok(k));
    }
    assert_eq!(Relations::parse_name("SPLITS"), Err(()));
    assert_eq!(Relations::parse_name(""), Err(()));
    assert_eq!(Relations::COLIFE.name_string(), "COLIFE");
}
