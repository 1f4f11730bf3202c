use ecs_core::component::{ComponentId, ComponentRecord, StorageTypes};
use ecs_core::query::{create_query_state, Query};
use ecs_core::query_filter::{comp_ids_compatible_with_filter, FilterElem};
use ecs_core::sorted_vec::SortedVec;
use ecs_core::world::World;

fn rec(name: &str, key: u64, bytes: Vec<u8>) -> ComponentRecord {
    ComponentRecord {
        name: name.to_string(),
        type_key: key,
        size: bytes.len(),
        align: 8,
        storage: StorageTypes::TableSoA,
        bytes,
    }
}

fn pair_bytes(a: u64, b: u64) -> Vec<u8> {
    let mut v = a.to_le_bytes().to_vec();
    v.extend_from_slice(&b.to_le_bytes());
    v
}

const COMP1: u64 = 1;
const COMP2: u64 = 2;
const MARKER1: u64 = 3;
const MARKER2: u64 = 4;
const MARKER3: u64 = 5;

fn marker(name: &str, key: u64) -> ComponentRecord {
    ComponentRecord {
        name: name.to_string(),
        type_key: key,
        size: 0,
        align: 1,
        storage: StorageTypes::TableSoA,
        bytes: Vec::new(),
    }
}

#[test]
fn queries_test1() {
    let mut world = World::new();
    let num1: i32 = 2345678;
    let num2: usize = 33330000;

    world.add_resource(11, num1.to_le_bytes().to_vec());
    world.add_resource(12, num2.to_le_bytes().to_vec());

    world
        .add_entity(&vec![
            rec("Comp2", COMP2, pair_bytes(56, 78)),
            rec("Comp1", COMP1, pair_bytes(12, 34)),
            marker("Marker1", MARKER1),
            marker("Marker2", MARKER2),
            marker("Marker3", MARKER3),
        ])
        .unwrap();
    world
        .add_entity(&vec![
            rec("Comp1", COMP1, pair_bytes(12, 34)),
            rec("Comp2", COMP2, pair_bytes(56, 78)),
            marker("Marker2", MARKER2),
        ])
        .unwrap();
    world
        .add_entity(&vec![
            rec("Comp1", COMP1, pair_bytes(12, 34)),
            rec("Comp2", COMP2, pair_bytes(56, 78)),
            marker("Marker3", MARKER3),
        ])
        .unwrap();
    world.add_entity(&vec![rec("Comp1", COMP1, pair_bytes(12, 34))]).unwrap();

    // resources read back unchanged
    assert_eq!(
        world.data.resources.get(11).unwrap().as_slice(),
        num1.to_le_bytes().as_slice()
    );
    assert_eq!(
        world.data.resources.get(12).unwrap().as_slice(),
        num2.to_le_bytes().as_slice()
    );

    // registration order above: Comp2 -> 0, Comp1 -> 1, markers -> 2, 3, 4
    let es = &world.data.entity_storage;
    let comp1_id: u32 = 1;
    let comp2_id: u32 = 0;
    let m1: u32 = 2;
    let m2: u32 = 3;
    let m3: u32 = 4;

    // query (&Comp1, &mut Comp2): three entities
    let q1 = Query::new(create_query_state(
        es,
        SortedVec::from_vec(vec![comp1_id, comp2_id]),
        Vec::new(),
    ));
    let rows1 = q1.iter(es);
    assert_eq!(rows1.len(), 3);
    for key in rows1.iter() {
        assert_eq!(
            world.data.entity_storage.get_component_bytes(*key, COMP1).unwrap(),
            pair_bytes(12, 34)
        );
        assert_eq!(
            world.data.entity_storage.get_component_bytes(*key, COMP2).unwrap(),
            pair_bytes(56, 78)
        );
    }
    // a system writing through the query
    let first = rows1[0];
    assert!(world.data.entity_storage.set_component_bytes(first, COMP2, &pair_bytes(2, 78)));
    assert_eq!(
        world.data.entity_storage.get_component_bytes(first, COMP2).unwrap(),
        pair_bytes(2, 78)
    );

    // query &Comp1: all four entities
    let q2 = Query::new(create_query_state(
        &world.data.entity_storage,
        SortedVec::from_vec(vec![comp1_id]),
        Vec::new(),
    ));
    assert_eq!(q2.iter(&world.data.entity_storage).len(), 4);

    // query (&Comp1, &Marker1) without Marker2: nothing
    let q3 = Query::new(create_query_state(
        &world.data.entity_storage,
        SortedVec::from_vec(vec![comp1_id, m1]),
        vec![FilterElem::Without(ComponentId(m2))],
    ));
    assert_eq!(q3.iter(&world.data.entity_storage).len(), 0);

    // query &Comp1 with Or(Marker1, Marker2, Marker3): three entities
    let q4 = Query::new(create_query_state(
        &world.data.entity_storage,
        SortedVec::from_vec(vec![comp1_id]),
        vec![FilterElem::Or(vec![
            vec![FilterElem::With(ComponentId(m1))],
            vec![FilterElem::With(ComponentId(m2))],
            vec![FilterElem::With(ComponentId(m3))],
        ])],
    ));
    assert_eq!(q4.iter(&world.data.entity_storage).len(), 3);
}

#[test]
fn query_filters_test1() {
    let mut filter_elems: Vec<FilterElem> = Vec::new();
    filter_elems.push(FilterElem::With(ComponentId(0)));
    filter_elems.push(FilterElem::With(ComponentId(0)));
    filter_elems.push(FilterElem::Or(vec![vec![FilterElem::With(ComponentId(0))]]));
    filter_elems.push(FilterElem::Or(vec![
        vec![FilterElem::With(ComponentId(0))],
        vec![FilterElem::With(ComponentId(0))],
    ]));
    println!("query filters: {:?}", &filter_elems);
    let filter_cmp = vec![
        FilterElem::With(ComponentId(0)),
        FilterElem::With(ComponentId(0)),
        FilterElem::Or(vec![vec![FilterElem::With(ComponentId(0))]]),
        FilterElem::Or(vec![
            vec![FilterElem::With(ComponentId(0))],
            vec![FilterElem::With(ComponentId(0))],
        ]),
    ];
    assert_eq!(format!("{:?}", filter_elems), format!("{:?}", filter_cmp));
}

#[test]
fn filter_evaluation_matches_reference() {
    // cross-check the evaluator on small synthetic cases: a set holding
    // component 0 but not 1
    let comps = SortedVec::from_vec(vec![0, 2]);
    assert!(comp_ids_compatible_with_filter(&comps, &vec![FilterElem::With(ComponentId(0))]));
    assert!(!comp_ids_compatible_with_filter(&comps, &vec![FilterElem::With(ComponentId(1))]));
    assert!(comp_ids_compatible_with_filter(&comps, &vec![FilterElem::Without(ComponentId(1))]));
    assert!(!comp_ids_compatible_with_filter(&comps, &vec![FilterElem::Without(ComponentId(2))]));
    // Or: one satisfied group is enough; an empty group is trivially all-of
    assert!(comp_ids_compatible_with_filter(
        &comps,
        &vec![FilterElem::Or(vec![
            vec![FilterElem::With(ComponentId(1))],
            vec![FilterElem::With(ComponentId(2)), FilterElem::Without(ComponentId(1))],
        ])]
    ));
    // Or with no satisfiable group fails the whole conjunction
    assert!(!comp_ids_compatible_with_filter(
        &comps,
        &vec![
            FilterElem::With(ComponentId(0)),
            FilterElem::Or(vec![vec![FilterElem::With(ComponentId(1))]]),
        ]
    ));
    // an Or with no groups at all accepts nothing
    assert!(!comp_ids_compatible_with_filter(&comps, &vec![FilterElem::Or(vec![])]));
    // the empty conjunction accepts everything
    assert!(comp_ids_compatible_with_filter(&comps, &Vec::new()));
}
