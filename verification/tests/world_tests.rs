use ecs_core::commands::Commands;
use ecs_core::component::{ComponentRecord, StorageTypes};
use ecs_core::query::{create_query_state, Query};
use ecs_core::sorted_vec::SortedVec;
use ecs_core::system::{ParamDecl, RefType, SystemDecl};
use ecs_core::world::World;

const COMP1: u64 = 21;
const COMP2: u64 = 22;

fn comp1(x: u64, y: u64) -> ComponentRecord {
    let mut bytes = x.to_le_bytes().to_vec();
    bytes.extend_from_slice(&y.to_le_bytes());
    ComponentRecord {
        name: "Comp1".to_string(),
        type_key: COMP1,
        size: bytes.len(),
        align: 8,
        storage: StorageTypes::TableSoA,
        bytes,
    }
}

fn comp2(z: u64) -> ComponentRecord {
    ComponentRecord {
        name: "Comp2".to_string(),
        type_key: COMP2,
        size: 8,
        align: 8,
        storage: StorageTypes::TableAoS,
        bytes: z.to_le_bytes().to_vec(),
    }
}

fn comp1_record_for_decl() -> ComponentRecord {
    ComponentRecord {
        name: "Comp1".to_string(),
        type_key: COMP1,
        size: 16,
        align: 8,
        storage: StorageTypes::TableSoA,
        bytes: Vec::new(),
    }
}

fn comp2_record_for_decl() -> ComponentRecord {
    ComponentRecord {
        name: "Comp2".to_string(),
        type_key: COMP2,
        size: 8,
        align: 8,
        storage: StorageTypes::TableAoS,
        bytes: Vec::new(),
    }
}

/// The body of the one system: for every `(&Comp1, &mut Comp2)` row, set
/// `Comp2.z = Comp1.x + Comp1.y`.
fn run_sum_system(world: &mut World) {
    let state = create_query_state(
        &world.data.entity_storage,
        SortedVec::from_vec(vec![0, 1]),
        Vec::new(),
    );
    let keys = Query::new(state).iter(&world.data.entity_storage);
    for key in keys {
        let c1 = world.data.entity_storage.get_component_bytes(key, COMP1).unwrap();
        let x = u64::from_le_bytes(c1[0..8].try_into().unwrap());
        let y = u64::from_le_bytes(c1[8..16].try_into().unwrap());
        let z = x + y;
        assert!(world
            .data
            .entity_storage
            .set_component_bytes(key, COMP2, &z.to_le_bytes().to_vec()));
    }
}

#[test]
fn tick_applies_system_effect_idempotently() {
    // insert (Comp1{x:1, y:2}, Comp2{z:3}); one tick of the summing system
    // leaves z == 3, and a second tick leaves z == 3 again
    let mut world = World::new();
    world.add_system(SystemDecl {
        key: 1,
        params: vec![ParamDecl::Query {
            comps: vec![
                (comp1_record_for_decl(), RefType::Shared),
                (comp2_record_for_decl(), RefType::Exclusive),
            ],
            filter: Vec::new(),
        }],
    });
    let key = world.add_entity(&vec![comp1(1, 2), comp2(3)]).unwrap();

    let order = world.init_and_run().unwrap();
    assert_eq!(order.len(), 1);
    run_sum_system(&mut world);

    let z1 = world.data.entity_storage.get_component_bytes(key, COMP2).unwrap();
    assert_eq!(u64::from_le_bytes(z1.as_slice().try_into().unwrap()), 3);

    let _ = world.run().unwrap();
    run_sum_system(&mut world);
    let z2 = world.data.entity_storage.get_component_bytes(key, COMP2).unwrap();
    assert_eq!(u64::from_le_bytes(z2.as_slice().try_into().unwrap()), 3);

    // Comp1 is untouched through both ticks
    let c1 = world.data.entity_storage.get_component_bytes(key, COMP1).unwrap();
    assert_eq!(u64::from_le_bytes(c1[0..8].try_into().unwrap()), 1);
    assert_eq!(u64::from_le_bytes(c1[8..16].try_into().unwrap()), 2);
}

#[test]
fn world_parallel_plan_covers_all_systems() {
    let mut world = World::new();
    // two systems both writing Comp2 through queries: they must never share
    // a sub-batch
    for key in [1u64, 2u64] {
        world.add_system(SystemDecl {
            key,
            params: vec![ParamDecl::Query {
                comps: vec![(comp2_record_for_decl(), RefType::Exclusive)],
                filter: Vec::new(),
            }],
        });
    }
    world.add_entity(&vec![comp1(1, 2), comp2(3)]).unwrap();
    world.init_systems().unwrap();
    let plan = world.parallel_plan().unwrap();
    let mut placed = Vec::new();
    for batch in plan.iter() {
        for group in batch.iter() {
            // the two conflicting systems are never co-batched
            assert!(group.len() == 1);
            placed.extend(group.iter().copied());
        }
    }
    assert_eq!(placed.len(), 2);
}

#[test]
fn run_drains_spawns_and_despawns() {
    // a tick applies a queued spawn whose reserved key recycles a freed
    // slot, and a queued despawn of an existing entity, leaving unnamed
    // entities untouched.  (A brand-new-id reservation made before the
    // tick is overtaken by the tick's barrier reset and skipped.)
    let mut world = World::new();
    let victim = world.add_entity(&vec![comp1(7, 8)]).unwrap();
    let keeper = world.add_entity(&vec![comp1(9, 10)]).unwrap();
    let freed = world.add_entity(&vec![comp1(0, 0)]).unwrap();
    world.data.entity_storage.remove_entity(freed);

    let mut commands = Commands::new(world.data.commands_queues.get_unused());
    let spawned = commands.spawn(&mut world.data.entity_storage, vec![comp1(11, 12)]);
    // the reservation reuses the freed slot at a newer generation
    assert_eq!(spawned.get_id(), freed.get_id());
    assert!(spawned.get_generation() > freed.get_generation());
    commands.despawn(victim);
    assert!(world.data.entity_storage.get(spawned).is_none());
    world.data.commands_queues.put_inuse(commands.into_queue());

    let _ = world.init_and_run().unwrap();

    assert!(world.data.entity_storage.get(victim).is_none());
    assert!(world.data.entity_storage.get(spawned).is_some());
    let c1 = world.data.entity_storage.get_component_bytes(spawned, COMP1).unwrap();
    assert_eq!(u64::from_le_bytes(c1[0..8].try_into().unwrap()), 11);
    assert_eq!(u64::from_le_bytes(c1[8..16].try_into().unwrap()), 12);
    let k1 = world.data.entity_storage.get_component_bytes(keeper, COMP1).unwrap();
    assert_eq!(u64::from_le_bytes(k1[0..8].try_into().unwrap()), 9);
}
