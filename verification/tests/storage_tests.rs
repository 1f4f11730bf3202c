use ecs_core::commands::{CommandQueuesStorage, Commands};
use ecs_core::component::{ComponentRecord, StorageTypes};
use ecs_core::entity_storage::EntityStorage;
use ecs_core::error::EcsError;
use ecs_core::sorted_vec::SortedVec;
use ecs_core::world::WorldData;

fn rec(name: &str, key: u64, storage: StorageTypes, bytes: Vec<u8>) -> ComponentRecord {
    ComponentRecord {
        name: name.to_string(),
        type_key: key,
        size: bytes.len(),
        align: 8,
        storage,
        bytes,
    }
}

fn pair_bytes(a: u64, b: u64) -> Vec<u8> {
    let mut v = a.to_le_bytes().to_vec();
    v.extend_from_slice(&b.to_le_bytes());
    v
}

const COMP1: u64 = 101;
const COMP2: u64 = 102;

#[test]
fn test_entity_storage() {
    let mut es = EntityStorage::new();
    let records = vec![
        rec("Comp1", COMP1, StorageTypes::TableSoA, pair_bytes(12, 34)),
        rec("Comp2", COMP2, StorageTypes::TableSoA, pair_bytes(56, 78)),
    ];
    let key = es.add_entity(&records).unwrap();
    assert_eq!(es.component_count(), 2);
    assert_eq!(es.archetype_count(), 1);
    assert_eq!(es.get_component_bytes(key, COMP1).unwrap(), pair_bytes(12, 34));
    assert_eq!(es.get_component_bytes(key, COMP2).unwrap(), pair_bytes(56, 78));
}

#[test]
fn round_trip_columnar_and_packed() {
    // the same field values must read back whether the components are
    // stored columnar or packed-row
    let mut es = EntityStorage::new();
    let records = vec![
        rec("Columnar", 1, StorageTypes::TableSoA, pair_bytes(11, 22)),
        rec("Packed", 2, StorageTypes::TableAoS, pair_bytes(33, 44)),
        rec("PackedToo", 3, StorageTypes::TableAoS, vec![9, 8, 7]),
    ];
    let key = es.add_entity(&records).unwrap();
    assert_eq!(es.get_component_bytes(key, 1).unwrap(), pair_bytes(11, 22));
    assert_eq!(es.get_component_bytes(key, 2).unwrap(), pair_bytes(33, 44));
    assert_eq!(es.get_component_bytes(key, 3).unwrap(), vec![9, 8, 7]);
    assert!(es.get_component_bytes(key, 4).is_none());
}

#[test]
fn find_fitting_archetypes_subset() {
    // 3 entities with (Comp1, Comp2) and 2 with only Comp1: a Comp1 query
    // matches both archetypes, a (Comp1, Comp2) query only the first
    let mut es = EntityStorage::new();
    for i in 0..3 {
        let records = vec![
            rec("Comp1", COMP1, StorageTypes::TableSoA, pair_bytes(i, 34)),
            rec("Comp2", COMP2, StorageTypes::TableSoA, pair_bytes(i, 78)),
        ];
        es.add_entity(&records).unwrap();
    }
    for i in 0..2 {
        let records = vec![rec("Comp1", COMP1, StorageTypes::TableSoA, pair_bytes(i, 34))];
        es.add_entity(&records).unwrap();
    }
    assert_eq!(es.archetype_count(), 2);
    // Comp1 registered first: id 0; Comp2: id 1
    let just_comp1 = SortedVec::from_vec(vec![0]);
    let both = SortedVec::from_vec(vec![0, 1]);
    let fits1 = es.find_fitting_archetypes(&just_comp1);
    assert_eq!(fits1.len(), 2);
    let fits2 = es.find_fitting_archetypes(&both);
    assert_eq!(fits2.len(), 1);
    assert_eq!(fits2[0].0, 0);
}

#[test]
fn archetype_identity_is_order_independent() {
    let mut es = EntityStorage::new();
    let a = es
        .add_entity(&vec![
            rec("Comp1", COMP1, StorageTypes::TableSoA, pair_bytes(1, 2)),
            rec("Comp2", COMP2, StorageTypes::TableSoA, pair_bytes(3, 4)),
        ])
        .unwrap();
    let b = es
        .add_entity(&vec![
            rec("Comp2", COMP2, StorageTypes::TableSoA, pair_bytes(5, 6)),
            rec("Comp1", COMP1, StorageTypes::TableSoA, pair_bytes(7, 8)),
        ])
        .unwrap();
    assert_eq!(es.archetype_count(), 1);
    let ea = *es.get(a).unwrap();
    let eb = *es.get(b).unwrap();
    assert_eq!(ea.archetype_id, eb.archetype_id);
    // and the second entity's values are intact
    assert_eq!(es.get_component_bytes(b, COMP1).unwrap(), pair_bytes(7, 8));
    assert_eq!(es.get_component_bytes(b, COMP2).unwrap(), pair_bytes(5, 6));
}

#[test]
fn duplicate_component_rejected() {
    let mut es = EntityStorage::new();
    let r = es.add_entity(&vec![
        rec("Comp1", COMP1, StorageTypes::TableSoA, pair_bytes(1, 2)),
        rec("Comp1", COMP1, StorageTypes::TableSoA, pair_bytes(3, 4)),
    ]);
    assert!(matches!(r, Err(EcsError::DuplicateComponent(_))));
}

#[test]
fn bad_layout_rejected() {
    let mut es = EntityStorage::new();
    let r = es.create_or_get_component_by_typeid("Zero", 9, 4, 0, StorageTypes::TableSoA);
    assert!(matches!(r, Err(EcsError::UnsupportedLayout)));
    let ok = es.create_or_get_component_by_typeid("Fine", 9, 4, 4, StorageTypes::TableSoA);
    assert!(ok.is_ok());
    let clash = es.create_or_get_component_by_typeid("Fine", 9, 8, 4, StorageTypes::TableSoA);
    assert!(matches!(clash, Err(EcsError::InconsistentRegistration)));
    let again = es.create_or_get_component_by_typeid("Fine", 9, 4, 4, StorageTypes::TableSoA);
    assert_eq!(again.unwrap(), ok.unwrap());
}

#[test]
fn despawn_is_idempotent() {
    let mut es = EntityStorage::new();
    let a = es
        .add_entity(&vec![rec("Comp1", COMP1, StorageTypes::TableSoA, pair_bytes(1, 2))])
        .unwrap();
    let b = es
        .add_entity(&vec![rec("Comp1", COMP1, StorageTypes::TableSoA, pair_bytes(9, 9))])
        .unwrap();
    es.remove_entity(a);
    assert!(es.get(a).is_none());
    // the survivor's row moved into the hole; its bytes are intact
    assert_eq!(es.get_component_bytes(b, COMP1).unwrap(), pair_bytes(9, 9));
    // a second despawn of the same key is a no-op, not a crash
    es.remove_entity(a);
    assert!(es.get(a).is_none());
    assert_eq!(es.get_component_bytes(b, COMP1).unwrap(), pair_bytes(9, 9));
}

#[test]
fn spawn_command_test() {
    let mut wd = WorldData::new();
    wd.entity_storage.reset_barriers();
    let mut pool = CommandQueuesStorage::new();
    let queue = pool.get_unused();
    let mut commands = Commands::new(queue);
    let key = commands.spawn(
        &mut wd.entity_storage,
        vec![rec("Comp1", COMP1, StorageTypes::TableSoA, pair_bytes(4, 5))],
    );
    // the reserved key is not live until the commands are applied
    assert!(wd.entity_storage.get(key).is_none());
    wd.commands_queues.put_inuse(commands.into_queue());
    wd.entity_storage.update_with_barriers();
    wd.execute_commands();
    // the deferred spawn landed under the reserved key
    assert!(wd.entity_storage.get(key).is_some());
    assert_eq!(
        wd.entity_storage.get_component_bytes(key, COMP1).unwrap(),
        pair_bytes(4, 5)
    );
    let _ = pool;
}

#[test]
fn deferred_despawn_twice_is_noop() {
    // despawn an entity via the deferred-command path, then have a later
    // queue despawn it again: the second despawn must be a no-op
    let mut wd = WorldData::new();
    let victim = wd
        .entity_storage
        .add_entity(&vec![rec("Comp1", COMP1, StorageTypes::TableSoA, pair_bytes(1, 1))])
        .unwrap();
    let bystander = wd
        .entity_storage
        .add_entity(&vec![rec("Comp1", COMP1, StorageTypes::TableSoA, pair_bytes(2, 2))])
        .unwrap();
    let mut first = Commands::new(Vec::new());
    first.despawn(victim);
    let mut second = Commands::new(Vec::new());
    second.despawn(victim);
    wd.commands_queues.put_inuse(first.into_queue());
    wd.commands_queues.put_inuse(second.into_queue());
    wd.execute_commands();
    assert!(wd.entity_storage.get(victim).is_none());
    assert!(wd.entity_storage.get(bystander).is_some());
    assert_eq!(
        wd.entity_storage.get_component_bytes(bystander, COMP1).unwrap(),
        pair_bytes(2, 2)
    );
}
