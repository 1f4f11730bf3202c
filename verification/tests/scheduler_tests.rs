use ecs_core::error::EcsError;
use ecs_core::scheduler::{build_constraint_batches, conflict_free_batches, parallel_schedule};
use ecs_core::system::{
    check_conflict, Access, AccessTarget, ParamDecl, RefType, SystemConfig, SystemDecl, SystemId,
};
use ecs_core::world::World;

fn sys(key: u64) -> SystemDecl {
    SystemDecl { key, params: Vec::new() }
}

fn sys_with(key: u64, params: Vec<ParamDecl>) -> SystemDecl {
    SystemDecl { key, params }
}

fn pos(order: &Vec<SystemId>, id: SystemId) -> usize {
    order.iter().position(|s| *s == id).unwrap()
}

#[test]
fn system_it_works() {
    let mut world = World::new();
    let num1: i32 = 2324;
    let num2: usize = 4350;

    world.add_system_builder(SystemConfig::build(vec![sys_with(
        1,
        vec![ParamDecl::Res(11), ParamDecl::ResMut(12)],
    )]));
    world.add_resource(11, num1.to_le_bytes().to_vec());
    world.add_resource(12, num2.to_le_bytes().to_vec());

    let order = world.init_and_run().unwrap();
    assert_eq!(order.len(), 1);

    // the system body: read the shared resource, add to the mutable one
    let prm = i32::from_le_bytes(
        world.data.resources.get(11).unwrap().as_slice().try_into().unwrap(),
    );
    let mut prm2 = usize::from_le_bytes(
        world.data.resources.get(12).unwrap().as_slice().try_into().unwrap(),
    );
    assert_eq!(2324, prm);
    assert_eq!(4350, prm2);
    prm2 += 999999999;
    world.data.resources.insert(12, prm2.to_le_bytes().to_vec());
    let readback = usize::from_le_bytes(
        world.data.resources.get(12).unwrap().as_slice().try_into().unwrap(),
    );
    assert_eq!(4350 + 999999999, readback);
}

#[test]
fn test_system_scheduler_builder() {
    let mut world = World::new();

    let b = SystemConfig::build(vec![sys(1), sys(2), sys(3)])
        .after(vec![sys(4), sys(7)])
        .before(vec![sys(6), sys(8)])
        .chain();
    let group = world.add_system_builder(b);
    assert_eq!(group.len(), 3);

    world.add_system_builder(
        SystemConfig::build(vec![sys(5)])
            .after(vec![sys(2), sys(3), sys(4)])
            .before(vec![sys(6), sys(8)]),
    );

    let num1: i32 = 2324;
    let num2: usize = 4350;
    world.add_resource(11, num1.to_le_bytes().to_vec());
    world.add_resource(12, num2.to_le_bytes().to_vec());

    println!("system constraints: {:?}", world.systems.get_constraints());

    let order = world.init_and_run().unwrap();
    assert_eq!(order.len(), 8);

    // keys registered in order: 1,2,3 -> ids 0,1,2; 4,7 -> 3,4; 6,8 -> 5,6; 5 -> 7
    let s1 = SystemId(0);
    let s2 = SystemId(1);
    let s3 = SystemId(2);
    let s4 = SystemId(3);
    let s7 = SystemId(4);
    let s6 = SystemId(5);
    let s8 = SystemId(6);
    let s5 = SystemId(7);

    // group after (4, 7)
    for g in [s1, s2, s3] {
        assert!(pos(&order, s4) < pos(&order, g));
        assert!(pos(&order, s7) < pos(&order, g));
    }
    // group before (6, 8)
    for g in [s1, s2, s3] {
        assert!(pos(&order, g) < pos(&order, s6));
        assert!(pos(&order, g) < pos(&order, s8));
    }
    // the chain orders the group internally
    assert!(pos(&order, s1) < pos(&order, s2));
    assert!(pos(&order, s2) < pos(&order, s3));
    // the second registration
    assert!(pos(&order, s2) < pos(&order, s5));
    assert!(pos(&order, s3) < pos(&order, s5));
    assert!(pos(&order, s4) < pos(&order, s5));
    assert!(pos(&order, s5) < pos(&order, s6));
    assert!(pos(&order, s5) < pos(&order, s8));
}

#[test]
fn scheduling_loop_is_reported() {
    // a synthetic cyclic constraint set must make the scheduler report
    // failure rather than loop forever or drop a system
    let mut world = World::new();

    let b = SystemConfig::build(vec![sys(1), sys(2), sys(3)])
        .after(vec![sys(4), sys(7)])
        .before(vec![sys(6), sys(8)])
        .chain();
    world.add_system_builder(b);

    world.add_system_builder(
        SystemConfig::build(vec![sys(5)])
            .after(vec![sys(2), sys(3), sys(4)])
            .before(vec![sys(6), sys(7), sys(8)]),
    );

    let r = world.init_and_run();
    assert!(matches!(r, Err(EcsError::SchedulingLoop(_))));
}

#[test]
fn conflicting_systems_never_share_a_batch() {
    // two writers of one resource must never be co-batched; two readers may
    let excl = vec![Access { target: AccessTarget::Resource(9), kind: RefType::Exclusive }];
    let shared = vec![Access { target: AccessTarget::Resource(9), kind: RefType::Shared }];
    let other = vec![Access { target: AccessTarget::Resource(10), kind: RefType::Exclusive }];
    let accesses = vec![excl.clone(), excl.clone(), shared.clone(), shared.clone(), other];
    let batch = vec![SystemId(0), SystemId(1), SystemId(2), SystemId(3), SystemId(4)];
    let groups = conflict_free_batches(&batch, &accesses);

    let mut seen = 0;
    for g in groups.iter() {
        for (i, a) in g.iter().enumerate() {
            seen += 1;
            for b in g.iter().skip(i + 1) {
                assert!(!check_conflict(&accesses[a.0 as usize], &accesses[b.0 as usize]));
            }
        }
    }
    assert_eq!(seen, 5);

    // sanity of the conflict relation itself
    assert!(check_conflict(&excl, &excl));
    assert!(check_conflict(&excl, &shared));
    assert!(!check_conflict(&shared, &shared));
}

#[test]
fn parallel_plan_layers_and_separates_conflicts() {
    // four systems: 1 runs after 0; 0 and 1 both write one resource,
    // 2 and 3 only read it
    let write = vec![Access { target: AccessTarget::Resource(9), kind: RefType::Exclusive }];
    let read = vec![Access { target: AccessTarget::Resource(9), kind: RefType::Shared }];
    let accesses = vec![write.clone(), write.clone(), read.clone(), read.clone()];
    let mut constraints = Vec::new();
    for i in 0..4u32 {
        constraints.push(ecs_core::system::Constraint::new(SystemId(i)));
    }
    constraints[1].after.push(0);
    let schedule = vec![SystemId(0), SystemId(1), SystemId(2), SystemId(3)];

    let batches = build_constraint_batches(&schedule, &constraints).unwrap();
    let all: Vec<SystemId> = batches.iter().flatten().copied().collect();
    assert_eq!(all.len(), 4);
    let batch_of = |id: SystemId| batches.iter().position(|b| b.contains(&id)).unwrap();
    assert!(batch_of(SystemId(0)) < batch_of(SystemId(1)));

    let plan = parallel_schedule(&schedule, &constraints, &accesses).unwrap();
    let mut placed = 0;
    for batch in plan.iter() {
        for group in batch.iter() {
            placed += group.len();
            for (i, a) in group.iter().enumerate() {
                for b in group.iter().skip(i + 1) {
                    assert!(!check_conflict(&accesses[a.0 as usize], &accesses[b.0 as usize]));
                }
            }
        }
    }
    assert_eq!(placed, 4);
}

#[test]
fn world_add_system_same_key_reuses_id() {
    let mut world = World::new();
    let a = world.add_system(sys_with(41, vec![ParamDecl::Res(11)]));
    let b = world.add_system(sys_with(42, vec![ParamDecl::Res(11)]));
    // a declaration under a seen key names the registered system
    let a_again = world.add_system(sys_with(41, vec![ParamDecl::ResMut(12)]));
    assert_eq!(a.0, 0);
    assert_eq!(b.0, 1);
    assert_eq!(a_again.0, a.0);
}
