use ecs_core::gen_vec::GenVec;

struct Pos(i32, i32);

#[test]
fn gen_vec_it_works() {
    let mut gen_vec: GenVec<Pos> = GenVec::new();

    let key_1 = gen_vec.insert(Pos(3, 5));
    let key_2 = gen_vec.insert(Pos(3, 5));
    gen_vec.insert(Pos(3, 5));
    let key_4 = gen_vec.insert(Pos(3, 5));

    assert_eq!(key_1.get_id(), 0);
    assert_eq!(key_1.get_gen(), 0);
    assert_eq!(key_2.get_id(), 1);
    assert_eq!(key_2.get_gen(), 0);
    assert_eq!(key_4.get_id(), 3);
    assert_eq!(key_4.get_gen(), 0);

    assert_eq!(gen_vec.slot_len(), 4);

    let p1 = gen_vec.remove(key_1);
    assert!(p1.is_some());

    let p4 = gen_vec.remove(key_4);
    assert!(p4.is_some());

    let key_5 = gen_vec.insert(Pos(3, 5));

    assert_eq!(key_5.get_id(), 3);
    assert_eq!(key_5.get_gen(), 2);

    let p5 = gen_vec.get_mut(&key_5);
    assert!(p5.is_some());

    let key_6 = gen_vec.insert(Pos(3, 5));

    assert_eq!(key_6.get_id(), 0);
    assert_eq!(key_6.get_gen(), 2);
}

#[test]
fn stale_key_never_accepted_again() {
    let mut gv: GenVec<u64> = GenVec::new();
    let k = gv.insert(7);
    assert_eq!(gv.remove(k), Some(7));
    assert!(gv.get(&k).is_none());
    assert!(gv.get_mut(&k).is_none());
    assert!(gv.remove(k).is_none());
    let k2 = gv.insert(9);
    assert_eq!(k2.get_id(), k.get_id());
    assert!(k2.get_gen() > k.get_gen());
    assert!(gv.get(&k).is_none());
    assert_eq!(gv.get(&k2).copied(), Some(9));
    assert_eq!(gv.len(), 1);
}

#[test]
fn values_lists_live_entries() {
    let mut gv: GenVec<u32> = GenVec::new();
    let a = gv.insert(1);
    let _b = gv.insert(2);
    gv.insert(3);
    gv.remove(a);
    assert_eq!(gv.values().len(), 2);
}
