use rubyec::{
    ChangeComponent, Component, ComponentA, ComponentB, Entity, EntityBase, EntityList, EntityOps,
};

fn kind_a() -> u32 {
    <ComponentA as Component<Entity>>::kind_id()
}

fn kind_b() -> u32 {
    <ComponentB as Component<Entity>>::kind_id()
}

#[test]
fn conjunction_queries() {
    let mut list: EntityList<Entity> = EntityList::new();
    let e1 = list.insert(Entity::new((1,)).with(ComponentA { alpha: 1 }));
    let e2 = list.insert(Entity::new((2,)).with(ComponentB { beta: 2 }));
    let e3 = list.insert(
        Entity::new((3,)).with(ComponentA { alpha: 3 }).with(ComponentB { beta: 3 }),
    );

    assert_eq!(list.iter(&vec![kind_a()]), vec![e1, e3]);
    assert_eq!(list.iter(&vec![kind_b()]), vec![e2, e3]);
    assert_eq!(list.iter(&vec![kind_a(), kind_b()]), vec![e3]);
    assert_eq!(list.iter(&vec![]), vec![e1, e2, e3]);
}

#[test]
fn empty_store_queries() {
    let list: EntityList<Entity> = EntityList::new();
    assert_eq!(list.len(), 0);
    assert_eq!(list.iter_all(), vec![]);
    assert_eq!(list.iter(&vec![]), vec![]);
    assert_eq!(list.iter(&vec![kind_a()]), vec![]);
}

#[test]
fn slot_reuse_bumps_generation() {
    let mut list: EntityList<Entity> = EntityList::new();
    let e1 = list.insert(Entity::new((1,)).with(ComponentA { alpha: 1 }));
    let _e2 = list.insert(Entity::new((2,)));

    assert!(list.remove(e1).is_some());
    let e4 = list.insert(Entity::new((4,)));

    assert_eq!(e4.slot, e1.slot);
    assert!(e4.generation > e1.generation);
    assert_eq!(e4.generation, e1.generation + 1);
    assert!(!list.contains(e1));
    assert!(list.contains(e4));
    assert_eq!(list.get(e1), None);
}

#[test]
fn removed_identifier_never_returns() {
    let mut list: EntityList<Entity> = EntityList::new();
    let first = list.insert(Entity::new((0,)));
    list.remove(first);

    // churn through the slot several times; the old identifier stays dead
    for round in 0..5u64 {
        let fresh = list.insert(Entity::new((round,)));
        assert_eq!(fresh.slot, first.slot);
        assert!(fresh.generation > first.generation);
        assert!(!list.contains(first));
        assert!(list.contains(fresh));
        list.remove(fresh);
        assert!(!list.contains(fresh));
    }
}

#[test]
fn index_built_after_records_exist() {
    let mut list: EntityList<Entity> = EntityList::new();
    // start with no index for ComponentA at all
    assert!(list.remove_bitset_for_component::<ComponentA>());

    let mut ids = Vec::new();
    for n in 0..10u64 {
        let e = Entity::new((n,));
        let e = if n % 3 == 0 { e.with(ComponentA { alpha: n as i64 }) } else { e };
        ids.push(list.insert(e));
    }

    // queries already work through the defensive scan (wildcard path)
    let before = list.iter(&vec![kind_a()]);

    // building the index afterwards must match a record-by-record scan
    list.add_bitset_for_component::<ComponentA>();
    let after = list.iter(&vec![kind_a()]);

    let scan: Vec<_> = list
        .iter_all()
        .into_iter()
        .filter(|id| list.get(*id).unwrap().has::<ComponentA>())
        .collect();

    assert_eq!(before, scan);
    assert_eq!(after, scan);
}

#[test]
fn defensive_query_skips_out_of_band_removal() {
    let mut list: EntityList<Entity> = EntityList::new();
    let e1 = list.insert(Entity::new((1,)).with(ComponentA { alpha: 1 }));
    let e2 = list.insert(Entity::new((2,)).with(ComponentA { alpha: 2 }));
    list.add_bitset_for_component::<ComponentA>();
    assert_eq!(list.iter(&vec![kind_a()]), vec![e1, e2]);

    // remove the component through the unchecked mutable reference,
    // bypassing the index bookkeeping
    list.get_mut(e1).remove::<ComponentA>();

    // the queries here re-validate every candidate against live presence
    // (the defensive policy), so the stale bit is skipped, not reported
    assert_eq!(list.iter(&vec![kind_a()]), vec![e2]);

    // refresh re-derives the record's bits; the answer stays the same
    list.refresh(e1);
    assert_eq!(list.iter(&vec![kind_a()]), vec![e2]);
}

#[test]
fn rebuilt_index_matches_untouched_one() {
    let build = || {
        let mut list: EntityList<Entity> = EntityList::new();
        list.insert(Entity::new((1,)).with(ComponentA { alpha: 1 }));
        list.insert(Entity::new((2,)));
        list.insert(Entity::new((3,)).with(ComponentA { alpha: 3 }));
        list
    };

    let untouched = build();
    let mut rebuilt = build();
    assert!(rebuilt.remove_bitset_for_component::<ComponentA>());
    rebuilt.add_bitset_for_component::<ComponentA>();

    assert_eq!(untouched.iter(&vec![kind_a()]), rebuilt.iter(&vec![kind_a()]));
}

#[test]
fn index_tracks_every_mutation() {
    let mut list: EntityList<Entity> = EntityList::new();
    let check = |list: &EntityList<Entity>| {
        let indexed = list.iter(&vec![kind_a()]);
        let scanned: Vec<_> = list
            .iter_all()
            .into_iter()
            .filter(|id| list.get(*id).unwrap().has::<ComponentA>())
            .collect();
        assert_eq!(indexed, scanned);
    };

    let e1 = list.insert(Entity::new((1,)).with(ComponentA { alpha: 1 }));
    check(&list);
    let e2 = list.insert(Entity::new((2,)));
    check(&list);
    list.add_component_for_entity(e2, ComponentA { alpha: 2 });
    check(&list);
    list.remove_component_for_entity::<ComponentA>(e1);
    check(&list);
    list.remove(e2);
    check(&list);
    let _e3 = list.insert(Entity::new((3,)).with(ComponentA { alpha: 3 }));
    check(&list);
    list.retain(|_id, e| !e.has::<ComponentA>());
    check(&list);
}

#[test]
fn change_component_variants() {
    let e = Entity::new((1,)).with(ComponentA { alpha: 1 });

    let unchanged = e.clone().with_component_change::<ComponentA>(ChangeComponent::NoChange);
    assert_eq!(unchanged.get::<ComponentA>(), Some(&ComponentA { alpha: 1 }));

    let replaced = e.clone().with_component_change(ChangeComponent::Replace(ComponentA {
        alpha: 9,
    }));
    assert_eq!(replaced.get::<ComponentA>(), Some(&ComponentA { alpha: 9 }));

    let removed = e.with_component_change::<ComponentA>(ChangeComponent::Remove);
    assert_eq!(removed.get::<ComponentA>(), None);

    let bumped = Entity::new((3,))
        .with(ComponentA { alpha: 1 })
        .with_mutation(|c: &mut ComponentA| c.alpha += 2);
    assert_eq!(bumped.get::<ComponentA>(), Some(&ComponentA { alpha: 3 }));

    // on a missing component the closure never runs
    let untouched = Entity::new((3,)).with_mutation(|c: &mut ComponentA| c.alpha += 2);
    assert_eq!(untouched.get::<ComponentA>(), None);

    let mut plain = Entity::new((2,));
    assert!(!plain.has::<ComponentB>());
    plain.add(ComponentB { beta: 7 });
    assert!(plain.has::<ComponentB>());
    let taken = plain.remove::<ComponentB>();
    assert_eq!(taken, Some(ComponentB { beta: 7 }));
    let gone = plain.with(ComponentB { beta: 8 }).with_removed::<ComponentB>();
    assert!(!gone.has::<ComponentB>());
}
