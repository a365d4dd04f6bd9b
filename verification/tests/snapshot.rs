use rubyec::{Component, ComponentA, ComponentB, Entity, EntityBase, EntityList, EntityOps, Slot};

#[test]
fn deserialized_have_same_values() {
    let mut entity_list: EntityList<Entity> = EntityList::new();

    let id_1 = entity_list.insert(Entity::new((0,)).with(ComponentA { alpha: 5 }));
    let id_2 = entity_list.insert(Entity::new((0,)).with(ComponentB { beta: 5 }));
    let id_3 = entity_list.insert(
        Entity::new((0,)).with(ComponentB { beta: 6 }).with(ComponentA { alpha: 6 }),
    );
    let id_4 = entity_list.insert(
        Entity::new((0,)).with(ComponentB { beta: 6 }).with(ComponentA { alpha: 6 }),
    );

    entity_list.remove(id_3);

    // the persisted form is the ordered slot contents; indices are never
    // part of it and are rebuilt on load
    let snapshot: Vec<Slot<Entity>> = {
        let copy = clone_list(&entity_list);
        copy.into_slots()
    };
    let restored_entity_list: EntityList<Entity> =
        EntityList::from_slots(snapshot).expect("snapshot of a live store must be well formed");

    // both stores answer every lookup the same way
    assert_eq!(entity_list.get(id_1), restored_entity_list.get(id_1));
    assert_eq!(entity_list.get(id_2), restored_entity_list.get(id_2));
    assert_eq!(entity_list.get(id_3), restored_entity_list.get(id_3));
    assert_eq!(entity_list.get(id_4), restored_entity_list.get(id_4));

    let ka = <ComponentA as Component<Entity>>::kind_id();
    let kb = <ComponentB as Component<Entity>>::kind_id();

    let all_entities = entity_list.iter_all();
    let only_comp_a = entity_list.iter(&vec![ka]);
    let only_comp_b = entity_list.iter(&vec![kb]);
    let comp_a_and_b = entity_list.iter(&vec![ka, kb]);

    assert_eq!(all_entities, vec![id_1, id_2, id_4]);
    assert_eq!(only_comp_a, vec![id_1, id_4]);
    assert_eq!(only_comp_b, vec![id_2, id_4]);
    assert_eq!(comp_a_and_b, vec![id_4]);

    assert_eq!(restored_entity_list.iter_all(), all_entities);
    assert_eq!(restored_entity_list.iter(&vec![ka]), only_comp_a);
    assert_eq!(restored_entity_list.iter(&vec![kb]), only_comp_b);
    assert_eq!(restored_entity_list.iter(&vec![ka, kb]), comp_a_and_b);
}

#[test]
fn snapshot_with_exhausted_generation_is_rejected() {
    let slots: Vec<Slot<Entity>> = vec![Slot {
        generation: u64::MAX,
        value: Some(Entity::new((1,))),
    }];
    assert!(EntityList::from_slots(slots).is_none());
}

#[test]
fn snapshot_reuses_freed_slots() {
    let slots: Vec<Slot<Entity>> = vec![
        Slot { generation: 3, value: None },
        Slot { generation: 0, value: Some(Entity::new((1,))) },
    ];
    let mut list = EntityList::from_slots(slots).unwrap();
    assert_eq!(list.len(), 1);

    // the freed slot at position 0 is reused, at its recorded generation
    let id = list.insert(Entity::new((2,)));
    assert_eq!(id.slot, 0);
    assert_eq!(id.generation, 3);
    assert!(list.contains(id));
}

fn clone_list(list: &EntityList<Entity>) -> EntityList<Entity> {
    let mut slots: Vec<Slot<Entity>> = Vec::new();
    for id in list.iter_all() {
        while slots.len() < id.slot {
            slots.push(Slot { generation: 0, value: None });
        }
        slots.push(Slot { generation: id.generation, value: Some(list.get(id).unwrap().clone()) });
    }
    EntityList::from_slots(slots).unwrap()
}
