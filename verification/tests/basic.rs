use rubyec::{Component, ComponentA, ComponentB, ComponentC, Entity, EntityBase, EntityList, EntityOps};

#[test]
fn entity_ops() {
    let mut entity_list: EntityList<Entity> = EntityList::new();

    let id_1 = entity_list.insert(Entity::new((5,)).with(ComponentA { alpha: 5 }));
    let id_2 = entity_list.insert(Entity::new((6,)).with(ComponentB { beta: 5 }));

    let e1 = entity_list.get(id_1).unwrap();
    let x = e1.get::<ComponentA>().unwrap();
    assert_eq!(x.alpha, 5);
    assert_eq!(e1.get::<ComponentB>(), None);

    let e2 = entity_list.get_mut(id_2);
    assert!(e2.has::<ComponentB>());
    assert!(!e2.has::<ComponentA>());

    let x = e2.get_mut::<ComponentB>();
    x.beta += 1;
    e2.mutate(|c: &mut ComponentB| c.beta += 1);

    let v = e2.peek(|c: &ComponentB| c.beta);
    assert_eq!(v, Some(7));

    e2.remove::<ComponentB>();
    assert_eq!(e2.get::<ComponentB>(), None);
}

#[test]
fn iter() {
    let mut entity_list: EntityList<Entity> = EntityList::new();

    let id_1 = entity_list.insert(Entity::new((5,)).with(ComponentA { alpha: 5 }));
    let id_2 = entity_list.insert(Entity::new((1,)).with(ComponentB { beta: 5 }));
    let id_3 = entity_list.insert(
        Entity::new((6,)).with(ComponentB { beta: 6 }).with(ComponentA { alpha: 6 }),
    );
    let id_4 = entity_list.insert(Entity::new((6,)).with(ComponentC { ceta: 6 }));
    let id_5 = entity_list.insert(
        Entity::new((6,)).with(ComponentB { beta: 6 }).with(ComponentC { ceta: 6 }),
    );
    let id_6 = entity_list.insert(
        Entity::new((6,))
            .with(ComponentA { alpha: 6 })
            .with(ComponentB { beta: 6 })
            .with(ComponentC { ceta: 6 }),
    );

    entity_list.add_bitset_for_component::<ComponentA>();
    entity_list.add_bitset_for_component::<ComponentB>();

    let ka = <ComponentA as Component<Entity>>::kind_id();
    let kb = <ComponentB as Component<Entity>>::kind_id();
    let kc = <ComponentC as Component<Entity>>::kind_id();

    let all_entities = entity_list.iter_all();
    let only_comp_a = entity_list.iter(&vec![ka]);
    let only_comp_b = entity_list.iter(&vec![kb]);
    let only_comp_c = entity_list.iter(&vec![kc]);
    let comp_a_and_b = entity_list.iter(&vec![ka, kb]);
    let comp_a_and_c = entity_list.iter(&vec![ka, kc]);
    let comp_b_and_c = entity_list.iter(&vec![kb, kc]);
    let comp_all = entity_list.iter(&vec![kb, kc, ka]);

    assert_eq!(all_entities, vec![id_1, id_2, id_3, id_4, id_5, id_6]);

    assert_eq!(only_comp_a, vec![id_1, id_3, id_6]);
    assert_eq!(only_comp_b, vec![id_2, id_3, id_5, id_6]);
    assert_eq!(only_comp_c, vec![id_4, id_5, id_6]);

    assert_eq!(comp_a_and_b, vec![id_3, id_6]);
    assert_eq!(comp_a_and_c, vec![id_6]);
    assert_eq!(comp_b_and_c, vec![id_5, id_6]);

    assert_eq!(comp_all, vec![id_6]);
}

#[test]
fn len_tracks_inserts_and_removes() {
    let mut list: EntityList<Entity> = EntityList::new();
    assert_eq!(list.len(), 0);
    let a = list.insert(Entity::new((1,)));
    let b = list.insert(Entity::new((2,)));
    assert_eq!(list.len(), 2);
    list.remove(a);
    assert_eq!(list.len(), 1);
    assert!(list.contains(b));
    assert!(!list.contains(a));
}

#[test]
fn miss_surface_is_total() {
    let mut list: EntityList<Entity> = EntityList::new();
    let id = list.insert(Entity::new((1,)).with(ComponentA { alpha: 1 }));
    list.remove(id);

    // every lookup on a stale identifier reports absence, never an error
    assert_eq!(list.get(id), None);
    assert!(!list.contains(id));
    assert_eq!(list.remove(id), None);
    assert_eq!(
        list.add_component_for_entity(id, ComponentB { beta: 9 }),
        Some(ComponentB { beta: 9 })
    );
    assert_eq!(list.remove_component_for_entity::<ComponentA>(id), None);
}

#[test]
fn component_mutation_surface() {
    let mut list: EntityList<Entity> = EntityList::new();
    let id = list.insert(Entity::new((1,)));

    assert_eq!(list.add_component_for_entity(id, ComponentA { alpha: 3 }), None);
    assert_eq!(list.get(id).unwrap().get::<ComponentA>(), Some(&ComponentA { alpha: 3 }));

    // replaces silently
    assert_eq!(list.add_component_for_entity(id, ComponentA { alpha: 4 }), None);
    assert_eq!(list.get(id).unwrap().get::<ComponentA>(), Some(&ComponentA { alpha: 4 }));

    let removed = list.remove_component_for_entity::<ComponentA>(id);
    assert_eq!(removed, Some(ComponentA { alpha: 4 }));
    // removing again: the entity no longer has the component
    assert_eq!(list.remove_component_for_entity::<ComponentA>(id), None);
}

#[test]
fn get_at_resolves_positions() {
    let mut list: EntityList<Entity> = EntityList::new();
    let id_1 = list.insert(Entity::new((7,)).with(ComponentA { alpha: 7 }));
    let id_2 = list.insert(Entity::new((8,)));
    list.remove(id_2);

    let (e, id) = list.get_at(id_1.slot).unwrap();
    assert_eq!(id, id_1);
    assert_eq!(e.get::<ComponentA>(), Some(&ComponentA { alpha: 7 }));

    // an emptied slot and an out-of-range position both resolve to nothing
    assert!(list.get_at(id_2.slot).is_none());
    assert!(list.get_at(1000).is_none());
}

#[test]
fn retain_keeps_matching_entities() {
    let mut list: EntityList<Entity> = EntityList::new();
    let id_1 = list.insert(Entity::new((1,)).with(ComponentA { alpha: 1 }));
    let id_2 = list.insert(Entity::new((2,)));
    let id_3 = list.insert(Entity::new((3,)).with(ComponentA { alpha: 3 }));

    list.retain(|_id, e| e.has::<ComponentA>());

    assert!(list.contains(id_1));
    assert!(!list.contains(id_2));
    assert!(list.contains(id_3));

    let ka = <ComponentA as Component<Entity>>::kind_id();
    assert_eq!(list.iter(&vec![ka]), vec![id_1, id_3]);
    assert_eq!(list.iter_all(), vec![id_1, id_3]);
}
