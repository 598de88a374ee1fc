use woody_ecs::archetype::id_from_c_types;
use woody_ecs::component::Component;
use woody_ecs::component::ComponentPtr;
use woody_ecs::component::Health;
use woody_ecs::component::Position;
use woody_ecs::component::Velocity;
use woody_ecs::world::World;

#[test]
fn spawn_entity() {
    let mut world = World::new();

    world.spawn(vec![
        ComponentPtr::of(Position(0, 0)),
        ComponentPtr::of(Velocity(1, 1)),
    ]);
    world.spawn(vec![
        ComponentPtr::of(Position(0, 0)),
        ComponentPtr::of(Velocity(1, 1)),
    ]);
    world.spawn(vec![ComponentPtr::of(Position(0, 0))]);
    world.spawn(vec![
        ComponentPtr::of(Position(0, 0)),
        ComponentPtr::of(Velocity(1, 1)),
    ]);

    assert!(world.entities.counter == 4);
    assert!(world.entities.entities.len() == 4);
    assert!(world.archetypes.len() == 2);

    let pos_t = Position::component_type();
    let vel_t = Velocity::component_type();
    let pos_vel_archetype_storage = world.archetypes.get(id_from_c_types(&vec![pos_t, vel_t]));
    let pos_archetype_storage = world.archetypes.get(id_from_c_types(&vec![pos_t]));
    let vel_archetype_storage = world.archetypes.get(id_from_c_types(&vec![vel_t]));

    assert!(pos_vel_archetype_storage.is_some());
    assert!(pos_archetype_storage.is_some());
    assert!(vel_archetype_storage.is_none());
}

#[test]
fn spawn() {
    let mut world = World::new();

    world.spawn(vec![ComponentPtr::of(Position(0, 0))]);
    world.spawn(vec![
        ComponentPtr::of(Velocity(0, 0)),
        ComponentPtr::of(Position(1, 0)),
    ]);
    world.spawn(vec![
        ComponentPtr::of(Velocity(1, 0)),
        ComponentPtr::of(Position(2, 0)),
    ]);
    world.spawn(vec![ComponentPtr::of(Velocity(2, 0))]);

    // Two distinct component types are stored across the world.
    assert_eq!(world.component_types().len(), 2);
    // Four entities live in the world.
    assert_eq!(world.entities.entities.len(), 4);
    // Three archetypes partition them.
    assert_eq!(world.archetypes.len(), 3);
}

#[test]
fn two_archetypes_four_entities() {
    let mut world = World::new();

    world.spawn(vec![ComponentPtr::of(Position(0, 0))]);
    world.spawn(vec![
        ComponentPtr::of(Position(0, 0)),
        ComponentPtr::of(Velocity(1, 1)),
    ]);
    world.spawn(vec![
        ComponentPtr::of(Position(0, 0)),
        ComponentPtr::of(Velocity(1, 1)),
    ]);
    world.spawn(vec![ComponentPtr::of(Position(0, 0))]);

    assert_eq!(world.archetypes.len(), 2);
    assert_eq!(world.entities.counter, 4);
}

#[test]
fn same_set_same_archetype() {
    let mut world = World::new();

    // The same component type set, bundled in different member orders
    // at different call sites.
    let a = world.spawn(vec![
        ComponentPtr::of(Position(1, 2)),
        ComponentPtr::of(Velocity(3, 4)),
    ]);
    let b = world.spawn(vec![
        ComponentPtr::of(Velocity(7, 8)),
        ComponentPtr::of(Position(5, 6)),
    ]);

    assert_eq!(world.archetypes.len(), 1);
    assert_eq!(a.archetype_id(), b.archetype_id());
    assert_ne!(a.id(), b.id());

    // Each entity is independently retrievable with its own values.
    let pos_t = Position::component_type();
    let vel_t = Velocity::component_type();
    assert_eq!(world.get_component(a.id(), pos_t).unwrap(), vec![1, 2]);
    assert_eq!(world.get_component(b.id(), pos_t).unwrap(), vec![5, 6]);
    assert_eq!(world.get_component(a.id(), vel_t).unwrap(), vec![3, 4]);
    assert_eq!(world.get_component(b.id(), vel_t).unwrap(), vec![7, 8]);
}

#[test]
fn identity_is_order_independent() {
    assert_eq!(id_from_c_types(&vec![5, 7]), 12);
    assert_eq!(id_from_c_types(&vec![7, 5]), 12);
    assert_eq!(id_from_c_types(&vec![]), 0);
    assert_eq!(id_from_c_types(&vec![u64::MAX]), u64::MAX as u128);
}

#[test]
fn try_spawn_refusals() {
    let mut world = World::new();

    // A bundle with a repeated component type is refused.
    let dup = world.try_spawn(vec![
        ComponentPtr::of(Position(0, 0)),
        ComponentPtr::of(Position(1, 1)),
    ]);
    assert!(dup.is_none());
    assert_eq!(world.entities.counter, 0);

    // Two different type sets with the same identity sum: the second
    // collides with the archetype of the first and is refused.
    let first = world.try_spawn(vec![
        ComponentPtr::new(1, vec![10]),
        ComponentPtr::new(4, vec![11]),
    ]);
    assert!(first.is_some());
    let second = world.try_spawn(vec![
        ComponentPtr::new(2, vec![20]),
        ComponentPtr::new(3, vec![21]),
    ]);
    assert!(second.is_none());
    assert_eq!(world.entities.counter, 1);
    assert_eq!(world.archetypes.len(), 1);

    // An admissible bundle is spawned.
    let ok = world.try_spawn(vec![ComponentPtr::of(Health(30))]);
    assert!(ok.is_some());
    assert_eq!(world.entities.counter, 2);
}

#[test]
fn empty_bundle() {
    let mut world = World::new();

    let e = world.spawn(vec![]);
    assert_eq!(e.id(), 0);
    assert_eq!(world.archetypes.len(), 1);
    assert_eq!(world.entities.counter, 1);

    // A query with no terms matches every live entity.
    let q = world.query(vec![]);
    let out = q.iter(&world).unwrap();
    assert_eq!(out.len(), 1);
    assert_eq!(out[0].0.id(), 0);
}

#[test]
fn entity_table_filters() {
    let mut world = World::new();

    let pos_t = Position::component_type();
    let vel_t = Velocity::component_type();

    let a = world.spawn(vec![ComponentPtr::of(Position(0, 0))]);
    let b = world.spawn(vec![
        ComponentPtr::of(Position(1, 1)),
        ComponentPtr::of(Velocity(2, 2)),
    ]);
    let c = world.spawn(vec![ComponentPtr::of(Velocity(3, 3))]);

    let by_arch = world.entities.entities_by_archetype(a.archetype_id());
    assert_eq!(by_arch.len(), 1);
    assert_eq!(by_arch[0].0.id(), a.id());

    let by_pos = world.entities.entities_by_component_id(&pos_t);
    assert_eq!(by_pos.len(), 2);
    assert_eq!(by_pos[0].0.id(), a.id());
    assert_eq!(by_pos[1].0.id(), b.id());

    let by_both = world.entities.entities_by_components_ids(&vec![pos_t, vel_t]);
    assert_eq!(by_both.len(), 1);
    assert_eq!(by_both[0].0.id(), b.id());

    let by_vel = world.entities.entities_by_component_id(&vel_t);
    assert_eq!(by_vel.len(), 2);
    assert_eq!(by_vel[1].0.id(), c.id());

    assert!(world.entities.get(b.id()).is_some());
    assert!(world.entities.get(99).is_none());

    let arch = world.archetypes.get(b.archetype_id()).unwrap();
    assert!(arch.contains_c_types(&vec![pos_t]));
    assert!(arch.contains_c_types(&vec![pos_t, vel_t]));
    assert!(!arch.contains_c_types(&vec![99]));
    assert_eq!(arch.len(), 1);
    assert_eq!(arch.entities(), &vec![b.id()]);
    assert_eq!(world.entities.get(c.id()).unwrap().0.archetype_id(), c.archetype_id());
}
