use woody_ecs::component::Component;
use woody_ecs::component::ComponentPtr;
use woody_ecs::component::ComponentStorage;
use woody_ecs::component::ErasedComponentData;
use woody_ecs::component::Position;
use woody_ecs::component::Velocity;
use woody_ecs::world::World;

#[test]
fn erased_value_casts() {
    let pos_t = Position::component_type();
    let vel_t = Velocity::component_type();

    let p = ComponentPtr::of(Position(3, 4));
    assert_eq!(p.c_type, pos_t);
    assert_eq!(p.data, vec![3, 4]);
    assert_eq!(p.cast_ref(pos_t), Some(&vec![3, 4]));
    assert_eq!(p.cast_ref(vel_t), None);
}

#[test]
fn slot_borrow_discipline() {
    let pos_t = Position::component_type();
    let vel_t = Velocity::component_type();
    let mut slot = ErasedComponentData::new(ComponentPtr::of(Position(1, 2)));

    // A downcast to the wrong type is refused.
    assert_eq!(slot.cast_ref(vel_t), None);
    assert_eq!(slot.cast_mut(vel_t), None);

    // Shared borrows coexist.
    assert_eq!(slot.cast_ref(pos_t), Some(vec![1, 2]));
    assert_eq!(slot.cast_ref(pos_t), Some(vec![1, 2]));
    // An exclusive borrow is refused while shared ones are outstanding.
    assert_eq!(slot.cast_mut(pos_t), None);
    assert!(slot.release_ref());
    assert_eq!(slot.cast_mut(pos_t), None);
    assert!(slot.release_ref());
    assert!(!slot.release_ref());

    // With all borrows returned, an exclusive borrow is admitted, and
    // it excludes every other borrow until it is returned.
    assert_eq!(slot.cast_mut(pos_t), Some(vec![1, 2]));
    assert_eq!(slot.cast_ref(pos_t), None);
    assert_eq!(slot.cast_mut(pos_t), None);
    assert!(slot.release_mut(vec![9, 9]));
    assert_eq!(slot.cast_ref(pos_t), Some(vec![9, 9]));
}

#[test]
fn column_rejects_foreign_values() {
    let pos_t = Position::component_type();
    let mut column = ComponentStorage::new(pos_t);

    assert_eq!(column.push(ComponentPtr::of(Velocity(1, 1))), None);
    assert_eq!(column.len(), 0);

    assert_eq!(column.push(ComponentPtr::of(Position(0, 1))), Some(0));
    assert_eq!(column.push(ComponentPtr::of(Position(2, 3))), Some(1));
    assert_eq!(column.len(), 2);

    assert_eq!(column.get(pos_t, 0), Some(vec![0, 1]));
    assert!(column.release(0));
    assert_eq!(column.get(pos_t, 5), None);
}

#[test]
fn exclusive_borrow_conflict() {
    let pos_t = Position::component_type();
    let mut world = World::new();
    world.spawn(vec![ComponentPtr::of(Position(8, 9))]);

    // Two contexts ask for exclusive access to the same slot: exactly
    // one succeeds; the other fails fast instead of aliasing.
    let first = world.get_component_mut(0, pos_t);
    assert_eq!(first, Some(vec![8, 9]));
    let second = world.get_component_mut(0, pos_t);
    assert_eq!(second, None);
    // A shared read is refused as well while the writer holds the slot.
    assert_eq!(world.get_component(0, pos_t), None);

    // Once the first holder writes back, access is available again.
    assert!(world.release_component_mut(0, pos_t, vec![10, 11]));
    assert_eq!(world.get_component_mut(0, pos_t), Some(vec![10, 11]));
    assert!(world.release_component_mut(0, pos_t, vec![10, 11]));
}

#[test]
fn shared_borrows_coexist() {
    let pos_t = Position::component_type();
    let mut world = World::new();
    world.spawn(vec![ComponentPtr::of(Position(4, 5))]);

    assert_eq!(world.get_component(0, pos_t), Some(vec![4, 5]));
    assert_eq!(world.get_component(0, pos_t), Some(vec![4, 5]));
    // An exclusive borrow is refused while readers are outstanding.
    assert_eq!(world.get_component_mut(0, pos_t), None);
    assert!(world.release_component(0, pos_t));
    assert_eq!(world.get_component_mut(0, pos_t), None);
    assert!(world.release_component(0, pos_t));
    assert!(!world.release_component(0, pos_t));
    assert_eq!(world.get_component_mut(0, pos_t), Some(vec![4, 5]));
    assert!(world.release_component_mut(0, pos_t, vec![4, 5]));
}
