use woody_ecs::component::Component;
use woody_ecs::component::ComponentPtr;
use woody_ecs::component::Health;
use woody_ecs::component::Position;
use woody_ecs::component::Velocity;
use woody_ecs::query::QueryEntityError;
use woody_ecs::query::QueryTerm;
use woody_ecs::world::World;

fn populated_world() -> World {
    let mut world = World::new();
    world.spawn(vec![ComponentPtr::of(Position(0, 0))]);
    world.spawn(vec![
        ComponentPtr::of(Velocity(0, 0)),
        ComponentPtr::of(Position(1, 0)),
    ]);
    world.spawn(vec![
        ComponentPtr::of(Velocity(1, 0)),
        ComponentPtr::of(Position(2, 0)),
    ]);
    world.spawn(vec![ComponentPtr::of(Velocity(2, 0))]);
    world
}

#[test]
fn query() {
    let mut world = World::new();

    world.spawn(vec![ComponentPtr::of(Position(0, 0))]);
    world.spawn(vec![
        ComponentPtr::of(Velocity(0, 0)),
        ComponentPtr::of(Position(1, 0)),
    ]);
    world.spawn(vec![
        ComponentPtr::of(Velocity(1, 0)),
        ComponentPtr::of(Position(2, 0)),
    ]);
    world.spawn(vec![ComponentPtr::of(Velocity(2, 0))]);

    let vel_t = Velocity::component_type();
    let pos_t = Position::component_type();
    let query = world.query(vec![QueryTerm::Shared(vel_t), QueryTerm::Shared(pos_t)]);

    for (_, item) in query.iter(&world).unwrap() {
        println!("{:?}, {:?}", item[0], item[1]);
    }
}

#[test]
fn threading() {
    let mut world = World::new();

    world.spawn(vec![ComponentPtr::of(Position(0, 0))]);
    world.spawn(vec![ComponentPtr::of(Position(1, 0))]);
    world.spawn(vec![ComponentPtr::of(Position(2, 0))]);
    world.spawn(vec![ComponentPtr::of(Position(3, 0))]);

    let query = world.query(vec![QueryTerm::Shared(Position::component_type())]);

    for (_, item) in query.iter(&world).unwrap() {
        println!("{:?}", item[0]);
    }
}

#[test]
fn query_matches_supersets() {
    let world = populated_world();

    // Entities 1 and 2 hold both Velocity and Position; 0 and 3 hold
    // only one of them.
    let q = world.query(vec![
        QueryTerm::Shared(Velocity::component_type()),
        QueryTerm::Shared(Position::component_type()),
    ]);
    let out = q.iter(&world).unwrap();
    assert_eq!(out.len(), 2);
    assert_eq!(out[0].0.id(), 1);
    assert_eq!(out[1].0.id(), 2);
    assert_eq!(out[0].1, vec![vec![0, 0], vec![1, 0]]);
    assert_eq!(out[1].1, vec![vec![1, 0], vec![2, 0]]);

    // A single-type query matches every entity holding that type.
    let q_pos = world.query(vec![QueryTerm::Shared(Position::component_type())]);
    let out_pos = q_pos.iter(&world).unwrap();
    assert_eq!(out_pos.len(), 3);
    assert_eq!(out_pos[0].0.id(), 0);
    assert_eq!(out_pos[1].0.id(), 1);
    assert_eq!(out_pos[2].0.id(), 2);

    // Iteration takes no lease, so it can be repeated freely.
    let again = q_pos.iter(&world).unwrap();
    assert_eq!(again.len(), 3);
    assert_eq!(again[0].1, out_pos[0].1);
}

#[test]
fn query_without_matches() {
    let mut world = populated_world();

    // No spawned entity has both Velocity and Health.
    let q = world.query(vec![
        QueryTerm::Shared(Velocity::component_type()),
        QueryTerm::Exclusive(Health::component_type()),
    ]);

    assert_eq!(q.iter(&world).unwrap().len(), 0);

    for e in 0..4u64 {
        let handle = world.entities.get(e).unwrap().0;
        let r = q.get(&mut world, handle);
        assert_eq!(r.unwrap_err(), QueryEntityError::QueryDoesNotMatch(handle));
    }
}

#[test]
fn mutate_position_through_query() {
    let mut world = World::new();

    world.spawn(vec![
        ComponentPtr::of(Velocity(5, 7)),
        ComponentPtr::of(Position(10, 20)),
    ]);

    let q = world.query(vec![
        QueryTerm::Shared(Velocity::component_type()),
        QueryTerm::Exclusive(Position::component_type()),
    ]);
    let handle = world.entities.get(0).unwrap().0;

    let mut items = q.get(&mut world, handle).unwrap();
    let velocity = items[0].clone();
    // position.x += velocity.x
    items[1][0] += velocity[0];
    assert!(q.release(&mut world, handle, items));

    // Re-reading observes the update.
    let items_again = q.get(&mut world, handle).unwrap();
    assert_eq!(items_again[1], vec![15, 20]);
    assert_eq!(items_again[0], vec![5, 7]);
    assert!(q.release(&mut world, handle, items_again));
}

#[test]
fn aliasing_violation_reported() {
    let mut world = World::new();

    world.spawn(vec![ComponentPtr::of(Position(1, 1))]);
    let q = world.query(vec![QueryTerm::Exclusive(Position::component_type())]);
    let handle = world.entities.get(0).unwrap().0;

    let items = q.get(&mut world, handle).unwrap();
    // The exclusive lease is outstanding: a second fetch must fail
    // fast, and reading the working set must refuse as well.
    assert_eq!(
        q.get(&mut world, handle).unwrap_err(),
        QueryEntityError::AliasingViolation(handle)
    );
    assert!(q.iter(&world).is_err());

    assert!(q.release(&mut world, handle, items));
    // After the release both succeed again.
    let items = q.get(&mut world, handle).unwrap();
    assert!(q.release(&mut world, handle, items));
    assert!(q.iter(&world).is_ok());
}
