use lemon_ecs::component::ComponentBundle;
use lemon_ecs::world::World;

const POSITION: usize = 0;
const VELOCITY: usize = 1;

#[derive(Debug, Clone, PartialEq)]
enum Comp {
    Position(u32, u32),
    Velocity(u32, u32),
}

fn bundle1(key: usize, comp: Comp) -> ComponentBundle<Comp> {
    let mut bundle = ComponentBundle::new();
    bundle.insert(key, comp);
    bundle
}

#[test]
pub fn query_no_filters() {
    let mut world: World<Comp> = World::new();

    world.spawn(bundle1(POSITION, Comp::Position(1, 2)));

    let hits = world.query(vec![POSITION], Vec::new());
    assert_eq!(hits.len(), 1);
    let position = world.get_component(hits[0], POSITION).unwrap();
    assert_eq!(position, &Comp::Position(1, 2), "Position should be (1, 2)");

    let hits = world.query(vec![POSITION, VELOCITY], Vec::new());
    assert!(hits.is_empty(), "Query should be empty");
}

#[test]
pub fn query_filters() {
    let mut world: World<Comp> = World::new();

    let mut bundle = ComponentBundle::new();
    bundle.insert(POSITION, Comp::Position(1, 2));
    bundle.insert(VELOCITY, Comp::Velocity(3, 4));
    let _entity = world.spawn(bundle);

    let hits = world.query(vec![POSITION], Vec::new());
    assert_eq!(hits.len(), 1);
    let position = world.get_component(hits[0], POSITION).unwrap();
    assert_eq!(position, &Comp::Position(1, 2), "Position should be (1, 2)");

    let hits = world.query(vec![POSITION], vec![VELOCITY]);
    assert!(hits.is_empty(), "Query should be empty");
}

#[test]
pub fn query_changed_snapshot() {
    let mut world: World<Comp> = World::new();

    let _entity_a = world.spawn(bundle1(POSITION, Comp::Position(1, 2)));
    let entity_b = world.spawn(bundle1(POSITION, Comp::Position(3, 4)));

    world.query_changed(POSITION);

    world.insert(entity_b, bundle1(POSITION, Comp::Position(5, 6)));
    world.insert(entity_b, bundle1(POSITION, Comp::Position(7, 8)));

    let snapshots = world.query_changed(POSITION).snapshots();

    let record = &snapshots[0];

    assert_eq!(record.id(), entity_b, "Entity should be entity_b");

    assert_eq!(
        record.get_old().unwrap(),
        &Comp::Position(3, 4),
        "Removed Position should be (3, 4)"
    );

    assert_eq!(
        record.get_new(&world, POSITION).unwrap(),
        &Comp::Position(7, 8),
        "Added Position should be (5, 6)"
    );

    assert_eq!(snapshots.len(), 1, "Query should be empty");
}

#[test]
pub fn query_changed_added() {
    let mut world: World<Comp> = World::new();

    let entity_a = world.spawn(bundle1(POSITION, Comp::Position(1, 2)));
    let entity_b = world.spawn(bundle1(POSITION, Comp::Position(3, 4)));

    world.query_changed(POSITION);

    world.insert(entity_a, bundle1(POSITION, Comp::Position(5, 6)));
    world.insert(entity_b, bundle1(POSITION, Comp::Position(7, 8)));

    let added = world.query_changed(POSITION).added();

    assert_eq!(added[0], entity_a, "Entity should be entity_a");
    assert_eq!(
        world.get_component(added[0], POSITION).unwrap(),
        &Comp::Position(5, 6),
        "Added Position should be (5, 6)"
    );

    assert_eq!(added[1], entity_b, "Entity should be entity_b");
    assert_eq!(
        world.get_component(added[1], POSITION).unwrap(),
        &Comp::Position(7, 8),
        "Added Position should be (7, 8)"
    );

    assert_eq!(added.len(), 2, "Query should be empty");
}

#[test]
pub fn query_changed_removed() {
    let mut world: World<Comp> = World::new();

    let entity_a = world.spawn(bundle1(POSITION, Comp::Position(1, 2)));
    let entity_b = world.spawn(bundle1(POSITION, Comp::Position(3, 4)));

    world.query_changed(POSITION);

    world.remove(entity_a, &vec![POSITION]);
    world.remove(entity_b, &vec![POSITION]);

    let removed = world.query_changed(POSITION).removed();

    assert_eq!(removed[0].0, entity_a, "Entity should be entity_a");
    assert_eq!(
        removed[0].1,
        Comp::Position(1, 2),
        "Removed Position should be (1, 2)"
    );

    assert_eq!(removed[1].0, entity_b, "Entity should be entity_b");
    assert_eq!(
        removed[1].1,
        Comp::Position(3, 4),
        "Removed Position should be (3, 4)"
    );

    assert_eq!(removed.len(), 2, "Query should be empty");
}

#[test]
pub fn query_changed_modified() {
    let mut world: World<Comp> = World::new();

    let entity_a = world.spawn(bundle1(POSITION, Comp::Position(1, 2)));
    let entity_b = world.spawn(bundle1(POSITION, Comp::Position(3, 4)));

    world.query_changed(POSITION);

    world.insert(entity_a, bundle1(POSITION, Comp::Position(5, 6)));
    world.insert(entity_b, bundle1(POSITION, Comp::Position(7, 8)));

    let modified = world.query_changed(POSITION).modified();

    assert_eq!(modified[0].0, entity_a, "Entity should be entity_a");
    assert_eq!(
        modified[0].1,
        Comp::Position(1, 2),
        "Removed Position should be (1, 2)"
    );
    assert_eq!(
        world.get_component(modified[0].0, POSITION).unwrap(),
        &Comp::Position(5, 6),
        "Added Position should be (5, 6)"
    );

    assert_eq!(modified[1].0, entity_b, "Entity should be entity_b");
    assert_eq!(
        modified[1].1,
        Comp::Position(3, 4),
        "Removed Position should be (3, 4)"
    );
    assert_eq!(
        world.get_component(modified[1].0, POSITION).unwrap(),
        &Comp::Position(7, 8),
        "Added Position should be (7, 8)"
    );

    assert_eq!(modified.len(), 2, "Query should be empty");
}
