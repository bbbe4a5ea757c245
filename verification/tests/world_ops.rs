use lemon_ecs::buffer::WorldBuffer;
use lemon_ecs::component::ComponentBundle;
use lemon_ecs::engine::{Engine, System};
use lemon_ecs::world::World;

const POSITION: usize = 0;
const VELOCITY: usize = 1;
const NAME: usize = 2;
const COUNTER: usize = 3;

#[derive(Debug, Clone, PartialEq)]
enum Comp {
    Position(u32, u32),
    Velocity(u32, u32),
    Name(String),
    Counter(u32),
}

fn bundle1(key: usize, comp: Comp) -> ComponentBundle<Comp> {
    let mut bundle = ComponentBundle::new();
    bundle.insert(key, comp);
    bundle
}

#[test]
pub fn world_get_component() {
    let mut world: World<Comp> = World::new();

    let entity = world.spawn(bundle1(POSITION, Comp::Position(1, 2)));

    let position = world.get_component(entity, POSITION);
    let velocity = world.get_component(entity, VELOCITY);

    assert_eq!(
        position,
        Some(&Comp::Position(1, 2)),
        "Position should be (1, 2)"
    );
    assert!(velocity.is_none(), "Velocity should be None");

    world.remove(entity, &vec![POSITION]);

    let position = world.get_component(entity, POSITION);
    assert!(position.is_none(), "Position should be None");
}

#[test]
pub fn world_query_no_filters() {
    let mut world: World<Comp> = World::new();

    let _entity = world.spawn(bundle1(POSITION, Comp::Position(1, 2)));

    let hits = world.query(vec![POSITION], Vec::new());

    assert_eq!(hits.len(), 1);
    let position = world.get_component(hits[0], POSITION).unwrap();
    assert_eq!(position, &Comp::Position(1, 2), "Position should be (1, 2)");

    let hits = world.query(vec![POSITION, VELOCITY], Vec::new());
    assert!(hits.is_empty(), "Query should be empty");
}

#[test]
pub fn world_query_filters() {
    let mut world: World<Comp> = World::new();

    let mut bundle = ComponentBundle::new();
    bundle.insert(POSITION, Comp::Position(1, 2));
    bundle.insert(VELOCITY, Comp::Velocity(3, 4));
    let _entity = world.spawn(bundle);

    let hits = world.query(vec![POSITION], Vec::new());

    assert_eq!(hits.len(), 1);
    let position = world.get_component(hits[0], POSITION).unwrap();
    assert_eq!(position, &Comp::Position(1, 2), "Position should be (1, 2)");

    let hits = world.query(vec![POSITION], vec![VELOCITY]);
    assert!(hits.is_empty(), "Query should be empty");
}

#[test]
pub fn world_query_changed() {
    let mut world: World<Comp> = World::new();

    let _entity_a = world.spawn(bundle1(POSITION, Comp::Position(1, 2)));
    let entity_b = world.spawn(bundle1(POSITION, Comp::Position(3, 4)));

    world.query_changed(POSITION);

    world.insert(entity_b, bundle1(POSITION, Comp::Position(5, 6)));
    world.insert(entity_b, bundle1(POSITION, Comp::Position(7, 8)));

    let snapshots = world.query_changed(POSITION).snapshots();

    let record = &snapshots[0];

    assert_eq!(record.id(), entity_b, "Entity should be entity_b");

    assert_eq!(
        record.get_old().unwrap(),
        &Comp::Position(3, 4),
        "Removed Position should be (3, 4)"
    );
    assert_eq!(
        record.get_new(&world, POSITION).unwrap(),
        &Comp::Position(7, 8),
        "Added Position should be (5, 6)"
    );

    assert_eq!(snapshots.len(), 1, "Query should be empty");
}

#[test]
pub fn world_multiple_entities() {
    let mut world: World<Comp> = World::new();

    let _entity1 = world.spawn(bundle1(POSITION, Comp::Position(1, 2)));

    let _entity2 = world.spawn(bundle1(POSITION, Comp::Position(3, 4)));

    let hits = world.query(vec![POSITION], Vec::new());

    let position = world.get_component(hits[0], POSITION).unwrap();
    assert_eq!(position, &Comp::Position(1, 2), "Position should be (1, 2)");

    let position = world.get_component(hits[1], POSITION).unwrap();
    assert_eq!(position, &Comp::Position(3, 4), "Position should be (3, 4)");

    assert_eq!(hits.len(), 2, "Query should be empty");
}

struct PrintSystem;

impl System<Comp> for PrintSystem {
    fn run(&mut self, world: &mut World<Comp>) {
        let mut buffer: WorldBuffer<Comp> = WorldBuffer::new();

        for id in world.query(vec![POSITION, VELOCITY], Vec::new()) {
            let (px, py) = match world.get_component(id, POSITION).unwrap() {
                Comp::Position(x, y) => (*x, *y),
                _ => panic!("expected a position"),
            };
            let (vx, vy) = match world.get_component(id, VELOCITY).unwrap() {
                Comp::Velocity(x, y) => (*x, *y),
                _ => panic!("expected a velocity"),
            };
            buffer.insert(id, bundle1(POSITION, Comp::Position(px + vx, py + vy)));
        }

        let mut spawned = ComponentBundle::new();
        spawned.insert(NAME, Comp::Name("Hello".to_string()));
        spawned.insert(VELOCITY, Comp::Velocity(3, 4));
        buffer.spawn(spawned);

        world.apply_buffer(buffer);
    }
}

#[test]
pub fn tests_engine_run() {
    let mut engine: Engine<Comp, PrintSystem> = Engine::new();
    engine.push_system(PrintSystem);

    let mut start = ComponentBundle::new();
    start.insert(POSITION, Comp::Position(1, 2));
    start.insert(VELOCITY, Comp::Velocity(3, 4));
    let entity = engine.spawn(start);

    for _ in 0..10 {
        engine.run();
    }

    let position = engine.get_component(entity, POSITION);

    assert_eq!(
        position.unwrap(),
        &Comp::Position(31, 42),
        "Position should be (31, 42)"
    );

    let hits = engine.query(vec![NAME, VELOCITY], Vec::new());
    assert!(hits.len() > 0);

    let name = engine.get_component(hits[0], NAME).unwrap();
    let velocity = engine.get_component(hits[0], VELOCITY).unwrap();

    assert_eq!(name, &Comp::Name("Hello".to_string()), "Name should be 'Hello'");
    assert_eq!(velocity, &Comp::Velocity(3, 4), "Velocity should be (3, 4)");
}

struct CounterSystem;

impl System<Comp> for CounterSystem {
    fn run(&mut self, world: &mut World<Comp>) {
        let count = match world.get_resource(COUNTER) {
            Some(Comp::Counter(n)) => *n,
            _ => panic!("counter resource missing"),
        };
        world.insert_resource(COUNTER, Comp::Counter(count + 1));
    }
}

#[test]
pub fn tests_engine_resource() {
    let mut engine: Engine<Comp, CounterSystem> = Engine::new();
    engine.push_system(CounterSystem);

    engine.insert_resource(COUNTER, Comp::Counter(0));

    for _ in 0..15 {
        engine.run();
    }

    let counter = engine.get_resource(COUNTER);

    assert_eq!(
        counter.unwrap(),
        &Comp::Counter(15),
        "Counter should be 15"
    );
}
