use lemon_ecs::buffer::WorldBuffer;
use lemon_ecs::component::ComponentBundle;
use lemon_ecs::engine::{Engine, System};
use lemon_ecs::world::World;

const POSITION: usize = 0;
const VELOCITY: usize = 1;
const NAME: usize = 2;
const COUNTER: usize = 3;

#[derive(Debug, Clone, PartialEq)]
enum Comp {
    Position(u32, u32),
    Velocity(u32, u32),
    Name(String),
    Counter(u32),
}

fn bundle1(key: usize, comp: Comp) -> ComponentBundle<Comp> {
    let mut bundle = ComponentBundle::new();
    bundle.insert(key, comp);
    bundle
}

struct PrintSystem;

impl System<Comp> for PrintSystem {
    fn run(&mut self, world: &mut World<Comp>) {
        let mut buffer: WorldBuffer<Comp> = WorldBuffer::new();

        for id in world.query(vec![POSITION, VELOCITY], vec![NAME]) {
            let (px, py) = match world.get_component(id, POSITION).unwrap() {
                Comp::Position(x, y) => (*x, *y),
                _ => panic!("expected a position"),
            };
            let (vx, vy) = match world.get_component(id, VELOCITY).unwrap() {
                Comp::Velocity(x, y) => (*x, *y),
                _ => panic!("expected a velocity"),
            };
            buffer.insert(id, bundle1(POSITION, Comp::Position(px + vx, py + vy)));
        }

        let mut spawned = ComponentBundle::new();
        spawned.insert(NAME, Comp::Name("Hello".to_string()));
        spawned.insert(VELOCITY, Comp::Velocity(5, 6));
        spawned.insert(POSITION, Comp::Position(7, 8));
        buffer.spawn(spawned);

        world.apply_buffer(buffer);
    }
}

#[test]
pub fn systems_engine_run() {
    let mut engine: Engine<Comp, PrintSystem> = Engine::new();
    engine.push_system(PrintSystem);

    let mut start = ComponentBundle::new();
    start.insert(POSITION, Comp::Position(1, 2));
    start.insert(VELOCITY, Comp::Velocity(3, 4));
    let entity = engine.spawn(start);

    for _ in 0..10 {
        engine.run();
    }

    let position = engine.get_component(entity, POSITION);

    assert_eq!(
        position.unwrap(),
        &Comp::Position(31, 42),
        "Position should be (31, 42)"
    );

    let hits = engine.query(vec![NAME, VELOCITY, POSITION], Vec::new());
    assert_eq!(hits.len(), 10);

    for id in hits {
        let name = engine.get_component(id, NAME).unwrap();
        let velocity = engine.get_component(id, VELOCITY).unwrap();
        let position = engine.get_component(id, POSITION).unwrap();

        assert_eq!(name, &Comp::Name("Hello".to_string()), "Name should be 'Hello'");
        assert_eq!(velocity, &Comp::Velocity(5, 6), "Velocity should be (5, 6)");
        assert_eq!(position, &Comp::Position(7, 8), "Position should be (7, 8)");
    }
}

struct IdleSystem;

impl System<Comp> for IdleSystem {
    fn run(&mut self, _world: &mut World<Comp>) {}
}

#[test]
pub fn systems_engine_resource() {
    let mut engine: Engine<Comp, IdleSystem> = Engine::new();
    engine.insert_resource(COUNTER, Comp::Counter(0));

    for _ in 0..15 {
        let count = match engine.get_resource(COUNTER) {
            Some(Comp::Counter(n)) => *n,
            _ => panic!("counter resource missing"),
        };
        engine.insert_resource(COUNTER, Comp::Counter(count + 1));
    }

    let counter = engine.get_resource(COUNTER);

    assert_eq!(
        counter.unwrap(),
        &Comp::Counter(15),
        "Counter should be 15"
    );
}
