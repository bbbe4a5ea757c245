use lemon_ecs::component::ComponentBundle;
use lemon_ecs::world::World;

const POSITION: usize = 0;
const VELOCITY: usize = 1;

#[derive(Debug, Clone, PartialEq)]
enum Comp {
    Position(u32, u32),
    Velocity(u32, u32),
}

fn position(x: u32, y: u32) -> Comp {
    Comp::Position(x, y)
}

#[test]
pub fn get_component() {
    let mut world: World<Comp> = World::new();

    let mut bundle = ComponentBundle::new();
    bundle.insert(POSITION, position(1, 2));
    let entity = world.spawn(bundle);

    let position_read = world.get_component(entity, POSITION);
    let velocity_read = world.get_component(entity, VELOCITY);

    assert_eq!(
        position_read,
        Some(&Comp::Position(1, 2)),
        "Position should be (1, 2)"
    );
    assert_eq!(velocity_read, None, "Velocity should be None");

    world.remove(entity, &vec![POSITION]);

    let position_read = world.get_component(entity, POSITION);

    assert_eq!(position_read, None, "Position should be None");
}

#[test]
fn despawn_drops_all_components() {
    let mut world: World<Comp> = World::new();
    let mut bundle = ComponentBundle::new();
    bundle.insert(POSITION, Comp::Position(9, 9));
    bundle.insert(VELOCITY, Comp::Velocity(1, 1));
    let entity = world.spawn(bundle);

    world.despawn(entity);

    assert_eq!(world.get_component(entity, POSITION), None);
    assert_eq!(world.get_component(entity, VELOCITY), None);
    assert!(!world.has_component(entity, POSITION));
}

#[test]
fn remove_absent_key_is_noop() {
    let mut world: World<Comp> = World::new();
    let mut bundle = ComponentBundle::new();
    bundle.insert(POSITION, Comp::Position(4, 5));
    let entity = world.spawn(bundle);

    world.remove(entity, &vec![VELOCITY]);

    assert_eq!(
        world.get_component(entity, POSITION),
        Some(&Comp::Position(4, 5))
    );
}
