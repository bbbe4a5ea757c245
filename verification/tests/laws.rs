use lemon_ecs::archetype::Archetype;
use lemon_ecs::archetype::ArchetypeError;
use lemon_ecs::buffer::WorldBuffer;
use lemon_ecs::component::ComponentBundle;
use lemon_ecs::component::ComponentChange;
use lemon_ecs::entities::EntityId;
use lemon_ecs::query::Query;
use lemon_ecs::sparse_set::SparseSet;
use lemon_ecs::world::World;
use lemon_ecs::world::WorldUpdate;

const POSITION: usize = 0;
const VELOCITY: usize = 1;
const GAUGE: usize = 4;

#[derive(Debug, Clone, PartialEq)]
enum Comp {
    Position(u32, u32),
    Velocity(u32, u32),
    Gauge(u32),
}

fn bundle1(key: usize, comp: Comp) -> ComponentBundle<Comp> {
    let mut bundle = ComponentBundle::new();
    bundle.insert(key, comp);
    bundle
}

#[test]
fn change_generation_keeps_earliest_previous() {
    let mut world: World<Comp> = World::new();

    let entity = world.spawn(bundle1(POSITION, Comp::Position(1, 2)));

    world.query_changed(POSITION);

    world.insert(entity, bundle1(POSITION, Comp::Position(3, 4)));
    world.insert(entity, bundle1(POSITION, Comp::Position(5, 6)));

    let snapshots = world.query_changed(POSITION).snapshots();

    assert_eq!(snapshots.len(), 1);
    assert_eq!(snapshots[0].id(), entity);
    assert_eq!(snapshots[0].get_old().unwrap(), &Comp::Position(1, 2));
    assert_eq!(
        snapshots[0].get_new(&world, POSITION).unwrap(),
        &Comp::Position(5, 6)
    );
}

#[test]
fn buffered_despawn_cancels_pending_modify() {
    let mut world: World<Comp> = World::new();

    let entity = world.spawn(bundle1(POSITION, Comp::Position(1, 2)));

    let mut buffer: WorldBuffer<Comp> = WorldBuffer::new();
    buffer.insert(entity, bundle1(VELOCITY, Comp::Velocity(3, 4)));
    buffer.despawn(entity);
    world.apply_buffer(buffer);

    assert!(!world.has_component(entity, POSITION));
    assert!(!world.has_component(entity, VELOCITY));
    assert!(world.query(vec![POSITION], Vec::new()).is_empty());
    assert!(world.query(vec![VELOCITY], Vec::new()).is_empty());
}

#[test]
fn without_filter_tracks_removal() {
    let mut world: World<Comp> = World::new();

    let mut bundle = ComponentBundle::new();
    bundle.insert(POSITION, Comp::Position(1, 2));
    bundle.insert(VELOCITY, Comp::Velocity(3, 4));
    let entity = world.spawn(bundle);

    assert!(world.query(vec![POSITION], vec![VELOCITY]).is_empty());

    let hits = world.query(vec![POSITION], Vec::new());
    assert_eq!(hits.len(), 1);
    assert_eq!(
        world.get_component(hits[0], POSITION).unwrap(),
        &Comp::Position(1, 2)
    );

    world.remove(entity, &vec![VELOCITY]);

    let hits = world.query(vec![POSITION], vec![VELOCITY]);
    assert_eq!(hits.len(), 1);
    assert_eq!(
        world.get_component(hits[0], POSITION).unwrap(),
        &Comp::Position(1, 2)
    );
}

#[test]
fn sparse_set_net_presence() {
    let mut set: SparseSet<u32> = SparseSet::new();

    set.insert(3, 30);
    set.insert(5, 50);
    assert!(set.contains(3));
    assert!(set.contains(5));

    set.remove(3);
    assert!(!set.contains(3));
    assert!(set.contains(5));

    set.insert(3, 31);
    set.remove(5);
    set.insert(5, 51);
    assert!(set.contains(3));
    assert!(set.contains(5));
    assert_eq!(set.get(3), Some(&31));
    assert_eq!(set.get(5), Some(&51));
}

#[test]
fn sparse_set_remove_absent_is_noop() {
    let mut set: SparseSet<u32> = SparseSet::new();
    set.insert(2, 20);

    assert_eq!(set.remove(7), None);
    assert_eq!(set.len(), 1);
    assert_eq!(set.get(2), Some(&20));

    assert_eq!(set.remove(2), Some(20));
    assert_eq!(set.remove(2), None);
    assert!(set.is_empty());
}

#[test]
fn query_repeats_identically_without_edits() {
    let mut world: World<Comp> = World::new();
    let a = world.spawn(bundle1(POSITION, Comp::Position(1, 1)));
    let b = world.spawn(bundle1(POSITION, Comp::Position(2, 2)));

    let first = world.query(vec![POSITION], Vec::new());
    let second = world.query(vec![POSITION], Vec::new());

    assert_eq!(first, second);
    assert_eq!(first, vec![a, b]);
}

#[test]
fn migration_preserves_other_components() {
    let mut world: World<Comp> = World::new();
    let entity = world.spawn(bundle1(POSITION, Comp::Position(1, 2)));

    assert!(!world.has_component(entity, GAUGE));
    world.insert(entity, bundle1(GAUGE, Comp::Gauge(7)));

    assert!(world.has_component(entity, GAUGE));
    assert_eq!(world.get_component(entity, GAUGE), Some(&Comp::Gauge(7)));
    assert_eq!(
        world.get_component(entity, POSITION),
        Some(&Comp::Position(1, 2)),
    );
}

#[test]
fn buffered_resources_last_write_wins() {
    let mut world: World<Comp> = World::new();

    let mut buffer: WorldBuffer<Comp> = WorldBuffer::new();
    buffer.insert_resource(GAUGE, Comp::Gauge(1));
    buffer.insert_resource(GAUGE, Comp::Gauge(2));
    world.apply_buffer(buffer);

    assert_eq!(world.get_resource(GAUGE), Some(&Comp::Gauge(2)));

    let mut buffer: WorldBuffer<Comp> = WorldBuffer::new();
    buffer.remove_resource(GAUGE);
    world.apply_buffer(buffer);

    assert_eq!(world.get_resource(GAUGE), None);
}

#[test]
fn shared_signature_entities_share_order() {
    let mut world: World<Comp> = World::new();
    let a = world.spawn(bundle1(POSITION, Comp::Position(1, 0)));
    let b = world.spawn(bundle1(VELOCITY, Comp::Velocity(0, 1)));
    let c = world.spawn(bundle1(POSITION, Comp::Position(2, 0)));

    let hits = world.query(vec![POSITION], Vec::new());
    assert_eq!(hits, vec![a, c]);

    let hits = world.query(vec![VELOCITY], Vec::new());
    assert_eq!(hits, vec![b]);

    let hits = world.query(Vec::new(), Vec::new());
    assert_eq!(hits.len(), 3);
}

#[test]
fn archetype_replace_reports_missing() {
    let shape = bundle1(POSITION, Comp::Position(0, 0));
    let mut archetype: Archetype<Comp> = Archetype::from_bundle(&shape);
    archetype.insert(EntityId::new(0), bundle1(POSITION, Comp::Position(1, 2)));

    let missing_entity = archetype.replace(EntityId::new(9), POSITION, Comp::Position(9, 9));
    assert!(matches!(missing_entity, Err(ArchetypeError::MissingEntity(9))));

    let missing_storage = archetype.replace(EntityId::new(0), VELOCITY, Comp::Velocity(9, 9));
    assert!(matches!(
        missing_storage,
        Err(ArchetypeError::MissingStorage(VELOCITY))
    ));

    let replaced = archetype.replace(EntityId::new(0), POSITION, Comp::Position(5, 5));
    assert!(replaced.is_ok());
    assert_eq!(
        archetype.get_component(EntityId::new(0), POSITION),
        Some(&Comp::Position(5, 5))
    );
}

#[test]
fn query_normalize_and_compare() {
    let raw = Query::new(vec![2, 1, 2, 1]);
    let normal = raw.normalize();
    assert_eq!(normal.into_keys(), vec![1, 2]);

    let small = Query::new(vec![1]).normalize();
    let big = Query::new(vec![1, 2]).normalize();
    let other = Query::new(vec![3]).normalize();

    assert!(small.compare_to(&big).is_some());
    assert!(!small.compare_to(&big).is_exact());
    assert!(big.compare_to(&Query::new(vec![2, 1]).normalize()).is_exact());
    assert!(!other.compare_to(&big).is_some());
}

#[test]
fn archetype_insert_ignores_unowned_members() {
    let shape = bundle1(POSITION, Comp::Position(0, 0));
    let mut archetype: Archetype<Comp> = Archetype::from_bundle(&shape);
    archetype.insert(EntityId::new(0), bundle1(POSITION, Comp::Position(1, 2)));

    let mut mixed = ComponentBundle::new();
    mixed.insert(POSITION, Comp::Position(5, 6));
    mixed.insert(VELOCITY, Comp::Velocity(9, 9));
    archetype.insert(EntityId::new(0), mixed);

    assert_eq!(
        archetype.get_component(EntityId::new(0), POSITION),
        Some(&Comp::Position(5, 6))
    );
    assert!(!archetype.has_component(VELOCITY));
    assert_eq!(archetype.get_component(EntityId::new(0), VELOCITY), None);
}

#[test]
fn update_queue_replays_in_order() {
    let mut world: World<Comp> = World::new();
    let stale = world.spawn(bundle1(POSITION, Comp::Position(0, 0)));
    let kept = world.spawn(bundle1(POSITION, Comp::Position(1, 1)));

    let queue: Vec<WorldUpdate<Comp>> = vec![
        WorldUpdate::SpawnEntity(bundle1(POSITION, Comp::Position(7, 7))),
        WorldUpdate::ModifyEntity(
            stale,
            vec![ComponentChange::Insert(VELOCITY, Comp::Velocity(9, 9))],
        ),
        WorldUpdate::DespawnEntity(stale),
        WorldUpdate::ModifyEntity(
            kept,
            vec![
                ComponentChange::Insert(POSITION, Comp::Position(2, 2)),
                ComponentChange::Insert(POSITION, Comp::Position(3, 3)),
            ],
        ),
        WorldUpdate::InsertResource(GAUGE, Comp::Gauge(1)),
        WorldUpdate::InsertResource(GAUGE, Comp::Gauge(2)),
    ];
    WorldUpdate::process(&mut world, queue);

    assert!(!world.has_component(stale, POSITION));
    assert!(!world.has_component(stale, VELOCITY));
    assert_eq!(
        world.get_component(kept, POSITION),
        Some(&Comp::Position(3, 3))
    );
    assert_eq!(world.get_resource(GAUGE), Some(&Comp::Gauge(2)));

    let spawned = world.query(vec![POSITION], Vec::new());
    assert_eq!(spawned.len(), 2);
    assert_eq!(
        world.get_component(spawned[0], POSITION),
        Some(&Comp::Position(7, 7))
    );
    assert_eq!(spawned[1], kept);
}
