use constellation::{
    ComponentResourceApi, Entities, Entity, EntityChangeSet, EntityIterBuilder, Handle, Index,
    QueuedSystem, Resource, ResourceBuilder, ResourceDescription, SystemCommandBuffer,
    SystemScope, VecResource, World, ENTITY_DATA,
};
use std::collections::HashSet;

struct TestResource {
    pub x: u8,
}

struct TestResource2 {}
struct TestResource3 {}

// Keys that stand for the types of the test resources.
const TEST_RESOURCE: u64 = 1;
const TEST_RESOURCE2: u64 = 2;
const TEST_RESOURCE3: u64 = 3;
const POSITIONS: u64 = 10;

enum Stored {
    One(TestResource),
    Two(TestResource2),
    Three(TestResource3),
}

impl Resource for Stored {
    fn clear_entity_data(&mut self, _entities: &[Entity]) {}
}

fn plain() -> ResourceDescription {
    ResourceDescription::empty()
}

fn ids(batch: &Vec<QueuedSystem<()>>) -> Vec<u32> {
    batch.iter().map(|s| s.id()).collect()
}

#[test]
fn create_world() {
    World::<Stored>::new();
}

#[test]
fn register_resource() {
    let mut world = World::new();
    world.register(TEST_RESOURCE, plain(), Stored::One(TestResource { x: 1 }));
}

#[test]
fn register_resources_unique_id() {
    let mut world = World::new();
    let mut ids: HashSet<u8> = HashSet::new();

    let id = world.register(TEST_RESOURCE, plain(), Stored::One(TestResource { x: 1 }));
    assert!(!ids.contains(&id));
    ids.insert(id);

    let id = world.register(TEST_RESOURCE2, plain(), Stored::Two(TestResource2 {}));
    assert!(!ids.contains(&id));
    ids.insert(id);

    let id = world.register(TEST_RESOURCE3, plain(), Stored::Three(TestResource3 {}));
    assert!(!ids.contains(&id));
    ids.insert(id);
}

#[test]
fn get_resource() {
    let mut world = World::new();
    world.register(TEST_RESOURCE, plain(), Stored::One(TestResource { x: 1 }));

    let (_, test) = world.get_resource(TEST_RESOURCE).unwrap();
    match test {
        Stored::One(t) => assert_eq!(t.x, 1),
        _ => panic!("wrong resource"),
    }
}

#[test]
fn get_resource_mut() {
    let mut world = World::new();
    world.register(TEST_RESOURCE, plain(), Stored::One(TestResource { x: 1 }));

    let (_, test) = world.get_resource_mut(TEST_RESOURCE).unwrap();
    match test {
        Stored::One(t) => {
            assert_eq!(t.x, 1);
            t.x = 2;
        }
        _ => panic!("wrong resource"),
    }
    match world.get_resource(TEST_RESOURCE).unwrap().1 {
        Stored::One(t) => assert_eq!(t.x, 2),
        _ => panic!("wrong resource"),
    }
}

type TestSystem = Box<dyn Fn(&mut TestResource)>;

#[test]
fn run_system_exclusive_write_parallel() {
    for _ in 0..1000 {
        let mut world = World::new();
        world.register(TEST_RESOURCE, plain(), Stored::One(TestResource { x: 1 }));
        world.register(TEST_RESOURCE2, plain(), Stored::Two(TestResource2 {}));

        let mut buffer = SystemCommandBuffer::<TestSystem>::new();
        let (a, b, c, d) = buffer.queue_systems(|scope| {
            let a = scope.add_system(vec![TEST_RESOURCE], vec![], Box::new(|r: &mut TestResource| {
                assert_eq!(r.x, 1);
            }));
            let b = scope.add_system(vec![TEST_RESOURCE], vec![], Box::new(|r: &mut TestResource| {
                assert_eq!(r.x, 1);
            }));
            let c = scope.add_system(
                vec![TEST_RESOURCE2],
                vec![TEST_RESOURCE],
                Box::new(|w: &mut TestResource| {
                    assert_eq!(w.x, 1);
                    w.x = 2;
                }),
            );
            let d = scope.add_system(vec![TEST_RESOURCE], vec![], Box::new(|r: &mut TestResource| {
                assert_eq!(r.x, 2);
            }));
            (a, b, c, d)
        });

        assert_eq!(buffer.batches().len(), 3);
        assert_eq!(buffer.batches()[0].len(), 2);
        assert_eq!(buffer.batches()[0][0].id(), a);
        assert_eq!(buffer.batches()[0][1].id(), b);
        assert_eq!(buffer.batches()[1].len(), 1);
        assert_eq!(buffer.batches()[1][0].id(), c);
        assert_eq!(buffer.batches()[2].len(), 1);
        assert_eq!(buffer.batches()[2][0].id(), d);

        // run the batches in order, committing after each
        for batch in buffer.batches_mut().iter_mut() {
            for system in batch.iter_mut() {
                match world.get_resource_mut(TEST_RESOURCE).unwrap().1 {
                    Stored::One(t) => (system.system())(t),
                    _ => panic!("wrong resource"),
                }
            }
            assert!(world.commit(Vec::new()));
        }
        match world.get_resource(TEST_RESOURCE).unwrap().1 {
            Stored::One(t) => assert_eq!(t.x, 2),
            _ => panic!("wrong resource"),
        }
    }
}

#[test]
fn system_batch_all_read_distinct() {
    let mut buffer = SystemCommandBuffer::<()>::new();

    buffer.queue_systems(|scope| {
        scope.add_system(vec![TEST_RESOURCE], vec![], ());
        scope.add_system(vec![TEST_RESOURCE2], vec![], ());
        scope.add_system(vec![TEST_RESOURCE3], vec![], ());
    });

    assert_eq!(buffer.batches().len(), 1);
    assert_eq!(buffer.batches()[0].len(), 3);
}

#[test]
fn system_batch_all_read() {
    let mut buffer = SystemCommandBuffer::<()>::new();

    buffer.queue_systems(|scope| {
        scope.add_system(vec![TEST_RESOURCE], vec![], ());
        scope.add_system(vec![TEST_RESOURCE], vec![], ());
        scope.add_system(vec![TEST_RESOURCE2], vec![], ());
    });

    assert_eq!(buffer.batches().len(), 1);
    assert_eq!(buffer.batches()[0].len(), 3);
}

#[test]
fn system_batch_all_write_distinct() {
    let mut buffer = SystemCommandBuffer::<()>::new();

    buffer.queue_systems(|scope| {
        scope.add_system(vec![], vec![TEST_RESOURCE], ());
        scope.add_system(vec![], vec![TEST_RESOURCE2], ());
        scope.add_system(vec![], vec![TEST_RESOURCE3], ());
    });

    assert_eq!(buffer.batches().len(), 1);
    assert_eq!(buffer.batches()[0].len(), 3);
    assert_eq!(buffer.batches()[0][0].id(), 0);
    assert_eq!(buffer.batches()[0][1].id(), 1);
    assert_eq!(buffer.batches()[0][2].id(), 2);
}

#[test]
fn system_batch_all_write() {
    let mut buffer = SystemCommandBuffer::<()>::new();

    buffer.queue_systems(|scope| {
        scope.add_system(vec![], vec![TEST_RESOURCE], ());
        scope.add_system(vec![], vec![TEST_RESOURCE2], ());
        scope.add_system(vec![], vec![TEST_RESOURCE, TEST_RESOURCE2], ());
    });

    assert_eq!(buffer.batches().len(), 2);
    assert_eq!(buffer.batches()[0].len(), 2);
    assert_eq!(buffer.batches()[0][0].id(), 0);
    assert_eq!(buffer.batches()[0][1].id(), 1);
    assert_eq!(buffer.batches()[1].len(), 1);
    assert_eq!(buffer.batches()[1][0].id(), 2);
}

#[test]
fn system_batch_all_write_interleaved() {
    let mut buffer = SystemCommandBuffer::<()>::new();

    buffer.queue_systems(|scope| {
        scope.add_system(vec![], vec![TEST_RESOURCE], ());
        scope.add_system(vec![], vec![TEST_RESOURCE, TEST_RESOURCE2], ());
        scope.add_system(vec![], vec![TEST_RESOURCE2], ());
    });

    assert_eq!(buffer.batches().len(), 3);
    assert_eq!(buffer.batches()[0].len(), 1);
    assert_eq!(buffer.batches()[0][0].id(), 0);
    assert_eq!(buffer.batches()[1].len(), 1);
    assert_eq!(buffer.batches()[1][0].id(), 1);
    assert_eq!(buffer.batches()[2].len(), 1);
    assert_eq!(buffer.batches()[2][0].id(), 2);
}

#[test]
fn system_batch_mixed() {
    let mut buffer = SystemCommandBuffer::<()>::new();

    buffer.queue_systems(|scope| {
        scope.add_system(vec![TEST_RESOURCE], vec![], ());
        scope.add_system(vec![TEST_RESOURCE], vec![TEST_RESOURCE2], ());
        scope.add_system(vec![TEST_RESOURCE], vec![], ());
        scope.add_system(vec![TEST_RESOURCE, TEST_RESOURCE2], vec![], ());
        scope.add_system(vec![TEST_RESOURCE], vec![], ());
        scope.add_system(vec![], vec![TEST_RESOURCE], ());
    });

    assert_eq!(buffer.batches().len(), 3);
    assert_eq!(buffer.batches()[0].len(), 3);
    assert_eq!(buffer.batches()[0][0].id(), 0);
    assert_eq!(buffer.batches()[0][1].id(), 1);
    assert_eq!(buffer.batches()[0][2].id(), 2);
    assert_eq!(buffer.batches()[1].len(), 2);
    assert_eq!(buffer.batches()[1][0].id(), 3);
    assert_eq!(buffer.batches()[1][1].id(), 4);
    assert_eq!(buffer.batches()[2].len(), 1);
    assert_eq!(buffer.batches()[2][0].id(), 5);
}

#[test]
fn queue_scope_appends_batches() {
    let mut buffer = SystemCommandBuffer::<&str>::new();
    let mut scope = SystemScope::new();
    assert_eq!(scope.add_system(vec![TEST_RESOURCE], vec![], "a"), 0);
    assert_eq!(scope.add_system(vec![], vec![TEST_RESOURCE], "b"), 1);
    buffer.queue_scope(scope);
    let mut scope = SystemScope::new();
    assert_eq!(scope.add_system(vec![], vec![], "c"), 0);
    buffer.queue_scope(scope);
    let batches = buffer.batches();
    assert_eq!(batches.len(), 3);
    assert_eq!(*batches[0][0].system(), "a");
    assert_eq!(*batches[1][0].system(), "b");
    assert_eq!(*batches[2][0].system(), "c");
    let (reads, writes) = batches[1][0].resource_access();
    assert!(reads.contains(&TEST_RESOURCE));
    assert!(writes.contains(&TEST_RESOURCE));
}

#[test]
fn register_marks_entity_resources() {
    let mut world: World<u32> = World::new();
    let b = ResourceBuilder::new(0u32).activate_entity_disposal();
    assert!(b.desc.contains(ENTITY_DATA));
    world.register(7, b.desc, b.resource);
    world.register(8, plain(), 1);
    assert_eq!(world.entity_resources(), &vec![7]);
    // registering again under a key replaces the resource but hands out the
    // id of the number of registered resources
    assert_eq!(world.register(8, plain(), 2), 2);
    assert_eq!(world.get_resource(8), Some((2, &2)));
    assert_eq!(world.get_resource(9), None);
}

#[test]
fn world_entities_commit() {
    let mut world: World<VecResource<u32>> = World::new();
    let e = world.entities_mut().allocate();
    assert!(world.entities().is_alive(&e));
    let em: &mut Entities = world.entities_mut();
    em.merge(Vec::new());
    assert_eq!(world.entities().count(), 1);
}

/// The systems of `clean_deleted_entities` conflict pairwise, so each runs
/// in a batch of its own and entity changes are committed after each.
#[test]
fn clean_deleted_entities() {
    let mut world = World::<VecResource<u32>>::new();
    let builder = VecResource::<u32>::new().to_builder();
    world.register(POSITIONS, builder.desc, builder.resource);

    // creating entities
    let (created, change) = {
        let (entities, _) = world.split_mut();
        let mut tx = entities.transaction();
        let mut created = Vec::new();
        for _ in 0..1000u32 {
            created.push(tx.create());
        }
        (created, tx.to_change_set())
    };
    {
        let (_, resource) = world.get_resource_mut(POSITIONS).unwrap();
        for (i, e) in created.iter().enumerate() {
            resource.add(*e, i as u32);
        }
    }
    assert!(world.commit(vec![change]));

    // verifying entity creation
    {
        let (_, resource) = world.get_resource(POSITIONS).unwrap();
        let mut seen = 0;
        EntityIterBuilder::new(world.entities()).r1w0(resource, |iter, r| {
            let mut iter = iter;
            while let Some(e) = iter.next() {
                assert_eq!(e.index(), *r.get(e).unwrap());
                seen = seen + 1;
            }
        });
        assert_eq!(seen, 1000);
    }

    // deleting entities
    let mut indices = Vec::<Index>::new();
    {
        let (_, resource) = world.get_resource(POSITIONS).unwrap();
        EntityIterBuilder::new(world.entities()).r1w0(resource, |iter, _| {
            let mut iter = iter;
            while let Some(e) = iter.next() {
                indices.push(e.index());
            }
        });
    }
    let change = {
        let (entities, _) = world.split_mut();
        let mut tx = entities.transaction();
        for i in indices {
            let entity = tx.by_index(i);
            tx.destroy(entity);
        }
        tx.to_change_set()
    };
    assert!(world.commit(vec![change]));

    // verifying entity deletion
    let (_, resource) = world.get_resource(POSITIONS).unwrap();
    let mut remaining = 0;
    EntityIterBuilder::new(world.entities()).r1w0(resource, |iter, _| {
        let mut iter = iter;
        while let Some(_) = iter.next() {
            remaining = remaining + 1;
        }
    });
    assert_eq!(remaining, 0);
    for e in created {
        assert!(!world.entities().is_alive(&e));
        assert_eq!(resource.get(e), None);
    }
}

#[test]
fn commit_refuses_unallocated_deletion() {
    let mut world = World::<VecResource<u32>>::new();
    let builder = VecResource::<u32>::new().to_builder();
    world.register(7, builder.desc, builder.resource);
    let e = Entity::new(0, 0);
    world.get_resource_mut(7).unwrap().1.add(e, 5);
    // index 0 was never handed out by the allocator
    assert!(!world.commit(vec![EntityChangeSet { deleted: vec![e] }]));
    assert_eq!(world.get_resource(7).unwrap().1.get(e), Some(&5));
    assert_eq!(world.entities().count(), 0);
}

#[test]
fn commit_keeps_data_of_plain_resources() {
    let mut world = World::<VecResource<u32>>::new();
    world.register(1, ResourceDescription::empty(), VecResource::<u32>::new());
    let e = world.entities_mut().allocate();
    world.get_resource_mut(1).unwrap().1.add(e, 9);
    assert!(world.commit(vec![EntityChangeSet { deleted: vec![e] }]));
    assert!(!world.entities().is_alive(&e));
    assert_eq!(world.get_resource(1).unwrap().1.get(e), Some(&9));
}
