use constellation::{
    ComponentResourceApi, Entities, Entity, EntityIterBuilder, EntityResource, Handle,
    MapResource, Resource, VecResource, ENTITY_DATA,
};

#[test]
fn map_deconstruct() {
    let map = &mut MapResource::<u32>::new();
    let entity = Entity::new(1, 0);

    map.add(entity, 5u32);
    assert_eq!(*map.get(entity).unwrap(), 5u32);

    let (bitset, api) = <MapResource<u32> as EntityResource>::deconstruct(&map);
    assert!(bitset.contains(entity.index()));
    assert_eq!(*api.get(entity).unwrap(), 5u32);
}

#[test]
fn map_deconstruct_mut() {
    let map = &mut MapResource::<u32>::new();
    let entity = Entity::new(1, 0);

    map.add(entity, 5u32);
    assert_eq!(*map.get(entity).unwrap(), 5u32);

    let (bitset, api) = <MapResource<u32> as EntityResource>::deconstruct_mut(map);
    assert!(bitset.contains(entity.index()));
    assert_eq!(*api.get(entity).unwrap(), 5u32);
    *api.get_mut(entity).unwrap() = 6u32;
    assert_eq!(*api.get(entity).unwrap(), 6u32);
}

#[test]
fn vec_iter() {
    let a = Entity::new(1, 0);
    let b = Entity::new(2, 0);
    let c = Entity::new(4, 0);

    let vec = &mut VecResource::<u32>::new();
    vec.add(a, 1);
    vec.add(b, 2);
    vec.add(c, 3);

    let mut iter = vec.iter();
    assert_eq!(iter.next(), Some((a, &1u32)));
    assert_eq!(iter.next(), Some((b, &2u32)));
    assert_eq!(iter.next(), Some((c, &3u32)));
}

#[test]
fn vec_iter_mut() {
    let a = Entity::new(1, 0);
    let b = Entity::new(2, 0);
    let c = Entity::new(4, 0);

    let vec = &mut VecResource::<u32>::new();
    vec.add(a, 1);
    vec.add(b, 2);
    vec.add(c, 3);

    let mut iter = vec.iter_mut();
    assert_eq!(iter.next(), Some((a, &mut 1u32)));
    assert_eq!(iter.next(), Some((b, &mut 2u32)));
    assert_eq!(iter.next(), Some((c, &mut 3u32)));
}

#[test]
fn run_iter_entities_r1w1() {
    let mut em = Entities::new();
    let mut v = VecResource::<u32>::new();
    let mut m = MapResource::<u32>::new();
    let mut r = VecResource::<u64>::new();

    let (a, b, c) = {
        let mut ctx = em.transaction();
        let a = ctx.create();
        let b = ctx.create();
        let c = ctx.create();
        (a, b, c)
    };

    v.add(a, 1);
    v.add(b, 2);
    v.add(c, 3);

    m.add(a, 1);
    m.add(c, 4);

    r.add(a, 0);
    r.add(b, 0);
    r.add(c, 0);

    em.merge(Vec::new());

    EntityIterBuilder::new(&em).r2w1(&m, &v, &mut r, |iter, m, v, o| {
        let mut iter = iter;
        while let Some(e) = iter.next() {
            let x = o.get_unchecked_mut(e);
            *x = (*v.get(e).unwrap() + *m.get(e).unwrap()) as u64;
        }
    });

    let mut checked = 0;

    EntityIterBuilder::new(&em).r3w0(&m, &v, &r, |iter, m, v, o| {
        let mut iter = iter;
        while let Some(e) = iter.next() {
            assert_eq!(*o.get(e).unwrap(), (m.get(e).unwrap() + v.get(e).unwrap()) as u64);
            checked = checked + 1;
        }
    });

    assert_eq!(checked, 2);
}

#[test]
fn vec_add_get_remove() {
    let mut vec = VecResource::<u32>::new();
    let e = Entity::new(3, 2);
    vec.add(e, 7);
    assert_eq!(vec.get(e), Some(&7));
    // a handle of the same index but another generation finds nothing
    assert_eq!(vec.get(Entity::new(3, 1)), None);
    assert_eq!(*vec.get_unchecked(Entity::new(3, 1)), 7);
    assert_eq!(vec.remove(Entity::new(3, 1)), None);
    assert_eq!(vec.remove(e), Some(7));
    assert_eq!(vec.get(e), None);
    assert_eq!(vec.remove(e), None);
    let (bits, _) = vec.deconstruct();
    assert!(!bits.contains(3));
}

#[test]
fn vec_filter_tracks_occupied_indices() {
    let mut vec = VecResource::<u32>::new();
    vec.add(Entity::new(0, 0), 1);
    vec.add(Entity::new(5, 0), 2);
    let (bits, _) = vec.deconstruct();
    assert!(bits.contains(0));
    assert!(bits.contains(5));
    assert!(!bits.contains(1));
    let mut it = vec.iter();
    assert_eq!(it.size_hint(), (0, Some(6)));
    assert_eq!(it.next(), Some((Entity::new(0, 0), &1)));
    assert_eq!(it.next(), Some((Entity::new(5, 0), &2)));
    assert_eq!(it.next(), None);
}

#[test]
fn vec_clear_entity_data() {
    let mut vec = VecResource::<u32>::new();
    let a = Entity::new(0, 0);
    let b = Entity::new(1, 0);
    vec.add(a, 1);
    vec.add(b, 2);
    vec.clear_entity_data(&[a]);
    assert_eq!(vec.get(a), None);
    assert_eq!(vec.get(b), Some(&2));
}

#[test]
fn map_add_remove_and_clear() {
    let mut map = MapResource::<u32>::new();
    let a = Entity::new(1, 0);
    let b = Entity::new(2, 0);
    map.add(a, 10);
    map.add(b, 20);
    assert_eq!(map.remove(a), Some(10));
    assert_eq!(map.remove(a), None);
    assert_eq!(map.get(a), None);
    let (bits, _) = map.deconstruct();
    assert!(!bits.contains(1));
    assert!(bits.contains(2));
    map.clear_entity_data(&[b]);
    assert_eq!(map.get(b), None);
    assert_eq!(map.iter().len(), 0);
}

#[test]
fn map_iter_lists_every_entry() {
    let mut map = MapResource::<u32>::new();
    map.add(Entity::new(1, 0), 10);
    map.add(Entity::new(2, 3), 20);
    let mut entries: Vec<(Entity, u32)> = map.iter().into_iter().map(|(e, v)| (e, *v)).collect();
    entries.sort_by_key(|(e, _)| e.index());
    assert_eq!(entries, vec![(Entity::new(1, 0), 10), (Entity::new(2, 3), 20)]);
    let mut values: Vec<u32> = map.iter_components().into_iter().copied().collect();
    values.sort();
    assert_eq!(values, vec![10, 20]);
    for v in map.iter_components_mut() {
        *v += 1;
    }
    assert_eq!(map.get(Entity::new(2, 3)), Some(&21));
}

#[test]
fn resources_build_with_entity_disposal() {
    let b = VecResource::<u32>::new().to_builder();
    assert!(b.desc.contains(ENTITY_DATA));
    let b = MapResource::<u32>::new().to_builder();
    assert!(b.desc.contains(ENTITY_DATA));
}

#[test]
fn join_yields_common_entities_in_order() {
    let mut em = Entities::new();
    let es: Vec<Entity> = (0..4).map(|_| em.allocate()).collect();
    let mut a = VecResource::<u32>::new();
    let mut b = MapResource::<u32>::new();
    for e in &es {
        a.add(*e, 1);
    }
    b.add(es[3], 2);
    b.add(es[1], 2);
    let mut seen = Vec::new();
    EntityIterBuilder::new(&em).r1w1(&a, &mut b, |iter, _, _| {
        let mut iter = iter;
        assert_eq!(iter.size_hint(), (0, None));
        while let Some(e) = iter.next() {
            seen.push(e);
        }
    });
    assert_eq!(seen, vec![es[1], es[3]]);
}

#[test]
fn vec_iter_mut_writes_through() {
    let a = Entity::new(1, 0);
    let c = Entity::new(4, 2);
    let mut vec = VecResource::<u32>::new();
    vec.add(a, 1);
    vec.add(c, 3);
    {
        let mut iter = vec.iter_mut();
        while let Some((_, x)) = iter.next() {
            *x = *x * 10;
        }
        assert!(iter.next().is_none());
    }
    assert_eq!(vec.get(a), Some(&10));
    assert_eq!(vec.get(c), Some(&30));
    assert_eq!(vec.get(Entity::new(2, 0)), None);
}

#[test]
fn map_iter_mut_writes_through() {
    let a = Entity::new(1, 0);
    let b = Entity::new(7, 1);
    let mut map = MapResource::<u32>::new();
    map.add(a, 1);
    map.add(b, 2);
    let mut entries = map.iter_mut();
    entries.sort_by_key(|(e, _)| e.index());
    assert_eq!(entries.len(), 2);
    for (e, x) in entries {
        *x = *x + e.index();
    }
    assert_eq!(map.get(a), Some(&2));
    assert_eq!(map.get(b), Some(&9));
}
