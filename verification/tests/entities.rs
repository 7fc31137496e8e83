use constellation::{Entities, Entity, EntityChangeSet, Handle, MINIMUM_FREE_INDICES};
use std::collections::HashSet;

#[test]
fn deconstruct_entity() {
    let entity = Entity::new(5, 10);
    assert!(entity.index() == 5);
    assert!(entity.generation() == 10);
}

#[test]
fn entities_new() {
    let mut em = Entities::new();
    em.transaction();
}

#[test]
fn allocate() {
    let mut em = Entities::new();
    em.allocate();
}

#[test]
fn allocated_entity_is_alive() {
    let mut em = Entities::new();
    let entity = em.allocate();
    assert!(em.is_alive(&entity));
}

#[test]
fn allocate_many_no_duplicates() {
    let mut em = Entities::new();
    let mut entities: HashSet<Entity> = HashSet::new();

    for _ in 0..10000 {
        let e = em.allocate();
        assert!(!entities.contains(&e));

        entities.insert(e);
    }
}

#[test]
fn allocate_many_no_duplicates_comitted() {
    let mut em = Entities::new();
    let mut entities: HashSet<Entity> = HashSet::new();

    for _ in 0..10000 {
        let e = em.allocate();
        assert!(!entities.contains(&e));

        entities.insert(e);
    }

    // merging no change sets commits the allocations
    em.merge(Vec::new());

    for _ in 0..10000 {
        let e = em.allocate();
        assert!(!entities.contains(&e));

        entities.insert(e);
    }
}

#[test]
fn create() {
    let mut em = Entities::new();
    let mut tx = em.transaction();

    tx.create();
}

#[test]
fn created_is_alive() {
    let mut em = Entities::new();
    let mut tx = em.transaction();

    let entity = tx.create();
    assert!(tx.is_alive(&entity));
}

#[test]
fn merge_allocates() {
    let mut em = Entities::new();

    let entity: Entity;
    let cs: EntityChangeSet;

    {
        let mut tx = em.transaction();
        entity = tx.create();
        cs = tx.to_change_set();
    }

    em.merge(vec![cs]);

    assert!(em.is_alive(&entity));
}

#[test]
fn merge_deletes() {
    let mut em = Entities::new();
    let mut entities: HashSet<Entity> = HashSet::new();

    for _ in 0..10000 {
        let e = em.allocate();
        assert!(!entities.contains(&e));

        entities.insert(e);
    }

    em.merge(Vec::new());

    let cs: EntityChangeSet;

    {
        let mut tx = em.transaction();

        for entity in entities.iter() {
            tx.destroy(*entity);
        }

        cs = tx.to_change_set();
    }

    for entity in entities.iter() {
        assert!(em.is_alive(&entity));
    }

    em.merge(vec![cs]);

    for entity in entities {
        assert!(!em.is_alive(&entity));
    }
}

#[test]
fn entity_packs_index_and_generation() {
    let e = Entity::new(0x00ab_cdef, 0x12);
    assert_eq!(e.index(), 0x00ab_cdef);
    assert_eq!(e.generation(), 0x12);
    // indices are cut to 24 bits
    let wrapped = Entity::new(0x0100_0003, 7);
    assert_eq!(wrapped.index(), 3);
    assert_eq!(wrapped.generation(), 7);
    assert_eq!(Entity::new(e.index(), e.generation()), e);
}

#[test]
fn entity_to_string() {
    let e = Entity::new(42, 3);
    assert_eq!(e.to_string(), "(index: 42, gen: 3)");
}

#[test]
fn by_index_is_alive() {
    let mut em = Entities::new();
    for _ in 0..5 {
        em.allocate();
    }
    for i in 0..5u32 {
        let e = em.by_index(i);
        assert_eq!(e.index(), i);
        assert_eq!(e.generation(), 0);
        assert!(em.is_alive(&e));
    }
    assert!(!em.is_alive(&Entity::new(5, 0)));
    assert_eq!(em.count(), 5);
}

#[test]
fn merge_bumps_generation_and_reuses_index() {
    let mut em = Entities::new();
    let mut all = Vec::new();
    for _ in 0..(MINIMUM_FREE_INDICES + 2) {
        all.push(em.allocate());
    }
    em.merge(Vec::new());
    let cs = EntityChangeSet { deleted: all.clone() };
    em.merge(vec![cs]);
    for e in &all {
        assert!(!em.is_alive(e));
        assert_eq!(em.by_index(e.index()).generation(), 1);
    }
    // more than MINIMUM_FREE_INDICES indices wait: the oldest one is reused
    let reused = em.allocate();
    assert_eq!(reused.index(), 0);
    assert_eq!(reused.generation(), 1);
    assert!(em.is_alive(&reused));
    assert!(!em.is_alive(&all[0]));
    assert_eq!(em.count(), MINIMUM_FREE_INDICES + 2);
}

#[test]
fn few_free_indices_are_not_reused() {
    let mut em = Entities::new();
    let a = em.allocate();
    em.merge(Vec::new());
    em.merge(vec![EntityChangeSet { deleted: vec![a] }]);
    let b = em.allocate();
    assert_eq!(b.index(), 1);
    assert_eq!(b.generation(), 0);
}

#[test]
fn check_merge_rejects_unallocated_and_overflow() {
    let mut em = Entities::new();
    let a = em.allocate();
    assert!(em.check_merge(&vec![EntityChangeSet { deleted: vec![a] }]));
    assert!(!em.check_merge(&vec![EntityChangeSet { deleted: vec![Entity::new(9, 0)] }]));
    let many = vec![a; 256];
    assert!(!em.check_merge(&vec![EntityChangeSet { deleted: many }]));
    let most = vec![a; 255];
    assert!(em.check_merge(&vec![EntityChangeSet { deleted: most }]));
}

#[test]
fn transaction_destroy_defers_deletion() {
    let mut em = Entities::new();
    let e = em.allocate();
    em.merge(Vec::new());
    let cs = {
        let mut tx = em.transaction();
        tx.destroy(e);
        assert!(tx.is_alive(&e));
        assert_eq!(tx.by_index(e.index()), e);
        tx.to_change_set()
    };
    assert_eq!(cs.deleted, vec![e]);
    assert!(em.is_alive(&e));
    em.merge(vec![cs]);
    assert!(!em.is_alive(&e));
}

#[test]
fn allocations_with_reuse_are_distinct() {
    let mut em = Entities::new();
    let mut first = Vec::new();
    for _ in 0..2000 {
        first.push(em.allocate());
    }
    em.merge(Vec::new());
    em.merge(vec![EntityChangeSet { deleted: first[..1500].to_vec() }]);
    let mut seen = HashSet::new();
    for e in &first[1500..] {
        seen.insert(*e);
    }
    for _ in 0..1000 {
        let e = em.allocate();
        assert!(em.is_alive(&e));
        assert!(seen.insert(e));
    }
    // a deleted handle stays dead once its index is reused
    assert!(!em.is_alive(&first[0]));
    // 476 indices were reused before the queue fell to MINIMUM_FREE_INDICES
    assert_eq!(em.count(), 2000 + 1000 - (1500 - MINIMUM_FREE_INDICES));
}

#[test]
fn creations_are_not_observed_by_other_transactions() {
    let mut em = Entities::new();
    let (e, cs1) = {
        let mut tx1 = em.transaction();
        let e = tx1.create();
        assert!(tx1.is_alive(&e));
        (e, tx1.to_change_set())
    };
    let cs2 = {
        let tx2 = em.transaction();
        assert!(!tx2.is_alive(&e));
        tx2.to_change_set()
    };
    em.merge(vec![cs1, cs2]);
    let tx3 = em.transaction();
    assert!(tx3.is_alive(&e));
}

#[test]
fn allocations_outside_transactions_are_observed() {
    let mut em = Entities::new();
    let e = em.allocate();
    assert!(em.is_alive(&e));
    let tx = em.transaction();
    assert!(tx.is_alive(&e));
}

#[test]
fn reused_creations_are_not_observed_by_other_transactions() {
    let mut em = Entities::new();
    let mut all = Vec::new();
    for _ in 0..(MINIMUM_FREE_INDICES + 2) {
        all.push(em.allocate());
    }
    em.merge(Vec::new());
    em.merge(vec![EntityChangeSet { deleted: all.clone() }]);
    let (e, cs1) = {
        let mut tx1 = em.transaction();
        let e = tx1.create();
        // the oldest waiting index is reused
        assert_eq!(e.index(), 0);
        assert_eq!(e.generation(), 1);
        assert!(tx1.is_alive(&e));
        (e, tx1.to_change_set())
    };
    let cs2 = {
        let tx2 = em.transaction();
        assert!(!tx2.is_alive(&e));
        tx2.to_change_set()
    };
    em.merge(vec![cs1, cs2]);
    let tx3 = em.transaction();
    assert!(tx3.is_alive(&e));
}
