use hardeen_core::{
    DataField, Handle, HandledVec, HandledVecError, MarkedHandle, StdVec,
};

#[derive(PartialEq, Debug)]
struct MockDataField {
    data: u32,
}

type MockVec = HandledVec<MarkedHandle<MockDataField>, StdVec<MockDataField>>;

#[test]
fn add_entry() {
    let mut handled_vec1: MockVec = HandledVec::new();

    handled_vec1.add_entry(MockDataField { data: 1 });
    handled_vec1.add_entry(MockDataField { data: 2 });
    handled_vec1.add_entry(MockDataField { data: 3 });

    assert_eq!(handled_vec1.get_entity_count(), 3);
    assert_eq!(
        handled_vec1.get_field(1),
        Some(&DataField::new(Some(MockDataField { data: 2 }), 1, true))
    );
}

#[test]
fn remove_entry() {
    let mut handled_vec: MockVec = HandledVec::new();

    handled_vec.add_entry(MockDataField { data: 1 });
    let h = handled_vec.add_entry(MockDataField { data: 2 });
    handled_vec.add_entry(MockDataField { data: 3 });

    assert_eq!(handled_vec.get_entity_count(), 3);
    assert_eq!(
        handled_vec.get_field(1),
        Some(&DataField::new(Some(MockDataField { data: 2 }), 1, true))
    );

    assert_eq!(handled_vec.remove_entry(h), Ok(()));

    assert_eq!(handled_vec.get_entity_count(), 2);
    assert_eq!(handled_vec.get_field(1), Some(&DataField::new(None, 1, false)));

    assert_eq!(
        handled_vec.get_field(0),
        Some(&DataField::new(Some(MockDataField { data: 1 }), 1, true))
    );

    assert_eq!(
        handled_vec.get_field(2),
        Some(&DataField::new(Some(MockDataField { data: 3 }), 1, true))
    );

    assert_eq!(handled_vec.get_free_handles(), &vec![MarkedHandle::new(1, 1)]);

    handled_vec.add_entry(MockDataField { data: 4 });

    assert_eq!(handled_vec.get_entity_count(), 3);
    assert_eq!(handled_vec.get_free_handles(), &vec![]);
    assert_eq!(
        handled_vec.get_field(1),
        Some(&DataField::new(Some(MockDataField { data: 4 }), 2, true))
    );
}

#[test]
#[should_panic]
fn remove_entry_error() {
    let mut handled_vec: MockVec = HandledVec::new();

    handled_vec.remove_entry(MarkedHandle::new(1, 1)).unwrap();
}

#[test]
fn get_entry() {
    let mut handled_vec: MockVec = HandledVec::new();

    handled_vec.add_entry(MockDataField { data: 1 });
    let h2 = handled_vec.add_entry(MockDataField { data: 2 });
    handled_vec.add_entry(MockDataField { data: 3 });

    let invalid_handle = MarkedHandle::new(2, 2);

    let entry = handled_vec.get(&h2).unwrap();

    assert_eq!(entry, &MockDataField { data: 2 });

    assert_eq!(handled_vec.get(&invalid_handle), Err(HandledVecError::GenerationMismatch));
}

#[test]
fn generations_start_at_one() {
    let mut arena: MockVec = HandledVec::new();
    let first = arena.add_entry(MockDataField { data: 1 });
    assert_eq!(first.get(), (0, 1));
    let unset: MarkedHandle<MockDataField> = MarkedHandle::new(0, 0);
    assert_eq!(arena.get(&unset), Err(HandledVecError::GenerationMismatch));
}

#[test]
fn reuse_invalidates_the_earlier_handle() {
    let mut arena: MockVec = HandledVec::new();
    arena.add_entry(MockDataField { data: 0 });
    let earlier = arena.add_entry(MockDataField { data: 1 });
    assert_eq!(arena.remove_entry(earlier), Ok(()));
    assert_eq!(arena.get(&earlier), Err(HandledVecError::IndexUnoccupied));
    let later = arena.add_entry(MockDataField { data: 2 });
    assert_eq!(later.get_index(), earlier.get_index());
    assert_eq!(later.get_generation(), earlier.get_generation() + 1);
    assert_eq!(arena.get(&earlier), Err(HandledVecError::GenerationMismatch));
    assert_eq!(arena.get(&later), Ok(&MockDataField { data: 2 }));
}

#[test]
fn freed_and_never_allocated_are_told_apart() {
    let mut arena: MockVec = HandledVec::new();
    let handle = arena.add_entry(MockDataField { data: 1 });
    arena.remove_entry(handle).unwrap();
    assert_eq!(arena.get(&handle), Err(HandledVecError::IndexUnoccupied));
    assert_eq!(arena.get(&MarkedHandle::new(5, 1)), Err(HandledVecError::IndexDoesNotExist));
    assert_eq!(arena.get_mut(&handle).err(), Some(HandledVecError::CannotBorrowAsMutable));
    assert_eq!(
        arena.get_mut(&MarkedHandle::new(5, 1)).err(),
        Some(HandledVecError::IndexDoesNotExist)
    );
    assert_eq!(
        arena.get_mut(&MarkedHandle::new(0, 9)).err(),
        Some(HandledVecError::GenerationMismatch)
    );
}

#[test]
fn remove_errors_and_repeated_removal() {
    let mut arena: MockVec = HandledVec::new();
    let handle = arena.add_entry(MockDataField { data: 1 });
    assert_eq!(
        arena.remove_entry(MarkedHandle::new(0, 2)),
        Err(HandledVecError::GenerationMismatch)
    );
    assert_eq!(
        arena.remove_entry(MarkedHandle::new(1, 1)),
        Err(HandledVecError::IndexDoesNotExist)
    );
    assert_eq!(arena.remove_entry(handle), Ok(()));
    assert_eq!(arena.remove_entry(handle), Ok(()));
    assert_eq!(arena.get_entity_count(), 0);
    assert_eq!(arena.get_free_handles().len(), 1);
    let again = arena.add_entry(MockDataField { data: 2 });
    let other = arena.add_entry(MockDataField { data: 3 });
    assert_eq!(again.get(), (0, 2));
    assert_eq!(other.get(), (1, 1));
}

#[test]
fn update_replaces_the_payload() {
    let mut arena: MockVec = HandledVec::new();
    let handle = arena.add_entry(MockDataField { data: 1 });
    assert_eq!(arena.update(&handle, MockDataField { data: 5 }), Ok(()));
    assert_eq!(arena.get(&handle), Ok(&MockDataField { data: 5 }));
    assert_eq!(
        arena.update(&MarkedHandle::new(0, 2), MockDataField { data: 6 }),
        Err(HandledVecError::GenerationMismatch)
    );
    assert_eq!(
        arena.update(&MarkedHandle::new(3, 1), MockDataField { data: 6 }),
        Err(HandledVecError::IndexDoesNotExist)
    );
    arena.remove_entry(handle).unwrap();
    assert_eq!(
        arena.update(&handle, MockDataField { data: 7 }),
        Err(HandledVecError::IndexUnoccupied)
    );
    assert_eq!(arena.get_entity_count(), 0);
}

#[test]
fn get_mut_writes_through() {
    let mut arena: MockVec = HandledVec::new();
    let handle = arena.add_entry(MockDataField { data: 1 });
    arena.get_mut(&handle).unwrap().data = 11;
    assert_eq!(arena.get(&handle), Ok(&MockDataField { data: 11 }));
}

#[test]
fn handles_walk_the_entries_in_index_order() {
    let mut arena: MockVec = HandledVec::new();
    let a = arena.add_entry(MockDataField { data: 1 });
    let b = arena.add_entry(MockDataField { data: 2 });
    let c = arena.add_entry(MockDataField { data: 3 });
    arena.remove_entry(b).unwrap();
    let handles = arena.handles();
    assert_eq!(handles, vec![a, c]);
    assert_eq!(handles.len(), arena.get_entity_count());
    for handle in handles.iter() {
        assert!(arena.get(handle).is_ok());
    }
    let mut iterator = arena.get_handle_iterator();
    assert_eq!(iterator.next(), Some(a));
    assert_eq!(iterator.next(), Some(c));
    assert_eq!(iterator.next(), None);
    let mut values = arena.get_iterator();
    assert_eq!(values.next(), Some(&MockDataField { data: 1 }));
    assert_eq!(values.next(), Some(&MockDataField { data: 3 }));
    assert_eq!(values.next(), None);
    let mut fields = arena.get_field_iterator();
    assert_eq!(fields.next(), Some(&Some(MockDataField { data: 1 })));
    assert_eq!(fields.next(), Some(&None));
    assert_eq!(fields.next(), Some(&Some(MockDataField { data: 3 })));
    assert_eq!(fields.next(), None);
}

#[test]
fn mutate_each_visits_every_entry() {
    let mut arena: MockVec = HandledVec::new();
    let a = arena.add_entry(MockDataField { data: 1 });
    let b = arena.add_entry(MockDataField { data: 2 });
    let c = arena.add_entry(MockDataField { data: 3 });
    arena.remove_entry(b).unwrap();
    arena.mutate_each(|entry: &MockDataField| MockDataField { data: entry.data * 10 });
    assert_eq!(arena.get(&a), Ok(&MockDataField { data: 10 }));
    assert_eq!(arena.get(&c), Ok(&MockDataField { data: 30 }));
    assert_eq!(arena.get_entity_count(), 2);
    assert_eq!(arena.get_length(), 3);
}

#[test]
fn handle_for_index_and_validity() {
    let mut arena: MockVec = HandledVec::new();
    let a = arena.add_entry(MockDataField { data: 1 });
    assert_eq!(arena.get_handle_for_index(0), Some(a));
    assert_eq!(arena.get_handle_for_index(1), None);
    assert_eq!(arena.is_handle_valid(&a), Ok(()));
    assert_eq!(
        arena.is_handle_valid(&MarkedHandle::new(0, 3)),
        Err(HandledVecError::GenerationMismatch)
    );
    assert_eq!(
        arena.is_handle_valid(&MarkedHandle::new(2, 1)),
        Err(HandledVecError::IndexDoesNotExist)
    );
}
