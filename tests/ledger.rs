use kanji_ledger::ledger::{
    entry_is_consistent, slots_are_disjoint, ConfigError, Database, KanjiInfo, RecordError, RecordOutcome,
};

fn fresh(kanji_per_row: u16, rows_per_page: u16) -> Database {
    Database::new(kanji_per_row, rows_per_page).unwrap()
}

fn entry<'a>(db: &'a Database, kanji: char) -> &'a KanjiInfo {
    &db.items[db.find_kanji(kanji).unwrap()].1
}

#[test]
fn four_writings_open_second_slot() {
    let mut db = fresh(3, 5);
    assert_eq!(db.add_kanji('A'), Ok(RecordOutcome::Placed { id: 0 }));
    assert_eq!(entry(&db, 'A').ids, vec![0]);
    assert_eq!(entry(&db, 'A').occasions, 1);
    assert_eq!(
        db.add_kanji('A'),
        Ok(RecordOutcome::Found { previous_id: 0, occasions: 2, new_id: None })
    );
    assert_eq!(entry(&db, 'A').occasions, 2);
    assert_eq!(
        db.add_kanji('A'),
        Ok(RecordOutcome::Found { previous_id: 0, occasions: 3, new_id: None })
    );
    assert_eq!(entry(&db, 'A').occasions, 3);
    assert_eq!(entry(&db, 'A').ids, vec![0]);
    assert_eq!(
        db.add_kanji('A'),
        Ok(RecordOutcome::Found { previous_id: 0, occasions: 4, new_id: Some(1) })
    );
    assert_eq!(entry(&db, 'A').occasions, 4);
    assert_eq!(entry(&db, 'A').ids, vec![0, 1]);
    assert_eq!(db.current_id, 2);
}

#[test]
fn slot_counter_is_shared_by_all_kanji() {
    let mut db = fresh(3, 5);
    assert_eq!(db.add_kanji('A'), Ok(RecordOutcome::Placed { id: 0 }));
    assert_eq!(db.add_kanji('B'), Ok(RecordOutcome::Placed { id: 1 }));
    assert_eq!(entry(&db, 'A').ids, vec![0]);
    assert_eq!(entry(&db, 'B').ids, vec![1]);
    assert_eq!(db.current_id, 2);
}

#[test]
fn new_ledger_from_configuration() {
    let db = Database::new(4, 10).unwrap();
    assert_eq!(db.kanji_per_row, 4);
    assert_eq!(db.rows_per_page, 10);
    assert_eq!(db.current_id, 0);
    assert!(db.items.is_empty());
    assert!(db.is_consistent());
}

#[test]
fn zero_sizes_are_refused() {
    assert_eq!(Database::new(0, 10).err(), Some(ConfigError::ZeroKanjiPerRow));
    assert_eq!(Database::new(4, 0).err(), Some(ConfigError::ZeroRowsPerPage));
    assert_eq!(Database::new(0, 0).err(), Some(ConfigError::ZeroKanjiPerRow));
}

#[test]
fn occasions_count_every_writing() {
    let mut db = fresh(2, 4);
    let text = ['日', '本', '日', '語', '日', '本'];
    for c in text {
        db.add_kanji(c).unwrap();
    }
    assert_eq!(entry(&db, '日').occasions, 3);
    assert_eq!(entry(&db, '本').occasions, 2);
    assert_eq!(entry(&db, '語').occasions, 1);
    assert_eq!(db.find_kanji('月'), None);
    assert!(db.is_consistent());
}

#[test]
fn slots_are_occasions_over_row_rounded_up() {
    let mut db = fresh(3, 5);
    for n in 1..=10u16 {
        db.add_kanji('A').unwrap();
        let e = entry(&db, 'A');
        assert_eq!(e.occasions, n);
        assert_eq!(e.ids.len(), ((n + 2) / 3) as usize);
    }
    assert_eq!(entry(&db, 'A').ids, vec![0, 1, 2, 3]);
}

#[test]
fn one_kanji_per_row_opens_slot_every_time() {
    let mut db = fresh(1, 5);
    assert_eq!(db.add_kanji('A'), Ok(RecordOutcome::Placed { id: 0 }));
    assert_eq!(
        db.add_kanji('A'),
        Ok(RecordOutcome::Found { previous_id: 0, occasions: 2, new_id: Some(1) })
    );
    for _ in 0..3 {
        db.add_kanji('A').unwrap();
    }
    assert_eq!(entry(&db, 'A').ids, vec![0, 1, 2, 3, 4]);
    assert_eq!(entry(&db, 'A').occasions, 5);
    assert_eq!(db.current_id, 5);
    assert!(db.is_consistent());
}

#[test]
fn slot_opens_when_rows_are_full() {
    assert!(Database::have_space_in_line_ended(4, 3));
    assert!(Database::have_space_in_line_ended(7, 3));
    assert!(!Database::have_space_in_line_ended(3, 3));
    assert!(!Database::have_space_in_line_ended(5, 3));
    assert!(Database::have_space_in_line_ended(1, 3));
    assert!(Database::have_space_in_line_ended(1, 2));
    assert!(!Database::have_space_in_line_ended(2, 2));
    assert!(!Database::have_space_in_line_ended(1, 1));
    assert!(Database::have_space_in_line_ended(2, 1));
    assert!(Database::have_space_in_line_ended(3, 1));
    assert!(!Database::have_space_in_line_ended(0, 2));
}

#[test]
fn full_occasion_counter_is_refused() {
    let mut db = fresh(3, 5);
    db.items.push(('A', KanjiInfo { ids: vec![0], occasions: 65535 }));
    db.current_id = 1;
    assert!(db.is_consistent());
    assert_eq!(db.add_kanji('A'), Err(RecordError::OccasionsExhausted));
    assert_eq!(entry(&db, 'A').occasions, 65535);
    assert_eq!(db.current_id, 1);
}

#[test]
fn exhausted_slot_counter_is_refused() {
    let mut db = fresh(3, 5);
    db.items.push(('A', KanjiInfo { ids: vec![7], occasions: 3 }));
    db.current_id = 65535;
    assert_eq!(db.add_kanji('B'), Err(RecordError::SlotsExhausted));
    assert_eq!(db.add_kanji('A'), Err(RecordError::SlotsExhausted));
    assert_eq!(db.items.len(), 1);
    assert_eq!(entry(&db, 'A').occasions, 3);
    assert_eq!(db.current_id, 65535);
}

#[test]
fn exhausted_counter_still_counts_within_a_row() {
    let mut db = fresh(3, 5);
    db.items.push(('A', KanjiInfo { ids: vec![7], occasions: 1 }));
    db.current_id = 65535;
    assert_eq!(
        db.add_kanji('A'),
        Ok(RecordOutcome::Found { previous_id: 7, occasions: 2, new_id: None })
    );
    assert_eq!(db.current_id, 65535);
}

#[test]
fn new_record_holds_one_slot() {
    let info = KanjiInfo::new(12);
    assert_eq!(info.ids, vec![12]);
    assert_eq!(info.occasions, 1);
}

#[test]
fn stored_ledger_checks() {
    let mut db = fresh(3, 5);
    db.add_kanji('A').unwrap();
    db.add_kanji('B').unwrap();
    assert!(db.is_consistent());

    let mut dup = fresh(3, 5);
    dup.items.push(('A', KanjiInfo { ids: vec![0], occasions: 1 }));
    dup.items.push(('A', KanjiInfo { ids: vec![1], occasions: 1 }));
    dup.current_id = 2;
    assert!(!dup.is_consistent());

    let mut zero = fresh(3, 5);
    zero.kanji_per_row = 0;
    assert!(!zero.is_consistent());
    let mut zero_rows = fresh(3, 5);
    zero_rows.rows_per_page = 0;
    assert!(!zero_rows.is_consistent());

    let mut shared = fresh(3, 5);
    shared.items.push(('A', KanjiInfo { ids: vec![0, 2], occasions: 4 }));
    shared.items.push(('B', KanjiInfo { ids: vec![1, 2], occasions: 4 }));
    shared.current_id = 3;
    assert!(!shared.is_consistent());

    let mut ahead = fresh(3, 5);
    ahead.items.push(('A', KanjiInfo { ids: vec![0, 4], occasions: 4 }));
    ahead.current_id = 4;
    assert!(!ahead.is_consistent());
}

#[test]
fn stored_record_checks() {
    assert!(entry_is_consistent(&KanjiInfo { ids: vec![0, 3, 5], occasions: 7 }, 6));
    assert!(!entry_is_consistent(&KanjiInfo { ids: vec![], occasions: 1 }, 6));
    assert!(!entry_is_consistent(&KanjiInfo { ids: vec![0, 1, 2], occasions: 2 }, 6));
    assert!(!entry_is_consistent(&KanjiInfo { ids: vec![3, 3], occasions: 4 }, 6));
    assert!(!entry_is_consistent(&KanjiInfo { ids: vec![4, 2], occasions: 4 }, 6));
    assert!(!entry_is_consistent(&KanjiInfo { ids: vec![0, 6], occasions: 4 }, 6));
}

#[test]
fn shared_slots_are_found() {
    let a = KanjiInfo { ids: vec![0, 3, 5], occasions: 7 };
    let b = KanjiInfo { ids: vec![1, 4], occasions: 4 };
    let c = KanjiInfo { ids: vec![2, 5], occasions: 4 };
    assert!(slots_are_disjoint(&a, &b));
    assert!(!slots_are_disjoint(&a, &c));
    assert!(!slots_are_disjoint(&c, &a));
    assert!(slots_are_disjoint(&b, &c));
}
