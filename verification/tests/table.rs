use vort::parse::Orient;
use vort::pipeline::build_table;
use vort::pipeline::get_default_ranges;
use vort::store::InvalidRange;
use vort::store::RangeStore;

#[test]
fn empty_store_enumerates_nothing() {
    let s: RangeStore<Orient> = RangeStore::new();
    assert_eq!(s.enumerate(), vec![]);
}

#[test]
fn single_insert_single_run() {
    let mut s: RangeStore<Orient> = RangeStore::new();
    assert!(s.insert(5, 10, Orient::U).is_ok());
    assert_eq!(s.enumerate(), vec![((5, 10), Orient::U)]);
}

#[test]
fn overwrite_splits_run() {
    let mut s: RangeStore<Orient> = RangeStore::new();
    s.insert(0, 100, Orient::U).unwrap();
    s.insert(40, 60, Orient::R).unwrap();
    assert_eq!(
        s.enumerate(),
        vec![((0, 39), Orient::U), ((40, 60), Orient::R), ((61, 100), Orient::U)]
    );
}

#[test]
fn adjacent_same_label_merges() {
    let mut s: RangeStore<Orient> = RangeStore::new();
    s.insert(0, 9, Orient::U).unwrap();
    s.insert(10, 19, Orient::U).unwrap();
    assert_eq!(s.enumerate(), vec![((0, 19), Orient::U)]);
}

#[test]
fn full_domain_default_then_override() {
    let mut s: RangeStore<Orient> = RangeStore::new();
    s.insert(0, 0x10FFFF, Orient::R).unwrap();
    s.insert(0x18B0, 0x18FF, Orient::U).unwrap();
    assert_eq!(
        s.enumerate(),
        vec![
            ((0, 0x18AF), Orient::R),
            ((0x18B0, 0x18FF), Orient::U),
            ((0x1900, 0x10FFFF), Orient::R),
        ]
    );
}

#[test]
fn invalid_range_rejected_and_state_kept() {
    let mut s: RangeStore<Orient> = RangeStore::new();
    s.insert(0, 30, Orient::Tu).unwrap();
    let before = s.enumerate();
    assert_eq!(s.insert(50, 10, Orient::Tr), Err(InvalidRange));
    assert_eq!(s.enumerate(), before);
}

#[test]
fn enumerate_is_idempotent() {
    let mut s: RangeStore<Orient> = RangeStore::new();
    s.insert(3, 7, Orient::R).unwrap();
    s.insert(5, 20, Orient::U).unwrap();
    let first = s.enumerate();
    let second = s.enumerate();
    assert_eq!(first, second);
}

#[test]
fn bridge_merges_three_runs() {
    let mut s: RangeStore<Orient> = RangeStore::new();
    s.insert(0, 9, Orient::U).unwrap();
    s.insert(20, 29, Orient::U).unwrap();
    s.insert(10, 19, Orient::U).unwrap();
    assert_eq!(s.enumerate(), vec![((0, 29), Orient::U)]);
}

#[test]
fn same_label_overwrite_keeps_one_run() {
    let mut s: RangeStore<Orient> = RangeStore::new();
    s.insert(0, 100, Orient::U).unwrap();
    s.insert(40, 60, Orient::U).unwrap();
    assert_eq!(s.enumerate(), vec![((0, 100), Orient::U)]);
}

#[test]
fn last_insertion_wins_pointwise() {
    let mut s: RangeStore<Orient> = RangeStore::new();
    s.insert(0, 10, Orient::U).unwrap();
    s.insert(5, 15, Orient::R).unwrap();
    s.insert(8, 12, Orient::Tu).unwrap();
    assert_eq!(
        s.enumerate(),
        vec![
            ((0, 4), Orient::U),
            ((5, 7), Orient::R),
            ((8, 12), Orient::Tu),
            ((13, 15), Orient::R),
        ]
    );
}

#[test]
fn disjoint_batch_order_independent() {
    let batch = vec![
        ((0u32, 9u32), Orient::U),
        ((20u32, 29u32), Orient::R),
        ((40u32, 49u32), Orient::Tu),
        ((10u32, 19u32), Orient::Tr),
    ];
    let mut permuted = batch.clone();
    permuted.reverse();
    let t1 = build_table(&batch).unwrap();
    let t2 = build_table(&permuted).unwrap();
    assert_eq!(t1, t2);
}

#[test]
fn build_table_rejects_inverted_range() {
    let batch = vec![((0u32, 9u32), Orient::U), ((50u32, 10u32), Orient::R)];
    assert_eq!(build_table(&batch), Err(InvalidRange));
}

#[test]
fn build_table_folds_in_order() {
    let batch = vec![((0u32, 100u32), Orient::R), ((40u32, 60u32), Orient::U)];
    let t = build_table(&batch).unwrap();
    assert_eq!(
        t,
        vec![((0, 39), Orient::R), ((40, 60), Orient::U), ((61, 100), Orient::R)]
    );
}

#[test]
fn default_ranges_shape() {
    let d = get_default_ranges();
    assert_eq!(d.len(), 37);
    assert_eq!(d[0], ((0, 0x10FFFF), Orient::R));
    assert_eq!(d[1], ((0x18B0, 0x18FF), Orient::U));
    assert_eq!(d[36], ((0x100000, 0x10FFFD), Orient::U));
}

#[test]
fn default_table_covers_whole_domain() {
    let t = build_table(&get_default_ranges()).unwrap();
    assert_eq!(t[0].0.0, 0);
    assert_eq!(t[t.len() - 1].0.1, 0x10FFFF);
    for w in t.windows(2) {
        assert!(w[0].0.1 + 1 == w[1].0.0);
        assert!(w[0].1 != w[1].1);
    }
}
