//! Tests of the per-para historical-code ledger.

use paras::meta::{ParaPastCodeMeta, UseCodeAt};

#[test]
fn para_past_code_meta_gives_right_code() {
    let mut past_code = ParaPastCodeMeta::default();
    assert_eq!(past_code.code_at(0u64), Some(UseCodeAt::Current));

    past_code.note_replacement(10, 12);
    assert_eq!(past_code.code_at(0), Some(UseCodeAt::ReplacedAt(10)));
    assert_eq!(past_code.code_at(10), Some(UseCodeAt::ReplacedAt(10)));
    assert_eq!(past_code.code_at(11), Some(UseCodeAt::Current));

    past_code.note_replacement(20, 25);
    assert_eq!(past_code.code_at(1), Some(UseCodeAt::ReplacedAt(10)));
    assert_eq!(past_code.code_at(10), Some(UseCodeAt::ReplacedAt(10)));
    assert_eq!(past_code.code_at(11), Some(UseCodeAt::ReplacedAt(20)));
    assert_eq!(past_code.code_at(20), Some(UseCodeAt::ReplacedAt(20)));
    assert_eq!(past_code.code_at(21), Some(UseCodeAt::Current));

    past_code.last_pruned = Some(5);
    assert_eq!(past_code.code_at(1), None);
    assert_eq!(past_code.code_at(5), None);
    assert_eq!(past_code.code_at(6), Some(UseCodeAt::ReplacedAt(10)));
}

#[test]
fn para_past_code_pruning_works_correctly() {
    let mut past_code = ParaPastCodeMeta::default();
    past_code.note_replacement(10u64, 10);
    past_code.note_replacement(20, 25);
    past_code.note_replacement(30, 35);

    let old = past_code.clone();
    assert!(past_code.prune_up_to(9).is_empty());
    assert_eq!(old, past_code);

    assert_eq!(past_code.prune_up_to(10), vec![10]);
    assert_eq!(
        past_code,
        ParaPastCodeMeta { upgrade_times: vec![(30, 35), (20, 25)], last_pruned: Some(10) }
    );

    assert!(past_code.prune_up_to(21).is_empty());

    assert_eq!(past_code.prune_up_to(26), vec![20]);
    assert_eq!(
        past_code,
        ParaPastCodeMeta { upgrade_times: vec![(30, 35)], last_pruned: Some(20) }
    );

    past_code.note_replacement(40, 42);
    past_code.note_replacement(50, 53);
    past_code.note_replacement(60, 66);

    assert_eq!(
        past_code,
        ParaPastCodeMeta {
            upgrade_times: vec![(60, 66), (50, 53), (40, 42), (30, 35)],
            last_pruned: Some(20),
        }
    );

    assert_eq!(past_code.prune_up_to(60), vec![30, 40, 50]);
    assert_eq!(
        past_code,
        ParaPastCodeMeta { upgrade_times: vec![(60, 66)], last_pruned: Some(50) }
    );

    assert_eq!(past_code.prune_up_to(66), vec![60]);

    assert_eq!(
        past_code,
        ParaPastCodeMeta { upgrade_times: Vec::new(), last_pruned: Some(60) }
    );
}

#[test]
fn lookup_unknown_below_pruned_height() {
    let mut past_code = ParaPastCodeMeta::default();
    past_code.note_replacement(10u64, 12);
    past_code.note_replacement(20, 25);
    assert_eq!(past_code.prune_up_to(12), vec![10]);
    assert_eq!(past_code.last_pruned, Some(10));
    assert_eq!(past_code.code_at(0), None);
    assert_eq!(past_code.code_at(10), None);
    assert_eq!(past_code.code_at(11), Some(UseCodeAt::ReplacedAt(20)));
    assert_eq!(past_code.code_at(21), Some(UseCodeAt::Current));
}

#[test]
fn pruning_never_removes_unexpired_entries() {
    let mut past_code = ParaPastCodeMeta::default();
    past_code.note_replacement(10u64, 12);
    past_code.note_replacement(20, 25);
    past_code.note_replacement(30, 35);
    // Nothing observed at or before 11 has expired besides the oldest entry.
    assert_eq!(past_code.prune_up_to(24), vec![10]);
    assert_eq!(
        past_code,
        ParaPastCodeMeta { upgrade_times: vec![(30, 35), (20, 25)], last_pruned: Some(10) }
    );
    // A second pruning with the same bound is a no-op.
    assert!(past_code.prune_up_to(24).is_empty());
    assert_eq!(
        past_code,
        ParaPastCodeMeta { upgrade_times: vec![(30, 35), (20, 25)], last_pruned: Some(10) }
    );
}
