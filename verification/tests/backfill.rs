//! Repairing stored flags.

use ft8mon::backfill::Backfill;

#[test]
fn only_wrong_flags_are_rewritten() {
    let mut b = Backfill::new();
    assert_eq!(b.examine(0, true), Some(1));
    assert_eq!(b.examine(1, true), None);
    assert_eq!(b.examine(0, false), None);
    assert_eq!(b.examine(1, false), Some(0));
    assert_eq!(b.examine(7, false), Some(0));
    b.skip();
    assert_eq!(b, Backfill { decoded: 2, changed: 3, skipped: 1 });
}

#[test]
fn a_second_run_changes_nothing() {
    for (prev, decoded) in [(0i64, true), (1, true), (0, false), (1, false)] {
        let mut b = Backfill::new();
        let stored = b.examine(prev, decoded).unwrap_or(prev);
        let mut again = Backfill::new();
        assert_eq!(again.examine(stored, decoded), None);
    }
}
