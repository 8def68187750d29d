use veil::entity_store::{DataChangeType, DataComponentChange, FlagChangeType, FlagComponentChange};

#[test]
fn data_changes_replace_and_cancel() {
    let mut change: DataComponentChange<u32> = DataComponentChange::new();
    change.insert(4, 10);
    assert!(matches!(change.get(&4), Some(DataChangeType::Insert(10))));
    change.remove(4);
    assert!(matches!(change.get(&4), Some(DataChangeType::Remove)));
    change.insert(5, 20);
    assert_eq!(change.iter().count(), 2);
    assert!(matches!(change.cancel(4), Some(DataChangeType::Remove)));
    assert!(change.get(&4).is_none());
    assert!(change.cancel(4).is_none());
    let all: Vec<(u64, u32)> = change
        .iter()
        .map(|(&id, c)| match c {
            DataChangeType::Insert(v) => (id, *v),
            DataChangeType::Remove => (id, 0),
        })
        .collect();
    assert_eq!(all, vec![(5, 20)]);
}

#[test]
fn flag_changes_replace_and_cancel() {
    let mut change = FlagComponentChange::new();
    change.insert(1);
    change.remove(2);
    change.insert(2);
    let mut all: Vec<(u64, FlagChangeType)> = change.iter().map(|(&id, &c)| (id, c)).collect();
    all.sort_by_key(|p| p.0);
    assert_eq!(all, vec![(1, FlagChangeType::Insert), (2, FlagChangeType::Insert)]);
    assert_eq!(change.cancel(1), Some(FlagChangeType::Insert));
    assert_eq!(change.cancel(1), None);
    change.remove(2);
    assert_eq!(change.cancel(2), Some(FlagChangeType::Remove));
    assert_eq!(change.iter().count(), 0);
}
