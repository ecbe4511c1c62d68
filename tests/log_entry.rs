use std::sync::Arc;
use xline::log::{EntryStatus, LogEntry};

#[test]
fn log_entry_accessors() {
    let cmds = vec![Arc::new(1u32), Arc::new(2u32)];
    let mut entry = LogEntry::new(5, &cmds, EntryStatus::Unsynced);
    assert_eq!(entry.term(), 5);
    assert_eq!(entry.cmds().len(), 2);
    assert_eq!(*entry.cmds()[1], 2);
    assert_eq!(*entry.status(), EntryStatus::Unsynced);
    entry.set_status(EntryStatus::Synced);
    assert_eq!(*entry.status(), EntryStatus::Synced);
    assert_eq!(entry.term(), 5);
}
