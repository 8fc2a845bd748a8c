use fff::watch::{dispatch_event, EventPath, FsEvent, FsEventKind, PendingQueue, DEBOUNCE_NANOS};

fn file(p: &str) -> EventPath {
    EventPath { path: p.to_string(), is_file: true }
}

fn dir(p: &str) -> EventPath {
    EventPath { path: p.to_string(), is_file: false }
}

#[test]
fn waiting_path_fires_after_quiet_period() {
    let mut q = PendingQueue::new();
    q.insert("/a".to_string(), 100);
    assert!(q.take_ready(100 + DEBOUNCE_NANOS - 1).is_empty());
    assert_eq!(q.last_seen("/a"), Some(100));
    assert_eq!(q.take_ready(100 + DEBOUNCE_NANOS), vec!["/a".to_string()]);
    assert_eq!(q.len(), 0);
    assert!(q.take_ready(100 + DEBOUNCE_NANOS).is_empty());
}

#[test]
fn new_event_restarts_wait() {
    let mut q = PendingQueue::new();
    q.insert("/a".to_string(), 0);
    q.insert("/a".to_string(), DEBOUNCE_NANOS);
    assert_eq!(q.len(), 1);
    assert!(q.take_ready(DEBOUNCE_NANOS + 1).is_empty());
    assert_eq!(q.take_ready(2 * DEBOUNCE_NANOS), vec!["/a".to_string()]);
}

#[test]
fn clock_going_back_counts_as_no_time() {
    let mut q = PendingQueue::new();
    q.insert("/a".to_string(), 5 * DEBOUNCE_NANOS);
    assert!(q.take_ready(0).is_empty());
    assert_eq!(q.last_seen("/a"), Some(5 * DEBOUNCE_NANOS));
}

#[test]
fn take_ready_fires_only_quiet_paths() {
    let mut q = PendingQueue::new();
    q.insert("/old".to_string(), 0);
    q.insert("/new".to_string(), DEBOUNCE_NANOS);
    q.insert("/older".to_string(), 0);
    let mut fired = q.take_ready(DEBOUNCE_NANOS + 5);
    fired.sort();
    assert_eq!(fired, vec!["/old".to_string(), "/older".to_string()]);
    assert_eq!(q.last_seen("/new"), Some(DEBOUNCE_NANOS));
    assert_eq!(q.last_seen("/old"), None);
}

#[test]
fn remove_stops_waiting() {
    let mut q = PendingQueue::new();
    q.insert("/a".to_string(), 0);
    q.insert("/b".to_string(), 0);
    q.remove("/a");
    q.remove("/zzz");
    assert_eq!(q.last_seen("/a"), None);
    assert_eq!(q.last_seen("/b"), Some(0));
    assert_eq!(q.len(), 1);
}

#[test]
fn create_queues_files_only() {
    let mut q = PendingQueue::new();
    let ev = FsEvent { kind: FsEventKind::Create, paths: vec![file("/f"), dir("/d")] };
    let deleted = dispatch_event(&ev, &mut q, 7);
    assert!(deleted.is_empty());
    assert_eq!(q.last_seen("/f"), Some(7));
    assert_eq!(q.last_seen("/d"), None);
}

#[test]
fn modify_data_queues_and_restarts() {
    let mut q = PendingQueue::new();
    q.insert("/f".to_string(), 1);
    let ev = FsEvent { kind: FsEventKind::ModifyData, paths: vec![file("/f")] };
    assert!(dispatch_event(&ev, &mut q, 9).is_empty());
    assert_eq!(q.last_seen("/f"), Some(9));
}

#[test]
fn remove_deletes_and_stops_waiting() {
    let mut q = PendingQueue::new();
    q.insert("/f".to_string(), 1);
    let ev = FsEvent { kind: FsEventKind::Remove, paths: vec![file("/f"), dir("/g")] };
    let deleted = dispatch_event(&ev, &mut q, 9);
    assert_eq!(deleted, vec!["/f".to_string(), "/g".to_string()]);
    assert_eq!(q.len(), 0);
}

#[test]
fn rename_from_and_to() {
    let mut q = PendingQueue::new();
    q.insert("/old".to_string(), 1);
    let from = FsEvent { kind: FsEventKind::RenameFrom, paths: vec![file("/old")] };
    assert_eq!(dispatch_event(&from, &mut q, 2), vec!["/old".to_string()]);
    let to = FsEvent { kind: FsEventKind::RenameTo, paths: vec![file("/new"), dir("/newdir")] };
    assert!(dispatch_event(&to, &mut q, 3).is_empty());
    assert_eq!(q.last_seen("/old"), None);
    assert_eq!(q.last_seen("/new"), Some(3));
    assert_eq!(q.last_seen("/newdir"), None);
}

#[test]
fn rename_both_moves_entry() {
    let mut q = PendingQueue::new();
    q.insert("/old".to_string(), 1);
    let ev = FsEvent {
        kind: FsEventKind::RenameBoth,
        paths: vec![file("/old"), file("/new"), file("/extra")],
    };
    assert_eq!(dispatch_event(&ev, &mut q, 4), vec!["/old".to_string()]);
    assert_eq!(q.last_seen("/old"), None);
    assert_eq!(q.last_seen("/new"), Some(4));
    assert_eq!(q.last_seen("/extra"), None);
    let ev = FsEvent { kind: FsEventKind::RenameBoth, paths: vec![file("/a"), dir("/b")] };
    assert_eq!(dispatch_event(&ev, &mut q, 5), vec!["/a".to_string()]);
    assert_eq!(q.last_seen("/b"), None);
}

#[test]
fn rename_any_queues_files_and_deletes_the_rest() {
    let mut q = PendingQueue::new();
    q.insert("/gone".to_string(), 1);
    let ev = FsEvent { kind: FsEventKind::RenameAny, paths: vec![dir("/gone"), file("/here")] };
    assert_eq!(dispatch_event(&ev, &mut q, 6), vec!["/gone".to_string()]);
    assert_eq!(q.last_seen("/gone"), None);
    assert_eq!(q.last_seen("/here"), Some(6));
}

#[test]
fn other_events_change_nothing() {
    let mut q = PendingQueue::new();
    q.insert("/a".to_string(), 1);
    let ev = FsEvent { kind: FsEventKind::Other, paths: vec![file("/a"), file("/b")] };
    assert!(dispatch_event(&ev, &mut q, 6).is_empty());
    assert_eq!(q.last_seen("/a"), Some(1));
    assert_eq!(q.len(), 1);
}
