use resources::registry::{key_listed, DriveEvent, PageRegistry};
use resources::storage::{drive_from_added, drive_removed, BlockProperties, InterfacesAdded, DRIVE_INTERFACE};

fn added(key: &str, page: u32) -> DriveEvent<u32> {
    DriveEvent::Added { key: key.to_string(), page }
}

fn removed(key: &str) -> DriveEvent<u32> {
    DriveEvent::Removed { key: key.to_string() }
}

#[test]
fn insert_get_and_replace() {
    let mut reg: PageRegistry<u32> = PageRegistry::new();
    assert_eq!(reg.len(), 0);
    assert_eq!(reg.insert("/d1".to_string(), 1), None);
    assert_eq!(reg.insert("/d2".to_string(), 2), None);
    assert_eq!(reg.get("/d1"), Some(&1));
    assert!(reg.contains_key("/d2"));
    assert!(!reg.contains_key("/d3"));
    assert_eq!(reg.insert("/d1".to_string(), 10), Some(1));
    assert_eq!(reg.get("/d1"), Some(&10));
    assert_eq!(reg.len(), 2);
}

#[test]
fn removing_an_unknown_key_changes_nothing() {
    let mut reg: PageRegistry<u32> = PageRegistry::new();
    reg.insert("/d1".to_string(), 1);
    assert_eq!(reg.remove("/d9"), None);
    assert_eq!(reg.len(), 1);
    assert_eq!(reg.remove("/d1"), Some(1));
    assert_eq!(reg.len(), 0);
    assert_eq!(reg.get("/d1"), None);
}

#[test]
fn add_remove_sequences_keep_one_page_per_key() {
    let mut reg: PageRegistry<u32> = PageRegistry::new();
    let events = vec![added("/a", 1), added("/b", 2), added("/a", 3), removed("/b"), added("/b", 4), added("/a", 5)];
    let gone = reg.replay_events(events);
    assert_eq!(gone, vec![1, 2, 3]);
    assert_eq!(reg.len(), 2);
    assert_eq!(reg.get("/a"), Some(&5));
    assert_eq!(reg.get("/b"), Some(&4));
}

#[test]
fn queued_removal_after_scan_leaves_no_orphan() {
    let mut reg: PageRegistry<u32> = PageRegistry::new();
    reg.replay_events(vec![added("/d1", 1), added("/d2", 2)]);
    let ifaces = vec![DRIVE_INTERFACE.to_string()];
    let queued: Vec<DriveEvent<u32>> = drive_removed("/d1".to_string(), &ifaces).into_iter().collect();
    let gone = reg.replay_events(queued);
    assert_eq!(gone, vec![1]);
    assert!(!reg.contains_key("/d1"));
    assert_eq!(reg.get("/d2"), Some(&2));
}

#[test]
fn removal_goes_by_drive_path_not_block_path() {
    let mut reg: PageRegistry<u32> = PageRegistry::new();
    reg.insert("/drives/other".to_string(), 7);
    let ev = InterfacesAdded {
        object_path: "/block_devices/sdc".to_string(),
        partition: false,
        swapspace: false,
        block: Some(BlockProperties {
            drive: Some("/drives/usb".to_string()),
            device: None,
            read_only: None,
            crypto_backing_device: None,
        }),
    };
    let d = drive_from_added(ev).unwrap().unwrap();
    reg.apply_event(DriveEvent::Added { key: d.key, page: 8 });
    let ifaces = vec![DRIVE_INTERFACE.to_string()];
    assert!(drive_removed::<u32>("/block_devices/sdc".to_string(), &ifaces)
        .map(|e| reg.apply_event(e))
        .flatten()
        .is_none());
    assert!(reg.contains_key("/drives/usb"));
    let e = drive_removed::<u32>("/drives/usb".to_string(), &ifaces).unwrap();
    assert_eq!(reg.apply_event(e), Some(8));
    assert!(!reg.contains_key("/drives/usb"));
    assert_eq!(reg.get("/drives/other"), Some(&7));
}

#[test]
fn retain_keys_drops_unlisted_pages() {
    let mut reg: PageRegistry<u32> = PageRegistry::new();
    reg.insert("a".to_string(), 1);
    reg.insert("b".to_string(), 2);
    reg.insert("c".to_string(), 3);
    let gone = reg.retain_keys(&vec!["c".to_string(), "a".to_string(), "z".to_string()]);
    assert_eq!(gone, vec![2]);
    assert_eq!(reg.get("a"), Some(&1));
    assert_eq!(reg.get("c"), Some(&3));
    assert!(!reg.contains_key("z"));
    assert_eq!(reg.retain_keys(&Vec::new()).len(), 2);
    assert_eq!(reg.len(), 0);
}

#[test]
fn key_listed_compares_whole_strings() {
    let keys = vec!["eth0".to_string(), "wlan0".to_string()];
    assert!(key_listed(&keys, "wlan0"));
    assert!(!key_listed(&keys, "eth"));
    assert!(!key_listed(&keys, "eth00"));
}
