use resources::network::{
    finish_sweep, interface_names, listing_names, pending_interfaces, InterfaceType,
};
use resources::registry::PageRegistry;
use resources::text::{same_text, starts_with_text, strip_nul};

fn listing(names: &[&str]) -> Vec<Option<String>> {
    names.iter().map(|n| Some(n.to_string())).collect()
}

/// Runs one sweep, making page `next` (counting up) for every pending
/// interface that `resolvable` accepts.
fn sweep(
    reg: &mut PageRegistry<u32>,
    snap: &Vec<Option<String>>,
    resolvable: &dyn Fn(&str) -> bool,
    next: &mut u32,
) -> Vec<u32> {
    let pending = pending_interfaces(reg, snap);
    let mut made = Vec::new();
    for name in pending {
        if resolvable(name.as_str()) {
            made.push((name, *next));
            *next += 1;
        }
    }
    finish_sweep(reg, snap, made)
}

#[test]
fn interface_pages_follow_the_directory() {
    let mut reg: PageRegistry<u32> = PageRegistry::new();
    let mut next = 1;
    let gone = sweep(&mut reg, &listing(&["eth0", "wlan0"]), &|_| true, &mut next);
    assert!(gone.is_empty());
    assert_eq!(reg.len(), 2);
    let wlan_page = *reg.get("wlan0").unwrap();
    let gone = sweep(&mut reg, &listing(&["wlan0"]), &|_| true, &mut next);
    assert_eq!(gone, vec![1]);
    assert!(!reg.contains_key("eth0"));
    assert_eq!(reg.get("wlan0"), Some(&wlan_page));
    assert_eq!(reg.len(), 1);
    assert_eq!(next, 3);
}

#[test]
fn loopback_and_undecodable_names_get_no_page() {
    let mut reg: PageRegistry<u32> = PageRegistry::new();
    let mut next = 1;
    let snap = vec![Some("lo".to_string()), None, Some("eth0".to_string())];
    assert_eq!(pending_interfaces(&reg, &snap), vec!["eth0".to_string()]);
    sweep(&mut reg, &snap, &|_| true, &mut next);
    assert_eq!(reg.len(), 1);
    assert!(!reg.contains_key("lo"));
    assert!(!listing_names(&snap, "lo"));
    assert!(listing_names(&snap, "eth0"));
}

#[test]
fn tracked_page_survives_a_failed_lookup() {
    let mut reg: PageRegistry<u32> = PageRegistry::new();
    let mut next = 1;
    sweep(&mut reg, &listing(&["eth0"]), &|_| true, &mut next);
    let gone = sweep(&mut reg, &listing(&["eth0", "wwan0"]), &|_| false, &mut next);
    assert!(gone.is_empty());
    assert_eq!(reg.get("eth0"), Some(&1));
    assert!(!reg.contains_key("wwan0"));
}

#[test]
fn sweeps_converge_to_the_last_listing() {
    let mut reg: PageRegistry<u32> = PageRegistry::new();
    let mut next = 1;
    sweep(&mut reg, &listing(&["a", "b", "c"]), &|n| n != "b", &mut next);
    assert_eq!(reg.len(), 2);
    sweep(&mut reg, &listing(&["b", "c", "d"]), &|n| n != "d", &mut next);
    assert!(reg.contains_key("b"));
    assert!(!reg.contains_key("d"));
    sweep(&mut reg, &listing(&["c", "d", "e"]), &|n| n != "c", &mut next);
    assert_eq!(reg.len(), 3);
    for k in ["c", "d", "e"] {
        assert!(reg.contains_key(k));
    }
    assert!(!reg.contains_key("a"));
    assert!(!reg.contains_key("b"));
}

#[test]
fn duplicate_and_stray_pages_are_handed_back() {
    let mut reg: PageRegistry<u32> = PageRegistry::new();
    reg.insert("eth0".to_string(), 1);
    let snap = listing(&["eth0", "wlan0"]);
    let made = vec![
        ("eth0".to_string(), 2),
        ("wlan0".to_string(), 3),
        ("wlan0".to_string(), 4),
        ("gone0".to_string(), 5),
    ];
    let mut back = finish_sweep(&mut reg, &snap, made);
    back.sort();
    assert_eq!(back, vec![2, 4, 5]);
    assert_eq!(reg.get("eth0"), Some(&1));
    assert_eq!(reg.get("wlan0"), Some(&3));
}

#[test]
fn empty_listing_drops_every_page() {
    let mut reg: PageRegistry<u32> = PageRegistry::new();
    reg.insert("eth0".to_string(), 1);
    reg.insert("wlan0".to_string(), 2);
    let mut back = finish_sweep(&mut reg, &Vec::new(), Vec::new());
    back.sort();
    assert_eq!(back, vec![1, 2]);
    assert_eq!(reg.len(), 0);
}

#[test]
fn interface_names_are_unique_and_filtered() {
    let snap = vec![Some("eth0".to_string()), Some("eth0".to_string()), Some("lo".to_string()), None];
    assert_eq!(interface_names(&snap), vec!["eth0".to_string()]);
}

#[test]
fn sidebar_titles() {
    assert_eq!(InterfaceType::Ethernet.sidebar_title(), "Ethernet Connection");
    assert_eq!(InterfaceType::Slip.sidebar_title(), "Serial Line IP Connection");
    assert_eq!(InterfaceType::Wlan.sidebar_title(), "Wi-Fi Connection");
    assert_eq!(InterfaceType::Wireguard.sidebar_title(), "VPN Tunnel (WireGuard)");
    assert_eq!(InterfaceType::Other.sidebar_title(), "Network Interface");
}

#[test]
fn text_helpers() {
    assert!(same_text("wlan0", "wlan0"));
    assert!(!same_text("wlan0", "wlan1"));
    assert!(!same_text("wlan", "wlan0"));
    assert!(same_text("", ""));
    assert!(starts_with_text("/dev/sr0", "/dev/sr"));
    assert!(!starts_with_text("/dev/s", "/dev/sr"));
    assert!(starts_with_text("abc", ""));
    assert_eq!(strip_nul(&vec![0, 1, 0, 2, 0]), vec![1, 2]);
    assert_eq!(strip_nul(&Vec::new()), Vec::<u8>::new());
}
