use aimless_onions::allocation::{allocate, relay_for_identity, AllocationRequest};
use aimless_onions::consensus::{consensus_digest, relay_of_line, Relay};
use aimless_onions::registry::RelayRegistry;
use aimless_onions::shared::{timestamp, Epoch};

#[test]
fn consensus_lines() {
    assert_eq!(relay_of_line(b"w Bandwidth=1234\n"), Some(Relay { weight: 1234 }));
    assert_eq!(relay_of_line(b"w Bandwidth=77 Unmeasured=1"), Some(Relay { weight: 77 }));
    assert_eq!(relay_of_line(b"Bandwidth=0"), Some(Relay { weight: 0 }));
    assert_eq!(relay_of_line(b"r nickname 2024-01-01"), None);
    assert_eq!(relay_of_line(b"Bandwidth=x Bandwidth=5"), Some(Relay { weight: 5 }));
    assert_eq!(relay_of_line(b"Bandwidth="), None);
    assert_eq!(relay_of_line(b"Bandwidth=4294967295"), Some(Relay { weight: u32::MAX }));
    assert_eq!(relay_of_line(b"Bandwidth=4294967296"), None);
    assert_eq!(relay_of_line(b""), None);
}

#[test]
fn epoch_schedule() {
    // 2024-01-01 12:10:30 UTC
    let now = 1_704_111_030;
    let epoch = Epoch::next_after(now);
    // 12:30:00
    assert_eq!(epoch.registration_time(), 1_704_112_200);
    assert_eq!(epoch.allocation_start_time(), 1_704_112_200 + 600);
    assert_eq!(epoch.allocation_finish_time(), 1_704_112_200 + 900);
    assert_eq!(epoch.switchover_time(), 1_704_112_200 + 1800);
    let later = epoch.succeeding().unwrap();
    assert_eq!(later.registration_time(), 1_704_112_200 + 3600);
    // exactly half past: the next one is an hour later
    assert_eq!(Epoch::next_after(1_704_112_200).registration_time(), 1_704_115_800);
    assert_eq!(Epoch::next_after(0).registration_time(), 1800);
    assert_eq!(Epoch::next_after(-1).registration_time(), 1800);
    assert_eq!(Epoch::next_after(-1801).registration_time(), -1800);
    assert_eq!(Epoch::from_registration(5).switchover_time(), 1805);
}

#[test]
fn clock_reads() {
    assert!(timestamp().unwrap() > 1_600_000_000_000);
    let epoch = Epoch::next().unwrap();
    assert_eq!((epoch.registration_time() - 1800) % 3600, 0);
}

#[test]
fn registry_keeps_one_entry_per_key() {
    let mut registry = RelayRegistry::new();
    assert!(registry.insert([1; 16], "a".to_string(), 1, 10));
    assert!(registry.insert([2; 16], "b".to_string(), 2, 20));
    assert!(registry.insert([1; 16], "c".to_string(), 3, 30));
    assert_eq!(registry.len(), 2);
    let requests = registry.requests();
    assert_eq!(requests[0], AllocationRequest { id: 2, key: [1; 16], weight: 30 });
    assert_eq!(requests[1], AllocationRequest { id: 1, key: [2; 16], weight: 20 });
    let i = registry.position(&[1; 16]).unwrap();
    assert_eq!(registry.entry(i).address, "c");
    assert_eq!(registry.entry(i).port, 3);
    assert_eq!(registry.position(&[3; 16]), None);
    registry.clear();
    assert_eq!(registry.len(), 0);
    assert!(registry.insert([3; 16], "d".to_string(), 4, 1));
    assert_eq!(registry.requests()[0].id, 0);
}

#[test]
fn identities_find_their_relay() {
    let requests = [
        AllocationRequest { id: 0, key: [0; 16], weight: 1 },
        AllocationRequest { id: 1, key: [1; 16], weight: 3 },
    ];
    let allocations = allocate(&requests);
    for identity in [0u64, 0x3FFF_FFFF, 0x4000_0000, 0xFFFF_FFFF, 0x1_2345_6789] {
        let i = relay_for_identity(&allocations, identity).unwrap();
        let leaf = aimless_onions::nodename::NodeName::number(identity);
        assert!(allocations[i].nodes.iter().any(|n| n.contains(leaf)));
    }
    let empty = allocate(&[AllocationRequest { id: 0, key: [0; 16], weight: 0 }]);
    assert_eq!(relay_for_identity(&empty, 5), None);
}

#[test]
fn digest_of_signed_part() {
    let content = b"network-status-version 3\nvalid-after 2024\ndirectory-signature ABC\nmore directory-signature x";
    let digest = consensus_digest(content).unwrap();
    assert_eq!(
        String::from_utf8(digest).unwrap(),
        "1860604CB3922580F26D5D648D22716902B685BB021C7ACFDD9FC7305659E6A0"
    );
    assert_eq!(consensus_digest(b"no signature here"), None);
}
