use aimless_onions::allocation::{allocate, Allocation, AllocationRequest};
use aimless_onions::nodename::NodeName;

fn request(id: u32, key: u8, weight: u64) -> AllocationRequest {
    AllocationRequest {
        id,
        key: [key; 16],
        weight,
    }
}

fn leaves(a: &Allocation) -> u128 {
    a.nodes.iter().map(|n| n.subtree_size()).sum()
}

fn assert_disjoint(result: &[Allocation]) {
    let all: Vec<NodeName> = result.iter().flat_map(|a| a.nodes.iter().copied()).collect();
    for (i, a) in all.iter().enumerate() {
        for (j, b) in all.iter().enumerate() {
            if i != j {
                assert!(!a.contains(*b), "{:?} contains {:?}", a, b);
            }
        }
    }
}

#[test]
fn empty_input_gives_empty_output() {
    assert!(allocate(&[]).is_empty());
}

#[test]
fn single_relay_gets_the_root() {
    let result = allocate(&[request(7, 1, 1234)]);
    assert_eq!(result.len(), 1);
    assert_eq!(result[0].id, 7);
    assert_eq!(result[0].nodes, vec![NodeName::root()]);
}

#[test]
fn weights_one_and_three() {
    let result = allocate(&[request(1, 1, 1), request(3, 3, 3)]);
    assert_eq!(result.len(), 2);
    assert_eq!(result[0].id, 1);
    assert_eq!(result[1].id, 3);
    let mut small: Vec<u8> = result[0].nodes.iter().map(|n| n.len()).collect();
    let mut large: Vec<u8> = result[1].nodes.iter().map(|n| n.len()).collect();
    small.sort();
    large.sort();
    assert_eq!(small, vec![2]);
    assert_eq!(large, vec![1, 2]);
    assert_eq!(leaves(&result[0]), 1 << 30);
    assert_eq!(leaves(&result[1]), 3 << 30);
    assert_disjoint(&result);
}

#[test]
fn allocation_is_deterministic() {
    let requests = [request(0, 9, 5), request(1, 9, 5), request(2, 4, 11), request(3, 2, 7)];
    let a = allocate(&requests);
    let b = allocate(&requests);
    for (x, y) in a.iter().zip(b.iter()) {
        assert_eq!(x.id, y.id);
        assert_eq!(x.nodes, y.nodes);
    }
}

#[test]
fn uneven_weights_share_at_most_the_space() {
    let requests = [request(0, 1, 1), request(1, 2, 1), request(2, 3, 1)];
    let result = allocate(&requests);
    let total: u128 = result.iter().map(leaves).sum();
    assert!(total <= 1 << 32);
    for a in &result {
        assert_eq!(leaves(a), (1u128 << 32) / 3);
    }
    assert_disjoint(&result);
}

#[test]
fn exact_weights_fill_the_space() {
    let requests = [request(0, 1, 2), request(1, 2, 1), request(2, 3, 1)];
    let result = allocate(&requests);
    let total: u128 = result.iter().map(leaves).sum();
    assert_eq!(total, 1 << 32);
    assert_disjoint(&result);
}

#[test]
fn zero_weights_get_nothing() {
    let result = allocate(&[request(0, 1, 0), request(1, 2, 0)]);
    assert_eq!(result.len(), 2);
    assert!(result.iter().all(|a| a.nodes.is_empty()));
}

#[test]
fn many_relays_are_disjoint() {
    let requests: Vec<AllocationRequest> =
        (0..40).map(|i| request(i, i as u8, (i as u64 * 7919) % 1000 + 1)).collect();
    let result = allocate(&requests);
    let total_weight: u128 = requests.iter().map(|r| r.weight as u128).sum();
    for (a, r) in result.iter().zip(requests.iter()) {
        assert_eq!(a.id, r.id);
        assert_eq!(leaves(a), (r.weight as u128) * (1u128 << 32) / total_weight);
    }
    assert_disjoint(&result);
}
