use wg_device::allowed_ips::AllowedIps;
use wg_device::ip::IpAddr;

fn v4(a: u8, b: u8, c: u8, d: u8) -> IpAddr {
    IpAddr::V4([a, b, c, d])
}

#[test]
fn empty_table_finds_nothing() {
    let table: AllowedIps<u32> = AllowedIps::new();
    assert_eq!(table.find(v4(10, 0, 0, 1)), None);
    assert_eq!(table.find(IpAddr::V6([0; 16])), None);
    assert!(table.iter().is_empty());
}

#[test]
fn find_takes_the_longest_block() {
    let mut table: AllowedIps<u32> = AllowedIps::new();
    table.insert(v4(10, 0, 0, 0), 8, 1);
    table.insert(v4(10, 1, 0, 0), 16, 2);
    table.insert(v4(10, 1, 2, 3), 32, 3);
    table.insert(v4(0, 0, 0, 0), 0, 9);
    assert_eq!(table.find(v4(10, 1, 2, 3)), Some(&3));
    assert_eq!(table.find(v4(10, 1, 2, 4)), Some(&2));
    assert_eq!(table.find(v4(10, 2, 0, 1)), Some(&1));
    assert_eq!(table.find(v4(11, 0, 0, 1)), Some(&9));
    assert_eq!(table.find(IpAddr::V6([0; 16])), None);
}

#[test]
fn insert_replaces_at_the_same_block() {
    let mut table: AllowedIps<u32> = AllowedIps::new();
    table.insert(v4(192, 168, 1, 77), 24, 1);
    table.insert(v4(192, 168, 1, 0), 24, 2);
    assert_eq!(table.find(v4(192, 168, 1, 5)), Some(&2));
    assert_eq!(table.iter(), vec![(v4(192, 168, 1, 0), 24, 2)]);
}

#[test]
fn remove_sweeps_by_value() {
    let mut table: AllowedIps<u32> = AllowedIps::new();
    table.insert(v4(10, 0, 0, 0), 8, 1);
    table.insert(v4(10, 1, 0, 0), 16, 2);
    table.insert(v4(172, 16, 0, 0), 12, 1);
    table.remove(&|v: &u32| *v == 1);
    assert_eq!(table.find(v4(10, 2, 0, 1)), None);
    assert_eq!(table.find(v4(172, 16, 9, 9)), None);
    assert_eq!(table.find(v4(10, 1, 0, 1)), Some(&2));
    assert_eq!(table.iter(), vec![(v4(10, 1, 0, 0), 16, 2)]);
}

#[test]
fn clear_empties_both_families() {
    let mut table: AllowedIps<u32> = AllowedIps::new();
    let mut six = [0u8; 16];
    six[0] = 0xfd;
    table.insert(v4(10, 0, 0, 0), 8, 1);
    table.insert(IpAddr::V6(six), 8, 2);
    assert_eq!(table.find(IpAddr::V6(six)), Some(&2));
    table.clear();
    assert_eq!(table.find(v4(10, 0, 0, 1)), None);
    assert_eq!(table.find(IpAddr::V6(six)), None);
}

#[test]
fn iter_lists_network_addresses_in_order() {
    let mut table: AllowedIps<u32> = AllowedIps::new();
    let mut six = [0u8; 16];
    six[0] = 0xfd;
    six[15] = 1;
    table.insert(IpAddr::V6(six), 64, 7);
    table.insert(v4(10, 1, 2, 3), 16, 2);
    table.insert(v4(10, 0, 0, 0), 8, 1);
    table.insert(v4(10, 1, 2, 3), 32, 3);
    let mut net6 = [0u8; 16];
    net6[0] = 0xfd;
    assert_eq!(
        table.iter(),
        vec![
            (v4(10, 0, 0, 0), 8, 1),
            (v4(10, 1, 0, 0), 16, 2),
            (v4(10, 1, 2, 3), 32, 3),
            (IpAddr::V6(net6), 64, 7),
        ]
    );
}
