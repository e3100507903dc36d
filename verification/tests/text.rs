use wg_device::ip::{AllowedIP, IpAddr, SocketAddr};
use wg_device::text::{
    find, parse_bool, parse_cidr, parse_decimal, parse_endpoint, parse_ip, parse_ipv4, parse_ipv6,
    parse_key, same_bytes, split, write_cidr, write_decimal, write_endpoint, write_ip, write_key,
};

fn written_ip(a: &IpAddr) -> String {
    let mut out = Vec::new();
    write_ip(&mut out, a);
    String::from_utf8(out).unwrap()
}

fn six(groups: [u16; 8]) -> [u8; 16] {
    let mut o = [0u8; 16];
    for i in 0..8 {
        o[2 * i] = (groups[i] >> 8) as u8;
        o[2 * i + 1] = (groups[i] & 0xff) as u8;
    }
    o
}

#[test]
fn decimal_is_read_up_to_its_bound() {
    assert_eq!(parse_decimal(b"0", 65535), Some(0));
    assert_eq!(parse_decimal(b"51820", 65535), Some(51820));
    assert_eq!(parse_decimal(b"65535", 65535), Some(65535));
    assert_eq!(parse_decimal(b"65536", 65535), None);
    assert_eq!(parse_decimal(b"007", 65535), Some(7));
    assert_eq!(parse_decimal(b"18446744073709551615", u64::MAX), Some(u64::MAX));
    assert_eq!(parse_decimal(b"18446744073709551616", u64::MAX), None);
    assert_eq!(parse_decimal(b"99999999999999999999999", u64::MAX), None);
}

#[test]
fn decimal_rejects_what_is_no_number() {
    assert_eq!(parse_decimal(b"", 10), None);
    assert_eq!(parse_decimal(b"+1", 10), None);
    assert_eq!(parse_decimal(b"-1", 10), None);
    assert_eq!(parse_decimal(b"1a", 10), None);
    assert_eq!(parse_decimal(b" 1", 10), None);
}

#[test]
fn decimal_is_written_without_leading_zeros() {
    for (n, text) in [(0u64, "0"), (7, "7"), (10, "10"), (51820, "51820"), (u64::MAX, "18446744073709551615")] {
        let mut out = Vec::new();
        write_decimal(&mut out, n);
        assert_eq!(String::from_utf8(out).unwrap(), text);
    }
}

#[test]
fn decimal_written_is_read_back() {
    for n in [0u64, 1, 9, 10, 99, 100, 255, 256, 65535, 4294967295, u64::MAX] {
        let mut out = Vec::new();
        write_decimal(&mut out, n);
        assert_eq!(parse_decimal(&out, u64::MAX), Some(n));
    }
}

#[test]
fn key_is_read_in_either_case() {
    let lower = b"000102030405060708090a0b0c0d0e0f101112131415161718191a1b1c1d1e1f";
    let upper = b"000102030405060708090A0B0C0D0E0F101112131415161718191A1B1C1D1E1F";
    let mut key = [0u8; 32];
    for i in 0..32 {
        key[i] = i as u8;
    }
    assert_eq!(parse_key(lower), Some(key));
    assert_eq!(parse_key(upper), Some(key));
}

#[test]
fn key_rejects_wrong_length_and_digits() {
    assert_eq!(parse_key(b""), None);
    assert_eq!(parse_key(&[b'0'; 63]), None);
    assert_eq!(parse_key(&[b'0'; 65]), None);
    let mut bad = [b'0'; 64];
    bad[10] = b'g';
    assert_eq!(parse_key(&bad), None);
    assert_eq!(parse_key(&[b'0'; 64]), Some([0u8; 32]));
}

#[test]
fn key_written_is_read_back() {
    let mut key = [0u8; 32];
    for i in 0..32 {
        key[i] = (i * 37 + 200) as u8;
    }
    let mut out = Vec::new();
    write_key(&mut out, &key);
    assert_eq!(out.len(), 64);
    assert!(out.iter().all(|b| b.is_ascii_digit() || (b'a'..=b'f').contains(b)));
    assert_eq!(parse_key(&out), Some(key));
    let mut zero = Vec::new();
    write_key(&mut zero, &[0u8; 32]);
    assert_eq!(zero, vec![b'0'; 64]);
}

#[test]
fn find_gives_the_first_place_or_the_length() {
    assert_eq!(find(b"a=b=c", b'='), 1);
    assert_eq!(find(b"abc", b'='), 3);
    assert_eq!(find(b"", b'='), 0);
    assert_eq!(find(b"=", b'='), 0);
}

#[test]
fn split_gives_one_field_more_than_separators() {
    assert_eq!(split(b"", b'.'), vec![(0, 0)]);
    assert_eq!(split(b"a", b'.'), vec![(0, 1)]);
    assert_eq!(split(b"a.bc.", b'.'), vec![(0, 1), (2, 4), (5, 5)]);
    assert_eq!(split(b"..", b'.'), vec![(0, 0), (1, 1), (2, 2)]);
}

#[test]
fn same_bytes_compares_contents() {
    assert!(same_bytes(b"get=1", b"get=1"));
    assert!(!same_bytes(b"get=1", b"set=1"));
    assert!(!same_bytes(b"get=1", b"get=10"));
    assert!(same_bytes(b"", b""));
}

#[test]
fn ipv4_is_read() {
    assert_eq!(parse_ipv4(b"10.0.0.2"), Some([10, 0, 0, 2]));
    assert_eq!(parse_ipv4(b"255.255.255.255"), Some([255, 255, 255, 255]));
    assert_eq!(parse_ipv4(b"0.0.0.0"), Some([0, 0, 0, 0]));
    assert_eq!(parse_ipv4(b"192.0.2.5"), Some([192, 0, 2, 5]));
}

#[test]
fn ipv4_rejects_malformed_text() {
    assert_eq!(parse_ipv4(b""), None);
    assert_eq!(parse_ipv4(b"10.0.0"), None);
    assert_eq!(parse_ipv4(b"10.0.0.2.1"), None);
    assert_eq!(parse_ipv4(b"10.0.0.256"), None);
    assert_eq!(parse_ipv4(b"10.0.0.02"), None);
    assert_eq!(parse_ipv4(b"10..0.2"), None);
    assert_eq!(parse_ipv4(b"10.0.0.2 "), None);
    assert_eq!(parse_ipv4(b"a.b.c.d"), None);
}

#[test]
fn ipv6_is_read_in_full_and_shortened() {
    assert_eq!(parse_ipv6(b"::"), Some([0u8; 16]));
    assert_eq!(parse_ipv6(b"::1"), Some(six([0, 0, 0, 0, 0, 0, 0, 1])));
    assert_eq!(parse_ipv6(b"fd00::"), Some(six([0xfd00, 0, 0, 0, 0, 0, 0, 0])));
    assert_eq!(parse_ipv6(b"fd00::1"), Some(six([0xfd00, 0, 0, 0, 0, 0, 0, 1])));
    assert_eq!(
        parse_ipv6(b"2001:db8:0:1:2:3:4:5"),
        Some(six([0x2001, 0xdb8, 0, 1, 2, 3, 4, 5]))
    );
    assert_eq!(
        parse_ipv6(b"2001:DB8::8:800:200C:417A"),
        Some(six([0x2001, 0xdb8, 0, 0, 8, 0x800, 0x200c, 0x417a]))
    );
    assert_eq!(parse_ipv6(b"1:2:3:4:5:6:7::"), Some(six([1, 2, 3, 4, 5, 6, 7, 0])));
    assert_eq!(parse_ipv6(b"::2:3:4:5:6:7:8"), Some(six([0, 2, 3, 4, 5, 6, 7, 8])));
}

#[test]
fn ipv6_rejects_malformed_text() {
    assert_eq!(parse_ipv6(b""), None);
    assert_eq!(parse_ipv6(b":"), None);
    assert_eq!(parse_ipv6(b":::"), None);
    assert_eq!(parse_ipv6(b":1"), None);
    assert_eq!(parse_ipv6(b"1:"), None);
    assert_eq!(parse_ipv6(b"1::2::3"), None);
    assert_eq!(parse_ipv6(b"1:2:3:4:5:6:7"), None);
    assert_eq!(parse_ipv6(b"1:2:3:4:5:6:7:8:9"), None);
    assert_eq!(parse_ipv6(b"1:2:3:4:5:6:7:8::"), None);
    assert_eq!(parse_ipv6(b"12345::"), None);
    assert_eq!(parse_ipv6(b"g::"), None);
    assert_eq!(parse_ipv6(b"10.0.0.1"), None);
}

#[test]
fn ip_is_written_and_read_back() {
    let v4 = IpAddr::V4([192, 0, 2, 5]);
    assert_eq!(written_ip(&v4), "192.0.2.5");
    assert_eq!(parse_ip(b"192.0.2.5"), Some(v4));
    let v6 = IpAddr::V6(six([0xfd00, 0, 0, 0, 0, 0, 0xab, 1]));
    assert_eq!(written_ip(&v6), "fd00:0:0:0:0:0:ab:1");
    assert_eq!(parse_ip(written_ip(&v6).as_bytes()), Some(v6));
    assert_eq!(parse_ip(b"fd00::ab:1"), Some(v6));
    assert_eq!(parse_ip(b"nonsense"), None);
}

#[test]
fn cidr_is_read_with_its_length_checked() {
    assert_eq!(
        parse_cidr(b"10.0.0.2/32"),
        Some(AllowedIP { addr: IpAddr::V4([10, 0, 0, 2]), cidr: 32 })
    );
    assert_eq!(
        parse_cidr(b"0.0.0.0/0"),
        Some(AllowedIP { addr: IpAddr::V4([0, 0, 0, 0]), cidr: 0 })
    );
    assert_eq!(parse_cidr(b"10.0.0.2/33"), None);
    assert_eq!(parse_cidr(b"10.0.0.2"), None);
    assert_eq!(parse_cidr(b"10.0.0.2/"), None);
    assert_eq!(parse_cidr(b"10.0.0.2/8/8"), None);
    assert_eq!(
        parse_cidr(b"fd00::/64"),
        Some(AllowedIP { addr: IpAddr::V6(six([0xfd00, 0, 0, 0, 0, 0, 0, 0])), cidr: 64 })
    );
    assert_eq!(
        parse_cidr(b"::/128"),
        Some(AllowedIP { addr: IpAddr::V6([0u8; 16]), cidr: 128 })
    );
    assert_eq!(parse_cidr(b"::/129"), None);
}

#[test]
fn cidr_written_is_read_back() {
    for block in [
        AllowedIP { addr: IpAddr::V4([10, 0, 0, 2]), cidr: 32 },
        AllowedIP { addr: IpAddr::V4([172, 16, 0, 0]), cidr: 12 },
        AllowedIP { addr: IpAddr::V6(six([0x2001, 0xdb8, 0, 0, 0, 0, 0, 0])), cidr: 48 },
    ] {
        let mut out = Vec::new();
        write_cidr(&mut out, &block);
        assert_eq!(parse_cidr(&out), Some(block));
    }
    let mut out = Vec::new();
    write_cidr(&mut out, &AllowedIP { addr: IpAddr::V4([10, 0, 0, 2]), cidr: 32 });
    assert_eq!(out, b"10.0.0.2/32".to_vec());
}

#[test]
fn endpoint_is_read() {
    assert_eq!(
        parse_endpoint(b"192.0.2.5:51820"),
        Some(SocketAddr { ip: IpAddr::V4([192, 0, 2, 5]), port: 51820 })
    );
    assert_eq!(
        parse_endpoint(b"[::1]:51820"),
        Some(SocketAddr { ip: IpAddr::V6(six([0, 0, 0, 0, 0, 0, 0, 1])), port: 51820 })
    );
    assert_eq!(parse_endpoint(b"192.0.2.5"), None);
    assert_eq!(parse_endpoint(b"192.0.2.5:"), None);
    assert_eq!(parse_endpoint(b"192.0.2.5:65536"), None);
    assert_eq!(parse_endpoint(b"[::1]51820"), None);
    assert_eq!(parse_endpoint(b"[::1]"), None);
    assert_eq!(parse_endpoint(b"[::1"), None);
    assert_eq!(parse_endpoint(b"::1:51820"), None);
    assert_eq!(parse_endpoint(b"[192.0.2.5]:1"), None);
    assert_eq!(parse_endpoint(b""), None);
}

#[test]
fn endpoint_written_is_read_back() {
    let v4 = SocketAddr { ip: IpAddr::V4([192, 0, 2, 5]), port: 51820 };
    let mut out = Vec::new();
    write_endpoint(&mut out, &v4);
    assert_eq!(out, b"192.0.2.5:51820".to_vec());
    assert_eq!(parse_endpoint(&out), Some(v4));
    let v6 = SocketAddr { ip: IpAddr::V6(six([0xfe80, 0, 0, 0, 0, 0, 0, 2])), port: 7 };
    let mut out = Vec::new();
    write_endpoint(&mut out, &v6);
    assert_eq!(out, b"[fe80:0:0:0:0:0:0:2]:7".to_vec());
    assert_eq!(parse_endpoint(&out), Some(v6));
}

#[test]
fn bool_is_true_or_false() {
    assert_eq!(parse_bool(b"true"), Some(true));
    assert_eq!(parse_bool(b"false"), Some(false));
    assert_eq!(parse_bool(b"True"), None);
    assert_eq!(parse_bool(b"1"), None);
    assert_eq!(parse_bool(b""), None);
}
