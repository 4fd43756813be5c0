use windfire::cidr::{expand_cidr, ipv4_to_string, is_cidr, network_addresses};

#[test]
fn recognises_network_notation() {
    assert!(is_cidr("192.168.1.0/24"));
    assert!(is_cidr("10.0.0.1/32"));
    assert!(is_cidr("0.0.0.0/0"));
    assert!(is_cidr("1.2.3.4/+8"));
    assert!(is_cidr("1.2.3.4/008"));
}

#[test]
fn rejects_other_text() {
    assert!(!is_cidr("192.168.1.0"));
    assert!(!is_cidr("192.168.1.0/33"));
    assert!(!is_cidr("256.1.1.1/24"));
    assert!(!is_cidr("01.2.3.4/8"));
    assert!(!is_cidr("1.2.3/8"));
    assert!(!is_cidr("1.2.3.4.5/8"));
    assert!(!is_cidr("1.2.3.4/"));
    assert!(!is_cidr("1.2.3.4/8/9"));
    assert!(!is_cidr("example.com/24"));
    assert!(!is_cidr("1.2.3.4/-1"));
    assert!(!is_cidr("1.2.3.4/256"));
}

#[test]
fn expands_a_small_network() {
    assert_eq!(
        expand_cidr("192.168.1.1/30"),
        vec!["192.168.1.0", "192.168.1.1", "192.168.1.2", "192.168.1.3"]
    );
    assert_eq!(expand_cidr("10.0.0.5/31"), vec!["10.0.0.4", "10.0.0.5"]);
    assert_eq!(expand_cidr("8.8.8.8/32"), vec!["8.8.8.8"]);
}

#[test]
fn expands_across_byte_boundaries() {
    let v = expand_cidr("172.16.0.200/23");
    assert_eq!(v.len(), 512);
    assert_eq!(v[0], "172.16.0.0");
    assert_eq!(v[255], "172.16.0.255");
    assert_eq!(v[256], "172.16.1.0");
    assert_eq!(v[511], "172.16.1.255");
}

#[test]
fn prints_addresses() {
    assert_eq!(ipv4_to_string(0), "0.0.0.0");
    assert_eq!(ipv4_to_string(0xffff_ffff), "255.255.255.255");
    assert_eq!(ipv4_to_string(0xc0a8_0101), "192.168.1.1");
    assert_eq!(network_addresses(0x0a00_0009, 30), vec!["10.0.0.8", "10.0.0.9", "10.0.0.10", "10.0.0.11"]);
}
