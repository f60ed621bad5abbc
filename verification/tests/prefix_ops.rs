use ipnet::Ipv4Net;
use ptree::Prefix;
use ptree::Ptree;

fn net(s: &str) -> Ipv4Net {
    s.parse().unwrap()
}

#[test]
pub fn test_to_masked() {
    let net10: Ipv4Net = "10.1.1.1/8".parse().unwrap();
    assert_eq!(
        net10.to_masked(),
        net("10.0.0.0/8")
    );

    let net10: Ipv4Net = "10.1.1.1/16".parse().unwrap();
    assert_eq!(
        net10.to_masked(),
        net("10.1.0.0/16")
    );

    let net10: Ipv4Net = "10.255.255.255/31".parse().unwrap();
    assert_eq!(
        net10.to_masked(),
        net("10.255.255.254/31")
    );

    let net10: Ipv4Net = "10.255.255.255/0".parse().unwrap();
    assert_eq!(
        net10.to_masked(),
        net("0.0.0.0/0")
    );

    let net10: Ipv4Net = "10.255.255.255/32".parse().unwrap();
    assert_eq!(
        net10.to_masked(),
        net("10.255.255.255/32")
    );
}

#[test]
pub fn test_contains() {
    let net10_8: Ipv4Net = "10.0.0.0/8".parse().unwrap();
    let net10_16: Ipv4Net = "10.0.0.0/16".parse().unwrap();
    let net127_8: Ipv4Net = "127.0.0.0/8".parse().unwrap();
    assert!(Prefix::contains(&net10_8, &net10_16));
    assert!(!Prefix::contains(&net10_8, &net127_8));
}

#[test]
pub fn test_generics() {
    let mut ptree = Ptree::<Ipv4Net, i32>::new();
    let p: Ipv4Net = "10.0.0.0/8".parse().unwrap();
    ptree.add(&p, 0);
}

#[test]
pub fn test_partial_generics() {
    let mut ptree = Ptree::<_, i32>::new_ipv4();
    let p: Ipv4Net = "10.0.0.0/8".parse().unwrap();
    ptree.add(&p, 0);
}

#[test]
fn masking_is_idempotent() {
    for s in ["10.1.1.1/8", "192.168.255.255/19", "255.255.255.255/1", "1.2.3.4/32", "9.9.9.9/0"] {
        let once = Prefix::to_masked(&net(s));
        assert_eq!(Prefix::to_masked(&once), once);
    }
    assert_eq!(Prefix::to_masked(&net("192.168.255.255/19")), net("192.168.224.0/19"));
    assert_eq!(Prefix::to_masked(&net("255.255.255.255/1")), net("128.0.0.0/1"));
}

#[test]
fn prefix_len_is_the_length() {
    assert_eq!(Prefix::prefix_len(&net("10.0.0.0/8")), 8);
    assert_eq!(Prefix::prefix_len(&net("0.0.0.0/0")), 0);
    assert_eq!(Prefix::prefix_len(&net("1.2.3.4/32")), 32);
}

#[test]
fn bit_at_counts_from_the_top() {
    let p = net("10.0.0.1/32");
    let ones: Vec<u8> = (0u8..32).filter(|i| p.bit_at(*i) == 1).collect();
    assert_eq!(ones, vec![4, 6, 31]);
    assert_eq!(net("128.0.0.0/1").bit_at(0), 1);
    assert_eq!(net("127.255.255.255/32").bit_at(0), 0);
    assert_eq!(net("0.1.0.0/16").bit_at(15), 1);
    assert_eq!(net("0.1.0.0/16").bit_at(16), 0);
}

#[test]
fn contains_compares_leading_bits_only() {
    assert!(Prefix::contains(&net("0.0.0.0/0"), &net("255.255.255.255/32")));
    assert!(Prefix::contains(&net("10.0.0.0/8"), &net("10.0.0.0/8")));
    assert!(!Prefix::contains(&net("10.0.0.0/16"), &net("10.0.0.0/8")));
    assert!(Prefix::contains(&net("10.0.0.0/30"), &net("10.0.0.3/32")));
    assert!(!Prefix::contains(&net("10.0.0.0/30"), &net("10.0.0.4/32")));
    assert!(!Prefix::contains(&net("10.0.0.0/9"), &net("10.128.0.0/9")));
    assert!(!Prefix::contains(&net("10.0.0.0/24"), &net("11.0.0.0/24")));
    assert!(Prefix::contains(&net("1.2.3.4/32"), &net("1.2.3.4/32")));
    assert!(!Prefix::contains(&net("1.2.3.4/32"), &net("1.2.3.5/32")));
    // bits beyond the length of the container do not count
    assert!(Prefix::contains(&net("10.1.1.1/8"), &net("10.0.0.0/16")));
}

#[test]
fn common_prefix_stops_at_first_difference() {
    assert_eq!(
        <Ipv4Net as Prefix>::from_common(&net("10.0.0.0/28"), &net("10.0.0.16/28")),
        net("10.0.0.0/27")
    );
    assert_eq!(
        <Ipv4Net as Prefix>::from_common(&net("0.0.0.0/1"), &net("128.0.0.0/1")),
        net("0.0.0.0/0")
    );
    assert_eq!(
        <Ipv4Net as Prefix>::from_common(&net("10.0.0.0/24"), &net("10.0.1.0/24")),
        net("10.0.0.0/23")
    );
    assert_eq!(
        <Ipv4Net as Prefix>::from_common(&net("192.168.1.77/32"), &net("192.168.1.79/32")),
        net("192.168.1.76/30")
    );
}

#[test]
fn common_prefix_is_no_longer_than_either() {
    assert_eq!(
        <Ipv4Net as Prefix>::from_common(&net("10.1.0.0/8"), &net("10.1.0.0/16")),
        net("10.0.0.0/8")
    );
    assert_eq!(
        <Ipv4Net as Prefix>::from_common(&net("10.1.0.0/16"), &net("10.1.0.0/8")),
        net("10.0.0.0/8")
    );
    assert_eq!(
        <Ipv4Net as Prefix>::from_common(&net("1.2.3.4/32"), &net("1.2.3.4/32")),
        net("1.2.3.4/32")
    );
    assert_eq!(
        <Ipv4Net as Prefix>::from_common(&net("1.2.3.4/0"), &net("1.2.3.4/32")),
        net("0.0.0.0/0")
    );
    assert_eq!(
        <Ipv4Net as Prefix>::from_common(&net("10.255.0.0/12"), &net("10.240.0.0/13")),
        net("10.240.0.0/12")
    );
}

#[test]
fn prefix_from_octets_checks_the_length() {
    assert_eq!(ptree::ipv4::prefix_from_octets([10, 1, 2, 3], 24), Some(net("10.1.2.3/24")));
    assert_eq!(ptree::ipv4::prefix_from_octets([0, 0, 0, 0], 0), Some(net("0.0.0.0/0")));
    assert_eq!(ptree::ipv4::prefix_from_octets([255, 254, 253, 252], 32), Some(net("255.254.253.252/32")));
    assert_eq!(ptree::ipv4::prefix_from_octets([10, 1, 2, 3], 33), None);
    assert_eq!(ptree::ipv4::prefix_from_octets([10, 1, 2, 3], 255), None);
}

#[test]
fn parsed_prefixes_have_valid_length() {
    for s in ["0.0.0.0/0", "10.0.0.0/8", "1.2.3.4/32"] {
        assert!(ptree::ipv4::has_valid_len(&net(s)));
    }
}

#[test]
fn contains_is_a_match_under_the_mask() {
    let pairs = [
        ("10.0.0.0/8", "10.200.3.4/32"),
        ("10.0.0.0/8", "11.0.0.0/8"),
        ("10.0.0.0/9", "10.128.0.0/9"),
        ("192.168.4.0/22", "192.168.7.255/32"),
        ("192.168.4.0/22", "192.168.8.0/24"),
        ("0.0.0.0/0", "1.2.3.4/5"),
        ("1.2.3.4/32", "1.2.3.4/32"),
        ("10.0.0.0/16", "10.0.0.0/8"),
    ];
    for (a, b) in pairs {
        let a = net(a);
        let b = net(b);
        let longer = Prefix::prefix_len(&b) >= Prefix::prefix_len(&a);
        let cut = ptree::ipv4::prefix_from_octets(b.addr().octets(), Prefix::prefix_len(&a)).unwrap();
        let matches = longer && Prefix::to_masked(&cut).addr() == a.addr();
        assert_eq!(Prefix::contains(&a, &b), matches);
    }
}
