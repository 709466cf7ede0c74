use rte::ethdev::{dev, devices, link_from_raw, ports, EthLink};

#[test]
fn dev_keeps_its_port_id() {
    assert_eq!(dev(0).portid(), 0);
    assert_eq!(dev(7).portid(), 7);
    assert_eq!(dev(255).portid(), 255);
}

#[test]
fn dev_handles_compare_by_port() {
    assert_eq!(dev(3), dev(3));
    assert_ne!(dev(3), dev(4));
}

#[test]
fn ports_enumerates_in_order() {
    assert_eq!(ports(0), Vec::<u8>::new());
    assert_eq!(ports(4), vec![0, 1, 2, 3]);
}

#[test]
fn devices_enumerates_handles() {
    let ds = devices(3);
    assert_eq!(ds.len(), 3);
    for (i, d) in ds.iter().enumerate() {
        assert_eq!(d.portid() as usize, i);
    }
}

#[test]
fn link_word_decodes_fields() {
    let raw: u64 = 10_000 | (1 << 32) | (1 << 34);
    let l = link_from_raw(raw);
    assert_eq!(l.speed, 10_000);
    assert!(l.duplex);
    assert!(!l.autoneg);
    assert!(l.up);
}

#[test]
fn link_down_word() {
    let l = link_from_raw(100 | (1 << 33));
    assert_eq!(l.speed, 100);
    assert!(!l.duplex);
    assert!(l.autoneg);
    assert!(!l.up);
}

#[test]
fn is_up_reads_the_link() {
    let up = EthLink { speed: 1000, duplex: true, autoneg: true, up: true };
    let down = EthLink { speed: 0, duplex: false, autoneg: false, up: false };
    assert!(dev(0).is_up(&up));
    assert!(!dev(0).is_up(&down));
}
