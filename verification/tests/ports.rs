use kernel::ports::{init, try_alloc, Port, PortMap};

#[test]
fn claimed_ports_cannot_be_claimed_again() {
    let mut map = PortMap::new();
    assert!(try_alloc(0x3f8, 8, &mut map));
    assert!(!try_alloc(0x3f8, 8, &mut map));
    assert!(!try_alloc(0x3f0, 9, &mut map));
    assert!(!try_alloc(0x3ff, 1, &mut map));
    assert!(try_alloc(0x3f0, 8, &mut map));
    assert!(try_alloc(0x400, 1, &mut map));
}

#[test]
fn a_failed_claim_leaves_the_map_unchanged() {
    let mut map = PortMap::new();
    assert!(try_alloc(0x20, 2, &mut map));
    assert!(!try_alloc(0x1e, 4, &mut map));
    assert!(try_alloc(0x1e, 2, &mut map));
}

#[test]
fn empty_ranges_are_always_free() {
    let mut map = PortMap::new();
    assert!(try_alloc(0x60, 0, &mut map));
    assert!(try_alloc(0x60, 0, &mut map));
    assert!(try_alloc(0x60, 1, &mut map));
}

#[test]
fn alloc_ports_hands_out_a_handle() {
    let mut map = PortMap::new();
    let p = Port::alloc_ports(0x40, 4, &mut map).unwrap();
    assert_eq!(p.port_address(0), 0x40);
    assert_eq!(p.port_address(3), 0x43);
    assert!(Port::alloc_ports(0x42, 1, &mut map).is_none());
}

#[test]
fn dealloc_clears_the_bits_of_the_port_number_modulo_eight() {
    let mut map = PortMap::new();
    let mut p = Port::alloc_ports(0x3f8, 8, &mut map).unwrap();
    p.dealloc(&mut map);
    // each port of the range clears the bits of its number modulo 8 in its byte:
    // only the bits of ports 0x3f8..0x3fb (the values 1, 2 and 4) end up clear
    assert!(!try_alloc(0x3f8, 8, &mut map));
    assert!(!try_alloc(0x3fb, 1, &mut map));
    assert!(try_alloc(0x3f8, 3, &mut map));
    assert!(!try_alloc(0x3f8, 1, &mut map));
}

#[test]
fn init_claims_every_fixed_range() {
    let mut map = PortMap::new();
    init(&mut map, &vec![(0x3f8, 6), (0x40, 4), (0x20, 2)]);
    assert!(!try_alloc(0x3fd, 1, &mut map));
    assert!(try_alloc(0x3fe, 2, &mut map));
    assert!(!try_alloc(0x43, 1, &mut map));
    assert!(!try_alloc(0x21, 1, &mut map));
    assert!(try_alloc(0x22, 1, &mut map));
}

#[test]
fn port_handles() {
    let p = Port::new(0xa0, 2);
    assert_eq!(p.port_address(1), 0xa1);
    let e = Port::empty();
    let _ = e;
}
