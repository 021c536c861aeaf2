use rand::rngs::StdRng;
use rand::{Rng, SeedableRng};

use std::collections::HashSet;

use reconcile::gen_ip::{gen_ip, gen_ipv4, gen_ipv6, IpBits, IpNetBits};

const N_ADDR: usize = 1000;

#[test]
fn rand_ipv4() {
    // sample host parts of a /8 network: every address stays in the
    // network and the samples do not repeat
    let mut rng = StdRng::seed_from_u64(42);
    let network: u32 = 0x7f00_0000;
    let hostmask: u32 = 0x00ff_ffff;
    let addrs: HashSet<u32> =
        (0..N_ADDR).map(|_| gen_ipv4(rng.gen(), network, hostmask)).collect();
    assert_eq!(addrs.len(), N_ADDR);
    for addr in addrs {
        assert_eq!(addr & !hostmask, network);
    }
}

#[test]
fn rand_ipv6() {
    // same for a /32 network of the larger address kind
    let mut rng = StdRng::seed_from_u64(42);
    let network: u128 = 0x2001_0db8_u128 << 96;
    let hostmask: u128 = (1u128 << 96) - 1;
    let addrs: HashSet<u128> =
        (0..N_ADDR).map(|_| gen_ipv6(rng.gen(), network, hostmask)).collect();
    assert_eq!(addrs.len(), N_ADDR);
    for addr in addrs {
        assert_eq!(addr & !hostmask, network);
    }
}

#[test]
fn gen_ip_dispatches_by_kind() {
    let v4 = gen_ip(0xffff_ffff_ffff_ffff, IpNetBits::V4 { network: 0x7f00_0000, hostmask: 0x00ff_ffff });
    assert_eq!(v4, IpBits::V4(0x7fff_ffff));
    let v6 = gen_ip(0xffff, IpNetBits::V6 { network: 0x2001_0db8_u128 << 96, hostmask: (1u128 << 96) - 1 });
    assert_eq!(v6, IpBits::V6((0x2001_0db8_u128 << 96) | 0xffff));
}
