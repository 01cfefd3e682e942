use fraction32::{gcd, lcm};

#[test]
fn gcd_of_common_values() {
    assert_eq!(gcd(12, 18), 6);
    assert_eq!(gcd(48, 180), 12);
    assert_eq!(gcd(17, 5), 1);
    assert_eq!(gcd(32768, 16384), 16384);
    assert_eq!(gcd(65535, 65535), 65535);
}

#[test]
fn gcd_is_symmetric() {
    assert_eq!(gcd(84, 36), gcd(36, 84));
    assert_eq!(gcd(1, 65535), gcd(65535, 1));
}

#[test]
fn gcd_with_zero() {
    assert_eq!(gcd(7, 0), 7);
    assert_eq!(gcd(0, 7), 7);
    assert_eq!(gcd(0, 0), 0);
}

#[test]
fn lcm_of_common_values() {
    assert_eq!(lcm(4, 6), 12);
    assert_eq!(lcm(3, 5), 15);
    assert_eq!(lcm(0, 9), 0);
    assert_eq!(lcm(255, 257), 65535);
    assert_eq!(lcm(300, 600), 600);
    assert_eq!(lcm(256, 512), 512);
    assert_eq!(lcm(1000, 3000), 3000);
}

#[test]
fn lcm_times_gcd_is_product() {
    for (a, b) in [(4u16, 6u16), (12, 18), (7, 0), (100, 250), (255, 257), (300, 600)] {
        assert_eq!(lcm(a, b) as u32 * gcd(a, b) as u32, a as u32 * b as u32);
    }
}
