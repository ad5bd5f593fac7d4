use vex::synth::Noise;

#[test]
fn noise_reseeds_identically() {
    let mut a = Noise::new();
    let mut b = Noise::new();
    let first: Vec<u32> = (0..2800).map(|_| a.next_bits()).collect();
    let second: Vec<u32> = (0..2800).map(|_| b.next_bits()).collect();
    assert_eq!(first, second, "noise reseeds identically");
}

#[test]
fn noise_matches_xorshift_star() {
    let mut x: u64 = 0x1234_5678_9ABC_DEF1;
    let mut noise = Noise::new();
    for _ in 0..100 {
        x ^= x >> 12;
        x ^= x << 25;
        x ^= x >> 27;
        let expected = (x.wrapping_mul(0x2545_F491_4F6C_DD1D) >> 40) as u32;
        let bits = noise.next_bits();
        assert_eq!(bits, expected);
        assert!(bits < 1 << 24);
    }
}

#[test]
fn noise_is_not_constant() {
    let mut noise = Noise::new();
    let samples: Vec<u32> = (0..16).map(|_| noise.next_bits()).collect();
    assert!(samples.windows(2).any(|w| w[0] != w[1]));
}
