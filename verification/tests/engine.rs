use lfsr::engine::GaloisLfsr;
use lfsr::taps::{galois_inverse_mask, galois_mask};
use lfsr::LFSR;
use lfsr::LFSRStatic;

// Maximal-length tap configurations for widths 2 through 32.
const CONFIGS: [(u32, &[u32]); 31] = [
    (32, &[32, 30, 26, 25]),
    (31, &[31, 28]),
    (30, &[30, 29, 26, 24]),
    (29, &[29, 27]),
    (28, &[28, 25]),
    (27, &[27, 26, 25, 22]),
    (26, &[26, 25, 24, 20]),
    (25, &[25, 22]),
    (24, &[24, 23, 21, 20]),
    (23, &[23, 18]),
    (22, &[22, 21]),
    (21, &[21, 19]),
    (20, &[20, 17]),
    (19, &[19, 18, 17, 14]),
    (18, &[18, 11]),
    (17, &[17, 14]),
    (16, &[16, 14, 13, 11]),
    (15, &[15, 14]),
    (14, &[14, 13, 11, 9]),
    (13, &[13, 12, 10, 9]),
    (12, &[12, 11, 8, 6]),
    (11, &[11, 9]),
    (10, &[10, 7]),
    (9, &[9, 5]),
    (8, &[8, 6, 5, 4]),
    (7, &[7, 6]),
    (6, &[6, 5]),
    (5, &[5, 3]),
    (4, &[4, 3]),
    (3, &[3, 2]),
    (2, &[2, 1]),
];

fn sequence_length_of(width: u32) -> u32 {
    if width == 32 {
        u32::MAX
    } else {
        (1u32 << width) - 1
    }
}

fn make(width: u32, taps: &[u32], initial_state: u32) -> GaloisLfsr {
    GaloisLfsr::new(width, sequence_length_of(width), taps, initial_state)
}

#[test]
fn galois32_first_states() {
    let mut lfsr = make(32, &[32, 30, 26, 25], 1);
    assert_eq!(lfsr.state, 0b00000000000000000000000000000001);
    lfsr.inc();
    assert_eq!(lfsr.state, 0b10100011000000000000000000000000);
    lfsr.inc();
    assert_eq!(lfsr.state, 0b01010001100000000000000000000000);
    lfsr.inc();
    assert_eq!(lfsr.state, 0b00101000110000000000000000000000);
    lfsr.inc();
    assert_eq!(lfsr.state, 0b00010100011000000000000000000000);
    lfsr.inc();
    assert_eq!(lfsr.state, 0b00001010001100000000000000000000);
    lfsr.inc();
    assert_eq!(lfsr.state, 0b00000101000110000000000000000000);
    lfsr.inc();
    assert_eq!(lfsr.state, 0b00000010100011000000000000000000);
    lfsr.inc();
    assert_eq!(lfsr.state, 0b00000001010001100000000000000000);
    lfsr.inc();
    assert_eq!(lfsr.state, 0b00000000101000110000000000000000);
    lfsr.inc();
    assert_eq!(lfsr.state, 0b00000000010100011000000000000000);
    lfsr.inc();
    assert_eq!(lfsr.state, 0b00000000001010001100000000000000);
    lfsr.inc();
    assert_eq!(lfsr.state, 0b00000000000101000110000000000000);
    lfsr.inc();
    assert_eq!(lfsr.state, 0b00000000000010100011000000000000);
    lfsr.inc();
    assert_eq!(lfsr.state, 0b00000000000001010001100000000000);
    lfsr.inc();
    assert_eq!(lfsr.state, 0b00000000000000101000110000000000);
    lfsr.inc();
    assert_eq!(lfsr.state, 0b00000000000000010100011000000000);
    lfsr.inc();
    assert_eq!(lfsr.state, 0b00000000000000001010001100000000);
    lfsr.inc();
    assert_eq!(lfsr.state, 0b00000000000000000101000110000000);
    lfsr.inc();
    assert_eq!(lfsr.state, 0b00000000000000000010100011000000);
    lfsr.inc();
    assert_eq!(lfsr.state, 0b00000000000000000001010001100000);
    lfsr.inc();
    assert_eq!(lfsr.state, 0b00000000000000000000101000110000);
    lfsr.inc();
    assert_eq!(lfsr.state, 0b00000000000000000000010100011000);
    lfsr.inc();
    assert_eq!(lfsr.state, 0b00000000000000000000001010001100);
    lfsr.inc();
    assert_eq!(lfsr.state, 0b00000000000000000000000101000110);
    lfsr.inc();
    assert_eq!(lfsr.state, 0b00000000000000000000000010100011);
    lfsr.inc();
    assert_eq!(lfsr.state, 0b10100011000000000000000001010001);
    lfsr.inc();
    assert_eq!(lfsr.state, 0b11110010100000000000000000101000);
    lfsr.inc();
    assert_eq!(lfsr.state, 0b01111001010000000000000000010100);
    lfsr.inc();
    assert_eq!(lfsr.state, 0b00111100101000000000000000001010);
    lfsr.inc();
    assert_eq!(lfsr.state, 0b00011110010100000000000000000101);
    lfsr.inc();
    assert_eq!(lfsr.state, 0b10101100001010000000000000000010);
}

#[test]
fn galois_mask_values() {
    // Zero-based tap bit positions of the 32-bit configuration.
    assert_eq!(galois_mask(&[31, 29, 25, 24]), 0b10100011000000000000000000000000);
    // Zero-based tap bit positions of the 16-bit configuration.
    assert_eq!(galois_mask(&[15, 13, 12, 10]), 0b1011010000000000);
    assert_eq!(galois_mask(&[]), 0);
}

#[test]
fn galois_inverse_mask_values() {
    assert_eq!(
        galois_inverse_mask(0b10100011000000000000000000000000, 32),
        0b01000110000000000000000000000001
    );
    assert_eq!(galois_inverse_mask(0b1011010000000000, 16), 0b10110100000000001);
}

#[test]
fn inverse_law_all_widths() {
    // Counting up then down, and down then up, restores every sampled state.
    for (width, taps) in CONFIGS.iter() {
        let mask = sequence_length_of(*width);
        for seed in [1u32, 2, 3, 0b101, 0xffff_ffff & mask, 0x1234_5678 & mask, 0] {
            let seed = seed & mask;
            let mut lfsr = make(*width, taps, seed);
            lfsr.inc();
            lfsr.dec();
            assert_eq!(lfsr.state, seed);
            lfsr.dec();
            lfsr.inc();
            assert_eq!(lfsr.state, seed);
        }
    }
}

#[test]
fn lockup_state_is_fixed_point() {
    for (width, taps) in CONFIGS.iter() {
        let mut lfsr = make(*width, taps, 0);
        lfsr.inc();
        assert_eq!(lfsr.state, 0);
        lfsr.dec();
        assert_eq!(lfsr.state, 0);
    }
}

#[test]
fn back_and_forth() {
    for (width, taps) in CONFIGS.iter() {
        let mut lfsr = make(*width, taps, 1);
        for _ in 0..1000 {
            lfsr.inc();
        }
        for _ in 0..1000 {
            lfsr.dec();
        }
        assert_eq!(lfsr.state, 1);
    }
}

#[test]
fn cycle_returns_to_start() {
    // The walk returns to the canonical start state exactly after
    // sequence_length steps and not before.
    for (width, taps) in CONFIGS.iter().filter(|(w, _)| *w <= 16) {
        let mut lfsr = make(*width, taps, 1);
        let mut count: u32 = 1;
        lfsr.inc();
        while lfsr.get_state() != 1 {
            lfsr.inc();
            count += 1;
            assert!(count <= lfsr.sequence_length());
        }
        assert_eq!(count, lfsr.sequence_length());
    }
}

#[test]
fn sequence_length_reported() {
    let lfsr = make(16, &[16, 14, 13, 11], 1);
    assert_eq!(lfsr.sequence_length(), 65535);
    let lfsr = make(32, &[32, 30, 26, 25], 1);
    assert_eq!(lfsr.sequence_length(), 4294967295);
}

#[test]
fn get_state_reads_state() {
    let mut lfsr = make(16, &[16, 14, 13, 11], 1);
    assert_eq!(lfsr.get_state(), 1);
    lfsr.inc();
    assert_eq!(lfsr.get_state(), lfsr.state);
}
