use lfsr::direct::ReverseTable;
use lfsr::engine::GaloisLfsr;
use lfsr::LFSR;

fn sequence_length_of(width: u32) -> u32 {
    if width == 32 {
        u32::MAX
    } else {
        (1u32 << width) - 1
    }
}

fn make(width: u32, taps: &[u32]) -> GaloisLfsr {
    GaloisLfsr::default_start(width, sequence_length_of(width), taps)
}

#[test]
fn reverse_table_round_trip() {
    // Querying the table for every state visited during the exhaustive
    // walk returns exactly the position recorded for that state, and each
    // position appears exactly once.
    let config = make(8, &[8, 6, 5, 4]);
    let table = ReverseTable::build(&config).unwrap();

    let mut lfsr = make(8, &[8, 6, 5, 4]);
    let mut seen = [false; 255];
    for position in 0..255u32 {
        let looked_up = table.lookup(&lfsr);
        assert_eq!(looked_up, position);
        assert!(!seen[looked_up as usize]);
        seen[looked_up as usize] = true;
        lfsr.inc();
    }
    assert!(seen.iter().all(|s| *s));
    // One more step closes the cycle.
    assert_eq!(lfsr.get_state(), 1);
}

#[test]
fn reverse_table_sentinel_for_lockup() {
    let table = ReverseTable::build(&make(8, &[8, 6, 5, 4])).unwrap();
    assert_eq!(table.positions.len(), 256);
    assert_eq!(table.positions[0], 0);
}

#[test]
fn reverse_table_rejects_non_maximal_taps() {
    // x^4 + x^2 + 1 is reducible: the walk revisits the start state early,
    // so the cycle-completeness check fails.
    let config = make(4, &[4, 2]);
    assert!(ReverseTable::build(&config).is_none());
}

#[test]
fn reverse_table_builds_for_small_widths() {
    let configs: [(u32, &[u32]); 6] =
        [(2, &[2, 1]), (3, &[3, 2]), (4, &[4, 3]), (5, &[5, 3]), (6, &[6, 5]), (7, &[7, 6])];
    for (width, taps) in configs.iter() {
        let table = ReverseTable::build(&make(*width, taps));
        assert!(table.is_some());
        let expected_len = (sequence_length_of(*width) as usize) + 1;
        assert_eq!(table.unwrap().positions.len(), expected_len);
    }
}

#[test]
fn direct_lookup_tracks_wrap_around() {
    let config = make(12, &[12, 11, 8, 6]);
    let table = ReverseTable::build(&config).unwrap();
    let mut lfsr = make(12, &[12, 11, 8, 6]);
    for _ in 0..4095 {
        lfsr.inc();
    }
    // A full cycle returns to position 0.
    assert_eq!(table.lookup(&lfsr), 0);
    lfsr.inc();
    assert_eq!(table.lookup(&lfsr), 1);
}
