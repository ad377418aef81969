use trade::tick::{Tick, TickError};

#[test]
fn ticked_conversion() {
    let tick = Tick::new(1000);
    assert_eq!(tick.to_ticks(b"1278.853"), Ok(1278853));
    assert_eq!(tick.to_ticks(b"1278"), Ok(1278000));
    assert_eq!(tick.to_ticks(b"0.001"), Ok(1));
    assert_eq!(tick.to_ticks(b"0.00100000"), Ok(1));
    assert_eq!(tick.to_ticks(b"0"), Ok(0));
}

#[test]
fn unticked_conversion() {
    let tick = Tick::new(1000);
    assert_eq!(tick.from_ticks(1278853), Ok(b"1278.853".to_vec()));
    assert_eq!(tick.from_ticks(1278850), Ok(b"1278.85".to_vec()));
    assert_eq!(tick.from_ticks(1278000), Ok(b"1278".to_vec()));
    assert_eq!(tick.from_ticks(1), Ok(b"0.001".to_vec()));
    assert_eq!(tick.from_ticks(0), Ok(b"0".to_vec()));
}

#[test]
fn malformed_inputs() {
    let tick = Tick::new(1000);
    assert_eq!(tick.to_ticks(b""), Err(TickError::Malformed));
    assert_eq!(tick.to_ticks(b"."), Err(TickError::Malformed));
    assert_eq!(tick.to_ticks(b".5"), Err(TickError::Malformed));
    assert_eq!(tick.to_ticks(b"5."), Err(TickError::Malformed));
    assert_eq!(tick.to_ticks(b"1.2.3"), Err(TickError::Malformed));
    assert_eq!(tick.to_ticks(b"-1"), Err(TickError::Malformed));
    assert_eq!(tick.to_ticks(b"1e3"), Err(TickError::Malformed));
}

#[test]
fn misaligned_and_overflowing_inputs() {
    let tick = Tick::new(1000);
    assert_eq!(tick.to_ticks(b"0.0001"), Err(TickError::Misaligned));
    assert_eq!(tick.to_ticks(b"1.0005"), Err(TickError::Misaligned));
    // 2^64 ticks do not fit.
    assert_eq!(
        tick.to_ticks(b"18446744073709551.616"),
        Err(TickError::Overflow)
    );
    // A quarter tick works with a non-decimal unit.
    let quarters = Tick::new(4);
    assert_eq!(quarters.to_ticks(b"2.25"), Ok(9));
    assert_eq!(quarters.to_ticks(b"2.2"), Err(TickError::Misaligned));
    assert_eq!(quarters.from_ticks(9), Ok(b"2.25".to_vec()));
}

#[test]
fn round_trips() {
    let tick = Tick::new(1000);
    for n in [0u64, 1, 999, 1000, 1001, 1278853, 500, 250000] {
        let s = tick.from_ticks(n).unwrap();
        assert_eq!(tick.to_ticks(&s), Ok(n));
    }
    // An accepted string converts back to its canonical form.
    let n = tick.to_ticks(b"0042.4200").unwrap();
    assert_eq!(tick.from_ticks(n), Ok(b"42.42".to_vec()));
    // A unit with no terminating expansion for some remainders.
    let thirds = Tick::new(3);
    assert_eq!(thirds.from_ticks(1), Err(TickError::Misaligned));
    assert_eq!(thirds.from_ticks(3), Ok(b"1".to_vec()));
}
