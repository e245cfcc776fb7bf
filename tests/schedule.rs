use contender::schedule::{ConfigError, RateProfile, TickSource};

#[test]
fn zero_rate_is_refused_before_any_tick() {
    let p = RateProfile::PerSecond { rate: 0, seconds: 5 };
    assert_eq!(p.validate(), Err(ConfigError::ZeroRate));
    assert!(matches!(TickSource::new(p), Err(ConfigError::ZeroRate)));
    let b = RateProfile::PerBlock { count: 0, blocks: 5 };
    assert!(matches!(TickSource::new(b), Err(ConfigError::ZeroRate)));
}

#[test]
fn zero_duration_gives_no_tick() {
    let mut s = TickSource::new(RateProfile::PerBlock { count: 3, blocks: 0 }).unwrap();
    assert_eq!(s.remaining(), 0);
    assert!(s.next_tick().is_none());
    let mut t = TickSource::new(RateProfile::PerSecond { rate: 7, seconds: 0 }).unwrap();
    assert!(t.next_tick().is_none());
}

#[test]
fn per_second_ticks_spread_over_the_duration() {
    let p = RateProfile::PerSecond { rate: 4, seconds: 3 };
    assert_eq!(p.total_ticks(), 12);
    assert_eq!(p.total_transactions(), 12);
    let mut s = TickSource::new(p).unwrap();
    let ticks = s.drain();
    assert_eq!(ticks.len(), 12);
    let at: Vec<u64> = ticks.iter().map(|t| t.at).collect();
    assert_eq!(at, vec![0, 250, 500, 750, 1000, 1250, 1500, 1750, 2000, 2250, 2500, 2750]);
    assert!(ticks.iter().all(|t| t.count == 1 && t.at < 3000));
    assert!(s.next_tick().is_none());
}

#[test]
fn per_second_uneven_rate_rounds_down() {
    let mut s = TickSource::new(RateProfile::PerSecond { rate: 3, seconds: 1 }).unwrap();
    let at: Vec<u64> = s.drain().iter().map(|t| t.at).collect();
    assert_eq!(at, vec![0, 333, 666]);
}

#[test]
fn per_block_one_tick_per_block() {
    let p = RateProfile::PerBlock { count: 3, blocks: 4 };
    assert_eq!(p.total_transactions(), 12);
    let mut s = TickSource::new(p).unwrap();
    let first = s.next_tick().unwrap();
    assert_eq!((first.index, first.at, first.count), (0, 0, 3));
    assert_eq!(s.remaining(), 3);
    let rest = s.drain();
    assert_eq!(rest.len(), 3);
    for (i, t) in rest.iter().enumerate() {
        assert_eq!(t.at, i as u64 + 1);
        assert_eq!(t.count, 3);
    }
    assert!(s.next_tick().is_none());
}

#[test]
fn largest_rate_and_duration_do_not_overflow() {
    let p = RateProfile::PerSecond { rate: u32::MAX, seconds: u32::MAX };
    assert_eq!(p.total_ticks(), (u32::MAX as u64) * (u32::MAX as u64));
    let mut s = TickSource::new(p).unwrap();
    assert_eq!(s.next_tick().unwrap().at, 0);
}
