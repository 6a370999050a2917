use pool::player::PlaybackClock;

#[test]
fn loops_at_duration() {
    let c = PlaybackClock::new(30, 1);
    assert_eq!(c.next_frame(299, 300), 0);
    assert_eq!(c.next_frame(10, 300), 11);
}

#[test]
fn rate_terms_are_at_least_one() {
    let c = PlaybackClock::new(0, 0);
    assert_eq!((c.fps_num, c.fps_den), (1, 1));
    let d = PlaybackClock::new(30000, 1001);
    assert_eq!((d.fps_num, d.fps_den), (30000, 1001));
}

#[test]
fn empty_duration_stays_on_frame_zero() {
    let c = PlaybackClock::new(30, 1);
    assert_eq!(c.next_frame(0, 0), 0);
    assert_eq!(c.next_frame(0, -5), 0);
}

#[test]
fn playback_cycles_through_every_frame() {
    let c = PlaybackClock::new(24, 1);
    let mut f = 0;
    for step in 1..=5 {
        f = c.next_frame(f, 5);
        assert_eq!(f, step % 5);
    }
    assert_eq!(f, 0);
}
