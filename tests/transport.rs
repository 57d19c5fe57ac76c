use sandpile::{Sandpile, Stereo, TransportSync};

#[test]
fn first_playing_block_steps() {
    let mut t = TransportSync::new();
    assert_eq!(t.last_boundary(), None);
    assert!(t.on_block(true, 0, 0));
    assert_eq!(t.last_boundary(), Some(0));
}

#[test]
fn one_step_per_quarter_beat() {
    let mut t = TransportSync::new();
    assert!(t.on_block(true, 3, 0));
    assert!(!t.on_block(true, 3, 0));
    assert!(!t.on_block(true, 3, 0));
    assert!(t.on_block(true, 4, 0));
    assert_eq!(t.last_boundary(), Some(4));
    // a jump forward steps once, not once per missed boundary
    assert!(t.on_block(true, 9, 8));
    assert!(!t.on_block(true, 9, 8));
    assert_eq!(t.last_boundary(), Some(9));
}

#[test]
fn going_backwards_does_not_step() {
    let mut t = TransportSync::new();
    assert!(t.on_block(true, 10, 8));
    assert!(!t.on_block(true, 6, 4));
    assert_eq!(t.last_boundary(), Some(10));
}

#[test]
fn stopped_transport_never_steps_and_rewinds_to_bar_start() {
    let mut t = TransportSync::new();
    assert!(t.on_block(true, 13, 12));
    assert!(!t.on_block(false, 13, 12));
    assert!(!t.on_block(false, 40, 32));
    assert_eq!(t.last_boundary(), Some(32));
    // resuming at the bar start waits for the next boundary
    assert!(!t.on_block(true, 32, 32));
    assert!(t.on_block(true, 33, 32));
}

#[test]
fn transport_drives_steps() {
    let mut t = TransportSync::new();
    let mut s = Sandpile::new(3, 3).unwrap();
    s.add_at(8, (1, 1)).unwrap();
    let mut steps = 0;
    for tick in [0i64, 0, 0, 1, 1, 2] {
        if t.on_block(true, tick, 0) {
            s.step();
            steps += 1;
        }
    }
    assert_eq!(steps, 3);
    assert_eq!(s.stats().num_steps, 3);
    assert_eq!(s.get_value_at((1, 1)), Ok(0));
}

#[test]
fn stereo_holds_both_channels() {
    let s = Stereo { l: 1.5f32, r: -0.5f32 };
    assert_eq!(s.l, 1.5);
    assert_eq!(s.r, -0.5);
}
