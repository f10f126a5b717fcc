use sc_opus::band_tf::{tf_plan, tf_unplan};

#[test]
fn time_split_doubles_the_blocks_and_copies_the_fill() {
    let p = tf_plan(16, 4, -1, 0b0101);
    assert_eq!((p.recombine, p.time_divide, p.big_b, p.n_b, p.fill), (0, 1, 8, 2, 0x55));
    assert_eq!(tf_unplan(&p, 0x81, 4), 0x9);
}

#[test]
fn two_time_splits_stop_at_odd_block_length() {
    let p = tf_plan(8, 2, -2, 1);
    assert_eq!((p.recombine, p.time_divide, p.big_b, p.n_b, p.fill), (0, 2, 8, 1, 0x55));
}

#[test]
fn recombining_halves_the_blocks_and_interleaves_the_fill() {
    let p = tf_plan(16, 4, 1, 0xF);
    assert_eq!((p.recombine, p.time_divide, p.big_b, p.n_b, p.fill), (1, 0, 2, 8, 3));
    assert_eq!(tf_unplan(&p, 0b10, 4), 0xC);
}

#[test]
fn no_change_keeps_the_band() {
    let p = tf_plan(16, 4, 0, 0b1010);
    assert_eq!((p.recombine, p.time_divide, p.big_b, p.n_b, p.fill), (0, 0, 4, 4, 0b1010));
    assert_eq!(tf_unplan(&p, 0xFF, 4), 0xF);
}
