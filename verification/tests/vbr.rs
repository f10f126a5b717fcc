use sc_opus::vbr::{base_target, vbr_choose_bytes, vbr_rate, VbrChoose, VbrState};

const BITRES: i32 = 3;

#[test]
fn vbr_rate_matches_the_closed_form() {
    assert_eq!(vbr_rate(64_000, 48_000, 960), 10_240);
    assert_eq!(vbr_rate(64_000, 48_000, 960) >> (BITRES + 3), 160);
    assert_eq!(vbr_rate(128_000, 48_000, 960), 20_480);
}

#[test]
fn base_target_removes_the_fixed_overhead() {
    let vr = vbr_rate(64_000, 48_000, 960);
    assert_eq!(base_target(vr, 1), vr - (60 << BITRES));
    assert_eq!(base_target(vr, 2), vr - (100 << BITRES));
}

#[test]
fn choose_bytes_stays_within_bounds() {
    let total_boost = 0;
    let nb_compressed = 160;
    let nb = vbr_choose_bytes(8_000, 200, total_boost, nb_compressed, 3, false);
    assert!(nb >= 2 && nb <= nb_compressed, "bytes {nb} out of bounds");
    let nb_big = vbr_choose_bytes(1_000_000, 200, total_boost, nb_compressed, 3, false);
    assert_eq!(nb_big, nb_compressed, "must clamp to the packet ceiling");
    assert_eq!(vbr_choose_bytes(8_000, 200, 0, nb_compressed, 3, true), 2);
}

#[test]
fn choose_bytes_is_monotonic_until_the_ceiling() {
    let a = vbr_choose_bytes(4_000, 100, 0, 200, 3, false);
    let b = vbr_choose_bytes(6_000, 100, 0, 200, 3, false);
    assert!(b >= a, "more target should not give fewer bytes: {a} -> {b}");
}

#[test]
fn choose_bytes_exact_rounding() {
    // (8000 + 200 + 32) / 64 = 128 bytes.
    assert_eq!(vbr_choose_bytes(8_000, 200, 0, 1275, 3, false), 128);
    // The packet ceiling at LM 0 is 1275 >> 3 = 159 bytes.
    assert_eq!(vbr_choose_bytes(1_000_000, 0, 0, 1275, 0, false), 159);
    // The floor is the bits already spent plus two bytes.
    assert_eq!(vbr_choose_bytes(0, 640, 0, 1275, 3, false), 12);
}

/// One stateful byte-budget step: the drift moves by the smoothing gain (the
/// reciprocal of the warm-up divisor, or 0.001 once settled) times the error,
/// rounded toward zero.
fn choose_step(st: &mut VbrState, target: i32, vbr_rate: i32, constrained: bool, silence: bool) -> i32 {
    let c = VbrChoose {
        target,
        tell_frac: 100,
        total_boost: 0,
        vbr_rate,
        nb_compressed_bytes: 1275,
        lm: 3,
        lm_diff: 0,
        constrained_vbr: constrained,
        silence,
    };
    let alpha = match st.drift_gain_divisor() {
        Some(d) => 1.0f32 / d as f32,
        None => 0.001f32,
    };
    let step = if constrained {
        (alpha * st.drift_error(&c) as f32) as i32
    } else {
        0
    };
    st.choose_bytes(&c, step)
}

#[test]
fn unconstrained_state_matches_the_free_function() {
    let mut st = VbrState::new();
    for &target in &[1_000, 4_000, 8_000, 50_000, 1_000_000] {
        let stateful = choose_step(&mut st, target, 8_000, false, false);
        let core = vbr_choose_bytes(target, 100, 0, 1275, 3, false);
        assert_eq!(stateful, core, "target {target}");
    }
    assert_eq!(st.base_target_offset(0), 0);
}

#[test]
fn silence_forces_two_bytes_and_freezes_drift() {
    let mut st = VbrState::new();
    let nb = choose_step(&mut st, 80_000, 8_000, true, true);
    assert_eq!(nb, 2, "silence must code a 2-byte frame");
    assert_eq!(st.base_target_offset(0), 0);
}

#[test]
fn constrained_undershoot_refills_from_the_reservoir() {
    let mut con = VbrState::new();
    let mut unc = VbrState::new();
    let mut con_last = 0;
    let mut unc_last = 0;
    for _ in 0..8 {
        con_last = choose_step(&mut con, 2_000, 40_000, true, false);
        unc_last = choose_step(&mut unc, 2_000, 40_000, false, false);
    }
    assert!(
        con_last >= unc_last,
        "constrained refill must not under-allocate vs unconstrained: {con_last} vs {unc_last}"
    );
    assert_ne!(con.base_target_offset(0), 0, "constrained drift should accumulate an offset");
}

#[test]
fn drift_offset_scales_down_with_lm_diff() {
    let mut st = VbrState::new();
    for _ in 0..8 {
        choose_step(&mut st, 2_000, 40_000, true, false);
    }
    let full = st.base_target_offset(0);
    let halved = st.base_target_offset(1);
    assert_eq!(halved, full >> 1, "lm_diff must arithmetic-shift the offset");
}

#[test]
fn drift_gain_warms_up_then_settles() {
    let mut st = VbrState::new();
    assert_eq!(st.drift_gain_divisor(), Some(21));
    choose_step(&mut st, 8_000, 8_000, false, false);
    assert_eq!(st.drift_gain_divisor(), Some(22));
}

#[test]
fn step_fits_rejects_budgets_that_overflow() {
    let st = VbrState::new();
    let mut c = VbrChoose {
        target: 4000,
        tell_frac: 100,
        total_boost: 0,
        vbr_rate: 3000,
        nb_compressed_bytes: 1275,
        lm: 3,
        lm_diff: 0,
        constrained_vbr: true,
        silence: false,
    };
    assert!(st.step_fits(&c, 0));
    assert!(st.step_fits(&c, 50));
    assert!(st.step_fits(&c, i32::MAX));
    assert!(!st.step_fits(&c, i32::MIN));
    c.target = i32::MAX - 10;
    assert!(!st.step_fits(&c, 0));
    c.target = 4000;
    c.lm_diff = 31;
    assert!(!st.step_fits(&c, 0));
}
