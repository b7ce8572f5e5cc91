use seqsynth::resynth::{FftWindow, Resynth};

#[test]
fn window_advances_and_wraps() {
    let mut window = FftWindow::new(8, 6, 1, 1);
    assert_eq!(window.length(), 8);
    assert_eq!(window.bins(), 5);
    assert_eq!(window.index(), 6);
    window.advance();
    assert_eq!(window.index(), 7);
    window.advance();
    assert_eq!(window.index(), 0);
    assert_eq!(window.samples(), 2);
    assert!(!window.is_fft_time());
}

#[test]
fn window_fires_after_first_fill() {
    let mut window = FftWindow::new(8, 0, 1, 1);
    for k in 1..=7 {
        window.advance();
        assert!(!window.is_fft_time(), "tick {}", k);
    }
    window.advance();
    assert_eq!(window.index(), 0);
    assert!(window.is_fft_time());
}

#[test]
fn window_reset_restores_phase() {
    let mut window = FftWindow::new(16, 4, 2, 2);
    for _ in 0..9 {
        window.advance();
    }
    window.reset(4);
    assert_eq!(window.index(), 4);
    assert_eq!(window.samples(), 0);
}

#[test]
fn four_windows_fire_in_turn() {
    // With length 8 the hop is 2: after the first fill, exactly one window
    // fires every second sample, starting with the zero-phase window.
    let mut core = Resynth::new(8, 1, 1);
    assert_eq!(core.bins(), 5);
    assert_eq!(core.window_length(), 8);
    let mut fires: Vec<(u64, Vec<usize>)> = Vec::new();
    for _ in 0..16 {
        let fire = core.tick();
        fires.push((core.samples(), fire));
    }
    for (samples, fire) in fires.iter() {
        match *samples {
            8 => assert_eq!(fire, &vec![0]),
            10 => assert_eq!(fire, &vec![3]),
            12 => assert_eq!(fire, &vec![2]),
            14 => assert_eq!(fire, &vec![1]),
            16 => assert_eq!(fire, &vec![0]),
            _ => assert!(fire.is_empty(), "unexpected fire at {}", samples),
        }
    }
}

#[test]
fn window_indices_stay_staggered() {
    let mut core = Resynth::new(16, 2, 2);
    for step in 0..40u64 {
        for i in 0..4 {
            let expected = ((step + i as u64 * 4) % 16) as usize;
            assert_eq!(core.window_index(i), expected, "window {} at {}", i, step);
        }
        core.tick();
    }
}

#[test]
fn reset_restores_all_phases() {
    let mut core = Resynth::new(1024, 1, 1);
    assert_eq!(core.bins(), 513);
    for _ in 0..777 {
        core.tick();
    }
    core.reset();
    assert_eq!(core.samples(), 0);
    for i in 0..4 {
        assert_eq!(core.window_index(i), i * 256);
    }
}
