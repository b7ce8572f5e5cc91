use seqsynth::event::{EventId, IdSource};
use seqsynth::fade::Fade;
use seqsynth::sequencer::{fade_in_phase, fade_out_phase, sat_add, Sequencer};

/// Fifth-order smoothstep, the `Smooth` fade curve.
fn smooth5(x: f64) -> f64 {
    x * x * x * (x * (x * 6.0 - 15.0) + 10.0)
}

/// Equal-power fade, the `Power` fade curve.
fn sine_ease(x: f64) -> f64 {
    (std::f64::consts::FRAC_PI_2 * x).sin()
}

fn curve(fade: &Fade, x: f64) -> f64 {
    match fade {
        Fade::Power => sine_ease(x),
        Fade::Smooth => smooth5(x),
    }
}

/// Execute one block plan against a world of single-channel DC units keyed
/// by event id, exactly as the plan prescribes: render, fade, mix.
fn run_block(seq: &mut Sequencer, size: usize, values: &[(u64, f64)]) -> Vec<f64> {
    let plan = seq.process(size);
    let mut out = vec![0.0f64; size];
    for op in plan.ops.iter() {
        let dc = values
            .iter()
            .find(|(id, _)| *id == op.event.id.0)
            .map(|(_, v)| *v)
            .unwrap_or(0.0);
        for j in op.start_index..op.end_index {
            let t = plan.time0 + j as i64;
            let mut sample = dc;
            if let Some((num, den)) = fade_in_phase(&op.event, t) {
                sample *= curve(&op.event.fade_ease, num as f64 / den as f64);
            }
            if let Some((num, den)) = fade_out_phase(&op.event, t) {
                sample *= curve(&op.event.fade_ease, 1.0 - num as f64 / den as f64);
            }
            out[j] += sample;
        }
    }
    out
}

#[test]
fn dc_unit_one_second() {
    // One DC unit emitting 1.0 on [0, 1) seconds at 48000 Hz, no fades.
    let mut seq = Sequencer::new(false, 1);
    let id = seq.push(0, 48000, Fade::Smooth, 0, 0, 0, 1);
    let values = [(id.0, 1.0)];
    let mut out: Vec<f64> = Vec::new();
    for _ in 0..188 {
        out.extend(run_block(&mut seq, 256, &values));
    }
    assert_eq!(out.len(), 48128);
    for i in 0..48000 {
        assert_eq!(out[i], 1.0, "sample {}", i);
    }
    for i in 48000..48128 {
        assert_eq!(out[i], 0.0, "sample {}", i);
    }
}

#[test]
fn dc_unit_smooth_fades() {
    // Same DC unit with 0.1 s smooth fades on both ends.
    let mut seq = Sequencer::new(false, 1);
    let id = seq.push(0, 48000, Fade::Smooth, 4800, 4800, 0, 1);
    let values = [(id.0, 1.0)];
    let mut out: Vec<f64> = Vec::new();
    for _ in 0..188 {
        out.extend(run_block(&mut seq, 256, &values));
    }
    for i in 0..4800usize {
        let expected = smooth5(i as f64 / 4800.0);
        assert!((out[i] - expected).abs() < 1e-12, "sample {}", i);
    }
    for i in 4800..43200usize {
        assert_eq!(out[i], 1.0, "sample {}", i);
    }
    for i in 43201..48000usize {
        let expected = smooth5(1.0 - (i as f64 - 43200.0) / 4800.0);
        assert!((out[i] - expected).abs() < 1e-12, "sample {}", i);
    }
}

#[test]
fn power_crossfade_constant_power() {
    // A fades out over [0.5, 1.0) while B fades in over the same span; the
    // two equal-power gains keep constant power and sum to sqrt(2) at the
    // middle of the overlap.
    let mut seq = Sequencer::new(false, 1);
    let a = seq.push(0, 48000, Fade::Power, 0, 24000, 0, 1);
    let b = seq.push(24000, 72000, Fade::Power, 24000, 0, 0, 1);
    let values = [(a.0, 1.0), (b.0, 1.0)];
    let mut out: Vec<f64> = Vec::new();
    for _ in 0..282 {
        out.extend(run_block(&mut seq, 256, &values));
    }
    for i in 24001..48000usize {
        let phase = (i as f64 - 24000.0) / 24000.0;
        let gain_a = sine_ease(1.0 - phase);
        let gain_b = sine_ease(phase);
        assert!(
            (gain_a * gain_a + gain_b * gain_b - 1.0).abs() < 1e-6,
            "power at {}",
            i
        );
        assert!((out[i] - (gain_a + gain_b)).abs() < 1e-9, "sum at {}", i);
    }
    let mid = out[36000];
    assert!((mid - 2f64.sqrt()).abs() < 1e-5);
}

#[test]
fn edit_removes_active_event_and_returns_it() {
    // An open-ended event is cut short by an edit; the backend retires it
    // within the next block and returns it over the queue.
    let mut front = Sequencer::new(false, 1);
    let mut back = front.backend();
    let id = front.push(0, i64::MAX, Fade::Smooth, 0, 0, 0, 1);
    let plan = back.process(256);
    assert_eq!(plan.ops.len(), 1);
    assert_eq!(plan.ops[0].event.id, id);

    front.edit(id, 256, 0);
    let plan = back.process(256);
    assert_eq!(plan.ops.len(), 0);

    let returned = front
        .front
        .as_ref()
        .unwrap()
        .recv_return()
        .expect("the retired event comes back over the return queue");
    assert_eq!(returned.id, id);
}

#[test]
fn push_relative_resolves_against_backend_time() {
    // The frontend pushes a relative event while the backend sits at
    // another time; the offset resolves against the backend's time when
    // the message is consumed.
    let mut front = Sequencer::new(false, 1);
    let mut back = front.backend();
    for _ in 0..4 {
        back.process(256);
    }
    assert_eq!(back.seq.time, 1024);
    let id = front.push_relative(100, 200, Fade::Smooth, 0, 0, 0, 1);
    back.process(256);
    let scheduled = back
        .seq
        .ready
        .iter()
        .chain(back.seq.active.iter())
        .find(|e| e.id == id)
        .expect("the relative event reached the backend");
    assert_eq!(scheduled.start_time, 1024 + 100);
    assert_eq!(scheduled.end_time, 1024 + 200);
}

#[test]
fn degenerate_event_is_silent_and_expires() {
    // An event with start == end produces no output samples and moves
    // directly to the past list.
    let mut seq = Sequencer::new(true, 1);
    let id = seq.push(100, 100, Fade::Smooth, 0, 0, 0, 1);
    let values = [(id.0, 1.0)];
    let mut out: Vec<f64> = Vec::new();
    for _ in 0..4 {
        out.extend(run_block(&mut seq, 256, &values));
    }
    assert!(out.iter().all(|s| *s == 0.0));
    assert!(seq.active.iter().all(|e| e.id != id));
    assert!(seq.past.iter().any(|e| e.id == id));
}

#[test]
fn replay_reset_reproduces_samples() {
    // With replay_events, a reset rewinds the whole schedule; the same
    // block schedule then reproduces the same samples.
    let mut seq = Sequencer::new(true, 1);
    let a = seq.push(0, 700, Fade::Smooth, 300, 200, 0, 1);
    let b = seq.push(500, 1500, Fade::Power, 400, 400, 0, 1);
    let values = [(a.0, 0.8), (b.0, 0.5)];
    let mut first: Vec<f64> = Vec::new();
    for _ in 0..8 {
        first.extend(run_block(&mut seq, 256, &values));
    }
    seq.reset();
    assert_eq!(seq.time, 0);
    let mut second: Vec<f64> = Vec::new();
    for _ in 0..8 {
        second.extend(run_block(&mut seq, 256, &values));
    }
    assert_eq!(first, second);
}

#[test]
fn crossfade_without_sustain_is_continuous() {
    // fade_in + fade_out == duration: the envelope is a continuous
    // crossfade, reaching gain one exactly at the junction sample.
    let mut seq = Sequencer::new(false, 1);
    let id = seq.push(0, 2000, Fade::Smooth, 1000, 1000, 0, 1);
    let values = [(id.0, 1.0)];
    let mut out: Vec<f64> = Vec::new();
    for _ in 0..8 {
        out.extend(run_block(&mut seq, 250, &values));
    }
    assert_eq!(out[1000], 1.0);
    for i in 1..2000usize {
        assert!((out[i] - out[i - 1]).abs() < 0.01, "jump at {}", i);
    }
}

#[test]
fn edit_before_promotion_applies_on_promotion() {
    // An edit against an event still in the ready set is remembered and
    // applied when the event is promoted.
    let mut seq = Sequencer::new(false, 1);
    let id = seq.push(1000, 10000, Fade::Smooth, 0, 0, 0, 1);
    seq.edit(id, 1100, 0);
    let values = [(id.0, 1.0)];
    let mut out: Vec<f64> = Vec::new();
    for _ in 0..8 {
        out.extend(run_block(&mut seq, 256, &values));
    }
    for i in 0..1000 {
        assert_eq!(out[i], 0.0, "sample {}", i);
    }
    for i in 1000..1100 {
        assert_eq!(out[i], 1.0, "sample {}", i);
    }
    for i in 1100..2048 {
        assert_eq!(out[i], 0.0, "sample {}", i);
    }
}

#[test]
fn late_edit_is_dropped() {
    // An edit whose target has already expired changes nothing.
    let mut seq = Sequencer::new(false, 1);
    let id = seq.push(0, 100, Fade::Smooth, 0, 0, 0, 1);
    let values = [(id.0, 1.0)];
    run_block(&mut seq, 256, &values);
    run_block(&mut seq, 256, &values);
    seq.edit(id, 50000, 0);
    let out = run_block(&mut seq, 256, &values);
    assert!(out.iter().all(|s| *s == 0.0));
}

#[test]
fn event_ids_are_unique_and_monotone() {
    let mut ids = IdSource::new();
    let a = EventId::new(&mut ids);
    let b = EventId::new(&mut ids);
    let c = EventId::new(&mut ids);
    assert_ne!(a, b);
    assert_ne!(b, c);
    assert_ne!(a, c);
    assert!(a.0 < b.0 && b.0 < c.0);

    let mut seq = Sequencer::new(false, 2);
    let x = seq.push(0, 10, Fade::Smooth, 0, 0, 0, 2);
    let y = seq.push(0, 10, Fade::Smooth, 0, 0, 0, 2);
    assert_ne!(x, y);
}

#[test]
fn push_duration_is_start_plus_duration() {
    let mut seq = Sequencer::new(false, 1);
    let id = seq.push_duration(100, 400, Fade::Smooth, 0, 0, 0, 1);
    let event = seq.ready.iter().find(|e| e.id == id).unwrap();
    assert_eq!(event.start_time, 100);
    assert_eq!(event.end_time, 500);
}

#[test]
fn set_sample_rate_rewinds_schedule() {
    let mut seq = Sequencer::new(false, 1);
    let id = seq.push(0, 1000, Fade::Smooth, 0, 0, 0, 1);
    let values = [(id.0, 1.0)];
    run_block(&mut seq, 256, &values);
    assert_eq!(seq.active.len(), 1);
    seq.set_sample_rate(96000);
    assert_eq!(seq.active.len(), 0);
    assert_eq!(seq.ready.len(), 1);
    let out = run_block(&mut seq, 256, &values);
    assert!(out.iter().all(|s| *s == 1.0));
}

#[test]
fn tick_matches_block_of_one() {
    let mut seq = Sequencer::new(false, 1);
    let id = seq.push(2, 6, Fade::Smooth, 0, 0, 0, 1);
    let mut out: Vec<f64> = Vec::new();
    for _ in 0..8 {
        let plan = seq.tick();
        let mut sample = 0.0;
        for op in plan.ops.iter() {
            let mut s = if op.event.id == id { 1.0 } else { 0.0 };
            if let Some((num, den)) = op.fade_in_phase {
                s *= smooth5(num as f64 / den as f64);
            }
            if let Some((num, den)) = op.fade_out_phase {
                s *= smooth5(1.0 - num as f64 / den as f64);
            }
            sample += s;
        }
        out.push(sample);
    }
    assert_eq!(out, vec![0.0, 0.0, 1.0, 1.0, 1.0, 1.0, 0.0, 0.0]);
}

#[test]
fn saturating_time_translation() {
    assert_eq!(sat_add(1, 2), 3);
    assert_eq!(sat_add(i64::MAX, 1), i64::MAX);
    assert_eq!(sat_add(i64::MIN, -1), i64::MIN);
    assert_eq!(sat_add(1000, i64::MAX), i64::MAX);
}

#[test]
fn backend_tick_renders_per_sample() {
    let mut front = Sequencer::new(false, 1);
    let mut back = front.backend();
    let id = front.push(2, 5, Fade::Smooth, 0, 0, 0, 1);
    let mut out: Vec<f64> = Vec::new();
    for _ in 0..8 {
        let plan = back.tick();
        let mut sample = 0.0;
        for op in plan.ops.iter() {
            if op.event.id == id {
                sample += 1.0;
            }
        }
        out.push(sample);
    }
    assert_eq!(out, vec![0.0, 0.0, 1.0, 1.0, 1.0, 0.0, 0.0, 0.0]);
    assert_eq!(back.seq.time, 8);
}
