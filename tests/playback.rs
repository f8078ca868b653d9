use typecast::playback::{
    calculate_delay, delay_for_offset, escape_sequence_length, unit_length, Action, PlaybackConfig,
    PlaybackEngine,
};
use typecast::script::{parse_script, Decimal};
use typecast::session::{Phase, SessionState, TeardownStep};

fn config(speed: u64, jitter: u64) -> PlaybackConfig {
    PlaybackConfig { speed: Decimal { billionths: speed }, jitter: Decimal { billionths: jitter } }
}

#[test]
fn escape_sequence_lengths() {
    assert_eq!(escape_sequence_length(b"\x1b"), 1);
    assert_eq!(escape_sequence_length(b"\x1b[A"), 3);
    assert_eq!(escape_sequence_length(b"\x1b[15~x"), 5);
    assert_eq!(escape_sequence_length(b"\x1b[1;5Cz"), 6);
    assert_eq!(escape_sequence_length(b"\x1b[12"), 4);
    assert_eq!(escape_sequence_length(b"\x1bOPq"), 3);
    assert_eq!(escape_sequence_length(b"\x1bO"), 2);
    assert_eq!(escape_sequence_length(b"\x1bx"), 2);
    assert_eq!(escape_sequence_length(b"a"), 1);
}

#[test]
fn unit_lengths_follow_utf8() {
    assert_eq!(unit_length("é!".as_bytes()), 2);
    assert_eq!(unit_length("✓".as_bytes()), 3);
    assert_eq!(unit_length("😀".as_bytes()), 4);
    assert_eq!(unit_length(b"\x1b[B"), 3);
    assert_eq!(unit_length("\u{1b}é".as_bytes()), 3);
    assert_eq!(unit_length("\u{1b}[1é".as_bytes()), 5);
    assert_eq!(unit_length("\u{1b}O✓".as_bytes()), 5);
}

#[test]
fn delay_without_jitter_is_base() {
    assert_eq!(calculate_delay(&PlaybackConfig::default()), 100_000_000);
    assert_eq!(calculate_delay(&config(200_000_000, 0)), 200_000_000);
    assert_eq!(calculate_delay(&config(200_000_000, 4)), 200_000_000);
}

#[test]
fn delay_for_offset_is_exact() {
    let c = config(200_000_000, 100_000_000);
    assert_eq!(delay_for_offset(&c, 0), 180_000_000);
    assert_eq!(delay_for_offset(&c, 20_000_000), 200_000_000);
    assert_eq!(delay_for_offset(&c, 40_000_000), 220_000_000);
    let wide = config(100_000_000, 2_000_000_000);
    assert_eq!(delay_for_offset(&wide, 0), 0);
}

#[test]
fn sampled_delays_stay_in_bounds() {
    let c = config(200_000_000, 250_000_000);
    let mut seen = std::collections::BTreeSet::new();
    for _ in 0..10_000 {
        let d = calculate_delay(&c);
        assert!((150_000_000..=250_000_000).contains(&d));
        seen.insert(d);
    }
    assert!(seen.len() > 1);
}

#[test]
fn sub_millisecond_speeds_keep_the_lower_bound() {
    let c = config(10_900_000, 10_000_000);
    for _ in 0..10_000 {
        let d = calculate_delay(&c);
        assert!((10_791_000..=11_009_000).contains(&d));
    }
}

#[test]
fn escape_sequences_go_out_whole() {
    let script = parse_script("@ speed:0.01\n$ a<up>é<F1>\n").unwrap();
    let mut engine = PlaybackEngine::new(script);
    let mut sent = Vec::new();
    loop {
        match engine.next_action(true) {
            Action::Send { keys, delay_ns } => {
                assert_eq!(delay_ns, 10_000_000);
                sent.push(keys);
            }
            Action::Pause { .. } => panic!("no pause expected"),
            Action::Finish => break,
        }
    }
    assert_eq!(
        sent,
        vec![b"a".to_vec(), b"\x1b[A".to_vec(), "é".as_bytes().to_vec(), b"\x1bOP".to_vec()]
    );
    assert_eq!(engine.config.speed.billionths, 10_000_000);
}

#[test]
fn waits_and_settings_take_effect_in_order() {
    let script = parse_script("@ shell:/bin/sh\n@ wait:1.5\n@ speed:0.05\n$ x\n").unwrap();
    let mut engine = PlaybackEngine::new(script);
    assert!(matches!(engine.next_action(true), Action::Pause { nanos: 1_500_000_000 }));
    match engine.next_action(true) {
        Action::Send { keys, delay_ns } => {
            assert_eq!(keys, b"x".to_vec());
            assert_eq!(delay_ns, 50_000_000);
        }
        _ => panic!("expected a keystroke"),
    }
    assert!(matches!(engine.next_action(true), Action::Finish));
    assert!(matches!(engine.next_action(true), Action::Finish));
}

#[test]
fn cancellation_stops_playback_for_good() {
    let script = parse_script("$ abc\n$ def\n").unwrap();
    let mut engine = PlaybackEngine::new(script);
    assert!(matches!(engine.next_action(true), Action::Send { .. }));
    assert!(matches!(engine.next_action(false), Action::Finish));
    assert!(engine.stopped);
    assert!(matches!(engine.next_action(true), Action::Finish));
}

#[test]
fn teardown_runs_in_order() {
    let mut s = SessionState::opened(true);
    assert!(s.accepts_input());
    let mut steps = Vec::new();
    loop {
        let step = s.teardown_step(true);
        assert!(!s.accepts_input());
        if step == TeardownStep::Done {
            break;
        }
        steps.push(step);
    }
    assert_eq!(
        steps,
        vec![
            TeardownStep::CloseInput,
            TeardownStep::JoinRelay,
            TeardownStep::Settle,
            TeardownStep::DrainInput,
            TeardownStep::RestoreMode,
        ]
    );
    assert_eq!(s.phase, Phase::Restored);
}

#[test]
fn teardown_skips_what_open_did_not_change() {
    let mut s = SessionState::opened(false);
    let mut steps = Vec::new();
    loop {
        let step = s.teardown_step(false);
        if step == TeardownStep::Done {
            break;
        }
        steps.push(step);
    }
    assert_eq!(steps, vec![TeardownStep::CloseInput, TeardownStep::JoinRelay, TeardownStep::Settle]);
}

#[test]
fn escape_before_a_wide_character_is_not_split() {
    let script = parse_script("@ speed:0\n$ <esc>é x\n").unwrap();
    let mut engine = PlaybackEngine::new(script);
    let mut sent = Vec::new();
    while let Action::Send { keys, .. } = engine.next_action(true) {
        sent.push(keys);
    }
    assert_eq!(
        sent,
        vec!["\u{1b}é".as_bytes().to_vec(), b" ".to_vec(), b"x".to_vec()]
    );
    for unit in &sent {
        assert!(std::str::from_utf8(unit).is_ok());
    }
}
