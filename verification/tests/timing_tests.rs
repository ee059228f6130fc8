use stepchart::timeline::str_to_notes;
use stepchart::error::ChartError;
use stepchart::timing::{is_sorted, pauses_before, tempo_spans, Span};

fn seconds(offset: i32, tempo_offsets: &[i32], bpms: &[f32], pause_offsets: &[i32], pauses: &[f32]) -> f32 {
    let mut time = 0.0;
    for span in tempo_spans(offset, tempo_offsets).unwrap() {
        time += 60.0 / bpms[span.tempo] * (span.units as f32 / 48.0);
    }
    for pause in &pauses[..pauses_before(offset, pause_offsets)] {
        time += pause;
    }
    time
}

#[test]
fn walk_to_the_start_is_one_empty_span() {
    assert_eq!(tempo_spans(0, &[0]), Ok(vec![Span { tempo: 0, units: 0 }]));
    assert_eq!(tempo_spans(0, &[0, 192, 384]), Ok(vec![Span { tempo: 0, units: 0 }]));
}

#[test]
fn walk_past_the_only_tempo() {
    assert_eq!(
        tempo_spans(48, &[0]),
        Ok(vec![Span { tempo: 0, units: 0 }, Span { tempo: 0, units: 48 }])
    );
}

#[test]
fn walk_stops_inside_a_section() {
    assert_eq!(
        tempo_spans(100, &[0, 192]),
        Ok(vec![Span { tempo: 0, units: 0 }, Span { tempo: 0, units: 100 }])
    );
}

#[test]
fn walk_stops_on_a_tempo_change() {
    assert_eq!(
        tempo_spans(192, &[0, 192]),
        Ok(vec![Span { tempo: 0, units: 0 }, Span { tempo: 0, units: 192 }])
    );
}

#[test]
fn walk_past_the_last_tempo_change() {
    assert_eq!(
        tempo_spans(240, &[0, 192]),
        Ok(vec![
            Span { tempo: 0, units: 0 },
            Span { tempo: 0, units: 192 },
            Span { tempo: 1, units: 48 }
        ])
    );
    assert_eq!(
        tempo_spans(1000, &[0, 96, 288]),
        Ok(vec![
            Span { tempo: 0, units: 0 },
            Span { tempo: 0, units: 96 },
            Span { tempo: 1, units: 192 },
            Span { tempo: 2, units: 712 },
        ])
    );
}

#[test]
fn first_tempo_is_in_force_before_its_own_position() {
    assert_eq!(tempo_spans(10, &[48]), Ok(vec![Span { tempo: 0, units: 10 }]));
    assert_eq!(
        tempo_spans(100, &[48]),
        Ok(vec![Span { tempo: 0, units: 48 }, Span { tempo: 0, units: 52 }])
    );
}

#[test]
fn empty_tempo_list_is_refused() {
    assert_eq!(tempo_spans(0, &[]), Err(ChartError::TimingPrecondition));
    assert_eq!(tempo_spans(500, &[]), Err(ChartError::TimingPrecondition));
}

#[test]
fn extreme_positions_do_not_overflow() {
    assert_eq!(
        tempo_spans(i32::MAX, &[i32::MIN]),
        Ok(vec![
            Span { tempo: 0, units: i32::MIN as i64 },
            Span { tempo: 0, units: i32::MAX as i64 - i32::MIN as i64 },
        ])
    );
}

#[test]
fn pauses_count_only_strictly_before() {
    assert_eq!(pauses_before(0, &[0, 48, 96]), 0);
    assert_eq!(pauses_before(48, &[0, 48, 96]), 1);
    assert_eq!(pauses_before(49, &[0, 48, 96]), 2);
    assert_eq!(pauses_before(1000, &[0, 48, 96]), 3);
    assert_eq!(pauses_before(1000, &[]), 0);
}

#[test]
fn pauses_after_a_later_one_do_not_count() {
    assert_eq!(pauses_before(50, &[96, 0]), 0);
}

#[test]
fn units_per_tempo_never_shrink_as_the_position_grows() {
    let tempos = [0, 96, 96, 300, 1000];
    let mut before = vec![0i64; tempos.len()];
    let mut pauses = 0;
    for offset in 0..1200 {
        let mut units = vec![0i64; tempos.len()];
        let mut total = 0;
        for span in tempo_spans(offset, &tempos).unwrap() {
            units[span.tempo] += span.units;
            total += span.units;
        }
        assert_eq!(total, offset as i64);
        for k in 0..tempos.len() {
            assert!(before[k] <= units[k]);
        }
        let count = pauses_before(offset, &[10, 10, 500]);
        assert!(pauses <= count);
        before = units;
        pauses = count;
    }
}

#[test]
fn one_beat_at_a_single_tempo_takes_sixty_over_the_tempo() {
    for bpm in [60.0f32, 90.0, 120.0, 150.5, 200.0, 333.0] {
        assert_eq!(seconds(48, &[0], &[bpm], &[], &[]), 60.0 / bpm);
    }
}

#[test]
fn no_time_has_passed_at_the_start() {
    assert_eq!(seconds(0, &[0, 192], &[120.0, 240.0], &[0, 48], &[1.5, 2.0]), 0.0);
}

#[test]
fn seconds_over_two_tempos_and_a_pause() {
    assert_eq!(seconds(192, &[0, 96], &[120.0, 60.0], &[], &[]), 3.0);
    assert_eq!(seconds(192, &[0, 96], &[120.0, 60.0], &[96], &[0.5]), 3.5);
    assert_eq!(seconds(96, &[0, 96], &[120.0, 60.0], &[96], &[0.5]), 1.0);
}

#[test]
fn seconds_never_run_backwards() {
    let mut last = 0.0;
    for offset in 0..800 {
        let now = seconds(offset, &[0, 100, 400], &[120.0, 180.0, 90.0], &[50, 450], &[0.25, 1.0]);
        assert!(last <= now);
        last = now;
    }
}

#[test]
fn single_tap_chart_end_to_end() {
    let notes = str_to_notes(vec!["1000\n0000\n0000\n0000"]).unwrap();
    assert_eq!(notes.len(), 1);
    assert_eq!(notes[0].offset, 0);
    let time = seconds(notes[0].offset, &[0], &[120.0], &[], &[]);
    assert_eq!(time, 0.0);
    let music_length = time + 1.6;
    let notes_per_minute = notes.len() as f32 / music_length * 60.0;
    assert_eq!(notes_per_minute, 37.5);
    assert_eq!((notes_per_minute / 3.0) as i32, 12);
}

#[test]
fn sorted_lists_are_told_from_others() {
    assert!(is_sorted(&[]));
    assert!(is_sorted(&[5]));
    assert!(is_sorted(&[0, 0, 48, 96]));
    assert!(is_sorted(&[i32::MIN, -1, 0, i32::MAX]));
    assert!(!is_sorted(&[0, 96, 48]));
    assert!(!is_sorted(&[1, 0]));
}

#[test]
fn no_span_runs_backwards() {
    for offset in 0..700 {
        for span in tempo_spans(offset, &[0, 48, 48, 500]).unwrap() {
            assert!(span.units >= 0);
        }
        for span in tempo_spans(offset, &[96, 300]).unwrap() {
            assert!(span.units >= 0);
        }
    }
}
