use stepchart::arrow::{ofs_to_color, Arrow, ArrowType, Color, Direction, Division};
use stepchart::timeline::str_to_notes;
use stepchart::error::ChartError;
use stepchart::gimmick::{sort_gimmicks, sorted_order, BpmOrStop, Kind};
use stepchart::groove_radar::{
    calc_freeze_units, calc_max_note_density, calc_max_notes_in_bpm_section, chaos_steps,
    color_weight, count_air, count_jumps, count_shocks, count_subsequent_notes,
    create_bpm_section_list, section_of, tempo_sections, ChaosStep, GrooveRadar,
};
use stepchart::math::toward_zero;
use stepchart::scale::{air_scale, chaos_scale, freeze_scale, stream_scale, voltage_scale};

fn taps(offsets: &[i32]) -> Vec<Division> {
    offsets
        .iter()
        .map(|&offset| Division {
            arrows: vec![Arrow { direction: Direction::Left, arrow_type: ArrowType::Normal, end: 0 }],
            color: ofs_to_color(offset),
            offset,
        })
        .collect()
}

fn offsets(notes: &[Division]) -> Vec<i32> {
    notes.iter().map(|d| d.offset).collect()
}

#[test]
fn subsequent_notes_lie_within_one_measure() {
    let notes = taps(&[0, 48, 96, 192, 193, 400]);
    assert_eq!(count_subsequent_notes(&notes, 0), 3);
    assert_eq!(count_subsequent_notes(&notes, 1), 4);
    assert_eq!(count_subsequent_notes(&notes, 48), 3);
    assert_eq!(count_subsequent_notes(&notes, 193), 0);
    assert_eq!(count_subsequent_notes(&notes, 208), 1);
    assert_eq!(count_subsequent_notes(&notes, 400), 0);
    assert_eq!(count_subsequent_notes(&[], 0), 0);
}

#[test]
fn subsequent_notes_near_the_last_position() {
    let notes = taps(&[i32::MAX - 1, i32::MAX]);
    assert_eq!(count_subsequent_notes(&notes, i32::MAX - 1), 1);
    assert_eq!(count_subsequent_notes(&notes, i32::MAX), 0);
}

#[test]
fn sections_run_from_tempo_change_to_tempo_change() {
    assert_eq!(tempo_sections(&[20, 30, 34], 35), vec![(20, 30), (30, 34), (34, 35)]);
    assert_eq!(tempo_sections(&[0], 500), vec![(0, 500)]);
    assert_eq!(tempo_sections(&[], 500), vec![]);
}

#[test]
fn section_holds_its_lower_bound_and_not_its_upper() {
    let notes = taps(&[1, 4, 10, 12, 21, 30, 35]);
    assert_eq!(offsets(&section_of(&notes, 4, 21)), vec![4, 10, 12]);
    assert_eq!(offsets(&section_of(&notes, 36, 40)), Vec::<i32>::new());
}

#[test]
fn chart_is_cut_at_its_tempo_changes() {
    let notes = taps(&[1, 4, 10, 12, 21, 30, 35]);
    let parts = create_bpm_section_list(&notes, &[0, 20, 30, 34]);
    let found: Vec<Vec<i32>> = parts.iter().map(|part| offsets(part)).collect();
    assert_eq!(found, vec![vec![1, 4, 10, 12], vec![21], vec![30], vec![]]);
    assert_eq!(parts[0][1], notes[1]);
}

#[test]
fn density_of_a_section() {
    assert_eq!(calc_max_notes_in_bpm_section(&[]), 0);
    assert_eq!(calc_max_notes_in_bpm_section(&taps(&[0])), 0);
    assert_eq!(calc_max_notes_in_bpm_section(&taps(&[0, 48, 96, 144, 192, 240])), 4);
    assert_eq!(calc_max_notes_in_bpm_section(&taps(&[0, 500, 1000])), 0);
    assert_eq!(calc_max_notes_in_bpm_section(&taps(&[0, 500, 512, 524, 536, 1000])), 3);
}

#[test]
fn density_of_a_chart_is_that_of_its_densest_section() {
    let notes = taps(&[0, 48, 96, 144, 192, 204, 216, 228, 240, 252, 600]);
    assert_eq!(calc_max_note_density(&notes, &[0]), Ok(7));
    assert_eq!(calc_max_note_density(&notes, &[0, 192]), Ok(5));
    assert_eq!(calc_max_note_density(&notes, &[0, 192, 240]), Ok(3));
    assert_eq!(calc_max_note_density(&notes, &[600]), Ok(0));
}

#[test]
fn density_needs_a_tempo() {
    assert_eq!(calc_max_note_density(&taps(&[0]), &[]), Err(ChartError::TimingPrecondition));
}

#[test]
fn jumps_and_shocks_are_counted() {
    let notes = str_to_notes(vec!["1100\n1000\n0M00\n1M10\n1110\n0022\n0000\n0033"]).unwrap();
    assert_eq!(notes.len(), 6);
    assert_eq!(count_jumps(&notes), 3);
    assert_eq!(count_shocks(&notes), 2);
    assert_eq!(count_air(&notes), 5);
    assert_eq!(count_jumps(&[]), 0);
    assert_eq!(count_shocks(&[]), 0);
}

#[test]
fn freeze_units_add_up_the_longest_hold_of_each_division() {
    let notes = str_to_notes(vec![
        "2200\n0000\n3000\n0300",
        "0020\n0000\n0000\n0030",
        "1000\n0000\n0000\n0000",
    ])
    .unwrap();
    assert_eq!(notes[0].longest_freeze(), 144);
    assert_eq!(notes[1].longest_freeze(), 144);
    assert_eq!(notes[2].longest_freeze(), 0);
    assert_eq!(calc_freeze_units(&notes), 288);
}

#[test]
fn freeze_units_keep_the_fractions_of_a_beat() {
    let hold = |offset: i32, end: i32| Division {
        arrows: vec![Arrow { direction: Direction::Up, arrow_type: ArrowType::Freeze, end }],
        color: Color::Red,
        offset,
    };
    assert_eq!(calc_freeze_units(&[hold(0, 24)]), 24);
    assert_eq!(calc_freeze_units(&[hold(0, 47)]), 47);
    assert_eq!(calc_freeze_units(&[hold(0, 48)]), 48);
    assert_eq!(calc_freeze_units(&[hold(0, 40), hold(100, 156)]), 96);
    assert_eq!(calc_freeze_units(&[hold(100, 0)]), -100);
    assert_eq!(
        calc_freeze_units(&[hold(i32::MIN, i32::MAX), hold(i32::MIN, i32::MAX)]),
        2 * (i32::MAX as i128 - i32::MIN as i128)
    );
    assert_eq!(calc_freeze_units(&[]), 0);
}

#[test]
fn half_a_beat_of_hold_in_eight_beats_scores_seventeen() {
    let half = Division {
        arrows: vec![Arrow { direction: Direction::Up, arrow_type: ArrowType::Freeze, end: 24 }],
        color: Color::Red,
        offset: 0,
    };
    let units = calc_freeze_units(&[half]);
    assert_eq!(units, 24);
    let beats = units as f32 / 48.0;
    assert_eq!(beats, 0.5);
    let ratio = 10000.0 * beats / 8.0;
    assert_eq!(ratio, 625.0);
    assert_eq!((ratio / 35.0) as i32, 17);
    assert_eq!(freeze_scale().exact_score(10000 * units as i64, 48 * 8), 17);
}

#[test]
fn only_the_longest_hold_of_a_division_counts() {
    let two = Division {
        arrows: vec![
            Arrow { direction: Direction::Up, arrow_type: ArrowType::Freeze, end: 30 },
            Arrow { direction: Direction::Left, arrow_type: ArrowType::Freeze, end: 100 },
            Arrow { direction: Direction::Down, arrow_type: ArrowType::Normal, end: 0 },
        ],
        color: Color::Red,
        offset: 10,
    };
    assert_eq!(two.longest_freeze(), 90);
    assert_eq!(calc_freeze_units(&[two]), 90);
}

#[test]
fn color_weights() {
    assert_eq!(color_weight(&Color::Red), 0);
    assert_eq!(color_weight(&Color::Blue), 2);
    assert_eq!(color_weight(&Color::Yellow), 4);
    assert_eq!(color_weight(&Color::Green), 5);
}

#[test]
fn chaos_steps_between_neighbours() {
    let notes = str_to_notes(vec!["1000\n0110\n0000\n0000\n0000\n0000\n0000\n0001", "1111"]).unwrap();
    assert_eq!(
        chaos_steps(&notes),
        vec![
            ChaosStep { arrows: 2, weight: 2, interval: 24 },
            ChaosStep { arrows: 1, weight: 2, interval: 144 },
            ChaosStep { arrows: 4, weight: 0, interval: 24 },
        ]
    );
    assert_eq!(chaos_steps(&notes[..1]), vec![]);
    assert_eq!(chaos_steps(&[]), vec![]);
}

#[test]
fn gimmicks_in_the_order_they_take_effect() {
    assert_eq!(
        sort_gimmicks(&[0, 96], &[96, 48]),
        vec![
            BpmOrStop { offset: 0, index: 0, kind: Kind::Bpm },
            BpmOrStop { offset: 48, index: 1, kind: Kind::Stop },
            BpmOrStop { offset: 96, index: 1, kind: Kind::Bpm },
            BpmOrStop { offset: 96, index: 0, kind: Kind::Stop },
        ]
    );
    assert_eq!(sort_gimmicks(&[], &[]), vec![]);
}

#[test]
fn gimmicks_at_one_position_keep_their_order() {
    assert_eq!(
        sort_gimmicks(&[5, 5, 1], &[5, 5]),
        vec![
            BpmOrStop { offset: 1, index: 2, kind: Kind::Bpm },
            BpmOrStop { offset: 5, index: 0, kind: Kind::Bpm },
            BpmOrStop { offset: 5, index: 1, kind: Kind::Bpm },
            BpmOrStop { offset: 5, index: 0, kind: Kind::Stop },
            BpmOrStop { offset: 5, index: 1, kind: Kind::Stop },
        ]
    );
}

#[test]
fn radar_holds_five_scores() {
    let radar = GrooveRadar { stream: 1, voltage: 2, air: 3, freeze: 4, chaos: 5 };
    assert_eq!(radar, radar.clone());
    assert_eq!((radar.stream, radar.voltage, radar.air, radar.freeze, radar.chaos), (1, 2, 3, 4, 5));
}

#[test]
fn scales_hold_the_calibration() {
    let scales = [stream_scale(), voltage_scale(), air_scale(), freeze_scale(), chaos_scale()];
    let expected = [
        (300, 1, 3, -139, 161),
        (600, 1, 6, 594, 1194),
        (55, 20, 11, 36, 91),
        (3500, 1, 35, 2484, 5984),
        (2000, 1, 20, 21605, 23605),
    ];
    for (s, e) in scales.iter().zip(expected) {
        assert_eq!((s.breakpoint, s.low_factor, s.low_divisor, s.shift, s.high_divisor), e);
    }
}

#[test]
fn both_pieces_of_a_scale_give_100_at_the_breakpoint() {
    for s in [stream_scale(), voltage_scale(), air_scale(), freeze_scale(), chaos_scale()] {
        let b = s.breakpoint as i64;
        assert_eq!(s.exact_score(b, 1), 100);
        assert_eq!(s.exact_score(b * 7, 7), 100);
        assert_eq!(b * s.low_factor as i64 / s.low_divisor as i64, 100);
        assert_eq!(s.exact_score(b * 1000 - 1, 1000), 99);
        assert!(s.exact_score(b * 1000 + 1, 1000) == 100);
        assert_eq!(s.exact_score(0, 1), 0);
    }
}

#[test]
fn scores_on_each_scale() {
    assert_eq!(stream_scale().exact_score(75, 2), 12);
    assert_eq!(stream_scale().exact_score(299, 1), 99);
    assert_eq!(stream_scale().exact_score(461, 1), 200);
    assert_eq!(voltage_scale().exact_score(599, 1), 99);
    assert_eq!(voltage_scale().exact_score(1794, 1), 200);
    assert_eq!(air_scale().exact_score(11, 1), 20);
    assert_eq!(air_scale().exact_score(146, 1), 200);
    assert_eq!(freeze_scale().exact_score(1750, 1), 50);
    assert_eq!(freeze_scale().exact_score(9484, 1), 200);
    assert_eq!(chaos_scale().exact_score(1000, 1), 50);
    assert_eq!(chaos_scale().exact_score(25605, 1), 200);
    assert_eq!(stream_scale().exact_score(-7, 2), -1);
}

#[test]
fn scores_never_fall_as_the_rate_rises() {
    for s in [stream_scale(), voltage_scale(), air_scale(), freeze_scale(), chaos_scale()] {
        let mut last = s.exact_score(0, 4);
        for num in 1..(s.breakpoint as i64 * 12) {
            let now = s.exact_score(num, 4);
            assert!(last <= now);
            assert!(now - last <= 1);
            last = now;
        }
    }
}

#[test]
fn division_rounds_toward_zero() {
    assert_eq!(toward_zero(7, 2), 3);
    assert_eq!(toward_zero(-7, 2), -3);
    assert_eq!(toward_zero(6, 2), 3);
    assert_eq!(toward_zero(-6, 2), -3);
    assert_eq!(toward_zero(0, 5), 0);
    assert_eq!(toward_zero(-1, 5), 0);
    for a in -50..50i128 {
        for b in 1..9i128 {
            assert_eq!(toward_zero(a, b), a / b);
        }
    }
}

#[test]
fn positions_are_sorted_by_their_indexes() {
    assert_eq!(sorted_order(&[]), Vec::<usize>::new());
    assert_eq!(sorted_order(&[7]), vec![0]);
    assert_eq!(sorted_order(&[0, 48, 96]), vec![0, 1, 2]);
    assert_eq!(sorted_order(&[96, 0, 48]), vec![1, 2, 0]);
    assert_eq!(sorted_order(&[5, 1, 5, 1, 5]), vec![1, 3, 0, 2, 4]);
    assert_eq!(sorted_order(&[i32::MAX, i32::MIN, 0]), vec![1, 2, 0]);
}
