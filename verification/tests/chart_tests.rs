use stepchart::arrow::{Arrow, ArrowType, Color, Direction, Division};
use stepchart::chart::{
    sm_to_chart, ssc_to_chart, ChartInfo, ChartType, Difficulty, StepChart,
};
use stepchart::groove_radar::GrooveRadar;
use stepchart::error::{ChartError, FormatError};
use stepchart::props::{parse_song_props, parse_ssc_props};
use stepchart::timeline::{resolve_freezes, str_to_notes};

fn arrow(direction: Direction, arrow_type: ArrowType, end: i32) -> Arrow {
    Arrow { direction, arrow_type, end }
}

#[test]
fn single_tap_chart_has_one_division_at_the_start() {
    let notes = str_to_notes(vec!["1000\n0000\n0000\n0000"]).unwrap();
    assert_eq!(
        notes,
        vec![Division {
            arrows: vec![arrow(Direction::Left, ArrowType::Normal, 0)],
            color: Color::Red,
            offset: 0,
        }]
    );
}

#[test]
fn measures_start_one_measure_apart() {
    let notes = str_to_notes(vec!["1000\n0000", "0000\n0100", "0010"]).unwrap();
    let offsets: Vec<i32> = notes.iter().map(|d| d.offset).collect();
    assert_eq!(offsets, vec![0, 288, 384]);
}

#[test]
fn empty_lines_are_no_rows() {
    let notes = str_to_notes(vec!["\n1000\n\n0000\n0100\n0000\n"]).unwrap();
    let offsets: Vec<i32> = notes.iter().map(|d| d.offset).collect();
    assert_eq!(offsets, vec![0, 96]);
}

#[test]
fn hold_is_released_where_its_end_stands() {
    let notes = str_to_notes(vec!["2000\n0000\n3000\n0000"]).unwrap();
    assert_eq!(
        notes,
        vec![Division {
            arrows: vec![arrow(Direction::Left, ArrowType::Freeze, 96)],
            color: Color::Red,
            offset: 0,
        }]
    );
}

#[test]
fn hold_may_end_in_a_later_measure() {
    let notes = str_to_notes(vec!["0002\n0000", "0000\n0000", "0000\n0003"]).unwrap();
    assert_eq!(notes.len(), 1);
    assert_eq!(notes[0].arrows, vec![arrow(Direction::Right, ArrowType::Freeze, 480)]);
}

#[test]
fn end_in_another_lane_does_not_release() {
    assert_eq!(
        str_to_notes(vec!["2000\n0000\n0300\n0000"]),
        Err(ChartError::UnresolvedHold)
    );
}

#[test]
fn hold_without_end_is_refused() {
    assert_eq!(str_to_notes(vec!["2000\n1000"]), Err(ChartError::UnresolvedHold));
}

#[test]
fn ends_leave_and_other_arrows_of_their_division_stay() {
    let notes = str_to_notes(vec!["2000\n3100\n0020\n0030"]).unwrap();
    assert_eq!(
        notes,
        vec![
            Division {
                arrows: vec![arrow(Direction::Left, ArrowType::Freeze, 48)],
                color: Color::Red,
                offset: 0,
            },
            Division {
                arrows: vec![arrow(Direction::Down, ArrowType::Normal, 0)],
                color: Color::Red,
                offset: 48,
            },
            Division {
                arrows: vec![arrow(Direction::Up, ArrowType::Freeze, 144)],
                color: Color::Red,
                offset: 96,
            },
        ]
    );
}

#[test]
fn two_holds_in_one_lane_end_at_their_own_ends() {
    let notes = str_to_notes(vec!["2000\n3000\n2000\n3000"]).unwrap();
    let ends: Vec<i32> = notes.iter().map(|d| d.arrows[0].end).collect();
    assert_eq!(ends, vec![48, 144]);
}

#[test]
fn end_without_a_hold_leaves_silently() {
    let notes = str_to_notes(vec!["3000\n1000"]).unwrap();
    assert_eq!(notes.len(), 1);
    assert_eq!(notes[0].offset, 96);
}

#[test]
fn format_error_of_a_measure_is_passed_on() {
    assert_eq!(
        str_to_notes(vec!["1000", "1000\n1000\n1000\n1000\n1000"]),
        Err(ChartError::Format(FormatError::RowCount))
    );
    assert_eq!(str_to_notes(vec!["1000", ""]), Err(ChartError::Format(FormatError::RowCount)));
    assert_eq!(str_to_notes(vec!["10000"]), Err(ChartError::Format(FormatError::RowWidth)));
    assert_eq!(str_to_notes(vec!["1a00"]), Err(ChartError::Format(FormatError::ArrowCode)));
}

#[test]
fn format_errors_come_before_unresolved_holds() {
    assert_eq!(
        str_to_notes(vec!["2000", "100"]),
        Err(ChartError::Format(FormatError::RowWidth))
    );
}

#[test]
fn more_measures_than_positions_can_number_are_refused() {
    let most = (i32::MAX / 192) as usize;
    assert_eq!(
        str_to_notes(vec!["0000\n1"; most + 1]),
        Err(ChartError::Format(FormatError::MeasureCount))
    );
}

#[test]
fn chart_without_measures_is_empty() {
    assert_eq!(str_to_notes(vec![]), Ok(vec![]));
}

#[test]
fn resolve_sets_the_release_of_a_single_hold() {
    for (offset, length) in [(0, 1), (0, 48), (96, 500), (1000, 7)] {
        let notes = vec![
            Division {
                arrows: vec![arrow(Direction::Down, ArrowType::Freeze, 0)],
                color: Color::Red,
                offset,
            },
            Division {
                arrows: vec![arrow(Direction::Down, ArrowType::FreezeEnd, 0)],
                color: Color::Blue,
                offset: offset + length,
            },
        ];
        assert_eq!(
            resolve_freezes(&notes),
            Ok(vec![Division {
                arrows: vec![arrow(Direction::Down, ArrowType::Freeze, offset + length)],
                color: Color::Red,
                offset,
            }])
        );
    }
}

#[test]
fn resolve_refuses_an_end_in_the_wrong_lane() {
    let notes = vec![
        Division {
            arrows: vec![arrow(Direction::Down, ArrowType::Freeze, 0)],
            color: Color::Red,
            offset: 0,
        },
        Division {
            arrows: vec![arrow(Direction::Up, ArrowType::FreezeEnd, 0)],
            color: Color::Red,
            offset: 48,
        },
    ];
    assert_eq!(resolve_freezes(&notes), Err(ChartError::UnresolvedHold));
}

#[test]
fn resolve_clears_release_positions_of_other_arrows() {
    let notes = vec![Division {
        arrows: vec![arrow(Direction::Down, ArrowType::Normal, 77)],
        color: Color::Red,
        offset: 0,
    }];
    assert_eq!(
        resolve_freezes(&notes),
        Ok(vec![Division {
            arrows: vec![arrow(Direction::Down, ArrowType::Normal, 0)],
            color: Color::Red,
            offset: 0,
        }])
    );
}

#[test]
fn chart_type_from_str() {
    assert_eq!(ChartType::from_str("dance-single"), Ok(ChartType::DanceSingle));
    assert_eq!(ChartType::from_str("dance-double"), Ok(ChartType::DanceDouble));
    assert_eq!(
        ChartType::from_str("pump-single"),
        Err("pump-single is not supported".to_string())
    );
    assert_eq!(ChartType::from_str(""), Err(" is not supported".to_string()));
}

#[test]
fn difficulty_from_str() {
    assert_eq!(Difficulty::from_str("Beginner"), Ok(Difficulty::Beginner));
    assert_eq!(Difficulty::from_str("Easy"), Ok(Difficulty::Easy));
    assert_eq!(Difficulty::from_str("Medium"), Ok(Difficulty::Medium));
    assert_eq!(Difficulty::from_str("Hard"), Ok(Difficulty::Hard));
    assert_eq!(Difficulty::from_str("Challenge"), Ok(Difficulty::Challenge));
    assert_eq!(Difficulty::from_str("Edit"), Ok(Difficulty::Edit));
    assert_eq!(Difficulty::from_str("easy"), Err("easy is not supported".to_string()));
}

fn block(kind: &str, difficulty: &str, level: &str, notes: &str) -> String {
    format!("\n     {}:\n     :\n     {}:\n     {}:\n     0,0,0,0,0:\n{}", kind, difficulty, level, notes)
}

#[test]
fn note_block_gives_a_chart() {
    let blocks = vec![block("dance-single", "Hard", "9", "1000\n0000\n0000\n0000\n,\n0100\n0000")];
    let charts = sm_to_chart(&blocks).unwrap();
    assert_eq!(charts.len(), 1);
    assert_eq!(charts[0].chart_type, ChartType::DanceSingle);
    assert_eq!(charts[0].difficulty, Difficulty::Hard);
    assert_eq!(charts[0].level, 9);
    let offsets: Vec<i32> = charts[0].notes.iter().map(|d| d.offset).collect();
    assert_eq!(offsets, vec![0, 192]);
}

#[test]
fn double_charts_are_passed_over() {
    let blocks = vec![
        block("dance-double", "Hard", "9", "1000"),
        block("dance-single", "Easy", "3", "0001"),
        block("dance-double", "nonsense", "x", "bad"),
    ];
    let charts = sm_to_chart(&blocks).unwrap();
    assert_eq!(
        charts,
        vec![StepChart {
            chart_type: ChartType::DanceSingle,
            difficulty: Difficulty::Easy,
            level: 3,
            notes: vec![Division {
                arrows: vec![arrow(Direction::Right, ArrowType::Normal, 0)],
                color: Color::Red,
                offset: 0,
            }],
        }]
    );
}

#[test]
fn note_block_errors() {
    let refused = |b: String| sm_to_chart(&vec![b]).unwrap_err();
    assert_eq!(
        refused(block("pump-single", "Hard", "9", "1000")),
        ChartError::Format(FormatError::ChartType)
    );
    assert_eq!(
        refused(block("dance-single", "Expert", "9", "1000")),
        ChartError::Format(FormatError::Difficulty)
    );
    assert_eq!(
        refused(block("dance-single", "Hard", "nine", "1000")),
        ChartError::Format(FormatError::Level)
    );
    assert_eq!(
        refused(block("dance-single", "Hard", "9", "100")),
        ChartError::Format(FormatError::RowWidth)
    );
    assert_eq!(
        refused(block("dance-single", "Hard", "9", "2000")),
        ChartError::UnresolvedHold
    );
    assert_eq!(
        refused("dance-single:a:Hard:9".to_string()),
        ChartError::Format(FormatError::NoteFields)
    );
}

#[test]
fn first_refused_block_decides() {
    let blocks = vec![
        block("dance-single", "Hard", "9", "1000"),
        block("dance-single", "Hard", "x", "1000"),
        block("pump-single", "Hard", "9", "1000"),
    ];
    assert_eq!(sm_to_chart(&blocks), Err(ChartError::Format(FormatError::Level)));
}

#[test]
fn song_file_to_charts() {
    let contents = "#TITLE:Example;\n// a comment\n#BPMS:0.000=120.000;\n#NOTES:\n     dance-single:\n     :\n     Beginner:\n     1:\n     0,0,0,0,0:\n// measure 1\n1000\n0000\n0000\n0000\n,\n0000\n0010\n;\n";
    let song = parse_song_props(contents);
    assert_eq!(song.props.get("TITLE"), Some(&"Example".to_string()));
    assert_eq!(song.props.get("BPMS"), Some(&"0.000=120.000".to_string()));
    assert_eq!(song.notes_strings.len(), 1);
    let charts = sm_to_chart(&song.notes_strings).unwrap();
    assert_eq!(charts.len(), 1);
    assert_eq!(charts[0].difficulty, Difficulty::Beginner);
    assert_eq!(charts[0].level, 1);
    let offsets: Vec<i32> = charts[0].notes.iter().map(|d| d.offset).collect();
    assert_eq!(offsets, vec![0, 288]);
}

#[test]
fn comment_after_white_space_is_no_comment() {
    let song = parse_song_props("#NOTES:\n dance-single:\n :\n Easy:\n 1:\n 0:\n  // measure 1\n1000\n;");
    assert_eq!(
        sm_to_chart(&song.notes_strings),
        Err(ChartError::Format(FormatError::RowWidth))
    );
}

#[test]
fn file_of_several_charts() {
    let contents = "#TITLE:Example;\n#BPMS:0.000=120.000;\n#NOTEDATA:;\n#STEPSTYPE:dance-single;\n#DIFFICULTY:Medium;\n#METER:5;\n#NOTES:\n1000\n0000\n,\n0002\n0003\n;\n#NOTEDATA:;\n#STEPSTYPE:dance-double;\n#DIFFICULTY:Hard;\n#METER:8;\n#NOTES:\n10000000\n;\n";
    let file = parse_ssc_props(contents);
    assert_eq!(file.common.get("TITLE"), Some(&"Example".to_string()));
    assert_eq!(file.common.get("STEPSTYPE"), None);
    assert_eq!(file.charts.len(), 2);
    assert_eq!(file.charts[0].props.get("METER"), Some(&"5".to_string()));
    assert_eq!(file.charts[1].props.get("STEPSTYPE"), Some(&"dance-double".to_string()));
    let charts = ssc_to_chart(&file.charts).unwrap();
    assert_eq!(
        charts,
        vec![(0, StepChart {
            chart_type: ChartType::DanceSingle,
            difficulty: Difficulty::Medium,
            level: 5,
            notes: vec![
                Division {
                    arrows: vec![arrow(Direction::Left, ArrowType::Normal, 0)],
                    color: Color::Red,
                    offset: 0,
                },
                Division {
                    arrows: vec![arrow(Direction::Right, ArrowType::Freeze, 288)],
                    color: Color::Red,
                    offset: 192,
                },
            ],
        })]
    );
}

#[test]
fn charts_of_several_keep_the_index_of_their_properties() {
    let file = parse_ssc_props("#NOTEDATA:;#STEPSTYPE:dance-double;#NOTEDATA:;#STEPSTYPE:dance-single;#DIFFICULTY:Easy;#METER:2;#NOTES:0001;#NOTEDATA:;#STEPSTYPE:dance-single;#DIFFICULTY:Hard;#METER:9;#NOTES:1000;");
    let found = ssc_to_chart(&file.charts).unwrap();
    let indexes: Vec<usize> = found.iter().map(|(index, _)| *index).collect();
    let levels: Vec<i32> = found.iter().map(|(_, chart)| chart.level).collect();
    assert_eq!(indexes, vec![1, 2]);
    assert_eq!(levels, vec![2, 9]);
}

#[test]
fn chart_of_several_needs_its_properties() {
    let missing = |text: &str| ssc_to_chart(&parse_ssc_props(text).charts);
    assert_eq!(
        missing("#NOTEDATA:;#DIFFICULTY:Hard;#METER:1;#NOTES:1000;"),
        Err(ChartError::Format(FormatError::MissingProperty))
    );
    assert_eq!(
        missing("#NOTEDATA:;#STEPSTYPE:dance-single;#METER:1;#NOTES:1000;"),
        Err(ChartError::Format(FormatError::MissingProperty))
    );
    assert_eq!(
        missing("#NOTEDATA:;#STEPSTYPE:dance-single;#DIFFICULTY:Hard;#NOTES:1000;"),
        Err(ChartError::Format(FormatError::MissingProperty))
    );
    assert_eq!(
        missing("#NOTEDATA:;#STEPSTYPE:dance-solo;#DIFFICULTY:Hard;#METER:1;#NOTES:1000;"),
        Err(ChartError::Format(FormatError::ChartType))
    );
    assert_eq!(
        missing("#NOTEDATA:;#STEPSTYPE:dance-single;#DIFFICULTY:Hard;#METER:1;"),
        Err(ChartError::Format(FormatError::RowCount))
    );
    assert_eq!(missing("#TITLE:x;"), Ok(vec![]));
}

#[test]
fn chart_info_counts_the_divisions() {
    let blocks = vec![block("dance-single", "Challenge", "15", "1000\n0100\n0010\n0001")];
    let charts = sm_to_chart(&blocks).unwrap();
    let radar = GrooveRadar { stream: 10, voltage: 20, air: 30, freeze: 40, chaos: 50 };
    assert_eq!(
        charts[0].info(radar),
        ChartInfo {
            chart_type: ChartType::DanceSingle,
            difficulty: Difficulty::Challenge,
            level: 15,
            max_combo: 4,
            stream: 10,
            voltage: 20,
            air: 30,
            freeze: 40,
            chaos: 50,
        }
    );
}
