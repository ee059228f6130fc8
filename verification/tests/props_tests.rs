use stepchart::error::{ChartError, FormatError};
use stepchart::gimmick::{get_disp_bpm, read_bpms, read_entry, read_stops, GimmickText};
use stepchart::props::{
    parse_chart_props, parse_song_props, parse_ssc_props, read_chart_props, strip_comments, Props,
};

fn text(s: &str) -> Option<String> {
    Some(s.to_string())
}

#[test]
fn table_keeps_the_last_value_of_a_key() {
    let mut props = Props::new();
    assert_eq!(props.get("A"), None);
    props.insert("A".to_string(), "1".to_string());
    props.insert("B".to_string(), "2".to_string());
    props.insert("A".to_string(), "3".to_string());
    assert_eq!(props.get("A").cloned(), text("3"));
    assert_eq!(props.get("B").cloned(), text("2"));
    assert_eq!(props.get("a"), None);
    assert_eq!(props.get(""), None);
}

#[test]
fn chart_props_are_read_from_statements() {
    let chart = parse_chart_props("\n#STEPSTYPE:dance-single;\n#DIFFICULTY:Hard;\n#METER:12;\n#NOTES:\n1000\n,\n0001\n;\n");
    assert_eq!(chart.props.get("STEPSTYPE").cloned(), text("dance-single"));
    assert_eq!(chart.props.get("DIFFICULTY").cloned(), text("Hard"));
    assert_eq!(chart.props.get("METER").cloned(), text("12"));
    assert_eq!(chart.props.get("NOTES"), None);
    assert_eq!(chart.note_strings, "\n1000\n,\n0001");
}

#[test]
fn value_keeps_its_colons() {
    let chart = parse_chart_props("#DISPLAYBPM:100:200;#A:;#:b;##C#:c:;");
    assert_eq!(chart.props.get("DISPLAYBPM").cloned(), text("100:200"));
    assert_eq!(chart.props.get("A").cloned(), text(""));
    assert_eq!(chart.props.get("").cloned(), text("b"));
    assert_eq!(chart.props.get("C").cloned(), text("c:"));
    assert_eq!(chart.note_strings, "");
}

#[test]
fn statement_without_colon_is_passed_over() {
    let chart = parse_chart_props("TITLE;#X:1; ;");
    assert_eq!(chart.props.get("TITLE"), None);
    assert_eq!(chart.props.get("X").cloned(), text("1"));
}

#[test]
fn last_note_block_of_a_chart_stays() {
    let chart = parse_chart_props("#NOTES:first;#NOTES:second;");
    assert_eq!(chart.note_strings, "second");
}

#[test]
fn key_is_not_trimmed_inside() {
    let chart = parse_chart_props("  #KEY :v;");
    assert_eq!(chart.props.get("KEY "), Some(&"v".to_string()));
    assert_eq!(chart.props.get("KEY"), None);
}

#[test]
fn song_props_keep_every_note_block() {
    let song = parse_song_props("#TITLE:T;\r\n#NOTES:a:b;\r\n//#NOTES:hidden;\r\n#NOTES:c;\r\n#TITLE:U;\r\n");
    assert_eq!(song.props.get("TITLE").cloned(), text("U"));
    assert_eq!(song.notes_strings, vec!["a:b".to_string(), "c".to_string()]);
}

#[test]
fn lines_are_trimmed_and_empty_lines_leave() {
    let song = parse_song_props("#NOTES:\n   1000  \n\n\t0100\n   \n;");
    assert_eq!(song.notes_strings, vec!["\n1000\n0100".to_string()]);
}

#[test]
fn file_of_several_charts_is_cut_at_its_marks() {
    let file = parse_ssc_props("#TITLE:T;\n#NOTES:x;\n#NOTEDATA:;\n#METER:1;\n#NOTEDATA:;\n#NOTEDATA:;#METER:3;#NOTES:n;");
    assert_eq!(file.common.get("TITLE").cloned(), text("T"));
    assert_eq!(file.common.get("NOTES").cloned(), text("x"));
    assert_eq!(file.charts.len(), 3);
    assert_eq!(file.charts[0].props.get("METER").cloned(), text("1"));
    assert_eq!(file.charts[1].props.get("METER"), None);
    assert_eq!(file.charts[2].props.get("METER").cloned(), text("3"));
    assert_eq!(file.charts[2].note_strings, "n");
}

#[test]
fn file_without_mark_has_no_chart() {
    let file = parse_ssc_props("#TITLE:T;");
    assert_eq!(file.charts.len(), 0);
    assert_eq!(file.common.get("TITLE").cloned(), text("T"));
    assert_eq!(file.common.get("NOTES"), None);
}

fn entry(offset: &str, value: &str) -> GimmickText {
    GimmickText { offset: offset.to_string(), value: value.to_string() }
}

#[test]
fn tempo_list_is_read_entry_by_entry() {
    assert_eq!(
        read_bpms("0.000=120.000\n,32.000=150.500 ,64=90=x"),
        Ok(vec![entry("0.000", "120.000"), entry("32.000", "150.500"), entry("64", "90")])
    );
    assert_eq!(read_bpms("0=120"), Ok(vec![entry("0", "120")]));
    assert_eq!(read_bpms(" 0=120"), Ok(vec![entry(" 0", "120")]));
}

#[test]
fn tempo_entry_needs_a_value() {
    assert_eq!(read_bpms(""), Err(ChartError::Format(FormatError::Gimmick)));
    assert_eq!(read_bpms("0=120,48"), Err(ChartError::Format(FormatError::Gimmick)));
    assert_eq!(read_bpms("0=120,"), Err(ChartError::Format(FormatError::Gimmick)));
}

#[test]
fn pause_list_may_be_empty() {
    assert_eq!(read_stops(""), Ok(vec![]));
    assert_eq!(read_stops("4.5=0.25"), Ok(vec![entry("4.5", "0.25")]));
    assert_eq!(read_stops(" "), Err(ChartError::Format(FormatError::Gimmick)));
}

#[test]
fn display_tempo_is_one_tempo_or_two() {
    assert_eq!(get_disp_bpm("150.000"), ("150.000".to_string(), None));
    assert_eq!(get_disp_bpm("100:200.5"), ("100".to_string(), text("200.5")));
    assert_eq!(get_disp_bpm("100:200:300"), ("100".to_string(), text("200")));
    assert_eq!(get_disp_bpm(""), ("".to_string(), None));
    assert_eq!(get_disp_bpm(":"), ("".to_string(), text("")));
}

#[test]
fn entry_is_a_position_and_a_value() {
    let read = |s: &str| read_entry(&s.chars().collect::<Vec<char>>());
    assert_eq!(read("4=0.5"), Ok(entry("4", "0.5")));
    assert_eq!(read("="), Ok(entry("", "")));
    assert_eq!(read("a=b=c"), Ok(entry("a", "b")));
    assert_eq!(read("4"), Err(ChartError::Format(FormatError::Gimmick)));
    assert_eq!(read(""), Err(ChartError::Format(FormatError::Gimmick)));
}

#[test]
fn chart_props_from_characters() {
    let chars: Vec<char> = "#METER:7;#NOTES:a;#NOTES:b;".chars().collect();
    let chart = read_chart_props(&chars);
    assert_eq!(chart.props.get("METER").cloned(), text("7"));
    assert_eq!(chart.note_strings, "b");
}

#[test]
fn comments_leave_and_lines_are_trimmed() {
    let clean = |s: &str| -> String {
        strip_comments(&s.chars().collect::<Vec<char>>()).into_iter().collect()
    };
    assert_eq!(clean("a\n//b\nc"), "a\nc");
    assert_eq!(clean("  a  \n\n // b\n\tc\r\n"), "a\n// b\nc");
    assert_eq!(clean("//only"), "");
    assert_eq!(clean(""), "");
    assert_eq!(clean("a//b"), "a//b");
}
