use annovate::display::{determine_column_widths, filter_duplicates};
use annovate::parse::{extract_line_parts, test_leader, Phase};
use annovate::stamp::{creation_lines, decimal, format_stamp, new_file_lines, LocalTime};
use annovate::text::{same_text, text_lines, trimmed};
use annovate::{AnnoError, Annotation, Annovate};

fn lines(v: &[&str]) -> Vec<String> {
    v.iter().map(|s| s.to_string()).collect()
}

fn anno(k: &str, v: &str, c: &str) -> Annotation {
    Annotation::new(k.to_string(), v.to_string(), c.to_string())
}

fn parse_error(r: Result<Annovate, AnnoError>) -> (u64, char) {
    match r {
        Err(AnnoError::ParseError(n, c)) => (n, c),
        Err(AnnoError::IOError(_)) => panic!("unexpected io error"),
        Ok(_) => panic!("parsed a file that should fail"),
    }
}

fn sorted(mut v: Vec<String>) -> Vec<String> {
    v.sort();
    v
}

#[test]
fn it_works() {}

#[test]
fn key_then_context_gives_empty_value() {
    let a = Annovate::new(&lines(&[">k", "<c"])).unwrap();
    assert_eq!(a.get_directory_annotations(), &vec![anno("k", "", "c")]);
    assert!(a.get_files().is_empty());
}

#[test]
fn value_line_first_fails_at_line_one() {
    assert_eq!(parse_error(Annovate::new(&lines(&["=x"]))), (1, '='));
    assert_eq!(parse_error(Annovate::new(&lines(&["=x", ">k", "<c"]))), (1, '='));
}

#[test]
fn truncated_file_fails_past_its_end() {
    let r = Annovate::new(&lines(&[">a", "=1", "<c", ">k"]));
    assert_eq!(parse_error(r), (5, ' '));
    assert_eq!(parse_error(Annovate::new(&lines(&[">a", "=1"]))), (3, ' '));
}

#[test]
fn empty_file_fails() {
    assert_eq!(parse_error(Annovate::new(&Vec::new())), (1, ' '));
}

#[test]
fn file_ending_in_header_fails() {
    assert_eq!(parse_error(Annovate::new(&lines(&[">a", "<c", "@f"]))), (4, ' '));
}

#[test]
fn multi_line_value() {
    let a = Annovate::new(&lines(&[">desc", "=line1", "=line2", "<ctx"])).unwrap();
    assert_eq!(a.get_directory_annotations(), &vec![anno("desc", "line1\nline2", "ctx")]);
}

#[test]
fn out_of_place_and_unknown_leaders() {
    assert_eq!(parse_error(Annovate::new(&lines(&[">a", "@f"]))), (2, '@'));
    assert_eq!(parse_error(Annovate::new(&lines(&["@f", "<c"]))), (2, '<'));
    assert_eq!(parse_error(Annovate::new(&lines(&["@f", "=v"]))), (2, '='));
    assert_eq!(parse_error(Annovate::new(&lines(&[">a", "<c", "x"]))), (3, 'x'));
    assert_eq!(parse_error(Annovate::new(&lines(&[">a", "<c", ""]))), (3, ' '));
    assert_eq!(parse_error(Annovate::new(&lines(&[">a", ">b"]))), (2, '>'));
}

#[test]
fn file_sections_and_trimming() {
    let a = Annovate::new(&lines(&[
        ">d  ", "=dv", "<dc", "@a.txt ", ">k", "=v1", "<c1", ">k", "=v2", "<c2", "@empty",
        "@b.txt", ">x", "<y",
    ]))
    .unwrap();
    assert_eq!(a.get_directory_annotations(), &vec![anno("d", "dv", "dc")]);
    assert_eq!(sorted(a.get_files()), lines(&["a.txt", "b.txt", "empty"]));
    assert_eq!(a.get_file_annotations("a.txt").unwrap(), &vec![anno("k", "v1", "c1"), anno("k", "v2", "c2")]);
    assert_eq!(a.get_file_annotations("empty").unwrap(), &Vec::<Annotation>::new());
    assert_eq!(a.get_file_annotations("b.txt").unwrap(), &vec![anno("x", "", "y")]);
    assert!(a.get_file_annotations("c.txt").is_none());
}

#[test]
fn repeated_header_starts_the_file_over() {
    let a = Annovate::new(&lines(&["@f", ">k", "<c", "@f", ">j", "<d"])).unwrap();
    assert_eq!(a.get_files(), lines(&["f"]));
    assert_eq!(a.get_file_annotations("f").unwrap(), &vec![anno("j", "", "d")]);
}

#[test]
fn value_buffer_is_reset_for_each_key() {
    let a = Annovate::new(&lines(&[">a", "=1", "<c", ">b", "=2", "<c"])).unwrap();
    assert_eq!(a.get_directory_annotations(), &vec![anno("a", "1", "c"), anno("b", "2", "c")]);
}

#[test]
fn round_trip_of_built_store() {
    let mut s = Annovate::empty();
    s.add_directory_annotation(anno("creation time", "1.1.2024 0:0:0", "new annovate file"));
    s.add_directory_annotation(anno("desc", "two\nlines", "me"));
    s.add_file_annotation("a.txt", anno("k", "v", "c"));
    s.add_file_annotation("a.txt", anno("k", "w\n\nx", "c2"));
    s.add_file_annotation("b.txt", anno("tag", "", "c"));
    s.add_file_annotation("gone.txt", anno("t", "v", "c"));
    assert!(s.remove_file_annotation_entries("gone.txt", "t"));
    let back = Annovate::new(&s.to_lines()).unwrap();
    assert_eq!(back.get_directory_annotations(), s.get_directory_annotations());
    assert_eq!(sorted(back.get_files()), sorted(s.get_files()));
    for f in s.get_files() {
        assert_eq!(back.get_file_annotations(&f), s.get_file_annotations(&f));
    }
    assert_eq!(back.get_file_annotations("gone.txt").unwrap(), &Vec::<Annotation>::new());
}

#[test]
fn serialized_lines_are_exact() {
    let mut s = Annovate::empty();
    s.add_directory_annotation(anno("k", "x\ny", "c"));
    s.add_file_annotation("f", anno("a", "", "b"));
    s.drop_file_annotations("none");
    s.add_file_annotation("e", anno("z", "1", "2"));
    s.remove_file_annotation_entries("e", "z");
    assert_eq!(s.to_lines(), lines(&[">k", "=x", "=y", "<c", "@e", "@f", ">a", "<b"]));
}

#[test]
fn key_removal_reports_and_keeps_order() {
    let mut s = Annovate::empty();
    s.add_directory_annotation(anno("a", "1", "c"));
    s.add_directory_annotation(anno("b", "2", "c"));
    s.add_directory_annotation(anno("a", "3", "c"));
    s.add_directory_annotation(anno("c", "4", "c"));
    assert!(!s.remove_directory_annotation_entries("zzz"));
    assert_eq!(s.get_directory_annotations().len(), 4);
    assert!(s.remove_directory_annotation_entries("a"));
    assert_eq!(s.get_directory_annotations(), &vec![anno("b", "2", "c"), anno("c", "4", "c")]);
    assert!(!s.remove_directory_annotation_entries("a"));

    s.add_file_annotation("f", anno("x", "1", "c"));
    s.add_file_annotation("f", anno("y", "2", "c"));
    s.add_file_annotation("f", anno("x", "3", "c"));
    assert!(!s.remove_file_annotation_entries("f", "q"));
    assert!(!s.remove_file_annotation_entries("nofile", "x"));
    assert!(s.get_file_annotations("nofile").is_none());
    assert!(s.remove_file_annotation_entries("f", "x"));
    assert_eq!(s.get_file_annotations("f").unwrap(), &vec![anno("y", "2", "c")]);
}

#[test]
fn register_then_drop() {
    let mut s = Annovate::empty();
    s.add_file_annotation("a.txt", anno("k", "v", "c"));
    assert!(s.get_files().contains(&"a.txt".to_string()));
    assert!(s.drop_file_annotations("a.txt"));
    assert!(s.get_file_annotations("a.txt").is_none());
    assert!(!s.get_files().contains(&"a.txt".to_string()));
    assert!(!s.drop_file_annotations("a.txt"));
}

#[test]
fn bootstrap_file_reads_back() {
    let text = creation_lines("3.4.2025 10:5:7", "new annovate file");
    assert_eq!(text, lines(&[">creation time", "=3.4.2025 10:5:7", "<new annovate file"]));
    let a = Annovate::new(&text).unwrap();
    assert_eq!(
        a.get_directory_annotations(),
        &vec![anno("creation time", "3.4.2025 10:5:7", "new annovate file")]
    );
    assert!(a.get_files().is_empty());
    assert_eq!(a.to_lines(), text);
}

#[test]
fn bootstrap_with_current_time() {
    let text = new_file_lines("why");
    assert_eq!(text.len(), 3);
    assert_eq!(text[0], ">creation time");
    assert!(text[1].starts_with('='));
    assert!(text[1].contains('.') && text[1].contains(':'));
    assert_eq!(text[2], "<why");
    let a = Annovate::new(&text).unwrap();
    assert_eq!(a.get_directory_annotations().len(), 1);
    assert_eq!(a.get_directory_annotations()[0].key, "creation time");
}

#[test]
fn stamp_format() {
    let t = LocalTime {
        day_of_month: 5,
        months_since_january: 0,
        years_since_1900: 124,
        hour: 7,
        minute: 8,
        second: 9,
    };
    assert_eq!(format_stamp(&t), "5.1.2024 7:8:9");
    let t2 = LocalTime {
        day_of_month: 31,
        months_since_january: 11,
        years_since_1900: 99,
        hour: 23,
        minute: 59,
        second: 60,
    };
    assert_eq!(format_stamp(&t2), "31.12.1999 23:59:60");
    assert_eq!(decimal(0), "0");
    assert_eq!(decimal(-42), "-42");
    assert_eq!(decimal(1900), "1900");
    assert_eq!(decimal(i64::MIN), "-9223372036854775808");
}

#[test]
fn line_parts() {
    assert_eq!(extract_line_parts("@a.txt  \t"), ('@', "a.txt"));
    assert_eq!(extract_line_parts(""), (' ', ""));
    assert_eq!(extract_line_parts(">"), ('>', ""));
    assert_eq!(extract_line_parts("= a b \u{3000}"), ('=', " a b"));
}

#[test]
fn leader_transitions() {
    assert_eq!(test_leader(Phase::Start, '@', 1).unwrap(), Phase::AfterFile);
    assert_eq!(test_leader(Phase::AfterContext, '>', 4).unwrap(), Phase::AfterKey);
    assert_eq!(test_leader(Phase::AfterKey, '=', 2).unwrap(), Phase::AfterValue);
    assert_eq!(test_leader(Phase::AfterKey, '<', 2).unwrap(), Phase::AfterContext);
    assert_eq!(test_leader(Phase::AfterValue, '<', 2).unwrap(), Phase::AfterContext);
    assert!(matches!(test_leader(Phase::AfterFile, '<', 7), Err(AnnoError::ParseError(7, '<'))));
    assert!(matches!(test_leader(Phase::Start, '=', 1), Err(AnnoError::ParseError(1, '='))));
    assert!(matches!(test_leader(Phase::AfterValue, '@', 3), Err(AnnoError::ParseError(3, '@'))));
    assert!(matches!(test_leader(Phase::Start, '#', 1), Err(AnnoError::ParseError(1, '#'))));
}

#[test]
fn text_helpers() {
    assert_eq!(text_lines("a\r\nb\n"), lines(&["a", "b"]));
    assert_eq!(text_lines(""), Vec::<String>::new());
    assert_eq!(text_lines("\n\nx"), lines(&["", "", "x"]));
    assert_eq!(trimmed("ab \t\n"), "ab");
    assert!(same_text("é", "é"));
    assert!(!same_text("ab", "abc"));
}

#[test]
fn latest_by_key() {
    let v = vec![anno("a", "1", "c"), anno("b", "2", "c"), anno("a", "3", "c")];
    assert_eq!(filter_duplicates(&v), vec![anno("a", "3", "c"), anno("b", "2", "c")]);
    assert_eq!(filter_duplicates(&Vec::new()), Vec::<Annotation>::new());
}

#[test]
fn column_widths() {
    let v = vec![anno("key", "ab\nlonger", "ctx"), anno("k", "x", "context")];
    let w = determine_column_widths(&v, 2);
    assert_eq!((w.key, w.value, w.context), (5, 8, 9));
    let e = determine_column_widths(&Vec::new(), 2);
    assert_eq!((e.key, e.value, e.context), (2, 2, 2));
}
