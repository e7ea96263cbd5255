use rspc::source_map::{encode_vlq, generate_vlq_segment, SourceMap};
use rspc::typescript::{get_current_pos, Typescript};

#[test]
fn vlq_of_small_values() {
    assert_eq!(generate_vlq_segment(&[0, 0, 0, 0, 0]), "AAAAA");
    assert_eq!(generate_vlq_segment(&[1]), "C");
    assert_eq!(generate_vlq_segment(&[-1]), "D");
    assert_eq!(generate_vlq_segment(&[15]), "e");
    assert_eq!(generate_vlq_segment(&[16]), "gB");
    assert_eq!(generate_vlq_segment(&[-16]), "hB");
    assert_eq!(generate_vlq_segment(&[123]), "2H");
    assert_eq!(generate_vlq_segment(&[]), "");
    assert_eq!(generate_vlq_segment(&[4, 0, 2, -3]), "IAEH");
}

#[test]
fn vlq_appends() {
    let mut s = "x".to_string();
    encode_vlq(&mut s, 1000);
    assert_eq!(s, "xw+B");
}

#[test]
fn vlq_of_extreme_values() {
    assert_eq!(generate_vlq_segment(&[i64::MAX]).len(), 13);
    assert_eq!(generate_vlq_segment(&[i64::MIN]).len(), 13);
}

#[test]
fn source_map_interns_files_and_names() {
    let mut m = SourceMap::new();
    m.insert("ping".to_string(), (2, 4), (10, 1), "a.rs".to_string());
    m.insert("echo".to_string(), (3, 4), (20, 1), "b.rs".to_string());
    m.insert("ping".to_string(), (3, 9), (30, 5), "a.rs".to_string());
    assert_eq!(m.sources, vec!["a.rs".to_string(), "b.rs".to_string()]);
    assert_eq!(m.names, vec!["ping".to_string(), "echo".to_string()]);
    assert_eq!(m.mappings.len(), 3);
    let (line, seg) = m.mappings[2];
    assert_eq!(line, 3);
    assert_eq!((seg.generated_col, seg.source, seg.name, seg.source_line, seg.source_col), (9, 0, 0, 30, 5));
    assert_eq!(m.mappings[1].1.source, 1);
}

#[test]
fn current_position() {
    assert_eq!(get_current_pos(&"".to_string()), (1, 0));
    assert_eq!(get_current_pos(&"abc".to_string()), (1, 3));
    assert_eq!(get_current_pos(&"a\nbc".to_string()), (2, 2));
    assert_eq!(get_current_pos(&"abc\n".to_string()), (2, 0));
    assert_eq!(get_current_pos(&"\u{e9}".to_string()), (1, 2));
    assert_eq!(get_current_pos(&"x\n\u{e9}\u{20ac}\u{1f600}".to_string()), (2, 9));
}

#[test]
fn file_start_with_and_without_header() {
    let t = Typescript::new("// F".to_string());
    assert!(!t.generate_source_maps);
    assert_eq!(t.construct_file(), "// F\n\n");
    let t = t.header("// H".to_string()).enable_source_maps();
    assert!(t.generate_source_maps);
    assert_eq!(t.construct_file(), "// H\n// F\n\n");
}
