use siftview::{
    compute_diff, compute_diff_structured, detect_content, detect_line_kind, detect_segments,
    format_content_segmented, format_csv, format_json, format_properties, DiffBlock, Segment,
};

fn seg(start_line: u32, end_line: u32, kind: &str) -> Segment {
    Segment { start_line, end_line, kind: kind.to_string() }
}

fn block_sides(blocks: &[DiffBlock]) -> (usize, usize) {
    let mut old = 0;
    let mut new = 0;
    for b in blocks {
        match b {
            DiffBlock::Unchanged { count, lines } => {
                assert_eq!(*count, lines.len());
                assert!(*count > 0);
                old += count;
                new += count;
            }
            DiffBlock::Changed { old_lines, new_lines } => {
                old += old_lines.len();
                new += new_lines.len();
            }
        }
    }
    (old, new)
}

#[test]
fn classify_anything_with_json_extension() {
    let out = detect_content("anything", Some("json".to_string()));
    assert_eq!(out.kind, "json");
    assert_eq!(out.confidence, 95);
}

#[test]
fn classify_compact_json_without_hint() {
    let out = detect_content("{\"a\":1}", None);
    assert_eq!(out.kind, "json");
    assert_eq!(out.confidence, 85);
}

#[test]
fn extension_confidences() {
    assert_eq!(detect_content("x", Some("XML".to_string())).confidence, 90);
    assert_eq!(detect_content("x", Some("Env".to_string())).confidence, 90);
    assert_eq!(detect_content("x", Some("YML".to_string())).confidence, 95);
    assert_eq!(detect_content("x", Some("CSV".to_string())).confidence, 95);
}

#[test]
fn extension_decides_over_content() {
    for text in ["{\"a\": 1}", "a,b\n1,2", "---\nx: 1", "k=v", ""] {
        assert_eq!(detect_content(text, Some("yaml".to_string())).kind, "yaml");
        assert_eq!(detect_content(text, Some("properties".to_string())).kind, "properties");
    }
}

#[test]
fn unknown_extension_falls_back_to_content() {
    let out = detect_content("a,b\n1,2", Some("txt".to_string()));
    assert_eq!(out.kind, "csv");
    assert_eq!(out.confidence, 70);
}

#[test]
fn heuristic_yaml_document_start() {
    let out = detect_content("---\nname: x", None);
    assert_eq!(out.kind, "yaml");
    assert_eq!(out.confidence, 75);
}

#[test]
fn heuristic_yaml_key_value() {
    let out = detect_content("# config\nname: x\nport: 80", None);
    assert_eq!(out.kind, "yaml");
    assert_eq!(out.confidence, 65);
}

#[test]
fn heuristic_properties() {
    let out = detect_content("# settings\nA=1\n\nB=2", None);
    assert_eq!(out.kind, "properties");
    assert_eq!(out.confidence, 65);
}

#[test]
fn heuristic_properties_refuses_leading_equals() {
    let out = detect_content("A=1\n=2", None);
    assert_eq!(out.kind, "text");
    assert_eq!(out.confidence, 50);
}

#[test]
fn heuristic_csv_beats_yaml() {
    let out = detect_content("a, b\nc: d", None);
    assert_eq!(out.kind, "csv");
}

#[test]
fn heuristic_confidences_are_fixed() {
    let allowed = [95, 90, 85, 75, 70, 65, 50];
    for text in ["", "x", "{\"a\"}", "[1]", "a,b\nc", "---", "a: b\nc", "a=b", "a\r\nb"] {
        let c = detect_content(text, None).confidence;
        assert!(allowed.contains(&c));
        assert_eq!(c, detect_content(text, None).confidence);
    }
}

#[test]
fn line_kind_honours_hint_on_first_line_only() {
    assert_eq!(detect_line_kind("plain", 0, "json"), "json");
    assert_eq!(detect_line_kind("plain", 1, "json"), "text");
    assert_eq!(detect_line_kind("   ", 0, "json"), "text");
    assert_eq!(detect_line_kind("{\"a\": 1}", 4, ""), "json");
    assert_eq!(detect_line_kind("k=v", 0, "nope"), "properties");
}

#[test]
fn segments_example_with_blank_line() {
    let out = detect_segments("123\n123\n{\"a\": 1}\n\nselect * from t".to_string(), None);
    assert_eq!(out.len(), 3);
    assert_eq!((out[0].start_line, out[0].end_line, out[0].kind.as_str()), (1, 2, "text"));
    assert_eq!((out[1].start_line, out[1].end_line, out[1].kind.as_str()), (3, 3, "json"));
    assert_eq!((out[2].start_line, out[2].end_line, out[2].kind.as_str()), (5, 5, "text"));
}

#[test]
fn segments_blank_line_breaks_run() {
    let out = detect_segments("a\n\nb".to_string(), None);
    assert_eq!(out.len(), 2);
    assert_eq!((out[0].start_line, out[0].end_line), (1, 1));
    assert_eq!((out[1].start_line, out[1].end_line), (3, 3));
}

#[test]
fn segments_empty_buffer() {
    let out = detect_segments(String::new(), Some("yml".to_string()));
    assert_eq!(out.len(), 1);
    assert_eq!((out[0].start_line, out[0].end_line, out[0].kind.as_str()), (1, 1, "yaml"));
    let out = detect_segments(String::new(), None);
    assert_eq!(out[0].kind, "text");
}

#[test]
fn segments_all_blank_buffer() {
    let out = detect_segments("  \n\n\t".to_string(), Some("json".to_string()));
    assert_eq!(out.len(), 1);
    assert_eq!((out[0].start_line, out[0].end_line, out[0].kind.as_str()), (1, 3, "text"));
}

#[test]
fn segments_hint_applies_to_first_line() {
    let out = detect_segments("a\nb".to_string(), Some("csv".to_string()));
    assert_eq!(out.len(), 2);
    assert_eq!(out[0].kind, "csv");
    assert_eq!(out[1].kind, "text");
}

#[test]
fn segments_cover_non_blank_lines_once() {
    let content = "x=1\ny=2\n\n{\"a\": 1}\nplain\n\n\nk: v, w\nend";
    let out = detect_segments(content.to_string(), None);
    let lines: Vec<&str> = content.lines().collect();
    for (i, l) in lines.iter().enumerate() {
        let n = (i + 1) as u32;
        let hits = out.iter().filter(|s| s.start_line <= n && n <= s.end_line).count();
        if l.trim().is_empty() {
            assert_eq!(hits, 0);
        } else {
            assert_eq!(hits, 1);
        }
    }
    for w in out.windows(2) {
        assert!(w[0].end_line < w[1].start_line);
        if w[0].end_line + 1 == w[1].start_line {
            assert_ne!(w[0].kind, w[1].kind);
        }
    }
}

#[test]
fn segmented_text_segment_unchanged() {
    let out = format_content_segmented("hello\nworld".to_string(), vec![seg(1, 2, "text")]);
    assert_eq!(out, "hello\nworld");
}

#[test]
fn segmented_empty_content() {
    assert_eq!(format_content_segmented(String::new(), vec![seg(1, 1, "json")]), "");
}

#[test]
fn segmented_no_segments_formats_whole_json() {
    let out = format_content_segmented("{\"a\":1}".to_string(), vec![]);
    assert_eq!(out, "{\n  \"a\": 1\n}");
}

#[test]
fn segmented_out_of_range_and_unknown_kinds() {
    let content = "a\nb\nc";
    let out = format_content_segmented(
        content.to_string(),
        vec![seg(0, 1, "weird"), seg(5, 9, "json"), seg(2, 99, "TEXT"), seg(3, 2, "csv")],
    );
    assert_eq!(out, "a\nb\nc");
}

#[test]
fn segmented_malformed_json_falls_back() {
    let content = "{\"a\":1}\n{broken\nz=1\na=2";
    let out = format_content_segmented(
        content.to_string(),
        vec![seg(1, 1, "json"), seg(2, 2, "json"), seg(3, 4, "env")],
    );
    assert_eq!(out, "{\n  \"a\": 1\n}\n{broken\na=2\nz=1");
}

#[test]
fn segmented_csv_xml_yaml() {
    let content = "a,bb\nccc,d\n<r><x>1</x></r>\nb: 2\na: 1";
    let out = format_content_segmented(
        content.to_string(),
        vec![seg(1, 2, "csv"), seg(3, 3, "xml"), seg(4, 5, "yaml")],
    );
    assert_eq!(out, "a    bb\nccc  d \n<r>\n  <x>1</x>\n</r>\nb: 2\na: 1\n");
}

#[test]
fn segmented_malformed_csv_falls_back() {
    let content = "a,b\n1,2,3";
    let out = format_content_segmented(content.to_string(), vec![seg(1, 2, "csv")]);
    assert_eq!(out, content);
}

#[test]
fn segmented_malformed_xml_falls_back() {
    let content = "<a><b></a>";
    let out = format_content_segmented(content.to_string(), vec![seg(1, 1, "html")]);
    assert_eq!(out, content);
}

#[test]
fn csv_exact_layout() {
    assert_eq!(format_csv("a,b,c\n1,22,333").unwrap(), "a  b   c  \n1  22  333");
    assert_eq!(format_csv("").unwrap(), "");
    assert!(format_csv("a,b\n1").is_err());
}

#[test]
fn csv_quoted_cells() {
    assert_eq!(format_csv("\"x,y\",z\n1,2").unwrap(), "x,y  z\n1    2");
}

#[test]
fn properties_sorted_and_trimmed() {
    let out = format_properties("  b=2\n\n# note\na=1  \r\n").unwrap();
    assert_eq!(out, "# note\na=1\nb=2");
    assert_eq!(format_properties("").unwrap(), "");
}

#[test]
fn json_exact_pretty_print() {
    let out = format_json("[1,{\"k\":\"v\"}]".to_string()).unwrap();
    assert_eq!(out, "[\n  1,\n  {\n    \"k\": \"v\"\n  }\n]");
}

#[test]
fn json_pretty_print_is_idempotent() {
    for doc in ["{\"a\":1,\"b\":[true,null]}", "[]", "\"s\"", "{\"x\":{\"y\":{}}}"] {
        let once = format_json(doc.to_string()).unwrap();
        let twice = format_json(once.clone()).unwrap();
        assert_eq!(once, twice);
    }
}

#[test]
fn json_error_carries_message() {
    let err = format_json("{ invalid }".to_string()).unwrap_err();
    assert!(!err.is_empty());
}

#[test]
fn structured_diff_example() {
    let out = compute_diff_structured("1\n2\n3\n".to_string(), "1\n2\n".to_string());
    assert_eq!(out.blocks.len(), 2);
    match &out.blocks[0] {
        DiffBlock::Unchanged { count, lines } => {
            assert_eq!(*count, 2);
            assert_eq!(lines, &vec!["1".to_string(), "2".to_string()]);
        }
        _ => panic!("expected an unchanged block"),
    }
    match &out.blocks[1] {
        DiffBlock::Changed { old_lines, new_lines } => {
            assert_eq!(old_lines, &vec!["3".to_string()]);
            assert!(new_lines.is_empty());
        }
        _ => panic!("expected a changed block"),
    }
}

#[test]
fn structured_diff_counts_match_inputs() {
    let pairs = [
        ("", ""),
        ("a\nb\nc", "a\nx\nc\nd"),
        ("same\n", "same\n"),
        ("", "new\nlines"),
        ("one\ntwo\nthree\nfour", "zero\ntwo\nfour\nfive"),
    ];
    for (l, r) in pairs {
        let out = compute_diff_structured(l.to_string(), r.to_string());
        let (old, new) = block_sides(&out.blocks);
        assert_eq!(old, l.lines().count());
        assert_eq!(new, r.lines().count());
    }
}

#[test]
fn structured_diff_pure_insertion() {
    let out = compute_diff_structured("a".to_string(), "a\nb".to_string());
    assert_eq!(out.blocks.len(), 2);
    match &out.blocks[1] {
        DiffBlock::Changed { old_lines, new_lines } => {
            assert!(old_lines.is_empty());
            assert_eq!(new_lines, &vec!["b".to_string()]);
        }
        _ => panic!("expected a changed block"),
    }
}

#[test]
fn unified_diff_exact() {
    let out = compute_diff("a\nb\nc\n".to_string(), "a\nb2\nc\n".to_string());
    assert_eq!(out, "--- current\n+++ clipboard\n@@ -1,3 +1,3 @@\n a\n-b\n+b2\n c\n");
    assert_eq!(compute_diff("same".to_string(), "same".to_string()), "");
}
