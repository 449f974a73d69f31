use siftview::{
    compute_diff, compute_diff_structured, detect_content, detect_segments,
    format_content_segmented, format_csv, format_json, DiffBlock, Segment,
};

fn conf(c: u32) -> f64 {
    c as f64 / 100.0
}

#[test]
fn detect_content_json_by_extension() {
    let out = detect_content("anything", Some("json".into()));
    assert_eq!(out.kind, "json");
    assert!((conf(out.confidence) - 0.95).abs() < 1e-9);
}

#[test]
fn detect_content_csv_by_extension() {
    let out = detect_content("anything", Some("csv".into()));
    assert_eq!(out.kind, "csv");
    assert!((conf(out.confidence) - 0.95).abs() < 1e-9);
}

#[test]
fn detect_content_xml_by_extension() {
    let out = detect_content("x", Some("xml".into()));
    assert_eq!(out.kind, "xml");
    let out_html = detect_content("x", Some("HTML".into()));
    assert_eq!(out_html.kind, "xml");
}

#[test]
fn detect_content_json_heuristic_object() {
    let out = detect_content(r#"  {"a": 1}  "#, None);
    assert_eq!(out.kind, "json");
    assert!((conf(out.confidence) - 0.85).abs() < 1e-9);
}

#[test]
fn detect_content_json_heuristic_array() {
    let out = detect_content(r#"["x", "y"]"#, None);
    assert_eq!(out.kind, "json");
}

#[test]
fn detect_content_csv_heuristic() {
    let out = detect_content("a,b,c\n1,2,3", None);
    assert_eq!(out.kind, "csv");
    assert!((conf(out.confidence) - 0.7).abs() < 1e-9);
}

#[test]
fn detect_content_fallback_text() {
    let out = detect_content("plain text\nno structure", None);
    assert_eq!(out.kind, "text");
    assert!((conf(out.confidence) - 0.5).abs() < 1e-9);
}

#[test]
fn detect_content_extension_overrides_heuristic() {
    let out = detect_content("a,b,c\n1,2,3", Some("json".into()));
    assert_eq!(out.kind, "json");
    assert!((conf(out.confidence) - 0.95).abs() < 1e-9);
}

#[test]
fn detect_content_yaml_and_properties_by_extension() {
    let out = detect_content("x", Some("yaml".into()));
    assert_eq!(out.kind, "yaml");
    let out2 = detect_content("x", Some("yml".into()));
    assert_eq!(out2.kind, "yaml");
    let out3 = detect_content("x", Some("env".into()));
    assert_eq!(out3.kind, "properties");
    let out4 = detect_content("x", Some("properties".into()));
    assert_eq!(out4.kind, "properties");
}

#[test]
fn format_csv_aligns_columns() {
    let raw = "a,b,c\n1,22,333";
    let out = format_csv(raw).unwrap();
    assert!(out.contains("a  "));
    assert!(out.contains("1  "));
    assert!(out.contains("333"));
}

#[test]
fn format_content_segmented_formats_csv_segment() {
    let content = "text\nname,age\nAlice,30\nmore";
    let segments = vec![
        Segment { start_line: 1, end_line: 1, kind: "text".to_string() },
        Segment { start_line: 2, end_line: 3, kind: "csv".to_string() },
        Segment { start_line: 4, end_line: 4, kind: "text".to_string() },
    ];
    let out = format_content_segmented(content.to_string(), segments);
    assert!(out.contains("text"));
    assert!(out.contains("more"));
    assert!(out.contains("name"));
    assert!(out.contains("Alice"));
}

#[test]
fn compute_diff_produces_unified_format() {
    let left = "a\nb\nc\n";
    let right = "a\nb2\nc\n";
    let out = compute_diff(left.to_string(), right.to_string());
    assert!(out.contains("--- current"));
    assert!(out.contains("+++ clipboard"));
    assert!(out.contains("-b") || out.contains("b2"));
    assert!(out.contains("+b2") || out.contains("b\n"));
}

#[test]
fn detect_segments_single_block() {
    let out = detect_segments("hello\nworld".to_string(), None);
    assert_eq!(out.len(), 1);
    assert_eq!(out[0].start_line, 1);
    assert_eq!(out[0].end_line, 2);
    assert_eq!(out[0].kind, "text");
}

#[test]
fn detect_segments_per_line_json_and_text() {
    let content = "123\n123\n{\"a\": 1}\n\nselect * from t";
    let out = detect_segments(content.to_string(), None);
    assert!(out.len() >= 2);
    assert_eq!(out[0].kind, "text");
    assert_eq!(out[0].end_line, 2);
    assert_eq!(out[1].kind, "json");
    assert_eq!(out[1].start_line, 3);
    assert_eq!(out[1].end_line, 3);
}

#[test]
fn format_json_pretty_prints() {
    let compact = r#"{"a":1,"b":2}"#;
    let out = format_json(compact.to_string()).unwrap();
    assert!(out.contains(' '));
    assert!(out.contains('\n'));
    let parsed: serde_json::Value = serde_json::from_str(&out).unwrap();
    assert_eq!(parsed.get("a").and_then(|v| v.as_i64()), Some(1));
}

#[test]
fn format_json_rejects_invalid() {
    let bad = "{ invalid }";
    assert!(format_json(bad.to_string()).is_err());
}

#[test]
fn format_content_segmented_returns_unchanged_for_text() {
    let content = "hello\nworld";
    let segments = vec![Segment { start_line: 1, end_line: 2, kind: "text".to_string() }];
    let out = format_content_segmented(content.to_string(), segments);
    assert_eq!(out, content);
}

#[test]
fn format_content_segmented_formats_only_json_segment() {
    let content = "some text\n{\"a\":1}\nmore text";
    let segments = vec![
        Segment { start_line: 1, end_line: 1, kind: "text".to_string() },
        Segment { start_line: 2, end_line: 2, kind: "json".to_string() },
        Segment { start_line: 3, end_line: 3, kind: "text".to_string() },
    ];
    let out = format_content_segmented(content.to_string(), segments);
    assert!(out.contains("some text"));
    assert!(out.contains("more text"));
    assert!(out.contains("\"a\": 1") || out.contains("\"a\":1"));
}

#[test]
fn format_content_segmented_plain_text_no_segments_fallback() {
    let content = "not json at all";
    let out = format_content_segmented(content.to_string(), vec![]);
    assert_eq!(out, content);
}

#[test]
fn compute_diff_structured_returns_blocks() {
    let left = "1\n2\n3\n";
    let right = "1\n2\n";
    let out = compute_diff_structured(left.to_string(), right.to_string());
    assert_eq!(out.left_label, "current");
    assert_eq!(out.right_label, "clipboard");
    assert!(!out.blocks.is_empty());
    if let DiffBlock::Unchanged { count, lines } = &out.blocks[0] {
        assert_eq!(*count, 2);
        assert_eq!(lines.len(), 2);
    }
}
