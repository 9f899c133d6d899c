use scholarsync::chatgpt::ModelRequest;
use scholarsync::guard::Guard;
use scholarsync::store::{load_dataset, Dataset};

#[test]
fn snapshot_of_one_professor_exact_text() {
    let mut d = Dataset::new();
    d.create_professor("A".to_string(), "CS".to_string(), "".to_string());
    let expected = "[\n  {\n    \"id\": 1,\n    \"name\": \"A\",\n    \"dept\": \"CS\",\n    \"desc\": \"\",\n    \"papers\": []\n  }\n]";
    assert_eq!(d.snapshot(), expected);
}

#[test]
fn snapshot_of_paper_exact_text() {
    let mut d = Dataset::new();
    d.create_professor("A".to_string(), "CS".to_string(), "".to_string());
    d.create_paper(1, "X".to_string()).unwrap();
    let expected = "[\n  {\n    \"id\": 1,\n    \"name\": \"A\",\n    \"dept\": \"CS\",\n    \"desc\": \"\",\n    \"papers\": [\n      {\n        \"id\": 1,\n        \"title\": \"X\"\n      }\n    ]\n  }\n]";
    assert_eq!(d.snapshot(), expected);
}

#[test]
fn empty_store_round_trip() {
    let d = Dataset::new();
    assert_eq!(d.snapshot(), "[]");
    let back = load_dataset(&d.snapshot()).unwrap();
    assert_eq!(back.list_professors().len(), 0);
}

#[test]
fn three_records_round_trip() {
    let mut d = Dataset::new();
    d.create_professor("Ada".to_string(), "CS".to_string(), "pioneer".to_string());
    d.create_professor(
        "Grace \"Amazing\" Hopper".to_string(),
        "Math\\CS".to_string(),
        "multi\nline".to_string(),
    );
    d.create_professor("Kurt".to_string(), "Logic".to_string(), "".to_string());
    d.create_paper(1, "Notes on the Engine".to_string()).unwrap();
    d.create_paper(2, "A \"quoted\" title".to_string()).unwrap();
    d.create_paper(2, "Back\\slash".to_string()).unwrap();
    let text = d.snapshot();
    let back = load_dataset(&text).unwrap();
    let orig = d.list_professors();
    let reloaded = back.list_professors();
    assert_eq!(orig.len(), reloaded.len());
    for (a, b) in orig.iter().zip(reloaded.iter()) {
        assert_eq!(a.id, b.id);
        assert_eq!(a.name, b.name);
        assert_eq!(a.dept, b.dept);
        assert_eq!(a.desc, b.desc);
        assert_eq!(a.papers.len(), b.papers.len());
        for (x, y) in a.papers.iter().zip(b.papers.iter()) {
            assert_eq!(x.id, y.id);
            assert_eq!(x.title, y.title);
        }
    }
}

#[test]
fn mutate_persist_reload_matches() {
    let mut d = Dataset::new();
    d.create_professor("A".to_string(), "CS".to_string(), "".to_string());
    d.create_professor("B".to_string(), "Math".to_string(), "".to_string());
    d.create_paper(2, "X".to_string()).unwrap();
    d.update_professor(1, "A2".to_string(), "Bio".to_string(), None)
        .unwrap();
    d.delete_paper(2, 1).unwrap();
    let back = load_dataset(&d.snapshot()).unwrap();
    assert_eq!(back.snapshot(), d.snapshot());
}

#[test]
fn malformed_snapshots_are_rejected() {
    assert!(load_dataset("").is_none());
    assert!(load_dataset("nonsense").is_none());
    assert!(load_dataset("[").is_none());
    assert!(load_dataset("[\n").is_none());
    assert!(load_dataset("[]trailing").is_none());
    assert!(load_dataset("[\n  {\n    \"id\": junk").is_none());
}

#[test]
fn oversized_id_is_rejected() {
    // 4294967296 does not fit in the id type
    let text = "[\n  {\n    \"id\": 4294967296,\n    \"name\": \"A\",\n    \"dept\": \"CS\",\n    \"desc\": \"\",\n    \"papers\": []\n  }\n]";
    assert!(load_dataset(text).is_none());
}

#[test]
fn largest_id_survives_round_trip() {
    let text = "[\n  {\n    \"id\": 4294967295,\n    \"name\": \"A\",\n    \"dept\": \"CS\",\n    \"desc\": \"\",\n    \"papers\": []\n  }\n]";
    let d = load_dataset(text).unwrap();
    let all = d.list_professors();
    assert_eq!(all.len(), 1);
    assert_eq!(all[0].id, u32::MAX);
    assert_eq!(d.snapshot(), text);
}

#[test]
fn control_characters_are_escaped_as_json() {
    let mut d = Dataset::new();
    d.create_professor("A".to_string(), "CS".to_string(), "a\nb\tc\u{1}".to_string());
    let expected = "[\n  {\n    \"id\": 1,\n    \"name\": \"A\",\n    \"dept\": \"CS\",\n    \"desc\": \"a\\nb\\tc\\u0001\",\n    \"papers\": []\n  }\n]";
    assert_eq!(d.snapshot(), expected);
    let back = load_dataset(&d.snapshot()).unwrap();
    assert_eq!(back.list_professors()[0].desc, "a\nb\tc\u{1}");
}

#[test]
fn standard_json_escapes_decode() {
    let text = "[\n  {\n    \"id\": 1,\n    \"name\": \"\\u0041\\/\\r\\b\\f\",\n    \"dept\": \"CS\",\n    \"desc\": \"\",\n    \"papers\": []\n  }\n]";
    let d = load_dataset(text).unwrap();
    assert_eq!(d.list_professors()[0].name, "A/\r\u{8}\u{c}");
}

#[test]
fn bad_escapes_are_rejected() {
    let with_name = |name: &str| {
        format!(
            "[\n  {{\n    \"id\": 1,\n    \"name\": \"{}\",\n    \"dept\": \"CS\",\n    \"desc\": \"\",\n    \"papers\": []\n  }}\n]",
            name
        )
    };
    // unknown escape letter
    assert!(load_dataset(&with_name("\\q")).is_none());
    // lone surrogate
    assert!(load_dataset(&with_name("\\uD800")).is_none());
    // malformed hex
    assert!(load_dataset(&with_name("\\u12G4")).is_none());
    // raw control character inside a string literal
    assert!(load_dataset(&with_name("a\u{1}b")).is_none());
}

#[test]
fn model_request_joins_titles_with_newlines() {
    let titles = vec!["X".to_string(), "Y".to_string(), "Z".to_string()];
    let req = ModelRequest::from_titles(&titles);
    assert_eq!(req.0, "X\nY\nZ");
    let none: Vec<String> = Vec::new();
    assert_eq!(ModelRequest::from_titles(&none).0, "");
    let one = vec!["solo".to_string()];
    assert_eq!(ModelRequest::from_titles(&one).0, "solo");
}

#[test]
fn guard_degrades_permanently() {
    let mut g = Guard::new();
    assert!(g.usable());
    g.mark_degraded();
    assert!(!g.usable());
}
