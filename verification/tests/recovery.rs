use taskai::{extract_yaml_content, parse_and_validate_yaml, try_fix_json_errors, TaskState};

#[test]
fn fenced_block_is_extracted() {
    let raw = " some preamble\n```yaml\nproject: p\ntasks: []\n```\n trailing notes";
    assert_eq!(extract_yaml_content(raw), "project: p\ntasks: []");
    let b = parse_and_validate_yaml(raw).unwrap();
    assert_eq!(b.project, "p");
    assert_eq!(b.tasks.len(), 0);
}

#[test]
fn recovery_tolerates_wrappings() {
    let doc = "project: p\ntasks:\n- id: T-1\n  title: One\n  state: Done\n- id: T-2\n  title: Two\n  depends: [T-1]";
    let bare = doc.to_string();
    let tagged = format!("```yaml\n{}\n```", doc);
    let untagged = format!("```\n{}\n```", doc);
    let prose = format!("Here is the plan\n\n{}\n\nGood luck", doc);
    let mut parsed = Vec::new();
    for raw in [bare, tagged, untagged, prose] {
        let b = parse_and_validate_yaml(&raw).unwrap();
        parsed.push(b);
    }
    for b in &parsed {
        assert_eq!(b.project, "p");
        assert_eq!(b.tasks.len(), 2);
        assert_eq!(b.tasks[0].id, "T-1");
        assert!(matches!(b.tasks[0].state, TaskState::Done));
        assert_eq!(b.tasks[1].id, "T-2");
        assert!(matches!(b.tasks[1].state, TaskState::Todo));
        assert_eq!(b.tasks[1].depends, vec!["T-1".to_string()]);
    }
}

#[test]
fn bare_document_passes_through() {
    let doc = "project: p\ntasks: []";
    assert_eq!(extract_yaml_content(doc), doc);
}

#[test]
fn untagged_fence_is_extracted() {
    let raw = "notes\n```\nproject: p\ntasks: []\n```\nmore";
    assert_eq!(extract_yaml_content(raw), "project: p\ntasks: []");
}

#[test]
fn unclosed_fence_falls_through_to_project_token() {
    let raw = "blah\n```yaml\nproject: p\ntasks: []";
    assert_eq!(extract_yaml_content(raw), "project: p\ntasks: []");
}

#[test]
fn document_separator_ends_the_document() {
    let raw = "intro\nproject: p\ntasks: []\n---\nappendix";
    assert_eq!(extract_yaml_content(raw), "project: p\ntasks: []");
}

#[test]
fn heading_marker_ends_the_document() {
    let raw = "intro\nproject: p\ntasks: []\n### notes";
    assert_eq!(extract_yaml_content(raw), "project: p\ntasks: []");
}

#[test]
fn text_without_document_is_unchanged() {
    let raw = "nothing to see here";
    assert_eq!(extract_yaml_content(raw), raw);
}

#[test]
fn repair_quotes_known_field_names() {
    let raw = "{\"project\": \"p\", \"tasks\": [{id:\"R-1\", title:\"fix\", depends:[]}]}";
    let fixed = try_fix_json_errors(raw);
    assert!(fixed.is_some());
    assert!(fixed.unwrap().contains("\"id\":"));
    let b = parse_and_validate_yaml(raw).unwrap();
    assert_eq!(b.project, "p");
    assert_eq!(b.tasks[0].id, "R-1");
}

#[test]
fn repair_refuses_hopeless_input() {
    assert!(try_fix_json_errors("] totally broken [").is_none());
}

#[test]
fn deliverable_forms_roundtrip() {
    let yaml = "project: p\ntasks:\n  - id: T-1\n    title: One\n    deliverable: src/main.rs\n  - id: T-2\n    title: Two\n    deliverable:\n      - a.rs\n      - b.rs\n";
    let b = taskai::backlog_from_yaml(yaml).unwrap();
    match &b.tasks[0].deliverable {
        Some(taskai::DeliverableSpec::Single(p)) => assert_eq!(p, "src/main.rs"),
        _ => panic!("expected a single deliverable"),
    }
    match &b.tasks[1].deliverable {
        Some(taskai::DeliverableSpec::Multiple(ps)) => {
            assert_eq!(ps, &vec!["a.rs".to_string(), "b.rs".to_string()])
        },
        _ => panic!("expected multiple deliverables"),
    }
    let s = taskai::backlog_to_yaml(&b).unwrap();
    let again = taskai::backlog_from_yaml(&s).unwrap();
    match &again.tasks[1].deliverable {
        Some(taskai::DeliverableSpec::Multiple(ps)) => assert_eq!(ps.len(), 2),
        _ => panic!("expected multiple deliverables after the roundtrip"),
    }
}

#[test]
fn generator_builders_keep_choices() {
    let g = taskai::BacklogGenerator::new().with_model("m-1").with_language("fr").with_style("tight");
    assert_eq!(g.model(), "m-1");
    assert_eq!(g.language(), "fr");
    assert_eq!(g.style(), "tight");
    assert!(taskai::BacklogGenerator::is_structured_spec("Project: x\nGoal: y"));
    assert!(!taskai::BacklogGenerator::is_structured_spec("Project: x alone"));
    let c = taskai::BacklogGenerator::prompt_path_candidates("system_en.txt");
    assert_eq!(c, vec![
        "prompts/system_en.txt".to_string(),
        "crates/core/prompts/system_en.txt".to_string(),
        "system_en.txt".to_string(),
    ]);
}
