use smctl::specdoc::{parse_tasks, spec_phase, validate, SpecPhase};

#[test]
fn test_parse_tasks() {
    let content = "# Tasks\n\
                   - [x] Done task\n\
                   - [ ] Pending task\n\
                   - [X] Also done\n\
                   - [ ] Another pending\n";
    let (total, done) = parse_tasks(content);
    assert_eq!(total, 4);
    assert_eq!(done, 2);
}

#[test]
fn test_parse_tasks_ignores_other_lines() {
    let content = "## Implementation\n\ntext\n  - [x] indented done\n-[x] not a task\n";
    let (total, done) = parse_tasks(content);
    assert_eq!(total, 1);
    assert_eq!(done, 1);
}

#[test]
fn test_spec_info_phase_draft() {
    // A freshly scaffolded spec has one pending task and is a draft
    let (total, done) = parse_tasks("# Tasks\n- [ ] \n");
    assert!(done < total);
    assert_eq!(spec_phase(true, total, done), SpecPhase::Draft);
}

#[test]
fn test_spec_info_phase_active_when_all_done() {
    let (total, done) = parse_tasks("# Tasks\n- [x] Task one\n- [x] Task two\n");
    assert_eq!(total, 2);
    assert_eq!(done, 2);
    assert_eq!(spec_phase(true, total, done), SpecPhase::Active);
}

#[test]
fn test_spec_phase_without_tasks_is_new() {
    assert_eq!(spec_phase(false, 0, 0), SpecPhase::New);
}

#[test]
fn test_validate_spec() {
    let proposal = "# X — Proposal\n## Why\n\n## What Changes\n".to_string();
    let design = "# X — Design Document\n## Decisions\n".to_string();
    let tasks = "# X — Tasks\n- [ ] \n".to_string();
    let result = validate("valid-spec", Some(&proposal), Some(&design), Some(&tasks));
    assert!(result.valid, "issues: {:?}", result.issues);
    assert_eq!(result.name, "valid-spec");
}

#[test]
fn test_validate_missing_sections() {
    let proposal = "# Empty\n".to_string();
    let design = "# X\n## Decisions\n".to_string();
    let tasks = "- [ ] one\n".to_string();
    let result = validate("bad-spec", Some(&proposal), Some(&design), Some(&tasks));
    assert!(!result.valid);
    assert!(result.issues.iter().any(|i| i.contains("Why")));
}

#[test]
fn test_validate_missing_documents() {
    let result = validate("gone", None, None, None);
    assert!(!result.valid);
    assert_eq!(
        result.issues,
        vec!["missing proposal.md", "missing design.md", "missing tasks.md"]
    );
}

#[test]
fn test_validate_tasks_without_checkboxes() {
    let proposal = "## Why\n## What Changes\n".to_string();
    let design = "## Decisions\n".to_string();
    let tasks = "nothing here\n".to_string();
    let result = validate("no-boxes", Some(&proposal), Some(&design), Some(&tasks));
    assert!(!result.valid);
    assert_eq!(result.issues, vec!["tasks.md has no task checkboxes"]);
}
