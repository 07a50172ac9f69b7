use tauri_helper::registry::{normalize_command, normalize_commands, NormalizeError};

fn strings(items: &[&str]) -> Vec<String> {
    items.iter().map(|s| s.to_string()).collect()
}

#[test]
fn strips_prefix_for_calling_crate_only() {
    let raw = vec![
        "tauri_helper::local_cmd".to_string(),
        "other_crate::foreign_cmd".to_string(),
    ];

    let result = normalize_commands(raw, "tauri_helper".into()).unwrap();
    let collected: Vec<_> = result.into_iter().collect();
    println!("hi: {:#?}", collected);
    assert_eq!(collected, vec!["local_cmd", "other_crate::foreign_cmd"]);
}

#[test]
fn preserves_prefix_when_calling_crate_differs() {
    let raw = vec!["tauri_helper::cmd".to_string()];

    let result = normalize_commands(raw, "another_crate".into()).unwrap();
    let collected: Vec<_> = result.into_iter().collect();

    assert_eq!(collected, vec!["tauri_helper::cmd"]);
}

#[test]
fn sorts_and_deduplicates_commands() {
    let raw = vec![
        "b_cmd".to_string(),
        "a_cmd".to_string(),
        "a_cmd".to_string(),
        "c_cmd".to_string(),
    ];

    let result = normalize_commands(raw, "tauri_helper".into()).unwrap();
    let collected: Vec<_> = result.into_iter().collect();

    assert_eq!(collected, vec!["a_cmd", "b_cmd", "c_cmd",]);
}

#[test]
fn accepts_valid_identifiers_and_paths() {
    let raw = vec![
        "valid_cmd".to_string(),
        "crate_name::valid_cmd".to_string(),
        "a1_b2::c3".to_string(),
    ];

    let result = normalize_commands(raw, "tauri_helper".into()).unwrap();

    assert_eq!(result.len(), 3);
}

#[test]
fn rejects_invalid_command_name() {
    let raw = vec!["valid_cmd".to_string(), "invalid-cmd".to_string()];

    let result = normalize_commands(raw, "tauri_helper".into());

    match result {
        Err(NormalizeError::InvalidCommandName(id)) => assert_eq!(id, "invalid-cmd"),
        Ok(_) => panic!("an invalid identifier was accepted"),
    }
}

#[test]
fn strips_own_prefix_for_pkg() {
    let raw = strings(&["pkg::local_cmd", "other::foreign_cmd"]);
    let result = normalize_commands(raw, "pkg".into()).unwrap();
    assert_eq!(result, vec!["local_cmd", "other::foreign_cmd"]);
}

#[test]
fn keeps_prefix_for_another_crate() {
    let raw = strings(&["pkg::cmd"]);
    let result = normalize_commands(raw, "another".into()).unwrap();
    assert_eq!(result, vec!["pkg::cmd"]);
}

#[test]
fn hyphens_fold_when_comparing_crates() {
    let raw = strings(&["my_app::run", "my_app_x::go"]);
    let result = normalize_commands(raw, "my-app".into()).unwrap();
    assert_eq!(result, vec!["my_app_x::go", "run"]);
}

#[test]
fn strips_prefix_only_once() {
    let raw = strings(&["pkg::pkg::cmd"]);
    let result = normalize_commands(raw, "pkg".into()).unwrap();
    assert_eq!(result, vec!["pkg::cmd"]);
}

#[test]
fn empty_identifier_after_stripping_is_rejected() {
    let raw = strings(&["pkg::"]);
    let result = normalize_commands(raw, "pkg".into());
    assert!(matches!(result, Err(NormalizeError::InvalidCommandName(ref id)) if id == "pkg::"));
}

#[test]
fn first_invalid_identifier_is_reported() {
    let raw = strings(&["ok", "bad one", "bad-two"]);
    let result = normalize_commands(raw, "pkg".into());
    assert!(matches!(result, Err(NormalizeError::InvalidCommandName(ref id)) if id == "bad one"));
}

#[test]
fn empty_input_gives_empty_registry() {
    let result = normalize_commands(Vec::new(), "pkg".into()).unwrap();
    assert!(result.is_empty());
}

#[test]
fn renormalizing_a_registry_keeps_it() {
    let raw = strings(&["pkg::z", "other::y", "x", "pkg::x"]);
    let first = normalize_commands(raw, "pkg".into()).unwrap();
    assert_eq!(first, vec!["other::y", "x", "z"]);
    let second = normalize_commands(first.clone(), "pkg".into()).unwrap();
    assert_eq!(second, first);
}

#[test]
fn order_is_by_code_point() {
    let raw = strings(&["b", "B", "a_", "a", "A1", "_"]);
    let result = normalize_commands(raw, "pkg".into()).unwrap();
    assert_eq!(result, vec!["A1", "B", "_", "a", "a_", "b"]);
}

#[test]
fn normalize_command_single() {
    assert_eq!(normalize_command("pkg::cmd", "pkg"), "cmd");
    assert_eq!(normalize_command("pkg::cmd", "other"), "pkg::cmd");
    assert_eq!(normalize_command("pkgx::cmd", "pkg"), "pkgx::cmd");
}

#[test]
fn strips_requesting_crate_whatever_the_package() {
    let raw = strings(&["lib::c", "app::d"]);
    let result = normalize_commands(raw, "lib".into()).unwrap();
    assert_eq!(result, vec!["app::d", "c"]);
}

#[test]
fn bare_requesting_prefix_is_fatal() {
    let raw = strings(&["lib::"]);
    let result = normalize_commands(raw, "lib".into());
    assert!(matches!(result, Err(NormalizeError::InvalidCommandName(ref id)) if id == "lib::"));
}

#[test]
fn crate_part_ends_at_first_separator() {
    assert_eq!(normalize_command("a::b::c", "a"), "b::c");
    assert_eq!(normalize_command("a::b::c", "a::b"), "a::b::c");
    assert_eq!(normalize_command("a:::c", "a:"), "a:::c");
    assert_eq!(normalize_command("my_app::go", "my-app"), "go");
}
