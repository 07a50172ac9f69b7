use tauri_helper::emit::{plan_registration, Registration};
use tauri_helper::ident::{is_valid_ident, lex_less};
use tauri_helper::manifest::{fold_hyphens_string, parse_manifest, render_manifest};
use tauri_helper::phases::{collect_commands, member_manifest};
use tauri_helper::phases::member_manifest_from_items;
use tauri_helper::scan::{collect_marked, marked_in_files};
use tauri_helper::workspace::{
    get_workspace_pkg_name, is_workspace_manifest, nearest_workspace, workspace_members, CargoToml, Package,
    TauriHelperOptions, Workspace,
};

fn strings(items: &[&str]) -> Vec<String> {
    items.iter().map(|s| s.to_string()).collect()
}

#[test]
fn parse_trims_and_skips_blank_lines() {
    let text = "  a::b  \n\n\t\r\nc::d\r\n   \ne";
    assert_eq!(parse_manifest(text), vec!["a::b", "c::d", "e"]);
}

#[test]
fn parse_empty_text() {
    assert!(parse_manifest("").is_empty());
    assert!(parse_manifest("\n\n  \n").is_empty());
}

#[test]
fn render_qualifies_with_member_name() {
    let text = render_manifest("my-lib", "app", &strings(&["one", "two"]));
    assert_eq!(text, "my_lib::one\nmy_lib::two\n");
}

#[test]
fn render_uses_package_name_for_app_crate() {
    let text = render_manifest("src-tauri", "my-app", &strings(&["greet"]));
    assert_eq!(text, "my_app::greet\n");
}

#[test]
fn render_nothing_gives_empty_text() {
    assert_eq!(render_manifest("core", "app", &Vec::new()), "");
}

#[test]
fn manifest_round_trip() {
    let functions = strings(&["zeta", "alpha", "mid"]);
    let text = render_manifest("src_tauri", "my-app", &functions);
    let result = collect_commands(vec![text], "my-app".into()).unwrap();
    assert_eq!(result, vec!["alpha", "mid", "zeta"]);
}

#[test]
fn collect_from_several_manifests() {
    let texts = vec![
        "app::b\napp::a\n".to_string(),
        "lib::c\n".to_string(),
        String::new(),
    ];
    let result = collect_commands(texts.clone(), "app".into()).unwrap();
    assert_eq!(result, vec!["a", "b", "lib::c"]);
    let other = collect_commands(texts, "lib".into()).unwrap();
    assert_eq!(other, vec!["app::a", "app::b", "c"]);
}

#[test]
fn collect_rejects_bad_line() {
    let texts = vec!["app::ok\napp::not ok\n".to_string()];
    assert!(collect_commands(texts, "app".into()).is_err());
}

#[test]
fn empty_manifests_give_empty_registration() {
    let text = member_manifest("core", "app", &strings(&["fn plain() {}\n"]));
    assert_eq!(text, "");
    let registry = collect_commands(vec![text], "app".into()).unwrap();
    assert!(registry.is_empty());
    assert!(matches!(plan_registration(registry), Registration::Empty));
}

#[test]
fn registration_lists_commands() {
    match plan_registration(strings(&["a", "b::c"])) {
        Registration::Commands(v) => assert_eq!(v, vec!["a", "b::c"]),
        Registration::Empty => panic!("expected commands"),
    }
}

#[test]
fn marked_functions_of_source() {
    let source = "
        #[tauri::command]
        #[auto_collect_command]
        fn greet() {}

        #[tauri::command]
        fn hidden() {}

        #[auto_collect_command]
        pub fn second() {}

        struct NotAFunction;

        mod inner {
            #[auto_collect_command]
            fn nested() {}
        }
    ";
    assert_eq!(member_manifest("core", "app", &strings(&[source])), "core::greet\ncore::second\n");
}

#[test]
fn unparsable_source_yields_nothing() {
    assert_eq!(member_manifest("core", "app", &strings(&["fn broken( {"])), "");
}

#[test]
fn member_manifest_from_sources() {
    let sources = strings(&[
        "#[auto_collect_command]\nfn a() {}\n",
        "not rust at all {{{",
        "#[auto_collect_command]\n#[auto_collect_command]\nfn b() {}\n",
    ]);
    assert_eq!(member_manifest("my-core", "app", &sources), "my_core::a\nmy_core::b\n");
}

#[test]
fn collect_marked_counts_marker_attributes() {
    let items = vec![
        Some(("f".to_string(), vec![Some("auto_collect_command".to_string()), None])),
        None,
        Some(("g".to_string(), vec![Some("command".to_string())])),
    ];
    assert_eq!(collect_marked(&items), vec!["f"]);
}

#[test]
fn workspace_header_detection() {
    assert!(is_workspace_manifest("[package]\nname = \"x\"\n\n[workspace]\nmembers = []\n"));
    assert!(!is_workspace_manifest("[package]\nname = \"x\"\n"));
    assert!(!is_workspace_manifest("[workspace"));
}

#[test]
fn workspace_accessors() {
    let cargo = CargoToml {
        package: Package {
            name: "my-app".to_string(),
            version: "0.1.0".to_string(),
            edition: "2021".to_string(),
        },
        workspace: Workspace { members: strings(&["core", "src-tauri"]) },
    };
    assert_eq!(get_workspace_pkg_name(&cargo), "my-app");
    assert_eq!(workspace_members(&cargo), vec!["core", "src-tauri"]);
}

#[test]
fn options() {
    assert!(TauriHelperOptions::new(true).collect_all);
    assert!(!TauriHelperOptions::default().collect_all);
}

#[test]
fn identifier_helpers() {
    assert!(is_valid_ident("a1_B::c"));
    assert!(!is_valid_ident(""));
    assert!(!is_valid_ident("a-b"));
    assert!(lex_less("a", "b"));
    assert!(lex_less("a", "ab"));
    assert!(!lex_less("b", "ab"));
    assert_eq!(fold_hyphens_string("a-b-c"), "a_b_c");
}

#[test]
fn manifest_order_does_not_change_registry() {
    let a = "app::zed\nlib::mid\n".to_string();
    let b = "app::alpha\napp::zed\n".to_string();
    let one = collect_commands(vec![a.clone(), b.clone()], "app".into()).unwrap();
    let two = collect_commands(vec![b, a], "app".into()).unwrap();
    assert_eq!(one, vec!["alpha", "lib::mid", "zed"]);
    assert_eq!(one, two);
}

#[test]
fn round_trip_for_library_member() {
    let text = render_manifest("lib", "app", &strings(&["f", "e"]));
    let result = collect_commands(vec![text], "lib".into()).unwrap();
    assert_eq!(result, vec!["e", "f"]);
}

#[test]
fn lines_spread_over_files_give_same_registry() {
    let one = collect_commands(vec!["x::a\nb\n".to_string(), "x::c\n".to_string()], "x".into()).unwrap();
    let two = collect_commands(vec!["x::c\nx::a\n".to_string(), String::new(), "b\n".to_string()], "x".into()).unwrap();
    assert_eq!(one, vec!["a", "b", "c"]);
    assert_eq!(one, two);
}

#[test]
fn member_manifest_from_parsed_items() {
    let parsed = vec![
        Some(vec![
            Some(("a".to_string(), vec![Some("auto_collect_command".to_string())])),
            None,
        ]),
        None,
        Some(vec![Some((
            "b".to_string(),
            vec![None, Some("auto_collect_command".to_string()), Some("auto_collect_command".to_string())],
        ))]),
    ];
    assert_eq!(marked_in_files(&parsed), vec!["a", "b"]);
    assert_eq!(member_manifest_from_items("my-lib", "app", &parsed), "my_lib::a\nmy_lib::b\n");
    assert_eq!(member_manifest_from_items("src-tauri", "my-app", &parsed), "my_app::a\nmy_app::b\n");
}

#[test]
fn nearest_workspace_picks_first_declaring_manifest() {
    let texts = vec![
        Some("[package]\nname = \"member\"\n".to_string()),
        None,
        Some("[workspace]\nmembers = [\"a\"]\n".to_string()),
        Some("[workspace]\n".to_string()),
    ];
    assert_eq!(nearest_workspace(&texts), Some(2));
    assert_eq!(nearest_workspace(&texts[..2].to_vec()), None);
    assert_eq!(nearest_workspace(&Vec::new()), None);
}
