use css_audit::cli::{args_well_formed, parse_args, CliAction, OutputFormat};
use css_audit::html::{anchor_id, render_html};
use css_audit::index::audit_stylesheets;
use css_audit::model::{Declaration, Rule, Stylesheet, ValueToken};
use css_audit::render::{render_json, render_terminal};

fn var_decl(names: &[&str]) -> Declaration {
    Declaration::Unparsed(
        names.iter().map(|n| ValueToken::VarRef(n.to_string())).collect(),
    )
}

fn style(selectors: &[&str], decls: Vec<Declaration>) -> Rule {
    Rule::Style {
        selectors: selectors.iter().map(|s| s.to_string()).collect(),
        declarations: decls,
    }
}

fn sheet(rules: Vec<Rule>) -> Stylesheet {
    Stylesheet { rules }
}

fn two_property_index() -> css_audit::index::UsageIndex {
    let s = sheet(vec![
        style(&[".x"], vec![var_decl(&["--a"])]),
        style(&[".y"], vec![var_decl(&["--b"])]),
    ]);
    let (idx, _) = audit_stylesheets(&vec![s]);
    idx
}

#[test]
fn terminal_two_blocks_blank_line_between() {
    let idx = two_property_index();
    let out = render_terminal(&idx);
    assert_eq!(out, "--a\n  .x\n\n--b\n  .y\n");
}

#[test]
fn terminal_empty_index_empty_output() {
    let (idx, _) = audit_stylesheets(&vec![]);
    assert_eq!(render_terminal(&idx), "");
}

#[test]
fn json_empty_index() {
    let (idx, _) = audit_stylesheets(&vec![]);
    assert_eq!(render_json(&idx), "[]");
}

#[test]
fn json_two_properties_exact() {
    let idx = two_property_index();
    let out = render_json(&idx);
    let expected = "[\n  {\n    \"selector\": \"--a\",\n    \"rules\": [\n      \".x\"\n    ]\n  },\n  {\n    \"selector\": \"--b\",\n    \"rules\": [\n      \".y\"\n    ]\n  }\n]";
    assert_eq!(out, expected);
}

#[test]
fn json_escaping_round_trips_special_characters() {
    // a label holding a quote, a backslash and a newline must round through
    // escaping unchanged
    let label = "a[title=\"x\\y\"]\n\t.z";
    let s = sheet(vec![style(&[label], vec![var_decl(&["--e"])])]);
    let (idx, _) = audit_stylesheets(&vec![s]);
    let out = render_json(&idx);
    let value: serde_json::Value = serde_json::from_str(&out).unwrap();
    let parsed_label = value.as_array().unwrap()[0]
        .get("rules")
        .unwrap()
        .as_array()
        .unwrap()[0]
        .as_str()
        .unwrap();
    assert_eq!(parsed_label, label);
    assert!(out.contains("\\\"x\\\\y\\\""));
    assert!(out.contains("\\n\\t"));
}

#[test]
fn json_round_trip_restores_pairs() {
    let s = sheet(vec![
        style(&[".x", "a[title=\"q\"]"], vec![var_decl(&["--a"])]),
        style(&[".y"], vec![var_decl(&["--b"])]),
    ]);
    let (idx, _) = audit_stylesheets(&vec![s]);
    let out = render_json(&idx);
    let value: serde_json::Value = serde_json::from_str(&out).unwrap();
    let arr = value.as_array().unwrap();
    assert_eq!(arr.len(), idx.entries.len());
    for (obj, entry) in arr.iter().zip(idx.entries.iter()) {
        assert_eq!(obj.get("selector").unwrap().as_str().unwrap(), entry.name);
        let rules: Vec<&str> = obj
            .get("rules")
            .unwrap()
            .as_array()
            .unwrap()
            .iter()
            .map(|v| v.as_str().unwrap())
            .collect();
        let labels: Vec<&str> = entry.labels.iter().map(|l| l.as_str()).collect();
        assert_eq!(rules, labels);
    }
}

#[test]
fn anchor_id_lowercase_hex() {
    assert_eq!(anchor_id(0), "selector-0");
    assert_eq!(anchor_id(255), "selector-ff");
    assert_eq!(anchor_id(0xdeadbeef), "selector-deadbeef");
}

#[test]
fn html_sections_and_minimap() {
    let idx = two_property_index();
    let out = render_html(&idx);
    let id_a = format!("selector-{:x}", xxhash_rust::xxh3::xxh3_64("--a".as_bytes()));
    let id_b = format!("selector-{:x}", xxhash_rust::xxh3::xxh3_64("--b".as_bytes()));
    let h2_a = format!("<h2 id=\"{}\">--a <span class='count'>(1)</span></h2><ul><li>.x</li></ul>", id_a);
    let link_b = format!("<a href=\"#{}\">--b</a>", id_b);
    assert!(out.contains(&h2_a));
    assert!(out.contains(&link_b));
    assert!(out.contains("<!doctype html>"));
    assert!(out.contains("</css-audit-minimap>"));
    assert!(out.contains("</main>"));
}

fn args(list: &[&str]) -> Vec<String> {
    list.iter().map(|a| a.to_string()).collect()
}

#[test]
fn cli_no_paths_is_usage_error() {
    let action = parse_args(&args(&[]));
    assert!(matches!(action, CliAction::UsageError));
    let action = parse_args(&args(&["--format=json"]));
    assert!(matches!(action, CliAction::UsageError));
}

#[test]
fn cli_help_wins() {
    let action = parse_args(&args(&["--help", "a.css"]));
    assert!(matches!(action, CliAction::ShowHelp));
}

#[test]
fn cli_format_joined_form() {
    match parse_args(&args(&["--format=json", "a.css"])) {
        CliAction::Run { format, paths } => {
            assert_eq!(format, OutputFormat::Json);
            assert_eq!(paths, vec!["a.css".to_string()]);
        }
        _ => panic!("expected a run"),
    }
}

#[test]
fn cli_format_two_argument_form() {
    match parse_args(&args(&["--format", "html", "a.css"])) {
        CliAction::Run { format, paths } => {
            assert_eq!(format, OutputFormat::Html);
            assert_eq!(paths, vec!["a.css".to_string()]);
        }
        _ => panic!("expected a run"),
    }
}

#[test]
fn cli_unrecognized_format_defaults_to_terminal() {
    match parse_args(&args(&["--format=fancy", "a.css"])) {
        CliAction::Run { format, .. } => assert_eq!(format, OutputFormat::Terminal),
        _ => panic!("expected a run"),
    }
}

#[test]
fn cli_none_format_and_flag_removal() {
    match parse_args(&args(&["--verbose", "a.css", "--format=none", "b.css"])) {
        CliAction::Run { format, paths } => {
            assert_eq!(format, OutputFormat::Silent);
            assert_eq!(paths, vec!["a.css".to_string(), "b.css".to_string()]);
        }
        _ => panic!("expected a run"),
    }
}

#[test]
fn cli_bare_format_without_value_is_rejected_up_front() {
    assert!(!args_well_formed(&args(&["a.css", "--format"])));
    assert!(args_well_formed(&args(&["--format", "html", "a.css"])));
    assert!(args_well_formed(&args(&["--format=html"])));
    assert!(args_well_formed(&args(&["a.css"])));
}
