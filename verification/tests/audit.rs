use css_audit::index::audit_stylesheets;
use css_audit::model::{Declaration, Rule, Stylesheet, ValueToken};

fn var_decl(names: &[&str]) -> Declaration {
    Declaration::Unparsed(
        names.iter().map(|n| ValueToken::VarRef(n.to_string())).collect(),
    )
}

fn style(selectors: &[&str], decls: Vec<Declaration>) -> Rule {
    Rule::Style {
        selectors: selectors.iter().map(|s| s.to_string()).collect(),
        declarations: decls,
    }
}

fn sheet(rules: Vec<Rule>) -> Stylesheet {
    Stylesheet { rules }
}

fn names_of(idx: &css_audit::index::UsageIndex) -> Vec<String> {
    idx.entries.iter().map(|e| e.name.clone()).collect()
}

fn labels_of(idx: &css_audit::index::UsageIndex, i: usize) -> Vec<String> {
    idx.entries[i].labels.clone()
}

#[test]
fn two_selectors_one_property() {
    let s = sheet(vec![
        style(&[".a"], vec![var_decl(&["--x"])]),
        style(&[".b"], vec![var_decl(&["--x"])]),
    ]);
    let (idx, warnings) = audit_stylesheets(&vec![s]);
    assert_eq!(names_of(&idx), vec!["--x".to_string()]);
    assert_eq!(labels_of(&idx, 0), vec![".a".to_string(), ".b".to_string()]);
    assert!(warnings.is_empty());
}

#[test]
fn reserved_prefix_filtered() {
    let s = sheet(vec![style(&[".a"], vec![var_decl(&["--__internal"])])]);
    let (idx, warnings) = audit_stylesheets(&vec![s]);
    assert!(idx.entries.is_empty());
    assert!(warnings.is_empty());
}

#[test]
fn media_context_label() {
    let s = sheet(vec![Rule::Media {
        condition: "(min-width: 40rem)".to_string(),
        rules: vec![style(&[".a"], vec![var_decl(&["--w"])])],
    }]);
    let (idx, _) = audit_stylesheets(&vec![s]);
    assert_eq!(names_of(&idx), vec!["--w".to_string()]);
    assert_eq!(
        labels_of(&idx, 0),
        vec!["@media (min-width: 40rem)\n    .a".to_string()]
    );
}

#[test]
fn unsupported_rule_warns_and_is_skipped() {
    let msg = "@scope is not supported: ScopeRule".to_string();
    let s = sheet(vec![Rule::Unsupported { message: msg.clone() }]);
    let (idx, warnings) = audit_stylesheets(&vec![s]);
    assert!(idx.entries.is_empty());
    assert_eq!(warnings, vec![msg]);
}

#[test]
fn keyframes_context_label() {
    let s = sheet(vec![Rule::Keyframes {
        name: "spin".to_string(),
        steps: vec![vec![var_decl(&["--t"])], vec![var_decl(&["--t"])]],
    }]);
    let (idx, _) = audit_stylesheets(&vec![s]);
    assert_eq!(names_of(&idx), vec!["--t".to_string()]);
    assert_eq!(labels_of(&idx, 0), vec!["@keyframes spin".to_string()]);
}

#[test]
fn supports_and_container_labels() {
    let s = sheet(vec![
        Rule::Supports {
            condition: "(display: grid)".to_string(),
            rules: vec![style(&[".s"], vec![var_decl(&["--p"])])],
        },
        Rule::Container {
            condition: "(width > 10em)".to_string(),
            rules: vec![style(&[".c"], vec![var_decl(&["--p"])])],
        },
    ]);
    let (idx, _) = audit_stylesheets(&vec![s]);
    assert_eq!(names_of(&idx), vec!["--p".to_string()]);
    assert_eq!(
        labels_of(&idx, 0),
        vec![
            "@container (width > 10em)\n    .c".to_string(),
            "@supports (display: grid)\n    .s".to_string(),
        ]
    );
}

#[test]
fn layer_labels_named_and_anonymous() {
    let s = sheet(vec![
        Rule::LayerBlock {
            name: Some("base".to_string()),
            rules: vec![style(&[".l"], vec![var_decl(&["--q"])])],
        },
        Rule::LayerBlock {
            name: None,
            rules: vec![style(&[".m"], vec![var_decl(&["--q"])])],
        },
    ]);
    let (idx, _) = audit_stylesheets(&vec![s]);
    assert_eq!(names_of(&idx), vec!["--q".to_string()]);
    assert_eq!(
        labels_of(&idx, 0),
        vec![
            "@layer\n    .m".to_string(),
            "@layer base\n    .l".to_string(),
        ]
    );
}

#[test]
fn nested_conditional_rules_not_descended() {
    // only style rules directly nested under a conditional rule are scanned
    let s = sheet(vec![Rule::Media {
        condition: "screen".to_string(),
        rules: vec![Rule::Media {
            condition: "print".to_string(),
            rules: vec![style(&[".deep"], vec![var_decl(&["--d"])])],
        }],
    }]);
    let (idx, _) = audit_stylesheets(&vec![s]);
    assert!(idx.entries.is_empty());
}

#[test]
fn labels_sorted_and_deduplicated() {
    let s = sheet(vec![
        style(&[".b", ".a"], vec![var_decl(&["--x", "--x"])]),
        style(&[".a"], vec![var_decl(&["--x"])]),
    ]);
    let (idx, _) = audit_stylesheets(&vec![s]);
    assert_eq!(labels_of(&idx, 0), vec![".a".to_string(), ".b".to_string()]);
}

#[test]
fn keys_sorted_lexicographically() {
    let s = sheet(vec![
        style(&[".z"], vec![var_decl(&["--zeta"])]),
        style(&[".a"], vec![var_decl(&["--alpha"])]),
        style(&[".m"], vec![var_decl(&["--mid"])]),
    ]);
    let (idx, _) = audit_stylesheets(&vec![s]);
    assert_eq!(
        names_of(&idx),
        vec!["--alpha".to_string(), "--mid".to_string(), "--zeta".to_string()]
    );
}

#[test]
fn aggregation_order_independent_and_idempotent() {
    let a = || sheet(vec![style(&[".a"], vec![var_decl(&["--x", "--y"])])]);
    let b = || sheet(vec![style(&[".b"], vec![var_decl(&["--x"])])]);
    let (idx1, _) = audit_stylesheets(&vec![a(), b()]);
    let (idx2, _) = audit_stylesheets(&vec![b(), a()]);
    let (idx3, _) = audit_stylesheets(&vec![a(), b()]);
    let pairs = |idx: &css_audit::index::UsageIndex| -> Vec<(String, Vec<String>)> {
        idx.entries.iter().map(|e| (e.name.clone(), e.labels.clone())).collect()
    };
    assert_eq!(pairs(&idx1), pairs(&idx2));
    assert_eq!(pairs(&idx1), pairs(&idx3));
}

#[test]
fn resolved_declarations_ignored() {
    let s = sheet(vec![style(
        &[".a"],
        vec![Declaration::Resolved, Declaration::Unparsed(vec![ValueToken::Other])],
    )]);
    let (idx, _) = audit_stylesheets(&vec![s]);
    assert!(idx.entries.is_empty());
}

#[test]
fn empty_input_empty_index() {
    let (idx, warnings) = audit_stylesheets(&vec![]);
    assert!(idx.entries.is_empty());
    assert!(warnings.is_empty());
}
