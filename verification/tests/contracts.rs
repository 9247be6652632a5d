use graph_algorithms::contracts::{
    discover_bindings_with, extract_query_terms, load_from_outcome, parse_contract_yaml,
    query_message, Binding, BindingReport, ContractLoadError, ContractSummary, QueryError,
};
use std::cell::{Cell, RefCell};

fn summary(version: &str, props: &[&str]) -> ContractSummary {
    ContractSummary {
        version: version.to_string(),
        properties: props.iter().map(|p| p.to_string()).collect(),
    }
}

#[test]
fn extract_query_terms_skips_empty_properties() {
    let yaml = r#"
metadata:
  version: '1.0.0'
  description: 'test'
equations: {}
proof_obligations:
  - type: invariant
    property: 'real claim'
    formal: 'x = 1'
    applies_to: all
  - type: invariant
    property: ''
    formal: 'y = 2'
    applies_to: all
  - type: postcondition
    property: '   '
    formal: 'z = 3'
    applies_to: all
enforcement: {}
"#;
    let c = parse_contract_yaml(yaml).unwrap();
    let terms = extract_query_terms(&c);
    assert_eq!(terms, vec!["real claim".to_string()]);
}

#[test]
fn binding_clone_debug_eq() {
    let b = Binding {
        term: "x".into(),
        matches: vec!["fn_a".into()],
    };
    let c = b.clone();
    assert_eq!(b, c);
    let _ = format!("{b:?}");
}

#[test]
fn lib_report_clone_debug_eq() {
    let r = BindingReport {
        contract_version: "1.0.0".into(),
        obligation_count: 0,
        bindings: Vec::new(),
    };
    let c = r.clone();
    assert_eq!(r, c);
    let _ = format!("{r:?}");
}

#[test]
fn parse_contract_yaml_errors_on_malformed_input() {
    let bad = "::: not yaml :::\n    -- broken --\n";
    let err = parse_contract_yaml(bad).unwrap_err();
    let msg = err.message();
    assert!(msg.contains("parse contract YAML"));
}

// Further cases.

#[test]
fn parsed_contract_keeps_version_and_every_property() {
    let yaml = r#"
metadata:
  version: '2.3.4'
  description: 'test'
proof_obligations:
  - type: invariant
    property: '  PageRank sums to one  '
  - type: invariant
    property: ''
"#;
    let c = parse_contract_yaml(yaml).unwrap();
    assert_eq!(c.version, "2.3.4");
    assert_eq!(c.properties, vec!["  PageRank sums to one  ".to_string(), String::new()]);
    assert_eq!(extract_query_terms(&c), vec!["PageRank sums to one".to_string()]);
}

#[test]
fn load_error_message_has_prefix() {
    let e = ContractLoadError::Parse("boom".into());
    assert_eq!(e.message(), "parse contract YAML: boom");
}

#[test]
fn extract_query_terms_trims_unicode_white_space() {
    let c = summary("1", &["\u{3000}\tclaim one\u{a0}\n", "\u{2028}", "two  words"]);
    assert_eq!(
        extract_query_terms(&c),
        vec!["claim one".to_string(), "two  words".to_string()]
    );
}

/// A contract of version 1.0.0 with three obligations, one about PageRank.
fn demo_contract() -> ContractSummary {
    summary(
        "1.0.0",
        &[
            "PageRank scores sum to 1.0",
            "Strongly-connected components partition the nodes",
            "BFS visits nodes in order of distance",
        ],
    )
}

#[test]
fn extract_query_terms_returns_one_per_obligation() {
    let c = demo_contract();
    let terms = extract_query_terms(&c);
    assert_eq!(terms.len(), 3);
    assert!(terms.iter().any(|t| t.contains("PageRank")));
}

#[test]
fn discover_bindings_calls_runner_per_term() {
    let c = demo_contract();
    let calls = Cell::new(0);
    let report = discover_bindings_with(&c, |t: &str| {
        calls.set(calls.get() + 1);
        Ok(vec![format!(
            "fn_for_{}",
            t.split_whitespace().next().unwrap_or("x")
        )])
    })
    .unwrap();
    assert_eq!(calls.get(), 3);
    assert_eq!(report.obligation_count, 3);
    assert_eq!(report.bindings.len(), 3);
    assert_eq!(report.contract_version, "1.0.0");
}

#[test]
fn discover_bindings_propagates_runner_error() {
    let c = demo_contract();
    let err = discover_bindings_with(&c, |_t: &str| -> Result<Vec<String>, String> {
        Err("pmat not on PATH".to_string())
    })
    .unwrap_err();
    let msg = err.message();
    assert!(msg.contains("query for"));
    assert!(msg.contains("pmat not on PATH"));
}

#[test]
fn discover_bindings_preserves_term_text_verbatim() {
    let c = demo_contract();
    let seen = RefCell::new(Vec::<String>::new());
    let _ = discover_bindings_with(&c, |t: &str| {
        seen.borrow_mut().push(t.to_string());
        Ok(Vec::new())
    })
    .unwrap();
    assert_eq!(*seen.borrow(), extract_query_terms(&c));
}

#[test]
fn discovery_counts_every_obligation_but_queries_only_terms() {
    let c = summary("1.0.0", &["alpha claim", "  ", "beta claim", "gamma"]);
    let calls = Cell::new(0);
    let report = discover_bindings_with(&c, |t: &str| {
        calls.set(calls.get() + 1);
        Ok(vec![format!("fn_for_{}", t.split_whitespace().next().unwrap_or("x"))])
    })
    .unwrap();
    assert_eq!(calls.get(), 3);
    assert_eq!(report.obligation_count, 4);
    assert_eq!(report.bindings[1].term, "beta claim");
    assert_eq!(report.bindings[1].matches, vec!["fn_for_beta".to_string()]);
}

#[test]
fn discovery_stops_at_first_failing_term() {
    let c = summary("1.0.0", &["first", "second", "third"]);
    let calls = Cell::new(0);
    let err = discover_bindings_with(&c, |t: &str| {
        calls.set(calls.get() + 1);
        if t == "second" {
            Err("pmat not on PATH".to_string())
        } else {
            Ok(Vec::new())
        }
    })
    .unwrap_err();
    assert_eq!(calls.get(), 2);
    assert_eq!(
        err,
        QueryError {
            term: "second".into(),
            cause: "pmat not on PATH".into()
        }
    );
    assert_eq!(err.message(), "query for \"second\": pmat not on PATH");
}

#[test]
fn load_from_outcome_keeps_contract_or_wraps_message() {
    let c = summary("3", &["p"]);
    assert_eq!(load_from_outcome(Ok(c.clone())), Ok(c));
    assert_eq!(
        load_from_outcome(Err("bad".to_string())),
        Err(ContractLoadError::Parse("bad".to_string()))
    );
}

#[test]
fn query_message_from_quoted_term() {
    assert_eq!(query_message("\"t\"", "no"), "query for \"t\": no");
}
