use crumbled::discovery::scan_text;
use crumbled::policy::Policy;
use crumbled::report::{uri, Format, Report};

#[test]
fn formats_are_named() {
    assert_eq!(Format::parse("human"), Ok(Format::Human));
    assert_eq!(Format::parse("json"), Ok(Format::Json));
    assert_eq!(Format::parse("jsonl"), Ok(Format::Jsonl));
    assert_eq!(Format::parse("sarif"), Ok(Format::Sarif));
    assert_eq!(Format::parse("xml"), Err("unsupported output format: xml".to_string()));
    assert_eq!(Format::parse("JSON"), Err("unsupported output format: JSON".to_string()));
}

#[test]
fn uris_percent_encode_reserved_bytes() {
    assert_eq!(uri("src/a b#c.js"), "src/a%20b%23c.js");
    assert_eq!(uri("a-b_c.d~e/F9"), "a-b_c.d~e/F9");
    assert_eq!(uri("é"), "%C3%A9");
    assert_eq!(uri(""), "");
}

#[test]
fn reports_start_clean_and_record_failures() {
    let findings = scan_text("app.js", "cookieStore.get('sid');", "shop", None);
    let items = Policy::default().assess_all(findings, None).unwrap();
    let mut report = Report::new("scan", "quote\"\n\t\u{0001}", items);
    assert_eq!(report.schema_version, 1);
    assert_eq!(report.command, "scan");
    assert_eq!(report.application, "quote\"\n\t\u{0001}");
    assert_eq!(
        report.analysis_scope,
        "lexical static analysis only; no runtime observation or enforcement attestation"
    );
    assert_eq!(report.assessments.len(), 1);
    assert!(!report.graph.nodes.is_empty());
    assert!(report.diagnostics.is_empty());
    assert_eq!(report.exit_code, 0);
    assert!(report.artifact.is_none());
    report.diagnostic("analysis_failure", "line\n\"quoted\"\u{0001}".to_string(), 2);
    assert_eq!(report.exit_code, 2);
    assert_eq!(report.diagnostics.len(), 1);
    assert_eq!(report.diagnostics[0].code, "analysis_failure");
    assert_eq!(report.diagnostics[0].message, "line\n\"quoted\"\u{0001}");
    assert!(report.diagnostics[0].finding_id.is_none());
}

#[test]
fn human_format_escapes_untrusted_text() {
    let mut report = Report::new("sc\"an", "shop", vec![]);
    report.diagnostic("analysis_failure", "line\n\"quoted\"\u{0001}".to_string(), 2);
    let text = report.render_human(None);
    assert_eq!(
        text,
        "CRUMBLED — sc\\\"an\n0 declared behaviour(s); 0 runtime observations\n\
         lexical static analysis only; no runtime observation or enforcement attestation\n\
         analysis_failure: line\\n\\\"quoted\\\"\\u{1}\nExit status: 2\n"
    );
    let with_artifact = report.render_human(Some("{}"));
    assert!(with_artifact.ends_with("\\u{1}\n{}\nExit status: 2\n"));
}

#[test]
fn human_format_lists_behaviours_with_their_evidence() {
    let findings = scan_text("app.js", "document.cookie = 'sid=1';", "shop", None);
    let items = Policy::default().assess_all(findings, None).unwrap();
    let id = items[0].finding.id.clone();
    let report = Report::new("scan", "shop", items);
    let text = report.render_human(None);
    let expected_head = format!(
        "CRUMBLED — scan\n1 declared behaviour(s); 0 runtime observations\n\
         lexical static analysis only; no runtime observation or enforcement attestation\n\
         sid  Create → Block (Unknown)\n  {id}\n  app.js:1:1: "
    );
    assert!(text.starts_with(&expected_head));
    assert!(text.ends_with("Exit status: 0\n"));
    assert_eq!(text.lines().filter(|l| l.starts_with("  app.js:1:1: ")).count(), 2);
}

#[test]
fn sarif_lists_diagnostics_and_discoveries() {
    let findings = scan_text("src/a b.js", "cookieStore.get('sid');", "shop", None);
    let items = Policy::default().assess_all(findings, None).unwrap();
    let mut report = Report::new("scan", "shop", items);
    report.diagnostic("CRUMBLED_ANALYSIS_FAILURE", "failed".to_string(), 2);
    let results = report.sarif_results();
    assert_eq!(results.len(), 2);
    assert_eq!(results[0].rule_id, "CRUMBLED_ANALYSIS_FAILURE");
    assert_eq!(results[0].level, "error");
    assert!(results[0].location.is_none());
    assert_eq!(results[1].rule_id, "CRUMBLED_DISCOVERED");
    assert_eq!(results[1].level, "note");
    assert_eq!(
        results[1].message,
        "Read: No reviewed policy rule matches the full cookie identity"
    );
    let location = results[1].location.as_ref().unwrap();
    assert_eq!(location.uri, "src/a%20b.js");
    assert_eq!(location.start_line, 1);
    assert_eq!(location.start_column, 1);

    let audit = Report::new("audit", "shop", report.assessments.clone());
    assert!(audit.sarif_results().is_empty());
}
