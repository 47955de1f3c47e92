use crumbled::cli::{audit, current_lock, enforce, explain, select_subject, verify, ApprovedLock, Args};
use crumbled::discovery::scan_text;
use crumbled::enforce::PolicyLock;
use crumbled::model::{Assessment, PermissionClass};
use crumbled::policy::{Policy, PolicyRule};
use crumbled::report::{Artifact, Format, Report};

fn args(list: &[&str]) -> Result<Args, String> {
    let owned: Vec<String> = list.iter().map(|s| s.to_string()).collect();
    Args::parse(&owned)
}

fn assessments(source: &str, necessary: bool) -> Vec<Assessment> {
    let findings = scan_text("app.js", source, "shop", None);
    let mut policy = Policy::default();
    if necessary {
        for f in &findings {
            policy.rules.push(PolicyRule {
                cookie: f.cookie.clone(),
                category: PermissionClass::Necessary,
                reason: "reviewed".to_string(),
            });
        }
    }
    policy.assess_all(findings, None).unwrap()
}

#[test]
fn commands_and_defaults() {
    assert_eq!(args(&[]).unwrap_err(), "missing command");
    assert_eq!(args(&["build"]).unwrap_err(), "unknown command: build");
    let a = args(&["scan"]).unwrap();
    assert_eq!(a.command, "scan");
    assert_eq!(a.root, ".");
    assert_eq!(a.application, "application");
    assert_eq!(a.format, Format::Human);
    assert!(a.policy.is_none() && a.subject.is_none());
    assert!(!a.apply && !a.approve && !a.why_blocked);
}

#[test]
fn options_with_values() {
    let a = args(&["scan", "repo", "--format", "json", "--application", "shop", "--policy", "p.json"])
        .unwrap();
    assert_eq!(a.root, "repo");
    assert_eq!(a.format, Format::Json);
    assert_eq!(a.application, "shop");
    assert_eq!(a.policy.as_deref(), Some("p.json"));
    assert_eq!(args(&["scan", "--format", "xml"]).unwrap_err(), "unsupported output format: xml");
    assert_eq!(args(&["scan", "--format"]).unwrap_err(), "--format requires a value");
    assert_eq!(args(&["scan", "--policy", "--bogus"]).unwrap_err(), "--policy requires a value");
    assert_eq!(args(&["scan", "--application", " "]).unwrap_err(), "application must not be empty");
}

#[test]
fn output_options_do_not_become_paths() {
    assert_eq!(args(&["scan", "--bogus"]).unwrap_err(), "unsupported option for scan: --bogus");
    assert_eq!(args(&["scan", "--apply"]).unwrap_err(), "unsupported option for scan: --apply");
    assert_eq!(args(&["scan", "a", "b"]).unwrap_err(), "expected one repository path");
    assert_eq!(args(&["scan", "--root", "r", "a"]).unwrap_err(), "expected one repository path");
    let a = args(&["scan", "--", "-odd"]).unwrap();
    assert_eq!(a.root, "-odd");
    let a = args(&["explain", "--root", "repo", "--why-blocked", "sid"]).unwrap();
    assert_eq!(a.root, "repo");
    assert_eq!(a.subject.as_deref(), Some("sid"));
    assert!(a.why_blocked);
    assert!(args(&["explain"]).unwrap_err().starts_with("explain requires one finding ID"));
}

#[test]
fn mutation_authority_is_explicit() {
    assert!(args(&["enforce", "--apply"]).unwrap().apply);
    assert!(args(&["lock", "--approve"]).unwrap().approve);
    assert_eq!(
        args(&["enforce", "--dry-run", "--apply"]).unwrap_err(),
        "--dry-run conflicts with mutation authority"
    );
    assert!(!args(&["lock", "--dry-run"]).unwrap().approve);
    assert!(args(&["verify", "--strict"]).is_ok());
    assert_eq!(args(&["scan", "--strict"]).unwrap_err(), "unsupported option for scan: --strict");
}

#[test]
fn explain_selects_by_id_or_name() {
    let items = assessments("cookieStore.get('sid'); cookieStore.get('theme');", false);
    let id = items[1].finding.id.clone();
    let cookie = items[0].finding.cookie.id();
    assert_eq!(select_subject(items.clone(), "sid").len(), 1);
    assert_eq!(select_subject(items.clone(), &id)[0], items[1]);
    assert_eq!(select_subject(items.clone(), &cookie)[0], items[0]);
    assert!(select_subject(items.clone(), "absent").is_empty());

    let mut report = Report::new("explain", "shop", items.clone());
    explain(&mut report, "absent", true);
    assert!(report.assessments.is_empty());
    assert!(report.graph.nodes.is_empty());
    assert_eq!(report.exit_code, 1);
    assert_eq!(report.diagnostics[0].code, "CRUMBLED_FINDING_NOT_FOUND");

    let mut report = Report::new("explain", "shop", items);
    explain(&mut report, "sid", true);
    assert_eq!(report.assessments.len(), 1);
    assert_eq!(report.diagnostics.len(), 1);
    assert_eq!(report.diagnostics[0].code, "CRUMBLED_BLOCKED_BEHAVIOUR");
    assert_eq!(report.exit_code, 0);
}

#[test]
fn audit_fails_on_violations_only() {
    let mut report = Report::new("audit", "shop", assessments("cookieStore.get('sid');", false));
    audit(&mut report);
    assert_eq!(report.exit_code, 1);
    assert_eq!(report.diagnostics.len(), 1);
    let mut report = Report::new("audit", "shop", assessments("cookieStore.get('sid');", true));
    audit(&mut report);
    assert_eq!(report.exit_code, 0);
    assert!(report.diagnostics.is_empty());
}

#[test]
fn enforce_attaches_a_plan_and_refuses_to_apply() {
    let mut report = Report::new("enforce", "shop", assessments("cookieStore.get('sid');", false));
    enforce(&mut report, false);
    assert_eq!(report.exit_code, 0);
    match &report.artifact {
        Some(Artifact::Plan(plan)) => {
            assert_eq!(plan.gates.len(), 1);
            assert!(!plan.gates[0].compiled);
            assert_eq!(plan.gates[0].default_state, "blocked");
        }
        _ => panic!("expected a plan"),
    }
    enforce(&mut report, true);
    assert_eq!(report.exit_code, 3);
    assert_eq!(report.diagnostics[0].code, "CRUMBLED_ENFORCEMENT_UNSUPPORTED");
}

#[test]
fn verify_needs_an_intact_unchanged_lock() {
    let items = assessments("cookieStore.get('sid');", true);
    let policy = {
        let mut p = Policy::default();
        p.rules.push(PolicyRule {
            cookie: items[0].finding.cookie.clone(),
            category: PermissionClass::Necessary,
            reason: "reviewed".to_string(),
        });
        p
    };
    let current = current_lock(&policy, "shop", &items).unwrap();
    assert_eq!(current.policy_sha256, policy.fingerprint().unwrap());

    let mut report = Report::new("verify", "shop", items.clone());
    verify(&mut report, &current, ApprovedLock::Missing);
    assert_eq!(report.exit_code, 1);
    assert_eq!(report.diagnostics[0].code, "CRUMBLED_LOCK_MISSING");

    let mut report = Report::new("verify", "shop", items.clone());
    verify(&mut report, &current, ApprovedLock::Loaded(current.clone()));
    assert_eq!(report.exit_code, 0);
    assert!(report.diagnostics.is_empty());

    let mut corrupted = current.clone();
    corrupted.application = "corrupted".to_string();
    let mut report = Report::new("verify", "shop", items.clone());
    verify(&mut report, &current, ApprovedLock::Loaded(corrupted));
    assert_eq!(report.exit_code, 3);
    assert_eq!(report.diagnostics[0].code, "CRUMBLED_INTEGRITY_FAILURE");
    assert_eq!(report.diagnostics[0].message, "policy lock checksum mismatch");

    let mut report = Report::new("verify", "shop", items.clone());
    verify(&mut report, &current, ApprovedLock::Unreadable("invalid policy lock: x".to_string()));
    assert_eq!(report.exit_code, 3);

    let older = PolicyLock::new("shop", "old", &items).unwrap();
    let mut report = Report::new("verify", "shop", items);
    verify(&mut report, &current, ApprovedLock::Loaded(older));
    assert_eq!(report.exit_code, 1);
    assert_eq!(report.diagnostics[0].code, "CRUMBLED_POLICY_CHANGED");
}

#[test]
fn lock_needs_a_valid_policy() {
    let items = assessments("cookieStore.get('sid');", false);
    let mut policy = Policy::default();
    policy.schema_version = 7;
    assert_eq!(
        current_lock(&policy, "shop", &items).map(|_| ()),
        Err("unsupported policy schema_version".to_string())
    );
}

#[test]
fn argument_errors_are_reported_in_the_requested_format() {
    let owned = |list: &[&str]| -> Vec<String> { list.iter().map(|s| s.to_string()).collect() };
    assert_eq!(crumbled::cli::requested_format(&owned(&["scan", "--bogus", "--format", "sarif"])), Format::Sarif);
    assert_eq!(crumbled::cli::requested_format(&owned(&["scan", "--format", "xml", "--format", "json"])), Format::Human);
    assert_eq!(crumbled::cli::requested_format(&owned(&["scan", "--format"])), Format::Human);
    assert_eq!(crumbled::cli::requested_format(&owned(&[])), Format::Human);
}

#[test]
fn failures_carry_their_exit_codes() {
    let mut report = Report::new("observe", "shop", vec![]);
    crumbled::cli::observe(&mut report);
    assert_eq!(report.exit_code, 2);
    assert_eq!(report.diagnostics[0].code, "CRUMBLED_ANALYSIS_FAILURE");
    assert_eq!(report.diagnostics[0].message, "Browser observation is not implemented in this build");
    crumbled::cli::integrity_failure(&mut report, "disk".to_string());
    assert_eq!(report.exit_code, 3);
    crumbled::cli::argument_error(&mut report, "bad".to_string());
    assert_eq!(report.exit_code, 2);
    assert_eq!(report.diagnostics[2].code, "CRUMBLED_ARGUMENT_ERROR");
}
