use crumbled::digest::sha256;
use crumbled::discovery::scan_text;
use crumbled::model::{
    Classifier, Confidence, Decision, Finding, Method, PermissionClass, PolicyEngine,
};
use crumbled::policy::{
    default_decisions, DecisionTable, DefaultPolicy, DeterministicClassifier, Policy, PolicyRule,
};

fn finding(source: &str) -> Finding {
    let mut found = scan_text("app.js", source, "shop", None);
    assert_eq!(found.len(), 1);
    found.remove(0)
}

fn rule_for(f: &Finding, category: PermissionClass, reason: &str) -> PolicyRule {
    PolicyRule {
        cookie: f.cookie.clone(),
        category,
        reason: reason.to_string(),
    }
}

#[test]
fn unsafe_configuration_is_rejected() {
    let mut p = Policy::default();
    p.decisions.insert(PermissionClass::Unknown, Decision::Allow);
    assert!(p.validate().is_err());
    let mut p = Policy::default();
    p.decisions.insert(PermissionClass::Analytics, Decision::Allow);
    assert!(p.validate().is_err());
}

#[test]
fn all_valid_unknown_decisions_are_block() {
    for decision in [Decision::Allow, Decision::Gate, Decision::Block] {
        let mut p = Policy::default();
        p.decisions.insert(PermissionClass::Unknown, decision);
        assert_eq!(p.validate().is_ok(), decision == Decision::Block);
    }
}

#[test]
fn default_policy_is_valid_and_has_five_decisions() {
    let p = Policy::default();
    assert_eq!(p.schema_version, 1);
    assert!(p.rules.is_empty());
    assert_eq!(p.decisions.len(), 5);
    assert_eq!(p.decisions.get(PermissionClass::Necessary), Some(Decision::Allow));
    assert_eq!(p.decisions.get(PermissionClass::Marketing), Some(Decision::Gate));
    assert_eq!(p.decisions.get(PermissionClass::Unknown), Some(Decision::Block));
    assert_eq!(p.validate(), Ok(()));
    assert_eq!(default_decisions(), p.decisions);
}

#[test]
fn each_validation_error_is_reported() {
    let mut p = Policy::default();
    p.schema_version = 2;
    assert_eq!(p.validate(), Err("unsupported policy schema_version".to_string()));

    let mut p = Policy::default();
    let mut table = DecisionTable::new();
    table.insert(PermissionClass::Necessary, Decision::Allow);
    table.insert(PermissionClass::Unknown, Decision::Block);
    p.decisions = table;
    assert_eq!(
        p.validate(),
        Err("policy decisions must specify all five permission classes".to_string())
    );

    let mut p = Policy::default();
    p.decisions.insert(PermissionClass::Unknown, Decision::Gate);
    assert_eq!(p.validate(), Err("unknown behaviour must remain blocked".to_string()));

    let mut p = Policy::default();
    p.decisions.insert(PermissionClass::Marketing, Decision::Allow);
    assert_eq!(
        p.validate(),
        Err("consent classes cannot use an unconditional allow decision".to_string())
    );

    let f = finding("document.cookie = 'sid=1';");
    let mut p = Policy::default();
    p.rules.push(rule_for(&f, PermissionClass::Necessary, " \t"));
    assert_eq!(p.validate(), Err("policy rule requires an approval reason".to_string()));

    let mut p = Policy::default();
    let mut unnamed = rule_for(&f, PermissionClass::Necessary, "login");
    unnamed.cookie.name = None;
    p.rules.push(unnamed);
    assert_eq!(p.validate(), Err("unresolved cookie names cannot be approved".to_string()));

    let mut p = Policy::default();
    let mut blank_name = rule_for(&f, PermissionClass::Necessary, "login");
    blank_name.cookie.name = Some("  ".to_string());
    p.rules.push(blank_name);
    assert_eq!(p.validate(), Err("unresolved cookie names cannot be approved".to_string()));

    let mut p = Policy::default();
    let mut no_origin = rule_for(&f, PermissionClass::Necessary, "login");
    no_origin.cookie.origin = " ".to_string();
    p.rules.push(no_origin);
    assert_eq!(
        p.validate(),
        Err("policy identity requires application and origin".to_string())
    );

    let mut p = Policy::default();
    p.rules.push(rule_for(&f, PermissionClass::Necessary, "login"));
    p.rules.push(rule_for(&f, PermissionClass::Analytics, "again"));
    assert_eq!(
        p.validate(),
        Err("duplicate policy identity; rules must not conflict".to_string())
    );
}

#[test]
fn default_fingerprint_is_the_digest_of_the_canonical_json() {
    let p = Policy::default();
    let expected = sha256(
        br#"{"schema_version":1,"decisions":{"necessary":"allow","preferences":"gate","analytics":"gate","marketing":"gate","unknown":"block"},"rules":[]}"#,
    );
    assert_eq!(p.fingerprint(), Ok(expected));
}

#[test]
fn fingerprint_ignores_rule_order_but_not_rules() {
    let a = finding("document.cookie = 'sid=1';");
    let b = finding("cookieStore.get('theme');");
    let mut p = Policy::default();
    p.rules.push(rule_for(&a, PermissionClass::Necessary, "login"));
    p.rules.push(rule_for(&b, PermissionClass::Preferences, "theme"));
    let mut q = Policy::default();
    q.rules.push(rule_for(&b, PermissionClass::Preferences, "theme"));
    q.rules.push(rule_for(&a, PermissionClass::Necessary, "login"));
    let fp = p.fingerprint().unwrap();
    assert_eq!(fp.len(), 64);
    assert_eq!(Ok(fp.clone()), q.fingerprint());
    let mut r = Policy::default();
    r.rules.push(rule_for(&a, PermissionClass::Necessary, "session"));
    r.rules.push(rule_for(&b, PermissionClass::Preferences, "theme"));
    assert_ne!(Ok(fp.clone()), r.fingerprint());
    assert_ne!(Ok(fp), Policy::default().fingerprint());
}

#[test]
fn fingerprint_of_invalid_policy_is_its_error() {
    let mut p = Policy::default();
    p.schema_version = 3;
    assert_eq!(p.fingerprint(), Err("unsupported policy schema_version".to_string()));
}

#[test]
fn names_alone_never_grant_permission() {
    let f = finding("document.cookie = 'sid=1';");
    let a = Policy::default().assess(f.clone(), Some(7)).unwrap();
    assert_eq!(a.decision, Decision::Block);
    assert!(!a.gated);
    assert_eq!(a.reason, "No reviewed policy rule matches the full cookie identity");
    assert_eq!(a.finding.classification.value, PermissionClass::Unknown);
    assert_eq!(a.finding.classification.method, Method::StaticRule);
    assert_eq!(a.finding.classification.confidence, Confidence::Unknown);
    assert_eq!(a.finding.id, f.id);
    assert_eq!(
        a.finding.classification.evidence[0].detail,
        "Cookie purpose is not established by its name or lexical API access"
    );
}

#[test]
fn a_reviewed_rule_classifies_and_decides() {
    let f = finding("document.cookie = 'sid=1';");
    let mut p = Policy::default();
    p.rules.push(rule_for(&f, PermissionClass::Necessary, "login session"));
    let digest = p.fingerprint().unwrap();
    let a = p.assess(f.clone(), Some(9)).unwrap();
    assert_eq!(a.decision, Decision::Allow);
    assert_eq!(a.reason, "login session");
    let c = &a.finding.classification;
    assert_eq!(c.value, PermissionClass::Necessary);
    assert_eq!(c.method, Method::UserPolicy);
    assert_eq!(c.confidence, Confidence::Confirmed);
    assert_eq!(c.evidence.len(), 1);
    assert_eq!(c.evidence[0].source, "user-policy");
    assert_eq!(c.evidence[0].content_sha256, digest);
    assert_eq!(c.evidence[0].timestamp, Some(9));
    assert_eq!(c.evidence[0].detail, "login session");
    assert!(c.evidence[0].location.is_none());

    let mut gated = Policy::default();
    gated.rules.push(rule_for(&f, PermissionClass::Analytics, "measurement"));
    assert_eq!(gated.assess(f, None).unwrap().decision, Decision::Gate);
}

#[test]
fn a_rule_for_another_domain_does_not_apply() {
    let f = finding("document.cookie = 'sid=1; Domain=a.test';");
    let mut other = f.clone();
    other.cookie.domain = Some("b.test".to_string());
    let mut p = Policy::default();
    p.rules.push(rule_for(&other, PermissionClass::Necessary, "other domain"));
    assert_eq!(p.assess(f, None).unwrap().decision, Decision::Block);
}

#[test]
fn batch_and_single_assessments_agree() {
    let a = finding("document.cookie = 'sid=1';");
    let b = finding("cookieStore.get('theme');");
    let mut p = Policy::default();
    p.rules.push(rule_for(&b, PermissionClass::Preferences, "theme"));
    let all = p.assess_all(vec![a.clone(), b.clone()], Some(1)).unwrap();
    assert_eq!(all.len(), 2);
    assert_eq!(all[0], p.assess(a, Some(1)).unwrap());
    assert_eq!(all[1], p.assess(b, Some(1)).unwrap());
    assert_eq!(all[0].decision, Decision::Block);
    assert_eq!(all[1].decision, Decision::Gate);
}

#[test]
fn invalid_policy_assesses_nothing() {
    let f = finding("document.cookie = 'sid=1';");
    let mut p = Policy::default();
    p.decisions.insert(PermissionClass::Preferences, Decision::Allow);
    let expected = Err("consent classes cannot use an unconditional allow decision".to_string());
    assert_eq!(p.assess(f.clone(), None).map(|_| ()), expected);
    assert_eq!(p.assess_all(vec![f], None).map(|_| ()), expected);
}

#[test]
fn deterministic_classifier_keeps_evidence_but_not_purpose() {
    let f = finding("document.cookie = 'sid=1';");
    let c = DeterministicClassifier.classify(&f);
    assert_eq!(c.id, f.id);
    assert_eq!(c.evidence, f.evidence);
    assert_eq!(c.classification.value, PermissionClass::Unknown);
    assert_eq!(c.classification.evidence.len(), f.evidence.len());
    assert_eq!(
        c.classification.evidence[0].content_sha256,
        f.evidence[0].content_sha256
    );
}

#[test]
fn default_engine_requires_reviewed_evidence() {
    let f = finding("document.cookie = 'sid=1';");
    assert_eq!(DefaultPolicy.evaluate(&f), Decision::Block);
    let mut p = Policy::default();
    p.rules.push(rule_for(&f, PermissionClass::Necessary, "login"));
    let necessary = p.assess(f.clone(), None).unwrap().finding;
    assert_eq!(DefaultPolicy.evaluate(&necessary), Decision::Allow);
    let mut q = Policy::default();
    q.rules.push(rule_for(&f, PermissionClass::Marketing, "ads"));
    let marketing = q.assess(f, None).unwrap().finding;
    assert_eq!(DefaultPolicy.evaluate(&marketing), Decision::Gate);
    let mut stripped = necessary.clone();
    stripped.classification.evidence.clear();
    assert_eq!(DefaultPolicy.evaluate(&stripped), Decision::Block);
}
