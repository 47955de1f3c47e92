use crumbled::digest::sha256;
use crumbled::discovery::scan_text;
use crumbled::enforce::{compile, violations, PolicyLock};
use crumbled::model::{Assessment, Decision, PermissionClass};
use crumbled::policy::{Policy, PolicyRule};

fn assessments(source: &str, rules: &[(usize, PermissionClass)]) -> Vec<Assessment> {
    let findings = scan_text("app.js", source, "shop", None);
    let mut policy = Policy::default();
    for (index, category) in rules {
        policy.rules.push(PolicyRule {
            cookie: findings[*index].cookie.clone(),
            category: *category,
            reason: "reviewed".to_string(),
        });
    }
    policy.assess_all(findings, Some(5)).unwrap()
}

#[test]
fn plans_never_claim_to_enforce() {
    let plan = compile(&[]);
    assert!(!plan.applicable);
    assert!(plan.changes.is_empty());
    assert_eq!(plan, compile(&[]));
}

#[test]
fn plans_gate_every_behaviour_that_is_not_allowed() {
    let items = assessments(
        "document.cookie = 'sid=1'; cookieStore.get('theme'); cookieStore.get('ads');",
        &[(0, PermissionClass::Necessary), (1, PermissionClass::Preferences)],
    );
    assert_eq!(items[0].decision, Decision::Allow);
    assert_eq!(items[1].decision, Decision::Gate);
    assert_eq!(items[2].decision, Decision::Block);
    let plan = compile(&items);
    assert_eq!(plan.schema_version, 1);
    assert!(!plan.applicable);
    assert_eq!(plan.gates.len(), 2);
    let gate = &plan.gates[0];
    assert_eq!(
        gate.id,
        format!("gate:{}", crumbled::digest::identity_hash(&[&items[1].finding.id]))
    );
    assert_eq!(gate.category, PermissionClass::Preferences);
    assert_eq!(gate.resources, vec![items[1].finding.id.clone()]);
    assert_eq!(gate.default_state, "blocked");
    assert_eq!(gate.activation_condition, "explicit consent for this category");
    assert!(!gate.compiled);
    assert_eq!(
        plan.gates[1].activation_condition,
        "never; policy blocks this resource"
    );
    assert_eq!(plan.gates[1].category, PermissionClass::Unknown);
}

#[test]
fn violations_are_exactly_the_unallowed_behaviours() {
    let items = assessments(
        "document.cookie = 'sid=1'; cookieStore.get('theme'); cookieStore.set(name, v);",
        &[(0, PermissionClass::Necessary), (1, PermissionClass::Analytics)],
    );
    let found = violations(&items);
    assert_eq!(found.len(), 2);
    assert_eq!(found[0].code, "CRUMBLED_UNCONTROLLED_PATH");
    assert_eq!(found[0].message, "theme: Gate; no verified enforcement path");
    assert_eq!(found[0].finding_id.as_deref(), Some(items[1].finding.id.as_str()));
    assert_eq!(found[0].location, items[1].finding.evidence[0].location);
    assert_eq!(found[1].code, "CRUMBLED_BLOCKED_BEHAVIOUR");
    assert_eq!(found[1].message, "unresolved cookie: Block; no verified enforcement path");
    assert!(violations(&items[..1]).is_empty());
}

#[test]
fn checksums_and_versions_are_validated() {
    let lock = PolicyLock::new("shop", "hash", &[]).unwrap();
    assert_eq!(lock.validate(), Ok(()));
    assert_eq!(lock.clone(), lock);
    let mut other = lock.clone();
    other.application = "other".to_string();
    assert_eq!(other.validate(), Err("policy lock checksum mismatch".to_string()));
    let mut newer = lock.clone();
    newer.schema_version = 2;
    assert_eq!(newer.validate(), Err("unsupported lock schema_version".to_string()));
}

#[test]
fn checksum_covers_the_canonical_json() {
    let lock = PolicyLock::new("shop", "hash", &[]).unwrap();
    assert_eq!(lock.checksum, sha256(br#"[1,"shop","hash",{}]"#));
    let quoted = PolicyLock::new("a\"b\n", "h", &[]).unwrap();
    assert_eq!(quoted.checksum, sha256(b"[1,\"a\\\"b\\n\",\"h\",{}]"));
}

#[test]
fn locks_record_behaviours_in_identifier_order() {
    let items = assessments("cookieStore.get('b'); cookieStore.get('a');", &[]);
    let lock = PolicyLock::new("shop", "p", &items).unwrap();
    assert_eq!(lock.behaviours.len(), 2);
    let (first, _) = lock.behaviours.entry(0);
    let (second, _) = lock.behaviours.entry(1);
    assert!(first < second);
    let behaviour = lock.behaviours.get(&items[0].finding.id).unwrap();
    assert_eq!(behaviour.cookie, items[0].finding.cookie);
    assert_eq!(behaviour.decision, Decision::Block);
    assert_eq!(behaviour.permission, PermissionClass::Unknown);
    assert_eq!(
        behaviour.source_hashes,
        vec![items[0].finding.evidence[0].content_sha256.clone()]
    );
    assert_eq!(lock.validate(), Ok(()));
}

#[test]
fn duplicate_behaviour_identities_are_refused() {
    let items = assessments("cookieStore.get('a');", &[]);
    let twice = vec![items[0].clone(), items[0].clone()];
    assert_eq!(
        PolicyLock::new("shop", "p", &twice),
        Err("duplicate behaviour identity".to_string())
    );
}

#[test]
fn drift_detects_every_kind_of_change() {
    let before = assessments("cookieStore.get('a'); cookieStore.get('b');", &[]);
    let approved = PolicyLock::new("shop", "p1", &before).unwrap();
    assert!(approved.compare(&approved).is_empty());
    assert!(approved.compare(&approved.clone()).is_empty());

    let after = assessments("cookieStore.get('a'); cookieStore.get('c');", &[]);
    let current = PolicyLock::new("store", "p2", &after).unwrap();
    let changes = approved.compare(&current);
    let codes: Vec<&str> = changes.iter().map(|d| d.code.as_str()).collect();
    assert_eq!(codes.len(), 5);
    assert_eq!(codes[0], "CRUMBLED_APPLICATION_CHANGED");
    assert_eq!(codes[1], "CRUMBLED_POLICY_CHANGED");
    assert!(codes.contains(&"CRUMBLED_NEW_BEHAVIOUR"));
    assert!(codes.contains(&"CRUMBLED_REMOVED_BEHAVIOUR"));
    assert!(codes.contains(&"CRUMBLED_CHANGED_BEHAVIOUR"));
    let removed = changes
        .iter()
        .find(|d| d.code == "CRUMBLED_REMOVED_BEHAVIOUR")
        .unwrap();
    assert_eq!(removed.message, "Previously approved cookie behaviour was removed");
    assert_eq!(removed.finding_id.as_deref(), Some(before[1].finding.id.as_str()));
    assert_eq!(changes[4].code, "CRUMBLED_REMOVED_BEHAVIOUR");
}

#[test]
fn a_changed_decision_is_drift() {
    let unreviewed = assessments("cookieStore.get('a');", &[]);
    let reviewed = assessments("cookieStore.get('a');", &[(0, PermissionClass::Necessary)]);
    let approved = PolicyLock::new("shop", "p", &unreviewed).unwrap();
    let current = PolicyLock::new("shop", "p", &reviewed).unwrap();
    let changes = approved.compare(&current);
    assert_eq!(changes.len(), 1);
    assert_eq!(changes[0].code, "CRUMBLED_CHANGED_BEHAVIOUR");
    assert_eq!(
        changes[0].message,
        "Cookie identity, source, purpose, or permission changed"
    );
}

#[test]
fn drift_is_symmetric() {
    let before = assessments("cookieStore.get('a'); cookieStore.get('b');", &[]);
    let after = assessments("cookieStore.get('a'); cookieStore.get('c');", &[]);
    let x = PolicyLock::new("shop", "p1", &before).unwrap();
    let y = PolicyLock::new("shop", "p2", &after).unwrap();
    let ids = |ds: &Vec<crumbled::model::Diagnostic>, code: &str| -> Vec<String> {
        let mut v: Vec<String> = ds
            .iter()
            .filter(|d| d.code == code)
            .map(|d| d.finding_id.clone().unwrap_or_default())
            .collect();
        v.sort();
        v
    };
    let forward = x.compare(&y);
    let backward = y.compare(&x);
    assert_eq!(ids(&forward, "CRUMBLED_NEW_BEHAVIOUR"), ids(&backward, "CRUMBLED_REMOVED_BEHAVIOUR"));
    assert_eq!(ids(&forward, "CRUMBLED_REMOVED_BEHAVIOUR"), ids(&backward, "CRUMBLED_NEW_BEHAVIOUR"));
    assert_eq!(ids(&forward, "CRUMBLED_CHANGED_BEHAVIOUR"), ids(&backward, "CRUMBLED_CHANGED_BEHAVIOUR"));
    assert_eq!(ids(&forward, "CRUMBLED_POLICY_CHANGED").len(), 1);
    assert_eq!(ids(&backward, "CRUMBLED_POLICY_CHANGED").len(), 1);
    assert!(ids(&forward, "CRUMBLED_APPLICATION_CHANGED").is_empty());
}
