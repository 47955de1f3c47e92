//! Plans, reviewed topology locks, and integrity verification.
//! A plan never claims that an execution path is controlled.
use crate::digest::{identity_hash, sha256, spec_identity_hash, spec_sha256};
use crate::json::{
    class_key, class_key_str, decision_key, decision_key_str, identity_json, json_array,
    json_field, json_list, json_object, json_str, json_uint, lemma_array4, lemma_json_list_push,
    lemma_object6, operation_key, operation_key_str, put, put_identity, put_key, put_separator,
    put_str, put_str_field, put_uint,
};
use crate::keyed::{
    key_insert, key_lookup, keys_increasing, lemma_key_insert_shape, lemma_key_lookup_at,
    lemma_key_lookup_found,
};
use crate::model::{
    copy_opt_location, opt_location_view, Assessment, AssessmentView, CookieIdentity,
    CookieIdentityView, Decision, Diagnostic, DiagnosticView, EvidenceView, LocationView, Operation,
    PermissionClass, SCHEMA_VERSION,
};
use crate::text::{compare_str, hex_lower, lemma_str_lt_order, str_eq, str_lt, Cmp};
use vstd::prelude::*;

verus! {

/// An abstract permission gate for one behaviour.
#[derive(Debug, PartialEq, Eq)]
pub struct PermissionGate {
    pub id: String,
    pub category: PermissionClass,
    pub resources: Vec<String>,
    pub default_state: String,
    pub activation_condition: String,
    pub compiled: bool,
    pub reason: String,
}

pub struct PermissionGateView {
    pub id: Seq<char>,
    pub category: PermissionClass,
    pub resources: Seq<Seq<char>>,
    pub default_state: Seq<char>,
    pub activation_condition: Seq<char>,
    pub compiled: bool,
    pub reason: Seq<char>,
}

pub open spec fn string_views(v: Seq<String>) -> Seq<Seq<char>> {
    v.map_values(|s: String| s@)
}

impl View for PermissionGate {
    type V = PermissionGateView;

    open spec fn view(&self) -> PermissionGateView {
        PermissionGateView {
            id: self.id@,
            category: self.category,
            resources: string_views(self.resources@),
            default_state: self.default_state@,
            activation_condition: self.activation_condition@,
            compiled: self.compiled,
            reason: self.reason@,
        }
    }
}

/// An enforcement plan: gates for every behaviour that policy does not allow.
#[derive(Debug, PartialEq, Eq)]
pub struct EnforcementPlan {
    pub schema_version: u32,
    pub gates: Vec<PermissionGate>,
    pub applicable: bool,
    pub changes: Vec<String>,
}

pub struct EnforcementPlanView {
    pub schema_version: u32,
    pub gates: Seq<PermissionGateView>,
    pub applicable: bool,
    pub changes: Seq<Seq<char>>,
}

pub open spec fn gate_views(v: Seq<PermissionGate>) -> Seq<PermissionGateView> {
    v.map_values(|g: PermissionGate| g@)
}

impl View for EnforcementPlan {
    type V = EnforcementPlanView;

    open spec fn view(&self) -> EnforcementPlanView {
        EnforcementPlanView {
            schema_version: self.schema_version,
            gates: gate_views(self.gates@),
            applicable: self.applicable,
            changes: string_views(self.changes@),
        }
    }
}

/// Why no gate is in force.
pub open spec fn uncompiled_reason() -> Seq<char> {
    "No execution-path compiler is installed; lexical evidence cannot establish complete enforcement"@
}

/// The permission gate that holds back a behaviour policy does not allow.
pub open spec fn gate_of(a: AssessmentView) -> PermissionGateView {
    PermissionGateView {
        id: "gate:"@ + spec_identity_hash(seq![a.finding.id]),
        category: a.finding.classification.value,
        resources: seq![a.finding.id],
        default_state: "blocked"@,
        activation_condition: if a.decision == Decision::Gate {
            "explicit consent for this category"@
        } else {
            "never; policy blocks this resource"@
        },
        compiled: false,
        reason: uncompiled_reason(),
    }
}

/// The gates of the assessments that policy does not allow, in order.
pub open spec fn spec_gates(items: Seq<AssessmentView>) -> Seq<PermissionGateView>
    decreases items.len(),
{
    if items.len() == 0 {
        seq![]
    } else {
        spec_gates(items.drop_last()) + if items.last().decision != Decision::Allow {
            seq![gate_of(items.last())]
        } else {
            seq![]
        }
    }
}

/// The plan for a set of assessments. It is never applicable and changes nothing:
/// even an empty lexical scan does not prove that an application has no dynamic
/// behaviour.
pub open spec fn spec_compile(items: Seq<AssessmentView>) -> EnforcementPlanView {
    EnforcementPlanView {
        schema_version: SCHEMA_VERSION,
        gates: spec_gates(items),
        applicable: false,
        changes: seq![],
    }
}

fn gate_for(a: &Assessment) -> (g: PermissionGate)
    ensures
        g@ == gate_of(a@),
{
    let parts: [&str; 1] = [a.finding.id.as_str()];
    let hash = identity_hash(&parts);
    assert(crate::digest::str_views(parts@) =~= seq![a@.finding.id]);
    let mut resources: Vec<String> = Vec::new();
    resources.push(a.finding.id.clone());
    assert(string_views(resources@) =~= seq![a@.finding.id]);
    PermissionGate {
        id: crate::text::concat("gate:", hash.as_str()),
        category: a.finding.classification.value,
        resources: resources,
        default_state: "blocked".to_string(),
        activation_condition: if a.decision == Decision::Gate {
            "explicit consent for this category".to_string()
        } else {
            "never; policy blocks this resource".to_string()
        },
        compiled: false,
        reason: "No execution-path compiler is installed; lexical evidence cannot establish complete enforcement".to_string(),
    }
}

/// Compiles an abstract plan: a blocked-by-default gate for every behaviour that
/// policy does not allow. No gate is compiled and the plan is never applicable.
pub fn compile(items: &[Assessment]) -> (plan: EnforcementPlan)
    ensures
        plan@ == spec_compile(items@.map_values(|a: Assessment| a@)),
{
    let ghost views = items@.map_values(|a: Assessment| a@);
    let mut gates: Vec<PermissionGate> = Vec::new();
    let mut i: usize = 0;
    while i < items.len()
        invariant
            i <= items@.len(),
            views == items@.map_values(|a: Assessment| a@),
            gate_views(gates@) == spec_gates(views.take(i as int)),
        decreases items.len() - i,
    {
        let a = &items[i];
        proof {
            assert(views.take(i + 1).drop_last() =~= views.take(i as int));
            assert(views.take(i + 1).last() == a@);
        }
        if a.decision != Decision::Allow {
            let ghost before = gate_views(gates@);
            gates.push(gate_for(a));
            assert(gate_views(gates@) =~= before + seq![gate_of(a@)]);
        } else {
            assert(spec_gates(views.take(i + 1)) =~= spec_gates(views.take(i as int)));
        }
        i = i + 1;
    }
    assert(views.take(i as int) =~= views);
    let plan = EnforcementPlan {
        schema_version: SCHEMA_VERSION,
        gates: gates,
        applicable: false,
        changes: Vec::new(),
    };
    assert(plan@.changes =~= Seq::<Seq<char>>::empty());
    plan
}

/// Plans never claim to enforce: a compiled plan is not applicable, changes
/// nothing, and every gate is uncompiled and blocked by default.
pub proof fn lemma_plans_never_enforce(items: Seq<AssessmentView>)
    ensures
        !spec_compile(items).applicable,
        spec_compile(items).changes.len() == 0,
        forall|k: int|
            0 <= k < spec_gates(items).len() ==> !(#[trigger] spec_gates(items)[k]).compiled
                && spec_gates(items)[k].default_state == "blocked"@,
    decreases items.len(),
{
    if items.len() > 0 {
        lemma_plans_never_enforce(items.drop_last());
        let g = spec_gates(items);
        let prev = spec_gates(items.drop_last());
        assert forall|k: int| 0 <= k < g.len() implies !(#[trigger] g[k]).compiled
            && g[k].default_state == "blocked"@ by {
            if k < prev.len() {
                assert(g[k] == prev[k]);
            }
        }
    }
}

// ---------------------------------------------------------------------------
// Violations
// ---------------------------------------------------------------------------

/// The `Debug` name of a decision.
pub open spec fn decision_name(d: Decision) -> Seq<char> {
    match d {
        Decision::Allow => "Allow"@,
        Decision::Gate => "Gate"@,
        Decision::Block => "Block"@,
    }
}

pub fn decision_name_str(d: Decision) -> (s: &'static str)
    ensures
        s@ == decision_name(d),
{
    match d {
        Decision::Allow => "Allow",
        Decision::Gate => "Gate",
        Decision::Block => "Block",
    }
}

/// The location of the first evidence that has one.
pub open spec fn first_location(evidence: Seq<crate::model::EvidenceView>) -> Option<LocationView>
    decreases evidence.len(),
{
    if evidence.len() == 0 {
        None
    } else if evidence[0].location is Some {
        evidence[0].location
    } else {
        first_location(evidence.drop_first())
    }
}

/// The diagnostic for a behaviour that policy does not allow.
pub open spec fn violation_of(a: AssessmentView) -> DiagnosticView {
    DiagnosticView {
        code: if a.decision == Decision::Block {
            "CRUMBLED_BLOCKED_BEHAVIOUR"@
        } else {
            "CRUMBLED_UNCONTROLLED_PATH"@
        },
        message: match a.finding.cookie.name {
            Some(n) => n,
            None => "unresolved cookie"@,
        } + ": "@ + decision_name(a.decision) + "; no verified enforcement path"@,
        finding_id: Some(a.finding.id),
        location: first_location(a.finding.evidence),
    }
}

/// The diagnostics of the assessments that policy does not allow, in order.
pub open spec fn spec_violations(items: Seq<AssessmentView>) -> Seq<DiagnosticView>
    decreases items.len(),
{
    if items.len() == 0 {
        seq![]
    } else {
        spec_violations(items.drop_last()) + if items.last().decision != Decision::Allow {
            seq![violation_of(items.last())]
        } else {
            seq![]
        }
    }
}

pub fn first_location_of(evidence: &Vec<crate::model::Evidence>) -> (r: Option<crate::model::Location>)
    ensures
        opt_location_view(r) == first_location(crate::model::evidence_views(evidence@)),
{
    let ghost views = crate::model::evidence_views(evidence@);
    let mut i: usize = 0;
    assert(views.skip(0) =~= views);
    while i < evidence.len()
        invariant
            i <= evidence@.len(),
            views == crate::model::evidence_views(evidence@),
            first_location(views) == first_location(views.skip(i as int)),
        decreases evidence.len() - i,
    {
        assert(views.skip(i as int)[0] == evidence@[i as int]@);
        assert(views.skip(i as int).drop_first() =~= views.skip(i + 1));
        if evidence[i].location.is_some() {
            return copy_opt_location(&evidence[i].location);
        }
        i = i + 1;
    }
    None
}

fn violation_for(a: &Assessment) -> (d: Diagnostic)
    requires
        a.decision != Decision::Allow,
    ensures
        d@ == violation_of(a@),
{
    let name: &str = match &a.finding.cookie.name {
        Some(n) => n.as_str(),
        None => "unresolved cookie",
    };
    let head = crate::text::concat3(name, ": ", decision_name_str(a.decision));
    let message = crate::text::concat(head.as_str(), "; no verified enforcement path");
    Diagnostic {
        code: if a.decision == Decision::Block {
            "CRUMBLED_BLOCKED_BEHAVIOUR".to_string()
        } else {
            "CRUMBLED_UNCONTROLLED_PATH".to_string()
        },
        message: message,
        finding_id: Some(a.finding.id.clone()),
        location: first_location_of(&a.finding.evidence),
    }
}

/// A diagnostic for every behaviour that policy does not allow: blocked ones, and
/// gated ones that have no verified enforcement path.
pub fn violations(items: &[Assessment]) -> (r: Vec<Diagnostic>)
    ensures
        r@.map_values(|d: Diagnostic| d@) == spec_violations(items@.map_values(|a: Assessment| a@)),
{
    let ghost views = items@.map_values(|a: Assessment| a@);
    let mut out: Vec<Diagnostic> = Vec::new();
    let mut i: usize = 0;
    while i < items.len()
        invariant
            i <= items@.len(),
            views == items@.map_values(|a: Assessment| a@),
            out@.map_values(|d: Diagnostic| d@) == spec_violations(views.take(i as int)),
        decreases items.len() - i,
    {
        let a = &items[i];
        proof {
            assert(views.take(i + 1).drop_last() =~= views.take(i as int));
            assert(views.take(i + 1).last() == a@);
        }
        if a.decision != Decision::Allow {
            let ghost before = out@.map_values(|d: Diagnostic| d@);
            out.push(violation_for(a));
            assert(out@.map_values(|d: Diagnostic| d@) =~= before + seq![violation_of(a@)]);
        } else {
            assert(spec_violations(views.take(i + 1)) =~= spec_violations(views.take(i as int)));
        }
        i = i + 1;
    }
    assert(views.take(i as int) =~= views);
    out
}

/// Exactly the behaviours that policy does not allow are violations: there is one
/// diagnostic per assessment that is not allowed, and none when all are allowed.
pub proof fn lemma_violations_count(items: Seq<AssessmentView>)
    ensures
        spec_violations(items).len() == spec_gates(items).len(),
        (forall|k: int| 0 <= k < items.len() ==> (#[trigger] items[k]).decision == Decision::Allow)
            ==> spec_violations(items).len() == 0,
    decreases items.len(),
{
    if items.len() > 0 {
        lemma_violations_count(items.drop_last());
        if forall|k: int| 0 <= k < items.len() ==> (#[trigger] items[k]).decision == Decision::Allow {
            assert forall|k: int| 0 <= k < items.drop_last().len() implies (
            #[trigger] items.drop_last()[k]).decision == Decision::Allow by {
                assert(items.drop_last()[k] == items[k]);
            }
            assert(items.last() == items[items.len() - 1]);
        }
    }
}

// ---------------------------------------------------------------------------
// Reviewed topology locks
// ---------------------------------------------------------------------------

/// An approved behaviour: its identity, what it does, and how it was decided.
#[derive(Debug, PartialEq, Eq)]
pub struct LockedBehaviour {
    pub cookie: CookieIdentity,
    pub operation: Operation,
    pub technical_classification: String,
    pub permission: PermissionClass,
    pub decision: Decision,
    pub source_hashes: Vec<String>,
}

pub struct LockedBehaviourView {
    pub cookie: CookieIdentityView,
    pub operation: Operation,
    pub technical_classification: Seq<char>,
    pub permission: PermissionClass,
    pub decision: Decision,
    pub source_hashes: Seq<Seq<char>>,
}

impl View for LockedBehaviour {
    type V = LockedBehaviourView;

    open spec fn view(&self) -> LockedBehaviourView {
        LockedBehaviourView {
            cookie: self.cookie@,
            operation: self.operation,
            technical_classification: self.technical_classification@,
            permission: self.permission,
            decision: self.decision,
            source_hashes: string_views(self.source_hashes@),
        }
    }
}

/// A copy of a list of strings.
pub fn copy_strings(v: &Vec<String>) -> (r: Vec<String>)
    ensures
        string_views(r@) == string_views(v@),
{
    let mut r: Vec<String> = Vec::new();
    let mut i: usize = 0;
    while i < v.len()
        invariant
            i <= v@.len(),
            r@.len() == i,
            forall|k: int| 0 <= k < i ==> #[trigger] r@[k]@ == v@[k]@,
        decreases v.len() - i,
    {
        r.push(v[i].clone());
        i = i + 1;
    }
    assert(string_views(r@) =~= string_views(v@));
    r
}

impl Clone for LockedBehaviour {
    fn clone(&self) -> (r: Self)
        ensures
            r@ == self@,
    {
        LockedBehaviour {
            cookie: self.cookie.clone(),
            operation: self.operation,
            technical_classification: self.technical_classification.clone(),
            permission: self.permission,
            decision: self.decision,
            source_hashes: copy_strings(&self.source_hashes),
        }
    }
}

fn same_strings(a: &Vec<String>, b: &Vec<String>) -> (r: bool)
    ensures
        r == (string_views(a@) == string_views(b@)),
{
    if a.len() != b.len() {
        assert(string_views(a@).len() != string_views(b@).len());
        return false;
    }
    let mut i: usize = 0;
    while i < a.len()
        invariant
            i <= a@.len(),
            a@.len() == b@.len(),
            forall|k: int| 0 <= k < i ==> (#[trigger] a@[k])@ == b@[k]@,
        decreases a.len() - i,
    {
        if !str_eq(a[i].as_str(), b[i].as_str()) {
            assert(string_views(a@)[i as int] != string_views(b@)[i as int]);
            return false;
        }
        i = i + 1;
    }
    assert(string_views(a@) =~= string_views(b@));
    true
}

/// Whether two behaviours are the same in every respect.
pub fn same_behaviour(a: &LockedBehaviour, b: &LockedBehaviour) -> (r: bool)
    ensures
        r == (a@ == b@),
{
    a.cookie.same_identity(&b.cookie) && a.operation == b.operation && str_eq(
        a.technical_classification.as_str(),
        b.technical_classification.as_str(),
    ) && a.permission == b.permission && a.decision == b.decision && same_strings(
        &a.source_hashes,
        &b.source_hashes,
    )
}

pub open spec fn behaviour_entry_views(v: Seq<(String, LockedBehaviour)>) -> Seq<
    (Seq<char>, LockedBehaviourView),
> {
    v.map_values(|p: (String, LockedBehaviour)| (p.0@, p.1@))
}

/// Approved behaviours by finding identifier, in identifier order.
#[derive(Debug, PartialEq, Eq)]
pub struct Behaviours {
    entries: Vec<(String, LockedBehaviour)>,
}

impl View for Behaviours {
    type V = Seq<(Seq<char>, LockedBehaviourView)>;

    closed spec fn view(&self) -> Seq<(Seq<char>, LockedBehaviourView)> {
        behaviour_entry_views(self.entries@)
    }
}

impl Behaviours {
    #[verifier::type_invariant]
    closed spec fn increasing(self) -> bool {
        keys_increasing(behaviour_entry_views(self.entries@))
    }

    /// No behaviours.
    pub fn new() -> (b: Self)
        ensures
            b@ == Seq::<(Seq<char>, LockedBehaviourView)>::empty(),
    {
        let b = Behaviours { entries: Vec::new() };
        assert(b@ =~= Seq::<(Seq<char>, LockedBehaviourView)>::empty());
        b
    }

    /// The number of behaviours; identifiers increase along them.
    pub fn len(&self) -> (n: usize)
        ensures
            n == self@.len(),
            keys_increasing(self@),
    {
        proof {
            use_type_invariant(self);
        }
        self.entries.len()
    }

    /// The identifier and behaviour at position `i`.
    pub fn entry(&self, i: usize) -> (r: (&String, &LockedBehaviour))
        requires
            i < self@.len(),
        ensures
            r.0@ == self@[i as int].0,
            r.1@ == self@[i as int].1,
    {
        let p = &self.entries[i];
        (&p.0, &p.1)
    }

    /// The position of `key`, or where it would go.
    fn position(&self, key: &str) -> (p: usize)
        ensures
            p <= self@.len(),
            forall|j: int| 0 <= j < p ==> str_lt(#[trigger] self@[j].0, key@),
            p < self@.len() ==> (self@[p as int].0 == key@ || str_lt(key@, self@[p as int].0)),
    {
        let n = self.entries.len();
        let mut p: usize = 0;
        while p < n && compare_str(self.entries[p].0.as_str(), key) == Cmp::Less
            invariant
                n == self.entries@.len(),
                p <= n,
                forall|j: int| 0 <= j < p ==> str_lt(#[trigger] self@[j].0, key@),
            decreases n - p,
        {
            p = p + 1;
        }
        if p < n {
            proof {
                lemma_str_lt_order(self@[p as int].0, key@, key@);
            }
        }
        p
    }

    /// The behaviour with identifier `key`, if any.
    pub fn get(&self, key: &str) -> (r: Option<&LockedBehaviour>)
        ensures
            match r {
                Some(b) => key_lookup(self@, key@) == Some(b@),
                None => key_lookup(self@, key@) is None,
            },
    {
        proof {
            use_type_invariant(self);
        }
        let p = self.position(key);
        proof {
            self.lemma_lookup_at_position(key@, p as int);
        }
        if p < self.entries.len() && str_eq(self.entries[p].0.as_str(), key) {
            Some(&self.entries[p].1)
        } else {
            None
        }
    }

    proof fn lemma_lookup_at_position(&self, key: Seq<char>, p: int)
        requires
            keys_increasing(self@),
            0 <= p <= self@.len(),
            forall|j: int| 0 <= j < p ==> str_lt(#[trigger] self@[j].0, key),
            p < self@.len() ==> (self@[p].0 == key || str_lt(key, self@[p].0)),
        ensures
            p < self@.len() && self@[p].0 == key ==> key_lookup(self@, key) == Some(self@[p].1),
            !(p < self@.len() && self@[p].0 == key) ==> key_lookup(self@, key) is None,
    {
        let e = self@;
        if p < e.len() && e[p].0 == key {
            lemma_key_lookup_at(e, p);
        } else if key_lookup(e, key) is Some {
            lemma_key_lookup_found(e, key);
            let i = choose|i: int|
                0 <= i < e.len() && (#[trigger] e[i]).0 == key && key_lookup(e, key) == Some(
                    e[i].1,
                );
            if i < p {
                lemma_str_lt_order(key, key, key);
            } else {
                assert(str_lt(key, e[p].0));
                if i > p {
                    assert(str_lt(e[p].0, e[i].0));
                    lemma_str_lt_order(key, e[p].0, key);
                }
            }
        }
    }

    /// Sets the behaviour of `key`; says whether one was replaced.
    pub fn insert(&mut self, key: String, value: LockedBehaviour) -> (replaced: bool)
        ensures
            final(self)@ == key_insert(old(self)@, key@, value@),
            replaced == key_lookup(old(self)@, key@) is Some,
    {
        proof {
            use_type_invariant(&*self);
        }
        let ghost old_view = self@;
        let n = self.entries.len();
        let p = self.position(key.as_str());
        proof {
            self.lemma_lookup_at_position(key@, p as int);
            lemma_key_insert_shape(old_view, key@, value@, p as int);
        }
        let replace = p < n && str_eq(self.entries[p].0.as_str(), key.as_str());
        let ghost k = key@;
        let ghost v = value@;
        let mut entries: Vec<(String, LockedBehaviour)> = Vec::new();
        std::mem::swap(&mut entries, &mut self.entries);
        if replace {
            entries.set(p, (key, value));
            assert(behaviour_entry_views(entries@) =~= old_view.subrange(0, p as int) + seq![(k, v)]
                + old_view.subrange(p + 1, n as int));
        } else {
            entries.insert(p, (key, value));
            assert(behaviour_entry_views(entries@) =~= old_view.subrange(0, p as int) + seq![(k, v)]
                + old_view.subrange(p as int, n as int));
        }
        self.entries = entries;
        replace
    }
}

impl Clone for Behaviours {
    fn clone(&self) -> (r: Self)
        ensures
            r@ == self@,
    {
        proof {
            use_type_invariant(self);
        }
        let mut out: Vec<(String, LockedBehaviour)> = Vec::new();
        let mut i: usize = 0;
        while i < self.entries.len()
            invariant
                i <= self.entries@.len(),
                out@.len() == i,
                forall|k: int|
                    0 <= k < i ==> (#[trigger] out@[k]).0@ == self.entries@[k].0@ && out@[k].1@
                        == self.entries@[k].1@,
            decreases self.entries.len() - i,
        {
            out.push((self.entries[i].0.clone(), self.entries[i].1.clone()));
            i = i + 1;
        }
        assert(behaviour_entry_views(out@) =~= behaviour_entry_views(self.entries@));
        Behaviours { entries: out }
    }
}

/// A reviewed topology: the application, the policy fingerprint and the approved
/// behaviours, sealed by a checksum.
#[derive(Debug, PartialEq, Eq)]
pub struct PolicyLock {
    pub schema_version: u32,
    pub application: String,
    pub policy_sha256: String,
    pub behaviours: Behaviours,
    pub checksum: String,
}

pub struct PolicyLockView {
    pub schema_version: u32,
    pub application: Seq<char>,
    pub policy_sha256: Seq<char>,
    pub behaviours: Seq<(Seq<char>, LockedBehaviourView)>,
    pub checksum: Seq<char>,
}

impl View for PolicyLock {
    type V = PolicyLockView;

    open spec fn view(&self) -> PolicyLockView {
        PolicyLockView {
            schema_version: self.schema_version,
            application: self.application@,
            policy_sha256: self.policy_sha256@,
            behaviours: self.behaviours@,
            checksum: self.checksum@,
        }
    }
}

impl Clone for PolicyLock {
    fn clone(&self) -> (r: Self)
        ensures
            r@ == self@,
    {
        PolicyLock {
            schema_version: self.schema_version,
            application: self.application.clone(),
            policy_sha256: self.policy_sha256.clone(),
            behaviours: self.behaviours.clone(),
            checksum: self.checksum.clone(),
        }
    }
}

/// A behaviour as JSON.
pub open spec fn behaviour_json(b: LockedBehaviourView) -> Seq<u8> {
    json_object(
        seq![
            json_field("cookie"@, identity_json(b.cookie)),
            json_field("operation"@, json_str(operation_key(b.operation))),
            json_field("technical_classification"@, json_str(b.technical_classification)),
            json_field("permission"@, json_str(class_key(b.permission))),
            json_field("decision"@, json_str(decision_key(b.decision))),
            json_field(
                "source_hashes"@,
                json_array(b.source_hashes.map_values(|h: Seq<char>| json_str(h))),
            ),
        ],
    )
}

/// The behaviours as a JSON object keyed by identifier.
pub open spec fn behaviours_json(entries: Seq<(Seq<char>, LockedBehaviourView)>) -> Seq<u8> {
    json_object(
        entries.map_values(|e: (Seq<char>, LockedBehaviourView)| json_field(e.0, behaviour_json(e.1))),
    )
}

/// What the checksum covers: the schema version, application, policy fingerprint and
/// behaviours, as a JSON array.
pub open spec fn lock_json(
    schema_version: u32,
    application: Seq<char>,
    policy_sha256: Seq<char>,
    entries: Seq<(Seq<char>, LockedBehaviourView)>,
) -> Seq<u8> {
    json_array(
        seq![
            json_uint(schema_version as nat),
            json_str(application),
            json_str(policy_sha256),
            behaviours_json(entries),
        ],
    )
}

/// The checksum of a lock's contents.
pub open spec fn spec_lock_checksum(
    schema_version: u32,
    application: Seq<char>,
    policy_sha256: Seq<char>,
    entries: Seq<(Seq<char>, LockedBehaviourView)>,
) -> Seq<char> {
    hex_lower(spec_sha256(lock_json(schema_version, application, policy_sha256, entries)))
}

fn put_hashes(out: &mut Vec<u8>, hashes: &Vec<String>)
    ensures
        final(out)@ == old(out)@ + json_array(
            string_views(hashes@).map_values(|h: Seq<char>| json_str(h)),
        ),
{
    let ghost start = out@;
    let ghost items = string_views(hashes@).map_values(|h: Seq<char>| json_str(h));
    put(out, 0x5b);
    let mut i: usize = 0;
    while i < hashes.len()
        invariant
            i <= hashes@.len(),
            items == string_views(hashes@).map_values(|h: Seq<char>| json_str(h)),
            out@ == start + seq![0x5bu8] + json_list(items.take(i as int)),
        decreases hashes.len() - i,
    {
        put_separator(out, i == 0);
        put_str(out, hashes[i].as_str());
        proof {
            assert(items.take(i + 1) =~= items.take(i as int).push(items[i as int]));
            lemma_json_list_push(items.take(i as int), items[i as int]);
            assert(out@ =~= start + seq![0x5bu8] + json_list(items.take(i + 1)));
        }
        i = i + 1;
    }
    assert(items.take(i as int) =~= items);
    put(out, 0x5d);
    assert(final(out)@ =~= start + json_array(items));
}

fn put_behaviour(out: &mut Vec<u8>, b: &LockedBehaviour)
    ensures
        final(out)@ == old(out)@ + behaviour_json(b@),
{
    let ghost start = out@;
    put(out, 0x7b);
    let ghost a0 = out@;
    put_key(out, "cookie");
    put_identity(out, &b.cookie);
    assert(out@ =~= a0 + json_field("cookie"@, identity_json(b@.cookie)));
    put(out, 0x2c);
    put_str_field(out, "operation", operation_key_str(b.operation));
    put(out, 0x2c);
    put_str_field(out, "technical_classification", b.technical_classification.as_str());
    put(out, 0x2c);
    put_str_field(out, "permission", class_key_str(b.permission));
    put(out, 0x2c);
    put_str_field(out, "decision", decision_key_str(b.decision));
    put(out, 0x2c);
    let ghost a5 = out@;
    put_key(out, "source_hashes");
    put_hashes(out, &b.source_hashes);
    let ghost hashes = json_array(b@.source_hashes.map_values(|h: Seq<char>| json_str(h)));
    assert(out@ =~= a5 + json_field("source_hashes"@, hashes));
    put(out, 0x7d);
    proof {
        lemma_object6(
            json_field("cookie"@, identity_json(b@.cookie)),
            json_field("operation"@, json_str(operation_key(b@.operation))),
            json_field("technical_classification"@, json_str(b@.technical_classification)),
            json_field("permission"@, json_str(class_key(b@.permission))),
            json_field("decision"@, json_str(decision_key(b@.decision))),
            json_field("source_hashes"@, hashes),
        );
        assert(final(out)@ =~= start + behaviour_json(b@));
    }
}

fn put_behaviours(out: &mut Vec<u8>, b: &Behaviours)
    ensures
        final(out)@ == old(out)@ + behaviours_json(b@),
{
    let ghost start = out@;
    let ghost items = b@.map_values(
        |e: (Seq<char>, LockedBehaviourView)| json_field(e.0, behaviour_json(e.1)),
    );
    put(out, 0x7b);
    let n = b.len();
    let mut i: usize = 0;
    while i < n
        invariant
            i <= n,
            n == b@.len(),
            items == b@.map_values(
                |e: (Seq<char>, LockedBehaviourView)| json_field(e.0, behaviour_json(e.1)),
            ),
            out@ == start + seq![0x7bu8] + json_list(items.take(i as int)),
        decreases n - i,
    {
        let (key, value) = b.entry(i);
        let ghost before = out@;
        put_separator(out, i == 0);
        let ghost mid = out@;
        put_key(out, key.as_str());
        put_behaviour(out, value);
        proof {
            assert(out@ =~= mid + json_field(key@, behaviour_json(value@)));
            assert(items[i as int] == json_field(key@, behaviour_json(value@)));
            assert(items.take(i + 1) =~= items.take(i as int).push(items[i as int]));
            lemma_json_list_push(items.take(i as int), items[i as int]);
            assert(out@ =~= start + seq![0x7bu8] + json_list(items.take(i + 1)));
        }
        i = i + 1;
    }
    assert(items.take(i as int) =~= items);
    put(out, 0x7d);
    assert(final(out)@ =~= start + json_object(items));
}

impl PolicyLock {
    /// The checksum of this lock's contents.
    fn calculate_checksum(&self) -> (s: String)
        ensures
            s@ == spec_lock_checksum(
                self.schema_version,
                self.application@,
                self.policy_sha256@,
                self.behaviours@,
            ),
    {
        let mut out: Vec<u8> = Vec::new();
        put(&mut out, 0x5b);
        put_uint(&mut out, self.schema_version as usize);
        let ghost a1 = out@;
        put(&mut out, 0x2c);
        put_str(&mut out, self.application.as_str());
        put(&mut out, 0x2c);
        put_str(&mut out, self.policy_sha256.as_str());
        put(&mut out, 0x2c);
        let ghost a3 = out@;
        put_behaviours(&mut out, &self.behaviours);
        put(&mut out, 0x5d);
        proof {
            lemma_array4(
                json_uint(self.schema_version as nat),
                json_str(self.application@),
                json_str(self.policy_sha256@),
                behaviours_json(self.behaviours@),
            );
            assert(out@ =~= lock_json(
                self.schema_version,
                self.application@,
                self.policy_sha256@,
                self.behaviours@,
            ));
        }
        sha256(out.as_slice())
    }
}

/// What a lock records of an assessment.
pub open spec fn locked_of(a: AssessmentView) -> LockedBehaviourView {
    LockedBehaviourView {
        cookie: a.finding.cookie,
        operation: a.finding.operation,
        technical_classification: a.finding.technical_classification,
        permission: a.finding.classification.value,
        decision: a.decision,
        source_hashes: a.finding.evidence.map_values(|e: EvidenceView| e.content_sha256),
    }
}

/// The records of assessments, by finding identifier, in order.
pub open spec fn lock_records(items: Seq<AssessmentView>) -> Seq<(Seq<char>, LockedBehaviourView)> {
    items.map_values(|a: AssessmentView| (a.finding.id, locked_of(a)))
}

/// The records inserted in order into identifier-ordered entries.
pub open spec fn lock_entries(records: Seq<(Seq<char>, LockedBehaviourView)>) -> Seq<
    (Seq<char>, LockedBehaviourView),
>
    decreases records.len(),
{
    if records.len() == 0 {
        seq![]
    } else {
        key_insert(lock_entries(records.drop_last()), records.last().0, records.last().1)
    }
}

/// Two assessments share a finding identifier.
pub open spec fn duplicate_ids(items: Seq<AssessmentView>) -> bool {
    exists|i: int, j: int|
        0 <= i < j < items.len() && (#[trigger] items[i]).finding.id == (#[trigger] items[j]).finding.id
}

/// The lock of a set of assessments, sealed by its checksum.
pub open spec fn spec_new_lock(
    application: Seq<char>,
    policy_sha256: Seq<char>,
    items: Seq<AssessmentView>,
) -> PolicyLockView {
    let entries = lock_entries(lock_records(items));
    PolicyLockView {
        schema_version: SCHEMA_VERSION,
        application: application,
        policy_sha256: policy_sha256,
        behaviours: entries,
        checksum: spec_lock_checksum(SCHEMA_VERSION, application, policy_sha256, entries),
    }
}

/// Why a lock fails its integrity check, if it does.
pub open spec fn lock_error(l: PolicyLockView) -> Option<Seq<char>> {
    if l.schema_version != SCHEMA_VERSION {
        Some("unsupported lock schema_version"@)
    } else if l.checksum != spec_lock_checksum(
        l.schema_version,
        l.application,
        l.policy_sha256,
        l.behaviours,
    ) {
        Some("policy lock checksum mismatch"@)
    } else {
        None
    }
}

proof fn lemma_lock_entries_lookup(records: Seq<(Seq<char>, LockedBehaviourView)>, key: Seq<char>)
    ensures
        key_lookup(lock_entries(records), key) is Some <==> exists|j: int|
            0 <= j < records.len() && (#[trigger] records[j]).0 == key,
    decreases records.len(),
{
    if records.len() > 0 {
        let init = records.drop_last();
        lemma_lock_entries_lookup(init, key);
        crate::keyed::lemma_key_insert_lookup(
            lock_entries(init),
            records.last().0,
            records.last().1,
            key,
        );
        if exists|j: int| 0 <= j < records.len() && (#[trigger] records[j]).0 == key {
            let j = choose|j: int| 0 <= j < records.len() && (#[trigger] records[j]).0 == key;
            if j < init.len() {
                assert(init[j] == records[j]);
            }
        }
        if exists|j: int| 0 <= j < init.len() && (#[trigger] init[j]).0 == key {
            let j = choose|j: int| 0 <= j < init.len() && (#[trigger] init[j]).0 == key;
            assert(records[j] == init[j]);
        }
    }
}

fn locked_record(a: &Assessment) -> (b: LockedBehaviour)
    ensures
        b@ == locked_of(a@),
{
    let f = &a.finding;
    let mut hashes: Vec<String> = Vec::new();
    let mut i: usize = 0;
    while i < f.evidence.len()
        invariant
            i <= f.evidence@.len(),
            hashes@.len() == i,
            forall|k: int| 0 <= k < i ==> (#[trigger] hashes@[k])@ == f.evidence@[k].content_sha256@,
        decreases f.evidence.len() - i,
    {
        hashes.push(f.evidence[i].content_sha256.clone());
        i = i + 1;
    }
    assert(string_views(hashes@) =~= crate::model::evidence_views(f.evidence@).map_values(
        |e: EvidenceView| e.content_sha256,
    ));
    LockedBehaviour {
        cookie: f.cookie.clone(),
        operation: f.operation,
        technical_classification: f.technical_classification.clone(),
        permission: f.classification.value,
        decision: a.decision,
        source_hashes: hashes,
    }
}

impl PolicyLock {
    /// Locks the reviewed topology of `items` for `application` under the policy with
    /// fingerprint `policy_sha256`. Two behaviours with one identifier are refused.
    pub fn new(application: &str, policy_sha256: &str, items: &[Assessment]) -> (r: Result<
        PolicyLock,
        String,
    >)
        ensures
            r is Ok <==> !duplicate_ids(items@.map_values(|a: Assessment| a@)),
            r matches Ok(l) ==> l@ == spec_new_lock(
                application@,
                policy_sha256@,
                items@.map_values(|a: Assessment| a@),
            ) && keys_increasing(l@.behaviours),
            r matches Err(e) ==> e@ == "duplicate behaviour identity"@,
    {
        let ghost views = items@.map_values(|a: Assessment| a@);
        let ghost records = lock_records(views);
        let mut behaviours = Behaviours::new();
        let mut i: usize = 0;
        while i < items.len()
            invariant
                i <= items@.len(),
                views == items@.map_values(|a: Assessment| a@),
                records == lock_records(views),
                behaviours@ == lock_entries(records.take(i as int)),
                !duplicate_ids(views.take(i as int)),
            decreases items.len() - i,
        {
            let a = &items[i];
            let record = locked_record(a);
            let ghost prev = records.take(i as int);
            proof {
                assert(records.take(i + 1).drop_last() =~= prev);
                assert(records.take(i + 1).last() == records[i as int]);
                assert(records[i as int] == (a@.finding.id, locked_of(a@)));
                lemma_lock_entries_lookup(prev, a@.finding.id);
            }
            let replaced = behaviours.insert(a.finding.id.clone(), record);
            if replaced {
                proof {
                    let j = choose|j: int| 0 <= j < prev.len() && (#[trigger] prev[j]).0
                        == a@.finding.id;
                    assert(prev[j] == records[j]);
                    assert(views[j].finding.id == views[i as int].finding.id);
                }
                return Err("duplicate behaviour identity".to_string());
            }
            proof {
                let next = views.take(i + 1);
                if duplicate_ids(next) {
                    let (x, y) = choose|x: int, y: int|
                        0 <= x < y < next.len() && (#[trigger] next[x]).finding.id == (
                        #[trigger] next[y]).finding.id;
                    if y < i {
                        assert(views.take(i as int)[x] == next[x]);
                        assert(views.take(i as int)[y] == next[y]);
                    } else {
                        assert(prev[x] == records[x]);
                        assert(prev[x].0 == a@.finding.id);
                    }
                }
            }
            i = i + 1;
        }
        assert(views.take(i as int) =~= views);
        assert(records.take(i as int) =~= records);
        proof {
            lemma_lock_entries_increasing(records);
        }
        let mut lock = PolicyLock {
            schema_version: SCHEMA_VERSION,
            application: application.to_string(),
            policy_sha256: policy_sha256.to_string(),
            behaviours: behaviours,
            checksum: String::new(),
        };
        lock.checksum = lock.calculate_checksum();
        Ok(lock)
    }

    /// The integrity check of a lock that was read back: the schema version is the
    /// current one and the checksum matches the contents.
    pub fn validate(&self) -> (r: Result<(), String>)
        ensures
            r is Ok <==> lock_error(self@) is None,
            r matches Err(e) ==> lock_error(self@) == Some(e@),
    {
        if self.schema_version != SCHEMA_VERSION {
            return Err("unsupported lock schema_version".to_string());
        }
        let expected = self.calculate_checksum();
        if !str_eq(self.checksum.as_str(), expected.as_str()) {
            return Err("policy lock checksum mismatch".to_string());
        }
        Ok(())
    }
}

/// A lock made by `PolicyLock::new` passes the integrity check.
pub proof fn lemma_new_lock_is_intact(
    application: Seq<char>,
    policy_sha256: Seq<char>,
    items: Seq<AssessmentView>,
)
    ensures
        lock_error(spec_new_lock(application, policy_sha256, items)) is None,
{
}

// ---------------------------------------------------------------------------
// Drift between an approved lock and the current topology
// ---------------------------------------------------------------------------

/// A drift diagnostic.
pub open spec fn drift(code: Seq<char>, message: Seq<char>, id: Option<Seq<char>>) -> DiagnosticView {
    DiagnosticView { code: code, message: message, finding_id: id, location: None }
}

/// The drift of one current behaviour against the approved ones.
pub open spec fn change_of(
    approved: Seq<(Seq<char>, LockedBehaviourView)>,
    e: (Seq<char>, LockedBehaviourView),
) -> Seq<DiagnosticView> {
    match key_lookup(approved, e.0) {
        None => seq![
            drift("CRUMBLED_NEW_BEHAVIOUR"@, "New unapproved cookie behaviour"@, Some(e.0)),
        ],
        Some(old) => if old != e.1 {
            seq![
                drift(
                    "CRUMBLED_CHANGED_BEHAVIOUR"@,
                    "Cookie identity, source, purpose, or permission changed"@,
                    Some(e.0),
                ),
            ]
        } else {
            seq![]
        },
    }
}

/// New and changed behaviours, in the order of the current ones.
pub open spec fn current_changes(
    approved: Seq<(Seq<char>, LockedBehaviourView)>,
    current: Seq<(Seq<char>, LockedBehaviourView)>,
) -> Seq<DiagnosticView>
    decreases current.len(),
{
    if current.len() == 0 {
        seq![]
    } else {
        current_changes(approved, current.drop_last()) + change_of(approved, current.last())
    }
}

/// Approved behaviours that are gone, in the order of the approved ones.
pub open spec fn removed_changes(
    approved: Seq<(Seq<char>, LockedBehaviourView)>,
    current: Seq<(Seq<char>, LockedBehaviourView)>,
) -> Seq<DiagnosticView>
    decreases approved.len(),
{
    if approved.len() == 0 {
        seq![]
    } else {
        removed_changes(approved.drop_last(), current) + if key_lookup(
            current,
            approved.last().0,
        ) is None {
            seq![
                drift(
                    "CRUMBLED_REMOVED_BEHAVIOUR"@,
                    "Previously approved cookie behaviour was removed"@,
                    Some(approved.last().0),
                ),
            ]
        } else {
            seq![]
        }
    }
}

/// The drift of the current lock against the approved one: a changed application,
/// a changed policy, new and changed behaviours, then removed ones.
pub open spec fn spec_compare(approved: PolicyLockView, current: PolicyLockView) -> Seq<
    DiagnosticView,
> {
    (if approved.application != current.application {
        seq![
            drift(
                "CRUMBLED_APPLICATION_CHANGED"@,
                "Application identity differs from the approved lock"@,
                None,
            ),
        ]
    } else {
        seq![]
    }) + (if approved.policy_sha256 != current.policy_sha256 {
        seq![drift("CRUMBLED_POLICY_CHANGED"@, "Policy differs from the approved lock"@, None)]
    } else {
        seq![]
    }) + current_changes(approved.behaviours, current.behaviours) + removed_changes(
        approved.behaviours,
        current.behaviours,
    )
}

fn drift_diagnostic(code: &str, message: &str, id: Option<String>) -> (d: Diagnostic)
    ensures
        d@ == drift(code@, message@, crate::model::opt_view(id)),
{
    Diagnostic {
        code: code.to_string(),
        message: message.to_string(),
        finding_id: id,
        location: None,
    }
}

pub open spec fn diagnostic_list(v: Seq<Diagnostic>) -> Seq<DiagnosticView> {
    v.map_values(|d: Diagnostic| d@)
}

fn push_diagnostic(out: &mut Vec<Diagnostic>, d: Diagnostic)
    ensures
        diagnostic_list(final(out)@) == diagnostic_list(old(out)@) + seq![d@],
{
    out.push(d);
    assert(diagnostic_list(final(out)@) =~= diagnostic_list(old(out)@) + seq![d@]);
}

impl PolicyLock {
    /// The drift of `current` against this approved lock.
    pub fn compare(&self, current: &PolicyLock) -> (r: Vec<Diagnostic>)
        ensures
            diagnostic_list(r@) == spec_compare(self@, current@),
    {
        let mut changes: Vec<Diagnostic> = Vec::new();
        if !str_eq(self.application.as_str(), current.application.as_str()) {
            push_diagnostic(
                &mut changes,
                drift_diagnostic(
                    "CRUMBLED_APPLICATION_CHANGED",
                    "Application identity differs from the approved lock",
                    None,
                ),
            );
        }
        if !str_eq(self.policy_sha256.as_str(), current.policy_sha256.as_str()) {
            push_diagnostic(
                &mut changes,
                drift_diagnostic(
                    "CRUMBLED_POLICY_CHANGED",
                    "Policy differs from the approved lock",
                    None,
                ),
            );
        }
        let ghost head = diagnostic_list(changes@);
        let n = current.behaviours.len();
        let mut i: usize = 0;
        while i < n
            invariant
                i <= n,
                n == current.behaviours@.len(),
                diagnostic_list(changes@) == head + current_changes(
                    self.behaviours@,
                    current.behaviours@.take(i as int),
                ),
            decreases n - i,
        {
            let (id, behaviour) = current.behaviours.entry(i);
            proof {
                let c = current.behaviours@;
                assert(c.take(i + 1).drop_last() =~= c.take(i as int));
                assert(c.take(i + 1).last() == c[i as int]);
            }
            match self.behaviours.get(id.as_str()) {
                None => {
                    push_diagnostic(
                        &mut changes,
                        drift_diagnostic(
                            "CRUMBLED_NEW_BEHAVIOUR",
                            "New unapproved cookie behaviour",
                            Some(id.clone()),
                        ),
                    );
                },
                Some(old) => {
                    if !same_behaviour(old, behaviour) {
                        push_diagnostic(
                            &mut changes,
                            drift_diagnostic(
                                "CRUMBLED_CHANGED_BEHAVIOUR",
                                "Cookie identity, source, purpose, or permission changed",
                                Some(id.clone()),
                            ),
                        );
                    }
                },
            }
            assert(diagnostic_list(changes@) =~= head + current_changes(
                self.behaviours@,
                current.behaviours@.take(i + 1),
            ));
            i = i + 1;
        }
        assert(current.behaviours@.take(n as int) =~= current.behaviours@);
        let ghost mid = diagnostic_list(changes@);
        let m = self.behaviours.len();
        let mut j: usize = 0;
        while j < m
            invariant
                j <= m,
                m == self.behaviours@.len(),
                diagnostic_list(changes@) == mid + removed_changes(
                    self.behaviours@.take(j as int),
                    current.behaviours@,
                ),
            decreases m - j,
        {
            let (id, _) = self.behaviours.entry(j);
            proof {
                let a = self.behaviours@;
                assert(a.take(j + 1).drop_last() =~= a.take(j as int));
                assert(a.take(j + 1).last() == a[j as int]);
            }
            if current.behaviours.get(id.as_str()).is_none() {
                push_diagnostic(
                    &mut changes,
                    drift_diagnostic(
                        "CRUMBLED_REMOVED_BEHAVIOUR",
                        "Previously approved cookie behaviour was removed",
                        Some(id.clone()),
                    ),
                );
            }
            assert(diagnostic_list(changes@) =~= mid + removed_changes(
                self.behaviours@.take(j + 1),
                current.behaviours@,
            ));
            j = j + 1;
        }
        assert(self.behaviours@.take(m as int) =~= self.behaviours@);
        changes
    }
}

proof fn lemma_current_changes_empty(
    approved: Seq<(Seq<char>, LockedBehaviourView)>,
    current: Seq<(Seq<char>, LockedBehaviourView)>,
)
    ensures
        current_changes(approved, current).len() == 0 <==> forall|i: int|
            0 <= i < current.len() ==> key_lookup(approved, (#[trigger] current[i]).0) == Some(
                current[i].1,
            ),
    decreases current.len(),
{
    if current.len() > 0 {
        let init = current.drop_last();
        lemma_current_changes_empty(approved, init);
        if forall|i: int|
            0 <= i < current.len() ==> key_lookup(approved, (#[trigger] current[i]).0) == Some(
                current[i].1,
            ) {
            assert forall|i: int| 0 <= i < init.len() implies key_lookup(
                approved,
                (#[trigger] init[i]).0,
            ) == Some(init[i].1) by {
                assert(init[i] == current[i]);
            }
            assert(current.last() == current[current.len() - 1]);
        }
        if current_changes(approved, current).len() == 0 {
            assert forall|i: int| 0 <= i < current.len() implies key_lookup(
                approved,
                (#[trigger] current[i]).0,
            ) == Some(current[i].1) by {
                if i < init.len() {
                    assert(init[i] == current[i]);
                } else {
                    assert(current.last() == current[i]);
                }
            }
        }
    }
}

proof fn lemma_removed_changes_empty(
    approved: Seq<(Seq<char>, LockedBehaviourView)>,
    current: Seq<(Seq<char>, LockedBehaviourView)>,
)
    ensures
        removed_changes(approved, current).len() == 0 <==> forall|j: int|
            0 <= j < approved.len() ==> key_lookup(current, (#[trigger] approved[j]).0) is Some,
    decreases approved.len(),
{
    if approved.len() > 0 {
        let init = approved.drop_last();
        lemma_removed_changes_empty(init, current);
        if forall|j: int|
            0 <= j < approved.len() ==> key_lookup(current, (#[trigger] approved[j]).0) is Some {
            assert forall|j: int| 0 <= j < init.len() implies key_lookup(
                current,
                (#[trigger] init[j]).0,
            ) is Some by {
                assert(init[j] == approved[j]);
            }
            assert(approved.last() == approved[approved.len() - 1]);
        }
        if removed_changes(approved, current).len() == 0 {
            assert forall|j: int| 0 <= j < approved.len() implies key_lookup(
                current,
                (#[trigger] approved[j]).0,
            ) is Some by {
                if j < init.len() {
                    assert(init[j] == approved[j]);
                } else {
                    assert(approved.last() == approved[j]);
                }
            }
        }
    }
}

/// No drift is reported exactly when the current topology is the approved one: the
/// same application, the same policy and the same behaviours. In particular a lock
/// compared with itself reports nothing.
pub proof fn lemma_no_drift_iff_unchanged(approved: PolicyLockView, current: PolicyLockView)
    requires
        keys_increasing(approved.behaviours),
        keys_increasing(current.behaviours),
    ensures
        spec_compare(approved, current).len() == 0 <==> (approved.application
            == current.application && approved.policy_sha256 == current.policy_sha256
            && approved.behaviours == current.behaviours),
{
    let a = approved.behaviours;
    let c = current.behaviours;
    lemma_current_changes_empty(a, c);
    lemma_removed_changes_empty(a, c);
    if a == c {
        assert forall|i: int| 0 <= i < c.len() implies key_lookup(a, (#[trigger] c[i]).0) == Some(
            c[i].1,
        ) by {
            lemma_key_lookup_at(a, i);
        }
        assert forall|j: int| 0 <= j < a.len() implies key_lookup(c, (#[trigger] a[j]).0) is Some by {
            lemma_key_lookup_at(c, j);
        }
    }
    if spec_compare(approved, current).len() == 0 {
        assert forall|i: int| 0 <= i < c.len() implies a.contains(#[trigger] c[i]) by {
            lemma_key_lookup_found(a, c[i].0);
            let k = choose|k: int|
                0 <= k < a.len() && (#[trigger] a[k]).0 == c[i].0 && key_lookup(a, c[i].0) == Some(
                    a[k].1,
                );
            assert(a[k] == c[i]);
        }
        assert forall|j: int| 0 <= j < a.len() implies c.contains(#[trigger] a[j]) by {
            lemma_key_lookup_found(c, a[j].0);
            let m = choose|m: int|
                0 <= m < c.len() && (#[trigger] c[m]).0 == a[j].0 && key_lookup(c, a[j].0) == Some(
                    c[m].1,
                );
            assert(key_lookup(a, c[m].0) == Some(c[m].1));
            lemma_key_lookup_at(a, j);
            assert(c[m] == a[j]);
        }
        crate::keyed::lemma_increasing_entries_unique(a, c);
    }
}

/// The entries of a lock are in strictly increasing identifier order.
pub proof fn lemma_lock_entries_increasing(records: Seq<(Seq<char>, LockedBehaviourView)>)
    ensures
        keys_increasing(lock_entries(records)),
    decreases records.len(),
{
    if records.len() > 0 {
        lemma_lock_entries_increasing(records.drop_last());
        crate::keyed::lemma_key_insert_increasing(
            lock_entries(records.drop_last()),
            records.last().0,
            records.last().1,
        );
    }
}

/// Locking the same topology twice, for the same application and policy, reports no
/// drift: approval is stable until something changes.
pub proof fn lemma_relock_has_no_drift(
    application: Seq<char>,
    policy_sha256: Seq<char>,
    items: Seq<AssessmentView>,
)
    ensures
        spec_compare(
            spec_new_lock(application, policy_sha256, items),
            spec_new_lock(application, policy_sha256, items),
        ).len() == 0,
{
    let l = spec_new_lock(application, policy_sha256, items);
    lemma_lock_entries_increasing(lock_records(items));
    lemma_no_drift_iff_unchanged(l, l);
}

/// A diagnostic with `code` names the behaviour `id`.
pub open spec fn flagged(ds: Seq<DiagnosticView>, code: Seq<char>, id: Seq<char>) -> bool {
    exists|k: int| 0 <= k < ds.len() && (#[trigger] ds[k]).code == code && ds[k].finding_id == Some(id)
}

/// Some diagnostic has `code`.
pub open spec fn mentions(ds: Seq<DiagnosticView>, code: Seq<char>) -> bool {
    exists|k: int| 0 <= k < ds.len() && (#[trigger] ds[k]).code == code
}

proof fn lemma_flagged_concat(a: Seq<DiagnosticView>, b: Seq<DiagnosticView>, code: Seq<char>, id: Seq<char>)
    ensures
        flagged(a + b, code, id) <==> flagged(a, code, id) || flagged(b, code, id),
        mentions(a + b, code) <==> mentions(a, code) || mentions(b, code),
{
    let s = a + b;
    if flagged(s, code, id) {
        let k = choose|k: int| 0 <= k < s.len() && (#[trigger] s[k]).code == code && s[k].finding_id == Some(id);
        if k < a.len() {
            assert(s[k] == a[k]);
        } else {
            assert(s[k] == b[k - a.len()]);
        }
    }
    if flagged(a, code, id) {
        let k = choose|k: int| 0 <= k < a.len() && (#[trigger] a[k]).code == code && a[k].finding_id == Some(id);
        assert(s[k] == a[k]);
    }
    if flagged(b, code, id) {
        let k = choose|k: int| 0 <= k < b.len() && (#[trigger] b[k]).code == code && b[k].finding_id == Some(id);
        assert(s[a.len() + k] == b[k]);
    }
    if mentions(s, code) {
        let k = choose|k: int| 0 <= k < s.len() && (#[trigger] s[k]).code == code;
        if k < a.len() {
            assert(s[k] == a[k]);
        } else {
            assert(s[k] == b[k - a.len()]);
        }
    }
    if mentions(a, code) {
        let k = choose|k: int| 0 <= k < a.len() && (#[trigger] a[k]).code == code;
        assert(s[k] == a[k]);
    }
    if mentions(b, code) {
        let k = choose|k: int| 0 <= k < b.len() && (#[trigger] b[k]).code == code;
        assert(s[a.len() + k] == b[k]);
    }
}

proof fn lemma_drift_codes_distinct()
    ensures
        "CRUMBLED_NEW_BEHAVIOUR"@ != "CRUMBLED_CHANGED_BEHAVIOUR"@,
        "CRUMBLED_NEW_BEHAVIOUR"@ != "CRUMBLED_REMOVED_BEHAVIOUR"@,
        "CRUMBLED_CHANGED_BEHAVIOUR"@ != "CRUMBLED_REMOVED_BEHAVIOUR"@,
        "CRUMBLED_APPLICATION_CHANGED"@ != "CRUMBLED_NEW_BEHAVIOUR"@,
        "CRUMBLED_APPLICATION_CHANGED"@ != "CRUMBLED_CHANGED_BEHAVIOUR"@,
        "CRUMBLED_APPLICATION_CHANGED"@ != "CRUMBLED_REMOVED_BEHAVIOUR"@,
        "CRUMBLED_APPLICATION_CHANGED"@ != "CRUMBLED_POLICY_CHANGED"@,
        "CRUMBLED_POLICY_CHANGED"@ != "CRUMBLED_NEW_BEHAVIOUR"@,
        "CRUMBLED_POLICY_CHANGED"@ != "CRUMBLED_CHANGED_BEHAVIOUR"@,
        "CRUMBLED_POLICY_CHANGED"@ != "CRUMBLED_REMOVED_BEHAVIOUR"@,
{
    reveal_strlit("CRUMBLED_NEW_BEHAVIOUR");
    reveal_strlit("CRUMBLED_CHANGED_BEHAVIOUR");
    reveal_strlit("CRUMBLED_REMOVED_BEHAVIOUR");
    reveal_strlit("CRUMBLED_APPLICATION_CHANGED");
    reveal_strlit("CRUMBLED_POLICY_CHANGED");
    assert("CRUMBLED_CHANGED_BEHAVIOUR"@[9] != "CRUMBLED_REMOVED_BEHAVIOUR"@[9]);
    assert("CRUMBLED_APPLICATION_CHANGED"@.len() == 28);
    assert("CRUMBLED_POLICY_CHANGED"@.len() == 23);
    assert("CRUMBLED_NEW_BEHAVIOUR"@.len() == 22);
    assert("CRUMBLED_CHANGED_BEHAVIOUR"@.len() == 26);
    assert("CRUMBLED_REMOVED_BEHAVIOUR"@.len() == 26);
}

/// A lookup in entries that grew by one entry.
proof fn lemma_lookup_push(
    s: Seq<(Seq<char>, LockedBehaviourView)>,
    e: (Seq<char>, LockedBehaviourView),
    x: Seq<char>,
)
    ensures
        key_lookup(s.push(e), x) == match key_lookup(s, x) {
            Some(v) => Some(v),
            None => if e.0 == x {
                Some(e.1)
            } else {
                None
            },
        },
    decreases s.len(),
{
    if s.len() > 0 {
        assert(s.push(e)[0] == s[0]);
        assert(s.push(e).drop_first() =~= s.drop_first().push(e));
        lemma_lookup_push(s.drop_first(), e, x);
    } else {
        assert(s.push(e)[0] == e);
        assert(s.push(e).drop_first() =~= Seq::<(Seq<char>, LockedBehaviourView)>::empty());
        assert(key_lookup(s.push(e).drop_first(), x) is None);
        assert(key_lookup(s, x) is None);
    }
}

/// In increasing entries, the last key is not among the earlier ones.
proof fn lemma_last_key_new(s: Seq<(Seq<char>, LockedBehaviourView)>)
    requires
        keys_increasing(s),
        s.len() > 0,
    ensures
        key_lookup(s.drop_last(), s.last().0) is None,
        keys_increasing(s.drop_last()),
        s == s.drop_last().push(s.last()),
{
    let init = s.drop_last();
    assert(s =~= init.push(s.last()));
    assert(keys_increasing(init)) by {
        assert forall|i: int, j: int| 0 <= i < j < init.len() implies str_lt(
            #[trigger] init[i].0,
            #[trigger] init[j].0,
        ) by {
            assert(init[i] == s[i]);
            assert(init[j] == s[j]);
        }
    }
    if key_lookup(init, s.last().0) is Some {
        lemma_key_lookup_found(init, s.last().0);
        let i = choose|i: int|
            0 <= i < init.len() && (#[trigger] init[i]).0 == s.last().0 && key_lookup(
                init,
                s.last().0,
            ) == Some(init[i].1);
        assert(init[i] == s[i]);
        assert(str_lt(s[i].0, s[s.len() - 1].0));
        lemma_str_lt_order(s[i].0, s[i].0, s[i].0);
    }
}

proof fn lemma_current_changes_flags(
    approved: Seq<(Seq<char>, LockedBehaviourView)>,
    current: Seq<(Seq<char>, LockedBehaviourView)>,
    x: Seq<char>,
)
    requires
        keys_increasing(current),
    ensures
        flagged(current_changes(approved, current), "CRUMBLED_NEW_BEHAVIOUR"@, x) <==> (key_lookup(
            current,
            x,
        ) is Some && key_lookup(approved, x) is None),
        flagged(current_changes(approved, current), "CRUMBLED_CHANGED_BEHAVIOUR"@, x) <==> (
        key_lookup(current, x) is Some && key_lookup(approved, x) is Some && key_lookup(approved, x)
            != key_lookup(current, x)),
        !flagged(current_changes(approved, current), "CRUMBLED_REMOVED_BEHAVIOUR"@, x),
        !mentions(current_changes(approved, current), "CRUMBLED_APPLICATION_CHANGED"@),
        !mentions(current_changes(approved, current), "CRUMBLED_POLICY_CHANGED"@),
    decreases current.len(),
{
    lemma_drift_codes_distinct();
    if current.len() == 0 {
    } else {
        let init = current.drop_last();
        let e = current.last();
        lemma_last_key_new(current);
        lemma_current_changes_flags(approved, init, x);
        lemma_lookup_push(init, e, x);
        let head = current_changes(approved, init);
        let tail = change_of(approved, e);
        lemma_flagged_concat(head, tail, "CRUMBLED_NEW_BEHAVIOUR"@, x);
        lemma_flagged_concat(head, tail, "CRUMBLED_CHANGED_BEHAVIOUR"@, x);
        lemma_flagged_concat(head, tail, "CRUMBLED_REMOVED_BEHAVIOUR"@, x);
        lemma_flagged_concat(head, tail, "CRUMBLED_APPLICATION_CHANGED"@, x);
        lemma_flagged_concat(head, tail, "CRUMBLED_POLICY_CHANGED"@, x);
        if tail.len() > 0 {
            assert(tail.len() == 1);
            assert(tail[0].finding_id == Some(e.0));
        }
        if x == e.0 {
            assert(key_lookup(init, x) is None);
        }
    }
}

proof fn lemma_removed_changes_flags(
    approved: Seq<(Seq<char>, LockedBehaviourView)>,
    current: Seq<(Seq<char>, LockedBehaviourView)>,
    x: Seq<char>,
)
    requires
        keys_increasing(approved),
    ensures
        flagged(removed_changes(approved, current), "CRUMBLED_REMOVED_BEHAVIOUR"@, x) <==> (
        key_lookup(approved, x) is Some && key_lookup(current, x) is None),
        !flagged(removed_changes(approved, current), "CRUMBLED_NEW_BEHAVIOUR"@, x),
        !flagged(removed_changes(approved, current), "CRUMBLED_CHANGED_BEHAVIOUR"@, x),
        !mentions(removed_changes(approved, current), "CRUMBLED_APPLICATION_CHANGED"@),
        !mentions(removed_changes(approved, current), "CRUMBLED_POLICY_CHANGED"@),
    decreases approved.len(),
{
    lemma_drift_codes_distinct();
    if approved.len() == 0 {
    } else {
        let init = approved.drop_last();
        let e = approved.last();
        lemma_last_key_new(approved);
        lemma_removed_changes_flags(init, current, x);
        lemma_lookup_push(init, e, x);
        let head = removed_changes(init, current);
        let tail = if key_lookup(current, e.0) is None {
            seq![
                drift(
                    "CRUMBLED_REMOVED_BEHAVIOUR"@,
                    "Previously approved cookie behaviour was removed"@,
                    Some(e.0),
                ),
            ]
        } else {
            seq![]
        };
        assert(removed_changes(approved, current) == head + tail);
        lemma_flagged_concat(head, tail, "CRUMBLED_NEW_BEHAVIOUR"@, x);
        lemma_flagged_concat(head, tail, "CRUMBLED_CHANGED_BEHAVIOUR"@, x);
        lemma_flagged_concat(head, tail, "CRUMBLED_REMOVED_BEHAVIOUR"@, x);
        lemma_flagged_concat(head, tail, "CRUMBLED_APPLICATION_CHANGED"@, x);
        lemma_flagged_concat(head, tail, "CRUMBLED_POLICY_CHANGED"@, x);
        if tail.len() > 0 {
            assert(tail[0].finding_id == Some(e.0));
        }
        if x == e.0 {
            assert(key_lookup(init, x) is None);
        }
    }
}

/// What drift reports: a new behaviour is one the approved lock lacks, a removed one
/// is one the current topology lacks, a changed one is in both with different
/// records, and the application and policy are reported when they differ.
pub proof fn lemma_drift_kinds(approved: PolicyLockView, current: PolicyLockView, x: Seq<char>)
    requires
        keys_increasing(approved.behaviours),
        keys_increasing(current.behaviours),
    ensures
        flagged(spec_compare(approved, current), "CRUMBLED_NEW_BEHAVIOUR"@, x) <==> (key_lookup(
            current.behaviours,
            x,
        ) is Some && key_lookup(approved.behaviours, x) is None),
        flagged(spec_compare(approved, current), "CRUMBLED_REMOVED_BEHAVIOUR"@, x) <==> (
        key_lookup(approved.behaviours, x) is Some && key_lookup(current.behaviours, x) is None),
        flagged(spec_compare(approved, current), "CRUMBLED_CHANGED_BEHAVIOUR"@, x) <==> (
        key_lookup(approved.behaviours, x) is Some && key_lookup(current.behaviours, x) is Some
            && key_lookup(approved.behaviours, x) != key_lookup(current.behaviours, x)),
        mentions(spec_compare(approved, current), "CRUMBLED_APPLICATION_CHANGED"@) <==> (
        approved.application != current.application),
        mentions(spec_compare(approved, current), "CRUMBLED_POLICY_CHANGED"@) <==> (
        approved.policy_sha256 != current.policy_sha256),
{
    lemma_drift_codes_distinct();
    let app = if approved.application != current.application {
        seq![
            drift(
                "CRUMBLED_APPLICATION_CHANGED"@,
                "Application identity differs from the approved lock"@,
                None,
            ),
        ]
    } else {
        seq![]
    };
    let pol = if approved.policy_sha256 != current.policy_sha256 {
        seq![drift("CRUMBLED_POLICY_CHANGED"@, "Policy differs from the approved lock"@, None)]
    } else {
        seq![]
    };
    let cc = current_changes(approved.behaviours, current.behaviours);
    let rc = removed_changes(approved.behaviours, current.behaviours);
    lemma_current_changes_flags(approved.behaviours, current.behaviours, x);
    lemma_removed_changes_flags(approved.behaviours, current.behaviours, x);
    let ap = app + pol;
    let apc = ap + cc;
    assert(spec_compare(approved, current) == apc + rc);
    let codes = seq![
        "CRUMBLED_NEW_BEHAVIOUR"@,
        "CRUMBLED_REMOVED_BEHAVIOUR"@,
        "CRUMBLED_CHANGED_BEHAVIOUR"@,
        "CRUMBLED_APPLICATION_CHANGED"@,
        "CRUMBLED_POLICY_CHANGED"@,
    ];
    assert forall|i: int| 0 <= i < 5 implies {
        &&& (flagged(apc + rc, #[trigger] codes[i], x) <==> flagged(app, codes[i], x) || flagged(
            pol,
            codes[i],
            x,
        ) || flagged(cc, codes[i], x) || flagged(rc, codes[i], x))
        &&& (mentions(apc + rc, codes[i]) <==> mentions(app, codes[i]) || mentions(pol, codes[i])
            || mentions(cc, codes[i]) || mentions(rc, codes[i]))
    } by {
        lemma_flagged_concat(app, pol, codes[i], x);
        lemma_flagged_concat(ap, cc, codes[i], x);
        lemma_flagged_concat(apc, rc, codes[i], x);
    }
    assert(codes[0] == "CRUMBLED_NEW_BEHAVIOUR"@);
    assert(codes[1] == "CRUMBLED_REMOVED_BEHAVIOUR"@);
    assert(codes[2] == "CRUMBLED_CHANGED_BEHAVIOUR"@);
    assert(codes[3] == "CRUMBLED_APPLICATION_CHANGED"@);
    assert(codes[4] == "CRUMBLED_POLICY_CHANGED"@);
    if app.len() > 0 {
        assert(app[0].finding_id is None);
        assert(app[0].code == "CRUMBLED_APPLICATION_CHANGED"@);
    }
    if pol.len() > 0 {
        assert(pol[0].finding_id is None);
        assert(pol[0].code == "CRUMBLED_POLICY_CHANGED"@);
    }
}

/// Drift is symmetric: what one comparison reports as new the reverse comparison
/// reports as removed, both report the same changed behaviours, and both report a
/// changed application or policy or neither does.
pub proof fn lemma_drift_mirrors(a: PolicyLockView, b: PolicyLockView, x: Seq<char>)
    requires
        keys_increasing(a.behaviours),
        keys_increasing(b.behaviours),
    ensures
        flagged(spec_compare(a, b), "CRUMBLED_NEW_BEHAVIOUR"@, x) <==> flagged(
            spec_compare(b, a),
            "CRUMBLED_REMOVED_BEHAVIOUR"@,
            x,
        ),
        flagged(spec_compare(a, b), "CRUMBLED_REMOVED_BEHAVIOUR"@, x) <==> flagged(
            spec_compare(b, a),
            "CRUMBLED_NEW_BEHAVIOUR"@,
            x,
        ),
        flagged(spec_compare(a, b), "CRUMBLED_CHANGED_BEHAVIOUR"@, x) <==> flagged(
            spec_compare(b, a),
            "CRUMBLED_CHANGED_BEHAVIOUR"@,
            x,
        ),
        mentions(spec_compare(a, b), "CRUMBLED_APPLICATION_CHANGED"@) <==> mentions(
            spec_compare(b, a),
            "CRUMBLED_APPLICATION_CHANGED"@,
        ),
        mentions(spec_compare(a, b), "CRUMBLED_POLICY_CHANGED"@) <==> mentions(
            spec_compare(b, a),
            "CRUMBLED_POLICY_CHANGED"@,
        ),
{
    lemma_drift_kinds(a, b, x);
    lemma_drift_kinds(b, a, x);
}

/// A behaviour's decision is part of what the checksum covers: two records that
/// differ only in their decision are encoded differently.
pub proof fn lemma_behaviour_json_keeps_decision(b: LockedBehaviourView, decision: Decision)
    requires
        b.decision != decision,
    ensures
        behaviour_json(b) != behaviour_json(LockedBehaviourView { decision: decision, ..b }),
{
    let c = LockedBehaviourView { decision: decision, ..b };
    let f1 = json_field("cookie"@, identity_json(b.cookie));
    let f2 = json_field("operation"@, json_str(operation_key(b.operation)));
    let f3 = json_field("technical_classification"@, json_str(b.technical_classification));
    let f4 = json_field("permission"@, json_str(class_key(b.permission)));
    let f6 = json_field(
        "source_hashes"@,
        json_array(b.source_hashes.map_values(|h: Seq<char>| json_str(h))),
    );
    let k1 = json_str(decision_key(b.decision));
    let k2 = json_str(decision_key(decision));
    lemma_object6(f1, f2, f3, f4, json_field("decision"@, k1), f6);
    lemma_object6(f1, f2, f3, f4, json_field("decision"@, k2), f6);
    let a = seq![0x7bu8] + f1 + seq![0x2cu8] + f2 + seq![0x2cu8] + f3 + seq![0x2cu8] + f4 + seq![
        0x2cu8,
    ] + json_str("decision"@) + seq![0x3au8];
    let z = seq![0x2cu8] + f6 + seq![0x7du8];
    assert(behaviour_json(b) =~= a + k1 + z);
    assert(behaviour_json(c) =~= a + k2 + z);
    crate::json::lemma_decision_keys(b.decision, decision);
    crate::json::lemma_decision_keys(decision, b.decision);
    if behaviour_json(b) == behaviour_json(c) {
        crate::json::lemma_cancel(a, k1, k2, z);
        crate::json::lemma_json_str_plain_injective(decision_key(b.decision), decision_key(decision));
    }
}

/// The lock with behaviour `i` replaced and everything else, its checksum included,
/// kept.
pub open spec fn with_behaviour(l: PolicyLockView, i: int, b: LockedBehaviourView) -> PolicyLockView {
    PolicyLockView { behaviours: l.behaviours.update(i, (l.behaviours[i].0, b)), ..l }
}

/// The lock with the decision of behaviour `i` replaced and everything else, its
/// checksum included, kept.
pub open spec fn with_decision(l: PolicyLockView, i: int, decision: Decision) -> PolicyLockView {
    with_behaviour(l, i, LockedBehaviourView { decision, ..l.behaviours[i].1 })
}

#[verifier::spinoff_prover]
#[verifier::rlimit(50)]
proof fn lemma_lock_json_update(
    schema_version: u32,
    application: Seq<char>,
    policy_sha256: Seq<char>,
    entries: Seq<(Seq<char>, LockedBehaviourView)>,
    j: int,
    b: LockedBehaviourView,
) -> (ab: (Seq<u8>, Seq<u8>))
    requires
        0 <= j < entries.len(),
    ensures
        lock_json(schema_version, application, policy_sha256, entries) == ab.0 + behaviour_json(
            entries[j].1,
        ) + ab.1,
        lock_json(schema_version, application, policy_sha256, entries.update(j, (entries[j].0, b)))
            == ab.0 + behaviour_json(b) + ab.1,
{
    let f = |e: (Seq<char>, LockedBehaviourView)| json_field(e.0, behaviour_json(e.1));
    let old_fields = entries.map_values(f);
    let new_fields = entries.update(j, (entries[j].0, b)).map_values(f);
    assert(new_fields =~= old_fields.update(j, json_field(entries[j].0, behaviour_json(b))));
    assert(old_fields[j] == json_field(entries[j].0, behaviour_json(entries[j].1)));
    let (x, y) = crate::json::lemma_object_item_update(
        json_uint(schema_version as nat),
        json_str(application),
        json_str(policy_sha256),
        old_fields,
        j,
        json_field(entries[j].0, behaviour_json(b)),
    );
    let a = x + json_str(entries[j].0) + seq![0x3au8];
    assert(lock_json(schema_version, application, policy_sha256, entries) =~= a + behaviour_json(
        entries[j].1,
    ) + y);
    assert(lock_json(schema_version, application, policy_sha256, entries.update(j, (entries[j].0, b)))
        =~= a + behaviour_json(b) + y);
    (a, y)
}

/// The checksum covers each behaviour's labels: editing the operation, permission or
/// decision of one behaviour of an intact lock, its checksum kept, changes the
/// contents the checksum covers, and the edited lock is refused with "policy lock
/// checksum mismatch" unless SHA-256 gives the two contents the same digest.
pub proof fn lemma_edited_behaviour_is_refused(l: PolicyLockView, i: int, b: LockedBehaviourView)
    requires
        lock_error(l) is None,
        0 <= i < l.behaviours.len(),
        b.cookie == l.behaviours[i].1.cookie,
        b.technical_classification == l.behaviours[i].1.technical_classification,
        b.source_hashes == l.behaviours[i].1.source_hashes,
        b != l.behaviours[i].1,
    ensures
        lock_json(l.schema_version, l.application, l.policy_sha256, with_behaviour(l, i, b).behaviours)
            != lock_json(l.schema_version, l.application, l.policy_sha256, l.behaviours),
        spec_sha256(
            lock_json(
                l.schema_version,
                l.application,
                l.policy_sha256,
                with_behaviour(l, i, b).behaviours,
            ),
        ) != spec_sha256(lock_json(l.schema_version, l.application, l.policy_sha256, l.behaviours))
            ==> lock_error(with_behaviour(l, i, b)) == Some("policy lock checksum mismatch"@),
{
    let e = with_behaviour(l, i, b);
    let old_b = l.behaviours[i].1;
    let (x, y) = lemma_lock_json_update(
        l.schema_version,
        l.application,
        l.policy_sha256,
        l.behaviours,
        i,
        b,
    );
    let old_json = lock_json(l.schema_version, l.application, l.policy_sha256, l.behaviours);
    let new_json = lock_json(l.schema_version, l.application, l.policy_sha256, e.behaviours);
    if new_json == old_json {
        crate::json::lemma_cancel(x, behaviour_json(b), behaviour_json(old_b), y);
        lemma_behaviour_json_keeps_labels(b, old_b);
    }
    if spec_sha256(new_json) != spec_sha256(old_json) {
        if e.checksum == spec_lock_checksum(
            e.schema_version,
            e.application,
            e.policy_sha256,
            e.behaviours,
        ) {
            crate::text::lemma_hex_lower_injective(spec_sha256(new_json), spec_sha256(old_json));
        }
    }
}

/// The checksum covers each behaviour's decision: changing the decision of one
/// behaviour of an intact lock, its checksum kept, changes the contents the checksum
/// covers, and the edited lock is refused with "policy lock checksum mismatch" unless
/// SHA-256 gives the two contents the same digest.
pub proof fn lemma_edited_decision_is_refused(l: PolicyLockView, i: int, decision: Decision)
    requires
        lock_error(l) is None,
        0 <= i < l.behaviours.len(),
        l.behaviours[i].1.decision != decision,
    ensures
        lock_json(
            l.schema_version,
            l.application,
            l.policy_sha256,
            with_decision(l, i, decision).behaviours,
        ) != lock_json(l.schema_version, l.application, l.policy_sha256, l.behaviours),
        spec_sha256(
            lock_json(
                l.schema_version,
                l.application,
                l.policy_sha256,
                with_decision(l, i, decision).behaviours,
            ),
        ) != spec_sha256(lock_json(l.schema_version, l.application, l.policy_sha256, l.behaviours))
            ==> lock_error(with_decision(l, i, decision)) == Some(
            "policy lock checksum mismatch"@,
        ),
{
    lemma_edited_behaviour_is_refused(
        l,
        i,
        LockedBehaviourView { decision, ..l.behaviours[i].1 },
    );
}

/// The checksum covers each behaviour's operation, permission and decision: two
/// behaviours of the same cookie, API and sources that are encoded alike agree on all
/// three, so they are the same behaviour.
pub proof fn lemma_behaviour_json_keeps_labels(b: LockedBehaviourView, c: LockedBehaviourView)
    requires
        b.cookie == c.cookie,
        b.technical_classification == c.technical_classification,
        b.source_hashes == c.source_hashes,
        behaviour_json(b) == behaviour_json(c),
    ensures
        b == c,
{
    crate::json::lemma_operation_keys(b.operation, c.operation);
    crate::json::lemma_operation_keys(c.operation, b.operation);
    crate::json::lemma_class_keys(b.permission, c.permission);
    crate::json::lemma_class_keys(c.permission, b.permission);
    crate::json::lemma_decision_keys(b.decision, c.decision);
    crate::json::lemma_decision_keys(c.decision, b.decision);
    crate::json::lemma_object6_plain_fields(
        json_field("cookie"@, identity_json(b.cookie)),
        "operation"@,
        json_field("technical_classification"@, json_str(b.technical_classification)),
        "permission"@,
        "decision"@,
        json_field(
            "source_hashes"@,
            json_array(b.source_hashes.map_values(|h: Seq<char>| json_str(h))),
        ),
        (operation_key(b.operation), class_key(b.permission), decision_key(b.decision)),
        (operation_key(c.operation), class_key(c.permission), decision_key(c.decision)),
    );
}

} // verus!
