//! Explicit, identity-scoped policy approval. Names alone never grant permission.
use crate::cookie::{is_blank, trim};
use crate::digest::{sha256, spec_sha256};
use crate::json::{
    class_key, class_key_str, decision_key, decision_key_str, identity_json, json_array,
    json_field, json_list, json_object, json_str, json_uint, lemma_json_list_push, lemma_object3,
    put, put_identity, put_key, put_separator, put_str_field, put_uint,
};
use crate::model::{
    copy_opt_location, evidence_views, spec_cookie_id, Assessment, AssessmentView, Classification,
    ClassificationView, Classifier, Confidence, PolicyEngine, CookieIdentity, CookieIdentityView, Decision,
    Evidence, EvidenceView, Finding, FindingView, Method, PermissionClass, SCHEMA_VERSION,
};
use crate::text::{compare_str, hex_lower, lemma_str_lt_order, str_eq, str_lt, Cmp};
use vstd::prelude::*;

verus! {

/// The permission classes in their order.
pub open spec fn all_classes() -> Seq<PermissionClass> {
    seq![
        PermissionClass::Necessary,
        PermissionClass::Preferences,
        PermissionClass::Analytics,
        PermissionClass::Marketing,
        PermissionClass::Unknown,
    ]
}

/// A decision for each permission class that the table decides.
#[derive(Clone, Copy, Debug, PartialEq, Eq)]
pub struct DecisionTable {
    necessary: Option<Decision>,
    preferences: Option<Decision>,
    analytics: Option<Decision>,
    marketing: Option<Decision>,
    unknown: Option<Decision>,
}

impl DecisionTable {
    closed spec fn slot(self, c: PermissionClass) -> Option<Decision> {
        match c {
            PermissionClass::Necessary => self.necessary,
            PermissionClass::Preferences => self.preferences,
            PermissionClass::Analytics => self.analytics,
            PermissionClass::Marketing => self.marketing,
            PermissionClass::Unknown => self.unknown,
        }
    }
}

impl View for DecisionTable {
    type V = Map<PermissionClass, Decision>;

    closed spec fn view(&self) -> Map<PermissionClass, Decision> {
        Map::new(|c: PermissionClass| self.slot(c) is Some, |c: PermissionClass| self.slot(c)->0)
    }
}

/// The decision for `c`, if the table has one.
pub open spec fn decision_for(m: Map<PermissionClass, Decision>, c: PermissionClass) -> Option<
    Decision,
> {
    if m.contains_key(c) {
        Some(m[c])
    } else {
        None
    }
}

/// How many permission classes a table decides.
pub open spec fn decided_count(m: Map<PermissionClass, Decision>) -> nat {
    (if m.contains_key(PermissionClass::Necessary) {
        1nat
    } else {
        0nat
    }) + (if m.contains_key(PermissionClass::Preferences) {
        1nat
    } else {
        0nat
    }) + (if m.contains_key(PermissionClass::Analytics) {
        1nat
    } else {
        0nat
    }) + (if m.contains_key(PermissionClass::Marketing) {
        1nat
    } else {
        0nat
    }) + (if m.contains_key(PermissionClass::Unknown) {
        1nat
    } else {
        0nat
    })
}

/// The default decisions: necessary cookies are allowed, consent classes are gated
/// and unknown behaviour is blocked.
pub open spec fn spec_default_decisions() -> Map<PermissionClass, Decision> {
    map![
        PermissionClass::Necessary => Decision::Allow,
        PermissionClass::Preferences => Decision::Gate,
        PermissionClass::Analytics => Decision::Gate,
        PermissionClass::Marketing => Decision::Gate,
        PermissionClass::Unknown => Decision::Block,
    ]
}

impl DecisionTable {
    /// A table that decides nothing.
    pub fn new() -> (t: Self)
        ensures
            t@ == Map::<PermissionClass, Decision>::empty(),
    {
        let t = DecisionTable {
            necessary: None,
            preferences: None,
            analytics: None,
            marketing: None,
            unknown: None,
        };
        assert(t@ =~= Map::<PermissionClass, Decision>::empty());
        t
    }

    /// The decision for `c`, if any.
    pub fn get(&self, c: PermissionClass) -> (r: Option<Decision>)
        ensures
            r == decision_for(self@, c),
    {
        match c {
            PermissionClass::Necessary => self.necessary,
            PermissionClass::Preferences => self.preferences,
            PermissionClass::Analytics => self.analytics,
            PermissionClass::Marketing => self.marketing,
            PermissionClass::Unknown => self.unknown,
        }
    }

    /// Sets the decision for `c`, replacing an earlier one.
    pub fn insert(&mut self, c: PermissionClass, d: Decision)
        ensures
            final(self)@ == old(self)@.insert(c, d),
    {
        match c {
            PermissionClass::Necessary => self.necessary = Some(d),
            PermissionClass::Preferences => self.preferences = Some(d),
            PermissionClass::Analytics => self.analytics = Some(d),
            PermissionClass::Marketing => self.marketing = Some(d),
            PermissionClass::Unknown => self.unknown = Some(d),
        }
        assert(final(self)@ =~= old(self)@.insert(c, d));
    }

    /// The number of classes the table decides.
    pub fn len(&self) -> (n: usize)
        ensures
            n == decided_count(self@),
    {
        let mut n: usize = 0;
        if self.necessary.is_some() {
            n = n + 1;
        }
        if self.preferences.is_some() {
            n = n + 1;
        }
        if self.analytics.is_some() {
            n = n + 1;
        }
        if self.marketing.is_some() {
            n = n + 1;
        }
        if self.unknown.is_some() {
            n = n + 1;
        }
        n
    }
}

/// The default decisions.
pub fn default_decisions() -> (t: DecisionTable)
    ensures
        t@ == spec_default_decisions(),
{
    let mut t = DecisionTable::new();
    t.insert(PermissionClass::Necessary, Decision::Allow);
    t.insert(PermissionClass::Preferences, Decision::Gate);
    t.insert(PermissionClass::Analytics, Decision::Gate);
    t.insert(PermissionClass::Marketing, Decision::Gate);
    t.insert(PermissionClass::Unknown, Decision::Block);
    assert(t@ =~= spec_default_decisions());
    t
}

/// A reviewed approval of one exact cookie identity.
#[derive(Debug)]
pub struct PolicyRule {
    pub cookie: CookieIdentity,
    pub category: PermissionClass,
    pub reason: String,
}

pub struct PolicyRuleView {
    pub cookie: CookieIdentityView,
    pub category: PermissionClass,
    pub reason: Seq<char>,
}

impl View for PolicyRule {
    type V = PolicyRuleView;

    open spec fn view(&self) -> PolicyRuleView {
        PolicyRuleView { cookie: self.cookie@, category: self.category, reason: self.reason@ }
    }
}

impl Clone for PolicyRule {
    fn clone(&self) -> (r: Self)
        ensures
            r@ == self@,
    {
        PolicyRule {
            cookie: self.cookie.clone(),
            category: self.category,
            reason: self.reason.clone(),
        }
    }
}

pub open spec fn rule_views(v: Seq<PolicyRule>) -> Seq<PolicyRuleView> {
    v.map_values(|r: PolicyRule| r@)
}

/// A policy: a decision per permission class and reviewed rules.
#[derive(Debug)]
pub struct Policy {
    pub schema_version: u32,
    pub decisions: DecisionTable,
    pub rules: Vec<PolicyRule>,
}

pub struct PolicyView {
    pub schema_version: u32,
    pub decisions: Map<PermissionClass, Decision>,
    pub rules: Seq<PolicyRuleView>,
}

impl View for Policy {
    type V = PolicyView;

    open spec fn view(&self) -> PolicyView {
        PolicyView {
            schema_version: self.schema_version,
            decisions: self.decisions@,
            rules: rule_views(self.rules@),
        }
    }
}

/// A copy of a list of rules.
pub fn copy_rules(v: &Vec<PolicyRule>) -> (r: Vec<PolicyRule>)
    ensures
        rule_views(r@) == rule_views(v@),
{
    let mut r: Vec<PolicyRule> = Vec::new();
    let mut i: usize = 0;
    while i < v.len()
        invariant
            i <= v@.len(),
            r@.len() == i,
            forall|k: int| 0 <= k < i ==> #[trigger] r@[k]@ == v@[k]@,
        decreases v.len() - i,
    {
        r.push(v[i].clone());
        i = i + 1;
    }
    assert(rule_views(r@) =~= rule_views(v@));
    r
}

impl Clone for Policy {
    fn clone(&self) -> (r: Self)
        ensures
            r@ == self@,
    {
        Policy {
            schema_version: self.schema_version,
            decisions: self.decisions,
            rules: copy_rules(&self.rules),
        }
    }
}

impl Default for Policy {
    /// The current schema, the default decisions and no rules.
    fn default() -> (p: Self)
        ensures
            p@.schema_version == SCHEMA_VERSION,
            p@.decisions == spec_default_decisions(),
            p@.rules == Seq::<PolicyRuleView>::empty(),
    {
        let p = Policy {
            schema_version: SCHEMA_VERSION,
            decisions: default_decisions(),
            rules: Vec::new(),
        };
        assert(p@.rules =~= Seq::<PolicyRuleView>::empty());
        p
    }
}

// ---------------------------------------------------------------------------
// Validation
// ---------------------------------------------------------------------------

/// Nothing but whitespace.
pub open spec fn blank(s: Seq<char>) -> bool {
    trim(s).len() == 0
}

/// What is wrong with the decision table, if anything.
pub open spec fn decisions_error(m: Map<PermissionClass, Decision>) -> Option<Seq<char>> {
    if decided_count(m) != 5 {
        Some("policy decisions must specify all five permission classes"@)
    } else if decision_for(m, PermissionClass::Unknown) != Some(Decision::Block) {
        Some("unknown behaviour must remain blocked"@)
    } else if exists|c: PermissionClass|
        c != PermissionClass::Necessary && #[trigger] m.contains_key(c) && m[c] == Decision::Allow {
        Some("consent classes cannot use an unconditional allow decision"@)
    } else {
        None
    }
}

/// Whether some earlier rule has the identity of `r`.
pub open spec fn identity_taken(earlier: Seq<PolicyRuleView>, r: PolicyRuleView) -> bool {
    exists|j: int|
        0 <= j < earlier.len() && spec_cookie_id(#[trigger] earlier[j].cookie) == spec_cookie_id(
            r.cookie,
        )
}

/// What is wrong with rule `r`, given the rules before it, if anything.
pub open spec fn rule_error(earlier: Seq<PolicyRuleView>, r: PolicyRuleView) -> Option<Seq<char>> {
    if blank(r.reason) {
        Some("policy rule requires an approval reason"@)
    } else if r.cookie.name is None || blank(r.cookie.name->0) {
        Some("unresolved cookie names cannot be approved"@)
    } else if blank(r.cookie.application) || blank(r.cookie.origin) {
        Some("policy identity requires application and origin"@)
    } else if identity_taken(earlier, r) {
        Some("duplicate policy identity; rules must not conflict"@)
    } else {
        None
    }
}

/// The first error among the rules, in order.
pub open spec fn rules_error(rules: Seq<PolicyRuleView>) -> Option<Seq<char>>
    decreases rules.len(),
{
    if rules.len() == 0 {
        None
    } else {
        match rules_error(rules.drop_last()) {
            Some(e) => Some(e),
            None => rule_error(rules.drop_last(), rules.last()),
        }
    }
}

/// The first reason the policy is refused, if any.
pub open spec fn policy_error(p: PolicyView) -> Option<Seq<char>> {
    if p.schema_version != SCHEMA_VERSION {
        Some("unsupported policy schema_version"@)
    } else {
        match decisions_error(p.decisions) {
            Some(e) => Some(e),
            None => rules_error(p.rules),
        }
    }
}

/// Whether the policy is accepted.
pub open spec fn policy_valid(p: PolicyView) -> bool {
    policy_error(p) is None
}

proof fn lemma_rules_error_prefix(rules: Seq<PolicyRuleView>, i: int)
    requires
        0 <= i < rules.len(),
        rules_error(rules.take(i)) is None,
    ensures
        rules_error(rules.take(i + 1)) == rule_error(rules.take(i), rules[i]),
{
    assert(rules.take(i + 1).drop_last() =~= rules.take(i));
}

proof fn lemma_rules_error_extends(rules: Seq<PolicyRuleView>, k: int)
    requires
        0 <= k <= rules.len(),
        rules_error(rules.take(k)) is Some,
    ensures
        rules_error(rules) == rules_error(rules.take(k)),
    decreases rules.len(),
{
    if k == rules.len() {
        assert(rules.take(k) =~= rules);
    } else {
        let init = rules.drop_last();
        assert(init.take(k) =~= rules.take(k));
        lemma_rules_error_extends(init, k);
    }
}

/// Whether `id` is among `ids`.
fn contains_id(ids: &Vec<String>, id: &String) -> (r: bool)
    ensures
        r == exists|j: int| 0 <= j < ids@.len() && (#[trigger] ids@[j])@ == id@,
{
    let mut j: usize = 0;
    while j < ids.len()
        invariant
            j <= ids@.len(),
            forall|m: int| 0 <= m < j ==> (#[trigger] ids@[m])@ != id@,
        decreases ids.len() - j,
    {
        if str_eq(ids[j].as_str(), id.as_str()) {
            return true;
        }
        j = j + 1;
    }
    false
}

/// A valid policy has no rule errors, and so distinct identities.
pub proof fn lemma_valid_rules_distinct(rules: Seq<PolicyRuleView>, i: int, j: int)
    requires
        rules_error(rules) is None,
        0 <= i < j < rules.len(),
    ensures
        spec_cookie_id(rules[i].cookie) != spec_cookie_id(rules[j].cookie),
    decreases rules.len(),
{
    let init = rules.drop_last();
    if j < rules.len() - 1 {
        lemma_valid_rules_distinct(init, i, j);
    } else {
        assert(init[i] == rules[i]);
        assert(rule_error(init, rules.last()) is None);
        assert(!identity_taken(init, rules.last()));
    }
}

impl Policy {
    /// Checks the policy, returning the first reason it is refused.
    pub fn validate(&self) -> (r: Result<(), String>)
        ensures
            r is Ok <==> policy_valid(self@),
            r matches Err(e) ==> policy_error(self@) == Some(e@),
    {
        if self.schema_version != SCHEMA_VERSION {
            return Err("unsupported policy schema_version".to_string());
        }
        if self.decisions.len() != 5 {
            return Err("policy decisions must specify all five permission classes".to_string());
        }
        match self.decisions.get(PermissionClass::Unknown) {
            Some(Decision::Block) => {},
            _ => {
                return Err("unknown behaviour must remain blocked".to_string());
            },
        }
        let classes = [
            PermissionClass::Necessary,
            PermissionClass::Preferences,
            PermissionClass::Analytics,
            PermissionClass::Marketing,
            PermissionClass::Unknown,
        ];
        let mut k: usize = 0;
        while k < 5
            invariant
                k <= 5,
                classes@ == all_classes(),
                self.schema_version == SCHEMA_VERSION,
                decided_count(self.decisions@) == 5,
                decision_for(self.decisions@, PermissionClass::Unknown) == Some(Decision::Block),
                forall|j: int|
                    0 <= j < k ==> !(classes@[j] != PermissionClass::Necessary
                        && self.decisions@.contains_key(classes@[j]) && self.decisions@[classes@[j]]
                        == Decision::Allow),
            decreases 5 - k,
        {
            let c = classes[k];
            let consent = match c {
                PermissionClass::Necessary => false,
                _ => true,
            };
            if consent && self.decisions.get(c) == Some(Decision::Allow) {
                return Err(
                    "consent classes cannot use an unconditional allow decision".to_string(),
                );
            }
            k = k + 1;
        }
        proof {
            assert forall|c: PermissionClass|
                !(c != PermissionClass::Necessary && #[trigger] self.decisions@.contains_key(c)
                    && self.decisions@[c] == Decision::Allow) by {
                match c {
                    PermissionClass::Necessary => {},
                    PermissionClass::Preferences => assert(classes@[1] == c),
                    PermissionClass::Analytics => assert(classes@[2] == c),
                    PermissionClass::Marketing => assert(classes@[3] == c),
                    PermissionClass::Unknown => assert(classes@[4] == c),
                }
            }
        }
        let mut ids: Vec<String> = Vec::new();
        let n = self.rules.len();
        let mut i: usize = 0;
        while i < n
            invariant
                n == self.rules@.len(),
                i <= n,
                decisions_error(self.decisions@) is None,
                self.schema_version == SCHEMA_VERSION,
                rules_error(rule_views(self.rules@).take(i as int)) is None,
                ids@.len() == i,
                forall|j: int|
                    0 <= j < i ==> (#[trigger] ids@[j])@ == spec_cookie_id(self.rules@[j].cookie@),
            decreases n - i,
        {
            let rule = &self.rules[i];
            let ghost views = rule_views(self.rules@);
            proof {
                lemma_rules_error_prefix(views, i as int);
                assert(views[i as int] == rule@);
                if rule_error(views.take(i as int), rule@) is Some {
                    lemma_rules_error_extends(views, i + 1);
                }
            }
            if is_blank(rule.reason.as_str()) {
                return Err("policy rule requires an approval reason".to_string());
            }
            let unnamed = match &rule.cookie.name {
                None => true,
                Some(name) => is_blank(name.as_str()),
            };
            if unnamed {
                return Err("unresolved cookie names cannot be approved".to_string());
            }
            if is_blank(rule.cookie.application.as_str()) || is_blank(rule.cookie.origin.as_str()) {
                return Err("policy identity requires application and origin".to_string());
            }
            let id = rule.cookie.id();
            let taken = contains_id(&ids, &id);
            proof {
                if taken {
                    let m = choose|m: int| 0 <= m < ids@.len() && (#[trigger] ids@[m])@ == id@;
                    assert(views.take(i as int)[m] == views[m]);
                    assert(views[m] == self.rules@[m]@);
                    assert(ids@[m]@ == spec_cookie_id(self.rules@[m].cookie@));
                    assert(spec_cookie_id(views.take(i as int)[m].cookie) == spec_cookie_id(
                        rule@.cookie,
                    ));
                    assert(identity_taken(views.take(i as int), rule@));
                }
                if identity_taken(views.take(i as int), rule@) {
                    let m = choose|m: int|
                        0 <= m < i && spec_cookie_id(#[trigger] views.take(i as int)[m].cookie)
                            == spec_cookie_id(rule@.cookie);
                    assert(views.take(i as int)[m] == views[m]);
                    assert(ids@[m]@ == id@);
                }
                if rule_error(views.take(i as int), rule@) is Some {
                    lemma_rules_error_extends(views, i + 1);
                }
            }
            if taken {
                return Err("duplicate policy identity; rules must not conflict".to_string());
            }
            ids.push(id);
            i = i + 1;
        }
        assert(rule_views(self.rules@).take(n as int) =~= rule_views(self.rules@));
        Ok(())
    }
}

// ---------------------------------------------------------------------------
// Canonical order of rules
// ---------------------------------------------------------------------------

/// The identifier a rule approves.
pub open spec fn rule_id(r: PolicyRuleView) -> Seq<char> {
    spec_cookie_id(r.cookie)
}

/// Inserts `r` after every rule whose identifier is not greater than its own.
pub open spec fn insert_by_id(sorted: Seq<PolicyRuleView>, r: PolicyRuleView) -> Seq<PolicyRuleView>
    decreases sorted.len(),
{
    if sorted.len() == 0 {
        seq![r]
    } else if str_lt(rule_id(r), rule_id(sorted[0])) {
        seq![r] + sorted
    } else {
        seq![sorted[0]] + insert_by_id(sorted.drop_first(), r)
    }
}

/// The rules in identifier order; rules with equal identifiers keep their order.
pub open spec fn sort_by_id(rules: Seq<PolicyRuleView>) -> Seq<PolicyRuleView>
    decreases rules.len(),
{
    if rules.len() == 0 {
        seq![]
    } else {
        insert_by_id(sort_by_id(rules.drop_last()), rules.last())
    }
}

/// Identifiers strictly increase along the rules.
pub open spec fn ids_increasing(rules: Seq<PolicyRuleView>) -> bool {
    forall|i: int, j: int|
        0 <= i < j < rules.len() ==> str_lt(rule_id(#[trigger] rules[i]), rule_id(#[trigger] rules[j]))
}

/// No two rules share an identifier.
pub open spec fn ids_distinct(rules: Seq<PolicyRuleView>) -> bool {
    forall|i: int, j: int|
        0 <= i < j < rules.len() ==> rule_id(#[trigger] rules[i]) != rule_id(#[trigger] rules[j])
}

/// Where `insert_by_id` places `r`.
pub open spec fn insertion_index(sorted: Seq<PolicyRuleView>, r: PolicyRuleView) -> int
    decreases sorted.len(),
{
    if sorted.len() == 0 {
        0
    } else if str_lt(rule_id(r), rule_id(sorted[0])) {
        0
    } else {
        1 + insertion_index(sorted.drop_first(), r)
    }
}

proof fn lemma_insert_shape(sorted: Seq<PolicyRuleView>, r: PolicyRuleView)
    ensures
        0 <= insertion_index(sorted, r) <= sorted.len(),
        insert_by_id(sorted, r) == sorted.take(insertion_index(sorted, r)) + seq![r] + sorted.skip(
            insertion_index(sorted, r),
        ),
        forall|j: int|
            0 <= j < insertion_index(sorted, r) ==> !str_lt(rule_id(r), rule_id(#[trigger] sorted[j])),
        insertion_index(sorted, r) < sorted.len() ==> str_lt(
            rule_id(r),
            rule_id(sorted[insertion_index(sorted, r)]),
        ),
    decreases sorted.len(),
{
    let p = insertion_index(sorted, r);
    if sorted.len() == 0 {
        assert(insert_by_id(sorted, r) =~= sorted.take(0) + seq![r] + sorted.skip(0));
    } else if str_lt(rule_id(r), rule_id(sorted[0])) {
        assert(insert_by_id(sorted, r) =~= sorted.take(0) + seq![r] + sorted.skip(0));
    } else {
        let rest = sorted.drop_first();
        lemma_insert_shape(rest, r);
        let q = insertion_index(rest, r);
        assert(p == q + 1);
        assert(insert_by_id(sorted, r) =~= sorted.take(p) + seq![r] + sorted.skip(p));
        assert forall|j: int| 0 <= j < p implies !str_lt(rule_id(r), rule_id(#[trigger] sorted[j])) by {
            if j > 0 {
                assert(sorted[j] == rest[j - 1]);
            }
        }
        if p < sorted.len() {
            assert(sorted[p] == rest[q]);
        }
    }
}

/// The first position whose identifier is greater than that of `r` is where
/// `insert_by_id` places `r`.
proof fn lemma_insertion_index_unique(sorted: Seq<PolicyRuleView>, r: PolicyRuleView, p: int)
    requires
        0 <= p <= sorted.len(),
        forall|j: int| 0 <= j < p ==> !str_lt(rule_id(r), rule_id(#[trigger] sorted[j])),
        p < sorted.len() ==> str_lt(rule_id(r), rule_id(sorted[p])),
    ensures
        insertion_index(sorted, r) == p,
{
    lemma_insert_shape(sorted, r);
    let q = insertion_index(sorted, r);
    if q < p {
        assert(!str_lt(rule_id(r), rule_id(sorted[q])));
    } else if p < q {
        assert(!str_lt(rule_id(r), rule_id(sorted[p])));
    }
}

proof fn lemma_insert_multiset(sorted: Seq<PolicyRuleView>, r: PolicyRuleView)
    ensures
        insert_by_id(sorted, r).to_multiset() == sorted.to_multiset().insert(r),
{
    broadcast use vstd::multiset::group_multiset_axioms;
    broadcast use vstd::seq_lib::group_to_multiset_ensures;

    lemma_insert_shape(sorted, r);
    let p = insertion_index(sorted, r);
    let a = sorted.take(p);
    let b = sorted.skip(p);
    assert(sorted =~= a + b);
    vstd::seq_lib::lemma_multiset_commutative(a + seq![r], b);
    vstd::seq_lib::lemma_multiset_commutative(a, seq![r]);
    vstd::seq_lib::lemma_multiset_commutative(a, b);
    assert(seq![r] =~= Seq::<PolicyRuleView>::empty().push(r));
    assert(insert_by_id(sorted, r).to_multiset() =~= sorted.to_multiset().insert(r));
}

proof fn lemma_insert_increasing(sorted: Seq<PolicyRuleView>, r: PolicyRuleView)
    requires
        ids_increasing(sorted),
        forall|j: int| 0 <= j < sorted.len() ==> rule_id(#[trigger] sorted[j]) != rule_id(r),
    ensures
        ids_increasing(insert_by_id(sorted, r)),
{
    lemma_insert_shape(sorted, r);
    let p = insertion_index(sorted, r);
    let out = insert_by_id(sorted, r);
    assert forall|i: int, j: int| 0 <= i < j < out.len() implies str_lt(
        rule_id(#[trigger] out[i]),
        rule_id(#[trigger] out[j]),
    ) by {
        let ii = if i < p {
            i
        } else {
            i - 1
        };
        let jj = if j < p {
            j
        } else {
            j - 1
        };
        if i < p {
            assert(out[i] == sorted[i]);
        }
        if j < p {
            assert(out[j] == sorted[j]);
        }
        if i > p {
            assert(out[i] == sorted[ii]);
        }
        if j > p {
            assert(out[j] == sorted[jj]);
        }
        if i == p {
            assert(out[i] == r);
            // r is below sorted[p], which is not above sorted[jj]
            assert(str_lt(rule_id(r), rule_id(sorted[p])));
            if jj > p {
                lemma_str_lt_order(rule_id(r), rule_id(sorted[p]), rule_id(sorted[jj]));
            }
        } else if j == p {
            assert(out[j] == r);
            assert(!str_lt(rule_id(r), rule_id(sorted[i])));
            lemma_str_lt_order(rule_id(r), rule_id(sorted[i]), rule_id(r));
        }
    }
}

proof fn lemma_sort_contents(rules: Seq<PolicyRuleView>)
    ensures
        sort_by_id(rules).to_multiset() == rules.to_multiset(),
        sort_by_id(rules).len() == rules.len(),
    decreases rules.len(),
{
    broadcast use vstd::seq_lib::group_to_multiset_ensures;

    if rules.len() > 0 {
        let init = rules.drop_last();
        lemma_sort_contents(init);
        lemma_insert_multiset(sort_by_id(init), rules.last());
        assert(rules =~= init.push(rules.last()));
        lemma_insert_shape(sort_by_id(init), rules.last());
    }
}

proof fn lemma_sort_increasing(rules: Seq<PolicyRuleView>)
    requires
        ids_distinct(rules),
    ensures
        ids_increasing(sort_by_id(rules)),
    decreases rules.len(),
{
    broadcast use vstd::seq_lib::group_to_multiset_ensures;
    broadcast use vstd::multiset::group_multiset_axioms;

    if rules.len() > 0 {
        let init = rules.drop_last();
        let last = rules.last();
        assert(ids_distinct(init)) by {
            assert forall|i: int, j: int| 0 <= i < j < init.len() implies rule_id(
                #[trigger] init[i],
            ) != rule_id(#[trigger] init[j]) by {
                assert(init[i] == rules[i]);
                assert(init[j] == rules[j]);
            }
        }
        lemma_sort_increasing(init);
        lemma_sort_contents(init);
        let sorted = sort_by_id(init);
        assert forall|j: int| 0 <= j < sorted.len() implies rule_id(#[trigger] sorted[j]) != rule_id(
            last,
        ) by {
            assert(sorted.to_multiset().count(sorted[j]) > 0);
            assert(init.to_multiset().count(sorted[j]) > 0);
            assert(init.contains(sorted[j]));
            let k = choose|k: int| 0 <= k < init.len() && init[k] == sorted[j];
            assert(init[k] == rules[k]);
            assert(rules.len() - 1 == init.len());
            assert(rules[rules.len() - 1] == last);
        }
        lemma_insert_increasing(sorted, last);
    }
}

/// Two rule lists in strictly increasing identifier order with the same rules are
/// the same list.
pub proof fn lemma_increasing_unique(x: Seq<PolicyRuleView>, y: Seq<PolicyRuleView>)
    requires
        ids_increasing(x),
        ids_increasing(y),
        x.to_multiset() == y.to_multiset(),
    ensures
        x == y,
    decreases x.len(),
{
    broadcast use vstd::multiset::group_multiset_axioms;
    broadcast use vstd::seq_lib::group_to_multiset_ensures;

    if x.len() == 0 || y.len() == 0 {
        if x.len() != 0 {
            assert(x.to_multiset().count(x[0]) > 0);
            assert(y.to_multiset().len() == 0);
        }
        if y.len() != 0 {
            assert(y.to_multiset().count(y[0]) > 0);
            assert(x.to_multiset().len() == 0);
        }
        assert(x =~= y);
    } else {
        assert(x.to_multiset().count(x[0]) > 0);
        assert(y.contains(x[0]));
        let i = choose|i: int| 0 <= i < y.len() && y[i] == x[0];
        assert(y.to_multiset().count(y[0]) > 0);
        assert(x.contains(y[0]));
        let k = choose|k: int| 0 <= k < x.len() && x[k] == y[0];
        if i > 0 {
            assert(str_lt(rule_id(y[0]), rule_id(y[i])));
            if k > 0 {
                assert(str_lt(rule_id(x[0]), rule_id(x[k])));
                lemma_str_lt_order(rule_id(x[0]), rule_id(y[0]), rule_id(x[0]));
            } else {
                lemma_str_lt_order(rule_id(x[0]), rule_id(x[0]), rule_id(x[0]));
            }
        }
        assert(x[0] == y[0]);
        assert(x.drop_first().to_multiset() =~= x.to_multiset().remove(x[0])) by {
            assert(x.remove(0) =~= x.drop_first());
        }
        assert(y.drop_first().to_multiset() =~= y.to_multiset().remove(y[0])) by {
            assert(y.remove(0) =~= y.drop_first());
        }
        assert(ids_increasing(x.drop_first())) by {
            assert forall|a: int, b: int| 0 <= a < b < x.drop_first().len() implies str_lt(
                rule_id(#[trigger] x.drop_first()[a]),
                rule_id(#[trigger] x.drop_first()[b]),
            ) by {
                assert(x.drop_first()[a] == x[a + 1]);
                assert(x.drop_first()[b] == x[b + 1]);
            }
        }
        assert(ids_increasing(y.drop_first())) by {
            assert forall|a: int, b: int| 0 <= a < b < y.drop_first().len() implies str_lt(
                rule_id(#[trigger] y.drop_first()[a]),
                rule_id(#[trigger] y.drop_first()[b]),
            ) by {
                assert(y.drop_first()[a] == y[a + 1]);
                assert(y.drop_first()[b] == y[b + 1]);
            }
        }
        lemma_increasing_unique(x.drop_first(), y.drop_first());
        assert(x =~= seq![x[0]] + x.drop_first());
        assert(y =~= seq![y[0]] + y.drop_first());
    }
}

/// Rule order does not affect the canonical order: lists of the same rules, each
/// identity at most once, sort to the same list.
pub proof fn lemma_sort_by_id_ignores_order(a: Seq<PolicyRuleView>, b: Seq<PolicyRuleView>)
    requires
        ids_distinct(a),
        ids_distinct(b),
        a.to_multiset() == b.to_multiset(),
    ensures
        sort_by_id(a) == sort_by_id(b),
{
    lemma_sort_contents(a);
    lemma_sort_contents(b);
    lemma_sort_increasing(a);
    lemma_sort_increasing(b);
    lemma_increasing_unique(sort_by_id(a), sort_by_id(b));
}

/// The first position whose identifier is greater than `id`.
fn insertion_point(ids: &Vec<String>, id: &String) -> (p: usize)
    ensures
        p <= ids@.len(),
        forall|j: int| 0 <= j < p ==> !str_lt(id@, (#[trigger] ids@[j])@),
        p < ids@.len() ==> str_lt(id@, ids@[p as int]@),
{
    let mut p: usize = 0;
    while p < ids.len()
        invariant
            p <= ids@.len(),
            forall|j: int| 0 <= j < p ==> !str_lt(id@, (#[trigger] ids@[j])@),
        decreases ids.len() - p,
    {
        if compare_str(id.as_str(), ids[p].as_str()) == Cmp::Less {
            return p;
        }
        p = p + 1;
    }
    p
}

/// A copy of the rules in identifier order (a stable sort by identifier).
pub fn sorted_by_id(rules: &Vec<PolicyRule>) -> (out: Vec<PolicyRule>)
    ensures
        rule_views(out@) == sort_by_id(rule_views(rules@)),
{
    let mut out: Vec<PolicyRule> = Vec::new();
    let mut ids: Vec<String> = Vec::new();
    let n = rules.len();
    let mut i: usize = 0;
    while i < n
        invariant
            n == rules@.len(),
            i <= n,
            rule_views(out@) == sort_by_id(rule_views(rules@).take(i as int)),
            ids@.len() == out@.len(),
            forall|k: int| 0 <= k < ids@.len() ==> (#[trigger] ids@[k])@ == rule_id(out@[k]@),
        decreases n - i,
    {
        let rule = rules[i].clone();
        let id = rule.cookie.id();
        let p = insertion_point(&ids, &id);
        let ghost before = rule_views(out@);
        proof {
            let views = rule_views(rules@);
            assert(views.take(i + 1).drop_last() =~= views.take(i as int));
            assert(views.take(i + 1).last() == rule@);
            assert forall|j: int| 0 <= j < p implies !str_lt(
                rule_id(rule@),
                rule_id(#[trigger] before[j]),
            ) by {
                assert(ids@[j]@ == rule_id(out@[j]@));
            }
            if p < ids@.len() {
                assert(ids@[p as int]@ == rule_id(out@[p as int]@));
            }
            lemma_insertion_index_unique(before, rule@, p as int);
            lemma_insert_shape(before, rule@);
        }
        out.insert(p, rule);
        ids.insert(p, id);
        proof {
            assert(rule_views(out@) =~= before.take(p as int) + seq![rules@[i as int]@] + before.skip(
                p as int,
            ));
            assert forall|k: int| 0 <= k < ids@.len() implies (#[trigger] ids@[k])@ == rule_id(
                out@[k]@,
            ) by {
                if k < p {
                } else if k > p {
                }
            }
        }
        i = i + 1;
    }
    assert(rule_views(rules@).take(n as int) =~= rule_views(rules@));
    out
}

// ---------------------------------------------------------------------------
// Canonical encoding and fingerprint
// ---------------------------------------------------------------------------

/// A rule as JSON.
pub open spec fn rule_json(r: PolicyRuleView) -> Seq<u8> {
    json_object(
        seq![
            json_field("cookie"@, identity_json(r.cookie)),
            json_field("category"@, json_str(class_key(r.category))),
            json_field("reason"@, json_str(r.reason)),
        ],
    )
}

/// The entry of class `c` in the decisions object, if the table decides it.
pub open spec fn decision_entry(m: Map<PermissionClass, Decision>, c: PermissionClass) -> Seq<
    Seq<u8>,
> {
    if m.contains_key(c) {
        seq![json_field(class_key(c), json_str(decision_key(m[c])))]
    } else {
        seq![]
    }
}

/// The decisions as a JSON object, in class order.
pub open spec fn decisions_json(m: Map<PermissionClass, Decision>) -> Seq<u8> {
    json_object(
        decision_entry(m, PermissionClass::Necessary) + decision_entry(m, PermissionClass::Preferences)
            + decision_entry(m, PermissionClass::Analytics) + decision_entry(
            m,
            PermissionClass::Marketing,
        ) + decision_entry(m, PermissionClass::Unknown),
    )
}

/// A policy as JSON, its rules in the given order.
pub open spec fn policy_json(
    schema_version: u32,
    decisions: Map<PermissionClass, Decision>,
    rules: Seq<PolicyRuleView>,
) -> Seq<u8> {
    json_object(
        seq![
            json_field("schema_version"@, json_uint(schema_version as nat)),
            json_field("decisions"@, decisions_json(decisions)),
            json_field("rules"@, json_array(rules.map_values(|r: PolicyRuleView| rule_json(r)))),
        ],
    )
}

/// The fingerprint of a policy: SHA-256 of its canonical JSON, with the rules in
/// identifier order.
pub open spec fn spec_fingerprint(p: PolicyView) -> Seq<char> {
    hex_lower(spec_sha256(canonical_policy_json(p)))
}

/// The canonical JSON of a policy, which its fingerprint digests: the rules in
/// identifier order.
pub open spec fn canonical_policy_json(p: PolicyView) -> Seq<u8> {
    policy_json(p.schema_version, p.decisions, sort_by_id(p.rules))
}

/// Appends a rule as JSON.
fn put_rule(out: &mut Vec<u8>, r: &PolicyRule)
    ensures
        final(out)@ == old(out)@ + rule_json(r@),
{
    let ghost start = out@;
    put(out, 0x7b);
    let ghost a0 = out@;
    put_key(out, "cookie");
    put_identity(out, &r.cookie);
    assert(out@ =~= a0 + json_field("cookie"@, identity_json(r@.cookie)));
    put(out, 0x2c);
    put_str_field(out, "category", class_key_str(r.category));
    put(out, 0x2c);
    put_str_field(out, "reason", r.reason.as_str());
    put(out, 0x7d);
    proof {
        lemma_object3(
            json_field("cookie"@, identity_json(r@.cookie)),
            json_field("category"@, json_str(class_key(r@.category))),
            json_field("reason"@, json_str(r@.reason)),
        );
        assert(final(out)@ =~= start + rule_json(r@));
    }
}

/// Appends the entry of class `c`, if decided, after the entries `items` already in place.
fn put_decision_entry(
    out: &mut Vec<u8>,
    t: &DecisionTable,
    c: PermissionClass,
    first: &mut bool,
    Ghost(start): Ghost<Seq<u8>>,
    Ghost(items): Ghost<Seq<Seq<u8>>>,
) -> (next: Ghost<Seq<Seq<u8>>>)
    requires
        old(out)@ == start + seq![0x7bu8] + json_list(items),
        *old(first) == (items.len() == 0),
    ensures
        *final(first) == (next@.len() == 0),
        next@ == items + decision_entry(t@, c),
        final(out)@ == start + seq![0x7bu8] + json_list(next@),
{
    match t.get(c) {
        None => {
            assert(items + decision_entry(t@, c) =~= items);
            Ghost(items)
        },
        Some(d) => {
            let ghost before = out@;
            put_separator(out, *first);
            *first = false;
            put_str_field(out, class_key_str(c), decision_key_str(d));
            let ghost x = json_field(class_key(c), json_str(decision_key(d)));
            proof {
                lemma_json_list_push(items, x);
                assert(items + decision_entry(t@, c) =~= items.push(x));
                assert(out@ =~= start + seq![0x7bu8] + json_list(items.push(x)));
            }
            Ghost(items.push(x))
        },
    }
}

/// Appends the decisions as a JSON object.
fn put_decisions(out: &mut Vec<u8>, t: &DecisionTable)
    ensures
        final(out)@ == old(out)@ + decisions_json(t@),
{
    let ghost start = out@;
    put(out, 0x7b);
    let ghost empty = Seq::<Seq<u8>>::empty();
    assert(out@ =~= start + seq![0x7bu8] + json_list(empty));
    let mut first = true;
    let Ghost(a) = put_decision_entry(
        out,
        t,
        PermissionClass::Necessary,
        &mut first,
        Ghost(start),
        Ghost(empty),
    );
    let Ghost(b) = put_decision_entry(
        out,
        t,
        PermissionClass::Preferences,
        &mut first,
        Ghost(start),
        Ghost(a),
    );
    let Ghost(c) = put_decision_entry(
        out,
        t,
        PermissionClass::Analytics,
        &mut first,
        Ghost(start),
        Ghost(b),
    );
    let Ghost(d) = put_decision_entry(
        out,
        t,
        PermissionClass::Marketing,
        &mut first,
        Ghost(start),
        Ghost(c),
    );
    let Ghost(e) = put_decision_entry(
        out,
        t,
        PermissionClass::Unknown,
        &mut first,
        Ghost(start),
        Ghost(d),
    );
    put(out, 0x7d);
    assert(e =~= decision_entry(t@, PermissionClass::Necessary) + decision_entry(
        t@,
        PermissionClass::Preferences,
    ) + decision_entry(t@, PermissionClass::Analytics) + decision_entry(
        t@,
        PermissionClass::Marketing,
    ) + decision_entry(t@, PermissionClass::Unknown));
    assert(final(out)@ =~= start + decisions_json(t@));
}

/// Appends the rules as a JSON array.
fn put_rules(out: &mut Vec<u8>, rules: &Vec<PolicyRule>)
    ensures
        final(out)@ == old(out)@ + json_array(
            rule_views(rules@).map_values(|r: PolicyRuleView| rule_json(r)),
        ),
{
    let ghost start = out@;
    let ghost items = rule_views(rules@).map_values(|r: PolicyRuleView| rule_json(r));
    put(out, 0x5b);
    let mut i: usize = 0;
    while i < rules.len()
        invariant
            i <= rules@.len(),
            items == rule_views(rules@).map_values(|r: PolicyRuleView| rule_json(r)),
            out@ == start + seq![0x5bu8] + json_list(items.take(i as int)),
        decreases rules.len() - i,
    {
        put_separator(out, i == 0);
        put_rule(out, &rules[i]);
        proof {
            assert(items.take(i + 1) =~= items.take(i as int).push(items[i as int]));
            lemma_json_list_push(items.take(i as int), items[i as int]);
            assert(items[i as int] == rule_json(rules@[i as int]@));
            assert(out@ =~= start + seq![0x5bu8] + json_list(items.take(i + 1)));
        }
        i = i + 1;
    }
    assert(items.take(i as int) =~= items);
    put(out, 0x5d);
    assert(final(out)@ =~= start + json_array(items));
}

/// The JSON of a policy with the given rules.
fn policy_bytes(schema_version: u32, decisions: &DecisionTable, rules: &Vec<PolicyRule>) -> (out: Vec<u8>)
    ensures
        out@ == policy_json(schema_version, decisions@, rule_views(rules@)),
{
    let mut out: Vec<u8> = Vec::new();
    put(&mut out, 0x7b);
    let ghost a0 = out@;
    put_key(&mut out, "schema_version");
    put_uint(&mut out, schema_version as usize);
    let ghost a1 = out@;
    put(&mut out, 0x2c);
    put_key(&mut out, "decisions");
    put_decisions(&mut out, decisions);
    let ghost a2 = out@;
    put(&mut out, 0x2c);
    put_key(&mut out, "rules");
    put_rules(&mut out, rules);
    let ghost a3 = out@;
    put(&mut out, 0x7d);
    proof {
        let f0 = json_field("schema_version"@, json_uint(schema_version as nat));
        let f1 = json_field("decisions"@, decisions_json(decisions@));
        let f2 = json_field(
            "rules"@,
            json_array(rule_views(rules@).map_values(|r: PolicyRuleView| rule_json(r))),
        );
        assert(a1 =~= a0 + f0);
        assert(a2 =~= a1 + seq![0x2cu8] + f1);
        assert(a3 =~= a2 + seq![0x2cu8] + f2);
        lemma_object3(f0, f1, f2);
        assert(out@ =~= policy_json(schema_version, decisions@, rule_views(rules@)));
    }
    out
}

impl Policy {
    /// The SHA-256 fingerprint of the canonical policy; the policy must be valid.
    /// Rule order does not affect the meaning of the policy, so rules are
    /// encoded in identifier order.
    pub fn fingerprint(&self) -> (r: Result<String, String>)
        ensures
            r is Ok <==> policy_valid(self@),
            r matches Ok(s) ==> s@ == spec_fingerprint(self@) && s@.len() == 64,
            r matches Err(e) ==> policy_error(self@) == Some(e@),
    {
        self.validate()?;
        let canonical = sorted_by_id(&self.rules);
        let bytes = policy_bytes(self.schema_version, &self.decisions, &canonical);
        Ok(sha256(bytes.as_slice()))
    }
}

/// Rule order does not affect the fingerprint: two valid policies with the same
/// schema, the same decisions and the same rules have the same fingerprint.
pub proof fn lemma_fingerprint_ignores_rule_order(p: PolicyView, q: PolicyView)
    requires
        policy_valid(p),
        policy_valid(q),
        p.schema_version == q.schema_version,
        p.decisions == q.decisions,
        p.rules.to_multiset() == q.rules.to_multiset(),
    ensures
        spec_fingerprint(p) == spec_fingerprint(q),
{
    assert(ids_distinct(p.rules)) by {
        assert forall|i: int, j: int| 0 <= i < j < p.rules.len() implies rule_id(
            #[trigger] p.rules[i],
        ) != rule_id(#[trigger] p.rules[j]) by {
            lemma_valid_rules_distinct(p.rules, i, j);
        }
    }
    assert(ids_distinct(q.rules)) by {
        assert forall|i: int, j: int| 0 <= i < j < q.rules.len() implies rule_id(
            #[trigger] q.rules[i],
        ) != rule_id(#[trigger] q.rules[j]) by {
            lemma_valid_rules_distinct(q.rules, i, j);
        }
    }
    lemma_sort_by_id_ignores_order(p.rules, q.rules);
}

// ---------------------------------------------------------------------------
// Classification and assessment
// ---------------------------------------------------------------------------

/// The explanation attached to lexical evidence whose purpose is not established.
pub open spec fn unestablished_detail() -> Seq<char> {
    "Cookie purpose is not established by its name or lexical API access"@
}

/// Lexical evidence, explained as not establishing a purpose.
pub open spec fn unestablished(e: EvidenceView) -> EvidenceView {
    EvidenceView {
        source: e.source,
        method: e.method,
        confidence: e.confidence,
        location: e.location,
        timestamp: e.timestamp,
        content_sha256: e.content_sha256,
        detail: unestablished_detail(),
    }
}

/// The deterministic classification: a name or a lexical access never establishes
/// a purpose, so every finding is of unknown class, with its own evidence.
pub open spec fn spec_classify(f: FindingView) -> FindingView {
    FindingView {
        classification: ClassificationView {
            value: PermissionClass::Unknown,
            confidence: Confidence::Unknown,
            method: Method::StaticRule,
            evidence: f.evidence.map_values(|e: EvidenceView| unestablished(e)),
        },
        ..f
    }
}

/// Classifies every finding as of unknown purpose.
#[derive(Default)]
pub struct DeterministicClassifier;

fn unestablished_evidence(v: &Vec<Evidence>) -> (r: Vec<Evidence>)
    ensures
        evidence_views(r@) == evidence_views(v@).map_values(|e: EvidenceView| unestablished(e)),
{
    let mut r: Vec<Evidence> = Vec::new();
    let mut i: usize = 0;
    while i < v.len()
        invariant
            i <= v@.len(),
            r@.len() == i,
            forall|k: int| 0 <= k < i ==> #[trigger] r@[k]@ == unestablished(v@[k]@),
        decreases v.len() - i,
    {
        let e = &v[i];
        r.push(
            Evidence {
                source: e.source.clone(),
                method: e.method,
                confidence: e.confidence,
                location: copy_opt_location(&e.location),
                timestamp: e.timestamp,
                content_sha256: e.content_sha256.clone(),
                detail: "Cookie purpose is not established by its name or lexical API access".to_string(),
            },
        );
        i = i + 1;
    }
    assert(evidence_views(r@) =~= evidence_views(v@).map_values(
        |e: EvidenceView| unestablished(e),
    ));
    r
}

impl Classifier for DeterministicClassifier {
    fn classify(&self, finding: &Finding) -> (r: Finding)
        ensures
            r@ == spec_classify(finding@),
    {
        let mut result = finding.clone();
        result.classification = Classification {
            value: PermissionClass::Unknown,
            confidence: Confidence::Unknown,
            method: Method::StaticRule,
            evidence: unestablished_evidence(&finding.evidence),
        };
        result
    }
}

/// The reason recorded when no rule approves a finding.
pub open spec fn no_rule_reason() -> Seq<char> {
    "No reviewed policy rule matches the full cookie identity"@
}

/// The evidence a reviewed rule contributes.
pub open spec fn policy_evidence(digest: Seq<char>, timestamp: Option<u64>, reason: Seq<char>) -> EvidenceView {
    EvidenceView {
        source: "user-policy"@,
        method: Method::UserPolicy,
        confidence: Confidence::Confirmed,
        location: None,
        timestamp: timestamp,
        content_sha256: digest,
        detail: reason,
    }
}

/// The finding as classified, then as a matching rule classifies it.
pub open spec fn classified_finding(
    f: FindingView,
    rule: Option<PolicyRuleView>,
    digest: Seq<char>,
    timestamp: Option<u64>,
) -> FindingView {
    let c = spec_classify(f);
    match rule {
        Some(r) => FindingView {
            classification: ClassificationView {
                value: r.category,
                confidence: Confidence::Confirmed,
                method: Method::UserPolicy,
                evidence: seq![policy_evidence(digest, timestamp, r.reason)],
            },
            ..c
        },
        None => c,
    }
}

/// The decision of a table for a class, blocking what it does not decide.
pub open spec fn decide(m: Map<PermissionClass, Decision>, c: PermissionClass) -> Decision {
    match decision_for(m, c) {
        Some(d) => d,
        None => Decision::Block,
    }
}

/// The assessment of a finding, given the rule that approves it, if any.
pub open spec fn spec_assess_with_rule(
    decisions: Map<PermissionClass, Decision>,
    f: FindingView,
    rule: Option<PolicyRuleView>,
    digest: Seq<char>,
    timestamp: Option<u64>,
) -> AssessmentView {
    let finding = classified_finding(f, rule, digest, timestamp);
    AssessmentView {
        finding: finding,
        decision: decide(decisions, finding.classification.value),
        reason: match rule {
            Some(r) => r.reason,
            None => no_rule_reason(),
        },
        gated: false,
    }
}

/// The first rule for exactly this identity.
pub open spec fn rule_for_identity(rules: Seq<PolicyRuleView>, c: CookieIdentityView) -> Option<
    PolicyRuleView,
>
    decreases rules.len(),
{
    if rules.len() == 0 {
        None
    } else if rules[0].cookie == c {
        Some(rules[0])
    } else {
        rule_for_identity(rules.drop_first(), c)
    }
}

/// The first rule with identifier `id`.
pub open spec fn rule_for_id(rules: Seq<PolicyRuleView>, id: Seq<char>) -> Option<PolicyRuleView>
    decreases rules.len(),
{
    if rules.len() == 0 {
        None
    } else if rule_id(rules[0]) == id {
        Some(rules[0])
    } else {
        rule_for_id(rules.drop_first(), id)
    }
}

proof fn lemma_skip_step(rules: Seq<PolicyRuleView>, i: int)
    requires
        0 <= i < rules.len(),
    ensures
        rules.skip(i).len() > 0,
        rules.skip(i)[0] == rules[i],
        rules.skip(i).drop_first() == rules.skip(i + 1),
{
    assert(rules.skip(i).drop_first() =~= rules.skip(i + 1));
}

/// The position of the first rule for exactly this identity.
fn find_rule_for_identity(rules: &Vec<PolicyRule>, c: &CookieIdentity) -> (r: Option<usize>)
    ensures
        match r {
            Some(i) => i < rules@.len() && rule_for_identity(rule_views(rules@), c@) == Some(
                rules@[i as int]@,
            ),
            None => rule_for_identity(rule_views(rules@), c@) is None,
        },
{
    let ghost views = rule_views(rules@);
    let mut i: usize = 0;
    assert(views.skip(0) =~= views);
    while i < rules.len()
        invariant
            i <= rules@.len(),
            views == rule_views(rules@),
            rule_for_identity(views, c@) == rule_for_identity(views.skip(i as int), c@),
        decreases rules.len() - i,
    {
        proof {
            lemma_skip_step(views, i as int);
        }
        if rules[i].cookie.same_identity(c) {
            return Some(i);
        }
        i = i + 1;
    }
    None
}

/// The position of the first rule with identifier `id`, given the identifiers of the rules.
fn find_rule_for_id(rules: &Vec<PolicyRule>, ids: &Vec<String>, id: &String) -> (r: Option<usize>)
    requires
        ids@.len() == rules@.len(),
        forall|k: int| 0 <= k < ids@.len() ==> (#[trigger] ids@[k])@ == rule_id(rules@[k]@),
    ensures
        match r {
            Some(i) => i < rules@.len() && rule_for_id(rule_views(rules@), id@) == Some(
                rules@[i as int]@,
            ),
            None => rule_for_id(rule_views(rules@), id@) is None,
        },
{
    let ghost views = rule_views(rules@);
    let mut i: usize = 0;
    assert(views.skip(0) =~= views);
    while i < ids.len()
        invariant
            i <= rules@.len(),
            ids@.len() == rules@.len(),
            forall|k: int| 0 <= k < ids@.len() ==> (#[trigger] ids@[k])@ == rule_id(rules@[k]@),
            views == rule_views(rules@),
            rule_for_id(views, id@) == rule_for_id(views.skip(i as int), id@),
        decreases ids.len() - i,
    {
        proof {
            lemma_skip_step(views, i as int);
            assert(ids@[i as int]@ == rule_id(views[i as int]));
        }
        if str_eq(ids[i].as_str(), id.as_str()) {
            return Some(i);
        }
        i = i + 1;
    }
    None
}

impl Policy {
    fn assess_with_rule(
        &self,
        finding: Finding,
        rule: Option<&PolicyRule>,
        digest: &str,
        timestamp: Option<u64>,
    ) -> (a: Assessment)
        ensures
            a@ == spec_assess_with_rule(
                self@.decisions,
                finding@,
                match rule {
                    Some(r) => Some(r@),
                    None => None,
                },
                digest@,
                timestamp,
            ),
    {
        let mut finding = DeterministicClassifier.classify(&finding);
        let reason;
        match rule {
            Some(rule) => {
                reason = rule.reason.clone();
                let evidence = Evidence {
                    source: "user-policy".to_string(),
                    method: Method::UserPolicy,
                    confidence: Confidence::Confirmed,
                    location: None,
                    timestamp: timestamp,
                    content_sha256: digest.to_string(),
                    detail: reason.clone(),
                };
                let mut list: Vec<Evidence> = Vec::new();
                list.push(evidence);
                finding.classification = Classification {
                    value: rule.category,
                    confidence: Confidence::Confirmed,
                    method: Method::UserPolicy,
                    evidence: list,
                };
                assert(evidence_views(finding.classification.evidence@) =~= seq![
                    policy_evidence(digest@, timestamp, rule@.reason),
                ]);
            },
            None => {
                reason = "No reviewed policy rule matches the full cookie identity".to_string();
            },
        }
        let decision = match self.decisions.get(finding.classification.value) {
            Some(d) => d,
            None => Decision::Block,
        };
        Assessment { finding, decision, reason, gated: false }
    }

    /// Assesses one finding against the rule for exactly its identity.
    pub fn assess(&self, finding: Finding, timestamp: Option<u64>) -> (r: Result<Assessment, String>)
        ensures
            r is Ok <==> policy_valid(self@),
            r matches Ok(a) ==> a@ == spec_assess_with_rule(
                self@.decisions,
                finding@,
                rule_for_identity(self@.rules, finding@.cookie),
                spec_fingerprint(self@),
                timestamp,
            ),
            r matches Err(e) ==> policy_error(self@) == Some(e@),
    {
        let digest = self.fingerprint()?;
        let found = find_rule_for_identity(&self.rules, &finding.cookie);
        let rule = match found {
            Some(i) => Some(&self.rules[i]),
            None => None,
        };
        Ok(self.assess_with_rule(finding, rule, digest.as_str(), timestamp))
    }

    /// Resolves the policy once per batch, not once per behaviour: assesses each
    /// finding against the rule with its identifier.
    pub fn assess_all(&self, findings: Vec<Finding>, timestamp: Option<u64>) -> (r: Result<
        Vec<Assessment>,
        String,
    >)
        ensures
            r is Ok <==> policy_valid(self@),
            r matches Ok(v) ==> v@.len() == findings@.len() && forall|k: int|
                0 <= k < findings@.len() ==> (#[trigger] v@[k])@ == spec_assess_with_rule(
                    self@.decisions,
                    findings@[k]@,
                    rule_for_id(self@.rules, spec_cookie_id(findings@[k]@.cookie)),
                    spec_fingerprint(self@),
                    timestamp,
                ),
            r matches Err(e) ==> policy_error(self@) == Some(e@),
    {
        let digest = self.fingerprint()?;
        let mut ids: Vec<String> = Vec::new();
        let mut j: usize = 0;
        while j < self.rules.len()
            invariant
                j <= self.rules@.len(),
                ids@.len() == j,
                forall|k: int| 0 <= k < j ==> (#[trigger] ids@[k])@ == rule_id(self.rules@[k]@),
            decreases self.rules.len() - j,
        {
            ids.push(self.rules[j].cookie.id());
            j = j + 1;
        }
        let mut out: Vec<Assessment> = Vec::new();
        let mut findings = findings;
        let ghost all = findings@;
        let mut i: usize = 0;
        let n = findings.len();
        while i < n
            invariant
                n == all.len(),
                i <= n,
                findings@ == all.skip(i as int),
                out@.len() == i,
                ids@.len() == self.rules@.len(),
                forall|k: int| 0 <= k < ids@.len() ==> (#[trigger] ids@[k])@ == rule_id(self.rules@[k]@),
                digest@ == spec_fingerprint(self@),
                forall|k: int|
                    0 <= k < i ==> (#[trigger] out@[k])@ == spec_assess_with_rule(
                        self@.decisions,
                        all[k]@,
                        rule_for_id(self@.rules, spec_cookie_id(all[k]@.cookie)),
                        spec_fingerprint(self@),
                        timestamp,
                    ),
            decreases n - i,
        {
            let finding = findings.remove(0);
            assert(finding == all[i as int]);
            assert(findings@ =~= all.skip(i + 1));
            let id = finding.cookie.id();
            let found = find_rule_for_id(&self.rules, &ids, &id);
            let rule = match found {
                Some(k) => Some(&self.rules[k]),
                None => None,
            };
            out.push(self.assess_with_rule(finding, rule, digest.as_str(), timestamp));
            i = i + 1;
        }
        Ok(out)
    }
}

/// Decides a finding by the default decisions, only on reviewed policy evidence.
#[derive(Default)]
pub struct DefaultPolicy;

/// The default engine's decision: anything not confirmed by a reviewed policy rule
/// is blocked; otherwise the default decision of its class applies.
pub open spec fn spec_evaluate(f: FindingView) -> Decision {
    if f.classification.confidence != Confidence::Confirmed || f.classification.method
        != Method::UserPolicy || f.classification.evidence.len() == 0 {
        Decision::Block
    } else {
        decide(spec_default_decisions(), f.classification.value)
    }
}

impl PolicyEngine for DefaultPolicy {
    fn evaluate(&self, finding: &Finding) -> (d: Decision)
        ensures
            d == spec_evaluate(finding@),
    {
        if finding.classification.confidence != Confidence::Confirmed
            || finding.classification.method != Method::UserPolicy
            || finding.classification.evidence.len() == 0 {
            return Decision::Block;
        }
        match default_decisions().get(finding.classification.value) {
            Some(d) => d,
            None => Decision::Block,
        }
    }
}

// ---------------------------------------------------------------------------
// Laws
// ---------------------------------------------------------------------------

/// A valid policy decides all five classes, blocks unknown behaviour and never
/// allows a consent class unconditionally.
pub proof fn lemma_valid_policy_decisions(p: PolicyView)
    requires
        policy_valid(p),
    ensures
        p.schema_version == SCHEMA_VERSION,
        decided_count(p.decisions) == 5,
        decide(p.decisions, PermissionClass::Unknown) == Decision::Block,
        forall|c: PermissionClass|
            c != PermissionClass::Necessary ==> #[trigger] decide(p.decisions, c) != Decision::Allow,
{
    assert forall|c: PermissionClass| c != PermissionClass::Necessary implies #[trigger] decide(
        p.decisions,
        c,
    ) != Decision::Allow by {
        if p.decisions.contains_key(c) {
            assert(!(c != PermissionClass::Necessary && p.decisions.contains_key(c)
                && p.decisions[c] == Decision::Allow));
        }
    }
}

/// The default policy is valid.
pub proof fn lemma_default_policy_valid()
    ensures
        policy_valid(
            PolicyView {
                schema_version: SCHEMA_VERSION,
                decisions: spec_default_decisions(),
                rules: Seq::empty(),
            },
        ),
{
    let m = spec_default_decisions();
    assert(m.contains_key(PermissionClass::Necessary));
    assert(m.contains_key(PermissionClass::Preferences));
    assert(m.contains_key(PermissionClass::Analytics));
    assert(m.contains_key(PermissionClass::Marketing));
    assert(m.contains_key(PermissionClass::Unknown));
    assert(decided_count(m) == 5);
    assert forall|c: PermissionClass|
        !(c != PermissionClass::Necessary && #[trigger] m.contains_key(c) && m[c]
            == Decision::Allow) by {
        match c {
            PermissionClass::Necessary => {},
            PermissionClass::Preferences => assert(m[c] == Decision::Gate),
            PermissionClass::Analytics => assert(m[c] == Decision::Gate),
            PermissionClass::Marketing => assert(m[c] == Decision::Gate),
            PermissionClass::Unknown => assert(m[c] == Decision::Block),
        }
    }
}

/// Names alone never grant permission: under a valid policy, a finding that no
/// reviewed rule approves is blocked.
pub proof fn lemma_unapproved_is_blocked(
    p: PolicyView,
    f: FindingView,
    digest: Seq<char>,
    timestamp: Option<u64>,
)
    requires
        policy_valid(p),
    ensures
        spec_assess_with_rule(p.decisions, f, None, digest, timestamp).decision == Decision::Block,
{
    lemma_valid_policy_decisions(p);
}

/// Under a valid policy, only a reviewed rule for a necessary cookie leads to an
/// allow decision.
pub proof fn lemma_allow_requires_necessary_rule(
    p: PolicyView,
    f: FindingView,
    rule: Option<PolicyRuleView>,
    digest: Seq<char>,
    timestamp: Option<u64>,
)
    requires
        policy_valid(p),
        spec_assess_with_rule(p.decisions, f, rule, digest, timestamp).decision == Decision::Allow,
    ensures
        rule is Some,
        rule->0.category == PermissionClass::Necessary,
{
    lemma_valid_policy_decisions(p);
    if rule is Some {
        assert(decide(p.decisions, rule->0.category) == Decision::Allow);
    }
}

proof fn lemma_rule_for_identity_index(rules: Seq<PolicyRuleView>, c: CookieIdentityView)
    requires
        rule_for_identity(rules, c) is Some,
    ensures
        exists|i: int|
            0 <= i < rules.len() && rules[i].cookie == c && rule_for_identity(rules, c) == Some(
                #[trigger] rules[i],
            ),
    decreases rules.len(),
{
    if rules[0].cookie != c {
        let rest = rules.drop_first();
        lemma_rule_for_identity_index(rest, c);
        let i = choose|i: int|
            0 <= i < rest.len() && rest[i].cookie == c && rule_for_identity(rest, c) == Some(
                #[trigger] rest[i],
            );
        assert(rules[i + 1] == rest[i]);
    } else {
        assert(rules[0] == rules[0]);
    }
}

proof fn lemma_rule_for_id_at(rules: Seq<PolicyRuleView>, id: Seq<char>, i: int)
    requires
        0 <= i < rules.len(),
        rule_id(rules[i]) == id,
        forall|j: int| 0 <= j < i ==> rule_id(#[trigger] rules[j]) != id,
    ensures
        rule_for_id(rules, id) == Some(rules[i]),
    decreases i,
{
    if i > 0 {
        let rest = rules.drop_first();
        assert forall|j: int| 0 <= j < i - 1 implies rule_id(#[trigger] rest[j]) != id by {
            assert(rest[j] == rules[j + 1]);
        }
        assert(rest[i - 1] == rules[i]);
        lemma_rule_for_id_at(rest, id, i - 1);
    }
}

/// Under a valid policy, the rule for exactly an identity is also the rule for its
/// identifier, so a single assessment and a batch agree wherever a rule names the
/// identity.
pub proof fn lemma_identity_rule_is_id_rule(p: PolicyView, c: CookieIdentityView)
    requires
        policy_valid(p),
        rule_for_identity(p.rules, c) is Some,
    ensures
        rule_for_id(p.rules, spec_cookie_id(c)) == rule_for_identity(p.rules, c),
{
    lemma_rule_for_identity_index(p.rules, c);
    let i = choose|i: int|
        0 <= i < p.rules.len() && p.rules[i].cookie == c && rule_for_identity(p.rules, c) == Some(
            #[trigger] p.rules[i],
        );
    assert forall|j: int| 0 <= j < i implies rule_id(#[trigger] p.rules[j]) != spec_cookie_id(c) by {
        lemma_valid_rules_distinct(p.rules, j, i);
    }
    lemma_rule_for_id_at(p.rules, spec_cookie_id(c), i);
}

proof fn lemma_rule_for_identity_absent(rules: Seq<PolicyRuleView>, c: CookieIdentityView, i: int)
    requires
        rule_for_identity(rules, c) is None,
        0 <= i < rules.len(),
    ensures
        rules[i].cookie != c,
    decreases rules.len(),
{
    if i > 0 && rules[0].cookie != c {
        assert(rules.drop_first()[i - 1] == rules[i]);
        lemma_rule_for_identity_absent(rules.drop_first(), c, i - 1);
    }
}

/// A rule matches an exact identity, including attributes: the rule a finding is
/// assessed against has exactly the finding's identity, and there is none when no
/// rule has it.
pub proof fn lemma_rule_matches_exactly(rules: Seq<PolicyRuleView>, c: CookieIdentityView)
    ensures
        rule_for_identity(rules, c) matches Some(r) ==> r.cookie == c,
        rule_for_identity(rules, c) is None <==> forall|i: int|
            0 <= i < rules.len() ==> (#[trigger] rules[i]).cookie != c,
{
    if rule_for_identity(rules, c) is Some {
        lemma_rule_for_identity_index(rules, c);
    } else {
        assert forall|i: int| 0 <= i < rules.len() implies (#[trigger] rules[i]).cookie != c by {
            lemma_rule_for_identity_absent(rules, c, i);
        }
    }
}

/// A rule that would be accepted on its own.
pub open spec fn rule_sound(r: PolicyRuleView) -> bool {
    &&& !blank(r.reason)
    &&& r.cookie.name matches Some(n) && !blank(n)
    &&& !blank(r.cookie.application)
    &&& !blank(r.cookie.origin)
}

/// The rules are accepted exactly when each is acceptable on its own and no two
/// share an identity.
pub proof fn lemma_rules_error_none_iff(rules: Seq<PolicyRuleView>)
    ensures
        rules_error(rules) is None <==> (forall|i: int|
            0 <= i < rules.len() ==> rule_sound(#[trigger] rules[i])) && ids_distinct(rules),
    decreases rules.len(),
{
    if rules.len() > 0 {
        let init = rules.drop_last();
        let last = rules.last();
        lemma_rules_error_none_iff(init);
        assert(last == rules[rules.len() - 1]);
        if rules_error(rules) is None {
            assert(rule_error(init, last) is None);
            assert forall|i: int| 0 <= i < rules.len() implies rule_sound(#[trigger] rules[i]) by {
                if i < init.len() {
                    assert(init[i] == rules[i]);
                }
            }
            assert forall|i: int, j: int| 0 <= i < j < rules.len() implies rule_id(
                #[trigger] rules[i],
            ) != rule_id(#[trigger] rules[j]) by {
                lemma_valid_rules_distinct(rules, i, j);
            }
        }
        if (forall|i: int| 0 <= i < rules.len() ==> rule_sound(#[trigger] rules[i])) && ids_distinct(
            rules,
        ) {
            assert forall|i: int| 0 <= i < init.len() implies rule_sound(#[trigger] init[i]) by {
                assert(init[i] == rules[i]);
            }
            assert(ids_distinct(init)) by {
                assert forall|i: int, j: int| 0 <= i < j < init.len() implies rule_id(
                    #[trigger] init[i],
                ) != rule_id(#[trigger] init[j]) by {
                    assert(init[i] == rules[i]);
                    assert(init[j] == rules[j]);
                }
            }
            assert(rule_sound(rules[rules.len() - 1]));
            if identity_taken(init, last) {
                let j = choose|j: int|
                    0 <= j < init.len() && spec_cookie_id(#[trigger] init[j].cookie)
                        == spec_cookie_id(last.cookie);
                assert(init[j] == rules[j]);
                assert(rule_id(rules[j]) != rule_id(rules[rules.len() - 1]));
            }
        }
    }
}

proof fn lemma_distinct_ids_no_duplicates(rules: Seq<PolicyRuleView>)
    requires
        ids_distinct(rules),
    ensures
        rules.no_duplicates(),
{
    assert forall|i: int, j: int|
        0 <= i < rules.len() && 0 <= j < rules.len() && i != j implies rules[i] != rules[j] by {
        if i < j {
            assert(rule_id(rules[i]) != rule_id(rules[j]));
        } else {
            assert(rule_id(rules[j]) != rule_id(rules[i]));
        }
    }
}

/// Reordering the rules does not change whether they are accepted.
pub proof fn lemma_rule_order_keeps_validity(a: Seq<PolicyRuleView>, b: Seq<PolicyRuleView>)
    requires
        a.to_multiset() == b.to_multiset(),
        rules_error(a) is None,
    ensures
        rules_error(b) is None,
{
    broadcast use vstd::multiset::group_multiset_axioms;
    broadcast use vstd::seq_lib::group_to_multiset_ensures;

    lemma_rules_error_none_iff(a);
    lemma_rules_error_none_iff(b);
    lemma_distinct_ids_no_duplicates(a);
    a.lemma_multiset_has_no_duplicates();
    b.lemma_multiset_has_no_duplicates_conv();
    assert forall|i: int| 0 <= i < b.len() implies rule_sound(#[trigger] b[i]) by {
        assert(b.to_multiset().count(b[i]) > 0);
        assert(a.contains(b[i]));
        let k = choose|k: int| 0 <= k < a.len() && a[k] == b[i];
        assert(rule_sound(a[k]));
    }
    assert forall|i: int, j: int| 0 <= i < j < b.len() implies rule_id(#[trigger] b[i]) != rule_id(
        #[trigger] b[j],
    ) by {
        assert(b[i] != b[j]);
        assert(b.to_multiset().count(b[i]) > 0);
        assert(b.to_multiset().count(b[j]) > 0);
        assert(a.contains(b[i]));
        assert(a.contains(b[j]));
        let x = choose|x: int| 0 <= x < a.len() && a[x] == b[i];
        let y = choose|y: int| 0 <= y < a.len() && a[y] == b[j];
        if x < y {
            assert(rule_id(a[x]) != rule_id(a[y]));
        } else {
            assert(rule_id(a[y]) != rule_id(a[x]));
        }
    }
}

/// Rule order does not affect the meaning of a policy: reordering the rules of a
/// valid policy keeps it valid and keeps its fingerprint.
pub proof fn lemma_rule_order_is_meaningless(p: PolicyView, q: PolicyView)
    requires
        policy_valid(p),
        p.schema_version == q.schema_version,
        p.decisions == q.decisions,
        p.rules.to_multiset() == q.rules.to_multiset(),
    ensures
        policy_valid(q),
        spec_fingerprint(p) == spec_fingerprint(q),
{
    lemma_rule_order_keeps_validity(p.rules, q.rules);
    lemma_fingerprint_ignores_rule_order(p, q);
}

proof fn lemma_rule_for_id_absent(rules: Seq<PolicyRuleView>, id: Seq<char>)
    requires
        forall|i: int| 0 <= i < rules.len() ==> rule_id(#[trigger] rules[i]) != id,
    ensures
        rule_for_id(rules, id) is None,
    decreases rules.len(),
{
    if rules.len() > 0 {
        let rest = rules.drop_first();
        assert forall|i: int| 0 <= i < rest.len() implies rule_id(#[trigger] rest[i]) != id by {
            assert(rest[i] == rules[i + 1]);
        }
        assert(rule_id(rules[0]) != id);
        lemma_rule_for_id_absent(rest, id);
    }
}

/// A batch assessment agrees with a single one, finding by finding: under a valid
/// policy, when no rule's identifier collides with the finding's without being the
/// same identity, the rule looked up by identifier is the rule for exactly the
/// identity, and the assessments are equal.
pub proof fn lemma_batch_agrees_with_single(
    p: PolicyView,
    f: FindingView,
    digest: Seq<char>,
    timestamp: Option<u64>,
)
    requires
        policy_valid(p),
        forall|i: int|
            0 <= i < p.rules.len() && spec_cookie_id(#[trigger] p.rules[i].cookie) == spec_cookie_id(
                f.cookie,
            ) ==> p.rules[i].cookie == f.cookie,
    ensures
        rule_for_id(p.rules, spec_cookie_id(f.cookie)) == rule_for_identity(p.rules, f.cookie),
        spec_assess_with_rule(
            p.decisions,
            f,
            rule_for_id(p.rules, spec_cookie_id(f.cookie)),
            digest,
            timestamp,
        ) == spec_assess_with_rule(
            p.decisions,
            f,
            rule_for_identity(p.rules, f.cookie),
            digest,
            timestamp,
        ),
{
    if rule_for_identity(p.rules, f.cookie) is Some {
        lemma_identity_rule_is_id_rule(p, f.cookie);
    } else {
        lemma_rule_matches_exactly(p.rules, f.cookie);
        assert forall|i: int| 0 <= i < p.rules.len() implies rule_id(#[trigger] p.rules[i])
            != spec_cookie_id(f.cookie) by {
            assert(p.rules[i].cookie != f.cookie);
        }
        lemma_rule_for_id_absent(p.rules, spec_cookie_id(f.cookie));
    }
}

/// A rule's category is part of its canonical encoding: two rules for the same
/// identity with the same reason but different categories are encoded differently,
/// so the category counts toward the policy fingerprint.
pub proof fn lemma_rule_json_keeps_category(r1: PolicyRuleView, r2: PolicyRuleView)
    requires
        r1.cookie == r2.cookie,
        r1.reason == r2.reason,
        r1.category != r2.category,
    ensures
        rule_json(r1) != rule_json(r2),
{
    let f1 = json_field("cookie"@, identity_json(r1.cookie));
    let f3 = json_field("reason"@, json_str(r1.reason));
    let k1 = json_str(class_key(r1.category));
    let k2 = json_str(class_key(r2.category));
    lemma_object3(f1, json_field("category"@, k1), f3);
    lemma_object3(f1, json_field("category"@, k2), f3);
    let a = seq![0x7bu8] + f1 + seq![0x2cu8] + json_str("category"@) + seq![0x3au8];
    let b = seq![0x2cu8] + f3 + seq![0x7du8];
    assert(rule_json(r1) =~= a + k1 + b);
    assert(rule_json(r2) =~= a + k2 + b);
    crate::json::lemma_class_keys(r1.category, r2.category);
    crate::json::lemma_class_keys(r2.category, r1.category);
    if rule_json(r1) == rule_json(r2) {
        crate::json::lemma_cancel(a, k1, k2, b);
        crate::json::lemma_json_str_plain_injective(class_key(r1.category), class_key(r2.category));
    }
}

/// A rule is read back from its encoding: two rules for the same cookie that are
/// encoded alike have the same category and the same reason.
pub proof fn lemma_rule_json_keeps_rule(r1: PolicyRuleView, r2: PolicyRuleView)
    requires
        r1.cookie == r2.cookie,
        rule_json(r1) == rule_json(r2),
    ensures
        r1 == r2,
{
    let f1 = json_field("cookie"@, identity_json(r1.cookie));
    let k1 = class_key(r1.category);
    let k2 = class_key(r2.category);
    crate::json::lemma_class_keys(r1.category, r2.category);
    crate::json::lemma_class_keys(r2.category, r1.category);
    lemma_object3(f1, json_field("category"@, json_str(k1)), json_field("reason"@, json_str(r1.reason)));
    lemma_object3(f1, json_field("category"@, json_str(k2)), json_field("reason"@, json_str(r2.reason)));
    let aa = seq![0x7bu8] + f1 + seq![0x2cu8] + json_str("category"@) + seq![0x3au8];
    let bb = seq![0x2cu8] + json_str("reason"@) + seq![0x3au8];
    let t1 = bb + json_str(r1.reason) + seq![0x7du8];
    let t2 = bb + json_str(r2.reason) + seq![0x7du8];
    assert(rule_json(r1) =~= aa + json_str(k1) + t1);
    assert(rule_json(r2) =~= aa + json_str(k2) + t2);
    crate::json::lemma_plain_str_split(aa, k1, t1, k2, t2);
    crate::json::lemma_cancel(bb, json_str(r1.reason), json_str(r2.reason), seq![0x7du8]);
    crate::json::lemma_json_str_injective(r1.reason, r2.reason);
}

/// The policy with rule `i` replaced.
pub open spec fn with_rule(p: PolicyView, i: int, r: PolicyRuleView) -> PolicyView {
    PolicyView { rules: p.rules.update(i, r), ..p }
}

/// The policy with the category of rule `i` replaced.
pub open spec fn with_rule_category(p: PolicyView, i: int, category: PermissionClass) -> PolicyView {
    with_rule(p, i, PolicyRuleView { category, ..p.rules[i] })
}

proof fn lemma_sort_after_rule_update(p: PolicyView, i: int, r: PolicyRuleView) -> (j: int)
    requires
        policy_valid(p),
        0 <= i < p.rules.len(),
        rule_id(r) == rule_id(p.rules[i]),
    ensures
        0 <= j < sort_by_id(p.rules).len(),
        sort_by_id(p.rules)[j] == p.rules[i],
        sort_by_id(with_rule(p, i, r).rules) == sort_by_id(p.rules).update(j, r),
{
    let q = with_rule(p, i, r);
    let old_rule = p.rules[i];
    assert(ids_distinct(p.rules)) by {
        assert forall|a: int, b: int| 0 <= a < b < p.rules.len() implies rule_id(
            #[trigger] p.rules[a],
        ) != rule_id(#[trigger] p.rules[b]) by {
            lemma_valid_rules_distinct(p.rules, a, b);
        }
    }
    assert(ids_distinct(q.rules)) by {
        assert forall|a: int, b: int| 0 <= a < b < q.rules.len() implies rule_id(
            #[trigger] q.rules[a],
        ) != rule_id(#[trigger] q.rules[b]) by {
            assert(rule_id(q.rules[a]) == rule_id(p.rules[a]));
            assert(rule_id(q.rules[b]) == rule_id(p.rules[b]));
        }
    }
    lemma_sort_contents(p.rules);
    lemma_sort_increasing(p.rules);
    lemma_sort_contents(q.rules);
    lemma_sort_increasing(q.rules);
    let s = sort_by_id(p.rules);
    assert(s.contains(old_rule)) by {
        broadcast use vstd::seq_lib::group_to_multiset_ensures;

        assert(p.rules.contains(old_rule));
        assert(s.to_multiset().count(old_rule) > 0);
    }
    let j = choose|j: int| 0 <= j < s.len() && s[j] == old_rule;
    let t = s.update(j, r);
    vstd::seq_lib::to_multiset_update(s, j, r);
    vstd::seq_lib::to_multiset_update(p.rules, i, r);
    assert(ids_increasing(t)) by {
        assert forall|a: int, b: int| 0 <= a < b < t.len() implies str_lt(
            rule_id(#[trigger] t[a]),
            rule_id(#[trigger] t[b]),
        ) by {
            assert(rule_id(t[a]) == rule_id(s[a]));
            assert(rule_id(t[b]) == rule_id(s[b]));
        }
    }
    lemma_increasing_unique(sort_by_id(q.rules), t);
    j
}

proof fn lemma_policy_json_update(
    schema_version: u32,
    decisions: Map<PermissionClass, Decision>,
    rules: Seq<PolicyRuleView>,
    j: int,
    r: PolicyRuleView,
) -> (ab: (Seq<u8>, Seq<u8>))
    requires
        0 <= j < rules.len(),
    ensures
        policy_json(schema_version, decisions, rules) == ab.0 + rule_json(rules[j]) + ab.1,
        policy_json(schema_version, decisions, rules.update(j, r)) == ab.0 + rule_json(r) + ab.1,
{
    let old_items = rules.map_values(|x: PolicyRuleView| rule_json(x));
    let new_items = rules.update(j, r).map_values(|x: PolicyRuleView| rule_json(x));
    assert(new_items =~= old_items.update(j, rule_json(r)));
    crate::json::lemma_array_field_update(
        json_field("schema_version"@, json_uint(schema_version as nat)),
        json_field("decisions"@, decisions_json(decisions)),
        "rules"@,
        old_items,
        j,
        rule_json(r),
    )
}

/// Every part of a rule counts toward the fingerprint: replacing a rule of a valid
/// policy by a different rule for the same cookie (another category, another reason)
/// changes the canonical JSON that the fingerprint digests, so the two policies could
/// share a fingerprint only through a SHA-256 collision.
pub proof fn lemma_rule_change_changes_fingerprint(p: PolicyView, i: int, r: PolicyRuleView)
    requires
        policy_valid(p),
        0 <= i < p.rules.len(),
        r.cookie == p.rules[i].cookie,
        r != p.rules[i],
    ensures
        canonical_policy_json(with_rule(p, i, r)) != canonical_policy_json(p),
        spec_fingerprint(with_rule(p, i, r)) == spec_fingerprint(p) ==> spec_sha256(
            canonical_policy_json(with_rule(p, i, r)),
        ) == spec_sha256(canonical_policy_json(p)),
{
    let q = with_rule(p, i, r);
    let old_rule = p.rules[i];
    let j = lemma_sort_after_rule_update(p, i, r);
    let (a, b) = lemma_policy_json_update(p.schema_version, p.decisions, sort_by_id(p.rules), j, r);
    if canonical_policy_json(q) == canonical_policy_json(p) {
        crate::json::lemma_cancel(a, rule_json(r), rule_json(old_rule), b);
        lemma_rule_json_keeps_rule(r, old_rule);
    }
    if spec_fingerprint(q) == spec_fingerprint(p) {
        crate::text::lemma_hex_lower_injective(
            spec_sha256(canonical_policy_json(q)),
            spec_sha256(canonical_policy_json(p)),
        );
    }
}

/// A rule's category counts toward the fingerprint: changing the category of one rule
/// of a valid policy changes the canonical JSON that the fingerprint digests, so the
/// two policies could share a fingerprint only through a SHA-256 collision.
pub proof fn lemma_category_changes_fingerprint(p: PolicyView, i: int, category: PermissionClass)
    requires
        policy_valid(p),
        0 <= i < p.rules.len(),
        p.rules[i].category != category,
    ensures
        canonical_policy_json(with_rule_category(p, i, category)) != canonical_policy_json(p),
        spec_fingerprint(with_rule_category(p, i, category)) == spec_fingerprint(p) ==> spec_sha256(
            canonical_policy_json(with_rule_category(p, i, category)),
        ) == spec_sha256(canonical_policy_json(p)),
{
    lemma_rule_change_changes_fingerprint(p, i, PolicyRuleView { category, ..p.rules[i] });
}

} // verus!
