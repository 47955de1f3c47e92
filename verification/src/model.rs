//! Canonical contracts, independent of detectors, frameworks and integrations.
use crate::digest::{identity_hash, parts_fit, spec_identity_hash, spec_sha256, str_views};
use crate::keyed::{key_insert, keys_increasing, lemma_key_insert_shape};
use crate::text::{compare_str, lemma_str_lt_order, str_eq, str_lt, Cmp};
use vstd::prelude::*;

verus! {

/// The schema version of reports, policies and locks.
pub const SCHEMA_VERSION: u32 = 1;

/// How a piece of evidence was obtained.
#[derive(Clone, Copy, Debug, PartialEq, Eq, Structural)]
pub enum Method {
    StaticRule,
    RuntimeObservation,
    DependencyKnowledge,
    Configuration,
    UserPolicy,
    Manual,
    LlmAssisted,
}

/// How certain a claim is.
#[derive(Clone, Copy, Debug, PartialEq, Eq, Structural)]
pub enum Confidence {
    Confirmed,
    Probable,
    Possible,
    Unknown,
}

/// What a behaviour does with a cookie.
#[derive(Clone, Copy, Debug, PartialEq, Eq, Structural)]
pub enum Operation {
    Create,
    Read,
    Modify,
    Delete,
    Send,
    Receive,
}

/// The consent category of a cookie.
#[derive(Clone, Copy, Debug, PartialEq, Eq, Structural, PartialOrd, Ord)]
pub enum PermissionClass {
    Necessary,
    Preferences,
    Analytics,
    Marketing,
    Unknown,
}

/// What policy decides for a behaviour.
#[derive(Clone, Copy, Debug, PartialEq, Eq, Structural)]
pub enum Decision {
    Allow,
    Gate,
    Block,
}

/// The character view of an optional string.
pub open spec fn opt_view(o: Option<String>) -> Option<Seq<char>> {
    match o {
        Some(s) => Some(s@),
        None => None,
    }
}

/// A copy of an optional string.
pub fn copy_opt(o: &Option<String>) -> (r: Option<String>)
    ensures
        opt_view(r) == opt_view(*o),
{
    match o {
        Some(s) => Some(s.clone()),
        None => None,
    }
}

/// Equality of optional strings.
pub fn opt_eq(a: &Option<String>, b: &Option<String>) -> (r: bool)
    ensures
        r == (opt_view(*a) == opt_view(*b)),
{
    match (a, b) {
        (Some(x), Some(y)) => str_eq(x.as_str(), y.as_str()),
        (None, None) => true,
        _ => false,
    }
}

/// A source location.
#[derive(Debug, PartialEq, Eq)]
pub struct Location {
    pub path: String,
    pub line: usize,
    pub column: usize,
    pub byte_offset: usize,
}

pub struct LocationView {
    pub path: Seq<char>,
    pub line: usize,
    pub column: usize,
    pub byte_offset: usize,
}

impl View for Location {
    type V = LocationView;

    open spec fn view(&self) -> LocationView {
        LocationView {
            path: self.path@,
            line: self.line,
            column: self.column,
            byte_offset: self.byte_offset,
        }
    }
}

impl Clone for Location {
    fn clone(&self) -> (r: Self)
        ensures
            r@ == self@,
    {
        Location {
            path: self.path.clone(),
            line: self.line,
            column: self.column,
            byte_offset: self.byte_offset,
        }
    }
}

pub open spec fn opt_location_view(o: Option<Location>) -> Option<LocationView> {
    match o {
        Some(l) => Some(l@),
        None => None,
    }
}

/// A copy of an optional location.
pub fn copy_opt_location(o: &Option<Location>) -> (r: Option<Location>)
    ensures
        opt_location_view(r) == opt_location_view(*o),
{
    match o {
        Some(l) => Some(l.clone()),
        None => None,
    }
}

/// Why a claim is made. Cookie values and entire source lines are never stored.
#[derive(Debug, PartialEq, Eq)]
pub struct Evidence {
    pub source: String,
    pub method: Method,
    pub confidence: Confidence,
    pub location: Option<Location>,
    /// Source modification time, not a claim of runtime observation.
    pub timestamp: Option<u64>,
    pub content_sha256: String,
    /// Rule explanation. Cookie values and entire source lines are omitted.
    pub detail: String,
}

pub struct EvidenceView {
    pub source: Seq<char>,
    pub method: Method,
    pub confidence: Confidence,
    pub location: Option<LocationView>,
    pub timestamp: Option<u64>,
    pub content_sha256: Seq<char>,
    pub detail: Seq<char>,
}

impl View for Evidence {
    type V = EvidenceView;

    open spec fn view(&self) -> EvidenceView {
        EvidenceView {
            source: self.source@,
            method: self.method,
            confidence: self.confidence,
            location: opt_location_view(self.location),
            timestamp: self.timestamp,
            content_sha256: self.content_sha256@,
            detail: self.detail@,
        }
    }
}

impl Clone for Evidence {
    fn clone(&self) -> (r: Self)
        ensures
            r@ == self@,
    {
        Evidence {
            source: self.source.clone(),
            method: self.method,
            confidence: self.confidence,
            location: copy_opt_location(&self.location),
            timestamp: self.timestamp,
            content_sha256: self.content_sha256.clone(),
            detail: self.detail.clone(),
        }
    }
}

pub open spec fn evidence_views(v: Seq<Evidence>) -> Seq<EvidenceView> {
    v.map_values(|e: Evidence| e@)
}

/// A copy of a list of evidence.
pub fn copy_evidence(v: &Vec<Evidence>) -> (r: Vec<Evidence>)
    ensures
        evidence_views(r@) == evidence_views(v@),
{
    let mut r: Vec<Evidence> = Vec::new();
    let mut i: usize = 0;
    while i < v.len()
        invariant
            i <= v@.len(),
            r@.len() == i,
            forall|k: int| 0 <= k < i ==> #[trigger] r@[k]@ == v@[k]@,
        decreases v.len() - i,
    {
        r.push(v[i].clone());
        i = i + 1;
    }
    assert(evidence_views(r@) =~= evidence_views(v@));
    r
}

/// Cookie attributes, ordered by name, each name at most once.
#[derive(Debug, PartialEq, Eq)]
pub struct Attributes {
    entries: Vec<(String, String)>,
}

pub open spec fn pair_views(v: Seq<(String, String)>) -> Seq<(Seq<char>, Seq<char>)> {
    v.map_values(|p: (String, String)| (p.0@, p.1@))
}

impl View for Attributes {
    type V = Seq<(Seq<char>, Seq<char>)>;

    closed spec fn view(&self) -> Seq<(Seq<char>, Seq<char>)> {
        pair_views(self.entries@)
    }
}

/// The entries with `key` set to `value`, keeping the name order.
pub open spec fn attr_insert(
    entries: Seq<(Seq<char>, Seq<char>)>,
    key: Seq<char>,
    value: Seq<char>,
) -> Seq<(Seq<char>, Seq<char>)> {
    key_insert(entries, key, value)
}

impl Attributes {
    #[verifier::type_invariant]
    closed spec fn sorted(self) -> bool {
        keys_increasing(pair_views(self.entries@))
    }

    /// An empty attribute set.
    pub fn new() -> (a: Self)
        ensures
            a@ == Seq::<(Seq<char>, Seq<char>)>::empty(),
    {
        let a = Attributes { entries: Vec::new() };
        assert(a@ =~= Seq::<(Seq<char>, Seq<char>)>::empty());
        a
    }

    /// The number of attributes.
    pub fn len(&self) -> (n: usize)
        ensures
            n == self@.len(),
    {
        self.entries.len()
    }

    /// The name and value at position `i` in name order.
    pub fn entry(&self, i: usize) -> (r: (&String, &String))
        requires
            i < self@.len(),
        ensures
            r.0@ == self@[i as int].0,
            r.1@ == self@[i as int].1,
    {
        let p = &self.entries[i];
        (&p.0, &p.1)
    }

    /// Sets `key` to `value`, replacing an earlier value of the same name.
    pub fn insert(&mut self, key: String, value: String)
        ensures
            final(self)@ == attr_insert(old(self)@, key@, value@),
    {
        proof {
            use_type_invariant(&*self);
        }
        let ghost old_view = self@;
        let n = self.entries.len();
        let mut p: usize = 0;
        while p < n && compare_str(self.entries[p].0.as_str(), key.as_str()) == Cmp::Less
            invariant
                n == self.entries@.len(),
                old_view == pair_views(self.entries@),
                p <= n,
                forall|j: int| 0 <= j < p ==> str_lt(#[trigger] old_view[j].0, key@),
            decreases n - p,
        {
            p = p + 1;
        }
        proof {
            if p < n {
                lemma_str_lt_order(old_view[p as int].0, key@, key@);
            }
            lemma_key_insert_shape(old_view, key@, value@, p as int);
        }
        let replace = p < n && str_eq(self.entries[p].0.as_str(), key.as_str());
        let ghost k = key@;
        let ghost v = value@;
        let mut entries: Vec<(String, String)> = Vec::new();
        std::mem::swap(&mut entries, &mut self.entries);
        if replace {
            entries.set(p, (key, value));
            assert(pair_views(entries@) =~= old_view.subrange(0, p as int) + seq![(k, v)]
                + old_view.subrange(p + 1, n as int));
        } else {
            entries.insert(p, (key, value));
            assert(pair_views(entries@) =~= old_view.subrange(0, p as int) + seq![(k, v)]
                + old_view.subrange(p as int, n as int));
        }
        self.entries = entries;
    }
}

/// A copy of attributes.
impl Clone for Attributes {
    fn clone(&self) -> (r: Self)
        ensures
            r@ == self@,
    {
        proof {
            use_type_invariant(self);
        }
        let mut out: Vec<(String, String)> = Vec::new();
        let mut i: usize = 0;
        while i < self.entries.len()
            invariant
                i <= self.entries@.len(),
                out@.len() == i,
                forall|k: int|
                    0 <= k < i ==> (#[trigger] out@[k]).0@ == self.entries@[k].0@ && out@[k].1@
                        == self.entries@[k].1@,
            decreases self.entries.len() - i,
        {
            out.push((self.entries[i].0.clone(), self.entries[i].1.clone()));
            i = i + 1;
        }
        assert(pair_views(out@) =~= pair_views(self.entries@));
        Attributes { entries: out }
    }
}

/// Independent cookie identity. `None` is unresolved, never a wildcard policy selector.
#[derive(Debug, PartialEq, Eq)]
pub struct CookieIdentity {
    pub name: Option<String>,
    pub domain: Option<String>,
    pub path: Option<String>,
    pub origin: String,
    pub application: String,
    pub attributes: Attributes,
}

pub struct CookieIdentityView {
    pub name: Option<Seq<char>>,
    pub domain: Option<Seq<char>>,
    pub path: Option<Seq<char>>,
    pub origin: Seq<char>,
    pub application: Seq<char>,
    pub attributes: Seq<(Seq<char>, Seq<char>)>,
}

impl View for CookieIdentity {
    type V = CookieIdentityView;

    open spec fn view(&self) -> CookieIdentityView {
        CookieIdentityView {
            name: opt_view(self.name),
            domain: opt_view(self.domain),
            path: opt_view(self.path),
            origin: self.origin@,
            application: self.application@,
            attributes: self.attributes@,
        }
    }
}

impl Clone for CookieIdentity {
    fn clone(&self) -> (r: Self)
        ensures
            r@ == self@,
    {
        CookieIdentity {
            name: copy_opt(&self.name),
            domain: copy_opt(&self.domain),
            path: copy_opt(&self.path),
            origin: self.origin.clone(),
            application: self.application.clone(),
            attributes: self.attributes.clone(),
        }
    }
}

/// `"known"` for a resolved field, `"unknown"` otherwise.
pub open spec fn known_marker(o: Option<Seq<char>>) -> Seq<char> {
    if o is Some {
        "known"@
    } else {
        "unknown"@
    }
}

/// A resolved field's value, or the empty string.
pub open spec fn field_or_empty(o: Option<Seq<char>>) -> Seq<char> {
    match o {
        Some(s) => s,
        None => ""@,
    }
}

/// Attribute names and values, flattened in name order.
pub open spec fn attribute_parts(a: Seq<(Seq<char>, Seq<char>)>) -> Seq<Seq<char>>
    decreases a.len(),
{
    if a.len() == 0 {
        seq![]
    } else {
        attribute_parts(a.drop_last()) + seq![a.last().0, a.last().1]
    }
}

/// The components hashed for a cookie identity: application, origin, then name,
/// domain and path (each as a resolution marker and a value), then every attribute.
pub open spec fn cookie_id_parts(c: CookieIdentityView) -> Seq<Seq<char>> {
    seq![
        c.application,
        c.origin,
        known_marker(c.name),
        field_or_empty(c.name),
        known_marker(c.domain),
        field_or_empty(c.domain),
        known_marker(c.path),
        field_or_empty(c.path),
    ] + attribute_parts(c.attributes)
}

/// The identifier of a cookie identity.
pub open spec fn spec_cookie_id(c: CookieIdentityView) -> Seq<char> {
    "cookie:"@ + spec_identity_hash(cookie_id_parts(c))
}

proof fn lemma_attribute_parts_len(a: Seq<(Seq<char>, Seq<char>)>)
    ensures
        attribute_parts(a).len() == 2 * a.len(),
        forall|k: int|
            0 <= k < 2 * a.len() ==> #[trigger] attribute_parts(a)[k] == if k % 2 == 0 {
                a[k / 2].0
            } else {
                a[k / 2].1
            },
    decreases a.len(),
{
    if a.len() > 0 {
        let init = a.drop_last();
        lemma_attribute_parts_len(init);
        let ap = attribute_parts(a);
        let ai = attribute_parts(init);
        assert(ap == ai + seq![a.last().0, a.last().1]);
        assert forall|k: int| 0 <= k < 2 * a.len() implies #[trigger] ap[k] == if k % 2 == 0 {
            a[k / 2].0
        } else {
            a[k / 2].1
        } by {
            if k < 2 * init.len() {
                assert(ap[k] == ai[k]);
                assert(init[k / 2] == a[k / 2]);
            } else {
                assert(a.last() == a[a.len() - 1]);
                if k % 2 == 0 {
                    assert(k == 2 * init.len());
                    assert(ap[k] == a.last().0);
                } else {
                    assert(k == 2 * init.len() + 1);
                    assert(ap[k] == a.last().1);
                }
            }
        }
    }
}

proof fn lemma_markers_distinct()
    ensures
        "known"@ != "unknown"@,
{
    reveal_strlit("known");
    reveal_strlit("unknown");
    assert("known"@.len() != "unknown"@.len());
}

/// The hashed components determine the identity: two identities with the same
/// components are the same identity. So an identity is never reduced to its name,
/// and an unresolved field never collides with a resolved one.
pub proof fn lemma_cookie_id_parts_injective(a: CookieIdentityView, b: CookieIdentityView)
    requires
        cookie_id_parts(a) == cookie_id_parts(b),
    ensures
        a == b,
{
    let pa = cookie_id_parts(a);
    let pb = cookie_id_parts(b);
    lemma_markers_distinct();
    lemma_attribute_parts_len(a.attributes);
    lemma_attribute_parts_len(b.attributes);
    assert(pa[0] == pb[0]);
    assert(pa[1] == pb[1]);
    assert(pa[2] == pb[2]);
    assert(pa[3] == pb[3]);
    assert(pa[4] == pb[4]);
    assert(pa[5] == pb[5]);
    assert(pa[6] == pb[6]);
    assert(pa[7] == pb[7]);
    assert(a.name == b.name);
    assert(a.domain == b.domain);
    assert(a.path == b.path);
    assert(pa.len() == 8 + 2 * a.attributes.len());
    assert(pb.len() == 8 + 2 * b.attributes.len());
    assert(a.attributes.len() == b.attributes.len());
    assert forall|i: int| 0 <= i < a.attributes.len() implies a.attributes[i] == b.attributes[i] by {
        let ka = attribute_parts(a.attributes);
        let kb = attribute_parts(b.attributes);
        assert(pa[8 + 2 * i] == ka[2 * i]);
        assert(pb[8 + 2 * i] == kb[2 * i]);
        assert(pa[8 + 2 * i + 1] == ka[2 * i + 1]);
        assert(pb[8 + 2 * i + 1] == kb[2 * i + 1]);
        assert(ka[2 * i] == a.attributes[i].0);
        assert(kb[2 * i] == b.attributes[i].0);
        assert(ka[2 * i + 1] == a.attributes[i].1);
        assert(kb[2 * i + 1] == b.attributes[i].1);
    }
    assert(a.attributes =~= b.attributes);
}

/// Distinct identities are hashed from distinct length-prefixed byte strings: the
/// identifier of a cookie identity is not just a function of its name.
pub proof fn lemma_identity_preimage_injective(a: CookieIdentityView, b: CookieIdentityView)
    requires
        parts_fit(cookie_id_parts(a)),
        parts_fit(cookie_id_parts(b)),
        crate::digest::frame(cookie_id_parts(a)) == crate::digest::frame(cookie_id_parts(b)),
    ensures
        a == b,
{
    crate::digest::lemma_frame_injective(cookie_id_parts(a), cookie_id_parts(b));
    lemma_cookie_id_parts_injective(a, b);
}

impl CookieIdentity {
    /// The stable identifier of this identity.
    pub fn id(&self) -> (s: String)
        ensures
            s@ == spec_cookie_id(self@),
            s@.len() == 71,
    {
        let known: &str = "known";
        let unknown: &str = "unknown";
        let empty: &str = "";
        let mut parts: Vec<&str> = Vec::new();
        let ghost target = seq![
            self.application@,
            self.origin@,
            known_marker(opt_view(self.name)),
            field_or_empty(opt_view(self.name)),
            known_marker(opt_view(self.domain)),
            field_or_empty(opt_view(self.domain)),
            known_marker(opt_view(self.path)),
            field_or_empty(opt_view(self.path)),
        ];
        parts.push(self.application.as_str());
        parts.push(self.origin.as_str());
        let fields = [&self.name, &self.domain, &self.path];
        let mut f: usize = 0;
        while f < 3
            invariant
                0 <= f <= 3,
                fields@ == seq![&self.name, &self.domain, &self.path],
                target == seq![
                    self.application@,
                    self.origin@,
                    known_marker(opt_view(self.name)),
                    field_or_empty(opt_view(self.name)),
                    known_marker(opt_view(self.domain)),
                    field_or_empty(opt_view(self.domain)),
                    known_marker(opt_view(self.path)),
                    field_or_empty(opt_view(self.path)),
                ],
                known@ == "known"@,
                unknown@ == "unknown"@,
                empty@ == ""@,
                parts@.len() == 2 + 2 * f,
                forall|k: int| 0 <= k < 2 + 2 * f ==> (#[trigger] parts@[k])@ == target[k],
            decreases 3 - f,
        {
            let field = fields[f];
            match field {
                Some(value) => {
                    parts.push(known);
                    parts.push(value.as_str());
                },
                None => {
                    parts.push(unknown);
                    parts.push(empty);
                },
            }
            f = f + 1;
        }
        let n = self.attributes.len();
        let mut i: usize = 0;
        let ghost expected = cookie_id_parts(self@);
        proof {
            lemma_attribute_parts_len(self.attributes@);
            assert forall|k: int| 0 <= k < 8 implies (#[trigger] parts@[k])@ == expected[k] by {
                assert(expected[k] == target[k]);
            }
        }
        while i < n
            invariant
                n == self.attributes@.len(),
                i <= n,
                expected == cookie_id_parts(self@),
                expected.len() == 8 + 2 * n,
                forall|k: int|
                    0 <= k < 2 * n ==> #[trigger] attribute_parts(self.attributes@)[k] == if k % 2
                        == 0 {
                        self.attributes@[k / 2].0
                    } else {
                        self.attributes@[k / 2].1
                    },
                parts@.len() == 8 + 2 * i,
                forall|k: int| 0 <= k < 8 + 2 * i ==> (#[trigger] parts@[k])@ == expected[k],
            decreases n - i,
        {
            let (key, value) = self.attributes.entry(i);
            let ks = key.as_str();
            let vs = value.as_str();
            proof {
                let ap = attribute_parts(self.attributes@);
                assert(expected[8 + 2 * i] == ap[2 * i]);
                assert(expected[8 + 2 * i + 1] == ap[2 * i + 1]);
                assert(ap[2 * i] == self.attributes@[i as int].0);
                assert(ap[2 * i + 1] == self.attributes@[i as int].1);
            }
            parts.push(ks);
            parts.push(vs);
            i = i + 1;
        }
        assert(str_views(parts@) =~= expected);
        let hash = identity_hash(parts.as_slice());
        proof {
            reveal_strlit("cookie:");
        }
        crate::text::concat("cookie:", hash.as_str())
    }

    /// Structural equality of identities.
    pub fn same_identity(&self, other: &CookieIdentity) -> (r: bool)
        ensures
            r == (self@ == other@),
    {
        if !opt_eq(&self.name, &other.name) || !opt_eq(&self.domain, &other.domain) || !opt_eq(
            &self.path,
            &other.path,
        ) || !str_eq(self.origin.as_str(), other.origin.as_str()) || !str_eq(
            self.application.as_str(),
            other.application.as_str(),
        ) {
            return false;
        }
        let n = self.attributes.len();
        if n != other.attributes.len() {
            return false;
        }
        let mut i: usize = 0;
        while i < n
            invariant
                n == self.attributes@.len(),
                n == other.attributes@.len(),
                i <= n,
                forall|j: int| 0 <= j < i ==> self.attributes@[j] == other.attributes@[j],
            decreases n - i,
        {
            let (k1, v1) = self.attributes.entry(i);
            let (k2, v2) = other.attributes.entry(i);
            if !str_eq(k1.as_str(), k2.as_str()) || !str_eq(v1.as_str(), v2.as_str()) {
                return false;
            }
            i = i + 1;
        }
        assert(self.attributes@ =~= other.attributes@);
        true
    }
}


/// The permission class of a finding, with its support.
#[derive(Debug, PartialEq, Eq)]
pub struct Classification {
    pub value: PermissionClass,
    pub confidence: Confidence,
    pub method: Method,
    pub evidence: Vec<Evidence>,
}

pub struct ClassificationView {
    pub value: PermissionClass,
    pub confidence: Confidence,
    pub method: Method,
    pub evidence: Seq<EvidenceView>,
}

impl View for Classification {
    type V = ClassificationView;

    open spec fn view(&self) -> ClassificationView {
        ClassificationView {
            value: self.value,
            confidence: self.confidence,
            method: self.method,
            evidence: evidence_views(self.evidence@),
        }
    }
}

impl Clone for Classification {
    fn clone(&self) -> (r: Self)
        ensures
            r@ == self@,
    {
        Classification {
            value: self.value,
            confidence: self.confidence,
            method: self.method,
            evidence: copy_evidence(&self.evidence),
        }
    }
}

/// A discovered cookie behaviour.
#[derive(Debug, PartialEq, Eq)]
pub struct Finding {
    pub id: String,
    pub cookie: CookieIdentity,
    pub operation: Operation,
    pub technical_classification: String,
    pub classification: Classification,
    pub confidence: Confidence,
    pub declared: bool,
    pub observed: bool,
    pub correlated: bool,
    pub evidence: Vec<Evidence>,
}

pub struct FindingView {
    pub id: Seq<char>,
    pub cookie: CookieIdentityView,
    pub operation: Operation,
    pub technical_classification: Seq<char>,
    pub classification: ClassificationView,
    pub confidence: Confidence,
    pub declared: bool,
    pub observed: bool,
    pub correlated: bool,
    pub evidence: Seq<EvidenceView>,
}

impl View for Finding {
    type V = FindingView;

    open spec fn view(&self) -> FindingView {
        FindingView {
            id: self.id@,
            cookie: self.cookie@,
            operation: self.operation,
            technical_classification: self.technical_classification@,
            classification: self.classification@,
            confidence: self.confidence,
            declared: self.declared,
            observed: self.observed,
            correlated: self.correlated,
            evidence: evidence_views(self.evidence@),
        }
    }
}

impl Clone for Finding {
    fn clone(&self) -> (r: Self)
        ensures
            r@ == self@,
    {
        Finding {
            id: self.id.clone(),
            cookie: self.cookie.clone(),
            operation: self.operation,
            technical_classification: self.technical_classification.clone(),
            classification: self.classification.clone(),
            confidence: self.confidence,
            declared: self.declared,
            observed: self.observed,
            correlated: self.correlated,
            evidence: copy_evidence(&self.evidence),
        }
    }
}

pub open spec fn finding_views(v: Seq<Finding>) -> Seq<FindingView> {
    v.map_values(|f: Finding| f@)
}

/// A finding together with its policy decision.
#[derive(Debug, PartialEq, Eq)]
pub struct Assessment {
    pub finding: Finding,
    pub decision: Decision,
    pub reason: String,
    pub gated: bool,
}

pub struct AssessmentView {
    pub finding: FindingView,
    pub decision: Decision,
    pub reason: Seq<char>,
    pub gated: bool,
}

impl View for Assessment {
    type V = AssessmentView;

    open spec fn view(&self) -> AssessmentView {
        AssessmentView {
            finding: self.finding@,
            decision: self.decision,
            reason: self.reason@,
            gated: self.gated,
        }
    }
}

impl Clone for Assessment {
    fn clone(&self) -> (r: Self)
        ensures
            r@ == self@,
    {
        Assessment {
            finding: self.finding.clone(),
            decision: self.decision,
            reason: self.reason.clone(),
            gated: self.gated,
        }
    }
}

pub open spec fn assessment_views(v: Seq<Assessment>) -> Seq<AssessmentView> {
    v.map_values(|a: Assessment| a@)
}

/// A graph node.
#[derive(Debug, PartialEq, Eq)]
pub struct Node {
    pub id: String,
    pub kind: String,
    pub label: String,
}

pub struct NodeView {
    pub id: Seq<char>,
    pub kind: Seq<char>,
    pub label: Seq<char>,
}

impl View for Node {
    type V = NodeView;

    open spec fn view(&self) -> NodeView {
        NodeView { id: self.id@, kind: self.kind@, label: self.label@ }
    }
}

impl Clone for Node {
    fn clone(&self) -> (r: Self)
        ensures
            r@ == self@,
    {
        Node { id: self.id.clone(), kind: self.kind.clone(), label: self.label.clone() }
    }
}

/// A graph edge.
#[derive(Debug, PartialEq, Eq)]
pub struct Edge {
    pub from: String,
    pub relation: String,
    pub to: String,
}

pub struct EdgeView {
    pub from: Seq<char>,
    pub relation: Seq<char>,
    pub to: Seq<char>,
}

impl View for Edge {
    type V = EdgeView;

    open spec fn view(&self) -> EdgeView {
        EdgeView { from: self.from@, relation: self.relation@, to: self.to@ }
    }
}

impl Clone for Edge {
    fn clone(&self) -> (r: Self)
        ensures
            r@ == self@,
    {
        Edge { from: self.from.clone(), relation: self.relation.clone(), to: self.to.clone() }
    }
}

/// The cookie graph of a set of assessments.
#[derive(Debug, PartialEq, Eq)]
pub struct CookieGraph {
    pub nodes: Vec<Node>,
    pub edges: Vec<Edge>,
}

pub struct CookieGraphView {
    pub nodes: Seq<NodeView>,
    pub edges: Seq<EdgeView>,
}

pub open spec fn node_views(v: Seq<Node>) -> Seq<NodeView> {
    v.map_values(|n: Node| n@)
}

pub open spec fn edge_views(v: Seq<Edge>) -> Seq<EdgeView> {
    v.map_values(|e: Edge| e@)
}

impl View for CookieGraph {
    type V = CookieGraphView;

    open spec fn view(&self) -> CookieGraphView {
        CookieGraphView { nodes: node_views(self.nodes@), edges: edge_views(self.edges@) }
    }
}

/// A diagnostic message.
#[derive(Debug, PartialEq, Eq)]
pub struct Diagnostic {
    pub code: String,
    pub message: String,
    pub finding_id: Option<String>,
    pub location: Option<Location>,
}

pub struct DiagnosticView {
    pub code: Seq<char>,
    pub message: Seq<char>,
    pub finding_id: Option<Seq<char>>,
    pub location: Option<LocationView>,
}

impl View for Diagnostic {
    type V = DiagnosticView;

    open spec fn view(&self) -> DiagnosticView {
        DiagnosticView {
            code: self.code@,
            message: self.message@,
            finding_id: opt_view(self.finding_id),
            location: opt_location_view(self.location),
        }
    }
}

impl Clone for Diagnostic {
    fn clone(&self) -> (r: Self)
        ensures
            r@ == self@,
    {
        Diagnostic {
            code: self.code.clone(),
            message: self.message.clone(),
            finding_id: copy_opt(&self.finding_id),
            location: copy_opt_location(&self.location),
        }
    }
}

pub open spec fn diagnostic_views(v: Seq<Diagnostic>) -> Seq<DiagnosticView> {
    v.map_values(|d: Diagnostic| d@)
}

/// Discovers cookie behaviour in a source tree.
pub trait Detector {
    fn detect(&self, source: &str) -> Result<Vec<Finding>, String>;
}

/// Classifies a finding.
pub trait Classifier {
    fn classify(&self, finding: &Finding) -> Finding;
}

/// Decides a finding.
pub trait PolicyEngine {
    fn evaluate(&self, finding: &Finding) -> Decision;
}

/// Distinct identities have distinct identifiers unless SHA-256 collides on their
/// framed components: an identity is never reduced to its name, and an unresolved
/// field never matches a resolved one.
pub proof fn lemma_cookie_id_injective(a: CookieIdentityView, b: CookieIdentityView)
    requires
        parts_fit(cookie_id_parts(a)),
        parts_fit(cookie_id_parts(b)),
        spec_sha256(crate::digest::frame(cookie_id_parts(a))) == spec_sha256(
            crate::digest::frame(cookie_id_parts(b)),
        ) ==> crate::digest::frame(cookie_id_parts(a)) == crate::digest::frame(cookie_id_parts(b)),
        spec_cookie_id(a) == spec_cookie_id(b),
    ensures
        a == b,
{
    reveal_strlit("cookie:");
    let ha = spec_identity_hash(cookie_id_parts(a));
    let hb = spec_identity_hash(cookie_id_parts(b));
    assert(ha =~= spec_cookie_id(a).skip(7));
    assert(hb =~= spec_cookie_id(b).skip(7));
    crate::text::lemma_hex_lower_injective(
        spec_sha256(crate::digest::frame(cookie_id_parts(a))),
        spec_sha256(crate::digest::frame(cookie_id_parts(b))),
    );
    lemma_identity_preimage_injective(a, b);
}

} // verus!
