//! The cookie graph: applications, modules, storage operations, cookies, domains,
//! permissions and evidence, with edges between them.
use crate::digest::{identity_hash, spec_identity_hash, str_views};
use crate::model::{
    assessment_views, spec_cookie_id, Assessment, AssessmentView, CookieGraph, Edge, EdgeView,
    EvidenceView, FindingView, Node, NodeView, Operation, PermissionClass, edge_views,
    node_views, evidence_views,
};
use crate::text::{
    compare_str, concat, concat3, decimal, lemma_str_lt_order, owned, str_lt, to_decimal, Cmp,
};
use vstd::prelude::*;

verus! {

// ---------------------------------------------------------------------------
// Names
// ---------------------------------------------------------------------------

/// The variant name of an operation.
pub open spec fn operation_name(op: Operation) -> Seq<char> {
    match op {
        Operation::Create => "Create"@,
        Operation::Read => "Read"@,
        Operation::Modify => "Modify"@,
        Operation::Delete => "Delete"@,
        Operation::Send => "Send"@,
        Operation::Receive => "Receive"@,
    }
}

pub fn operation_str(op: Operation) -> (s: &'static str)
    ensures
        s@ == operation_name(op),
{
    match op {
        Operation::Create => "Create",
        Operation::Read => "Read",
        Operation::Modify => "Modify",
        Operation::Delete => "Delete",
        Operation::Send => "Send",
        Operation::Receive => "Receive",
    }
}

/// The relation from a storage operation to its cookie.
pub open spec fn operation_relation(op: Operation) -> Seq<char> {
    match op {
        Operation::Create => "creates"@,
        Operation::Read => "reads"@,
        Operation::Modify => "modifies"@,
        Operation::Delete => "deletes"@,
        Operation::Send => "sends"@,
        Operation::Receive => "receives"@,
    }
}

fn operation_relation_str(op: Operation) -> (s: &'static str)
    ensures
        s@ == operation_relation(op),
{
    match op {
        Operation::Create => "creates",
        Operation::Read => "reads",
        Operation::Modify => "modifies",
        Operation::Delete => "deletes",
        Operation::Send => "sends",
        Operation::Receive => "receives",
    }
}

/// The variant name of a permission class.
pub open spec fn class_name(c: PermissionClass) -> Seq<char> {
    match c {
        PermissionClass::Necessary => "Necessary"@,
        PermissionClass::Preferences => "Preferences"@,
        PermissionClass::Analytics => "Analytics"@,
        PermissionClass::Marketing => "Marketing"@,
        PermissionClass::Unknown => "Unknown"@,
    }
}

pub fn class_str(c: PermissionClass) -> (s: &'static str)
    ensures
        s@ == class_name(c),
{
    match c {
        PermissionClass::Necessary => "Necessary",
        PermissionClass::Preferences => "Preferences",
        PermissionClass::Analytics => "Analytics",
        PermissionClass::Marketing => "Marketing",
        PermissionClass::Unknown => "Unknown",
    }
}

// ---------------------------------------------------------------------------
// What each finding contributes
// ---------------------------------------------------------------------------

pub open spec fn app_node_id(f: FindingView) -> Seq<char> {
    "application:"@ + spec_identity_hash(seq![f.cookie.application])
}

pub open spec fn app_node(f: FindingView) -> NodeView {
    NodeView { id: app_node_id(f), kind: "Application"@, label: f.cookie.application }
}

pub open spec fn cookie_node(f: FindingView) -> NodeView {
    NodeView {
        id: spec_cookie_id(f.cookie),
        kind: "Cookie"@,
        label: match f.cookie.name {
            Some(n) => n,
            None => "unresolved"@,
        },
    }
}

pub open spec fn operation_node(f: FindingView) -> NodeView {
    NodeView { id: f.id, kind: "StorageOperation"@, label: operation_name(f.operation) }
}

pub open spec fn permission_node(f: FindingView) -> NodeView {
    NodeView {
        id: "permission:"@ + class_name(f.classification.value),
        kind: "Permission"@,
        label: class_name(f.classification.value),
    }
}

pub open spec fn domain_node(d: Seq<char>) -> NodeView {
    NodeView { id: "domain:"@ + spec_identity_hash(seq![d]), kind: "Domain"@, label: d }
}

pub open spec fn evidence_node(f: FindingView, index: int, ev: EvidenceView) -> NodeView {
    NodeView {
        id: "evidence:"@ + f.id + ":"@ + decimal(index as nat),
        kind: "Evidence"@,
        label: ev.detail,
    }
}

pub open spec fn module_node(f: FindingView, path: Seq<char>) -> NodeView {
    NodeView {
        id: "module:"@ + spec_identity_hash(seq![f.cookie.application, path]),
        kind: "Module"@,
        label: path,
    }
}

pub open spec fn edge(from: Seq<char>, relation: Seq<char>, to: Seq<char>) -> EdgeView {
    EdgeView { from, relation, to }
}

/// All evidence of a finding: its own, then its classification's.
pub open spec fn all_evidence(f: FindingView) -> Seq<EvidenceView> {
    f.evidence + f.classification.evidence
}

/// Nodes of one piece of evidence: the evidence, and its module when it has a location.
pub open spec fn evidence_item_nodes(f: FindingView, index: int, ev: EvidenceView) -> Seq<NodeView> {
    seq![evidence_node(f, index, ev)] + match ev.location {
        Some(l) => seq![module_node(f, l.path)],
        None => seq![],
    }
}

/// Edges of one piece of evidence.
pub open spec fn evidence_item_edges(f: FindingView, index: int, ev: EvidenceView) -> Seq<EdgeView> {
    seq![edge(f.id, "supported_by"@, evidence_node(f, index, ev).id)] + match ev.location {
        Some(l) => seq![
            edge(app_node_id(f), "contains"@, module_node(f, l.path).id),
            edge(module_node(f, l.path).id, "contains"@, f.id),
        ],
        None => seq![],
    }
}

pub open spec fn evidence_nodes(f: FindingView, evs: Seq<EvidenceView>) -> Seq<NodeView>
    decreases evs.len(),
{
    if evs.len() == 0 {
        seq![]
    } else {
        evidence_nodes(f, evs.drop_last()) + evidence_item_nodes(f, evs.len() - 1, evs.last())
    }
}

pub open spec fn evidence_edges(f: FindingView, evs: Seq<EvidenceView>) -> Seq<EdgeView>
    decreases evs.len(),
{
    if evs.len() == 0 {
        seq![]
    } else {
        evidence_edges(f, evs.drop_last()) + evidence_item_edges(f, evs.len() - 1, evs.last())
    }
}

/// The nodes a finding adds, in order.
pub open spec fn finding_nodes(f: FindingView) -> Seq<NodeView> {
    seq![app_node(f), cookie_node(f), operation_node(f), permission_node(f)] + match f.cookie.domain {
        Some(d) => seq![domain_node(d)],
        None => seq![],
    } + evidence_nodes(f, all_evidence(f))
}

/// The edges a finding adds, in order.
pub open spec fn finding_edges(f: FindingView) -> Seq<EdgeView> {
    seq![
        edge(cookie_node(f).id, "requires"@, permission_node(f).id),
        edge(f.id, operation_relation(f.operation), cookie_node(f).id),
    ] + match f.cookie.domain {
        Some(d) => seq![edge(cookie_node(f).id, "belongs_to"@, domain_node(d).id)],
        None => seq![],
    } + evidence_edges(f, all_evidence(f))
}

pub open spec fn graph_nodes(items: Seq<AssessmentView>) -> Seq<NodeView>
    decreases items.len(),
{
    if items.len() == 0 {
        seq![]
    } else {
        graph_nodes(items.drop_last()) + finding_nodes(items.last().finding)
    }
}

pub open spec fn graph_edges(items: Seq<AssessmentView>) -> Seq<EdgeView>
    decreases items.len(),
{
    if items.len() == 0 {
        seq![]
    } else {
        graph_edges(items.drop_last()) + finding_edges(items.last().finding)
    }
}

// ---------------------------------------------------------------------------
// Node maps and edge sets
// ---------------------------------------------------------------------------

/// Inserting nodes by id into a map: a later node replaces an earlier one.
pub open spec fn insert_all(m: Map<Seq<char>, NodeView>, s: Seq<NodeView>) -> Map<Seq<char>, NodeView>
    decreases s.len(),
{
    if s.len() == 0 {
        m
    } else {
        insert_all(m, s.drop_last()).insert(s.last().id, s.last())
    }
}

/// The nodes by id, the last insertion of each id winning.
pub open spec fn node_map(s: Seq<NodeView>) -> Map<Seq<char>, NodeView> {
    insert_all(Map::empty(), s)
}

/// Node ids are strictly increasing.
pub open spec fn ids_sorted(s: Seq<NodeView>) -> bool {
    forall|i: int, j: int| 0 <= i < j < s.len() ==> str_lt(#[trigger] s[i].id, #[trigger] s[j].id)
}

/// A sorted node list holds exactly the nodes of a map.
pub open spec fn represents(s: Seq<NodeView>, m: Map<Seq<char>, NodeView>) -> bool {
    &&& ids_sorted(s)
    &&& forall|k: int| 0 <= k < s.len() ==> m.contains_key(#[trigger] s[k].id) && m[s[k].id] == s[k]
    &&& forall|id: Seq<char>| m.contains_key(id) ==> exists|k: int| 0 <= k < s.len() && (#[trigger] s[k]).id == id
}

/// The strict order of edges: by source, relation, then target.
pub open spec fn edge_lt(a: EdgeView, b: EdgeView) -> bool {
    str_lt(a.from, b.from) || (a.from == b.from && (str_lt(a.relation, b.relation) || (a.relation
        == b.relation && str_lt(a.to, b.to))))
}

/// Edges are strictly increasing, so none occurs twice.
pub open spec fn edges_sorted(s: Seq<EdgeView>) -> bool {
    forall|i: int, j: int| 0 <= i < j < s.len() ==> edge_lt(#[trigger] s[i], #[trigger] s[j])
}

pub proof fn lemma_edge_lt_order(a: EdgeView, b: EdgeView, c: EdgeView)
    ensures
        !edge_lt(a, a),
        edge_lt(a, b) ==> !edge_lt(b, a),
        edge_lt(a, b) && edge_lt(b, c) ==> edge_lt(a, c),
        a != b ==> edge_lt(a, b) || edge_lt(b, a),
{
    lemma_str_lt_order(a.from, b.from, c.from);
    lemma_str_lt_order(a.relation, b.relation, c.relation);
    lemma_str_lt_order(a.to, b.to, c.to);
    lemma_str_lt_order(b.from, a.from, c.from);
    lemma_str_lt_order(b.relation, a.relation, c.relation);
    lemma_str_lt_order(b.to, a.to, c.to);
}

proof fn lemma_insert_all_push(m: Map<Seq<char>, NodeView>, s: Seq<NodeView>, x: NodeView)
    ensures
        insert_all(m, s.push(x)) == insert_all(m, s).insert(x.id, x),
{
    assert(s.push(x).drop_last() =~= s);
}

proof fn lemma_insert_all_concat(m: Map<Seq<char>, NodeView>, a: Seq<NodeView>, b: Seq<NodeView>)
    ensures
        insert_all(m, a + b) == insert_all(insert_all(m, a), b),
    decreases b.len(),
{
    if b.len() == 0 {
        assert(a + b =~= a);
    } else {
        lemma_insert_all_concat(m, a, b.drop_last());
        assert((a + b).drop_last() =~= a + b.drop_last());
        assert((a + b).last() == b.last());
    }
}

/// The keys of a node map are the ids inserted into it.
proof fn lemma_insert_all_keys(m: Map<Seq<char>, NodeView>, s: Seq<NodeView>, id: Seq<char>)
    ensures
        insert_all(m, s).contains_key(id) <==> (m.contains_key(id) || exists|k: int|
            0 <= k < s.len() && (#[trigger] s[k]).id == id),
    decreases s.len(),
{
    if s.len() > 0 {
        lemma_insert_all_keys(m, s.drop_last(), id);
        if exists|k: int| 0 <= k < s.len() && (#[trigger] s[k]).id == id {
            let k = choose|k: int| 0 <= k < s.len() && (#[trigger] s[k]).id == id;
            if k < s.len() - 1 {
                assert(s.drop_last()[k] == s[k]);
            }
        }
        if exists|k: int| 0 <= k < s.drop_last().len() && (#[trigger] s.drop_last()[k]).id == id {
            let k = choose|k: int| 0 <= k < s.drop_last().len() && (#[trigger] s.drop_last()[k]).id == id;
            assert(s[k] == s.drop_last()[k]);
        }
    }
}

/// Inserts a node into a sorted node list, replacing a node with the same id.
fn insert_node(nodes: &mut Vec<Node>, node: Node, Ghost(m): Ghost<Map<Seq<char>, NodeView>>)
    requires
        represents(node_views(old(nodes)@), m),
    ensures
        represents(node_views(final(nodes)@), m.insert(node@.id, node@)),
{
    let ghost s = node_views(nodes@);
    let ghost id = node@.id;
    let ghost nv = node@;
    let n = nodes.len();
    let mut p: usize = 0;
    while p < n && compare_str(nodes[p].id.as_str(), node.id.as_str()) == Cmp::Less
        invariant
            n == nodes@.len(),
            s == node_views(nodes@),
            id == node@.id,
            p <= n,
            forall|j: int| 0 <= j < p ==> str_lt(#[trigger] s[j].id, id),
        decreases n - p,
    {
        p = p + 1;
    }
    let replace = p < n && compare_str(nodes[p].id.as_str(), node.id.as_str()) == Cmp::Equal;
    proof {
        if p < n {
            lemma_str_lt_order(s[p as int].id, id, id);
        }
    }
    if replace {
        nodes.set(p, node);
        proof {
            let t = node_views(nodes@);
            assert(t =~= s.update(p as int, nv));
            let m2 = m.insert(id, nv);
            assert forall|i: int, j: int| 0 <= i < j < t.len() implies str_lt(
                #[trigger] t[i].id,
                #[trigger] t[j].id,
            ) by {
                assert(str_lt(s[i].id, s[j].id));
            }
            assert forall|k: int| 0 <= k < t.len() implies m2.contains_key(#[trigger] t[k].id)
                && m2[t[k].id] == t[k] by {
                if k != p {
                    if k < p {
                        lemma_str_lt_order(s[k].id, id, id);
                    } else {
                        assert(str_lt(s[p as int].id, s[k].id));
                        lemma_str_lt_order(id, s[k].id, id);
                    }
                    assert(t[k].id != id);
                }
            }
            assert forall|x: Seq<char>| m2.contains_key(x) implies exists|k: int|
                0 <= k < t.len() && (#[trigger] t[k]).id == x by {
                if x == id {
                    assert(t[p as int].id == x);
                } else {
                    let k = choose|k: int| 0 <= k < s.len() && (#[trigger] s[k]).id == x;
                    assert(t[k].id == x);
                }
            }
        }
    } else {
        nodes.insert(p, node);
        proof {
            let t = node_views(nodes@);
            assert(t =~= s.insert(p as int, nv));
            let m2 = m.insert(id, nv);
            // Every old id after position p is above the new id.
            assert forall|k: int| p <= k < s.len() implies str_lt(id, #[trigger] s[k].id) by {
                lemma_str_lt_order(id, s[p as int].id, s[k].id);
                if k > p {
                    assert(str_lt(s[p as int].id, s[k].id));
                }
            }
            assert forall|i: int, j: int| 0 <= i < j < t.len() implies str_lt(
                #[trigger] t[i].id,
                #[trigger] t[j].id,
            ) by {
                if j < p {
                    assert(str_lt(s[i].id, s[j].id));
                } else if j == p {
                } else if i < p {
                    lemma_str_lt_order(s[i].id, id, s[j - 1].id);
                } else if i == p {
                } else {
                    assert(str_lt(s[i - 1].id, s[j - 1].id));
                }
            }
            assert forall|k: int| 0 <= k < t.len() implies m2.contains_key(#[trigger] t[k].id)
                && m2[t[k].id] == t[k] by {
                if k < p {
                    lemma_str_lt_order(s[k].id, id, id);
                    assert(t[k] == s[k]);
                } else if k > p {
                    lemma_str_lt_order(id, s[k - 1].id, id);
                    assert(t[k] == s[k - 1]);
                }
            }
            assert forall|x: Seq<char>| m2.contains_key(x) implies exists|k: int|
                0 <= k < t.len() && (#[trigger] t[k]).id == x by {
                if x == id {
                    assert(t[p as int].id == x);
                } else {
                    let k = choose|k: int| 0 <= k < s.len() && (#[trigger] s[k]).id == x;
                    if k < p {
                        assert(t[k].id == x);
                    } else {
                        assert(t[k + 1].id == x);
                    }
                }
            }
        }
    }
}

/// Inserts an edge into a sorted edge list, unless it is already there.
fn insert_edge(edges: &mut Vec<Edge>, e: Edge)
    requires
        edges_sorted(edge_views(old(edges)@)),
    ensures
        edges_sorted(edge_views(final(edges)@)),
        edge_views(final(edges)@).to_set() == edge_views(old(edges)@).to_set().insert(e@),
{
    let ghost s = edge_views(edges@);
    let ghost ev = e@;
    let n = edges.len();
    let mut p: usize = 0;
    while p < n && compare_edges(&edges[p], &e) == Cmp::Less
        invariant
            n == edges@.len(),
            s == edge_views(edges@),
            ev == e@,
            p <= n,
            forall|j: int| 0 <= j < p ==> edge_lt(#[trigger] s[j], ev),
        decreases n - p,
    {
        p = p + 1;
    }
    proof {
        if p < n {
            lemma_edge_lt_order(s[p as int], ev, ev);
        }
    }
    if p < n && compare_edges(&edges[p], &e) == Cmp::Equal {
        proof {
            assert(s.to_set().insert(ev) =~= s.to_set()) by {
                assert(s.to_set().contains(s[p as int]));
            }
        }
    } else {
        edges.insert(p, e);
        proof {
            let t = edge_views(edges@);
            assert(t =~= s.insert(p as int, ev));
            assert forall|k: int| p <= k < s.len() implies edge_lt(ev, #[trigger] s[k]) by {
                lemma_edge_lt_order(ev, s[p as int], s[k]);
                if k > p {
                    assert(edge_lt(s[p as int], s[k]));
                }
            }
            assert forall|i: int, j: int| 0 <= i < j < t.len() implies edge_lt(
                #[trigger] t[i],
                #[trigger] t[j],
            ) by {
                if j < p {
                    assert(edge_lt(s[i], s[j]));
                } else if j == p {
                } else if i < p {
                    lemma_edge_lt_order(s[i], ev, s[j - 1]);
                } else if i == p {
                } else {
                    assert(edge_lt(s[i - 1], s[j - 1]));
                }
            }
            assert(t.to_set() =~= s.to_set().insert(ev)) by {
                assert forall|x: EdgeView| t.to_set().contains(x) <==> s.to_set().insert(ev).contains(x) by {
                    if t.to_set().contains(x) {
                        let k = choose|k: int| 0 <= k < t.len() && t[k] == x;
                        if k < p {
                            assert(s[k] == x);
                        } else if k > p {
                            assert(s[k - 1] == x);
                        }
                    }
                    if s.to_set().contains(x) {
                        let k = choose|k: int| 0 <= k < s.len() && s[k] == x;
                        if k < p {
                            assert(t[k] == x);
                        } else {
                            assert(t[k + 1] == x);
                        }
                    }
                    if x == ev {
                        assert(t[p as int] == x);
                    }
                }
            }
        }
    }
}

/// Compares edges by source, relation and target.
fn compare_edges(a: &Edge, b: &Edge) -> (c: Cmp)
    ensures
        c == Cmp::Less <==> edge_lt(a@, b@),
        c == Cmp::Equal <==> a@ == b@,
        c == Cmp::Greater <==> edge_lt(b@, a@),
{
    proof {
        lemma_edge_lt_order(a@, b@, a@);
    }
    match compare_str(a.from.as_str(), b.from.as_str()) {
        Cmp::Equal => match compare_str(a.relation.as_str(), b.relation.as_str()) {
            Cmp::Equal => compare_str(a.to.as_str(), b.to.as_str()),
            other => other,
        },
        other => other,
    }
}

// ---------------------------------------------------------------------------
// Building the graph
// ---------------------------------------------------------------------------

/// The graph under construction: sorted nodes standing for a node map, sorted edges.
struct Builder {
    nodes: Vec<Node>,
    edges: Vec<Edge>,
}

pub open spec fn builder_state(
    nodes: Seq<NodeView>,
    edges: Seq<EdgeView>,
    pushed_nodes: Seq<NodeView>,
    pushed_edges: Seq<EdgeView>,
) -> bool {
    &&& represents(nodes, node_map(pushed_nodes))
    &&& edges_sorted(edges)
    &&& edges.to_set() == pushed_edges.to_set()
}

impl Builder {
    fn add(&mut self, id: String, kind: &str, label: String, Ghost(pn): Ghost<Seq<NodeView>>, Ghost(pe): Ghost<Seq<EdgeView>>)
        requires
            builder_state(node_views(old(self).nodes@), edge_views(old(self).edges@), pn, pe),
        ensures
            builder_state(
                node_views(final(self).nodes@),
                edge_views(final(self).edges@),
                pn.push(NodeView { id: id@, kind: kind@, label: label@ }),
                pe,
            ),
    {
        let node = Node { id, kind: owned(kind), label };
        proof {
            lemma_insert_all_push(Map::empty(), pn, node@);
        }
        insert_node(&mut self.nodes, node, Ghost(node_map(pn)));
    }

    fn link(&mut self, from: &String, relation: &str, to: &String, Ghost(pn): Ghost<Seq<NodeView>>, Ghost(pe): Ghost<Seq<EdgeView>>)
        requires
            builder_state(node_views(old(self).nodes@), edge_views(old(self).edges@), pn, pe),
        ensures
            builder_state(
                node_views(final(self).nodes@),
                edge_views(final(self).edges@),
                pn,
                pe.push(EdgeView { from: from@, relation: relation@, to: to@ }),
            ),
    {
        let e = Edge { from: from.clone(), relation: owned(relation), to: to.clone() };
        insert_edge(&mut self.edges, e);
        proof {
            assert(pe.push(e@).to_set() =~= pe.to_set().insert(e@)) by {
                assert forall|x: EdgeView| pe.push(e@).to_set().contains(x) <==> pe.to_set().insert(e@).contains(x) by {
                    if pe.push(e@).to_set().contains(x) {
                        let k = choose|k: int| 0 <= k < pe.len() + 1 && pe.push(e@)[k] == x;
                        if k < pe.len() {
                            assert(pe[k] == x);
                        }
                    }
                    if pe.to_set().contains(x) {
                        let k = choose|k: int| 0 <= k < pe.len() && pe[k] == x;
                        assert(pe.push(e@)[k] == x);
                    }
                    if x == e@ {
                        assert(pe.push(e@)[pe.len() as int] == x);
                    }
                }
            }
        }
    }
}


/// A finding's evidence, its own first, then its classification's.
fn chained_evidence(f: &crate::model::Finding) -> (v: Vec<crate::model::Evidence>)
    ensures
        evidence_views(v@) == all_evidence(f@),
{
    let mut v = crate::model::copy_evidence(&f.evidence);
    let extra = &f.classification.evidence;
    let n0 = f.evidence.len();
    proof {
        assert(evidence_views(v@).len() == v@.len());
        assert(evidence_views(f.evidence@).len() == f.evidence@.len());
        assert forall|j: int| 0 <= j < n0 implies (#[trigger] v@[j])@ == f.evidence@[j]@ by {
            assert(evidence_views(v@)[j] == v@[j]@);
            assert(evidence_views(f.evidence@)[j] == f.evidence@[j]@);
        }
    }
    let mut k: usize = 0;
    while k < extra.len()
        invariant
            k <= extra@.len(),
            n0 == f.evidence@.len(),
            v@.len() == n0 + k,
            forall|j: int| 0 <= j < n0 ==> (#[trigger] v@[j])@ == f.evidence@[j]@,
            forall|j: int| 0 <= j < k ==> (#[trigger] v@[n0 + j])@ == extra@[j]@,
        decreases extra.len() - k,
    {
        v.push(extra[k].clone());
        k = k + 1;
    }
    proof {
        let all = all_evidence(f@);
        assert forall|j: int| 0 <= j < v@.len() implies evidence_views(v@)[j] == all[j] by {
            if j >= n0 {
                assert(v@[n0 + (j - n0)] == v@[j]);
            }
        }
        assert(evidence_views(v@) =~= all);
    }
    v
}

proof fn lemma_evidence_nodes_step(f: FindingView, evs: Seq<EvidenceView>, k: int)
    requires
        0 <= k < evs.len(),
    ensures
        evidence_nodes(f, evs.take(k + 1)) == evidence_nodes(f, evs.take(k))
            + evidence_item_nodes(f, k, evs[k]),
        evidence_edges(f, evs.take(k + 1)) == evidence_edges(f, evs.take(k))
            + evidence_item_edges(f, k, evs[k]),
{
    assert(evs.take(k + 1).drop_last() =~= evs.take(k));
    assert(evs.take(k + 1).last() == evs[k]);
}

impl Builder {
    /// Adds one piece of evidence of a finding.
    fn add_evidence(
        &mut self,
        f: &crate::model::Finding,
        app_id: &String,
        index: usize,
        ev: &crate::model::Evidence,
        Ghost(pn): Ghost<Seq<NodeView>>,
        Ghost(pe): Ghost<Seq<EdgeView>>,
    )
        requires
            builder_state(node_views(old(self).nodes@), edge_views(old(self).edges@), pn, pe),
            app_id@ == app_node_id(f@),
        ensures
            builder_state(
                node_views(final(self).nodes@),
                edge_views(final(self).edges@),
                pn + evidence_item_nodes(f@, index as int, ev@),
                pe + evidence_item_edges(f@, index as int, ev@),
            ),
    {
        let index_text = to_decimal(index);
        let mut evidence_id = concat3("evidence:", f.id.as_str(), ":");
        evidence_id.append(index_text.as_str());
        assert(evidence_id@ == evidence_node(f@, index as int, ev@).id);
        self.add(evidence_id.clone(), "Evidence", ev.detail.clone(), Ghost(pn), Ghost(pe));
        let ghost pn1 = pn.push(evidence_node(f@, index as int, ev@));
        self.link(&f.id, "supported_by", &evidence_id, Ghost(pn1), Ghost(pe));
        let ghost pe1 = pe.push(edge(f@.id, "supported_by"@, evidence_node(f@, index as int, ev@).id));
        match &ev.location {
            Some(loc) => {
                let label = loc.path.clone();
                let parts = [f.cookie.application.as_str(), label.as_str()];
                assert(str_views(parts@) =~= seq![f@.cookie.application, label@]);
                let module_id = concat("module:", identity_hash(&parts).as_str());
                assert(module_id@ == module_node(f@, loc@.path).id);
                assert(label@ == loc@.path);
                self.add(module_id.clone(), "Module", label, Ghost(pn1), Ghost(pe1));
                let ghost pn2 = pn1.push(module_node(f@, loc@.path));
                self.link(app_id, "contains", &module_id, Ghost(pn2), Ghost(pe1));
                let ghost pe2 = pe1.push(edge(app_node_id(f@), "contains"@, module_node(f@, loc@.path).id));
                self.link(&module_id, "contains", &f.id, Ghost(pn2), Ghost(pe2));
                proof {
                    assert(evidence_item_nodes(f@, index as int, ev@) =~= seq![
                        evidence_node(f@, index as int, ev@),
                        module_node(f@, loc@.path),
                    ]);
                    assert(pn2 =~= pn + evidence_item_nodes(f@, index as int, ev@));
                    assert(evidence_item_edges(f@, index as int, ev@) =~= seq![
                        edge(f@.id, "supported_by"@, evidence_node(f@, index as int, ev@).id),
                        edge(app_node_id(f@), "contains"@, module_node(f@, loc@.path).id),
                        edge(module_node(f@, loc@.path).id, "contains"@, f@.id),
                    ]);
                    assert(pe2.push(edge(module_node(f@, loc@.path).id, "contains"@, f@.id)) =~= pe
                        + evidence_item_edges(f@, index as int, ev@));
                }
            },
            None => {
                proof {
                    assert(pn1 =~= pn + evidence_item_nodes(f@, index as int, ev@));
                    assert(pe1 =~= pe + evidence_item_edges(f@, index as int, ev@));
                }
            },
        }
    }

    /// Adds everything a finding contributes.
    fn add_finding(
        &mut self,
        f: &crate::model::Finding,
        Ghost(pn): Ghost<Seq<NodeView>>,
        Ghost(pe): Ghost<Seq<EdgeView>>,
    )
        requires
            builder_state(node_views(old(self).nodes@), edge_views(old(self).edges@), pn, pe),
        ensures
            builder_state(
                node_views(final(self).nodes@),
                edge_views(final(self).edges@),
                pn + finding_nodes(f@),
                pe + finding_edges(f@),
            ),
    {
        let app_parts = [f.cookie.application.as_str()];
        assert(str_views(app_parts@) =~= seq![f@.cookie.application]);
        let app_id = concat("application:", identity_hash(&app_parts).as_str());
        self.add(app_id.clone(), "Application", f.cookie.application.clone(), Ghost(pn), Ghost(pe));
        let ghost n1 = pn.push(app_node(f@));
        let cookie_id = f.cookie.id();
        let cookie_label = match &f.cookie.name {
            Some(name) => name.clone(),
            None => owned("unresolved"),
        };
        self.add(cookie_id.clone(), "Cookie", cookie_label, Ghost(n1), Ghost(pe));
        let ghost n2 = n1.push(cookie_node(f@));
        self.add(f.id.clone(), "StorageOperation", owned(operation_str(f.operation)), Ghost(n2), Ghost(pe));
        let ghost n3 = n2.push(operation_node(f@));
        let class = f.classification.value;
        let permission_id = concat("permission:", class_str(class));
        self.add(permission_id.clone(), "Permission", owned(class_str(class)), Ghost(n3), Ghost(pe));
        let ghost n4 = n3.push(permission_node(f@));
        self.link(&cookie_id, "requires", &permission_id, Ghost(n4), Ghost(pe));
        let ghost e1 = pe.push(edge(cookie_node(f@).id, "requires"@, permission_node(f@).id));
        self.link(&f.id, operation_relation_str(f.operation), &cookie_id, Ghost(n4), Ghost(e1));
        let ghost e2 = e1.push(edge(f@.id, operation_relation(f@.operation), cookie_node(f@).id));
        proof {
            assert(n4 =~= pn + seq![app_node(f@), cookie_node(f@), operation_node(f@), permission_node(f@)]);
            assert(e2 =~= pe + seq![
                edge(cookie_node(f@).id, "requires"@, permission_node(f@).id),
                edge(f@.id, operation_relation(f@.operation), cookie_node(f@).id),
            ]);
        }
        let ghost mut nn = n4;
        let ghost mut ne = e2;
        match &f.cookie.domain {
            Some(domain) => {
                let parts = [domain.as_str()];
                assert(str_views(parts@) =~= seq![domain@]);
                let domain_id = concat("domain:", identity_hash(&parts).as_str());
                self.add(domain_id.clone(), "Domain", domain.clone(), Ghost(n4), Ghost(e2));
                let ghost n5 = n4.push(domain_node(domain@));
                self.link(&cookie_id, "belongs_to", &domain_id, Ghost(n5), Ghost(e2));
                proof {
                    nn = n5;
                    ne = e2.push(edge(cookie_node(f@).id, "belongs_to"@, domain_node(domain@).id));
                }
            },
            None => {},
        }
        let ghost base_n = nn;
        let ghost base_e = ne;
        proof {
            assert(base_n =~= pn + (seq![app_node(f@), cookie_node(f@), operation_node(f@), permission_node(f@)] + match f@.cookie.domain {
                Some(d) => seq![domain_node(d)],
                None => Seq::<NodeView>::empty(),
            }));
            assert(base_e =~= pe + (seq![
                edge(cookie_node(f@).id, "requires"@, permission_node(f@).id),
                edge(f@.id, operation_relation(f@.operation), cookie_node(f@).id),
            ] + match f@.cookie.domain {
                Some(d) => seq![edge(cookie_node(f@).id, "belongs_to"@, domain_node(d).id)],
                None => Seq::<EdgeView>::empty(),
            }));
        }
        let evidence = chained_evidence(f);
        let ghost evs = all_evidence(f@);
        let mut k: usize = 0;
        proof {
            assert(evs.take(0) =~= Seq::<EvidenceView>::empty());
            assert(base_n + evidence_nodes(f@, evs.take(0)) =~= base_n);
            assert(base_e + evidence_edges(f@, evs.take(0)) =~= base_e);
        }
        while k < evidence.len()
            invariant
                k <= evidence@.len(),
                evidence_views(evidence@) == evs,
                evs == all_evidence(f@),
                app_id@ == app_node_id(f@),
                builder_state(
                    node_views(self.nodes@),
                    edge_views(self.edges@),
                    base_n + evidence_nodes(f@, evs.take(k as int)),
                    base_e + evidence_edges(f@, evs.take(k as int)),
                ),
            decreases evidence.len() - k,
        {
            let ghost cur_n = base_n + evidence_nodes(f@, evs.take(k as int));
            let ghost cur_e = base_e + evidence_edges(f@, evs.take(k as int));
            self.add_evidence(f, &app_id, k, &evidence[k], Ghost(cur_n), Ghost(cur_e));
            proof {
                assert(evidence[k as int]@ == evs[k as int]);
                lemma_evidence_nodes_step(f@, evs, k as int);
                assert(cur_n + evidence_item_nodes(f@, k as int, evs[k as int]) =~= base_n
                    + evidence_nodes(f@, evs.take(k + 1)));
                assert(cur_e + evidence_item_edges(f@, k as int, evs[k as int]) =~= base_e
                    + evidence_edges(f@, evs.take(k + 1)));
            }
            k = k + 1;
        }
        proof {
            assert(evs.take(k as int) =~= evs);
            assert(base_n + evidence_nodes(f@, evs) =~= pn + finding_nodes(f@));
            assert(base_e + evidence_edges(f@, evs) =~= pe + finding_edges(f@));
        }
    }
}

proof fn lemma_graph_step(items: Seq<AssessmentView>, i: int)
    requires
        0 <= i < items.len(),
    ensures
        graph_nodes(items.take(i + 1)) == graph_nodes(items.take(i)) + finding_nodes(items[i].finding),
        graph_edges(items.take(i + 1)) == graph_edges(items.take(i)) + finding_edges(items[i].finding),
{
    assert(items.take(i + 1).drop_last() =~= items.take(i));
    assert(items.take(i + 1).last() == items[i]);
}

/// A node with this id occurs in the list.
pub open spec fn has_id(s: Seq<NodeView>, id: Seq<char>) -> bool {
    exists|k: int| 0 <= k < s.len() && (#[trigger] s[k]).id == id
}

proof fn lemma_has_id_concat(a: Seq<NodeView>, b: Seq<NodeView>, id: Seq<char>)
    ensures
        has_id(a, id) ==> has_id(a + b, id),
        has_id(b, id) ==> has_id(a + b, id),
{
    if has_id(a, id) {
        let k = choose|k: int| 0 <= k < a.len() && (#[trigger] a[k]).id == id;
        assert((a + b)[k] == a[k]);
    }
    if has_id(b, id) {
        let k = choose|k: int| 0 <= k < b.len() && (#[trigger] b[k]).id == id;
        assert((a + b)[a.len() + k] == b[k]);
    }
}

proof fn lemma_evidence_edges_resolve(f: FindingView, evs: Seq<EvidenceView>)
    ensures
        forall|k: int|
            0 <= k < evidence_edges(f, evs).len() ==> {
                let e = #[trigger] evidence_edges(f, evs)[k];
                &&& (e.from == f.id || e.from == app_node_id(f) || has_id(evidence_nodes(f, evs), e.from))
                &&& (e.to == f.id || has_id(evidence_nodes(f, evs), e.to))
            },
    decreases evs.len(),
{
    if evs.len() > 0 {
        let init = evs.drop_last();
        lemma_evidence_edges_resolve(f, init);
        let idx = evs.len() - 1;
        let ev = evs.last();
        let en = evidence_nodes(f, init);
        let items = evidence_item_nodes(f, idx, ev);
        let ee = evidence_edges(f, init);
        let ie = evidence_item_edges(f, idx, ev);
        assert forall|k: int| 0 <= k < evidence_edges(f, evs).len() implies {
            let e = #[trigger] evidence_edges(f, evs)[k];
            &&& (e.from == f.id || e.from == app_node_id(f) || has_id(evidence_nodes(f, evs), e.from))
            &&& (e.to == f.id || has_id(evidence_nodes(f, evs), e.to))
        } by {
            let e = evidence_edges(f, evs)[k];
            if k < ee.len() {
                assert(e == ee[k]);
                lemma_has_id_concat(en, items, e.from);
                lemma_has_id_concat(en, items, e.to);
            } else {
                assert(e == ie[k - ee.len()]);
                assert(items[0] == evidence_node(f, idx, ev));
                lemma_has_id_concat(en, items, evidence_node(f, idx, ev).id);
                if ev.location is Some {
                    assert(items[1] == module_node(f, ev.location->0.path));
                    lemma_has_id_concat(en, items, module_node(f, ev.location->0.path).id);
                }
            }
        }
    }
}

proof fn lemma_finding_edges_resolve(f: FindingView)
    ensures
        forall|k: int|
            0 <= k < finding_edges(f).len() ==> has_id(finding_nodes(f), (#[trigger] finding_edges(f)[k]).from)
                && has_id(finding_nodes(f), finding_edges(f)[k].to),
{
    lemma_evidence_edges_resolve(f, all_evidence(f));
    let fixed = seq![app_node(f), cookie_node(f), operation_node(f), permission_node(f)];
    let dn = match f.cookie.domain {
        Some(d) => seq![domain_node(d)],
        None => Seq::<NodeView>::empty(),
    };
    let evn = evidence_nodes(f, all_evidence(f));
    let fn_ = finding_nodes(f);
    assert(fn_ == fixed + dn + evn);
    let fe = finding_edges(f);
    let fixed_e = seq![
        edge(cookie_node(f).id, "requires"@, permission_node(f).id),
        edge(f.id, operation_relation(f.operation), cookie_node(f).id),
    ];
    let de = match f.cookie.domain {
        Some(d) => seq![edge(cookie_node(f).id, "belongs_to"@, domain_node(d).id)],
        None => Seq::<EdgeView>::empty(),
    };
    let eve = evidence_edges(f, all_evidence(f));
    assert(fe == fixed_e + de + eve);
    // The first four nodes and the domain node are in the finding's nodes.
    assert(fn_[0] == app_node(f));
    assert(fn_[1] == cookie_node(f));
    assert(fn_[2] == operation_node(f));
    assert(fn_[3] == permission_node(f));
    assert(has_id(fn_, app_node(f).id));
    assert(has_id(fn_, cookie_node(f).id));
    assert(has_id(fn_, f.id));
    assert(has_id(fn_, permission_node(f).id));
    if f.cookie.domain is Some {
        assert(fn_[4] == domain_node(f.cookie.domain->0));
        assert(has_id(fn_, domain_node(f.cookie.domain->0).id));
    }
    assert forall|k: int| 0 <= k < fe.len() implies has_id(fn_, (#[trigger] fe[k]).from) && has_id(fn_, fe[k].to) by {
        let e = fe[k];
        let off = fixed_e.len() + de.len();
        if k >= off {
            assert(e == eve[k - off]);
            lemma_has_id_concat(fixed + dn, evn, e.from);
            lemma_has_id_concat(fixed + dn, evn, e.to);
        }
    }
}

/// Every edge of the graph of some assessments joins two of its nodes.
pub proof fn lemma_edges_resolve(items: Seq<AssessmentView>)
    ensures
        forall|k: int|
            0 <= k < graph_edges(items).len() ==> has_id(graph_nodes(items), (#[trigger] graph_edges(items)[k]).from)
                && has_id(graph_nodes(items), graph_edges(items)[k].to),
    decreases items.len(),
{
    if items.len() > 0 {
        let init = items.drop_last();
        let f = items.last().finding;
        lemma_edges_resolve(init);
        lemma_finding_edges_resolve(f);
        let gn = graph_nodes(init);
        let ge = graph_edges(init);
        assert forall|k: int| 0 <= k < graph_edges(items).len() implies has_id(graph_nodes(items), (#[trigger] graph_edges(items)[k]).from)
            && has_id(graph_nodes(items), graph_edges(items)[k].to) by {
            let e = graph_edges(items)[k];
            if k < ge.len() {
                assert(e == ge[k]);
                lemma_has_id_concat(gn, finding_nodes(f), e.from);
                lemma_has_id_concat(gn, finding_nodes(f), e.to);
            } else {
                assert(e == finding_edges(f)[k - ge.len()]);
                lemma_has_id_concat(gn, finding_nodes(f), e.from);
                lemma_has_id_concat(gn, finding_nodes(f), e.to);
            }
        }
    }
}

/// The graph of some assessments: its nodes stand for the last node added under each
/// id, in id order; its edges are every added edge, once each, in edge order.
pub open spec fn is_graph_of(nodes: Seq<NodeView>, edges: Seq<EdgeView>, items: Seq<AssessmentView>) -> bool {
    &&& represents(nodes, node_map(graph_nodes(items)))
    &&& edges_sorted(edges)
    &&& edges.to_set() == graph_edges(items).to_set()
}

/// Every edge of a graph built from assessments starts and ends at one of its nodes:
/// graph references always resolve.
pub proof fn lemma_graph_references_resolve(
    nodes: Seq<NodeView>,
    edges: Seq<EdgeView>,
    items: Seq<AssessmentView>,
)
    requires
        is_graph_of(nodes, edges, items),
    ensures
        forall|k: int| 0 <= k < edges.len() ==> has_id(nodes, (#[trigger] edges[k]).from) && has_id(nodes, edges[k].to),
{
    lemma_edges_resolve(items);
    assert forall|k: int| 0 <= k < edges.len() implies has_id(nodes, (#[trigger] edges[k]).from) && has_id(nodes, edges[k].to) by {
        let e = edges[k];
        assert(edges.to_set().contains(e));
        assert(graph_edges(items).to_set().contains(e));
        let j = choose|j: int| 0 <= j < graph_edges(items).len() && graph_edges(items)[j] == e;
        assert(has_id(graph_nodes(items), graph_edges(items)[j].from));
        assert(has_id(graph_nodes(items), graph_edges(items)[j].to));
        lemma_insert_all_keys(Map::empty(), graph_nodes(items), e.from);
        lemma_insert_all_keys(Map::empty(), graph_nodes(items), e.to);
    }
}

impl CookieGraph {
    /// The graph of a set of assessments.
    pub fn from_assessments(items: &[Assessment]) -> (g: CookieGraph)
        ensures
            is_graph_of(node_views(g.nodes@), edge_views(g.edges@), assessment_views(items@)),
            forall|k: int|
                0 <= k < g.edges@.len() ==> has_id(node_views(g.nodes@), (#[trigger] g.edges@[k])@.from)
                    && has_id(node_views(g.nodes@), g.edges@[k]@.to),
    {
        let mut b = Builder { nodes: Vec::new(), edges: Vec::new() };
        let ghost views = assessment_views(items@);
        proof {
            assert(views.take(0) =~= Seq::<AssessmentView>::empty());
            assert(node_views(b.nodes@) =~= Seq::<NodeView>::empty());
            assert(edge_views(b.edges@) =~= Seq::<EdgeView>::empty());
            assert(Seq::<EdgeView>::empty().to_set() =~= graph_edges(views.take(0)).to_set());
        }
        let mut i: usize = 0;
        while i < items.len()
            invariant
                i <= items@.len(),
                views == assessment_views(items@),
                builder_state(
                    node_views(b.nodes@),
                    edge_views(b.edges@),
                    graph_nodes(views.take(i as int)),
                    graph_edges(views.take(i as int)),
                ),
            decreases items.len() - i,
        {
            b.add_finding(
                &items[i].finding,
                Ghost(graph_nodes(views.take(i as int))),
                Ghost(graph_edges(views.take(i as int))),
            );
            proof {
                lemma_graph_step(views, i as int);
            }
            i = i + 1;
        }
        proof {
            assert(views.take(i as int) =~= views);
        }
        let g = CookieGraph { nodes: b.nodes, edges: b.edges };
        proof {
            lemma_graph_references_resolve(node_views(g.nodes@), edge_views(g.edges@), views);
            assert forall|k: int| 0 <= k < g.edges@.len() implies has_id(node_views(g.nodes@), (#[trigger] g.edges@[k])@.from)
                && has_id(node_views(g.nodes@), g.edges@[k]@.to) by {
                assert(edge_views(g.edges@)[k] == g.edges@[k]@);
            }
        }
        g
    }
}
/// The third-person singular of an English verb: `-y` becomes `-ies`, otherwise `-s`.
pub open spec fn third_person(verb: Seq<char>) -> Seq<char> {
    if verb.len() > 0 && verb.last() == 'y' {
        verb.drop_last() + "ies"@
    } else {
        verb + "s"@
    }
}

/// The relation from a storage operation to its cookie is the operation's own name
/// as a verb ("reads" for a read, "creates" for a creation, ...), and distinct
/// operations have distinct relations.
pub proof fn lemma_operation_relations(op1: Operation, op2: Operation)
    ensures
        operation_relation(op1) == third_person(crate::json::operation_key(op1)),
        op1 != op2 ==> operation_relation(op1) != operation_relation(op2),
{
    reveal_strlit("create");
    reveal_strlit("read");
    reveal_strlit("modify");
    reveal_strlit("delete");
    reveal_strlit("send");
    reveal_strlit("receive");
    reveal_strlit("creates");
    reveal_strlit("reads");
    reveal_strlit("modifies");
    reveal_strlit("deletes");
    reveal_strlit("sends");
    reveal_strlit("receives");
    reveal_strlit("s");
    reveal_strlit("ies");
    match op1 {
        Operation::Create => assert("creates"@ =~= "create"@ + "s"@),
        Operation::Read => assert("reads"@ =~= "read"@ + "s"@),
        Operation::Modify => assert("modifies"@ =~= "modify"@.drop_last() + "ies"@),
        Operation::Delete => assert("deletes"@ =~= "delete"@ + "s"@),
        Operation::Send => assert("sends"@ =~= "send"@ + "s"@),
        Operation::Receive => assert("receives"@ =~= "receive"@ + "s"@),
    }
    if op1 != op2 {
        assert(operation_relation(op1).len() != operation_relation(op2).len()
            || operation_relation(op1)[0] != operation_relation(op2)[0]);
    }
}

/// The graph has, for every assessment, an edge from its storage operation to its
/// cookie that names the operation.
pub proof fn lemma_operation_edges(items: Seq<AssessmentView>, k: int)
    requires
        0 <= k < items.len(),
    ensures
        graph_edges(items).contains(
            edge(
                items[k].finding.id,
                third_person(crate::json::operation_key(items[k].finding.operation)),
                spec_cookie_id(items[k].finding.cookie),
            ),
        ),
    decreases items.len(),
{
    let op = items[k].finding.operation;
    lemma_operation_relations(op, op);
    let init = items.drop_last();
    if k < init.len() {
        assert(init[k] == items[k]);
        lemma_operation_edges(init, k);
        let e = edge(
            items[k].finding.id,
            third_person(crate::json::operation_key(op)),
            spec_cookie_id(items[k].finding.cookie),
        );
        let j = choose|j: int| 0 <= j < graph_edges(init).len() && graph_edges(init)[j] == e;
        assert(graph_edges(items) == graph_edges(init) + finding_edges(items.last().finding));
        assert(graph_edges(items)[j] == e);
    } else {
        let f = items.last().finding;
        assert(items.last() == items[k]);
        let fe = finding_edges(f);
        assert(fe[1] == edge(f.id, operation_relation(f.operation), cookie_node(f).id));
        let n = graph_edges(init).len() as int;
        assert(graph_edges(items) == graph_edges(init) + fe);
        assert(graph_edges(items)[n + 1] == fe[1]);
    }
}

} // verus!
