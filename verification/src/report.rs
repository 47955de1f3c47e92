//! One report per command, including command failures and evidence; every output
//! format derives from it.
use crate::cookie::string_from_chars;
use crate::enforce::{EnforcementPlan, EnforcementPlanView, PolicyLock, PolicyLockView};
use crate::graph::{has_id, is_graph_of};
use crate::model::{
    assessment_views, diagnostic_views, Assessment, AssessmentView,
    CookieGraph, CookieGraphView, Diagnostic, DiagnosticView, SCHEMA_VERSION,
};
use crate::enforce::{decision_name, decision_name_str, first_location, first_location_of};
use crate::graph::{class_name, class_str, operation_name, operation_str};
use crate::model::{evidence_views, Evidence, EvidenceView};
use crate::text::{concat3, decimal, str_eq, to_decimal, utf8};
use vstd::prelude::*;

verus! {

broadcast use vstd::utf8::group_utf8_lib;

/// A machine-readable artifact attached to a report.
#[derive(Debug, PartialEq, Eq)]
pub enum Artifact {
    Plan(EnforcementPlan),
    Lock(PolicyLock),
}

pub enum ArtifactView {
    Plan(EnforcementPlanView),
    Lock(PolicyLockView),
}

impl View for Artifact {
    type V = ArtifactView;

    open spec fn view(&self) -> ArtifactView {
        match self {
            Artifact::Plan(p) => ArtifactView::Plan(p@),
            Artifact::Lock(l) => ArtifactView::Lock(l@),
        }
    }
}

pub open spec fn opt_artifact_view(a: Option<Artifact>) -> Option<ArtifactView> {
    match a {
        Some(x) => Some(x@),
        None => None,
    }
}

/// The result of a command.
#[derive(Debug)]
pub struct Report {
    pub schema_version: u32,
    pub command: String,
    pub application: String,
    pub analysis_scope: String,
    pub assessments: Vec<Assessment>,
    pub graph: CookieGraph,
    pub diagnostics: Vec<Diagnostic>,
    pub exit_code: u8,
    pub artifact: Option<Artifact>,
}

pub struct ReportView {
    pub schema_version: u32,
    pub command: Seq<char>,
    pub application: Seq<char>,
    pub analysis_scope: Seq<char>,
    pub assessments: Seq<AssessmentView>,
    pub graph: CookieGraphView,
    pub diagnostics: Seq<DiagnosticView>,
    pub exit_code: u8,
    pub artifact: Option<ArtifactView>,
}

impl View for Report {
    type V = ReportView;

    open spec fn view(&self) -> ReportView {
        ReportView {
            schema_version: self.schema_version,
            command: self.command@,
            application: self.application@,
            analysis_scope: self.analysis_scope@,
            assessments: assessment_views(self.assessments@),
            graph: self.graph@,
            diagnostics: diagnostic_views(self.diagnostics@),
            exit_code: self.exit_code,
            artifact: opt_artifact_view(self.artifact),
        }
    }
}

/// What the analysis covers and does not.
pub open spec fn analysis_scope() -> Seq<char> {
    "lexical static analysis only; no runtime observation or enforcement attestation"@
}

/// The graph of a report is the graph of its assessments, and its references resolve.
pub open spec fn graph_of(g: CookieGraphView, items: Seq<AssessmentView>) -> bool {
    &&& is_graph_of(g.nodes, g.edges, items)
    &&& forall|k: int|
        0 <= k < g.edges.len() ==> has_id(g.nodes, (#[trigger] g.edges[k]).from) && has_id(
            g.nodes,
            g.edges[k].to,
        )
}

impl Report {
    /// A report of `assessments` for `command` on `application`, with their graph,
    /// no diagnostics and exit code 0.
    pub fn new(command: &str, application: &str, assessments: Vec<Assessment>) -> (r: Report)
        ensures
            r@.schema_version == SCHEMA_VERSION,
            r@.command == command@,
            r@.application == application@,
            r@.analysis_scope == analysis_scope(),
            r@.assessments == assessment_views(assessments@),
            graph_of(r@.graph, assessment_views(assessments@)),
            r@.diagnostics == Seq::<DiagnosticView>::empty(),
            r@.exit_code == 0,
            r@.artifact is None,
    {
        let graph = CookieGraph::from_assessments(assessments.as_slice());
        let r = Report {
            schema_version: SCHEMA_VERSION,
            command: command.to_string(),
            application: application.to_string(),
            analysis_scope: "lexical static analysis only; no runtime observation or enforcement attestation".to_string(),
            graph: graph,
            assessments: assessments,
            diagnostics: Vec::new(),
            exit_code: 0,
            artifact: None,
        };
        assert(r@.diagnostics =~= Seq::<DiagnosticView>::empty());
        r
    }

    /// Records a diagnostic and sets the exit code.
    pub fn diagnostic(&mut self, code: &str, message: String, exit_code: u8)
        ensures
            final(self)@ == (ReportView {
                diagnostics: old(self)@.diagnostics.push(
                    DiagnosticView { code: code@, message: message@, finding_id: None, location: None },
                ),
                exit_code: exit_code,
                ..old(self)@
            }),
    {
        let ghost code_view = code@;
        let ghost message_view = message@;
        self.diagnostics.push(
            Diagnostic { code: code.to_string(), message: message, finding_id: None, location: None },
        );
        self.exit_code = exit_code;
        assert(final(self)@.diagnostics =~= old(self)@.diagnostics.push(
            DiagnosticView {
                code: code_view,
                message: message_view,
                finding_id: None,
                location: None,
            },
        ));
    }
}

// ---------------------------------------------------------------------------
// Output formats
// ---------------------------------------------------------------------------

/// The output formats.
#[derive(Clone, Copy, Debug, PartialEq, Eq, Structural)]
pub enum Format {
    Human,
    Json,
    Jsonl,
    Sarif,
}

/// The format a command-line value names, if any.
pub open spec fn spec_format(value: Seq<char>) -> Option<Format> {
    if value == "human"@ {
        Some(Format::Human)
    } else if value == "json"@ {
        Some(Format::Json)
    } else if value == "jsonl"@ {
        Some(Format::Jsonl)
    } else if value == "sarif"@ {
        Some(Format::Sarif)
    } else {
        None
    }
}

impl Format {
    /// Reads a format name.
    pub fn parse(value: &str) -> (r: Result<Format, String>)
        ensures
            r is Ok <==> spec_format(value@) is Some,
            r matches Ok(f) ==> spec_format(value@) == Some(f),
            r matches Err(e) ==> e@ == "unsupported output format: "@ + value@,
    {
        if str_eq(value, "human") {
            Ok(Format::Human)
        } else if str_eq(value, "json") {
            Ok(Format::Json)
        } else if str_eq(value, "jsonl") {
            Ok(Format::Jsonl)
        } else if str_eq(value, "sarif") {
            Ok(Format::Sarif)
        } else {
            Err(crate::text::concat("unsupported output format: ", value))
        }
    }
}

/// Bytes that a URI path keeps as they are: ASCII letters and digits and `/-._~`.
pub open spec fn uri_unreserved(b: u8) -> bool {
    (0x30 <= b <= 0x39) || (0x41 <= b <= 0x5a) || (0x61 <= b <= 0x7a) || b == 0x2f || b == 0x2d
        || b == 0x2e || b == 0x5f || b == 0x7e
}

/// An upper-case hexadecimal digit.
pub open spec fn hex_upper(d: int) -> char {
    if d < 10 {
        ('0' as int + d) as char
    } else {
        ('A' as int + (d - 10)) as char
    }
}

/// A byte of a URI path: itself, or `%` and two upper-case hexadecimal digits.
pub open spec fn uri_piece(b: u8) -> Seq<char> {
    if uri_unreserved(b) {
        seq![b as char]
    } else {
        seq!['%', hex_upper(b as int / 16), hex_upper(b as int % 16)]
    }
}

/// The percent-encoding of the bytes of a path.
pub open spec fn spec_uri(bytes: Seq<u8>) -> Seq<char>
    decreases bytes.len(),
{
    if bytes.len() == 0 {
        seq![]
    } else {
        spec_uri(bytes.drop_last()) + uri_piece(bytes.last())
    }
}

fn hex_upper_char(d: u8) -> (c: char)
    requires
        d < 16,
    ensures
        c == hex_upper(d as int),
{
    if d < 10 {
        (0x30u8 + d) as char
    } else {
        (0x41u8 + (d - 10)) as char
    }
}

/// Percent-encodes a path for a SARIF artifact location.
pub fn uri(path: &str) -> (r: String)
    ensures
        r@ == spec_uri(utf8(path@)),
{
    let bytes = path.as_bytes();
    let mut out: Vec<char> = Vec::new();
    let mut i: usize = 0;
    while i < bytes.len()
        invariant
            i <= bytes@.len(),
            bytes@ == utf8(path@),
            out@ == spec_uri(bytes@.take(i as int)),
        decreases bytes.len() - i,
    {
        let b = bytes[i];
        proof {
            assert(bytes@.take(i + 1).drop_last() =~= bytes@.take(i as int));
            assert(bytes@.take(i + 1).last() == b);
        }
        let ghost before = out@;
        if (0x30 <= b && b <= 0x39) || (0x41 <= b && b <= 0x5a) || (0x61 <= b && b <= 0x7a) || b
            == 0x2f || b == 0x2d || b == 0x2e || b == 0x5f || b == 0x7e {
            out.push(b as char);
        } else {
            out.push('%');
            out.push(hex_upper_char(b / 16));
            out.push(hex_upper_char(b % 16));
        }
        assert(out@ =~= before + uri_piece(b));
        i = i + 1;
    }
    assert(bytes@.take(i as int) =~= bytes@);
    string_from_chars(out.as_slice())
}

// ---------------------------------------------------------------------------
// The human format
// ---------------------------------------------------------------------------

/// `str::escape_debug` of a string, as the standard library computes it.
pub uninterp spec fn spec_escape_debug(s: Seq<char>) -> Seq<char>;

/// Calls `str::escape_debug` and collects the escaped characters. Claims that the
/// result is what the standard library computes for exactly these characters; the
/// escaping itself (which depends on Unicode tables) is named, not modelled.
#[verifier::external_body]
fn escape_debug(s: &str) -> (r: String)
    ensures
        r@ == spec_escape_debug(s@),
{
    s.escape_debug().to_string()
}

/// Where a piece of evidence is: `path:line:column`, or its source.
pub open spec fn evidence_place(e: EvidenceView) -> Seq<char> {
    match e.location {
        Some(l) => l.path + ":"@ + decimal(l.line as nat) + ":"@ + decimal(l.column as nat),
        None => e.source,
    }
}

/// The line of one piece of evidence.
pub open spec fn evidence_line(e: EvidenceView) -> Seq<char> {
    "  "@ + spec_escape_debug(evidence_place(e)) + ": "@ + spec_escape_debug(e.detail) + "\n"@
}

/// The lines of the evidence, in order.
pub open spec fn evidence_lines(es: Seq<EvidenceView>) -> Seq<char>
    decreases es.len(),
{
    if es.len() == 0 {
        seq![]
    } else {
        evidence_lines(es.drop_last()) + evidence_line(es.last())
    }
}

/// The first lines of an assessment: its cookie, operation, decision and class, and
/// its identifier.
pub open spec fn assessment_head(a: AssessmentView) -> Seq<char> {
    spec_escape_debug(
        match a.finding.cookie.name {
            Some(n) => n,
            None => "unresolved"@,
        },
    ) + "  "@ + operation_name(a.finding.operation) + " → "@ + decision_name(a.decision) + " ("@
        + class_name(a.finding.classification.value) + ")\n  "@ + a.finding.id + "\n"@
}

/// The text of one assessment: its first lines, then its evidence followed by the
/// evidence of its classification.
pub open spec fn assessment_text(a: AssessmentView) -> Seq<char> {
    assessment_head(a) + evidence_lines(a.finding.evidence + a.finding.classification.evidence)
}

pub open spec fn assessments_text(items: Seq<AssessmentView>) -> Seq<char>
    decreases items.len(),
{
    if items.len() == 0 {
        seq![]
    } else {
        assessments_text(items.drop_last()) + assessment_text(items.last())
    }
}

pub open spec fn diagnostics_text(ds: Seq<DiagnosticView>) -> Seq<char>
    decreases ds.len(),
{
    if ds.len() == 0 {
        seq![]
    } else {
        diagnostics_text(ds.drop_last()) + spec_escape_debug(ds.last().code) + ": "@
            + spec_escape_debug(ds.last().message) + "\n"@
    }
}

/// The human format of a report, given the pretty JSON of its artifact, if any.
pub open spec fn spec_human(r: ReportView, artifact: Option<Seq<char>>) -> Seq<char> {
    "CRUMBLED — "@ + spec_escape_debug(r.command) + "\n"@ + decimal(r.assessments.len())
        + " declared behaviour(s); 0 runtime observations\n"@ + r.analysis_scope + "\n"@
        + assessments_text(r.assessments) + diagnostics_text(r.diagnostics) + match artifact {
        Some(t) => t + "\n"@,
        None => ""@,
    } + "Exit status: "@ + decimal(r.exit_code as nat) + "\n"@
}

fn push_evidence_lines(out: &mut String, evidence: &Vec<Evidence>)
    ensures
        final(out)@ == old(out)@ + evidence_lines(evidence_views(evidence@)),
{
    let ghost start = out@;
    let ghost views = evidence_views(evidence@);
    let mut i: usize = 0;
    while i < evidence.len()
        invariant
            i <= evidence@.len(),
            views == evidence_views(evidence@),
            out@ == start + evidence_lines(views.take(i as int)),
        decreases evidence.len() - i,
    {
        let e = &evidence[i];
        proof {
            assert(views.take(i + 1).drop_last() =~= views.take(i as int));
            assert(views.take(i + 1).last() == e@);
        }
        let ghost before = out@;
        let place = match &e.location {
            Some(l) => {
                let line = to_decimal(l.line);
                let column = to_decimal(l.column);
                let head = concat3(l.path.as_str(), ":", line.as_str());
                concat3(head.as_str(), ":", column.as_str())
            },
            None => e.source.clone(),
        };
        out.append("  ");
        out.append(escape_debug(place.as_str()).as_str());
        out.append(": ");
        out.append(escape_debug(e.detail.as_str()).as_str());
        out.append("\n");
        assert(out@ =~= before + evidence_line(e@));
        i = i + 1;
    }
    assert(views.take(i as int) =~= views);
}

fn assessment_head_of(a: &Assessment) -> (s: String)
    ensures
        s@ == assessment_head(a@),
{
    let name: &str = match &a.finding.cookie.name {
        Some(n) => n.as_str(),
        None => "unresolved",
    };
    let mut out = escape_debug(name);
    out.append("  ");
    out.append(operation_str(a.finding.operation));
    out.append(" → ");
    out.append(decision_name_str(a.decision));
    out.append(" (");
    out.append(class_str(a.finding.classification.value));
    out.append(")\n  ");
    out.append(a.finding.id.as_str());
    out.append("\n");
    out
}

fn push_assessment(out: &mut String, a: &Assessment)
    ensures
        final(out)@ == old(out)@ + assessment_text(a@),
{
    let ghost start = out@;
    let head = assessment_head_of(a);
    out.append(head.as_str());
    push_evidence_lines(out, &a.finding.evidence);
    push_evidence_lines(out, &a.finding.classification.evidence);
    proof {
        let ev = evidence_views(a.finding.evidence@);
        let cv = evidence_views(a.finding.classification.evidence@);
        lemma_evidence_lines_concat(ev, cv);
        assert(out@ =~= start + assessment_text(a@));
    }
}

proof fn lemma_evidence_lines_concat(a: Seq<EvidenceView>, b: Seq<EvidenceView>)
    ensures
        evidence_lines(a + b) == evidence_lines(a) + evidence_lines(b),
    decreases b.len(),
{
    if b.len() == 0 {
        assert(a + b =~= a);
        assert(evidence_lines(a) + evidence_lines(b) =~= evidence_lines(a));
    } else {
        assert((a + b).drop_last() =~= a + b.drop_last());
        assert((a + b).last() == b.last());
        lemma_evidence_lines_concat(a, b.drop_last());
        assert(evidence_lines(a + b) =~= evidence_lines(a) + evidence_lines(b));
    }
}

impl Report {
    /// The human format of this report; `artifact` is the pretty JSON of its
    /// artifact, when it has one.
    pub fn render_human(&self, artifact: Option<&str>) -> (text: String)
        ensures
            text@ == spec_human(
                self@,
                match artifact {
                    Some(t) => Some(t@),
                    None => None,
                },
            ),
    {
        let mut out = String::from_str("CRUMBLED — ");
        out.append(escape_debug(self.command.as_str()).as_str());
        out.append("\n");
        out.append(to_decimal(self.assessments.len()).as_str());
        out.append(" declared behaviour(s); 0 runtime observations\n");
        out.append(self.analysis_scope.as_str());
        out.append("\n");
        let ghost head = out@;
        let ghost items = assessment_views(self.assessments@);
        let mut i: usize = 0;
        while i < self.assessments.len()
            invariant
                i <= self.assessments@.len(),
                items == assessment_views(self.assessments@),
                out@ == head + assessments_text(items.take(i as int)),
            decreases self.assessments.len() - i,
        {
            proof {
                assert(items.take(i + 1).drop_last() =~= items.take(i as int));
                assert(items.take(i + 1).last() == self.assessments@[i as int]@);
            }
            push_assessment(&mut out, &self.assessments[i]);
            i = i + 1;
        }
        assert(items.take(i as int) =~= items);
        let ghost mid = out@;
        let ghost ds = diagnostic_views(self.diagnostics@);
        let mut k: usize = 0;
        while k < self.diagnostics.len()
            invariant
                k <= self.diagnostics@.len(),
                ds == diagnostic_views(self.diagnostics@),
                out@ == mid + diagnostics_text(ds.take(k as int)),
            decreases self.diagnostics.len() - k,
        {
            let d = &self.diagnostics[k];
            proof {
                assert(ds.take(k + 1).drop_last() =~= ds.take(k as int));
                assert(ds.take(k + 1).last() == d@);
            }
            let ghost before = out@;
            out.append(escape_debug(d.code.as_str()).as_str());
            out.append(": ");
            out.append(escape_debug(d.message.as_str()).as_str());
            out.append("\n");
            assert(out@ =~= mid + diagnostics_text(ds.take(k + 1)));
            k = k + 1;
        }
        assert(ds.take(k as int) =~= ds);
        let ghost tail = out@;
        match artifact {
            Some(t) => {
                out.append(t);
                out.append("\n");
            },
            None => {},
        }
        out.append("Exit status: ");
        out.append(to_decimal(self.exit_code as usize).as_str());
        out.append("\n");
        proof {
            reveal_strlit("");
        }
        assert(out@ =~= spec_human(
            self@,
            match artifact {
                Some(t) => Some(t@),
                None => None,
            },
        ));
        out
    }
}

// ---------------------------------------------------------------------------
// SARIF results
// ---------------------------------------------------------------------------

/// Where a SARIF result points.
#[derive(Debug, PartialEq, Eq)]
pub struct SarifLocation {
    pub uri: String,
    pub start_line: usize,
    pub start_column: usize,
}

/// One SARIF result.
#[derive(Debug, PartialEq, Eq)]
pub struct SarifResult {
    pub rule_id: String,
    pub level: String,
    pub message: String,
    pub finding_id: Option<String>,
    pub location: Option<SarifLocation>,
}

pub struct SarifLocationView {
    pub uri: Seq<char>,
    pub start_line: usize,
    pub start_column: usize,
}

pub struct SarifResultView {
    pub rule_id: Seq<char>,
    pub level: Seq<char>,
    pub message: Seq<char>,
    pub finding_id: Option<Seq<char>>,
    pub location: Option<SarifLocationView>,
}

impl View for SarifResult {
    type V = SarifResultView;

    open spec fn view(&self) -> SarifResultView {
        SarifResultView {
            rule_id: self.rule_id@,
            level: self.level@,
            message: self.message@,
            finding_id: crate::model::opt_view(self.finding_id),
            location: match self.location {
                Some(l) => Some(
                    SarifLocationView { uri: l.uri@, start_line: l.start_line, start_column: l.start_column },
                ),
                None => None,
            },
        }
    }
}

/// The diagnostic that reports a discovered behaviour.
pub open spec fn discovered(a: AssessmentView) -> DiagnosticView {
    DiagnosticView {
        code: "CRUMBLED_DISCOVERED"@,
        message: operation_name(a.finding.operation) + ": "@ + a.reason,
        finding_id: Some(a.finding.id),
        location: first_location(a.finding.evidence),
    }
}

pub open spec fn discovered_all(items: Seq<AssessmentView>) -> Seq<DiagnosticView> {
    items.map_values(|a: AssessmentView| discovered(a))
}

/// What SARIF reports: the diagnostics, and for `scan` and `explain` every discovered
/// behaviour as well.
pub open spec fn sarif_diagnostics(r: ReportView) -> Seq<DiagnosticView> {
    if r.command == "scan"@ || r.command == "explain"@ {
        r.diagnostics + discovered_all(r.assessments)
    } else {
        r.diagnostics
    }
}

/// The SARIF result of a diagnostic: discoveries are notes, everything else an error.
pub open spec fn sarif_result(d: DiagnosticView) -> SarifResultView {
    SarifResultView {
        rule_id: d.code,
        level: if d.code == "CRUMBLED_DISCOVERED"@ {
            "note"@
        } else {
            "error"@
        },
        message: d.message,
        finding_id: d.finding_id,
        location: match d.location {
            Some(l) => Some(
                SarifLocationView {
                    uri: spec_uri(utf8(l.path)),
                    start_line: l.line,
                    start_column: l.column,
                },
            ),
            None => None,
        },
    }
}

/// The SARIF results of a report.
pub open spec fn spec_sarif_results(r: ReportView) -> Seq<SarifResultView> {
    sarif_diagnostics(r).map_values(|d: DiagnosticView| sarif_result(d))
}

fn sarif_result_of(d: &Diagnostic) -> (s: SarifResult)
    ensures
        s@ == sarif_result(d@),
{
    let level = if str_eq(d.code.as_str(), "CRUMBLED_DISCOVERED") {
        "note".to_string()
    } else {
        "error".to_string()
    };
    SarifResult {
        rule_id: d.code.clone(),
        level: level,
        message: d.message.clone(),
        finding_id: crate::model::copy_opt(&d.finding_id),
        location: match &d.location {
            Some(l) => Some(
                SarifLocation { uri: uri(l.path.as_str()), start_line: l.line, start_column: l.column },
            ),
            None => None,
        },
    }
}

fn discovered_of(a: &Assessment) -> (d: Diagnostic)
    ensures
        d@ == discovered(a@),
{
    Diagnostic {
        code: "CRUMBLED_DISCOVERED".to_string(),
        message: concat3(operation_str(a.finding.operation), ": ", a.reason.as_str()),
        finding_id: Some(a.finding.id.clone()),
        location: first_location_of(&a.finding.evidence),
    }
}

impl Report {
    /// The results a SARIF log of this report lists, in order.
    pub fn sarif_results(&self) -> (r: Vec<SarifResult>)
        ensures
            r@.map_values(|x: SarifResult| x@) == spec_sarif_results(self@),
    {
        let ghost all = sarif_diagnostics(self@);
        let ghost ds = diagnostic_views(self.diagnostics@);
        let mut out: Vec<SarifResult> = Vec::new();
        let mut i: usize = 0;
        while i < self.diagnostics.len()
            invariant
                i <= self.diagnostics@.len(),
                ds == diagnostic_views(self.diagnostics@),
                out@.len() == i,
                forall|k: int| 0 <= k < i ==> (#[trigger] out@[k])@ == sarif_result(ds[k]),
            decreases self.diagnostics.len() - i,
        {
            out.push(sarif_result_of(&self.diagnostics[i]));
            i = i + 1;
        }
        let n = self.diagnostics.len();
        if str_eq(self.command.as_str(), "scan") || str_eq(self.command.as_str(), "explain") {
            let ghost items = assessment_views(self.assessments@);
            let mut j: usize = 0;
            while j < self.assessments.len()
                invariant
                    j <= self.assessments@.len(),
                    n == ds.len(),
                    items == assessment_views(self.assessments@),
                    ds == diagnostic_views(self.diagnostics@),
                    out@.len() == n + j,
                    forall|k: int| 0 <= k < n ==> (#[trigger] out@[k])@ == sarif_result(ds[k]),
                    forall|k: int|
                        0 <= k < j ==> (#[trigger] out@[n + k])@ == sarif_result(discovered(items[k])),
                decreases self.assessments.len() - j,
            {
                let d = discovered_of(&self.assessments[j]);
                out.push(sarif_result_of(&d));
                j = j + 1;
            }
            assert(out@.map_values(|x: SarifResult| x@) =~= spec_sarif_results(self@)) by {
                assert(all =~= ds + discovered_all(items));
                assert forall|k: int| 0 <= k < out@.len() implies out@.map_values(
                    |x: SarifResult| x@,
                )[k] == spec_sarif_results(self@)[k] by {
                    if k < n {
                        assert(all[k] == ds[k]);
                    } else {
                        assert(all[k] == discovered(items[k - n]));
                        assert(out@[n + (k - n)] == out@[k]);
                    }
                }
            }
        } else {
            assert(out@.map_values(|x: SarifResult| x@) =~= spec_sarif_results(self@));
        }
        out
    }
}

} // verus!
