//! Command-line arguments and the decisions each command makes on a report.
use crate::cookie::{is_blank, to_chars, trim};
use crate::enforce::{
    compile, diagnostic_list, duplicate_ids, lock_error, spec_compare, spec_compile, spec_new_lock,
    spec_violations, violations, PolicyLock, PolicyLockView,
};
use crate::keyed::keys_increasing;
use crate::model::{
    assessment_views, diagnostic_views, spec_cookie_id, Assessment, AssessmentView, CookieGraph,
    Diagnostic, DiagnosticView,
};
use crate::policy::{policy_error, policy_valid, spec_fingerprint, Policy};
use crate::report::{graph_of, spec_format, Artifact, ArtifactView, Format, Report, ReportView};
use crate::text::{concat, concat3, str_eq};
use vstd::prelude::*;

verus! {

/// Parsed command-line arguments.
#[derive(Debug)]
pub struct Args {
    pub command: String,
    pub root: String,
    pub application: String,
    pub format: Format,
    pub policy: Option<String>,
    pub subject: Option<String>,
    pub apply: bool,
    pub approve: bool,
    pub why_blocked: bool,
}

pub struct ArgsView {
    pub command: Seq<char>,
    pub root: Seq<char>,
    pub application: Seq<char>,
    pub format: Format,
    pub policy: Option<Seq<char>>,
    pub subject: Option<Seq<char>>,
    pub apply: bool,
    pub approve: bool,
    pub why_blocked: bool,
}

impl View for Args {
    type V = ArgsView;

    open spec fn view(&self) -> ArgsView {
        ArgsView {
            command: self.command@,
            root: self.root@,
            application: self.application@,
            format: self.format,
            policy: crate::model::opt_view(self.policy),
            subject: crate::model::opt_view(self.subject),
            apply: self.apply,
            approve: self.approve,
            why_blocked: self.why_blocked,
        }
    }
}

/// The commands.
pub open spec fn known_command(c: Seq<char>) -> bool {
    c == "scan"@ || c == "audit"@ || c == "verify"@ || c == "enforce"@ || c == "explain"@ || c
        == "lock"@ || c == "observe"@
}

/// Starts with `--`.
pub open spec fn is_long_flag(s: Seq<char>) -> bool {
    s.len() >= 2 && s[0] == '-' && s[1] == '-'
}

/// Starts with `-`.
pub open spec fn is_flag(s: Seq<char>) -> bool {
    s.len() >= 1 && s[0] == '-'
}

/// The options that take a value.
pub open spec fn takes_value(s: Seq<char>) -> bool {
    s == "--format"@ || s == "--application"@ || s == "--policy"@ || s == "--root"@
}

/// Arguments read so far.
pub struct Parsing {
    pub args: ArgsView,
    pub positional: Seq<Seq<char>>,
    pub dry_run: bool,
    pub explicit_root: bool,
}

/// The arguments before any option: the command with every default.
pub open spec fn initial_parsing(command: Seq<char>) -> Parsing {
    Parsing {
        args: ArgsView {
            command: command,
            root: "."@,
            application: "application"@,
            format: Format::Human,
            policy: None,
            subject: None,
            apply: false,
            approve: false,
            why_blocked: false,
        },
        positional: seq![],
        dry_run: false,
        explicit_root: false,
    }
}

/// The effect of an option with its value.
pub open spec fn with_value(st: Parsing, option: Seq<char>, value: Seq<char>) -> Result<
    Parsing,
    Seq<char>,
> {
    if option == "--format"@ {
        match spec_format(value) {
            Some(f) => Ok(Parsing { args: ArgsView { format: f, ..st.args }, ..st }),
            None => Err("unsupported output format: "@ + value),
        }
    } else if option == "--application"@ {
        if trim(value).len() == 0 {
            Err("application must not be empty"@)
        } else {
            Ok(Parsing { args: ArgsView { application: value, ..st.args }, ..st })
        }
    } else if option == "--policy"@ {
        Ok(Parsing { args: ArgsView { policy: Some(value), ..st.args }, ..st })
    } else {
        Ok(Parsing { args: ArgsView { root: value, ..st.args }, explicit_root: true, ..st })
    }
}

/// Reads the arguments from position `i` on.
pub open spec fn parse_from(arguments: Seq<Seq<char>>, i: int, st: Parsing) -> Result<
    Parsing,
    Seq<char>,
>
    decreases arguments.len() - i,
{
    if i < 0 || i >= arguments.len() {
        Ok(st)
    } else {
        let arg = arguments[i];
        let command = st.args.command;
        if arg == "--"@ {
            Ok(Parsing { positional: st.positional + arguments.skip(i + 1), ..st })
        } else if takes_value(arg) {
            if i + 1 >= arguments.len() || is_long_flag(arguments[i + 1]) {
                Err(arg + " requires a value"@)
            } else {
                match with_value(st, arg, arguments[i + 1]) {
                    Ok(next) => parse_from(arguments, i + 2, next),
                    Err(e) => Err(e),
                }
            }
        } else if arg == "--apply"@ && command == "enforce"@ {
            parse_from(arguments, i + 1, Parsing { args: ArgsView { apply: true, ..st.args }, ..st })
        } else if arg == "--approve"@ && command == "lock"@ {
            parse_from(
                arguments,
                i + 1,
                Parsing { args: ArgsView { approve: true, ..st.args }, ..st },
            )
        } else if arg == "--dry-run"@ && (command == "enforce"@ || command == "lock"@) {
            parse_from(arguments, i + 1, Parsing { dry_run: true, ..st })
        } else if arg == "--strict"@ && (command == "enforce"@ || command == "verify"@) {
            parse_from(arguments, i + 1, st)
        } else if arg == "--why-blocked"@ && command == "explain"@ {
            parse_from(
                arguments,
                i + 1,
                Parsing { args: ArgsView { why_blocked: true, ..st.args }, ..st },
            )
        } else if is_flag(arg) {
            Err("unsupported option for "@ + command + ": "@ + arg)
        } else {
            parse_from(arguments, i + 1, Parsing { positional: st.positional.push(arg), ..st })
        }
    }
}

/// The checks after every argument is read, and the positional arguments.
pub open spec fn finish_parsing(st: Parsing) -> Result<ArgsView, Seq<char>> {
    if st.dry_run && (st.args.apply || st.args.approve) {
        Err("--dry-run conflicts with mutation authority"@)
    } else if st.args.command == "explain"@ {
        if st.positional.len() != 1 {
            Err(
                "explain requires one finding ID, cookie ID, or exact cookie name; use --root for the repository"@,
            )
        } else {
            Ok(ArgsView { subject: Some(st.positional[0]), ..st.args })
        }
    } else if st.positional.len() > 1 || (st.explicit_root && st.positional.len() > 0) {
        Err("expected one repository path"@)
    } else if st.positional.len() == 1 {
        Ok(ArgsView { root: st.positional[0], ..st.args })
    } else {
        Ok(st.args)
    }
}

/// The arguments of a command line, or why they are refused.
pub open spec fn spec_parse_args(arguments: Seq<Seq<char>>) -> Result<ArgsView, Seq<char>> {
    if arguments.len() == 0 {
        Err("missing command"@)
    } else if !known_command(arguments[0]) {
        Err("unknown command: "@ + arguments[0])
    } else {
        match parse_from(arguments, 1, initial_parsing(arguments[0])) {
            Ok(st) => finish_parsing(st),
            Err(e) => Err(e),
        }
    }
}

pub open spec fn string_seq(v: Seq<String>) -> Seq<Seq<char>> {
    v.map_values(|s: String| s@)
}

fn has_prefix(s: &str, prefix: &str) -> (r: bool)
    ensures
        r == (prefix@.len() <= s@.len() && s@.take(prefix@.len() as int) == prefix@),
{
    let cs = to_chars(s);
    let ps = to_chars(prefix);
    if ps.len() > cs.len() {
        return false;
    }
    let mut k: usize = 0;
    while k < ps.len()
        invariant
            k <= ps@.len(),
            ps@.len() <= cs@.len(),
            cs@ == s@,
            ps@ == prefix@,
            forall|j: int| 0 <= j < k ==> cs@[j] == ps@[j],
        decreases ps.len() - k,
    {
        if cs[k] != ps[k] {
            assert(s@.take(prefix@.len() as int)[k as int] != prefix@[k as int]);
            return false;
        }
        k = k + 1;
    }
    assert(s@.take(prefix@.len() as int) =~= prefix@);
    true
}

fn is_long_flag_exec(s: &str) -> (r: bool)
    ensures
        r == is_long_flag(s@),
{
    let r = has_prefix(s, "--");
    proof {
        reveal_strlit("--");
        if s@.len() >= 2 {
            assert(s@.take(2)[0] == s@[0]);
            assert(s@.take(2)[1] == s@[1]);
            if s@[0] == '-' && s@[1] == '-' {
                assert(s@.take(2) =~= "--"@);
            }
        }
    }
    r
}

fn is_flag_exec(s: &str) -> (r: bool)
    ensures
        r == is_flag(s@),
{
    let r = has_prefix(s, "-");
    proof {
        reveal_strlit("-");
        if s@.len() >= 1 {
            assert(s@.take(1)[0] == s@[0]);
            if s@[0] == '-' {
                assert(s@.take(1) =~= "-"@);
            }
        }
    }
    r
}

/// Arguments read so far.
struct ParseState {
    args: Args,
    positional: Vec<String>,
    dry_run: bool,
    explicit_root: bool,
}

impl View for ParseState {
    type V = Parsing;

    closed spec fn view(&self) -> Parsing {
        Parsing {
            args: self.args@,
            positional: string_seq(self.positional@),
            dry_run: self.dry_run,
            explicit_root: self.explicit_root,
        }
    }
}

/// Applies an option that takes a value.
fn apply_value(st: &mut ParseState, option: &str, value: &str) -> (r: Result<(), String>)
    requires
        takes_value(option@),
    ensures
        final(st)@.args.command == old(st)@.args.command,
        match r {
            Ok(()) => with_value(old(st)@, option@, value@) == Ok::<Parsing, Seq<char>>(
                final(st)@,
            ),
            Err(e) => with_value(old(st)@, option@, value@) == Err::<Parsing, Seq<char>>(e@),
        },
{
    if str_eq(option, "--format") {
        match Format::parse(value) {
            Ok(f) => {
                st.args.format = f;
                Ok(())
            },
            Err(e) => Err(e),
        }
    } else if str_eq(option, "--application") {
        if is_blank(value) {
            return Err("application must not be empty".to_string());
        }
        st.args.application = value.to_string();
        Ok(())
    } else if str_eq(option, "--policy") {
        st.args.policy = Some(value.to_string());
        Ok(())
    } else {
        st.args.root = value.to_string();
        st.explicit_root = true;
        Ok(())
    }
}

/// Takes every argument after `--` as positional.
fn rest_positional(arguments: &[String], i: usize, st: &mut ParseState)
    requires
        i < arguments@.len(),
    ensures
        final(st)@ == (Parsing {
            positional: old(st)@.positional + string_seq(arguments@).skip(i + 1),
            ..old(st)@
        }),
{
    let ghost all = string_seq(arguments@);
    let ghost start = st.positional@;
    let n = arguments.len();
    let mut k = i + 1;
    while k < n
        invariant
            i + 1 <= k <= n,
            n == arguments@.len(),
            all == string_seq(arguments@),
            st@.args == old(st)@.args,
            st@.dry_run == old(st)@.dry_run,
            st@.explicit_root == old(st)@.explicit_root,
            string_seq(start) == old(st)@.positional,
            string_seq(st.positional@) == string_seq(start) + all.subrange(i + 1, k as int),
        decreases arguments.len() - k,
    {
        let item = arguments[k].clone();
        assert(all[k as int] == item@);
        let ghost before = string_seq(st.positional@);
        st.positional.push(item);
        assert(all.subrange(i + 1, k + 1) =~= all.subrange(i + 1, k as int).push(item@));
        assert(string_seq(st.positional@) =~= before.push(item@));
        k = k + 1;
    }
    assert(all.subrange(i + 1, k as int) =~= all.skip(i + 1));
}

/// Reads the argument at `i`, and its value if it takes one.
fn parse_step(arguments: &[String], i: usize, command: &str, st: &mut ParseState) -> (r: Result<
    usize,
    String,
>)
    requires
        1 <= i < arguments@.len(),
        old(st)@.args.command == command@,
    ensures
        final(st)@.args.command == command@,
        match r {
            Ok(j) => i < j <= arguments@.len() && parse_from(string_seq(arguments@), i as int, old(st)@)
                == parse_from(string_seq(arguments@), j as int, final(st)@),
            Err(e) => parse_from(string_seq(arguments@), i as int, old(st)@) == Err::<
                Parsing,
                Seq<char>,
            >(e@),
        },
{
    let ghost all = string_seq(arguments@);
    let arg: &str = arguments[i].as_str();
    assert(all[i as int] == arg@);
    if str_eq(arg, "--") {
        rest_positional(arguments, i, st);
        return Ok(arguments.len());
    }
    if str_eq(arg, "--format") || str_eq(arg, "--application") || str_eq(arg, "--policy") || str_eq(
        arg,
        "--root",
    ) {
        if i + 1 >= arguments.len() || is_long_flag_exec(arguments[i + 1].as_str()) {
            proof {
                if i + 1 < arguments.len() {
                    assert(all[i + 1] == arguments@[i + 1]@);
                }
            }
            return Err(concat(arg, " requires a value"));
        }
        let value: &str = arguments[i + 1].as_str();
        assert(all[i + 1] == value@);
        apply_value(st, arg, value)?;
        return Ok(i + 2);
    }
    let is_enforce = str_eq(command, "enforce");
    let is_lock = str_eq(command, "lock");
    if str_eq(arg, "--apply") && is_enforce {
        st.args.apply = true;
    } else if str_eq(arg, "--approve") && is_lock {
        st.args.approve = true;
    } else if str_eq(arg, "--dry-run") && (is_enforce || is_lock) {
        st.dry_run = true;
    } else if str_eq(arg, "--strict") && (is_enforce || str_eq(command, "verify")) {
    } else if str_eq(arg, "--why-blocked") && str_eq(command, "explain") {
        st.args.why_blocked = true;
    } else if is_flag_exec(arg) {
        let head = concat3("unsupported option for ", command, ": ");
        return Err(concat(head.as_str(), arg));
    } else {
        let ghost before = st@.positional;
        st.positional.push(arguments[i].clone());
        assert(string_seq(st.positional@) =~= before.push(arg@));
    }
    Ok(i + 1)
}

/// The checks after every argument is read.
fn finish(st: ParseState) -> (r: Result<Args, String>)
    ensures
        match r {
            Ok(a) => finish_parsing(st@) == Ok::<ArgsView, Seq<char>>(a@),
            Err(e) => finish_parsing(st@) == Err::<ArgsView, Seq<char>>(e@),
        },
{
    let ParseState { args: mut result, positional: mut positional, dry_run, explicit_root } = st;
    if dry_run && (result.apply || result.approve) {
        return Err("--dry-run conflicts with mutation authority".to_string());
    }
    if str_eq(result.command.as_str(), "explain") {
        if positional.len() != 1 {
            return Err(
                "explain requires one finding ID, cookie ID, or exact cookie name; use --root for the repository".to_string(),
            );
        }
        let subject = positional.pop();
        result.subject = subject;
    } else {
        if positional.len() > 1 || (explicit_root && positional.len() > 0) {
            return Err("expected one repository path".to_string());
        }
        if positional.len() == 1 {
            match positional.pop() {
                Some(p) => {
                    result.root = p;
                },
                None => {},
            }
        }
    }
    Ok(result)
}

impl Args {
    /// Parses a command line (without the program name).
    pub fn parse(arguments: &[String]) -> (r: Result<Args, String>)
        ensures
            match r {
                Ok(a) => spec_parse_args(string_seq(arguments@)) == Ok::<ArgsView, Seq<char>>(a@),
                Err(e) => spec_parse_args(string_seq(arguments@)) == Err::<ArgsView, Seq<char>>(e@),
            },
    {
        let ghost all = string_seq(arguments@);
        if arguments.len() == 0 {
            return Err("missing command".to_string());
        }
        let command: &str = arguments[0].as_str();
        assert(all[0] == command@);
        let known = str_eq(command, "scan") || str_eq(command, "audit") || str_eq(command, "verify")
            || str_eq(command, "enforce") || str_eq(command, "explain") || str_eq(command, "lock")
            || str_eq(command, "observe");
        if !known {
            return Err(concat("unknown command: ", command));
        }
        let mut st = ParseState {
            args: Args {
                command: command.to_string(),
                root: ".".to_string(),
                application: "application".to_string(),
                format: Format::Human,
                policy: None,
                subject: None,
                apply: false,
                approve: false,
                why_blocked: false,
            },
            positional: Vec::new(),
            dry_run: false,
            explicit_root: false,
        };
        assert(st@.positional =~= Seq::<Seq<char>>::empty());
        assert(st@ == initial_parsing(all[0]));
        let ghost target = parse_from(all, 1, st@);
        assert(spec_parse_args(all) == match target {
            Ok(p) => finish_parsing(p),
            Err(e) => Err(e),
        });
        let mut i: usize = 1;
        while i < arguments.len()
            invariant
                1 <= i <= arguments@.len(),
                all == string_seq(arguments@),
                st@.args.command == command@,
                target == parse_from(all, i as int, st@),
                spec_parse_args(all) == match target {
                    Ok(p) => finish_parsing(p),
                    Err(e) => Err(e),
                },
            decreases arguments.len() - i,
        {
            i = parse_step(arguments, i, command, &mut st)?;
        }
        finish(st)
    }
}

/// The position of the first `--format` that is followed by a value.
pub open spec fn format_position(arguments: Seq<Seq<char>>, i: int) -> Option<int>
    decreases arguments.len() - i,
{
    if i < 0 || i + 1 >= arguments.len() {
        None
    } else if arguments[i] == "--format"@ {
        Some(i)
    } else {
        format_position(arguments, i + 1)
    }
}

/// The format in which an argument error is reported: the one named after the first
/// `--format` that has a value, when it names one; otherwise the human format.
pub open spec fn spec_requested_format(arguments: Seq<Seq<char>>) -> Format {
    match format_position(arguments, 0) {
        Some(i) => match spec_format(arguments[i + 1]) {
            Some(f) => f,
            None => Format::Human,
        },
        None => Format::Human,
    }
}

/// The format requested by a command line that could not be parsed.
pub fn requested_format(arguments: &[String]) -> (f: Format)
    ensures
        f == spec_requested_format(string_seq(arguments@)),
{
    let ghost all = string_seq(arguments@);
    let n = arguments.len();
    let mut i: usize = 0;
    while i < n && i + 1 < n
        invariant
            i <= n,
            n == arguments@.len(),
            all == string_seq(arguments@),
            format_position(all, 0) == format_position(all, i as int),
        decreases n - i,
    {
        assert(all[i as int] == arguments@[i as int]@);
        if str_eq(arguments[i].as_str(), "--format") {
            assert(all[i + 1] == arguments@[i + 1]@);
            return match Format::parse(arguments[i + 1].as_str()) {
                Ok(f) => f,
                Err(_) => Format::Human,
            };
        }
        i = i + 1;
    }
    Format::Human
}

// ---------------------------------------------------------------------------
// What each command decides on its report
// ---------------------------------------------------------------------------

/// The diagnostic a failure adds to a report.
pub open spec fn failure(code: Seq<char>, message: Seq<char>) -> DiagnosticView {
    DiagnosticView { code: code, message: message, finding_id: None, location: None }
}

/// An analysis or argument could not be completed: exit code 2.
pub fn analysis_failure(report: &mut Report, message: String)
    ensures
        final(report)@ == (ReportView {
            diagnostics: old(report)@.diagnostics.push(failure("CRUMBLED_ANALYSIS_FAILURE"@, message@)),
            exit_code: 2,
            ..old(report)@
        }),
{
    report.diagnostic("CRUMBLED_ANALYSIS_FAILURE", message, 2);
}

/// The command line was refused: exit code 2.
pub fn argument_error(report: &mut Report, message: String)
    ensures
        final(report)@ == (ReportView {
            diagnostics: old(report)@.diagnostics.push(failure("CRUMBLED_ARGUMENT_ERROR"@, message@)),
            exit_code: 2,
            ..old(report)@
        }),
{
    report.diagnostic("CRUMBLED_ARGUMENT_ERROR", message, 2);
}

/// Writing an approved lock failed: an integrity failure, exit code 3.
pub fn integrity_failure(report: &mut Report, message: String)
    ensures
        final(report)@ == (ReportView {
            diagnostics: old(report)@.diagnostics.push(failure("CRUMBLED_INTEGRITY_FAILURE"@, message@)),
            exit_code: 3,
            ..old(report)@
        }),
{
    report.diagnostic("CRUMBLED_INTEGRITY_FAILURE", message, 3);
}

/// `observe`: browser observation is not implemented, an analysis failure.
pub fn observe(report: &mut Report)
    ensures
        final(report)@ == (ReportView {
            diagnostics: old(report)@.diagnostics.push(
                failure(
                    "CRUMBLED_ANALYSIS_FAILURE"@,
                    "Browser observation is not implemented in this build"@,
                ),
            ),
            exit_code: 2,
            ..old(report)@
        }),
{
    analysis_failure(report, "Browser observation is not implemented in this build".to_string());
}

/// Whether an assessment is the subject of `explain`: by finding identifier, cookie
/// identifier, or exact cookie name.
pub open spec fn matches_subject(a: AssessmentView, subject: Seq<char>) -> bool {
    a.finding.id == subject || spec_cookie_id(a.finding.cookie) == subject || a.finding.cookie.name
        == Some(subject)
}

/// The assessments that are the subject, in order.
pub open spec fn selected(items: Seq<AssessmentView>, subject: Seq<char>) -> Seq<AssessmentView>
    decreases items.len(),
{
    if items.len() == 0 {
        seq![]
    } else {
        selected(items.drop_last(), subject) + if matches_subject(items.last(), subject) {
            seq![items.last()]
        } else {
            seq![]
        }
    }
}

/// Keeps the assessments that are the subject.
pub fn select_subject(assessments: Vec<Assessment>, subject: &str) -> (r: Vec<Assessment>)
    ensures
        assessment_views(r@) == selected(assessment_views(assessments@), subject@),
{
    let ghost all = assessment_views(assessments@);
    let mut rest = assessments;
    let mut out: Vec<Assessment> = Vec::new();
    let n = rest.len();
    let mut i: usize = 0;
    while i < n
        invariant
            i <= n,
            n == all.len(),
            assessment_views(rest@) == all.skip(i as int),
            assessment_views(out@) == selected(all.take(i as int), subject@),
        decreases n - i,
    {
        let ghost before = rest@;
        assert(assessment_views(rest@).len() == rest@.len());
        let a = rest.remove(0);
        proof {
            assert(a == before[0]);
            assert(assessment_views(before)[0] == a@);
            assert(assessment_views(rest@) =~= all.skip(i + 1)) by {
                assert(rest@ =~= before.subrange(1, before.len() as int));
                assert forall|k: int| 0 <= k < rest@.len() implies assessment_views(rest@)[k]
                    == all.skip(i + 1)[k] by {
                    assert(rest@[k] == before[k + 1]);
                    assert(assessment_views(before)[k + 1] == all.skip(i as int)[k + 1]);
                }
            }
            assert(all.take(i + 1).drop_last() =~= all.take(i as int));
            assert(all.take(i + 1).last() == a@);
        }
        let by_name = match &a.finding.cookie.name {
            Some(name) => str_eq(name.as_str(), subject),
            None => false,
        };
        let keep = str_eq(a.finding.id.as_str(), subject) || str_eq(
            a.finding.cookie.id().as_str(),
            subject,
        ) || by_name;
        let ghost prev = assessment_views(out@);
        if keep {
            let ghost v = a@;
            out.push(a);
            assert(assessment_views(out@) =~= prev + seq![v]);
        } else {
            assert(selected(all.take(i + 1), subject@) =~= selected(all.take(i as int), subject@));
        }
        i = i + 1;
    }
    assert(all.take(n as int) =~= all);
    out
}

/// `explain`: keeps the subject's assessments and their graph; reports a missing
/// subject, or the unresolved permission boundary when asked why it is blocked.
pub fn explain(report: &mut Report, subject: &str, why_blocked: bool)
    ensures
        final(report)@ == (ReportView {
            assessments: selected(old(report)@.assessments, subject@),
            graph: final(report)@.graph,
            diagnostics: if selected(old(report)@.assessments, subject@).len() == 0 {
                old(report)@.diagnostics.push(
                    failure(
                        "CRUMBLED_FINDING_NOT_FOUND"@,
                        "No matching finding in this repository"@,
                    ),
                )
            } else if why_blocked {
                spec_violations(selected(old(report)@.assessments, subject@))
            } else {
                old(report)@.diagnostics
            },
            exit_code: if selected(old(report)@.assessments, subject@).len() == 0 {
                1
            } else {
                old(report)@.exit_code
            },
            ..old(report)@
        }),
        graph_of(final(report)@.graph, final(report)@.assessments),
{
    let mut items: Vec<Assessment> = Vec::new();
    std::mem::swap(&mut items, &mut report.assessments);
    report.assessments = select_subject(items, subject);
    report.graph = CookieGraph::from_assessments(report.assessments.as_slice());
    if report.assessments.len() == 0 {
        report.diagnostic(
            "CRUMBLED_FINDING_NOT_FOUND",
            "No matching finding in this repository".to_string(),
            1,
        );
    } else if why_blocked {
        report.diagnostics = violations(report.assessments.as_slice());
        assert(diagnostic_views(report.diagnostics@) =~= report.diagnostics@.map_values(
            |d: Diagnostic| d@,
        ));
    }
}

/// `audit`: every behaviour that policy does not allow is a violation, and any
/// violation fails the command.
pub fn audit(report: &mut Report)
    ensures
        final(report)@ == (ReportView {
            diagnostics: spec_violations(old(report)@.assessments),
            exit_code: if spec_violations(old(report)@.assessments).len() == 0 {
                old(report)@.exit_code
            } else {
                1
            },
            ..old(report)@
        }),
{
    report.diagnostics = violations(report.assessments.as_slice());
    assert(diagnostic_views(report.diagnostics@) =~= report.diagnostics@.map_values(
        |d: Diagnostic| d@,
    ));
    if report.diagnostics.len() != 0 {
        report.exit_code = 1;
    }
}

/// `enforce`: attaches the plan; applying it is refused, since no execution-path
/// compiler exists.
pub fn enforce(report: &mut Report, apply: bool)
    ensures
        final(report)@ == (ReportView {
            diagnostics: if apply {
                old(report)@.diagnostics.push(
                    failure(
                        "CRUMBLED_ENFORCEMENT_UNSUPPORTED"@,
                        "No execution-path compiler is available; validation failed and no files were modified"@,
                    ),
                )
            } else {
                old(report)@.diagnostics
            },
            exit_code: if apply {
                3
            } else {
                old(report)@.exit_code
            },
            artifact: Some(ArtifactView::Plan(spec_compile(old(report)@.assessments))),
            ..old(report)@
        }),
{
    let plan = compile(report.assessments.as_slice());
    assert(report.assessments@.map_values(|a: Assessment| a@) =~= assessment_views(
        report.assessments@,
    ));
    report.artifact = Some(Artifact::Plan(plan));
    if apply {
        report.diagnostic(
            "CRUMBLED_ENFORCEMENT_UNSUPPORTED",
            "No execution-path compiler is available; validation failed and no files were modified".to_string(),
            3,
        );
    }
}

/// The lock of the current topology under `policy`.
pub fn current_lock(policy: &Policy, application: &str, assessments: &[Assessment]) -> (r: Result<
    PolicyLock,
    String,
>)
    ensures
        r is Ok <==> policy_valid(policy@) && !duplicate_ids(
            assessments@.map_values(|a: Assessment| a@),
        ),
        r matches Ok(l) ==> l@ == spec_new_lock(
            application@,
            spec_fingerprint(policy@),
            assessments@.map_values(|a: Assessment| a@),
        ) && keys_increasing(l@.behaviours),
        r matches Err(e) ==> if policy_valid(policy@) {
            e@ == "duplicate behaviour identity"@
        } else {
            policy_error(policy@) == Some(e@)
        },
{
    let hash = policy.fingerprint()?;
    PolicyLock::new(application, hash.as_str(), assessments)
}

/// The approved lock, as found on disk.
pub enum ApprovedLock {
    /// There is no approved lock.
    Missing,
    /// The lock could not be read or parsed, for this reason.
    Unreadable(String),
    /// The lock as read.
    Loaded(PolicyLock),
}

/// The drift diagnostics that `verify` reports against an approved lock, and the
/// exit code they call for.
pub open spec fn lock_outcome(
    approved: Option<Result<PolicyLockView, Seq<char>>>,
    current: PolicyLockView,
) -> (Seq<DiagnosticView>, Option<u8>) {
    match approved {
        None => (
            seq![
                DiagnosticView {
                    code: "CRUMBLED_LOCK_MISSING"@,
                    message: "No approved topology; review `crumbled lock` and approve with `crumbled lock --approve`"@,
                    finding_id: None,
                    location: None,
                },
            ],
            Some(1u8),
        ),
        Some(Err(e)) => (
            seq![
                DiagnosticView {
                    code: "CRUMBLED_INTEGRITY_FAILURE"@,
                    message: e,
                    finding_id: None,
                    location: None,
                },
            ],
            Some(3u8),
        ),
        Some(Ok(l)) => match lock_error(l) {
            Some(e) => (
                seq![
                    DiagnosticView {
                        code: "CRUMBLED_INTEGRITY_FAILURE"@,
                        message: e,
                        finding_id: None,
                        location: None,
                    },
                ],
                Some(3u8),
            ),
            None => {
                let changes = spec_compare(l, current);
                (
                    changes,
                    if changes.len() == 0 {
                        None
                    } else {
                        Some(1u8)
                    },
                )
            },
        },
    }
}

/// The view of what was found on disk.
pub open spec fn approved_view(a: ApprovedLock) -> Option<Result<PolicyLockView, Seq<char>>> {
    match a {
        ApprovedLock::Missing => None,
        ApprovedLock::Unreadable(e) => Some(Err(e@)),
        ApprovedLock::Loaded(l) => Some(Ok(l@)),
    }
}

/// The exit code of `verify`: the lock's outcome when it calls for one, otherwise 1
/// for any policy violation, otherwise the code so far.
pub open spec fn verify_exit(
    code: u8,
    items: Seq<AssessmentView>,
    approved: Option<Result<PolicyLockView, Seq<char>>>,
    current: PolicyLockView,
) -> u8 {
    match lock_outcome(approved, current).1 {
        Some(c) => c,
        None => if spec_violations(items).len() == 0 {
            code
        } else {
            1
        },
    }
}

/// A successful static verification means a reviewed topology and no unresolved
/// policy violations: `verify` exits 0 exactly when every behaviour is allowed and
/// the approved lock is present, intact and unchanged.
pub proof fn lemma_verify_success(
    items: Seq<AssessmentView>,
    approved: Option<Result<PolicyLockView, Seq<char>>>,
    current: PolicyLockView,
)
    ensures
        verify_exit(0, items, approved, current) == 0 <==> (spec_violations(items).len() == 0
            && (approved matches Some(Ok(l)) && lock_error(l) is None && spec_compare(
            l,
            current,
        ).len() == 0)),
{
}

/// Appends drift diagnostics; any drift fails the command.
fn append_drift(report: &mut Report, changes: Vec<Diagnostic>)
    ensures
        final(report)@ == (ReportView {
            diagnostics: old(report)@.diagnostics + diagnostic_list(changes@),
            exit_code: if changes@.len() == 0 {
                old(report)@.exit_code
            } else {
                1
            },
            ..old(report)@
        }),
{
    if changes.len() == 0 {
        assert(report@.diagnostics =~= report@.diagnostics + diagnostic_list(changes@));
        return;
    }
    report.exit_code = 1;
    let ghost before = report@.diagnostics;
    let mut k: usize = 0;
    while k < changes.len()
        invariant
            k <= changes@.len(),
            report@ == (ReportView {
                diagnostics: before + diagnostic_list(changes@).take(k as int),
                exit_code: 1,
                ..old(report)@
            }),
        decreases changes.len() - k,
    {
        let ghost prev = report@.diagnostics;
        report.diagnostics.push(changes[k].clone());
        assert(diagnostic_list(changes@).take(k + 1) =~= diagnostic_list(changes@).take(
            k as int,
        ).push(changes@[k as int]@));
        assert(report@.diagnostics =~= prev.push(changes@[k as int]@));
        k = k + 1;
    }
    assert(diagnostic_list(changes@).take(k as int) =~= diagnostic_list(changes@));
}

/// `verify`: policy violations fail the command, then the current topology must be
/// the approved one. A missing lock is a violation; an unreadable or corrupted one
/// is an integrity failure.
pub fn verify(report: &mut Report, current: &PolicyLock, approved: ApprovedLock)
    ensures
        final(report)@ == (ReportView {
            diagnostics: spec_violations(old(report)@.assessments) + lock_outcome(
                approved_view(approved),
                current@,
            ).0,
            exit_code: verify_exit(
                old(report)@.exit_code,
                old(report)@.assessments,
                approved_view(approved),
                current@,
            ),
            ..old(report)@
        }),
{
    let ghost view = approved_view(approved);
    let ghost target = spec_violations(old(report)@.assessments) + lock_outcome(view, current@).0;
    audit(report);
    match approved {
        ApprovedLock::Missing => {
            report.diagnostic(
                "CRUMBLED_LOCK_MISSING",
                "No approved topology; review `crumbled lock` and approve with `crumbled lock --approve`".to_string(),
                1,
            );
            assert(report@.diagnostics =~= target);
        },
        ApprovedLock::Unreadable(e) => {
            report.diagnostic("CRUMBLED_INTEGRITY_FAILURE", e, 3);
            assert(report@.diagnostics =~= target);
        },
        ApprovedLock::Loaded(lock) => {
            match lock.validate() {
                Err(e) => {
                    report.diagnostic("CRUMBLED_INTEGRITY_FAILURE", e, 3);
                    assert(report@.diagnostics =~= target);
                },
                Ok(()) => {
                    append_drift(report, lock.compare(current));
                },
            }
        },
    }
}

proof fn lemma_strict_is_no_other_option()
    ensures
        "--strict"@ != "--"@,
        !takes_value("--strict"@),
        "--strict"@ != "--apply"@,
        "--strict"@ != "--approve"@,
        "--strict"@ != "--dry-run"@,
        "--strict"@ != "--why-blocked"@,
        is_flag("--strict"@),
{
    reveal_strlit("--strict");
    reveal_strlit("--");
    reveal_strlit("--format");
    reveal_strlit("--application");
    reveal_strlit("--policy");
    reveal_strlit("--root");
    reveal_strlit("--apply");
    reveal_strlit("--approve");
    reveal_strlit("--dry-run");
    reveal_strlit("--why-blocked");
    assert("--strict"@[2] != "--format"@[2]);
    assert("--strict"@[2] != "--policy"@[2]);
    assert("--strict"@.len() != "--application"@.len());
    assert("--strict"@.len() != "--root"@.len());
}

/// `--strict` is accepted by `enforce` and `verify` and changes nothing there: the
/// arguments read the same with or without it. Any other command refuses it.
pub proof fn lemma_strict_option(arguments: Seq<Seq<char>>, i: int, st: Parsing)
    requires
        0 <= i < arguments.len(),
        arguments[i] == "--strict"@,
    ensures
        st.args.command == "enforce"@ || st.args.command == "verify"@ ==> parse_from(
            arguments,
            i,
            st,
        ) == parse_from(arguments, i + 1, st),
        !(st.args.command == "enforce"@ || st.args.command == "verify"@) ==> parse_from(
            arguments,
            i,
            st,
        ) == Err::<Parsing, Seq<char>>("unsupported option for "@ + st.args.command + ": "@ + "--strict"@),
{
    lemma_strict_is_no_other_option();
}

} // verus!
