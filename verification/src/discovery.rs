//! Lexical discovery of cookie behaviour in source text. No target code is executed.
use crate::cookie::{apply_attribute, apply_attributes, parse_cookie, spec_parse_cookie};
use crate::digest::{identity_hash, sha256, spec_identity_hash, spec_sha256, str_views};
use crate::lexer::{lex, pos_at, tokenize, tokens_match, Kind, Lexeme, Token, TokenView};
use crate::model::{
    Attributes, Classification, Confidence, CookieIdentity, CookieIdentityView, Evidence,
    EvidenceView, Finding, FindingView, Location, LocationView, Method, Operation,
    PermissionClass, ClassificationView, finding_views, spec_cookie_id,
};
use crate::text::{
    compare_bytes, compare_str, concat, concat3, decimal, hex_lower, lemma_str_lt_order, owned,
    str_eq, str_lt, to_decimal, utf8, Cmp,
};
use vstd::prelude::*;
use vstd::string::StringSliceAdditionalSpecFns;
use vstd::utf8::*;

verus! {

broadcast use vstd::utf8::group_utf8_lib, vstd::slice::group_slice_axioms;

/// The largest source, in bytes, that discovery analyses.
pub const MAX_SOURCE_BYTES: u64 = 4194304;

// ---------------------------------------------------------------------------
// File names and extensions (the rules of `std::path::Path` for `/`-separated paths)
// ---------------------------------------------------------------------------

/// Where the `/`-separated segment that ends at `e` starts.
pub open spec fn segment_start(b: Seq<u8>, e: int) -> int
    decreases e,
{
    if e <= 0 {
        0
    } else if b[e - 1] == 0x2f {
        e
    } else {
        segment_start(b, e - 1)
    }
}

/// The byte range of the final normal component of the path `b[..e]`: trailing `/`
/// and `.` segments are skipped, and a final `..` has no file name.
pub open spec fn file_name_range(b: Seq<u8>, e: int) -> Option<(int, int)>
    decreases e,
{
    if e <= 0 {
        None
    } else if b[e - 1] == 0x2f {
        file_name_range(b, e - 1)
    } else {
        let s = segment_start(b, e);
        if e - s == 1 && b[s] == 0x2e {
            file_name_range(b, s)
        } else if e - s == 2 && b[s] == 0x2e && b[s + 1] == 0x2e {
            None
        } else {
            Some((s, e))
        }
    }
}

/// The last `.` in `b[s..e]`, or `s - 1` when there is none.
pub open spec fn last_dot(b: Seq<u8>, s: int, e: int) -> int
    decreases e - s,
{
    if e <= s {
        s - 1
    } else if b[e - 1] == 0x2e {
        e - 1
    } else {
        last_dot(b, s, e - 1)
    }
}

/// The extension of a path (`Path::extension`), or the empty string when it has none:
/// the part of the file name after its last `.`, unless that `.` starts the name.
pub open spec fn extension(b: Seq<u8>) -> Seq<u8> {
    match file_name_range(b, b.len() as int) {
        None => seq![],
        Some((s, e)) => {
            let p = last_dot(b, s, e);
            if p > s {
                b.subrange(p + 1, e)
            } else {
                seq![]
            }
        },
    }
}

proof fn lemma_segment_start(b: Seq<u8>, e: int)
    requires
        0 <= e <= b.len(),
    ensures
        0 <= segment_start(b, e) <= e,
        segment_start(b, e) > 0 ==> b[segment_start(b, e) - 1] == 0x2f,
        forall|k: int| segment_start(b, e) <= k < e ==> b[k] != 0x2f,
    decreases e,
{
    if e > 0 && b[e - 1] != 0x2f {
        lemma_segment_start(b, e - 1);
    }
}

proof fn lemma_last_dot(b: Seq<u8>, s: int, e: int)
    requires
        0 <= s <= e <= b.len(),
    ensures
        s - 1 <= last_dot(b, s, e) < e,
        last_dot(b, s, e) >= s ==> b[last_dot(b, s, e)] == 0x2e,
    decreases e - s,
{
    if e > s && b[e - 1] != 0x2e {
        lemma_last_dot(b, s, e - 1);
    }
}

/// The byte range of a path's file name.
fn file_name(b: &[u8]) -> (r: Option<(usize, usize)>)
    ensures
        match r {
            None => file_name_range(b@, b@.len() as int) is None,
            Some((s, t)) => file_name_range(b@, b@.len() as int) == Some((s as int, t as int)) && s
                <= t <= b@.len(),
        },
{
    let n = b.len();
    let mut e = n;
    loop
        invariant
            e <= n,
            n == b@.len(),
            file_name_range(b@, e as int) == file_name_range(b@, n as int),
        decreases e,
    {
        if e == 0 {
            return None;
        } else if b[e - 1] == 0x2f {
            e = e - 1;
        } else {
            let mut s = e;
            while s > 0 && b[s - 1] != 0x2f
                invariant
                    s <= e,
                    e <= n,
                    n == b@.len(),
                    segment_start(b@, s as int) == segment_start(b@, e as int),
                decreases s,
            {
                s = s - 1;
            }
            proof {
                lemma_segment_start(b@, e as int);
                assert(segment_start(b@, s as int) == s);
            }
            if e - s == 1 && b[s] == 0x2e {
                e = s;
            } else if e - s == 2 && b[s] == 0x2e && b[s + 1] == 0x2e {
                return None;
            } else {
                return Some((s, e));
            }
        }
    }
}

/// The byte range of a path's extension, if it has a nonempty file name with one.
fn extension_range(b: &[u8]) -> (r: (usize, usize))
    ensures
        r.0 <= r.1 <= b@.len(),
        b@.subrange(r.0 as int, r.1 as int) == extension(b@),
{
    let n = b.len();
    let result = file_name(b);
    match result {
        None => {
            assert(b@.subrange(0, 0) =~= Seq::<u8>::empty());
            (0, 0)
        },
        Some((s, t)) => {
            let mut p = t;
            while p > s && b[p - 1] != 0x2e
                invariant
                    s <= p <= t,
                    t <= n,
                    n == b@.len(),
                    last_dot(b@, s as int, p as int) == last_dot(b@, s as int, t as int),
                decreases p,
            {
                p = p - 1;
            }
            proof {
                lemma_last_dot(b@, s as int, t as int);
            }
            if p > s && p - 1 > s {
                (p, t)
            } else {
                assert(b@.subrange(0, 0) =~= Seq::<u8>::empty());
                (0, 0)
            }
        },
    }
}

/// The bytes equal the UTF-8 bytes of the string.
fn bytes_eq_str(b: &[u8], s: &str) -> (r: bool)
    ensures
        r == (b@ == utf8(s@)),
{
    compare_bytes(b, s.as_bytes()) == Cmp::Equal
}

/// Extensions of languages whose comments start with `#`.
pub open spec fn hash_comment_extension(x: Seq<u8>) -> bool {
    x == utf8("py"@) || x == utf8("php"@) || x == utf8("conf"@) || x == utf8("yaml"@) || x
        == utf8("yml"@) || x == utf8("toml"@)
}

/// Extensions of browser-side sources.
pub open spec fn browser_extension(x: Seq<u8>) -> bool {
    x == utf8("js"@) || x == utf8("jsx"@) || x == utf8("ts"@) || x == utf8("tsx"@) || x == utf8(
        "mjs"@,
    ) || x == utf8("cjs"@) || x == utf8("html"@) || x == utf8("vue"@) || x == utf8("svelte"@) || x
        == utf8("astro"@)
}

/// Extensions of analysed sources.
pub open spec fn analysed_extension(x: Seq<u8>) -> bool {
    hash_comment_extension(x) || browser_extension(x) || x == utf8("rs"@) || x == utf8("go"@) || x
        == utf8("java"@)
}

fn is_hash_comment_extension(x: &[u8]) -> (r: bool)
    ensures
        r == hash_comment_extension(x@),
{
    bytes_eq_str(x, "py") || bytes_eq_str(x, "php") || bytes_eq_str(x, "conf") || bytes_eq_str(
        x,
        "yaml",
    ) || bytes_eq_str(x, "yml") || bytes_eq_str(x, "toml")
}

fn is_browser_extension(x: &[u8]) -> (r: bool)
    ensures
        r == browser_extension(x@),
{
    bytes_eq_str(x, "js") || bytes_eq_str(x, "jsx") || bytes_eq_str(x, "ts") || bytes_eq_str(
        x,
        "tsx",
    ) || bytes_eq_str(x, "mjs") || bytes_eq_str(x, "cjs") || bytes_eq_str(x, "html")
        || bytes_eq_str(x, "vue") || bytes_eq_str(x, "svelte") || bytes_eq_str(x, "astro")
}

/// The extension of `path` marks a source that discovery analyses.
pub fn is_analysed_source(path: &str) -> (r: bool)
    ensures
        r == analysed_extension(extension(utf8(path@))),
{
    let b = path.as_bytes();
    let (s, e) = extension_range(b);
    let x = vstd::slice::slice_subrange(b, s, e);
    is_hash_comment_extension(x) || is_browser_extension(x) || bytes_eq_str(x, "rs")
        || bytes_eq_str(x, "go") || bytes_eq_str(x, "java")
}

/// Directory entries that traversal never enters: version control, agent and tool
/// state, dependencies and build output, and the lock file itself.
pub open spec fn excluded_entry(name: Seq<char>) -> bool {
    name == ".git"@ || name == ".agents"@ || name == ".codex"@ || name == "target"@ || name
        == "node_modules"@ || name == ".crumbled"@ || name == ".amber"@ || name == ".next"@ || name
        == "dist"@ || name == "build"@ || name == ".venv"@ || name == "vendor"@ || name
        == "crumbled.lock"@
}

/// The directory entry is excluded from traversal.
pub fn is_excluded_entry(name: &str) -> (r: bool)
    ensures
        r == excluded_entry(name@),
{
    str_eq(name, ".git") || str_eq(name, ".agents") || str_eq(name, ".codex") || str_eq(
        name,
        "target",
    ) || str_eq(name, "node_modules") || str_eq(name, ".crumbled") || str_eq(name, ".amber")
        || str_eq(name, ".next") || str_eq(name, "dist") || str_eq(name, "build") || str_eq(
        name,
        ".venv",
    ) || str_eq(name, "vendor") || str_eq(name, "crumbled.lock")
}

/// The most entries and the deepest level that a traversal visits.
pub open spec fn within_traversal_budget(visited: usize, depth: usize) -> bool {
    visited <= 100000 && depth <= 128
}

/// Whether a traversal that has visited `visited` entries may continue at `depth`.
pub fn traversal_within_budget(visited: usize, depth: usize) -> (r: bool)
    ensures
        r == within_traversal_budget(visited, depth),
{
    visited <= 100000 && depth <= 128
}

// ---------------------------------------------------------------------------
// Traversal
// ---------------------------------------------------------------------------

/// What an entry of the repository is, as its own metadata says (links are not
/// followed).
#[derive(Clone, Copy, Debug, PartialEq, Eq, Structural)]
pub enum EntryKind {
    Symlink,
    File,
    Directory,
    Special,
}

/// What traversal does with an entry.
#[derive(Debug, PartialEq, Eq)]
pub enum Visit {
    /// The analysis fails, for this reason.
    Fail(String),
    /// The entry is a source to analyse.
    Keep,
    /// The entry is passed over.
    Ignore,
    /// The entry is a directory whose entries are visited next.
    Descend,
}

pub enum VisitView {
    Fail(Seq<char>),
    Keep,
    Ignore,
    Descend,
}

impl View for Visit {
    type V = VisitView;

    open spec fn view(&self) -> VisitView {
        match self {
            Visit::Fail(m) => VisitView::Fail(m@),
            Visit::Keep => VisitView::Keep,
            Visit::Ignore => VisitView::Ignore,
            Visit::Descend => VisitView::Descend,
        }
    }
}

/// Why a traversal stops when it exceeds its budget.
pub open spec fn budget_exceeded() -> Seq<char> {
    "repository exceeds traversal budget"@
}

/// What traversal does with the entry at `path`, the `visited`-th entry visited, at
/// `depth` below the root. Symlinks and special files fail the analysis; a file is
/// analysed when its extension is a source extension, and otherwise fails the
/// analysis when it is the root itself and is passed over below it; a directory is
/// descended into.
pub open spec fn spec_visit(visited: usize, depth: usize, kind: EntryKind, path: Seq<char>) -> VisitView {
    if !within_traversal_budget(visited, depth) {
        VisitView::Fail(budget_exceeded())
    } else {
        match kind {
            EntryKind::Symlink => VisitView::Fail(
                "symlink is outside the supported analysis scope: "@ + path,
            ),
            EntryKind::File => if analysed_extension(extension(utf8(path))) {
                VisitView::Keep
            } else if depth == 0 {
                VisitView::Fail("unsupported source type: "@ + path)
            } else {
                VisitView::Ignore
            },
            EntryKind::Directory => VisitView::Descend,
            EntryKind::Special => VisitView::Fail("special file is unsupported: "@ + path),
        }
    }
}

/// Fails when a traversal that has visited `visited` entries may not go on at `depth`.
pub fn check_budget(visited: usize, depth: usize) -> (r: Result<(), String>)
    ensures
        r is Ok <==> within_traversal_budget(visited, depth),
        r matches Err(e) ==> e@ == budget_exceeded(),
{
    if traversal_within_budget(visited, depth) {
        Ok(())
    } else {
        Err("repository exceeds traversal budget".to_string())
    }
}

/// Decides what traversal does with an entry.
pub fn visit(visited: usize, depth: usize, kind: EntryKind, path: &str) -> (v: Visit)
    ensures
        v@ == spec_visit(visited, depth, kind, path@),
{
    if let Err(e) = check_budget(visited, depth) {
        return Visit::Fail(e);
    }
    match kind {
        EntryKind::Symlink => Visit::Fail(
            concat("symlink is outside the supported analysis scope: ", path),
        ),
        EntryKind::File => {
            if is_analysed_source(path) {
                Visit::Keep
            } else if depth == 0 {
                Visit::Fail(concat("unsupported source type: ", path))
            } else {
                Visit::Ignore
            }
        },
        EntryKind::Directory => Visit::Descend,
        EntryKind::Special => Visit::Fail(concat("special file is unsupported: ", path)),
    }
}

/// The names are in order: no name is greater than a later one.
pub open spec fn names_ordered<T>(items: Seq<(String, T)>) -> bool {
    forall|i: int, j: int| 0 <= i < j < items.len() ==> !str_lt(#[trigger] items[j].0@, #[trigger] items[i].0@)
}

/// The items in name order (a stable sort by name): traversal visits the entries of
/// a directory in this order.
pub fn sort_by_name<T>(items: Vec<(String, T)>) -> (r: Vec<(String, T)>)
    ensures
        r@.to_multiset() == items@.to_multiset(),
        names_ordered(r@),
{
    broadcast use vstd::seq_lib::group_to_multiset_ensures;
    broadcast use vstd::multiset::group_multiset_axioms;

    let ghost all = items@;
    let mut rest = items;
    let mut out: Vec<(String, T)> = Vec::new();
    let n = rest.len();
    let mut i: usize = 0;
    while i < n
        invariant
            i <= n,
            n == all.len(),
            rest@ == all.skip(i as int),
            out@.to_multiset() == all.take(i as int).to_multiset(),
            names_ordered(out@),
        decreases n - i,
    {
        let item = rest.remove(0);
        proof {
            assert(item == all[i as int]);
            assert(rest@ =~= all.skip(i + 1));
            assert(all.take(i + 1) =~= all.take(i as int).push(item));
        }
        let mut p: usize = 0;
        while p < out.len() && !(compare_str(item.0.as_str(), out[p].0.as_str()) == Cmp::Less)
            invariant
                p <= out@.len(),
                forall|q: int| 0 <= q < p ==> !str_lt(item.0@, (#[trigger] out@[q]).0@),
            decreases out.len() - p,
        {
            p = p + 1;
        }
        let ghost before = out@;
        let ghost key = item.0@;
        out.insert(p, item);
        proof {
            assert(out@.remove(p as int) =~= before);
            out@.to_multiset_ensures();
            all.take(i as int).to_multiset_ensures();
            assert(all.take(i as int).push(all[i as int]).to_multiset() =~= all.take(
                i as int,
            ).to_multiset().insert(all[i as int]));
            assert(out@[p as int] == all[i as int]);
            assert(out@.contains(out@[p as int]));
            assert(out@.to_multiset().count(out@[p as int]) > 0);
            assert(out@.remove(p as int).to_multiset() =~= out@.to_multiset().remove(
                out@[p as int],
            ));
            assert(out@.to_multiset() =~= before.to_multiset().insert(out@[p as int]));
            assert forall|a: int, b: int| 0 <= a < b < out@.len() implies !str_lt(
                #[trigger] out@[b].0@,
                #[trigger] out@[a].0@,
            ) by {
                if b < p {
                    assert(out@[a] == before[a] && out@[b] == before[b]);
                } else if b == p {
                    assert(out@[a] == before[a]);
                    lemma_str_lt_order(key, before[a].0@, key);
                } else if a == p {
                    assert(out@[b] == before[b - 1]);
                    assert(str_lt(key, before[p as int].0@));
                    if b - 1 > p {
                        lemma_str_lt_order(before[p as int].0@, before[b - 1].0@, before[p as int].0@);
                        lemma_str_lt_order(key, before[p as int].0@, before[b - 1].0@);
                    }
                    lemma_str_lt_order(key, before[b - 1].0@, key);
                } else if a < p {
                    assert(out@[a] == before[a]);
                    assert(out@[b] == before[b - 1]);
                } else {
                    assert(out@[a] == before[a - 1]);
                    assert(out@[b] == before[b - 1]);
                }
            }
        }
        i = i + 1;
    }
    assert(all.take(n as int) =~= all);
    out
}

// ---------------------------------------------------------------------------
// Token patterns
// ---------------------------------------------------------------------------

pub open spec fn token_views(ts: Seq<Token>) -> Seq<TokenView> {
    ts.map_values(|t: Token| t@)
}

/// The token at `i` is a word with this text.
pub open spec fn is_word_at(ts: Seq<TokenView>, i: int, text: Seq<char>) -> bool {
    0 <= i < ts.len() && ts[i].kind == Kind::Word && ts[i].text == text
}

/// The token at `i` is a symbol with this text.
pub open spec fn is_symbol_at(ts: Seq<TokenView>, i: int, text: Seq<char>) -> bool {
    0 <= i < ts.len() && ts[i].kind == Kind::Symbol && ts[i].text == text
}

/// The token at `i` follows a `.`.
pub open spec fn preceded_by_member(ts: Seq<TokenView>, i: int) -> bool {
    i > 0 && is_symbol_at(ts, i - 1, "."@)
}

/// `x.property` or `x['property']` at `i`: the index after the access.
pub open spec fn member_end(ts: Seq<TokenView>, i: int, property: Seq<char>) -> Option<int> {
    if is_symbol_at(ts, i + 1, "."@) && is_word_at(ts, i + 2, property) {
        Some(i + 3)
    } else if is_symbol_at(ts, i + 1, "["@) && 0 <= i + 2 < ts.len() && ts[i + 2].kind
        == Kind::Literal && ts[i + 2].text == property && is_symbol_at(ts, i + 3, "]"@) {
        Some(i + 4)
    } else {
        None
    }
}

/// The sets of tokens that may end a constant expression.
#[derive(Clone, Copy, Debug, PartialEq, Eq, Structural)]
pub enum Delimiters {
    /// `;`, `)` and `}`.
    Statement,
    /// `,` and `)`.
    Argument,
    /// `,`, `)`, `]` and `}`.
    Header,
}

pub open spec fn is_delimiter(set: Delimiters, x: Seq<char>) -> bool {
    match set {
        Delimiters::Statement => x == ";"@ || x == ")"@ || x == "}"@,
        Delimiters::Argument => x == ","@ || x == ")"@,
        Delimiters::Header => x == ","@ || x == ")"@ || x == "]"@ || x == "}"@,
    }
}

/// Words that start a new statement.
pub open spec fn statement_word(x: Seq<char>) -> bool {
    x == "const"@ || x == "let"@ || x == "var"@ || x == "return"@ || x == "document"@ || x
        == "cookieStore"@
}

/// A literal at `i` that is a whole expression: the next token is a delimiter, a
/// statement word on a later line, or there is no next token.
pub open spec fn constant_at(ts: Seq<TokenView>, i: int, set: Delimiters) -> bool {
    &&& 0 <= i < ts.len()
    &&& ts[i].kind == Kind::Literal
    &&& (i + 1 >= ts.len() || (ts[i + 1].kind == Kind::Symbol && is_delimiter(set, ts[i + 1].text))
        || (ts[i + 1].line > ts[i].line && ts[i + 1].kind == Kind::Word && statement_word(
        ts[i + 1].text,
    )))
}

/// The value of the constant expression at `i`.
pub open spec fn constant_expression(ts: Seq<TokenView>, i: int, set: Delimiters) -> Option<
    Seq<char>,
> {
    if constant_at(ts, i, set) {
        Some(ts[i].text)
    } else {
        None
    }
}

/// The cookie interface a behaviour uses.
#[derive(Clone, Copy, Debug, PartialEq, Eq, Structural)]
pub enum Api {
    DocumentCookie,
    CookieStoreSet,
    CookieStoreDelete,
    CookieStoreGet,
    ServerFunction,
    HttpSetCookie,
    HttpCookie,
}

pub open spec fn api_name(a: Api) -> Seq<char> {
    match a {
        Api::DocumentCookie => "document.cookie"@,
        Api::CookieStoreSet => "cookieStore.set"@,
        Api::CookieStoreDelete => "cookieStore.delete"@,
        Api::CookieStoreGet => "cookieStore.get"@,
        Api::ServerFunction => "server cookie abstraction"@,
        Api::HttpSetCookie => "HTTP Set-Cookie"@,
        Api::HttpCookie => "HTTP Cookie"@,
    }
}

/// The name of an interface.
pub fn api_str(a: Api) -> (s: &'static str)
    ensures
        s@ == api_name(a),
{
    match a {
        Api::DocumentCookie => "document.cookie",
        Api::CookieStoreSet => "cookieStore.set",
        Api::CookieStoreDelete => "cookieStore.delete",
        Api::CookieStoreGet => "cookieStore.get",
        Api::ServerFunction => "server cookie abstraction",
        Api::HttpSetCookie => "HTTP Set-Cookie",
        Api::HttpCookie => "HTTP Cookie",
    }
}

/// What a token starts: interface, operation, the literal it names (if constant), and
/// whether that literal is a whole `name=value; attributes` cookie string.
pub struct Detection {
    pub api: Api,
    pub operation: Operation,
    pub literal: Option<Seq<char>>,
    pub header_cookie: bool,
}

/// Direct `document.cookie` access: an assignment creates, `+=` modifies, else reads.
pub open spec fn document_rule(ts: Seq<TokenView>, i: int, browser: bool) -> Option<Detection> {
    if browser && is_word_at(ts, i, "document"@) && !preceded_by_member(ts, i) && member_end(
        ts,
        i,
        "cookie"@,
    ) is Some {
        let end = member_end(ts, i, "cookie"@).unwrap();
        if is_symbol_at(ts, end, "="@) && !is_symbol_at(ts, end + 1, "="@) && !is_symbol_at(
            ts,
            end + 1,
            ">"@,
        ) {
            Some(
                Detection {
                    api: Api::DocumentCookie,
                    operation: Operation::Create,
                    literal: constant_expression(ts, end + 1, Delimiters::Statement),
                    header_cookie: true,
                },
            )
        } else if is_symbol_at(ts, end, "+"@) && is_symbol_at(ts, end + 1, "="@) {
            Some(
                Detection {
                    api: Api::DocumentCookie,
                    operation: Operation::Modify,
                    literal: None,
                    header_cookie: false,
                },
            )
        } else {
            Some(
                Detection {
                    api: Api::DocumentCookie,
                    operation: Operation::Read,
                    literal: None,
                    header_cookie: false,
                },
            )
        }
    } else {
        None
    }
}

pub open spec fn store_api(op: Operation) -> Api {
    match op {
        Operation::Create => Api::CookieStoreSet,
        Operation::Delete => Api::CookieStoreDelete,
        _ => Api::CookieStoreGet,
    }
}

/// A call `cookieStore.method(...)`.
pub open spec fn store_call(ts: Seq<TokenView>, i: int, method: Seq<char>, op: Operation) -> Option<
    Detection,
> {
    match member_end(ts, i, method) {
        Some(end) => if is_symbol_at(ts, end, "("@) {
            Some(
                Detection {
                    api: store_api(op),
                    operation: op,
                    literal: constant_expression(ts, end + 1, Delimiters::Argument),
                    header_cookie: false,
                },
            )
        } else {
            None
        },
        None => None,
    }
}

/// The last matching call among `set`, `get`, `getAll` and `delete`.
pub open spec fn store_rule(ts: Seq<TokenView>, i: int, browser: bool) -> Option<Detection> {
    if browser && is_word_at(ts, i, "cookieStore"@) && !preceded_by_member(ts, i) {
        let d = store_call(ts, i, "delete"@, Operation::Delete);
        if d is Some {
            d
        } else {
            let d = store_call(ts, i, "getAll"@, Operation::Read);
            if d is Some {
                d
            } else {
                let d = store_call(ts, i, "get"@, Operation::Read);
                if d is Some {
                    d
                } else {
                    store_call(ts, i, "set"@, Operation::Create)
                }
            }
        }
    } else {
        None
    }
}

/// Server functions that set cookies.
pub open spec fn server_function(x: Seq<char>) -> bool {
    x == "set_cookie"@ || x == "add_cookie"@ || x == "setCookie"@ || x == "setcookie"@
}

/// A call of a server cookie function.
pub open spec fn server_rule(ts: Seq<TokenView>, i: int) -> Option<Detection> {
    if 0 <= i < ts.len() && ts[i].kind == Kind::Word && server_function(ts[i].text)
        && is_symbol_at(ts, i + 1, "("@) {
        Some(
            Detection {
                api: Api::ServerFunction,
                operation: Operation::Create,
                literal: constant_expression(ts, i + 2, Delimiters::Argument),
                header_cookie: false,
            },
        )
    } else {
        None
    }
}

/// ASCII-lowercase of a byte.
pub open spec fn lower_byte(b: u8) -> u8 {
    if 0x41 <= b <= 0x5a {
        (b + 32) as u8
    } else {
        b
    }
}

/// `str::eq_ignore_ascii_case`, on the UTF-8 bytes of both strings.
pub open spec fn eq_ignore_ascii_case(a: Seq<char>, b: Seq<char>) -> bool {
    utf8(a).len() == utf8(b).len() && forall|k: int|
        0 <= k < utf8(a).len() ==> lower_byte(#[trigger] utf8(a)[k]) == lower_byte(utf8(b)[k])
}

/// A header name in an argument or configuration context: a literal `Set-Cookie` or
/// `Cookie` (any case) or a `SET_COOKIE`/`COOKIE` constant, right after `(`, `[`, `,`
/// or `{`, and not the property of `document[...]`.
pub open spec fn header_rule(ts: Seq<TokenView>, i: int, browser: bool) -> Option<Detection> {
    if 0 <= i < ts.len() && !(browser && i >= 2 && is_word_at(ts, i - 2, "document"@)
        && is_symbol_at(ts, i - 1, "["@)) && ((ts[i].kind == Kind::Literal && (eq_ignore_ascii_case(
        ts[i].text,
        "set-cookie"@,
    ) || eq_ignore_ascii_case(ts[i].text, "cookie"@))) || (ts[i].kind == Kind::Word && (ts[i].text
        == "SET_COOKIE"@ || ts[i].text == "COOKIE"@))) && i > 0 && (is_symbol_at(ts, i - 1, "("@)
        || is_symbol_at(ts, i - 1, "["@) || is_symbol_at(ts, i - 1, ","@) || is_symbol_at(
        ts,
        i - 1,
        "{"@,
    )) {
        let set = eq_ignore_ascii_case(ts[i].text, "set-cookie"@) || ts[i].text == "SET_COOKIE"@;
        let valued = set && (is_symbol_at(ts, i + 1, ","@) || is_symbol_at(ts, i + 1, ":"@));
        Some(
            Detection {
                api: if set {
                    Api::HttpSetCookie
                } else {
                    Api::HttpCookie
                },
                operation: if set {
                    Operation::Receive
                } else {
                    Operation::Send
                },
                literal: if valued {
                    constant_expression(ts, i + 2, Delimiters::Header)
                } else {
                    None
                },
                header_cookie: valued,
            },
        )
    } else {
        None
    }
}

#[verifier::opaque]
/// The behaviour that the token at `i` starts, if any. The rules apply to different
/// tokens (`document`, `cookieStore`, server functions, header names), so at most one
/// of them matches.
pub open spec fn detect(ts: Seq<TokenView>, i: int, browser: bool) -> Option<Detection> {
    if document_rule(ts, i, browser) is Some {
        document_rule(ts, i, browser)
    } else if store_rule(ts, i, browser) is Some {
        store_rule(ts, i, browser)
    } else if server_rule(ts, i) is Some {
        server_rule(ts, i)
    } else {
        header_rule(ts, i, browser)
    }
}

// ---------------------------------------------------------------------------
// Findings
// ---------------------------------------------------------------------------

/// The identity of the cookie a detection names. A header-style literal is read as a
/// cookie string; otherwise a literal is the name. An unresolved name is scoped to the
/// byte offset, so independent dynamic accesses are never merged.
pub open spec fn detected_cookie(
    path: Seq<char>,
    application: Seq<char>,
    offset: usize,
    d: Detection,
) -> CookieIdentityView {
    let base = CookieIdentityView {
        name: d.literal,
        domain: None,
        path: None,
        origin: "repository:"@ + path,
        application,
        attributes: seq![],
    };
    let read = if d.header_cookie {
        let cleared = CookieIdentityView { name: None, ..base };
        match d.literal {
            Some(v) => spec_parse_cookie(v, cleared),
            None => cleared,
        }
    } else {
        base
    };
    if read.name is None {
        CookieIdentityView {
            origin: "repository:unresolved:"@ + path + ":"@ + decimal(offset as nat),
            ..read
        }
    } else {
        read
    }
}

/// The evidence of a detection, with the given explanation.
pub open spec fn detection_evidence(
    path: Seq<char>,
    t: TokenView,
    api: Api,
    timestamp: Option<u64>,
    digest: Seq<char>,
    detail: Seq<char>,
) -> EvidenceView {
    EvidenceView {
        source: "detector:"@ + api_name(api) + ":v2"@,
        method: Method::StaticRule,
        confidence: Confidence::Possible,
        location: Some(
            LocationView { path, line: t.line, column: t.column, byte_offset: t.offset },
        ),
        timestamp,
        content_sha256: digest,
        detail,
    }
}

#[verifier::opaque]
/// The finding for a detection at token `t`. Cookie values and source lines are never
/// copied into evidence; the finding is declared, never observed or correlated.
pub open spec fn detected_finding(
    path: Seq<char>,
    application: Seq<char>,
    timestamp: Option<u64>,
    digest: Seq<char>,
    t: TokenView,
    d: Detection,
) -> FindingView {
    let cookie = detected_cookie(path, application, t.offset, d);
    let evidence = detection_evidence(
        path,
        t,
        d.api,
        timestamp,
        digest,
        "Lexical "@ + api_name(d.api) + " access; execution and purpose are unproven"@,
    );
    let policy_evidence = detection_evidence(
        path,
        t,
        d.api,
        timestamp,
        digest,
        "No explicit user policy matches this identity; purpose remains unknown"@,
    );
    FindingView {
        id: "behaviour:"@ + spec_identity_hash(
            seq![application, path, decimal(t.offset as nat), api_name(d.api), spec_cookie_id(cookie)],
        ),
        cookie,
        operation: d.operation,
        technical_classification: api_name(d.api),
        classification: ClassificationView {
            value: PermissionClass::Unknown,
            confidence: Confidence::Unknown,
            method: Method::StaticRule,
            evidence: seq![policy_evidence],
        },
        confidence: Confidence::Possible,
        declared: true,
        observed: false,
        correlated: false,
        evidence: seq![evidence],
    }
}

/// The findings of the first `n` tokens, in token order.
pub open spec fn findings_upto(
    ts: Seq<TokenView>,
    n: int,
    browser: bool,
    path: Seq<char>,
    application: Seq<char>,
    timestamp: Option<u64>,
    digest: Seq<char>,
) -> Seq<FindingView>
    decreases n,
{
    if n <= 0 {
        seq![]
    } else {
        let prev = findings_upto(ts, n - 1, browser, path, application, timestamp, digest);
        match detect(ts, n - 1, browser) {
            Some(d) => prev.push(
                detected_finding(path, application, timestamp, digest, ts[n - 1], d),
            ),
            None => prev,
        }
    }
}

/// The token a located lexeme denotes.
pub open spec fn lexeme_token(l: Lexeme, bytes: Seq<u8>) -> TokenView {
    TokenView {
        text: decode_utf8(bytes.subrange(l.text_start, l.text_end)),
        kind: l.kind,
        offset: l.start as usize,
        line: pos_at(bytes, l.start).0 as usize,
        column: pos_at(bytes, l.start).1 as usize,
    }
}

/// The tokens of a source.
pub open spec fn source_tokens(bytes: Seq<u8>, hash_comments: bool) -> Seq<TokenView> {
    lex(bytes, hash_comments).map_values(|l: Lexeme| lexeme_token(l, bytes))
}

/// The findings of a source file: tokens with `#` comments for Python, PHP and
/// configuration files, browser rules for script and component files.
pub open spec fn scan_findings(
    path: Seq<char>,
    source: Seq<char>,
    application: Seq<char>,
    timestamp: Option<u64>,
) -> Seq<FindingView> {
    let ext = extension(utf8(path));
    let ts = source_tokens(utf8(source), hash_comment_extension(ext));
    findings_upto(
        ts,
        ts.len() as int,
        browser_extension(ext),
        path,
        application,
        timestamp,
        hex_lower(spec_sha256(utf8(source))),
    )
}


/// What every statically discovered finding claims, and no more.
pub open spec fn lexical_finding(f: FindingView, path: Seq<char>, digest: Seq<char>) -> bool {
    &&& f.declared
    &&& !f.observed
    &&& !f.correlated
    &&& f.confidence == Confidence::Possible
    &&& f.classification.value == PermissionClass::Unknown
    &&& f.classification.method == Method::StaticRule
    &&& f.evidence.len() == 1
    &&& f.evidence[0].content_sha256 == digest
    &&& f.evidence[0].location matches Some(l) && l.path == path
    &&& f.classification.evidence.len() == 1
    &&& f.classification.evidence[0].content_sha256 == digest
}

/// Every piece of evidence of the finding carries a digest of `n` characters.
pub open spec fn digests_have_length(f: FindingView, n: nat) -> bool {
    &&& forall|j: int| 0 <= j < f.evidence.len() ==> (#[trigger] f.evidence[j]).content_sha256.len() == n
    &&& forall|j: int|
        0 <= j < f.classification.evidence.len()
            ==> (#[trigger] f.classification.evidence[j]).content_sha256.len() == n
}

proof fn lemma_findings_upto_lexical(
    ts: Seq<TokenView>,
    n: int,
    browser: bool,
    path: Seq<char>,
    application: Seq<char>,
    timestamp: Option<u64>,
    digest: Seq<char>,
)
    ensures
        forall|k: int|
            0 <= k < findings_upto(ts, n, browser, path, application, timestamp, digest).len()
                ==> lexical_finding(
                #[trigger] findings_upto(ts, n, browser, path, application, timestamp, digest)[k],
                path,
                digest,
            ),
    decreases n,
{
    if n > 0 {
        lemma_findings_upto_lexical(ts, n - 1, browser, path, application, timestamp, digest);
        match detect(ts, n - 1, browser) {
            Some(d) => {
                reveal(detected_finding);
                let prev = findings_upto(ts, n - 1, browser, path, application, timestamp, digest);
                let f = detected_finding(path, application, timestamp, digest, ts[n - 1], d);
                let all = findings_upto(ts, n, browser, path, application, timestamp, digest);
                assert(all == prev.push(f));
                assert(f.evidence[0] == detection_evidence(
                    path,
                    ts[n - 1],
                    d.api,
                    timestamp,
                    digest,
                    "Lexical "@ + api_name(d.api) + " access; execution and purpose are unproven"@,
                ));
                assert(f.classification.evidence[0] == detection_evidence(
                    path,
                    ts[n - 1],
                    d.api,
                    timestamp,
                    digest,
                    "No explicit user policy matches this identity; purpose remains unknown"@,
                ));
                assert(lexical_finding(f, path, digest));
                assert forall|k: int| 0 <= k < all.len() implies lexical_finding(
                    #[trigger] all[k],
                    path,
                    digest,
                ) by {
                    if k < prev.len() {
                        assert(all[k] == prev[k]);
                    }
                }
            },
            None => {
                assert(findings_upto(ts, n, browser, path, application, timestamp, digest)
                    == findings_upto(ts, n - 1, browser, path, application, timestamp, digest));
            },
        }
    }
}

/// Static findings never claim runtime observation: every finding of a scan is
/// declared, neither observed nor correlated, only possible, of unknown purpose, and
/// has one piece of evidence that locates it in the scanned file and carries the
/// digest of the scanned source.
pub proof fn lemma_scan_findings_are_lexical(
    path: Seq<char>,
    source: Seq<char>,
    application: Seq<char>,
    timestamp: Option<u64>,
)
    ensures
        forall|k: int|
            0 <= k < scan_findings(path, source, application, timestamp).len() ==> lexical_finding(
                #[trigger] scan_findings(path, source, application, timestamp)[k],
                path,
                hex_lower(spec_sha256(utf8(source))),
            ),
{
    let ext = extension(utf8(path));
    let ts = source_tokens(utf8(source), hash_comment_extension(ext));
    lemma_findings_upto_lexical(
        ts,
        ts.len() as int,
        browser_extension(ext),
        path,
        application,
        timestamp,
        hex_lower(spec_sha256(utf8(source))),
    );
}

proof fn lemma_token_views(ts: Seq<Token>, bytes: Seq<u8>, hc: bool)
    requires
        tokens_match(ts, lex(bytes, hc), bytes),
    ensures
        token_views(ts) == source_tokens(bytes, hc),
{
    let ls = lex(bytes, hc);
    assert forall|k: int| 0 <= k < ts.len() implies token_views(ts)[k] == source_tokens(
        bytes,
        hc,
    )[k] by {
        let t = ts[k]@;
        assert(crate::lexer::token_matches(t, ls[k], bytes));
        assert(decode_utf8(encode_utf8(t.text)) == t.text);
    }
    assert(token_views(ts) =~= source_tokens(bytes, hc));
}

// ---------------------------------------------------------------------------
// Executable rules
// ---------------------------------------------------------------------------

fn word_at(tokens: &[Token], i: usize, k: usize, text: &str) -> (r: bool)
    ensures
        r == is_word_at(token_views(tokens@), i + k, text@),
{
    if i < tokens.len() && k < tokens.len() - i {
        let t = &tokens[i + k];
        t.kind == Kind::Word && str_eq(t.text.as_str(), text)
    } else {
        false
    }
}

fn symbol_at(tokens: &[Token], i: usize, k: usize, text: &str) -> (r: bool)
    ensures
        r == is_symbol_at(token_views(tokens@), i + k, text@),
{
    if i < tokens.len() && k < tokens.len() - i {
        let t = &tokens[i + k];
        t.kind == Kind::Symbol && str_eq(t.text.as_str(), text)
    } else {
        false
    }
}

fn symbol_before(tokens: &[Token], i: usize, k: usize, text: &str) -> (r: bool)
    requires
        k <= i,
    ensures
        r == is_symbol_at(token_views(tokens@), i - k, text@),
{
    if i - k < tokens.len() {
        let t = &tokens[i - k];
        t.kind == Kind::Symbol && str_eq(t.text.as_str(), text)
    } else {
        false
    }
}

fn word_before(tokens: &[Token], i: usize, k: usize, text: &str) -> (r: bool)
    requires
        k <= i,
    ensures
        r == is_word_at(token_views(tokens@), i - k, text@),
{
    if i - k < tokens.len() {
        let t = &tokens[i - k];
        t.kind == Kind::Word && str_eq(t.text.as_str(), text)
    } else {
        false
    }
}

fn member(tokens: &[Token], i: usize, property: &str) -> (r: Option<usize>)
    requires
        i < tokens@.len(),
    ensures
        match r {
            Some(e) => member_end(token_views(tokens@), i as int, property@) == Some(e as int),
            None => member_end(token_views(tokens@), i as int, property@) is None,
        },
{
    let n = tokens.len();
    if symbol_at(tokens, i, 1, ".") && word_at(tokens, i, 2, property) {
        Some(i + 3)
    } else if symbol_at(tokens, i, 1, "[") && 2 < n - i && tokens[i + 2].kind
        == Kind::Literal && str_eq(tokens[i + 2].text.as_str(), property) && symbol_at(
        tokens,
        i,
        3,
        "]",
    ) {
        Some(i + 4)
    } else {
        None
    }
}

fn delimiter(set: Delimiters, x: &str) -> (r: bool)
    ensures
        r == is_delimiter(set, x@),
{
    match set {
        Delimiters::Statement => str_eq(x, ";") || str_eq(x, ")") || str_eq(x, "}"),
        Delimiters::Argument => str_eq(x, ",") || str_eq(x, ")"),
        Delimiters::Header => str_eq(x, ",") || str_eq(x, ")") || str_eq(x, "]") || str_eq(x, "}"),
    }
}

/// The index of the literal at `i` when it is a whole constant expression.
fn constant(tokens: &[Token], i: usize, set: Delimiters) -> (r: Option<usize>)
    ensures
        match r {
            Some(k) => k == i && constant_at(token_views(tokens@), i as int, set),
            None => !constant_at(token_views(tokens@), i as int, set),
        },
{
    if i >= tokens.len() || tokens[i].kind != Kind::Literal {
        return None;
    }
    if i + 1 >= tokens.len() {
        return Some(i);
    }
    let t = &tokens[i + 1];
    let w = t.text.as_str();
    if (t.kind == Kind::Symbol && delimiter(set, w)) || (t.line > tokens[i].line && t.kind
        == Kind::Word && (str_eq(w, "const") || str_eq(w, "let") || str_eq(w, "var") || str_eq(
        w,
        "return",
    ) || str_eq(w, "document") || str_eq(w, "cookieStore"))) {
        Some(i)
    } else {
        None
    }
}

/// A detection, with the literal given as a token index.
pub struct Found {
    pub api: Api,
    pub operation: Operation,
    pub literal: Option<usize>,
    pub header_cookie: bool,
}

pub open spec fn found_matches(f: Found, d: Detection, ts: Seq<TokenView>) -> bool {
    &&& f.api == d.api
    &&& f.operation == d.operation
    &&& f.header_cookie == d.header_cookie
    &&& match f.literal {
        Some(k) => k < ts.len() && d.literal == Some(ts[k as int].text),
        None => d.literal is None,
    }
}

fn found_constant(
    tokens: &[Token],
    i: usize,
    k: usize,
    set: Delimiters,
) -> (r: Option<usize>)
    ensures
        match r {
            Some(j) => j < tokens@.len() && constant_expression(
                token_views(tokens@),
                i + k,
                set,
            ) == Some(token_views(tokens@)[j as int].text),
            None => constant_expression(token_views(tokens@), i + k, set) is None,
        },
{
    if i < tokens.len() && k < tokens.len() - i {
        constant(tokens, i + k, set)
    } else {
        None
    }
}

fn document_found(tokens: &[Token], i: usize, browser: bool) -> (r: Option<Found>)
    requires
        i < tokens@.len(),
    ensures
        match r {
            Some(f) => document_rule(token_views(tokens@), i as int, browser) matches Some(d)
                && found_matches(f, d, token_views(tokens@)),
            None => document_rule(token_views(tokens@), i as int, browser) is None,
        },
{
    if !(browser && word_at(tokens, i, 0, "document") && !(i > 0 && symbol_before(
        tokens,
        i,
        1,
        ".",
    ))) {
        return None;
    }
    let end = match member(tokens, i, "cookie") {
        Some(e) => e,
        None => {
            return None;
        },
    };
    if symbol_at(tokens, end, 0, "=") && !symbol_at(tokens, end, 1, "=") && !symbol_at(
        tokens,
        end,
        1,
        ">",
    ) {
        Some(
            Found {
                api: Api::DocumentCookie,
                operation: Operation::Create,
                literal: found_constant(tokens, end, 1, Delimiters::Statement),
                header_cookie: true,
            },
        )
    } else if symbol_at(tokens, end, 0, "+") && symbol_at(tokens, end, 1, "=") {
        Some(
            Found {
                api: Api::DocumentCookie,
                operation: Operation::Modify,
                literal: None,
                header_cookie: false,
            },
        )
    } else {
        Some(
            Found {
                api: Api::DocumentCookie,
                operation: Operation::Read,
                literal: None,
                header_cookie: false,
            },
        )
    }
}

fn store_found(tokens: &[Token], i: usize, method: &str, op: Operation) -> (r: Option<Found>)
    requires
        i < tokens@.len(),
    ensures
        match r {
            Some(f) => store_call(token_views(tokens@), i as int, method@, op) matches Some(d)
                && found_matches(f, d, token_views(tokens@)),
            None => store_call(token_views(tokens@), i as int, method@, op) is None,
        },
{
    match member(tokens, i, method) {
        Some(end) => if symbol_at(tokens, end, 0, "(") {
            let api = match op {
                Operation::Create => Api::CookieStoreSet,
                Operation::Delete => Api::CookieStoreDelete,
                _ => Api::CookieStoreGet,
            };
            Some(
                Found {
                    api,
                    operation: op,
                    literal: found_constant(tokens, end, 1, Delimiters::Argument),
                    header_cookie: false,
                },
            )
        } else {
            None
        },
        None => None,
    }
}

fn store_rule_found(tokens: &[Token], i: usize, browser: bool) -> (r: Option<Found>)
    requires
        i < tokens@.len(),
    ensures
        match r {
            Some(f) => store_rule(token_views(tokens@), i as int, browser) matches Some(d)
                && found_matches(f, d, token_views(tokens@)),
            None => store_rule(token_views(tokens@), i as int, browser) is None,
        },
{
    if !(browser && word_at(tokens, i, 0, "cookieStore") && !(i > 0 && symbol_before(
        tokens,
        i,
        1,
        ".",
    ))) {
        return None;
    }
    let mut result: Option<Found> = None;
    let set = store_found(tokens, i, "set", Operation::Create);
    if set.is_some() {
        result = set;
    }
    let get = store_found(tokens, i, "get", Operation::Read);
    if get.is_some() {
        result = get;
    }
    let get_all = store_found(tokens, i, "getAll", Operation::Read);
    if get_all.is_some() {
        result = get_all;
    }
    let delete = store_found(tokens, i, "delete", Operation::Delete);
    if delete.is_some() {
        result = delete;
    }
    result
}

fn server_found(tokens: &[Token], i: usize) -> (r: Option<Found>)
    requires
        i < tokens@.len(),
    ensures
        match r {
            Some(f) => server_rule(token_views(tokens@), i as int) matches Some(d) && found_matches(
                f,
                d,
                token_views(tokens@),
            ),
            None => server_rule(token_views(tokens@), i as int) is None,
        },
{
    let t = &tokens[i];
    let w = t.text.as_str();
    if t.kind == Kind::Word && (str_eq(w, "set_cookie") || str_eq(w, "add_cookie") || str_eq(
        w,
        "setCookie",
    ) || str_eq(w, "setcookie")) && symbol_at(tokens, i, 1, "(") {
        Some(
            Found {
                api: Api::ServerFunction,
                operation: Operation::Create,
                literal: found_constant(tokens, i, 2, Delimiters::Argument),
                header_cookie: false,
            },
        )
    } else {
        None
    }
}

/// `str::eq_ignore_ascii_case`.
fn same_ignoring_ascii_case(a: &str, b: &str) -> (r: bool)
    ensures
        r == eq_ignore_ascii_case(a@, b@),
{
    let x = a.as_bytes();
    let y = b.as_bytes();
    if x.len() != y.len() {
        return false;
    }
    let mut k: usize = 0;
    while k < x.len()
        invariant
            k <= x@.len(),
            x@ == utf8(a@),
            y@ == utf8(b@),
            x@.len() == y@.len(),
            forall|j: int| 0 <= j < k ==> lower_byte(#[trigger] x@[j]) == lower_byte(y@[j]),
        decreases x.len() - k,
    {
        let p = if 0x41 <= x[k] && x[k] <= 0x5a {
            x[k] + 32
        } else {
            x[k]
        };
        let q = if 0x41 <= y[k] && y[k] <= 0x5a {
            y[k] + 32
        } else {
            y[k]
        };
        if p != q {
            return false;
        }
        k = k + 1;
    }
    true
}

fn header_found(tokens: &[Token], i: usize, browser: bool) -> (r: Option<Found>)
    requires
        i < tokens@.len(),
    ensures
        match r {
            Some(f) => header_rule(token_views(tokens@), i as int, browser) matches Some(d)
                && found_matches(f, d, token_views(tokens@)),
            None => header_rule(token_views(tokens@), i as int, browser) is None,
        },
{
    let t = &tokens[i];
    let w = t.text.as_str();
    let in_document_index = browser && i >= 2 && word_before(tokens, i, 2, "document")
        && symbol_before(tokens, i, 1, "[");
    let header_name = (t.kind == Kind::Literal && (same_ignoring_ascii_case(w, "set-cookie")
        || same_ignoring_ascii_case(w, "cookie"))) || (t.kind == Kind::Word && (str_eq(
        w,
        "SET_COOKIE",
    ) || str_eq(w, "COOKIE")));
    let argument_context = i > 0 && (symbol_before(tokens, i, 1, "(") || symbol_before(
        tokens,
        i,
        1,
        "[",
    ) || symbol_before(tokens, i, 1, ",") || symbol_before(tokens, i, 1, "{"));
    if !in_document_index && header_name && argument_context {
        let set = same_ignoring_ascii_case(w, "set-cookie") || str_eq(w, "SET_COOKIE");
        let valued = set && (symbol_at(tokens, i, 1, ",") || symbol_at(tokens, i, 1, ":"));
        Some(
            Found {
                api: if set {
                    Api::HttpSetCookie
                } else {
                    Api::HttpCookie
                },
                operation: if set {
                    Operation::Receive
                } else {
                    Operation::Send
                },
                literal: if valued {
                    found_constant(tokens, i, 2, Delimiters::Header)
                } else {
                    None
                },
                header_cookie: valued,
            },
        )
    } else {
        None
    }
}

/// The behaviour the token at `i` starts.
fn detect_at(tokens: &[Token], i: usize, browser: bool) -> (r: Option<Found>)
    requires
        i < tokens@.len(),
    ensures
        match r {
            Some(f) => detect(token_views(tokens@), i as int, browser) matches Some(d)
                && found_matches(f, d, token_views(tokens@)),
            None => detect(token_views(tokens@), i as int, browser) is None,
        },
{
    proof {
        reveal(detect);
    }
    let d = document_found(tokens, i, browser);
    if d.is_some() {
        return d;
    }
    let s = store_rule_found(tokens, i, browser);
    if s.is_some() {
        return s;
    }
    let v = server_found(tokens, i);
    if v.is_some() {
        return v;
    }
    header_found(tokens, i, browser)
}

/// The finding for a detection.
fn make_finding(
    path: &str,
    application: &str,
    timestamp: Option<u64>,
    digest: &String,
    token: &Token,
    found: &Found,
    literal: Option<&String>,
) -> (f: Finding)
    requires
        match found.literal {
            Some(_) => literal matches Some(s) && true,
            None => literal is None,
        },
    ensures
        f@ == detected_finding(
            path@,
            application@,
            timestamp,
            digest@,
            token@,
            Detection {
                api: found.api,
                operation: found.operation,
                literal: match literal {
                    Some(s) => Some(s@),
                    None => None,
                },
                header_cookie: found.header_cookie,
            },
        ),
{
    proof {
        reveal(detected_finding);
    }
    let ghost d = Detection {
        api: found.api,
        operation: found.operation,
        literal: match literal {
            Some(s) => Some(s@),
            None => None,
        },
        header_cookie: found.header_cookie,
    };
    let api = api_str(found.api);
    let mut cookie = CookieIdentity {
        name: match literal {
            Some(s) => Some(s.clone()),
            None => None,
        },
        domain: None,
        path: None,
        origin: concat("repository:", path),
        application: owned(application),
        attributes: Attributes::new(),
    };
    if found.header_cookie {
        cookie.name = None;
        match literal {
            Some(value) => parse_cookie(value.as_str(), &mut cookie),
            None => {},
        }
    }
    if cookie.name.is_none() {
        let offset = to_decimal(token.offset);
        let mut origin = concat3("repository:unresolved:", path, ":");
        origin.append(offset.as_str());
        cookie.origin = origin;
    }
    assert(cookie@ == detected_cookie(path@, application@, token.offset, d));
    let source = concat3("detector:", api, ":v2");
    let detail = concat3("Lexical ", api, " access; execution and purpose are unproven");
    let evidence = Evidence {
        source,
        method: Method::StaticRule,
        confidence: Confidence::Possible,
        location: Some(
            Location {
                path: owned(path),
                line: token.line,
                column: token.column,
                byte_offset: token.offset,
            },
        ),
        timestamp,
        content_sha256: digest.clone(),
        detail,
    };
    let policy_evidence = Evidence {
        detail: owned("No explicit user policy matches this identity; purpose remains unknown"),
        ..evidence.clone()
    };
    let cookie_id = cookie.id();
    let offset_text = to_decimal(token.offset);
    let parts = [application, path, offset_text.as_str(), api, cookie_id.as_str()];
    proof {
        assert(str_views(parts@) =~= seq![
            application@,
            path@,
            decimal(token.offset as nat),
            api_name(found.api),
            spec_cookie_id(cookie@),
        ]);
    }
    let hash = identity_hash(&parts);
    let id = concat("behaviour:", hash.as_str());
    let mut evidence_list: Vec<Evidence> = Vec::new();
    evidence_list.push(evidence);
    let mut policy_list: Vec<Evidence> = Vec::new();
    policy_list.push(policy_evidence);
    let f = Finding {
        id,
        cookie,
        operation: found.operation,
        technical_classification: owned(api),
        classification: Classification {
            value: PermissionClass::Unknown,
            confidence: Confidence::Unknown,
            method: Method::StaticRule,
            evidence: policy_list,
        },
        confidence: Confidence::Possible,
        declared: true,
        observed: false,
        correlated: false,
        evidence: evidence_list,
    };
    proof {
        assert(crate::model::evidence_views(f.evidence@) =~= seq![
            detection_evidence(
                path@,
                token@,
                found.api,
                timestamp,
                digest@,
                "Lexical "@ + api_name(found.api) + " access; execution and purpose are unproven"@,
            ),
        ]);
        assert(crate::model::evidence_views(f.classification.evidence@) =~= seq![
            detection_evidence(
                path@,
                token@,
                found.api,
                timestamp,
                digest@,
                "No explicit user policy matches this identity; purpose remains unknown"@,
            ),
        ]);
    }
    f
}

/// Discovers cookie behaviour in one source file's text. `path` selects the rules
/// (by extension) and is recorded as the evidence location; `timestamp` is source
/// metadata and does not affect identities.
pub fn scan_text(path: &str, source: &str, application: &str, timestamp: Option<u64>) -> (out: Vec<
    Finding,
>)
    requires
        source.spec_bytes().len() < usize::MAX,
    ensures
        finding_views(out@) == scan_findings(path@, source@, application@, timestamp),
        forall|k: int| 0 <= k < out@.len() ==> digests_have_length(#[trigger] out@[k]@, 64),
{
    let path_bytes = path.as_bytes();
    let (es, ee) = extension_range(path_bytes);
    let ext = vstd::slice::slice_subrange(path_bytes, es, ee);
    let hash_comments = is_hash_comment_extension(ext);
    let browser = is_browser_extension(ext);
    let tokens = tokenize(source, hash_comments);
    let digest = sha256(source.as_bytes());
    let ghost ts = token_views(tokens@);
    proof {
        lemma_token_views(tokens@, source.spec_bytes(), hash_comments);
    }
    let ghost spec_digest = hex_lower(spec_sha256(utf8(source@)));
    let mut out: Vec<Finding> = Vec::new();
    let mut i: usize = 0;
    while i < tokens.len()
        invariant
            i <= tokens@.len(),
            ts == token_views(tokens@),
            digest@ == spec_digest,
            finding_views(out@) == findings_upto(
                ts,
                i as int,
                browser,
                path@,
                application@,
                timestamp,
                spec_digest,
            ),
        decreases tokens.len() - i,
    {
        match detect_at(tokens.as_slice(), i, browser) {
            Some(found) => {
                let literal: Option<&String> = match found.literal {
                    Some(k) => Some(&tokens[k].text),
                    None => None,
                };
                let f = make_finding(path, application, timestamp, &digest, &tokens[i], &found, literal);
                let ghost prev = out@;
                out.push(f);
                proof {
                    assert(finding_views(out@) =~= finding_views(prev).push(f@));
                }
            },
            None => {},
        }
        i = i + 1;
    }
    proof {
        lemma_scan_digest_lengths(out@, path@, source@, application@, timestamp);
    }
    out
}

proof fn lemma_scan_digest_lengths(
    out: Seq<Finding>,
    path: Seq<char>,
    source: Seq<char>,
    application: Seq<char>,
    timestamp: Option<u64>,
)
    requires
        finding_views(out) == scan_findings(path, source, application, timestamp),
        hex_lower(spec_sha256(utf8(source))).len() == 64,
    ensures
        forall|k: int| 0 <= k < out.len() ==> digests_have_length(#[trigger] out[k]@, 64),
{
    lemma_scan_findings_are_lexical(path, source, application, timestamp);
    let digest = hex_lower(spec_sha256(utf8(source)));
    assert forall|k: int| 0 <= k < out.len() implies digests_have_length(#[trigger] out[k]@, 64) by {
        assert(finding_views(out)[k] == out[k]@);
        assert(lexical_finding(scan_findings(path, source, application, timestamp)[k], path, digest));
    }
}

/// Evidence without its source modification time.
pub open spec fn untimed_evidence(e: EvidenceView) -> EvidenceView {
    EvidenceView { timestamp: None, ..e }
}

/// A finding without the source modification times of its evidence.
pub open spec fn untimed(f: FindingView) -> FindingView {
    FindingView {
        evidence: f.evidence.map_values(|e: EvidenceView| untimed_evidence(e)),
        classification: ClassificationView {
            evidence: f.classification.evidence.map_values(|e: EvidenceView| untimed_evidence(e)),
            ..f.classification
        },
        ..f
    }
}

/// Every piece of evidence of the finding carries the timestamp `t`.
pub open spec fn timed_at(f: FindingView, t: Option<u64>) -> bool {
    &&& forall|j: int| 0 <= j < f.evidence.len() ==> (#[trigger] f.evidence[j]).timestamp == t
    &&& forall|j: int|
        0 <= j < f.classification.evidence.len() ==> (#[trigger] f.classification.evidence[j]).timestamp
            == t
}

proof fn lemma_findings_upto_untimed(
    ts: Seq<TokenView>,
    n: int,
    browser: bool,
    path: Seq<char>,
    application: Seq<char>,
    t1: Option<u64>,
    t2: Option<u64>,
    digest: Seq<char>,
)
    ensures
        findings_upto(ts, n, browser, path, application, t1, digest).len() == findings_upto(
            ts,
            n,
            browser,
            path,
            application,
            t2,
            digest,
        ).len(),
        forall|k: int|
            0 <= k < findings_upto(ts, n, browser, path, application, t1, digest).len() ==> untimed(
                #[trigger] findings_upto(ts, n, browser, path, application, t1, digest)[k],
            ) == untimed(findings_upto(ts, n, browser, path, application, t2, digest)[k])
                && timed_at(findings_upto(ts, n, browser, path, application, t1, digest)[k], t1),
    decreases n,
{
    if n > 0 {
        lemma_findings_upto_untimed(ts, n - 1, browser, path, application, t1, t2, digest);
        let p1 = findings_upto(ts, n - 1, browser, path, application, t1, digest);
        let p2 = findings_upto(ts, n - 1, browser, path, application, t2, digest);
        let a1 = findings_upto(ts, n, browser, path, application, t1, digest);
        let a2 = findings_upto(ts, n, browser, path, application, t2, digest);
        match detect(ts, n - 1, browser) {
            Some(d) => {
                reveal(detected_finding);
                let f1 = detected_finding(path, application, t1, digest, ts[n - 1], d);
                let f2 = detected_finding(path, application, t2, digest, ts[n - 1], d);
                assert(a1 == p1.push(f1));
                assert(a2 == p2.push(f2));
                assert(untimed(f1).evidence =~= untimed(f2).evidence);
                assert(untimed(f1).classification.evidence =~= untimed(f2).classification.evidence);
                assert(untimed(f1) == untimed(f2));
                assert(timed_at(f1, t1));
                assert forall|k: int| 0 <= k < a1.len() implies untimed(#[trigger] a1[k]) == untimed(
                    a2[k],
                ) && timed_at(a1[k], t1) by {
                    if k < p1.len() {
                        assert(a1[k] == p1[k]);
                        assert(a2[k] == p2[k]);
                    }
                }
            },
            None => {
                assert(a1 == p1);
                assert(a2 == p2);
            },
        }
    }
}

/// Source modification times are provenance only: scanning the same text with two
/// timestamps gives the same findings, identities and identifiers included, except
/// that each piece of evidence carries its own scan's timestamp.
pub proof fn lemma_scan_ignores_timestamp(
    path: Seq<char>,
    source: Seq<char>,
    application: Seq<char>,
    t1: Option<u64>,
    t2: Option<u64>,
)
    ensures
        scan_findings(path, source, application, t1).len() == scan_findings(
            path,
            source,
            application,
            t2,
        ).len(),
        forall|k: int|
            0 <= k < scan_findings(path, source, application, t1).len() ==> untimed(
                #[trigger] scan_findings(path, source, application, t1)[k],
            ) == untimed(scan_findings(path, source, application, t2)[k]) && timed_at(
                scan_findings(path, source, application, t1)[k],
                t1,
            ) && timed_at(scan_findings(path, source, application, t2)[k], t2),
{
    let ext = extension(utf8(path));
    let ts = source_tokens(utf8(source), hash_comment_extension(ext));
    let digest = hex_lower(spec_sha256(utf8(source)));
    lemma_findings_upto_untimed(
        ts,
        ts.len() as int,
        browser_extension(ext),
        path,
        application,
        t1,
        t2,
        digest,
    );
    lemma_findings_upto_untimed(
        ts,
        ts.len() as int,
        browser_extension(ext),
        path,
        application,
        t2,
        t1,
        digest,
    );
}

// ---------------------------------------------------------------------------
// Script dialects
// ---------------------------------------------------------------------------

/// The identity with its origin replaced.
pub open spec fn with_origin(c: CookieIdentityView, origin: Seq<char>) -> CookieIdentityView {
    CookieIdentityView { origin, ..c }
}

/// Two findings record the same behaviour: the same operation through the same API on
/// the same cookie, wherever each was found.
pub open spec fn records_same_behaviour(f: FindingView, g: FindingView) -> bool {
    &&& f.operation == g.operation
    &&& f.technical_classification == g.technical_classification
    &&& f.cookie == with_origin(g.cookie, f.cookie.origin)
}

proof fn lemma_attributes_keep_origin(parts: Seq<Seq<char>>, c: CookieIdentityView, o: Seq<char>)
    ensures
        apply_attributes(parts, with_origin(c, o)) == with_origin(apply_attributes(parts, c), o),
    decreases parts.len(),
{
    if parts.len() > 0 {
        assert(apply_attribute(parts[0], with_origin(c, o)) == with_origin(
            apply_attribute(parts[0], c),
            o,
        ));
        lemma_attributes_keep_origin(parts.drop_first(), apply_attribute(parts[0], c), o);
    }
}

proof fn lemma_parse_keeps_origin(v: Seq<char>, c: CookieIdentityView, o: Seq<char>)
    ensures
        spec_parse_cookie(v, with_origin(c, o)) == with_origin(spec_parse_cookie(v, c), o),
{
    let parts = crate::cookie::split_on(v, ';');
    match crate::cookie::split_once(parts[0], '=') {
        None => {},
        Some((name, _)) => {
            let name = crate::cookie::trim(name);
            if crate::cookie::valid_cookie_name(name) {
                let named = CookieIdentityView { name: Some(name), ..c };
                assert(CookieIdentityView { name: Some(name), ..with_origin(c, o) } == with_origin(
                    named,
                    o,
                ));
                lemma_attributes_keep_origin(parts.drop_first(), named, o);
            }
        },
    }
}

proof fn lemma_detected_cookie_paths(
    p1: Seq<char>,
    p2: Seq<char>,
    application: Seq<char>,
    offset: usize,
    d: Detection,
)
    ensures
        detected_cookie(p1, application, offset, d) == with_origin(
            detected_cookie(p2, application, offset, d),
            detected_cookie(p1, application, offset, d).origin,
        ),
{
    let base2 = CookieIdentityView {
        name: d.literal,
        domain: None,
        path: None,
        origin: "repository:"@ + p2,
        application,
        attributes: seq![],
    };
    let o1 = "repository:"@ + p1;
    if d.header_cookie {
        let cleared2 = CookieIdentityView { name: None, ..base2 };
        assert(CookieIdentityView { name: None, ..with_origin(base2, o1) } == with_origin(
            cleared2,
            o1,
        ));
        match d.literal {
            Some(v) => lemma_parse_keeps_origin(v, cleared2, o1),
            None => {},
        }
    }
}

proof fn lemma_findings_upto_paths(
    ts: Seq<TokenView>,
    n: int,
    browser: bool,
    p1: Seq<char>,
    p2: Seq<char>,
    application: Seq<char>,
    timestamp: Option<u64>,
    d1: Seq<char>,
    d2: Seq<char>,
)
    ensures
        findings_upto(ts, n, browser, p1, application, timestamp, d1).len() == findings_upto(
            ts,
            n,
            browser,
            p2,
            application,
            timestamp,
            d2,
        ).len(),
        forall|k: int|
            0 <= k < findings_upto(ts, n, browser, p1, application, timestamp, d1).len()
                ==> records_same_behaviour(
                #[trigger] findings_upto(ts, n, browser, p1, application, timestamp, d1)[k],
                findings_upto(ts, n, browser, p2, application, timestamp, d2)[k],
            ),
    decreases n,
{
    if n > 0 {
        lemma_findings_upto_paths(ts, n - 1, browser, p1, p2, application, timestamp, d1, d2);
        let prev1 = findings_upto(ts, n - 1, browser, p1, application, timestamp, d1);
        let prev2 = findings_upto(ts, n - 1, browser, p2, application, timestamp, d2);
        let all1 = findings_upto(ts, n, browser, p1, application, timestamp, d1);
        let all2 = findings_upto(ts, n, browser, p2, application, timestamp, d2);
        match detect(ts, n - 1, browser) {
            Some(d) => {
                reveal(detected_finding);
                let f1 = detected_finding(p1, application, timestamp, d1, ts[n - 1], d);
                let f2 = detected_finding(p2, application, timestamp, d2, ts[n - 1], d);
                lemma_detected_cookie_paths(p1, p2, application, ts[n - 1].offset, d);
                assert(records_same_behaviour(f1, f2));
                assert(all1 == prev1.push(f1));
                assert(all2 == prev2.push(f2));
                assert forall|k: int| 0 <= k < all1.len() implies records_same_behaviour(
                    #[trigger] all1[k],
                    all2[k],
                ) by {
                    if k < prev1.len() {
                        assert(all1[k] == prev1[k]);
                        assert(all2[k] == prev2[k]);
                    }
                }
            },
            None => {
                assert(all1 == prev1);
                assert(all2 == prev2);
            },
        }
    }
}

/// The extensions of script and component sources: JavaScript and TypeScript with
/// their JSX and module variants, HTML, and the component formats.
pub open spec fn script_extension_names() -> Seq<Seq<char>> {
    seq!["js"@, "jsx"@, "ts"@, "tsx"@, "mjs"@, "cjs"@, "html"@, "vue"@, "svelte"@, "astro"@]
}

proof fn lemma_script_extension(m: int)
    requires
        0 <= m < script_extension_names().len(),
    ensures
        browser_extension(utf8(script_extension_names()[m])),
        !hash_comment_extension(utf8(script_extension_names()[m])),
{
    reveal_strlit("js");
    reveal_strlit("jsx");
    reveal_strlit("ts");
    reveal_strlit("tsx");
    reveal_strlit("mjs");
    reveal_strlit("cjs");
    reveal_strlit("html");
    reveal_strlit("vue");
    reveal_strlit("svelte");
    reveal_strlit("astro");
    reveal_strlit("py");
    reveal_strlit("php");
    reveal_strlit("conf");
    reveal_strlit("yaml");
    reveal_strlit("yml");
    reveal_strlit("toml");
    let x = script_extension_names()[m];
    let hs = seq!["py"@, "php"@, "conf"@, "yaml"@, "yml"@, "toml"@];
    assert(x.len() >= 2);
    assert forall|k: int| 0 <= k < hs.len() implies utf8(x) != utf8(#[trigger] hs[k]) by {
        crate::text::lemma_utf8_injective(x, hs[k]);
        assert(x.len() != hs[k].len() || x[0] != hs[k][0]);
    }
    assert(hs[0] == "py"@);
    assert(hs[1] == "php"@);
    assert(hs[2] == "conf"@);
    assert(hs[3] == "yaml"@);
    assert(hs[4] == "yml"@);
    assert(hs[5] == "toml"@);
}

/// Script and component sources all get the browser rules: scanning a source under a
/// path with one of these extensions finds the same behaviours as scanning it under a
/// path with any other of them (the same operations, through the same APIs, on the
/// same cookies), finding for finding, in order.
pub proof fn lemma_script_sources_scanned_alike(
    path1: Seq<char>,
    path2: Seq<char>,
    m1: int,
    m2: int,
    source: Seq<char>,
    application: Seq<char>,
    timestamp: Option<u64>,
)
    requires
        0 <= m1 < script_extension_names().len(),
        0 <= m2 < script_extension_names().len(),
        extension(utf8(path1)) == utf8(script_extension_names()[m1]),
        extension(utf8(path2)) == utf8(script_extension_names()[m2]),
    ensures
        scan_findings(path1, source, application, timestamp).len() == scan_findings(
            path2,
            source,
            application,
            timestamp,
        ).len(),
        forall|k: int|
            0 <= k < scan_findings(path1, source, application, timestamp).len()
                ==> records_same_behaviour(
                #[trigger] scan_findings(path1, source, application, timestamp)[k],
                scan_findings(path2, source, application, timestamp)[k],
            ),
{
    lemma_script_extension(m1);
    lemma_script_extension(m2);
    let digest = hex_lower(spec_sha256(utf8(source)));
    let ts = source_tokens(utf8(source), false);
    lemma_findings_upto_paths(
        ts,
        ts.len() as int,
        true,
        path1,
        path2,
        application,
        timestamp,
        digest,
        digest,
    );
}

/// TypeScript sources get the browser rules: scanning a source under a `.ts` path
/// finds the same behaviours as scanning it under a `.js` path.
pub proof fn lemma_typescript_scanned_as_script(
    ts_path: Seq<char>,
    js_path: Seq<char>,
    source: Seq<char>,
    application: Seq<char>,
    timestamp: Option<u64>,
)
    requires
        extension(utf8(ts_path)) == utf8("ts"@),
        extension(utf8(js_path)) == utf8("js"@),
    ensures
        scan_findings(ts_path, source, application, timestamp).len() == scan_findings(
            js_path,
            source,
            application,
            timestamp,
        ).len(),
        forall|k: int|
            0 <= k < scan_findings(ts_path, source, application, timestamp).len()
                ==> records_same_behaviour(
                #[trigger] scan_findings(ts_path, source, application, timestamp)[k],
                scan_findings(js_path, source, application, timestamp)[k],
            ),
{
    assert(script_extension_names()[2] == "ts"@);
    assert(script_extension_names()[0] == "js"@);
    lemma_script_sources_scanned_alike(ts_path, js_path, 2, 0, source, application, timestamp);
}

} // verus!
