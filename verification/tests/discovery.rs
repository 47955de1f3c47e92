use crumbled::discovery::{check_budget, scan_text, sort_by_name, visit, EntryKind, Visit};
use crumbled::model::{Finding, Operation};

fn scan(s: &str) -> Vec<Finding> {
    scan_text("app.js", s, "shop", None)
}

#[test]
fn comments_and_prose_are_not_behaviours() {
    assert!(scan("// document.cookie = 'a=b'\n/* cookieStore.set('a','b') */\nconst help = \"document.cookie\"; const Cookie = 1;").is_empty());
}

#[test]
fn reads_writes_and_same_line_calls_are_distinct() {
    let f = scan(
        "document.cookie = 'a=secret; Domain=.A.test; Path=/'; const c = document['cookie']; cookieStore.delete('a'); cookieStore.get('b');",
    );
    assert_eq!(f.len(), 4);
    assert_eq!(f[0].operation, Operation::Create);
    assert_eq!(f[1].operation, Operation::Read);
    assert_eq!(f[2].operation, Operation::Delete);
    assert_eq!(f[0].cookie.name.as_deref(), Some("a"));
    assert_eq!(f[0].cookie.domain.as_deref(), Some("a.test"));
    assert_eq!(f[0].cookie.path.as_deref(), Some("/"));
    assert!(!format!("{:?}", f).contains("secret"));
}

#[test]
fn multiline_and_comparisons() {
    let f = scan(
        "document /* gap */ . cookie\n = 'x=y';\nif (document.cookie === 'x=y') {}\ncookieStore\n.set(\n'x', 'y');",
    );
    assert_eq!(f.len(), 3);
    assert_eq!(f[1].operation, Operation::Read);
    assert_eq!(f[2].cookie.name.as_deref(), Some("x"));
}

#[test]
fn dynamic_names_are_never_partial_literals() {
    let f = scan(
        "document.cookie = 'session=' + input; cookieStore.set(name, value); document.cookie = `x=${value}`;",
    );
    assert_eq!(f.len(), 3);
    assert!(f.iter().all(|f| f.cookie.name.is_none()));
    assert_ne!(f[0].cookie.id(), f[2].cookie.id());
    assert!(
        scan("document.cookie = 'session='\n + input;")[0]
            .cookie
            .name
            .is_none()
    );
}

#[test]
fn http_header_evidence_is_specific() {
    let f = scan_text(
        "server.py",
        "# set_cookie('bad','x')\nresponse.set_cookie('sid', secret)\nheaders['Set-Cookie'] = value\nobj = 'Cookie'",
        "api",
        None,
    );
    assert_eq!(f.len(), 2);
    assert_eq!(f[0].cookie.name.as_deref(), Some("sid"));
    let f = scan_text(
        "server.rs",
        "response.insert_header((\"Set-Cookie\", \"sid=redacted; HttpOnly; Secure\"));",
        "api",
        None,
    );
    assert_eq!(f.len(), 1);
    assert_eq!(f[0].cookie.name.as_deref(), Some("sid"));
}

#[test]
fn unicode_locations_and_arbitrary_lexical_input_are_safe() {
    let f = scan("const word = 'é'; document.cookie = 'x=y';");
    assert_eq!(f[0].evidence[0].location.as_ref().unwrap().column, 19);
    let alphabet = [
        'é', '中', '😀', '\\', '\'', '"', '`', '/', '*', '\n', '$', '{', '}', '\0', 'a',
    ];
    let mut state = 42_u64;
    for _ in 0..500 {
        let mut input = String::new();
        for _ in 0..100 {
            state = state.wrapping_mul(6364136223846793005).wrapping_add(1);
            input.push(alphabet[(state >> 32) as usize % alphabet.len()]);
        }
        let one = scan(&input);
        assert_eq!(one, scan(&input));
    }
}

#[test]
fn traversal_decides_each_entry() {
    assert_eq!(visit(1, 0, EntryKind::Directory, "repo"), Visit::Descend);
    assert_eq!(visit(2, 1, EntryKind::File, "repo/app.js"), Visit::Keep);
    assert_eq!(visit(3, 1, EntryKind::File, "repo/notes.txt"), Visit::Ignore);
    assert_eq!(
        visit(1, 0, EntryKind::File, "notes.txt"),
        Visit::Fail("unsupported source type: notes.txt".to_string())
    );
    assert_eq!(
        visit(4, 1, EntryKind::Symlink, "repo/link.js"),
        Visit::Fail("symlink is outside the supported analysis scope: repo/link.js".to_string())
    );
    assert_eq!(
        visit(5, 1, EntryKind::Special, "repo/fifo"),
        Visit::Fail("special file is unsupported: repo/fifo".to_string())
    );
    let budget = Visit::Fail("repository exceeds traversal budget".to_string());
    assert_eq!(visit(100_001, 1, EntryKind::File, "repo/app.js"), budget);
    assert_eq!(visit(2, 129, EntryKind::Directory, "deep"), budget);
    assert_eq!(check_budget(100_000, 128), Ok(()));
    assert!(check_budget(100_001, 0).is_err());
}

#[test]
fn entries_are_visited_in_name_order() {
    let items = vec![
        ("z.js".to_string(), 1),
        ("a.js".to_string(), 2),
        ("B".to_string(), 3),
        ("a".to_string(), 4),
        ("é".to_string(), 5),
    ];
    let sorted = sort_by_name(items);
    let order: Vec<i32> = sorted.iter().map(|(_, v)| *v).collect();
    assert_eq!(order, vec![3, 4, 2, 1, 5]);
    assert!(sort_by_name(Vec::<(String, ())>::new()).is_empty());
}

#[test]
fn timestamps_are_provenance_only() {
    let source = "document.cookie = 'sid=1'; cookieStore.get('theme');";
    let early = scan_text("app.js", source, "shop", Some(1));
    let late = scan_text("app.js", source, "shop", Some(2));
    assert_eq!(early.len(), late.len());
    for (a, b) in early.iter().zip(late.iter()) {
        assert_eq!(a.id, b.id);
        assert_eq!(a.cookie, b.cookie);
        assert_eq!(a.evidence[0].timestamp, Some(1));
        assert_eq!(b.evidence[0].timestamp, Some(2));
        assert_eq!(a.evidence[0].content_sha256, b.evidence[0].content_sha256);
        assert_eq!(a.evidence[0].content_sha256.len(), 64);
    }
}
