use crumbled::digest::{identity_hash, sha256};
use crumbled::model::{Attributes, CookieIdentity};

#[test]
fn identity_is_not_just_a_name() {
    let base = CookieIdentity {
        name: Some("session".into()),
        domain: Some("a.test".into()),
        path: Some("/".into()),
        origin: "https://a.test".into(),
        application: "store".into(),
        attributes: Attributes::new(),
    };
    for index in 0..6 {
        let mut changed = base.clone();
        match index {
            0 => changed.domain = Some("b.test".into()),
            1 => changed.path = Some("/checkout".into()),
            2 => changed.origin = "https://b.test".into(),
            3 => changed.application = "another".into(),
            4 => {
                changed.attributes.insert("secure".into(), "true".into());
            }
            _ => changed.name = None,
        }
        assert_ne!(base.id(), changed.id());
    }
    assert_ne!(identity_hash(&["ab", "c"]), identity_hash(&["a", "bc"]));
}

#[test]
fn sha256_is_lower_case_hex_of_the_digest() {
    assert_eq!(
        sha256(b"abc"),
        "ba7816bf8f01cfea414140de5dae2223b00361a396177a9cb410ff61f20015ad"
    );
    assert_eq!(
        sha256(b""),
        "e3b0c44298fc1c149afbf4c8996fb92427ae41e4649b934ca495991b7852b855"
    );
}

#[test]
fn identity_hash_frames_each_part_with_its_length() {
    let mut framed = Vec::new();
    framed.extend_from_slice(&2u64.to_be_bytes());
    framed.extend_from_slice(b"ab");
    framed.extend_from_slice(&1u64.to_be_bytes());
    framed.extend_from_slice(b"c");
    assert_eq!(identity_hash(&["ab", "c"]), sha256(&framed));
    assert_eq!(identity_hash(&[]), sha256(b""));
}

#[test]
fn cookie_ids_are_stable_and_prefixed() {
    let c = CookieIdentity {
        name: None,
        domain: None,
        path: None,
        origin: "o".into(),
        application: "a".into(),
        attributes: Attributes::new(),
    };
    let id = c.id();
    assert!(id.starts_with("cookie:"));
    assert_eq!(id.len(), "cookie:".len() + 64);
    assert_eq!(id, c.clone().id());
    let parts = ["a", "o", "unknown", "", "unknown", "", "unknown", ""];
    assert_eq!(id, format!("cookie:{}", identity_hash(&parts)));
}

#[test]
fn cookie_values_are_not_recorded() {
    let base = CookieIdentity {
        name: None,
        domain: None,
        path: None,
        origin: "repository:app.js".into(),
        application: "shop".into(),
        attributes: Attributes::new(),
    };
    let mut one = base.clone();
    crumbled::cookie::parse_cookie("sid=first-secret; Domain=.A.test; Path=/; Secure", &mut one);
    let mut two = base.clone();
    crumbled::cookie::parse_cookie("sid=other=value; Domain=.A.test; Path=/; Secure", &mut two);
    assert_eq!(one, two);
    assert_eq!(one.name.as_deref(), Some("sid"));
    assert_eq!(one.domain.as_deref(), Some("a.test"));
    assert_eq!(one.path.as_deref(), Some("/"));
    assert_eq!(one.attributes.len(), 1);
    assert!(!format!("{:?}", one).contains("secret"));
}
