//! The canonical compact JSON encoding that fingerprints and checksums are computed
//! over: object fields in declaration order, map keys in key order, no whitespace,
//! and strings escaped as JSON requires (`"`, `\`, and control characters, with the
//! short forms `\b \t \n \f \r`).
use crate::digest::extend_bytes;
use crate::model::{opt_view, Attributes, CookieIdentity, CookieIdentityView, Decision, Operation, PermissionClass};
use crate::text::{decimal, hex_char, to_decimal, utf8};
use vstd::prelude::*;

verus! {

broadcast use vstd::utf8::group_utf8_lib;

/// The escaped form of one byte of a JSON string.
pub open spec fn escape_byte(b: u8) -> Seq<u8> {
    if b == 0x22 {
        seq![0x5cu8, 0x22u8]
    } else if b == 0x5c {
        seq![0x5cu8, 0x5cu8]
    } else if b == 0x08 {
        seq![0x5cu8, 0x62u8]
    } else if b == 0x09 {
        seq![0x5cu8, 0x74u8]
    } else if b == 0x0a {
        seq![0x5cu8, 0x6eu8]
    } else if b == 0x0c {
        seq![0x5cu8, 0x66u8]
    } else if b == 0x0d {
        seq![0x5cu8, 0x72u8]
    } else if b < 0x20 {
        seq![
            0x5cu8,
            0x75u8,
            0x30u8,
            0x30u8,
            hex_char(b as int / 16) as u8,
            hex_char(b as int % 16) as u8,
        ]
    } else {
        seq![b]
    }
}

/// The escaped form of the bytes of a JSON string.
pub open spec fn escape_bytes(bytes: Seq<u8>) -> Seq<u8>
    decreases bytes.len(),
{
    if bytes.len() == 0 {
        seq![]
    } else {
        escape_bytes(bytes.drop_last()) + escape_byte(bytes.last())
    }
}

/// A JSON string.
pub open spec fn json_str(s: Seq<char>) -> Seq<u8> {
    seq![0x22u8] + escape_bytes(utf8(s)) + seq![0x22u8]
}

/// JSON `null`.
pub open spec fn json_null() -> Seq<u8> {
    seq![0x6eu8, 0x75u8, 0x6cu8, 0x6cu8]
}

/// An optional JSON string.
pub open spec fn json_opt_str(o: Option<Seq<char>>) -> Seq<u8> {
    match o {
        Some(s) => json_str(s),
        None => json_null(),
    }
}

/// A JSON number for an unsigned integer.
pub open spec fn json_uint(n: nat) -> Seq<u8> {
    utf8(decimal(n))
}

/// `"key":value`.
pub open spec fn json_field(key: Seq<char>, value: Seq<u8>) -> Seq<u8> {
    json_str(key) + seq![0x3au8] + value
}

/// Items separated by commas.
pub open spec fn json_list(items: Seq<Seq<u8>>) -> Seq<u8>
    decreases items.len(),
{
    if items.len() == 0 {
        seq![]
    } else if items.len() == 1 {
        items[0]
    } else {
        json_list(items.drop_last()) + seq![0x2cu8] + items.last()
    }
}

/// A JSON object from encoded fields.
pub open spec fn json_object(fields: Seq<Seq<u8>>) -> Seq<u8> {
    seq![0x7bu8] + json_list(fields) + seq![0x7du8]
}

/// A JSON array from encoded items.
pub open spec fn json_array(items: Seq<Seq<u8>>) -> Seq<u8> {
    seq![0x5bu8] + json_list(items) + seq![0x5du8]
}

/// The serialized name of a permission class.
pub open spec fn class_key(c: PermissionClass) -> Seq<char> {
    match c {
        PermissionClass::Necessary => "necessary"@,
        PermissionClass::Preferences => "preferences"@,
        PermissionClass::Analytics => "analytics"@,
        PermissionClass::Marketing => "marketing"@,
        PermissionClass::Unknown => "unknown"@,
    }
}

/// The serialized name of a decision.
pub open spec fn decision_key(d: Decision) -> Seq<char> {
    match d {
        Decision::Allow => "allow"@,
        Decision::Gate => "gate"@,
        Decision::Block => "block"@,
    }
}

/// The serialized name of an operation.
pub open spec fn operation_key(o: Operation) -> Seq<char> {
    match o {
        Operation::Create => "create"@,
        Operation::Read => "read"@,
        Operation::Modify => "modify"@,
        Operation::Delete => "delete"@,
        Operation::Send => "send"@,
        Operation::Receive => "receive"@,
    }
}

pub fn class_key_str(c: PermissionClass) -> (s: &'static str)
    ensures
        s@ == class_key(c),
{
    match c {
        PermissionClass::Necessary => "necessary",
        PermissionClass::Preferences => "preferences",
        PermissionClass::Analytics => "analytics",
        PermissionClass::Marketing => "marketing",
        PermissionClass::Unknown => "unknown",
    }
}

pub fn decision_key_str(d: Decision) -> (s: &'static str)
    ensures
        s@ == decision_key(d),
{
    match d {
        Decision::Allow => "allow",
        Decision::Gate => "gate",
        Decision::Block => "block",
    }
}

pub fn operation_key_str(o: Operation) -> (s: &'static str)
    ensures
        s@ == operation_key(o),
{
    match o {
        Operation::Create => "create",
        Operation::Read => "read",
        Operation::Modify => "modify",
        Operation::Delete => "delete",
        Operation::Send => "send",
        Operation::Receive => "receive",
    }
}

/// The attributes as a JSON object of strings, in name order.
pub open spec fn attribute_fields(a: Seq<(Seq<char>, Seq<char>)>) -> Seq<Seq<u8>> {
    a.map_values(|p: (Seq<char>, Seq<char>)| json_field(p.0, json_str(p.1)))
}

/// A cookie identity as JSON.
pub open spec fn identity_json(c: CookieIdentityView) -> Seq<u8> {
    json_object(
        seq![
            json_field("name"@, json_opt_str(c.name)),
            json_field("domain"@, json_opt_str(c.domain)),
            json_field("path"@, json_opt_str(c.path)),
            json_field("origin"@, json_str(c.origin)),
            json_field("application"@, json_str(c.application)),
            json_field("attributes"@, json_object(attribute_fields(c.attributes))),
        ],
    )
}

// ---------------------------------------------------------------------------
// Writers
// ---------------------------------------------------------------------------

proof fn lemma_escape_push(bytes: Seq<u8>, b: u8)
    ensures
        escape_bytes(bytes.push(b)) == escape_bytes(bytes) + escape_byte(b),
{
    assert(bytes.push(b).drop_last() =~= bytes);
}

/// Appends one byte.
pub fn put(out: &mut Vec<u8>, b: u8)
    ensures
        final(out)@ == old(out)@ + seq![b],
{
    out.push(b);
    assert(final(out)@ =~= old(out)@ + seq![b]);
}

fn hex_digit_byte(d: u8) -> (b: u8)
    requires
        d < 16,
    ensures
        b == hex_char(d as int) as u8,
{
    if d < 10 {
        0x30 + d
    } else {
        0x61 + (d - 10)
    }
}

/// Appends a JSON string.
pub fn put_str(out: &mut Vec<u8>, s: &str)
    ensures
        final(out)@ == old(out)@ + json_str(s@),
{
    let bytes = s.as_bytes();
    let ghost start = out@;
    put(out, 0x22);
    let mut i: usize = 0;
    while i < bytes.len()
        invariant
            i <= bytes@.len(),
            bytes@ == utf8(s@),
            out@ == start + seq![0x22u8] + escape_bytes(bytes@.take(i as int)),
        decreases bytes.len() - i,
    {
        let b = bytes[i];
        proof {
            lemma_escape_push(bytes@.take(i as int), b);
            assert(bytes@.take(i + 1) =~= bytes@.take(i as int).push(b));
        }
        let ghost before = out@;
        if b == 0x22 {
            put(out, 0x5c);
            put(out, 0x22);
        } else if b == 0x5c {
            put(out, 0x5c);
            put(out, 0x5c);
        } else if b == 0x08 {
            put(out, 0x5c);
            put(out, 0x62);
        } else if b == 0x09 {
            put(out, 0x5c);
            put(out, 0x74);
        } else if b == 0x0a {
            put(out, 0x5c);
            put(out, 0x6e);
        } else if b == 0x0c {
            put(out, 0x5c);
            put(out, 0x66);
        } else if b == 0x0d {
            put(out, 0x5c);
            put(out, 0x72);
        } else if b < 0x20 {
            put(out, 0x5c);
            put(out, 0x75);
            put(out, 0x30);
            put(out, 0x30);
            put(out, hex_digit_byte(b / 16));
            put(out, hex_digit_byte(b % 16));
        } else {
            put(out, b);
        }
        assert(out@ =~= before + escape_byte(b));
        i = i + 1;
    }
    assert(bytes@.take(i as int) =~= bytes@);
    put(out, 0x22);
    assert(final(out)@ =~= old(out)@ + json_str(s@));
}

/// Appends an optional JSON string.
pub fn put_opt_str(out: &mut Vec<u8>, o: &Option<String>)
    ensures
        final(out)@ == old(out)@ + json_opt_str(opt_view(*o)),
{
    match o {
        Some(s) => put_str(out, s.as_str()),
        None => {
            put(out, 0x6e);
            put(out, 0x75);
            put(out, 0x6c);
            put(out, 0x6c);
            assert(final(out)@ =~= old(out)@ + json_null());
        },
    }
}

/// Appends an unsigned number.
pub fn put_uint(out: &mut Vec<u8>, n: usize)
    ensures
        final(out)@ == old(out)@ + json_uint(n as nat),
{
    let text = to_decimal(n);
    extend_bytes(out, text.as_str().as_bytes());
}

/// Appends `"key":`.
pub fn put_key(out: &mut Vec<u8>, key: &str)
    ensures
        final(out)@ == old(out)@ + json_str(key@) + seq![0x3au8],
{
    put_str(out, key);
    put(out, 0x3a);
}

/// Appends the separator before an item that is not the first.
pub fn put_separator(out: &mut Vec<u8>, first: bool)
    ensures
        final(out)@ == if first {
            old(out)@
        } else {
            old(out)@ + seq![0x2cu8]
        },
{
    if !first {
        put(out, 0x2c);
    }
}

/// A list grows by one item.
pub proof fn lemma_json_list_push(items: Seq<Seq<u8>>, x: Seq<u8>)
    ensures
        json_list(items.push(x)) == if items.len() == 0 {
            x
        } else {
            json_list(items) + seq![0x2cu8] + x
        },
{
    assert(items.push(x).drop_last() =~= items);
    if items.len() == 0 {
        assert(items.push(x)[0] == x);
    }
}

/// Appends the attributes as a JSON object.
pub fn put_attributes(out: &mut Vec<u8>, a: &Attributes)
    ensures
        final(out)@ == old(out)@ + json_object(attribute_fields(a@)),
{
    let ghost start = out@;
    put(out, 0x7b);
    let n = a.len();
    let mut i: usize = 0;
    while i < n
        invariant
            i <= n,
            n == a@.len(),
            out@ == start + seq![0x7bu8] + json_list(attribute_fields(a@).take(i as int)),
        decreases n - i,
    {
        let (k, v) = a.entry(i);
        let ghost before = out@;
        put_separator(out, i == 0);
        put_key(out, k.as_str());
        put_str(out, v.as_str());
        proof {
            let fields = attribute_fields(a@);
            assert(fields.take(i + 1) =~= fields.take(i as int).push(fields[i as int]));
            lemma_json_list_push(fields.take(i as int), fields[i as int]);
            assert(fields[i as int] == json_field(a@[i as int].0, json_str(a@[i as int].1)));
            assert(out@ =~= start + seq![0x7bu8] + json_list(fields.take(i + 1)));
        }
        i = i + 1;
    }
    assert(attribute_fields(a@).take(i as int) =~= attribute_fields(a@));
    put(out, 0x7d);
    assert(final(out)@ =~= old(out)@ + json_object(attribute_fields(a@)));
}

/// A three-field object is its fields between braces, separated by commas.
pub proof fn lemma_object3(a: Seq<u8>, b: Seq<u8>, c: Seq<u8>)
    ensures
        json_object(seq![a, b, c]) == seq![0x7bu8] + a + seq![0x2cu8] + b + seq![0x2cu8] + c
            + seq![0x7du8],
{
    let fields = seq![a, b, c];
    lemma_json_list_push(fields.take(0), a);
    lemma_json_list_push(fields.take(1), b);
    lemma_json_list_push(fields.take(2), c);
    assert(fields.take(0).push(a) =~= fields.take(1));
    assert(fields.take(1).push(b) =~= fields.take(2));
    assert(fields.take(2).push(c) =~= fields);
    assert(json_object(fields) =~= seq![0x7bu8] + a + seq![0x2cu8] + b + seq![0x2cu8] + c
        + seq![0x7du8]);
}

/// A four-item array is its items between brackets, separated by commas.
pub proof fn lemma_array4(a: Seq<u8>, b: Seq<u8>, c: Seq<u8>, d: Seq<u8>)
    ensures
        json_array(seq![a, b, c, d]) == seq![0x5bu8] + a + seq![0x2cu8] + b + seq![0x2cu8] + c
            + seq![0x2cu8] + d + seq![0x5du8],
{
    let items = seq![a, b, c, d];
    lemma_json_list_push(items.take(0), a);
    lemma_json_list_push(items.take(1), b);
    lemma_json_list_push(items.take(2), c);
    lemma_json_list_push(items.take(3), d);
    assert(items.take(0).push(a) =~= items.take(1));
    assert(items.take(1).push(b) =~= items.take(2));
    assert(items.take(2).push(c) =~= items.take(3));
    assert(items.take(3).push(d) =~= items);
    assert(json_array(items) =~= seq![0x5bu8] + a + seq![0x2cu8] + b + seq![0x2cu8] + c
        + seq![0x2cu8] + d + seq![0x5du8]);
}

/// A six-field object is its fields between braces, separated by commas.
pub proof fn lemma_object6(
    a: Seq<u8>,
    b: Seq<u8>,
    c: Seq<u8>,
    d: Seq<u8>,
    e: Seq<u8>,
    f: Seq<u8>,
)
    ensures
        json_object(seq![a, b, c, d, e, f]) == seq![0x7bu8] + a + seq![0x2cu8] + b + seq![0x2cu8]
            + c + seq![0x2cu8] + d + seq![0x2cu8] + e + seq![0x2cu8] + f + seq![0x7du8],
{
    let fields = seq![a, b, c, d, e, f];
    lemma_json_list_push(fields.take(0), a);
    lemma_json_list_push(fields.take(1), b);
    lemma_json_list_push(fields.take(2), c);
    lemma_json_list_push(fields.take(3), d);
    lemma_json_list_push(fields.take(4), e);
    lemma_json_list_push(fields.take(5), f);
    assert(fields.take(0).push(a) =~= fields.take(1));
    assert(fields.take(1).push(b) =~= fields.take(2));
    assert(fields.take(2).push(c) =~= fields.take(3));
    assert(fields.take(3).push(d) =~= fields.take(4));
    assert(fields.take(4).push(e) =~= fields.take(5));
    assert(fields.take(5).push(f) =~= fields);
    assert(json_object(fields) =~= seq![0x7bu8] + a + seq![0x2cu8] + b + seq![0x2cu8] + c
        + seq![0x2cu8] + d + seq![0x2cu8] + e + seq![0x2cu8] + f + seq![0x7du8]);
}

/// Appends `"key":"value"`.
pub fn put_str_field(out: &mut Vec<u8>, key: &str, value: &str)
    ensures
        final(out)@ == old(out)@ + json_field(key@, json_str(value@)),
{
    put_key(out, key);
    put_str(out, value);
    assert(final(out)@ =~= old(out)@ + json_field(key@, json_str(value@)));
}

/// Appends `"key":` and an optional string.
pub fn put_opt_field(out: &mut Vec<u8>, key: &str, value: &Option<String>)
    ensures
        final(out)@ == old(out)@ + json_field(key@, json_opt_str(opt_view(*value))),
{
    put_key(out, key);
    put_opt_str(out, value);
    assert(final(out)@ =~= old(out)@ + json_field(key@, json_opt_str(opt_view(*value))));
}

/// Appends a cookie identity as JSON.
pub fn put_identity(out: &mut Vec<u8>, c: &CookieIdentity)
    ensures
        final(out)@ == old(out)@ + identity_json(c@),
{
    let ghost start = out@;
    put(out, 0x7b);
    put_opt_field(out, "name", &c.name);
    put(out, 0x2c);
    put_opt_field(out, "domain", &c.domain);
    put(out, 0x2c);
    put_opt_field(out, "path", &c.path);
    put(out, 0x2c);
    put_str_field(out, "origin", c.origin.as_str());
    put(out, 0x2c);
    put_str_field(out, "application", c.application.as_str());
    put(out, 0x2c);
    let ghost before = out@;
    put_key(out, "attributes");
    put_attributes(out, &c.attributes);
    assert(out@ =~= before + json_field("attributes"@, json_object(attribute_fields(c@.attributes))));
    put(out, 0x7d);
    proof {
        lemma_object6(
            json_field("name"@, json_opt_str(c@.name)),
            json_field("domain"@, json_opt_str(c@.domain)),
            json_field("path"@, json_opt_str(c@.path)),
            json_field("origin"@, json_str(c@.origin)),
            json_field("application"@, json_str(c@.application)),
            json_field("attributes"@, json_object(attribute_fields(c@.attributes))),
        );
        assert(final(out)@ =~= start + identity_json(c@));
    }
}

// ---------------------------------------------------------------------------
// What the encoding keeps apart
// ---------------------------------------------------------------------------

/// Equal encodings around a common prefix and suffix have equal middles.
pub proof fn lemma_cancel(a: Seq<u8>, x: Seq<u8>, y: Seq<u8>, b: Seq<u8>)
    requires
        a + x + b == a + y + b,
    ensures
        x == y,
{
    let l = a + x + b;
    let r = a + y + b;
    assert(l.len() == a.len() + x.len() + b.len());
    assert(r.len() == a.len() + y.len() + b.len());
    assert(x.len() == y.len());
    assert forall|i: int| 0 <= i < x.len() implies x[i] == y[i] by {
        assert(l[a.len() + i] == x[i]);
        assert(r[a.len() + i] == y[i]);
    }
    assert(x =~= y);
}

/// Two nonempty lists joined are their lists joined by a comma.
pub proof fn lemma_json_list_concat(a: Seq<Seq<u8>>, b: Seq<Seq<u8>>)
    requires
        a.len() > 0,
        b.len() > 0,
    ensures
        json_list(a + b) == json_list(a) + seq![0x2cu8] + json_list(b),
    decreases b.len(),
{
    assert((a + b).drop_last() =~= a + b.drop_last());
    assert((a + b).last() == b.last());
    if b.len() == 1 {
        assert(a + b.drop_last() =~= a);
    } else {
        lemma_json_list_concat(a, b.drop_last());
    }
}

/// Replacing one item of a list changes the encoding only where that item stands:
/// the encoding is the same prefix and suffix around the item, before and after.
#[verifier::spinoff_prover]
#[verifier::rlimit(40)]
pub proof fn lemma_json_list_update(items: Seq<Seq<u8>>, j: int, z: Seq<u8>) -> (r: (
    Seq<u8>,
    Seq<u8>,
))
    requires
        0 <= j < items.len(),
    ensures
        json_list(items) == r.0 + items[j] + r.1,
        json_list(items.update(j, z)) == r.0 + z + r.1,
{
    let pre = items.take(j);
    let post = items.skip(j + 1);
    let u = items.update(j, z);
    assert(items =~= pre + seq![items[j]] + post);
    assert(u =~= pre + seq![z] + post);
    let x: Seq<u8> = if j == 0 {
        seq![]
    } else {
        json_list(pre) + seq![0x2cu8]
    };
    let y: Seq<u8> = if post.len() == 0 {
        seq![]
    } else {
        seq![0x2cu8] + json_list(post)
    };
    assert forall|w: Seq<u8>| #![trigger seq![w]] json_list(pre + seq![w] + post) == x + w + y by {
        let mid = pre + seq![w];
        if j == 0 {
            assert(mid =~= seq![w]);
        } else {
            lemma_json_list_concat(pre, seq![w]);
        }
        assert(json_list(mid) == x + w) by {
            if j == 0 {
                assert(json_list(seq![w]) == w);
                assert(x + w =~= w);
            } else {
                assert(json_list(seq![w]) == w);
            }
        }
        if post.len() == 0 {
            assert(mid + post =~= mid);
            assert(x + w + y =~= x + w);
        } else {
            lemma_json_list_concat(mid, post);
            assert(x + w + y =~= (x + w) + seq![0x2cu8] + json_list(post));
        }
    }
    assert(json_list(items) == x + items[j] + y);
    assert(json_list(u) == x + z + y);
    (x, y)
}

/// In an object whose last field is an array, replacing one item of the array
/// changes the encoding only where that item stands.
#[verifier::spinoff_prover]
#[verifier::rlimit(40)]
pub proof fn lemma_array_field_update(
    f1: Seq<u8>,
    f2: Seq<u8>,
    key: Seq<char>,
    items: Seq<Seq<u8>>,
    j: int,
    z: Seq<u8>,
) -> (ab: (Seq<u8>, Seq<u8>))
    requires
        0 <= j < items.len(),
    ensures
        json_object(seq![f1, f2, json_field(key, json_array(items))]) == ab.0 + items[j] + ab.1,
        json_object(seq![f1, f2, json_field(key, json_array(items.update(j, z)))]) == ab.0 + z
            + ab.1,
{
    let (x, y) = lemma_json_list_update(items, j, z);
    lemma_object3(f1, f2, json_field(key, json_array(items)));
    lemma_object3(f1, f2, json_field(key, json_array(items.update(j, z))));
    let a = seq![0x7bu8] + f1 + seq![0x2cu8] + f2 + seq![0x2cu8] + json_str(key) + seq![0x3au8]
        + seq![0x5bu8] + x;
    let b = y + seq![0x5du8] + seq![0x7du8];
    assert(json_object(seq![f1, f2, json_field(key, json_array(items))]) =~= a + items[j] + b);
    assert(json_object(seq![f1, f2, json_field(key, json_array(items.update(j, z)))]) =~= a + z
        + b);
    (a, b)
}

/// In an array whose last item is an object, replacing one field of the object
/// changes the encoding only where that field stands.
#[verifier::spinoff_prover]
#[verifier::rlimit(40)]
pub proof fn lemma_object_item_update(
    a1: Seq<u8>,
    a2: Seq<u8>,
    a3: Seq<u8>,
    fields: Seq<Seq<u8>>,
    j: int,
    z: Seq<u8>,
) -> (ab: (Seq<u8>, Seq<u8>))
    requires
        0 <= j < fields.len(),
    ensures
        json_array(seq![a1, a2, a3, json_object(fields)]) == ab.0 + fields[j] + ab.1,
        json_array(seq![a1, a2, a3, json_object(fields.update(j, z))]) == ab.0 + z + ab.1,
{
    let (x, y) = lemma_json_list_update(fields, j, z);
    lemma_array4(a1, a2, a3, json_object(fields));
    lemma_array4(a1, a2, a3, json_object(fields.update(j, z)));
    let a = seq![0x5bu8] + a1 + seq![0x2cu8] + a2 + seq![0x2cu8] + a3 + seq![0x2cu8] + seq![0x7bu8]
        + x;
    let b = y + seq![0x7du8] + seq![0x5du8];
    assert(json_array(seq![a1, a2, a3, json_object(fields)]) =~= a + fields[j] + b);
    assert(json_array(seq![a1, a2, a3, json_object(fields.update(j, z))]) =~= a + z + b);
    (a, b)
}

/// A character that JSON writes as itself: printable ASCII other than `"` and `\`.
pub open spec fn plain_char(c: char) -> bool {
    0x20 <= (c as u32) < 0x7f && (c as u32) != 0x22 && (c as u32) != 0x5c
}

/// Every character is plain.
pub open spec fn plain_text(s: Seq<char>) -> bool {
    forall|i: int| 0 <= i < s.len() ==> plain_char(#[trigger] s[i])
}

/// A byte that JSON writes as itself.
pub open spec fn plain_byte(b: u8) -> bool {
    b >= 0x20 && b != 0x22 && b != 0x5c
}

proof fn lemma_escape_plain(bytes: Seq<u8>)
    requires
        forall|i: int| 0 <= i < bytes.len() ==> plain_byte(#[trigger] bytes[i]),
    ensures
        escape_bytes(bytes) == bytes,
    decreases bytes.len(),
{
    if bytes.len() > 0 {
        let init = bytes.drop_last();
        assert forall|i: int| 0 <= i < init.len() implies plain_byte(#[trigger] init[i]) by {
            assert(init[i] == bytes[i]);
        }
        lemma_escape_plain(init);
        assert(plain_byte(bytes[bytes.len() - 1]));
        assert(escape_byte(bytes.last()) == seq![bytes.last()]);
        assert(bytes =~= init + seq![bytes.last()]);
    }
}

proof fn lemma_utf8_plain(s: Seq<char>)
    requires
        plain_text(s),
    ensures
        forall|i: int| 0 <= i < utf8(s).len() ==> plain_byte(#[trigger] utf8(s)[i]),
    decreases s.len(),
{
    if s.len() > 0 {
        let rest = s.drop_first();
        assert forall|i: int| 0 <= i < rest.len() implies plain_char(#[trigger] rest[i]) by {
            assert(rest[i] == s[i + 1]);
        }
        lemma_utf8_plain(rest);
        let c = s[0] as u32;
        assert(plain_char(s[0]));
        assert((c & 0x7f) == c) by (bit_vector)
            requires
                c < 0x80,
        ;
        let head = vstd::utf8::encode_scalar(c);
        assert(head == seq![(c & 0x7f) as u8]);
        assert(utf8(s) == head + utf8(rest));
        assert forall|i: int| 0 <= i < utf8(s).len() implies plain_byte(#[trigger] utf8(s)[i]) by {
            if i > 0 {
                assert(utf8(s)[i] == utf8(rest)[i - 1]);
            } else {
                assert(utf8(s)[0] == (c & 0x7f) as u8);
                assert(utf8(s)[0] == c);
            }
        }
    }
}

/// Plain text is written between quotes as it is.
pub proof fn lemma_json_str_plain(s: Seq<char>)
    requires
        plain_text(s),
    ensures
        json_str(s) == seq![0x22u8] + utf8(s) + seq![0x22u8],
{
    lemma_utf8_plain(s);
    lemma_escape_plain(utf8(s));
}

/// Distinct plain texts are written differently.
pub proof fn lemma_json_str_plain_injective(a: Seq<char>, b: Seq<char>)
    requires
        plain_text(a),
        plain_text(b),
        json_str(a) == json_str(b),
    ensures
        a == b,
{
    lemma_json_str_plain(a);
    lemma_json_str_plain(b);
    lemma_cancel(seq![0x22u8], utf8(a), utf8(b), seq![0x22u8]);
    crate::text::lemma_utf8_injective(a, b);
}

/// Permission classes are written as distinct plain names.
pub proof fn lemma_class_keys(c: PermissionClass, d: PermissionClass)
    ensures
        plain_text(class_key(c)),
        c != d ==> class_key(c) != class_key(d),
{
    reveal_strlit("necessary");
    reveal_strlit("preferences");
    reveal_strlit("analytics");
    reveal_strlit("marketing");
    reveal_strlit("unknown");
    if c != d {
        assert(class_key(c).len() != class_key(d).len() || class_key(c)[0] != class_key(d)[0]);
    }
}

/// Decisions are written as distinct plain names.
pub proof fn lemma_decision_keys(c: Decision, d: Decision)
    ensures
        plain_text(decision_key(c)),
        c != d ==> decision_key(c) != decision_key(d),
{
    reveal_strlit("allow");
    reveal_strlit("gate");
    reveal_strlit("block");
    if c != d {
        assert(decision_key(c).len() != decision_key(d).len() || decision_key(c)[0] != decision_key(
            d,
        )[0]);
    }
}

/// Operations are written as distinct plain names.
pub proof fn lemma_operation_keys(o: Operation, p: Operation)
    ensures
        plain_text(operation_key(o)),
        o != p ==> operation_key(o) != operation_key(p),
{
    reveal_strlit("create");
    reveal_strlit("read");
    reveal_strlit("modify");
    reveal_strlit("delete");
    reveal_strlit("send");
    reveal_strlit("receive");
    if o != p {
        assert(operation_key(o).len() != operation_key(p).len() || operation_key(o)[0]
            != operation_key(p)[0]);
    }
}

/// A plain string after a common prefix is read back: where two encodings continue
/// with plain strings between quotes, the strings are equal and so are the rests.
pub proof fn lemma_plain_str_split(
    a: Seq<u8>,
    s1: Seq<char>,
    r1: Seq<u8>,
    s2: Seq<char>,
    r2: Seq<u8>,
)
    requires
        plain_text(s1),
        plain_text(s2),
        a + json_str(s1) + r1 == a + json_str(s2) + r2,
    ensures
        s1 == s2,
        r1 == r2,
{
    lemma_json_str_plain(s1);
    lemma_json_str_plain(s2);
    lemma_utf8_plain(s1);
    lemma_utf8_plain(s2);
    let u1 = utf8(s1);
    let u2 = utf8(s2);
    let l = a + seq![0x22u8] + u1 + seq![0x22u8] + r1;
    let r = a + seq![0x22u8] + u2 + seq![0x22u8] + r2;
    assert(l =~= a + json_str(s1) + r1);
    assert(r =~= a + json_str(s2) + r2);
    let base: int = a.len() as int + 1;
    if u1.len() < u2.len() {
        assert(l[base + u1.len() as int] == 0x22);
        assert(r[base + u1.len() as int] == u2[u1.len() as int]);
        assert(plain_byte(u2[u1.len() as int]));
    }
    if u2.len() < u1.len() {
        assert(r[base + u2.len() as int] == 0x22);
        assert(l[base + u2.len() as int] == u1[u2.len() as int]);
        assert(plain_byte(u1[u2.len() as int]));
    }
    assert(u1.len() == u2.len());
    assert forall|k: int| 0 <= k < u1.len() implies u1[k] == u2[k] by {
        assert(l[base + k] == u1[k]);
        assert(r[base + k] == u2[k]);
    }
    assert(u1 =~= u2);
    crate::text::lemma_utf8_injective(s1, s2);
    let rest: int = base + u1.len() + 1;
    assert(l.len() == r.len());
    assert forall|k: int| 0 <= k < r1.len() implies r1[k] == r2[k] by {
        assert(l[rest + k] == r1[k]);
        assert(r[rest + k] == r2[k]);
    }
    assert(r1 =~= r2);
}

/// In a six-field object whose second, fourth and fifth fields hold plain strings,
/// the encoding determines those strings.
#[verifier::spinoff_prover]
#[verifier::rlimit(40)]
pub proof fn lemma_object6_plain_fields(
    f1: Seq<u8>,
    k2: Seq<char>,
    f3: Seq<u8>,
    k4: Seq<char>,
    k5: Seq<char>,
    f6: Seq<u8>,
    x: (Seq<char>, Seq<char>, Seq<char>),
    y: (Seq<char>, Seq<char>, Seq<char>),
)
    requires
        plain_text(x.0),
        plain_text(x.1),
        plain_text(x.2),
        plain_text(y.0),
        plain_text(y.1),
        plain_text(y.2),
        json_object(
            seq![
                f1,
                json_field(k2, json_str(x.0)),
                f3,
                json_field(k4, json_str(x.1)),
                json_field(k5, json_str(x.2)),
                f6,
            ],
        ) == json_object(
            seq![
                f1,
                json_field(k2, json_str(y.0)),
                f3,
                json_field(k4, json_str(y.1)),
                json_field(k5, json_str(y.2)),
                f6,
            ],
        ),
    ensures
        x == y,
{
    lemma_object6(
        f1,
        json_field(k2, json_str(x.0)),
        f3,
        json_field(k4, json_str(x.1)),
        json_field(k5, json_str(x.2)),
        f6,
    );
    lemma_object6(
        f1,
        json_field(k2, json_str(y.0)),
        f3,
        json_field(k4, json_str(y.1)),
        json_field(k5, json_str(y.2)),
        f6,
    );
    let t = seq![0x2cu8] + f6 + seq![0x7du8];
    let cc = seq![0x2cu8] + json_str(k5) + seq![0x3au8];
    let sx = cc + json_str(x.2) + t;
    let sy = cc + json_str(y.2) + t;
    let bb = seq![0x2cu8] + f3 + seq![0x2cu8] + json_str(k4) + seq![0x3au8];
    let rx = bb + json_str(x.1) + sx;
    let ry = bb + json_str(y.1) + sy;
    let aa = seq![0x7bu8] + f1 + seq![0x2cu8] + json_str(k2) + seq![0x3au8];
    assert(json_object(
        seq![
            f1,
            json_field(k2, json_str(x.0)),
            f3,
            json_field(k4, json_str(x.1)),
            json_field(k5, json_str(x.2)),
            f6,
        ],
    ) =~= aa + json_str(x.0) + rx);
    assert(json_object(
        seq![
            f1,
            json_field(k2, json_str(y.0)),
            f3,
            json_field(k4, json_str(y.1)),
            json_field(k5, json_str(y.2)),
            f6,
        ],
    ) =~= aa + json_str(y.0) + ry);
    lemma_plain_str_split(aa, x.0, rx, y.0, ry);
    lemma_plain_str_split(bb, x.1, sx, y.1, sy);
    lemma_plain_str_split(cc, x.2, t, y.2, t);
}

/// Escaping can be read from the front: the first byte's escape, then the rest's.
proof fn lemma_escape_bytes_first(bytes: Seq<u8>)
    requires
        bytes.len() > 0,
    ensures
        escape_bytes(bytes) == escape_byte(bytes[0]) + escape_bytes(bytes.drop_first()),
    decreases bytes.len(),
{
    if bytes.len() == 1 {
        assert(bytes.drop_last().len() == 0);
        assert(bytes.drop_first().len() == 0);
        assert(escape_bytes(bytes.drop_last()) =~= Seq::<u8>::empty());
        assert(escape_bytes(bytes.drop_first()) =~= Seq::<u8>::empty());
        assert(bytes.last() == bytes[0]);
        assert(escape_bytes(bytes) =~= escape_byte(bytes[0]) + escape_bytes(bytes.drop_first()));
    } else {
        let init = bytes.drop_last();
        lemma_escape_bytes_first(init);
        assert(init.drop_first() =~= bytes.drop_first().drop_last());
        assert(bytes.drop_first().last() == bytes.last());
        assert(escape_bytes(bytes) =~= escape_byte(bytes[0]) + escape_bytes(bytes.drop_first()));
    }
}

proof fn lemma_escape_bytes_len(bytes: Seq<u8>)
    ensures
        escape_bytes(bytes).len() >= bytes.len(),
    decreases bytes.len(),
{
    if bytes.len() > 0 {
        lemma_escape_bytes_len(bytes.drop_last());
    }
}

/// The escape of a byte is never a proper prefix of another's: an escaped byte
/// followed by more is read back as that byte and the rest.
proof fn lemma_escape_byte_prefix(x: u8, y: u8, r1: Seq<u8>, r2: Seq<u8>)
    requires
        escape_byte(x) + r1 == escape_byte(y) + r2,
    ensures
        x == y,
        r1 == r2,
{
    let ex = escape_byte(x);
    let ey = escape_byte(y);
    let l = ex + r1;
    let r = ey + r2;
    assert(l[0] == ex[0]);
    assert(r[0] == ey[0]);
    if ex[0] != 0x5c || ey[0] != 0x5c {
        assert(ex == seq![x] || ex[0] == 0x5c);
        assert(ey == seq![y] || ey[0] == 0x5c);
    } else {
        assert(l[1] == ex[1]);
        assert(r[1] == ey[1]);
        if ex[1] == 0x75 {
            assert(ey[1] == 0x75);
            assert(l[4] == ex[4] && l[5] == ex[5]);
            assert(r[4] == ey[4] && r[5] == ey[5]);
            crate::text::lemma_hex_char_injective(x as int / 16, y as int / 16);
            crate::text::lemma_hex_char_injective(x as int % 16, y as int % 16);
        }
    }
    assert(x == y);
    assert(ex == ey);
    assert(l.len() == r.len());
    assert(r1.len() == r2.len());
    assert forall|k: int| 0 <= k < r1.len() implies r1[k] == r2[k] by {
        assert(l[ex.len() + k] == r1[k]);
        assert(r[ey.len() + k] == r2[k]);
    }
    assert(r1 =~= r2);
}

/// Distinct byte strings are escaped differently.
proof fn lemma_escape_injective(a: Seq<u8>, b: Seq<u8>)
    requires
        escape_bytes(a) == escape_bytes(b),
    ensures
        a == b,
    decreases a.len(),
{
    lemma_escape_bytes_len(a);
    lemma_escape_bytes_len(b);
    if a.len() == 0 || b.len() == 0 {
        if a.len() > 0 {
            lemma_escape_bytes_first(a);
        }
        if b.len() > 0 {
            lemma_escape_bytes_first(b);
        }
        assert(a =~= b);
    } else {
        lemma_escape_bytes_first(a);
        lemma_escape_bytes_first(b);
        lemma_escape_byte_prefix(a[0], b[0], escape_bytes(a.drop_first()), escape_bytes(b.drop_first()));
        lemma_escape_injective(a.drop_first(), b.drop_first());
        assert(a =~= seq![a[0]] + a.drop_first());
        assert(b =~= seq![b[0]] + b.drop_first());
    }
}

/// Distinct strings are written differently.
pub proof fn lemma_json_str_injective(s1: Seq<char>, s2: Seq<char>)
    requires
        json_str(s1) == json_str(s2),
    ensures
        s1 == s2,
{
    lemma_cancel(seq![0x22u8], escape_bytes(utf8(s1)), escape_bytes(utf8(s2)), seq![0x22u8]);
    lemma_escape_injective(utf8(s1), utf8(s2));
    crate::text::lemma_utf8_injective(s1, s2);
}

} // verus!
