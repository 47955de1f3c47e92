//! Reading a cookie name and its attributes from a `Set-Cookie` style value.
use crate::model::{attr_insert, CookieIdentity, CookieIdentityView};
use vstd::prelude::*;
use vstd::slice::slice_subrange;

verus! {

/// `char::is_whitespace`: the Unicode `White_Space` property.
pub open spec fn is_unicode_whitespace(c: char) -> bool {
    let u = c as u32;
    (0x09 <= u <= 0x0d) || u == 0x20 || u == 0x85 || u == 0xa0 || u == 0x1680 || (0x2000 <= u
        <= 0x200a) || u == 0x2028 || u == 0x2029 || u == 0x202f || u == 0x205f || u == 0x3000
}

/// `char::is_control`: the general category `Cc`.
pub open spec fn is_control_char(c: char) -> bool {
    let u = c as u32;
    u <= 0x1f || (0x7f <= u <= 0x9f)
}

/// `char::to_ascii_lowercase`.
pub open spec fn ascii_lower(c: char) -> char {
    if 'A' <= c <= 'Z' {
        ((c as u32) + 32) as char
    } else {
        c
    }
}

/// `str::to_ascii_lowercase`.
pub open spec fn ascii_lower_str(s: Seq<char>) -> Seq<char> {
    s.map_values(|c: char| ascii_lower(c))
}

/// The first index at or after `i` holding `c`.
pub open spec fn find_from(s: Seq<char>, c: char, i: int) -> Option<int>
    decreases s.len() - i,
{
    if i < 0 || i >= s.len() {
        None
    } else if s[i] == c {
        Some(i)
    } else {
        find_from(s, c, i + 1)
    }
}

/// `str::split_once` on a character.
pub open spec fn split_once(s: Seq<char>, c: char) -> Option<(Seq<char>, Seq<char>)> {
    match find_from(s, c, 0) {
        Some(k) => Some((s.take(k), s.skip(k + 1))),
        None => None,
    }
}

/// `str::split` on a character: the pieces between occurrences, always at least one.
pub open spec fn split_on(s: Seq<char>, c: char) -> Seq<Seq<char>>
    decreases s.len(),
{
    match find_from(s, c, 0) {
        Some(k) => {
            proof {
                lemma_find_bounds(s, c, 0);
            }
            seq![s.take(k)] + split_on(s.skip(k + 1), c)
        },
        None => seq![s],
    }
}

/// Leading whitespace ends here.
pub open spec fn trim_start_index(s: Seq<char>, i: int) -> int
    decreases s.len() - i,
{
    if 0 <= i < s.len() && is_unicode_whitespace(s[i]) {
        trim_start_index(s, i + 1)
    } else {
        i
    }
}

/// Trailing whitespace starts here.
pub open spec fn trim_end_index(s: Seq<char>, j: int) -> int
    decreases j,
{
    if 0 < j <= s.len() && is_unicode_whitespace(s[j - 1]) {
        trim_end_index(s, j - 1)
    } else {
        j
    }
}

/// `str::trim`: without leading and trailing Unicode whitespace.
pub open spec fn trim(s: Seq<char>) -> Seq<char> {
    let a = trim_start_index(s, 0);
    let b = trim_end_index(s, s.len() as int);
    if a < b {
        s.subrange(a, b)
    } else {
        seq![]
    }
}

/// `str::trim_start_matches` with a single character.
pub open spec fn trim_start_char(s: Seq<char>, c: char) -> Seq<char>
    decreases s.len(),
{
    if s.len() > 0 && s[0] == c {
        trim_start_char(s.drop_first(), c)
    } else {
        s
    }
}

/// The attributes a cookie identity records.
pub open spec fn recorded_attribute(key: Seq<char>) -> bool {
    key == "secure"@ || key == "httponly"@ || key == "samesite"@ || key == "max-age"@ || key
        == "expires"@ || key == "partitioned"@
}

/// The effect of one attribute piece (`key=value` or a bare `key`).
pub open spec fn apply_attribute(part: Seq<char>, c: CookieIdentityView) -> CookieIdentityView {
    let t = trim(part);
    let (raw_key, raw_value) = match split_once(t, '=') {
        Some((k, v)) => (k, v),
        None => (t, "true"@),
    };
    let key = ascii_lower_str(raw_key);
    let value = trim(raw_value);
    if key == "domain"@ {
        CookieIdentityView { domain: Some(ascii_lower_str(trim_start_char(value, '.'))), ..c }
    } else if key == "path"@ {
        CookieIdentityView { path: Some(value), ..c }
    } else if recorded_attribute(key) {
        CookieIdentityView { attributes: attr_insert(c.attributes, key, value), ..c }
    } else {
        c
    }
}

/// The effect of the attribute pieces, in order.
pub open spec fn apply_attributes(parts: Seq<Seq<char>>, c: CookieIdentityView) -> CookieIdentityView
    decreases parts.len(),
{
    if parts.len() == 0 {
        c
    } else {
        apply_attributes(parts.drop_first(), apply_attribute(parts[0], c))
    }
}

/// A cookie name must be nonempty and free of control and whitespace characters.
pub open spec fn valid_cookie_name(name: Seq<char>) -> bool {
    name.len() > 0 && forall|k: int|
        0 <= k < name.len() ==> !is_control_char(#[trigger] name[k]) && !is_unicode_whitespace(
            name[k],
        )
}

/// The identity after reading `value`: the name before the first `=` of the first
/// `;` piece (trimmed), then `Domain` (lower case, leading dots removed), `Path` and
/// the recorded attributes from the following pieces. When there is no valid name,
/// nothing changes.
pub open spec fn spec_parse_cookie(value: Seq<char>, c: CookieIdentityView) -> CookieIdentityView {
    let parts = split_on(value, ';');
    match split_once(parts[0], '=') {
        None => c,
        Some((name, _)) => {
            let name = trim(name);
            if !valid_cookie_name(name) {
                c
            } else {
                apply_attributes(parts.drop_first(), CookieIdentityView { name: Some(name), ..c })
            }
        },
    }
}

pub proof fn lemma_find_bounds(s: Seq<char>, c: char, i: int)
    requires
        0 <= i,
    ensures
        find_from(s, c, i) matches Some(k) ==> i <= k < s.len() && s[k] == c && forall|j: int|
            i <= j < k ==> s[j] != c,
        find_from(s, c, i) is None ==> forall|j: int| i <= j < s.len() ==> s[j] != c,
    decreases s.len() - i,
{
    if 0 <= i < s.len() && s[i] != c {
        lemma_find_bounds(s, c, i + 1);
    }
}

/// Builds a string from characters (`String: FromIterator<char>`). Claims the
/// resulting string holds exactly these characters, in order.
#[verifier::external_body]
pub(crate) fn string_from_chars(chars: &[char]) -> (s: String)
    ensures
        s@ == chars@,
{
    chars.iter().collect()
}

/// The characters of a string.
pub fn to_chars(s: &str) -> (v: Vec<char>)
    ensures
        v@ == s@,
{
    let mut v: Vec<char> = Vec::new();
    for c in it: s.chars()
        invariant
            v@ == it.seq().take(it.index() as int),
            it.seq() == s@,
    {
        v.push(c);
    }
    v
}

fn is_whitespace(c: char) -> (r: bool)
    ensures
        r == is_unicode_whitespace(c),
{
    let u = c as u32;
    (0x09 <= u && u <= 0x0d) || u == 0x20 || u == 0x85 || u == 0xa0 || u == 0x1680 || (0x2000 <= u
        && u <= 0x200a) || u == 0x2028 || u == 0x2029 || u == 0x202f || u == 0x205f || u == 0x3000
}

fn is_control(c: char) -> (r: bool)
    ensures
        r == is_control_char(c),
{
    let u = c as u32;
    u <= 0x1f || (0x7f <= u && u <= 0x9f)
}

/// The first index holding `c`.
fn find_char(s: &[char], c: char) -> (r: Option<usize>)
    ensures
        match r {
            Some(k) => find_from(s@, c, 0) == Some(k as int),
            None => find_from(s@, c, 0) is None,
        },
{
    let mut i: usize = 0;
    while i < s.len()
        invariant
            i <= s@.len(),
            find_from(s@, c, i as int) == find_from(s@, c, 0),
        decreases s.len() - i,
    {
        if s[i] == c {
            return Some(i);
        }
        i = i + 1;
    }
    None
}

/// The trimmed part of `s`.
fn trim_chars(s: &[char]) -> (r: &[char])
    ensures
        r@ == trim(s@),
{
    let n = s.len();
    let mut a: usize = 0;
    while a < n && is_whitespace(s[a])
        invariant
            a <= n,
            n == s@.len(),
            trim_start_index(s@, a as int) == trim_start_index(s@, 0),
        decreases n - a,
    {
        a = a + 1;
    }
    let mut b: usize = n;
    while b > 0 && is_whitespace(s[b - 1])
        invariant
            b <= n,
            n == s@.len(),
            trim_end_index(s@, b as int) == trim_end_index(s@, n as int),
        decreases b,
    {
        b = b - 1;
    }
    if a < b {
        slice_subrange(s, a, b)
    } else {
        let e = slice_subrange(s, 0, 0);
        assert(e@ =~= Seq::<char>::empty());
        e
    }
}

/// Whether nothing but whitespace remains after trimming (`s.trim().is_empty()`).
pub fn is_blank(s: &str) -> (r: bool)
    ensures
        r == (trim(s@).len() == 0),
{
    let chars = to_chars(s);
    let t = trim_chars(chars.as_slice());
    t.len() == 0
}

/// `to_ascii_lowercase` of characters, as a string.
fn lower_string(s: &[char]) -> (r: String)
    ensures
        r@ == ascii_lower_str(s@),
{
    let mut out: Vec<char> = Vec::new();
    let mut i: usize = 0;
    while i < s.len()
        invariant
            i <= s@.len(),
            out@ =~= ascii_lower_str(s@.take(i as int)),
        decreases s.len() - i,
    {
        let c = s[i];
        if 'A' <= c && c <= 'Z' {
            out.push(((c as u8) + 32) as char);
        } else {
            out.push(c);
        }
        i = i + 1;
        assert(out@ =~= ascii_lower_str(s@.take(i as int)));
    }
    assert(s@.take(i as int) =~= s@);
    string_from_chars(out.as_slice())
}

/// The name is nonempty and has no control or whitespace characters.
fn is_valid_name(name: &[char]) -> (r: bool)
    ensures
        r == valid_cookie_name(name@),
{
    if name.len() == 0 {
        return false;
    }
    let mut i: usize = 0;
    while i < name.len()
        invariant
            i <= name@.len(),
            forall|k: int|
                0 <= k < i ==> !is_control_char(#[trigger] name@[k]) && !is_unicode_whitespace(
                    name@[k],
                ),
        decreases name.len() - i,
    {
        if is_control(name[i]) || is_whitespace(name[i]) {
            return false;
        }
        i = i + 1;
    }
    true
}

fn slice_eq_str(s: &[char], lit: &str) -> (r: bool)
    ensures
        r == (s@ == lit@),
{
    let l = crate::cookie::to_chars(lit);
    if s.len() != l.len() {
        return false;
    }
    let mut i: usize = 0;
    while i < s.len()
        invariant
            i <= s@.len(),
            s@.len() == l@.len(),
            l@ == lit@,
            forall|k: int| 0 <= k < i ==> s@[k] == l@[k],
        decreases s.len() - i,
    {
        if s[i] != l[i] {
            return false;
        }
        i = i + 1;
    }
    assert(s@ =~= l@);
    true
}

/// Applies one attribute piece to the identity.
fn apply_attribute_exec(part: &[char], cookie: &mut CookieIdentity)
    ensures
        final(cookie)@ == apply_attribute(part@, old(cookie)@),
{
    let t = trim_chars(part);
    let true_chars = to_chars("true");
    let (raw_key, raw_value): (&[char], &[char]) = match find_char(t, '=') {
        Some(k) => {
            proof {
                lemma_find_bounds(t@, '=', 0);
            }
            let tl = t.len();
            assert(k < tl);
            let rk = slice_subrange(t, 0, k);
            let rv = slice_subrange(t, k + 1, tl);
            assert(rk@ == t@.take(k as int));
            assert(rv@ == t@.skip(k + 1));
            (rk, rv)
        },
        None => (t, true_chars.as_slice()),
    };
    let key_lower = lower_string(raw_key);
    let key_chars = to_chars(key_lower.as_str());
    let value = trim_chars(raw_value);
    if slice_eq_str(key_chars.as_slice(), "domain") {
        let mut start: usize = 0;
        assert(value@.skip(0) =~= value@);
        while start < value.len() && value[start] == '.'
            invariant
                start <= value@.len(),
                trim_start_char(value@.skip(start as int), '.') == trim_start_char(value@, '.'),
            decreases value.len() - start,
        {
            assert(value@.skip(start as int).drop_first() =~= value@.skip(start + 1));
            start = start + 1;
        }
        let rest = slice_subrange(value, start, value.len());
        assert(rest@ =~= value@.skip(start as int));
        cookie.domain = Some(lower_string(rest));
    } else if slice_eq_str(key_chars.as_slice(), "path") {
        cookie.path = Some(string_from_chars(value));
    } else if slice_eq_str(key_chars.as_slice(), "secure") || slice_eq_str(
        key_chars.as_slice(),
        "httponly",
    ) || slice_eq_str(key_chars.as_slice(), "samesite") || slice_eq_str(
        key_chars.as_slice(),
        "max-age",
    ) || slice_eq_str(key_chars.as_slice(), "expires") || slice_eq_str(
        key_chars.as_slice(),
        "partitioned",
    ) {
        cookie.attributes.insert(key_lower, string_from_chars(value));
    }
}

/// Reads a cookie name, domain, path and attributes from `value` into `cookie`.
pub fn parse_cookie(value: &str, cookie: &mut CookieIdentity)
    ensures
        final(cookie)@ == spec_parse_cookie(value@, old(cookie)@),
{
    let v = to_chars(value);
    let s = v.as_slice();
    let n = s.len();
    let first_end = match find_char(s, ';') {
        Some(k) => k,
        None => n,
    };
    proof {
        lemma_find_bounds(s@, ';', 0);
    }
    let ghost parts = split_on(s@, ';');
    let first = slice_subrange(s, 0, first_end);
    assert(first@ == parts[0]);
    let eq = match find_char(first, '=') {
        Some(k) => k,
        None => {
            return;
        },
    };
    proof {
        lemma_find_bounds(first@, '=', 0);
    }
    let name = trim_chars(slice_subrange(first, 0, eq));
    assert(name@ == trim(first@.take(eq as int)));
    if !is_valid_name(name) {
        return;
    }
    cookie.name = Some(string_from_chars(name));
    if first_end == n {
        assert(parts.drop_first() =~= Seq::<Seq<char>>::empty());
        return;
    }
    // Apply the remaining pieces in order.
    let mut pos: usize = first_end + 1;
    assert(parts.drop_first() == split_on(s@.skip(pos as int), ';'));
    let ghost target = apply_attributes(parts.drop_first(), cookie@);
    assert(target == spec_parse_cookie(value@, old(cookie)@));
    loop
        invariant
            target == spec_parse_cookie(value@, old(cookie)@),
            first_end < pos <= n,
            n == s@.len(),
            apply_attributes(split_on(s@.skip(pos as int), ';'), cookie@) == target,
        decreases n - pos,
    {
        let rest = slice_subrange(s, pos, n);
        assert(rest@ =~= s@.skip(pos as int));
        proof {
            lemma_find_bounds(rest@, ';', 0);
        }
        match find_char(rest, ';') {
            Some(k) => {
                assert(k < rest@.len());
                let piece = slice_subrange(rest, 0, k);
                assert(piece@ == rest@.take(k as int));
                let ghost before = cookie@;
                let ghost tail = split_on(rest@.skip(k + 1), ';');
                assert(split_on(rest@, ';') == seq![piece@] + tail);
                assert((seq![piece@] + tail).drop_first() =~= tail);
                assert((seq![piece@] + tail)[0] == piece@);
                apply_attribute_exec(piece, cookie);
                assert(apply_attributes(tail, cookie@) == target);
                assert(rest@.skip(k + 1) =~= s@.skip(pos + k + 1));
                pos = pos + k + 1;
            },
            None => {
                assert(split_on(rest@, ';') == seq![rest@]);
                assert(seq![rest@].drop_first() =~= Seq::<Seq<char>>::empty());
                assert(seq![rest@][0] == rest@);
                let ghost before = cookie@;
                apply_attribute_exec(rest, cookie);
                assert(apply_attributes(seq![rest@], before) == apply_attributes(
                    Seq::<Seq<char>>::empty(),
                    apply_attribute(rest@, before),
                ));
                return;
            },
        }
    }
}

/// `find_from` with every index moved by `d`.
pub open spec fn shifted(o: Option<int>, d: int) -> Option<int> {
    match o {
        Some(k) => Some(k + d),
        None => None,
    }
}

proof fn lemma_find_in_suffix(a: Seq<char>, b: Seq<char>, c: char, j: int)
    requires
        0 <= j <= b.len(),
    ensures
        find_from(a + b, c, a.len() + j) == shifted(find_from(b, c, j), a.len() as int),
    decreases b.len() - j,
{
    if j < b.len() {
        assert((a + b)[a.len() + j] == b[j]);
        lemma_find_in_suffix(a, b, c, j + 1);
    }
}

/// Searching past a prefix that does not hold `c`.
proof fn lemma_find_past_prefix(a: Seq<char>, b: Seq<char>, c: char, i: int)
    requires
        0 <= i <= a.len(),
        forall|k: int| 0 <= k < a.len() ==> a[k] != c,
    ensures
        find_from(a + b, c, i) == shifted(find_from(b, c, 0), a.len() as int),
    decreases a.len() - i,
{
    if i < a.len() {
        assert((a + b)[i] == a[i]);
        lemma_find_past_prefix(a, b, c, i + 1);
    } else {
        lemma_find_in_suffix(a, b, c, 0);
    }
}

/// The pieces of a cookie string whose first piece is `first`.
proof fn lemma_split_first_piece(first: Seq<char>, rest: Seq<char>)
    requires
        forall|k: int| 0 <= k < first.len() ==> first[k] != ';',
        rest.len() == 0 || rest[0] == ';',
    ensures
        split_on(first + rest, ';')[0] == first,
        split_on(first + rest, ';').drop_first() == if rest.len() == 0 {
            Seq::<Seq<char>>::empty()
        } else {
            split_on(rest.drop_first(), ';')
        },
{
    let s = first + rest;
    lemma_find_past_prefix(first, rest, ';', 0);
    if rest.len() == 0 {
        assert(find_from(rest, ';', 0) is None);
        assert(s =~= first);
        assert(split_on(s, ';') == seq![s]);
        assert(split_on(s, ';').drop_first() =~= Seq::<Seq<char>>::empty());
    } else {
        assert(find_from(rest, ';', 0) == Some(0int));
        let m = first.len() as int;
        assert(find_from(s, ';', 0) == Some(m));
        assert(s.take(m) =~= first);
        assert(s.skip(m + 1) =~= rest.drop_first());
        let parts = split_on(s, ';');
        assert(parts == seq![s.take(m)] + split_on(s.skip(m + 1), ';'));
        assert(parts.drop_first() =~= split_on(rest.drop_first(), ';'));
    }
}

/// Cookie values are never recorded: two cookie strings that differ only in the
/// value of the name-value pair give the same identity.
pub proof fn lemma_cookie_value_is_not_recorded(
    name: Seq<char>,
    v1: Seq<char>,
    v2: Seq<char>,
    rest: Seq<char>,
    c: CookieIdentityView,
)
    requires
        forall|k: int| 0 <= k < name.len() ==> name[k] != ';' && name[k] != '=',
        forall|k: int| 0 <= k < v1.len() ==> v1[k] != ';',
        forall|k: int| 0 <= k < v2.len() ==> v2[k] != ';',
        rest.len() == 0 || rest[0] == ';',
    ensures
        spec_parse_cookie(name + seq!['='] + v1 + rest, c) == spec_parse_cookie(
            name + seq!['='] + v2 + rest,
            c,
        ),
{
    let f1 = name + seq!['='] + v1;
    let f2 = name + seq!['='] + v2;
    assert forall|k: int| 0 <= k < f1.len() implies f1[k] != ';' by {
        if k < name.len() {
            assert(f1[k] == name[k]);
        } else if k > name.len() {
            assert(f1[k] == v1[k - name.len() - 1]);
        }
    }
    assert forall|k: int| 0 <= k < f2.len() implies f2[k] != ';' by {
        if k < name.len() {
            assert(f2[k] == name[k]);
        } else if k > name.len() {
            assert(f2[k] == v2[k - name.len() - 1]);
        }
    }
    lemma_split_first_piece(f1, rest);
    lemma_split_first_piece(f2, rest);
    lemma_find_past_prefix(name, seq!['='] + v1, '=', 0);
    lemma_find_past_prefix(name, seq!['='] + v2, '=', 0);
    assert(find_from(seq!['='] + v1, '=', 0) == Some(0int));
    assert(find_from(seq!['='] + v2, '=', 0) == Some(0int));
    assert(name + (seq!['='] + v1) =~= f1);
    assert(name + (seq!['='] + v2) =~= f2);
    assert(f1.take(name.len() as int) =~= name);
    assert(f2.take(name.len() as int) =~= name);
    assert(split_once(f1, '=') matches Some((n, _)) && n == name);
    assert(split_once(f2, '=') matches Some((n, _)) && n == name);
}

} // verus!
