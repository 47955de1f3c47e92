//! Text helpers with exact contracts: byte order of strings, equality, concatenation,
//! decimal and hexadecimal renderings.
use vstd::prelude::*;
use vstd::string::*;
use vstd::utf8::*;

verus! {

broadcast use vstd::utf8::group_utf8_lib;

/// The UTF-8 bytes of a character sequence.
pub open spec fn utf8(s: Seq<char>) -> Seq<u8> {
    encode_utf8(s)
}

/// Lexicographic comparison of byte sequences, starting at index `k`.
pub open spec fn lex_lt_from(a: Seq<u8>, b: Seq<u8>, k: int) -> bool
    decreases a.len() - k,
{
    if k < 0 || k >= a.len() {
        0 <= k < b.len()
    } else if k >= b.len() {
        false
    } else if a[k] != b[k] {
        a[k] < b[k]
    } else {
        lex_lt_from(a, b, k + 1)
    }
}

/// Strict lexicographic order of byte sequences (the order of `[u8]` and of `str`).
pub open spec fn bytes_lt(a: Seq<u8>, b: Seq<u8>) -> bool {
    lex_lt_from(a, b, 0)
}

/// Strict order of strings: the byte order of their UTF-8 encodings, as `String`'s `Ord`.
pub open spec fn str_lt(a: Seq<char>, b: Seq<char>) -> bool {
    bytes_lt(utf8(a), utf8(b))
}

pub proof fn lemma_lex_from_irreflexive(a: Seq<u8>, k: int)
    requires
        0 <= k <= a.len(),
    ensures
        !lex_lt_from(a, a, k),
    decreases a.len() - k,
{
    if k < a.len() {
        lemma_lex_from_irreflexive(a, k + 1);
    }
}

pub proof fn lemma_lex_from_asymmetric(a: Seq<u8>, b: Seq<u8>, k: int)
    requires
        0 <= k,
        k <= a.len(),
        k <= b.len(),
    ensures
        lex_lt_from(a, b, k) ==> !lex_lt_from(b, a, k),
    decreases a.len() - k,
{
    if k < a.len() && k < b.len() && a[k] == b[k] {
        lemma_lex_from_asymmetric(a, b, k + 1);
    }
}

pub proof fn lemma_lex_from_transitive(a: Seq<u8>, b: Seq<u8>, c: Seq<u8>, k: int)
    requires
        0 <= k,
        k <= a.len(),
        k <= b.len(),
        k <= c.len(),
        lex_lt_from(a, b, k),
        lex_lt_from(b, c, k),
    ensures
        lex_lt_from(a, c, k),
    decreases a.len() - k,
{
    if k < a.len() && k < b.len() && k < c.len() && a[k] == b[k] && b[k] == c[k] {
        lemma_lex_from_transitive(a, b, c, k + 1);
    }
}

pub proof fn lemma_lex_from_total(a: Seq<u8>, b: Seq<u8>, k: int)
    requires
        0 <= k,
        k <= a.len(),
        k <= b.len(),
        a.subrange(0, k) == b.subrange(0, k),
        a != b,
    ensures
        lex_lt_from(a, b, k) || lex_lt_from(b, a, k),
    decreases a.len() - k,
{
    if k < a.len() && k < b.len() && a[k] == b[k] {
        assert(a.subrange(0, k + 1) =~= a.subrange(0, k).push(a[k]));
        assert(b.subrange(0, k + 1) =~= b.subrange(0, k).push(b[k]));
        lemma_lex_from_total(a, b, k + 1);
    } else if k == a.len() && k == b.len() {
        assert(a =~= a.subrange(0, k));
        assert(b =~= b.subrange(0, k));
    }
}

/// `bytes_lt` is a strict total order.
pub proof fn lemma_bytes_lt_order(a: Seq<u8>, b: Seq<u8>, c: Seq<u8>)
    ensures
        !bytes_lt(a, a),
        bytes_lt(a, b) ==> !bytes_lt(b, a),
        bytes_lt(a, b) && bytes_lt(b, c) ==> bytes_lt(a, c),
        a != b ==> bytes_lt(a, b) || bytes_lt(b, a),
{
    lemma_lex_from_irreflexive(a, 0);
    lemma_lex_from_asymmetric(a, b, 0);
    if bytes_lt(a, b) && bytes_lt(b, c) {
        lemma_lex_from_transitive(a, b, c, 0);
    }
    if a != b {
        assert(a.subrange(0, 0) =~= b.subrange(0, 0));
        lemma_lex_from_total(a, b, 0);
    }
}

/// `str_lt` is a strict total order on strings.
pub proof fn lemma_str_lt_order(a: Seq<char>, b: Seq<char>, c: Seq<char>)
    ensures
        !str_lt(a, a),
        str_lt(a, b) ==> !str_lt(b, a),
        str_lt(a, b) && str_lt(b, c) ==> str_lt(a, c),
        a != b ==> str_lt(a, b) || str_lt(b, a),
{
    lemma_bytes_lt_order(utf8(a), utf8(b), utf8(c));
    if a != b {
        lemma_utf8_injective(a, b);
    }
}

/// Distinct strings have distinct UTF-8 encodings.
pub proof fn lemma_utf8_injective(a: Seq<char>, b: Seq<char>)
    ensures
        utf8(a) == utf8(b) ==> a == b,
{
    if utf8(a) == utf8(b) {
        assert(decode_utf8(encode_utf8(a)) == a);
        assert(decode_utf8(encode_utf8(b)) == b);
    }
}

/// The three outcomes of a comparison.
#[derive(Clone, Copy, Debug, PartialEq, Eq, Structural)]
pub enum Cmp {
    Less,
    Equal,
    Greater,
}

/// Compares two byte slices lexicographically.
pub fn compare_bytes(a: &[u8], b: &[u8]) -> (c: Cmp)
    ensures
        c == Cmp::Less <==> bytes_lt(a@, b@),
        c == Cmp::Equal <==> a@ == b@,
        c == Cmp::Greater <==> bytes_lt(b@, a@),
{
    let mut k: usize = 0;
    while k < a.len() && k < b.len()
        invariant
            k <= a@.len(),
            k <= b@.len(),
            a@.subrange(0, k as int) == b@.subrange(0, k as int),
            lex_lt_from(a@, b@, 0) == lex_lt_from(a@, b@, k as int),
            lex_lt_from(b@, a@, 0) == lex_lt_from(b@, a@, k as int),
        decreases a.len() - k,
    {
        if a[k] < b[k] {
            proof {
                lemma_bytes_lt_order(a@, b@, b@);
            }
            return Cmp::Less;
        } else if a[k] > b[k] {
            proof {
                lemma_bytes_lt_order(a@, b@, b@);
            }
            return Cmp::Greater;
        }
        assert(a@.subrange(0, k + 1) =~= a@.subrange(0, k as int).push(a@[k as int]));
        assert(b@.subrange(0, k + 1) =~= b@.subrange(0, k as int).push(b@[k as int]));
        k = k + 1;
    }
    proof {
        lemma_bytes_lt_order(a@, b@, b@);
    }
    if a.len() == b.len() {
        assert(a@ =~= a@.subrange(0, k as int));
        assert(b@ =~= b@.subrange(0, k as int));
        Cmp::Equal
    } else if a.len() < b.len() {
        Cmp::Less
    } else {
        Cmp::Greater
    }
}

/// Compares two strings by the byte order of their UTF-8 encodings.
pub fn compare_str(a: &str, b: &str) -> (c: Cmp)
    ensures
        c == Cmp::Less <==> str_lt(a@, b@),
        c == Cmp::Equal <==> a@ == b@,
        c == Cmp::Greater <==> str_lt(b@, a@),
{
    proof {
        lemma_utf8_injective(a@, b@);
    }
    compare_bytes(a.as_bytes(), b.as_bytes())
}

/// String equality.
pub fn str_eq(a: &str, b: &str) -> (r: bool)
    ensures
        r == (a@ == b@),
{
    compare_str(a, b) == Cmp::Equal
}

/// Concatenation of two strings.
pub fn concat(a: &str, b: &str) -> (r: String)
    ensures
        r@ == a@ + b@,
{
    let mut r = String::from_str(a);
    r.append(b);
    r
}

/// Concatenation of three strings.
pub fn concat3(a: &str, b: &str, c: &str) -> (r: String)
    ensures
        r@ == a@ + b@ + c@,
{
    let mut r = String::from_str(a);
    r.append(b);
    r.append(c);
    r
}

/// A copy of a string.
pub fn owned(a: &str) -> (r: String)
    ensures
        r@ == a@,
{
    String::from_str(a)
}

/// The digit characters of base sixteen, lower case.
pub open spec fn hex_char(d: int) -> char {
    if d < 10 {
        ('0' as int + d) as char
    } else {
        ('a' as int + (d - 10)) as char
    }
}

/// Lower-case hexadecimal rendering, two digits per byte, most significant nibble first.
pub open spec fn hex_lower(bytes: Seq<u8>) -> Seq<char>
    decreases bytes.len(),
{
    if bytes.len() == 0 {
        seq![]
    } else {
        seq![hex_char(bytes[0] as int / 16), hex_char(bytes[0] as int % 16)] + hex_lower(
            bytes.drop_first(),
        )
    }
}

/// Decimal rendering of a natural number, without leading zeros.
pub open spec fn decimal(n: nat) -> Seq<char>
    decreases n,
{
    if n < 10 {
        seq![hex_char(n as int)]
    } else {
        decimal(n / 10) + seq![hex_char((n % 10) as int)]
    }
}

/// A one-character string holding the digit `d` of base sixteen.
pub fn digit_str(d: u8) -> (s: &'static str)
    requires
        d < 16,
    ensures
        s@ == seq![hex_char(d as int)],
{
    match d {
        0 => { proof { reveal_strlit("0"); } "0" },
        1 => { proof { reveal_strlit("1"); } "1" },
        2 => { proof { reveal_strlit("2"); } "2" },
        3 => { proof { reveal_strlit("3"); } "3" },
        4 => { proof { reveal_strlit("4"); } "4" },
        5 => { proof { reveal_strlit("5"); } "5" },
        6 => { proof { reveal_strlit("6"); } "6" },
        7 => { proof { reveal_strlit("7"); } "7" },
        8 => { proof { reveal_strlit("8"); } "8" },
        9 => { proof { reveal_strlit("9"); } "9" },
        10 => { proof { reveal_strlit("a"); } "a" },
        11 => { proof { reveal_strlit("b"); } "b" },
        12 => { proof { reveal_strlit("c"); } "c" },
        13 => { proof { reveal_strlit("d"); } "d" },
        14 => { proof { reveal_strlit("e"); } "e" },
        _ => { proof { reveal_strlit("f"); } "f" },
    }
}

proof fn lemma_hex_lower_push(bytes: Seq<u8>, b: u8)
    ensures
        hex_lower(bytes.push(b)) == hex_lower(bytes) + seq![
            hex_char(b as int / 16),
            hex_char(b as int % 16),
        ],
    decreases bytes.len(),
{
    if bytes.len() == 0 {
        assert(bytes.push(b).drop_first() =~= bytes);
        assert(hex_lower(bytes) =~= seq![]);
        assert(hex_lower(bytes.push(b).drop_first()) =~= seq![]);
    } else {
        assert(bytes.push(b).drop_first() =~= bytes.drop_first().push(b));
        lemma_hex_lower_push(bytes.drop_first(), b);
    }
}

/// Lower-case hexadecimal rendering of bytes.
pub fn to_hex_lower(bytes: &[u8]) -> (s: String)
    ensures
        s@ == hex_lower(bytes@),
        s@.len() == 2 * bytes@.len(),
{
    let mut s = String::new();
    let mut i: usize = 0;
    while i < bytes.len()
        invariant
            i <= bytes@.len(),
            s@ == hex_lower(bytes@.subrange(0, i as int)),
            s@.len() == 2 * i,
        decreases bytes.len() - i,
    {
        let b = bytes[i];
        proof {
            lemma_hex_lower_push(bytes@.subrange(0, i as int), b);
            assert(bytes@.subrange(0, i + 1) =~= bytes@.subrange(0, i as int).push(b));
        }
        s.append(digit_str(b / 16));
        s.append(digit_str(b % 16));
        i = i + 1;
    }
    assert(bytes@.subrange(0, i as int) =~= bytes@);
    s
}

/// Decimal rendering of an unsigned number.
pub fn to_decimal(n: usize) -> (s: String)
    ensures
        s@ == decimal(n as nat),
    decreases n,
{
    if n < 10 {
        owned(digit_str(n as u8))
    } else {
        let mut s = to_decimal(n / 10);
        s.append(digit_str((n % 10) as u8));
        s
    }
}

/// Decimal renderings of distinct numbers differ.
pub proof fn lemma_decimal_injective(a: nat, b: nat)
    ensures
        decimal(a) == decimal(b) ==> a == b,
    decreases a + b,
{
    if decimal(a) == decimal(b) {
        if a < 10 && b < 10 {
            assert(decimal(a)[0] == decimal(b)[0]);
        } else if a < 10 {
            lemma_decimal_len(b / 10);
            assert(decimal(b).len() >= 2);
        } else if b < 10 {
            lemma_decimal_len(a / 10);
            assert(decimal(a).len() >= 2);
        } else {
            let da = decimal(a / 10);
            let db = decimal(b / 10);
            assert(decimal(a).len() == da.len() + 1);
            assert(decimal(a)[da.len() as int] == hex_char((a % 10) as int));
            assert(decimal(b)[db.len() as int] == hex_char((b % 10) as int));
            assert(da =~= decimal(a).subrange(0, da.len() as int));
            assert(db =~= decimal(b).subrange(0, db.len() as int));
            lemma_decimal_injective(a / 10, b / 10);
        }
    }
}

proof fn lemma_decimal_len(n: nat)
    ensures
        decimal(n).len() >= 1,
    decreases n,
{
    if n >= 10 {
        lemma_decimal_len(n / 10);
    }
}

/// Distinct digits are written as distinct characters.
pub proof fn lemma_hex_char_injective(x: int, y: int)
    requires
        0 <= x < 16,
        0 <= y < 16,
        hex_char(x) == hex_char(y),
    ensures
        x == y,
{
    assert(hex_char(x) as int == if x < 10 { 48 + x } else { 97 + x - 10 });
    assert(hex_char(y) as int == if y < 10 { 48 + y } else { 97 + y - 10 });
}

/// The hexadecimal rendering has two digits per byte.
pub proof fn lemma_hex_lower_len(bytes: Seq<u8>)
    ensures
        hex_lower(bytes).len() == 2 * bytes.len(),
    decreases bytes.len(),
{
    if bytes.len() > 0 {
        lemma_hex_lower_len(bytes.drop_first());
    }
}

/// Distinct byte strings have distinct hexadecimal renderings.
pub proof fn lemma_hex_lower_injective(a: Seq<u8>, b: Seq<u8>)
    requires
        hex_lower(a) == hex_lower(b),
    ensures
        a == b,
    decreases a.len(),
{
    lemma_hex_lower_len(a);
    lemma_hex_lower_len(b);
    if a.len() > 0 {
        let ha = hex_lower(a);
        let hb = hex_lower(b);
        let ta = hex_lower(a.drop_first());
        let tb = hex_lower(b.drop_first());
        assert(ha[0] == hex_char(a[0] as int / 16));
        assert(hb[0] == hex_char(b[0] as int / 16));
        assert(ha[1] == hex_char(a[0] as int % 16));
        assert(hb[1] == hex_char(b[0] as int % 16));
        lemma_hex_char_injective(a[0] as int / 16, b[0] as int / 16);
        lemma_hex_char_injective(a[0] as int % 16, b[0] as int % 16);
        assert(a[0] == b[0]);
        assert(ta =~= ha.skip(2));
        assert(tb =~= hb.skip(2));
        lemma_hex_lower_injective(a.drop_first(), b.drop_first());
        assert(a =~= seq![a[0]] + a.drop_first());
        assert(b =~= seq![b[0]] + b.drop_first());
    } else {
        assert(a =~= b);
    }
}

} // verus!
