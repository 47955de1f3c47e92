//! A bounded lexical layer, not an AST or proof of reachability.
use crate::text::{owned, utf8};
use vstd::prelude::*;
use vstd::string::StringSliceAdditionalSpecFns;
use vstd::utf8::*;

verus! {

broadcast use vstd::utf8::group_utf8_lib;

/// The lexical class of a token.
#[derive(Clone, Copy, Debug, PartialEq, Eq, Structural)]
pub enum Kind {
    /// An identifier-like run of letters, digits, `_`, `$` and non-ASCII bytes.
    Word,
    /// A quoted string without escapes, interpolation, or a missing closing quote.
    Literal,
    /// A quoted string whose content is not a constant.
    Dynamic,
    /// Any other single byte.
    Symbol,
}

/// A token: its text (for quoted strings, the text between the quotes), its kind,
/// its byte offset, and its 1-based line and column (columns count characters).
#[derive(Clone, Debug)]
pub struct Token {
    pub text: String,
    pub kind: Kind,
    pub offset: usize,
    pub line: usize,
    pub column: usize,
}

pub struct TokenView {
    pub text: Seq<char>,
    pub kind: Kind,
    pub offset: usize,
    pub line: usize,
    pub column: usize,
}

impl View for Token {
    type V = TokenView;

    open spec fn view(&self) -> TokenView {
        TokenView {
            text: self.text@,
            kind: self.kind,
            offset: self.offset,
            line: self.line,
            column: self.column,
        }
    }
}

/// `u8::is_ascii_whitespace`: space, tab, line feed, form feed, carriage return.
pub open spec fn ascii_ws(b: u8) -> bool {
    b == 0x20 || b == 0x09 || b == 0x0a || b == 0x0c || b == 0x0d
}

/// Bytes that start or continue a word: ASCII letters and digits, `_`, `$`, and every
/// byte of a non-ASCII character.
pub open spec fn word_byte(b: u8) -> bool {
    (0x30 <= b <= 0x39) || (0x41 <= b <= 0x5a) || (0x61 <= b <= 0x7a) || b == 0x5f || b == 0x24
        || b >= 0x80
}

/// The quote characters `'`, `"` and `` ` ``.
pub open spec fn quote_byte(b: u8) -> bool {
    b == 0x27 || b == 0x22 || b == 0x60
}

/// The byte at `i` exists and equals `b`.
pub open spec fn byte_is(bytes: Seq<u8>, i: int, b: u8) -> bool {
    0 <= i < bytes.len() && bytes[i] == b
}

/// The first line feed at or after `i`, or the end.
pub open spec fn line_end(bytes: Seq<u8>, i: int) -> int
    decreases bytes.len() - i,
{
    if 0 <= i < bytes.len() && bytes[i] != 0x0a {
        line_end(bytes, i + 1)
    } else {
        i
    }
}

/// The first `*/` at or after `i`, or the end.
pub open spec fn block_end(bytes: Seq<u8>, i: int) -> int
    decreases bytes.len() - i,
{
    if 0 <= i < bytes.len() && !(bytes[i] == 0x2a && byte_is(bytes, i + 1, 0x2f)) {
        block_end(bytes, i + 1)
    } else {
        i
    }
}

/// The closing quote `q` at or after `i`; a backslash skips the byte after it.
pub open spec fn quote_end(bytes: Seq<u8>, q: u8, i: int) -> int
    decreases bytes.len() - i,
{
    if i < 0 || i >= bytes.len() || bytes[i] == q {
        i
    } else if bytes[i] == 0x5c {
        if i + 1 < bytes.len() {
            quote_end(bytes, q, i + 2)
        } else {
            i + 1
        }
    } else {
        quote_end(bytes, q, i + 1)
    }
}

/// A quoted string from `i` holds an escape or a `${` before its closing quote.
pub open spec fn quote_dynamic(bytes: Seq<u8>, q: u8, i: int) -> bool
    decreases bytes.len() - i,
{
    if i < 0 || i >= bytes.len() || bytes[i] == q {
        false
    } else if bytes[i] == 0x5c {
        true
    } else {
        (bytes[i] == 0x24 && byte_is(bytes, i + 1, 0x7b)) || quote_dynamic(bytes, q, i + 1)
    }
}

/// The end of the word that continues at `i`.
pub open spec fn word_end(bytes: Seq<u8>, i: int) -> int
    decreases bytes.len() - i,
{
    if 0 <= i < bytes.len() && word_byte(bytes[i]) {
        word_end(bytes, i + 1)
    } else {
        i
    }
}

/// A line comment starts at `i`: `//`, or `#` where hash comments apply.
pub open spec fn line_comment_at(bytes: Seq<u8>, hash_comments: bool, i: int) -> bool {
    (bytes[i] == 0x2f && byte_is(bytes, i + 1, 0x2f)) || (hash_comments && bytes[i] == 0x23)
}

/// A block comment starts at `i`.
pub open spec fn block_comment_at(bytes: Seq<u8>, i: int) -> bool {
    bytes[i] == 0x2f && byte_is(bytes, i + 1, 0x2a)
}

/// Where lexing resumes after the item that starts at `i`.
pub open spec fn next_pos(bytes: Seq<u8>, hash_comments: bool, i: int) -> int {
    if ascii_ws(bytes[i]) {
        i + 1
    } else if line_comment_at(bytes, hash_comments, i) {
        line_end(bytes, i)
    } else if block_comment_at(bytes, i) {
        let e = block_end(bytes, i + 2) + 2;
        if e < bytes.len() {
            e
        } else {
            bytes.len() as int
        }
    } else if quote_byte(bytes[i]) {
        let e = quote_end(bytes, bytes[i], i + 1);
        if e < bytes.len() {
            e + 1
        } else {
            e
        }
    } else if word_byte(bytes[i]) {
        word_end(bytes, i + 1)
    } else {
        i + 1
    }
}

/// A token located in the source: kind, start offset, and the byte range of its text.
pub struct Lexeme {
    pub kind: Kind,
    pub start: int,
    pub text_start: int,
    pub text_end: int,
}

/// The token that starts at `i`, if the item there is not whitespace or a comment.
pub open spec fn lexeme_at(bytes: Seq<u8>, hash_comments: bool, i: int) -> Option<Lexeme> {
    if ascii_ws(bytes[i]) || line_comment_at(bytes, hash_comments, i) || block_comment_at(
        bytes,
        i,
    ) {
        None
    } else if quote_byte(bytes[i]) {
        let e = quote_end(bytes, bytes[i], i + 1);
        let dynamic = quote_dynamic(bytes, bytes[i], i + 1) || e >= bytes.len();
        Some(
            Lexeme {
                kind: if dynamic {
                    Kind::Dynamic
                } else {
                    Kind::Literal
                },
                start: i,
                text_start: i + 1,
                text_end: e,
            },
        )
    } else if word_byte(bytes[i]) {
        Some(Lexeme { kind: Kind::Word, start: i, text_start: i, text_end: word_end(bytes, i + 1) })
    } else {
        Some(Lexeme { kind: Kind::Symbol, start: i, text_start: i, text_end: i + 1 })
    }
}

proof fn lemma_scans_advance(bytes: Seq<u8>, q: u8, i: int)
    requires
        0 <= i,
    ensures
        line_end(bytes, i) >= i,
        block_end(bytes, i) >= i,
        quote_end(bytes, q, i) >= i,
        word_end(bytes, i) >= i,
        i <= bytes.len() ==> line_end(bytes, i) <= bytes.len(),
        i <= bytes.len() ==> block_end(bytes, i) <= bytes.len(),
        i <= bytes.len() ==> quote_end(bytes, q, i) <= bytes.len(),
        i <= bytes.len() ==> word_end(bytes, i) <= bytes.len(),
    decreases bytes.len() - i,
{
    if i < bytes.len() {
        lemma_scans_advance(bytes, q, i + 1);
        if i + 2 <= bytes.len() {
            lemma_scans_advance(bytes, q, i + 2);
        }
    }
}

/// Every item consumes at least one byte and stays within the source.
pub proof fn lemma_next_pos(bytes: Seq<u8>, hash_comments: bool, i: int)
    requires
        0 <= i < bytes.len(),
    ensures
        i < next_pos(bytes, hash_comments, i) <= bytes.len(),
{
    lemma_scans_advance(bytes, bytes[i], i + 1);
    lemma_scans_advance(bytes, bytes[i], i);
    if i + 2 <= bytes.len() {
        lemma_scans_advance(bytes, bytes[i], i + 2);
    }
}

/// The tokens of the source from byte `i` on.
pub open spec fn lex_from(bytes: Seq<u8>, hash_comments: bool, i: int) -> Seq<Lexeme>
    decreases bytes.len() - i,
{
    if i < 0 || i >= bytes.len() {
        seq![]
    } else {
        proof {
            lemma_next_pos(bytes, hash_comments, i);
        }
        let rest = lex_from(bytes, hash_comments, next_pos(bytes, hash_comments, i));
        match lexeme_at(bytes, hash_comments, i) {
            Some(l) => seq![l] + rest,
            None => rest,
        }
    }
}

/// The tokens of a whole source.
pub open spec fn lex(bytes: Seq<u8>, hash_comments: bool) -> Seq<Lexeme> {
    lex_from(bytes, hash_comments, 0)
}

/// Line and column (1-based) of byte `k`: a line feed starts a new line, and every
/// other character (the first byte of its encoding) moves one column to the right.
pub open spec fn pos_at(bytes: Seq<u8>, k: int) -> (int, int)
    decreases k,
{
    if k <= 0 {
        (1, 1)
    } else {
        let p = pos_at(bytes, k - 1);
        let b = bytes[k - 1];
        if b == 0x0a {
            (p.0 + 1, 1)
        } else if is_continuation_byte(b) {
            p
        } else {
            (p.0, p.1 + 1)
        }
    }
}

proof fn lemma_pos_bounds(bytes: Seq<u8>, k: int)
    requires
        0 <= k,
    ensures
        1 <= pos_at(bytes, k).0 <= k + 1,
        1 <= pos_at(bytes, k).1 <= k + 1,
    decreases k,
{
    if k > 0 {
        lemma_pos_bounds(bytes, k - 1);
    }
}

/// A token agrees with a located lexeme of the source.
pub open spec fn token_matches(t: TokenView, l: Lexeme, bytes: Seq<u8>) -> bool {
    &&& t.kind == l.kind
    &&& t.offset == l.start
    &&& utf8(t.text) == bytes.subrange(l.text_start, l.text_end)
    &&& t.line == pos_at(bytes, l.start).0
    &&& t.column == pos_at(bytes, l.start).1
}

/// Tokens agree one by one with located lexemes.
pub open spec fn tokens_match(ts: Seq<Token>, ls: Seq<Lexeme>, bytes: Seq<u8>) -> bool {
    &&& ts.len() == ls.len()
    &&& forall|k: int| 0 <= k < ts.len() ==> token_matches(#[trigger] ts[k]@, ls[k], bytes)
}

/// After an ASCII byte there is always a character boundary.
pub proof fn lemma_ascii_next_boundary(bytes: Seq<u8>, i: int)
    requires
        valid_utf8(bytes),
        0 <= i < bytes.len(),
        bytes[i] < 0x80,
    ensures
        is_char_boundary(bytes, i + 1),
    decreases bytes.len(),
{
    let l = length_of_first_scalar(bytes);
    if i == 0 {
        assert(l == 1);
        assert(is_char_boundary(pop_first_scalar(bytes), 0));
    } else {
        assert(l >= 1);
        if i < l {
            assert(is_continuation_byte(bytes[i]));
        }
        let rest = pop_first_scalar(bytes);
        assert(rest[i - l] == bytes[i]);
        lemma_ascii_next_boundary(rest, i - l);
    }
}

/// A byte that is not a continuation byte starts a character.
proof fn lemma_boundary_at(bytes: Seq<u8>, i: int)
    requires
        valid_utf8(bytes),
        0 <= i <= bytes.len(),
        i < bytes.len() ==> !is_continuation_byte(bytes[i]),
    ensures
        is_char_boundary(bytes, i),
{
    if i < bytes.len() {
        is_char_boundary_iff_not_is_continuation_byte(bytes, i);
    } else {
        is_char_boundary_start_end_of_seq(bytes);
    }
}

/// The text of `source` between two character boundaries.
fn slice_text(source: &str, start: usize, end: usize) -> (s: String)
    requires
        start <= end <= source.spec_bytes().len(),
        is_char_boundary(source.spec_bytes(), start as int),
        is_char_boundary(source.spec_bytes(), end as int),
    ensures
        utf8(s@) == source.spec_bytes().subrange(start as int, end as int),
{
    let ghost bytes = source.spec_bytes();
    proof {
        encode_utf8_valid_utf8(source@);
    }
    let (head, _) = source.split_at(end);
    proof {
        let hb = head.spec_bytes();
        assert(hb == bytes.subrange(0, end as int));
        valid_utf8_split(bytes, end as int);
        if start < end {
            is_char_boundary_iff_not_is_continuation_byte(bytes, start as int);
            assert(hb[start as int] == bytes[start as int]);
            is_char_boundary_iff_not_is_continuation_byte(hb, start as int);
        } else {
            is_char_boundary_start_end_of_seq(hb);
        }
    }
    let (_, piece) = head.split_at(start);
    assert(piece.spec_bytes() =~= bytes.subrange(start as int, end as int));
    owned(piece)
}

/// Line and column after the bytes `from..to`, given those at `from`.
fn advance(bytes: &[u8], from: usize, to: usize, line: usize, column: usize) -> (r: (usize, usize))
    requires
        from <= to <= bytes@.len(),
        bytes@.len() < usize::MAX,
        (line as int, column as int) == pos_at(bytes@, from as int),
    ensures
        (r.0 as int, r.1 as int) == pos_at(bytes@, to as int),
{
    let mut k = from;
    let mut line = line;
    let mut column = column;
    while k < to
        invariant
            from <= k <= to,
            to <= bytes@.len(),
            bytes@.len() < usize::MAX,
            (line as int, column as int) == pos_at(bytes@, k as int),
        decreases to - k,
    {
        proof {
            lemma_pos_bounds(bytes@, k as int);
        }
        let b = bytes[k];
        if b == 0x0a {
            line = line + 1;
            column = 1;
        } else if !(0x80 <= b && b <= 0xbf) {
            column = column + 1;
        }
        k = k + 1;
    }
    (line, column)
}

/// Splits source text into tokens. Ordinary `//` and `/* */` comments (and `#`
/// comments where `hash_comments` holds) and ASCII whitespace produce no tokens;
/// quoted text becomes a `Literal`, or a `Dynamic` token when it holds an escape or
/// `${` or has no closing quote.
pub fn tokenize(source: &str, hash_comments: bool) -> (tokens: Vec<Token>)
    requires
        source.spec_bytes().len() < usize::MAX,
    ensures
        tokens_match(tokens@, lex(source.spec_bytes(), hash_comments), source.spec_bytes()),
{
    let bytes = source.as_bytes();
    let n = bytes.len();
    let ghost sb = bytes@;
    proof {
        encode_utf8_valid_utf8(source@);
        is_char_boundary_start_end_of_seq(sb);
    }
    let mut tokens: Vec<Token> = Vec::new();
    let mut i: usize = 0;
    let mut line: usize = 1;
    let mut column: usize = 1;
    let ghost mut done: Seq<Lexeme> = seq![];
    while i < n
        invariant
            sb == bytes@,
            sb == source.spec_bytes(),
            valid_utf8(sb),
            n == sb.len(),
            n < usize::MAX,
            i <= n,
            is_char_boundary(sb, i as int),
            (line as int, column as int) == pos_at(sb, i as int),
            done + lex_from(sb, hash_comments, i as int) == lex(sb, hash_comments),
            tokens_match(tokens@, done, sb),
        decreases n - i,
    {
        let b = bytes[i];
        let next: usize;
        // The token found here, as (kind, text start, text end).
        let mut found: Option<(Kind, usize, usize)> = None;
        proof {
            lemma_next_pos(sb, hash_comments, i as int);
            lemma_scans_advance(sb, b, i + 1);
        }
        if b == 0x20 || b == 0x09 || b == 0x0a || b == 0x0c || b == 0x0d {
            next = i + 1;
            proof {
                lemma_ascii_next_boundary(sb, i as int);
            }
        } else if (b == 0x2f && i + 1 < n && bytes[i + 1] == 0x2f) || (hash_comments && b == 0x23) {
            let mut j = i;
            while j < n && bytes[j] != 0x0a
                invariant
                    i <= j <= n,
                    n == sb.len(),
                    sb == bytes@,
                    line_end(sb, j as int) == line_end(sb, i as int),
                decreases n - j,
            {
                j = j + 1;
            }
            next = j;
            proof {
                lemma_boundary_at(sb, j as int);
            }
        } else if b == 0x2f && i + 1 < n && bytes[i + 1] == 0x2a {
            let mut j = i + 2;
            while j < n && !(bytes[j] == 0x2a && j + 1 < n && bytes[j + 1] == 0x2f)
                invariant
                    i + 2 <= j <= n,
                    n == sb.len(),
                    sb == bytes@,
                    block_end(sb, j as int) == block_end(sb, i + 2),
                decreases n - j,
            {
                j = j + 1;
            }
            if n >= 2 && j < n - 2 {
                next = j + 2;
                proof {
                    lemma_ascii_next_boundary(sb, j + 1);
                }
            } else {
                next = n;
            }
        } else if b == 0x27 || b == 0x22 || b == 0x60 {
            let q = b;
            let mut j = i + 1;
            let mut dynamic = false;
            while j < n && bytes[j] != q
                invariant
                    i + 1 <= j <= n,
                    n == sb.len(),
                    sb == bytes@,
                    quote_end(sb, q, j as int) == quote_end(sb, q, i + 1),
                    (dynamic || quote_dynamic(sb, q, j as int)) == quote_dynamic(sb, q, i + 1),
                decreases n - j,
            {
                if bytes[j] == 0x5c {
                    dynamic = true;
                    j = j + 1;
                    if j < n {
                        j = j + 1;
                    }
                } else {
                    if bytes[j] == 0x24 && j + 1 < n && bytes[j + 1] == 0x7b {
                        dynamic = true;
                    }
                    j = j + 1;
                }
            }
            let kind = if dynamic || j >= n {
                Kind::Dynamic
            } else {
                Kind::Literal
            };
            found = Some((kind, i + 1, j));
            proof {
                lemma_ascii_next_boundary(sb, i as int);
                lemma_boundary_at(sb, j as int);
            }
            if j < n {
                next = j + 1;
                proof {
                    lemma_ascii_next_boundary(sb, j as int);
                }
            } else {
                next = j;
            }
        } else if (0x30 <= b && b <= 0x39) || (0x41 <= b && b <= 0x5a) || (0x61 <= b && b <= 0x7a)
            || b == 0x5f || b == 0x24 || b >= 0x80 {
            let mut j = i + 1;
            while j < n && ((0x30 <= bytes[j] && bytes[j] <= 0x39) || (0x41 <= bytes[j] && bytes[j]
                <= 0x5a) || (0x61 <= bytes[j] && bytes[j] <= 0x7a) || bytes[j] == 0x5f || bytes[j]
                == 0x24 || bytes[j] >= 0x80)
                invariant
                    i + 1 <= j <= n,
                    n == sb.len(),
                    sb == bytes@,
                    word_end(sb, j as int) == word_end(sb, i + 1),
                decreases n - j,
            {
                j = j + 1;
            }
            found = Some((Kind::Word, i, j));
            next = j;
            proof {
                lemma_boundary_at(sb, j as int);
            }
        } else {
            found = Some((Kind::Symbol, i, i + 1));
            next = i + 1;
            proof {
                lemma_ascii_next_boundary(sb, i as int);
            }
        }
        proof {
            assert(next == next_pos(sb, hash_comments, i as int));
        }
        match found {
            Some((kind, text_start, text_end)) => {
                let text = slice_text(source, text_start, text_end);
                let ghost lexeme = lexeme_at(sb, hash_comments, i as int).unwrap();
                proof {
                    assert(lexeme_at(sb, hash_comments, i as int) is Some);
                    assert(lexeme.kind == kind);
                    assert(lexeme.text_start == text_start);
                    assert(lexeme.text_end == text_end);
                }
                let token = Token { text, kind, offset: i, line, column };
                let ghost prev_tokens = tokens@;
                tokens.push(token);
                proof {
                    let ghost new_done = done.push(lexeme);
                    assert(lex_from(sb, hash_comments, i as int) == seq![lexeme] + lex_from(
                        sb,
                        hash_comments,
                        next as int,
                    ));
                    assert(new_done + lex_from(sb, hash_comments, next as int) =~= done + lex_from(
                        sb,
                        hash_comments,
                        i as int,
                    ));
                    assert forall|k: int| 0 <= k < tokens@.len() implies token_matches(
                        #[trigger] tokens@[k]@,
                        new_done[k],
                        sb,
                    ) by {
                        if k < prev_tokens.len() {
                            assert(tokens@[k] == prev_tokens[k]);
                        }
                    }
                    done = new_done;
                }
            },
            None => {
                proof {
                    assert(lexeme_at(sb, hash_comments, i as int) is None);
                    assert(lex_from(sb, hash_comments, i as int) == lex_from(
                        sb,
                        hash_comments,
                        next as int,
                    ));
                }
            },
        }
        let (l, c) = advance(bytes, i, next, line, column);
        line = l;
        column = c;
        i = next;
    }
    proof {
        assert(lex_from(sb, hash_comments, i as int) =~= Seq::<Lexeme>::empty());
        assert(done =~= lex(sb, hash_comments));
    }
    tokens
}

} // verus!
