//! Locating the first occurrence of a delimiter in a text, by byte offsets.
use vstd::prelude::*;
use vstd::string::StringSliceAdditionalSpecFns;
use vstd::utf8::*;

verus! {

/// `pat` occurs in `text` starting at byte `i`.
pub open spec fn occurs_at(text: Seq<u8>, pat: Seq<u8>, i: int) -> bool {
    &&& 0 <= i
    &&& i + pat.len() <= text.len()
    &&& text.subrange(i, i + pat.len()) == pat
}

/// The least position at or after `i` where `pat` occurs in `text`.
/// An empty pattern occurs nowhere.
pub open spec fn first_occurrence_from(text: Seq<u8>, pat: Seq<u8>, i: int) -> Option<int>
    decreases text.len() - i,
{
    if pat.len() == 0 || i < 0 || i + pat.len() > text.len() {
        None
    } else if occurs_at(text, pat, i) {
        Some(i)
    } else {
        first_occurrence_from(text, pat, i + 1)
    }
}

/// Whether `pat` occurs in `text` at byte `i`.
fn bytes_match_at(text: &[u8], pat: &[u8], i: usize) -> (r: bool)
    requires
        i + pat@.len() <= text@.len(),
    ensures
        r == occurs_at(text@, pat@, i as int),
{
    let n = text.len();
    let m = pat.len();
    let mut j: usize = 0;
    while j < m
        invariant
            j <= m,
            m == pat@.len(),
            n == text@.len(),
            i + m <= text@.len(),
            forall|k: int| 0 <= k < j ==> text@[i + k] == pat@[k],
        decreases m - j,
    {
        if text[i + j] != pat[j] {
            assert(text@.subrange(i as int, i + m)[j as int] != pat@[j as int]);
            return false;
        }
        j += 1;
    }
    assert(text@.subrange(i as int, i + m) =~= pat@);
    true
}

/// The first position where `pat` occurs in `text`, scanning from the left.
fn find_bytes(text: &[u8], pat: &[u8]) -> (r: Option<usize>)
    ensures
        match r {
            Some(i) => first_occurrence_from(text@, pat@, 0) == Some(i as int),
            None => first_occurrence_from(text@, pat@, 0) is None,
        },
{
    let n = text.len();
    let m = pat.len();
    if m == 0 || m > n {
        return None;
    }
    let mut i: usize = 0;
    while i <= n - m
        invariant
            i <= n - m + 1,
            n == text@.len(),
            m == pat@.len(),
            0 < m <= n,
            first_occurrence_from(text@, pat@, 0) == first_occurrence_from(text@, pat@, i as int),
        decreases n - m + 1 - i,
    {
        if bytes_match_at(text, pat, i) {
            return Some(i);
        }
        i += 1;
    }
    None
}


/// The span of the first occurrence of `pat` in `text`, as byte offsets.
pub open spec fn literal_match(text: Seq<u8>, pat: Seq<u8>) -> Option<(int, int)> {
    match first_occurrence_from(text, pat, 0) {
        Some(i) => Some((i, i + pat.len())),
        None => None,
    }
}

/// A span, if there is one, lies within `text` and starts and ends on char boundaries.
pub open spec fn valid_match(text: Seq<u8>, m: Option<(int, int)>) -> bool {
    match m {
        Some((a, b)) => {
            &&& 0 <= a <= b <= text.len()
            &&& is_char_boundary(text, a)
            &&& is_char_boundary(text, b)
        },
        None => true,
    }
}

/// The same span with integer offsets.
pub open spec fn as_offsets(r: Option<(usize, usize)>) -> Option<(int, int)> {
    match r {
        Some((a, b)) => Some((a as int, b as int)),
        None => None,
    }
}

/// A position found by the scan is an occurrence, and no earlier position is one.
pub proof fn lemma_first_occurrence_from(text: Seq<u8>, pat: Seq<u8>, i: int)
    requires
        0 <= i,
    ensures
        match first_occurrence_from(text, pat, i) {
            Some(k) => {
                &&& i <= k
                &&& pat.len() > 0
                &&& occurs_at(text, pat, k)
                &&& forall|j: int| i <= j < k ==> !occurs_at(text, pat, j)
            },
            None => pat.len() > 0 ==> forall|j: int| i <= j ==> !occurs_at(text, pat, j),
        },
    decreases text.len() - i,
{
    if pat.len() == 0 || i < 0 || i + pat.len() > text.len() {
    } else if occurs_at(text, pat, i) {
    } else {
        lemma_first_occurrence_from(text, pat, i + 1);
    }
}

/// A valid prefix of a valid byte sequence ends on a char boundary.
proof fn lemma_valid_prefix_boundary(p: Seq<u8>, r: Seq<u8>)
    requires
        valid_utf8(p),
        valid_utf8(p + r),
    ensures
        is_char_boundary(p + r, p.len() as int),
    decreases p.len(),
{
    if p.len() > 0 {
        let rest = pop_first_scalar(p);
        assert(pop_first_scalar(p + r) =~= rest + r);
        lemma_valid_prefix_boundary(rest, r);
    }
}

/// Where a valid nonempty pattern occurs in a valid text, both ends of the occurrence are char
/// boundaries of the text.
pub proof fn lemma_occurrence_on_boundaries(text: Seq<u8>, pat: Seq<u8>, i: int)
    requires
        valid_utf8(text),
        valid_utf8(pat),
        pat.len() > 0,
        occurs_at(text, pat, i),
    ensures
        is_char_boundary(text, i),
        is_char_boundary(text, i + pat.len()),
{
    let m = pat.len() as int;
    let n = text.len() as int;
    assert(text[i] == pat[0]) by {
        assert(text.subrange(i, i + m)[0] == pat[0]);
    }
    is_char_boundary_iff_not_is_continuation_byte(pat, 0);
    is_char_boundary_iff_not_is_continuation_byte(text, i);
    if i + m == n {
        is_char_boundary_start_end_of_seq(text);
    } else {
        let tail = text.subrange(i, n);
        let after = text.subrange(i + m, n);
        valid_utf8_split(text, i);
        assert(tail =~= pat + after);
        lemma_valid_prefix_boundary(pat, after);
        is_char_boundary_iff_not_is_continuation_byte(tail, m);
        assert(tail[m] == text[i + m]);
        is_char_boundary_iff_not_is_continuation_byte(text, i + m);
    }
}

/// The first occurrence of a valid pattern in a valid text is a valid span.
pub proof fn lemma_literal_match_valid(text: Seq<u8>, pat: Seq<u8>)
    requires
        valid_utf8(text),
        valid_utf8(pat),
    ensures
        valid_match(text, literal_match(text, pat)),
{
    lemma_first_occurrence_from(text, pat, 0);
    if let Some(i) = first_occurrence_from(text, pat, 0) {
        lemma_occurrence_on_boundaries(text, pat, i);
    }
}

/// A strategy for locating the next split point in a text.
///
/// An implementation proves that the spans it reports lie on char boundaries, so a splitter
/// never has to check the offsets it is handed.
pub trait Delimiter {
    /// The span, in byte offsets, of the earliest occurrence of the delimiter in `text`.
    spec fn first_match(&self, text: Seq<u8>) -> Option<(int, int)>;

    /// In a valid UTF-8 text the span lies within the text and on char boundaries.
    proof fn lemma_first_match_valid(&self, text: Seq<u8>)
        requires
            valid_utf8(text),
        ensures
            valid_match(text, self.first_match(text)),
    ;

    /// Finds the earliest occurrence of the delimiter in `s`.
    fn find_next(&self, s: &str) -> (r: Option<(usize, usize)>)
        ensures
            as_offsets(r) == self.first_match(s.spec_bytes()),
    ;
}

/// A literal pattern: its first occurrence as a contiguous run of bytes.
/// The empty pattern matches nowhere.
impl<'p> Delimiter for &'p str {
    open spec fn first_match(&self, text: Seq<u8>) -> Option<(int, int)> {
        literal_match(text, self.spec_bytes())
    }

    proof fn lemma_first_match_valid(&self, text: Seq<u8>) {
        encode_utf8_valid_utf8(self@);
        lemma_literal_match_valid(text, self.spec_bytes());
    }

    fn find_next(&self, s: &str) -> (r: Option<(usize, usize)>) {
        let pat = self.as_bytes();
        let text = s.as_bytes();
        let n = text.len();
        match find_bytes(text, pat) {
            Some(i) => {
                proof {
                    lemma_first_occurrence_from(text@, pat@, 0);
                }
                assert(i + pat.len() <= n);
                Some((i, i + pat.len()))
            },
            None => None,
        }
    }
}


/// The UTF-8 encoding of a single char.
fn utf8_of(c: char) -> (r: Vec<u8>)
    ensures
        r@ == encode_utf8(seq![c]),
{
    proof {
        char_is_scalar(c);
        assert(encode_utf8(seq![c]) =~= encode_scalar(c as u32)) by {
            assert(seq![c].drop_first() =~= Seq::<char>::empty());
            reveal_with_fuel(encode_utf8, 2);
        }
    }
    let v = c as u32;
    if v <= 0x7F {
        vec![(v & 0x7F) as u8]
    } else if v <= 0x7FF {
        vec![0xC0 | ((v >> 6) & 0x1F) as u8, 0x80 | (v & 0x3F) as u8]
    } else if v <= 0xFFFF {
        vec![
            0xE0 | ((v >> 12) & 0x0F) as u8,
            0x80 | ((v >> 6) & 0x3F) as u8,
            0x80 | (v & 0x3F) as u8,
        ]
    } else {
        vec![
            0xF0 | ((v >> 18) & 0x7) as u8,
            0x80 | ((v >> 12) & 0x3F) as u8,
            0x80 | ((v >> 6) & 0x3F) as u8,
            0x80 | (v & 0x3F) as u8,
        ]
    }
}

/// A single char: its first occurrence as a whole codepoint. In valid UTF-8 the encoding of a
/// char can only occur where a codepoint starts, so this is the first char of the text equal to
/// it, and the span is as wide as its encoding.
impl Delimiter for char {
    open spec fn first_match(&self, text: Seq<u8>) -> Option<(int, int)> {
        literal_match(text, encode_utf8(seq![*self]))
    }

    proof fn lemma_first_match_valid(&self, text: Seq<u8>) {
        encode_utf8_valid_utf8(seq![*self]);
        lemma_literal_match_valid(text, encode_utf8(seq![*self]));
    }

    fn find_next(&self, s: &str) -> (r: Option<(usize, usize)>) {
        let pat = utf8_of(*self);
        let text = s.as_bytes();
        let n = text.len();
        match find_bytes(text, pat.as_slice()) {
            Some(i) => {
                proof {
                    lemma_first_occurrence_from(text@, pat@, 0);
                }
                assert(i + pat.len() <= n);
                Some((i, i + pat.len()))
            },
            None => None,
        }
    }
}

} // verus!
