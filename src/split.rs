//! The splitter: a state machine that yields the text between delimiter occurrences.
use crate::delimiter::Delimiter;
use vstd::prelude::*;
use vstd::string::StringSliceAdditionalSpecFns;
use vstd::utf8::*;

verus! {

/// One advance of a splitter. From what remains of the text (`None` once exhausted) it gives
/// the item produced and what remains afterwards: the text before the delimiter's first
/// occurrence and the text after it; or, where the delimiter does not occur, all that remains
/// as the last item; or, once exhausted, nothing.
pub open spec fn step<D: Delimiter>(
    d: D,
    rest: Option<Seq<u8>>,
) -> (Option<Seq<u8>>, Option<Seq<u8>>) {
    match rest {
        None => (None, None),
        Some(v) => match d.first_match(v) {
            Some((a, b)) => (Some(v.subrange(0, a)), Some(v.subrange(b, v.len() as int))),
            None => (Some(v), None),
        },
    }
}

/// The bytes of an item, if there is one.
pub open spec fn item_bytes(r: Option<&str>) -> Option<Seq<u8>> {
    match r {
        Some(s) => Some(s.spec_bytes()),
        None => None,
    }
}

/// The text before the first occurrence of the delimiter in `h`, or all of `h` where it does
/// not occur.
pub open spec fn first_segment<D: Delimiter>(d: D, h: Seq<u8>) -> Seq<u8> {
    match d.first_match(h) {
        Some((a, _)) => h.subrange(0, a),
        None => h,
    }
}

/// Splits a string slice at each occurrence of a delimiter. Every item it yields is a
/// sub-slice of the haystack; the last one is what follows the last occurrence, possibly empty.
pub struct StrSplit<'a, D> {
    remainder: Option<&'a str>,
    delimiter: D,
}

impl<'a, D> StrSplit<'a, D> {
    /// What remains to be split, as bytes; `None` once the last item has been yielded.
    pub closed spec fn rest(&self) -> Option<Seq<u8>> {
        match self.remainder {
            Some(r) => Some(r.spec_bytes()),
            None => None,
        }
    }

    /// The delimiter the splitter was made with.
    pub closed spec fn delimiter(&self) -> D {
        self.delimiter
    }

    /// A splitter over all of `haystack`.
    pub fn new(haystack: &'a str, delimiter: D) -> (r: Self)
        ensures
            r.rest() == Some(haystack.spec_bytes()),
            r.delimiter() == delimiter,
    {
        StrSplit { remainder: Some(haystack), delimiter }
    }
}

impl<'a, D: Delimiter> StrSplit<'a, D> {
    /// Yields the next item: the text up to the next occurrence of the delimiter, or, where
    /// there is none, all that remains; `None` once that last item has been yielded.
    pub fn next(&mut self) -> (r: Option<&'a str>)
        ensures
            (item_bytes(r), final(self).rest()) == step(old(self).delimiter(), old(self).rest()),
            final(self).delimiter() == old(self).delimiter(),
    {
        match self.remainder {
            Some(rem) => match self.delimiter.find_next(rem) {
                Some((start, end)) => {
                    proof {
                        encode_utf8_valid_utf8(rem@);
                        self.delimiter.lemma_first_match_valid(rem.spec_bytes());
                    }
                    let (before, _) = rem.split_at(start);
                    let (_, after) = rem.split_at(end);
                    self.remainder = Some(after);
                    Some(before)
                },
                None => {
                    self.remainder = None;
                    Some(rem)
                },
            },
            None => None,
        }
    }
}

/// The part of `s` before the first occurrence of `c`, or all of `s` where `c` does not occur.
pub fn until_char(s: &str, c: char) -> (r: &str)
    ensures
        r.spec_bytes() == first_segment(c, s.spec_bytes()),
{
    let mut split = StrSplit::new(s, c);
    split.next().unwrap()
}

} // verus!
