//! What holds of a splitter over a run of successive advances.
use crate::delimiter::{literal_match, lemma_first_occurrence_from, Delimiter};
use crate::split::step;
use vstd::prelude::*;
use vstd::string::StringSliceAdditionalSpecFns;
use vstd::utf8::*;

verus! {

/// The items that `n` successive advances produce, starting from state `rest`.
pub open spec fn items<D: Delimiter>(d: D, rest: Option<Seq<u8>>, n: nat) -> Seq<
    Option<Seq<u8>>,
>
    decreases n,
{
    if n == 0 {
        seq![]
    } else {
        seq![step(d, rest).0] + items(d, step(d, rest).1, (n - 1) as nat)
    }
}

/// The state after `n` successive advances, starting from state `rest`.
pub open spec fn state_after<D: Delimiter>(d: D, rest: Option<Seq<u8>>, n: nat) -> Option<
    Seq<u8>,
>
    decreases n,
{
    if n == 0 {
        rest
    } else {
        state_after(d, step(d, rest).1, (n - 1) as nat)
    }
}

/// The delimiter text that one advance from state `rest` passes over.
pub open spec fn separator<D: Delimiter>(d: D, rest: Option<Seq<u8>>) -> Seq<u8> {
    match rest {
        Some(v) => match d.first_match(v) {
            Some((a, b)) => v.subrange(a, b),
            None => Seq::empty(),
        },
        None => Seq::empty(),
    }
}

/// The items of `n` successive advances joined in order, each followed by the delimiter text
/// that its advance passed over.
pub open spec fn rejoin<D: Delimiter>(d: D, rest: Option<Seq<u8>>, n: nat) -> Seq<u8>
    decreases n,
{
    if n == 0 {
        Seq::empty()
    } else {
        let item = match step(d, rest).0 {
            Some(v) => v,
            None => Seq::empty(),
        };
        item + separator(d, rest) + rejoin(d, step(d, rest).1, (n - 1) as nat)
    }
}

/// The text that a state still holds.
pub open spec fn held(rest: Option<Seq<u8>>) -> Seq<u8> {
    match rest {
        Some(v) => v,
        None => Seq::empty(),
    }
}

/// An exhausted splitter yields nothing and stays exhausted, however often it is advanced.
pub proof fn lemma_exhausted_yields_nothing<D: Delimiter>(d: D, n: nat)
    ensures
        state_after(d, None, n) is None,
        rejoin(d, None, n) == Seq::<u8>::empty(),
        forall|k: int| 0 <= k < n ==> items(d, None, n)[k] is None,
    decreases n,
{
    if n > 0 {
        lemma_exhausted_yields_nothing(d, (n - 1) as nat);
        lemma_items_len(d, None, (n - 1) as nat);
        assert(rejoin(d, None, n) =~= Seq::<u8>::empty());
        assert forall|k: int| 1 <= k < n implies items(d, None, n)[k] is None by {
            assert(items(d, None, n)[k] == items(d, None, (n - 1) as nat)[k - 1]);
        }
    }
}

/// The `k`-th item of a run is the item of one advance from the state after `k` advances.
pub proof fn lemma_item_at<D: Delimiter>(d: D, rest: Option<Seq<u8>>, n: nat, k: nat)
    requires
        k < n,
    ensures
        items(d, rest, n).len() == n,
        items(d, rest, n)[k as int] == step(d, state_after(d, rest, k)).0,
    decreases k,
{
    lemma_items_len(d, rest, n);
    if k > 0 {
        lemma_item_at(d, step(d, rest).1, (n - 1) as nat, (k - 1) as nat);
    }
}

/// A run of `n` advances yields `n` results.
pub proof fn lemma_items_len<D: Delimiter>(d: D, rest: Option<Seq<u8>>, n: nat)
    ensures
        items(d, rest, n).len() == n,
    decreases n,
{
    if n > 0 {
        lemma_items_len(d, step(d, rest).1, (n - 1) as nat);
    }
}

/// Once an advance yields nothing, every later advance yields nothing too.
pub proof fn lemma_termination_is_final<D: Delimiter>(
    d: D,
    rest: Option<Seq<u8>>,
    n: nat,
    k: nat,
    j: nat,
)
    requires
        k <= j < n,
        items(d, rest, n)[k as int] is None,
    ensures
        items(d, rest, n)[j as int] is None,
{
    lemma_item_at(d, rest, n, k);
    lemma_item_at(d, rest, n, j);
    lemma_state_after_add(d, rest, k, (j - k) as nat);
    assert(state_after(d, rest, k) is None);
    lemma_exhausted_yields_nothing(d, (j - k) as nat);
}

/// Advancing `k` and then `m` times is advancing `k + m` times.
pub proof fn lemma_state_after_add<D: Delimiter>(d: D, rest: Option<Seq<u8>>, k: nat, m: nat)
    ensures
        state_after(d, state_after(d, rest, k), m) == state_after(d, rest, k + m),
    decreases k,
{
    if k > 0 {
        lemma_state_after_add(d, step(d, rest).1, (k - 1) as nat, m);
    }
}

/// Over any run, the items rejoined with the delimiter text between them, followed by what is
/// left, give back the text the run started from.
pub proof fn lemma_rejoin_run<D: Delimiter>(d: D, v: Seq<u8>, n: nat)
    requires
        valid_utf8(v),
    ensures
        rejoin(d, Some(v), n) + held(state_after(d, Some(v), n)) == v,
    decreases n,
{
    if n == 0 {
        assert(rejoin(d, Some(v), n) + v =~= v);
    } else {
        d.lemma_first_match_valid(v);
        match d.first_match(v) {
            Some((a, b)) => {
                let after = v.subrange(b, v.len() as int);
                valid_utf8_split(v, b);
                lemma_rejoin_run(d, after, (n - 1) as nat);
                assert(rejoin(d, Some(v), n) + held(state_after(d, Some(v), n)) =~= v.subrange(0, a)
                    + v.subrange(a, b) + (rejoin(d, Some(after), (n - 1) as nat) + held(
                    state_after(d, Some(after), (n - 1) as nat),
                )));
                assert(v.subrange(0, a) + v.subrange(a, b) + after =~= v);
            },
            None => {
                lemma_exhausted_yields_nothing(d, (n - 1) as nat);
                assert(rejoin(d, Some(v), n) + held(state_after(d, Some(v), n)) =~= v);
            },
        }
    }
}

/// Reconstruction: once a splitter over `h` is exhausted, the items it yielded, rejoined in
/// order with the delimiter text that was matched between them, are exactly `h`.
pub proof fn lemma_reconstruction<D: Delimiter>(d: D, h: &str, n: nat)
    requires
        state_after(d, Some(h.spec_bytes()), n) is None,
    ensures
        rejoin(d, Some(h.spec_bytes()), n) == h.spec_bytes(),
{
    encode_utf8_valid_utf8(h@);
    lemma_rejoin_run(d, h.spec_bytes(), n);
    assert(rejoin(d, Some(h.spec_bytes()), n) + Seq::<u8>::empty() =~= rejoin(
        d,
        Some(h.spec_bytes()),
        n,
    ));
}

/// Where the delimiter does not occur in `h`, the splitter yields `h` itself and then nothing.
pub proof fn lemma_no_delimiter<D: Delimiter>(d: D, h: Seq<u8>, n: nat)
    requires
        d.first_match(h) is None,
        n >= 1,
    ensures
        items(d, Some(h), n)[0] == Some(h),
        forall|k: int| 1 <= k < n ==> items(d, Some(h), n)[k] is None,
        state_after(d, Some(h), n) is None,
{
    lemma_exhausted_yields_nothing(d, (n - 1) as nat);
    lemma_items_len(d, None, (n - 1) as nat);
    assert forall|k: int| 1 <= k < n implies items(d, Some(h), n)[k] is None by {
        assert(items(d, Some(h), n)[k] == items(d, None, (n - 1) as nat)[k - 1]);
    }
}

/// An empty text holds no occurrence of a literal pattern.
pub proof fn lemma_empty_text_has_no_literal_match(pat: Seq<u8>)
    ensures
        literal_match(Seq::empty(), pat) is None,
{
    lemma_first_occurrence_from(Seq::empty(), pat, 0);
}

/// Over an empty haystack a splitter yields a single empty item and then nothing. This holds
/// of every delimiter that does not match in an empty text, as neither a pattern nor a char
/// does.
pub proof fn lemma_empty_haystack<D: Delimiter>(d: D, n: nat)
    requires
        d.first_match(Seq::empty()) is None,
        n >= 1,
    ensures
        items(d, Some(Seq::empty()), n)[0] == Some(Seq::<u8>::empty()),
        forall|k: int| 1 <= k < n ==> items(d, Some(Seq::empty()), n)[k] is None,
        state_after(d, Some(Seq::empty()), n) is None,
{
    lemma_no_delimiter(d, Seq::empty(), n);
}

/// A char and the one-char pattern that spells it find the same span in every text.
pub proof fn lemma_char_matches_like_pattern(c: char, p: &str, text: Seq<u8>)
    requires
        p@ == seq![c],
    ensures
        c.first_match(text) == p.first_match(text),
{
}

/// A char and the one-char pattern that spells it split every text alike: the same items, in
/// the same order, and the same state after every advance.
pub proof fn lemma_char_splits_like_pattern(c: char, p: &str, rest: Option<Seq<u8>>, n: nat)
    requires
        p@ == seq![c],
    ensures
        items(c, rest, n) == items(p, rest, n),
        state_after(c, rest, n) == state_after(p, rest, n),
    decreases n,
{
    if n > 0 {
        if let Some(v) = rest {
            lemma_char_matches_like_pattern(c, p, v);
        }
        assert(step(c, rest) == step(p, rest));
        lemma_char_splits_like_pattern(c, p, step(c, rest).1, (n - 1) as nat);
    }
}

} // verus!
