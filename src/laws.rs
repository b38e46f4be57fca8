//! Laws that hold of trimming for every text and every pattern they mention.
use vstd::prelude::*;

use crate::pattern::{Pattern, ReversePattern, ends_with, starts_with};
use crate::trim::{trim_end, trim_end_steps, trim_start, trim_start_steps};

verus! {

/// `b` holds the characters of `a` in reverse order.
pub open spec fn is_mirror(a: Seq<char>, b: Seq<char>) -> bool {
    &&& a.len() == b.len()
    &&& forall|i: int| 0 <= i < a.len() ==> #[trigger] a[i] == b[a.len() - 1 - i]
}

/// `s` reads the same backwards.
pub open spec fn is_palindrome(s: Seq<char>) -> bool {
    is_mirror(s, s)
}

/// `pat` matches at the start of a text exactly as it matches at the end of the reversed text.
pub open spec fn is_symmetric<P: ReversePattern>(pat: P) -> bool {
    forall|a: Seq<char>, b: Seq<char>|
        is_mirror(a, b) ==> #[trigger] pat.prefix_match(a) == #[trigger] pat.suffix_match(b)
}

/// With a count of zero, trimming from the start succeeds and returns the text unchanged.
pub proof fn lemma_zero_count_start<P: Pattern>(pat: P, t: Seq<char>)
    ensures
        trim_start(pat, t, 0) == Some(t),
{
}

/// With a count of zero, trimming from the end succeeds and returns the text unchanged.
pub proof fn lemma_zero_count_end<P: ReversePattern>(pat: P, t: Seq<char>)
    ensures
        trim_end(pat, t, 0) == Some(t),
{
}

/// Where `n` and `n + 1` steps both succeed, the last step took one match off what the first
/// `n` steps left.
proof fn lemma_start_step_after<P: Pattern>(pat: P, s: Seq<char>, n: nat, e: bool)
    requires
        trim_start_steps(pat, s, n, e) is Some,
        trim_start_steps(pat, s, n + 1, e) is Some,
    ensures
        ({
            let r = trim_start_steps(pat, s, n, e)->Some_0;
            &&& pat.prefix_match(r) matches Some(k)
            &&& k <= r.len()
            &&& trim_start_steps(pat, s, n + 1, e) == Some(r.skip(k as int))
        }),
    decreases n,
{
    let k = pat.prefix_match(s)->Some_0;
    if n > 0 {
        lemma_start_step_after(pat, s.skip(k as int), (n - 1) as nat, k == 0);
    } else {
        assert(trim_start_steps(pat, s.skip(k as int), 0, k == 0) == Some(s.skip(k as int)));
    }
}

/// Trimming one more time from the start either fails or takes one more match off what was
/// left, and so returns a strictly shorter text: it never returns the same result again. This
/// holds wherever the pattern does not match with length zero at the start of that result (an
/// empty literal at count zero is such a case).
pub proof fn lemma_one_more_start<P: Pattern>(pat: P, t: Seq<char>, n: nat)
    requires
        trim_start(pat, t, n) is Some,
        pat.prefix_match(trim_start(pat, t, n)->Some_0) != Some(0nat),
    ensures
        ({
            let r = trim_start(pat, t, n)->Some_0;
            trim_start(pat, t, n + 1) is None || {
                &&& pat.prefix_match(r) matches Some(k)
                &&& 0 < k <= r.len()
                &&& trim_start(pat, t, n + 1) == Some(r.skip(k as int))
                &&& r.skip(k as int).len() < r.len()
            }
        }),
{
    if trim_start(pat, t, n + 1) is Some {
        lemma_start_step_after(pat, t, n, false);
    }
}

/// Where `n` and `n + 1` steps both succeed, the last step took one match off the end of what
/// the first `n` steps left.
proof fn lemma_end_step_after<P: ReversePattern>(pat: P, s: Seq<char>, n: nat, e: bool)
    requires
        trim_end_steps(pat, s, n, e) is Some,
        trim_end_steps(pat, s, n + 1, e) is Some,
    ensures
        ({
            let r = trim_end_steps(pat, s, n, e)->Some_0;
            &&& pat.suffix_match(r) matches Some(k)
            &&& k <= r.len()
            &&& trim_end_steps(pat, s, n + 1, e) == Some(r.take(r.len() - k))
        }),
    decreases n,
{
    let k = pat.suffix_match(s)->Some_0;
    if n > 0 {
        lemma_end_step_after(pat, s.take(s.len() - k), (n - 1) as nat, k == 0);
    } else {
        let s1 = s.take(s.len() - k);
        assert(trim_end_steps(pat, s1, 0, k == 0) == Some(s1));
    }
}

/// Trimming one more time from the end either fails or takes one more match off what was
/// left, and so returns a strictly shorter text. This holds wherever the pattern does not
/// match with length zero at the end of that result.
pub proof fn lemma_one_more_end<P: ReversePattern>(pat: P, t: Seq<char>, n: nat)
    requires
        trim_end(pat, t, n) is Some,
        pat.suffix_match(trim_end(pat, t, n)->Some_0) != Some(0nat),
    ensures
        ({
            let r = trim_end(pat, t, n)->Some_0;
            trim_end(pat, t, n + 1) is None || {
                &&& pat.suffix_match(r) matches Some(k)
                &&& 0 < k <= r.len()
                &&& trim_end(pat, t, n + 1) == Some(r.take(r.len() - k))
                &&& r.take(r.len() - k).len() < r.len()
            }
        }),
{
    if trim_end(pat, t, n + 1) is Some {
        lemma_end_step_after(pat, t, n, false);
    }
}

/// What trimming from the start leaves is the text's own tail: a contiguous part of it that
/// reaches its end.
pub proof fn lemma_start_result_is_tail<P: Pattern>(pat: P, t: Seq<char>, n: nat)
    ensures
        trim_start(pat, t, n) matches Some(r) ==> r.len() <= t.len() && r == t.skip(
            t.len() - r.len(),
        ),
{
    lemma_start_steps_tail(pat, t, n, false);
}

proof fn lemma_start_steps_tail<P: Pattern>(pat: P, s: Seq<char>, n: nat, e: bool)
    ensures
        trim_start_steps(pat, s, n, e) matches Some(r) ==> r.len() <= s.len() && r == s.skip(
            s.len() - r.len(),
        ),
    decreases n,
{
    if n == 0 {
        assert(s.skip(0) =~= s);
    } else if !e {
        if let Some(k) = pat.prefix_match(s) {
            if k <= s.len() {
                let s1 = s.skip(k as int);
                lemma_start_steps_tail(pat, s1, (n - 1) as nat, k == 0);
                if let Some(r) = trim_start_steps(pat, s1, (n - 1) as nat, k == 0) {
                    assert(s1.skip(s1.len() - r.len()) =~= s.skip(s.len() - r.len()));
                }
            }
        }
    }
}

/// What trimming from the end leaves is the text's own head: a contiguous part of it that
/// begins at its start.
pub proof fn lemma_end_result_is_head<P: ReversePattern>(pat: P, t: Seq<char>, n: nat)
    ensures
        trim_end(pat, t, n) matches Some(r) ==> r.len() <= t.len() && r == t.take(r.len() as int),
{
    lemma_end_steps_head(pat, t, n, false);
}

proof fn lemma_end_steps_head<P: ReversePattern>(pat: P, s: Seq<char>, n: nat, e: bool)
    ensures
        trim_end_steps(pat, s, n, e) matches Some(r) ==> r.len() <= s.len() && r == s.take(
            r.len() as int,
        ),
    decreases n,
{
    if n == 0 {
        assert(s.take(s.len() as int) =~= s);
    } else if !e {
        if let Some(k) = pat.suffix_match(s) {
            if k <= s.len() {
                let s1 = s.take(s.len() - k);
                lemma_end_steps_head(pat, s1, (n - 1) as nat, k == 0);
                if let Some(r) = trim_end_steps(pat, s1, (n - 1) as nat, k == 0) {
                    assert(s1.take(r.len() as int) =~= s.take(r.len() as int));
                }
            }
        }
    }
}

/// Taking the same steps from the start of a text and from the end of its mirror image gives
/// mirrored results, or fails on both sides.
proof fn lemma_mirror_steps<P: ReversePattern>(
    pat: P,
    s1: Seq<char>,
    s2: Seq<char>,
    n: nat,
    e: bool,
)
    requires
        is_symmetric(pat),
        is_mirror(s1, s2),
    ensures
        match (trim_start_steps(pat, s1, n, e), trim_end_steps(pat, s2, n, e)) {
            (Some(a), Some(b)) => is_mirror(a, b),
            (None, None) => true,
            _ => false,
        },
    decreases n,
{
    if n > 0 && !e {
        assert(pat.prefix_match(s1) == pat.suffix_match(s2));
        if let Some(k) = pat.prefix_match(s1) {
            if k <= s1.len() {
                let a = s1.skip(k as int);
                let b = s2.take(s2.len() - k);
                assert forall|i: int| 0 <= i < a.len() implies #[trigger] a[i] == b[a.len() - 1
                    - i] by {
                    assert(s1[k + i] == s2[s1.len() - 1 - (k + i)]);
                }
                lemma_mirror_steps(pat, a, b, (n - 1) as nat, k == 0);
            }
        }
    }
}

/// Every single character is a symmetric pattern.
pub proof fn lemma_char_is_symmetric(c: char)
    ensures
        is_symmetric(c),
{
    assert forall|a: Seq<char>, b: Seq<char>| is_mirror(a, b) implies #[trigger] c.prefix_match(
        a,
    ) == #[trigger] c.suffix_match(b) by {
        if a.len() > 0 {
            assert(a[0] == b[a.len() - 1 - 0]);
        }
    }
}

/// A literal that reads the same backwards is a symmetric pattern.
pub proof fn lemma_palindrome_literal_is_symmetric(needle: &str)
    requires
        is_palindrome(needle@),
    ensures
        is_symmetric(needle),
{
    let w = needle@;
    let m = w.len();
    assert forall|a: Seq<char>, b: Seq<char>| is_mirror(a, b) implies #[trigger] needle.prefix_match(
        a,
    ) == #[trigger] needle.suffix_match(b) by {
        let l = a.len();
        if m <= l {
            if starts_with(a, w) {
                assert forall|i: int| 0 <= i < m implies #[trigger] b.skip(l - m)[i] == w[i] by {
                    assert(a[m - 1 - i] == b[l - 1 - (m - 1 - i)]);
                    assert(w[m - 1 - i] == w[m - 1 - (m - 1 - i)]);
                    assert(a.take(m as int)[m - 1 - i] == a[m - 1 - i]);
                }
                assert(b.skip(l - m) =~= w);
            }
            if ends_with(b, w) {
                assert forall|i: int| 0 <= i < m implies #[trigger] a.take(m as int)[i] == w[i] by {
                    assert(a[i] == b[l - 1 - i]);
                    assert(b.skip(l - m)[m - 1 - i] == b[l - m + (m - 1 - i)]);
                    assert(w[i] == w[m - 1 - i]);
                }
                assert(a.take(m as int) =~= w);
            }
        }
    }
}

/// For a symmetric pattern and a text that reads the same backwards, trimming `n` matches
/// from the start and from the end both succeed or both fail, and where they succeed the
/// results have equal length (each is the other reversed).
pub proof fn lemma_palindrome_symmetry<P: ReversePattern>(pat: P, t: Seq<char>, n: nat)
    requires
        is_symmetric(pat),
        is_palindrome(t),
    ensures
        trim_start(pat, t, n) is Some <==> trim_end(pat, t, n) is Some,
        trim_start(pat, t, n) matches Some(a) ==> a.len() == trim_end(pat, t, n)->Some_0.len(),
        trim_start(pat, t, n) matches Some(a) ==> is_mirror(a, trim_end(pat, t, n)->Some_0),
{
    lemma_mirror_steps(pat, t, t, n, false);
}

} // verus!
