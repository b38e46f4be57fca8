//! Trimming a pattern off one end of a text an exact number of times.
//!
//! "Start" and "end" (or "left" and "right") refer to positions in the sequence of characters,
//! not to a visual or reading direction: for a right-to-left script such as Arabic or Hebrew
//! the "right" end of the string is shown on the left.
//!
//! Each trimming step takes the match that stands at the current boundary and moves the
//! boundary past it. A match of length zero is taken once: the next step at the same boundary
//! finds no match, as a searcher that must make progress would report.
use vstd::prelude::*;

use crate::pattern::{Pattern, ReversePattern};

verus! {

/// What is left of `s` after `count` matches of `pat` are taken off its start, one right after
/// the other, or `None` where fewer than `count` of them stand there in a row. `after_empty`
/// says that the previous step took a match of length zero at the start of `s`.
pub open spec fn trim_start_steps<P: Pattern>(
    pat: P,
    s: Seq<char>,
    count: nat,
    after_empty: bool,
) -> Option<Seq<char>>
    decreases count,
{
    if count == 0 {
        Some(s)
    } else if after_empty {
        None
    } else {
        match pat.prefix_match(s) {
            Some(k) => if k <= s.len() {
                trim_start_steps(pat, s.skip(k as int), (count - 1) as nat, k == 0)
            } else {
                None
            },
            None => None,
        }
    }
}

/// What is left of `s` after `count` matches of `pat` are taken off its end, one right after
/// the other, or `None` where fewer than `count` of them stand there in a row. `after_empty`
/// says that the previous step took a match of length zero at the end of `s`.
pub open spec fn trim_end_steps<P: ReversePattern>(
    pat: P,
    s: Seq<char>,
    count: nat,
    after_empty: bool,
) -> Option<Seq<char>>
    decreases count,
{
    if count == 0 {
        Some(s)
    } else if after_empty {
        None
    } else {
        match pat.suffix_match(s) {
            Some(k) => if k <= s.len() {
                trim_end_steps(pat, s.take(s.len() - k), (count - 1) as nat, k == 0)
            } else {
                None
            },
            None => None,
        }
    }
}

/// `s` with exactly `count` matches of `pat` trimmed off its start, if that many follow one
/// another there.
pub open spec fn trim_start<P: Pattern>(pat: P, s: Seq<char>, count: nat) -> Option<Seq<char>> {
    trim_start_steps(pat, s, count, false)
}

/// `s` with exactly `count` matches of `pat` trimmed off its end, if that many precede one
/// another there.
pub open spec fn trim_end<P: ReversePattern>(pat: P, s: Seq<char>, count: nat) -> Option<
    Seq<char>,
> {
    trim_end_steps(pat, s, count, false)
}

/// Controlled trimming of prefixes and suffixes.
///
/// The methods trim a pattern only where it matches the given number of times in a row;
/// otherwise they return `Err` with the untrimmed text, never a partly trimmed one.
pub trait TrimMatchesExactlyExt: View<V = Seq<char>> {
    /// Returns the text with `count` matches of `pat` trimmed from its start, or `Err` with the
    /// untrimmed text where the pattern cannot be trimmed off that many times.
    ///
    /// # Text directionality
    ///
    /// A string is a sequence of bytes. 'Right' in this context means the last
    /// position of that byte string; for a language like Arabic or Hebrew
    /// which are 'right to left' rather than 'left to right', this will be
    /// the _left_ side, not the right.
    ///
    /// # Examples
    /// ```
    /// use trim_matches_exactly::TrimMatchesExactlyExt;
    /// assert_eq!(Ok("trimmed"), "not trimmed".trim_left_matches_exactly("not ", 1));
    /// assert_eq!(Err("not trimmed"), "not trimmed".trim_left_matches_exactly("very ", 1));
    /// assert_eq!(Ok("trimmed"), "tttrimmed".trim_left_matches_exactly('t', 2));
    /// ```
    fn trim_left_matches_exactly<'a, P: Pattern>(&'a self, pat: P, count: usize) -> (r: Result<
        &'a str,
        &'a str,
    >)
        ensures
            match trim_start(pat, self@, count as nat) {
                Some(rest) => r is Ok && r->Ok_0@ == rest,
                None => r is Err,
            },
            r matches Err(t) ==> t@ == self@,
    ;

    /// Returns the text with `count` matches of `pat` trimmed from its end, or `Err` with the
    /// untrimmed text where the pattern cannot be trimmed off that many times.
    ///
    /// # Text directionality
    ///
    /// A string is a sequence of bytes. 'Right' in this context means the last
    /// position of that byte string; for a language like Arabic or Hebrew
    /// which are 'right to left' rather than 'left to right', this will be
    /// the _left_ side, not the right.
    ///
    /// # Examples
    /// ```
    /// use trim_matches_exactly::TrimMatchesExactlyExt;
    /// assert_eq!(Ok("trim"), "trim me!".trim_right_matches_exactly(" me!", 1));
    /// assert_eq!(Err("trim me!"), "trim me!".trim_right_matches_exactly(" you!", 1));
    /// assert_eq!(Ok("trim"), "trimmm".trim_right_matches_exactly('m', 2));
    /// ```
    fn trim_right_matches_exactly<'a, P: ReversePattern>(&'a self, pat: P, count: usize) -> (r:
        Result<&'a str, &'a str>)
        ensures
            match trim_end(pat, self@, count as nat) {
                Some(rest) => r is Ok && r->Ok_0@ == rest,
                None => r is Err,
            },
            r matches Err(t) ==> t@ == self@,
    ;
}

impl TrimMatchesExactlyExt for str {
    fn trim_left_matches_exactly<'a, P: Pattern>(&'a self, pat: P, count: usize) -> (r: Result<
        &'a str,
        &'a str,
    >) {
        let n = self.unicode_len();
        let mut trim_idx: usize = 0;
        let mut after_empty = false;
        let mut i: usize = 0;
        assert(self@.skip(0) =~= self@);
        while i < count
            invariant
                n == self@.len(),
                trim_idx <= n,
                i <= count,
                trim_start(pat, self@, count as nat) == trim_start_steps(
                    pat,
                    self@.skip(trim_idx as int),
                    (count - i) as nat,
                    after_empty,
                ),
            decreases count - i,
        {
            if after_empty {
                return Err(self);
            }
            match pat.match_prefix(self, trim_idx) {
                Some(k) => {
                    proof {
                        pat.lemma_prefix_match_fits(self@.skip(trim_idx as int));
                        assert(self@.skip(trim_idx as int).skip(k as int) =~= self@.skip(
                            trim_idx + k,
                        ));
                    }
                    trim_idx = trim_idx + k;
                    after_empty = k == 0;
                },
                None => {
                    return Err(self);
                },
            }
            i += 1;
        }
        proof {
            assert(self@.skip(trim_idx as int) =~= self@.subrange(trim_idx as int, n as int));
        }
        Ok(self.substring_char(trim_idx, n))
    }

    fn trim_right_matches_exactly<'a, P: ReversePattern>(&'a self, pat: P, count: usize) -> (r:
        Result<&'a str, &'a str>) {
        let n = self.unicode_len();
        let mut trim_idx: usize = n;
        let mut after_empty = false;
        let mut i: usize = 0;
        assert(self@.take(n as int) =~= self@);
        while i < count
            invariant
                n == self@.len(),
                trim_idx <= n,
                i <= count,
                trim_end(pat, self@, count as nat) == trim_end_steps(
                    pat,
                    self@.take(trim_idx as int),
                    (count - i) as nat,
                    after_empty,
                ),
            decreases count - i,
        {
            if after_empty {
                return Err(self);
            }
            match pat.match_suffix(self, trim_idx) {
                Some(k) => {
                    proof {
                        pat.lemma_suffix_match_fits(self@.take(trim_idx as int));
                        assert(self@.take(trim_idx as int).take(trim_idx - k) =~= self@.take(
                            trim_idx - k,
                        ));
                    }
                    trim_idx = trim_idx - k;
                    after_empty = k == 0;
                },
                None => {
                    return Err(self);
                },
            }
            i += 1;
        }
        proof {
            assert(self@.take(trim_idx as int) =~= self@.subrange(0, trim_idx as int));
        }
        Ok(self.substring_char(0, trim_idx))
    }
}

} // verus!
