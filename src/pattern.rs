//! Patterns that the trimmer can match at either end of a text.
use vstd::prelude::*;

verus! {

/// Something that can be matched at the start of a text.
///
/// `prefix_match(s)` is the length of the match that stands at the very start of `s`, if one
/// does; the match covers `s[0..k]`.
pub trait Pattern {
    spec fn prefix_match(&self, s: Seq<char>) -> Option<nat>;

    /// A match never reaches past the end of the text.
    proof fn lemma_prefix_match_fits(&self, s: Seq<char>)
        ensures
            self.prefix_match(s) matches Some(k) ==> k <= s.len(),
    ;

    /// Looks for a match at character position `pos` of `text`.
    fn match_prefix(&self, text: &str, pos: usize) -> (r: Option<usize>)
        requires
            pos <= text@.len(),
        ensures
            match self.prefix_match(text@.skip(pos as int)) {
                Some(k) => r == Some(k as usize),
                None => r is None,
            },
    ;
}

/// A pattern that can also be matched at the end of a text.
///
/// `suffix_match(s)` is the length of the match that stands at the very end of `s`, if one
/// does; the match covers `s[s.len() - k..]`.
pub trait ReversePattern: Pattern {
    spec fn suffix_match(&self, s: Seq<char>) -> Option<nat>;

    /// A match never reaches past the start of the text.
    proof fn lemma_suffix_match_fits(&self, s: Seq<char>)
        ensures
            self.suffix_match(s) matches Some(k) ==> k <= s.len(),
    ;

    /// Looks for a match that ends at character position `end` of `text`.
    fn match_suffix(&self, text: &str, end: usize) -> (r: Option<usize>)
        requires
            end <= text@.len(),
        ensures
            match self.suffix_match(text@.take(end as int)) {
                Some(k) => r == Some(k as usize),
                None => r is None,
            },
    ;
}

/// Whether `needle` is the first `needle.len()` characters of `s`.
pub open spec fn starts_with(s: Seq<char>, needle: Seq<char>) -> bool {
    needle.len() <= s.len() && s.take(needle.len() as int) == needle
}

/// Whether `needle` is the last `needle.len()` characters of `s`.
pub open spec fn ends_with(s: Seq<char>, needle: Seq<char>) -> bool {
    needle.len() <= s.len() && s.skip(s.len() - needle.len()) == needle
}

impl Pattern for char {
    open spec fn prefix_match(&self, s: Seq<char>) -> Option<nat> {
        if s.len() > 0 && s[0] == *self {
            Some(1)
        } else {
            None
        }
    }

    proof fn lemma_prefix_match_fits(&self, s: Seq<char>) {
    }

    fn match_prefix(&self, text: &str, pos: usize) -> (r: Option<usize>) {
        let n = text.unicode_len();
        if pos < n && text.get_char(pos) == *self {
            Some(1)
        } else {
            None
        }
    }
}

impl ReversePattern for char {
    open spec fn suffix_match(&self, s: Seq<char>) -> Option<nat> {
        if s.len() > 0 && s.last() == *self {
            Some(1)
        } else {
            None
        }
    }

    proof fn lemma_suffix_match_fits(&self, s: Seq<char>) {
    }

    fn match_suffix(&self, text: &str, end: usize) -> (r: Option<usize>) {
        if end > 0 && text.get_char(end - 1) == *self {
            Some(1)
        } else {
            None
        }
    }
}

/// A literal substring matches where the text holds exactly its characters.
///
/// The empty string matches, with length zero, everywhere.
impl<'b> Pattern for &'b str {
    open spec fn prefix_match(&self, s: Seq<char>) -> Option<nat> {
        if starts_with(s, self@) {
            Some(self@.len())
        } else {
            None
        }
    }

    proof fn lemma_prefix_match_fits(&self, s: Seq<char>) {
    }

    fn match_prefix(&self, text: &str, pos: usize) -> (r: Option<usize>) {
        let m = self.unicode_len();
        let n = text.unicode_len();
        if m > n - pos {
            return None;
        }
        let mut j: usize = 0;
        while j < m
            invariant
                m == self@.len(),
                n == text@.len(),
                pos + m <= n,
                j <= m,
                forall|i: int| 0 <= i < j ==> text@[pos + i] == self@[i],
            decreases m - j,
        {
            if text.get_char(pos + j) != self.get_char(j) {
                assert(text@.skip(pos as int).take(m as int)[j as int] != self@[j as int]);
                return None;
            }
            j += 1;
        }
        assert(text@.skip(pos as int).take(m as int) =~= self@);
        Some(m)
    }
}

impl<'b> ReversePattern for &'b str {
    open spec fn suffix_match(&self, s: Seq<char>) -> Option<nat> {
        if ends_with(s, self@) {
            Some(self@.len())
        } else {
            None
        }
    }

    proof fn lemma_suffix_match_fits(&self, s: Seq<char>) {
    }

    fn match_suffix(&self, text: &str, end: usize) -> (r: Option<usize>) {
        let m = self.unicode_len();
        if m > end {
            return None;
        }
        let start = end - m;
        let mut j: usize = 0;
        while j < m
            invariant
                m == self@.len(),
                end <= text@.len(),
                start + m == end,
                j <= m,
                forall|i: int| 0 <= i < j ==> text@[start + i] == self@[i],
            decreases m - j,
        {
            if text.get_char(start + j) != self.get_char(j) {
                assert(text@.take(end as int).skip(start as int)[j as int] != self@[j as int]);
                return None;
            }
            j += 1;
        }
        assert(text@.take(end as int).skip(start as int) =~= self@);
        Some(m)
    }
}

/// A set of characters matches one character that belongs to it.
impl<'b> Pattern for &'b [char] {
    open spec fn prefix_match(&self, s: Seq<char>) -> Option<nat> {
        if s.len() > 0 && self@.contains(s[0]) {
            Some(1)
        } else {
            None
        }
    }

    proof fn lemma_prefix_match_fits(&self, s: Seq<char>) {
    }

    fn match_prefix(&self, text: &str, pos: usize) -> (r: Option<usize>) {
        let n = text.unicode_len();
        if pos < n && contains_char(self, text.get_char(pos)) {
            Some(1)
        } else {
            None
        }
    }
}

impl<'b> ReversePattern for &'b [char] {
    open spec fn suffix_match(&self, s: Seq<char>) -> Option<nat> {
        if s.len() > 0 && self@.contains(s.last()) {
            Some(1)
        } else {
            None
        }
    }

    proof fn lemma_suffix_match_fits(&self, s: Seq<char>) {
    }

    fn match_suffix(&self, text: &str, end: usize) -> (r: Option<usize>) {
        if end > 0 && contains_char(self, text.get_char(end - 1)) {
            Some(1)
        } else {
            None
        }
    }
}

/// Whether `c` is one of the characters of `set`.
fn contains_char(set: &[char], c: char) -> (r: bool)
    ensures
        r == set@.contains(c),
{
    let mut i: usize = 0;
    while i < set.len()
        invariant
            i <= set@.len(),
            forall|j: int| 0 <= j < i ==> set@[j] != c,
        decreases set@.len() - i,
    {
        if set[i] == c {
            return true;
        }
        i += 1;
    }
    false
}

} // verus!
