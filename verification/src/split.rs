//! Splitting a document into its header and its record blocks.
//!
//! A block begins where a line begins with three dashes: the delimiter is a
//! line feed followed by `---`, and the line feed still belongs to what comes
//! before. The text before the first delimiter is the header. No character of
//! the document is changed or left out.

use vstd::prelude::*;
use vstd::slice::slice_subrange;
use crate::error::Error;
use crate::text::from_chars;
use crate::text::to_chars;

verus! {

/// A line feed followed by three dashes stands at index `i` of `s`.
pub open spec fn delimiter_at(s: Seq<char>, i: int) -> bool {
    &&& 0 <= i
    &&& i + 4 <= s.len()
    &&& s[i] == '\n'
    &&& s[i + 1] == '-'
    &&& s[i + 2] == '-'
    &&& s[i + 3] == '-'
}

/// The least index from `from` on at which a delimiter stands, or `s.len()`
/// when there is none.
pub open spec fn next_delimiter(s: Seq<char>, from: int) -> int
    decreases s.len() - from,
{
    if from >= s.len() {
        s.len() as int
    } else if delimiter_at(s, from) {
        from
    } else {
        next_delimiter(s, from + 1)
    }
}

/// `next_delimiter` points at a delimiter that no delimiter from `from` on
/// precedes, or past the end.
pub proof fn lemma_next_delimiter(s: Seq<char>, from: int)
    requires
        0 <= from <= s.len(),
    ensures
        from <= next_delimiter(s, from) <= s.len(),
        next_delimiter(s, from) < s.len() ==> delimiter_at(s, next_delimiter(s, from)),
        forall|j: int| from <= j < next_delimiter(s, from) ==> !delimiter_at(s, j),
    decreases s.len() - from,
{
    if from < s.len() && !delimiter_at(s, from) {
        lemma_next_delimiter(s, from + 1);
    }
}

/// Any index with the properties of `lemma_next_delimiter` is `next_delimiter`.
pub proof fn lemma_next_delimiter_is(s: Seq<char>, from: int, k: int)
    requires
        0 <= from <= k <= s.len(),
        k < s.len() ==> delimiter_at(s, k),
        forall|j: int| from <= j < k ==> !delimiter_at(s, j),
    ensures
        next_delimiter(s, from) == k,
{
    lemma_next_delimiter(s, from);
}

/// Where the segment that begins at `from` ends: behind the line feed of the
/// next delimiter, or at the end of the text.
pub open spec fn segment_end(s: Seq<char>, from: int) -> int {
    if next_delimiter(s, from) < s.len() {
        next_delimiter(s, from) + 1
    } else {
        s.len() as int
    }
}

/// The segments of `s` from index `from` on, in order.
pub open spec fn segments(s: Seq<char>, from: int) -> Seq<Seq<char>>
    decreases s.len() - from,
    via segments_decreases
{
    if 0 <= from < s.len() {
        seq![s.subrange(from, segment_end(s, from))] + segments(s, segment_end(s, from))
    } else {
        Seq::empty()
    }
}

#[via_fn]
proof fn segments_decreases(s: Seq<char>, from: int) {
    if 0 <= from < s.len() {
        lemma_next_delimiter(s, from);
    }
}

/// Splitting loses nothing: the segments from `from` on, put together again,
/// are the text from `from` on.
pub proof fn lemma_segments_concat(s: Seq<char>, from: int)
    requires
        0 <= from <= s.len(),
    ensures
        segments(s, from).flatten() == s.skip(from),
    decreases s.len() - from,
{
    if from < s.len() {
        lemma_next_delimiter(s, from);
        let e = segment_end(s, from);
        let segs = segments(s, from);
        lemma_segments_concat(s, e);
        assert(segs.drop_first() =~= segments(s, e));
    }
}

/// Splitting is lossless: the header and the blocks of a text, put together
/// again, are the text.
pub proof fn lemma_split_is_lossless(s: Seq<char>)
    ensures
        segments(s, 0).flatten() == s,
{
    lemma_segments_concat(s, 0);
}

/// The segment that begins at `from` is not empty; where another segment
/// follows, it ends with a line feed and the next one begins with `---`.
pub proof fn lemma_segment_shape(s: Seq<char>, from: int)
    requires
        0 <= from < s.len(),
    ensures
        from < segment_end(s, from) <= s.len(),
        segment_end(s, from) < s.len() ==> {
            &&& s[segment_end(s, from) - 1] == '\n'
            &&& s[segment_end(s, from)] == '-'
            &&& s[segment_end(s, from) + 1] == '-'
            &&& s[segment_end(s, from) + 2] == '-'
            &&& segment_end(s, from) + 3 <= s.len()
        },
{
    lemma_next_delimiter(s, from);
}

fn is_delimiter(s: &[char], i: usize) -> (r: bool)
    requires
        i <= s@.len(),
    ensures
        r == delimiter_at(s@, i as int),
{
    s.len() - i >= 4 && s[i] == '\n' && s[i + 1] == '-' && s[i + 2] == '-' && s[i + 3] == '-'
}

/// A document that is being split: the segments up to a position have been
/// handed out, those from it on are still to come.
pub struct SplitYaml {
    haystack: Vec<char>,
    index: usize,
}

impl SplitYaml {
    /// The text that is being split.
    pub closed spec fn text(&self) -> Seq<char> {
        self.haystack@
    }

    /// The index at which the next segment begins.
    pub closed spec fn position(&self) -> int {
        self.index as int
    }

    #[verifier::type_invariant]
    spec fn position_in_text(&self) -> bool {
        self.index <= self.haystack@.len()
    }

    /// Hands out the next segment: the text from the position up to and
    /// including the line feed of the next delimiter, or up to the end.
    ///
    /// Returns `None` once the whole text was handed out. Fails where the
    /// text ends without a line feed, when the last segment is asked for.
    pub fn next(&mut self) -> (r: Option<Result<String, Error>>)
        ensures
            final(self).text() == old(self).text(),
            old(self).position() <= final(self).position() <= old(self).text().len(),
            match r {
                None => {
                    &&& old(self).position() == old(self).text().len()
                    &&& final(self).position() == old(self).position()
                },
                Some(Ok(segment)) => {
                    &&& old(self).position() < old(self).text().len()
                    &&& final(self).position() == segment_end(
                        old(self).text(),
                        old(self).position(),
                    )
                    &&& old(self).position() < final(self).position()
                    &&& segment@ == old(self).text().subrange(
                        old(self).position(),
                        final(self).position(),
                    )
                    &&& segment@.last() == '\n'
                },
                Some(Err(e)) => {
                    &&& e == Error::StructuralParse
                    &&& old(self).position() < old(self).text().len()
                    &&& segment_end(old(self).text(), old(self).position()) == old(
                        self,
                    ).text().len()
                    &&& old(self).text().last() != '\n'
                    &&& final(self).position() == old(self).text().len()
                },
            },
    {
        proof {
            use_type_invariant(&*self);
        }
        let n = self.haystack.len();
        if self.index == n {
            return None;
        }
        let start = self.index;
        let mut i: usize = start;
        while i < n && !is_delimiter(self.haystack.as_slice(), i)
            invariant
                start <= i <= n,
                n == self.haystack@.len(),
                forall|j: int| start <= j < i ==> !delimiter_at(self.haystack@, j),
            decreases n - i,
        {
            i += 1;
        }
        proof {
            lemma_next_delimiter_is(self.haystack@, start as int, i as int);
        }
        let end: usize = if i < n {
            i + 1
        } else {
            n
        };
        self.index = end;
        if self.haystack[end - 1] != '\n' {
            Some(Err(Error::StructuralParse))
        } else {
            let segment = from_chars(slice_subrange(self.haystack.as_slice(), start, end));
            Some(Ok(segment))
        }
    }
}

/// Begins to split `string`: nothing has been handed out yet.
pub fn split_yaml(string: &str) -> (r: SplitYaml)
    ensures
        r.text() == string@,
        r.position() == 0,
{
    SplitYaml { haystack: to_chars(string), index: 0 }
}

} // verus!
