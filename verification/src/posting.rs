//! Postings: one entry per (term, document) pair, carrying per-field hit
//! counters, and the relevance score derived from them.

use vstd::prelude::*;

verus! {

/// Hit counters saturate at this cap instead of overflowing; a deliberate
/// ranking-precision limit, not a bug.
pub open spec fn sat255(n: nat) -> u8 {
    if n > 255 {
        255u8
    } else {
        n as u8
    }
}

/// A posting: links a term to one document, with how often the term was seen
/// in the document's title and in its description.
///
/// Two postings with the same `movie_index` describe the same document; the
/// counters are payload, not identity. `==` therefore compares `movie_index`
/// alone.
#[derive(Clone, Copy, Debug)]
pub struct MovieIndex {
    pub movie_index: usize,
    pub rank_title: u8,
    pub rank_desc: u8,
}

/// Relevance of one posting: description hits plus ten times title hits,
/// saturating at the counters' cap. Higher is better.
pub open spec fn rank_spec(m: MovieIndex) -> u8 {
    sat255((m.rank_desc + 10 * m.rank_title) as nat)
}

/// The posting for one document carried forward by an intersection step:
/// counters from both sides summed with saturation.
pub open spec fn combine_spec(a: MovieIndex, b: MovieIndex) -> MovieIndex {
    MovieIndex {
        movie_index: a.movie_index,
        rank_title: sat255((a.rank_title + b.rank_title) as nat),
        rank_desc: sat255((a.rank_desc + b.rank_desc) as nat),
    }
}

impl MovieIndex {
    /// A fresh posting for a document, with both counters at zero.
    pub fn new(movie_index: usize) -> (r: Self)
        ensures
            r == (MovieIndex { movie_index, rank_title: 0u8, rank_desc: 0u8 }),
    {
        MovieIndex { movie_index, rank_title: 0, rank_desc: 0 }
    }

    /// Count one more occurrence of the term in the document's description,
    /// saturating at the cap.
    pub fn seen_in_description(&mut self)
        ensures
            *final(self) == (MovieIndex {
                rank_desc: sat255((old(self).rank_desc + 1) as nat),
                ..*old(self)
            }),
    {
        if self.rank_desc < 255 {
            self.rank_desc = self.rank_desc + 1;
        }
    }

    /// Count one more occurrence of the term in the document's title,
    /// saturating at the cap.
    pub fn seen_in_title(&mut self)
        ensures
            *final(self) == (MovieIndex {
                rank_title: sat255((old(self).rank_title + 1) as nat),
                ..*old(self)
            }),
    {
        if self.rank_title < 255 {
            self.rank_title = self.rank_title + 1;
        }
    }

    /// The relevance score of this posting.
    pub fn rank(&self) -> (r: u8)
        ensures
            r == rank_spec(*self),
    {
        let s: u16 = (self.rank_desc as u16) + 10 * (self.rank_title as u16);
        if s > 255 {
            255
        } else {
            s as u8
        }
    }

    /// Merge the two postings one document got from the two sides of an
    /// intersection into the single posting carried forward.
    pub fn combine(a: &MovieIndex, b: &MovieIndex) -> (r: Self)
        requires
            a.movie_index == b.movie_index,
        ensures
            r == combine_spec(*a, *b),
    {
        let t: u16 = (a.rank_title as u16) + (b.rank_title as u16);
        let d: u16 = (a.rank_desc as u16) + (b.rank_desc as u16);
        MovieIndex {
            movie_index: a.movie_index,
            rank_title: if t > 255 {
                255
            } else {
                t as u8
            },
            rank_desc: if d > 255 {
                255
            } else {
                d as u8
            },
        }
    }
}

/// Rank monotonicity: of two postings that agree on description hits, the one
/// with at least as many title hits scores at least as high.
pub proof fn lemma_rank_monotone(a: MovieIndex, b: MovieIndex)
    requires
        a.rank_title >= b.rank_title,
        a.rank_desc == b.rank_desc,
    ensures
        rank_spec(a) >= rank_spec(b),
{
}

impl PartialEq for MovieIndex {
    /// Postings are compared by document identity alone.
    fn eq(&self, other: &Self) -> (r: bool) {
        self.movie_index == other.movie_index
    }
}

impl vstd::std_specs::cmp::PartialEqSpecImpl for MovieIndex {
    open spec fn obeys_eq_spec() -> bool {
        true
    }

    open spec fn eq_spec(&self, other: &Self) -> bool {
        self.movie_index == other.movie_index
    }
}

impl PartialOrd for MovieIndex {
    /// Postings are ordered by document identity alone; the counters are
    /// payload.
    fn partial_cmp(&self, other: &Self) -> (r: Option<core::cmp::Ordering>) {
        if self.movie_index < other.movie_index {
            Some(core::cmp::Ordering::Less)
        } else if self.movie_index == other.movie_index {
            Some(core::cmp::Ordering::Equal)
        } else {
            Some(core::cmp::Ordering::Greater)
        }
    }
}

impl vstd::std_specs::cmp::PartialOrdSpecImpl for MovieIndex {
    open spec fn obeys_partial_cmp_spec() -> bool {
        true
    }

    open spec fn partial_cmp_spec(&self, other: &Self) -> Option<core::cmp::Ordering> {
        if self.movie_index < other.movie_index {
            Some(core::cmp::Ordering::Less)
        } else if self.movie_index == other.movie_index {
            Some(core::cmp::Ordering::Equal)
        } else {
            Some(core::cmp::Ordering::Greater)
        }
    }
}

} // verus!
