//! The inverted-index search engine: posting-list storage behind a small map
//! interface, the index builder, galloping intersection of posting lists, and
//! query evaluation with relevance ranking. A brute-force engine that scans
//! every document serves as a correctness oracle.

use vstd::prelude::*;
use vstd::multiset::Multiset;

use crate::posting::MovieIndex;
use crate::posting::combine_spec;
use crate::posting::rank_spec;
use crate::posting::sat255;
use crate::text::count_word;
use crate::text::has_tab;
use crate::text::lemma_count_word_push;
use crate::text::lemma_norm_prefix_push;
use crate::text::lemma_views_of_push;
use crate::text::norm_prefix;
use crate::text::norm_words;
use crate::text::normalize_spec;
use crate::text::views_of;
use crate::text::words_of;
use crate::text::find_tab;
use crate::text::prepare_word;
use crate::text::split_words;

verus! {

/// A posting list in proper form: document ids strictly ascending.
pub open spec fn ascending_ids(s: Seq<MovieIndex>) -> bool {
    forall|i: int, j: int| 0 <= i < j < s.len() ==> s[i].movie_index < s[j].movie_index
}

/// Every document id in `s` lies below `n`.
pub open spec fn ids_below(s: Seq<MovieIndex>, n: nat) -> bool {
    forall|i: int| 0 <= i < s.len() ==> (#[trigger] s[i].movie_index) < n
}

/// Whether the posting list `a` has an entry for document `d`.
pub open spec fn has_doc(a: Seq<MovieIndex>, d: usize) -> bool {
    exists|i: int| 0 <= i < a.len() && a[i].movie_index == d
}

/// The entry of posting list `a` for document `d` (unique when the ids of
/// `a` are strictly ascending).
pub open spec fn posting_for(a: Seq<MovieIndex>, d: usize) -> MovieIndex {
    a[choose|i: int| 0 <= i < a.len() && a[i].movie_index == d]
}

/// The intersection of two posting lists: for each entry of `b` whose
/// document also has an entry in `a`, the two entries combined into one,
/// in the order of `b`.
pub open spec fn intersect_postings(a: Seq<MovieIndex>, b: Seq<MovieIndex>) -> Seq<MovieIndex>
    decreases b.len(),
{
    if b.len() == 0 {
        Seq::<MovieIndex>::empty()
    } else {
        let pre = intersect_postings(a, b.drop_last());
        let x = b.last();
        if has_doc(a, x.movie_index) {
            pre.push(combine_spec(x, posting_for(a, x.movie_index)))
        } else {
            pre
        }
    }
}

/// Extending the iterated side by one posting extends the intersection by
/// the combined posting exactly when the other side has its document.
pub proof fn lemma_intersect_push(a: Seq<MovieIndex>, b: Seq<MovieIndex>, x: MovieIndex)
    ensures
        intersect_postings(a, b.push(x)) == if has_doc(a, x.movie_index) {
            intersect_postings(a, b).push(combine_spec(x, posting_for(a, x.movie_index)))
        } else {
            intersect_postings(a, b)
        },
{
    assert(b.push(x).drop_last() =~= b);
}

/// Intersecting well-formed posting lists yields a well-formed posting list,
/// over the same documents or fewer.
pub proof fn lemma_intersect_wf(a: Seq<MovieIndex>, b: Seq<MovieIndex>, n: nat)
    requires
        ascending_ids(b),
        ids_below(b, n),
    ensures
        ascending_ids(intersect_postings(a, b)),
        ids_below(intersect_postings(a, b), n),
    decreases b.len(),
{
    if b.len() > 0 {
        let pre = intersect_postings(a, b.drop_last());
        let x = b.last();
        lemma_intersect_wf(a, b.drop_last(), n);
        lemma_intersect_wf(a, b.drop_last(), x.movie_index as nat);
        if has_doc(a, x.movie_index) {
            let c = combine_spec(x, posting_for(a, x.movie_index));
            assert forall|i: int, j: int|
                0 <= i < j < pre.push(c).len() implies pre.push(c)[i].movie_index < pre.push(
                c,
            )[j].movie_index by {
                if j == pre.len() {
                    assert(pre[i].movie_index < x.movie_index);
                }
            }
        }
    }
}

/// Binary search for the entry of document `d` within the index window
/// `[lo, hi)` of the posting list `a`.
fn probe_movie(a: &[MovieIndex], lo: usize, hi: usize, d: usize) -> (r: Option<usize>)
    requires
        ascending_ids(a@),
        lo <= hi <= a@.len(),
    ensures
        match r {
            Some(i) => lo <= i < hi && a@[i as int].movie_index == d,
            None => forall|k: int| lo <= k < hi ==> a@[k].movie_index != d,
        },
{
    let mut l = lo;
    let mut h = hi;
    while l < h
        invariant
            ascending_ids(a@),
            lo <= l <= h <= hi <= a@.len(),
            forall|k: int| lo <= k < l ==> a@[k].movie_index != d,
            forall|k: int| h <= k < hi ==> a@[k].movie_index != d,
        decreases h - l,
    {
        let mid = l + (h - l) / 2;
        if a[mid].movie_index == d {
            return Some(mid);
        } else if a[mid].movie_index < d {
            proof {
                assert forall|k: int| lo <= k < mid + 1 implies a@[k].movie_index != d by {
                    if k < mid as int {
                        assert(a@[k].movie_index < a@[mid as int].movie_index);
                    }
                }
            }
            l = mid + 1;
        } else {
            proof {
                assert forall|k: int| mid <= k < hi implies a@[k].movie_index != d by {
                    if k > mid as int {
                        assert(a@[mid as int].movie_index < a@[k].movie_index);
                    }
                }
            }
            h = mid;
        }
    }
    None
}

/// Galloping intersection of posting lists: like the galloping search over
/// integers, but entries are matched by document id, and on a hit the two
/// entries are combined into the posting carried forward.
///
/// The length bound on `a` rules out overflow of the probe arithmetic; a
/// slice of multi-byte entries cannot come near half the address space.
pub fn galloping_search_movie(a: &[MovieIndex], b: &[MovieIndex]) -> (r: Vec<MovieIndex>)
    requires
        ascending_ids(a@),
        ascending_ids(b@),
        a@.len() < usize::MAX / 2,
    ensures
        r@ == intersect_postings(a@, b@),
{
    let mut result: Vec<MovieIndex> = Vec::new();
    let mut pointer_a: usize = 0;
    let mut j: usize = 0;
    while j < b.len()
        invariant
            ascending_ids(a@),
            ascending_ids(b@),
            a@.len() < usize::MAX / 2,
            j <= b@.len(),
            pointer_a <= a@.len(),
            result@ == intersect_postings(a@, b@.take(j as int)),
            j < b@.len() ==> forall|k: int|
                0 <= k < pointer_a ==> a@[k].movie_index < b@[j as int].movie_index,
        decreases b@.len() - j,
    {
        let item = b[j];
        let d = item.movie_index;
        let mut step: usize = 1;
        while pointer_a + step < a.len() && a[pointer_a + step].movie_index < d
            invariant
                ascending_ids(a@),
                a@.len() < usize::MAX / 2,
                pointer_a <= a@.len(),
                1 <= step,
                step > 1 ==> pointer_a + step / 2 < a@.len() && a@[pointer_a
                    + step / 2].movie_index < d,
            decreases 2 * a@.len() - pointer_a - step,
        {
            step = step * 2;
        }
        let start = pointer_a + step / 2;
        let end = if pointer_a + step + 1 < a.len() {
            pointer_a + step + 1
        } else {
            a.len()
        };
        proof {
            assert(start <= end <= a@.len());
            assert forall|k: int| 0 <= k < start implies a@[k].movie_index < d by {
                if k >= pointer_a {
                    assert(step > 1);
                    assert(a@[start as int].movie_index < d);
                    assert(a@[k].movie_index < a@[start as int].movie_index);
                }
            }
            assert forall|k: int| end <= k < a@.len() implies a@[k].movie_index > d by {
                assert(pointer_a + step < a@.len());
                assert(a@[pointer_a + step].movie_index >= d);
                if k > pointer_a + step {
                    assert(a@[pointer_a + step].movie_index < a@[k].movie_index);
                }
            }
        }
        let found = probe_movie(a, start, end, d);
        proof {
            assert(b@.take(j + 1) =~= b@.take(j as int).push(b@[j as int]));
            lemma_intersect_push(a@, b@.take(j as int), b@[j as int]);
            if j + 1 < b@.len() {
                assert(b@[j as int].movie_index < b@[j + 1].movie_index);
            }
        }
        match found {
            Some(ai) => {
                proof {
                    assert(has_doc(a@, d));
                    let w = choose|i: int| 0 <= i < a@.len() && a@[i].movie_index == d;
                    assert(a@[ai as int].movie_index == d);
                    assert(w == ai as int);
                    assert(posting_for(a@, d) == a@[ai as int]);
                }
                let other = a[ai];
                let index = MovieIndex::combine(&item, &other);
                result.push(index);
                pointer_a = start;
            },
            None => {
                proof {
                    if has_doc(a@, d) {
                        let w = choose|i: int| 0 <= i < a@.len() && a@[i].movie_index == d;
                        assert(start <= w < end);
                    }
                }
                pointer_a = start;
            },
        }
        j = j + 1;
    }
    proof {
        assert(b@.take(b@.len() as int) =~= b@);
    }
    result
}

/// A fresh posting for document `d`: one hit, in the title or in the
/// description.
pub open spec fn fresh_posting(d: usize, in_title: bool) -> MovieIndex {
    MovieIndex {
        movie_index: d,
        rank_title: if in_title {
            1u8
        } else {
            0u8
        },
        rank_desc: if in_title {
            0u8
        } else {
            1u8
        },
    }
}

/// One more hit for an existing posting, in the title or in the description,
/// saturating at the counter cap.
pub open spec fn bump_posting(m: MovieIndex, in_title: bool) -> MovieIndex {
    if in_title {
        MovieIndex { rank_title: sat255((m.rank_title + 1) as nat), ..m }
    } else {
        MovieIndex { rank_desc: sat255((m.rank_desc + 1) as nat), ..m }
    }
}

/// What recording one occurrence of word `w` in document `d` does to the
/// posting-list map: create a one-entry list for an unknown word; append a
/// fresh posting when the word's list ends at an earlier document; bump the
/// counter when it already ends at `d`.
pub open spec fn upsert_spec(
    m: Map<Seq<char>, Seq<MovieIndex>>,
    w: Seq<char>,
    d: usize,
    in_title: bool,
) -> Map<Seq<char>, Seq<MovieIndex>> {
    if !m.contains_key(w) {
        m.insert(w, seq![fresh_posting(d, in_title)])
    } else if m[w].len() == 0 || m[w].last().movie_index != d {
        m.insert(w, m[w].push(fresh_posting(d, in_title)))
    } else {
        m.insert(w, m[w].update(m[w].len() - 1, bump_posting(m[w].last(), in_title)))
    }
}

/// Storage for posting lists: a map from normalized term to posting list,
/// independent of the backing structure.
pub trait MapTrait: Sized {
    /// The mathematical map this store holds.
    spec fn model(&self) -> Map<Seq<char>, Seq<MovieIndex>>;

    /// The store's internal invariant.
    spec fn wf(&self) -> bool;

    fn new() -> (r: Self)
        ensures
            r.wf(),
            r.model() == Map::<Seq<char>, Seq<MovieIndex>>::empty(),
    ;

    fn get<'a>(&'a self, key: &String) -> (r: Option<&'a Vec<MovieIndex>>)
        requires
            self.wf(),
        ensures
            match r {
                Some(v) => self.model().contains_key(key@) && v@ == self.model()[key@],
                None => !self.model().contains_key(key@),
            },
    ;

    fn insert(&mut self, key: String, value: Vec<MovieIndex>)
        requires
            old(self).wf(),
        ensures
            final(self).wf(),
            final(self).model() == old(self).model().insert(key@, value@),
    ;

    fn upsert(&mut self, key: &String, d: usize, in_title: bool)
        requires
            old(self).wf(),
        ensures
            final(self).wf(),
            final(self).model() == upsert_spec(old(self).model(), key@, d, in_title),
    ;
}

struct TermMapEntry {
    key: String,
    postings: Vec<MovieIndex>,
}

/// Posting-list storage backed by a flat list of key/list pairs with unique
/// keys. Lookup is a linear scan; with it the whole store is verified.
pub struct TermMap {
    entries: Vec<TermMapEntry>,
}

/// The map a prefix of the entry list denotes.
spec fn entries_model(s: Seq<TermMapEntry>) -> Map<Seq<char>, Seq<MovieIndex>>
    decreases s.len(),
{
    if s.len() == 0 {
        Map::<Seq<char>, Seq<MovieIndex>>::empty()
    } else {
        entries_model(s.drop_last()).insert(s.last().key@, s.last().postings@)
    }
}

/// Unique keys over a prefix of the entry list.
spec fn entries_wf(s: Seq<TermMapEntry>) -> bool {
    forall|i: int, j: int| 0 <= i < j < s.len() ==> s[i].key@ != s[j].key@
}

/// With unique keys, the denoted map holds exactly the listed keys, each
/// with its listed posting list.
proof fn lemma_entries_model_lookup(s: Seq<TermMapEntry>, w: Seq<char>)
    requires
        entries_wf(s),
    ensures
        entries_model(s).contains_key(w) <==> exists|i: int| 0 <= i < s.len() && s[i].key@ == w,
        forall|i: int|
            0 <= i < s.len() && s[i].key@ == w ==> entries_model(s)[w] == #[trigger] s[i].postings@,
    decreases s.len(),
{
    if s.len() > 0 {
        lemma_entries_model_lookup(s.drop_last(), w);
        assert(entries_wf(s.drop_last()));
        if entries_model(s).contains_key(w) {
            if s.last().key@ != w {
                let i = choose|i: int| 0 <= i < s.drop_last().len() && s.drop_last()[i].key@ == w;
                assert(s[i].key@ == w);
            } else {
                assert(s[s.len() - 1].key@ == w);
            }
        }
        if exists|i: int| 0 <= i < s.len() && s[i].key@ == w {
            let i = choose|i: int| 0 <= i < s.len() && s[i].key@ == w;
            if i < s.len() - 1 {
                assert(s.drop_last()[i].key@ == w);
            }
        }
        assert forall|i: int| 0 <= i < s.len() && s[i].key@ == w implies entries_model(s)[w]
            == #[trigger] s[i].postings@ by {
            if i < s.len() - 1 {
                assert(s.drop_last()[i].key@ == w);
                assert(s.last().key@ != w);
                assert(entries_model(s.drop_last())[w] == s.drop_last()[i].postings@);
            }
        }
    }
}

/// Replacing the posting list of one entry updates the denoted map at that
/// entry's key alone.
proof fn lemma_entries_model_update(s: Seq<TermMapEntry>, i: int, e: TermMapEntry)
    requires
        entries_wf(s),
        0 <= i < s.len(),
        e.key@ == s[i].key@,
    ensures
        entries_wf(s.update(i, e)),
        entries_model(s.update(i, e)) == entries_model(s).insert(e.key@, e.postings@),
    decreases s.len(),
{
    let s2 = s.update(i, e);
    if i == s.len() - 1 {
        assert(s2.drop_last() =~= s.drop_last());
        assert(s2.last() == e);
        assert(entries_model(s2) =~= entries_model(s).insert(e.key@, e.postings@));
    } else {
        lemma_entries_model_update(s.drop_last(), i, e);
        assert(s2.drop_last() =~= s.drop_last().update(i, e));
        assert(s2.last() == s.last());
        assert(entries_model(s2) == entries_model(s.drop_last().update(i, e)).insert(
            s.last().key@,
            s.last().postings@,
        ));
        assert(e.key@ != s.last().key@);
        assert(entries_model(s2) =~= entries_model(s).insert(e.key@, e.postings@));
    }
}

impl MapTrait for TermMap {
    closed spec fn model(&self) -> Map<Seq<char>, Seq<MovieIndex>> {
        entries_model(self.entries@)
    }

    closed spec fn wf(&self) -> bool {
        entries_wf(self.entries@)
    }

    fn new() -> (r: Self) {
        TermMap { entries: Vec::new() }
    }

    fn get<'a>(&'a self, key: &String) -> (r: Option<&'a Vec<MovieIndex>>) {
        proof {
            lemma_entries_model_lookup(self.entries@, key@);
        }
        let n = self.entries.len();
        let mut i: usize = 0;
        while i < n
            invariant
                self.wf(),
                n == self.entries@.len(),
                i <= n,
                forall|k: int| 0 <= k < i ==> self.entries@[k].key@ != key@,
            decreases n - i,
        {
            let e = &self.entries[i];
            if e.key.eq(key) {
                proof {
                    lemma_entries_model_lookup(self.entries@, key@);
                }
                return Some(&e.postings);
            }
            i = i + 1;
        }
        None
    }

    fn insert(&mut self, key: String, value: Vec<MovieIndex>) {
        let n = self.entries.len();
        let mut i: usize = 0;
        while i < n
            invariant
                self.wf(),
                self == old(self),
                n == self.entries@.len(),
                i <= n,
                forall|k: int| 0 <= k < i ==> self.entries@[k].key@ != key@,
            decreases n - i,
        {
            if self.entries[i].key.eq(&key) {
                let ghost old_entries = self.entries@;
                let e = &mut self.entries[i];
                e.postings = value;
                proof {
                    lemma_entries_model_update(old_entries, i as int, self.entries@[i as int]);
                }
                return ;
            }
            i = i + 1;
        }
        proof {
            assert(self.entries@.push(TermMapEntry { key: key, postings: value }).drop_last()
                =~= self.entries@);
        }
        self.entries.push(TermMapEntry { key, postings: value });
    }

    fn upsert(&mut self, key: &String, d: usize, in_title: bool) {
        proof {
            lemma_entries_model_lookup(self.entries@, key@);
        }
        let fresh = MovieIndex {
            movie_index: d,
            rank_title: if in_title {
                1
            } else {
                0
            },
            rank_desc: if in_title {
                0
            } else {
                1
            },
        };
        let n = self.entries.len();
        let mut i: usize = 0;
        while i < n
            invariant
                self.wf(),
                self == old(self),
                n == self.entries@.len(),
                i <= n,
                fresh == fresh_posting(d, in_title),
                forall|k: int| 0 <= k < i ==> self.entries@[k].key@ != key@,
            decreases n - i,
        {
            if self.entries[i].key.eq(key) {
                proof {
                    lemma_entries_model_lookup(self.entries@, key@);
                }
                let ghost old_entries = self.entries@;
                let ghost old_list = self.entries@[i as int].postings@;
                let e = &mut self.entries[i];
                let len = e.postings.len();
                if len == 0 || e.postings[len - 1].movie_index != d {
                    e.postings.push(fresh);
                } else {
                    let mut p = e.postings[len - 1];
                    if in_title {
                        p.seen_in_title();
                    } else {
                        p.seen_in_description();
                    }
                    proof {
                        assert(p == bump_posting(old_list.last(), in_title));
                        assert(old_list.update(old_list.len() - 1, p) =~= old_list.drop_last().push(
                            p,
                        ));
                    }
                    e.postings[len - 1] = p;
                }
                proof {
                    lemma_entries_model_update(old_entries, i as int, self.entries@[i as int]);
                }
                return ;
            }
            i = i + 1;
        }
        let mut list: Vec<MovieIndex> = Vec::new();
        list.push(fresh);
        proof {
            assert(list@ =~= seq![fresh_posting(d, in_title)]);
        }
        let entry = TermMapEntry { key: key.clone(), postings: list };
        proof {
            assert(self.entries@.push(entry).drop_last() =~= self.entries@);
        }
        self.entries.push(entry);
    }
}

/// Position of the first tab character in `s`, or its length if none occurs.
pub open spec fn tab_pos(s: Seq<char>) -> int
    decreases s.len(),
{
    if s.len() == 0 {
        0
    } else if s[0] == '\t' {
        0
    } else {
        1 + tab_pos(s.drop_first())
    }
}

/// The first tab's position is wherever a tab stands with none before it.
pub proof fn lemma_tab_pos_at(s: Seq<char>, i: int)
    requires
        0 <= i < s.len(),
        s[i] == '\t',
        forall|k: int| 0 <= k < i ==> s[k] != '\t',
    ensures
        tab_pos(s) == i,
    decreases i,
{
    if i > 0 {
        assert(s[0] != '\t');
        assert(s.drop_first()[i - 1] == s[i]);
        assert forall|k: int| 0 <= k < i - 1 implies s.drop_first()[k] != '\t' by {
            assert(s.drop_first()[k] == s[k + 1]);
        }
        lemma_tab_pos_at(s.drop_first(), i - 1);
    }
}

/// The first tab's position lies within the string, or just past it.
pub proof fn lemma_tab_pos_bounds(s: Seq<char>)
    ensures
        0 <= tab_pos(s) <= s.len(),
    decreases s.len(),
{
    if s.len() > 0 && s[0] != '\t' {
        lemma_tab_pos_bounds(s.drop_first());
    }
}

/// A record's title: everything before its first tab.
pub open spec fn title_of(line: Seq<char>) -> Seq<char> {
    line.take(tab_pos(line))
}

/// A record's description stream: everything from its first tab on.
pub open spec fn rest_of(line: Seq<char>) -> Seq<char> {
    line.skip(tab_pos(line))
}

/// How often word `w` occurs in the normalized title tokens of a record.
pub open spec fn title_count(line: Seq<char>, w: Seq<char>) -> nat {
    count_word(norm_words(title_of(line)), w)
}

/// How often word `w` occurs in the normalized description tokens of a
/// record.
pub open spec fn desc_count(line: Seq<char>, w: Seq<char>) -> nat {
    count_word(norm_words(rest_of(line)), w)
}

/// The posting for document `d` whose counters saw `t` title hits and `c`
/// description hits, saturating at the cap.
pub open spec fn partial_posting(d: usize, t: nat, c: nat) -> MovieIndex {
    MovieIndex { movie_index: d, rank_title: sat255(t), rank_desc: sat255(c) }
}

/// The posting list the index owes word `w` over a corpus: one entry per
/// document in which `w` occurs, ascending by document id, with the
/// saturated per-field counts.
pub open spec fn postings_for(lines: Seq<Seq<char>>, w: Seq<char>) -> Seq<MovieIndex>
    decreases lines.len(),
{
    if lines.len() == 0 {
        Seq::<MovieIndex>::empty()
    } else {
        let pre = postings_for(lines.drop_last(), w);
        let t = title_count(lines.last(), w);
        let c = desc_count(lines.last(), w);
        if t + c > 0 {
            pre.push(partial_posting((lines.len() - 1) as usize, t, c))
        } else {
            pre
        }
    }
}

/// The posting lists the index owes are well-formed: ids strictly ascending
/// and below the corpus size.
pub proof fn lemma_postings_for_wf(lines: Seq<Seq<char>>, w: Seq<char>)
    requires
        lines.len() <= usize::MAX,
    ensures
        ascending_ids(postings_for(lines, w)),
        ids_below(postings_for(lines, w), lines.len() as nat),
    decreases lines.len(),
{
    if lines.len() > 0 {
        lemma_postings_for_wf(lines.drop_last(), w);
        let pre = postings_for(lines.drop_last(), w);
        let t = title_count(lines.last(), w);
        let c = desc_count(lines.last(), w);
        if t + c > 0 {
            let p = partial_posting((lines.len() - 1) as usize, t, c);
            assert forall|i: int, j: int|
                0 <= i < j < pre.push(p).len() implies pre.push(p)[i].movie_index < pre.push(
                p,
            )[j].movie_index by {
                if j == pre.len() {
                    assert(pre[i].movie_index < lines.len() - 1);
                }
            }
        }
    }
}

/// The posting-list map holds exactly what the corpus owes: a list for each
/// word that occurs, and for each such word the owed list.
pub open spec fn index_models(m: Map<Seq<char>, Seq<MovieIndex>>, lines: Seq<Seq<char>>) -> bool {
    &&& (forall|w: Seq<char>| #[trigger]
        m.contains_key(w) ==> postings_for(lines, w).len() > 0)
    &&& (forall|w: Seq<char>| #![trigger postings_for(lines, w)]
        postings_for(lines, w).len() > 0 ==> m.contains_key(w))
    &&& (forall|w: Seq<char>| #[trigger] m.contains_key(w) ==> m[w] == postings_for(lines, w))
}

/// The map state in the middle of indexing document `d`: complete for the
/// documents before `d`, and extended per word by one partial posting for
/// `d` counting the title tokens `tws` and description tokens `dws` seen so
/// far.
pub open spec fn mid_models(
    m: Map<Seq<char>, Seq<MovieIndex>>,
    prev: Seq<Seq<char>>,
    d: usize,
    tws: Seq<Seq<char>>,
    dws: Seq<Seq<char>>,
) -> bool {
    &&& (forall|w: Seq<char>| #[trigger]
        m.contains_key(w) ==> postings_for(prev, w).len() > 0 || count_word(tws, w) + count_word(
            dws,
            w,
        ) > 0)
    &&& (forall|w: Seq<char>| #![trigger postings_for(prev, w)]
        postings_for(prev, w).len() > 0 ==> m.contains_key(w))
    &&& (forall|w: Seq<char>| #![trigger count_word(tws, w), count_word(dws, w)]
        count_word(tws, w) + count_word(dws, w) > 0 ==> m.contains_key(w))
    &&& (forall|w: Seq<char>| #[trigger]
        m.contains_key(w) ==> m[w] == (if count_word(tws, w) + count_word(dws, w) > 0 {
            postings_for(prev, w).push(
                partial_posting(d, count_word(tws, w), count_word(dws, w)),
            )
        } else {
            postings_for(prev, w)
        }))
}

/// A complete index is the mid-record state with nothing of the new record
/// counted yet.
proof fn lemma_mid_start(m: Map<Seq<char>, Seq<MovieIndex>>, lines: Seq<Seq<char>>, d: usize)
    requires
        index_models(m, lines),
    ensures
        mid_models(m, lines, d, Seq::<Seq<char>>::empty(), Seq::<Seq<char>>::empty()),
{
    reveal(Seq::filter);
    assert forall|w: Seq<char>|
        count_word(Seq::<Seq<char>>::empty(), w) == 0 by {
        assert(Seq::<Seq<char>>::empty().filter(|t: Seq<char>| t == w).len() == 0);
    }
}

/// Recording one word occurrence moves the mid-record state along by that
/// word.
proof fn lemma_upsert_mid(
    m: Map<Seq<char>, Seq<MovieIndex>>,
    prev: Seq<Seq<char>>,
    d: usize,
    tws: Seq<Seq<char>>,
    dws: Seq<Seq<char>>,
    nw: Seq<char>,
    in_title: bool,
)
    requires
        mid_models(m, prev, d, tws, dws),
        d == prev.len(),
    ensures
        mid_models(
            upsert_spec(m, nw, d, in_title),
            prev,
            d,
            if in_title {
                tws.push(nw)
            } else {
                tws
            },
            if in_title {
                dws
            } else {
                dws.push(nw)
            },
        ),
{
    lemma_postings_for_wf(prev, nw);
    let m2 = upsert_spec(m, nw, d, in_title);
    let tws2 = if in_title {
        tws.push(nw)
    } else {
        tws
    };
    let dws2 = if in_title {
        dws
    } else {
        dws.push(nw)
    };
    let tc = count_word(tws, nw);
    let dc = count_word(dws, nw);
    lemma_count_word_push(tws, nw, nw);
    lemma_count_word_push(dws, nw, nw);
    let tc2 = count_word(tws2, nw);
    let dc2 = count_word(dws2, nw);
    assert(tc2 + dc2 == tc + dc + 1);
    let postings = postings_for(prev, nw);
    let goal = postings.push(partial_posting(d, tc2, dc2));
    if !m.contains_key(nw) {
        assert(postings.len() == 0);
        assert(tc + dc == 0);
        assert(postings =~= Seq::<MovieIndex>::empty());
        assert(fresh_posting(d, in_title) == partial_posting(d, tc2, dc2));
        assert(m2[nw] =~= goal);
    } else if m[nw].len() == 0 || m[nw].last().movie_index != d {
        if tc + dc > 0 {
            assert(m[nw] == postings.push(partial_posting(d, tc, dc)));
            assert(m[nw].last().movie_index == d);
            assert(false);
        }
        assert(m[nw] == postings);
        assert(fresh_posting(d, in_title) == partial_posting(d, tc2, dc2));
        assert(m2[nw] == goal);
    } else {
        if tc + dc == 0 {
            assert(m[nw] == postings);
            assert(postings.len() > 0);
            assert(postings[postings.len() - 1].movie_index < d);
            assert(false);
        }
        assert(m[nw] == postings.push(partial_posting(d, tc, dc)));
        assert(m[nw].last() == partial_posting(d, tc, dc));
        assert(bump_posting(partial_posting(d, tc, dc), in_title) == partial_posting(d, tc2, dc2));
        assert(m2[nw] == m[nw].update(m[nw].len() - 1, partial_posting(d, tc2, dc2)));
        assert(m2[nw] =~= goal);
    }
    assert forall|w: Seq<char>| #[trigger]
        m2.contains_key(w) implies postings_for(prev, w).len() > 0 || count_word(tws2, w)
        + count_word(dws2, w) > 0 by {
        lemma_count_word_push(tws, nw, w);
        lemma_count_word_push(dws, nw, w);
        if w != nw {
            assert(m.contains_key(w));
        }
    }
    assert forall|w: Seq<char>| #![trigger postings_for(prev, w)]
        postings_for(prev, w).len() > 0 implies m2.contains_key(w) by {
        if w != nw {
            assert(m.contains_key(w));
        }
    }
    assert forall|w: Seq<char>| #![trigger count_word(tws2, w), count_word(dws2, w)]
        count_word(tws2, w) + count_word(dws2, w) > 0 implies m2.contains_key(w) by {
        lemma_count_word_push(tws, nw, w);
        lemma_count_word_push(dws, nw, w);
        if w != nw {
            assert(count_word(tws, w) + count_word(dws, w) > 0);
            assert(m.contains_key(w));
        }
    }
    assert forall|w: Seq<char>| #[trigger]
        m2.contains_key(w) implies m2[w] == (if count_word(tws2, w) + count_word(dws2, w) > 0 {
        postings_for(prev, w).push(partial_posting(d, count_word(tws2, w), count_word(dws2, w)))
    } else {
        postings_for(prev, w)
    }) by {
        lemma_count_word_push(tws, nw, w);
        lemma_count_word_push(dws, nw, w);
        if w != nw {
            assert(m.contains_key(w));
            assert(m2[w] == m[w]);
        } else {
            assert(m2[nw] == goal);
        }
    }
}

/// Once both token streams of a record are fully counted, the mid-record
/// state is the complete index over the corpus extended by that record.
proof fn lemma_mid_finish(
    m: Map<Seq<char>, Seq<MovieIndex>>,
    prev: Seq<Seq<char>>,
    d: usize,
    line: Seq<char>,
)
    requires
        mid_models(m, prev, d, norm_words(title_of(line)), norm_words(rest_of(line))),
        d == prev.len(),
    ensures
        index_models(m, prev.push(line)),
{
    let lines2 = prev.push(line);
    assert(lines2.drop_last() =~= prev);
    assert(lines2.last() == line);
    let tws = norm_words(title_of(line));
    let dws = norm_words(rest_of(line));
    assert forall|w: Seq<char>| #[trigger]
        m.contains_key(w) implies postings_for(lines2, w).len() > 0 by {
        assert(postings_for(lines2, w).len() > 0 || count_word(tws, w) + count_word(dws, w)
            > 0 ==> postings_for(lines2, w).len() > 0);
    }
    assert forall|w: Seq<char>| #![trigger postings_for(lines2, w)]
        postings_for(lines2, w).len() > 0 implies m.contains_key(w) by {
        if postings_for(prev, w).len() == 0 {
            assert(count_word(tws, w) + count_word(dws, w) > 0);
        }
    }
    assert forall|w: Seq<char>| #[trigger]
        m.contains_key(w) implies m[w] == postings_for(lines2, w) by {
        assert(title_count(line, w) == count_word(tws, w));
        assert(desc_count(line, w) == count_word(dws, w));
    }
}

/// The titles of a corpus, in document order.
pub open spec fn titles_of(ls: Seq<Seq<char>>) -> Seq<Seq<char>> {
    ls.map_values(|l: Seq<char>| title_of(l))
}

/// Taking titles commutes with appending one record.
pub proof fn lemma_titles_of_push(ls: Seq<Seq<char>>, l: Seq<char>)
    ensures
        titles_of(ls.push(l)) == titles_of(ls).push(title_of(l)),
{
    assert(titles_of(ls.push(l)) =~= titles_of(ls).push(title_of(l)));
}

/// A record without the tab delimiter between title and description.
#[derive(Clone, Copy, Debug, PartialEq, Eq, Structural)]
pub struct IndexError {
    pub line: usize,
}

/// The inverted index: a posting-list map keyed by normalized term, and the
/// document titles in arrival order.
pub struct InvertedIndecies<M: MapTrait> {
    pub indecies: M,
    pub movies: Vec<String>,
}

impl<M: MapTrait> InvertedIndecies<M> {
    /// The index's invariant: the store is sound, and every posting list has
    /// strictly ascending document ids that refer to stored titles.
    pub open spec fn wf(self) -> bool {
        &&& self.indecies.wf()
        &&& forall|w: Seq<char>| #[trigger]
            self.indecies.model().contains_key(w) ==> ascending_ids(self.indecies.model()[w])
                && ids_below(self.indecies.model()[w], self.movies@.len() as nat)
        &&& self.movies@.len() < usize::MAX / 2
    }

    /// Build the index in one streaming pass: each record's title words and
    /// description words are normalized and counted into its posting lists,
    /// merging repeated hits of one document into one posting. A record
    /// without a tab stops the pass and is reported with its position.
    ///
    /// The length bound is a machine limit: document ids are array indices.
    pub fn from_lines(lines: &Vec<String>) -> (r: Result<Self, IndexError>)
        requires
            lines@.len() < usize::MAX / 2,
        ensures
            match r {
                Ok(ix) => {
                    &&& ix.wf()
                    &&& ix.movies@.len() == lines@.len()
                    &&& forall|k: int| 0 <= k < lines@.len() ==> has_tab(#[trigger] lines@[k]@)
                    &&& index_models(ix.indecies.model(), views_of(lines@))
                    &&& views_of(ix.movies@) == titles_of(views_of(lines@))
                },
                Err(e) => {
                    &&& e.line < lines@.len()
                    &&& !has_tab(lines@[e.line as int]@)
                    &&& forall|k: int| 0 <= k < e.line ==> has_tab(#[trigger] lines@[k]@)
                },
            },
    {
        let mut indices = M::new();
        let mut movies: Vec<String> = Vec::new();
        let mut r: usize = 0;
        proof {
            assert(views_of(lines@).take(0) =~= Seq::<Seq<char>>::empty());
            assert(views_of(movies@) =~= Seq::<Seq<char>>::empty());
            assert(titles_of(Seq::<Seq<char>>::empty()) =~= Seq::<Seq<char>>::empty());
        }
        while r < lines.len()
            invariant
                lines@.len() < usize::MAX / 2,
                r <= lines@.len(),
                movies@.len() == r,
                indices.wf(),
                index_models(indices.model(), views_of(lines@).take(r as int)),
                views_of(movies@) == titles_of(views_of(lines@).take(r as int)),
                forall|k: int| 0 <= k < r ==> has_tab(#[trigger] lines@[k]@),
            decreases lines@.len() - r,
        {
            let line = &lines[r];
            let ghost lv = lines@[r as int]@;
            let ghost prev = views_of(lines@).take(r as int);
            let ti = match find_tab(line.as_str()) {
                Some(ti) => ti,
                None => {
                    return Err(IndexError { line: r });
                },
            };
            proof {
                assert(lv[ti as int] == '\t');
                lemma_tab_pos_at(lv, ti as int);
            }
            let n = line.as_str().unicode_len();
            let title = line.as_str().substring_char(0, ti);
            let rest = line.as_str().substring_char(ti, n);
            proof {
                assert(title@ =~= title_of(lv));
                assert(rest@ =~= rest_of(lv));
                lemma_mid_start(indices.model(), prev, r);
            }
            let twords = split_words(title);
            let ghost wviews = views_of(twords@);
            let mut k: usize = 0;
            proof {
                assert(wviews.take(0) =~= Seq::<Seq<char>>::empty());
                reveal(Seq::filter);
                assert(norm_prefix(Seq::<Seq<char>>::empty()) =~= Seq::<Seq<char>>::empty());
            }
            while k < twords.len()
                invariant
                    lines@.len() < usize::MAX / 2,
                    r < lines@.len(),
                    prev == views_of(lines@).take(r as int),
                    prev.len() == r,
                    wviews == views_of(twords@),
                    wviews == words_of(title_of(lv)),
                    k <= twords@.len(),
                    indices.wf(),
                    mid_models(
                        indices.model(),
                        prev,
                        r,
                        norm_prefix(wviews.take(k as int)),
                        Seq::<Seq<char>>::empty(),
                    ),
                decreases twords@.len() - k,
            {
                let nw = prepare_word(twords[k].as_str());
                proof {
                    assert(wviews[k as int] == twords@[k as int]@);
                    assert(nw@ == normalize_spec(wviews[k as int]));
                    assert(wviews.take(k + 1) =~= wviews.take(k as int).push(wviews[k as int]));
                    lemma_norm_prefix_push(wviews.take(k as int), wviews[k as int]);
                }
                if !nw.as_str().is_empty() {
                    proof {
                        lemma_upsert_mid(
                            indices.model(),
                            prev,
                            r,
                            norm_prefix(wviews.take(k as int)),
                            Seq::<Seq<char>>::empty(),
                            nw@,
                            true,
                        );
                    }
                    indices.upsert(&nw, r, true);
                }
                k = k + 1;
            }
            proof {
                assert(wviews.take(twords@.len() as int) =~= wviews);
            }
            let dwords = split_words(rest);
            let ghost dviews = views_of(dwords@);
            let ghost tdone = norm_words(title_of(lv));
            let mut k2: usize = 0;
            proof {
                assert(dviews.take(0) =~= Seq::<Seq<char>>::empty());
                reveal(Seq::filter);
                assert(norm_prefix(Seq::<Seq<char>>::empty()) =~= Seq::<Seq<char>>::empty());
            }
            while k2 < dwords.len()
                invariant
                    lines@.len() < usize::MAX / 2,
                    r < lines@.len(),
                    prev == views_of(lines@).take(r as int),
                    prev.len() == r,
                    dviews == views_of(dwords@),
                    dviews == words_of(rest_of(lv)),
                    tdone == norm_words(title_of(lv)),
                    k2 <= dwords@.len(),
                    indices.wf(),
                    mid_models(
                        indices.model(),
                        prev,
                        r,
                        tdone,
                        norm_prefix(dviews.take(k2 as int)),
                    ),
                decreases dwords@.len() - k2,
            {
                let nw = prepare_word(dwords[k2].as_str());
                proof {
                    assert(dviews[k2 as int] == dwords@[k2 as int]@);
                    assert(nw@ == normalize_spec(dviews[k2 as int]));
                    assert(dviews.take(k2 + 1) =~= dviews.take(k2 as int).push(dviews[k2 as int]));
                    lemma_norm_prefix_push(dviews.take(k2 as int), dviews[k2 as int]);
                }
                if !nw.as_str().is_empty() {
                    proof {
                        lemma_upsert_mid(
                            indices.model(),
                            prev,
                            r,
                            tdone,
                            norm_prefix(dviews.take(k2 as int)),
                            nw@,
                            false,
                        );
                    }
                    indices.upsert(&nw, r, false);
                }
                k2 = k2 + 1;
            }
            proof {
                assert(dviews.take(dwords@.len() as int) =~= dviews);
                lemma_mid_finish(indices.model(), prev, r, lv);
                assert(views_of(lines@).take(r + 1) =~= prev.push(lv));
                lemma_titles_of_push(prev, lv);
            }
            let title_owned = title.to_owned();
            proof {
                lemma_views_of_push(movies@, title_owned);
            }
            movies.push(title_owned);
            r = r + 1;
        }
        proof {
            assert(views_of(lines@).take(lines@.len() as int) =~= views_of(lines@));
            let m = indices.model();
            assert forall|w: Seq<char>| #[trigger]
                m.contains_key(w) implies ascending_ids(m[w]) && ids_below(
                m[w],
                movies@.len() as nat,
            ) by {
                lemma_postings_for_wf(views_of(lines@), w);
            }
        }
        Ok(InvertedIndecies { indecies: indices, movies })
    }
}

/// A strictly ascending posting list over documents below `n` has at most
/// `n` entries.
pub proof fn lemma_ascending_ids_len(s: Seq<MovieIndex>, n: nat)
    requires
        ascending_ids(s),
        ids_below(s, n),
    ensures
        s.len() <= n,
    decreases s.len(),
{
    if s.len() > 0 {
        assert forall|i: int|
            0 <= i < s.drop_last().len() implies (#[trigger] s.drop_last()[i].movie_index)
            < s.last().movie_index by {
            assert(s[i].movie_index < s[s.len() - 1].movie_index);
        }
        lemma_ascending_ids_len(s.drop_last(), s.last().movie_index as nat);
    }
}

/// Posting merge law: an indexed corpus gives each word at most one posting
/// per document — document ids strictly ascending, never duplicated — and
/// that posting's counters are exactly the saturated occurrence counts.
pub proof fn lemma_posting_merge(
    m: Map<Seq<char>, Seq<MovieIndex>>,
    lines: Seq<Seq<char>>,
    w: Seq<char>,
)
    requires
        index_models(m, lines),
        m.contains_key(w),
        lines.len() <= usize::MAX,
    ensures
        m[w] == postings_for(lines, w),
        ascending_ids(m[w]),
{
    lemma_postings_for_wf(lines, w);
}

/// The posting list the index holds for a normalized term; empty when the
/// term is unknown.
pub open spec fn term_list(m: Map<Seq<char>, Seq<MovieIndex>>, w: Seq<char>) -> Seq<MovieIndex> {
    if m.contains_key(w) {
        m[w]
    } else {
        Seq::<MovieIndex>::empty()
    }
}

/// Fold the remaining query terms over the running result: each term's
/// posting list is intersected against what survived so far.
pub open spec fn fold_terms(
    m: Map<Seq<char>, Seq<MovieIndex>>,
    acc: Seq<MovieIndex>,
    terms: Seq<Seq<char>>,
) -> Seq<MovieIndex>
    decreases terms.len(),
{
    if terms.len() == 0 {
        acc
    } else {
        fold_terms(
            m,
            intersect_postings(term_list(m, normalize_spec(terms[0])), acc),
            terms.drop_first(),
        )
    }
}

/// The combined postings a query owes before ranking: the first term's
/// posting list, narrowed by each later term in turn. An empty query owes
/// nothing; an unknown term empties the running result for good.
pub open spec fn query_postings(
    m: Map<Seq<char>, Seq<MovieIndex>>,
    terms: Seq<Seq<char>>,
) -> Seq<MovieIndex> {
    if terms.len() == 0 {
        Seq::<MovieIndex>::empty()
    } else {
        fold_terms(m, term_list(m, normalize_spec(terms[0])), terms.drop_first())
    }
}

/// Sorted by relevance, best first.
pub open spec fn sorted_desc(s: Seq<MovieIndex>) -> bool {
    forall|i: int, j: int| 0 <= i < j < s.len() ==> rank_spec(s[i]) >= rank_spec(s[j])
}

/// The titles that a ranked posting sequence names, in its order.
pub open spec fn titles_for(ps: Seq<MovieIndex>, titles: Seq<Seq<char>>) -> Seq<Seq<char>> {
    ps.map_values(|p: MovieIndex| titles[p.movie_index as int])
}

/// An owned copy of a posting list.
fn copy_postings(list: &Vec<MovieIndex>) -> (r: Vec<MovieIndex>)
    ensures
        r@ == list@,
{
    let mut r: Vec<MovieIndex> = Vec::new();
    let mut i: usize = 0;
    while i < list.len()
        invariant
            i <= list@.len(),
            r@ == list@.take(i as int),
        decreases list@.len() - i,
    {
        proof {
            assert(list@.take(i + 1) =~= list@.take(i as int).push(list@[i as int]));
        }
        r.push(list[i]);
        i = i + 1;
    }
    proof {
        assert(list@.take(list@.len() as int) =~= list@);
    }
    r
}

/// Sort postings by relevance, best first, by repeatedly moving a
/// highest-ranked remaining posting over. Which of several equally ranked
/// postings comes first is deliberately left open.
fn sort_by_rank_desc(v: Vec<MovieIndex>) -> (r: Vec<MovieIndex>)
    ensures
        r@.to_multiset() == v@.to_multiset(),
        sorted_desc(r@),
{
    broadcast use vstd::seq_lib::group_to_multiset_ensures;
    broadcast use vstd::multiset::group_multiset_axioms;

    let mut rem = v;
    let mut out: Vec<MovieIndex> = Vec::new();
    proof {
        assert(out@.to_multiset().add(rem@.to_multiset()) =~= rem@.to_multiset());
    }
    let ghost total = rem@.to_multiset();
    while rem.len() > 0
        invariant
            out@.to_multiset().add(rem@.to_multiset()) == total,
            sorted_desc(out@),
            forall|i: int, k: int| #![trigger out@[i], rem@[k]]
                0 <= i < out@.len() && 0 <= k < rem@.len() ==> rank_spec(out@[i]) >= rank_spec(
                    rem@[k],
                ),
        decreases rem@.len(),
    {
        let mut m: usize = 0;
        let mut i: usize = 1;
        while i < rem.len()
            invariant
                rem@.len() > 0,
                m < i <= rem@.len(),
                forall|k: int| 0 <= k < i ==> rank_spec(rem@[k]) <= rank_spec(rem@[m as int]),
            decreases rem@.len() - i,
        {
            if rem[i].rank() > rem[m].rank() {
                m = i;
            }
            i = i + 1;
        }
        let ghost old_out = out@;
        let ghost old_rem = rem@;
        let x = rem.remove(m);
        out.push(x);
        proof {
            assert(old_rem[m as int] == x);
            assert(old_rem.contains(x));
            assert(out@ == old_out.push(x));
            assert(rem@ == old_rem.remove(m as int));
            vstd::seq_lib::to_multiset_build::<MovieIndex>(old_out, x);
            vstd::seq_lib::to_multiset_remove::<MovieIndex>(old_rem, m as int);
            assert(out@.to_multiset() =~= old_out.to_multiset().insert(x));
            assert(rem@.to_multiset() =~= old_rem.to_multiset().remove(x));
            vstd::seq_lib::to_multiset_contains::<MovieIndex>(old_rem, x);
            assert(old_rem.to_multiset().count(x) > 0);
            assert(out@.to_multiset().add(rem@.to_multiset()) =~= total);
            assert forall|k: int| 0 <= k < rem@.len() implies rank_spec(#[trigger] rem@[k])
                <= rank_spec(x) by {
                if k < m as int {
                    assert(rem@[k] == old_rem[k]);
                } else {
                    assert(rem@[k] == old_rem[k + 1]);
                }
            }
        }
    }
    proof {
        assert(rem@.to_multiset() =~= Multiset::<MovieIndex>::empty());
        assert(out@.to_multiset() =~= total);
    }
    out
}

/// The query terms' posting lists folded together stay well-formed.
proof fn lemma_fold_terms_wf(
    m: Map<Seq<char>, Seq<MovieIndex>>,
    acc: Seq<MovieIndex>,
    terms: Seq<Seq<char>>,
    n: nat,
)
    requires
        ascending_ids(acc),
        ids_below(acc, n),
    ensures
        ascending_ids(fold_terms(m, acc, terms)),
        ids_below(fold_terms(m, acc, terms), n),
    decreases terms.len(),
{
    if terms.len() > 0 {
        let next = intersect_postings(term_list(m, normalize_spec(terms[0])), acc);
        lemma_intersect_wf(term_list(m, normalize_spec(terms[0])), acc, n);
        lemma_fold_terms_wf(m, next, terms.drop_first(), n);
    }
}

impl<M: MapTrait> InvertedIndecies<M> {
    /// Evaluate a query down to its ranked postings: normalize the first
    /// term and take its posting list, narrow it by every later term through
    /// galloping intersection, then order by relevance, best first.
    pub fn query_ranked(&self, words: &Vec<String>) -> (r: Vec<MovieIndex>)
        requires
            self.wf(),
        ensures
            r@.to_multiset() == query_postings(
                self.indecies.model(),
                views_of(words@),
            ).to_multiset(),
            sorted_desc(r@),
            ids_below(r@, self.movies@.len() as nat),
    {
        broadcast use vstd::seq_lib::group_to_multiset_ensures;
        broadcast use vstd::multiset::group_multiset_axioms;

        let ghost m = self.indecies.model();
        let ghost qviews = views_of(words@);
        let ghost bound = self.movies@.len() as nat;
        let mut result: Vec<MovieIndex> = Vec::new();
        if words.len() == 0 {
            proof {
                assert(result@ =~= query_postings(m, qviews));
            }
            return result;
        }
        let first = prepare_word(words[0].as_str());
        proof {
            assert(qviews[0] == words@[0]@);
            assert(first@ == normalize_spec(qviews[0]));
        }
        match self.indecies.get(&first) {
            Some(list) => {
                result = copy_postings(list);
            },
            None => {
            },
        }
        proof {
            assert(result@ == term_list(m, normalize_spec(qviews[0])));
            assert(qviews.skip(1) =~= qviews.drop_first());
        }
        let mut t: usize = 1;
        while t < words.len()
            invariant
                self.wf(),
                m == self.indecies.model(),
                qviews == views_of(words@),
                bound == self.movies@.len() as nat,
                1 <= t <= words@.len(),
                ascending_ids(result@),
                ids_below(result@, bound),
                fold_terms(m, result@, qviews.skip(t as int)) == query_postings(m, qviews),
            decreases words@.len() - t,
        {
            let w = prepare_word(words[t].as_str());
            proof {
                assert(qviews[t as int] == words@[t as int]@);
                assert(w@ == normalize_spec(qviews[t as int]));
            }
            let mut b: Vec<MovieIndex> = Vec::new();
            match self.indecies.get(&w) {
                Some(list) => {
                    b = copy_postings(list);
                },
                None => {
                },
            }
            proof {
                assert(b@ == term_list(m, w@));
                assert(ascending_ids(b@) && ids_below(b@, bound));
                lemma_ascending_ids_len(b@, bound);
                assert(b@.len() < usize::MAX / 2);
                assert(qviews.skip(t as int).drop_first() =~= qviews.skip(t + 1));
                assert(qviews.skip(t as int)[0] == qviews[t as int]);
                lemma_intersect_wf(b@, result@, bound);
            }
            result = galloping_search_movie(b.as_slice(), result.as_slice());
            t = t + 1;
        }
        proof {
            assert(qviews.skip(words@.len() as int) =~= Seq::<Seq<char>>::empty());
            assert(result@ == query_postings(m, qviews));
        }
        let ghost pre_sort = result@;
        let sorted = sort_by_rank_desc(result);
        proof {
            assert forall|i: int|
                0 <= i < sorted@.len() implies (#[trigger] sorted@[i].movie_index) < bound by {
                let x = sorted@[i];
                assert(sorted@.contains(x));
                assert(sorted@.to_multiset().count(x) > 0);
                assert(pre_sort.to_multiset().count(x) > 0);
                assert(pre_sort.contains(x));
                let k = choose|k: int| 0 <= k < pre_sort.len() && pre_sort[k] == x;
                assert(pre_sort[k].movie_index < bound);
            }
        }
        sorted
    }

    /// Evaluate a query to document titles, best match first. Among equally
    /// ranked documents the order is deliberately left open, so the contract
    /// promises a ranking of the owed postings, not one fixed order.
    pub fn query(&self, words: &Vec<String>) -> (r: Vec<String>)
        requires
            self.wf(),
        ensures
            exists|s: Seq<MovieIndex>|
                {
                    &&& s.to_multiset() == query_postings(
                        self.indecies.model(),
                        views_of(words@),
                    ).to_multiset()
                    &&& sorted_desc(s)
                    &&& ids_below(s, self.movies@.len() as nat)
                    &&& views_of(r@) == titles_for(s, views_of(self.movies@))
                },
    {
        let ranked = self.query_ranked(words);
        let mut out: Vec<String> = Vec::new();
        let mut i: usize = 0;
        proof {
            assert(views_of(out@) =~= titles_for(ranked@.take(0), views_of(self.movies@)));
        }
        while i < ranked.len()
            invariant
                ids_below(ranked@, self.movies@.len() as nat),
                i <= ranked@.len(),
                views_of(out@) == titles_for(ranked@.take(i as int), views_of(self.movies@)),
            decreases ranked@.len() - i,
        {
            let p = ranked[i];
            proof {
                assert(ranked@[i as int].movie_index < self.movies@.len());
            }
            let title = self.movies[p.movie_index].clone();
            proof {
                lemma_views_of_push(out@, title);
                assert(ranked@.take(i + 1) =~= ranked@.take(i as int).push(ranked@[i as int]));
                assert(titles_for(ranked@.take(i + 1), views_of(self.movies@)) =~= titles_for(
                    ranked@.take(i as int),
                    views_of(self.movies@),
                ).push(views_of(self.movies@)[p.movie_index as int]));
            }
            out.push(title);
            i = i + 1;
        }
        proof {
            assert(ranked@.take(ranked@.len() as int) =~= ranked@);
            let ghost s = ranked@;
            assert(views_of(out@) == titles_for(s, views_of(self.movies@)));
        }
        out
    }
}

/// The words of a text, each normalized, empties kept: the comparison
/// stream the brute-force engine matches query words against.
pub open spec fn all_norm_words(s: Seq<char>) -> Seq<Seq<char>> {
    words_of(s).map_values(|w: Seq<char>| normalize_spec(w))
}

/// Whether a document's text matches a query: every query word, normalized,
/// occurs among the text's normalized words.
pub open spec fn doc_matches(desc: Seq<char>, qs: Seq<Seq<char>>) -> bool {
    forall|k: int|
        0 <= k < qs.len() ==> all_norm_words(desc).contains(normalize_spec(#[trigger] qs[k]))
}

/// The titles of the documents whose text matches the query, in document
/// order.
pub open spec fn naive_matches(
    pairs: Seq<(Seq<char>, Seq<char>)>,
    qs: Seq<Seq<char>>,
) -> Seq<Seq<char>>
    decreases pairs.len(),
{
    if pairs.len() == 0 {
        Seq::<Seq<char>>::empty()
    } else {
        let pre = naive_matches(pairs.drop_last(), qs);
        if doc_matches(pairs.last().1, qs) {
            pre.push(pairs.last().0)
        } else {
            pre
        }
    }
}

/// The (title, text) pairs a corpus owes the brute-force engine: each
/// record's title beside the whole raw record, whose words the engine
/// matches against.
pub open spec fn corpus_pairs(ls: Seq<Seq<char>>) -> Seq<(Seq<char>, Seq<char>)>
    decreases ls.len(),
{
    if ls.len() == 0 {
        Seq::<(Seq<char>, Seq<char>)>::empty()
    } else {
        corpus_pairs(ls.drop_last()).push((title_of(ls.last()), ls.last()))
    }
}

/// The views of stored (title, text) pairs.
spec fn pairs_views(s: Seq<(String, String)>) -> Seq<(Seq<char>, Seq<char>)>
    decreases s.len(),
{
    if s.len() == 0 {
        Seq::<(Seq<char>, Seq<char>)>::empty()
    } else {
        pairs_views(s.drop_last()).push((s.last().0@, s.last().1@))
    }
}

/// The brute-force reference engine: it keeps every record whole and scans
/// all of them per query. It serves as a correctness oracle for the
/// inverted index, not as the fast path.
pub struct NaiveSearchEngine {
    movies: Vec<(String, String)>,
}

impl NaiveSearchEngine {
    /// The stored (title, text) pairs. The text is the whole raw record;
    /// since matching splits it on whitespace, surrounding whitespace never
    /// affects a query.
    pub closed spec fn model(self) -> Seq<(Seq<char>, Seq<char>)> {
        pairs_views(self.movies@)
    }

    /// Build the engine from the corpus records: keep each record's title
    /// and its whole text. A record without a tab stops the pass and is
    /// reported with its position.
    pub fn from_lines(lines: &Vec<String>) -> (r: Result<Self, IndexError>)
        ensures
            match r {
                Ok(e) => {
                    &&& forall|k: int| 0 <= k < lines@.len() ==> has_tab(#[trigger] lines@[k]@)
                    &&& e.model() == corpus_pairs(views_of(lines@))
                },
                Err(e) => {
                    &&& e.line < lines@.len()
                    &&& !has_tab(lines@[e.line as int]@)
                    &&& forall|k: int| 0 <= k < e.line ==> has_tab(#[trigger] lines@[k]@)
                },
            },
    {
        let mut movies: Vec<(String, String)> = Vec::new();
        let mut r: usize = 0;
        proof {
            assert(views_of(lines@).take(0) =~= Seq::<Seq<char>>::empty());
            assert(pairs_views(movies@) =~= corpus_pairs(views_of(lines@).take(0)));
        }
        while r < lines.len()
            invariant
                r <= lines@.len(),
                pairs_views(movies@) == corpus_pairs(views_of(lines@).take(r as int)),
                forall|k: int| 0 <= k < r ==> has_tab(#[trigger] lines@[k]@),
            decreases lines@.len() - r,
        {
            let line = &lines[r];
            let ghost lv = lines@[r as int]@;
            let ti = match find_tab(line.as_str()) {
                Some(ti) => ti,
                None => {
                    return Err(IndexError { line: r });
                },
            };
            proof {
                assert(lv[ti as int] == '\t');
                lemma_tab_pos_at(lv, ti as int);
            }
            let title = line.as_str().substring_char(0, ti).to_owned();
            let text = line.clone();
            let ghost old_movies = movies@;
            movies.push((title, text));
            proof {
                assert(title@ =~= title_of(lv));
                assert(movies@.drop_last() =~= old_movies);
                assert(views_of(lines@).take(r + 1) =~= views_of(lines@).take(r as int).push(lv));
                assert(views_of(lines@).take(r + 1).drop_last() =~= views_of(lines@).take(
                    r as int,
                ));
                assert(pairs_views(movies@) == corpus_pairs(views_of(lines@).take(r + 1)));
            }
            r = r + 1;
        }
        proof {
            assert(views_of(lines@).take(lines@.len() as int) =~= views_of(lines@));
        }
        Ok(NaiveSearchEngine { movies })
    }

    /// Evaluate a query by scanning every document: keep the titles of the
    /// documents whose text holds every query word, after normalization, in
    /// document order.
    pub fn query(&self, words: &Vec<String>) -> (r: Vec<String>)
        ensures
            views_of(r@) == naive_matches(self.model(), views_of(words@)),
    {
        let ghost qs = views_of(words@);
        let mut out: Vec<String> = Vec::new();
        let mut mi: usize = 0;
        proof {
            assert(self.movies@.take(0) =~= Seq::<(String, String)>::empty());
            assert(views_of(out@) =~= naive_matches(pairs_views(self.movies@.take(0)), qs));
        }
        while mi < self.movies.len()
            invariant
                qs == views_of(words@),
                mi <= self.movies@.len(),
                views_of(out@) == naive_matches(pairs_views(self.movies@.take(mi as int)), qs),
            decreases self.movies@.len() - mi,
        {
            let pair = &self.movies[mi];
            let ghost desc = self.movies@[mi as int].1@;
            let dwords = split_words(pair.1.as_str());
            let mut ok = true;
            let mut k: usize = 0;
            while k < words.len()
                invariant
                    qs == views_of(words@),
                    mi < self.movies@.len(),
                    desc == self.movies@[mi as int].1@,
                    views_of(dwords@) == words_of(desc),
                    k <= words@.len(),
                    ok == (forall|t: int|
                        0 <= t < k ==> all_norm_words(desc).contains(
                            normalize_spec(#[trigger] qs[t]),
                        )),
                decreases words@.len() - k,
            {
                let nq = prepare_word(words[k].as_str());
                proof {
                    assert(qs[k as int] == words@[k as int]@);
                    assert(nq@ == normalize_spec(qs[k as int]));
                }
                let mut found = false;
                let mut j: usize = 0;
                while j < dwords.len()
                    invariant
                        views_of(dwords@) == words_of(desc),
                        j <= dwords@.len(),
                        found == (exists|u: int|
                            0 <= u < j && normalize_spec(#[trigger] views_of(dwords@)[u]) == nq@),
                    decreases dwords@.len() - j,
                {
                    let dw = prepare_word(dwords[j].as_str());
                    proof {
                        assert(views_of(dwords@)[j as int] == dwords@[j as int]@);
                    }
                    if dw.eq(&nq) {
                        proof {
                            assert(normalize_spec(views_of(dwords@)[j as int]) == nq@);
                        }
                        found = true;
                    }
                    j = j + 1;
                }
                proof {
                    assert(all_norm_words(desc).len() == views_of(dwords@).len());
                    if found {
                        let u = choose|u: int|
                            0 <= u < dwords@.len() && normalize_spec(
                                #[trigger] views_of(dwords@)[u],
                            ) == nq@;
                        assert(all_norm_words(desc)[u] == nq@);
                        assert(all_norm_words(desc).contains(nq@));
                    } else {
                        if all_norm_words(desc).contains(nq@) {
                            let u = choose|u: int|
                                0 <= u < all_norm_words(desc).len() && all_norm_words(desc)[u]
                                    == nq@;
                            assert(normalize_spec(views_of(dwords@)[u]) == nq@);
                            assert(false);
                        }
                    }
                }
                ok = ok && found;
                k = k + 1;
            }
            proof {
                assert(self.movies@.take(mi + 1) =~= self.movies@.take(mi as int).push(
                    self.movies@[mi as int],
                ));
                assert(self.movies@.take(mi + 1).drop_last() =~= self.movies@.take(mi as int));
                assert(pairs_views(self.movies@.take(mi + 1)).drop_last() =~= pairs_views(
                    self.movies@.take(mi as int),
                ));
                if ok {
                    assert(doc_matches(desc, qs));
                } else {
                    assert(!doc_matches(desc, qs));
                }
            }
            if ok {
                let title = pair.0.clone();
                proof {
                    lemma_views_of_push(out@, title);
                }
                out.push(title);
            }
            mi = mi + 1;
        }
        proof {
            assert(self.movies@.take(self.movies@.len() as int) =~= self.movies@);
        }
        out
    }
}

} // verus!
