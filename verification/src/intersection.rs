//! Three algorithms for intersecting two ascending integer sequences: the
//! linear two-pointer scan, binary-search probing, and galloping (exponential)
//! search. All three are proved to return the same sequence: the ascending
//! sequence of values present in both inputs.

use vstd::prelude::*;

verus! {

broadcast use vstd::seq_lib::group_seq_lib_default;

/// An ascending sequence: strictly increasing, so without duplicates.
pub open spec fn ascending(s: Seq<u64>) -> bool {
    forall|i: int, j: int| 0 <= i < j < s.len() ==> s[i] < s[j]
}

/// The elements of `a` that also occur in `b`, in their order within `a`.
/// For ascending `a` and `b` this is the intersection, ascending.
pub open spec fn common(a: Seq<u64>, b: Seq<u64>) -> Seq<u64> {
    a.filter(|x: u64| b.contains(x))
}

/// Extending the left side by one element extends the intersection by that
/// element exactly when the right side contains it.
pub proof fn lemma_common_push(a: Seq<u64>, b: Seq<u64>, x: u64)
    ensures
        common(a.push(x), b) == if b.contains(x) {
            common(a, b).push(x)
        } else {
            common(a, b)
        },
{
    reveal(Seq::filter);
    assert(a.push(x).drop_last() =~= a);
    assert(a.push(x).last() == x);
}

/// Every element of `common(a, b)` is an element of both inputs, and
/// conversely.
pub proof fn lemma_common_elems(a: Seq<u64>, b: Seq<u64>)
    ensures
        forall|x: u64| #[trigger] common(a, b).contains(x) <==> a.contains(x) && b.contains(x),
    decreases a.len(),
{
    reveal(Seq::filter);
    if a.len() > 0 {
        lemma_common_elems(a.drop_last(), b);
        assert(a =~= a.drop_last().push(a.last()));
        assert forall|x: u64| #[trigger] common(a, b).contains(x) implies a.contains(x)
            && b.contains(x) by {
            if common(a.drop_last(), b).contains(x) {
                assert(a.drop_last().contains(x));
            }
        }
        assert forall|x: u64| a.contains(x) && b.contains(x) implies #[trigger] common(
            a,
            b,
        ).contains(x) by {
            if a.drop_last().contains(x) {
                assert(common(a.drop_last(), b).contains(x));
                let k = choose|k: int|
                    0 <= k < common(a.drop_last(), b).len() && common(a.drop_last(), b)[k] == x;
                assert(common(a, b).contains(x));
            } else {
                let k = choose|k: int| 0 <= k < a.len() && a[k] == x;
                assert(k == a.len() - 1);
                assert(common(a, b).last() == x);
            }
        }
    }
}

/// Intersecting ascending sequences yields an ascending sequence.
pub proof fn lemma_common_ascending(a: Seq<u64>, b: Seq<u64>)
    requires
        ascending(a),
    ensures
        ascending(common(a, b)),
    decreases a.len(),
{
    reveal(Seq::filter);
    if a.len() > 0 {
        lemma_common_ascending(a.drop_last(), b);
        lemma_common_elems(a.drop_last(), b);
        let c = common(a, b);
        let pre = common(a.drop_last(), b);
        assert forall|i: int, j: int| 0 <= i < j < c.len() implies c[i] < c[j] by {
            if j == c.len() - 1 && c =~= pre.push(a.last()) {
                assert(pre.contains(pre[i]));
                assert(a.drop_last().contains(pre[i]));
                let k = choose|k: int| 0 <= k < a.drop_last().len() && a.drop_last()[k] == pre[i];
                assert(a[k] == pre[i] && k < a.len() - 1);
                assert(a[k] < a.last());
            }
        }
    }
}

/// Two ascending sequences that contain the same values are the same
/// sequence.
pub proof fn lemma_ascending_same_contains(s: Seq<u64>, t: Seq<u64>)
    requires
        ascending(s),
        ascending(t),
        forall|x: u64| s.contains(x) <==> t.contains(x),
    ensures
        s == t,
    decreases s.len(),
{
    if s.len() == 0 {
        if t.len() > 0 {
            assert(t.contains(t[0]));
        }
        assert(s =~= t);
    } else {
        assert(s.contains(s[0]));
        assert(t.contains(t[0]));
        let i = choose|i: int| 0 <= i < t.len() && t[i] == s[0];
        let j = choose|j: int| 0 <= j < s.len() && s[j] == t[0];
        assert(t[0] <= t[i]);
        assert(s[0] <= s[j]);
        assert(s[0] == t[0]);
        let s1 = s.drop_first();
        let t1 = t.drop_first();
        assert forall|x: u64| s1.contains(x) implies t1.contains(x) by {
            let k = choose|k: int| 0 <= k < s1.len() && s1[k] == x;
            assert(s[k + 1] == x);
            assert(s[0] < x);
            assert(s.contains(x));
            let m = choose|m: int| 0 <= m < t.len() && t[m] == x;
            assert(m != 0);
            assert(t1[m - 1] == x);
        }
        assert forall|x: u64| t1.contains(x) implies s1.contains(x) by {
            let k = choose|k: int| 0 <= k < t1.len() && t1[k] == x;
            assert(t[k + 1] == x);
            assert(t[0] < x);
            assert(t.contains(x));
            let m = choose|m: int| 0 <= m < s.len() && s[m] == x;
            assert(m != 0);
            assert(s1[m - 1] == x);
        }
        lemma_ascending_same_contains(s1, t1);
        assert forall|i: int| 0 <= i < s.len() implies s[i] == t[i] by {
            if i > 0 {
                assert(s1[i - 1] == s[i]);
                assert(t1[i - 1] == t[i]);
            }
        }
        assert(s =~= t);
    }
}

/// The order of the two sides does not matter: for ascending inputs all
/// intersection algorithms agree, whichever side they iterate over.
pub proof fn lemma_intersection_symmetric(a: Seq<u64>, b: Seq<u64>)
    requires
        ascending(a),
        ascending(b),
    ensures
        common(a, b) == common(b, a),
{
    lemma_common_elems(a, b);
    lemma_common_elems(b, a);
    lemma_common_ascending(a, b);
    lemma_common_ascending(b, a);
    lemma_ascending_same_contains(common(a, b), common(b, a));
}

/// If every element of `a` occurs in `b`, the intersection is `a` itself.
pub proof fn lemma_common_all_in(a: Seq<u64>, b: Seq<u64>)
    requires
        forall|k: int| 0 <= k < a.len() ==> b.contains(#[trigger] a[k]),
    ensures
        common(a, b) == a,
    decreases a.len(),
{
    reveal(Seq::filter);
    if a.len() > 0 {
        lemma_common_all_in(a.drop_last(), b);
        assert(b.contains(a.last()));
        assert(common(a, b) =~= a);
    }
}

/// Idempotence: intersecting an ascending sequence with itself returns it
/// unchanged.
pub proof fn lemma_intersection_self(a: Seq<u64>)
    ensures
        common(a, a) == a,
{
    assert forall|k: int| 0 <= k < a.len() implies a.contains(#[trigger] a[k]) by {}
    lemma_common_all_in(a, a);
}

/// Intersecting with an empty sequence yields an empty result, on either
/// side.
pub proof fn lemma_intersection_empty(a: Seq<u64>)
    ensures
        common(Seq::<u64>::empty(), a) == Seq::<u64>::empty(),
        common(a, Seq::<u64>::empty()) == Seq::<u64>::empty(),
{
    reveal(Seq::filter);
    lemma_common_elems(a, Seq::<u64>::empty());
    let c = common(a, Seq::<u64>::empty());
    if c.len() > 0 {
        assert(c.contains(c[0]));
        assert(Seq::<u64>::empty().contains(c[0]));
    }
    assert(c =~= Seq::<u64>::empty());
}

/// Linear two-pointer intersection: advance the cursor at the smaller value;
/// on equality emit the value and advance both. The baseline algorithm.
pub fn naive(a: &[u64], b: &[u64]) -> (r: Vec<u64>)
    requires
        ascending(a@),
        ascending(b@),
    ensures
        r@ == common(a@, b@),
        r@ == common(b@, a@),
{
    let mut pointer_a: usize = 0;
    let mut pointer_b: usize = 0;
    let mut result: Vec<u64> = Vec::new();
    while pointer_a < a.len() && pointer_b < b.len()
        invariant
            ascending(a@),
            ascending(b@),
            pointer_a <= a@.len(),
            pointer_b <= b@.len(),
            result@ == common(a@.take(pointer_a as int), b@),
            result@ == common(b@.take(pointer_b as int), a@),
            pointer_a < a@.len() ==> forall|k: int|
                0 <= k < pointer_b ==> b@[k] < a@[pointer_a as int],
            pointer_b < b@.len() ==> forall|k: int|
                0 <= k < pointer_a ==> a@[k] < b@[pointer_b as int],
        decreases a@.len() + b@.len() - pointer_a - pointer_b,
    {
        if a[pointer_a] < b[pointer_b] {
            proof {
                assert(a@.take(pointer_a + 1) =~= a@.take(pointer_a as int).push(
                    a@[pointer_a as int],
                ));
                assert(!b@.contains(a@[pointer_a as int])) by {
                    if b@.contains(a@[pointer_a as int]) {
                        let k = choose|k: int|
                            0 <= k < b@.len() && b@[k] == a@[pointer_a as int];
                        if k >= pointer_b && k > pointer_b {
                            assert(b@[pointer_b as int] < b@[k]);
                        }
                    }
                }
                lemma_common_push(a@.take(pointer_a as int), b@, a@[pointer_a as int]);
            }
            pointer_a = pointer_a + 1;
        } else if a[pointer_a] > b[pointer_b] {
            proof {
                assert(b@.take(pointer_b + 1) =~= b@.take(pointer_b as int).push(
                    b@[pointer_b as int],
                ));
                assert(!a@.contains(b@[pointer_b as int])) by {
                    if a@.contains(b@[pointer_b as int]) {
                        let k = choose|k: int|
                            0 <= k < a@.len() && a@[k] == b@[pointer_b as int];
                        if k > pointer_a {
                            assert(a@[pointer_a as int] < a@[k]);
                        }
                    }
                }
                lemma_common_push(b@.take(pointer_b as int), a@, b@[pointer_b as int]);
            }
            pointer_b = pointer_b + 1;
        } else {
            proof {
                assert(a@.take(pointer_a + 1) =~= a@.take(pointer_a as int).push(
                    a@[pointer_a as int],
                ));
                assert(b@.take(pointer_b + 1) =~= b@.take(pointer_b as int).push(
                    b@[pointer_b as int],
                ));
                assert(b@.contains(a@[pointer_a as int]));
                assert(a@.contains(b@[pointer_b as int]));
                lemma_common_push(a@.take(pointer_a as int), b@, a@[pointer_a as int]);
                lemma_common_push(b@.take(pointer_b as int), a@, b@[pointer_b as int]);
            }
            result.push(a[pointer_a]);
            pointer_a = pointer_a + 1;
            pointer_b = pointer_b + 1;
        }
    }
    proof {
        lemma_intersection_symmetric(a@, b@);
        if pointer_a == a@.len() {
            assert(a@.take(pointer_a as int) =~= a@);
        } else {
            assert(b@.take(pointer_b as int) =~= b@);
        }
    }
    result
}

/// Search for `x` within the index window `[lo, hi)` of the ascending slice
/// `a`, narrowing the window by halving.
fn probe(a: &[u64], lo: usize, hi: usize, x: u64) -> (r: bool)
    requires
        ascending(a@),
        lo <= hi <= a@.len(),
    ensures
        r <==> exists|k: int| lo <= k < hi && a@[k] == x,
{
    let mut l = lo;
    let mut h = hi;
    while l < h
        invariant
            ascending(a@),
            lo <= l <= h <= hi <= a@.len(),
            forall|k: int| lo <= k < l ==> a@[k] != x,
            forall|k: int| h <= k < hi ==> a@[k] != x,
        decreases h - l,
    {
        let mid = l + (h - l) / 2;
        if a[mid] == x {
            proof {
                assert(lo <= mid < hi && a@[mid as int] == x);
            }
            return true;
        } else if a[mid] < x {
            proof {
                assert forall|k: int| lo <= k < mid + 1 implies a@[k] != x by {
                    if k < mid as int {
                        assert(a@[k] < a@[mid as int]);
                    }
                }
            }
            l = mid + 1;
        } else {
            proof {
                assert forall|k: int| mid <= k < hi implies a@[k] != x by {
                    if k > mid as int {
                        assert(a@[mid as int] < a@[k]);
                    }
                }
            }
            h = mid;
        }
    }
    false
}

/// Binary-search probing: look each element of `b` up in the whole of `a`;
/// emit it on a hit. Favors a `b` much smaller than `a`.
pub fn binary_search(a: &[u64], b: &[u64]) -> (r: Vec<u64>)
    requires
        ascending(a@),
        ascending(b@),
    ensures
        r@ == common(b@, a@),
        r@ == common(a@, b@),
{
    let mut result: Vec<u64> = Vec::new();
    let mut j: usize = 0;
    while j < b.len()
        invariant
            ascending(a@),
            ascending(b@),
            j <= b@.len(),
            result@ == common(b@.take(j as int), a@),
        decreases b@.len() - j,
    {
        let item = b[j];
        let hit = probe(a, 0, a.len(), item);
        proof {
            assert(b@.take(j + 1) =~= b@.take(j as int).push(b@[j as int]));
            if a@.contains(item) {
                let k = choose|k: int| 0 <= k < a@.len() && a@[k] == item;
                assert(0 <= k < a@.len() && a@[k] == item);
            }
            assert(hit == a@.contains(item));
            lemma_common_push(b@.take(j as int), a@, item);
        }
        if hit {
            result.push(item);
        }
        j = j + 1;
    }
    proof {
        assert(b@.take(b@.len() as int) =~= b@);
        lemma_intersection_symmetric(a@, b@);
    }
    result
}

/// Galloping (exponential) search: a forward-only cursor into `a`; for each
/// element of `b`, double a probe step from the cursor until it reaches a
/// value at least as large, then binary-search the value inside that window.
/// On both hit and miss the cursor moves to the window start, never backward.
///
/// The length bound on `a` rules out overflow of the probe arithmetic; a
/// slice of multi-byte elements cannot come near half the address space.
pub fn galloping_search(a: &[u64], b: &[u64]) -> (r: Vec<u64>)
    requires
        ascending(a@),
        ascending(b@),
        a@.len() < usize::MAX / 2,
    ensures
        r@ == common(b@, a@),
        r@ == common(a@, b@),
{
    let mut result: Vec<u64> = Vec::new();
    let mut pointer_a: usize = 0;
    let mut j: usize = 0;
    while j < b.len()
        invariant
            ascending(a@),
            ascending(b@),
            a@.len() < usize::MAX / 2,
            j <= b@.len(),
            pointer_a <= a@.len(),
            result@ == common(b@.take(j as int), a@),
            j < b@.len() ==> forall|k: int| 0 <= k < pointer_a ==> a@[k] < b@[j as int],
        decreases b@.len() - j,
    {
        let item = b[j];
        let mut step: usize = 1;
        while pointer_a + step < a.len() && a[pointer_a + step] < item
            invariant
                ascending(a@),
                a@.len() < usize::MAX / 2,
                pointer_a <= a@.len(),
                1 <= step,
                step > 1 ==> pointer_a + step / 2 < a@.len() && a@[pointer_a + step / 2] < item,
            decreases 2 * a@.len() - pointer_a - step,
        {
            step = step * 2;
        }
        let start = pointer_a + step / 2;
        let end = if pointer_a + step + 1 < a.len() {
            pointer_a + step + 1
        } else {
            a.len()
        };
        proof {
            assert(start <= end <= a@.len());
            assert forall|k: int| 0 <= k < start implies a@[k] < item by {
                if k >= pointer_a {
                    assert(step > 1);
                    assert(a@[start as int] < item);
                    assert(a@[k] < a@[start as int]);
                }
            }
            assert forall|k: int| end <= k < a@.len() implies a@[k] > item by {
                assert(pointer_a + step < a@.len());
                assert(a@[pointer_a + step] >= item);
                if k > pointer_a + step {
                    assert(a@[pointer_a + step] < a@[k]);
                }
            }
        }
        let hit = probe(a, start, end, item);
        proof {
            assert(b@.take(j + 1) =~= b@.take(j as int).push(b@[j as int]));
            if a@.contains(item) {
                let k = choose|k: int| 0 <= k < a@.len() && a@[k] == item;
                assert(start <= k < end);
            }
            if hit {
                let k = choose|k: int| start <= k < end && a@[k] == item;
                assert(a@.contains(item));
            }
            assert(hit == a@.contains(item));
            lemma_common_push(b@.take(j as int), a@, item);
            if j + 1 < b@.len() {
                assert(b@[j as int] < b@[j + 1]);
                assert forall|k: int| 0 <= k < start implies a@[k] < b@[j + 1] by {
                    assert(a@[k] < item);
                }
            }
        }
        if hit {
            result.push(item);
        }
        pointer_a = start;
        j = j + 1;
    }
    proof {
        assert(b@.take(b@.len() as int) =~= b@);
        lemma_intersection_symmetric(a@, b@);
    }
    result
}

} // verus!
