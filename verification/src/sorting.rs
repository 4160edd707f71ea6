//! What it means for a list to come out of a stable sort.

use vstd::prelude::*;

verus! {

/// `p` lists each index below `n` exactly once.
pub open spec fn is_index_permutation(p: Seq<int>, n: int) -> bool {
    &&& p.len() == n
    &&& forall|i: int| 0 <= i < n ==> 0 <= #[trigger] p[i] < n
    &&& forall|i: int, j: int| 0 <= i < n && 0 <= j < n && i != j ==> #[trigger] p[i] != #[trigger] p[j]
}

/// Along `out`, whose elements came from positions `p`, an element is either
/// strictly before each later one, or tied with it and earlier in the input.
pub open spec fn in_stable_order<T>(before: spec_fn(T, T) -> bool, out: Seq<T>, p: Seq<int>) -> bool {
    forall|k: int, l: int|
        0 <= k < l < out.len() ==> before(#[trigger] out[k], #[trigger] out[l]) || (!before(
            out[l],
            out[k],
        ) && p[k] < p[l])
}

/// `out` is `input` sorted stably by the strict order `before`: a
/// rearrangement of it in which ties keep their input order.
pub open spec fn stably_sorted<T>(before: spec_fn(T, T) -> bool, input: Seq<T>, out: Seq<T>) -> bool {
    exists|p: Seq<int>|
        {
            &&& is_index_permutation(p, input.len() as int)
            &&& out.len() == input.len()
            &&& forall|k: int| 0 <= k < out.len() ==> #[trigger] out[k] == input[p[k]]
            &&& in_stable_order(before, out, p)
        }
}

/// Nothing in `out` comes strictly before an element ahead of it.
pub open spec fn is_sorted_by<T>(before: spec_fn(T, T) -> bool, out: Seq<T>) -> bool {
    forall|k: int, l: int| 0 <= k < l < out.len() ==> !before(#[trigger] out[l], #[trigger] out[k])
}


/// A strict weak order on a type, decidable at run time.
pub trait StableKey: Sized {
    /// `a` goes strictly before `b`.
    spec fn goes_before(a: Self, b: Self) -> bool;

    /// `goes_before` is irreflexive, asymmetric, transitive, and stays
    /// strict past anything tied with or after its right side.
    proof fn lemma_strict_weak_order(x: Self, a: Self, b: Self)
        ensures
            !Self::goes_before(x, x),
            Self::goes_before(x, a) ==> !Self::goes_before(a, x),
            Self::goes_before(x, a) && Self::goes_before(a, b) ==> Self::goes_before(x, b),
            Self::goes_before(x, a) && !Self::goes_before(b, a) ==> Self::goes_before(x, b),
    ;

    /// Whether `self` goes strictly before `other`.
    fn goes_before_exec(&self, other: &Self) -> (r: bool)
        ensures
            r == Self::goes_before(*self, *other),
    ;
}

/// `goes_before` of `T` as a function value.
pub open spec fn order_of<T: StableKey>() -> spec_fn(T, T) -> bool {
    |a: T, b: T| T::goes_before(a, b)
}

/// Sorts `v` stably (insertion sort).
pub fn stable_sort<T: StableKey>(v: Vec<T>) -> (r: Vec<T>)
    ensures
        stably_sorted(order_of::<T>(), v@, r@),
{
    let ghost orig = v@;
    assert(orig.len() == v.len());
    let mut input = v;
    let mut out: Vec<T> = Vec::new();
    let ghost mut p: Seq<int> = seq![];
    let mut i: usize = 0;
    assert(orig.skip(0) == orig);
    while input.len() > 0
        invariant
            i + input@.len() == orig.len(),
            orig.len() <= usize::MAX,
            input@ == orig.skip(i as int),
            out@.len() == i,
            p.len() == i,
            forall|k: int| 0 <= k < i ==> 0 <= #[trigger] p[k] < i,
            forall|k: int, l: int|
                0 <= k < i && 0 <= l < i && k != l ==> #[trigger] p[k] != #[trigger] p[l],
            forall|k: int| 0 <= k < i ==> #[trigger] out@[k] == orig[p[k]],
            in_stable_order(order_of::<T>(), out@, p),
        decreases input@.len(),
    {
        let x = input.remove(0);
        assert(x == orig[i as int]);
        assert(input@ == orig.skip(i + 1));
        let mut pos: usize = 0;
        loop
            invariant
                pos <= out@.len(),
                forall|k: int| 0 <= k < pos ==> !T::goes_before(x, #[trigger] out@[k]),
            ensures
                pos <= out@.len(),
                forall|k: int| 0 <= k < pos ==> !T::goes_before(x, #[trigger] out@[k]),
                pos < out@.len() ==> T::goes_before(x, out@[pos as int]),
            decreases out@.len() - pos,
        {
            if pos >= out.len() {
                break;
            }
            if x.goes_before_exec(&out[pos]) {
                break;
            }
            pos = pos + 1;
        }
        proof {
            assert forall|m: int| pos <= m < out@.len() implies T::goes_before(
                x,
                #[trigger] out@[m],
            ) by {
                if m > pos {
                    assert(order_of::<T>()(out@[pos as int], out@[m]) || !order_of::<T>()(
                        out@[m],
                        out@[pos as int],
                    ));
                    T::lemma_strict_weak_order(x, out@[pos as int], out@[m]);
                }
            }
        }
        let ghost old_out = out@;
        let ghost old_p = p;
        out.insert(pos, x);
        proof {
            p = p.insert(pos as int, i as int);
            let ord = order_of::<T>();
            assert forall|k: int, l: int| 0 <= k < l < out@.len() implies ord(
                #[trigger] out@[k],
                #[trigger] out@[l],
            ) || (!ord(out@[l], out@[k]) && p[k] < p[l]) by {
                if l < pos {
                    assert(ord(old_out[k], old_out[l]) || (!ord(old_out[l], old_out[k]) && old_p[k]
                        < old_p[l]));
                } else if l == pos {
                    T::lemma_strict_weak_order(x, old_out[k], old_out[k]);
                } else if k < pos {
                    assert(ord(old_out[k], old_out[l - 1]) || (!ord(old_out[l - 1], old_out[k])
                        && old_p[k] < old_p[l - 1]));
                } else if k == pos {
                    T::lemma_strict_weak_order(x, old_out[l - 1], old_out[l - 1]);
                } else {
                    assert(ord(old_out[k - 1], old_out[l - 1]) || (!ord(old_out[l - 1], old_out[k
                        - 1]) && old_p[k - 1] < old_p[l - 1]));
                }
            }
        }
        i = i + 1;
    }
    out
}


/// An index permutation reaches every index below `n`.
proof fn lemma_index_permutation_onto(p: Seq<int>, n: int, j: int)
    requires
        is_index_permutation(p, n),
        0 <= j < n,
    ensures
        exists|k: int| 0 <= k < n && p[k] == j,
{
    let range = vstd::set_lib::set_int_range(0, n);
    assert(p.no_duplicates()) by {
        assert forall|a: int, b: int| 0 <= a < p.len() && 0 <= b < p.len() && a != b implies p[a]
            != p[b] by {}
    }
    p.unique_seq_to_set();
    vstd::set_lib::lemma_int_range(0, n);
    vstd::seq_lib::seq_to_set_is_finite(p);
    assert(p.to_set().subset_of(range)) by {
        assert forall|x: int| p.to_set().contains(x) implies range.contains(x) by {
            let i = choose|i: int| 0 <= i < p.len() && p[i] == x;
            assert(0 <= p[i] < n);
        }
    }
    vstd::set_lib::lemma_subset_equality(p.to_set(), range);
    assert(range.contains(j));
    assert(p.to_set().contains(j));
    assert(p.contains(j));
}

/// What a stable sort gives is sorted, as long as the input, made of the
/// input's elements, and holds each of them.
pub proof fn lemma_stably_sorted_is_sorted<T: StableKey>(input: Seq<T>, out: Seq<T>)
    requires
        stably_sorted(order_of::<T>(), input, out),
    ensures
        is_sorted_by(order_of::<T>(), out),
        out.len() == input.len(),
        forall|k: int| 0 <= k < out.len() ==> input.contains(#[trigger] out[k]),
        forall|j: int| 0 <= j < input.len() ==> out.contains(#[trigger] input[j]),
{
    let p = choose|p: Seq<int>|
        {
            &&& is_index_permutation(p, input.len() as int)
            &&& out.len() == input.len()
            &&& forall|k: int| 0 <= k < out.len() ==> #[trigger] out[k] == input[p[k]]
            &&& in_stable_order(order_of::<T>(), out, p)
        };
    assert forall|k: int, l: int| 0 <= k < l < out.len() implies !order_of::<T>()(
        #[trigger] out[l],
        #[trigger] out[k],
    ) by {
        T::lemma_strict_weak_order(out[k], out[l], out[l]);
    }
    assert forall|k: int| 0 <= k < out.len() implies input.contains(#[trigger] out[k]) by {
        assert(out[k] == input[p[k]]);
    }
    assert forall|j: int| 0 <= j < input.len() implies out.contains(#[trigger] input[j]) by {
        lemma_index_permutation_onto(p, input.len() as int, j);
        let k = choose|k: int| 0 <= k < input.len() && p[k] == j;
        assert(out[k] == input[j]);
    }
}

} // verus!
