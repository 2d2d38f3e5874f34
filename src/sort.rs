//! Stable ordering of decoded records by a numeric key.
use vstd::prelude::*;

verus! {

/// A record with a view and a numeric key that orders lists of it.
pub trait Keyed: View + Sized {
    spec fn key_of(v: Self::V) -> u64;

    fn key(&self) -> (r: u64)
        ensures
            r == Self::key_of(self@),
    ;
}

/// `s` with `x` placed after every element whose key is at most that of `x`,
/// counting from the back.
pub open spec fn insert_by_key<T: Keyed>(s: Seq<T::V>, x: T::V) -> Seq<T::V>
    decreases s.len(),
{
    if s.len() == 0 {
        seq![x]
    } else if T::key_of(s.last()) <= T::key_of(x) {
        s.push(x)
    } else {
        insert_by_key::<T>(s.drop_last(), x).push(s.last())
    }
}

/// `s` ordered by key; elements with equal keys keep their order.
pub open spec fn sorted_by_key<T: Keyed>(s: Seq<T::V>) -> Seq<T::V>
    decreases s.len(),
{
    if s.len() == 0 {
        s
    } else {
        insert_by_key::<T>(sorted_by_key::<T>(s.drop_last()), s.last())
    }
}

pub open spec fn views<T: View>(s: Seq<T>) -> Seq<T::V> {
    s.map_values(|t: T| t@)
}

proof fn lemma_insert_at<T: Keyed>(s: Seq<T::V>, x: T::V, j: int)
    requires
        0 <= j <= s.len(),
        forall|k: int| j <= k < s.len() ==> T::key_of(#[trigger] s[k]) > T::key_of(x),
        j > 0 ==> T::key_of(s[j - 1]) <= T::key_of(x),
    ensures
        insert_by_key::<T>(s, x) == s.insert(j, x),
    decreases s.len(),
{
    if s.len() == 0 {
        assert(s.insert(j, x) =~= seq![x]);
    } else if j == s.len() {
        assert(s.insert(j, x) =~= s.push(x));
    } else {
        let d = s.drop_last();
        assert(T::key_of(s[s.len() - 1]) > T::key_of(x));
        lemma_insert_at::<T>(d, x, j);
        assert(d.insert(j, x).push(s.last()) =~= s.insert(j, x));
    }
}

/// Orders `v` by key, keeping the order of elements with equal keys.
pub fn sort_by_key<T: Keyed>(v: Vec<T>) -> (r: Vec<T>)
    ensures
        views(r@) == sorted_by_key::<T>(views(v@)),
{
    let ghost orig = views(v@);
    let mut src = v;
    let mut out: Vec<T> = Vec::new();
    let ghost mut k: int = 0;
    assert(orig.subrange(0, 0) =~= Seq::<T::V>::empty());
    assert(views(out@) =~= Seq::<T::V>::empty());
    while src.len() > 0
        invariant
            0 <= k <= orig.len(),
            views(src@) == orig.subrange(k, orig.len() as int),
            views(out@) == sorted_by_key::<T>(orig.subrange(0, k)),
        decreases src.len(),
    {
        let ghost prev = src@;
        let x = src.remove(0);
        assert(views(src@) =~= orig.subrange(k + 1, orig.len() as int)) by {
            assert(views(prev) == orig.subrange(k, orig.len() as int));
            assert(views(prev).len() == prev.len());
            assert(src@.len() == prev.len() - 1);
            assert(views(src@).len() == src@.len());
            assert forall|m: int| 0 <= m < src@.len() implies views(src@)[m] == orig[k + 1 + m] by {
                assert(src@[m] == prev[m + 1]);
                assert(views(prev)[m + 1] == orig.subrange(k, orig.len() as int)[m + 1]);
            }
        }
        assert(views(prev).len() == prev.len());
        assert(k < orig.len());
        assert(x@ == orig[k]) by {
            assert(views(prev)[0] == x@);
            assert(views(prev)[0] == orig.subrange(k, orig.len() as int)[0]);
        }
        let xk = x.key();
        let mut j = out.len();
        while j > 0 && out[j - 1].key() > xk
            invariant
                j <= out.len(),
                forall|m: int| j <= m < out@.len() ==> T::key_of(#[trigger] views(out@)[m]) > xk,
            decreases j,
        {
            j = j - 1;
        }
        let ghost before = views(out@);
        proof {
            lemma_insert_at::<T>(before, x@, j as int);
        }
        out.insert(j, x);
        assert(views(out@) =~= before.insert(j as int, orig[k]));
        assert(orig.subrange(0, k + 1).drop_last() =~= orig.subrange(0, k));
        proof {
            k = k + 1;
        }
    }
    assert(orig.subrange(0, k) =~= orig);
    out
}

} // verus!
