//! Removing elements of a vector by their position.
use vstd::prelude::*;

verus! {

/// The elements of `s` whose flag in `keep` is set, in their order.
pub open spec fn kept<T>(s: Seq<T>, keep: Seq<bool>) -> Seq<T>
    decreases s.len(),
{
    if s.len() == 0 || keep.len() == 0 {
        Seq::empty()
    } else if keep.last() {
        kept(s.drop_last(), keep.drop_last()).push(s.last())
    } else {
        kept(s.drop_last(), keep.drop_last())
    }
}

/// How many flags of `keep` are set.
pub open spec fn count_kept(keep: Seq<bool>) -> nat
    decreases keep.len(),
{
    if keep.len() == 0 {
        0
    } else {
        count_kept(keep.drop_last()) + if keep.last() {
            1nat
        } else {
            0nat
        }
    }
}

pub proof fn lemma_kept_len<T>(s: Seq<T>, keep: Seq<bool>)
    requires
        s.len() == keep.len(),
    ensures
        kept(s, keep).len() == count_kept(keep),
    decreases s.len(),
{
    if s.len() > 0 {
        lemma_kept_len(s.drop_last(), keep.drop_last());
    }
}

/// Keeps the elements for which a predicate of their position and value holds.
pub trait RetainIndexed<T> {
    fn retain_indexed<F: Fn(usize, &T) -> bool>(&mut self, f: F)
        requires
            forall|i: usize, x: &T| #[trigger] f.requires((i, x)),
    ;
}

impl<T> RetainIndexed<T> for Vec<T> {
    fn retain_indexed<F: Fn(usize, &T) -> bool>(&mut self, f: F)
        ensures
            exists|keep: Seq<bool>|
                {
                    &&& keep.len() == old(self)@.len()
                    &&& forall|i: int|
                        0 <= i < keep.len() ==> #[trigger] f.ensures(
                            (i as usize, &old(self)@[i]),
                            keep[i],
                        )
                    &&& final(self)@ == kept(old(self)@, keep)
                },
    {
        let ghost o = self@;
        let ghost mut keep: Seq<bool> = Seq::empty();
        let n = self.len();
        let mut i: usize = 0;
        let mut j: usize = 0;
        while j < n
            invariant
                n == o.len(),
                j <= n,
                i <= j,
                keep.len() == j,
                forall|t: usize, x: &T| #[trigger] f.requires((t, x)),
                forall|t: int| 0 <= t < j ==> #[trigger] f.ensures((t as usize, &o[t]), keep[t]),
                i == kept(o.take(j as int), keep).len(),
                self@ == kept(o.take(j as int), keep) + o.subrange(j as int, n as int),
            decreases n - j,
        {
            proof {
                assert(self@[i as int] == o[j as int]);
            }
            let b = f(j, &self[i]);
            proof {
                let k2 = keep.push(b);
                assert(o.take(j + 1).drop_last() =~= o.take(j as int));
                assert(k2.drop_last() =~= keep);
                keep = k2;
            }
            if b {
                i = i + 1;
            } else {
                self.remove(i);
            }
            j = j + 1;
            assert(self@ =~= kept(o.take(j as int), keep) + o.subrange(j as int, n as int));
        }
        assert(o.take(n as int) =~= o);
        assert(self@ =~= kept(o, keep));
    }
}

} // verus!
