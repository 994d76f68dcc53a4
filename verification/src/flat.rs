//! Sequence-level model of flattening: a column is a sequence of chunks, and
//! its logical contents are the concatenation of the per-chunk slot sequences.

use vstd::prelude::*;

verus! {

/// Concatenation of a sequence of sequences, in order.
pub open spec fn concat_all<A>(cs: Seq<Seq<A>>) -> Seq<A>
    decreases cs.len(),
{
    if cs.len() == 0 {
        Seq::empty()
    } else {
        cs.first() + concat_all(cs.drop_first())
    }
}

/// Number of slots of `cs` that lie before chunk `k`.
pub open spec fn len_before<A>(cs: Seq<Seq<A>>, k: int) -> int {
    concat_all(cs.take(k)).len() as int
}

pub proof fn lemma_concat_all_push<A>(cs: Seq<Seq<A>>, c: Seq<A>)
    ensures
        concat_all(cs.push(c)) =~= concat_all(cs) + c,
    decreases cs.len(),
{
    if cs.len() == 0 {
        assert(cs.push(c).drop_first() =~= Seq::<Seq<A>>::empty());
        assert(cs.push(c).first() == c);
        assert(concat_all(Seq::<Seq<A>>::empty()) =~= Seq::<A>::empty());
    } else {
        assert(cs.push(c).drop_first() =~= cs.drop_first().push(c));
        assert(cs.push(c).first() == cs.first());
        lemma_concat_all_push(cs.drop_first(), c);
    }
}

pub proof fn lemma_concat_all_concat<A>(xs: Seq<Seq<A>>, ys: Seq<Seq<A>>)
    ensures
        concat_all(xs + ys) =~= concat_all(xs) + concat_all(ys),
    decreases ys.len(),
{
    if ys.len() == 0 {
        assert(xs + ys =~= xs);
    } else {
        lemma_concat_all_concat(xs, ys.drop_last());
        assert(xs + ys =~= (xs + ys.drop_last()).push(ys.last()));
        lemma_concat_all_push(xs + ys.drop_last(), ys.last());
        assert(ys.drop_last().push(ys.last()) =~= ys);
        lemma_concat_all_push(ys.drop_last(), ys.last());
    }
}

/// Unfolds one chunk off the front of the tail `cs.skip(k)`.
pub proof fn lemma_concat_all_step<A>(cs: Seq<Seq<A>>, k: int)
    requires
        0 <= k < cs.len(),
    ensures
        concat_all(cs.skip(k)) =~= cs[k] + concat_all(cs.skip(k + 1)),
{
    assert(cs.skip(k).first() == cs[k]);
    assert(cs.skip(k).drop_first() =~= cs.skip(k + 1));
}

/// A single chunk flattens to itself.
pub proof fn lemma_concat_all_single<A>(c: Seq<A>)
    ensures
        concat_all(seq![c]) =~= c,
{
    assert(seq![c].drop_first() =~= Seq::<Seq<A>>::empty());
    assert(concat_all(Seq::<Seq<A>>::empty()) =~= Seq::<A>::empty());
    assert(seq![c].first() == c);
}

/// Slot `len_before(cs, k) + j` of the flattened column is slot `j` of chunk `k`:
/// chunk boundaries are invisible after flattening.
pub proof fn lemma_concat_all_index<A>(cs: Seq<Seq<A>>, k: int, j: int)
    requires
        0 <= k < cs.len(),
        0 <= j < cs[k].len(),
    ensures
        0 <= len_before(cs, k) + j < concat_all(cs).len(),
        concat_all(cs)[len_before(cs, k) + j] == cs[k][j],
    decreases k,
{
    if k == 0 {
        assert(cs.take(0) =~= Seq::<Seq<A>>::empty());
        assert(cs =~= cs.skip(0));
        lemma_concat_all_step(cs, 0);
    } else {
        lemma_concat_all_index(cs.drop_first(), k - 1, j);
        assert(cs.drop_first().take(k - 1) =~= cs.take(k).drop_first());
        assert(cs.take(k).first() == cs[0]);
        assert(concat_all(cs.take(k)) =~= cs[0] + concat_all(cs.take(k).drop_first()));
        assert(cs.first() == cs[0]);
        assert(concat_all(cs) =~= cs[0] + concat_all(cs.drop_first()));
        assert(cs.drop_first()[k - 1] == cs[k]);
    }
}

/// Appending one more chunk extends the flattened column on the right.
pub proof fn lemma_concat_all_take_push<A>(cs: Seq<Seq<A>>, k: int)
    requires
        0 <= k < cs.len(),
    ensures
        concat_all(cs.take(k + 1)) =~= concat_all(cs.take(k)) + cs[k],
{
    assert(cs.take(k + 1) =~= cs.take(k).push(cs[k]));
    lemma_concat_all_push(cs.take(k), cs[k]);
}

/// The flattened column splits at any chunk boundary.
pub proof fn lemma_concat_all_split<A>(cs: Seq<Seq<A>>, k: int)
    requires
        0 <= k <= cs.len(),
    ensures
        concat_all(cs) =~= concat_all(cs.take(k)) + concat_all(cs.skip(k)),
{
    assert(cs =~= cs.take(k) + cs.skip(k));
    lemma_concat_all_concat(cs.take(k), cs.skip(k));
}

/// Number of absent (`None`) slots in a sequence.
pub open spec fn count_nones<A>(s: Seq<Option<A>>) -> nat
    decreases s.len(),
{
    if s.len() == 0 {
        0
    } else {
        count_nones(s.drop_last()) + if s.last() is None {
            1nat
        } else {
            0nat
        }
    }
}

pub proof fn lemma_count_nones_concat<A>(xs: Seq<Option<A>>, ys: Seq<Option<A>>)
    ensures
        count_nones(xs + ys) == count_nones(xs) + count_nones(ys),
    decreases ys.len(),
{
    if ys.len() == 0 {
        assert(xs + ys =~= xs);
    } else {
        lemma_count_nones_concat(xs, ys.drop_last());
        assert((xs + ys).drop_last() =~= xs + ys.drop_last());
    }
}

pub proof fn lemma_count_nones_le<A>(s: Seq<Option<A>>)
    ensures
        count_nones(s) <= s.len(),
    decreases s.len(),
{
    if s.len() > 0 {
        lemma_count_nones_le(s.drop_last());
    }
}

/// When no slot is absent, the count is zero and every slot is present.
pub proof fn lemma_count_nones_zero<A>(s: Seq<Option<A>>)
    ensures
        count_nones(s) == 0 <==> (forall|i: int| 0 <= i < s.len() ==> s[i] is Some),
    decreases s.len(),
{
    if s.len() > 0 {
        lemma_count_nones_zero(s.drop_last());
        if count_nones(s) == 0 {
            assert forall|i: int| 0 <= i < s.len() implies s[i] is Some by {
                if i < s.len() - 1 {
                    assert(s.drop_last()[i] == s[i]);
                }
            }
        } else {
            if s.last() is Some {
                let i = choose|i: int| 0 <= i < s.drop_last().len() && s.drop_last()[i] is None;
                assert(s[i] is None);
            }
        }
    }
}

} // verus!
