//! The library's stated laws: what holds of every finished column, every
//! flattened sub-column, and every sequence of list rows, proved once and
//! for all against the spec functions the contracts use.

use vstd::prelude::*;
use crate::chunk::ElemValue;
use crate::chunked::{BooleanChunked, NumericChunked, Utf8Chunked, Series};
use crate::flat::{
    concat_all, len_before, lemma_concat_all_single, lemma_concat_all_index,
    lemma_concat_all_concat,
};

verus! {

/// Round trip for numeric columns: a column whose one chunk holds exactly
/// the appended slots reads back, in order, as that same sequence of
/// optional values, with every null in its place. With the builder contracts
/// (each append pushes one slot, finish wraps the slots into one chunk) and
/// the read contracts (`get` returns `flat()[i]`), any sequence fed through
/// `append_option` then `finish` comes back identical.
pub proof fn lemma_round_trip_numeric(vals: Seq<Option<i64>>, c: NumericChunked)
    requires
        c.chunk_views() == seq![vals],
    ensures
        c.flat() =~= vals,
        forall|i: int| 0 <= i < vals.len() ==> c.flat()[i] == vals[i],
{
    lemma_concat_all_single(vals);
}

/// Round trip for boolean columns; see the numeric law.
pub proof fn lemma_round_trip_boolean(vals: Seq<Option<bool>>, c: BooleanChunked)
    requires
        c.chunk_views() == seq![vals],
    ensures
        c.flat() =~= vals,
        forall|i: int| 0 <= i < vals.len() ==> c.flat()[i] == vals[i],
{
    lemma_concat_all_single(vals);
}

/// Round trip for string columns; see the numeric law.
pub proof fn lemma_round_trip_utf8(vals: Seq<Option<Seq<u8>>>, c: Utf8Chunked)
    requires
        c.chunk_views() == seq![vals],
    ensures
        c.flat() =~= vals,
        forall|i: int| 0 <= i < vals.len() ==> c.flat()[i] == vals[i],
{
    lemma_concat_all_single(vals);
}

/// Flattening preserves a sub-column's length and every slot: position
/// `len_before(views, k) + j` of the flattened run is exactly slot `j` of
/// chunk `k`, so per-position nulls survive flattening wherever the chunk
/// boundaries lay. `append_series` pushes `Some(elem_view)` as the one new
/// row, so the row read back has the sub-column's length and nulls.
pub proof fn lemma_flatten_preserves_slots(views: Seq<Seq<Option<ElemValue>>>, k: int, j: int)
    requires
        0 <= k < views.len(),
        0 <= j < views[k].len(),
    ensures
        0 <= len_before(views, k) + j < concat_all(views).len(),
        concat_all(views)[len_before(views, k) + j] == views[k][j],
{
    lemma_concat_all_index(views, k, j);
}

/// A flattened sub-column is as long as the sub-column itself, and a slot
/// of the flattened run is absent exactly where the sub-column's slot is.
pub proof fn lemma_flatten_length(s: Series)
    requires
        s.wf(),
        !(s is List),
    ensures
        s.elem_view().len() == s.spec_len(),
        s matches Series::Numeric(ca) ==> forall|i: int|
            0 <= i < ca.flat().len() ==> ((#[trigger] s.elem_view()[i]) is None <==> ca.flat()[i]
                is None),
        s matches Series::Boolean(ca) ==> forall|i: int|
            0 <= i < ca.flat().len() ==> ((#[trigger] s.elem_view()[i]) is None <==> ca.flat()[i]
                is None),
        s matches Series::Utf8(ca) ==> forall|i: int|
            0 <= i < ca.flat().len() ==> ((#[trigger] s.elem_view()[i]) is None <==> ca.flat()[i]
                is None),
{
}

/// The three-state distinction: after a null row, an empty sub-column row
/// and a one-element sub-column row, the last three rows read back as a
/// null list, an empty list and a one-element list -- three pairwise
/// distinct states, in that order, never collapsed.
pub proof fn lemma_three_state(
    rows0: Seq<Option<Seq<Option<ElemValue>>>>,
    e: Seq<Option<ElemValue>>,
    v: Option<ElemValue>,
)
    requires
        e.len() == 0,
    ensures
        ({
            let rows3 = rows0.push(None).push(Some(e)).push(Some(seq![v]));
            &&& rows3.len() == rows0.len() + 3
            &&& rows3[rows0.len() as int] is None
            &&& rows3[rows0.len() as int + 1] matches Some(r) && r.len() == 0
            &&& rows3[rows0.len() as int + 2] matches Some(r) && r == seq![v]
            &&& rows3[rows0.len() as int] != rows3[rows0.len() as int + 1]
            &&& rows3[rows0.len() as int + 1] != rows3[rows0.len() as int + 2]
            &&& rows3[rows0.len() as int] != rows3[rows0.len() as int + 2]
        }),
{
    let rows3 = rows0.push(None).push(Some(e)).push(Some(seq![v]));
    assert(rows3[rows0.len() as int + 2] == Some(seq![v]));
    assert(seq![v].len() == 1);
}

/// Chunk boundaries are invisible: splitting one chunk anywhere flattens to
/// the same run as the unsplit chunk.
pub proof fn lemma_split_chunk<A>(c: Seq<A>, m: int)
    requires
        0 <= m <= c.len(),
    ensures
        concat_all(seq![c.take(m), c.skip(m)]) =~= concat_all(seq![c]),
{
    lemma_concat_all_single(c);
    assert(seq![c.take(m), c.skip(m)] =~= seq![c.take(m)] + seq![c.skip(m)]);
    lemma_concat_all_concat(seq![c.take(m)], seq![c.skip(m)]);
    lemma_concat_all_single(c.take(m));
    lemma_concat_all_single(c.skip(m));
    assert(c.take(m) + c.skip(m) =~= c);
}

/// Bulk-vs-per-element equivalence: a multi-chunk numeric column and a
/// single-chunk column holding the same slots flatten to the same run; by
/// the contract of `append_series`, which pushes `Some(elem_view)` whatever
/// path each chunk took, appending either yields byte-identical list rows.
pub proof fn lemma_bulk_per_element_equivalence(a: NumericChunked, b: NumericChunked)
    requires
        b.chunk_views() == seq![concat_all(a.chunk_views())],
    ensures
        Series::Numeric(a).elem_view() =~= Series::Numeric(b).elem_view(),
{
    lemma_concat_all_single(concat_all(a.chunk_views()));
}

} // verus!
