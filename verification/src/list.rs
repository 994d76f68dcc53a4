//! List builders: each owns an inner scalar or string builder as its values
//! sink plus an outer offsets-and-validity layer, and implements the
//! sub-column flattening algorithm. A list row is a (start, end) range into
//! the one contiguous child array plus one outer validity bit; the three row
//! states -- null list, empty list, non-empty list -- are never collapsed.

use vstd::prelude::*;
use crate::dtypes::{DataType, Field};
use crate::chunk::{
    BooleanChunk, NumericChunk, Utf8Chunk, ListChunk, InnerChunk, ElemValue, slots, lift_bool,
    lift_num, lift_utf8,
};
use crate::chunked::{ListChunked, Series};
use crate::builder::{BooleanChunkedBuilder, PrimitiveChunkedBuilder, Utf8ChunkedBuilder, has_false};
use crate::flat::{
    concat_all, count_nones, lemma_concat_all_single, lemma_concat_all_take_push,
    lemma_concat_all_split, lemma_count_nones_concat,
};

verus! {

/// Offsets never step backwards.
pub open spec fn offsets_monotone(offsets: Seq<usize>) -> bool {
    forall|i: int, j: int|
        0 <= i <= j < offsets.len() ==> #[trigger] offsets[i] <= #[trigger] offsets[j]
}

/// The outer layer of a list builder or chunk is sound: one more offset than
/// rows, starting at zero, never stepping backwards, ending at the child's
/// length, and advancing no offset over a null row.
pub open spec fn list_wf(child_len: nat, offsets: Seq<usize>, validity: Seq<bool>) -> bool {
    &&& offsets.len() == validity.len() + 1
    &&& offsets[0] == 0
    &&& offsets_monotone(offsets)
    &&& offsets.last() == child_len
    &&& forall|i: int|
        0 <= i < validity.len() && !validity[i] ==> #[trigger] offsets[i] == offsets[i + 1]
}

/// The three-state rows encoded by a child array, offsets and validity:
/// `None` for a null list, else the child elements between two offsets.
pub open spec fn list_rows(
    child: Seq<Option<ElemValue>>,
    offsets: Seq<usize>,
    validity: Seq<bool>,
) -> Seq<Option<Seq<Option<ElemValue>>>> {
    slots(
        Seq::new(validity.len(), |i: int| child.subrange(offsets[i] as int, offsets[i + 1] as int)),
        Some(validity),
    )
}

/// Writing a null row advances no offset and changes no earlier row.
pub proof fn lemma_list_push_null(
    child: Seq<Option<ElemValue>>,
    offsets: Seq<usize>,
    validity: Seq<bool>,
)
    requires
        list_wf(child.len(), offsets, validity),
    ensures
        list_wf(child.len(), offsets.push(offsets.last()), validity.push(false)),
        list_rows(child, offsets.push(offsets.last()), validity.push(false)) =~~= list_rows(
            child,
            offsets,
            validity,
        ).push(None),
{
    let off1 = offsets.push(offsets.last());
    let val1 = validity.push(false);
    assert forall|i: int, j: int| 0 <= i <= j < off1.len() implies #[trigger] off1[i]
        <= #[trigger] off1[j] by {
        if j < off1.len() - 1 {
        } else {
            if i < j {
                assert(off1[i] == offsets[i]);
            }
        }
    }
    assert(list_wf(child.len(), off1, val1));
    assert forall|t: int| 0 <= t < val1.len() implies list_rows(child, off1, val1)[t]
        == list_rows(child, offsets, validity).push(None)[t] by {
        if t < validity.len() {
            assert(off1[t] == offsets[t]);
            assert(off1[t + 1] == offsets[t + 1]);
        }
    }
    assert(list_rows(child, off1, val1) =~~= list_rows(child, offsets, validity).push(None));
}

/// Closing a list row after the child grew by `add` appends exactly one
/// present row holding `add`, and leaves every earlier row untouched:
/// however the sub-column was chunked, its elements become one contiguous
/// run behind one new offset.
pub proof fn lemma_list_close_row(
    child0: Seq<Option<ElemValue>>,
    add: Seq<Option<ElemValue>>,
    offsets: Seq<usize>,
    validity: Seq<bool>,
)
    requires
        list_wf(child0.len(), offsets, validity),
        child0.len() + add.len() <= usize::MAX,
    ensures
        list_wf(
            (child0 + add).len(),
            offsets.push((child0.len() + add.len()) as usize),
            validity.push(true),
        ),
        list_rows(
            child0 + add,
            offsets.push((child0.len() + add.len()) as usize),
            validity.push(true),
        ) =~~= list_rows(child0, offsets, validity).push(Some(add)),
{
    let child1 = child0 + add;
    let newlen = (child0.len() + add.len()) as usize;
    let off1 = offsets.push(newlen);
    let val1 = validity.push(true);
    assert forall|i: int, j: int| 0 <= i <= j < off1.len() implies #[trigger] off1[i]
        <= #[trigger] off1[j] by {
        if j < off1.len() - 1 {
        } else {
            if i < j {
                assert(off1[i] == offsets[i]);
                assert(offsets[i] <= offsets.last());
            }
        }
    }
    assert(list_wf(child1.len(), off1, val1));
    assert forall|t: int| 0 <= t < val1.len() implies list_rows(child1, off1, val1)[t]
        == list_rows(child0, offsets, validity).push(Some(add))[t] by {
        if t < validity.len() {
            assert(off1[t] == offsets[t]);
            assert(off1[t + 1] == offsets[t + 1]);
            assert(offsets[t + 1] <= offsets.last());
            assert(child1.subrange(offsets[t] as int, offsets[t + 1] as int) =~= child0.subrange(
                offsets[t] as int,
                offsets[t + 1] as int,
            ));
        } else {
            assert(off1[t] == offsets.last());
            assert(child1.subrange(child0.len() as int, child1.len() as int) =~= add);
        }
    }
    assert(list_rows(child1, off1, val1) =~~= list_rows(child0, offsets, validity).push(
        Some(add),
    ));
}

/// Builds a list column whose elements are numeric values.
pub struct ListPrimitiveChunkedBuilder {
    pub builder: PrimitiveChunkedBuilder,
    pub offsets: Vec<usize>,
    pub validity: Vec<bool>,
    pub field: Field,
}

impl ListPrimitiveChunkedBuilder {
    /// The contiguous child elements accumulated so far.
    pub open spec fn child_view(self) -> Seq<Option<ElemValue>> {
        lift_num(self.builder.view())
    }

    /// The three-state list rows appended so far.
    pub open spec fn rows(self) -> Seq<Option<Seq<Option<ElemValue>>>> {
        list_rows(self.child_view(), self.offsets@, self.validity@)
    }

    pub open spec fn wf(self) -> bool {
        &&& self.builder.wf()
        &&& list_wf(self.child_view().len(), self.offsets@, self.validity@)
        &&& self.field.dtype matches DataType::List(e) && *e is Numeric
    }

    /// `capacity` counts list rows, `values_capacity` the child elements;
    /// both advisory.
    pub fn new(name: &str, capacity: usize, values_capacity: usize) -> (b: Self)
        ensures
            b.wf(),
            b.rows() =~= Seq::<Option<Seq<Option<ElemValue>>>>::empty(),
            b.child_view().len() == 0,
            b.field.name@ == name@,
    {
        let mut offsets: Vec<usize> = Vec::with_capacity(capacity);
        offsets.push(0);
        let b = ListPrimitiveChunkedBuilder {
            builder: PrimitiveChunkedBuilder::new("", values_capacity),
            offsets,
            validity: Vec::with_capacity(capacity),
            field: Field::new(name, DataType::List(Box::new(DataType::Numeric))),
        };
        proof {
            assert(b.rows() =~= Seq::<Option<Seq<Option<ElemValue>>>>::empty());
        }
        b
    }

    /// Writes a null list row: the outer bit is absent and no offset
    /// advances.
    pub fn append_null(&mut self)
        requires
            old(self).wf(),
        ensures
            final(self).wf(),
            final(self).rows() =~~= old(self).rows().push(None),
            final(self).child_view() == old(self).child_view(),
            final(self).field == old(self).field,
    {
        let end = self.builder.values.len();
        self.offsets.push(end);
        self.validity.push(false);
        proof {
            assert(old(self).offsets@.last() == end);
            lemma_list_push_null(self.child_view(), old(self).offsets@, old(self).validity@);
        }
    }

    /// Appends one list row from a whole slice: present values become one
    /// non-empty row, `None` becomes a null row.
    pub fn append_slice(&mut self, opt_v: Option<&[i64]>)
        requires
            old(self).wf(),
            opt_v matches Some(v) ==> old(self).child_view().len() + v@.len() <= usize::MAX,
        ensures
            final(self).wf(),
            final(self).rows() =~~= old(self).rows().push(
                match opt_v {
                    Some(v) => Some(lift_num(slots(v@, None))),
                    None => None,
                },
            ),
            final(self).child_view().len() == old(self).child_view().len() + (match opt_v {
                Some(v) => v@.len(),
                None => 0nat,
            }),
            final(self).field == old(self).field,
    {
        match opt_v {
            Some(v) => {
                self.builder.append_slice(v);
                let end = self.builder.values.len();
                self.offsets.push(end);
                self.validity.push(true);
                proof {
                    assert(self.child_view() =~= old(self).child_view() + lift_num(
                        slots(v@, None),
                    ));
                    lemma_list_close_row(
                        old(self).child_view(),
                        lift_num(slots(v@, None)),
                        old(self).offsets@,
                        old(self).validity@,
                    );
                }
            },
            None => {
                self.append_null();
            },
        }
    }

    /// One list row from a whole finished sub-column, or a null row.
    pub fn append_opt_series(&mut self, opt_s: Option<&Series>)
        requires
            old(self).wf(),
            opt_s matches Some(s) ==> s.wf() && *s is Numeric && old(self).child_view().len()
                + s.spec_len() <= usize::MAX,
        ensures
            final(self).wf(),
            final(self).rows() =~~= old(self).rows().push(
                match opt_s {
                    Some(s) => Some(s.elem_view()),
                    None => None,
                },
            ),
            final(self).child_view().len() == old(self).child_view().len() + (match opt_s {
                Some(s) => s.spec_len(),
                None => 0nat,
            }),
            final(self).field == old(self).field,
    {
        match opt_s {
            Some(s) => self.append_series(s),
            None => self.append_null(),
        }
    }

    /// The flattening algorithm: every chunk of the sub-column is drained
    /// into the child array in order -- bulk when the sub-column has no null
    /// at all, per-element otherwise -- and then one present row is closed
    /// over the new offset. The sub-column's own chunk boundaries are
    /// invisible in the result.
    pub fn append_series(&mut self, s: &Series)
        requires
            old(self).wf(),
            s.wf(),
            *s is Numeric,
            old(self).child_view().len() + s.spec_len() <= usize::MAX,
        ensures
            final(self).wf(),
            final(self).rows() =~~= old(self).rows().push(Some(s.elem_view())),
            final(self).child_view().len() == old(self).child_view().len() + s.spec_len(),
            final(self).field == old(self).field,
    {
        let ca = match s {
            Series::Numeric(ca) => ca,
            _ => vstd::pervasive::unreached(),
        };
        proof {
            assert(*s == Series::Numeric(*ca));
        }
        let zero_nulls = s.null_count() == 0;
        let ghost iv0 = self.builder.view();
        let ghost cviews = ca.chunk_views();
        proof {
            assert(iv0 + concat_all(cviews.take(0)) =~= iv0);
        }
        let nchunks = ca.chunks.len();
        let mut k: usize = 0;
        while k < nchunks
            invariant
                s.wf(),
                *s == Series::Numeric(*ca),
                ca.wf(),
                nchunks == ca.chunks@.len(),
                k <= nchunks,
                cviews == ca.chunk_views(),
                zero_nulls == (count_nones(ca.flat()) == 0),
                self.builder.wf(),
                self.builder.field == old(self).builder.field,
                self.offsets@ == old(self).offsets@,
                self.validity@ == old(self).validity@,
                self.field == old(self).field,
                iv0 == old(self).builder.view(),
                iv0.len() + ca.flat().len() <= usize::MAX,
                self.builder.view() =~= iv0 + concat_all(cviews.take(k as int)),
            decreases nchunks - k,
        {
            let chunk = &ca.chunks[k];
            let ghost cview = chunk.view();
            proof {
                lemma_concat_all_take_push(cviews, k as int);
                lemma_concat_all_split(cviews, k + 1);
                lemma_count_nones_concat(
                    concat_all(cviews.take(k as int)),
                    cviews[k as int],
                );
                lemma_count_nones_concat(
                    concat_all(cviews.take(k + 1)),
                    concat_all(cviews.skip(k + 1)),
                );
            }
            if zero_nulls {
                proof {
                    crate::flat::lemma_count_nones_zero(cview);
                    match &chunk.validity {
                        Some(bits) => {
                            crate::chunk::lemma_count_nones_slots(chunk.values@, bits@);
                            assert forall|t: int| 0 <= t < cview.len() implies cview[t] == Some(
                                chunk.values@[t],
                            ) by {}
                        },
                        None => {},
                    }
                    assert(cview =~= slots(chunk.values@, None));
                }
                self.builder.append_slice(chunk.values.as_slice());
            } else {
                let clen = chunk.len();
                let mut idx: usize = 0;
                proof {
                    assert(self.builder.view() =~= iv0 + concat_all(cviews.take(k as int))
                        + cview.take(0));
                }
                while idx < clen
                    invariant
                        chunk.wf(),
                        cview == chunk.view(),
                        clen == cview.len(),
                        idx <= clen,
                        self.builder.wf(),
                        self.builder.field == old(self).builder.field,
                        self.offsets@ == old(self).offsets@,
                        self.validity@ == old(self).validity@,
                        self.field == old(self).field,
                        self.builder.view() =~= iv0 + concat_all(cviews.take(k as int))
                            + cview.take(idx as int),
                    decreases clen - idx,
                {
                    let present = match &chunk.validity {
                        None => true,
                        Some(bits) => bits[idx],
                    };
                    if present {
                        self.builder.append_value(chunk.values[idx]);
                    } else {
                        self.builder.append_null();
                    }
                    proof {
                        assert(cview.take(idx + 1) =~= cview.take(idx as int).push(
                            cview[idx as int],
                        ));
                    }
                    idx = idx + 1;
                }
                proof {
                    assert(cview.take(clen as int) =~= cview);
                }
            }
            k = k + 1;
        }
        proof {
            assert(cviews.take(nchunks as int) =~= cviews);
        }
        let end = self.builder.values.len();
        self.offsets.push(end);
        self.validity.push(true);
        proof {
            assert(self.child_view() =~= old(self).child_view() + lift_num(ca.flat()));
            lemma_list_close_row(
                old(self).child_view(),
                lift_num(ca.flat()),
                old(self).offsets@,
                old(self).validity@,
            );
            assert(s.elem_view() == lift_num(ca.flat()));
        }
    }

    /// Wraps the whole builder state into a single-chunk list column,
    /// consuming the builder; bitmaps that saw no null are omitted.
    pub fn finish(self) -> (c: ListChunked)
        requires
            self.wf(),
        ensures
            c.wf(),
            c.field == self.field,
            c.chunks@.len() == 1,
            c.flat() =~~= self.rows(),
    {
        let n_rows = self.validity.len();
        proof {
            assert(self.rows().len() == n_rows);
        }
        let inner_null = has_false(&self.builder.validity);
        let outer_null = has_false(&self.validity);
        let child_chunk = NumericChunk {
            values: self.builder.values,
            validity: if inner_null {
                Some(self.builder.validity)
            } else {
                None
            },
        };
        let chunk = ListChunk {
            child: InnerChunk::Numeric(child_chunk),
            offsets: self.offsets,
            validity: if outer_null {
                Some(self.validity)
            } else {
                None
            },
        };
        proof {
            assert(chunk.child.view() =~~= self.child_view());
            assert(chunk.wf());
            assert(chunk.view() =~~= self.rows());
        }
        let c = ListChunked { field: self.field, chunks: vec![chunk] };
        proof {
            assert(c.chunk_views() =~= seq![c.chunks@[0].view()]);
            lemma_concat_all_single(c.chunks@[0].view());
            assert(c.wf());
        }
        c
    }
}

/// Builds a list column whose elements are strings.
pub struct ListUtf8ChunkedBuilder {
    pub builder: Utf8ChunkedBuilder,
    pub offsets: Vec<usize>,
    pub validity: Vec<bool>,
    pub field: Field,
}

impl ListUtf8ChunkedBuilder {
    /// The contiguous child elements accumulated so far.
    pub open spec fn child_view(self) -> Seq<Option<ElemValue>> {
        lift_utf8(self.builder.view())
    }

    /// The three-state list rows appended so far.
    pub open spec fn rows(self) -> Seq<Option<Seq<Option<ElemValue>>>> {
        list_rows(self.child_view(), self.offsets@, self.validity@)
    }

    pub open spec fn wf(self) -> bool {
        &&& self.builder.wf()
        &&& list_wf(self.child_view().len(), self.offsets@, self.validity@)
        &&& self.field.dtype matches DataType::List(e) && *e is Utf8
    }

    /// `capacity` counts list rows; `values_capacity` estimates the child
    /// elements and their payload; both advisory.
    pub fn new(name: &str, capacity: usize, values_capacity: usize) -> (b: Self)
        ensures
            b.wf(),
            b.rows() =~= Seq::<Option<Seq<Option<ElemValue>>>>::empty(),
            b.child_view().len() == 0,
            b.field.name@ == name@,
    {
        let mut offsets: Vec<usize> = Vec::with_capacity(capacity);
        offsets.push(0);
        let b = ListUtf8ChunkedBuilder {
            builder: Utf8ChunkedBuilder::new("", values_capacity, values_capacity),
            offsets,
            validity: Vec::with_capacity(capacity),
            field: Field::new(name, DataType::List(Box::new(DataType::Utf8))),
        };
        proof {
            assert(b.rows() =~= Seq::<Option<Seq<Option<ElemValue>>>>::empty());
        }
        b
    }

    /// Writes a null list row: the outer bit is absent and no offset
    /// advances.
    pub fn append_null(&mut self)
        requires
            old(self).wf(),
        ensures
            final(self).wf(),
            final(self).rows() =~~= old(self).rows().push(None),
            final(self).child_view() == old(self).child_view(),
            final(self).field == old(self).field,
    {
        let end = self.builder.validity.len();
        self.offsets.push(end);
        self.validity.push(false);
        proof {
            assert(old(self).offsets@.last() == end);
            lemma_list_push_null(self.child_view(), old(self).offsets@, old(self).validity@);
        }
    }

    /// One list row from a whole finished sub-column, or a null row.
    pub fn append_opt_series(&mut self, opt_s: Option<&Series>)
        requires
            old(self).wf(),
            opt_s matches Some(s) ==> s.wf() && *s is Utf8 && old(self).child_view().len()
                + s.spec_len() <= usize::MAX,
        ensures
            final(self).wf(),
            final(self).rows() =~~= old(self).rows().push(
                match opt_s {
                    Some(s) => Some(s.elem_view()),
                    None => None,
                },
            ),
            final(self).child_view().len() == old(self).child_view().len() + (match opt_s {
                Some(s) => s.spec_len(),
                None => 0nat,
            }),
            final(self).field == old(self).field,
    {
        match opt_s {
            Some(s) => self.append_series(s),
            None => self.append_null(),
        }
    }

    /// The flattening algorithm for string elements: every chunk of the
    /// sub-column is drained per element into the child array, then one
    /// present row closes over the new offset; the sub-column's own chunk
    /// boundaries are invisible in the result.
    pub fn append_series(&mut self, s: &Series)
        requires
            old(self).wf(),
            s.wf(),
            *s is Utf8,
            old(self).child_view().len() + s.spec_len() <= usize::MAX,
        ensures
            final(self).wf(),
            final(self).rows() =~~= old(self).rows().push(Some(s.elem_view())),
            final(self).child_view().len() == old(self).child_view().len() + s.spec_len(),
            final(self).field == old(self).field,
    {
        let ca = match s {
            Series::Utf8(ca) => ca,
            _ => vstd::pervasive::unreached(),
        };
        proof {
            assert(*s == Series::Utf8(*ca));
        }
        let ghost iv0 = self.builder.view();
        let ghost cviews = ca.chunk_views();
        proof {
            assert(self.builder.view() =~~= iv0 + concat_all(cviews.take(0)));
        }
        let nchunks = ca.chunks.len();
        let mut k: usize = 0;
        while k < nchunks
            invariant
                s.wf(),
                *s == Series::Utf8(*ca),
                ca.wf(),
                nchunks == ca.chunks@.len(),
                k <= nchunks,
                cviews == ca.chunk_views(),
                self.builder.wf(),
                self.builder.field == old(self).builder.field,
                self.offsets@ == old(self).offsets@,
                self.validity@ == old(self).validity@,
                self.field == old(self).field,
                iv0 == old(self).builder.view(),
                self.builder.view() =~~= iv0 + concat_all(cviews.take(k as int)),
            decreases nchunks - k,
        {
            let chunk = &ca.chunks[k];
            let ghost cview = chunk.view();
            proof {
                lemma_concat_all_take_push(cviews, k as int);
            }
            let clen = chunk.len();
            let mut idx: usize = 0;
            proof {
                assert(self.builder.view() =~~= iv0 + concat_all(cviews.take(k as int))
                    + cview.take(0));
            }
            while idx < clen
                invariant
                    chunk.wf(),
                    cview == chunk.view(),
                    clen == cview.len(),
                    idx <= clen,
                    self.builder.wf(),
                    self.builder.field == old(self).builder.field,
                    self.offsets@ == old(self).offsets@,
                    self.validity@ == old(self).validity@,
                    self.field == old(self).field,
                    self.builder.view() =~~= iv0 + concat_all(cviews.take(k as int)) + cview.take(
                        idx as int,
                    ),
                decreases clen - idx,
            {
                let present = match &chunk.validity {
                    None => true,
                    Some(bits) => bits[idx],
                };
                if present {
                    let v = chunk.value_at(idx);
                    self.builder.append_bytes(v.as_slice());
                } else {
                    self.builder.append_null();
                }
                proof {
                    assert(cview.take(idx + 1) =~~= cview.take(idx as int).push(
                        cview[idx as int],
                    ));
                }
                idx = idx + 1;
            }
            proof {
                assert(cview.take(clen as int) =~= cview);
            }
            k = k + 1;
        }
        proof {
            assert(cviews.take(nchunks as int) =~= cviews);
        }
        let end = self.builder.validity.len();
        self.offsets.push(end);
        self.validity.push(true);
        proof {
            assert(self.child_view() =~~= old(self).child_view() + lift_utf8(ca.flat()));
            lemma_list_close_row(
                old(self).child_view(),
                lift_utf8(ca.flat()),
                old(self).offsets@,
                old(self).validity@,
            );
            assert(s.elem_view() == lift_utf8(ca.flat()));
        }
    }

    /// Wraps the whole builder state into a single-chunk list column,
    /// consuming the builder; bitmaps that saw no null are omitted.
    pub fn finish(self) -> (c: ListChunked)
        requires
            self.wf(),
        ensures
            c.wf(),
            c.field == self.field,
            c.chunks@.len() == 1,
            c.flat() =~~= self.rows(),
    {
        let n_rows = self.validity.len();
        proof {
            assert(self.rows().len() == n_rows);
        }
        let inner_null = has_false(&self.builder.validity);
        let outer_null = has_false(&self.validity);
        let child_chunk = Utf8Chunk {
            data: self.builder.data,
            offsets: self.builder.offsets,
            validity: if inner_null {
                Some(self.builder.validity)
            } else {
                None
            },
        };
        let chunk = ListChunk {
            child: InnerChunk::Utf8(child_chunk),
            offsets: self.offsets,
            validity: if outer_null {
                Some(self.validity)
            } else {
                None
            },
        };
        proof {
            assert(chunk.child.view() =~~= self.child_view());
            assert(chunk.wf());
            assert(chunk.view() =~~= self.rows());
        }
        let c = ListChunked { field: self.field, chunks: vec![chunk] };
        proof {
            assert(c.chunk_views() =~= seq![c.chunks@[0].view()]);
            lemma_concat_all_single(c.chunks@[0].view());
            assert(c.wf());
        }
        c
    }
}

/// Builds a list column whose elements are booleans.
pub struct ListBooleanChunkedBuilder {
    pub builder: BooleanChunkedBuilder,
    pub offsets: Vec<usize>,
    pub validity: Vec<bool>,
    pub field: Field,
}

impl ListBooleanChunkedBuilder {
    /// The contiguous child elements accumulated so far.
    pub open spec fn child_view(self) -> Seq<Option<ElemValue>> {
        lift_bool(self.builder.view())
    }

    /// The three-state list rows appended so far.
    pub open spec fn rows(self) -> Seq<Option<Seq<Option<ElemValue>>>> {
        list_rows(self.child_view(), self.offsets@, self.validity@)
    }

    pub open spec fn wf(self) -> bool {
        &&& self.builder.wf()
        &&& list_wf(self.child_view().len(), self.offsets@, self.validity@)
        &&& self.field.dtype matches DataType::List(e) && *e is Boolean
    }

    /// `capacity` counts list rows, `values_capacity` the child elements;
    /// both advisory.
    pub fn new(name: &str, capacity: usize, values_capacity: usize) -> (b: Self)
        ensures
            b.wf(),
            b.rows() =~= Seq::<Option<Seq<Option<ElemValue>>>>::empty(),
            b.child_view().len() == 0,
            b.field.name@ == name@,
    {
        let mut offsets: Vec<usize> = Vec::with_capacity(capacity);
        offsets.push(0);
        let b = ListBooleanChunkedBuilder {
            builder: BooleanChunkedBuilder::new("", values_capacity),
            offsets,
            validity: Vec::with_capacity(capacity),
            field: Field::new(name, DataType::List(Box::new(DataType::Boolean))),
        };
        proof {
            assert(b.rows() =~= Seq::<Option<Seq<Option<ElemValue>>>>::empty());
        }
        b
    }

    /// Writes a null list row: the outer bit is absent and no offset
    /// advances.
    pub fn append_null(&mut self)
        requires
            old(self).wf(),
        ensures
            final(self).wf(),
            final(self).rows() =~~= old(self).rows().push(None),
            final(self).child_view() == old(self).child_view(),
            final(self).field == old(self).field,
    {
        let end = self.builder.values.len();
        self.offsets.push(end);
        self.validity.push(false);
        proof {
            assert(old(self).offsets@.last() == end);
            lemma_list_push_null(self.child_view(), old(self).offsets@, old(self).validity@);
        }
    }

    /// One list row from a whole finished sub-column, or a null row.
    pub fn append_opt_series(&mut self, opt_s: Option<&Series>)
        requires
            old(self).wf(),
            opt_s matches Some(s) ==> s.wf() && *s is Boolean && old(self).child_view().len()
                + s.spec_len() <= usize::MAX,
        ensures
            final(self).wf(),
            final(self).rows() =~~= old(self).rows().push(
                match opt_s {
                    Some(s) => Some(s.elem_view()),
                    None => None,
                },
            ),
            final(self).child_view().len() == old(self).child_view().len() + (match opt_s {
                Some(s) => s.spec_len(),
                None => 0nat,
            }),
            final(self).field == old(self).field,
    {
        match opt_s {
            Some(s) => self.append_series(s),
            None => self.append_null(),
        }
    }

    /// The flattening algorithm for boolean elements, per element across
    /// every chunk of the sub-column; chunk boundaries are invisible in the
    /// result.
    pub fn append_series(&mut self, s: &Series)
        requires
            old(self).wf(),
            s.wf(),
            *s is Boolean,
            old(self).child_view().len() + s.spec_len() <= usize::MAX,
        ensures
            final(self).wf(),
            final(self).rows() =~~= old(self).rows().push(Some(s.elem_view())),
            final(self).child_view().len() == old(self).child_view().len() + s.spec_len(),
            final(self).field == old(self).field,
    {
        let ca = match s {
            Series::Boolean(ca) => ca,
            _ => vstd::pervasive::unreached(),
        };
        proof {
            assert(*s == Series::Boolean(*ca));
        }
        let ghost iv0 = self.builder.view();
        let ghost cviews = ca.chunk_views();
        proof {
            assert(self.builder.view() =~= iv0 + concat_all(cviews.take(0)));
        }
        let nchunks = ca.chunks.len();
        let mut k: usize = 0;
        while k < nchunks
            invariant
                s.wf(),
                *s == Series::Boolean(*ca),
                ca.wf(),
                nchunks == ca.chunks@.len(),
                k <= nchunks,
                cviews == ca.chunk_views(),
                self.builder.wf(),
                self.builder.field == old(self).builder.field,
                self.offsets@ == old(self).offsets@,
                self.validity@ == old(self).validity@,
                self.field == old(self).field,
                iv0 == old(self).builder.view(),
                self.builder.view() =~= iv0 + concat_all(cviews.take(k as int)),
            decreases nchunks - k,
        {
            let chunk = &ca.chunks[k];
            let ghost cview = chunk.view();
            proof {
                lemma_concat_all_take_push(cviews, k as int);
            }
            let clen = chunk.len();
            let mut idx: usize = 0;
            proof {
                assert(self.builder.view() =~= iv0 + concat_all(cviews.take(k as int))
                    + cview.take(0));
            }
            while idx < clen
                invariant
                    chunk.wf(),
                    cview == chunk.view(),
                    clen == cview.len(),
                    idx <= clen,
                    self.builder.wf(),
                    self.builder.field == old(self).builder.field,
                    self.offsets@ == old(self).offsets@,
                    self.validity@ == old(self).validity@,
                    self.field == old(self).field,
                    self.builder.view() =~= iv0 + concat_all(cviews.take(k as int)) + cview.take(
                        idx as int,
                    ),
                decreases clen - idx,
            {
                let present = match &chunk.validity {
                    None => true,
                    Some(bits) => bits[idx],
                };
                if present {
                    self.builder.append_value(chunk.values[idx]);
                } else {
                    self.builder.append_null();
                }
                proof {
                    assert(cview.take(idx + 1) =~= cview.take(idx as int).push(
                        cview[idx as int],
                    ));
                }
                idx = idx + 1;
            }
            proof {
                assert(cview.take(clen as int) =~= cview);
            }
            k = k + 1;
        }
        proof {
            assert(cviews.take(nchunks as int) =~= cviews);
        }
        let end = self.builder.values.len();
        self.offsets.push(end);
        self.validity.push(true);
        proof {
            assert(self.child_view() =~= old(self).child_view() + lift_bool(ca.flat()));
            lemma_list_close_row(
                old(self).child_view(),
                lift_bool(ca.flat()),
                old(self).offsets@,
                old(self).validity@,
            );
            assert(s.elem_view() == lift_bool(ca.flat()));
        }
    }

    /// Wraps the whole builder state into a single-chunk list column,
    /// consuming the builder; bitmaps that saw no null are omitted.
    pub fn finish(self) -> (c: ListChunked)
        requires
            self.wf(),
        ensures
            c.wf(),
            c.field == self.field,
            c.chunks@.len() == 1,
            c.flat() =~~= self.rows(),
    {
        let n_rows = self.validity.len();
        proof {
            assert(self.rows().len() == n_rows);
        }
        let inner_null = has_false(&self.builder.validity);
        let outer_null = has_false(&self.validity);
        let child_chunk = BooleanChunk {
            values: self.builder.values,
            validity: if inner_null {
                Some(self.builder.validity)
            } else {
                None
            },
        };
        let chunk = ListChunk {
            child: InnerChunk::Boolean(child_chunk),
            offsets: self.offsets,
            validity: if outer_null {
                Some(self.validity)
            } else {
                None
            },
        };
        proof {
            assert(chunk.child.view() =~~= self.child_view());
            assert(chunk.wf());
            assert(chunk.view() =~~= self.rows());
        }
        let c = ListChunked { field: self.field, chunks: vec![chunk] };
        proof {
            assert(c.chunk_views() =~= seq![c.chunks@[0].view()]);
            lemma_concat_all_single(c.chunks@[0].view());
            assert(c.wf());
        }
        c
    }
}

/// The one shared capability over the closed set of list builder variants:
/// runtime dispatch happens over this sum type, exhaustively.
pub enum ListBuilder {
    Numeric(ListPrimitiveChunkedBuilder),
    Utf8(ListUtf8ChunkedBuilder),
    Boolean(ListBooleanChunkedBuilder),
}

impl ListBuilder {
    pub open spec fn wf(self) -> bool {
        match self {
            ListBuilder::Numeric(b) => b.wf(),
            ListBuilder::Utf8(b) => b.wf(),
            ListBuilder::Boolean(b) => b.wf(),
        }
    }

    pub open spec fn rows(self) -> Seq<Option<Seq<Option<ElemValue>>>> {
        match self {
            ListBuilder::Numeric(b) => b.rows(),
            ListBuilder::Utf8(b) => b.rows(),
            ListBuilder::Boolean(b) => b.rows(),
        }
    }

    pub open spec fn child_len(self) -> nat {
        match self {
            ListBuilder::Numeric(b) => b.child_view().len(),
            ListBuilder::Utf8(b) => b.child_view().len(),
            ListBuilder::Boolean(b) => b.child_view().len(),
        }
    }

    pub open spec fn spec_field(self) -> Field {
        match self {
            ListBuilder::Numeric(b) => b.field,
            ListBuilder::Utf8(b) => b.field,
            ListBuilder::Boolean(b) => b.field,
        }
    }

    /// Whether a sub-column has the element kind this builder was made for.
    pub open spec fn accepts(self, s: Series) -> bool {
        match self {
            ListBuilder::Numeric(_) => s is Numeric,
            ListBuilder::Utf8(_) => s is Utf8,
            ListBuilder::Boolean(_) => s is Boolean,
        }
    }

    /// Writes a null list row.
    pub fn append_null(&mut self)
        requires
            old(self).wf(),
        ensures
            final(self).wf(),
            final(self).rows() =~~= old(self).rows().push(None),
            final(self).child_len() == old(self).child_len(),
            final(self).spec_field() == old(self).spec_field(),
            forall|s: Series| final(self).accepts(s) == old(self).accepts(s),
    {
        match self {
            ListBuilder::Numeric(b) => b.append_null(),
            ListBuilder::Utf8(b) => b.append_null(),
            ListBuilder::Boolean(b) => b.append_null(),
        }
    }

    /// One list row flattened from a whole finished sub-column.
    pub fn append_series(&mut self, s: &Series)
        requires
            old(self).wf(),
            s.wf(),
            old(self).accepts(*s),
            old(self).child_len() + s.spec_len() <= usize::MAX,
        ensures
            final(self).wf(),
            final(self).rows() =~~= old(self).rows().push(Some(s.elem_view())),
            final(self).child_len() == old(self).child_len() + s.spec_len(),
            final(self).spec_field() == old(self).spec_field(),
            forall|t: Series| final(self).accepts(t) == old(self).accepts(t),
    {
        match self {
            ListBuilder::Numeric(b) => b.append_series(s),
            ListBuilder::Utf8(b) => b.append_series(s),
            ListBuilder::Boolean(b) => b.append_series(s),
        }
    }

    /// One list row from a sub-column, or a null row for `None`.
    pub fn append_opt_series(&mut self, opt_s: Option<&Series>)
        requires
            old(self).wf(),
            opt_s matches Some(s) ==> s.wf() && old(self).accepts(*s) && old(self).child_len()
                + s.spec_len() <= usize::MAX,
        ensures
            final(self).wf(),
            final(self).rows() =~~= old(self).rows().push(
                match opt_s {
                    Some(s) => Some(s.elem_view()),
                    None => None,
                },
            ),
            final(self).child_len() == old(self).child_len() + (match opt_s {
                Some(s) => s.spec_len(),
                None => 0nat,
            }),
            final(self).spec_field() == old(self).spec_field(),
            forall|t: Series| final(self).accepts(t) == old(self).accepts(t),
    {
        match opt_s {
            Some(s) => self.append_series(s),
            None => self.append_null(),
        }
    }

    /// Finishes into a single-chunk list column, consuming the builder.
    pub fn finish(self) -> (c: ListChunked)
        requires
            self.wf(),
        ensures
            c.wf(),
            c.field == self.spec_field(),
            c.chunks@.len() == 1,
            c.flat() =~~= self.rows(),
    {
        match self {
            ListBuilder::Numeric(b) => b.finish(),
            ListBuilder::Utf8(b) => b.finish(),
            ListBuilder::Boolean(b) => b.finish(),
        }
    }
}

/// Runtime dispatch from an element type to the matching list builder
/// variant. The closed set is {numeric, string, boolean}; for the string
/// case the per-row byte capacity defaults to five times the value-count
/// hint, a documented starting allocation with no deeper derivation.
pub fn get_list_builder(dt: &DataType, value_capacity: usize, list_capacity: usize, name: &str) -> (b:
    ListBuilder)
    requires
        dt is Numeric || dt is Utf8 || dt is Boolean,
    ensures
        b.wf(),
        b.rows() =~= Seq::<Option<Seq<Option<ElemValue>>>>::empty(),
        b.child_len() == 0,
        b.spec_field().name@ == name@,
        b is Numeric <==> dt is Numeric,
        b is Utf8 <==> dt is Utf8,
        b is Boolean <==> dt is Boolean,
{
    match dt {
        DataType::Numeric => ListBuilder::Numeric(
            ListPrimitiveChunkedBuilder::new(name, list_capacity, value_capacity),
        ),
        DataType::Utf8 => {
            let bytes_capacity = if value_capacity > usize::MAX / 5 {
                usize::MAX
            } else {
                5 * value_capacity
            };
            ListBuilder::Utf8(ListUtf8ChunkedBuilder::new(name, list_capacity, bytes_capacity))
        },
        DataType::Boolean => ListBuilder::Boolean(
            ListBooleanChunkedBuilder::new(name, list_capacity, value_capacity),
        ),
        _ => vstd::pervasive::unreached(),
    }
}

} // verus!
