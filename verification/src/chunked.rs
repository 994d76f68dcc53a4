//! Finished columns: a field plus an ordered sequence of chunks. A column is
//! immutable once finished; extending one shares chunks instead of copying
//! values. The logical contents are the flattening of the per-chunk slots.

use vstd::prelude::*;
use crate::dtypes::{DataType, Field, PolarsError};
use crate::chunk::{
    BooleanChunk, NumericChunk, Utf8Chunk, ListChunk, InnerChunk, ElemValue, slots, validity_view,
    lift_bool, lift_num, lift_utf8,
};
use crate::flat::{
    concat_all, count_nones, lemma_concat_all_step, lemma_concat_all_take_push,
    lemma_concat_all_split, lemma_concat_all_single, lemma_count_nones_le,
    lemma_count_nones_concat,
};

verus! {

/// A finished column of booleans.
pub struct BooleanChunked {
    pub field: Field,
    pub chunks: Vec<BooleanChunk>,
}

/// A finished column of fixed-width numeric values.
pub struct NumericChunked {
    pub field: Field,
    pub chunks: Vec<NumericChunk>,
}

/// A finished column of strings.
pub struct Utf8Chunked {
    pub field: Field,
    pub chunks: Vec<Utf8Chunk>,
}

/// A finished column of lists.
pub struct ListChunked {
    pub field: Field,
    pub chunks: Vec<ListChunk>,
}

impl BooleanChunked {
    pub open spec fn chunk_views(self) -> Seq<Seq<Option<bool>>> {
        self.chunks@.map_values(|c: BooleanChunk| c.view())
    }

    /// The logical slots of the whole column, chunk boundaries erased.
    pub open spec fn flat(self) -> Seq<Option<bool>> {
        concat_all(self.chunk_views())
    }

    pub open spec fn wf(self) -> bool {
        &&& forall|k: int| 0 <= k < self.chunks@.len() ==> (#[trigger] self.chunks@[k]).wf()
        &&& self.field.dtype is Boolean
        &&& self.flat().len() <= usize::MAX
    }

    pub fn name(&self) -> (n: &str)
        ensures
            n@ == self.field.name@,
    {
        self.field.name.as_str()
    }

    pub fn len(&self) -> (n: usize)
        requires
            self.wf(),
        ensures
            n == self.flat().len(),
    {
        let ghost views = self.chunk_views();
        let mut n: usize = 0;
        let mut k: usize = 0;
        proof {
            assert(views.take(0) =~= Seq::<Seq<Option<bool>>>::empty());
        }
        while k < self.chunks.len()
            invariant
                self.wf(),
                k <= self.chunks@.len(),
                views == self.chunk_views(),
                n == concat_all(views.take(k as int)).len(),
            decreases self.chunks@.len() - k,
        {
            proof {
                lemma_concat_all_take_push(views, k as int);
                lemma_concat_all_split(views, k + 1);
            }
            n = n + self.chunks[k].len();
            k = k + 1;
        }
        proof {
            assert(views.take(self.chunks@.len() as int) =~= views);
        }
        n
    }

    pub fn null_count(&self) -> (n: usize)
        requires
            self.wf(),
        ensures
            n == count_nones(self.flat()),
    {
        let ghost views = self.chunk_views();
        let mut n: usize = 0;
        let mut k: usize = 0;
        proof {
            assert(views.take(0) =~= Seq::<Seq<Option<bool>>>::empty());
        }
        while k < self.chunks.len()
            invariant
                self.wf(),
                k <= self.chunks@.len(),
                views == self.chunk_views(),
                n == count_nones(concat_all(views.take(k as int))),
            decreases self.chunks@.len() - k,
        {
            proof {
                lemma_concat_all_take_push(views, k as int);
                lemma_concat_all_split(views, k + 1);
                lemma_count_nones_concat(concat_all(views.take(k as int)), views[k as int]);
                lemma_count_nones_concat(
                    concat_all(views.take(k + 1)),
                    concat_all(views.skip(k + 1)),
                );
                lemma_count_nones_le(self.flat());
            }
            n = n + self.chunks[k].null_count();
            k = k + 1;
        }
        proof {
            assert(views.take(self.chunks@.len() as int) =~= views);
        }
        n
    }

    /// Fetches the logical value at row `i`.
    pub fn get(&self, i: usize) -> (r: Option<bool>)
        requires
            self.wf(),
            i < self.flat().len(),
        ensures
            r == self.flat()[i as int],
    {
        let ghost views = self.chunk_views();
        let n_chunks = self.chunks.len();
        let mut k: usize = 0;
        let mut idx: usize = i;
        proof {
            assert(views.skip(0) =~= views);
        }
        loop
            invariant
                self.wf(),
                n_chunks == self.chunks@.len(),
                k <= self.chunks@.len(),
                views == self.chunk_views(),
                idx < concat_all(views.skip(k as int)).len(),
                concat_all(views.skip(k as int))[idx as int] == self.flat()[i as int],
            decreases self.chunks@.len() - k,
        {
            proof {
                if k == self.chunks@.len() {
                    assert(views.skip(k as int) =~= Seq::<Seq<Option<bool>>>::empty());
                    assert(concat_all(Seq::<Seq<Option<bool>>>::empty()) =~= Seq::<
                        Option<bool>,
                    >::empty());
                }
                lemma_concat_all_step(views, k as int);
            }
            let c = &self.chunks[k];
            let clen = c.len();
            if idx < clen {
                return match &c.validity {
                    None => Some(c.values[idx]),
                    Some(bits) => if bits[idx] {
                        Some(c.values[idx])
                    } else {
                        None
                    },
                };
            }
            idx = idx - clen;
            k = k + 1;
        }
    }

    /// Reads the whole column back as one row-ordered vector.
    pub fn to_vec(&self) -> (out: Vec<Option<bool>>)
        requires
            self.wf(),
        ensures
            out@ == self.flat(),
    {
        let n = self.len();
        let mut out: Vec<Option<bool>> = Vec::new();
        let mut i: usize = 0;
        while i < n
            invariant
                self.wf(),
                n == self.flat().len(),
                i <= n,
                out@ =~= self.flat().take(i as int),
            decreases n - i,
        {
            out.push(self.get(i));
            proof {
                assert(out@ =~= self.flat().take(i + 1));
            }
            i = i + 1;
        }
        proof {
            assert(self.flat().take(n as int) =~= self.flat());
        }
        out
    }

    /// Extends this column by sharing the other column's chunks, values
    /// untouched.
    pub fn append(&mut self, other: &BooleanChunked)
        requires
            old(self).wf(),
            other.wf(),
            old(self).flat().len() + other.flat().len() <= usize::MAX,
        ensures
            final(self).wf(),
            final(self).chunk_views() =~= old(self).chunk_views() + other.chunk_views(),
            final(self).flat() =~= old(self).flat() + other.flat(),
            final(self).field == old(self).field,
    {
        let ghost views0 = self.chunk_views();
        let ghost n0 = self.chunks@.len();
        let mut k: usize = 0;
        while k < other.chunks.len()
            invariant
                other.wf(),
                k <= other.chunks@.len(),
                self.field == old(self).field,
                self.field.dtype is Boolean,
                forall|j: int| 0 <= j < self.chunks@.len() ==> (#[trigger] self.chunks@[j]).wf(),
                self.chunks@.len() == n0 + k,
                n0 == old(self).chunks@.len(),
                views0 == old(self).chunk_views(),
                forall|j: int| 0 <= j < n0 ==> (#[trigger] self.chunks@[j]).view() == views0[j],
                forall|j: int|
                    n0 <= j < n0 + k ==> (#[trigger] self.chunks@[j]).view()
                        == other.chunk_views()[j - n0],
            decreases other.chunks@.len() - k,
        {
            let c = &other.chunks[k];
            let cc = BooleanChunk {
                values: vstd::slice::slice_to_vec(c.values.as_slice()),
                validity: match &c.validity {
                    None => None,
                    Some(bits) => Some(vstd::slice::slice_to_vec(bits.as_slice())),
                },
            };
            proof {
                assert(cc.view() =~= c.view());
                assert(other.chunk_views()[k as int] == c.view());
            }
            self.chunks.push(cc);
            k = k + 1;
        }
        proof {
            assert(self.chunk_views() =~= views0 + other.chunk_views());
            crate::flat::lemma_concat_all_concat(old(self).chunk_views(), other.chunk_views());
        }
    }
}

impl NumericChunked {
    pub open spec fn chunk_views(self) -> Seq<Seq<Option<i64>>> {
        self.chunks@.map_values(|c: NumericChunk| c.view())
    }

    /// The logical slots of the whole column, chunk boundaries erased.
    pub open spec fn flat(self) -> Seq<Option<i64>> {
        concat_all(self.chunk_views())
    }

    pub open spec fn wf(self) -> bool {
        &&& forall|k: int| 0 <= k < self.chunks@.len() ==> (#[trigger] self.chunks@[k]).wf()
        &&& self.field.dtype is Numeric
        &&& self.flat().len() <= usize::MAX
    }

    pub fn name(&self) -> (n: &str)
        ensures
            n@ == self.field.name@,
    {
        self.field.name.as_str()
    }

    pub fn len(&self) -> (n: usize)
        requires
            self.wf(),
        ensures
            n == self.flat().len(),
    {
        let ghost views = self.chunk_views();
        let mut n: usize = 0;
        let mut k: usize = 0;
        proof {
            assert(views.take(0) =~= Seq::<Seq<Option<i64>>>::empty());
        }
        while k < self.chunks.len()
            invariant
                self.wf(),
                k <= self.chunks@.len(),
                views == self.chunk_views(),
                n == concat_all(views.take(k as int)).len(),
            decreases self.chunks@.len() - k,
        {
            proof {
                lemma_concat_all_take_push(views, k as int);
                lemma_concat_all_split(views, k + 1);
            }
            n = n + self.chunks[k].len();
            k = k + 1;
        }
        proof {
            assert(views.take(self.chunks@.len() as int) =~= views);
        }
        n
    }

    pub fn null_count(&self) -> (n: usize)
        requires
            self.wf(),
        ensures
            n == count_nones(self.flat()),
    {
        let ghost views = self.chunk_views();
        let mut n: usize = 0;
        let mut k: usize = 0;
        proof {
            assert(views.take(0) =~= Seq::<Seq<Option<i64>>>::empty());
        }
        while k < self.chunks.len()
            invariant
                self.wf(),
                k <= self.chunks@.len(),
                views == self.chunk_views(),
                n == count_nones(concat_all(views.take(k as int))),
            decreases self.chunks@.len() - k,
        {
            proof {
                lemma_concat_all_take_push(views, k as int);
                lemma_concat_all_split(views, k + 1);
                lemma_count_nones_concat(concat_all(views.take(k as int)), views[k as int]);
                lemma_count_nones_concat(
                    concat_all(views.take(k + 1)),
                    concat_all(views.skip(k + 1)),
                );
                lemma_count_nones_le(self.flat());
            }
            n = n + self.chunks[k].null_count();
            k = k + 1;
        }
        proof {
            assert(views.take(self.chunks@.len() as int) =~= views);
        }
        n
    }

    /// Fetches the logical value at row `i`.
    pub fn get(&self, i: usize) -> (r: Option<i64>)
        requires
            self.wf(),
            i < self.flat().len(),
        ensures
            r == self.flat()[i as int],
    {
        let ghost views = self.chunk_views();
        let n_chunks = self.chunks.len();
        let mut k: usize = 0;
        let mut idx: usize = i;
        proof {
            assert(views.skip(0) =~= views);
        }
        loop
            invariant
                self.wf(),
                n_chunks == self.chunks@.len(),
                k <= self.chunks@.len(),
                views == self.chunk_views(),
                idx < concat_all(views.skip(k as int)).len(),
                concat_all(views.skip(k as int))[idx as int] == self.flat()[i as int],
            decreases self.chunks@.len() - k,
        {
            proof {
                if k == self.chunks@.len() {
                    assert(views.skip(k as int) =~= Seq::<Seq<Option<i64>>>::empty());
                    assert(concat_all(Seq::<Seq<Option<i64>>>::empty()) =~= Seq::<
                        Option<i64>,
                    >::empty());
                }
                lemma_concat_all_step(views, k as int);
            }
            let c = &self.chunks[k];
            let clen = c.len();
            if idx < clen {
                return match &c.validity {
                    None => Some(c.values[idx]),
                    Some(bits) => if bits[idx] {
                        Some(c.values[idx])
                    } else {
                        None
                    },
                };
            }
            idx = idx - clen;
            k = k + 1;
        }
    }

    /// Reads the whole column back as one row-ordered vector.
    pub fn to_vec(&self) -> (out: Vec<Option<i64>>)
        requires
            self.wf(),
        ensures
            out@ == self.flat(),
    {
        let n = self.len();
        let mut out: Vec<Option<i64>> = Vec::new();
        let mut i: usize = 0;
        while i < n
            invariant
                self.wf(),
                n == self.flat().len(),
                i <= n,
                out@ =~= self.flat().take(i as int),
            decreases n - i,
        {
            out.push(self.get(i));
            proof {
                assert(out@ =~= self.flat().take(i + 1));
            }
            i = i + 1;
        }
        proof {
            assert(self.flat().take(n as int) =~= self.flat());
        }
        out
    }

    /// Extends this column by sharing the other column's chunks, values
    /// untouched.
    pub fn append(&mut self, other: &NumericChunked)
        requires
            old(self).wf(),
            other.wf(),
            old(self).flat().len() + other.flat().len() <= usize::MAX,
        ensures
            final(self).wf(),
            final(self).chunk_views() =~= old(self).chunk_views() + other.chunk_views(),
            final(self).flat() =~= old(self).flat() + other.flat(),
            final(self).field == old(self).field,
    {
        let ghost views0 = self.chunk_views();
        let ghost n0 = self.chunks@.len();
        let mut k: usize = 0;
        while k < other.chunks.len()
            invariant
                other.wf(),
                k <= other.chunks@.len(),
                self.field == old(self).field,
                self.field.dtype is Numeric,
                forall|j: int| 0 <= j < self.chunks@.len() ==> (#[trigger] self.chunks@[j]).wf(),
                self.chunks@.len() == n0 + k,
                n0 == old(self).chunks@.len(),
                views0 == old(self).chunk_views(),
                forall|j: int| 0 <= j < n0 ==> (#[trigger] self.chunks@[j]).view() == views0[j],
                forall|j: int|
                    n0 <= j < n0 + k ==> (#[trigger] self.chunks@[j]).view()
                        == other.chunk_views()[j - n0],
            decreases other.chunks@.len() - k,
        {
            let c = &other.chunks[k];
            let cc = NumericChunk {
                values: vstd::slice::slice_to_vec(c.values.as_slice()),
                validity: match &c.validity {
                    None => None,
                    Some(bits) => Some(vstd::slice::slice_to_vec(bits.as_slice())),
                },
            };
            proof {
                assert(cc.view() =~= c.view());
                assert(other.chunk_views()[k as int] == c.view());
            }
            self.chunks.push(cc);
            k = k + 1;
        }
        proof {
            assert(self.chunk_views() =~= views0 + other.chunk_views());
            crate::flat::lemma_concat_all_concat(old(self).chunk_views(), other.chunk_views());
        }
    }
}

/// The optional payload of a string row, viewed as its byte sequence.
pub open spec fn utf8_opt(o: Option<Vec<u8>>) -> Option<Seq<u8>> {
    match o {
        Some(v) => Some(v@),
        None => None,
    }
}

/// A vector of optional payloads, viewed row by row as byte sequences.
pub open spec fn utf8_rows_view(s: Seq<Option<Vec<u8>>>) -> Seq<Option<Seq<u8>>> {
    Seq::new(s.len(), |i: int| utf8_opt(s[i]))
}

impl Utf8Chunked {
    pub open spec fn chunk_views(self) -> Seq<Seq<Option<Seq<u8>>>> {
        self.chunks@.map_values(|c: Utf8Chunk| c.view())
    }

    /// The logical slots of the whole column, chunk boundaries erased.
    pub open spec fn flat(self) -> Seq<Option<Seq<u8>>> {
        concat_all(self.chunk_views())
    }

    pub open spec fn wf(self) -> bool {
        &&& forall|k: int| 0 <= k < self.chunks@.len() ==> (#[trigger] self.chunks@[k]).wf()
        &&& self.field.dtype is Utf8
        &&& self.flat().len() <= usize::MAX
    }

    /// Total payload bytes across all chunks.
    pub open spec fn data_bytes(self) -> int {
        crate::chunked::sum_data_lens(self.chunks@)
    }

    pub fn name(&self) -> (n: &str)
        ensures
            n@ == self.field.name@,
    {
        self.field.name.as_str()
    }

    pub fn len(&self) -> (n: usize)
        requires
            self.wf(),
        ensures
            n == self.flat().len(),
    {
        let ghost views = self.chunk_views();
        let mut n: usize = 0;
        let mut k: usize = 0;
        proof {
            assert(views.take(0) =~= Seq::<Seq<Option<Seq<u8>>>>::empty());
        }
        while k < self.chunks.len()
            invariant
                self.wf(),
                k <= self.chunks@.len(),
                views == self.chunk_views(),
                n == concat_all(views.take(k as int)).len(),
            decreases self.chunks@.len() - k,
        {
            proof {
                lemma_concat_all_take_push(views, k as int);
                lemma_concat_all_split(views, k + 1);
            }
            n = n + self.chunks[k].len();
            k = k + 1;
        }
        proof {
            assert(views.take(self.chunks@.len() as int) =~= views);
        }
        n
    }

    pub fn null_count(&self) -> (n: usize)
        requires
            self.wf(),
        ensures
            n == count_nones(self.flat()),
    {
        let ghost views = self.chunk_views();
        let mut n: usize = 0;
        let mut k: usize = 0;
        proof {
            assert(views.take(0) =~= Seq::<Seq<Option<Seq<u8>>>>::empty());
        }
        while k < self.chunks.len()
            invariant
                self.wf(),
                k <= self.chunks@.len(),
                views == self.chunk_views(),
                n == count_nones(concat_all(views.take(k as int))),
            decreases self.chunks@.len() - k,
        {
            proof {
                lemma_concat_all_take_push(views, k as int);
                lemma_concat_all_split(views, k + 1);
                lemma_count_nones_concat(concat_all(views.take(k as int)), views[k as int]);
                lemma_count_nones_concat(
                    concat_all(views.take(k + 1)),
                    concat_all(views.skip(k + 1)),
                );
                lemma_count_nones_le(self.flat());
            }
            n = n + self.chunks[k].null_count();
            k = k + 1;
        }
        proof {
            assert(views.take(self.chunks@.len() as int) =~= views);
        }
        n
    }

    /// Fetches the logical value at row `i`, copying the payload out.
    pub fn get(&self, i: usize) -> (r: Option<Vec<u8>>)
        requires
            self.wf(),
            i < self.flat().len(),
        ensures
            utf8_opt(r) == self.flat()[i as int],
    {
        let ghost views = self.chunk_views();
        let n_chunks = self.chunks.len();
        let mut k: usize = 0;
        let mut idx: usize = i;
        proof {
            assert(views.skip(0) =~= views);
        }
        loop
            invariant
                self.wf(),
                n_chunks == self.chunks@.len(),
                k <= self.chunks@.len(),
                views == self.chunk_views(),
                idx < concat_all(views.skip(k as int)).len(),
                concat_all(views.skip(k as int))[idx as int] == self.flat()[i as int],
            decreases self.chunks@.len() - k,
        {
            proof {
                if k == self.chunks@.len() {
                    assert(views.skip(k as int) =~= Seq::<Seq<Option<Seq<u8>>>>::empty());
                    assert(concat_all(Seq::<Seq<Option<Seq<u8>>>>::empty()) =~= Seq::<
                        Option<Seq<u8>>,
                    >::empty());
                }
                lemma_concat_all_step(views, k as int);
            }
            let c = &self.chunks[k];
            let clen = c.len();
            if idx < clen {
                let present = match &c.validity {
                    None => true,
                    Some(bits) => bits[idx],
                };
                if present {
                    return Some(c.value_at(idx));
                } else {
                    return None;
                }
            }
            idx = idx - clen;
            k = k + 1;
        }
    }

    /// Reads the whole column back as one row-ordered vector of optional
    /// payloads.
    pub fn to_vec(&self) -> (out: Vec<Option<Vec<u8>>>)
        requires
            self.wf(),
        ensures
            utf8_rows_view(out@) =~~= self.flat(),
    {
        let n = self.len();
        let mut out: Vec<Option<Vec<u8>>> = Vec::new();
        let mut i: usize = 0;
        while i < n
            invariant
                self.wf(),
                n == self.flat().len(),
                i <= n,
                utf8_rows_view(out@) =~~= self.flat().take(i as int),
            decreases n - i,
        {
            let ghost pre = out@;
            let v = self.get(i);
            out.push(v);
            proof {
                assert(utf8_rows_view(pre).len() == pre.len());
                assert forall|j: int|
                    0 <= j < i + 1 implies utf8_rows_view(out@)[j] == self.flat().take(i + 1)[j] by {
                    if j < i {
                        assert(out@[j] == pre[j]);
                        assert(utf8_rows_view(pre)[j] == self.flat().take(i as int)[j]);
                    }
                }
                assert(utf8_rows_view(out@) =~~= self.flat().take(i + 1));
            }
            i = i + 1;
        }
        proof {
            assert(self.flat().take(n as int) =~= self.flat());
        }
        out
    }

    /// Total payload size in bytes, saturating at the machine limit; used
    /// only as a byte-capacity hint.
    pub fn get_values_size(&self) -> (n: usize)
        ensures
            n == if self.data_bytes() <= usize::MAX {
                self.data_bytes()
            } else {
                usize::MAX as int
            },
    {
        let mut n: usize = 0;
        let mut k: usize = 0;
        while k < self.chunks.len()
            invariant
                k <= self.chunks@.len(),
                n == if sum_data_lens(self.chunks@.take(k as int)) <= usize::MAX {
                    sum_data_lens(self.chunks@.take(k as int))
                } else {
                    usize::MAX as int
                },
            decreases self.chunks@.len() - k,
        {
            proof {
                assert(self.chunks@.take(k + 1).drop_last() =~= self.chunks@.take(k as int));
            }
            n = n.saturating_add(self.chunks[k].data.len());
            k = k + 1;
        }
        proof {
            assert(self.chunks@.take(self.chunks@.len() as int) =~= self.chunks@);
        }
        n
    }

    /// Extends this column by sharing the other column's chunks, values
    /// untouched.
    pub fn append(&mut self, other: &Utf8Chunked)
        requires
            old(self).wf(),
            other.wf(),
            old(self).flat().len() + other.flat().len() <= usize::MAX,
        ensures
            final(self).wf(),
            final(self).chunk_views() =~= old(self).chunk_views() + other.chunk_views(),
            final(self).flat() =~= old(self).flat() + other.flat(),
            final(self).field == old(self).field,
    {
        let ghost views0 = self.chunk_views();
        let ghost n0 = self.chunks@.len();
        let mut k: usize = 0;
        while k < other.chunks.len()
            invariant
                other.wf(),
                k <= other.chunks@.len(),
                self.field == old(self).field,
                self.field.dtype is Utf8,
                forall|j: int| 0 <= j < self.chunks@.len() ==> (#[trigger] self.chunks@[j]).wf(),
                self.chunks@.len() == n0 + k,
                n0 == old(self).chunks@.len(),
                views0 == old(self).chunk_views(),
                forall|j: int| 0 <= j < n0 ==> (#[trigger] self.chunks@[j]).view() == views0[j],
                forall|j: int|
                    n0 <= j < n0 + k ==> (#[trigger] self.chunks@[j]).view()
                        == other.chunk_views()[j - n0],
            decreases other.chunks@.len() - k,
        {
            let c = &other.chunks[k];
            let cc = Utf8Chunk {
                data: vstd::slice::slice_to_vec(c.data.as_slice()),
                offsets: vstd::slice::slice_to_vec(c.offsets.as_slice()),
                validity: match &c.validity {
                    None => None,
                    Some(bits) => Some(vstd::slice::slice_to_vec(bits.as_slice())),
                },
            };
            proof {
                assert(cc.all_rows() =~= c.all_rows());
                assert(cc.view() =~= c.view());
                assert(other.chunk_views()[k as int] == c.view());
            }
            self.chunks.push(cc);
            k = k + 1;
        }
        proof {
            assert(self.chunk_views() =~= views0 + other.chunk_views());
            crate::flat::lemma_concat_all_concat(old(self).chunk_views(), other.chunk_views());
        }
    }
}

/// Total payload bytes of a run of string chunks.
pub open spec fn sum_data_lens(cs: Seq<Utf8Chunk>) -> int
    decreases cs.len(),
{
    if cs.len() == 0 {
        0
    } else {
        sum_data_lens(cs.drop_last()) + cs.last().data@.len()
    }
}

/// Whether a list chunk's child array has the declared element type.
pub open spec fn child_matches(c: InnerChunk, dt: DataType) -> bool {
    match c {
        InnerChunk::Boolean(_) => dt is Boolean,
        InnerChunk::Numeric(_) => dt is Numeric,
        InnerChunk::Utf8(_) => dt is Utf8,
    }
}

/// Copies the slots `a..b` out of a boolean chunk.
fn extract_bool_range(c: &BooleanChunk, a: usize, b: usize) -> (out: BooleanChunk)
    requires
        c.wf(),
        a <= b <= c.view().len(),
    ensures
        out.wf(),
        out.view() =~= c.view().subrange(a as int, b as int),
{
    let values = vstd::slice::slice_to_vec(
        vstd::slice::slice_subrange(c.values.as_slice(), a, b),
    );
    let validity = match &c.validity {
        None => None,
        Some(bits) => Some(
            vstd::slice::slice_to_vec(vstd::slice::slice_subrange(bits.as_slice(), a, b)),
        ),
    };
    let out = BooleanChunk { values, validity };
    proof {
        assert(out.view() =~= c.view().subrange(a as int, b as int));
    }
    out
}

/// Copies the slots `a..b` out of a numeric chunk.
fn extract_num_range(c: &NumericChunk, a: usize, b: usize) -> (out: NumericChunk)
    requires
        c.wf(),
        a <= b <= c.view().len(),
    ensures
        out.wf(),
        out.view() =~= c.view().subrange(a as int, b as int),
{
    let values = vstd::slice::slice_to_vec(
        vstd::slice::slice_subrange(c.values.as_slice(), a, b),
    );
    let validity = match &c.validity {
        None => None,
        Some(bits) => Some(
            vstd::slice::slice_to_vec(vstd::slice::slice_subrange(bits.as_slice(), a, b)),
        ),
    };
    let out = NumericChunk { values, validity };
    proof {
        assert(out.view() =~= c.view().subrange(a as int, b as int));
    }
    out
}

/// Copies the rows `a..b` out of a string chunk, rebasing the offsets.
fn extract_utf8_range(c: &Utf8Chunk, a: usize, b: usize) -> (out: Utf8Chunk)
    requires
        c.wf(),
        a <= b <= c.nrows(),
    ensures
        out.wf(),
        out.view() =~~= c.view().subrange(a as int, b as int),
{
    let n_off = c.offsets.len();
    let base = c.offsets[a];
    let hi = c.offsets[b];
    let data = vstd::slice::slice_to_vec(vstd::slice::slice_subrange(c.data.as_slice(), base, hi));
    let mut offsets: Vec<usize> = Vec::new();
    let mut j: usize = a;
    while j <= b
        invariant
            c.wf(),
            n_off == c.offsets@.len(),
            a <= j <= b + 1,
            b < c.offsets@.len(),
            base == c.offsets@[a as int],
            offsets@.len() == j - a,
            forall|t: int|
                0 <= t < offsets@.len() ==> #[trigger] offsets@[t] == c.offsets@[a + t] - base,
        decreases b + 1 - j,
    {
        offsets.push(c.offsets[j] - base);
        j = j + 1;
    }
    let validity = match &c.validity {
        None => None,
        Some(bits) => Some(
            vstd::slice::slice_to_vec(vstd::slice::slice_subrange(bits.as_slice(), a, b)),
        ),
    };
    let out = Utf8Chunk { data, offsets, validity };
    proof {
        assert(out.nrows() == b - a);
        assert forall|t: int| 0 <= t < out.nrows() implies out.row_bytes(t) =~= c.row_bytes(
            a + t,
        ) by {
            assert(out.offsets@[t] == c.offsets@[a + t] - base);
            assert(out.offsets@[t + 1] == c.offsets@[a + t + 1] - base);
        }
        assert(out.all_rows() =~~= c.all_rows().subrange(a as int, b as int));
        assert(out.view() =~~= c.view().subrange(a as int, b as int));
    }
    out
}

impl ListChunked {
    pub open spec fn chunk_views(self) -> Seq<Seq<Option<Seq<Option<ElemValue>>>>> {
        self.chunks@.map_values(|c: ListChunk| c.view())
    }

    /// The logical rows of the whole column, chunk boundaries erased. Each
    /// row is a null list, an empty list, or a run of optional elements.
    pub open spec fn flat(self) -> Seq<Option<Seq<Option<ElemValue>>>> {
        concat_all(self.chunk_views())
    }

    pub open spec fn wf(self) -> bool {
        &&& forall|k: int| 0 <= k < self.chunks@.len() ==> (#[trigger] self.chunks@[k]).wf()
        &&& self.field.dtype matches DataType::List(e)
        &&& forall|k: int|
            0 <= k < self.chunks@.len() ==> child_matches(
                (#[trigger] self.chunks@[k]).child,
                self.elem_dtype(),
            )
        &&& self.flat().len() <= usize::MAX
    }

    /// The element type every chunk's child array must have.
    pub open spec fn elem_dtype(self) -> DataType {
        match self.field.dtype {
            DataType::List(e) => *e,
            _ => self.field.dtype,
        }
    }

    pub fn name(&self) -> (n: &str)
        ensures
            n@ == self.field.name@,
    {
        self.field.name.as_str()
    }

    pub fn len(&self) -> (n: usize)
        requires
            self.wf(),
        ensures
            n == self.flat().len(),
    {
        let ghost views = self.chunk_views();
        let mut n: usize = 0;
        let mut k: usize = 0;
        proof {
            assert(views.take(0) =~= Seq::<Seq<Option<Seq<Option<ElemValue>>>>>::empty());
        }
        while k < self.chunks.len()
            invariant
                self.wf(),
                k <= self.chunks@.len(),
                views == self.chunk_views(),
                n == concat_all(views.take(k as int)).len(),
            decreases self.chunks@.len() - k,
        {
            proof {
                lemma_concat_all_take_push(views, k as int);
                lemma_concat_all_split(views, k + 1);
            }
            n = n + self.chunks[k].len();
            k = k + 1;
        }
        proof {
            assert(views.take(self.chunks@.len() as int) =~= views);
        }
        n
    }

    pub fn null_count(&self) -> (n: usize)
        requires
            self.wf(),
        ensures
            n == count_nones(self.flat()),
    {
        let ghost views = self.chunk_views();
        let mut n: usize = 0;
        let mut k: usize = 0;
        proof {
            assert(views.take(0) =~= Seq::<Seq<Option<Seq<Option<ElemValue>>>>>::empty());
        }
        while k < self.chunks.len()
            invariant
                self.wf(),
                k <= self.chunks@.len(),
                views == self.chunk_views(),
                n == count_nones(concat_all(views.take(k as int))),
            decreases self.chunks@.len() - k,
        {
            proof {
                lemma_concat_all_take_push(views, k as int);
                lemma_concat_all_split(views, k + 1);
                lemma_count_nones_concat(concat_all(views.take(k as int)), views[k as int]);
                lemma_count_nones_concat(
                    concat_all(views.take(k + 1)),
                    concat_all(views.skip(k + 1)),
                );
                lemma_count_nones_le(self.flat());
            }
            n = n + self.chunks[k].null_count();
            k = k + 1;
        }
        proof {
            assert(views.take(self.chunks@.len() as int) =~= views);
        }
        n
    }

    /// Fetches list row `i` as its own single-chunk column; a null row
    /// comes back as `None`, an empty row as an empty column.
    pub fn get(&self, i: usize) -> (r: Option<Series>)
        requires
            self.wf(),
            i < self.flat().len(),
        ensures
            r is Some <==> self.flat()[i as int] is Some,
            r matches Some(s) ==> {
                &&& s.wf()
                &&& !(s is List)
                &&& self.flat()[i as int] matches Some(row) && s.elem_view() =~~= row
            },
    {
        let ghost views = self.chunk_views();
        let n_chunks = self.chunks.len();
        let mut k: usize = 0;
        let mut idx: usize = i;
        proof {
            assert(views.skip(0) =~= views);
        }
        loop
            invariant
                self.wf(),
                n_chunks == self.chunks@.len(),
                k <= self.chunks@.len(),
                views == self.chunk_views(),
                idx < concat_all(views.skip(k as int)).len(),
                concat_all(views.skip(k as int))[idx as int] == self.flat()[i as int],
            decreases self.chunks@.len() - k,
        {
            proof {
                if k == self.chunks@.len() {
                    assert(views.skip(k as int) =~= Seq::<
                        Seq<Option<Seq<Option<ElemValue>>>>,
                    >::empty());
                    assert(concat_all(Seq::<Seq<Option<Seq<Option<ElemValue>>>>>::empty()) =~= Seq::<
                        Option<Seq<Option<ElemValue>>>,
                    >::empty());
                }
                lemma_concat_all_step(views, k as int);
            }
            let c = &self.chunks[k];
            let clen = c.len();
            if idx < clen {
                let present = match &c.validity {
                    None => true,
                    Some(bits) => bits[idx],
                };
                if present {
                    return Some(extract_list_row(c, idx, self.field.name.as_str()));
                } else {
                    return None;
                }
            }
            idx = idx - clen;
            k = k + 1;
        }
    }

    /// Fetches the logical value at row `i`: `Null` for a null row, else the
    /// row's elements as a column.
    pub fn get_any_value(&self, i: usize) -> (r: AnyValue)
        requires
            self.wf(),
            i < self.flat().len(),
        ensures
            r is Null <==> self.flat()[i as int] is None,
            r matches AnyValue::List(s) ==> {
                &&& s.wf()
                &&& self.flat()[i as int] matches Some(row) && s.elem_view() =~~= row
            },
            self.flat()[i as int] is Some ==> r is List,
    {
        match self.get(i) {
            Some(s) => AnyValue::List(s),
            None => AnyValue::Null,
        }
    }
}

/// Copies one present list row out of a list chunk as a single-chunk column.
fn extract_list_row(c: &ListChunk, r: usize, name: &str) -> (s: Series)
    requires
        c.wf(),
        r < c.nrows(),
    ensures
        s.wf(),
        !(s is List),
        s.elem_view() =~~= c.row_elems(r as int),
{
    let n_off = c.offsets.len();
    proof {
        assert(r + 1 < n_off);
        assert(c.offsets@[r as int] <= c.offsets@[r + 1]);
        assert(c.offsets@[r + 1] <= c.offsets@.last());
    }
    let a = c.offsets[r];
    let b = c.offsets[r + 1];
    match &c.child {
        InnerChunk::Numeric(nc) => {
            let ck = extract_num_range(nc, a, b);
            let ghost cv = ck.view();
            let col = NumericChunked {
                field: Field::new(name, DataType::Numeric),
                chunks: vec![ck],
            };
            proof {
                assert(col.chunk_views() =~= seq![cv]);
                lemma_concat_all_single(cv);
                assert(lift_num(col.flat()) =~~= c.row_elems(r as int));
            }
            Series::Numeric(col)
        },
        InnerChunk::Boolean(bc) => {
            let ck = extract_bool_range(bc, a, b);
            let ghost cv = ck.view();
            let col = BooleanChunked {
                field: Field::new(name, DataType::Boolean),
                chunks: vec![ck],
            };
            proof {
                assert(col.chunk_views() =~= seq![cv]);
                lemma_concat_all_single(cv);
                assert(lift_bool(col.flat()) =~~= c.row_elems(r as int));
            }
            Series::Boolean(col)
        },
        InnerChunk::Utf8(uc) => {
            let ck = extract_utf8_range(uc, a, b);
            let ghost cv = ck.view();
            let col = Utf8Chunked {
                field: Field::new(name, DataType::Utf8),
                chunks: vec![ck],
            };
            proof {
                assert(col.chunk_views() =~= seq![cv]);
                lemma_concat_all_single(cv);
                assert(lift_utf8(col.flat()) =~~= c.row_elems(r as int));
            }
            Series::Utf8(col)
        },
    }
}

/// One logical value fetched out of a column: the tagged union downstream
/// consumers read.
pub enum AnyValue {
    Null,
    Boolean(bool),
    Numeric(i64),
    Utf8(Vec<u8>),
    List(Series),
}

/// A finished column of any logical type, behind one type-erased handle.
pub enum Series {
    Boolean(BooleanChunked),
    Numeric(NumericChunked),
    Utf8(Utf8Chunked),
    List(ListChunked),
}

impl Series {
    pub open spec fn wf(self) -> bool {
        match self {
            Series::Boolean(ca) => ca.wf(),
            Series::Numeric(ca) => ca.wf(),
            Series::Utf8(ca) => ca.wf(),
            Series::List(ca) => ca.wf(),
        }
    }

    pub open spec fn spec_len(self) -> nat {
        match self {
            Series::Boolean(ca) => ca.flat().len(),
            Series::Numeric(ca) => ca.flat().len(),
            Series::Utf8(ca) => ca.flat().len(),
            Series::List(ca) => ca.flat().len(),
        }
    }

    pub open spec fn spec_null_count(self) -> nat {
        match self {
            Series::Boolean(ca) => count_nones(ca.flat()),
            Series::Numeric(ca) => count_nones(ca.flat()),
            Series::Utf8(ca) => count_nones(ca.flat()),
            Series::List(ca) => count_nones(ca.flat()),
        }
    }

    /// The slots of a scalar column, lifted into the common element value
    /// space; what one list row built from this column holds.
    pub open spec fn elem_view(self) -> Seq<Option<ElemValue>> {
        match self {
            Series::Boolean(ca) => lift_bool(ca.flat()),
            Series::Numeric(ca) => lift_num(ca.flat()),
            Series::Utf8(ca) => lift_utf8(ca.flat()),
            Series::List(_) => Seq::empty(),
        }
    }

    pub open spec fn spec_field(self) -> Field {
        match self {
            Series::Boolean(ca) => ca.field,
            Series::Numeric(ca) => ca.field,
            Series::Utf8(ca) => ca.field,
            Series::List(ca) => ca.field,
        }
    }

    pub fn name(&self) -> (n: &str)
        ensures
            n@ == self.spec_field().name@,
    {
        match self {
            Series::Boolean(ca) => ca.name(),
            Series::Numeric(ca) => ca.name(),
            Series::Utf8(ca) => ca.name(),
            Series::List(ca) => ca.name(),
        }
    }

    pub fn len(&self) -> (n: usize)
        requires
            self.wf(),
        ensures
            n == self.spec_len(),
    {
        match self {
            Series::Boolean(ca) => ca.len(),
            Series::Numeric(ca) => ca.len(),
            Series::Utf8(ca) => ca.len(),
            Series::List(ca) => ca.len(),
        }
    }

    pub fn null_count(&self) -> (n: usize)
        requires
            self.wf(),
        ensures
            n == self.spec_null_count(),
    {
        match self {
            Series::Boolean(ca) => ca.null_count(),
            Series::Numeric(ca) => ca.null_count(),
            Series::Utf8(ca) => ca.null_count(),
            Series::List(ca) => ca.null_count(),
        }
    }

    /// Borrows the column as a string column, or reports the mismatch.
    pub fn utf8(&self) -> (r: Result<&Utf8Chunked, PolarsError>)
        ensures
            r is Ok <==> self is Utf8,
            r matches Ok(ca) ==> *self == Series::Utf8(*ca),
    {
        match self {
            Series::Utf8(ca) => Ok(ca),
            _ => Err(PolarsError::DataTypeMisMatch("expected a column of strings")),
        }
    }

    /// Borrows the column as a boolean column, or reports the mismatch.
    pub fn bool(&self) -> (r: Result<&BooleanChunked, PolarsError>)
        ensures
            r is Ok <==> self is Boolean,
            r matches Ok(ca) ==> *self == Series::Boolean(*ca),
    {
        match self {
            Series::Boolean(ca) => Ok(ca),
            _ => Err(PolarsError::DataTypeMisMatch("expected a column of booleans")),
        }
    }

    /// Borrows the column as a numeric column, or reports the mismatch.
    pub fn numeric(&self) -> (r: Result<&NumericChunked, PolarsError>)
        ensures
            r is Ok <==> self is Numeric,
            r matches Ok(ca) ==> *self == Series::Numeric(*ca),
    {
        match self {
            Series::Numeric(ca) => Ok(ca),
            _ => Err(PolarsError::DataTypeMisMatch("expected a column of numeric values")),
        }
    }

    /// Extends this column in place by the other column's chunks; the two
    /// must have the same logical type.
    pub fn append(&mut self, other: &Series) -> (r: Result<(), PolarsError>)
        requires
            old(self).wf(),
            other.wf(),
            old(self).spec_len() + other.spec_len() <= usize::MAX,
        ensures
            final(self).wf(),
            r is Ok <==> same_kind(*old(self), *other),
            r is Err ==> *final(self) == *old(self),
            *old(self) matches Series::Boolean(a) ==> *other matches Series::Boolean(b) ==> {
                &&& *final(self) matches Series::Boolean(c)
                &&& c.flat() =~= a.flat() + b.flat()
                &&& c.chunk_views() =~= a.chunk_views() + b.chunk_views()
                &&& c.field == a.field
            },
            *old(self) matches Series::Numeric(a) ==> *other matches Series::Numeric(b) ==> {
                &&& *final(self) matches Series::Numeric(c)
                &&& c.flat() =~= a.flat() + b.flat()
                &&& c.chunk_views() =~= a.chunk_views() + b.chunk_views()
                &&& c.field == a.field
            },
            *old(self) matches Series::Utf8(a) ==> *other matches Series::Utf8(b) ==> {
                &&& *final(self) matches Series::Utf8(c)
                &&& c.flat() =~= a.flat() + b.flat()
                &&& c.chunk_views() =~= a.chunk_views() + b.chunk_views()
                &&& c.field == a.field
            },
            *old(self) matches Series::List(a) ==> *other matches Series::List(b) ==> r is Err
                && *final(self) == *old(self),
    {
        match self {
            Series::Boolean(a) => match other {
                Series::Boolean(b) => {
                    a.append(b);
                    Ok(())
                },
                _ => Err(PolarsError::DataTypeMisMatch(
                    "cannot append a column of another type",
                )),
            },
            Series::Numeric(a) => match other {
                Series::Numeric(b) => {
                    a.append(b);
                    Ok(())
                },
                _ => Err(PolarsError::DataTypeMisMatch(
                    "cannot append a column of another type",
                )),
            },
            Series::Utf8(a) => match other {
                Series::Utf8(b) => {
                    a.append(b);
                    Ok(())
                },
                _ => Err(PolarsError::DataTypeMisMatch(
                    "cannot append a column of another type",
                )),
            },
            Series::List(_) => Err(PolarsError::DataTypeMisMatch(
                "cannot append to a column of lists",
            )),
        }
    }

    /// Fetches the logical value at row `i` as the tagged union.
    pub fn get_any_value(&self, i: usize) -> (r: AnyValue)
        requires
            self.wf(),
            i < self.spec_len(),
        ensures
            self matches Series::Boolean(ca) ==> r == match ca.flat()[i as int] {
                Some(b) => AnyValue::Boolean(b),
                None => AnyValue::Null,
            },
            self matches Series::Numeric(ca) ==> r == match ca.flat()[i as int] {
                Some(v) => AnyValue::Numeric(v),
                None => AnyValue::Null,
            },
            self matches Series::Utf8(ca) ==> {
                &&& r is Null <==> ca.flat()[i as int] is None
                &&& r matches AnyValue::Utf8(v) ==> ca.flat()[i as int] == Some(v@)
                &&& ca.flat()[i as int] is Some ==> r is Utf8
            },
            self matches Series::List(ca) ==> {
                &&& r is Null <==> ca.flat()[i as int] is None
                &&& r matches AnyValue::List(s) ==> s.wf() && (ca.flat()[i as int] matches Some(
                    row,
                ) && s.elem_view() =~~= row)
                &&& ca.flat()[i as int] is Some ==> r is List
            },
    {
        match self {
            Series::Boolean(ca) => match ca.get(i) {
                Some(b) => AnyValue::Boolean(b),
                None => AnyValue::Null,
            },
            Series::Numeric(ca) => match ca.get(i) {
                Some(v) => AnyValue::Numeric(v),
                None => AnyValue::Null,
            },
            Series::Utf8(ca) => match ca.get(i) {
                Some(v) => AnyValue::Utf8(v),
                None => AnyValue::Null,
            },
            Series::List(ca) => ca.get_any_value(i),
        }
    }
}

/// Whether two columns have the same logical kind, so that one can extend
/// the other.
pub open spec fn same_kind(a: Series, b: Series) -> bool {
    ||| (a is Boolean && b is Boolean)
    ||| (a is Numeric && b is Numeric)
    ||| (a is Utf8 && b is Utf8)
}

} // verus!
