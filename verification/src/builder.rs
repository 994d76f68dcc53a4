//! Scalar and string builders: single-writer accumulators that grow a value
//! buffer and a validity buffer in lock step, and finish into a one-chunk
//! immutable column. Capacities are advisory pre-allocations, never bounds.

use vstd::prelude::*;
use vstd::string::StringSliceAdditionalSpecFns;
use crate::dtypes::{DataType, Field};
use crate::chunk::{BooleanChunk, NumericChunk, Utf8Chunk, slots};
use crate::chunked::{BooleanChunked, NumericChunked, Utf8Chunked};
use crate::flat::lemma_concat_all_single;

verus! {

/// Every bit of a bitmap is set.
pub open spec fn all_true(bits: Seq<bool>) -> bool {
    forall|i: int| 0 <= i < bits.len() ==> bits[i]
}

/// Whether any bit of the accumulated validity buffer is absent; decides if
/// a bitmap is materialized at all on finish.
pub(crate) fn has_false(bits: &Vec<bool>) -> (b: bool)
    ensures
        b == !all_true(bits@),
{
    let mut i: usize = 0;
    while i < bits.len()
        invariant
            i <= bits@.len(),
            all_true(bits@.take(i as int)),
        decreases bits@.len() - i,
    {
        if !bits[i] {
            return true;
        }
        proof {
            assert(bits@.take(i + 1).drop_last() =~= bits@.take(i as int));
        }
        i = i + 1;
    }
    proof {
        assert(bits@.take(bits@.len() as int) =~= bits@);
    }
    false
}

/// Appends a run of payload bytes to a growable buffer.
pub(crate) fn push_bytes(data: &mut Vec<u8>, bytes: &[u8])
    ensures
        final(data)@ == old(data)@ + bytes@,
{
    proof {
        assert(data@ =~= data@ + bytes@.take(0));
    }
    let n = bytes.len();
    let mut j: usize = 0;
    while j < n
        invariant
            n == bytes@.len(),
            j <= n,
            data@ == old(data)@ + bytes@.take(j as int),
        decreases n - j,
    {
        let b = bytes[j];
        data.push(b);
        proof {
            assert(old(data)@ + bytes@.take(j + 1) =~= (old(data)@ + bytes@.take(
                j as int,
            )).push(bytes@[j as int]));
        }
        j = j + 1;
    }
    proof {
        assert(bytes@.take(n as int) =~= bytes@);
    }
}

/// Accumulates booleans with per-slot validity.
pub struct BooleanChunkedBuilder {
    pub values: Vec<bool>,
    pub validity: Vec<bool>,
    pub field: Field,
}

impl BooleanChunkedBuilder {
    /// The slots appended so far.
    pub open spec fn view(self) -> Seq<Option<bool>> {
        slots(self.values@, Some(self.validity@))
    }

    pub open spec fn wf(self) -> bool {
        &&& self.validity@.len() == self.values@.len()
        &&& self.field.dtype is Boolean
    }

    /// `capacity` is an advisory row-count pre-allocation.
    pub fn new(name: &str, capacity: usize) -> (b: Self)
        ensures
            b.wf(),
            b.view() =~= Seq::<Option<bool>>::empty(),
            b.field.name@ == name@,
    {
        BooleanChunkedBuilder {
            values: Vec::with_capacity(capacity),
            validity: Vec::with_capacity(capacity),
            field: Field::new(name, DataType::Boolean),
        }
    }

    /// Appends one present value.
    pub fn append_value(&mut self, v: bool)
        requires
            old(self).wf(),
        ensures
            final(self).wf(),
            final(self).view() =~= old(self).view().push(Some(v)),
            final(self).field == old(self).field,
    {
        self.values.push(v);
        self.validity.push(true);
    }

    /// Appends one null slot.
    pub fn append_null(&mut self)
        requires
            old(self).wf(),
        ensures
            final(self).wf(),
            final(self).view() =~= old(self).view().push(None),
            final(self).field == old(self).field,
    {
        self.values.push(false);
        self.validity.push(false);
    }

    /// Appends a present value or a null slot.
    pub fn append_option(&mut self, opt_val: Option<bool>)
        requires
            old(self).wf(),
        ensures
            final(self).wf(),
            final(self).view() =~= old(self).view().push(opt_val),
            final(self).field == old(self).field,
    {
        match opt_val {
            Some(v) => self.append_value(v),
            None => self.append_null(),
        }
    }

    /// Wraps the accumulated buffers into exactly one chunk, consuming the
    /// builder. A builder that saw no null omits the bitmap.
    pub fn finish(self) -> (c: BooleanChunked)
        requires
            self.wf(),
        ensures
            c.wf(),
            c.field == self.field,
            c.chunk_views() =~= seq![self.view()],
            c.flat() =~= self.view(),
    {
        let n_rows = self.values.len();
        proof {
            assert(self.view().len() == n_rows);
        }
        let any_null = has_false(&self.validity);
        let chunk = BooleanChunk {
            values: self.values,
            validity: if any_null {
                Some(self.validity)
            } else {
                None
            },
        };
        proof {
            assert(chunk.view() =~= self.view());
        }
        let c = BooleanChunked { field: self.field, chunks: vec![chunk] };
        proof {
            assert(c.chunk_views() =~= seq![c.chunks@[0].view()]);
            lemma_concat_all_single(c.chunks@[0].view());
        }
        c
    }
}

/// Accumulates fixed-width numeric values with per-slot validity.
pub struct PrimitiveChunkedBuilder {
    pub values: Vec<i64>,
    pub validity: Vec<bool>,
    pub field: Field,
}

impl PrimitiveChunkedBuilder {
    /// The slots appended so far.
    pub open spec fn view(self) -> Seq<Option<i64>> {
        slots(self.values@, Some(self.validity@))
    }

    pub open spec fn wf(self) -> bool {
        &&& self.validity@.len() == self.values@.len()
        &&& self.field.dtype is Numeric
    }

    /// `capacity` is an advisory row-count pre-allocation.
    pub fn new(name: &str, capacity: usize) -> (b: Self)
        ensures
            b.wf(),
            b.view() =~= Seq::<Option<i64>>::empty(),
            b.field.name@ == name@,
    {
        PrimitiveChunkedBuilder {
            values: Vec::with_capacity(capacity),
            validity: Vec::with_capacity(capacity),
            field: Field::new(name, DataType::Numeric),
        }
    }

    /// Appends one present value.
    pub fn append_value(&mut self, v: i64)
        requires
            old(self).wf(),
        ensures
            final(self).wf(),
            final(self).view() =~= old(self).view().push(Some(v)),
            final(self).field == old(self).field,
    {
        self.values.push(v);
        self.validity.push(true);
    }

    /// Appends one null slot.
    pub fn append_null(&mut self)
        requires
            old(self).wf(),
        ensures
            final(self).wf(),
            final(self).view() =~= old(self).view().push(None),
            final(self).field == old(self).field,
    {
        self.values.push(0);
        self.validity.push(false);
    }

    /// Appends a present value or a null slot.
    pub fn append_option(&mut self, opt_val: Option<i64>)
        requires
            old(self).wf(),
        ensures
            final(self).wf(),
            final(self).view() =~= old(self).view().push(opt_val),
            final(self).field == old(self).field,
    {
        match opt_val {
            Some(v) => self.append_value(v),
            None => self.append_null(),
        }
    }

    /// Bulk-appends a raw value slice, all slots present: the cheap path a
    /// list builder takes for a sub-column without nulls. No per-element
    /// validity branching happens here.
    pub fn append_slice(&mut self, v: &[i64])
        requires
            old(self).wf(),
        ensures
            final(self).wf(),
            final(self).view() =~= old(self).view() + slots(v@, None),
            final(self).field == old(self).field,
    {
        proof {
            assert(self.view() =~= self.view() + slots(v@, None).take(0));
        }
        let n = v.len();
        let mut j: usize = 0;
        while j < n
            invariant
                n == v@.len(),
                j <= n,
                self.wf(),
                self.field == old(self).field,
                self.view() =~= old(self).view() + slots(v@, None).take(j as int),
            decreases n - j,
        {
            self.append_value(v[j]);
            proof {
                assert(old(self).view() + slots(v@, None).take(j + 1) =~= (old(self).view()
                    + slots(v@, None).take(j as int)).push(Some(v@[j as int])));
            }
            j = j + 1;
        }
        proof {
            assert(slots(v@, None).take(n as int) =~= slots(v@, None));
        }
    }

    /// Wraps the accumulated buffers into exactly one chunk, consuming the
    /// builder. A builder that saw no null omits the bitmap.
    pub fn finish(self) -> (c: NumericChunked)
        requires
            self.wf(),
        ensures
            c.wf(),
            c.field == self.field,
            c.chunk_views() =~= seq![self.view()],
            c.flat() =~= self.view(),
    {
        let n_rows = self.values.len();
        proof {
            assert(self.view().len() == n_rows);
        }
        let any_null = has_false(&self.validity);
        let chunk = NumericChunk {
            values: self.values,
            validity: if any_null {
                Some(self.validity)
            } else {
                None
            },
        };
        proof {
            assert(chunk.view() =~= self.view());
        }
        let c = NumericChunked { field: self.field, chunks: vec![chunk] };
        proof {
            assert(c.chunk_views() =~= seq![c.chunks@[0].view()]);
            lemma_concat_all_single(c.chunks@[0].view());
        }
        c
    }
}

/// Accumulates strings as UTF-8 payload bytes plus offsets, with per-row
/// validity. Needs two capacity hints: rows and total payload bytes.
pub struct Utf8ChunkedBuilder {
    pub data: Vec<u8>,
    pub offsets: Vec<usize>,
    pub validity: Vec<bool>,
    pub capacity: usize,
    pub field: Field,
}

impl Utf8ChunkedBuilder {
    pub open spec fn nrows(self) -> nat {
        self.validity@.len()
    }

    /// The payload bytes of row `i`.
    pub open spec fn row_bytes(self, i: int) -> Seq<u8> {
        self.data@.subrange(self.offsets@[i] as int, self.offsets@[i + 1] as int)
    }

    /// The rows appended so far.
    pub open spec fn view(self) -> Seq<Option<Seq<u8>>> {
        slots(Seq::new(self.nrows(), |i: int| self.row_bytes(i)), Some(self.validity@))
    }

    pub open spec fn wf(self) -> bool {
        &&& self.offsets@.len() == self.validity@.len() + 1
        &&& self.offsets@[0] == 0
        &&& forall|i: int, j: int|
            0 <= i <= j < self.offsets@.len() ==> #[trigger] self.offsets@[i]
                <= #[trigger] self.offsets@[j]
        &&& self.offsets@.last() == self.data@.len()
        &&& self.field.dtype is Utf8
    }

    /// `capacity` counts rows; `bytes_capacity` estimates the total payload.
    /// Both are advisory; an underestimate only costs reallocation.
    pub fn new(name: &str, capacity: usize, bytes_capacity: usize) -> (b: Self)
        ensures
            b.wf(),
            b.view() =~= Seq::<Option<Seq<u8>>>::empty(),
            b.field.name@ == name@,
    {
        let mut offsets: Vec<usize> = Vec::with_capacity(capacity);
        offsets.push(0);
        let b = Utf8ChunkedBuilder {
            data: Vec::with_capacity(bytes_capacity),
            offsets,
            validity: Vec::with_capacity(capacity),
            capacity,
            field: Field::new(name, DataType::Utf8),
        };
        proof {
            assert(b.view() =~= Seq::<Option<Seq<u8>>>::empty());
        }
        b
    }

    /// Appends one present string.
    pub fn append_value(&mut self, v: &str)
        requires
            old(self).wf(),
        ensures
            final(self).wf(),
            final(self).view() =~~= old(self).view().push(Some(v.spec_bytes())),
            final(self).field == old(self).field,
    {
        push_bytes(&mut self.data, v.as_bytes());
        let end = self.data.len();
        self.offsets.push(end);
        self.validity.push(true);
        proof {
            lemma_utf8_builder_push(*old(self), *self, Some(v.spec_bytes()));
        }
    }

    /// Appends one null slot; no payload bytes advance.
    pub fn append_null(&mut self)
        requires
            old(self).wf(),
        ensures
            final(self).wf(),
            final(self).view() =~~= old(self).view().push(None),
            final(self).field == old(self).field,
    {
        let end = self.data.len();
        self.offsets.push(end);
        self.validity.push(false);
        proof {
            lemma_utf8_builder_push(*old(self), *self, None);
        }
    }

    /// Appends one present string given as its payload bytes; what a list
    /// builder uses when draining a finished sub-column.
    pub(crate) fn append_bytes(&mut self, v: &[u8])
        requires
            old(self).wf(),
        ensures
            final(self).wf(),
            final(self).view() =~~= old(self).view().push(Some(v@)),
            final(self).field == old(self).field,
    {
        push_bytes(&mut self.data, v);
        let end = self.data.len();
        self.offsets.push(end);
        self.validity.push(true);
        proof {
            lemma_utf8_builder_push(*old(self), *self, Some(v@));
        }
    }

    /// Appends a present string or a null slot.
    pub fn append_option(&mut self, opt: Option<&str>)
        requires
            old(self).wf(),
        ensures
            final(self).wf(),
            final(self).view() =~~= old(self).view().push(
                match opt {
                    Some(v) => Some(v.spec_bytes()),
                    None => None,
                },
            ),
            final(self).field == old(self).field,
    {
        match opt {
            Some(v) => self.append_value(v),
            None => self.append_null(),
        }
    }

    /// Wraps the accumulated buffers into exactly one chunk, consuming the
    /// builder. A builder that saw no null omits the bitmap.
    pub fn finish(self) -> (c: Utf8Chunked)
        requires
            self.wf(),
        ensures
            c.wf(),
            c.field == self.field,
            c.chunk_views() =~~= seq![self.view()],
            c.flat() =~~= self.view(),
    {
        let n_rows = self.validity.len();
        proof {
            assert(self.view().len() == n_rows);
        }
        let any_null = has_false(&self.validity);
        let chunk = Utf8Chunk {
            data: self.data,
            offsets: self.offsets,
            validity: if any_null {
                Some(self.validity)
            } else {
                None
            },
        };
        proof {
            assert(chunk.view() =~~= self.view());
        }
        let c = Utf8Chunked { field: self.field, chunks: vec![chunk] };
        proof {
            assert(c.chunk_views() =~= seq![c.chunks@[0].view()]);
            lemma_concat_all_single(c.chunks@[0].view());
        }
        c
    }
}

/// One appended row extends the string builder's rows by one slot and
/// leaves every earlier row's payload untouched.
proof fn lemma_utf8_builder_push(pre: Utf8ChunkedBuilder, post: Utf8ChunkedBuilder, row: Option<
    Seq<u8>,
>)
    requires
        pre.wf(),
        post.offsets@.len() == pre.offsets@.len() + 1,
        forall|t: int| 0 <= t < pre.offsets@.len() ==> post.offsets@[t] == pre.offsets@[t],
        post.offsets@.last() == post.data@.len(),
        post.validity@ == pre.validity@.push(row is Some),
        post.field == pre.field,
        row matches Some(bytes) ==> post.data@ == pre.data@ + bytes,
        row is None ==> post.data@ == pre.data@,
    ensures
        post.wf(),
        post.view() =~~= pre.view().push(row),
{
    assert(post.offsets@.last() == post.data@.len());
    assert forall|i: int, j: int|
        0 <= i <= j < post.offsets@.len() implies #[trigger] post.offsets@[i]
        <= #[trigger] post.offsets@[j] by {
        if j < post.offsets@.len() - 1 {
            assert(post.offsets@[i] == pre.offsets@[i]);
            assert(post.offsets@[j] == pre.offsets@[j]);
        } else {
            if i < j {
                assert(post.offsets@[i] == pre.offsets@[i]);
                assert(pre.offsets@[i] <= pre.offsets@.last());
            }
        }
    }
    assert(post.wf());
    assert forall|t: int| 0 <= t < pre.nrows() implies post.row_bytes(t) =~= pre.row_bytes(
        t,
    ) by {
        assert(post.offsets@[t] == pre.offsets@[t]);
        assert(post.offsets@[t + 1] == pre.offsets@[t + 1]);
        assert(pre.offsets@[t + 1] <= pre.offsets@.last());
    }
    if row is Some {
        assert(post.row_bytes(pre.nrows() as int) =~= row->0);
    } else {
        assert(post.row_bytes(pre.nrows() as int) =~= Seq::<u8>::empty());
    }
    assert(post.view() =~~= pre.view().push(row));
}

/// The rows of a slice of strings, all present, as byte sequences.
pub open spec fn strs_bytes(v: Seq<&str>) -> Seq<Option<Seq<u8>>> {
    Seq::new(v.len(), |i: int| Some(v[i].spec_bytes()))
}

/// The rows of a slice of optional strings, as byte sequences.
pub open spec fn opt_strs_bytes(v: Seq<Option<&str>>) -> Seq<Option<Seq<u8>>> {
    Seq::new(
        v.len(),
        |i: int|
            match v[i] {
                Some(s) => Some(s.spec_bytes()),
                None => None,
            },
    )
}

impl NumericChunked {
    /// Builds a column from a slice of values, none of them null.
    pub fn new_from_slice(name: &str, v: &[i64]) -> (c: NumericChunked)
        ensures
            c.wf(),
            c.chunks@.len() == 1,
            c.flat() =~= slots(v@, None),
            c.field.name@ == name@,
    {
        let mut b = PrimitiveChunkedBuilder::new(name, v.len());
        let mut j: usize = 0;
        while j < v.len()
            invariant
                j <= v@.len(),
                b.wf(),
                b.field.name@ == name@,
                b.view() =~= slots(v@, None).take(j as int),
            decreases v@.len() - j,
        {
            b.append_value(v[j]);
            proof {
                assert(slots(v@, None).take(j + 1) =~= slots(v@, None).take(j as int).push(
                    Some(v@[j as int]),
                ));
            }
            j = j + 1;
        }
        proof {
            assert(slots(v@, None).take(v@.len() as int) =~= slots(v@, None));
        }
        b.finish()
    }

    /// Builds a column from a slice of optional values, nulls kept in place.
    pub fn new_from_opt_slice(name: &str, opt_v: &[Option<i64>]) -> (c: NumericChunked)
        ensures
            c.wf(),
            c.chunks@.len() == 1,
            c.flat() =~= opt_v@,
            c.field.name@ == name@,
    {
        let mut b = PrimitiveChunkedBuilder::new(name, opt_v.len());
        let mut j: usize = 0;
        while j < opt_v.len()
            invariant
                j <= opt_v@.len(),
                b.wf(),
                b.field.name@ == name@,
                b.view() =~= opt_v@.take(j as int),
            decreases opt_v@.len() - j,
        {
            b.append_option(opt_v[j]);
            proof {
                assert(opt_v@.take(j + 1) =~= opt_v@.take(j as int).push(opt_v@[j as int]));
            }
            j = j + 1;
        }
        proof {
            assert(opt_v@.take(opt_v@.len() as int) =~= opt_v@);
        }
        b.finish()
    }
}

impl BooleanChunked {
    /// Builds a column from a slice of values, none of them null.
    pub fn new_from_slice(name: &str, v: &[bool]) -> (c: BooleanChunked)
        ensures
            c.wf(),
            c.chunks@.len() == 1,
            c.flat() =~= slots(v@, None),
            c.field.name@ == name@,
    {
        let mut b = BooleanChunkedBuilder::new(name, v.len());
        let mut j: usize = 0;
        while j < v.len()
            invariant
                j <= v@.len(),
                b.wf(),
                b.field.name@ == name@,
                b.view() =~= slots(v@, None).take(j as int),
            decreases v@.len() - j,
        {
            b.append_value(v[j]);
            proof {
                assert(slots(v@, None).take(j + 1) =~= slots(v@, None).take(j as int).push(
                    Some(v@[j as int]),
                ));
            }
            j = j + 1;
        }
        proof {
            assert(slots(v@, None).take(v@.len() as int) =~= slots(v@, None));
        }
        b.finish()
    }

    /// Builds a column from a slice of optional values, nulls kept in place.
    pub fn new_from_opt_slice(name: &str, opt_v: &[Option<bool>]) -> (c: BooleanChunked)
        ensures
            c.wf(),
            c.chunks@.len() == 1,
            c.flat() =~= opt_v@,
            c.field.name@ == name@,
    {
        let mut b = BooleanChunkedBuilder::new(name, opt_v.len());
        let mut j: usize = 0;
        while j < opt_v.len()
            invariant
                j <= opt_v@.len(),
                b.wf(),
                b.field.name@ == name@,
                b.view() =~= opt_v@.take(j as int),
            decreases opt_v@.len() - j,
        {
            b.append_option(opt_v[j]);
            proof {
                assert(opt_v@.take(j + 1) =~= opt_v@.take(j as int).push(opt_v@[j as int]));
            }
            j = j + 1;
        }
        proof {
            assert(opt_v@.take(opt_v@.len() as int) =~= opt_v@);
        }
        b.finish()
    }
}

impl Utf8Chunked {
    /// Builds a column from a slice of strings, none of them null. The byte
    /// capacity hint is the summed payload size.
    pub fn new_from_slice(name: &str, v: &[&str]) -> (c: Utf8Chunked)
        ensures
            c.wf(),
            c.chunks@.len() == 1,
            c.flat() =~~= strs_bytes(v@),
            c.field.name@ == name@,
    {
        let mut bytes: usize = 0;
        let mut j: usize = 0;
        while j < v.len()
            invariant
                j <= v@.len(),
            decreases v@.len() - j,
        {
            bytes = bytes.saturating_add(v[j].len());
            j = j + 1;
        }
        let mut b = Utf8ChunkedBuilder::new(name, v.len(), bytes);
        let mut i: usize = 0;
        while i < v.len()
            invariant
                i <= v@.len(),
                b.wf(),
                b.field.name@ == name@,
                b.view() =~~= strs_bytes(v@).take(i as int),
            decreases v@.len() - i,
        {
            b.append_value(v[i]);
            proof {
                assert(strs_bytes(v@).take(i + 1) =~~= strs_bytes(v@).take(i as int).push(
                    Some(v@[i as int].spec_bytes()),
                ));
            }
            i = i + 1;
        }
        proof {
            assert(strs_bytes(v@).take(v@.len() as int) =~= strs_bytes(v@));
        }
        b.finish()
    }

    /// Builds a column from a slice of optional strings, nulls kept in
    /// place.
    pub fn new_from_opt_slice(name: &str, opt_v: &[Option<&str>]) -> (c: Utf8Chunked)
        ensures
            c.wf(),
            c.chunks@.len() == 1,
            c.flat() =~~= opt_strs_bytes(opt_v@),
            c.field.name@ == name@,
    {
        let mut bytes: usize = 0;
        let mut j: usize = 0;
        while j < opt_v.len()
            invariant
                j <= opt_v@.len(),
            decreases opt_v@.len() - j,
        {
            match opt_v[j] {
                Some(s) => {
                    bytes = bytes.saturating_add(s.len());
                },
                None => (),
            }
            j = j + 1;
        }
        let mut b = Utf8ChunkedBuilder::new(name, opt_v.len(), bytes);
        let mut i: usize = 0;
        while i < opt_v.len()
            invariant
                i <= opt_v@.len(),
                b.wf(),
                b.field.name@ == name@,
                b.view() =~~= opt_strs_bytes(opt_v@).take(i as int),
            decreases opt_v@.len() - i,
        {
            b.append_option(opt_v[i]);
            proof {
                assert(opt_strs_bytes(opt_v@).take(i + 1) =~~= opt_strs_bytes(opt_v@).take(
                    i as int,
                ).push(
                    match opt_v@[i as int] {
                        Some(s) => Some(s.spec_bytes()),
                        None => None,
                    },
                ));
            }
            i = i + 1;
        }
        proof {
            assert(opt_strs_bytes(opt_v@).take(opt_v@.len() as int) =~= opt_strs_bytes(opt_v@));
        }
        b.finish()
    }
}

/// Forwards owned-or-borrowed string values to the plain string builder; an
/// adapter only, with no semantics of its own.
pub struct Utf8ChunkedBuilderCow {
    pub builder: Utf8ChunkedBuilder,
}

impl Utf8ChunkedBuilderCow {
    /// One capacity hint serves as both the row and the byte estimate.
    pub fn new(name: &str, capacity: usize) -> (b: Self)
        ensures
            b.builder.wf(),
            b.builder.view() =~= Seq::<Option<Seq<u8>>>::empty(),
            b.builder.field.name@ == name@,
    {
        Utf8ChunkedBuilderCow { builder: Utf8ChunkedBuilder::new(name, capacity, capacity) }
    }

    pub fn append_value(&mut self, val: &str)
        requires
            old(self).builder.wf(),
        ensures
            final(self).builder.wf(),
            final(self).builder.view() =~~= old(self).builder.view().push(Some(val.spec_bytes())),
            final(self).builder.field == old(self).builder.field,
    {
        self.builder.append_value(val);
    }

    pub fn append_null(&mut self)
        requires
            old(self).builder.wf(),
        ensures
            final(self).builder.wf(),
            final(self).builder.view() =~~= old(self).builder.view().push(None),
            final(self).builder.field == old(self).builder.field,
    {
        self.builder.append_null();
    }

    pub fn finish(self) -> (c: Utf8Chunked)
        requires
            self.builder.wf(),
        ensures
            c.wf(),
            c.field == self.builder.field,
            c.flat() =~~= self.builder.view(),
    {
        self.builder.finish()
    }
}

} // verus!
