//! Physical chunks: one contiguous block of values plus its own validity
//! bitmap. A missing bitmap means every slot is present; a present bitmap is
//! the single source of truth.

use vstd::prelude::*;
use crate::flat::{count_nones, lemma_count_nones_zero};

verus! {

/// Spec-level value of one list element, across the three inner layouts.
pub enum ElemValue {
    Boolean(bool),
    Numeric(i64),
    Utf8(Seq<u8>),
}

/// The optional validity bitmap, as a sequence of present/absent bits.
pub open spec fn validity_view(v: Option<Vec<bool>>) -> Option<Seq<bool>> {
    match v {
        Some(bits) => Some(bits@),
        None => None,
    }
}

/// The logical slots of a chunk: values masked by the validity bitmap, with
/// a missing bitmap read as all-present.
pub open spec fn slots<V>(vals: Seq<V>, validity: Option<Seq<bool>>) -> Seq<Option<V>> {
    match validity {
        None => vals.map_values(|v: V| Some(v)),
        Some(bits) => Seq::new(vals.len(), |i: int| if bits[i] { Some(vals[i]) } else { None }),
    }
}

/// A bitmap fits its values, if it is materialized at all.
pub open spec fn validity_fits(validity: Option<Seq<bool>>, n: nat) -> bool {
    match validity {
        None => true,
        Some(bits) => bits.len() == n,
    }
}

/// Number of absent bits in a bitmap.
pub open spec fn count_false(bits: Seq<bool>) -> nat
    decreases bits.len(),
{
    if bits.len() == 0 {
        0
    } else {
        count_false(bits.drop_last()) + if bits.last() {
            0nat
        } else {
            1nat
        }
    }
}

pub proof fn lemma_count_nones_slots<V>(vals: Seq<V>, bits: Seq<bool>)
    requires
        bits.len() == vals.len(),
    ensures
        count_nones(slots(vals, Some(bits))) == count_false(bits),
    decreases vals.len(),
{
    if vals.len() > 0 {
        lemma_count_nones_slots(vals.drop_last(), bits.drop_last());
        assert(slots(vals, Some(bits)).drop_last() =~= slots(
            vals.drop_last(),
            Some(bits.drop_last()),
        ));
    }
}

pub proof fn lemma_count_nones_all_present<V>(vals: Seq<V>)
    ensures
        count_nones(slots(vals, None)) == 0,
{
    lemma_count_nones_zero(slots(vals, None));
    assert(forall|i: int|
        0 <= i < vals.len() ==> slots(vals, None)[i] == Some(vals[i]));
}

/// Counts the absent bits of a bitmap.
pub fn count_false_bits(bits: &Vec<bool>) -> (n: usize)
    ensures
        n == count_false(bits@),
{
    let mut n: usize = 0;
    let mut i: usize = 0;
    while i < bits.len()
        invariant
            i <= bits.len(),
            n == count_false(bits@.take(i as int)),
            n <= i,
        decreases bits.len() - i,
    {
        proof {
            assert(bits@.take(i + 1).drop_last() =~= bits@.take(i as int));
        }
        if !bits[i] {
            n = n + 1;
        }
        i = i + 1;
    }
    proof {
        assert(bits@.take(bits@.len() as int) =~= bits@);
    }
    n
}

/// One contiguous block of booleans with its validity bitmap.
pub struct BooleanChunk {
    pub values: Vec<bool>,
    pub validity: Option<Vec<bool>>,
}

impl BooleanChunk {
    pub open spec fn wf(self) -> bool {
        validity_fits(validity_view(self.validity), self.values@.len())
    }

    pub open spec fn view(self) -> Seq<Option<bool>> {
        slots(self.values@, validity_view(self.validity))
    }

    pub fn len(&self) -> (n: usize)
        ensures
            n == self.view().len(),
    {
        self.values.len()
    }

    pub fn null_count(&self) -> (n: usize)
        requires
            self.wf(),
        ensures
            n == count_nones(self.view()),
    {
        match &self.validity {
            None => {
                proof {
                    lemma_count_nones_all_present(self.values@);
                }
                0
            },
            Some(bits) => {
                proof {
                    lemma_count_nones_slots(self.values@, bits@);
                }
                count_false_bits(bits)
            },
        }
    }
}

/// One contiguous block of fixed-width numeric values with its bitmap.
pub struct NumericChunk {
    pub values: Vec<i64>,
    pub validity: Option<Vec<bool>>,
}

impl NumericChunk {
    pub open spec fn wf(self) -> bool {
        validity_fits(validity_view(self.validity), self.values@.len())
    }

    pub open spec fn view(self) -> Seq<Option<i64>> {
        slots(self.values@, validity_view(self.validity))
    }

    pub fn len(&self) -> (n: usize)
        ensures
            n == self.view().len(),
    {
        self.values.len()
    }

    pub fn null_count(&self) -> (n: usize)
        requires
            self.wf(),
        ensures
            n == count_nones(self.view()),
    {
        match &self.validity {
            None => {
                proof {
                    lemma_count_nones_all_present(self.values@);
                }
                0
            },
            Some(bits) => {
                proof {
                    lemma_count_nones_slots(self.values@, bits@);
                }
                count_false_bits(bits)
            },
        }
    }
}

/// Variable-width string storage: UTF-8 payload bytes, one offset per row
/// boundary, and the validity bitmap.
pub struct Utf8Chunk {
    pub data: Vec<u8>,
    pub offsets: Vec<usize>,
    pub validity: Option<Vec<bool>>,
}

impl Utf8Chunk {
    pub open spec fn nrows(self) -> nat {
        (self.offsets@.len() - 1) as nat
    }

    pub open spec fn wf(self) -> bool {
        &&& self.offsets@.len() >= 1
        &&& self.offsets@[0] == 0
        &&& forall|i: int, j: int|
            0 <= i <= j < self.offsets@.len() ==> #[trigger] self.offsets@[i]
                <= #[trigger] self.offsets@[j]
        &&& self.offsets@.last() == self.data@.len()
        &&& validity_fits(validity_view(self.validity), self.nrows())
    }

    /// The payload bytes of row `i`, present or not.
    pub open spec fn row_bytes(self, i: int) -> Seq<u8> {
        self.data@.subrange(self.offsets@[i] as int, self.offsets@[i + 1] as int)
    }

    pub open spec fn all_rows(self) -> Seq<Seq<u8>> {
        Seq::new(self.nrows(), |i: int| self.row_bytes(i))
    }

    pub open spec fn view(self) -> Seq<Option<Seq<u8>>> {
        slots(self.all_rows(), validity_view(self.validity))
    }

    pub fn len(&self) -> (n: usize)
        requires
            self.wf(),
        ensures
            n == self.view().len(),
    {
        self.offsets.len() - 1
    }

    pub fn null_count(&self) -> (n: usize)
        requires
            self.wf(),
        ensures
            n == count_nones(self.view()),
    {
        match &self.validity {
            None => {
                proof {
                    lemma_count_nones_all_present(self.all_rows());
                }
                0
            },
            Some(bits) => {
                proof {
                    lemma_count_nones_slots(self.all_rows(), bits@);
                }
                count_false_bits(bits)
            },
        }
    }

    /// Copies out the payload bytes of row `i`.
    pub fn value_at(&self, i: usize) -> (out: Vec<u8>)
        requires
            self.wf(),
            i < self.nrows(),
        ensures
            out@ == self.row_bytes(i as int),
    {
        let n_off = self.offsets.len();
        proof {
            assert(i + 1 < n_off);
        }
        let start = self.offsets[i];
        let end = self.offsets[i + 1];
        let mut out: Vec<u8> = Vec::new();
        let mut j: usize = start;
        while j < end
            invariant
                start <= j <= end,
                end <= self.data@.len(),
                out@ == self.data@.subrange(start as int, j as int),
            decreases end - j,
        {
            out.push(self.data[j]);
            proof {
                assert(out@ =~= self.data@.subrange(start as int, j + 1));
            }
            j = j + 1;
        }
        out
    }
}

/// The values sink of a list chunk: one contiguous child array of the
/// element kind the list was built for.
pub enum InnerChunk {
    Boolean(BooleanChunk),
    Numeric(NumericChunk),
    Utf8(Utf8Chunk),
}

/// Lifts per-layout slots into the common element value space.
pub open spec fn lift_bool(s: Seq<Option<bool>>) -> Seq<Option<ElemValue>> {
    s.map_values(
        |o: Option<bool>|
            match o {
                Some(b) => Some(ElemValue::Boolean(b)),
                None => None,
            },
    )
}

pub open spec fn lift_num(s: Seq<Option<i64>>) -> Seq<Option<ElemValue>> {
    s.map_values(
        |o: Option<i64>|
            match o {
                Some(v) => Some(ElemValue::Numeric(v)),
                None => None,
            },
    )
}

pub open spec fn lift_utf8(s: Seq<Option<Seq<u8>>>) -> Seq<Option<ElemValue>> {
    s.map_values(
        |o: Option<Seq<u8>>|
            match o {
                Some(v) => Some(ElemValue::Utf8(v)),
                None => None,
            },
    )
}

impl InnerChunk {
    pub open spec fn wf(self) -> bool {
        match self {
            InnerChunk::Boolean(c) => c.wf(),
            InnerChunk::Numeric(c) => c.wf(),
            InnerChunk::Utf8(c) => c.wf(),
        }
    }

    pub open spec fn view(self) -> Seq<Option<ElemValue>> {
        match self {
            InnerChunk::Boolean(c) => lift_bool(c.view()),
            InnerChunk::Numeric(c) => lift_num(c.view()),
            InnerChunk::Utf8(c) => lift_utf8(c.view()),
        }
    }

    pub fn len(&self) -> (n: usize)
        requires
            self.wf(),
        ensures
            n == self.view().len(),
    {
        match self {
            InnerChunk::Boolean(c) => c.len(),
            InnerChunk::Numeric(c) => c.len(),
            InnerChunk::Utf8(c) => c.len(),
        }
    }
}

/// Reports the null count and a copy of the validity bitmap of a physical
/// array; `None` stands for a chunk with no materialized bitmap.
pub fn get_bitmap(arr: &InnerChunk) -> (out: (usize, Option<Vec<bool>>))
    requires
        arr.wf(),
    ensures
        out.0 == count_nones(arr.view()),
        validity_view(out.1) == match arr {
            InnerChunk::Boolean(c) => validity_view(c.validity),
            InnerChunk::Numeric(c) => validity_view(c.validity),
            InnerChunk::Utf8(c) => validity_view(c.validity),
        },
{
    let (n, bits) = match arr {
        InnerChunk::Boolean(c) => {
            proof {
                lemma_lift_count_bool(c.view());
            }
            (c.null_count(), &c.validity)
        },
        InnerChunk::Numeric(c) => {
            proof {
                lemma_lift_count_num(c.view());
            }
            (c.null_count(), &c.validity)
        },
        InnerChunk::Utf8(c) => {
            proof {
                lemma_lift_count_utf8(c.view());
            }
            (c.null_count(), &c.validity)
        },
    };
    let copy = match bits {
        None => None,
        Some(b) => Some(vstd::slice::slice_to_vec(b.as_slice())),
    };
    (n, copy)
}

/// Lifting slots into the common value space moves no null around.
pub proof fn lemma_lift_count_bool(s: Seq<Option<bool>>)
    ensures
        count_nones(lift_bool(s)) == count_nones(s),
    decreases s.len(),
{
    if s.len() > 0 {
        lemma_lift_count_bool(s.drop_last());
        assert(lift_bool(s).drop_last() =~= lift_bool(s.drop_last()));
    }
}

pub proof fn lemma_lift_count_num(s: Seq<Option<i64>>)
    ensures
        count_nones(lift_num(s)) == count_nones(s),
    decreases s.len(),
{
    if s.len() > 0 {
        lemma_lift_count_num(s.drop_last());
        assert(lift_num(s).drop_last() =~= lift_num(s.drop_last()));
    }
}

pub proof fn lemma_lift_count_utf8(s: Seq<Option<Seq<u8>>>)
    ensures
        count_nones(lift_utf8(s)) == count_nones(s),
    decreases s.len(),
{
    if s.len() > 0 {
        lemma_lift_count_utf8(s.drop_last());
        assert(lift_utf8(s).drop_last() =~= lift_utf8(s.drop_last()));
    }
}

/// One list row block: a contiguous child array, outer offsets, and the
/// outer validity bitmap. Offsets cut the child array into one (start, end)
/// range per row; a null row advances no offset.
pub struct ListChunk {
    pub child: InnerChunk,
    pub offsets: Vec<usize>,
    pub validity: Option<Vec<bool>>,
}

impl ListChunk {
    pub open spec fn nrows(self) -> nat {
        (self.offsets@.len() - 1) as nat
    }

    pub open spec fn wf(self) -> bool {
        &&& self.child.wf()
        &&& self.offsets@.len() >= 1
        &&& self.offsets@[0] == 0
        &&& forall|i: int, j: int|
            0 <= i <= j < self.offsets@.len() ==> #[trigger] self.offsets@[i]
                <= #[trigger] self.offsets@[j]
        &&& self.offsets@.last() == self.child.view().len()
        &&& validity_fits(validity_view(self.validity), self.nrows())
        &&& forall|i: int|
            0 <= i < self.nrows() && !crate::chunk::valid_at(
                validity_view(self.validity),
                i,
            ) ==> self.offsets@[i] == self.offsets@[i + 1]
    }

    /// The elements of row `i`, present or not.
    pub open spec fn row_elems(self, i: int) -> Seq<Option<ElemValue>> {
        self.child.view().subrange(self.offsets@[i] as int, self.offsets@[i + 1] as int)
    }

    pub open spec fn all_rows(self) -> Seq<Seq<Option<ElemValue>>> {
        Seq::new(self.nrows(), |i: int| self.row_elems(i))
    }

    /// The three-state rows: a null list, an empty list, or a run of
    /// optional elements.
    pub open spec fn view(self) -> Seq<Option<Seq<Option<ElemValue>>>> {
        slots(self.all_rows(), validity_view(self.validity))
    }

    pub fn len(&self) -> (n: usize)
        requires
            self.wf(),
        ensures
            n == self.view().len(),
    {
        self.offsets.len() - 1
    }

    pub fn null_count(&self) -> (n: usize)
        requires
            self.wf(),
        ensures
            n == count_nones(self.view()),
    {
        match &self.validity {
            None => {
                proof {
                    lemma_count_nones_all_present(self.all_rows());
                }
                0
            },
            Some(bits) => {
                proof {
                    lemma_count_nones_slots(self.all_rows(), bits@);
                }
                count_false_bits(bits)
            },
        }
    }
}

/// Whether slot `i` is present under an optional bitmap.
pub open spec fn valid_at(validity: Option<Seq<bool>>, i: int) -> bool {
    match validity {
        None => true,
        Some(bits) => bits[i],
    }
}

} // verus!
