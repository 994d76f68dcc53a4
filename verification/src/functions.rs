//! Row-wise string concatenation over finished columns, with broadcast and
//! null-propagation semantics, and index sorting over several columns.

use vstd::prelude::*;
use vstd::string::StringSliceAdditionalSpecFns;
use crate::dtypes::PolarsError;
use crate::chunk::ElemValue;
use crate::chunked::{Series, Utf8Chunked, NumericChunked, utf8_opt, utf8_rows_view};
use crate::builder::{Utf8ChunkedBuilder, PrimitiveChunkedBuilder};
use vstd::multiset::Multiset;

verus! {

/// Decimal digits of a natural number, most significant first.
pub open spec fn dec_digits(n: nat) -> Seq<u8>
    decreases n,
{
    if n < 10 {
        seq![(48 + n) as u8]
    } else {
        dec_digits(n / 10).push((48 + n % 10) as u8)
    }
}

/// The decimal notation of an integer, with a leading minus sign when
/// negative.
pub open spec fn dec_bytes(v: int) -> Seq<u8> {
    if v < 0 {
        seq![45u8] + dec_digits((-v) as nat)
    } else {
        dec_digits(v as nat)
    }
}

/// The payload a boolean casts to: the words spelled `true` and `false`.
pub open spec fn bool_bytes(b: bool) -> Seq<u8> {
    if b {
        seq![116u8, 114u8, 117u8, 101u8]
    } else {
        seq![102u8, 97u8, 108u8, 115u8, 101u8]
    }
}

/// Renders a boolean as its word.
fn bool_utf8(b: bool) -> (out: Vec<u8>)
    ensures
        out@ == bool_bytes(b),
{
    let out: Vec<u8> = if b {
        vec![116u8, 114u8, 117u8, 101u8]
    } else {
        vec![102u8, 97u8, 108u8, 115u8, 101u8]
    };
    proof {
        assert(out@ =~= bool_bytes(b));
    }
    out
}

/// Renders an integer in decimal notation.
fn itoa64(v: i64) -> (out: Vec<u8>)
    ensures
        out@ == dec_bytes(v as int),
{
    let wide: i128 = v as i128;
    let mag: i128 = if wide < 0 {
        -wide
    } else {
        wide
    };
    let mut tmp: Vec<u8> = Vec::new();
    let mut n: i128 = mag;
    loop
        invariant_except_break
            n == 0 ==> tmp@.len() == 0,
        invariant
            0 <= n <= mag,
            mag <= i64::MAX as i128 + 1,
            tmp@.len() == 0 ==> n == mag,
            tmp@.len() > 0 && n > 0 ==> dec_digits(mag as nat) =~= dec_digits(n as nat)
                + tmp@.reverse(),
        ensures
            tmp@.len() > 0,
            dec_digits(mag as nat) =~= tmp@.reverse(),
        decreases n, (if tmp@.len() == 0 { 1int } else { 0int }),
    {
        let d: u8 = (n % 10) as u8;
        let ghost pre = tmp@;
        tmp.push(48 + d);
        let next = n / 10;
        proof {
            if pre.len() == 0 {
                assert(pre.reverse() =~= Seq::<u8>::empty());
                assert(dec_digits(mag as nat) =~= dec_digits(n as nat) + pre.reverse());
            }
            assert(tmp@.reverse() =~= seq![(48 + n % 10) as u8] + pre.reverse());
            if n >= 10 {
                assert(dec_digits(n as nat) == dec_digits((n as nat) / 10).push(
                    (48 + (n as nat) % 10) as u8,
                ));
                assert(dec_digits((n as nat) / 10) + (seq![(48 + n % 10) as u8] + pre.reverse())
                    =~= (dec_digits((n as nat) / 10).push((48 + (n as nat) % 10) as u8))
                    + pre.reverse());
                assert(next as nat == (n as nat) / 10);
            } else {
                assert(dec_digits(n as nat) =~= seq![(48 + n % 10) as u8]);
            }
        }
        n = next;
        if n == 0 {
            break;
        }
    }
    let n_digits = tmp.len();
    let mut out: Vec<u8> = Vec::new();
    if v < 0 {
        out.push(45);
    }
    let ghost head = out@;
    let mut i: usize = 0;
    while i < n_digits
        invariant
            n_digits == tmp@.len(),
            i <= n_digits,
            out@ =~= head + tmp@.reverse().take(i as int),
        decreases n_digits - i,
    {
        out.push(tmp[n_digits - 1 - i]);
        proof {
            assert(out@ =~= head + tmp@.reverse().take(i + 1));
        }
        i = i + 1;
    }
    proof {
        assert(tmp@.reverse().take(n_digits as int) =~= tmp@.reverse());
        if v < 0 {
            assert(mag as nat == (-(v as int)) as nat);
            assert(out@ =~= seq![45u8] + dec_digits((-(v as int)) as nat));
        } else {
            assert(mag as nat == v as nat);
            assert(head =~= Seq::<u8>::empty());
            assert(out@ =~= dec_digits(v as nat));
        }
    }
    out
}

/// What a column casts to in string representation: strings stay, booleans
/// become words, numeric values become decimal notation; a list column has
/// no string representation.
pub open spec fn cast_utf8_spec(s: Series) -> Seq<Option<Seq<u8>>> {
    match s {
        Series::Utf8(ca) => ca.flat(),
        Series::Boolean(ca) => Seq::new(
            ca.flat().len(),
            |i: int|
                match ca.flat()[i] {
                    Some(b) => Some(bool_bytes(b)),
                    None => None,
                },
        ),
        Series::Numeric(ca) => Seq::new(
            ca.flat().len(),
            |i: int|
                match ca.flat()[i] {
                    Some(v) => Some(dec_bytes(v as int)),
                    None => None,
                },
        ),
        Series::List(_) => Seq::empty(),
    }
}

/// Casts one column to its string rows, nulls kept in place; the one
/// rejected input is a column of lists.
fn cast_utf8_rows(s: &Series) -> (r: Result<Vec<Option<Vec<u8>>>, PolarsError>)
    requires
        s.wf(),
    ensures
        r is Ok <==> !(*s is List),
        r matches Err(e) ==> e is InvalidOperation,
        r matches Ok(rows) ==> utf8_rows_view(rows@) =~~= cast_utf8_spec(*s) && rows@.len()
            == s.spec_len(),
{
    match s {
        Series::Utf8(ca) => Ok(ca.to_vec()),
        Series::Boolean(ca) => {
            let n = ca.len();
            let mut out: Vec<Option<Vec<u8>>> = Vec::new();
            let mut i: usize = 0;
            while i < n
                invariant
                    ca.wf(),
                    n == ca.flat().len(),
                    i <= n,
                    utf8_rows_view(out@) =~~= cast_utf8_spec(Series::Boolean(*ca)).take(i as int),
                    out@.len() == i,
                decreases n - i,
            {
                let row = match ca.get(i) {
                    Some(b) => Some(bool_utf8(b)),
                    None => None,
                };
                out.push(row);
                proof {
                    assert(utf8_rows_view(out@) =~~= cast_utf8_spec(Series::Boolean(*ca)).take(
                        i + 1,
                    ));
                }
                i = i + 1;
            }
            proof {
                assert(cast_utf8_spec(Series::Boolean(*ca)).take(n as int) =~= cast_utf8_spec(
                    Series::Boolean(*ca),
                ));
            }
            Ok(out)
        },
        Series::Numeric(ca) => {
            let n = ca.len();
            let mut out: Vec<Option<Vec<u8>>> = Vec::new();
            let mut i: usize = 0;
            while i < n
                invariant
                    ca.wf(),
                    n == ca.flat().len(),
                    i <= n,
                    utf8_rows_view(out@) =~~= cast_utf8_spec(Series::Numeric(*ca)).take(i as int),
                    out@.len() == i,
                decreases n - i,
            {
                let row = match ca.get(i) {
                    Some(v) => Some(itoa64(v)),
                    None => None,
                };
                out.push(row);
                proof {
                    assert(utf8_rows_view(out@) =~~= cast_utf8_spec(Series::Numeric(*ca)).take(
                        i + 1,
                    ));
                }
                i = i + 1;
            }
            proof {
                assert(cast_utf8_spec(Series::Numeric(*ca)).take(n as int) =~= cast_utf8_spec(
                    Series::Numeric(*ca),
                ));
            }
            Ok(out)
        },
        Series::List(_) => Err(
            PolarsError::InvalidOperation("cannot cast a column of lists to strings"),
        ),
    }
}

/// Byte-wise lexicographic order on string payloads.
pub open spec fn lex_le(a: Seq<u8>, b: Seq<u8>) -> bool
    decreases a.len(),
{
    if a.len() == 0 {
        true
    } else if b.len() == 0 {
        false
    } else if a.first() != b.first() {
        a.first() < b.first()
    } else {
        lex_le(a.drop_first(), b.drop_first())
    }
}

proof fn lemma_lex_le_total(a: Seq<u8>, b: Seq<u8>)
    ensures
        lex_le(a, b) || lex_le(b, a),
    decreases a.len(),
{
    if a.len() > 0 && b.len() > 0 && a.first() == b.first() {
        lemma_lex_le_total(a.drop_first(), b.drop_first());
    }
}

proof fn lemma_lex_le_antisym(a: Seq<u8>, b: Seq<u8>)
    requires
        lex_le(a, b),
        lex_le(b, a),
    ensures
        a =~= b,
    decreases a.len(),
{
    if a.len() > 0 && b.len() > 0 && a.first() == b.first() {
        lemma_lex_le_antisym(a.drop_first(), b.drop_first());
        assert(a =~= seq![a.first()] + a.drop_first());
        assert(b =~= seq![b.first()] + b.drop_first());
    }
}

proof fn lemma_lex_le_trans(a: Seq<u8>, b: Seq<u8>, c: Seq<u8>)
    requires
        lex_le(a, b),
        lex_le(b, c),
    ensures
        lex_le(a, c),
    decreases a.len(),
{
    if a.len() > 0 && b.len() > 0 && c.len() > 0 && a.first() == b.first() && b.first()
        == c.first() {
        lemma_lex_le_trans(a.drop_first(), b.drop_first(), c.drop_first());
    }
}

/// A rank that orders values of different layouts against each other, so
/// that the row order is total whatever the columns hold.
pub open spec fn kind_rank(x: ElemValue) -> int {
    match x {
        ElemValue::Boolean(_) => 0,
        ElemValue::Numeric(_) => 1,
        ElemValue::Utf8(_) => 2,
    }
}

/// Total order on element values: within one layout the natural order of
/// the values, across layouts by rank.
pub open spec fn elem_le(x: ElemValue, y: ElemValue) -> bool {
    match (x, y) {
        (ElemValue::Boolean(a), ElemValue::Boolean(b)) => !a || b,
        (ElemValue::Numeric(a), ElemValue::Numeric(b)) => a <= b,
        (ElemValue::Utf8(a), ElemValue::Utf8(b)) => lex_le(a, b),
        _ => kind_rank(x) <= kind_rank(y),
    }
}

/// Total order on slots: an absent slot sorts before every present value.
pub open spec fn opt_le(x: Option<ElemValue>, y: Option<ElemValue>) -> bool {
    match (x, y) {
        (None, _) => true,
        (Some(_), None) => false,
        (Some(a), Some(b)) => elem_le(a, b),
    }
}

proof fn lemma_opt_le_total(x: Option<ElemValue>, y: Option<ElemValue>)
    ensures
        opt_le(x, y) || opt_le(y, x),
{
    match (x, y) {
        (Some(ElemValue::Utf8(va)), Some(ElemValue::Utf8(vb))) => lemma_lex_le_total(va, vb),
        _ => (),
    }
}

proof fn lemma_opt_le_antisym(x: Option<ElemValue>, y: Option<ElemValue>)
    requires
        opt_le(x, y),
        opt_le(y, x),
    ensures
        x == y,
{
    match (x, y) {
        (Some(ElemValue::Utf8(va)), Some(ElemValue::Utf8(vb))) => lemma_lex_le_antisym(va, vb),
        _ => (),
    }
}

proof fn lemma_opt_le_trans(x: Option<ElemValue>, y: Option<ElemValue>, z: Option<ElemValue>)
    requires
        opt_le(x, y),
        opt_le(y, z),
    ensures
        opt_le(x, z),
{
    match (x, y, z) {
        (Some(ElemValue::Utf8(va)), Some(ElemValue::Utf8(vb)), Some(ElemValue::Utf8(vc))) => {
            lemma_lex_le_trans(va, vb, vc)
        },
        _ => (),
    }
}

/// Every input column as its slots in the common element value space.
pub open spec fn views_of(ss: Seq<Series>) -> Seq<Seq<Option<ElemValue>>> {
    Seq::new(ss.len(), |j: int| ss[j].elem_view())
}

/// Row order from column `m` on: the first column whose values differ at
/// the two rows decides, reversed where its flag says so; rows equal in
/// every column keep their original order.
pub open spec fn row_le_from(
    cols: Seq<Seq<Option<ElemValue>>>,
    rev: Seq<bool>,
    a: int,
    b: int,
    m: int,
) -> bool
    decreases cols.len() - m,
{
    if m < 0 || m >= cols.len() {
        a <= b
    } else {
        let x = cols[m][a];
        let y = cols[m][b];
        if x == y {
            row_le_from(cols, rev, a, b, m + 1)
        } else if rev[m] {
            opt_le(y, x)
        } else {
            opt_le(x, y)
        }
    }
}

/// The order that index sorting establishes: column by column in order of
/// appearance, ties broken by the next column, final ties by row position.
pub open spec fn row_le(cols: Seq<Seq<Option<ElemValue>>>, rev: Seq<bool>, a: int, b: int) -> bool {
    row_le_from(cols, rev, a, b, 0)
}

pub proof fn lemma_row_le_total(
    cols: Seq<Seq<Option<ElemValue>>>,
    rev: Seq<bool>,
    a: int,
    b: int,
    m: int,
)
    ensures
        row_le_from(cols, rev, a, b, m) || row_le_from(cols, rev, b, a, m),
    decreases cols.len() - m,
{
    if 0 <= m < cols.len() {
        if cols[m][a] == cols[m][b] {
            lemma_row_le_total(cols, rev, a, b, m + 1);
        } else {
            lemma_opt_le_total(cols[m][a], cols[m][b]);
        }
    }
}

pub proof fn lemma_row_le_trans(
    cols: Seq<Seq<Option<ElemValue>>>,
    rev: Seq<bool>,
    a: int,
    b: int,
    c: int,
    m: int,
)
    requires
        row_le_from(cols, rev, a, b, m),
        row_le_from(cols, rev, b, c, m),
    ensures
        row_le_from(cols, rev, a, c, m),
    decreases cols.len() - m,
{
    if 0 <= m < cols.len() {
        let x = cols[m][a];
        let y = cols[m][b];
        let z = cols[m][c];
        if x == y && y == z {
            lemma_row_le_trans(cols, rev, a, b, c, m + 1);
        } else if x != y && y != z {
            if x == z {
                if rev[m] {
                    lemma_opt_le_antisym(y, x);
                } else {
                    lemma_opt_le_antisym(x, y);
                }
            } else {
                if rev[m] {
                    lemma_opt_le_trans(z, y, x);
                } else {
                    lemma_opt_le_trans(x, y, z);
                }
            }
        }
    }
}

/// Compares two string payloads byte for byte.
fn bytes_eq(a: &Vec<u8>, b: &Vec<u8>) -> (r: bool)
    ensures
        r == (a@ == b@),
{
    if a.len() != b.len() {
        return false;
    }
    let n = a.len();
    let mut k: usize = 0;
    while k < n
        invariant
            n == a@.len(),
            n == b@.len(),
            k <= n,
            forall|t: int| 0 <= t < k ==> a@[t] == b@[t],
        decreases n - k,
    {
        if a[k] != b[k] {
            return false;
        }
        k = k + 1;
    }
    proof {
        assert(a@ =~= b@);
    }
    true
}

/// Decides the lexicographic order on two string payloads.
fn bytes_lex_le(a: &Vec<u8>, b: &Vec<u8>) -> (r: bool)
    ensures
        r == lex_le(a@, b@),
{
    let na = a.len();
    let nb = b.len();
    let mut k: usize = 0;
    proof {
        assert(a@.skip(0) =~= a@);
        assert(b@.skip(0) =~= b@);
    }
    loop
        invariant
            na == a@.len(),
            nb == b@.len(),
            k <= na,
            k <= nb,
            lex_le(a@, b@) == lex_le(a@.skip(k as int), b@.skip(k as int)),
        decreases na - k,
    {
        proof {
            if k < na && k < nb {
                assert(a@.skip(k as int).first() == a@[k as int]);
                assert(b@.skip(k as int).first() == b@[k as int]);
                assert(a@.skip(k as int).drop_first() =~= a@.skip(k + 1));
                assert(b@.skip(k as int).drop_first() =~= b@.skip(k + 1));
            }
        }
        if k == na {
            proof {
                assert(a@.skip(k as int).len() == 0);
            }
            return true;
        }
        if k == nb {
            proof {
                assert(b@.skip(k as int).len() == 0);
                assert(a@.skip(k as int).len() > 0);
            }
            return false;
        }
        if a[k] != b[k] {
            return a[k] < b[k];
        }
        k = k + 1;
    }
}

/// Compares the slots of one scalar column at two rows: whether they are
/// equal, and the order in each direction.
fn col_le_parts(s: &Series, a: usize, b: usize) -> (t: (bool, bool, bool))
    requires
        s.wf(),
        !(s is List),
        a < s.spec_len(),
        b < s.spec_len(),
    ensures
        t.0 == (s.elem_view()[a as int] == s.elem_view()[b as int]),
        t.1 == opt_le(s.elem_view()[a as int], s.elem_view()[b as int]),
        t.2 == opt_le(s.elem_view()[b as int], s.elem_view()[a as int]),
{
    match s {
        Series::Boolean(ca) => {
            let va = ca.get(a);
            let vb = ca.get(b);
            match (va, vb) {
                (None, None) => (true, true, true),
                (None, Some(_)) => (false, true, false),
                (Some(_), None) => (false, false, true),
                (Some(x), Some(y)) => (x == y, !x || y, !y || x),
            }
        },
        Series::Numeric(ca) => {
            let va = ca.get(a);
            let vb = ca.get(b);
            match (va, vb) {
                (None, None) => (true, true, true),
                (None, Some(_)) => (false, true, false),
                (Some(_), None) => (false, false, true),
                (Some(x), Some(y)) => (x == y, x <= y, y <= x),
            }
        },
        Series::Utf8(ca) => {
            let va = ca.get(a);
            let vb = ca.get(b);
            match (&va, &vb) {
                (None, None) => (true, true, true),
                (None, Some(_)) => (false, true, false),
                (Some(_), None) => (false, false, true),
                (Some(x), Some(y)) => (bytes_eq(x, y), bytes_lex_le(x, y), bytes_lex_le(y, x)),
            }
        },
        Series::List(_) => vstd::pervasive::unreached(),
    }
}

/// Decides the row order established by index sorting.
fn rows_le(by: &[Series], reverse: &[bool], a: usize, b: usize) -> (r: bool)
    requires
        by@.len() == reverse@.len(),
        forall|j: int| 0 <= j < by@.len() ==> (#[trigger] by@[j]).wf() && !(by@[j] is List),
        forall|j: int|
            0 <= j < by@.len() ==> a < (#[trigger] by@[j]).spec_len() && b < by@[j].spec_len(),
    ensures
        r == row_le(views_of(by@), reverse@, a as int, b as int),
{
    let ghost cols = views_of(by@);
    let n = by.len();
    let mut m: usize = 0;
    while m < n
        invariant
            n == by@.len(),
            by@.len() == reverse@.len(),
            m <= n,
            cols == views_of(by@),
            forall|j: int| 0 <= j < by@.len() ==> (#[trigger] by@[j]).wf() && !(by@[j] is List),
            forall|j: int|
                0 <= j < by@.len() ==> a < (#[trigger] by@[j]).spec_len() && b < by@[
                    j].spec_len(),
            row_le_from(cols, reverse@, a as int, b as int, 0) == row_le_from(
                cols,
                reverse@,
                a as int,
                b as int,
                m as int,
            ),
        decreases n - m,
    {
        let (eqv, le_ab, le_ba) = col_le_parts(&by[m], a, b);
        if !eqv {
            if reverse[m] {
                return le_ba;
            } else {
                return le_ab;
            }
        }
        m = m + 1;
    }
    a <= b
}

/// The index values of a finished index column; every slot is present.
pub open spec fn idx_vals(s: Seq<Option<i64>>) -> Seq<i64> {
    Seq::new(
        s.len(),
        |i: int|
            match s[i] {
                Some(v) => v,
                None => 0,
            },
    )
}

/// Finds the indexes that would sort the columns in order of appearance:
/// the first column determines the ordering until it holds duplicates, then
/// the next column, and so on; per-column `reverse` flags flip that
/// column's direction; rows equal everywhere keep their original order.
/// The count of reverse flags must match the count of columns, every column
/// must be as long as the first, and none may be a column of lists; each
/// violation is reported before any state is built.
pub fn argsort_by(by: &[Series], reverse: &[bool]) -> (r: Result<NumericChunked, PolarsError>)
    requires
        forall|j: int| 0 <= j < by@.len() ==> (#[trigger] by@[j]).wf(),
        by@.len() == reverse@.len() ==> by@.len() > 0 && by@[0].spec_len() <= u32::MAX,
    ensures
        r is Ok <==> (by@.len() == reverse@.len() && (forall|j: int|
            0 <= j < by@.len() ==> !((#[trigger] by@[j]) is List)) && (forall|j: int|
            0 <= j < by@.len() ==> (#[trigger] by@[j]).spec_len() == by@[0].spec_len())),
        by@.len() != reverse@.len() ==> (r matches Err(e) && e is ValueError),
        by@.len() == reverse@.len() && (exists|j: int|
            0 <= j < by@.len() && (#[trigger] by@[j]) is List) ==> (r matches Err(e) && e
            is InvalidOperation),
        by@.len() == reverse@.len() && (forall|j: int|
            0 <= j < by@.len() ==> !((#[trigger] by@[j]) is List)) && (exists|j: int|
            0 <= j < by@.len() && (#[trigger] by@[j]).spec_len() != by@[0].spec_len()) ==> (r
            matches Err(e) && e is ValueError),
        r matches Ok(out) ==> {
            &&& out.wf()
            &&& out.field.name@ == by@[0].spec_field().name@
            &&& out.flat().len() == by@[0].spec_len()
            &&& forall|i: int|
                0 <= i < out.flat().len() ==> ((#[trigger] out.flat()[i]) matches Some(v) && 0
                    <= v < by@[0].spec_len())
            &&& forall|p: int, q: int|
                0 <= p <= q < out.flat().len() ==> row_le(
                    views_of(by@),
                    reverse@,
                    idx_vals(out.flat())[p] as int,
                    idx_vals(out.flat())[q] as int,
                )
            &&& idx_vals(out.flat()).to_multiset() == Seq::new(
                by@[0].spec_len(),
                |i: int| i as i64,
            ).to_multiset()
        },
{
    let ncols = by.len();
    if ncols != reverse.len() {
        return Err(
            PolarsError::ValueError(
                "the amount of ordering booleans does not match the amount of series",
            ),
        );
    }
    let mut j: usize = 0;
    while j < ncols
        invariant
            ncols == by@.len(),
            by@.len() == reverse@.len(),
            j <= ncols,
            forall|t: int| 0 <= t < by@.len() ==> (#[trigger] by@[t]).wf(),
            forall|t: int| 0 <= t < j ==> !((#[trigger] by@[t]) is List),
        decreases ncols - j,
    {
        match &by[j] {
            Series::List(_) => {
                return Err(
                    PolarsError::InvalidOperation("cannot sort by a column of lists"),
                );
            },
            _ => (),
        }
        j = j + 1;
    }
    let n = by[0].len();
    let mut j: usize = 0;
    while j < ncols
        invariant
            ncols == by@.len(),
            by@.len() == reverse@.len(),
            j <= ncols,
            n == by@[0].spec_len(),
            forall|t: int| 0 <= t < by@.len() ==> (#[trigger] by@[t]).wf(),
            forall|t: int| 0 <= t < by@.len() ==> !((#[trigger] by@[t]) is List),
            forall|t: int| 0 <= t < j ==> (#[trigger] by@[t]).spec_len() == by@[0].spec_len(),
        decreases ncols - j,
    {
        if by[j].len() != n {
            return Err(
                PolarsError::ValueError(
                    "all series used for sorting should have equal length",
                ),
            );
        }
        j = j + 1;
    }
    let ghost cols = views_of(by@);
    let ghost rev = reverse@;
    let ghost id_seq = Seq::new(n as nat, |i: int| i as i64);

    let mut work: Vec<i64> = Vec::new();
    let mut i: usize = 0;
    while i < n
        invariant
            i <= n,
            n <= u32::MAX,
            work@.len() == i,
            forall|t: int| 0 <= t < i ==> #[trigger] work@[t] == t as i64,
        decreases n - i,
    {
        work.push(i as i64);
        i = i + 1;
    }
    proof {
        assert(work@ =~= id_seq);
    }

    let mut sorted: Vec<i64> = Vec::new();
    proof {
        broadcast use vstd::seq_lib::group_to_multiset_ensures;
        broadcast use vstd::multiset::group_multiset_axioms;

        assert(sorted@.to_multiset() =~= Multiset::<i64>::empty());
        assert(sorted@.to_multiset().add(work@.to_multiset()) =~= id_seq.to_multiset());
    }
    while work.len() > 0
        invariant
            ncols == by@.len(),
            by@.len() == reverse@.len(),
            n == by@[0].spec_len(),
            n <= u32::MAX,
            cols == views_of(by@),
            rev == reverse@,
            id_seq == Seq::new(n as nat, |i: int| i as i64),
            forall|t: int| 0 <= t < by@.len() ==> (#[trigger] by@[t]).wf(),
            forall|t: int| 0 <= t < by@.len() ==> !((#[trigger] by@[t]) is List),
            forall|t: int| 0 <= t < by@.len() ==> (#[trigger] by@[t]).spec_len() == by@[
                0].spec_len(),
            sorted@.len() + work@.len() == n,
            forall|t: int| 0 <= t < sorted@.len() ==> 0 <= #[trigger] sorted@[t] < n,
            forall|t: int| 0 <= t < work@.len() ==> 0 <= #[trigger] work@[t] < n,
            sorted@.to_multiset().add(work@.to_multiset()) =~= id_seq.to_multiset(),
            forall|p: int, q: int|
                0 <= p <= q < sorted@.len() ==> row_le(
                    cols,
                    rev,
                    #[trigger] sorted@[p] as int,
                    #[trigger] sorted@[q] as int,
                ),
            forall|p: int, w: int|
                0 <= p < sorted@.len() && 0 <= w < work@.len() ==> row_le(
                    cols,
                    rev,
                    #[trigger] sorted@[p] as int,
                    #[trigger] work@[w] as int,
                ),
        decreases work@.len(),
    {
        // scan for the least remaining row
        let mut m: usize = 0;
        let mut t: usize = 1;
        proof {
            lemma_row_le_total(cols, rev, work@[0] as int, work@[0] as int, 0);
        }
        while t < work.len()
            invariant
                ncols == by@.len(),
                by@.len() == reverse@.len(),
                n == by@[0].spec_len(),
                cols == views_of(by@),
                rev == reverse@,
                forall|u: int| 0 <= u < by@.len() ==> (#[trigger] by@[u]).wf(),
                forall|u: int| 0 <= u < by@.len() ==> !((#[trigger] by@[u]) is List),
                forall|u: int| 0 <= u < by@.len() ==> (#[trigger] by@[u]).spec_len() == by@[
                    0].spec_len(),
                forall|u: int| 0 <= u < work@.len() ==> 0 <= #[trigger] work@[u] < n,
                work@.len() > 0,
                m < t <= work@.len(),
                forall|u: int|
                    0 <= u < t ==> row_le(
                        cols,
                        rev,
                        work@[m as int] as int,
                        #[trigger] work@[u] as int,
                    ),
            decreases work@.len() - t,
        {
            if !rows_le(by, reverse, work[m] as usize, work[t] as usize) {
                proof {
                    lemma_row_le_total(cols, rev, work@[m as int] as int, work@[t as int] as int, 0);
                    assert forall|u: int|
                        0 <= u < t + 1 implies row_le(
                        cols,
                        rev,
                        work@[t as int] as int,
                        #[trigger] work@[u] as int,
                    ) by {
                        if u < t {
                            lemma_row_le_trans(
                                cols,
                                rev,
                                work@[t as int] as int,
                                work@[m as int] as int,
                                work@[u] as int,
                                0,
                            );
                        } else {
                            lemma_row_le_total(
                                cols,
                                rev,
                                work@[t as int] as int,
                                work@[t as int] as int,
                                0,
                            );
                        }
                    }
                }
                m = t;
            }
            t = t + 1;
        }
        let ghost work0 = work@;
        let ghost v_ghost = work0[m as int];
        let v = work.remove(m);
        sorted.push(v);
        proof {
            broadcast use vstd::seq_lib::group_to_multiset_ensures;
            broadcast use vstd::multiset::group_multiset_axioms;

            assert(work@ == work0.remove(m as int));
            let sorted0 = sorted@.drop_last();
            assert(sorted@ == sorted0.push(v));
            assert(sorted@.to_multiset() =~= sorted0.to_multiset().insert(v));
            assert(work@.to_multiset() =~= work0.to_multiset().remove(v));
            assert(work0.contains(v));
            assert(work0.to_multiset().count(v) > 0);
            assert forall|x: i64|
                sorted@.to_multiset().add(work@.to_multiset()).count(x) == sorted0.to_multiset().add(
                work0.to_multiset(),
            ).count(x) by {}
            assert(sorted@.to_multiset().add(work@.to_multiset()) =~= sorted0.to_multiset().add(
                work0.to_multiset(),
            ));
            // the removed row precedes everything still to come
            assert forall|p: int, w: int|
                0 <= p < sorted@.len() && 0 <= w < work@.len() implies row_le(
                cols,
                rev,
                #[trigger] sorted@[p] as int,
                #[trigger] work@[w] as int,
            ) by {
                let w0 = if w < m { w } else { w + 1 };
                assert(work@[w] == work0[w0]);
                if p < sorted@.len() - 1 {
                    lemma_row_le_trans(
                        cols,
                        rev,
                        sorted@[p] as int,
                        v as int,
                        work0[w0] as int,
                        0,
                    );
                }
            }
        }
    }
    proof {
        broadcast use vstd::seq_lib::group_to_multiset_ensures;
        broadcast use vstd::multiset::group_multiset_axioms;

        assert(work@.to_multiset() =~= Multiset::<i64>::empty());
        assert(sorted@.to_multiset() =~= id_seq.to_multiset());
    }

    // wrap the sorted indexes into a column
    let name0 = match &by[0] {
        Series::Boolean(ca) => ca.name(),
        Series::Numeric(ca) => ca.name(),
        Series::Utf8(ca) => ca.name(),
        Series::List(ca) => ca.name(),
    };
    let mut b = PrimitiveChunkedBuilder::new(name0, n);
    let mut i: usize = 0;
    while i < n
        invariant
            i <= n,
            n == sorted@.len(),
            b.wf(),
            b.field.name@ == by@[0].spec_field().name@,
            b.view() =~= Seq::new(i as nat, |t: int| Some(sorted@[t])),
        decreases n - i,
    {
        b.append_value(sorted[i]);
        proof {
            assert(Seq::new((i + 1) as nat, |t: int| Some(sorted@[t])) =~= Seq::new(
                i as nat,
                |t: int| Some(sorted@[t]),
            ).push(Some(sorted@[i as int])));
        }
        i = i + 1;
    }
    let out = b.finish();
    proof {
        assert(out.flat() =~= Seq::new(n as nat, |t: int| Some(sorted@[t])));
        assert(idx_vals(out.flat()) =~= sorted@);
    }
    Ok(out)
}

/// The longest input length: the output length of row-wise concatenation.
pub open spec fn max_len_of(ss: Seq<Series>) -> nat
    decreases ss.len(),
{
    if ss.len() == 0 {
        0
    } else {
        let m = max_len_of(ss.drop_last());
        if ss.last().spec_len() > m {
            ss.last().spec_len()
        } else {
            m
        }
    }
}

/// Every input column cast to its string rows.
pub open spec fn cast_views(ss: Seq<Series>) -> Seq<Seq<Option<Seq<u8>>>> {
    Seq::new(ss.len(), |j: int| cast_utf8_spec(ss[j]))
}

/// The value a source contributes at output row `i`: a length-one column
/// broadcasts its single value, a streaming column is read at `i`.
pub open spec fn bc_at(col: Seq<Option<Seq<u8>>>, i: int) -> Option<Seq<u8>> {
    if col.len() == 1 {
        col[0]
    } else {
        col[i]
    }
}

/// Whether any of the first `m` sources contributes a null at row `i`.
pub open spec fn row_has_null(cols: Seq<Seq<Option<Seq<u8>>>>, i: int, m: int) -> bool {
    exists|j: int| 0 <= j < m && bc_at(#[trigger] cols[j], i) is None
}

pub open spec fn opt_bytes(o: Option<Seq<u8>>) -> Seq<u8> {
    match o {
        Some(v) => v,
        None => Seq::empty(),
    }
}

/// The first `m` sources' values at row `i`, joined by the delimiter in
/// input order.
pub open spec fn join_prefix(cols: Seq<Seq<Option<Seq<u8>>>>, delim: Seq<u8>, i: int, m: int) -> Seq<
    u8,
>
    decreases m,
{
    if m <= 0 {
        Seq::empty()
    } else if m == 1 {
        opt_bytes(bc_at(cols[0], i))
    } else {
        join_prefix(cols, delim, i, m - 1) + delim + opt_bytes(bc_at(cols[m - 1], i))
    }
}

/// Output row `i` of the concatenation: null as soon as any source is null
/// there, else every source's value joined by the delimiter.
pub open spec fn concat_row(cols: Seq<Seq<Option<Seq<u8>>>>, delim: Seq<u8>, i: int) -> Option<
    Seq<u8>,
> {
    if row_has_null(cols, i, cols.len() as int) {
        None
    } else {
        Some(join_prefix(cols, delim, i, cols.len() as int))
    }
}

/// One source of the row-wise concatenation: a constant value from a
/// length-one column, or a streaming column consumed one slot per row.
pub enum IterBroadCast {
    Column { rows: Vec<Option<Vec<u8>>>, pos: usize },
    Value(Option<Vec<u8>>),
}

impl IterBroadCast {
    /// The source as a column of rows; a constant is a one-row column.
    pub open spec fn bview(self) -> Seq<Option<Seq<u8>>> {
        match self {
            IterBroadCast::Column { rows, pos } => utf8_rows_view(rows@),
            IterBroadCast::Value(v) => seq![utf8_opt(v)],
        }
    }

    /// Draws the next value: a constant repeats for ever, a streaming source
    /// advances by one and runs out at its end.
    pub fn next(&mut self) -> (r: Option<Option<Vec<u8>>>)
        ensures
            *old(self) matches IterBroadCast::Value(v) ==> *final(self) == *old(self) && (r
                matches Some(rv) && utf8_opt(rv) == utf8_opt(v)),
            *old(self) matches IterBroadCast::Column { rows, pos } ==> {
                &&& *final(self) matches IterBroadCast::Column { rows: rows2, pos: pos2 } && rows2@
                    == rows@ && pos2 == if pos < rows@.len() {
                    pos + 1
                } else {
                    pos as int
                }
                &&& pos < rows@.len() ==> (r matches Some(rv) && utf8_opt(rv) == utf8_rows_view(
                    rows@,
                )[pos as int])
                &&& pos >= rows@.len() ==> r is None
            },
    {
        match self {
            IterBroadCast::Value(v) => match v {
                Some(b) => Some(Some(vstd::slice::slice_to_vec(b.as_slice()))),
                None => Some(None),
            },
            IterBroadCast::Column { rows, pos } => {
                if *pos < rows.len() {
                    let out = match &rows[*pos] {
                        Some(b) => Some(vstd::slice::slice_to_vec(b.as_slice())),
                        None => None,
                    };
                    *pos = *pos + 1;
                    Some(out)
                } else {
                    None
                }
            },
        }
    }

    /// Reads the value this source contributes at output row `i`, without
    /// advancing.
    pub fn at(&self, i: usize) -> (r: Option<Vec<u8>>)
        requires
            *self matches IterBroadCast::Column { rows, pos } ==> i < rows@.len(),
        ensures
            *self matches IterBroadCast::Value(v) ==> utf8_opt(r) == utf8_opt(v),
            *self matches IterBroadCast::Column { rows, pos } ==> utf8_opt(r) == utf8_rows_view(
                rows@,
            )[i as int],
    {
        match self {
            IterBroadCast::Value(v) => match v {
                Some(b) => Some(vstd::slice::slice_to_vec(b.as_slice())),
                None => None,
            },
            IterBroadCast::Column { rows, pos } => match &rows[i] {
                Some(b) => Some(vstd::slice::slice_to_vec(b.as_slice())),
                None => None,
            },
        }
    }
}

/// Casts every column to string rows and concatenates them row by row,
/// separated by the delimiter, in linear time. A length-one column
/// broadcasts its value to every output row; a null from any source makes
/// the whole output row null. Inputs must be non-empty and each as long as
/// the longest one, or of length one.
pub fn concat_str(s: &[Series], delimiter: &str) -> (r: Result<Utf8Chunked, PolarsError>)
    requires
        forall|j: int| 0 <= j < s@.len() ==> (#[trigger] s@[j]).wf(),
    ensures
        r is Ok <==> (s@.len() > 0 && (forall|j: int|
            0 <= j < s@.len() ==> !((#[trigger] s@[j]) is List)) && (forall|j: int|
            0 <= j < s@.len() ==> ((#[trigger] s@[j]).spec_len() == 1 || s@[j].spec_len()
                == max_len_of(s@)))),
        s@.len() == 0 ==> (r matches Err(e) && e is NoData),
        s@.len() > 0 && (exists|j: int| 0 <= j < s@.len() && (#[trigger] s@[j]) is List) ==> (r
            matches Err(e) && e is InvalidOperation),
        s@.len() > 0 && (forall|j: int| 0 <= j < s@.len() ==> !((#[trigger] s@[j]) is List)) && (
        exists|j: int|
            0 <= j < s@.len() && (#[trigger] s@[j]).spec_len() != 1 && s@[j].spec_len()
                != max_len_of(s@)) ==> (r matches Err(e) && e is ValueError),
        r matches Ok(out) ==> {
            &&& out.wf()
            &&& out.flat().len() == max_len_of(s@)
            &&& forall|i: int|
                0 <= i < max_len_of(s@) ==> out.flat()[i] == concat_row(
                    cast_views(s@),
                    delimiter.spec_bytes(),
                    i,
                )
            &&& out.field.name@ == s@[0].spec_field().name@
        },
{
    let ncols = s.len();
    if ncols == 0 {
        return Err(PolarsError::NoData("expected multiple series in concat_str function"));
    }
    let ghost gcols = cast_views(s@);
    let ghost dseq = delimiter.spec_bytes();

    // the output length: the longest input
    let mut max_len: usize = 0;
    let mut j: usize = 0;
    while j < ncols
        invariant
            ncols == s@.len(),
            j <= ncols,
            forall|t: int| 0 <= t < s@.len() ==> (#[trigger] s@[t]).wf(),
            max_len == max_len_of(s@.take(j as int)),
        decreases ncols - j,
    {
        proof {
            assert(s@.take(j + 1).drop_last() =~= s@.take(j as int));
        }
        let lj = s[j].len();
        if lj > max_len {
            max_len = lj;
        }
        j = j + 1;
    }
    proof {
        assert(s@.take(ncols as int) =~= s@);
    }

    // cast every column to string rows, in input order
    let mut cols: Vec<Vec<Option<Vec<u8>>>> = Vec::new();
    let mut j: usize = 0;
    while j < ncols
        invariant
            ncols == s@.len(),
            j <= ncols,
            gcols == cast_views(s@),
            forall|t: int| 0 <= t < s@.len() ==> (#[trigger] s@[t]).wf(),
            cols@.len() == j,
            forall|t: int| 0 <= t < j ==> !((#[trigger] s@[t]) is List),
            forall|t: int|
                0 <= t < j ==> utf8_rows_view((#[trigger] cols@[t])@) == gcols[t] && cols@[t]@.len()
                    == s@[t].spec_len(),
        decreases ncols - j,
    {
        match cast_utf8_rows(&s[j]) {
            Ok(rows) => {
                cols.push(rows);
            },
            Err(e) => {
                return Err(e);
            },
        }
        j = j + 1;
    }

    // every input is broadcastable or exactly the output length
    let mut j: usize = 0;
    while j < ncols
        invariant
            ncols == s@.len(),
            j <= ncols,
            forall|t: int| 0 <= t < s@.len() ==> (#[trigger] s@[t]).wf(),
            forall|t: int| 0 <= t < s@.len() ==> !((#[trigger] s@[t]) is List),
            max_len == max_len_of(s@),
            forall|t: int|
                0 <= t < j ==> ((#[trigger] s@[t]).spec_len() == 1 || s@[t].spec_len()
                    == max_len_of(s@)),
            cols@.len() == ncols,
            forall|t: int|
                0 <= t < ncols ==> utf8_rows_view((#[trigger] cols@[t])@) == gcols[t]
                    && cols@[t]@.len() == s@[t].spec_len(),
        decreases ncols - j,
    {
        let lj = cols[j].len();
        if !(lj == 1 || lj == max_len) {
            return Err(
                PolarsError::ValueError(
                    "all series in concat_str function should have equal length or unit length",
                ),
            );
        }
        j = j + 1;
    }

    // a byte-capacity estimate: the payload already known to be needed
    let mut bytes_cap: usize = 0;
    let mut j: usize = 0;
    while j < ncols
        invariant
            ncols == cols@.len(),
            j <= ncols,
        decreases ncols - j,
    {
        let rows_len = cols[j].len();
        if rows_len != 1 {
            let mut t: usize = 0;
            while t < rows_len
                invariant
                    ncols == cols@.len(),
                    j < ncols,
                    rows_len == cols@[j as int]@.len(),
                    t <= rows_len,
                decreases rows_len - t,
            {
                match &cols[j][t] {
                    Some(b) => {
                        bytes_cap = bytes_cap.saturating_add(b.len());
                    },
                    None => (),
                }
                t = t + 1;
            }
        }
        j = j + 1;
    }

    // classify each source: one fixed value, or a streaming column
    let ghost allcols = cols@;
    let mut iters: Vec<IterBroadCast> = Vec::new();
    let mut j: usize = 0;
    while j < ncols
        invariant
            ncols == s@.len(),
            j <= ncols,
            allcols.len() == ncols,
            cols@ =~= allcols.skip(j as int),
            max_len == max_len_of(s@),
            forall|t: int|
                0 <= t < ncols ==> utf8_rows_view((#[trigger] allcols[t])@) == gcols[t]
                    && allcols[t]@.len() == s@[t].spec_len(),
            forall|t: int|
                0 <= t < ncols ==> ((#[trigger] s@[t]).spec_len() == 1 || s@[t].spec_len()
                    == max_len_of(s@)),
            iters@.len() == j,
            forall|t: int|
                0 <= t < j ==> ((#[trigger] iters@[t]) matches IterBroadCast::Value(v) ==> (
                gcols[t].len() == 1 && utf8_opt(v) == gcols[t][0])),
            forall|t: int|
                0 <= t < j ==> ((#[trigger] iters@[t]) matches IterBroadCast::Column {
                    rows,
                    pos,
                } ==> (utf8_rows_view(rows@) == gcols[t] && gcols[t].len() == max_len_of(s@))),
        decreases ncols - j,
    {
        let mut rows_j = cols.remove(0);
        proof {
            assert(allcols.skip(j as int)[0] == allcols[j as int]);
            assert(cols@ =~= allcols.skip(j + 1));
        }
        let it = if rows_j.len() == 1 {
            IterBroadCast::Value(rows_j.remove(0))
        } else {
            IterBroadCast::Column { rows: rows_j, pos: 0 }
        };
        proof {
            assert(gcols[j as int].len() == s@[j as int].spec_len());
        }
        iters.push(it);
        j = j + 1;
    }

    // build the output, one row at a time, reusing one scratch buffer
    let name0 = match &s[0] {
        Series::Boolean(ca) => ca.name(),
        Series::Numeric(ca) => ca.name(),
        Series::Utf8(ca) => ca.name(),
        Series::List(ca) => ca.name(),
    };
    let mut builder = Utf8ChunkedBuilder::new(name0, max_len, bytes_cap);
    let ghost target = Seq::new(max_len as nat, |i: int| concat_row(gcols, dseq, i));
    let mut buf: Vec<u8> = Vec::new();
    let mut i: usize = 0;
    while i < max_len
        invariant
            ncols == s@.len(),
            i <= max_len,
            max_len == max_len_of(s@),
            target == Seq::new(max_len as nat, |t: int| concat_row(gcols, dseq, t)),
            gcols.len() == ncols,
            dseq == delimiter.spec_bytes(),
            iters@.len() == ncols,
            forall|t: int|
                0 <= t < ncols ==> ((#[trigger] iters@[t]) matches IterBroadCast::Value(v) ==> (
                gcols[t].len() == 1 && utf8_opt(v) == gcols[t][0])),
            forall|t: int|
                0 <= t < ncols ==> ((#[trigger] iters@[t]) matches IterBroadCast::Column {
                    rows,
                    pos,
                } ==> (utf8_rows_view(rows@) == gcols[t] && gcols[t].len() == max_len_of(s@))),
            builder.wf(),
            builder.field.name@ == s@[0].spec_field().name@,
            builder.view() =~~= target.take(i as int),
        decreases max_len - i,
    {
        buf.clear();
        let mut has_null = false;
        let mut j: usize = 0;
        while j < ncols
            invariant
                ncols == s@.len(),
                i < max_len,
                max_len == max_len_of(s@),
                gcols.len() == ncols,
                dseq == delimiter.spec_bytes(),
                j <= ncols,
                iters@.len() == ncols,
                forall|t: int|
                    0 <= t < ncols ==> ((#[trigger] iters@[t]) matches IterBroadCast::Value(v)
                        ==> (gcols[t].len() == 1 && utf8_opt(v) == gcols[t][0])),
                forall|t: int|
                    0 <= t < ncols ==> ((#[trigger] iters@[t]) matches IterBroadCast::Column {
                        rows,
                        pos,
                    } ==> (utf8_rows_view(rows@) == gcols[t] && gcols[t].len() == max_len_of(s@))),
                has_null == row_has_null(gcols, i as int, j as int),
                !has_null ==> buf@ == join_prefix(gcols, dseq, i as int, j as int),
            decreases ncols - j,
        {
            if j > 0 {
                crate::builder::push_bytes(&mut buf, delimiter.as_bytes());
            }
            let v = iters[j].at(i);
            proof {
                assert(utf8_opt(v) == bc_at(gcols[j as int], i as int));
            }
            match v {
                Some(b) => {
                    crate::builder::push_bytes(&mut buf, b.as_slice());
                    proof {
                        if !has_null {
                            assert(!row_has_null(gcols, i as int, j + 1));
                            assert(buf@ =~= join_prefix(gcols, dseq, i as int, j + 1));
                        }
                    }
                },
                None => {
                    has_null = true;
                    proof {
                        assert(bc_at(gcols[j as int], i as int) is None);
                        assert(row_has_null(gcols, i as int, j + 1));
                    }
                },
            }
            proof {
                if has_null {
                    assert(row_has_null(gcols, i as int, j + 1));
                }
            }
            j = j + 1;
        }
        if has_null {
            builder.append_null();
        } else {
            builder.append_bytes(buf.as_slice());
        }
        proof {
            assert(target[i as int] == concat_row(gcols, dseq, i as int));
            assert(builder.view() =~~= target.take(i + 1));
        }
        i = i + 1;
    }
    proof {
        assert(target.take(max_len as int) =~= target);
    }
    let out = builder.finish();
    proof {
        assert(out.flat() =~~= target);
    }
    Ok(out)
}

} // verus!
