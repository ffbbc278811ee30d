//! The binary weight file: a little-endian `u64` count of arrays, then for
//! each array a `u64` count of dimensions, the dimensions as `u64`, and the
//! elements as 32-bit words.
use vstd::prelude::*;
use vstd::bytes::{
    spec_u64_to_le_bytes, spec_u64_from_le_bytes, spec_u32_to_le_bytes, spec_u32_from_le_bytes,
    u64_to_le_bytes, u32_to_le_bytes, u64_from_le_bytes, u32_from_le_bytes,
    lemma_auto_spec_u64_to_from_le_bytes, lemma_auto_spec_u32_to_from_le_bytes,
};
use crate::tensor::{Array, shape_size, shape_fits, lemma_shape_size_nonneg};

verus! {

/// What a weight file records of an array: its shape and its elements.
pub type ArrayView = (Seq<usize>, Seq<u32>);

pub open spec fn array_view(a: Array<u32>) -> ArrayView {
    (a.shape@, a.data@)
}

pub open spec fn views(ps: Seq<Array<u32>>) -> Seq<ArrayView> {
    ps.map_values(|a: Array<u32>| array_view(a))
}

/// An array that a weight file can hold: its data matches its shape.
pub open spec fn valid_view(v: ArrayView) -> bool {
    &&& v.0.len() <= usize::MAX
    &&& shape_fits(v.0)
    &&& shape_size(v.0) == v.1.len()
}

pub open spec fn valid_views(vs: Seq<ArrayView>) -> bool {
    &&& vs.len() <= usize::MAX
    &&& forall|i: int| 0 <= i < vs.len() ==> valid_view(#[trigger] vs[i])
}

pub open spec fn dims_bytes(dims: Seq<usize>) -> Seq<u8>
    decreases dims.len(),
{
    if dims.len() == 0 {
        Seq::empty()
    } else {
        dims_bytes(dims.drop_last()) + spec_u64_to_le_bytes(dims.last() as u64)
    }
}

pub open spec fn words_bytes(words: Seq<u32>) -> Seq<u8>
    decreases words.len(),
{
    if words.len() == 0 {
        Seq::empty()
    } else {
        words_bytes(words.drop_last()) + spec_u32_to_le_bytes(words.last())
    }
}

/// The bytes of one array.
pub open spec fn array_bytes(v: ArrayView) -> Seq<u8> {
    spec_u64_to_le_bytes(v.0.len() as u64) + dims_bytes(v.0) + words_bytes(v.1)
}

pub open spec fn arrays_bytes(vs: Seq<ArrayView>) -> Seq<u8>
    decreases vs.len(),
{
    if vs.len() == 0 {
        Seq::empty()
    } else {
        arrays_bytes(vs.drop_last()) + array_bytes(vs.last())
    }
}

/// The bytes of a weight file holding the given arrays.
pub open spec fn weights_bytes(vs: Seq<ArrayView>) -> Seq<u8> {
    spec_u64_to_le_bytes(vs.len() as u64) + arrays_bytes(vs)
}

/// `p` is a prefix of `b`.
pub open spec fn is_prefix(p: Seq<u8>, b: Seq<u8>) -> bool {
    p.len() <= b.len() && b.subrange(0, p.len() as int) == p
}

fn append_bytes(out: &mut Vec<u8>, more: Vec<u8>)
    ensures
        final(out)@ == old(out)@ + more@,
{
    let mut more = more;
    out.append(&mut more);
}

/// Writes the arrays in the weight-file format.
pub fn encode_params(params: &[Array<u32>]) -> (b: Vec<u8>)
    ensures
        b@ == weights_bytes(views(params@)),
{
    let ghost vs = views(params@);
    let mut out = u64_to_le_bytes(params.len() as u64);
    let mut i: usize = 0;
    assert(vs.take(0) =~= Seq::<ArrayView>::empty());
    while i < params.len()
        invariant
            vs == views(params@),
            i <= params@.len(),
            out@ == spec_u64_to_le_bytes(params@.len() as u64) + arrays_bytes(vs.take(i as int)),
        decreases params@.len() - i,
    {
        let a = &params[i];
        let ghost before = out@;
        append_bytes(&mut out, u64_to_le_bytes(a.shape.len() as u64));
        let mut j: usize = 0;
        assert(a.shape@.take(0) =~= Seq::<usize>::empty());
        while j < a.shape.len()
            invariant
                j <= a.shape@.len(),
                out@ == before + spec_u64_to_le_bytes(a.shape@.len() as u64) + dims_bytes(
                    a.shape@.take(j as int),
                ),
            decreases a.shape@.len() - j,
        {
            append_bytes(&mut out, u64_to_le_bytes(a.shape[j] as u64));
            assert(a.shape@.take(j + 1).drop_last() =~= a.shape@.take(j as int));
            j = j + 1;
        }
        assert(a.shape@.take(a.shape@.len() as int) =~= a.shape@);
        let ghost mid = out@;
        let mut k: usize = 0;
        assert(a.data@.take(0) =~= Seq::<u32>::empty());
        while k < a.data.len()
            invariant
                k <= a.data@.len(),
                out@ == mid + words_bytes(a.data@.take(k as int)),
            decreases a.data@.len() - k,
        {
            append_bytes(&mut out, u32_to_le_bytes(a.data[k]));
            assert(a.data@.take(k + 1).drop_last() =~= a.data@.take(k as int));
            k = k + 1;
        }
        assert(a.data@.take(a.data@.len() as int) =~= a.data@);
        assert(vs.take(i + 1).drop_last() =~= vs.take(i as int));
        assert(vs[i as int] == array_view(params@[i as int]));
        assert(out@ =~= spec_u64_to_le_bytes(params@.len() as u64) + arrays_bytes(
            vs.take(i + 1),
        ));
        i = i + 1;
    }
    assert(vs.take(params@.len() as int) =~= vs);
    out
}


/// The `u64` stored little-endian at `pos`, if eight bytes are there.
spec fn read_u64(b: Seq<u8>, pos: int) -> Option<u64> {
    if 0 <= pos && pos + 8 <= b.len() {
        Some(spec_u64_from_le_bytes(b.subrange(pos, pos + 8)))
    } else {
        None
    }
}

/// `nd` dimensions stored from `pos` on, if the bytes are there and every
/// dimension fits a `usize`.
spec fn read_dims(b: Seq<u8>, pos: int, nd: nat) -> Option<Seq<usize>>
    decreases nd,
{
    if nd == 0 {
        Some(Seq::empty())
    } else {
        match read_dims(b, pos, (nd - 1) as nat) {
            Some(ds) => match read_u64(b, pos + 8 * (nd - 1)) {
                Some(x) => if x <= usize::MAX {
                    Some(ds.push(x as usize))
                } else {
                    None
                },
                None => None,
            },
            None => None,
        }
    }
}

/// `m` words stored from `pos` on.
spec fn read_words(b: Seq<u8>, pos: int, m: nat) -> Seq<u32> {
    Seq::new(m, |i: int| spec_u32_from_le_bytes(b.subrange(pos + 4 * i, pos + 4 * i + 4)))
}

/// The array stored at `pos` and the position just past it.
spec fn read_array(b: Seq<u8>, pos: int) -> Option<(ArrayView, int)> {
    match read_u64(b, pos) {
        None => None,
        Some(nd) => match read_dims(b, pos + 8, nd as nat) {
            None => None,
            Some(ds) => {
                let p2 = pos + 8 + 8 * nd;
                if nd <= usize::MAX && shape_fits(ds) && p2 + 4 * shape_size(ds) <= b.len() {
                    Some(
                        (
                            (ds, read_words(b, p2, shape_size(ds) as nat)),
                            p2 + 4 * shape_size(ds),
                        ),
                    )
                } else {
                    None
                }
            },
        },
    }
}

/// `k` arrays stored one after the other from `pos` on.
spec fn read_arrays(b: Seq<u8>, pos: int, k: nat) -> Option<(Seq<ArrayView>, int)>
    decreases k,
{
    if k == 0 {
        Some((Seq::empty(), pos))
    } else {
        match read_arrays(b, pos, (k - 1) as nat) {
            Some((vs, p)) => match read_array(b, p) {
                Some((v, e)) => Some((vs.push(v), e)),
                None => None,
            },
            None => None,
        }
    }
}

/// The arrays of the weight file at the start of `b`.
spec fn read_weights(b: Seq<u8>) -> Option<(Seq<ArrayView>, int)> {
    match read_u64(b, 0) {
        Some(n) => if n <= usize::MAX {
            read_arrays(b, 8, n as nat)
        } else {
            None
        },
        None => None,
    }
}

proof fn lemma_dims_bytes_len(ds: Seq<usize>)
    ensures
        dims_bytes(ds).len() == 8 * ds.len(),
    decreases ds.len(),
{
    lemma_auto_spec_u64_to_from_le_bytes();
    if ds.len() > 0 {
        lemma_dims_bytes_len(ds.drop_last());
    }
}

proof fn lemma_words_bytes_len(ws: Seq<u32>)
    ensures
        words_bytes(ws).len() == 4 * ws.len(),
    decreases ws.len(),
{
    lemma_auto_spec_u32_to_from_le_bytes();
    if ws.len() > 0 {
        lemma_words_bytes_len(ws.drop_last());
    }
}

/// The `i`-th word of `words_bytes(ws)` is the encoding of `ws[i]`.
proof fn lemma_words_index(ws: Seq<u32>, i: int)
    requires
        0 <= i < ws.len(),
    ensures
        words_bytes(ws).subrange(4 * i, 4 * i + 4) == spec_u32_to_le_bytes(ws[i]),
    decreases ws.len(),
{
    lemma_auto_spec_u32_to_from_le_bytes();
    let w2 = ws.drop_last();
    lemma_words_bytes_len(w2);
    if i == ws.len() - 1 {
        assert(words_bytes(ws).subrange(4 * i, 4 * i + 4) =~= spec_u32_to_le_bytes(ws.last()));
    } else {
        lemma_words_index(w2, i);
        assert(words_bytes(ws).subrange(4 * i, 4 * i + 4) =~= words_bytes(w2).subrange(
            4 * i,
            4 * i + 4,
        ));
    }
}

proof fn lemma_read_u64_of(b: Seq<u8>, p: int, x: u64)
    requires
        0 <= p,
        p + 8 <= b.len(),
        b.subrange(p, p + 8) == spec_u64_to_le_bytes(x),
    ensures
        read_u64(b, p) == Some(x),
{
    lemma_auto_spec_u64_to_from_le_bytes();
}

proof fn lemma_read_u64_bytes(b: Seq<u8>, p: int)
    requires
        read_u64(b, p) is Some,
    ensures
        0 <= p,
        p + 8 <= b.len(),
        b.subrange(p, p + 8) == spec_u64_to_le_bytes(read_u64(b, p)->0),
{
    lemma_auto_spec_u64_to_from_le_bytes();
    let s = b.subrange(p, p + 8);
    assert(spec_u64_to_le_bytes(spec_u64_from_le_bytes(s)) == s);
}

proof fn lemma_read_dims_of(b: Seq<u8>, p: int, ds: Seq<usize>)
    requires
        0 <= p,
        p + 8 * ds.len() <= b.len(),
        b.subrange(p, p + 8 * ds.len()) == dims_bytes(ds),
    ensures
        read_dims(b, p, ds.len()) == Some(ds),
    decreases ds.len(),
{
    lemma_auto_spec_u64_to_from_le_bytes();
    if ds.len() > 0 {
        let n = ds.len() as int;
        let d2 = ds.drop_last();
        lemma_dims_bytes_len(d2);
        assert(dims_bytes(ds) == dims_bytes(d2) + spec_u64_to_le_bytes(ds.last() as u64));
        assert(b.subrange(p, p + 8 * (n - 1)) =~= b.subrange(p, p + 8 * n).subrange(0, 8 * (n - 1)));
        assert(dims_bytes(ds).subrange(0, 8 * (n - 1)) =~= dims_bytes(d2));
        lemma_read_dims_of(b, p, d2);
        assert(b.subrange(p + 8 * (n - 1), p + 8 * n) =~= b.subrange(p, p + 8 * n).subrange(
            8 * (n - 1),
            8 * n,
        ));
        assert(dims_bytes(ds).subrange(8 * (n - 1), 8 * n) =~= spec_u64_to_le_bytes(
            ds.last() as u64,
        ));
        lemma_read_u64_of(b, p + 8 * (n - 1), ds.last() as u64);
        assert(d2.push((ds.last() as u64) as usize) =~= ds);
    }
}

proof fn lemma_read_dims_bytes(b: Seq<u8>, p: int, nd: nat)
    requires
        0 <= p <= b.len(),
        read_dims(b, p, nd) is Some,
    ensures
        read_dims(b, p, nd)->0.len() == nd,
        p + 8 * nd <= b.len(),
        b.subrange(p, p + 8 * nd) == dims_bytes(read_dims(b, p, nd)->0),
    decreases nd,
{
    if nd > 0 {
        let n = nd as int;
        lemma_read_dims_bytes(b, p, (nd - 1) as nat);
        let d2 = read_dims(b, p, (nd - 1) as nat)->0;
        let x = read_u64(b, p + 8 * (n - 1))->0;
        lemma_read_u64_bytes(b, p + 8 * (n - 1));
        let ds = read_dims(b, p, nd)->0;
        assert(ds == d2.push(x as usize));
        assert(ds.drop_last() =~= d2);
        assert((x as usize) as u64 == x);
        assert(b.subrange(p, p + 8 * n) =~= b.subrange(p, p + 8 * (n - 1)) + b.subrange(
            p + 8 * (n - 1),
            p + 8 * n,
        ));
    }
}

proof fn lemma_read_dims_none_mono(b: Seq<u8>, p: int, k: nat, k2: nat)
    requires
        read_dims(b, p, k) is None,
        k <= k2,
    ensures
        read_dims(b, p, k2) is None,
    decreases k2,
{
    if k2 > k {
        lemma_read_dims_none_mono(b, p, k, (k2 - 1) as nat);
    }
}

proof fn lemma_read_words_bytes(b: Seq<u8>, p: int, m: nat)
    requires
        0 <= p,
        p + 4 * m <= b.len(),
    ensures
        b.subrange(p, p + 4 * m) == words_bytes(read_words(b, p, m)),
    decreases m,
{
    lemma_auto_spec_u32_to_from_le_bytes();
    if m > 0 {
        let n = m as int;
        lemma_read_words_bytes(b, p, (m - 1) as nat);
        let ws = read_words(b, p, m);
        assert(ws.drop_last() =~= read_words(b, p, (m - 1) as nat));
        let s = b.subrange(p + 4 * (n - 1), p + 4 * n);
        assert(spec_u32_to_le_bytes(spec_u32_from_le_bytes(s)) == s);
        assert(b.subrange(p, p + 4 * n) =~= b.subrange(p, p + 4 * (n - 1)) + s);
    }
}

proof fn lemma_read_words_of(b: Seq<u8>, p: int, ws: Seq<u32>)
    requires
        0 <= p,
        p + 4 * ws.len() <= b.len(),
        b.subrange(p, p + 4 * ws.len()) == words_bytes(ws),
    ensures
        read_words(b, p, ws.len()) == ws,
{
    lemma_auto_spec_u32_to_from_le_bytes();
    assert forall|i: int| 0 <= i < ws.len() implies read_words(b, p, ws.len())[i] == ws[i] by {
        lemma_words_index(ws, i);
        assert(b.subrange(p + 4 * i, p + 4 * i + 4) =~= b.subrange(p, p + 4 * ws.len()).subrange(
            4 * i,
            4 * i + 4,
        ));
    }
    assert(read_words(b, p, ws.len()) =~= ws);
}

proof fn lemma_read_array_of(b: Seq<u8>, p: int, v: ArrayView)
    requires
        valid_view(v),
        0 <= p,
        p + array_bytes(v).len() <= b.len(),
        b.subrange(p, p + array_bytes(v).len()) == array_bytes(v),
    ensures
        read_array(b, p) == Some((v, p + array_bytes(v).len())),
{
    let nd = v.0.len() as int;
    let m = v.1.len() as int;
    lemma_dims_bytes_len(v.0);
    lemma_words_bytes_len(v.1);
    lemma_auto_spec_u64_to_from_le_bytes();
    let whole = b.subrange(p, p + array_bytes(v).len());
    assert(array_bytes(v).len() == 8 + 8 * nd + 4 * m);
    assert(b.subrange(p, p + 8) =~= whole.subrange(0, 8));
    assert(array_bytes(v).subrange(0, 8) =~= spec_u64_to_le_bytes(nd as u64));
    lemma_read_u64_of(b, p, nd as u64);
    assert(b.subrange(p + 8, p + 8 + 8 * nd) =~= whole.subrange(8, 8 + 8 * nd));
    assert(array_bytes(v).subrange(8, 8 + 8 * nd) =~= dims_bytes(v.0));
    lemma_read_dims_of(b, p + 8, v.0);
    let p2 = p + 8 + 8 * nd;
    assert(b.subrange(p2, p2 + 4 * m) =~= whole.subrange(8 + 8 * nd, 8 + 8 * nd + 4 * m));
    assert(array_bytes(v).subrange(8 + 8 * nd, 8 + 8 * nd + 4 * m) =~= words_bytes(v.1));
    lemma_read_words_of(b, p2, v.1);
}

proof fn lemma_read_array_bytes(b: Seq<u8>, p: int)
    requires
        read_array(b, p) is Some,
    ensures
        valid_view(read_array(b, p).unwrap().0),
        p <= read_array(b, p).unwrap().1 <= b.len(),
        read_array(b, p).unwrap().1 == p + array_bytes(read_array(b, p).unwrap().0).len(),
        b.subrange(p, read_array(b, p).unwrap().1) == array_bytes(read_array(b, p).unwrap().0),
{
    lemma_read_u64_bytes(b, p);
    let nd = read_u64(b, p)->0;
    lemma_read_dims_bytes(b, p + 8, nd as nat);
    let ds = read_dims(b, p + 8, nd as nat)->0;
    let p2 = p + 8 + 8 * nd;
    lemma_shape_size_nonneg(ds);
    let m = shape_size(ds);
    lemma_read_words_bytes(b, p2, m as nat);
    let ws = read_words(b, p2, m as nat);
    lemma_dims_bytes_len(ds);
    lemma_words_bytes_len(ws);
    assert(b.subrange(p, p2 + 4 * m) =~= b.subrange(p, p + 8) + b.subrange(p + 8, p2)
        + b.subrange(p2, p2 + 4 * m));
}

proof fn lemma_read_arrays_of(b: Seq<u8>, p: int, vs: Seq<ArrayView>)
    requires
        forall|i: int| 0 <= i < vs.len() ==> valid_view(#[trigger] vs[i]),
        0 <= p,
        p + arrays_bytes(vs).len() <= b.len(),
        b.subrange(p, p + arrays_bytes(vs).len()) == arrays_bytes(vs),
    ensures
        read_arrays(b, p, vs.len()) == Some((vs, p + arrays_bytes(vs).len())),
    decreases vs.len(),
{
    if vs.len() > 0 {
        let v2 = vs.drop_last();
        let l2 = arrays_bytes(v2).len() as int;
        let whole = b.subrange(p, p + arrays_bytes(vs).len());
        assert(b.subrange(p, p + l2) =~= whole.subrange(0, l2));
        assert(arrays_bytes(vs).subrange(0, l2) =~= arrays_bytes(v2));
        lemma_read_arrays_of(b, p, v2);
        let la = array_bytes(vs.last()).len() as int;
        assert(b.subrange(p + l2, p + l2 + la) =~= whole.subrange(l2, l2 + la));
        assert(arrays_bytes(vs).subrange(l2, l2 + la) =~= array_bytes(vs.last()));
        assert(valid_view(vs[vs.len() - 1]));
        lemma_read_array_of(b, p + l2, vs.last());
        assert(v2.push(vs.last()) =~= vs);
    }
}

proof fn lemma_read_arrays_bytes(b: Seq<u8>, p: int, k: nat)
    requires
        0 <= p <= b.len(),
        read_arrays(b, p, k) is Some,
    ensures
        read_arrays(b, p, k).unwrap().0.len() == k,
        forall|i: int|
            0 <= i < k ==> valid_view(#[trigger] read_arrays(b, p, k).unwrap().0[i]),
        read_arrays(b, p, k).unwrap().1 == p + arrays_bytes(read_arrays(b, p, k).unwrap().0).len(),
        read_arrays(b, p, k).unwrap().1 <= b.len(),
        b.subrange(p, read_arrays(b, p, k).unwrap().1) == arrays_bytes(read_arrays(b, p, k).unwrap().0),
    decreases k,
{
    if k > 0 {
        lemma_read_arrays_bytes(b, p, (k - 1) as nat);
        let (v2, q) = read_arrays(b, p, (k - 1) as nat)->0;
        lemma_read_array_bytes(b, q);
        let (v, e) = read_array(b, q)->0;
        let vs = read_arrays(b, p, k).unwrap().0;
        assert(vs == v2.push(v));
        assert(vs.drop_last() =~= v2);
        assert(b.subrange(p, e) =~= b.subrange(p, q) + b.subrange(q, e));
    }
}

proof fn lemma_read_arrays_none_mono(b: Seq<u8>, p: int, k: nat, k2: nat)
    requires
        read_arrays(b, p, k) is None,
        k <= k2,
    ensures
        read_arrays(b, p, k2) is None,
    decreases k2,
{
    if k2 > k {
        lemma_read_arrays_none_mono(b, p, k, (k2 - 1) as nat);
    }
}

/// A weight file of valid arrays is read back as exactly those arrays.
proof fn lemma_read_weights_of(b: Seq<u8>, vs: Seq<ArrayView>)
    requires
        valid_views(vs),
        is_prefix(weights_bytes(vs), b),
    ensures
        read_weights(b) == Some((vs, weights_bytes(vs).len() as int)),
{
    lemma_auto_spec_u64_to_from_le_bytes();
    let w = weights_bytes(vs);
    assert(b.subrange(0, 8) =~= w.subrange(0, 8));
    assert(w.subrange(0, 8) =~= spec_u64_to_le_bytes(vs.len() as u64));
    lemma_read_u64_of(b, 0, vs.len() as u64);
    assert(b.subrange(8, w.len() as int) =~= w.subrange(8, w.len() as int));
    assert(w.subrange(8, w.len() as int) =~= arrays_bytes(vs));
    lemma_read_arrays_of(b, 8, vs);
}

/// What the reader accepts is a weight file of valid arrays.
proof fn lemma_read_weights_bytes(b: Seq<u8>)
    requires
        read_weights(b) is Some,
    ensures
        valid_views(read_weights(b).unwrap().0),
        read_weights(b).unwrap().1 == weights_bytes(read_weights(b).unwrap().0).len(),
        is_prefix(weights_bytes(read_weights(b).unwrap().0), b),
{
    lemma_read_u64_bytes(b, 0);
    let n = read_u64(b, 0)->0;
    lemma_read_arrays_bytes(b, 8, n as nat);
    let (vs, e) = read_weights(b)->0;
    assert(vs.len() as u64 == n);
    assert(b.subrange(0, e) =~= b.subrange(0, 8) + b.subrange(8, e));
}

/// Weight files are prefix-free: two valid weight files at the start of the
/// same bytes hold the same arrays.
pub proof fn lemma_weights_prefix_free(b: Seq<u8>, vs1: Seq<ArrayView>, vs2: Seq<ArrayView>)
    requires
        valid_views(vs1),
        valid_views(vs2),
        is_prefix(weights_bytes(vs1), b),
        is_prefix(weights_bytes(vs2), b),
    ensures
        vs1 == vs2,
{
    lemma_read_weights_of(b, vs1);
    lemma_read_weights_of(b, vs2);
}

/// Why a weight file could not be read.
#[derive(Clone, Copy, Debug, PartialEq, Eq)]
pub enum LoadError {
    /// The bytes end before a complete weight file.
    UnexpectedEof,
}

fn read_u64_at(b: &[u8], pos: usize) -> (r: Option<u64>)
    ensures
        r == read_u64(b@, pos as int),
{
    if pos <= b.len() && b.len() - pos >= 8 {
        Some(u64_from_le_bytes(&b[pos..pos + 8]))
    } else {
        None
    }
}

/// The product of the dimensions, if every partial product fits a `usize`.
fn checked_numel(shape: &Vec<usize>) -> (r: Option<usize>)
    ensures
        r is Some <==> shape_fits(shape@),
        r is Some ==> r->0 == shape_size(shape@),
{
    let mut n: usize = 1;
    let mut i: usize = 0;
    assert(shape@.take(0) =~= Seq::<usize>::empty());
    while i < shape.len()
        invariant
            i <= shape@.len(),
            n == shape_size(shape@.take(i as int)),
            forall|k: int| 0 <= k <= i ==> shape_size(#[trigger] shape@.take(k)) <= usize::MAX,
        decreases shape@.len() - i,
    {
        assert(shape@.take(i + 1).drop_last() =~= shape@.take(i as int));
        match n.checked_mul(shape[i]) {
            Some(v) => {
                n = v;
            },
            None => {
                assert(shape_size(shape@.take(i + 1)) > usize::MAX);
                return None;
            },
        }
        i = i + 1;
    }
    assert(shape@.take(shape@.len() as int) =~= shape@);
    Some(n)
}

fn read_array_at(b: &[u8], pos: usize) -> (r: Option<(Array<u32>, usize)>)
    requires
        pos <= b@.len(),
    ensures
        match r {
            Some((a, e)) => read_array(b@, pos as int) == Some((array_view(a), e as int)),
            None => read_array(b@, pos as int) is None,
        },
{
    let blen = b.len();
    let nd = match read_u64_at(b, pos) {
        Some(x) => x,
        None => return None,
    };
    let mut shape: Vec<usize> = Vec::new();
    let mut p: usize = pos + 8;
    let mut j: u64 = 0;
    while j < nd
        invariant
            blen == b@.len(),
            pos + 8 <= b@.len(),
            j <= nd,
            read_u64(b@, pos as int) == Some(nd),
            read_dims(b@, pos + 8, j as nat) == Some(shape@),
            p == pos + 8 + 8 * j,
            p <= b@.len(),
        decreases nd - j,
    {
        let x = match read_u64_at(b, p) {
            Some(x) => x,
            None => {
                proof {
                    lemma_read_dims_none_mono(b@, pos + 8, (j + 1) as nat, nd as nat);
                }
                return None;
            },
        };
        if x > usize::MAX as u64 {
            proof {
                lemma_read_dims_none_mono(b@, pos + 8, (j + 1) as nat, nd as nat);
            }
            return None;
        }
        shape.push(x as usize);
        p = p + 8;
        j = j + 1;
    }
    let m = match checked_numel(&shape) {
        Some(m) => m,
        None => return None,
    };
    if m > (b.len() - p) / 4 {
        return None;
    }
    let mut data: Vec<u32> = Vec::new();
    let mut k: usize = 0;
    while k < m
        invariant
            blen == b@.len(),
            p + 4 * m <= b@.len(),
            k <= m,
            data@ == read_words(b@, p as int, k as nat),
        decreases m - k,
    {
        let q = p + 4 * k;
        data.push(u32_from_le_bytes(&b[q..q + 4]));
        k = k + 1;
        assert(data@ =~= read_words(b@, p as int, k as nat));
    }
    let a = Array { shape, data };
    Some((a, p + 4 * m))
}

/// Reads the arrays of a weight file from the start of `bytes`; bytes past
/// the end of the file are ignored.
///
/// It succeeds exactly when `bytes` begins with a weight file of valid
/// arrays, and then returns that file's arrays, which are the only ones
/// whose file `bytes` begins with.
pub fn decode_params(bytes: &[u8]) -> (r: Result<Vec<Array<u32>>, LoadError>)
    ensures
        match r {
            Ok(ps) => {
                &&& valid_views(views(ps@))
                &&& is_prefix(weights_bytes(views(ps@)), bytes@)
                &&& forall|vs: Seq<ArrayView>|
                    valid_views(vs) && is_prefix(weights_bytes(vs), bytes@) ==> vs == views(ps@)
            },
            Err(e) => {
                &&& e == LoadError::UnexpectedEof
                &&& forall|vs: Seq<ArrayView>|
                    valid_views(vs) ==> !is_prefix(weights_bytes(vs), bytes@)
            },
        },
{
    let res = decode_exact(bytes);
    proof {
        match &res {
            Ok(ps) => {
                lemma_read_weights_bytes(bytes@);
                assert forall|vs: Seq<ArrayView>|
                    valid_views(vs) && is_prefix(weights_bytes(vs), bytes@) implies vs == views(
                    ps@,
                ) by {
                    lemma_read_weights_of(bytes@, vs);
                }
            },
            Err(_) => {
                assert forall|vs: Seq<ArrayView>| valid_views(vs) implies !is_prefix(
                    weights_bytes(vs),
                    bytes@,
                ) by {
                    if is_prefix(weights_bytes(vs), bytes@) {
                        lemma_read_weights_of(bytes@, vs);
                    }
                }
            },
        }
    }
    res
}

fn decode_exact(bytes: &[u8]) -> (r: Result<Vec<Array<u32>>, LoadError>)
    ensures
        match r {
            Ok(ps) => read_weights(bytes@) is Some && read_weights(bytes@).unwrap().0 == views(ps@),
            Err(e) => read_weights(bytes@) is None && e == LoadError::UnexpectedEof,
        },
{
    let n = match read_u64_at(bytes, 0) {
        Some(n) => n,
        None => return Err(LoadError::UnexpectedEof),
    };
    if n > usize::MAX as u64 {
        return Err(LoadError::UnexpectedEof);
    }
    let mut ps: Vec<Array<u32>> = Vec::new();
    let mut pos: usize = 8;
    let mut i: u64 = 0;
    assert(views(ps@) =~= Seq::<ArrayView>::empty());
    while i < n
        invariant
            read_u64(bytes@, 0) == Some(n),
            n <= usize::MAX,
            i <= n,
            read_arrays(bytes@, 8, i as nat) == Some((views(ps@), pos as int)),
            pos <= bytes@.len(),
        decreases n - i,
    {
        match read_array_at(bytes, pos) {
            Some((a, e)) => {
                proof {
                    lemma_read_array_bytes(bytes@, pos as int);
                }
                let ghost before = ps@;
                ps.push(a);
                assert(views(ps@) =~= views(before).push(array_view(a)));
                pos = e;
            },
            None => {
                proof {
                    lemma_read_arrays_none_mono(bytes@, 8, (i + 1) as nat, n as nat);
                }
                return Err(LoadError::UnexpectedEof);
            },
        }
        i = i + 1;
    }
    Ok(ps)
}

} // verus!
