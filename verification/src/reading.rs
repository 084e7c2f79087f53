//! Laws on calls that decode and read: what a decoded value is of the stored bytes.

use vstd::prelude::*;

use crate::error::TensorError;
use crate::tensor::Tensor;

#[allow(unused_imports)]
use crate::bits::{is_finite, is_nan, is_negative, magnitude, units};
#[allow(unused_imports)]
use crate::json::parsed;
#[allow(unused_imports)]
use crate::loader::{
    fp4_parts, fp8_parts, law_fp4_element, law_fp4_parts, law_fp8_element, law_fp8_parts, le_value,
    lists_names, name_less, place_entry, plain_data, EntryError, HeaderError, HeaderFault, InfoView,
    LoadError, RawEntry, SafeTensors, TensorInfo,
};
#[allow(unused_imports)]
use crate::quant::{
    bf16_decode, e2m1_decode, e2m1_units, e4m3_decode, e4m3_nan, e4m3_units, e8m0_decode, fp4_value,
    fp4_weight_dequant, fp8_value, fp8_weight_dequant, holds, law_e2m1_magnitudes, law_e4m3_largest,
    law_e4m3_octaves, law_nibbles_of_a_row, law_scale_of_an_element,
};
#[allow(unused_imports)]
use crate::shape::{fits, lemma_flat, product, shape2};
#[allow(unused_imports)]
use vstd::arithmetic::power2::{
    lemma2_to64, lemma_pow2_adds, lemma_pow2_pos, lemma_pow2_strictly_increases, lemma_pow2_unfold,
    pow2,
};

verus! {

/// `r` is the exact product of two single-precision values, the second one positive: NaN if one of them
/// is, and infinite where the product reaches `2^128`.
pub open spec fn exact_product(w: u32, s: u32, r: u32) -> bool {
    if is_nan(w) || is_nan(s) {
        is_nan(r)
    } else {
        &&& !is_nan(r)
        &&& is_negative(r) == is_negative(w)
        &&& if units(w) * units(s) < pow2(426) {
            is_finite(r) && units(r) * pow2(149) == units(w) * units(s)
        } else {
            magnitude(r) == 0x7F80_0000
        }
    }
}

/// A magnitude `k · 2^a` and a scale `2^b` multiply to `k · 2^(a + b)`, counted in units of `2^-149`.
proof fn lemma_scaled(w: u32, s: u32, r: u32, negative: bool, k: nat, a: nat, scale: u8)
    requires
        k <= 0x40000,
        140 <= a <= 148,
        scale < 255,
        holds(w, negative, k * pow2(a)),
        holds(s, false, pow2((scale + 22) as nat)),
        holds(r, negative, k * pow2((scale + 22 + a - 149) as nat)),
    ensures
        exact_product(w, s, r),
{
    lemma2_to64();
    lemma_pow2_adds(18, a);
    lemma_pow2_strictly_increases(18 + a, 277);
    lemma_pow2_strictly_increases((scale + 22) as nat, 277);
    let pa: nat = pow2(a);
    assert(k * pa <= 0x40000 * pa) by (nonlinear_arith)
        requires
            k <= 0x40000,
    ;
    let pb: nat = pow2((scale + 22) as nat);
    let pc: nat = pow2((scale + 22 + a - 149) as nat);
    let pd: nat = pow2(149);
    let pe: nat = pow2(277);
    lemma_pow2_adds(a, (scale + 22) as nat);
    lemma_pow2_adds((scale + 22 + a - 149) as nat, 149);
    lemma_pow2_adds(277, 149);
    lemma_pow2_pos(149);
    assert((k * pa) * pb == (k * pc) * pd) by (nonlinear_arith)
        requires
            pa * pb == pc * pd,
    ;
    let m: nat = k * pc;
    assert(m < pe <==> m * pd < pe * pd) by (nonlinear_arith)
        requires
            pd > 0,
    ;
}

/// A dequantized FP8 element is the exact product of the decoded weight and the decoded scale of its
/// tile, the tiles in row-major order.
pub proof fn law_fp8_call(
    weight: &[u8],
    scale: &[u8],
    rows: usize,
    cols: usize,
    block: usize,
    r: Result<Tensor, TensorError>,
    i: int,
    j: int,
    w: u32,
    s: u32,
)
    requires
        call_ensures(fp8_weight_dequant, (weight, scale, rows, cols, block), r),
        block > 0,
        0 <= i < rows,
        0 <= j < cols,
        call_ensures(e4m3_decode, (weight@[i * cols + j],), w),
        call_ensures(
            e8m0_decode,
            (scale@[(i / block as int) * ((cols + block - 1) / block as int) + j / block as int],),
            s,
        ),
    ensures
        r is Ok,
        r.unwrap()@.shape == shape2(rows, cols),
        exact_product(w, s, r.unwrap()@.data[i * cols + j]),
{
    let p = i * cols + j;
    lemma_flat(i, j, rows as int, cols as int);
    law_scale_of_an_element(i, j, cols as int, block as int);
    let b = weight@[p];
    let c = scale@[(i / block as int) * ((cols + block - 1) / block as int) + j / block as int];
    let v = r.unwrap()@.data[p];
    lemma_fp8_product(b, c, w, s, v);
}

proof fn lemma_fp8_product(b: u8, c: u8, w: u32, s: u32, v: u32)
    requires
        fp8_value(b, c, v),
        call_ensures(e4m3_decode, (b,), w),
        call_ensures(e8m0_decode, (c,), s),
    ensures
        exact_product(w, s, v),
{
    lemma2_to64();
    if !e4m3_nan(b) {
        law_e4m3_largest(b);
        assert(448 * pow2(9) == 448 * 512);
        if c < 255 {
            lemma_scaled(w, s, v, b >= 128, e4m3_units(b), 140, c);
        } else {
            lemma_decoded_is_number(w, b >= 128, e4m3_units(b) * pow2(140));
        }
    }
}

/// What holds a magnitude is no NaN.
proof fn lemma_decoded_is_number(r: u32, negative: bool, m: nat)
    requires
        holds(r, negative, m),
    ensures
        !is_nan(r),
{
}

/// A dequantized FP4 element is the exact product of the decoded nibble and the decoded scale of its
/// block: the low half of a byte comes first, and each row has its own bytes and scales.
pub proof fn law_fp4_call(
    packed: &[u8],
    scale: &[u8],
    rows: usize,
    cols: usize,
    block: usize,
    r: Result<Tensor, TensorError>,
    i: int,
    j: int,
    w: u32,
    s: u32,
)
    requires
        call_ensures(fp4_weight_dequant, (packed, scale, rows, cols, block), r),
        block > 0,
        fits(shape2(rows, cols)),
        0 <= i < rows,
        0 <= j < cols,
        ({
            let byte = packed@[i * (cols as int / 2) + j / 2];
            call_ensures(
                e2m1_decode,
                (if j % 2 == 0 {
                    byte & 0x0F
                } else {
                    byte >> 4
                },),
                w,
            )
        }),
        call_ensures(
            e8m0_decode,
            (scale@[i * (cols as int / block as int) + j / block as int],),
            s,
        ),
    ensures
        r is Ok,
        r.unwrap()@.shape == shape2(rows, cols),
        exact_product(w, s, r.unwrap()@.data[i * cols + j]),
{
    let p = i * cols + j;
    lemma_flat(i, j, rows as int, cols as int);
    let byte = packed@[i * (cols as int / 2) + j / 2];
    law_nibbles_of_a_row(i, j, cols as int, block as int, byte);
    let n = if j % 2 == 0 {
        byte & 0x0F
    } else {
        byte >> 4
    };
    let c = scale@[i * (cols as int / block as int) + j / block as int];
    let v = r.unwrap()@.data[p];
    assert(fp4_value(n, c, v));
    lemma_fp4_product(n, c, w, s, v);
}

proof fn lemma_fp4_product(n: u8, c: u8, w: u32, s: u32, v: u32)
    requires
        fp4_value(n, c, v),
        call_ensures(e2m1_decode, (n,), w),
        call_ensures(e8m0_decode, (c,), s),
    ensures
        exact_product(w, s, v),
{
    law_e2m1_magnitudes(n);
    let negative = crate::quant::e2m1_negative(n);
    if c < 255 {
        lemma_scaled(w, s, v, negative, e2m1_units(n), 148, c);
    } else {
        lemma_decoded_is_number(w, negative, e2m1_units(n) * pow2(148));
    }
}

/// Decoding an `e4m3` byte: the subnormals are the multiples of `2^-9`, eight bytes on is one doubling,
/// the upper half holds the negatives of the lower, and the two bytes of seven ones are NaN.
pub proof fn law_e4m3_calls(byte: u8, a: u32, up: u32, other: u32)
    requires
        byte < 119,
        call_ensures(e4m3_decode, (byte,), a),
        call_ensures(e4m3_decode, ((byte + 8) as u8,), up),
        call_ensures(e4m3_decode, ((byte + 128) as u8,), other),
    ensures
        is_finite(a),
        is_finite(up),
        !is_negative(a),
        byte < 8 ==> units(a) == byte * pow2(140),
        byte < 8 ==> units(up) == (byte + 8) * pow2(140),
        byte >= 8 ==> units(up) == 2 * units(a),
        other == a + 0x8000_0000,
{
    law_e4m3_octaves(byte);
    lemma_e4m3_finite(byte, a);
    lemma_e4m3_finite((byte + 8) as u8, up);
    let (k, n) = (e4m3_units(byte), e4m3_units((byte + 8) as u8));
    let p: nat = pow2(140);
    if byte >= 8 {
        assert((2 * k) * p == 2 * (k * p)) by (nonlinear_arith);
    }
    crate::quant::law_e4m3_sign_symmetry(byte, a, other);
}

proof fn lemma_e4m3_finite(byte: u8, a: u32)
    requires
        !e4m3_nan(byte),
        call_ensures(e4m3_decode, (byte,), a),
    ensures
        is_finite(a),
        units(a) == e4m3_units(byte) * pow2(140),
        is_negative(a) == (byte >= 128),
{
    lemma2_to64();
    law_e4m3_largest(byte);
    assert(448 * pow2(9) == 448 * 512);
    lemma_pow2_adds(18, 140);
    lemma_pow2_strictly_increases(158, 277);
    let (k, p): (nat, nat) = (e4m3_units(byte), pow2(140));
    assert(k * p <= 0x40000 * p) by (nonlinear_arith)
        requires
            k <= 0x40000,
    ;
}

/// Decoding an `e4m3` byte gives a NaN for `0x7F` and `0xFF` and for no other byte.
pub proof fn law_e4m3_nan_call(byte: u8, a: u32)
    requires
        call_ensures(e4m3_decode, (byte,), a),
    ensures
        is_nan(a) <==> byte == 0x7F || byte == 0xFF,
{
    if !e4m3_nan(byte) {
        lemma_e4m3_finite(byte, a);
    }
}

/// Decoding an `e2m1` nibble gives one of the eight magnitudes, in halves, with the sign of its top bit.
pub proof fn law_e2m1_call(nibble: u8, a: u32)
    requires
        nibble < 16,
        call_ensures(e2m1_decode, (nibble,), a),
    ensures
        is_finite(a),
        is_negative(a) <==> nibble >= 8,
        units(a) == seq![0nat, 1, 2, 3, 4, 6, 8, 12][nibble as int % 8] * pow2(148),
{
    law_e2m1_magnitudes(nibble);
    lemma2_to64();
    lemma_pow2_adds(4, 148);
    lemma_pow2_strictly_increases(152, 277);
    let (k, p): (nat, nat) = (e2m1_units(nibble), pow2(148));
    assert(k * p <= 16 * p) by (nonlinear_arith)
        requires
            k <= 16,
    ;
}

/// Decoding an `e8m0` byte: each byte is twice the one before, 127 is one, and 255 is NaN.
pub proof fn law_e8m0_calls(byte: u8, a: u32, next: u32)
    requires
        byte < 255,
        call_ensures(e8m0_decode, (byte,), a),
        call_ensures(e8m0_decode, ((byte + 1) as u8,), next),
    ensures
        is_finite(a),
        !is_negative(a),
        byte < 254 ==> is_finite(next) && units(next) == 2 * units(a),
        byte == 127 ==> units(a) == pow2(149),
        byte == 254 ==> is_nan(next),
{
    lemma_pow2_strictly_increases((byte + 22) as nat, 277);
    lemma_pow2_unfold((byte + 23) as nat);
    if byte < 254 {
        lemma_pow2_strictly_increases((byte + 23) as nat, 277);
    }
}

/// A widened BF16 value has the stored bits on top and none below.
pub proof fn law_bf16_call(h: u16, r: u32)
    requires
        call_ensures(bf16_decode, (h,), r),
    ensures
        r / 0x1_0000 == h,
        r % 0x1_0000 == 0,
{
}

// --- the container --------------------------------------------------------------------------

/// An entry is placed by its own offsets, counted from the start of the data, in their order, and keeps
/// its type and its dimensions.
pub proof fn law_place_call(
    raw: RawEntry,
    start: usize,
    len: usize,
    r: Result<TensorInfo, EntryError>,
    a: u64,
    b: u64,
)
    requires
        call_ensures(place_entry, (raw, start, len), r),
        raw@.offsets == Some(seq![Some(a), Some(b)]),
        raw@.dtype is Some,
        raw@.shape is Some,
        forall|i: int|
            0 <= i < raw@.shape.unwrap().len() ==> #[trigger] raw@.shape.unwrap()[i] is Some,
    ensures
        r is Ok <==> a <= b && start + b <= len,
        r is Err ==> r == Err::<TensorInfo, EntryError>(EntryError::OutOfRange),
        r matches Ok(info) ==> {
            &&& info@.begin == start + a
            &&& info@.end == start + b
            &&& info@.dtype == raw@.dtype.unwrap()
            &&& info@.shape.len() == raw@.shape.unwrap().len()
            &&& forall|i: int|
                0 <= i < info@.shape.len() && raw@.shape.unwrap()[i].unwrap() <= usize::MAX
                    ==> #[trigger] info@.shape[i] == raw@.shape.unwrap()[i].unwrap()
        },
{
    let dims = raw@.shape.unwrap();
    assert(!dims.contains(None)) by {
        if dims.contains(None) {
            let i = choose|i: int| 0 <= i < dims.len() && dims[i] is None;
            assert(dims[i] is Some);
        }
    }
}

/// The bytes of a tensor are the ones between its offsets.
pub proof fn law_raw_call<'a>(
    f: SafeTensors<'a>,
    name: &str,
    r: Result<&'a [u8], LoadError>,
    i: int,
)
    requires
        call_ensures(SafeTensors::<'a>::raw, (&f, name), r),
        0 <= i < f@.tensors.len(),
        f@.tensors[i].0 == name@,
    ensures
        r is Ok,
        r.unwrap()@ == f@.bytes.subrange(f@.tensors[i].1.begin, f@.tensors[i].1.end),
{
    lemma_found(f@, name@, i);
}

/// Names are distinct, so a name finds its own entry.
proof fn lemma_found(f: crate::loader::FileView, name: Seq<char>, i: int)
    requires
        f.wf(),
        0 <= i < f.tensors.len(),
        f.tensors[i].0 == name,
    ensures
        f.find(name) == Some(f.tensors[i].1),
{
    let j = choose|j: int| 0 <= j < f.tensors.len() && (#[trigger] f.tensors[j]).0 == name;
    if i < j {
        assert(f.tensors[i].0 != f.tensors[j].0);
    } else if j < i {
        assert(f.tensors[j].0 != f.tensors[i].0);
    }
}

/// Four little-endian bytes.
proof fn lemma_le4(s: Seq<u8>)
    requires
        s.len() == 4,
    ensures
        le_value(s) == s[0] + 0x100 * s[1] + 0x1_0000 * s[2] + 0x100_0000 * s[3],
        le_value(s) <= u32::MAX,
{
    reveal_with_fuel(le_value, 5);
    assert(s.skip(1).skip(1) =~= s.skip(2));
    assert(s.skip(2).skip(1) =~= s.skip(3));
    assert(s.skip(3).skip(1).len() == 0);
}

/// Two little-endian bytes.
proof fn lemma_le2(s: Seq<u8>)
    requires
        s.len() == 2,
    ensures
        le_value(s) == s[0] + 0x100 * s[1],
{
    reveal_with_fuel(le_value, 3);
    assert(s.skip(1).skip(1).len() == 0);
}

/// Eight little-endian bytes.
proof fn lemma_le8(s: Seq<u8>)
    requires
        s.len() == 8,
    ensures
        le_value(s) == s[0] + 0x100 * s[1] + 0x1_0000 * s[2] + 0x100_0000 * s[3] + 0x1_0000_0000 * (s[4]
            + 0x100 * s[5] + 0x1_0000 * s[6] + 0x100_0000 * s[7]),
{
    reveal_with_fuel(le_value, 5);
    let t = s.skip(4);
    lemma_le4(t);
    assert(s.skip(1).skip(1) =~= s.skip(2));
    assert(s.skip(2).skip(1) =~= s.skip(3));
    assert(s.skip(3).skip(1) =~= t);
}

/// Opening a container: the first eight bytes, the lowest first, count the bytes of the header, which must
/// be there; the header is a JSON object, and the file keeps the bytes that it was opened on.
pub proof fn law_parse_call<'a>(bytes: &'a [u8], r: Result<SafeTensors<'a>, HeaderError>, n: int)
    requires
        call_ensures(SafeTensors::<'a>::parse, (bytes,), r),
        bytes@.len() >= 8 ==> n == bytes@[0] + 0x100 * bytes@[1] + 0x1_0000 * bytes@[2] + 0x100_0000
            * bytes@[3] + 0x1_0000_0000 * (bytes@[4] + 0x100 * bytes@[5] + 0x1_0000 * bytes@[6]
            + 0x100_0000 * bytes@[7]),
    ensures
        bytes@.len() < 8 ==> (r matches Err(e) && e@ == HeaderFault::TooSmall),
        bytes@.len() >= 8 && bytes@.len() < 8 + n ==> (r matches Err(e) && e@ == HeaderFault::TooLong),
        bytes@.len() >= 8 + n && n >= 0 && bytes@.len() >= 8 ==> {
            let header = parsed(bytes@.subrange(8, 8 + n));
            &&& header is None ==> (r matches Err(e) && e@ == HeaderFault::NotJson)
            &&& r matches Ok(f) ==> header is Some && header->Some_0 is Object && f@.bytes
                == bytes@
        },
{
    if bytes@.len() >= 8 {
        lemma_le8(bytes@.take(8));
    }
}

/// Where the first of two names comes: they agree up to some place, where the first ends or has the lower
/// character.
pub open spec fn name_precedes(a: Seq<char>, b: Seq<char>, p: int) -> bool {
    &&& 0 <= p <= a.len()
    &&& p < b.len()
    &&& forall|i: int| 0 <= i < p ==> #[trigger] a[i] == b[i]
    &&& p == a.len() || (a[p] as int) < (b[p] as int)
}

proof fn lemma_name_precedes(a: Seq<char>, b: Seq<char>) -> (p: int)
    requires
        name_less(a, b),
    ensures
        name_precedes(a, b, p),
    decreases a.len(),
{
    if a.len() == 0 || a[0] != b[0] {
        0
    } else {
        let q = lemma_name_precedes(a.skip(1), b.skip(1));
        assert forall|i: int| 0 <= i < q + 1 implies #[trigger] a[i] == b[i] by {
            if i > 0 {
                assert(a.skip(1)[i - 1] == b.skip(1)[i - 1]);
            }
        }
        q + 1
    }
}

/// The listed names are the names of the entries, as many as there are, in the order of their characters.
pub proof fn law_names_call<'a>(f: SafeTensors<'a>, r: Vec<String>, i: int, j: int)
    requires
        call_ensures(SafeTensors::<'a>::tensor_names, (&f,), r),
        0 <= i < j < r@.len(),
    ensures
        r@.len() == f@.tensors.len(),
        exists|p: int| #[trigger] name_precedes(r@[i]@, r@[j]@, p),
        exists|k: int| 0 <= k < f@.tensors.len() && (#[trigger] f@.tensors[k]).0 == r@[i]@,
{
    reveal(lists_names);
    let (a, b) = (r@[i], r@[j]);
    let p = lemma_name_precedes(a@, b@);
}

/// A single-precision tensor reads element `i` from four bytes of its own, the lowest first.
pub proof fn law_f32_call<'a>(
    f: SafeTensors<'a>,
    name: &str,
    shape: Vec<usize>,
    r: Result<Tensor, LoadError>,
    b: Seq<u8>,
    i: int,
)
    requires
        call_ensures(SafeTensors::<'a>::f32_tensor, (&f, name, &shape), r),
        f@.raw(name@) == Some(b),
        b.len() == 4 * product(shape@),
        fits(shape@),
        0 <= i < product(shape@),
    ensures
        r is Ok,
        r.unwrap()@.shape == shape@,
        r.unwrap()@.data[i] == b[4 * i] + 0x100 * b[4 * i + 1] + 0x1_0000 * b[4 * i + 2] + 0x100_0000
            * b[4 * i + 3],
{
    lemma_le4(b.subrange(4 * i, 4 * i + 4));
}

/// A BF16 tensor reads element `i` from two bytes of its own, which become the upper half.
pub proof fn law_bf16_tensor_call<'a>(
    f: SafeTensors<'a>,
    name: &str,
    shape: Vec<usize>,
    r: Result<Tensor, LoadError>,
    b: Seq<u8>,
    i: int,
)
    requires
        call_ensures(SafeTensors::<'a>::bf16_tensor, (&f, name, &shape), r),
        f@.raw(name@) == Some(b),
        b.len() == 2 * product(shape@),
        fits(shape@),
        0 <= i < product(shape@),
    ensures
        r is Ok,
        r.unwrap()@.shape == shape@,
        r.unwrap()@.data[i] == 0x1_0000 * b[2 * i] + 0x100_0000 * b[2 * i + 1],
{
    lemma_le2(b.subrange(2 * i, 2 * i + 2));
}

/// A tensor read by its declared type: the same value that the reader of that type gives.
pub proof fn law_auto_call<'a>(
    f: SafeTensors<'a>,
    name: &str,
    shape: Vec<usize>,
    r: Result<Tensor, LoadError>,
    single: Result<Tensor, LoadError>,
    half: Result<Tensor, LoadError>,
    info: InfoView,
)
    requires
        call_ensures(SafeTensors::<'a>::auto_tensor, (&f, name, &shape), r),
        call_ensures(SafeTensors::<'a>::f32_tensor, (&f, name, &shape), single),
        call_ensures(SafeTensors::<'a>::bf16_tensor, (&f, name, &shape), half),
        f@.find(name@) == Some(info),
    ensures
        info.dtype == "F32"@ ==> (r is Ok <==> single is Ok) && (r matches Ok(t) ==> t@
            == single.unwrap()@),
        info.dtype == "BF16"@ ==> (r is Ok <==> half is Ok) && (r matches Ok(t) ==> t@
            == half.unwrap()@),
        info.dtype != "F32"@ && info.dtype != "BF16"@ ==> r is Err,
{
    reveal_strlit("F32");
    reveal_strlit("BF16");
    assert("F32"@.len() != "BF16"@.len());
}

/// An FP8 tensor: element `(i, j)` is the exact product of its weight byte and the scale of its tile, from
/// the two entries of the prefix.
pub proof fn law_fp8_tensor_call<'a>(
    f: SafeTensors<'a>,
    prefix: &str,
    rows: usize,
    cols: usize,
    block: usize,
    r: Result<Tensor, LoadError>,
    weight: Seq<u8>,
    scale: Seq<u8>,
    i: int,
    j: int,
    w: u32,
    s: u32,
)
    requires
        call_ensures(SafeTensors::<'a>::fp8_tensor, (&f, prefix, rows, cols, block), r),
        block > 0,
        f@.raw(prefix@ + ".weight"@) == Some(weight),
        f@.raw(prefix@ + ".scale"@) == Some(scale),
        weight.len() == rows * cols,
        scale.len() == ((rows + block - 1) / block as int) * ((cols + block - 1) / block as int),
        0 <= i < rows,
        0 <= j < cols,
        call_ensures(e4m3_decode, (weight[i * cols + j],), w),
        call_ensures(
            e8m0_decode,
            (scale[(i / block as int) * ((cols + block - 1) / block as int) + j / block as int],),
            s,
        ),
    ensures
        r is Ok,
        r.unwrap()@.shape == shape2(rows, cols),
        exact_product(w, s, r.unwrap()@.data[i * cols + j]),
{
    let (n, m, k) = (rows as int, cols as int, block as int);
    law_fp8_parts(f@, prefix@, n, m, k, weight, scale);
    crate::shape::lemma_grid(rows, cols);
    law_fp8_element(weight, scale, n, m, k, r.unwrap()@.data, i, j);
    lemma_fp8_product(
        weight[i * cols + j],
        scale[(i / k) * ((m + k - 1) / k) + j / k],
        w,
        s,
        r.unwrap()@.data[i * cols + j],
    );
}

/// An FP4 tensor: element `(i, j)` is the exact product of its nibble and the scale of its block, from the
/// two entries of the prefix.
pub proof fn law_fp4_tensor_call<'a>(
    f: SafeTensors<'a>,
    prefix: &str,
    rows: usize,
    cols: usize,
    block: usize,
    r: Result<Tensor, LoadError>,
    packed: Seq<u8>,
    scale: Seq<u8>,
    i: int,
    j: int,
    w: u32,
    s: u32,
)
    requires
        call_ensures(SafeTensors::<'a>::fp4_tensor, (&f, prefix, rows, cols, block), r),
        block > 0,
        fits(shape2(rows, cols)),
        f@.raw(prefix@ + ".weight"@) == Some(packed),
        f@.raw(prefix@ + ".scale"@) == Some(scale),
        packed.len() == rows * cols / 2,
        scale.len() == rows * (cols as int / block as int),
        0 <= i < rows,
        0 <= j < cols,
        ({
            let byte = packed[i * (cols as int / 2) + j / 2];
            call_ensures(
                e2m1_decode,
                (if j % 2 == 0 {
                    byte & 0x0F
                } else {
                    byte >> 4
                },),
                w,
            )
        }),
        call_ensures(
            e8m0_decode,
            (scale[i * (cols as int / block as int) + j / block as int],),
            s,
        ),
    ensures
        r is Ok,
        r.unwrap()@.shape == shape2(rows, cols),
        exact_product(w, s, r.unwrap()@.data[i * cols + j]),
{
    let (n, m, k) = (rows as int, cols as int, block as int);
    law_fp4_parts(f@, prefix@, n, m, k, packed, scale);
    crate::shape::lemma_grid(rows, cols);
    law_fp4_element(packed, scale, n, m, k, r.unwrap()@.data, i, j);
    let byte = packed[i * (m / 2) + j / 2];
    let q = if j % 2 == 0 {
        byte & 0x0F
    } else {
        byte >> 4
    };
    lemma_fp4_product(q, scale[i * (m / k) + j / k], w, s, r.unwrap()@.data[i * cols + j]);
}

/// A linear weight is read in the format that its entries and the caller call for: without a scale as it
/// is declared, with one as FP4 in blocks of 32 or as FP8 in tiles of 128.
pub proof fn law_linear_call<'a>(
    f: SafeTensors<'a>,
    prefix: &str,
    rows: usize,
    cols: usize,
    fp4: bool,
    r: Result<Tensor, LoadError>,
)
    requires
        call_ensures(SafeTensors::<'a>::linear, (&f, prefix, rows, cols, fp4), r),
    ensures
        f@.find(prefix@ + ".scale"@) is None ==> {
            let d = plain_data(f@, prefix@ + ".weight"@, shape2(rows, cols));
            &&& r is Ok <==> d is Ok
            &&& r matches Ok(t) ==> t@.data == d->Ok_0
        },
        f@.find(prefix@ + ".scale"@) is Some && fp4 ==> {
            let p = fp4_parts(f@, prefix@, rows as int, cols as int, 32);
            &&& r is Ok ==> p is Ok
            &&& p is Ok && fits(shape2(rows, cols)) ==> r is Ok
            &&& r matches Ok(t) ==> forall|i: int, j: int|
                #![trigger fp4_at((p->Ok_0).0, (p->Ok_0).1, cols as int, 32, t@.data, i, j)]
                0 <= i < rows && 0 <= j < cols ==> fp4_at(
                    (p->Ok_0).0,
                    (p->Ok_0).1,
                    cols as int,
                    32,
                    t@.data,
                    i,
                    j,
                )
        },
        f@.find(prefix@ + ".scale"@) is Some && !fp4 ==> {
            let p = fp8_parts(f@, prefix@, rows as int, cols as int, 128);
            &&& r is Ok <==> p is Ok
            &&& r matches Ok(t) ==> forall|i: int, j: int|
                #![trigger fp8_at((p->Ok_0).0, (p->Ok_0).1, cols as int, 128, t@.data, i, j)]
                0 <= i < rows && 0 <= j < cols ==> fp8_at(
                    (p->Ok_0).0,
                    (p->Ok_0).1,
                    cols as int,
                    128,
                    t@.data,
                    i,
                    j,
                )
        },
{
    if f@.find(prefix@ + ".scale"@) is Some && r is Ok {
        let data = r.unwrap()@.data;
        crate::shape::lemma_grid(rows, cols);
        if fp4 {
            let p = fp4_parts(f@, prefix@, rows as int, cols as int, 32)->Ok_0;
            assert forall|i: int, j: int| 0 <= i < rows && 0 <= j < cols implies #[trigger] fp4_at(
                p.0,
                p.1,
                cols as int,
                32,
                data,
                i,
                j,
            ) by {
                law_fp4_element(p.0, p.1, rows as int, cols as int, 32, data, i, j);
            }
        } else {
            let p = fp8_parts(f@, prefix@, rows as int, cols as int, 128)->Ok_0;
            assert forall|i: int, j: int| 0 <= i < rows && 0 <= j < cols implies #[trigger] fp8_at(
                p.0,
                p.1,
                cols as int,
                128,
                data,
                i,
                j,
            ) by {
                law_fp8_element(p.0, p.1, rows as int, cols as int, 128, data, i, j);
            }
        }
    }
}

/// Element `(i, j)` is its weight byte times the scale of its tile.
pub open spec fn fp8_at(
    w: Seq<u8>,
    s: Seq<u8>,
    cols: int,
    block: int,
    data: Seq<u32>,
    i: int,
    j: int,
) -> bool {
    fp8_value(
        w[i * cols + j],
        s[(i / block) * ((cols + block - 1) / block) + j / block],
        data[i * cols + j],
    )
}

/// Element `(i, j)` is its nibble times the scale of its block.
pub open spec fn fp4_at(
    w: Seq<u8>,
    s: Seq<u8>,
    cols: int,
    block: int,
    data: Seq<u32>,
    i: int,
    j: int,
) -> bool {
    let byte = w[i * (cols / 2) + j / 2];
    fp4_value(
        if j % 2 == 0 {
            byte & 0x0F
        } else {
            byte >> 4
        },
        s[i * (cols / block) + j / block],
        data[i * cols + j],
    )
}

} // verus!
