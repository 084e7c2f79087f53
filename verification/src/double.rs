//! Double-precision kernels: the calls into `candle` that the position tables need.
//!
//! As in [`crate::kernel`], correctly rounded operations are named by functions of their operands
//! up to the payload of a NaN, and what the math library decides is named by a relation.

use candle_core::DType::{F32, F64, I64};
use candle_core::Device::Cpu;
use candle_core::Tensor;
use vstd::prelude::*;

#[allow(unused_imports)]
use crate::bits::{agrees, double_agrees, rounded_whole, whole_pattern};
#[allow(unused_imports)]
use crate::kernel::single;

verus! {

/// The correctly rounded double-precision difference.
pub uninterp spec fn dsub(a: u64, b: u64) -> u64;

/// The correctly rounded double-precision sum.
pub uninterp spec fn dadd(a: u64, b: u64) -> u64;

/// The correctly rounded double-precision product.
pub uninterp spec fn dmul(a: u64, b: u64) -> u64;

/// The correctly rounded double-precision quotient.
pub uninterp spec fn ddiv(a: u64, b: u64) -> u64;

/// `r` is the largest whole number that is not above `x`.
pub open spec fn floor_gives(x: u64, r: u64) -> bool {
    rounded_whole(x, x >= 0x8000_0000_0000_0000, r)
}

/// `r` is the smallest whole number that is not below `x`.
pub open spec fn ceil_gives(x: u64, r: u64) -> bool {
    rounded_whole(x, x < 0x8000_0000_0000_0000, r)
}

/// A whole number as a double, rounded to nearest, ties to even.
pub open spec fn dint(n: i64) -> u64 {
    (if n < 0 {
        0x8000_0000_0000_0000 + whole_pattern(-n)
    } else {
        whole_pattern(n as int)
    }) as u64
}

/// `r` is a value that the natural logarithm of `x` may come out as.
pub uninterp spec fn dlog_gives(x: u64, r: u64) -> bool;

/// `r` is a value that `x` to the power `e` may come out as.
pub uninterp spec fn dpow_gives(x: u64, e: u64, r: u64) -> bool;

/// `r` is a value that the cosine of `x` may come out as.
pub uninterp spec fn dcos_gives(x: u64, r: u64) -> bool;

/// `r` is a value that the sine of `x` may come out as.
pub uninterp spec fn dsin_gives(x: u64, r: u64) -> bool;

/// `Tensor::add` on two lists of doubles: the correctly rounded sum of each pair.
#[verifier::external_body]
pub(crate) fn plus(a: &Vec<u64>, b: &Vec<u64>) -> (r: Vec<u64>)
    requires
        a@.len() == b@.len(),
    ensures
        r@.len() == a@.len(),
        forall|i: int| 0 <= i < a@.len() ==> double_agrees(#[trigger] r@[i], dadd(a@[i], b@[i])),
{
    let left: Vec<u8> = a.iter().flat_map(|v| v.to_ne_bytes()).collect();
    let left = Tensor::from_raw_buffer(&left, F64, &[a.len()], &Cpu).unwrap();
    let right: Vec<u8> = b.iter().flat_map(|v| v.to_ne_bytes()).collect();
    let right = Tensor::from_raw_buffer(&right, F64, &[b.len()], &Cpu).unwrap();
    let mut out: Vec<u8> = Vec::new();
    left.add(&right).unwrap().write_bytes(&mut out).unwrap();
    out.chunks_exact(8).map(|c| u64::from_le_bytes(c.try_into().unwrap())).collect()
}

/// `Tensor::sub` on two lists of doubles: the correctly rounded difference of each pair.
#[verifier::external_body]
pub(crate) fn minus(a: &Vec<u64>, b: &Vec<u64>) -> (r: Vec<u64>)
    requires
        a@.len() == b@.len(),
    ensures
        r@.len() == a@.len(),
        forall|i: int| 0 <= i < a@.len() ==> double_agrees(#[trigger] r@[i], dsub(a@[i], b@[i])),
{
    let left: Vec<u8> = a.iter().flat_map(|v| v.to_ne_bytes()).collect();
    let left = Tensor::from_raw_buffer(&left, F64, &[a.len()], &Cpu).unwrap();
    let right: Vec<u8> = b.iter().flat_map(|v| v.to_ne_bytes()).collect();
    let right = Tensor::from_raw_buffer(&right, F64, &[b.len()], &Cpu).unwrap();
    let mut out: Vec<u8> = Vec::new();
    left.sub(&right).unwrap().write_bytes(&mut out).unwrap();
    out.chunks_exact(8).map(|c| u64::from_le_bytes(c.try_into().unwrap())).collect()
}

/// `Tensor::mul` on two lists of doubles: the correctly rounded product of each pair.
#[verifier::external_body]
pub(crate) fn times(a: &Vec<u64>, b: &Vec<u64>) -> (r: Vec<u64>)
    requires
        a@.len() == b@.len(),
    ensures
        r@.len() == a@.len(),
        forall|i: int| 0 <= i < a@.len() ==> double_agrees(#[trigger] r@[i], dmul(a@[i], b@[i])),
{
    let left: Vec<u8> = a.iter().flat_map(|v| v.to_ne_bytes()).collect();
    let left = Tensor::from_raw_buffer(&left, F64, &[a.len()], &Cpu).unwrap();
    let right: Vec<u8> = b.iter().flat_map(|v| v.to_ne_bytes()).collect();
    let right = Tensor::from_raw_buffer(&right, F64, &[b.len()], &Cpu).unwrap();
    let mut out: Vec<u8> = Vec::new();
    left.mul(&right).unwrap().write_bytes(&mut out).unwrap();
    out.chunks_exact(8).map(|c| u64::from_le_bytes(c.try_into().unwrap())).collect()
}

/// `Tensor::div` on two lists of doubles: the correctly rounded quotient of each pair.
#[verifier::external_body]
pub(crate) fn over(a: &Vec<u64>, b: &Vec<u64>) -> (r: Vec<u64>)
    requires
        a@.len() == b@.len(),
    ensures
        r@.len() == a@.len(),
        forall|i: int| 0 <= i < a@.len() ==> double_agrees(#[trigger] r@[i], ddiv(a@[i], b@[i])),
{
    let left: Vec<u8> = a.iter().flat_map(|v| v.to_ne_bytes()).collect();
    let left = Tensor::from_raw_buffer(&left, F64, &[a.len()], &Cpu).unwrap();
    let right: Vec<u8> = b.iter().flat_map(|v| v.to_ne_bytes()).collect();
    let right = Tensor::from_raw_buffer(&right, F64, &[b.len()], &Cpu).unwrap();
    let mut out: Vec<u8> = Vec::new();
    left.div(&right).unwrap().write_bytes(&mut out).unwrap();
    out.chunks_exact(8).map(|c| u64::from_le_bytes(c.try_into().unwrap())).collect()
}

/// `Tensor::log` on doubles: the natural logarithm of each element, as the math library gives it.
#[verifier::external_body]
pub(crate) fn log(x: &Vec<u64>) -> (r: Vec<u64>)
    ensures
        r@.len() == x@.len(),
        forall|i: int| 0 <= i < x@.len() ==> dlog_gives(x@[i], #[trigger] r@[i]),
{
    let bytes: Vec<u8> = x.iter().flat_map(|b| b.to_ne_bytes()).collect();
    let t = Tensor::from_raw_buffer(&bytes, F64, &[x.len()], &Cpu).unwrap();
    let mut out: Vec<u8> = Vec::new();
    t.log().unwrap().write_bytes(&mut out).unwrap();
    out.chunks_exact(8).map(|c| u64::from_le_bytes(c.try_into().unwrap())).collect()
}

/// `Tensor::cos` on doubles: the cosine of each element, as the math library gives it.
#[verifier::external_body]
pub(crate) fn cos(x: &Vec<u64>) -> (r: Vec<u64>)
    ensures
        r@.len() == x@.len(),
        forall|i: int| 0 <= i < x@.len() ==> dcos_gives(x@[i], #[trigger] r@[i]),
{
    let bytes: Vec<u8> = x.iter().flat_map(|b| b.to_ne_bytes()).collect();
    let t = Tensor::from_raw_buffer(&bytes, F64, &[x.len()], &Cpu).unwrap();
    let mut out: Vec<u8> = Vec::new();
    t.cos().unwrap().write_bytes(&mut out).unwrap();
    out.chunks_exact(8).map(|c| u64::from_le_bytes(c.try_into().unwrap())).collect()
}

/// `Tensor::sin` on doubles: the sine of each element, as the math library gives it.
#[verifier::external_body]
pub(crate) fn sin(x: &Vec<u64>) -> (r: Vec<u64>)
    ensures
        r@.len() == x@.len(),
        forall|i: int| 0 <= i < x@.len() ==> dsin_gives(x@[i], #[trigger] r@[i]),
{
    let bytes: Vec<u8> = x.iter().flat_map(|b| b.to_ne_bytes()).collect();
    let t = Tensor::from_raw_buffer(&bytes, F64, &[x.len()], &Cpu).unwrap();
    let mut out: Vec<u8> = Vec::new();
    t.sin().unwrap().write_bytes(&mut out).unwrap();
    out.chunks_exact(8).map(|c| u64::from_le_bytes(c.try_into().unwrap())).collect()
}

/// `Tensor::floor` on doubles: each element rounded down to a whole number. Nothing is said of the
/// sign of a zero.
#[verifier::external_body]
pub(crate) fn floor(x: &Vec<u64>) -> (r: Vec<u64>)
    ensures
        r@.len() == x@.len(),
        forall|i: int| 0 <= i < x@.len() ==> floor_gives(x@[i], #[trigger] r@[i]),
{
    let bytes: Vec<u8> = x.iter().flat_map(|b| b.to_ne_bytes()).collect();
    let t = Tensor::from_raw_buffer(&bytes, F64, &[x.len()], &Cpu).unwrap();
    let mut out: Vec<u8> = Vec::new();
    t.floor().unwrap().write_bytes(&mut out).unwrap();
    out.chunks_exact(8).map(|c| u64::from_le_bytes(c.try_into().unwrap())).collect()
}

/// `Tensor::ceil` on doubles: each element rounded up to a whole number. Nothing is said of the sign
/// of a zero.
#[verifier::external_body]
pub(crate) fn ceil(x: &Vec<u64>) -> (r: Vec<u64>)
    ensures
        r@.len() == x@.len(),
        forall|i: int| 0 <= i < x@.len() ==> ceil_gives(x@[i], #[trigger] r@[i]),
{
    let bytes: Vec<u8> = x.iter().flat_map(|b| b.to_ne_bytes()).collect();
    let t = Tensor::from_raw_buffer(&bytes, F64, &[x.len()], &Cpu).unwrap();
    let mut out: Vec<u8> = Vec::new();
    t.ceil().unwrap().write_bytes(&mut out).unwrap();
    out.chunks_exact(8).map(|c| u64::from_le_bytes(c.try_into().unwrap())).collect()
}

/// `Tensor::powf` on one double: `x` to the power `e`, as the math library gives it.
#[verifier::external_body]
pub(crate) fn powf(x: u64, e: u64) -> (r: u64)
    ensures
        dpow_gives(x, e, r),
{
    let base = Tensor::from_raw_buffer(&x.to_ne_bytes(), F64, &[], &Cpu).unwrap();
    let power = Tensor::from_raw_buffer(&e.to_ne_bytes(), F64, &[], &Cpu).unwrap();
    let mut out: Vec<u8> = Vec::new();
    base.powf(power.to_scalar().unwrap()).unwrap().write_bytes(&mut out).unwrap();
    u64::from_le_bytes(out.try_into().unwrap())
}

/// `Tensor::to_dtype` from 64-bit integers to doubles: each rounded to nearest, ties to even.
#[verifier::external_body]
pub(crate) fn whole(n: &Vec<i64>) -> (r: Vec<u64>)
    ensures
        r@.len() == n@.len(),
        forall|i: int| 0 <= i < n@.len() ==> #[trigger] r@[i] == dint(n@[i]),
{
    let bytes: Vec<u8> = n.iter().flat_map(|b| b.to_ne_bytes()).collect();
    let t = Tensor::from_raw_buffer(&bytes, I64, &[n.len()], &Cpu).unwrap();
    let mut out: Vec<u8> = Vec::new();
    t.to_dtype(F64).unwrap().write_bytes(&mut out).unwrap();
    out.chunks_exact(8).map(|c| u64::from_le_bytes(c.try_into().unwrap())).collect()
}

/// `Tensor::to_dtype` from doubles to single precision, rounded to nearest.
#[verifier::external_body]
pub(crate) fn singles(x: &Vec<u64>) -> (r: Vec<u32>)
    ensures
        r@.len() == x@.len(),
        forall|i: int| 0 <= i < x@.len() ==> agrees(#[trigger] r@[i], single(x@[i])),
{
    let bytes: Vec<u8> = x.iter().flat_map(|b| b.to_ne_bytes()).collect();
    let t = Tensor::from_raw_buffer(&bytes, F64, &[x.len()], &Cpu).unwrap();
    let mut out: Vec<u8> = Vec::new();
    t.to_dtype(F32).unwrap().write_bytes(&mut out).unwrap();
    out.chunks_exact(4).map(|c| u32::from_le_bytes(c.try_into().unwrap())).collect()
}

} // verus!
