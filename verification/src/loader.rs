//! Reading a converted checkpoint: the safetensors container and the typed decoding of its tensors.
//!
//! Layout: `[u64 little-endian header length][header: JSON][data]`. The header maps each name to
//! `{dtype, shape, data_offsets: [begin, end]}`, the offsets relative to the data; an optional
//! `__metadata__` entry is skipped. Scales and packed weights are stored as raw bytes, so a tensor
//! is decoded by what the caller knows it to be, not by its declared type.

use vstd::prelude::*;
use vstd::slice::slice_subrange;
use vstd::string::{StrSliceExecFns, StringExecFns};

use crate::json;
use crate::quant::{
    bf16_decode, count_blocks, fp4_weight_dequant, fp8_weight_dequant, FP4_BLOCK, FP8_BLOCK,
};
use crate::tensor::{copied, Tensor};

#[allow(unused_imports)]
use crate::json::{content, field_of, list_of, number_of, parsed, text_of, Json};
#[allow(unused_imports)]
use crate::quant::{
    blocks, fp4_byte_index, fp4_covered, fp4_scale_index, fp4_value, fp8_scale_index, fp8_value,
    nibble_of,
};
#[allow(unused_imports)]
use crate::shape::{fits, lemma_grid, product, shape2};

verus! {

/// The value of little-endian bytes.
pub open spec fn le_value(s: Seq<u8>) -> nat
    decreases s.len(),
{
    if s.len() == 0 {
        0
    } else {
        s[0] as nat + 256 * le_value(s.skip(1))
    }
}

/// `256^n`.
spec fn place_value(n: nat) -> nat
    decreases n,
{
    if n == 0 {
        1
    } else {
        256 * place_value((n - 1) as nat)
    }
}

proof fn lemma_le_bound(s: Seq<u8>)
    ensures
        le_value(s) < place_value(s.len()),
    decreases s.len(),
{
    if s.len() > 0 {
        lemma_le_bound(s.skip(1));
    }
}

/// Reads `n` little-endian bytes.
fn read_le(bytes: &[u8], start: usize, n: usize) -> (r: u64)
    requires
        n <= 8,
        start + n <= bytes@.len(),
    ensures
        r == le_value(bytes@.subrange(start as int, start + n)),
        n == 4 ==> r <= u32::MAX,
        n == 2 ==> r <= u16::MAX,
{
    let len: usize = bytes.len();
    let mut acc: u64 = 0;
    let mut i: usize = n;
    while i > 0
        invariant
            n <= 8,
            i <= n,
            start + n <= bytes@.len() == len,
            acc == le_value(bytes@.subrange(start + i, start + n)),
        decreases i,
    {
        let ghost tail = bytes@.subrange(start + i, start + n);
        let ghost whole = bytes@.subrange(start + i - 1, start + n);
        proof {
            assert(whole.skip(1) =~= tail);
            lemma_le_bound(whole);
            lemma_le_bound(tail);
            reveal_with_fuel(place_value, 9);
        }
        acc = bytes[start + i - 1] as u64 + 256 * acc;
        i = i - 1;
    }
    proof {
        lemma_le_bound(bytes@.subrange(start as int, start + n));
        reveal_with_fuel(place_value, 9);
    }
    acc
}

/// One tensor's place in the file: its declared type and shape, and its byte range.
#[derive(Debug, Clone)]
pub struct TensorInfo {
    pub dtype: String,
    pub shape: Vec<usize>,
    /// File offset of the first byte.
    pub begin: usize,
    /// File offset one past the last byte.
    pub end: usize,
}

/// The content of a [`TensorInfo`].
pub struct InfoView {
    pub dtype: Seq<char>,
    pub shape: Seq<usize>,
    pub begin: int,
    pub end: int,
}

impl View for TensorInfo {
    type V = InfoView;

    open spec fn view(&self) -> InfoView {
        InfoView {
            dtype: self.dtype@,
            shape: self.shape@,
            begin: self.begin as int,
            end: self.end as int,
        }
    }
}

/// What a header entry declares, before it is checked: absent or of the wrong kind is `None`.
#[derive(Debug, Clone)]
pub struct RawEntry {
    pub dtype: Option<String>,
    pub shape: Option<Vec<Option<u64>>>,
    pub offsets: Option<Vec<Option<u64>>>,
}

/// The content of a [`RawEntry`].
pub struct RawView {
    pub dtype: Option<Seq<char>>,
    pub shape: Option<Seq<Option<u64>>>,
    pub offsets: Option<Seq<Option<u64>>>,
}

impl View for RawEntry {
    type V = RawView;

    open spec fn view(&self) -> RawView {
        RawView {
            dtype: match self.dtype {
                Some(s) => Some(s@),
                None => None,
            },
            shape: match self.shape {
                Some(s) => Some(s@),
                None => None,
            },
            offsets: match self.offsets {
                Some(s) => Some(s@),
                None => None,
            },
        }
    }
}

/// Why a header entry is refused.
#[derive(Debug, Clone, Copy, PartialEq, Eq, Structural)]
pub enum EntryError {
    MissingDtype,
    MissingShape,
    NonIntegerDim,
    MissingOffsets,
    OffsetCount,
    BadOffset,
    OutOfRange,
}

/// Why a header is refused.
#[derive(Debug, Clone)]
pub enum HeaderError {
    /// Fewer than the eight bytes of the header length.
    TooSmall,
    /// The header length exceeds the file.
    TooLong,
    /// The header is not JSON.
    NotJson,
    /// The header is not a JSON object.
    NotObject,
    /// The first entry that is refused, and why.
    Entry(String, EntryError),
}

/// The content of a [`HeaderError`].
pub enum HeaderFault {
    TooSmall,
    TooLong,
    NotJson,
    NotObject,
    Entry(Seq<char>, EntryError),
}

impl View for HeaderError {
    type V = HeaderFault;

    open spec fn view(&self) -> HeaderFault {
        match *self {
            HeaderError::TooSmall => HeaderFault::TooSmall,
            HeaderError::TooLong => HeaderFault::TooLong,
            HeaderError::NotJson => HeaderFault::NotJson,
            HeaderError::NotObject => HeaderFault::NotObject,
            HeaderError::Entry(name, e) => HeaderFault::Entry(name@, e),
        }
    }
}

/// The numbers of a JSON list.
pub open spec fn numbers_of(j: Json) -> Option<Seq<Option<u64>>> {
    match list_of(j) {
        Some(items) => Some(items.map_values(|x: Json| number_of(x))),
        None => None,
    }
}

/// The declarations of a header entry.
pub open spec fn raw_of(j: Json) -> RawView {
    RawView {
        dtype: match field_of(j, "dtype"@) {
            Some(v) => text_of(v),
            None => None,
        },
        shape: match field_of(j, "shape"@) {
            Some(v) => numbers_of(v),
            None => None,
        },
        offsets: match field_of(j, "data_offsets"@) {
            Some(v) => numbers_of(v),
            None => None,
        },
    }
}

/// The place of a declared tensor in a file of `len` bytes whose data begins at `start`, or the first
/// thing that is wrong with the declaration.
pub open spec fn place(raw: RawView, start: int, len: int) -> Result<InfoView, EntryError> {
    if raw.dtype is None {
        Err(EntryError::MissingDtype)
    } else if raw.shape is None {
        Err(EntryError::MissingShape)
    } else if raw.shape.unwrap().contains(None) {
        Err(EntryError::NonIntegerDim)
    } else if raw.offsets is None {
        Err(EntryError::MissingOffsets)
    } else if raw.offsets.unwrap().len() != 2 {
        Err(EntryError::OffsetCount)
    } else if raw.offsets.unwrap()[0] is None || raw.offsets.unwrap()[1] is None {
        Err(EntryError::BadOffset)
    } else {
        let begin = start + raw.offsets.unwrap()[0].unwrap();
        let end = start + raw.offsets.unwrap()[1].unwrap();
        if begin > end || end > len {
            Err(EntryError::OutOfRange)
        } else {
            Ok(
                InfoView {
                    dtype: raw.dtype.unwrap(),
                    shape: raw.shape.unwrap().map_values(|d: Option<u64>| d.unwrap() as usize),
                    begin,
                    end,
                },
            )
        }
    }
}

/// The tensors of a list of header entries, in order and without the metadata, or the first entry
/// that is refused.
pub open spec fn collect(entries: Seq<(Seq<char>, Json)>, start: int, len: int) -> Result<
    Seq<(Seq<char>, InfoView)>,
    HeaderFault,
>
    decreases entries.len(),
{
    if entries.len() == 0 {
        Ok(Seq::empty())
    } else {
        match collect(entries.drop_last(), start, len) {
            Err(e) => Err(e),
            Ok(rest) => if entries.last().0 == "__metadata__"@ {
                Ok(rest)
            } else {
                match place(raw_of(entries.last().1), start, len) {
                    Err(e) => Err(HeaderFault::Entry(entries.last().0, e)),
                    Ok(info) => Ok(rest.push((entries.last().0, info))),
                }
            },
        }
    }
}

/// Where the data begins.
pub open spec fn data_start(buf: Seq<u8>) -> int {
    8 + le_value(buf.take(8)) as int
}

/// The tensors that a file's header declares, or what is wrong with it.
pub open spec fn header_of(buf: Seq<u8>) -> Result<Seq<(Seq<char>, InfoView)>, HeaderFault> {
    if buf.len() < 8 {
        Err(HeaderFault::TooSmall)
    } else if buf.len() < data_start(buf) {
        Err(HeaderFault::TooLong)
    } else {
        match parsed(buf.subrange(8, data_start(buf))) {
            None => Err(HeaderFault::NotJson),
            Some(Json::Object(entries)) => collect(entries, data_start(buf), buf.len() as int),
            Some(_) => Err(HeaderFault::NotObject),
        }
    }
}

/// The content of a list of named tensors.
pub open spec fn entries_view(v: Seq<(String, TensorInfo)>) -> Seq<(Seq<char>, InfoView)> {
    v.map_values(|p: (String, TensorInfo)| (p.0@, p.1@))
}

/// Reads the numbers of a list.
fn read_numbers(v: &Vec<serde_json::Value>) -> (r: Vec<Option<u64>>)
    ensures
        r@ == v@.map_values(|x: serde_json::Value| content(x)).map_values(
            |x: Json| number_of(x),
        ),
{
    let ghost want = v@.map_values(|x: serde_json::Value| content(x)).map_values(
        |x: Json| number_of(x),
    );
    let mut r: Vec<Option<u64>> = Vec::new();
    let mut i: usize = 0;
    while i < v.len()
        invariant
            i <= v@.len(),
            want == v@.map_values(|x: serde_json::Value| content(x)).map_values(
                |x: Json| number_of(x),
            ),
            r@ == want.take(i as int),
        decreases v@.len() - i,
    {
        r.push(v[i].as_u64());
        i = i + 1;
        assert(want.take(i as int) =~= want.take(i - 1).push(want[i - 1]));
    }
    assert(want.take(i as int) =~= want);
    r
}

/// Reads a field that holds a list of numbers.
fn numbers_field(v: &serde_json::Value, key: &str) -> (r: Option<Vec<Option<u64>>>)
    ensures
        match r {
            Some(n) => field_of(content(*v), key@) is Some && numbers_of(
                field_of(content(*v), key@).unwrap(),
            ) == Some(n@),
            None => field_of(content(*v), key@) is None || numbers_of(
                field_of(content(*v), key@).unwrap(),
            ) is None,
        },
{
    match json::field(v, key) {
        Some(x) => match x.as_array() {
            Some(list) => Some(read_numbers(list)),
            None => None,
        },
        None => None,
    }
}

/// Reads the declarations of a header entry.
fn read_entry(v: &serde_json::Value) -> (r: RawEntry)
    ensures
        r@ == raw_of(content(*v)),
{
    let dtype = match json::field(v, "dtype") {
        Some(x) => match x.as_str() {
            Some(s) => Some(s.to_owned()),
            None => None,
        },
        None => None,
    };
    let shape = numbers_field(v, "shape");
    let offsets = numbers_field(v, "data_offsets");
    RawEntry { dtype, shape, offsets }
}

/// The sizes of a shape, if every one is a whole number.
fn whole_dims(dims: &Vec<Option<u64>>) -> (r: Option<Vec<usize>>)
    ensures
        r is Some <==> !dims@.contains(None),
        r matches Some(shape) ==> shape@ == dims@.map_values(
            |d: Option<u64>| d.unwrap() as usize,
        ),
{
    let ghost want = dims@.map_values(|d: Option<u64>| d.unwrap() as usize);
    let mut shape: Vec<usize> = Vec::new();
    let mut i: usize = 0;
    while i < dims.len()
        invariant
            i <= dims@.len(),
            forall|j: int| 0 <= j < i ==> (#[trigger] dims@[j]) is Some,
            want == dims@.map_values(|d: Option<u64>| d.unwrap() as usize),
            shape@ == want.take(i as int),
        decreases dims@.len() - i,
    {
        match dims[i] {
            Some(d) => {
                shape.push(d as usize);
            },
            None => {
                assert(dims@.contains(None));
                return None;
            },
        }
        i = i + 1;
        assert(want.take(i as int) =~= want.take(i - 1).push(want[i - 1]));
    }
    assert(want.take(i as int) =~= want);
    assert(!dims@.contains(None));
    Some(shape)
}

/// Places a declared tensor in a file of `len` bytes whose data begins at `start`.
pub fn place_entry(raw: RawEntry, start: usize, len: usize) -> (r: Result<TensorInfo, EntryError>)
    ensures
        match r {
            Ok(info) => place(raw@, start as int, len as int) == Ok::<InfoView, EntryError>(info@),
            Err(e) => place(raw@, start as int, len as int) == Err::<InfoView, EntryError>(e),
        },
{
    let dtype = match raw.dtype {
        Some(s) => s,
        None => {
            return Err(EntryError::MissingDtype);
        },
    };
    let dims = match raw.shape {
        Some(s) => s,
        None => {
            return Err(EntryError::MissingShape);
        },
    };
    let shape = match whole_dims(&dims) {
        Some(s) => s,
        None => {
            return Err(EntryError::NonIntegerDim);
        },
    };
    let offsets = match raw.offsets {
        Some(o) => o,
        None => {
            return Err(EntryError::MissingOffsets);
        },
    };
    if offsets.len() != 2 {
        return Err(EntryError::OffsetCount);
    }
    let (first, second): (u64, u64) = match (offsets[0], offsets[1]) {
        (Some(a), Some(b)) => (a, b),
        _ => {
            return Err(EntryError::BadOffset);
        },
    };
    if start > len || first > second || second > (len - start) as u64 {
        return Err(EntryError::OutOfRange);
    }
    Ok(TensorInfo { dtype, shape, begin: start + first as usize, end: start + second as usize })
}

/// The names are pairwise distinct.
pub open spec fn names_distinct(t: Seq<(Seq<char>, InfoView)>) -> bool {
    forall|i: int, j: int| 0 <= i < j < t.len() ==> (#[trigger] t[i]).0 != (#[trigger] t[j]).0
}

/// Every byte range lies in the file.
pub open spec fn ranges_inside(t: Seq<(Seq<char>, InfoView)>, len: int) -> bool {
    forall|i: int|
        0 <= i < t.len() ==> 0 <= (#[trigger] t[i]).1.begin <= t[i].1.end <= len
}

/// A failing prefix fails as a whole.
proof fn lemma_collect_fails(entries: Seq<(Seq<char>, Json)>, start: int, len: int, k: int)
    requires
        0 <= k <= entries.len(),
        collect(entries.take(k), start, len) is Err,
    ensures
        collect(entries, start, len) == collect(entries.take(k), start, len),
    decreases entries.len() - k,
{
    if k < entries.len() {
        assert(entries.take(k + 1).drop_last() =~= entries.take(k));
        lemma_collect_fails(entries, start, len, k + 1);
    } else {
        assert(entries.take(k) =~= entries);
    }
}

/// Parses the header of a file into the places of its tensors.
pub fn parse_header(buf: &[u8]) -> (r: Result<Vec<(String, TensorInfo)>, HeaderError>)
    ensures
        match r {
            Ok(v) => header_of(buf@) == Ok::<Seq<(Seq<char>, InfoView)>, HeaderFault>(
                entries_view(v@),
            ) && names_distinct(entries_view(v@)) && ranges_inside(
                entries_view(v@),
                buf@.len() as int,
            ),
            Err(e) => header_of(buf@) == Err::<Seq<(Seq<char>, InfoView)>, HeaderFault>(e@),
        },
{
    let len: usize = buf.len();
    if len < 8 {
        return Err(HeaderError::TooSmall);
    }
    let header: u64 = read_le(buf, 0, 8);
    assert(buf@.subrange(0, 8) =~= buf@.take(8));
    if header > (len - 8) as u64 {
        return Err(HeaderError::TooLong);
    }
    let start: usize = 8 + header as usize;
    let value = match json::parse(slice_subrange(buf, 8, start)) {
        Ok(v) => v,
        Err(_) => {
            return Err(HeaderError::NotJson);
        },
    };
    let list = match json::entries(&value) {
        Some(l) => l,
        None => {
            return Err(HeaderError::NotObject);
        },
    };
    let ghost held = content(value)->Object_0;
    assert(header_of(buf@) == collect(held, start as int, len as int));
    read_tensors(list, start, len, Ghost(held))
}

/// Reads the entries of a header object.
fn read_tensors(
    list: Vec<(String, &serde_json::Value)>,
    start: usize,
    len: usize,
    Ghost(held): Ghost<Seq<(Seq<char>, Json)>>,
) -> (r: Result<Vec<(String, TensorInfo)>, HeaderError>)
    requires
        list@.len() == held.len(),
        forall|i: int|
            0 <= i < held.len() ==> (#[trigger] list@[i]).0@ == held[i].0 && content(*list@[i].1)
                == held[i].1,
        forall|i: int, j: int|
            0 <= i < j < held.len() ==> (#[trigger] held[i]).0 != (#[trigger] held[j]).0,
    ensures
        match r {
            Ok(v) => collect(held, start as int, len as int) == Ok::<
                Seq<(Seq<char>, InfoView)>,
                HeaderFault,
            >(entries_view(v@)) && names_distinct(entries_view(v@)) && ranges_inside(
                entries_view(v@),
                len as int,
            ),
            Err(e) => collect(held, start as int, len as int) == Err::<
                Seq<(Seq<char>, InfoView)>,
                HeaderFault,
            >(e@),
        },
{
    let mut out: Vec<(String, TensorInfo)> = Vec::new();
    let metadata = "__metadata__".to_owned();
    let mut i: usize = 0;
    assert(held.take(0) =~= Seq::empty());
    assert(entries_view(out@) =~= Seq::empty());
    while i < list.len()
        invariant
            list@.len() == held.len(),
            forall|j: int|
                0 <= j < held.len() ==> (#[trigger] list@[j]).0@ == held[j].0 && content(
                    *list@[j].1,
                ) == held[j].1,
            forall|a: int, b: int|
                0 <= a < b < held.len() ==> (#[trigger] held[a]).0 != (#[trigger] held[b]).0,
            metadata@ == "__metadata__"@,
            i <= list@.len(),
            collect(held.take(i as int), start as int, len as int) == Ok::<
                Seq<(Seq<char>, InfoView)>,
                HeaderFault,
            >(entries_view(out@)),
            names_distinct(entries_view(out@)),
            ranges_inside(entries_view(out@), len as int),
            forall|a: int, b: int|
                0 <= a < out@.len() && i <= b < held.len() ==> (#[trigger] out@[a]).0@ != (
                #[trigger] held[b]).0,
        decreases list@.len() - i,
    {
        let name = list[i].0.clone();
        let ghost prior = entries_view(out@);
        proof {
            assert(held.take(i + 1).drop_last() =~= held.take(i as int));
            assert(held.take(i + 1).last() == held[i as int]);
        }
        if !(name == metadata) {
            match place_entry(read_entry(list[i].1), start, len) {
                Ok(info) => {
                    let ghost added = (name@, info@);
                    out.push((name, info));
                    proof {
                        assert(entries_view(out@) =~= prior.push(added));
                        assert forall|a: int, b: int| 0 <= a < b < out@.len() implies (
                        #[trigger] entries_view(out@)[a]).0 != (#[trigger] entries_view(
                            out@,
                        )[b]).0 by {
                            if b < prior.len() {
                                assert(prior[a].0 != prior[b].0);
                            } else {
                                assert(entries_view(out@)[a].0 == out@[a].0@);
                            }
                        }
                    }
                },
                Err(e) => {
                    proof {
                        lemma_collect_fails(held, start as int, len as int, i + 1);
                    }
                    return Err(HeaderError::Entry(name, e));
                },
            }
        }
        i = i + 1;
    }
    assert(held.take(i as int) =~= held);
    Ok(out)
}

// --- the file -------------------------------------------------------------------------------

/// Why a tensor cannot be loaded.
#[derive(Debug, Clone)]
pub enum LoadError {
    /// The file has no tensor of this name.
    NotFound(String),
    /// The stored bytes do not match the wanted shape.
    Length(String),
    /// The tensor is stored in a type that is not read directly.
    Dtype(String),
    /// The wanted shape does not fit in memory.
    Shape,
}

/// The content of a [`LoadError`].
pub enum LoadFault {
    NotFound(Seq<char>),
    Length(Seq<char>),
    Dtype(Seq<char>),
    Shape,
}

impl View for LoadError {
    type V = LoadFault;

    open spec fn view(&self) -> LoadFault {
        match *self {
            LoadError::NotFound(n) => LoadFault::NotFound(n@),
            LoadError::Length(n) => LoadFault::Length(n@),
            LoadError::Dtype(n) => LoadFault::Dtype(n@),
            LoadError::Shape => LoadFault::Shape,
        }
    }
}

/// The bytes of a safetensors file with the places of its tensors.
pub struct SafeTensors<'a> {
    bytes: &'a [u8],
    tensors: Vec<(String, TensorInfo)>,
}

/// The content of a [`SafeTensors`].
pub struct FileView {
    pub bytes: Seq<u8>,
    pub tensors: Seq<(Seq<char>, InfoView)>,
}

impl FileView {
    /// No name occurs twice, and every tensor lies in the file.
    pub open spec fn wf(self) -> bool {
        names_distinct(self.tensors) && ranges_inside(self.tensors, self.bytes.len() as int)
    }

    /// The place of a tensor.
    pub open spec fn find(self, name: Seq<char>) -> Option<InfoView> {
        if exists|i: int| 0 <= i < self.tensors.len() && (#[trigger] self.tensors[i]).0 == name {
            let i = choose|i: int|
                0 <= i < self.tensors.len() && (#[trigger] self.tensors[i]).0 == name;
            Some(self.tensors[i].1)
        } else {
            None
        }
    }

    /// The bytes of a tensor.
    pub open spec fn raw(self, name: Seq<char>) -> Option<Seq<u8>> {
        match self.find(name) {
            Some(info) => Some(self.bytes.subrange(info.begin, info.end)),
            None => None,
        }
    }
}

impl<'a> View for SafeTensors<'a> {
    type V = FileView;

    closed spec fn view(&self) -> FileView {
        FileView { bytes: self.bytes@, tensors: entries_view(self.tensors@) }
    }
}

/// The code-point order of names.
pub open spec fn name_less(a: Seq<char>, b: Seq<char>) -> bool
    decreases a.len(),
{
    if b.len() == 0 {
        false
    } else if a.len() == 0 {
        true
    } else if a[0] == b[0] {
        name_less(a.skip(1), b.skip(1))
    } else {
        (a[0] as int) < (b[0] as int)
    }
}

proof fn lemma_name_total(a: Seq<char>, b: Seq<char>)
    ensures
        a == b || name_less(a, b) || name_less(b, a),
    decreases a.len(),
{
    if a.len() > 0 && b.len() > 0 {
        lemma_name_total(a.skip(1), b.skip(1));
        if a[0] == b[0] {
            if a.skip(1) == b.skip(1) {
                assert(a =~= seq![a[0]] + a.skip(1));
                assert(b =~= seq![b[0]] + b.skip(1));
                assert(a == b);
            }
        } else {
            assert(a[0] as int != b[0] as int);
        }
    } else if a.len() == 0 && b.len() == 0 {
        assert(a =~= b);
    }
}

proof fn lemma_name_transitive(a: Seq<char>, b: Seq<char>, c: Seq<char>)
    requires
        name_less(a, b),
        name_less(b, c),
    ensures
        name_less(a, c),
    decreases a.len(),
{
    if a.len() > 0 && b.len() > 0 && c.len() > 0 {
        if a[0] == b[0] && b[0] == c[0] {
            lemma_name_transitive(a.skip(1), b.skip(1), c.skip(1));
        }
    }
}

/// Whether one name comes before another.
fn name_before(a: &str, b: &str) -> (r: bool)
    ensures
        r == name_less(a@, b@),
{
    let (na, nb): (usize, usize) = (a.unicode_len(), b.unicode_len());
    let mut i: usize = 0;
    assert(a@.skip(0) =~= a@);
    assert(b@.skip(0) =~= b@);
    while i < na && i < nb
        invariant
            na == a@.len(),
            nb == b@.len(),
            i <= na,
            i <= nb,
            name_less(a@, b@) == name_less(a@.skip(i as int), b@.skip(i as int)),
        decreases na - i,
    {
        let (x, y): (char, char) = (a.get_char(i), b.get_char(i));
        proof {
            assert(a@.skip(i as int).skip(1) =~= a@.skip(i + 1));
            assert(b@.skip(i as int).skip(1) =~= b@.skip(i + 1));
        }
        if x != y {
            return (x as u32) < (y as u32);
        }
        i = i + 1;
    }
    i < nb
}

/// The names ascend, and so do not repeat.
pub open spec fn ascending(r: Seq<String>) -> bool {
    forall|i: int, j: int|
        0 <= i < j < r.len() ==> name_less((#[trigger] r[i])@, (#[trigger] r[j])@)
}

/// The names are those of the tensors.
#[verifier::opaque]
pub open spec fn lists_names(t: Seq<(Seq<char>, InfoView)>, r: Seq<String>) -> bool {
    &&& r.len() == t.len()
    &&& forall|i: int|
        0 <= i < t.len() ==> exists|j: int|
            0 <= j < r.len() && (#[trigger] r[j])@ == (#[trigger] t[i]).0
    &&& forall|j: int|
        0 <= j < r.len() ==> exists|i: int|
            0 <= i < t.len() && (#[trigger] t[i]).0 == (#[trigger] r[j])@
}

/// The names of the tensors in ascending order.
pub open spec fn sorted_names(t: Seq<(Seq<char>, InfoView)>, r: Seq<String>) -> bool {
    ascending(r) && lists_names(t, r)
}

/// One more tensor, one more name.
proof fn lemma_lists_more(
    t: Seq<(Seq<char>, InfoView)>,
    r: Seq<String>,
    entry: (Seq<char>, InfoView),
    p: int,
    after: Seq<String>,
)
    requires
        lists_names(t, r),
        0 <= p <= r.len(),
        after.len() == r.len() + 1,
        after[p]@ == entry.0,
        forall|j: int| 0 <= j < p ==> #[trigger] after[j] == r[j],
        forall|j: int| p < j < after.len() ==> #[trigger] after[j] == r[j - 1],
    ensures
        lists_names(t.push(entry), after),
{
    reveal(lists_names);
    let u = t.push(entry);
    assert forall|i: int| 0 <= i < u.len() implies exists|j: int|
        0 <= j < after.len() && (#[trigger] after[j])@ == (#[trigger] u[i]).0 by {
        if i == t.len() {
            assert(after[p]@ == u[i].0);
        } else {
            assert(u[i] == t[i]);
            let j = choose|j: int| 0 <= j < r.len() && (#[trigger] r[j])@ == t[i].0;
            let k = if j < p {
                j
            } else {
                j + 1
            };
            assert(after[k] == r[j]);
        }
    }
    assert forall|j: int| 0 <= j < after.len() implies exists|i: int|
        0 <= i < u.len() && (#[trigger] u[i]).0 == (#[trigger] after[j])@ by {
        if j == p {
            assert(u[t.len() as int].0 == after[j]@);
        } else {
            let k = if j < p {
                j
            } else {
                j - 1
            };
            assert(after[j] == r[k]);
            let i = choose|i: int| 0 <= i < t.len() && (#[trigger] t[i]).0 == r[k]@;
            assert(u[i].0 == after[j]@);
        }
    }
}

/// A tensor that follows the listed ones has a new name.
proof fn lemma_name_is_new(t: Seq<(Seq<char>, InfoView)>, r: Seq<String>, i: int, j: int)
    requires
        names_distinct(t),
        0 <= i < t.len(),
        lists_names(t.take(i), r),
        0 <= j < r.len(),
    ensures
        r[j]@ != t[i].0,
{
    reveal(lists_names);
    let k = choose|k: int| 0 <= k < t.take(i).len() && (#[trigger] t.take(i)[k]).0 == r[j]@;
    assert(t.take(i)[k] == t[k]);
    assert(t[k].0 != t[i].0);
}

/// Puts a new name in its place.
fn insert_name(r: &mut Vec<String>, name: String) -> (p: usize)
    requires
        ascending(old(r)@),
        forall|j: int| 0 <= j < old(r)@.len() ==> (#[trigger] old(r)@[j])@ != name@,
    ensures
        p <= old(r)@.len(),
        final(r)@ == old(r)@.insert(p as int, name),
        ascending(final(r)@),
{
    let ghost before = r@;
    let ghost nv = name@;
    let mut p: usize = r.len();
    while p > 0 && name_before(name.as_str(), r[p - 1].as_str())
        invariant
            r@ == before,
            name@ == nv,
            p <= r@.len(),
            forall|a: int| p <= a < r@.len() ==> name_less(nv, (#[trigger] r@[a])@),
        decreases p,
    {
        p = p - 1;
    }
    proof {
        if p > 0 {
            let j = p - 1;
            lemma_name_total(before[j]@, nv);
            assert forall|a: int| 0 <= a < p implies name_less((#[trigger] before[a])@, nv) by {
                if a < j {
                    lemma_name_transitive(before[a]@, before[j]@, nv);
                }
            }
        }
    }
    r.insert(p, name);
    proof {
        let after = r@;
        assert forall|a: int, b: int| 0 <= a < b < after.len() implies name_less(
            (#[trigger] after[a])@,
            (#[trigger] after[b])@,
        ) by {
            if a < p {
                assert(after[a] == before[a]);
            } else if a > p {
                assert(after[a] == before[a - 1]);
            }
            if b < p {
                assert(after[b] == before[b]);
            } else if b > p {
                assert(after[b] == before[b - 1]);
            }
        }
    }
    p
}

impl<'a> SafeTensors<'a> {
    #[verifier::type_invariant]
    spec fn inv(self) -> bool {
        names_distinct(entries_view(self.tensors@)) && ranges_inside(
            entries_view(self.tensors@),
            self.bytes@.len() as int,
        )
    }

    /// Parses the header of a file's bytes.
    pub fn parse(bytes: &'a [u8]) -> (r: Result<SafeTensors<'a>, HeaderError>)
        ensures
            match r {
                Ok(s) => s@.wf() && s@.bytes == bytes@ && header_of(bytes@) == Ok::<
                    Seq<(Seq<char>, InfoView)>,
                    HeaderFault,
                >(s@.tensors),
                Err(e) => header_of(bytes@) == Err::<Seq<(Seq<char>, InfoView)>, HeaderFault>(e@),
            },
    {
        let tensors = parse_header(bytes)?;
        Ok(SafeTensors { bytes, tensors })
    }

    /// Where a name stands in the list.
    fn position(&self, name: &str) -> (r: Option<usize>)
        ensures
            self@.wf(),
            match r {
                Some(i) => i < self.tensors@.len() && self.tensors@[i as int].0@ == name@
                    && self@.find(name@) == Some(self.tensors@[i as int].1@),
                None => self@.find(name@) is None,
            },
    {
        proof {
            use_type_invariant(self);
        }
        let wanted = name.to_owned();
        let ghost t = self@.tensors;
        let mut i: usize = 0;
        while i < self.tensors.len()
            invariant
                self@.wf(),
                t == self@.tensors,
                t == entries_view(self.tensors@),
                names_distinct(t),
                wanted@ == name@,
                i <= self.tensors@.len(),
                forall|j: int| 0 <= j < i ==> (#[trigger] t[j]).0 != name@,
            decreases self.tensors@.len() - i,
        {
            if self.tensors[i].0 == wanted {
                proof {
                    assert(t[i as int].0 == name@);
                    let k = choose|k: int| 0 <= k < t.len() && (#[trigger] t[k]).0 == name@;
                    if k < i {
                        assert(t[k].0 != t[i as int].0);
                    } else if i < k {
                        assert(t[i as int].0 != t[k].0);
                    }
                }
                return Some(i);
            }
            assert(t[i as int].0 == self.tensors@[i as int].0@);
            i = i + 1;
        }
        None
    }

    /// All tensor names in ascending order.
    pub fn tensor_names(&self) -> (r: Vec<String>)
        ensures
            sorted_names(self@.tensors, r@),
    {
        proof {
            use_type_invariant(self);
        }
        let ghost t = self@.tensors;
        let mut r: Vec<String> = Vec::new();
        let mut i: usize = 0;
        proof {
            reveal(lists_names);
        }
        while i < self.tensors.len()
            invariant
                t == self@.tensors,
                t == entries_view(self.tensors@),
                names_distinct(t),
                i <= self.tensors@.len(),
                ascending(r@),
                lists_names(t.take(i as int), r@),
            decreases self.tensors@.len() - i,
        {
            let name = self.tensors[i].0.clone();
            proof {
                assert forall|j: int| 0 <= j < r@.len() implies (#[trigger] r@[j])@ != name@ by {
                    lemma_name_is_new(t, r@, i as int, j);
                }
            }
            let ghost before = r@;
            let p: usize = insert_name(&mut r, name);
            proof {
                lemma_lists_more(t.take(i as int), before, t[i as int], p as int, r@);
                assert(t.take(i as int).push(t[i as int]) =~= t.take(i + 1));
            }
            i = i + 1;
        }
        assert(t.take(i as int) =~= t);
        r
    }

    /// The place of a tensor, if the file has it.
    pub fn info(&self, name: &str) -> (r: Option<&TensorInfo>)
        ensures
            self@.wf(),
            match r {
                Some(info) => self@.find(name@) == Some(info@),
                None => self@.find(name@) is None,
            },
    {
        match self.position(name) {
            Some(i) => Some(&self.tensors[i].1),
            None => None,
        }
    }

    /// The bytes of a tensor.
    pub fn raw(&self, name: &str) -> (r: Result<&'a [u8], LoadError>)
        ensures
            self@.wf(),
            match r {
                Ok(b) => self@.raw(name@) == Some(b@),
                Err(e) => self@.raw(name@) is None && e@ == LoadFault::NotFound(name@),
            },
    {
        match self.position(name) {
            Some(i) => {
                let info = &self.tensors[i].1;
                assert(self@.tensors[i as int].1 == info@);
                Ok(slice_subrange(self.bytes, info.begin, info.end))
            },
            None => Err(LoadError::NotFound(name.to_owned())),
        }
    }
}

// --- typed decoding -------------------------------------------------------------------------

/// The element count of a shape, if it fits in `usize`.
fn element_count(shape: &Vec<usize>) -> (r: Option<usize>)
    ensures
        match r {
            Some(n) => n == product(shape@),
            None => product(shape@) > usize::MAX,
        },
{
    let mut i: usize = 0;
    while i < shape.len()
        invariant
            i <= shape@.len(),
            forall|j: int| 0 <= j < i ==> shape@[j] > 0,
        decreases shape@.len() - i,
    {
        if shape[i] == 0 {
            proof {
                crate::shape::lemma_axis(shape@, i as int);
                let a: nat = crate::shape::outer(shape@, i as int);
                let b: nat = crate::shape::inner(shape@, i as int);
                assert(a * 0 * b == 0) by (nonlinear_arith);
            }
            return Some(0);
        }
        i = i + 1;
    }
    let mut n: usize = 1;
    let mut k: usize = 0;
    while k < shape.len()
        invariant
            forall|j: int| 0 <= j < shape@.len() ==> shape@[j] > 0,
            k <= shape@.len(),
            n == product(shape@.take(k as int)),
        decreases shape@.len() - k,
    {
        proof {
            assert(shape@.take(k + 1).drop_last() =~= shape@.take(k as int));
            lemma_prefix_count(shape@, k + 1);
        }
        match n.checked_mul(shape[k]) {
            Some(v) => {
                n = v;
            },
            None => {
                return None;
            },
        }
        k = k + 1;
    }
    assert(shape@.take(k as int) =~= shape@);
    Some(n)
}

/// The element count of the first axes is at most that of all, if no axis is empty.
proof fn lemma_prefix_count(s: Seq<usize>, k: int)
    requires
        0 <= k <= s.len(),
        forall|j: int| 0 <= j < s.len() ==> s[j] > 0,
    ensures
        product(s.take(k)) <= product(s),
    decreases s.len() - k,
{
    if k < s.len() {
        lemma_prefix_count(s, k + 1);
        assert(s.take(k + 1).drop_last() =~= s.take(k));
        let a: nat = product(s.take(k));
        let b: nat = s[k] as nat;
        assert(a <= a * b) by (nonlinear_arith)
            requires
                b >= 1,
        ;
    } else {
        assert(s.take(k) =~= s);
    }
}

/// The bytes of a tensor of `width` bytes per element and the wanted shape, or what is wrong.
pub open spec fn stored(f: FileView, name: Seq<char>, shape: Seq<usize>, width: int) -> Result<
    Seq<u8>,
    LoadFault,
> {
    match f.raw(name) {
        None => Err(LoadFault::NotFound(name)),
        Some(b) => if b.len() != product(shape) * width {
            Err(LoadFault::Length(name))
        } else if !fits(shape) {
            Err(LoadFault::Shape)
        } else {
            Ok(b)
        },
    }
}

/// The single-precision patterns of little-endian bytes.
pub open spec fn singles_of(b: Seq<u8>) -> Seq<u32> {
    Seq::new(b.len() / 4, |i: int| le_value(b.subrange(4 * i, 4 * i + 4)) as u32)
}

/// The BF16 values of little-endian bytes, widened to single precision.
pub open spec fn halves_of(b: Seq<u8>) -> Seq<u32> {
    Seq::new(
        b.len() / 2,
        |i: int| (le_value(b.subrange(2 * i, 2 * i + 2)) * 0x1_0000) as u32,
    )
}

/// How a tensor that is not quantised is read: by the type that its entry declares.
pub open spec fn plain_data(f: FileView, name: Seq<char>, shape: Seq<usize>) -> Result<
    Seq<u32>,
    LoadFault,
> {
    match f.find(name) {
        None => Err(LoadFault::NotFound(name)),
        Some(info) => if info.dtype == "F32"@ {
            match stored(f, name, shape, 4) {
                Ok(b) => Ok(singles_of(b)),
                Err(e) => Err(e),
            }
        } else if info.dtype == "BF16"@ {
            match stored(f, name, shape, 2) {
                Ok(b) => Ok(halves_of(b)),
                Err(e) => Err(e),
            }
        } else {
            Err(LoadFault::Dtype(name))
        },
    }
}

/// The name of a projection's weight.
pub open spec fn weight_name(prefix: Seq<char>) -> Seq<char> {
    prefix + ".weight"@
}

/// The name of a projection's scales.
pub open spec fn scale_name(prefix: Seq<char>) -> Seq<char> {
    prefix + ".scale"@
}

/// The bytes of weight and scales of a quantised projection, if they are `want_weight` and
/// `want_scale` many.
pub open spec fn quantized(
    f: FileView,
    prefix: Seq<char>,
    want_weight: int,
    want_scale: int,
) -> Result<(Seq<u8>, Seq<u8>), LoadFault> {
    match f.raw(weight_name(prefix)) {
        None => Err(LoadFault::NotFound(weight_name(prefix))),
        Some(w) => match f.raw(scale_name(prefix)) {
            None => Err(LoadFault::NotFound(scale_name(prefix))),
            Some(s) => if w.len() != want_weight || s.len() != want_scale {
                Err(LoadFault::Length(prefix))
            } else {
                Ok((w, s))
            },
        },
    }
}

/// The bytes of an FP8 projection: one per weight, and one scale per tile.
pub open spec fn fp8_parts(
    f: FileView,
    prefix: Seq<char>,
    rows: int,
    cols: int,
    block: int,
) -> Result<(Seq<u8>, Seq<u8>), LoadFault> {
    quantized(f, prefix, rows * cols, blocks(rows, block) * blocks(cols, block))
}

/// The bytes of an FP4 projection: one per two weights, and one scale per block of a row.
pub open spec fn fp4_parts(
    f: FileView,
    prefix: Seq<char>,
    rows: int,
    cols: int,
    block: int,
) -> Result<(Seq<u8>, Seq<u8>), LoadFault> {
    quantized(f, prefix, rows * cols / 2, rows * (cols / block))
}

/// The decoded elements of an FP8 projection.
pub open spec fn fp8_decoded(w: Seq<u8>, s: Seq<u8>, cols: int, block: int, data: Seq<u32>) -> bool {
    forall|p: int|
        0 <= p < data.len() ==> fp8_value(
            w[p],
            s[fp8_scale_index(p, cols, block)],
            #[trigger] data[p],
        )
}

/// The decoded elements of an FP4 projection.
pub open spec fn fp4_decoded(w: Seq<u8>, s: Seq<u8>, cols: int, block: int, data: Seq<u32>) -> bool {
    forall|p: int|
        0 <= p < data.len() ==> fp4_value(
            nibble_of(w[fp4_byte_index(p, cols)], p % cols),
            s[fp4_scale_index(p, cols, block)],
            #[trigger] data[p],
        )
}

/// A product of two sizes, if it fits in `usize`.
fn times(a: usize, b: usize) -> (r: Option<usize>)
    ensures
        match r {
            Some(n) => n == a * b,
            None => a * b > usize::MAX,
        },
{
    a.checked_mul(b)
}

/// A name with a suffix.
fn suffixed(prefix: &str, suffix: &str) -> (r: String)
    ensures
        r@ == prefix@ + suffix@,
{
    let mut r = prefix.to_owned();
    r.append(suffix);
    r
}

impl<'a> SafeTensors<'a> {
    /// The bytes of a tensor of `width` bytes per element.
    fn stored_bytes(&self, name: &str, shape: &Vec<usize>, width: usize) -> (r: Result<
        &'a [u8],
        LoadError,
    >)
        ensures
            match r {
                Ok(b) => stored(self@, name@, shape@, width as int) == Ok::<Seq<u8>, LoadFault>(b@),
                Err(e) => stored(self@, name@, shape@, width as int) == Err::<Seq<u8>, LoadFault>(
                    e@,
                ),
            },
    {
        let bytes = self.raw(name)?;
        let len: usize = bytes.len();
        let matching: bool = match element_count(shape) {
            Some(n) => match times(n, width) {
                Some(v) => v == len,
                None => false,
            },
            None => {
                proof {
                    let p: nat = product(shape@);
                    assert(width > 0 ==> p * width >= p) by (nonlinear_arith);
                    assert(width == 0 ==> p * width == 0) by (nonlinear_arith);
                }
                width == 0 && len == 0
            },
        };
        if !matching {
            return Err(LoadError::Length(name.to_owned()));
        }
        if !crate::shape::check_fits(shape) {
            return Err(LoadError::Shape);
        }
        Ok(bytes)
    }

    /// Reads a single-precision tensor.
    pub fn f32_tensor(&self, name: &str, shape: &Vec<usize>) -> (r: Result<Tensor, LoadError>)
        ensures
            match r {
                Ok(t) => t@.wf() && t@.shape == shape@ && (stored(
                    self@,
                    name@,
                    shape@,
                    4,
                ) matches Ok(b) && t@.data == singles_of(b)),
                Err(e) => stored(self@, name@, shape@, 4) == Err::<Seq<u8>, LoadFault>(e@),
            },
    {
        let bytes = self.stored_bytes(name, shape, 4)?;
        let len: usize = bytes.len();
        let n: usize = len / 4;
        let ghost want = singles_of(bytes@);
        let mut data: Vec<u32> = Vec::new();
        let mut i: usize = 0;
        while i < n
            invariant
                i <= n,
                len == bytes@.len(),
                n == len / 4,
                want == singles_of(bytes@),
                data@ == want.take(i as int),
            decreases n - i,
        {
            assert(4 * i + 4 <= bytes@.len());
            let v: u64 = read_le(bytes, 4 * i, 4);
            data.push(v as u32);
            i = i + 1;
            assert(want.take(i as int) =~= want.take(i - 1).push(want[i - 1]));
        }
        assert(want.take(i as int) =~= want);
        match Tensor::new(copied(shape), data) {
            Ok(t) => Ok(t),
            Err(_) => Err(LoadError::Shape),
        }
    }

    /// Reads a BF16 tensor and widens it to single precision.
    pub fn bf16_tensor(&self, name: &str, shape: &Vec<usize>) -> (r: Result<Tensor, LoadError>)
        ensures
            match r {
                Ok(t) => t@.wf() && t@.shape == shape@ && (stored(
                    self@,
                    name@,
                    shape@,
                    2,
                ) matches Ok(b) && t@.data == halves_of(b)),
                Err(e) => stored(self@, name@, shape@, 2) == Err::<Seq<u8>, LoadFault>(e@),
            },
    {
        let bytes = self.stored_bytes(name, shape, 2)?;
        let len: usize = bytes.len();
        let n: usize = len / 2;
        let ghost want = halves_of(bytes@);
        let mut data: Vec<u32> = Vec::new();
        let mut i: usize = 0;
        while i < n
            invariant
                i <= n,
                len == bytes@.len(),
                n == len / 2,
                want == halves_of(bytes@),
                data@ == want.take(i as int),
            decreases n - i,
        {
            assert(2 * i + 2 <= bytes@.len());
            let v: u64 = read_le(bytes, 2 * i, 2);
            data.push(bf16_decode(v as u16));
            i = i + 1;
            assert(want.take(i as int) =~= want.take(i - 1).push(want[i - 1]));
        }
        assert(want.take(i as int) =~= want);
        match Tensor::new(copied(shape), data) {
            Ok(t) => Ok(t),
            Err(_) => Err(LoadError::Shape),
        }
    }

    /// Reads a tensor that is not quantised by the type that its entry declares.
    pub fn auto_tensor(&self, name: &str, shape: &Vec<usize>) -> (r: Result<Tensor, LoadError>)
        ensures
            match r {
                Ok(t) => t@.wf() && t@.shape == shape@ && plain_data(self@, name@, shape@) == Ok::<
                    Seq<u32>,
                    LoadFault,
                >(t@.data),
                Err(e) => plain_data(self@, name@, shape@) == Err::<Seq<u32>, LoadFault>(e@),
            },
    {
        match self.info(name) {
            None => Err(LoadError::NotFound(name.to_owned())),
            Some(info) => {
                if info.dtype == "F32".to_owned() {
                    self.f32_tensor(name, shape)
                } else if info.dtype == "BF16".to_owned() {
                    self.bf16_tensor(name, shape)
                } else {
                    Err(LoadError::Dtype(name.to_owned()))
                }
            },
        }
    }

    /// The bytes of weight and scales of a quantised projection.
    fn quantized_parts(
        &self,
        prefix: &str,
        want_weight: Option<usize>,
        want_scale: Option<usize>,
        Ghost(weights): Ghost<int>,
        Ghost(scales): Ghost<int>,
    ) -> (r: Result<(&'a [u8], &'a [u8]), LoadError>)
        requires
            match want_weight {
                Some(n) => n == weights,
                None => weights > usize::MAX,
            },
            match want_scale {
                Some(n) => n == scales,
                None => scales > usize::MAX,
            },
        ensures
            match r {
                Ok(p) => quantized(self@, prefix@, weights, scales) == Ok::<
                    (Seq<u8>, Seq<u8>),
                    LoadFault,
                >((p.0@, p.1@)),
                Err(e) => quantized(self@, prefix@, weights, scales) == Err::<
                    (Seq<u8>, Seq<u8>),
                    LoadFault,
                >(e@),
            },
    {
        let weight = self.raw(suffixed(prefix, ".weight").as_str())?;
        let scale = self.raw(suffixed(prefix, ".scale").as_str())?;
        let (nw, ns): (usize, usize) = (weight.len(), scale.len());
        match (want_weight, want_scale) {
            (Some(a), Some(b)) => {
                if nw != a || ns != b {
                    return Err(LoadError::Length(prefix.to_owned()));
                }
                Ok((weight, scale))
            },
            _ => Err(LoadError::Length(prefix.to_owned())),
        }
    }

    /// Decodes an FP8 projection `[rows, cols]`, stored as `{prefix}.weight` and `{prefix}.scale`.
    pub fn fp8_tensor(&self, prefix: &str, rows: usize, cols: usize, block: usize) -> (r: Result<
        Tensor,
        LoadError,
    >)
        requires
            block > 0,
        ensures
            match r {
                Ok(t) => t@.wf() && t@.shape == shape2(rows, cols) && (fp8_parts(
                    self@,
                    prefix@,
                    rows as int,
                    cols as int,
                    block as int,
                ) matches Ok(p) && fp8_decoded(p.0, p.1, cols as int, block as int, t@.data)),
                Err(e) => fp8_parts(
                    self@,
                    prefix@,
                    rows as int,
                    cols as int,
                    block as int,
                ) == Err::<(Seq<u8>, Seq<u8>), LoadFault>(e@),
            },
    {
        let (down, across): (usize, usize) = (
            count_blocks(rows, block),
            count_blocks(cols, block),
        );
        let (weight, scale) = self.quantized_parts(
            prefix,
            times(rows, cols),
            times(down, across),
            Ghost(rows * cols),
            Ghost(blocks(rows as int, block as int) * blocks(cols as int, block as int)),
        )?;
        match fp8_weight_dequant(weight, scale, rows, cols, block) {
            Ok(t) => {
                proof {
                    lemma_grid(rows, cols);
                }
                Ok(t)
            },
            Err(_) => Err(LoadError::Shape),
        }
    }

    /// Decodes an FP4 projection `[rows, cols]`, stored packed as `{prefix}.weight` with
    /// `{prefix}.scale`.
    pub fn fp4_tensor(&self, prefix: &str, rows: usize, cols: usize, block: usize) -> (r: Result<
        Tensor,
        LoadError,
    >)
        requires
            block > 0,
            fp4_parts(self@, prefix@, rows as int, cols as int, block as int) matches Ok(p) ==> fp4_covered(
                p.0.len() as int,
                p.1.len() as int,
                rows as int,
                cols as int,
                block as int,
            ),
        ensures
            match r {
                Ok(t) => t@.wf() && t@.shape == shape2(rows, cols) && (fp4_parts(
                    self@,
                    prefix@,
                    rows as int,
                    cols as int,
                    block as int,
                ) matches Ok(p) && fp4_decoded(p.0, p.1, cols as int, block as int, t@.data)),
                Err(e) => match fp4_parts(
                    self@,
                    prefix@,
                    rows as int,
                    cols as int,
                    block as int,
                ) {
                    Ok(_) => !fits(shape2(rows, cols)) && e@ == LoadFault::Shape,
                    Err(f) => e@ == f,
                },
            },
    {
        let (packed, ghost_packed) = half_product(rows, cols);
        let (weight, scale) = self.quantized_parts(
            prefix,
            packed,
            times(rows, cols / block),
            ghost_packed,
            Ghost(rows * (cols as int / block as int)),
        )?;
        match fp4_weight_dequant(weight, scale, rows, cols, block) {
            Ok(t) => {
                proof {
                    lemma_grid(rows, cols);
                }
                Ok(t)
            },
            Err(_) => Err(LoadError::Shape),
        }
    }

    /// Loads a projection `[rows, cols]` however it is stored: with scales beside it, it is quantised
    /// (FP4 if `fp4`, else FP8); without, its weight is read by its declared type.
    pub fn linear(&self, prefix: &str, rows: usize, cols: usize, fp4: bool) -> (r: Result<
        Tensor,
        LoadError,
    >)
        requires
            fp4 && self@.find(scale_name(prefix@)) is Some ==> (fp4_parts(
                self@,
                prefix@,
                rows as int,
                cols as int,
                FP4_BLOCK as int,
            ) matches Ok(p) ==> fp4_covered(
                p.0.len() as int,
                p.1.len() as int,
                rows as int,
                cols as int,
                FP4_BLOCK as int,
            )),
        ensures
            r matches Ok(t) ==> t@.wf() && t@.shape == shape2(rows, cols),
            self@.find(scale_name(prefix@)) is Some && fp4 ==> match r {
                Ok(t) => fp4_parts(
                    self@,
                    prefix@,
                    rows as int,
                    cols as int,
                    FP4_BLOCK as int,
                ) matches Ok(p) && fp4_decoded(
                    p.0,
                    p.1,
                    cols as int,
                    FP4_BLOCK as int,
                    t@.data,
                ),
                Err(e) => match fp4_parts(
                    self@,
                    prefix@,
                    rows as int,
                    cols as int,
                    FP4_BLOCK as int,
                ) {
                    Ok(_) => !fits(shape2(rows, cols)) && e@ == LoadFault::Shape,
                    Err(f) => e@ == f,
                },
            },
            self@.find(scale_name(prefix@)) is Some && !fp4 ==> match r {
                Ok(t) => fp8_parts(
                    self@,
                    prefix@,
                    rows as int,
                    cols as int,
                    FP8_BLOCK as int,
                ) matches Ok(p) && fp8_decoded(
                    p.0,
                    p.1,
                    cols as int,
                    FP8_BLOCK as int,
                    t@.data,
                ),
                Err(e) => fp8_parts(
                    self@,
                    prefix@,
                    rows as int,
                    cols as int,
                    FP8_BLOCK as int,
                ) == Err::<(Seq<u8>, Seq<u8>), LoadFault>(e@),
            },
            self@.find(scale_name(prefix@)) is None ==> match r {
                Ok(t) => plain_data(self@, weight_name(prefix@), shape2(rows, cols)) == Ok::<
                    Seq<u32>,
                    LoadFault,
                >(t@.data),
                Err(e) => plain_data(self@, weight_name(prefix@), shape2(rows, cols)) == Err::<
                    Seq<u32>,
                    LoadFault,
                >(e@),
            },
    {
        match self.info(suffixed(prefix, ".scale").as_str()) {
            Some(_) => {
                if fp4 {
                    self.fp4_tensor(prefix, rows, cols, FP4_BLOCK)
                } else {
                    self.fp8_tensor(prefix, rows, cols, FP8_BLOCK)
                }
            },
            None => {
                let shape = crate::shape::axes2(rows, cols);
                self.auto_tensor(suffixed(prefix, ".weight").as_str(), &shape)
            },
        }
    }
}

/// Half of a product of two sizes, if it fits in `usize`.
fn half_product(rows: usize, cols: usize) -> (r: (Option<usize>, Ghost<int>))
    ensures
        r.1@ == rows * cols / 2,
        match r.0 {
            Some(n) => n == r.1@,
            None => r.1@ > usize::MAX,
        },
{
    let wide: u128 = {
        proof {
            assert(rows * cols <= u64::MAX * u64::MAX) by (nonlinear_arith)
                requires
                    0 <= rows <= u64::MAX,
                    0 <= cols <= u64::MAX,
            ;
            assert(rows * cols >= 0) by (nonlinear_arith);
        }
        rows as u128 * cols as u128
    };
    let half: u128 = wide / 2;
    let n: Option<usize> = if half <= usize::MAX as u128 {
        Some(half as usize)
    } else {
        None
    };
    (n, Ghost(rows * cols / 2))
}

// --- what is written is read ----------------------------------------------------------------

/// `n` as `k` little-endian bytes.
pub open spec fn le_bytes(n: nat, k: nat) -> Seq<u8>
    decreases k,
{
    if k == 0 {
        Seq::empty()
    } else {
        seq![(n % 256) as u8] + le_bytes(n / 256, (k - 1) as nat)
    }
}

proof fn lemma_le_bytes(n: nat, k: nat)
    requires
        n < place_value(k),
    ensures
        le_bytes(n, k).len() == k,
        le_value(le_bytes(n, k)) == n,
    decreases k,
{
    if k > 0 {
        let rest = le_bytes(n / 256, (k - 1) as nat);
        lemma_le_bytes(n / 256, (k - 1) as nat);
        assert(le_bytes(n, k).skip(1) =~= rest);
    }
}

/// A file: the length of the header, the header, the data.
pub open spec fn framed(header: Seq<u8>, blob: Seq<u8>) -> Seq<u8> {
    le_bytes(header.len(), 8) + header + blob
}

/// The header of a file is read as the JSON document that was written there.
pub proof fn law_framed_header(header: Seq<u8>, blob: Seq<u8>)
    requires
        header.len() <= u64::MAX,
    ensures
        framed(header, blob).len() == 8 + header.len() + blob.len(),
        header_of(framed(header, blob)) == (match parsed(header) {
            None => Err(HeaderFault::NotJson),
            Some(Json::Object(entries)) => collect(
                entries,
                8 + header.len() as int,
                8 + header.len() + blob.len() as int,
            ),
            Some(_) => Err(HeaderFault::NotObject),
        }),
{
    let file = framed(header, blob);
    let start = 8 + header.len() as int;
    assert(place_value(8) == 0x1_0000_0000_0000_0000) by {
        reveal_with_fuel(place_value, 9);
    }
    lemma_le_bytes(header.len(), 8);
    assert(file.take(8) =~= le_bytes(header.len(), 8));
    assert(file.subrange(8, start) =~= header);
}

/// A header entry that is not metadata is among the tensors, at its place.
proof fn lemma_collect_lists(entries: Seq<(Seq<char>, Json)>, start: int, len: int, i: int)
    requires
        collect(entries, start, len) is Ok,
        0 <= i < entries.len(),
        entries[i].0 != "__metadata__"@,
    ensures
        place(raw_of(entries[i].1), start, len) is Ok,
        collect(entries, start, len)->Ok_0.contains(
            (entries[i].0, place(raw_of(entries[i].1), start, len).unwrap()),
        ),
    decreases entries.len(),
{
    let rest = entries.drop_last();
    let all = collect(entries, start, len)->Ok_0;
    let before = collect(rest, start, len)->Ok_0;
    if i < rest.len() {
        lemma_collect_lists(rest, start, len, i);
        let entry = (entries[i].0, place(raw_of(entries[i].1), start, len).unwrap());
        assert(rest[i] == entries[i]);
        let j = choose|j: int| 0 <= j < before.len() && before[j] == entry;
        assert(all[j] == entry);
    } else {
        assert(all.last() == (entries[i].0, place(raw_of(entries[i].1), start, len).unwrap()));
        assert(all[all.len() - 1] == all.last());
    }
}

/// A tensor that was written is found under its name, with its type, its shape and its bytes.
pub proof fn law_written_tensor_is_found(
    header: Seq<u8>,
    blob: Seq<u8>,
    entries: Seq<(Seq<char>, Json)>,
    tensors: Seq<(Seq<char>, InfoView)>,
    i: int,
    a: u64,
    b: u64,
)
    requires
        header.len() <= u64::MAX,
        parsed(header) == Some(Json::Object(entries)),
        header_of(framed(header, blob)) == Ok::<Seq<(Seq<char>, InfoView)>, HeaderFault>(tensors),
        names_distinct(tensors),
        0 <= i < entries.len(),
        entries[i].0 != "__metadata__"@,
        raw_of(entries[i].1).offsets == Some(seq![Some(a), Some(b)]),
    ensures
        a <= b <= blob.len(),
        ({
            let file = FileView { bytes: framed(header, blob), tensors };
            let raw = raw_of(entries[i].1);
            &&& file.find(entries[i].0) matches Some(info) && raw.dtype == Some(info.dtype)
                && info.shape == raw.shape.unwrap().map_values(
                |d: Option<u64>| d.unwrap() as usize,
            )
            &&& file.raw(entries[i].0) == Some(blob.subrange(a as int, b as int))
        }),
{
    law_framed_header(header, blob);
    let start = 8 + header.len() as int;
    let len = 8 + header.len() + blob.len() as int;
    lemma_collect_lists(entries, start, len, i);
    let info = place(raw_of(entries[i].1), start, len).unwrap();
    let j = choose|j: int| 0 <= j < tensors.len() && tensors[j] == (entries[i].0, info);
    assert(tensors[j].0 == entries[i].0);
    let file = FileView { bytes: framed(header, blob), tensors };
    let name = entries[i].0;
    let k = choose|k: int|
        0 <= k < file.tensors.len() && (#[trigger] file.tensors[k]).0 == name;
    assert(file.tensors[j].0 == name);
    assert(k == j);
    assert(info.begin == start + a && info.end == start + b);
    assert(le_bytes(header.len(), 8).len() == 8);
    assert(file.find(name) == Some(info));
    assert(info.shape =~= raw_of(entries[i].1).shape.unwrap().map_values(
        |d: Option<u64>| d.unwrap() as usize,
    ));
    assert(file.bytes.subrange(info.begin, info.end) =~= blob.subrange(a as int, b as int));
}

/// The bytes of single-precision patterns.
pub open spec fn single_bytes(values: Seq<u32>) -> Seq<u8> {
    Seq::new(4 * values.len(), |i: int| le_bytes(values[i / 4] as nat, 4)[i % 4])
}

/// The bytes of half-width patterns.
pub open spec fn half_bytes(values: Seq<u16>) -> Seq<u8> {
    Seq::new(2 * values.len(), |i: int| le_bytes(values[i / 2] as nat, 2)[i % 2])
}

/// Single-precision values that were written are read back, pattern by pattern.
pub proof fn law_written_singles_are_read(
    f: FileView,
    name: Seq<char>,
    shape: Seq<usize>,
    values: Seq<u32>,
)
    requires
        f.find(name) matches Some(info) && info.dtype == "F32"@,
        f.raw(name) == Some(single_bytes(values)),
        product(shape) == values.len(),
        fits(shape),
    ensures
        plain_data(f, name, shape) == Ok::<Seq<u32>, LoadFault>(values),
{
    let b = single_bytes(values);
    reveal_with_fuel(place_value, 5);
    assert forall|i: int| 0 <= i < values.len() implies singles_of(b)[i] == values[i] by {
        let v = values[i] as nat;
        lemma_le_bytes(v, 4);
        assert(b.subrange(4 * i, 4 * i + 4) =~= le_bytes(v, 4));
    }
    assert(singles_of(b) =~= values);
}

/// Half-width values that were written are read back as the singles whose upper halves they are.
pub proof fn law_written_halves_are_read(
    f: FileView,
    name: Seq<char>,
    shape: Seq<usize>,
    values: Seq<u16>,
)
    requires
        f.find(name) matches Some(info) && info.dtype == "BF16"@,
        f.raw(name) == Some(half_bytes(values)),
        product(shape) == values.len(),
        fits(shape),
    ensures
        plain_data(f, name, shape) == Ok::<Seq<u32>, LoadFault>(
            values.map_values(|h: u16| (h * 0x1_0000) as u32),
        ),
{
    let b = half_bytes(values);
    let want = values.map_values(|h: u16| (h * 0x1_0000) as u32);
    reveal_strlit("F32");
    reveal_strlit("BF16");
    assert("F32"@.len() != "BF16"@.len());
    reveal_with_fuel(place_value, 3);
    assert forall|i: int| 0 <= i < values.len() implies halves_of(b)[i] == want[i] by {
        let v = values[i] as nat;
        lemma_le_bytes(v, 2);
        assert(b.subrange(2 * i, 2 * i + 2) =~= le_bytes(v, 2));
    }
    assert(halves_of(b) =~= want);
}

/// A quantised projection is the bytes under `{prefix}.weight` and `{prefix}.scale`: for FP8 one byte per
/// element and one scale per tile of the grid `[⌈rows / block⌉, ⌈cols / block⌉]`.
pub proof fn law_fp8_parts(
    f: FileView,
    prefix: Seq<char>,
    rows: int,
    cols: int,
    block: int,
    w: Seq<u8>,
    s: Seq<u8>,
)
    ensures
        fp8_parts(f, prefix, rows, cols, block) == Ok::<(Seq<u8>, Seq<u8>), LoadFault>((w, s)) <==> {
            &&& f.raw(prefix + ".weight"@) == Some(w)
            &&& f.raw(prefix + ".scale"@) == Some(s)
            &&& w.len() == rows * cols
            &&& s.len() == ((rows + block - 1) / block) * ((cols + block - 1) / block)
        },
{
}

/// The same for FP4: two elements per byte, and one scale per `block` elements of a row.
pub proof fn law_fp4_parts(
    f: FileView,
    prefix: Seq<char>,
    rows: int,
    cols: int,
    block: int,
    w: Seq<u8>,
    s: Seq<u8>,
)
    ensures
        fp4_parts(f, prefix, rows, cols, block) == Ok::<(Seq<u8>, Seq<u8>), LoadFault>((w, s)) <==> {
            &&& f.raw(prefix + ".weight"@) == Some(w)
            &&& f.raw(prefix + ".scale"@) == Some(s)
            &&& w.len() == rows * cols / 2
            &&& s.len() == rows * (cols / block)
        },
{
}

/// Element `(i, j)` of a decoded FP8 projection: its own byte times the scale of tile
/// `(i / block, j / block)`.
pub proof fn law_fp8_element(
    w: Seq<u8>,
    s: Seq<u8>,
    rows: int,
    cols: int,
    block: int,
    data: Seq<u32>,
    i: int,
    j: int,
)
    requires
        fp8_decoded(w, s, cols, block, data),
        data.len() == rows * cols,
        block > 0,
        0 <= i < rows,
        0 <= j < cols,
    ensures
        fp8_value(
            w[i * cols + j],
            s[(i / block) * ((cols + block - 1) / block) + j / block],
            data[i * cols + j],
        ),
{
    crate::shape::lemma_flat(i, j, rows, cols);
    crate::quant::law_scale_of_an_element(i, j, cols, block);
    let v = data[i * cols + j];
}

/// Element `(i, j)` of a decoded FP4 projection: the low or the high half of its byte, for an even or an
/// odd `j`, times the scale of its block in row `i`.
pub proof fn law_fp4_element(
    w: Seq<u8>,
    s: Seq<u8>,
    rows: int,
    cols: int,
    block: int,
    data: Seq<u32>,
    i: int,
    j: int,
)
    requires
        fp4_decoded(w, s, cols, block, data),
        data.len() == rows * cols,
        block > 0,
        0 <= i < rows,
        0 <= j < cols,
    ensures
        ({
            let byte = w[i * (cols / 2) + j / 2];
            fp4_value(
                if j % 2 == 0 {
                    byte & 0x0F
                } else {
                    byte >> 4
                },
                s[i * (cols / block) + j / block],
                data[i * cols + j],
            )
        }),
{
    let byte = w[i * (cols / 2) + j / 2];
    crate::shape::lemma_flat(i, j, rows, cols);
    crate::quant::law_nibbles_of_a_row(i, j, cols, block, byte);
    vstd::arithmetic::div_mod::lemma_fundamental_div_mod_converse(i * cols + j, cols, i, j);
    let v = data[i * cols + j];
}

/// A plain tensor is read by the type that its entry declares: four bytes an element, or the high half
/// of one in two bytes. Any other type is refused.
pub proof fn law_plain_types(f: FileView, name: Seq<char>, shape: Seq<usize>, info: InfoView)
    requires
        f.find(name) == Some(info),
    ensures
        plain_data(f, name, shape) is Ok <==> {
            &&& fits(shape)
            &&& (info.dtype == "F32"@ && f.bytes.subrange(info.begin, info.end).len() == 4 * product(shape))
                || (info.dtype == "BF16"@ && f.bytes.subrange(info.begin, info.end).len() == 2 * product(
                shape,
            ))
        },
        info.dtype != "F32"@ && info.dtype != "BF16"@ ==> plain_data(f, name, shape) == Err::<
            Seq<u32>,
            LoadFault,
        >(LoadFault::Dtype(name)),
        plain_data(f, name, shape) matches Ok(d) ==> d.len() == product(shape),
{
    reveal_strlit("F32");
    reveal_strlit("BF16");
    assert("F32"@.len() == 3 && "BF16"@.len() == 4);
}

} // verus!
