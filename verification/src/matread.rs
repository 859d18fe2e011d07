//! Reader for the monthly MAT v7 files of the mapping.
//!
//! A file is a 128-byte text header and one data element: a matrix, mostly zlib-compressed. The
//! matrix holds flags, extents, a name and one array of doubles or singles in column-major order.

use ndarray::{Array2, Array3, ShapeBuilder};
use vstd::prelude::*;

use crate::bytes::{
    encoded, law_doubles_read_back, law_singles_read_back, le32, le64, lossy_text, part, read_le32, read_le64, utf8_lossy,
};
use crate::codec::{inflate, zlib_inflated};
use crate::double::{widen, widened};
use crate::grid::{cell_count, count_cells, place, place3, Grid2, Grid3};

verus! {

/// Element type of 32-bit signed integers.
pub const MI_INT32: u32 = 5;

/// Element type of singles.
pub const MI_SINGLE: u32 = 7;

/// Element type of doubles.
pub const MI_DOUBLE: u32 = 9;

/// Element type of a matrix.
pub const MI_MATRIX: u32 = 14;

/// Element type of a zlib-compressed element.
pub const MI_COMPRESSED: u32 = 15;

/// Length of the text header.
pub const HEADER_LEN: usize = 128;

/// Why a file could not be read.
#[derive(Debug, Clone, Copy, PartialEq, Eq)]
pub enum MatError {
    /// The file is shorter than the text header, or the header does not begin with `MATLAB`.
    NotMat,
    /// An element's tag goes past the end of the buffer.
    HeaderPastEnd,
    /// An element's payload goes past the end of the buffer.
    PayloadPastEnd,
    /// The inline payload of a small element goes past the end of the buffer.
    SmallPastEnd,
    /// The compressed element does not inflate.
    Inflate,
    /// The first element is neither a matrix nor compressed.
    FirstElement { dtype: u32 },
    /// The compressed element holds something else than a matrix.
    NotMatrix { dtype: u32 },
    /// The extents are not 32-bit integers.
    DimsType { dtype: u32 },
    /// The extents end inside a number.
    DimsCut,
    /// The array holds neither doubles nor singles.
    DataType { dtype: u32 },
    /// The array's length is not the product of its extents.
    DataLength,
    /// The array has not as many extents as it should.
    Rank { ndim: usize },
    /// The extents cannot be those of an array.
    Shape,
}

/// An element's type and payload, and where the next element begins.
pub struct ElementModel {
    pub dtype: u32,
    pub payload: Seq<u8>,
    pub next: int,
}

/// The element at a place of a buffer. A type word whose upper half is not zero marks a small
/// element: the upper half is the payload's length and the payload stands inline. Other payloads
/// follow the eight tag bytes and are padded to a multiple of eight, also where the buffer ends
/// before the padding does.
pub open spec fn element(s: Seq<u8>, off: int) -> Result<ElementModel, MatError> {
    if off + 8 > s.len() {
        Err(MatError::HeaderPastEnd)
    } else {
        let word = le32(s, off);
        let small = (word / 0x1_0000) as int;
        if small != 0 {
            if off + 4 + small > s.len() {
                Err(MatError::SmallPastEnd)
            } else {
                Ok(
                    ElementModel {
                        dtype: (word % 0x1_0000) as u32,
                        payload: s.subrange(off + 4, off + 4 + small),
                        next: off + 8,
                    },
                )
            }
        } else {
            let n = le32(s, off + 4) as int;
            if off + 8 + n > s.len() {
                Err(MatError::PayloadPastEnd)
            } else {
                Ok(
                    ElementModel {
                        dtype: word,
                        payload: s.subrange(off + 8, off + 8 + n),
                        next: off + 8 + (n + 7) / 8 * 8,
                    },
                )
            }
        }
    }
}

/// A data element, and where the next one begins. That place may lie past the end of the buffer, and
/// is wide enough for every length that a buffer can have.
pub struct Element<'a> {
    pub dtype: u32,
    pub payload: &'a [u8],
    pub next: u128,
}

impl<'a> Element<'a> {
    /// What the element holds.
    pub open spec fn model(&self) -> ElementModel {
        ElementModel { dtype: self.dtype, payload: self.payload@, next: self.next as int }
    }
}

/// Reads the element at `off`.
pub fn read_element<'a>(buf: &'a [u8], off: usize) -> (r: Result<Element<'a>, MatError>)
    ensures
        match r {
            Ok(e) => element(buf@, off as int) == Ok::<ElementModel, MatError>(e.model()),
            Err(x) => element(buf@, off as int) == Err::<ElementModel, MatError>(x),
        },
{
    if off > buf.len() || buf.len() - off < 8 {
        return Err(MatError::HeaderPastEnd);
    }
    let word: u32 = read_le32(buf, off);
    let small: usize = (word / 0x1_0000) as usize;
    if small != 0 {
        let start: usize = off + 4;
        if small > buf.len() - start {
            return Err(MatError::SmallPastEnd);
        }
        Ok(Element { dtype: word % 0x1_0000, payload: part(buf, start, start + small), next: off as u128 + 8 })
    } else {
        let n: usize = read_le32(buf, off + 4) as usize;
        let start: usize = off + 8;
        if n > buf.len() - start {
            return Err(MatError::PayloadPastEnd);
        }
        let end: usize = start + n;
        let pad: usize = (8 - n % 8) % 8;
        Ok(Element { dtype: word, payload: part(buf, start, end), next: end as u128 + pad as u128 })
    }
}

/// Reads the element behind another one.
fn read_next<'a>(buf: &'a [u8], next: u128) -> (r: Result<Element<'a>, MatError>)
    ensures
        match r {
            Ok(e) => element(buf@, next as int) == Ok::<ElementModel, MatError>(e.model()),
            Err(x) => element(buf@, next as int) == Err::<ElementModel, MatError>(x),
        },
{
    if next > buf.len() as u128 {
        return Err(MatError::HeaderPastEnd);
    }
    read_element(buf, next as usize)
}

/// The doubles that a numeric payload holds.
pub open spec fn payload_values(dtype: u32, p: Seq<u8>) -> Result<Seq<u64>, MatError> {
    if dtype == MI_DOUBLE {
        Ok(Seq::new(p.len() / 8, |k: int| le64(p, 8 * k)))
    } else if dtype == MI_SINGLE {
        Ok(Seq::new(p.len() / 4, |k: int| widened(le32(p, 4 * k))))
    } else {
        Err(MatError::DataType { dtype })
    }
}

/// Decodes a numeric payload into doubles.
pub fn payload_to_f64(dtype: u32, payload: &[u8]) -> (r: Result<Vec<u64>, MatError>)
    ensures
        match r {
            Ok(v) => payload_values(dtype, payload@) == Ok::<Seq<u64>, MatError>(v@),
            Err(x) => payload_values(dtype, payload@) == Err::<Seq<u64>, MatError>(x),
        },
{
    let mut v: Vec<u64> = Vec::new();
    if dtype == MI_DOUBLE {
        let n: usize = payload.len() / 8;
        let mut k: usize = 0;
        while k < n
            invariant
                k <= n,
                n == payload.len() / 8,
                v.len() == k,
                forall|m: int| 0 <= m < k ==> #[trigger] v@[m] == le64(payload@, 8 * m),
            decreases n - k,
        {
            v.push(read_le64(payload, 8 * k));
            k = k + 1;
        }
        assert(v@ =~= Seq::new((payload@.len() / 8) as nat, |k: int| le64(payload@, 8 * k)));
        Ok(v)
    } else if dtype == MI_SINGLE {
        let n: usize = payload.len() / 4;
        let mut k: usize = 0;
        while k < n
            invariant
                k <= n,
                n == payload.len() / 4,
                v.len() == k,
                forall|m: int| 0 <= m < k ==> #[trigger] v@[m] == widened(le32(payload@, 4 * m)),
            decreases n - k,
        {
            v.push(widen(read_le32(payload, 4 * k)));
            k = k + 1;
        }
        assert(v@ =~= Seq::new((payload@.len() / 4) as nat, |k: int| widened(le32(payload@, 4 * k))));
        Ok(v)
    } else {
        Err(MatError::DataType { dtype })
    }
}

/// The extent that four bytes of a 32-bit signed integer give; a negative one wraps round.
pub open spec fn extent(word: u32) -> usize {
    if word < 0x8000_0000 {
        word as usize
    } else {
        (usize::MAX - (0xffff_ffff - word)) as usize
    }
}

/// The extents that a payload holds.
pub open spec fn extents(p: Seq<u8>) -> Seq<usize> {
    Seq::new(p.len() / 4, |k: int| extent(le32(p, 4 * k)))
}

/// A named array: its extents and its values, the first index running fastest.
#[verifier::ext_equal]
pub struct MatModel {
    pub name: Seq<char>,
    pub dims: Seq<usize>,
    pub data: Seq<u64>,
}

/// The array that the body of a matrix element holds: flags, extents, name and values.
pub open spec fn matrix(body: Seq<u8>) -> Result<MatModel, MatError> {
    match element(body, 0) {
        Err(x) => Err(x),
        Ok(flags) => match element(body, flags.next) {
            Err(x) => Err(x),
            Ok(dims) => if dims.dtype != MI_INT32 {
                Err(MatError::DimsType { dtype: dims.dtype })
            } else if dims.payload.len() % 4 != 0 {
                Err(MatError::DimsCut)
            } else {
                match element(body, dims.next) {
                    Err(x) => Err(x),
                    Ok(name) => match element(body, name.next) {
                        Err(x) => Err(x),
                        Ok(data) => array_of(extents(dims.payload), name.payload, data.dtype, data.payload),
                    },
                }
            },
        },
    }
}

/// The array with the given extents, name bytes and numeric payload.
pub open spec fn array_of(dims: Seq<usize>, name: Seq<u8>, dtype: u32, payload: Seq<u8>) -> Result<MatModel, MatError> {
    match payload_values(dtype, payload) {
        Err(x) => Err(x),
        Ok(data) => if data.len() != cell_count(dims) {
            Err(MatError::DataLength)
        } else {
            Ok(MatModel { name: utf8_lossy(name), dims, data })
        },
    }
}

/// A parsed array: extents as stored, and the values, the first index running fastest.
#[derive(Debug, Clone)]
pub struct MatArray {
    pub name: String,
    pub dims: Vec<usize>,
    /// As many as the product of the extents.
    pub data: Vec<u64>,
}

impl View for MatArray {
    type V = MatModel;

    open spec fn view(&self) -> MatModel {
        MatModel { name: self.name@, dims: self.dims@, data: self.data@ }
    }
}

/// Reads the extents of an array.
fn read_extents(payload: &[u8]) -> (r: Vec<usize>)
    ensures
        r@ == extents(payload@),
{
    let n: usize = payload.len() / 4;
    let mut v: Vec<usize> = Vec::new();
    let mut k: usize = 0;
    while k < n
        invariant
            k <= n,
            n == payload.len() / 4,
            v.len() == k,
            forall|m: int| 0 <= m < k ==> #[trigger] v@[m] == extent(le32(payload@, 4 * m)),
        decreases n - k,
    {
        let word: u32 = read_le32(payload, 4 * k);
        if word < 0x8000_0000 {
            v.push(word as usize);
        } else {
            v.push(usize::MAX - (0xffff_ffff - word) as usize);
        }
        k = k + 1;
    }
    assert(v@ =~= extents(payload@));
    v
}

/// Puts an array together from its extents, name and numeric payload.
fn assemble(dims: Vec<usize>, name: &[u8], dtype: u32, payload: &[u8]) -> (r: Result<MatArray, MatError>)
    ensures
        match r {
            Ok(m) => array_of(dims@, name@, dtype, payload@) == Ok::<MatModel, MatError>(m@),
            Err(x) => array_of(dims@, name@, dtype, payload@) == Err::<MatModel, MatError>(x),
        },
{
    let data = match payload_to_f64(dtype, payload) {
        Err(x) => {
            return Err(x);
        },
        Ok(v) => v,
    };
    let len: usize = data.len();
    match count_cells(&dims) {
        Some(n) => {
            if n != len {
                return Err(MatError::DataLength);
            }
        },
        None => {
            return Err(MatError::DataLength);
        },
    }
    Ok(MatArray { name: lossy_text(name), dims, data })
}

/// Parses the body of a matrix element.
pub fn parse_matrix(body: &[u8]) -> (r: Result<MatArray, MatError>)
    ensures
        match r {
            Ok(m) => matrix(body@) == Ok::<MatModel, MatError>(m@),
            Err(x) => matrix(body@) == Err::<MatModel, MatError>(x),
        },
{
    let flags = match read_element(body, 0) {
        Err(x) => {
            return Err(x);
        },
        Ok(e) => e,
    };
    let dims = match read_next(body, flags.next) {
        Err(x) => {
            return Err(x);
        },
        Ok(e) => e,
    };
    if dims.dtype != MI_INT32 {
        return Err(MatError::DimsType { dtype: dims.dtype });
    }
    if dims.payload.len() % 4 != 0 {
        return Err(MatError::DimsCut);
    }
    let name = match read_next(body, dims.next) {
        Err(x) => {
            return Err(x);
        },
        Ok(e) => e,
    };
    match read_next(body, name.next) {
        Err(x) => Err(x),
        Ok(data) => assemble(read_extents(dims.payload), name.payload, data.dtype, data.payload),
    }
}

/// The array in an inflated element, which has to be a matrix.
pub open spec fn inflated_array(inflated: Seq<u8>) -> Result<MatModel, MatError> {
    match element(inflated, 0) {
        Err(x) => Err(x),
        Ok(m) => if m.dtype != MI_MATRIX {
            Err(MatError::NotMatrix { dtype: m.dtype })
        } else {
            matrix(m.payload)
        },
    }
}

/// The array in a file.
pub open spec fn file_array(raw: Seq<u8>) -> Result<MatModel, MatError> {
    if raw.len() < HEADER_LEN || !begins_mat(raw) {
        Err(MatError::NotMat)
    } else {
        match element(raw.skip(HEADER_LEN as int), 0) {
            Err(x) => Err(x),
            Ok(e) => if e.dtype == MI_COMPRESSED {
                match zlib_inflated(e.payload) {
                    None => Err(MatError::Inflate),
                    Some(bytes) => inflated_array(bytes),
                }
            } else if e.dtype == MI_MATRIX {
                matrix(e.payload)
            } else {
                Err(MatError::FirstElement { dtype: e.dtype })
            },
        }
    }
}

/// The bytes begin with `MATLAB`.
pub open spec fn begins_mat(raw: Seq<u8>) -> bool {
    raw.take(6) == seq![0x4du8, 0x41, 0x54, 0x4c, 0x41, 0x42]
}

/// Reads the array of an inflated element.
pub fn parse_inflated(inflated: &[u8]) -> (r: Result<MatArray, MatError>)
    ensures
        match r {
            Ok(m) => inflated_array(inflated@) == Ok::<MatModel, MatError>(m@),
            Err(x) => inflated_array(inflated@) == Err::<MatModel, MatError>(x),
        },
{
    match read_element(inflated, 0) {
        Err(x) => Err(x),
        Ok(m) => {
            if m.dtype != MI_MATRIX {
                Err(MatError::NotMatrix { dtype: m.dtype })
            } else {
                parse_matrix(m.payload)
            }
        },
    }
}

/// Whether a file begins as it should.
fn is_mat(raw: &[u8]) -> (r: bool)
    requires
        raw.len() >= 6,
    ensures
        r == begins_mat(raw@),
{
    let r = raw[0] == 0x4d && raw[1] == 0x41 && raw[2] == 0x54 && raw[3] == 0x4c && raw[4] == 0x41 && raw[5] == 0x42;
    proof {
        let want = seq![0x4du8, 0x41, 0x54, 0x4c, 0x41, 0x42];
        if r {
            assert(raw@.take(6) =~= want);
        } else if raw@.take(6) == want {
            assert forall|k: int| 0 <= k < 6 implies raw@[k] == want[k] by {
                assert(raw@[k] == raw@.take(6)[k]);
            }
        }
    }
    r
}

/// Reads the one array of a file.
pub fn read_fullfield(raw: &[u8]) -> (r: Result<MatArray, MatError>)
    ensures
        match r {
            Ok(m) => file_array(raw@) == Ok::<MatModel, MatError>(m@),
            Err(x) => file_array(raw@) == Err::<MatModel, MatError>(x),
        },
{
    if raw.len() < HEADER_LEN || !is_mat(raw) {
        return Err(MatError::NotMat);
    }
    let body = part(raw, HEADER_LEN, raw.len());
    assert(body@ =~= raw@.skip(HEADER_LEN as int));
    let e = match read_element(body, 0) {
        Err(x) => {
            return Err(x);
        },
        Ok(e) => e,
    };
    if e.dtype == MI_COMPRESSED {
        match inflate(e.payload) {
            Ok(bytes) => parse_inflated(bytes.as_slice()),
            Err(_) => Err(MatError::Inflate),
        }
    } else if e.dtype == MI_MATRIX {
        parse_matrix(e.payload)
    } else {
        Err(MatError::FirstElement { dtype: e.dtype })
    }
}

/// An error of `ndarray` about the shape of an array.
#[verifier::external_type_specification]
#[verifier::external_body]
pub struct ExShapeError(ndarray::ShapeError);

/// An extent as it counts towards the size limit of an array: an empty one does not.
pub open spec fn counted(n: usize) -> int {
    if n == 0 {
        1
    } else {
        n as int
    }
}

/// Values are as many as the extents say, and the extents are not too large.
pub open spec fn fits(data: Seq<u64>, n0: usize, n1: usize, n2: usize) -> bool {
    counted(n0) * counted(n1) * counted(n2) <= isize::MAX && n0 * n1 * n2 == data.len()
}

/// The value at `[i, j]` of an array with `n0` rows whose first index runs fastest.
pub open spec fn column_major(data: Seq<u64>, n0: int, i: int, j: int) -> u64 {
    data[i + n0 * j]
}

/// `cells` holds, with the last index running fastest, what `data` holds with the first index
/// running fastest.
pub open spec fn turned(cells: Seq<u64>, data: Seq<u64>, n0: int, n1: int) -> bool {
    &&& cells.len() == n0 * n1
    &&& forall|i: int, j: int|
        0 <= i < n0 && 0 <= j < n1 ==> cells[#[trigger] place(n1, i, j)] == column_major(data, n0, i, j)
}

/// The same with three indices.
pub open spec fn turned3(cells: Seq<u64>, data: Seq<u64>, n0: int, n1: int, n2: int) -> bool {
    &&& cells.len() == n0 * n1 * n2
    &&& forall|i: int, j: int, k: int|
        0 <= i < n0 && 0 <= j < n1 && 0 <= k < n2 ==> cells[#[trigger] place3(n1, n2, i, j, k)] == column_major(
            data,
            n0,
            i,
            j + n1 * k,
        )
}

/// `ndarray`'s `Array2::from_shape_vec` with a column-major shape, and then the array's cells in
/// the order of its `iter`, the last index running fastest. Refused are extents whose product,
/// empty ones left out, exceeds `isize::MAX`, and values that are not as many as the extents say.
#[verifier::external_body]
pub(crate) fn rows_of(data: Vec<u64>, n0: usize, n1: usize) -> (r: Result<Vec<u64>, ndarray::ShapeError>)
    ensures
        match r {
            Ok(cells) => fits(data@, n0, n1, 1) && turned(cells@, data@, n0 as int, n1 as int),
            Err(_) => !fits(data@, n0, n1, 1),
        },
{
    Array2::from_shape_vec((n0, n1).f(), data).map(|a| a.iter().copied().collect())
}

/// `ndarray`'s `Array3::from_shape_vec` with a column-major shape, and then the array's cells in
/// the order of its `iter`, the last index running fastest. Refused are extents whose product,
/// empty ones left out, exceeds `isize::MAX`, and values that are not as many as the extents say.
#[verifier::external_body]
pub(crate) fn blocks_of(data: Vec<u64>, n0: usize, n1: usize, n2: usize) -> (r: Result<Vec<u64>, ndarray::ShapeError>)
    ensures
        match r {
            Ok(cells) => fits(data@, n0, n1, n2) && turned3(cells@, data@, n0 as int, n1 as int, n2 as int),
            Err(_) => !fits(data@, n0, n1, n2),
        },
{
    Array3::from_shape_vec((n0, n1, n2).f(), data).map(|a| a.iter().copied().collect())
}

/// Why an array is no map, where it is none.
pub open spec fn map_fault(dims: Seq<usize>) -> Option<MatError> {
    if dims.len() != 2 {
        Some(MatError::Rank { ndim: dims.len() as usize })
    } else if counted(dims[0]) * counted(dims[1]) > isize::MAX {
        Some(MatError::Shape)
    } else {
        None
    }
}

/// Why an array is no block of maps, where it is none.
pub open spec fn block_fault(dims: Seq<usize>) -> Option<MatError> {
    if dims.len() != 3 {
        Some(MatError::Rank { ndim: dims.len() as usize })
    } else if counted(dims[0]) * counted(dims[1]) * counted(dims[2]) > isize::MAX {
        Some(MatError::Shape)
    } else {
        None
    }
}

/// The table is the array, indexed `[lon, lat]`.
pub open spec fn is_map_of(g: Grid2<u64>, m: MatModel) -> bool {
    &&& m.dims.len() == 2
    &&& g.shaped(m.dims[0] as int, m.dims[1] as int)
    &&& forall|i: int, j: int|
        0 <= i < m.dims[0] && 0 <= j < m.dims[1] ==> #[trigger] g.at(i, j) == column_major(m.data, m.dims[0] as int, i, j)
}

/// The block is the array, indexed `[lon, lat, member]`.
pub open spec fn is_block_of(g: Grid3<u64>, m: MatModel) -> bool {
    &&& m.dims.len() == 3
    &&& g.shaped(m.dims[0] as int, m.dims[1] as int, m.dims[2] as int)
    &&& forall|i: int, j: int, k: int|
        0 <= i < m.dims[0] && 0 <= j < m.dims[1] && 0 <= k < m.dims[2] ==> #[trigger] g.at(i, j, k) == column_major(
            m.data,
            m.dims[0] as int,
            i,
            j + m.dims[1] * k,
        )
}

/// Makes a table indexed `[lon, lat]` of an array of two extents.
pub fn map_of(m: MatArray) -> (r: Result<Grid2<u64>, MatError>)
    requires
        m.data.len() == cell_count(m.dims@),
    ensures
        match r {
            Ok(g) => map_fault(m.dims@) is None && is_map_of(g, m@),
            Err(x) => map_fault(m.dims@) == Some(x),
        },
{
    if m.dims.len() != 2 {
        return Err(MatError::Rank { ndim: m.dims.len() });
    }
    let (n0, n1) = (m.dims[0], m.dims[1]);
    proof {
        reveal_with_fuel(cell_count, 3);
    }
    match rows_of(m.data, n0, n1) {
        Ok(cells) => {
            let g = Grid2 { nrow: n0, ncol: n1, cells };
            proof {
                assert forall|i: int, j: int| 0 <= i < n0 && 0 <= j < n1 implies #[trigger] g.at(i, j) == column_major(
                    m.data@,
                    n0 as int,
                    i,
                    j,
                ) by {
                    assert(g.at(i, j) == cells@[place(n1 as int, i, j)]);
                }
            }
            Ok(g)
        },
        Err(_) => Err(MatError::Shape),
    }
}

/// Makes a block indexed `[lon, lat, member]` of an array of three extents.
pub fn block_of(m: MatArray) -> (r: Result<Grid3<u64>, MatError>)
    requires
        m.data.len() == cell_count(m.dims@),
    ensures
        match r {
            Ok(g) => block_fault(m.dims@) is None && is_block_of(g, m@),
            Err(x) => block_fault(m.dims@) == Some(x),
        },
{
    if m.dims.len() != 3 {
        return Err(MatError::Rank { ndim: m.dims.len() });
    }
    let (n0, n1, n2) = (m.dims[0], m.dims[1], m.dims[2]);
    proof {
        reveal_with_fuel(cell_count, 4);
    }
    match blocks_of(m.data, n0, n1, n2) {
        Ok(cells) => {
            let g = Grid3 { n0, n1, n2, cells };
            proof {
                assert forall|i: int, j: int, k: int|
                    0 <= i < n0 && 0 <= j < n1 && 0 <= k < n2 implies #[trigger] g.at(i, j, k) == column_major(
                    m.data@,
                    n0 as int,
                    i,
                    j + n1 * k,
                ) by {
                    assert(g.at(i, j, k) == cells@[place3(n1 as int, n2 as int, i, j, k)]);
                }
            }
            Ok(g)
        },
        Err(_) => Err(MatError::Shape),
    }
}

/// Reads a mean file into a table indexed `[lon, lat]`.
pub fn read_mean_grid(raw: &[u8]) -> (r: Result<Grid2<u64>, MatError>)
    ensures
        match file_array(raw@) {
            Err(x) => r == Err::<Grid2<u64>, MatError>(x),
            Ok(m) => match map_fault(m.dims) {
                Some(x) => r == Err::<Grid2<u64>, MatError>(x),
                None => r matches Ok(g) && is_map_of(g, m),
            },
        },
{
    match read_fullfield(raw) {
        Err(x) => Err(x),
        Ok(m) => {
            proof {
                lemma_file_length(raw@);
            }
            map_of(m)
        },
    }
}

/// Reads an ensemble file into a block indexed `[lon, lat, member]`.
pub fn read_ensemble(raw: &[u8]) -> (r: Result<Grid3<u64>, MatError>)
    ensures
        match file_array(raw@) {
            Err(x) => r == Err::<Grid3<u64>, MatError>(x),
            Ok(m) => match block_fault(m.dims) {
                Some(x) => r == Err::<Grid3<u64>, MatError>(x),
                None => r matches Ok(g) && is_block_of(g, m),
            },
        },
{
    match read_fullfield(raw) {
        Err(x) => Err(x),
        Ok(m) => {
            proof {
                lemma_file_length(raw@);
            }
            block_of(m)
        },
    }
}

/// An array read from a file has as many values as the product of its extents.
pub proof fn lemma_file_length(raw: Seq<u8>)
    ensures
        file_array(raw) matches Ok(m) ==> m.data.len() == cell_count(m.dims),
{
}

/// Compression changes nothing: a file whose compressed element inflates to some bytes reads as
/// the file that has these bytes, a matrix element, in place of the compressed element.
pub proof fn law_compression_is_transparent(packed: Seq<u8>, plain: Seq<u8>, e: ElementModel)
    requires
        packed.len() >= HEADER_LEN,
        begins_mat(packed),
        element(packed.skip(HEADER_LEN as int), 0) == Ok::<ElementModel, MatError>(e),
        e.dtype == MI_COMPRESSED,
        plain.len() >= HEADER_LEN,
        begins_mat(plain),
        zlib_inflated(e.payload) == Some(plain.skip(HEADER_LEN as int)),
        element(plain.skip(HEADER_LEN as int), 0) matches Ok(m) ==> m.dtype == MI_MATRIX,
    ensures
        file_array(packed) == file_array(plain),
{
}

/// A data element as it is stored: its type, the length of its payload, the payload, and zeros up
/// to a multiple of eight bytes.
#[verifier::opaque]
pub open spec fn stored(dtype: u32, payload: Seq<u8>) -> Seq<u8> {
    encoded(seq![dtype as u64, payload.len() as u64], 4) + payload + Seq::new(
        ((8 - payload.len() % 8) % 8) as nat,
        |i: int| 0u8,
    )
}

/// The body of a matrix element: flags, extents, name and doubles.
pub open spec fn stored_matrix(flags: Seq<u8>, dims: Seq<u64>, name: Seq<u8>, data: Seq<u64>) -> Seq<u8> {
    stored(6, flags) + stored(MI_INT32, encoded(dims, 4)) + stored(1, name) + stored(MI_DOUBLE, encoded(data, 8))
}

/// A stored element is read back, wherever it stands.
proof fn lemma_stored_element(before: Seq<u8>, dtype: u32, payload: Seq<u8>, after: Seq<u8>)
    requires
        dtype < 0x1_0000,
        payload.len() < 0x1_0000_0000,
    ensures
        element(before + stored(dtype, payload) + after, before.len() as int) == Ok::<ElementModel, MatError>(
            ElementModel { dtype, payload, next: before.len() as int + stored(dtype, payload).len() },
        ),
{
    reveal(stored);
    let words = seq![dtype as u64, payload.len() as u64];
    let tag = encoded(words, 4);
    let s = before + stored(dtype, payload) + after;
    let (off, n) = (before.len() as int, payload.len() as int);
    assert(tag.len() == 8);
    law_singles_read_back(words, 0);
    law_singles_read_back(words, 1);
    assert forall|k: int| 0 <= k < 8 implies s[off + k] == tag[k] by {}
    assert(le32(s, off) == le32(tag, 0));
    assert(le32(s, off + 4) == le32(tag, 4));
    assert(s.subrange(off + 8, off + 8 + n) =~= payload);
    assert((n + 7) / 8 * 8 == n + (8 - n % 8) % 8);
    assert(stored(dtype, payload).len() == 8 + (n + 7) / 8 * 8);
}

/// The four elements of a stored matrix are read back, one behind the other.
proof fn lemma_stored_elements(flags: Seq<u8>, dims: Seq<u64>, name: Seq<u8>, data: Seq<u64>)
    requires
        flags.len() < 0x1_0000_0000,
        4 * dims.len() < 0x1_0000_0000,
        name.len() < 0x1_0000_0000,
        8 * data.len() < 0x1_0000_0000,
    ensures
        ({
            let body = stored_matrix(flags, dims, name, data);
            let (a, b, c, d) = (
                stored(6, flags).len() as int,
                stored(MI_INT32, encoded(dims, 4)).len() as int,
                stored(1, name).len() as int,
                stored(MI_DOUBLE, encoded(data, 8)).len() as int,
            );
            &&& element(body, 0) == Ok::<ElementModel, MatError>(ElementModel { dtype: 6, payload: flags, next: a })
            &&& element(body, a) == Ok::<ElementModel, MatError>(
                ElementModel { dtype: MI_INT32, payload: encoded(dims, 4), next: a + b },
            )
            &&& element(body, a + b) == Ok::<ElementModel, MatError>(
                ElementModel { dtype: 1, payload: name, next: a + b + c },
            )
            &&& element(body, a + b + c) == Ok::<ElementModel, MatError>(
                ElementModel { dtype: MI_DOUBLE, payload: encoded(data, 8), next: a + b + c + d },
            )
        }),
{
    let (a, b, c, d) = (
        stored(6, flags),
        stored(MI_INT32, encoded(dims, 4)),
        stored(1, name),
        stored(MI_DOUBLE, encoded(data, 8)),
    );
    let body = stored_matrix(flags, dims, name, data);
    let none = Seq::<u8>::empty();
    assert(encoded(dims, 4).len() == 4 * dims.len());
    assert(encoded(data, 8).len() == 8 * data.len());
    lemma_stored_element(none, 6, flags, b + c + d);
    assert(none + a + (b + c + d) =~= body);
    lemma_stored_element(a, MI_INT32, encoded(dims, 4), c + d);
    assert(a + b + (c + d) =~= body);
    lemma_stored_element(a + b, 1, name, d);
    assert(a + b + c + d =~= body);
    lemma_stored_element(a + b + c, MI_DOUBLE, encoded(data, 8), none);
    assert(a + b + c + d + none =~= body);
}

/// A stored matrix is at least as long as each of its payloads.
proof fn lemma_stored_sizes(flags: Seq<u8>, dims: Seq<u64>, name: Seq<u8>, data: Seq<u64>)
    ensures
        flags.len() <= stored_matrix(flags, dims, name, data).len(),
        4 * dims.len() <= stored_matrix(flags, dims, name, data).len(),
        name.len() <= stored_matrix(flags, dims, name, data).len(),
        8 * data.len() <= stored_matrix(flags, dims, name, data).len(),
{
    reveal(stored);
    assert(encoded(dims, 4).len() == 4 * dims.len());
    assert(encoded(data, 8).len() == 8 * data.len());
}

/// Extents and doubles are read back from their bytes.
proof fn lemma_payloads(dims: Seq<u64>, data: Seq<u64>)
    requires
        forall|k: int| 0 <= k < dims.len() ==> #[trigger] dims[k] < 0x1_0000_0000,
    ensures
        extents(encoded(dims, 4)) == dims.map_values(|d: u64| extent(d as u32)),
        payload_values(MI_DOUBLE, encoded(data, 8)) == Ok::<Seq<u64>, MatError>(data),
        encoded(dims, 4).len() % 4 == 0,
{
    let shape = dims.map_values(|d: u64| extent(d as u32));
    assert forall|k: int| 0 <= k < dims.len() implies extents(encoded(dims, 4))[k] == shape[k] by {
        law_singles_read_back(dims, k);
    }
    assert(extents(encoded(dims, 4)) =~= shape);
    let values = payload_values(MI_DOUBLE, encoded(data, 8))->Ok_0;
    assert forall|k: int| 0 <= k < data.len() implies values[k] == data[k] by {
        law_doubles_read_back(data, k);
    }
    assert(values =~= data);
}

/// What was stored as a matrix is read back: the extents, the name and every double, bit for bit.
pub proof fn law_matrix_reads_back(flags: Seq<u8>, dims: Seq<u64>, name: Seq<u8>, data: Seq<u64>)
    requires
        flags.len() < 0x1_0000_0000,
        4 * dims.len() < 0x1_0000_0000,
        name.len() < 0x1_0000_0000,
        8 * data.len() < 0x1_0000_0000,
        forall|k: int| 0 <= k < dims.len() ==> #[trigger] dims[k] < 0x1_0000_0000,
        data.len() == cell_count(dims.map_values(|d: u64| extent(d as u32))),
    ensures
        matrix(stored_matrix(flags, dims, name, data)) == Ok::<MatModel, MatError>(
            MatModel { name: utf8_lossy(name), dims: dims.map_values(|d: u64| extent(d as u32)), data },
        ),
{
    lemma_stored_elements(flags, dims, name, data);
    lemma_payloads(dims, data);
}

/// A file without compression reads as the matrix stored in it.
#[verifier::spinoff_prover]
proof fn lemma_stored_file(header: Seq<u8>, body: Seq<u8>)
    requires
        header.len() == HEADER_LEN,
        begins_mat(header),
        body.len() < 0x1_0000_0000,
    ensures
        file_array(header + stored(MI_MATRIX, body)) == matrix(body),
{
    let raw = header + stored(MI_MATRIX, body);
    let none = Seq::<u8>::empty();
    lemma_stored_element(none, MI_MATRIX, body, none);
    assert(none + stored(MI_MATRIX, body) + none =~= raw.skip(HEADER_LEN as int));
    assert(raw.take(6) =~= header.take(6));
}

/// What was stored in a file without compression is read back.
#[verifier::spinoff_prover]
pub proof fn law_file_reads_back(header: Seq<u8>, flags: Seq<u8>, dims: Seq<u64>, name: Seq<u8>, data: Seq<u64>)
    requires
        header.len() == HEADER_LEN,
        begins_mat(header),
        stored_matrix(flags, dims, name, data).len() < 0x1_0000_0000,
        forall|k: int| 0 <= k < dims.len() ==> #[trigger] dims[k] < 0x1_0000_0000,
        data.len() == cell_count(dims.map_values(|d: u64| extent(d as u32))),
    ensures
        file_array(header + stored(MI_MATRIX, stored_matrix(flags, dims, name, data))) == Ok::<MatModel, MatError>(
            MatModel { name: utf8_lossy(name), dims: dims.map_values(|d: u64| extent(d as u32)), data },
        ),
{
    lemma_stored_sizes(flags, dims, name, data);
    law_matrix_reads_back(flags, dims, name, data);
    lemma_stored_file(header, stored_matrix(flags, dims, name, data));
}

} // verus!
