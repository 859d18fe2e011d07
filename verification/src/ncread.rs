//! Minimal classic-NetCDF reader for the one-degree relief file.
//!
//! The file is classic NetCDF (big-endian): `ETOPO60X` (degrees east), `ETOPO60Y` (degrees north)
//! and `ROSE` (relief in metres, negative below sea level) over `[ETOPO60Y, ETOPO60X]`. Its grid
//! is that of the mapping, which is asserted rather than regridded. Version 1 files have 32-bit
//! offsets, later ones 64-bit offsets.

use vstd::prelude::*;

use crate::bytes::{be32, be64, lossy_text, part, read_be32, read_be64, utf8_lossy};
use crate::double::{above, finite, greater, is_nan, nan, widen, widened};
use crate::grid::{cell_count, count_cells, Grid2, GridDef};
use crate::rounding::{apart, distance, lemma_nearest_unique, Format};
use crate::text::chars_of;

verus! {

/// Type of singles.
pub const NC_FLOAT: u32 = 5;

/// Type of doubles.
pub const NC_DOUBLE: u32 = 6;

/// Tag of a dimension list.
pub const NC_DIMENSION: u32 = 0x0a;

/// Tag of a variable list.
pub const NC_VARIABLE: u32 = 0x0b;

/// Tag of an attribute list.
pub const NC_ATTRIBUTE: u32 = 0x0c;

/// Two grid coordinates agree when they are no further apart than this: `1e-6`, as a double.
pub const TOLERANCE: u64 = 0x3eb0_c6f7_a0b5_ed8d;

/// Why a file could not be read.
#[derive(Debug, Clone, Copy, PartialEq, Eq)]
pub enum CdfError {
    /// The file does not begin with `CDF`.
    NotNetcdf,
    /// The file ends before what its header announces.
    Truncated,
    /// A variable names a dimension that the file does not have.
    BadDimension { id: u32 },
    /// Something else stands where the dimensions were expected.
    ExpectedDimensions { tag: u32 },
    /// Something else stands where attributes were expected.
    ExpectedAttributes { tag: u32 },
    /// Something else stands where the variables were expected.
    ExpectedVariables { tag: u32 },
    /// There is no variable of that name.
    Missing,
    /// The variable is neither of single nor of double precision.
    Unsupported { nctype: u32 },
}

/// How many bytes a value of a type takes; none for an unknown type.
pub open spec fn type_size(t: u32) -> int {
    if t == 1 || t == 2 {
        1
    } else if t == 3 {
        2
    } else if t == 4 || t == 5 {
        4
    } else if t == 6 {
        8
    } else {
        0
    }
}

/// How many bytes a value of a type takes; none for an unknown type.
pub fn nctype_size(t: u32) -> (r: usize)
    ensures
        r == type_size(t),
{
    match t {
        1 | 2 => 1,
        3 => 2,
        4 | 5 => 4,
        6 => 8,
        _ => 0,
    }
}

/// What fills a run of bytes up to a multiple of four.
pub open spec fn pad4(n: int) -> int {
    (4 - n % 4) % 4
}

/// A 32-bit number at `off`, and where the next item begins.
pub open spec fn take_u32(s: Seq<u8>, off: int) -> Result<(u32, int), CdfError> {
    if off + 4 <= s.len() {
        Ok((be32(s, off), off + 4))
    } else {
        Err(CdfError::Truncated)
    }
}

/// A 64-bit number at `off`, and where the next item begins.
pub open spec fn take_u64(s: Seq<u8>, off: int) -> Result<(u64, int), CdfError> {
    if off + 8 <= s.len() {
        Ok((be64(s, off), off + 8))
    } else {
        Err(CdfError::Truncated)
    }
}

/// A counted and padded name at `off`, and where the next item begins. The file may end before the
/// padding does.
pub open spec fn take_name(s: Seq<u8>, off: int) -> Result<(Seq<char>, int), CdfError> {
    match take_u32(s, off) {
        Err(e) => Err(e),
        Ok((n, o)) => if o + n <= s.len() {
            Ok((utf8_lossy(s.subrange(o, o + n)), o + n + pad4(n as int)))
        } else {
            Err(CdfError::Truncated)
        },
    }
}

/// One attribute at `off`: where the next item begins. The values themselves are not looked at, so
/// the file may end before they do.
pub open spec fn skip_attribute(s: Seq<u8>, off: int) -> Result<int, CdfError> {
    match take_name(s, off) {
        Err(e) => Err(e),
        Ok((_, o1)) => match take_u32(s, o1) {
            Err(e) => Err(e),
            Ok((t, o2)) => match take_u32(s, o2) {
                Err(e) => Err(e),
                Ok((ne, o3)) => {
                    let nb = ne * type_size(t);
                    Ok(o3 + nb + pad4(nb))
                },
            },
        },
    }
}

/// `n` attributes at `off`: where the next item begins.
pub open spec fn skip_attributes(s: Seq<u8>, off: int, n: nat) -> Result<int, CdfError>
    decreases n,
{
    if n == 0 {
        Ok(off)
    } else {
        match skip_attribute(s, off) {
            Err(e) => Err(e),
            Ok(o) => skip_attributes(s, o, (n - 1) as nat),
        }
    }
}

/// An attribute list at `off`: where the next item begins.
pub open spec fn skip_list(s: Seq<u8>, off: int) -> Result<int, CdfError> {
    match take_u32(s, off) {
        Err(e) => Err(e),
        Ok((tag, o1)) => match take_u32(s, o1) {
            Err(e) => Err(e),
            Ok((n, o2)) => if tag != NC_ATTRIBUTE && !(tag == 0 && n == 0) {
                Err(CdfError::ExpectedAttributes { tag })
            } else {
                skip_attributes(s, o2, n as nat)
            },
        },
    }
}

/// `n` dimensions at `off` behind those in `acc`: all sizes, and where the next item begins.
pub open spec fn take_dims(s: Seq<u8>, off: int, n: nat, acc: Seq<usize>) -> Result<(Seq<usize>, int), CdfError>
    decreases n,
{
    if n == 0 {
        Ok((acc, off))
    } else {
        match take_name(s, off) {
            Err(e) => Err(e),
            Ok((_, o1)) => match take_u32(s, o1) {
                Err(e) => Err(e),
                Ok((size, o2)) => take_dims(s, o2, (n - 1) as nat, acc.push(size as usize)),
            },
        }
    }
}

/// The dimension list at `off`: all sizes, and where the next item begins.
pub open spec fn take_dim_list(s: Seq<u8>, off: int) -> Result<(Seq<usize>, int), CdfError> {
    match take_u32(s, off) {
        Err(e) => Err(e),
        Ok((tag, o1)) => match take_u32(s, o1) {
            Err(e) => Err(e),
            Ok((n, o2)) => if tag == NC_DIMENSION {
                take_dims(s, o2, n as nat, Seq::empty())
            } else if tag == 0 && n == 0 {
                Ok((Seq::empty(), o2))
            } else {
                Err(CdfError::ExpectedDimensions { tag })
            },
        },
    }
}

/// `n` dimension numbers at `off` behind those in `acc`: the extents that they stand for, and
/// where the next item begins.
pub open spec fn take_shape(s: Seq<u8>, off: int, n: nat, dims: Seq<usize>, acc: Seq<usize>) -> Result<
    (Seq<usize>, int),
    CdfError,
>
    decreases n,
{
    if n == 0 {
        Ok((acc, off))
    } else {
        match take_u32(s, off) {
            Err(e) => Err(e),
            Ok((id, o)) => if id < dims.len() {
                take_shape(s, o, (n - 1) as nat, dims, acc.push(dims[id as int]))
            } else {
                Err(CdfError::BadDimension { id })
            },
        }
    }
}

/// A variable as the header describes it.
#[verifier::ext_equal]
pub struct VarModel {
    pub name: Seq<char>,
    pub nctype: u32,
    pub shape: Seq<usize>,
    pub begin: u64,
}

/// Where a variable's data begins, in 64 or 32 bits, and where the next item begins.
pub open spec fn take_begin(s: Seq<u8>, off: int, wide: bool) -> Result<(u64, int), CdfError> {
    if wide {
        take_u64(s, off)
    } else {
        match take_u32(s, off) {
            Err(e) => Err(e),
            Ok((b, o)) => Ok((b as u64, o)),
        }
    }
}

/// The type, the size and the place of a variable, behind its name and shape.
pub open spec fn take_layout(s: Seq<u8>, off: int, wide: bool) -> Result<(u32, u64, int), CdfError> {
    match skip_list(s, off) {
        Err(e) => Err(e),
        Ok(o1) => match take_u32(s, o1) {
            Err(e) => Err(e),
            Ok((nctype, o2)) => match take_u32(s, o2) {
                Err(e) => Err(e),
                Ok((_, o3)) => match take_begin(s, o3, wide) {
                    Err(e) => Err(e),
                    Ok((begin, o4)) => Ok((nctype, begin, o4)),
                },
            },
        },
    }
}

/// One variable at `off`, and where the next item begins.
pub open spec fn take_var(s: Seq<u8>, off: int, dims: Seq<usize>, wide: bool) -> Result<(VarModel, int), CdfError> {
    match take_name(s, off) {
        Err(e) => Err(e),
        Ok((name, o1)) => match take_u32(s, o1) {
            Err(e) => Err(e),
            Ok((n, o2)) => match take_shape(s, o2, n as nat, dims, Seq::empty()) {
                Err(e) => Err(e),
                Ok((shape, o3)) => match take_layout(s, o3, wide) {
                    Err(e) => Err(e),
                    Ok((nctype, begin, o4)) => Ok((VarModel { name, nctype, shape, begin }, o4)),
                },
            },
        },
    }
}

/// `n` variables at `off` behind those in `acc`.
pub open spec fn take_vars(
    s: Seq<u8>,
    off: int,
    n: nat,
    dims: Seq<usize>,
    wide: bool,
    acc: Seq<VarModel>,
) -> Result<Seq<VarModel>, CdfError>
    decreases n,
{
    if n == 0 {
        Ok(acc)
    } else {
        match take_var(s, off, dims, wide) {
            Err(e) => Err(e),
            Ok((v, o)) => take_vars(s, o, (n - 1) as nat, dims, wide, acc.push(v)),
        }
    }
}

/// The variable list at `off`.
pub open spec fn take_var_list(s: Seq<u8>, off: int, dims: Seq<usize>, wide: bool) -> Result<Seq<VarModel>, CdfError> {
    match take_u32(s, off) {
        Err(e) => Err(e),
        Ok((tag, o1)) => match take_u32(s, o1) {
            Err(e) => Err(e),
            Ok((n, o2)) => if tag == NC_VARIABLE {
                take_vars(s, o2, n as nat, dims, wide, Seq::empty())
            } else if tag == 0 && n == 0 {
                Ok(Seq::empty())
            } else {
                Err(CdfError::ExpectedVariables { tag })
            },
        },
    }
}

/// The variables that a file describes, in the order of its header.
pub open spec fn file_vars(s: Seq<u8>) -> Result<Seq<VarModel>, CdfError> {
    if s.len() < 3 {
        Err(CdfError::Truncated)
    } else if !(s[0] == 0x43 && s[1] == 0x44 && s[2] == 0x46) {
        Err(CdfError::NotNetcdf)
    } else if s.len() == 3 {
        Err(CdfError::Truncated)
    } else {
        match take_u32(s, 4) {
            Err(e) => Err(e),
            Ok((_, o1)) => match take_dim_list(s, o1) {
                Err(e) => Err(e),
                Ok((dims, o2)) => match skip_list(s, o2) {
                    Err(e) => Err(e),
                    Ok(o3) => take_var_list(s, o3, dims, s[3] >= 2),
                },
            },
        }
    }
}

/// A reading position in a buffer. It may lie past the end, and is wide enough for whatever a header
/// announces.
pub struct Cursor<'a> {
    pub buf: &'a [u8],
    pub off: u128,
}

impl<'a> Cursor<'a> {
    /// Reads a 32-bit number.
    pub fn u32(&mut self) -> (r: Result<u32, CdfError>)
        ensures
            final(self).buf@ == old(self).buf@,
            match (r, take_u32(old(self).buf@, old(self).off as int)) {
                (Ok(v), Ok((w, o))) => v == w && final(self).off == o,
                (Err(e), Err(f)) => e == f,
                _ => false,
            },
    {
        let len: u128 = self.buf.len() as u128;
        if self.off > len || len - self.off < 4 {
            return Err(CdfError::Truncated);
        }
        let v: u32 = read_be32(self.buf, self.off as usize);
        self.off = self.off + 4;
        Ok(v)
    }

    /// Reads a 64-bit number.
    pub fn u64(&mut self) -> (r: Result<u64, CdfError>)
        ensures
            final(self).buf@ == old(self).buf@,
            match (r, take_u64(old(self).buf@, old(self).off as int)) {
                (Ok(v), Ok((w, o))) => v == w && final(self).off == o,
                (Err(e), Err(f)) => e == f,
                _ => false,
            },
    {
        let len: u128 = self.buf.len() as u128;
        if self.off > len || len - self.off < 8 {
            return Err(CdfError::Truncated);
        }
        let v: u64 = read_be64(self.buf, self.off as usize);
        self.off = self.off + 8;
        Ok(v)
    }

    /// Moves over `n` bytes and their padding.
    fn advance(&mut self, n: u64)
        requires
            old(self).off <= old(self).buf.len(),
            n <= 0x10_0000_0000,
        ensures
            final(self).buf@ == old(self).buf@,
            final(self).off == old(self).off + n + pad4(n as int),
    {
        self.off = self.off + (n + (4 - n % 4) % 4) as u128;
    }

    /// Reads a counted and padded name.
    pub fn name(&mut self) -> (r: Result<String, CdfError>)
        ensures
            final(self).buf@ == old(self).buf@,
            match (r, take_name(old(self).buf@, old(self).off as int)) {
                (Ok(v), Ok((w, o))) => v@ == w && final(self).off == o,
                (Err(e), Err(f)) => e == f,
                _ => false,
            },
    {
        let n: u32 = match self.u32() {
            Ok(n) => n,
            Err(e) => {
                return Err(e);
            },
        };
        let from: usize = self.off as usize;
        if (n as u128) > self.buf.len() as u128 - self.off {
            return Err(CdfError::Truncated);
        }
        self.advance(n as u64);
        Ok(lossy_text(part(self.buf, from, from + n as usize)))
    }

    /// Moves over an attribute list.
    pub fn skip_att_list(&mut self) -> (r: Result<(), CdfError>)
        ensures
            final(self).buf@ == old(self).buf@,
            match (r, skip_list(old(self).buf@, old(self).off as int)) {
                (Ok(_), Ok(o)) => final(self).off == o,
                (Err(e), Err(f)) => e == f,
                _ => false,
            },
    {
        let ghost s = self.buf@;
        let ghost start = self.off as int;
        let tag: u32 = match self.u32() {
            Ok(v) => v,
            Err(e) => {
                return Err(e);
            },
        };
        let n: u32 = match self.u32() {
            Ok(v) => v,
            Err(e) => {
                return Err(e);
            },
        };
        if tag != NC_ATTRIBUTE && !(tag == 0 && n == 0) {
            return Err(CdfError::ExpectedAttributes { tag });
        }
        let mut left: u32 = n;
        while left > 0
            invariant
                self.buf@ == s,
                s == old(self).buf@,
                start == old(self).off,
                skip_list(s, start) == skip_attributes(s, self.off as int, left as nat),
            decreases left,
        {
            match self.name() {
                Ok(_) => {},
                Err(e) => {
                    return Err(e);
                },
            }
            let t: u32 = match self.u32() {
                Ok(v) => v,
                Err(e) => {
                    return Err(e);
                },
            };
            let ne: u32 = match self.u32() {
                Ok(v) => v,
                Err(e) => {
                    return Err(e);
                },
            };
            let size: u64 = nctype_size(t) as u64;
            assert(ne * size <= 0xffff_ffff * 8) by (nonlinear_arith)
                requires
                    0 <= ne <= 0xffff_ffff,
                    0 <= size <= 8,
            ;
            self.advance(ne as u64 * size);
            left = left - 1;
        }
        Ok(())
    }
}

/// A variable as the header describes it.
#[derive(Debug)]
pub struct VarMeta {
    pub name: String,
    pub nctype: u32,
    pub shape: Vec<usize>,
    pub begin: u64,
}

impl View for VarMeta {
    type V = VarModel;

    open spec fn view(&self) -> VarModel {
        VarModel { name: self.name@, nctype: self.nctype, shape: self.shape@, begin: self.begin }
    }
}

/// What a list of variables describes.
pub open spec fn models(vars: Seq<VarMeta>) -> Seq<VarModel> {
    Seq::new(vars.len(), |i: int| vars[i]@)
}

/// A classic NetCDF file: its bytes and its variables.
#[derive(Debug)]
pub struct Cdf {
    pub buf: Vec<u8>,
    pub vars: Vec<VarMeta>,
}

/// Reads the dimension list.
fn read_dims(c: &mut Cursor) -> (r: Result<Vec<usize>, CdfError>)
    ensures
        final(c).buf@ == old(c).buf@,
        match (r, take_dim_list(old(c).buf@, old(c).off as int)) {
            (Ok(v), Ok((w, o))) => v@ == w && final(c).off == o,
            (Err(e), Err(f)) => e == f,
            _ => false,
        },
{
    let ghost s = c.buf@;
    let ghost start = c.off as int;
    let tag: u32 = match c.u32() {
        Ok(v) => v,
        Err(e) => {
            return Err(e);
        },
    };
    let n: u32 = match c.u32() {
        Ok(v) => v,
        Err(e) => {
            return Err(e);
        },
    };
    let mut dims: Vec<usize> = Vec::new();
    if tag == NC_DIMENSION {
        let mut left: u32 = n;
        while left > 0
            invariant
                c.buf@ == s,
                s == old(c).buf@,
                start == old(c).off,
                take_dim_list(s, start) == take_dims(s, c.off as int, left as nat, dims@),
            decreases left,
        {
            match c.name() {
                Ok(_) => {},
                Err(e) => {
                    return Err(e);
                },
            }
            match c.u32() {
                Ok(v) => {
                    dims.push(v as usize);
                },
                Err(e) => {
                    return Err(e);
                },
            }
            left = left - 1;
        }
    } else if !(tag == 0 && n == 0) {
        return Err(CdfError::ExpectedDimensions { tag });
    }
    Ok(dims)
}

/// Reads the extents of a variable.
fn read_shape(c: &mut Cursor, n: u32, dims: &Vec<usize>) -> (r: Result<Vec<usize>, CdfError>)
    ensures
        final(c).buf@ == old(c).buf@,
        match (r, take_shape(old(c).buf@, old(c).off as int, n as nat, dims@, Seq::empty())) {
            (Ok(v), Ok((w, o))) => v@ == w && final(c).off == o,
            (Err(e), Err(f)) => e == f,
            _ => false,
        },
{
    let ghost s = c.buf@;
    let ghost start = c.off as int;
    let mut shape: Vec<usize> = Vec::new();
    let mut left: u32 = n;
    while left > 0
        invariant
            c.buf@ == s,
            s == old(c).buf@,
            start == old(c).off,
            take_shape(s, start, n as nat, dims@, Seq::empty()) == take_shape(
                s,
                c.off as int,
                left as nat,
                dims@,
                shape@,
            ),
        decreases left,
    {
        let id: u32 = match c.u32() {
            Ok(v) => v,
            Err(e) => {
                return Err(e);
            },
        };
        if id as u64 >= dims.len() as u64 {
            return Err(CdfError::BadDimension { id });
        }
        shape.push(dims[id as usize]);
        left = left - 1;
    }
    Ok(shape)
}

/// Reads the type and the place of a variable.
fn read_layout(c: &mut Cursor, wide: bool) -> (r: Result<(u32, u64), CdfError>)
    ensures
        final(c).buf@ == old(c).buf@,
        match (r, take_layout(old(c).buf@, old(c).off as int, wide)) {
            (Ok((t, b)), Ok((u, d, o))) => t == u && b == d && final(c).off == o,
            (Err(e), Err(f)) => e == f,
            _ => false,
        },
{
    match c.skip_att_list() {
        Ok(_) => {},
        Err(e) => {
            return Err(e);
        },
    }
    let nctype: u32 = match c.u32() {
        Ok(v) => v,
        Err(e) => {
            return Err(e);
        },
    };
    match c.u32() {
        Ok(_) => {},
        Err(e) => {
            return Err(e);
        },
    }
    let begin: u64 = if wide {
        match c.u64() {
            Ok(v) => v,
            Err(e) => {
                return Err(e);
            },
        }
    } else {
        match c.u32() {
            Ok(v) => v as u64,
            Err(e) => {
                return Err(e);
            },
        }
    };
    Ok((nctype, begin))
}

/// Reads one variable.
fn read_var(c: &mut Cursor, dims: &Vec<usize>, wide: bool) -> (r: Result<VarMeta, CdfError>)
    ensures
        final(c).buf@ == old(c).buf@,
        match (r, take_var(old(c).buf@, old(c).off as int, dims@, wide)) {
            (Ok(v), Ok((w, o))) => v@ == w && final(c).off == o,
            (Err(e), Err(f)) => e == f,
            _ => false,
        },
{
    let name: String = match c.name() {
        Ok(v) => v,
        Err(e) => {
            return Err(e);
        },
    };
    let n: u32 = match c.u32() {
        Ok(v) => v,
        Err(e) => {
            return Err(e);
        },
    };
    let shape: Vec<usize> = match read_shape(c, n, dims) {
        Ok(v) => v,
        Err(e) => {
            return Err(e);
        },
    };
    match read_layout(c, wide) {
        Ok((nctype, begin)) => Ok(VarMeta { name, nctype, shape, begin }),
        Err(e) => Err(e),
    }
}

/// Reads the variable list.
fn read_vars(c: &mut Cursor, dims: &Vec<usize>, wide: bool) -> (r: Result<Vec<VarMeta>, CdfError>)
    ensures
        match (r, take_var_list(old(c).buf@, old(c).off as int, dims@, wide)) {
            (Ok(v), Ok(w)) => models(v@) == w,
            (Err(e), Err(f)) => e == f,
            _ => false,
        },
{
    let ghost s = c.buf@;
    let ghost start = c.off as int;
    let tag: u32 = match c.u32() {
        Ok(v) => v,
        Err(e) => {
            return Err(e);
        },
    };
    let n: u32 = match c.u32() {
        Ok(v) => v,
        Err(e) => {
            return Err(e);
        },
    };
    let mut vars: Vec<VarMeta> = Vec::new();
    assert(models(vars@) == Seq::<VarModel>::empty());
    if tag == NC_VARIABLE {
        let mut left: u32 = n;
        while left > 0
            invariant
                c.buf@ == s,
                s == old(c).buf@,
                start == old(c).off,
                take_var_list(s, start, dims@, wide) == take_vars(
                    s,
                    c.off as int,
                    left as nat,
                    dims@,
                    wide,
                    models(vars@),
                ),
            decreases left,
        {
            match read_var(c, dims, wide) {
                Ok(v) => {
                    let ghost before = models(vars@);
                    let ghost m = v@;
                    vars.push(v);
                    assert(models(vars@) == before.push(m));
                },
                Err(e) => {
                    return Err(e);
                },
            }
            left = left - 1;
        }
    } else if !(tag == 0 && n == 0) {
        return Err(CdfError::ExpectedVariables { tag });
    }
    Ok(vars)
}

/// The last variable of a name: a later one takes an earlier one's place.
pub open spec fn find_var(vars: Seq<VarModel>, name: Seq<char>) -> Option<VarModel>
    decreases vars.len(),
{
    if vars.len() == 0 {
        None
    } else if vars.last().name == name {
        Some(vars.last())
    } else {
        find_var(vars.drop_last(), name)
    }
}

/// The values of a variable, in the order of the file, as doubles.
pub open spec fn var_values(s: Seq<u8>, v: VarModel) -> Result<Seq<u64>, CdfError> {
    if v.begin + cell_count(v.shape) * type_size(v.nctype) > s.len() {
        Err(CdfError::Truncated)
    } else if v.nctype == NC_FLOAT {
        Ok(Seq::new(cell_count(v.shape) as nat, |k: int| widened(be32(s, v.begin + 4 * k))))
    } else if v.nctype == NC_DOUBLE {
        Ok(Seq::new(cell_count(v.shape) as nat, |k: int| be64(s, v.begin + 8 * k)))
    } else {
        Err(CdfError::Unsupported { nctype: v.nctype })
    }
}

/// The values and the extents of the variable of a name.
pub open spec fn named_values(s: Seq<u8>, vars: Seq<VarModel>, name: Seq<char>) -> Result<
    (Seq<u64>, Seq<usize>),
    CdfError,
> {
    match find_var(vars, name) {
        None => Err(CdfError::Missing),
        Some(v) => match var_values(s, v) {
            Err(e) => Err(e),
            Ok(x) => Ok((x, v.shape)),
        },
    }
}

impl Cdf {
    /// Reads the header of a file.
    pub fn open(buf: Vec<u8>) -> (r: Result<Self, CdfError>)
        ensures
            match (r, file_vars(buf@)) {
                (Ok(c), Ok(vars)) => c.buf@ == buf@ && models(c.vars@) == vars,
                (Err(e), Err(f)) => e == f,
                _ => false,
            },
    {
        if buf.len() < 3 {
            return Err(CdfError::Truncated);
        }
        if !(buf[0] == 0x43 && buf[1] == 0x44 && buf[2] == 0x46) {
            return Err(CdfError::NotNetcdf);
        }
        if buf.len() == 3 {
            return Err(CdfError::Truncated);
        }
        let wide: bool = buf[3] >= 2;
        let mut c = Cursor { buf: buf.as_slice(), off: 4 };
        match c.u32() {
            Ok(_) => {},
            Err(e) => {
                return Err(e);
            },
        }
        let dims: Vec<usize> = match read_dims(&mut c) {
            Ok(v) => v,
            Err(e) => {
                return Err(e);
            },
        };
        match c.skip_att_list() {
            Ok(_) => {},
            Err(e) => {
                return Err(e);
            },
        }
        match read_vars(&mut c, &dims, wide) {
            Ok(vars) => Ok(Cdf { buf, vars }),
            Err(e) => Err(e),
        }
    }

    /// Reads the values of a variable as doubles, and its extents.
    pub fn read_var_f64(&self, name: &str) -> (r: Result<(Vec<u64>, Vec<usize>), CdfError>)
        ensures
            match (r, named_values(self.buf@, models(self.vars@), name@)) {
                (Ok((v, d)), Ok((w, e))) => v@ == w && d@ == e,
                (Err(e), Err(f)) => e == f,
                _ => false,
            },
    {
        let key: Vec<char> = chars_of(name);
        let mut k: usize = self.vars.len();
        let ghost all = models(self.vars@);
        assert(all.take(k as int) == all);
        while k > 0
            invariant
                k <= self.vars.len(),
                key@ == name@,
                all == models(self.vars@),
                find_var(all, name@) == find_var(all.take(k as int), name@),
            decreases k,
        {
            let v: &VarMeta = &self.vars[k - 1];
            assert(all.take(k as int).last() == v@);
            assert(all.take(k as int).drop_last() == all.take(k - 1));
            if same_chars(&chars_of(v.name.as_str()), &key) {
                return self.values(v);
            }
            k = k - 1;
        }
        Err(CdfError::Missing)
    }

    /// Reads the values of one variable.
    fn values(&self, v: &VarMeta) -> (r: Result<(Vec<u64>, Vec<usize>), CdfError>)
        ensures
            match (r, var_values(self.buf@, v@)) {
                (Ok((x, d)), Ok(w)) => x@ == w && d@ == v.shape@,
                (Err(e), Err(f)) => e == f,
                _ => false,
            },
    {
        let size: usize = nctype_size(v.nctype);
        let len: usize = self.buf.len();
        let ghost total = cell_count(v.shape@);
        let counted: Option<usize> = count_cells(&v.shape);
        proof {
            crate::grid::lemma_count_sign(v.shape@);
            assert(total * type_size(v.nctype) >= 0) by (nonlinear_arith)
                requires
                    total >= 0,
                    type_size(v.nctype) >= 0,
            ;
        }
        if v.begin > len as u64 {
            return Err(CdfError::Truncated);
        }
        let start: usize = v.begin as usize;
        let count: usize = match counted {
            Some(n) => {
                let fits: bool = size == 0 || n <= (len - start) / size;
                proof {
                    if size > 0 {
                        lemma_fits(n as int, size as int, len - start);
                    } else {
                        assert(total * 0 == 0) by (nonlinear_arith);
                    }
                }
                if !fits {
                    return Err(CdfError::Truncated);
                }
                n
            },
            None => {
                if size > 0 {
                    assert(total * size >= total) by (nonlinear_arith)
                        requires
                            total >= 0,
                            size >= 1,
                    ;
                    return Err(CdfError::Truncated);
                }
                assert(total * 0 == 0) by (nonlinear_arith);
                return Err(CdfError::Unsupported { nctype: v.nctype });
            },
        };
        let shape: Vec<usize> = copied(&v.shape);
        let mut out: Vec<u64> = Vec::new();
        let mut k: usize = 0;
        if v.nctype == NC_FLOAT {
            while k < count
                invariant
                    k <= count == total,
                    start == v.begin,
                    start + 4 * count <= self.buf.len(),
                    out@ == Seq::new(k as nat, |m: int| widened(be32(self.buf@, v.begin + 4 * m))),
                decreases count - k,
            {
                out.push(widen(read_be32(self.buf.as_slice(), start + 4 * k)));
                k = k + 1;
            }
            Ok((out, shape))
        } else if v.nctype == NC_DOUBLE {
            while k < count
                invariant
                    k <= count == total,
                    start == v.begin,
                    start + 8 * count <= self.buf.len(),
                    out@ == Seq::new(k as nat, |m: int| be64(self.buf@, v.begin + 8 * m)),
                decreases count - k,
            {
                out.push(read_be64(self.buf.as_slice(), start + 8 * k));
                k = k + 1;
            }
            Ok((out, shape))
        } else {
            Err(CdfError::Unsupported { nctype: v.nctype })
        }
    }
}

/// Dividing tells whether a product fits.
proof fn lemma_fits(n: int, size: int, room: int)
    requires
        n >= 0,
        size > 0,
        room >= 0,
    ensures
        (n <= room / size) == (n * size <= room),
{
    vstd::arithmetic::div_mod::lemma_fundamental_div_mod(room, size);
    vstd::arithmetic::div_mod::lemma_mod_bound(room, size);
    let q = room / size;
    assert(n <= q ==> n * size <= room) by (nonlinear_arith)
        requires
            size * q <= room,
            size > 0,
    ;
    assert(n > q ==> n * size > room) by (nonlinear_arith)
        requires
            room < size * q + size,
            size > 0,
    ;
}

/// A copy of some extents.
fn copied(v: &Vec<usize>) -> (r: Vec<usize>)
    ensures
        r@ == v@,
{
    let mut out: Vec<usize> = Vec::new();
    let mut i: usize = 0;
    while i < v.len()
        invariant
            i <= v.len(),
            out@ == v@.take(i as int),
        decreases v.len() - i,
    {
        out.push(v[i]);
        i = i + 1;
        assert(v@.take(i as int) == v@.take(i - 1).push(v@[i - 1]));
    }
    assert(v@.take(i as int) == v@);
    out
}

/// Whether two texts are the same.
fn same_chars(a: &Vec<char>, b: &Vec<char>) -> (r: bool)
    ensures
        r == (a@ == b@),
{
    if a.len() != b.len() {
        return false;
    }
    let mut i: usize = 0;
    while i < a.len()
        invariant
            i <= a.len() == b.len(),
            forall|k: int| 0 <= k < i ==> a@[k] == b@[k],
        decreases a.len() - i,
    {
        if a[i] != b[i] {
            assert(a@[i as int] != b@[i as int]);
            return false;
        }
        i = i + 1;
    }
    assert(a@ == b@);
    true
}

/// Two coordinates do not agree: one of them is NaN, or they are further apart than the tolerance. An
/// infinity agrees with itself.
pub open spec fn far(a: u64, b: u64) -> bool {
    ||| nan(a)
    ||| nan(b)
    ||| exists|d: u64| apart(a, b, d) && #[trigger] above(d, TOLERANCE)
}

/// The distance of two doubles is one double.
proof fn lemma_apart_once(a: u64, b: u64, d: u64, e: u64)
    requires
        apart(a, b, d),
        apart(a, b, e),
    ensures
        d == e,
{
    if finite(a) && finite(b) {
        let diff = crate::double::units(a) - crate::double::units(b);
        lemma_nearest_unique(Format::Double, if diff < 0 { -diff } else { diff }, 1, d as int, e as int);
    }
}

/// Whether two coordinates do not agree.
fn is_far(a: u64, b: u64) -> (r: bool)
    ensures
        r == far(a, b),
{
    if is_nan(a) || is_nan(b) {
        return true;
    }
    let d: u64 = distance(a, b);
    let r: bool = greater(d, TOLERANCE);
    proof {
        if r {
            assert(above(d, TOLERANCE));
        } else if far(a, b) {
            let e = choose|e: u64| apart(a, b, e) && #[trigger] above(e, TOLERANCE);
            lemma_apart_once(a, b, d, e);
        }
    }
    r
}

/// One axis of the relief file.
#[derive(Debug, Clone, Copy, PartialEq, Eq)]
pub enum Axis {
    Lon,
    Lat,
}

/// One variable of the relief file.
#[derive(Debug, Clone, Copy, PartialEq, Eq)]
pub enum EtopoVar {
    X,
    Y,
    Rose,
}

/// Why the relief could not be read.
#[derive(Debug, Clone, Copy, PartialEq, Eq)]
pub enum EtopoError {
    /// The header is faulty.
    File { error: CdfError },
    /// A variable is missing or faulty.
    Variable { var: EtopoVar, error: CdfError },
    /// An axis has not the grid's length.
    GridLength { axis: Axis, got: usize, want: usize },
    /// An axis leaves the grid at the place `at`.
    GridMismatch { axis: Axis, at: usize, got: u64, want: u64 },
    /// The relief is not a map on the grid.
    RoseShape,
}

/// The first place where two axes of one length are far apart, or their length.
pub open spec fn first_far(got: Seq<u64>, want: Seq<u64>) -> int
    decreases got.len(),
{
    if got.len() == 0 || far(got[0], want[0]) {
        0
    } else {
        1 + first_far(got.skip(1), want.skip(1))
    }
}

/// What is wrong with an axis, if anything.
pub open spec fn axis_fault(axis: Axis, got: Seq<u64>, want: Seq<u64>) -> Option<EtopoError> {
    if got.len() != want.len() {
        Some(EtopoError::GridLength { axis, got: got.len() as usize, want: want.len() as usize })
    } else {
        let at = first_far(got, want);
        if at < got.len() {
            Some(EtopoError::GridMismatch { axis, at: at as usize, got: got[at], want: want[at] })
        } else {
            None
        }
    }
}

/// Asserts that an axis of the file is an axis of the grid, up to the tolerance.
pub fn assert_grid(got: &Vec<u64>, want: &Vec<u64>, axis: Axis) -> (r: Result<(), EtopoError>)
    ensures
        match (r, axis_fault(axis, got@, want@)) {
            (Ok(_), None) => true,
            (Err(e), Some(f)) => e == f,
            _ => false,
        },
{
    if got.len() != want.len() {
        return Err(EtopoError::GridLength { axis, got: got.len(), want: want.len() });
    }
    let mut i: usize = 0;
    assert(got@.skip(0) == got@ && want@.skip(0) == want@);
    while i < got.len()
        invariant
            i <= got.len() == want.len(),
            first_far(got@, want@) == i + first_far(got@.skip(i as int), want@.skip(i as int)),
        decreases got.len() - i,
    {
        if is_far(got[i], want[i]) {
            return Err(EtopoError::GridMismatch { axis, at: i, got: got[i], want: want[i] });
        }
        assert(got@.skip(i as int).skip(1) == got@.skip(i + 1));
        assert(want@.skip(i as int).skip(1) == want@.skip(i + 1));
        i = i + 1;
    }
    Ok(())
}

/// The relief that a file holds, row by row, where it is on the grid.
pub open spec fn relief(s: Seq<u8>, lon: Seq<u64>, lat: Seq<u64>) -> Result<Seq<u64>, EtopoError> {
    match file_vars(s) {
        Err(error) => Err(EtopoError::File { error }),
        Ok(vars) => match named_values(s, vars, "ETOPO60X"@) {
            Err(error) => Err(EtopoError::Variable { var: EtopoVar::X, error }),
            Ok((x, _)) => match named_values(s, vars, "ETOPO60Y"@) {
                Err(error) => Err(EtopoError::Variable { var: EtopoVar::Y, error }),
                Ok((y, _)) => match axis_fault(Axis::Lon, x, lon) {
                    Some(e) => Err(e),
                    None => match axis_fault(Axis::Lat, y, lat) {
                        Some(e) => Err(e),
                        None => match named_values(s, vars, "ROSE"@) {
                            Err(error) => Err(EtopoError::Variable { var: EtopoVar::Rose, error }),
                            Ok((rose, shape)) => if shape == seq![lat.len() as usize, lon.len() as usize] {
                                Ok(rose)
                            } else {
                                Err(EtopoError::RoseShape)
                            },
                        },
                    },
                },
            },
        },
    }
}

/// Reads the relief file as a map of metres, negative below sea level, after asserting that its
/// grid is the given one.
#[verifier::rlimit(30)]
pub fn read_etopo(buf: Vec<u8>, grid: &GridDef) -> (r: Result<Grid2<u64>, EtopoError>)
    ensures
        match (r, relief(buf@, grid.lon@, grid.lat@)) {
            (Ok(g), Ok(w)) => g.shaped(grid.lat.len() as int, grid.lon.len() as int) && g.cells@ == w,
            (Err(e), Err(f)) => e == f,
            _ => false,
        },
{
    let cdf: Cdf = match Cdf::open(buf) {
        Ok(c) => c,
        Err(error) => {
            return Err(EtopoError::File { error });
        },
    };
    let x: Vec<u64> = match cdf.read_var_f64("ETOPO60X") {
        Ok((v, _)) => v,
        Err(error) => {
            return Err(EtopoError::Variable { var: EtopoVar::X, error });
        },
    };
    let y: Vec<u64> = match cdf.read_var_f64("ETOPO60Y") {
        Ok((v, _)) => v,
        Err(error) => {
            return Err(EtopoError::Variable { var: EtopoVar::Y, error });
        },
    };
    match assert_grid(&x, &grid.lon, Axis::Lon) {
        Ok(_) => {},
        Err(e) => {
            return Err(e);
        },
    }
    match assert_grid(&y, &grid.lat, Axis::Lat) {
        Ok(_) => {},
        Err(e) => {
            return Err(e);
        },
    }
    let (rose, shape) = match cdf.read_var_f64("ROSE") {
        Ok(p) => p,
        Err(error) => {
            return Err(EtopoError::Variable { var: EtopoVar::Rose, error });
        },
    };
    let nlat: usize = grid.nlat();
    let nlon: usize = grid.nlon();
    if shape.len() != 2 || shape[0] != nlat || shape[1] != nlon {
        return Err(EtopoError::RoseShape);
    }
    proof {
        assert(shape@ == seq![nlat, nlon]);
        reveal_with_fuel(cell_count, 3);
        assert(shape@.drop_last().drop_last() == Seq::<usize>::empty());
        assert(cell_count(shape@) == nlat * nlon) by (nonlinear_arith)
            requires
                cell_count(shape@) == (1 * nlat) * nlon,
        ;
    }
    Ok(Grid2 { nrow: nlat, ncol: nlon, cells: rose })
}

/// A coordinate is not far from itself, unless it is NaN.
proof fn lemma_not_far(a: u64)
    requires
        !nan(a),
    ensures
        !far(a, a),
{
    if far(a, a) {
        let d = choose|d: u64| apart(a, a, d) && #[trigger] above(d, TOLERANCE);
        if finite(a) {
            let fmt = Format::Double;
            crate::rounding::lemma_worth_orders(fmt, 0, 1);
            crate::rounding::lemma_between(fmt, 0, 1, 0, 0);
            lemma_nearest_unique(fmt, 0, 1, 0, d as int);
            crate::double::lemma_magnitude_orders(d, TOLERANCE);
        }
    }
}

/// An axis with as many coordinates as the grid's, none of them far from the grid's, passes the
/// comparison.
pub proof fn law_agreeing_axis_passes(axis: Axis, got: Seq<u64>, want: Seq<u64>)
    requires
        got.len() == want.len(),
        forall|k: int| 0 <= k < got.len() ==> !far(#[trigger] got[k], want[k]),
    ensures
        axis_fault(axis, got, want) is None,
    decreases got.len(),
{
    if got.len() > 0 {
        assert(!far(got[0], want[0]));
        assert forall|k: int| 0 <= k < got.skip(1).len() implies !far(#[trigger] got.skip(1)[k], want.skip(1)[k]) by {
            assert(!far(got[k + 1], want[k + 1]));
        }
        law_agreeing_axis_passes(axis, got.skip(1), want.skip(1));
    }
}

/// A file whose axis is the grid's, bit for bit and without NaN, passes the comparison.
pub proof fn law_same_axis_passes(axis: Axis, coords: Seq<u64>)
    requires
        forall|k: int| 0 <= k < coords.len() ==> !nan(#[trigger] coords[k]),
    ensures
        axis_fault(axis, coords, coords) is None,
{
    assert forall|k: int| 0 <= k < coords.len() implies !far(#[trigger] coords[k], coords[k]) by {
        lemma_not_far(coords[k]);
    }
    law_agreeing_axis_passes(axis, coords, coords);
}

/// An axis that passes is the grid's: it has as many coordinates, none of them is NaN, and none is
/// further from the grid's than the tolerance.
pub proof fn law_passing_axis_is_the_grids(axis: Axis, got: Seq<u64>, want: Seq<u64>, k: int)
    requires
        axis_fault(axis, got, want) is None,
        0 <= k < got.len(),
    ensures
        got.len() == want.len(),
        !nan(got[k]),
        !nan(want[k]),
        forall|d: u64| apart(got[k], want[k], d) ==> !#[trigger] above(d, TOLERANCE),
    decreases k,
{
    if k > 0 {
        assert(got.skip(1)[k - 1] == got[k] && want.skip(1)[k - 1] == want[k]);
        law_passing_axis_is_the_grids(axis, got.skip(1), want.skip(1), k - 1);
    }
}

} // verus!
