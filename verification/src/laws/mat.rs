//! The mapped fields' files: where a number stands in a file, and where it stands in a layer.

use vstd::prelude::*;

use crate::bytes::{be32, be64, le32, le64};
use crate::codec::zlib_inflated;
use crate::double::{nan, same, units, widened};
use crate::grid::{cell_count, Grid2, Grid3};
use crate::ingest::{
    array_in, ensemble_fault, extended, heat, holds_months, law_missing_stays_missing, mean_fault, month_added,
    month_fault, IngestError, LayerData, MonthFiles,
};
use crate::matread::{
    block_fault, element, extents, file_array, inflated_array, is_block_of, is_map_of, map_fault, matrix,
    payload_values, MatError, MatModel,
};
use crate::rounding::times;

verus! {

/// Numbers are read byte by byte: the first byte is the least significant in a mapped field, and the most
/// significant in a relief file.
pub proof fn law_numbers_are_their_bytes(s: Seq<u8>, at: int)
    ensures
        le32(s, at) as int == s[at] + 256 * s[at + 1] + 65_536 * s[at + 2] + 16_777_216 * s[at + 3],
        le64(s, at) as int == le32(s, at) + 4_294_967_296 * le32(s, at + 4),
        be32(s, at) as int == s[at + 3] + 256 * s[at + 2] + 65_536 * s[at + 1] + 16_777_216 * s[at],
        be64(s, at) as int == be32(s, at + 4) + 4_294_967_296 * be32(s, at),
{
}

/// An element whose type word has an empty upper half is followed by its length and, behind eight bytes,
/// by its payload. It is read where the payload ends within the buffer; the next element begins at the
/// first multiple of eight bytes behind it.
pub proof fn law_element_is_read_behind_its_tag(s: Seq<u8>, off: int, n: int)
    requires
        0 <= off,
        off + 8 <= s.len(),
        s[off + 2] == 0,
        s[off + 3] == 0,
        n == s[off + 4] + 256 * s[off + 5] + 65_536 * s[off + 6] + 16_777_216 * s[off + 7],
    ensures
        off + 8 + n > s.len() ==> element(s, off) == Err::<crate::matread::ElementModel, MatError>(MatError::PayloadPastEnd),
        off + 8 + n <= s.len() ==> {
            &&& element(s, off) matches Ok(e)
            &&& e.dtype == s[off] + 256 * s[off + 1]
            &&& e.payload.len() == n
            &&& forall|i: int| 0 <= i < n ==> #[trigger] e.payload[i] == s[off + 8 + i]
            &&& off + 8 + n <= e.next < off + 8 + n + 8
            &&& (e.next - off) % 8 == 0
        },
{
    assert(le32(s, off) == s[off] + 256 * s[off + 1]);
    assert(le32(s, off + 4) == n);
}

/// An element whose type word has a length in its upper half holds its payload inline, and the next one
/// begins eight bytes on.
pub proof fn law_small_element_is_read_inline(s: Seq<u8>, off: int, n: int)
    requires
        0 <= off,
        off + 8 <= s.len(),
        n == s[off + 2] + 256 * s[off + 3],
        n != 0,
    ensures
        off + 4 + n > s.len() ==> element(s, off) == Err::<crate::matread::ElementModel, MatError>(MatError::SmallPastEnd),
        off + 4 + n <= s.len() ==> {
            &&& element(s, off) matches Ok(e)
            &&& e.dtype == s[off] + 256 * s[off + 1]
            &&& e.payload.len() == n
            &&& forall|i: int| 0 <= i < n ==> #[trigger] e.payload[i] == s[off + 4 + i]
            &&& e.next == off + 8
        },
{
    let word = le32(s, off);
    assert(word == s[off] + 256 * s[off + 1] + 65_536 * n);
    assert(word / 65_536 == n);
    assert(word % 65_536 == s[off] + 256 * s[off + 1]);
}

/// An element without room for a tag is refused.
pub proof fn law_element_needs_its_tag(s: Seq<u8>, off: int)
    ensures
        off + 8 > s.len() <==> element(s, off) == Err::<crate::matread::ElementModel, MatError>(MatError::HeaderPastEnd),
{
}

/// Payloads of the two numeric types are read whole: doubles as they are, singles as the doubles of the
/// same value, one behind the other. Every other type is refused.
pub proof fn law_payloads_are_read_whole(dtype: u32, p: Seq<u8>, k: int)
    ensures
        payload_values(dtype, p) is Ok <==> dtype == 7 || dtype == 9,
        dtype != 7 && dtype != 9 ==> payload_values(dtype, p) == Err::<Seq<u64>, MatError>(MatError::DataType { dtype }),
        payload_values(9, p)->Ok_0.len() == p.len() / 8,
        payload_values(7, p)->Ok_0.len() == p.len() / 4,
        0 <= k < p.len() / 8 ==> payload_values(9, p)->Ok_0[k] == le64(p, 8 * k),
        0 <= k < p.len() / 4 ==> payload_values(7, p)->Ok_0[k] == widened(le32(p, 4 * k)),
{
}

/// Extents are 32-bit numbers, one behind the other; a negative one is taken round the largest extent.
pub proof fn law_extents_are_read_whole(p: Seq<u8>, k: int)
    requires
        0 <= k < p.len() / 4,
    ensures
        extents(p).len() == p.len() / 4,
        le32(p, 4 * k) < 0x8000_0000 ==> extents(p)[k] == le32(p, 4 * k),
        le32(p, 4 * k) >= 0x8000_0000 ==> extents(p)[k] == usize::MAX + 1 + (le32(p, 4 * k) - 0x1_0000_0000),
{
}

/// An array has as many cells as its extents multiply to.
pub proof fn law_cells_are_the_product(dims: Seq<usize>, n: usize)
    ensures
        cell_count(Seq::empty()) == 1,
        cell_count(dims.push(n)) == cell_count(dims) * n,
        dims.len() == 2 ==> cell_count(dims) == dims[0] * dims[1],
        dims.len() == 3 ==> cell_count(dims) == dims[0] * dims[1] * dims[2],
{
    assert(dims.push(n).drop_last() =~= dims);
    reveal_with_fuel(cell_count, 4);
}

/// A matrix is read from its four elements: flags, extents, name and values. It is read where they are all
/// there, the extents are whole 32-bit integers, and the values are numbers, as many as the extents
/// multiply to.
pub proof fn law_matrix_is_its_four_elements(body: Seq<u8>, a: int, b: int, c: int)
    requires
        element(body, 0) matches Ok(flags) && a == flags.next,
        element(body, a) matches Ok(dims) && b == dims.next,
        element(body, b) matches Ok(name) && c == name.next,
        element(body, c) is Ok,
    ensures
        ({
            let (dims, data) = (element(body, a)->Ok_0, element(body, c)->Ok_0);
            let size = if data.dtype == 9 {
                8int
            } else {
                4
            };
            &&& matrix(body) is Ok <==> {
                &&& dims.dtype == 5
                &&& dims.payload.len() % 4 == 0
                &&& data.dtype == 7 || data.dtype == 9
                &&& data.payload.len() as int / size == cell_count(extents(dims.payload))
            }
            &&& matrix(body) matches Ok(m) ==> {
                &&& m.dims == extents(dims.payload)
                &&& m.data.len() == cell_count(m.dims)
                &&& forall|k: int|
                    0 <= k < m.data.len() ==> #[trigger] m.data[k] == if data.dtype == 9 {
                        le64(data.payload, 8 * k)
                    } else {
                        widened(le32(data.payload, 4 * k))
                    }
            }
        }),
{
}

/// A matrix with an element that cannot be read is refused.
pub proof fn law_matrix_needs_its_four_elements(body: Seq<u8>)
    requires
        matrix(body) is Ok,
    ensures
        ({
            &&& element(body, 0) matches Ok(flags)
            &&& element(body, flags.next) matches Ok(dims)
            &&& element(body, dims.next) matches Ok(name)
            &&& element(body, name.next) is Ok
        }),
{
}

/// A file is one that begins with `MATLAB` and is at least as long as its header. What follows the header
/// is a matrix, or a compressed one, which is read as what it inflates to; anything else is refused.
pub proof fn law_file_is_header_and_matrix(raw: Seq<u8>)
    ensures
        file_array(raw) == Err::<MatModel, MatError>(MatError::NotMat) <== raw.len() < 128 || !(raw[0] == 77 && raw[1] == 65
            && raw[2] == 84 && raw[3] == 76 && raw[4] == 65 && raw[5] == 66),
        raw.len() >= 128 && raw[0] == 77 && raw[1] == 65 && raw[2] == 84 && raw[3] == 76 && raw[4] == 65 && raw[5] == 66 ==> {
            match element(raw.skip(128), 0) {
                Err(x) => file_array(raw) == Err::<MatModel, MatError>(x),
                Ok(e) => {
                    &&& e.dtype == 14 ==> file_array(raw) == matrix(e.payload)
                    &&& e.dtype == 15 ==> file_array(raw) == match zlib_inflated(e.payload) {
                        None => Err(MatError::Inflate),
                        Some(plain) => inflated_array(plain),
                    }
                    &&& e.dtype != 14 && e.dtype != 15 ==> file_array(raw) == Err::<MatModel, MatError>(
                        MatError::FirstElement { dtype: e.dtype },
                    )
                },
            }
        },
{
    let want = seq![0x4du8, 0x41, 0x54, 0x4c, 0x41, 0x42];
    if raw.len() >= 128 {
        if raw[0] == 77 && raw[1] == 65 && raw[2] == 84 && raw[3] == 76 && raw[4] == 65 && raw[5] == 66 {
            assert(raw.take(6) =~= want);
        } else if raw.take(6) == want {
            assert(raw.take(6)[0] == raw[0] && raw.take(6)[1] == raw[1] && raw.take(6)[2] == raw[2]);
            assert(raw.take(6)[3] == raw[3] && raw.take(6)[4] == raw[4] && raw.take(6)[5] == raw[5]);
        }
    }
}

/// What a compressed element inflates to is read only where it is a matrix.
pub proof fn law_inflated_is_a_matrix(plain: Seq<u8>)
    ensures
        match element(plain, 0) {
            Err(x) => inflated_array(plain) == Err::<MatModel, MatError>(x),
            Ok(e) => {
                &&& e.dtype == 14 ==> inflated_array(plain) == matrix(e.payload)
                &&& e.dtype != 14 ==> inflated_array(plain) == Err::<MatModel, MatError>(
                    MatError::NotMatrix { dtype: e.dtype },
                )
            },
        },
{
}

/// A map keeps every value of its array: the file's first index runs fastest, the map's last one.
pub proof fn law_map_keeps_every_value(g: Grid2<u64>, m: MatModel, i: int, j: int)
    requires
        is_map_of(g, m),
        0 <= i < m.dims[0],
        0 <= j < m.dims[1],
    ensures
        g.cells.len() == m.dims[0] * m.dims[1],
        g.cells@[i * m.dims[1] + j] == m.data[i + m.dims[0] * j],
{
    assert(g.at(i, j) == m.data[i + m.dims[0] * j]);
}

/// A block keeps every value of its array: the file's first index runs fastest, the block's last one.
pub proof fn law_block_keeps_every_value(g: Grid3<u64>, m: MatModel, i: int, j: int, k: int)
    requires
        is_block_of(g, m),
        0 <= i < m.dims[0],
        0 <= j < m.dims[1],
        0 <= k < m.dims[2],
    ensures
        g.cells.len() == m.dims[0] * m.dims[1] * m.dims[2],
        g.cells@[(i * m.dims[1] + j) * m.dims[2] + k] == m.data[i + m.dims[0] * (j + m.dims[1] * k)],
{
    assert(g.at(i, j, k) == m.data[i + m.dims[0] * (j + m.dims[1] * k)]);
}

/// An array of two extents is a map and one of three a block, unless it is too large for one; an array of
/// another rank is neither.
pub proof fn law_rank_tells_maps_from_blocks(dims: Seq<usize>)
    ensures
        dims.len() != 2 ==> map_fault(dims) == Some(MatError::Rank { ndim: dims.len() as usize }),
        dims.len() != 3 ==> block_fault(dims) == Some(MatError::Rank { ndim: dims.len() as usize }),
        dims.len() == 2 && dims[0] > 0 && dims[1] > 0 ==> (map_fault(dims) is None <==> dims[0] * dims[1] <= isize::MAX),
        dims.len() == 3 && dims[0] > 0 && dims[1] > 0 && dims[2] > 0 ==> (block_fault(dims) is None <==> dims[0] * dims[1]
            * dims[2] <= isize::MAX),
{
}

/// A value is missing where it is NaN or the one that stands for a missing value, and then its heat
/// content is NaN; every other value's is the value times the scale.
pub proof fn law_heat_is_the_scaled_value(raw: u64, sentinel: Option<u64>, scale: u64)
    ensures
        sentinel matches Some(v) ==> (!nan(raw) && !nan(v) && units(raw) == units(v) ==> nan(heat(raw, sentinel, scale))),
        sentinel matches Some(v) ==> (nan(raw) || nan(v) || units(raw) != units(v) ==> heat(raw, sentinel, scale) == times(
            raw,
            scale,
        )),
        sentinel is None ==> heat(raw, sentinel, scale) == times(raw, scale),
{
    if nan(raw) || (sentinel matches Some(v) && same(raw, v)) {
        law_missing_stays_missing(raw, sentinel, scale);
    }
}

/// A layer holds every month's map: row by row, the value that the month's file has for the longitude and
/// the latitude of the cell, as heat content.
pub proof fn law_layer_holds_every_mean_value(
    data: LayerData,
    files: Seq<MonthFiles>,
    mean_only: bool,
    sentinel: Option<u64>,
    scale: u64,
    t: int,
    j: int,
    i: int,
)
    requires
        holds_months(data, files, files.len() as int, mean_only, sentinel, scale),
        0 <= t < files.len(),
        0 <= j < data.ohc_mean.nlat,
        0 <= i < data.ohc_mean.nlon,
    ensures
        data.ohc_mean.maps.len() == files.len(),
        data.ohc_mean.maps@[t].cells@[j * data.ohc_mean.nlon + i] == heat(
            array_in(files[t].mean@).data[i + data.ohc_mean.nlon * j],
            sentinel,
            scale,
        ),
{
    let map = data.ohc_mean.maps@[t];
    assert(map.at(j, i) == map.cells@[j * data.ohc_mean.nlon + i]);
}

/// A layer with an ensemble holds every month's map of every member, and a layer without holds none.
pub proof fn law_layer_holds_every_member_value(
    data: LayerData,
    files: Seq<MonthFiles>,
    sentinel: Option<u64>,
    scale: u64,
    m: int,
    t: int,
    j: int,
    i: int,
)
    requires
        holds_months(data, files, files.len() as int, false, sentinel, scale),
        0 <= m < 100,
        0 <= t < files.len(),
        0 <= j < data.ohc_mean.nlat,
        0 <= i < data.ohc_mean.nlon,
    ensures
        data.ohc_ensemble matches Some(stacks) && {
            &&& stacks.len() == 100
            &&& stacks@[m].maps.len() == files.len()
            &&& stacks@[m].maps@[t].cells@[j * data.ohc_mean.nlon + i] == heat(
                array_in(files[t].ensemble->0@).data[i + data.ohc_mean.nlon * (j + data.ohc_mean.nlat * m)],
                sentinel,
                scale,
            )
        },
{
    let map = data.ohc_ensemble->0@[m].maps@[t];
    assert(map.at(j, i) == map.cells@[j * data.ohc_mean.nlon + i]);
}

/// A month that is added is one map more in the mean and in every member, with the values of its own files;
/// the maps before it stay as they were.
pub proof fn law_added_month_is_that_of_its_files(
    before: LayerData,
    after: LayerData,
    mean: Seq<u8>,
    ensemble: Option<Seq<u8>>,
    sentinel: Option<u64>,
    scale: u64,
    m: int,
    j: int,
    i: int,
)
    requires
        month_added(before, after, mean, ensemble, sentinel, scale),
        0 <= m < 100,
        0 <= j < before.ohc_mean.nlat,
        0 <= i < before.ohc_mean.nlon,
    ensures
        ({
            let (nlat, nlon) = (before.ohc_mean.nlat, before.ohc_mean.nlon);
            let (old_maps, new_maps) = (before.ohc_mean.maps@, after.ohc_mean.maps@);
            &&& new_maps.len() == old_maps.len() + 1
            &&& forall|t: int| 0 <= t < old_maps.len() ==> #[trigger] new_maps[t] == old_maps[t]
            &&& new_maps.last().cells@[j * nlon + i] == heat(array_in(mean).data[i + nlon * j], sentinel, scale)
            &&& before.ohc_ensemble is None <==> after.ohc_ensemble is None
            &&& after.ohc_ensemble is None <==> ensemble is None
            &&& ensemble matches Some(raw) ==> {
                let (old_member, new_member) = (before.ohc_ensemble->0@[m].maps@, after.ohc_ensemble->0@[m].maps@);
                &&& new_member.len() == old_member.len() + 1
                &&& forall|t: int| 0 <= t < old_member.len() ==> #[trigger] new_member[t] == old_member[t]
                &&& new_member.last().cells@[j * nlon + i] == heat(
                    array_in(raw).data[i + nlon * (j + nlat * m)],
                    sentinel,
                    scale,
                )
            }
        }),
{
    let (nlat, nlon) = (before.ohc_mean.nlat, before.ohc_mean.nlon);
    let (old_maps, new_maps) = (before.ohc_mean.maps@, after.ohc_mean.maps@);
    assert forall|t: int| 0 <= t < old_maps.len() implies #[trigger] new_maps[t] == old_maps[t] by {
        assert(new_maps.take(old_maps.len() as int)[t] == new_maps[t]);
    }
    assert(new_maps.last().at(j, i) == new_maps.last().cells@[j * nlon + i]);
    if ensemble is Some {
        let (old_stacks, new_stacks) = (before.ohc_ensemble->0@, after.ohc_ensemble->0@);
        let (old_member, new_member) = (old_stacks[m].maps@, new_stacks[m].maps@);
        assert(extended(old_stacks[m], new_stacks[m]));
        assert forall|t: int| 0 <= t < old_member.len() implies #[trigger] new_member[t] == old_member[t] by {
            assert(new_member.take(old_member.len() as int)[t] == new_member[t]);
        }
        assert(new_member.last().at(j, i) == new_member.last().cells@[j * nlon + i]);
    }
}

/// A layer of a mean-only run has no ensemble.
pub proof fn law_mean_only_layer_has_no_ensemble(
    data: LayerData,
    files: Seq<MonthFiles>,
    n: int,
    sentinel: Option<u64>,
    scale: u64,
)
    requires
        holds_months(data, files, n, true, sentinel, scale),
    ensures
        data.ohc_ensemble is None,
{
}

/// A month is taken where its mean file holds a map of the grid and its ensemble file, if the run has one,
/// a hundred of them; it is refused otherwise.
pub proof fn law_month_has_the_shape_of_the_grid(mean: Seq<u8>, ensemble: Option<Seq<u8>>, nlat: int, nlon: int)
    requires
        0 < nlat <= 180,
        0 < nlon <= 360,
    ensures
        month_fault(mean, ensemble, nlat, nlon) is None <==> {
            &&& file_array(mean) matches Ok(m)
            &&& m.dims.len() == 2
            &&& m.dims[0] == nlon
            &&& m.dims[1] == nlat
            &&& match ensemble {
                None => true,
                Some(raw) => {
                    &&& file_array(raw) matches Ok(e)
                    &&& e.dims.len() == 3
                    &&& e.dims[0] == nlon
                    &&& e.dims[1] == nlat
                    &&& e.dims[2] == 100
                },
            }
        },
{
    assert(nlon * nlat <= 64_800) by (nonlinear_arith)
        requires
            0 < nlat <= 180,
            0 < nlon <= 360,
    ;
    assert(nlon * nlat * 100 <= 6_480_000);
    assert(isize::MAX >= 0x7fff_ffff);
}

/// Of a faulty month the mean file is reported first: what is wrong with its array, then its rank, then its
/// extents; the ensemble file comes after it.
pub proof fn law_faulty_month_names_its_fault(mean: Seq<u8>, ensemble: Option<Seq<u8>>, nlat: int, nlon: int)
    ensures
        file_array(mean) matches Err(x) ==> month_fault(mean, ensemble, nlat, nlon) == Some(IngestError::Mean(x)),
        file_array(mean) matches Ok(m) ==> (m.dims.len() != 2 ==> month_fault(mean, ensemble, nlat, nlon) == Some(
            IngestError::Mean(MatError::Rank { ndim: m.dims.len() as usize }),
        )),
        file_array(mean) matches Ok(m) ==> (map_fault(m.dims) is None && (m.dims[0] != nlon || m.dims[1] != nlat)
            ==> month_fault(mean, ensemble, nlat, nlon) == Some(IngestError::MeanShape)),
        mean_fault(mean, nlat, nlon) is None ==> month_fault(mean, ensemble, nlat, nlon) == match ensemble {
            None => None,
            Some(raw) => ensemble_fault(raw, nlat, nlon),
        },
        ensemble matches Some(raw) ==> (file_array(raw) matches Err(x) ==> ensemble_fault(raw, nlat, nlon) == Some(
            IngestError::Ensemble(x),
        )),
        ensemble matches Some(raw) ==> (file_array(raw) matches Ok(e) ==> (e.dims.len() != 3 ==> ensemble_fault(
            raw,
            nlat,
            nlon,
        ) == Some(IngestError::Ensemble(MatError::Rank { ndim: e.dims.len() as usize })))),
        ensemble matches Some(raw) ==> (file_array(raw) matches Ok(e) ==> (block_fault(e.dims) is None && (e.dims[0] != nlon
            || e.dims[1] != nlat || e.dims[2] != 100) ==> ensemble_fault(raw, nlat, nlon) == Some(
            IngestError::EnsembleShape,
        ))),
{
}

} // verus!
