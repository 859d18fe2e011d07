//! Classic NetCDF headers as they are stored, and that they are read back.

use vstd::prelude::*;

use crate::bytes::{byte_at, lemma_four_bytes, utf8_lossy};
use crate::ncread::{
    file_vars, pad4, skip_attribute, skip_attributes, skip_list, take_begin, take_dim_list, take_dims, take_layout,
    take_name, take_shape, take_u32, take_var, take_var_list, take_vars, type_size, CdfError, VarModel, NC_ATTRIBUTE,
    NC_DIMENSION, NC_VARIABLE,
};

verus! {

/// A 32-bit number as big-endian bytes.
#[verifier::opaque]
pub open spec fn word_bytes(x: u32) -> Seq<u8> {
    seq![byte_at(x as int, 3), byte_at(x as int, 2), byte_at(x as int, 1), byte_at(x as int, 0)]
}

/// A name as it is stored: its length, its bytes, and zeros up to a multiple of four.
#[verifier::opaque]
pub open spec fn name_bytes(name: Seq<u8>) -> Seq<u8> {
    word_bytes(name.len() as u32) + name + Seq::new(pad4(name.len() as int) as nat, |i: int| 0u8)
}

/// Numbers as they are stored, one behind the other.
pub open spec fn words_bytes(words: Seq<u32>) -> Seq<u8>
    decreases words.len(),
{
    if words.len() == 0 {
        Seq::empty()
    } else {
        word_bytes(words[0]) + words_bytes(words.skip(1))
    }
}

/// A dimension: its name and its size.
pub struct StoredDim {
    pub name: Seq<u8>,
    pub size: u32,
}

/// Dimensions as they are stored.
pub open spec fn dims_bytes(dims: Seq<StoredDim>) -> Seq<u8>
    decreases dims.len(),
{
    if dims.len() == 0 {
        Seq::empty()
    } else {
        (name_bytes(dims[0].name) + word_bytes(dims[0].size)) + dims_bytes(dims.skip(1))
    }
}

/// An attribute: its name, the type and the number of its values, and their bytes.
pub struct StoredAttr {
    pub name: Seq<u8>,
    pub nctype: u32,
    pub count: u32,
    pub values: Seq<u8>,
}

/// The attribute can be stored: its values take the bytes that their type and number ask for.
pub open spec fn storable_attr(a: StoredAttr) -> bool {
    a.name.len() < 0x1_0000_0000 && a.values.len() == a.count * type_size(a.nctype)
}

/// All attributes of a list can be stored.
pub open spec fn storable_attrs(attrs: Seq<StoredAttr>) -> bool {
    attrs.len() < 0x1_0000_0000 && forall|k: int| 0 <= k < attrs.len() ==> storable_attr(#[trigger] attrs[k])
}

/// The values of an attribute as they are stored, with zeros up to a multiple of four bytes.
#[verifier::opaque]
pub open spec fn values_bytes(values: Seq<u8>) -> Seq<u8> {
    values + Seq::new(pad4(values.len() as int) as nat, |i: int| 0u8)
}

/// An attribute as it is stored.
pub open spec fn attr_bytes(a: StoredAttr) -> Seq<u8> {
    name_bytes(a.name) + (word_bytes(a.nctype) + (word_bytes(a.count) + values_bytes(a.values)))
}

/// Attributes as they are stored.
pub open spec fn attrs_bytes(attrs: Seq<StoredAttr>) -> Seq<u8>
    decreases attrs.len(),
{
    if attrs.len() == 0 {
        Seq::empty()
    } else {
        attr_bytes(attrs[0]) + attrs_bytes(attrs.skip(1))
    }
}

/// The tag of a stored attribute list; an empty list has none.
pub open spec fn list_tag(attrs: Seq<StoredAttr>) -> u32 {
    if attrs.len() == 0 {
        0
    } else {
        NC_ATTRIBUTE
    }
}

/// An attribute list as it is stored.
pub open spec fn list_bytes(attrs: Seq<StoredAttr>) -> Seq<u8> {
    word_bytes(list_tag(attrs)) + (word_bytes(attrs.len() as u32) + attrs_bytes(attrs))
}

/// A variable: its name, the numbers of its dimensions, its attributes, its type, its size, and where
/// its data begins.
pub struct StoredVar {
    pub name: Seq<u8>,
    pub ids: Seq<u32>,
    pub attrs: Seq<StoredAttr>,
    pub nctype: u32,
    pub vsize: u32,
    pub begin: u64,
}

/// A place in a file as it is stored, in 64 or in 32 bits.
pub open spec fn place_bytes(begin: u64, wide: bool) -> Seq<u8> {
    if wide {
        word_bytes((begin / 0x1_0000_0000) as u32) + word_bytes((begin % 0x1_0000_0000) as u32)
    } else {
        word_bytes(begin as u32)
    }
}

/// A variable as it is stored.
pub open spec fn var_bytes(v: StoredVar, wide: bool) -> Seq<u8> {
    name_bytes(v.name) + (word_bytes(v.ids.len() as u32) + (words_bytes(v.ids) + (list_bytes(v.attrs) + (word_bytes(
        v.nctype,
    ) + (word_bytes(v.vsize) + place_bytes(v.begin, wide))))))
}

/// Variables as they are stored.
pub open spec fn vars_bytes(vars: Seq<StoredVar>, wide: bool) -> Seq<u8>
    decreases vars.len(),
{
    if vars.len() == 0 {
        Seq::empty()
    } else {
        var_bytes(vars[0], wide) + vars_bytes(vars.skip(1), wide)
    }
}

/// The sizes of dimensions.
pub open spec fn sizes(dims: Seq<StoredDim>) -> Seq<usize> {
    dims.map_values(|d: StoredDim| d.size as usize)
}

/// What a stored variable describes.
pub open spec fn described(v: StoredVar, dims: Seq<usize>) -> VarModel {
    VarModel {
        name: utf8_lossy(v.name),
        nctype: v.nctype,
        shape: v.ids.map_values(|id: u32| dims[id as int]),
        begin: v.begin,
    }
}

/// The variable can be stored: it names dimensions that there are, and its numbers fit.
pub open spec fn storable(v: StoredVar, ndims: int, wide: bool) -> bool {
    &&& v.name.len() < 0x1_0000_0000
    &&& v.ids.len() < 0x1_0000_0000
    &&& forall|k: int| 0 <= k < v.ids.len() ==> #[trigger] v.ids[k] < ndims
    &&& storable_attrs(v.attrs)
    &&& wide || v.begin < 0x1_0000_0000
}

/// Joining is associative.
proof fn lemma_joins(a: Seq<u8>, b: Seq<u8>, c: Seq<u8>)
    ensures
        (a + b) + c == a + (b + c),
        (a + b).len() == a.len() + b.len(),
{
    assert((a + b) + c =~= a + (b + c));
}

/// The number `x` stands at `off`.
#[verifier::opaque]
spec fn has_word(s: Seq<u8>, off: int, x: u32) -> bool {
    take_u32(s, off) == Ok::<(u32, int), CdfError>((x, off + 4))
}

/// A name stands at `off` and ends at `end`.
#[verifier::opaque]
spec fn has_name(s: Seq<u8>, off: int, name: Seq<u8>, end: int) -> bool {
    take_name(s, off) == Ok::<(Seq<char>, int), CdfError>((utf8_lossy(name), end))
}

/// Dimensions stand at `off` and end at `end`.
#[verifier::opaque]
spec fn has_dims(s: Seq<u8>, off: int, dims: Seq<StoredDim>, acc: Seq<usize>, end: int) -> bool {
    take_dims(s, off, dims.len(), acc) == Ok::<(Seq<usize>, int), CdfError>((acc + sizes(dims), end))
}

/// Dimension numbers stand at `off` and end at `end`.
#[verifier::opaque]
spec fn has_shape(s: Seq<u8>, off: int, ids: Seq<u32>, dims: Seq<usize>, acc: Seq<usize>, end: int) -> bool {
    take_shape(s, off, ids.len(), dims, acc) == Ok::<(Seq<usize>, int), CdfError>(
        (acc + ids.map_values(|id: u32| dims[id as int]), end),
    )
}

/// An attribute stands at `off` and ends at `end`.
#[verifier::opaque]
spec fn has_attr(s: Seq<u8>, off: int, end: int) -> bool {
    skip_attribute(s, off) == Ok::<int, CdfError>(end)
}

/// `n` attributes stand at `off` and end at `end`.
#[verifier::opaque]
spec fn has_attrs(s: Seq<u8>, off: int, n: nat, end: int) -> bool {
    skip_attributes(s, off, n) == Ok::<int, CdfError>(end)
}

/// An attribute list stands at `off` and ends at `end`.
#[verifier::opaque]
spec fn has_list(s: Seq<u8>, off: int, end: int) -> bool {
    skip_list(s, off) == Ok::<int, CdfError>(end)
}

/// A place in a file stands at `off` and ends at `end`.
#[verifier::opaque]
spec fn has_begin(s: Seq<u8>, off: int, begin: u64, wide: bool, end: int) -> bool {
    take_begin(s, off, wide) == Ok::<(u64, int), CdfError>((begin, end))
}

/// A variable stands at `off` and ends at `end`.
#[verifier::opaque]
spec fn has_var(s: Seq<u8>, off: int, v: StoredVar, dims: Seq<usize>, wide: bool, end: int) -> bool {
    take_var(s, off, dims, wide) == Ok::<(VarModel, int), CdfError>((described(v, dims), end))
}

/// Variables stand at `off`.
#[verifier::opaque]
spec fn has_vars(
    s: Seq<u8>,
    off: int,
    vars: Seq<StoredVar>,
    dims: Seq<usize>,
    wide: bool,
    acc: Seq<VarModel>,
) -> bool {
    take_vars(s, off, vars.len(), dims, wide, acc) == Ok::<Seq<VarModel>, CdfError>(
        acc + vars.map_values(|v: StoredVar| described(v, dims)),
    )
}

/// A stored number is read back.
proof fn lemma_word(before: Seq<u8>, x: u32, after: Seq<u8>)
    ensures
        has_word(before + (word_bytes(x) + after), before.len() as int, x),
        word_bytes(x).len() == 4,
{
    reveal(has_word);
    reveal(word_bytes);
    let s = before + (word_bytes(x) + after);
    let off = before.len() as int;
    lemma_four_bytes(x as int);
    assert(s[off] == byte_at(x as int, 3) && s[off + 1] == byte_at(x as int, 2) && s[off + 2] == byte_at(x as int, 1)
        && s[off + 3] == byte_at(x as int, 0));
}

/// A stored name is read back.
proof fn lemma_name(before: Seq<u8>, name: Seq<u8>, after: Seq<u8>)
    requires
        name.len() < 0x1_0000_0000,
    ensures
        has_name(
            before + (name_bytes(name) + after),
            before.len() as int,
            name,
            before.len() as int + name_bytes(name).len(),
        ),
{
    reveal(has_word);
    reveal(has_name);
    reveal(name_bytes);
    let n = name.len() as int;
    let fill = Seq::new(pad4(n) as nat, |i: int| 0u8);
    let s = before + (name_bytes(name) + after);
    lemma_word(before, n as u32, name + fill + after);
    assert(before + (word_bytes(n as u32) + (name + fill + after)) =~= s);
    let o = before.len() as int + 4;
    assert(s.subrange(o, o + n) =~= name);
}

/// One dimension more in front.
proof fn lemma_dims_step(s: Seq<u8>, off: int, dims: Seq<StoredDim>, acc: Seq<usize>, mid: int, end: int)
    requires
        dims.len() > 0,
        has_name(s, off, dims[0].name, mid),
        has_word(s, mid, dims[0].size),
        has_dims(s, mid + 4, dims.skip(1), acc.push(dims[0].size as usize), end),
    ensures
        has_dims(s, off, dims, acc, end),
{
    reveal(has_name);
    reveal(has_word);
    reveal(has_dims);
    assert(acc.push(dims[0].size as usize) + sizes(dims.skip(1)) =~= acc + sizes(dims));
}

/// Stored dimensions are read back.
proof fn lemma_dims(before: Seq<u8>, dims: Seq<StoredDim>, after: Seq<u8>, acc: Seq<usize>)
    requires
        forall|k: int| 0 <= k < dims.len() ==> (#[trigger] dims[k]).name.len() < 0x1_0000_0000,
    ensures
        has_dims(
            before + (dims_bytes(dims) + after),
            before.len() as int,
            dims,
            acc,
            before.len() as int + dims_bytes(dims).len(),
        ),
    decreases dims.len(),
{
    let s = before + (dims_bytes(dims) + after);
    if dims.len() == 0 {
        reveal(has_dims);
        assert(acc + sizes(dims) =~= acc);
    } else {
        let (d, rest) = (dims[0], dims.skip(1));
        let (n, w, r) = (name_bytes(d.name), word_bytes(d.size), dims_bytes(rest));
        lemma_name(before, d.name, w + (r + after));
        lemma_word(before + n, d.size, r + after);
        lemma_dims((before + n) + w, rest, after, acc.push(d.size as usize));
        lemma_joins(before, n, w + (r + after));
        lemma_joins(before + n, w, r + after);
        lemma_joins(n + w, r, after);
        lemma_joins(n, w, r + after);
        lemma_joins(n, w, r);
        assert(dims_bytes(dims).len() == n.len() + 4 + r.len());
        lemma_dims_step(
            s,
            before.len() as int,
            dims,
            acc,
            before.len() as int + n.len(),
            before.len() as int + dims_bytes(dims).len(),
        );
    }
}

/// One dimension number more in front.
proof fn lemma_shape_step(s: Seq<u8>, off: int, ids: Seq<u32>, dims: Seq<usize>, acc: Seq<usize>, end: int)
    requires
        ids.len() > 0,
        ids[0] < dims.len(),
        has_word(s, off, ids[0]),
        has_shape(s, off + 4, ids.skip(1), dims, acc.push(dims[ids[0] as int]), end),
    ensures
        has_shape(s, off, ids, dims, acc, end),
{
    reveal(has_word);
    reveal(has_shape);
    assert(acc.push(dims[ids[0] as int]) + ids.skip(1).map_values(|id: u32| dims[id as int]) =~= acc + ids.map_values(
        |id: u32| dims[id as int],
    ));
}

/// Stored dimension numbers are read back.
proof fn lemma_shape(before: Seq<u8>, ids: Seq<u32>, after: Seq<u8>, dims: Seq<usize>, acc: Seq<usize>)
    requires
        forall|k: int| 0 <= k < ids.len() ==> #[trigger] ids[k] < dims.len(),
    ensures
        has_shape(
            before + (words_bytes(ids) + after),
            before.len() as int,
            ids,
            dims,
            acc,
            before.len() as int + words_bytes(ids).len(),
        ),
    decreases ids.len(),
{
    let s = before + (words_bytes(ids) + after);
    if ids.len() == 0 {
        reveal(has_shape);
        assert(acc + ids.map_values(|id: u32| dims[id as int]) =~= acc);
    } else {
        let (w, r) = (word_bytes(ids[0]), words_bytes(ids.skip(1)));
        lemma_word(before, ids[0], r + after);
        lemma_shape(before + w, ids.skip(1), after, dims, acc.push(dims[ids[0] as int]));
        lemma_joins(w, r, after);
        lemma_joins(before, w, r + after);
        lemma_shape_step(s, before.len() as int, ids, dims, acc, before.len() as int + words_bytes(ids).len());
    }
}

/// The parts of an attribute make the attribute.
proof fn lemma_attr_step(s: Seq<u8>, off: int, a: StoredAttr, mid: int)
    requires
        storable_attr(a),
        has_name(s, off, a.name, mid),
        has_word(s, mid, a.nctype),
        has_word(s, mid + 4, a.count),
    ensures
        has_attr(s, off, mid + 8 + values_bytes(a.values).len()),
{
    reveal(has_name);
    reveal(has_word);
    reveal(has_attr);
    reveal(values_bytes);
}

/// A stored attribute is passed over.
proof fn lemma_attr(before: Seq<u8>, a: StoredAttr, after: Seq<u8>)
    requires
        storable_attr(a),
    ensures
        has_attr(before + (attr_bytes(a) + after), before.len() as int, before.len() as int + attr_bytes(a).len()),
{
    let s = before + (attr_bytes(a) + after);
    let (n, t, c, v) = (name_bytes(a.name), word_bytes(a.nctype), word_bytes(a.count), values_bytes(a.values));
    let a3 = v + after;
    let a2 = c + a3;
    let a1 = t + a2;
    let b1 = before + n;
    let b2 = b1 + t;
    lemma_joins(c, v, after);
    lemma_joins(t, c + v, after);
    lemma_joins(n, t + (c + v), after);
    lemma_joins(before, n, a1);
    lemma_joins(b1, t, a2);
    lemma_name(before, a.name, a1);
    lemma_word(b1, a.nctype, a2);
    lemma_word(b2, a.count, a3);
    assert(attr_bytes(a).len() == n.len() + 8 + v.len());
    lemma_attr_step(s, before.len() as int, a, before.len() as int + n.len());
}

/// One attribute more in front.
proof fn lemma_attrs_step(s: Seq<u8>, off: int, n: nat, mid: int, end: int)
    requires
        n > 0,
        has_attr(s, off, mid),
        has_attrs(s, mid, (n - 1) as nat, end),
    ensures
        has_attrs(s, off, n, end),
{
    reveal(has_attr);
    reveal(has_attrs);
}

/// Stored attributes are passed over.
proof fn lemma_attrs(before: Seq<u8>, attrs: Seq<StoredAttr>, after: Seq<u8>)
    requires
        storable_attrs(attrs),
    ensures
        has_attrs(
            before + (attrs_bytes(attrs) + after),
            before.len() as int,
            attrs.len(),
            before.len() as int + attrs_bytes(attrs).len(),
        ),
    decreases attrs.len(),
{
    let s = before + (attrs_bytes(attrs) + after);
    if attrs.len() == 0 {
        reveal(has_attrs);
    } else {
        let (b, r) = (attr_bytes(attrs[0]), attrs_bytes(attrs.skip(1)));
        assert forall|k: int| 0 <= k < attrs.skip(1).len() implies storable_attr(#[trigger] attrs.skip(1)[k]) by {
            assert(storable_attr(attrs[k + 1]));
        }
        assert(storable_attr(attrs[0]));
        lemma_attr(before, attrs[0], r + after);
        lemma_attrs(before + b, attrs.skip(1), after);
        lemma_joins(b, r, after);
        lemma_joins(before, b, r + after);
        lemma_attrs_step(
            s,
            before.len() as int,
            attrs.len(),
            before.len() as int + b.len(),
            before.len() as int + attrs_bytes(attrs).len(),
        );
    }
}

/// The parts of an attribute list make the list.
proof fn lemma_list_step(s: Seq<u8>, off: int, attrs: Seq<StoredAttr>, end: int)
    requires
        attrs.len() < 0x1_0000_0000,
        has_word(s, off, list_tag(attrs)),
        has_word(s, off + 4, attrs.len() as u32),
        has_attrs(s, off + 8, attrs.len(), end),
    ensures
        has_list(s, off, end),
{
    reveal(has_word);
    reveal(has_attrs);
    reveal(has_list);
}

/// A stored attribute list is passed over.
proof fn lemma_list(before: Seq<u8>, attrs: Seq<StoredAttr>, after: Seq<u8>)
    requires
        storable_attrs(attrs),
    ensures
        has_list(before + (list_bytes(attrs) + after), before.len() as int, before.len() as int + list_bytes(attrs).len()),
{
    let s = before + (list_bytes(attrs) + after);
    let (t, n, r) = (word_bytes(list_tag(attrs)), word_bytes(attrs.len() as u32), attrs_bytes(attrs));
    let a2 = r + after;
    let a1 = n + a2;
    let b1 = before + t;
    let b2 = b1 + n;
    lemma_joins(n, r, after);
    lemma_joins(t, n + r, after);
    lemma_joins(before, t, a1);
    lemma_joins(b1, n, a2);
    lemma_word(before, list_tag(attrs), a1);
    lemma_word(b1, attrs.len() as u32, a2);
    lemma_attrs(b2, attrs, after);
    assert(list_bytes(attrs).len() == 8 + r.len());
    lemma_list_step(s, before.len() as int, attrs, before.len() as int + list_bytes(attrs).len());
}

/// A stored place in a file is read back.
proof fn lemma_begin(before: Seq<u8>, begin: u64, wide: bool, after: Seq<u8>)
    requires
        wide || begin < 0x1_0000_0000,
    ensures
        has_begin(
            before + (place_bytes(begin, wide) + after),
            before.len() as int,
            begin,
            wide,
            before.len() as int + place_bytes(begin, wide).len(),
        ),
{
    let s = before + (place_bytes(begin, wide) + after);
    if wide {
        let (h, l) = ((begin / 0x1_0000_0000) as u32, (begin % 0x1_0000_0000) as u32);
        lemma_word(before, h, word_bytes(l) + after);
        lemma_word(before + word_bytes(h), l, after);
        lemma_joins(word_bytes(h), word_bytes(l), after);
        lemma_joins(before, word_bytes(h), word_bytes(l) + after);
        lemma_wide(s, before.len() as int, begin);
    } else {
        lemma_word(before, begin as u32, after);
        reveal(has_word);
        reveal(has_begin);
    }
}

/// Two 32-bit numbers make a 64-bit one.
proof fn lemma_wide(s: Seq<u8>, off: int, begin: u64)
    requires
        off >= 0,
        has_word(s, off, (begin / 0x1_0000_0000) as u32),
        has_word(s, off + 4, (begin % 0x1_0000_0000) as u32),
    ensures
        has_begin(s, off, begin, true, off + 8),
{
    reveal(has_word);
    reveal(has_begin);
}

/// The parts of a variable make the variable.
proof fn lemma_var_step(
    s: Seq<u8>,
    off: int,
    v: StoredVar,
    dims: Seq<usize>,
    wide: bool,
    o1: int,
    o2: int,
    o3: int,
    end: int,
)
    requires
        v.ids.len() < 0x1_0000_0000,
        has_name(s, off, v.name, o1),
        has_word(s, o1, v.ids.len() as u32),
        has_shape(s, o1 + 4, v.ids, dims, Seq::empty(), o2),
        has_list(s, o2, o3),
        has_word(s, o3, v.nctype),
        has_word(s, o3 + 4, v.vsize),
        has_begin(s, o3 + 8, v.begin, wide, end),
    ensures
        has_var(s, off, v, dims, wide, end),
{
    reveal(has_name);
    reveal(has_word);
    reveal(has_shape);
    reveal(has_list);
    reveal(has_begin);
    reveal(has_var);
    assert(take_layout(s, o2, wide) == Ok::<(u32, u64, int), CdfError>((v.nctype, v.begin, end)));
    assert(Seq::<usize>::empty() + described(v, dims).shape =~= described(v, dims).shape);
}

/// A stored variable is read back.
proof fn lemma_var(before: Seq<u8>, v: StoredVar, wide: bool, dims: Seq<usize>, after: Seq<u8>)
    requires
        storable(v, dims.len() as int, wide),
    ensures
        has_var(
            before + (var_bytes(v, wide) + after),
            before.len() as int,
            v,
            dims,
            wide,
            before.len() as int + var_bytes(v, wide).len(),
        ),
{
    let s = before + (var_bytes(v, wide) + after);
    let (n, c, i) = (name_bytes(v.name), word_bytes(v.ids.len() as u32), words_bytes(v.ids));
    let (l, t, u, p) = (list_bytes(v.attrs), word_bytes(v.nctype), word_bytes(v.vsize), place_bytes(v.begin, wide));
    let a6 = p + after;
    let a5 = u + a6;
    let a4 = t + a5;
    let a3 = l + a4;
    let a2 = i + a3;
    let a1 = c + a2;
    let b1 = before + n;
    let b2 = b1 + c;
    let b3 = b2 + i;
    let b4 = b3 + l;
    let b5 = b4 + t;
    let b6 = b5 + u;
    lemma_joins(u, p, after);
    lemma_joins(t, u + p, after);
    lemma_joins(l, t + (u + p), after);
    lemma_joins(i, l + (t + (u + p)), after);
    lemma_joins(c, i + (l + (t + (u + p))), after);
    lemma_joins(n, c + (i + (l + (t + (u + p)))), after);
    assert(s == before + (n + a1));
    lemma_joins(before, n, a1);
    lemma_joins(b1, c, a2);
    lemma_joins(b2, i, a3);
    lemma_joins(b3, l, a4);
    lemma_joins(b4, t, a5);
    lemma_joins(b5, u, a6);
    lemma_name(before, v.name, a1);
    lemma_word(b1, v.ids.len() as u32, a2);
    lemma_shape(b2, v.ids, a3, dims, Seq::empty());
    lemma_list(b3, v.attrs, a4);
    lemma_word(b4, v.nctype, a5);
    lemma_word(b5, v.vsize, a6);
    lemma_begin(b6, v.begin, wide, after);
    let off = before.len() as int;
    assert(var_bytes(v, wide).len() == n.len() + 4 + i.len() + l.len() + 8 + p.len());
    lemma_var_step(
        s,
        off,
        v,
        dims,
        wide,
        off + n.len(),
        off + n.len() + 4 + i.len(),
        off + n.len() + 4 + i.len() + l.len(),
        off + var_bytes(v, wide).len(),
    );
}

/// One variable more in front.
proof fn lemma_vars_step(
    s: Seq<u8>,
    off: int,
    vars: Seq<StoredVar>,
    dims: Seq<usize>,
    wide: bool,
    acc: Seq<VarModel>,
    mid: int,
)
    requires
        vars.len() > 0,
        has_var(s, off, vars[0], dims, wide, mid),
        has_vars(s, mid, vars.skip(1), dims, wide, acc.push(described(vars[0], dims))),
    ensures
        has_vars(s, off, vars, dims, wide, acc),
{
    reveal(has_var);
    reveal(has_vars);
    assert(acc.push(described(vars[0], dims)) + vars.skip(1).map_values(|v: StoredVar| described(v, dims)) =~= acc
        + vars.map_values(|v: StoredVar| described(v, dims)));
}

/// Stored variables are read back.
proof fn lemma_vars(
    before: Seq<u8>,
    vars: Seq<StoredVar>,
    wide: bool,
    dims: Seq<usize>,
    after: Seq<u8>,
    acc: Seq<VarModel>,
)
    requires
        forall|k: int| 0 <= k < vars.len() ==> storable(#[trigger] vars[k], dims.len() as int, wide),
    ensures
        has_vars(before + (vars_bytes(vars, wide) + after), before.len() as int, vars, dims, wide, acc),
    decreases vars.len(),
{
    let s = before + (vars_bytes(vars, wide) + after);
    if vars.len() == 0 {
        reveal(has_vars);
        assert(acc + vars.map_values(|v: StoredVar| described(v, dims)) =~= acc);
    } else {
        let (v, rest) = (vars[0], vars.skip(1));
        let (b, r) = (var_bytes(v, wide), vars_bytes(rest, wide));
        lemma_var(before, v, wide, dims, r + after);
        lemma_vars(before + b, rest, wide, dims, after, acc.push(described(v, dims)));
        lemma_joins(b, r, after);
        lemma_joins(before, b, r + after);
        lemma_vars_step(s, before.len() as int, vars, dims, wide, acc, before.len() as int + b.len());
    }
}

/// A file as it is stored: version, record count, dimensions, attributes, variables, and data.
pub open spec fn file_bytes(
    version: u8,
    records: u32,
    dims: Seq<StoredDim>,
    attrs: Seq<StoredAttr>,
    vars: Seq<StoredVar>,
    data: Seq<u8>,
) -> Seq<u8> {
    seq![0x43u8, 0x44, 0x46, version] + (word_bytes(records) + (word_bytes(NC_DIMENSION) + (word_bytes(dims.len() as u32)
        + (dims_bytes(dims) + (list_bytes(attrs) + (word_bytes(NC_VARIABLE) + (word_bytes(vars.len() as u32) + (vars_bytes(
        vars,
        version >= 2,
    ) + data))))))))
}

/// The parts of a header make the header.
proof fn lemma_file_step(
    s: Seq<u8>,
    version: u8,
    records: u32,
    dims: Seq<StoredDim>,
    vars: Seq<StoredVar>,
    o: int,
    p: int,
)
    requires
        s.len() >= 4,
        s[0] == 0x43,
        s[1] == 0x44,
        s[2] == 0x46,
        s[3] == version,
        dims.len() < 0x1_0000_0000,
        vars.len() < 0x1_0000_0000,
        has_word(s, 4, records),
        has_word(s, 8, NC_DIMENSION),
        has_word(s, 12, dims.len() as u32),
        has_dims(s, 16, dims, Seq::empty(), o),
        has_list(s, o, p),
        has_word(s, p, NC_VARIABLE),
        has_word(s, p + 4, vars.len() as u32),
        has_vars(s, p + 8, vars, sizes(dims), version >= 2, Seq::empty()),
    ensures
        file_vars(s) == Ok::<Seq<VarModel>, CdfError>(vars.map_values(|v: StoredVar| described(v, sizes(dims)))),
{
    reveal(has_word);
    reveal(has_dims);
    reveal(has_list);
    reveal(has_vars);
    assert(Seq::<usize>::empty() + sizes(dims) =~= sizes(dims));
    let all = vars.map_values(|v: StoredVar| described(v, sizes(dims)));
    assert(Seq::<VarModel>::empty() + all =~= all);
    assert(take_dim_list(s, 8) == Ok::<(Seq<usize>, int), CdfError>((sizes(dims), o)));
    assert(take_var_list(s, p, sizes(dims), version >= 2) == Ok::<Seq<VarModel>, CdfError>(all));
}

/// The first part of a header: magic bytes, record count and dimensions.
proof fn lemma_dim_part(m: Seq<u8>, records: u32, dims: Seq<StoredDim>, rest: Seq<u8>) -> (before: Seq<u8>)
    requires
        m.len() == 4,
        forall|k: int| 0 <= k < dims.len() ==> (#[trigger] dims[k]).name.len() < 0x1_0000_0000,
    ensures
        ({
            let s = m + (word_bytes(records) + (word_bytes(NC_DIMENSION) + (word_bytes(dims.len() as u32) + (dims_bytes(
                dims,
            ) + rest))));
            &&& s == before + rest
            &&& s.len() >= 4
            &&& s[0] == m[0] && s[1] == m[1] && s[2] == m[2] && s[3] == m[3]
            &&& has_word(s, 4, records)
            &&& has_word(s, 8, NC_DIMENSION)
            &&& has_word(s, 12, dims.len() as u32)
            &&& has_dims(s, 16, dims, Seq::empty(), before.len() as int)
        }),
{
    let (a, b, c, d) = (
        word_bytes(records),
        word_bytes(NC_DIMENSION),
        word_bytes(dims.len() as u32),
        dims_bytes(dims),
    );
    let t3 = d + rest;
    let t2 = c + t3;
    let t1 = b + t2;
    let b1 = m + a;
    let b2 = b1 + b;
    let b3 = b2 + c;
    lemma_joins(m, a, t1);
    lemma_joins(b1, b, t2);
    lemma_joins(b2, c, t3);
    lemma_joins(b3, d, rest);
    lemma_word(m, records, t1);
    lemma_word(b1, NC_DIMENSION, t2);
    lemma_word(b2, dims.len() as u32, t3);
    lemma_dims(b3, dims, rest, Seq::empty());
    b3 + d
}

/// The second part of a header: the attributes and the variables.
proof fn lemma_var_part(
    before: Seq<u8>,
    attrs: Seq<StoredAttr>,
    vars: Seq<StoredVar>,
    wide: bool,
    dims: Seq<usize>,
    data: Seq<u8>,
)
    requires
        storable_attrs(attrs),
        forall|k: int| 0 <= k < vars.len() ==> storable(#[trigger] vars[k], dims.len() as int, wide),
    ensures
        ({
            let s = before + (list_bytes(attrs) + (word_bytes(NC_VARIABLE) + (word_bytes(vars.len() as u32) + (vars_bytes(
                vars,
                wide,
            ) + data))));
            let o = before.len() as int;
            let p = o + list_bytes(attrs).len();
            &&& has_list(s, o, p)
            &&& has_word(s, p, NC_VARIABLE)
            &&& has_word(s, p + 4, vars.len() as u32)
            &&& has_vars(s, p + 8, vars, dims, wide, Seq::empty())
        }),
{
    let (l, e, f, g) = (list_bytes(attrs), word_bytes(NC_VARIABLE), word_bytes(vars.len() as u32), vars_bytes(vars, wide));
    let t3 = g + data;
    let t2 = f + t3;
    let t1 = e + t2;
    let b1 = before + l;
    let b2 = b1 + e;
    let b3 = b2 + f;
    lemma_joins(before, l, t1);
    lemma_joins(b1, e, t2);
    lemma_joins(b2, f, t3);
    lemma_list(before, attrs, t1);
    lemma_word(b1, NC_VARIABLE, t2);
    lemma_word(b2, vars.len() as u32, t3);
    lemma_vars(b3, vars, wide, dims, data, Seq::empty());
}

/// The header of a stored file is read back, whatever attributes the file and its variables have, and
/// whether its places are 32-bit (version 1) or 64-bit (later versions).
pub proof fn law_header_reads_back(
    version: u8,
    records: u32,
    dims: Seq<StoredDim>,
    attrs: Seq<StoredAttr>,
    vars: Seq<StoredVar>,
    data: Seq<u8>,
)
    requires
        dims.len() < 0x1_0000_0000,
        vars.len() < 0x1_0000_0000,
        forall|k: int| 0 <= k < dims.len() ==> (#[trigger] dims[k]).name.len() < 0x1_0000_0000,
        storable_attrs(attrs),
        forall|k: int| 0 <= k < vars.len() ==> storable(#[trigger] vars[k], dims.len() as int, version >= 2),
    ensures
        file_vars(file_bytes(version, records, dims, attrs, vars, data)) == Ok::<Seq<VarModel>, CdfError>(
            vars.map_values(|v: StoredVar| described(v, sizes(dims))),
        ),
{
    let wide = version >= 2;
    let m = seq![0x43u8, 0x44, 0x46, version];
    let rest = list_bytes(attrs) + (word_bytes(NC_VARIABLE) + (word_bytes(vars.len() as u32) + (vars_bytes(vars, wide)
        + data)));
    let s = file_bytes(version, records, dims, attrs, vars, data);
    let before = lemma_dim_part(m, records, dims, rest);
    assert(s == before + rest);
    lemma_var_part(before, attrs, vars, wide, sizes(dims), data);
    let o = before.len() as int;
    lemma_file_step(s, version, records, dims, vars, o, o + list_bytes(attrs).len());
}

/// The places of variables being the same, files with 32-bit and with 64-bit places describe the
/// same variables, whatever attributes and data they have.
pub proof fn law_versions_agree(
    records: u32,
    dims: Seq<StoredDim>,
    attrs: Seq<StoredAttr>,
    vars: Seq<StoredVar>,
    one: Seq<u8>,
    two: Seq<u8>,
)
    requires
        dims.len() < 0x1_0000_0000,
        vars.len() < 0x1_0000_0000,
        forall|k: int| 0 <= k < dims.len() ==> (#[trigger] dims[k]).name.len() < 0x1_0000_0000,
        storable_attrs(attrs),
        forall|k: int| 0 <= k < vars.len() ==> storable(#[trigger] vars[k], dims.len() as int, false),
    ensures
        file_vars(file_bytes(1, records, dims, attrs, vars, one)) == file_vars(
            file_bytes(2, records, dims, attrs, vars, two),
        ),
{
    law_header_reads_back(1, records, dims, attrs, vars, one);
    assert forall|k: int| 0 <= k < vars.len() implies storable(#[trigger] vars[k], dims.len() as int, true) by {
        assert(storable(vars[k], dims.len() as int, false));
    }
    law_header_reads_back(2, records, dims, attrs, vars, two);
}

} // verus!
