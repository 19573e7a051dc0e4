//! Where each field of an encoded value sits in its bytes.
//!
//! These facts are stated against the bytes alone, by position, through
//! the little-endian readers `u32_at` and `u64_at`: they say what a peer
//! reading the wire finds, whatever decoder it runs.
use vstd::prelude::*;
use vstd::utf8::encode_utf8;

use crate::bytes::{
    le_bytes_u32, le_bytes_u64, lemma_u32_roundtrip, lemma_u64_roundtrip, u32_at, u64_at,
};
use crate::variant::{len_prefixed, ser, ser_items, ser_smap, ser_u64s, ser_umap, Value};

verus! {

proof fn lemma_u64s_layout(s: Seq<u64>)
    ensures
        ser_u64s(s).len() == 8 * s.len(),
        forall|i: int|
            0 <= i < s.len() ==> #[trigger] ser_u64s(s).subrange(8 * i, 8 * i + 8) == le_bytes_u64(
                s[i],
            ),
    decreases s.len(),
{
    if s.len() > 0 {
        let t = s.drop_first();
        lemma_u64s_layout(t);
        let b = ser_u64s(s);
        let bt = ser_u64s(t);
        assert(b == le_bytes_u64(s[0]) + bt);
        assert forall|i: int| 0 <= i < s.len() implies #[trigger] b.subrange(8 * i, 8 * i + 8)
            == le_bytes_u64(s[i]) by {
            if i == 0 {
                assert(b.subrange(0, 8) =~= le_bytes_u64(s[0]));
            } else {
                assert(bt.subrange(8 * (i - 1), 8 * (i - 1) + 8) == le_bytes_u64(t[i - 1]));
                assert(b.subrange(8 * i, 8 * i + 8) =~= bt.subrange(8 * (i - 1), 8 * (i - 1) + 8));
            }
        }
    }
}

proof fn lemma_prefixed_at(b: Seq<u8>, o: int, p: Seq<u8>)
    requires
        0 <= o,
        o + 4 + p.len() <= b.len(),
        b.subrange(o, o + 4 + p.len()) == len_prefixed(p),
    ensures
        u32_at(b, o) == p.len() as u32,
        b.subrange(o + 4, o + 4 + p.len()) == p,
{
    let q = len_prefixed(p);
    assert(b.subrange(o, o + 4) =~= q.subrange(0, 4));
    assert(q.subrange(0, 4) =~= le_bytes_u32(p.len() as u32));
    lemma_u32_roundtrip(p.len() as u32, b, o);
    assert(b.subrange(o + 4, o + 4 + p.len()) =~= q.subrange(4, 4 + p.len() as int));
    assert(q.subrange(4, 4 + p.len() as int) =~= p);
}

/// The bytes of an encoded `NDArray`, field by field: the tag `0x20`, the
/// number of dimensions as a u32, each dimension as a u64, the element
/// type's UTF-8 length as a u32 and its bytes, then the data's length as a
/// u32 and the data itself, with nothing after.
pub proof fn lemma_ndarray_layout(shape: Seq<u64>, dt: Seq<char>, data: Seq<u8>)
    ensures
        ({
            let b = ser(Value::NDArray(shape, dt, data));
            let t = encode_utf8(dt);
            let o = 5 + 8 * (shape.len() as int);
            &&& b.len() == o + 4 + t.len() as int + 4 + data.len()
            &&& b[0] == 0x20u8
            &&& u32_at(b, 1) == shape.len() as u32
            &&& forall|i: int| 0 <= i < shape.len() ==> #[trigger] u64_at(b, 5 + 8 * i) == shape[i]
            &&& u32_at(b, o) == t.len() as u32
            &&& b.subrange(o + 4, o + 4 + t.len() as int) == t
            &&& u32_at(b, o + 4 + t.len() as int) == data.len() as u32
            &&& b.subrange(o + 8 + t.len(), b.len() as int) == data
        }),
{
    let b = ser(Value::NDArray(shape, dt, data));
    let t = encode_utf8(dt);
    let o = 5 + 8 * (shape.len() as int);
    let us = ser_u64s(shape);
    lemma_u64s_layout(shape);
    let head = seq![0x20u8] + le_bytes_u32(shape.len() as u32);
    assert(b == head + us + len_prefixed(t) + len_prefixed(data));
    assert(b.subrange(1, 5) =~= le_bytes_u32(shape.len() as u32));
    lemma_u32_roundtrip(shape.len() as u32, b, 1);
    assert forall|i: int| 0 <= i < shape.len() implies #[trigger] u64_at(b, 5 + 8 * i) == shape[i] by {
        assert(b.subrange(5 + 8 * i, 5 + 8 * i + 8) =~= us.subrange(8 * i, 8 * i + 8));
        lemma_u64_roundtrip(shape[i], b, 5 + 8 * i);
    }
    assert(b.subrange(o, o + 4 + t.len() as int) =~= len_prefixed(t));
    lemma_prefixed_at(b, o, t);
    assert(b.subrange(o + 4 + t.len() as int, o + 8 + t.len() + data.len()) =~= len_prefixed(data));
    lemma_prefixed_at(b, o + 4 + t.len() as int, data);
}

/// The bytes of every encoded value, by its kind: a one-byte tag, then
/// the payload. Fixed-size numbers follow the tag little-endian; a buffer
/// or a string follows as a u32 length and its bytes; an array or a map
/// as a u32 count and its items or entries.
pub proof fn lemma_value_layout(v: Value)
    ensures
        ({
            let b = ser(v);
            match v {
                Value::Null => b == seq![0x00u8],
                Value::Bool(x) => b == seq![0x02u8, if x { 1u8 } else { 0u8 }],
                Value::Int32(x) => b.len() == 5 && b[0] == 0x07u8 && u32_at(b, 1) == x as u32,
                Value::Uint32(x) => b.len() == 5 && b[0] == 0x08u8 && u32_at(b, 1) == x,
                Value::Int64(x) => b.len() == 9 && b[0] == 0x09u8 && u64_at(b, 1) == x as u64,
                Value::Uint64(x) => b.len() == 9 && b[0] == 0x0Au8 && u64_at(b, 1) == x,
                Value::Double(x) => b.len() == 9 && b[0] == 0x0Cu8 && u64_at(b, 1) == x,
                Value::Buffer(d) => b[0] == 0x0Du8 && u32_at(b, 1) == d.len() as u32 && b.subrange(
                    5,
                    b.len() as int,
                ) == d,
                Value::String(s) => b[0] == 0x0Eu8 && u32_at(b, 1) == encode_utf8(s).len() as u32
                    && b.subrange(5, b.len() as int) == encode_utf8(s),
                Value::Array(items) => b[0] == 0x0Fu8 && u32_at(b, 1) == items.len() as u32
                    && b.subrange(5, b.len() as int) == ser_items(items),
                Value::StringMap(es) => b[0] == 0x10u8 && u32_at(b, 1) == es.len() as u32
                    && b.subrange(5, b.len() as int) == ser_smap(es),
                Value::UintMap(es) => b[0] == 0x11u8 && u32_at(b, 1) == es.len() as u32
                    && b.subrange(5, b.len() as int) == ser_umap(es),
                Value::NDArray(_, _, _) => b[0] == 0x20u8,
            }
        }),
{
    let b = ser(v);
    match v {
        Value::Null => {
            assert(b =~= seq![0x00u8]);
        },
        Value::Bool(x) => {
            assert(b =~= seq![0x02u8, if x { 1u8 } else { 0u8 }]);
        },
        Value::Int32(x) => {
            assert(b.subrange(1, 5) =~= le_bytes_u32(x as u32));
            lemma_u32_roundtrip(x as u32, b, 1);
        },
        Value::Uint32(x) => {
            assert(b.subrange(1, 5) =~= le_bytes_u32(x));
            lemma_u32_roundtrip(x, b, 1);
        },
        Value::Int64(x) => {
            assert(b.subrange(1, 9) =~= le_bytes_u64(x as u64));
            lemma_u64_roundtrip(x as u64, b, 1);
        },
        Value::Uint64(x) => {
            assert(b.subrange(1, 9) =~= le_bytes_u64(x));
            lemma_u64_roundtrip(x, b, 1);
        },
        Value::Double(x) => {
            assert(b.subrange(1, 9) =~= le_bytes_u64(x));
            lemma_u64_roundtrip(x, b, 1);
        },
        Value::Buffer(d) => {
            assert(b.subrange(1, 5 + d.len() as int) =~= len_prefixed(d));
            lemma_prefixed_at(b, 1, d);
            assert(b.subrange(5, b.len() as int) =~= b.subrange(5, 5 + d.len() as int));
        },
        Value::String(s) => {
            let t = encode_utf8(s);
            assert(b.subrange(1, 5 + t.len() as int) =~= len_prefixed(t));
            lemma_prefixed_at(b, 1, t);
            assert(b.subrange(5, b.len() as int) =~= b.subrange(5, 5 + t.len() as int));
        },
        Value::Array(items) => {
            assert(b.subrange(1, 5) =~= le_bytes_u32(items.len() as u32));
            lemma_u32_roundtrip(items.len() as u32, b, 1);
            assert(b.subrange(5, b.len() as int) =~= ser_items(items));
        },
        Value::StringMap(es) => {
            assert(b.subrange(1, 5) =~= le_bytes_u32(es.len() as u32));
            lemma_u32_roundtrip(es.len() as u32, b, 1);
            assert(b.subrange(5, b.len() as int) =~= ser_smap(es));
        },
        Value::UintMap(es) => {
            assert(b.subrange(1, 5) =~= le_bytes_u32(es.len() as u32));
            lemma_u32_roundtrip(es.len() as u32, b, 1);
            assert(b.subrange(5, b.len() as int) =~= ser_umap(es));
        },
        Value::NDArray(_, _, _) => {},
    }
}

/// The items of an array are written one after another, in order: the
/// bytes of no items are empty, of one item are its encoding, and of two
/// runs of items are the bytes of the first run followed by those of the
/// second.
pub proof fn lemma_items_layout(x: Value, a: Seq<Value>, c: Seq<Value>)
    ensures
        ser_items(Seq::empty()) == Seq::<u8>::empty(),
        ser_items(seq![x]) == ser(x),
        ser_items(a + c) == ser_items(a) + ser_items(c),
    decreases a.len(),
{
    assert(seq![x].drop_first() =~= Seq::<Value>::empty());
    assert(seq![x][0] == x);
    assert(ser_items(Seq::<Value>::empty()) =~= Seq::<u8>::empty());
    assert(ser_items(seq![x]) =~= ser(x));
    if a.len() == 0 {
        assert(a + c =~= c);
        assert(ser_items(a) + ser_items(c) =~= ser_items(c));
    } else {
        lemma_items_layout(x, a.drop_first(), c);
        assert((a + c).drop_first() =~= a.drop_first() + c);
        assert((a + c)[0] == a[0]);
        assert(ser_items(a + c) =~= ser_items(a) + ser_items(c));
    }
}

/// The entries of a string-keyed map are written one after another, in
/// order; each is its key's UTF-8 length as a u32, the key's bytes, then
/// the value's encoding.
pub proof fn lemma_smap_layout(k: Seq<char>, x: Value, a: Seq<(Seq<char>, Value)>, c: Seq<(Seq<char>, Value)>)
    ensures
        ser_smap(Seq::empty()) == Seq::<u8>::empty(),
        ({
            let e = ser_smap(seq![(k, x)]);
            let t = encode_utf8(k);
            &&& u32_at(e, 0) == t.len() as u32
            &&& e.subrange(4, 4 + t.len() as int) == t
            &&& e.subrange(4 + t.len() as int, e.len() as int) == ser(x)
        }),
        ser_smap(a + c) == ser_smap(a) + ser_smap(c),
    decreases a.len(),
{
    let e = ser_smap(seq![(k, x)]);
    let t = encode_utf8(k);
    assert(seq![(k, x)].drop_first() =~= Seq::<(Seq<char>, Value)>::empty());
    assert(seq![(k, x)][0] == (k, x));
    assert(ser_smap(Seq::<(Seq<char>, Value)>::empty()) =~= Seq::<u8>::empty());
    assert(e =~= len_prefixed(t) + ser(x));
    assert(e.subrange(0, 4 + t.len() as int) =~= len_prefixed(t));
    lemma_prefixed_at(e, 0, t);
    assert(e.subrange(4 + t.len() as int, e.len() as int) =~= ser(x));
    if a.len() == 0 {
        assert(a + c =~= c);
        assert(ser_smap(a) + ser_smap(c) =~= ser_smap(c));
    } else {
        lemma_smap_layout(k, x, a.drop_first(), c);
        assert((a + c).drop_first() =~= a.drop_first() + c);
        assert((a + c)[0] == a[0]);
        assert(ser_smap(a + c) =~= ser_smap(a) + ser_smap(c));
    }
}

/// The entries of a u32-keyed map are written one after another, in
/// order; each is its key as a u64, then the value's encoding.
pub proof fn lemma_umap_layout(k: u32, x: Value, a: Seq<(u32, Value)>, c: Seq<(u32, Value)>)
    ensures
        ser_umap(Seq::empty()) == Seq::<u8>::empty(),
        ({
            let e = ser_umap(seq![(k, x)]);
            &&& u64_at(e, 0) == k as u64
            &&& e.subrange(8, e.len() as int) == ser(x)
        }),
        ser_umap(a + c) == ser_umap(a) + ser_umap(c),
    decreases a.len(),
{
    let e = ser_umap(seq![(k, x)]);
    assert(seq![(k, x)].drop_first() =~= Seq::<(u32, Value)>::empty());
    assert(seq![(k, x)][0] == (k, x));
    assert(ser_umap(Seq::<(u32, Value)>::empty()) =~= Seq::<u8>::empty());
    assert(e =~= le_bytes_u64(k as u64) + ser(x));
    assert(e.subrange(0, 8) =~= le_bytes_u64(k as u64));
    lemma_u64_roundtrip(k as u64, e, 0);
    assert(e.subrange(8, e.len() as int) =~= ser(x));
    if a.len() == 0 {
        assert(a + c =~= c);
        assert(ser_umap(a) + ser_umap(c) =~= ser_umap(c));
    } else {
        lemma_umap_layout(k, x, a.drop_first(), c);
        assert((a + c).drop_first() =~= a.drop_first() + c);
        assert((a + c)[0] == a[0]);
        assert(ser_umap(a + c) =~= ser_umap(a) + ser_umap(c));
    }
}

} // verus!
