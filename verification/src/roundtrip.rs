//! Decoding gives back what encoding wrote.
use vstd::prelude::*;
use vstd::utf8::{encode_utf8, encode_utf8_decode_utf8, encode_utf8_valid_utf8};

use crate::bytes::{
    le_bytes_u32, le_bytes_u64, lemma_u32_roundtrip, lemma_u64_roundtrip,
};
use crate::deserialize::{
    decode_lossy, deserialize_spec, parse, parse_items, parse_len_prefixed, parse_smap,
    parse_u64s, parse_umap,
};
use crate::keys::{
    lemma_insert_greatest, lemma_str_key_order, lemma_u32_key_order, map_insert, sorted_keys,
    str_order, u32_order,
};
use crate::sorted::{all_sorted, maps_sorted, smap_values_sorted, umap_values_sorted};
use crate::variant::{len_prefixed, ser, ser_items, ser_smap, ser_u64s, ser_umap, Value};

verus! {

/// Every length and count in `v` fits in the u32 that the encoding
/// writes for it.
pub open spec fn lengths_fit(v: Value) -> bool
    decreases v,
{
    match v {
        Value::Buffer(b) => b.len() <= u32::MAX,
        Value::String(s) => encode_utf8(s).len() <= u32::MAX,
        Value::Array(items) => items.len() <= u32::MAX && items_fit(items),
        Value::StringMap(es) => es.len() <= u32::MAX && smap_fits(es),
        Value::UintMap(es) => es.len() <= u32::MAX && umap_fits(es),
        Value::NDArray(shape, dt, data) => shape.len() <= u32::MAX && encode_utf8(dt).len()
            <= u32::MAX && data.len() <= u32::MAX,
        _ => true,
    }
}

/// `lengths_fit` holds of every item.
pub open spec fn items_fit(items: Seq<Value>) -> bool
    decreases items,
{
    items.len() == 0 || (lengths_fit(items[0]) && items_fit(items.drop_first()))
}

/// Every key's encoding fits a u32 length, and `lengths_fit` holds of
/// every value.
pub open spec fn smap_fits(es: Seq<(Seq<char>, Value)>) -> bool
    decreases es,
{
    es.len() == 0 || (encode_utf8(es[0].0).len() <= u32::MAX && lengths_fit(es[0].1) && smap_fits(
        es.drop_first(),
    ))
}

/// `lengths_fit` holds of every value.
pub open spec fn umap_fits(es: Seq<(u32, Value)>) -> bool
    decreases es,
{
    es.len() == 0 || (lengths_fit(es[0].1) && umap_fits(es.drop_first()))
}

/// A value the encoder can represent faithfully: every length and count
/// fits in a u32, and the keys of every map are strictly ascending.
spec fn wf_value(v: Value) -> bool
    decreases v,
{
    match v {
        Value::Buffer(b) => b.len() <= u32::MAX,
        Value::String(s) => encode_utf8(s).len() <= u32::MAX,
        Value::Array(items) => items.len() <= u32::MAX && wf_items(items),
        Value::StringMap(es) => es.len() <= u32::MAX && sorted_keys(es, str_order()) && wf_smap(es),
        Value::UintMap(es) => es.len() <= u32::MAX && sorted_keys(es, u32_order()) && wf_umap(es),
        Value::NDArray(shape, dt, data) => shape.len() <= u32::MAX && encode_utf8(dt).len()
            <= u32::MAX && data.len() <= u32::MAX,
        _ => true,
    }
}

/// Every item is well formed.
spec fn wf_items(items: Seq<Value>) -> bool
    decreases items,
{
    items.len() == 0 || (wf_value(items[0]) && wf_items(items.drop_first()))
}

/// Every key's encoding fits a u32 length and every value is well formed.
spec fn wf_smap(es: Seq<(Seq<char>, Value)>) -> bool
    decreases es,
{
    es.len() == 0 || (encode_utf8(es[0].0).len() <= u32::MAX && wf_value(es[0].1) && wf_smap(
        es.drop_first(),
    ))
}

/// Every value is well formed.
spec fn wf_umap(es: Seq<(u32, Value)>) -> bool
    decreases es,
{
    es.len() == 0 || (wf_value(es[0].1) && wf_umap(es.drop_first()))
}

proof fn lemma_split(data: Seq<u8>, off: int, a: Seq<u8>, b: Seq<u8>)
    requires
        0 <= off,
        off + a.len() + b.len() <= data.len(),
        data.subrange(off, off + a.len() + b.len()) == a + b,
    ensures
        data.subrange(off, off + a.len()) == a,
        data.subrange(off + a.len(), off + a.len() + b.len()) == b,
{
    assert(data.subrange(off, off + a.len()) =~= (a + b).subrange(0, a.len() as int));
    assert(data.subrange(off + a.len(), off + a.len() + b.len()) =~= (a + b).subrange(
        a.len() as int,
        (a.len() + b.len()) as int,
    ));
    assert((a + b).subrange(0, a.len() as int) =~= a);
    assert((a + b).subrange(a.len() as int, (a.len() + b.len()) as int) =~= b);
}

proof fn lemma_parse_len_prefixed(b: Seq<u8>, data: Seq<u8>, off: int)
    requires
        b.len() <= u32::MAX,
        0 <= off,
        off + len_prefixed(b).len() <= data.len(),
        data.subrange(off, off + len_prefixed(b).len()) == len_prefixed(b),
    ensures
        len_prefixed(b).len() == 4 + b.len(),
        parse_len_prefixed(data, off) == Ok::<(Seq<u8>, int), crate::error::SproqetError>(
            (b, off + 4 + b.len()),
        ),
{
    lemma_split(data, off, le_bytes_u32(b.len() as u32), b);
    lemma_u32_roundtrip(b.len() as u32, data, off);
}

proof fn lemma_decode_encoded(s: Seq<char>)
    ensures
        decode_lossy(encode_utf8(s)) == s,
{
    encode_utf8_valid_utf8(s);
    encode_utf8_decode_utf8(s);
}

proof fn lemma_parse_u64s(s: Seq<u64>, data: Seq<u8>, off: int, acc: Seq<u64>)
    requires
        0 <= off,
        off + ser_u64s(s).len() <= data.len(),
        data.subrange(off, off + ser_u64s(s).len()) == ser_u64s(s),
    ensures
        parse_u64s(data, off, s.len(), acc) == Ok::<(Seq<u64>, int), crate::error::SproqetError>(
            (acc + s, off + ser_u64s(s).len()),
        ),
    decreases s.len(),
{
    if s.len() == 0 {
        assert(acc + s =~= acc);
    } else {
        let t = s.drop_first();
        lemma_split(data, off, le_bytes_u64(s[0]), ser_u64s(t));
        lemma_u64_roundtrip(s[0], data, off);
        lemma_parse_u64s(t, data, off + 8, acc.push(s[0]));
        assert(acc.push(s[0]) + t =~= acc + s);
    }
}

#[verifier::spinoff_prover]
#[verifier::rlimit(30)]
proof fn lemma_parse_ser_wf(v: Value, data: Seq<u8>, off: int)
    requires
        wf_value(v),
        0 <= off,
        off + ser(v).len() <= data.len(),
        data.subrange(off, off + ser(v).len()) == ser(v),
    ensures
        parse(data, off) == Ok::<(Value, int), crate::error::SproqetError>(
            (v, off + ser(v).len()),
        ),
    decreases v,
{
    let s = ser(v);
    assert(data[off] == s[0]) by {
        assert(data.subrange(off, off + s.len())[0] == data[off]);
    }
    let p = off + 1;
    match v {
        Value::Null => {},
        Value::Bool(b) => {
            assert(data.subrange(off, off + s.len())[1] == data[p]);
        },
        Value::Int32(x) => {
            lemma_split(data, off, seq![s[0]], le_bytes_u32(x as u32));
            lemma_u32_roundtrip(x as u32, data, p);
            assert((x as u32) as i32 == x) by (bit_vector);
        },
        Value::Uint32(x) => {
            lemma_split(data, off, seq![s[0]], le_bytes_u32(x));
            lemma_u32_roundtrip(x, data, p);
        },
        Value::Int64(x) => {
            lemma_split(data, off, seq![s[0]], le_bytes_u64(x as u64));
            lemma_u64_roundtrip(x as u64, data, p);
            assert((x as u64) as i64 == x) by (bit_vector);
        },
        Value::Uint64(x) => {
            lemma_split(data, off, seq![s[0]], le_bytes_u64(x));
            lemma_u64_roundtrip(x, data, p);
        },
        Value::Double(x) => {
            lemma_split(data, off, seq![s[0]], le_bytes_u64(x));
            lemma_u64_roundtrip(x, data, p);
        },
        Value::Buffer(b) => {
            lemma_split(data, off, seq![s[0]], len_prefixed(b));
            lemma_parse_len_prefixed(b, data, p);
        },
        Value::String(t) => {
            lemma_split(data, off, seq![s[0]], len_prefixed(encode_utf8(t)));
            lemma_parse_len_prefixed(encode_utf8(t), data, p);
            lemma_decode_encoded(t);
        },
        Value::Array(items) => {
            let h = le_bytes_u32(items.len() as u32);
            lemma_split(data, off, seq![s[0]] + h, ser_items(items));
            lemma_split(data, off, seq![s[0]], h);
            lemma_u32_roundtrip(items.len() as u32, data, p);
            lemma_parse_ser_items(items, data, p + 4, Seq::empty());
            assert(Seq::<Value>::empty() + items =~= items);
        },
        Value::StringMap(es) => {
            let h = le_bytes_u32(es.len() as u32);
            lemma_split(data, off, seq![s[0]] + h, ser_smap(es));
            lemma_split(data, off, seq![s[0]], h);
            lemma_u32_roundtrip(es.len() as u32, data, p);
            assert(Seq::<(Seq<char>, Value)>::empty() + es =~= es);
            lemma_parse_ser_smap(es, data, p + 4, Seq::empty());
        },
        Value::UintMap(es) => {
            let h = le_bytes_u32(es.len() as u32);
            lemma_split(data, off, seq![s[0]] + h, ser_umap(es));
            lemma_split(data, off, seq![s[0]], h);
            lemma_u32_roundtrip(es.len() as u32, data, p);
            assert(Seq::<(u32, Value)>::empty() + es =~= es);
            lemma_parse_ser_umap(es, data, p + 4, Seq::empty());
        },
        Value::NDArray(shape, dt, d) => {
            let h = le_bytes_u32(shape.len() as u32);
            let a1 = seq![s[0]] + h;
            let a2 = a1 + ser_u64s(shape);
            let a3 = a2 + len_prefixed(encode_utf8(dt));
            lemma_split(data, off, a3, len_prefixed(d));
            lemma_split(data, off, a2, len_prefixed(encode_utf8(dt)));
            lemma_split(data, off, a1, ser_u64s(shape));
            lemma_split(data, off, seq![s[0]], h);
            lemma_u32_roundtrip(shape.len() as u32, data, p);
            lemma_parse_u64s(shape, data, p + 4, Seq::empty());
            assert(Seq::<u64>::empty() + shape =~= shape);
            lemma_parse_len_prefixed(encode_utf8(dt), data, off + a2.len());
            lemma_parse_len_prefixed(d, data, off + a3.len());
            lemma_decode_encoded(dt);
        },
    }
}

proof fn lemma_parse_ser_items(items: Seq<Value>, data: Seq<u8>, off: int, acc: Seq<Value>)
    requires
        wf_items(items),
        0 <= off,
        off + ser_items(items).len() <= data.len(),
        data.subrange(off, off + ser_items(items).len()) == ser_items(items),
    ensures
        parse_items(data, off, items.len(), acc) == Ok::<
            (Seq<Value>, int),
            crate::error::SproqetError,
        >((acc + items, off + ser_items(items).len())),
    decreases items,
{
    if items.len() == 0 {
        assert(acc + items =~= acc);
    } else {
        let t = items.drop_first();
        lemma_split(data, off, ser(items[0]), ser_items(t));
        lemma_parse_ser_wf(items[0], data, off);
        lemma_ser_nonempty(items[0]);
        lemma_parse_ser_items(t, data, off + ser(items[0]).len(), acc.push(items[0]));
        assert(acc.push(items[0]) + t =~= acc + items);
    }
}

proof fn lemma_parse_ser_smap(
    es: Seq<(Seq<char>, Value)>,
    data: Seq<u8>,
    off: int,
    acc: Seq<(Seq<char>, Value)>,
)
    requires
        wf_smap(es),
        sorted_keys(acc + es, str_order()),
        0 <= off,
        off + ser_smap(es).len() <= data.len(),
        data.subrange(off, off + ser_smap(es).len()) == ser_smap(es),
    ensures
        parse_smap(data, off, es.len(), acc) == Ok::<
            (Seq<(Seq<char>, Value)>, int),
            crate::error::SproqetError,
        >((acc + es, off + ser_smap(es).len())),
    decreases es,
{
    if es.len() == 0 {
        assert(acc + es =~= acc);
    } else {
        let t = es.drop_first();
        let kp = len_prefixed(encode_utf8(es[0].0));
        let vs = ser(es[0].1);
        lemma_split(data, off, kp + vs, ser_smap(t));
        lemma_split(data, off, kp, vs);
        lemma_parse_len_prefixed(encode_utf8(es[0].0), data, off);
        lemma_decode_encoded(es[0].0);
        lemma_parse_ser_wf(es[0].1, data, off + kp.len());
        let all = acc + es;
        assert(sorted_keys(acc, str_order())) by {
            assert forall|i: int, j: int| 0 <= i < j < acc.len() implies #[trigger] str_order()(
                acc[i].0,
                acc[j].0,
            ) by {
                assert(all[i] == acc[i] && all[j] == acc[j]);
            }
        }
        if acc.len() > 0 {
            assert(all[acc.len() - 1] == acc.last());
            assert(all[acc.len() as int] == es[0]);
        }
        lemma_str_key_order();
        lemma_insert_greatest(acc, es[0].0, es[0].1, str_order());
        assert(acc.push(es[0]) + t =~= all);
        lemma_parse_ser_smap(t, data, off + kp.len() + vs.len(), acc.push(es[0]));
    }
}

proof fn lemma_parse_ser_umap(es: Seq<(u32, Value)>, data: Seq<u8>, off: int, acc: Seq<(u32, Value)>)
    requires
        wf_umap(es),
        sorted_keys(acc + es, u32_order()),
        0 <= off,
        off + ser_umap(es).len() <= data.len(),
        data.subrange(off, off + ser_umap(es).len()) == ser_umap(es),
    ensures
        parse_umap(data, off, es.len(), acc) == Ok::<
            (Seq<(u32, Value)>, int),
            crate::error::SproqetError,
        >((acc + es, off + ser_umap(es).len())),
    decreases es,
{
    if es.len() == 0 {
        assert(acc + es =~= acc);
    } else {
        let t = es.drop_first();
        let kb = le_bytes_u64(es[0].0 as u64);
        let vs = ser(es[0].1);
        lemma_split(data, off, kb + vs, ser_umap(t));
        lemma_split(data, off, kb, vs);
        lemma_u64_roundtrip(es[0].0 as u64, data, off);
        let k = es[0].0;
        assert(((k as u64) as u32) == k) by (bit_vector);
        lemma_parse_ser_wf(es[0].1, data, off + 8);
        let all = acc + es;
        assert(sorted_keys(acc, u32_order())) by {
            assert forall|i: int, j: int| 0 <= i < j < acc.len() implies #[trigger] u32_order()(
                acc[i].0,
                acc[j].0,
            ) by {
                assert(all[i] == acc[i] && all[j] == acc[j]);
            }
        }
        if acc.len() > 0 {
            assert(all[acc.len() - 1] == acc.last());
            assert(all[acc.len() as int] == es[0]);
        }
        lemma_u32_key_order();
        lemma_insert_greatest(acc, es[0].0, es[0].1, u32_order());
        assert(acc.push(es[0]) + t =~= all);
        lemma_parse_ser_umap(t, data, off + kb.len() + vs.len(), acc.push(es[0]));
    }
}

proof fn lemma_fit_wf(v: Value)
    requires
        lengths_fit(v),
        maps_sorted(v),
    ensures
        wf_value(v),
    decreases v,
{
    match v {
        Value::Array(items) => lemma_fit_wf_items(items),
        Value::StringMap(es) => lemma_fit_wf_smap(es),
        Value::UintMap(es) => lemma_fit_wf_umap(es),
        _ => {},
    }
}

proof fn lemma_fit_wf_items(items: Seq<Value>)
    requires
        items_fit(items),
        all_sorted(items),
    ensures
        wf_items(items),
    decreases items,
{
    if items.len() > 0 {
        lemma_fit_wf(items[0]);
        lemma_fit_wf_items(items.drop_first());
    }
}

proof fn lemma_fit_wf_smap(es: Seq<(Seq<char>, Value)>)
    requires
        smap_fits(es),
        smap_values_sorted(es),
    ensures
        wf_smap(es),
    decreases es,
{
    if es.len() > 0 {
        lemma_fit_wf(es[0].1);
        lemma_fit_wf_smap(es.drop_first());
    }
}

proof fn lemma_fit_wf_umap(es: Seq<(u32, Value)>)
    requires
        umap_fits(es),
        umap_values_sorted(es),
    ensures
        wf_umap(es),
    decreases es,
{
    if es.len() > 0 {
        lemma_fit_wf(es[0].1);
        lemma_fit_wf_umap(es.drop_first());
    }
}

proof fn lemma_ser_nonempty(v: Value)
    ensures
        ser(v).len() >= 1,
{
}

/// Decoding at `off` the encoding of a value placed there gives the value
/// and the offset just past its encoding, where every length and count of
/// the value fits the u32 written for it and its maps have ascending keys.
pub proof fn lemma_parse_ser(v: Value, data: Seq<u8>, off: int)
    requires
        lengths_fit(v),
        maps_sorted(v),
        0 <= off,
        off + ser(v).len() <= data.len(),
        data.subrange(off, off + ser(v).len()) == ser(v),
    ensures
        parse(data, off) == Ok::<(Value, int), crate::error::SproqetError>(
            (v, off + ser(v).len()),
        ),
{
    lemma_fit_wf(v);
    lemma_parse_ser_wf(v, data, off);
}

/// Decoding the encoding of a value gives the value back, whatever bytes
/// follow the encoding, where every length and count fits the u32 written
/// for it. Every variant's model has ascending map keys (see
/// `SproqetVariant::serialize`).
pub proof fn lemma_roundtrip(v: Value, rest: Seq<u8>)
    requires
        lengths_fit(v),
        maps_sorted(v),
    ensures
        deserialize_spec(ser(v) + rest) == Ok::<Value, crate::error::SproqetError>(v),
{
    let data = ser(v) + rest;
    assert(data.subrange(0, ser(v).len() as int) =~= ser(v));
    lemma_parse_ser(v, data, 0);
}

/// Decoding nothing fails with `BufferUnderflow`, and decoding a value
/// whose type tag is none of the known tags fails with `UnknownTypeId`
/// naming that tag, whatever follows it.
pub proof fn lemma_decode_refusals(t: u8, rest: Seq<u8>)
    ensures
        deserialize_spec(Seq::empty()) == Err::<Value, crate::error::SproqetError>(
            crate::error::SproqetError::BufferUnderflow,
        ),
        !(t == 0x00 || t == 0x01 || t == 0x02 || t == 0x07 || t == 0x08 || t == 0x09 || t == 0x0A
            || t == 0x0C || t == 0x0D || t == 0x0E || t == 0x0F || t == 0x10 || t == 0x11 || t
            == 0x20) ==> deserialize_spec(seq![t] + rest) == Err::<Value, crate::error::SproqetError>(
            crate::error::SproqetError::UnknownTypeId(t),
        ),
{
    assert((seq![t] + rest)[0] == t);
}

/// Decoding accepts more than encoding writes: the legacy tag `0x01`
/// decodes to `Null`, any non-zero `Bool` byte to `true`, and a u32-keyed
/// map's u64 key is cut to its low 32 bits.
pub proof fn lemma_decode_lenient(x: u8, k: u64, rest: Seq<u8>)
    ensures
        deserialize_spec(seq![0x01u8] + rest) == Ok::<Value, crate::error::SproqetError>(Value::Null),
        deserialize_spec(seq![0x02u8, x] + rest) == Ok::<Value, crate::error::SproqetError>(
            Value::Bool(x != 0),
        ),
        deserialize_spec(seq![0x11u8] + le_bytes_u32(1) + le_bytes_u64(k) + seq![0x00u8] + rest)
            == Ok::<Value, crate::error::SproqetError>(
            Value::UintMap(seq![((k as u32), Value::Null)]),
        ),
{
    let a = seq![0x01u8] + rest;
    assert(a[0] == 0x01u8);
    let b = seq![0x02u8, x] + rest;
    assert(b[0] == 0x02u8 && b[1] == x);
    let c = seq![0x11u8] + le_bytes_u32(1) + le_bytes_u64(k) + seq![0x00u8] + rest;
    assert(c[0] == 0x11u8);
    assert(c.subrange(1, 5) =~= le_bytes_u32(1));
    lemma_u32_roundtrip(1, c, 1);
    assert(c.subrange(5, 13) =~= le_bytes_u64(k));
    lemma_u64_roundtrip(k, c, 5);
    assert(c[13] == 0x00u8);
    assert(parse(c, 13) == Ok::<(Value, int), crate::error::SproqetError>((Value::Null, 14)));
    let acc = map_insert(Seq::<(u32, Value)>::empty(), k as u32, Value::Null, u32_order());
    assert(acc == seq![((k as u32), Value::Null)]);
    assert(parse_umap(c, 14, 0, acc) == Ok::<(Seq<(u32, Value)>, int), crate::error::SproqetError>(
        (acc, 14),
    ));
    assert(parse_umap(c, 5, 1, Seq::empty()) == Ok::<
        (Seq<(u32, Value)>, int),
        crate::error::SproqetError,
    >((acc, 14)));
}

} // verus!
