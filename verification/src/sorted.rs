//! Decoded maps keep their keys strictly ascending, at every depth.
use vstd::prelude::*;

use crate::deserialize::{deserialize_spec, parse, parse_items, parse_smap, parse_umap};
use crate::keys::{
    has_entry, lemma_insert_sorted, lemma_insert_values, lemma_sorted_unique, lemma_str_key_order,
    lemma_u32_key_order, sorted_keys, str_order, u32_order,
};
use crate::variant::{ser, Value, TYPE_ARRAY, TYPE_STRING_MAP, TYPE_UINT_MAP};

verus! {

/// Every map inside `v`, at any depth, has strictly ascending keys.
pub open spec fn maps_sorted(v: Value) -> bool
    decreases v,
{
    match v {
        Value::Array(items) => all_sorted(items),
        Value::StringMap(es) => sorted_keys(es, str_order()) && smap_values_sorted(es),
        Value::UintMap(es) => sorted_keys(es, u32_order()) && umap_values_sorted(es),
        _ => true,
    }
}

/// `maps_sorted` holds of every item.
pub open spec fn all_sorted(items: Seq<Value>) -> bool
    decreases items,
{
    items.len() == 0 || (maps_sorted(items[0]) && all_sorted(items.drop_first()))
}

/// `maps_sorted` holds of every value.
pub open spec fn smap_values_sorted(es: Seq<(Seq<char>, Value)>) -> bool
    decreases es,
{
    es.len() == 0 || (maps_sorted(es[0].1) && smap_values_sorted(es.drop_first()))
}

/// `maps_sorted` holds of every value.
pub open spec fn umap_values_sorted(es: Seq<(u32, Value)>) -> bool
    decreases es,
{
    es.len() == 0 || (maps_sorted(es[0].1) && umap_values_sorted(es.drop_first()))
}

pub(crate) proof fn lemma_all_sorted(items: Seq<Value>)
    ensures
        all_sorted(items) <==> forall|i: int| 0 <= i < items.len() ==> #[trigger] maps_sorted(items[i]),
    decreases items.len(),
{
    if items.len() > 0 {
        lemma_all_sorted(items.drop_first());
        if forall|i: int| 0 <= i < items.len() ==> #[trigger] maps_sorted(items[i]) {
            assert forall|i: int| 0 <= i < items.drop_first().len() implies #[trigger] maps_sorted(
                items.drop_first()[i],
            ) by {
                assert(maps_sorted(items[i + 1]));
            }
            assert(maps_sorted(items[0]));
        }
        if all_sorted(items) {
            assert forall|i: int| 0 <= i < items.len() implies #[trigger] maps_sorted(items[i]) by {
                if i > 0 {
                    assert(items[i] == items.drop_first()[i - 1]);
                    assert(maps_sorted(items.drop_first()[i - 1]));
                }
            }
        }
    }
}

pub(crate) proof fn lemma_smap_values_sorted(es: Seq<(Seq<char>, Value)>)
    ensures
        smap_values_sorted(es) <==> forall|i: int| 0 <= i < es.len() ==> #[trigger] maps_sorted(es[i].1),
    decreases es.len(),
{
    if es.len() > 0 {
        lemma_smap_values_sorted(es.drop_first());
        if forall|i: int| 0 <= i < es.len() ==> #[trigger] maps_sorted(es[i].1) {
            assert forall|i: int| 0 <= i < es.drop_first().len() implies #[trigger] maps_sorted(
                es.drop_first()[i].1,
            ) by {
                assert(maps_sorted(es[i + 1].1));
            }
            assert(maps_sorted(es[0].1));
        }
        if smap_values_sorted(es) {
            assert forall|i: int| 0 <= i < es.len() implies #[trigger] maps_sorted(es[i].1) by {
                if i > 0 {
                    assert(es[i] == es.drop_first()[i - 1]);
                    assert(maps_sorted(es.drop_first()[i - 1].1));
                }
            }
        }
    }
}

pub(crate) proof fn lemma_umap_values_sorted(es: Seq<(u32, Value)>)
    ensures
        umap_values_sorted(es) <==> forall|i: int| 0 <= i < es.len() ==> #[trigger] maps_sorted(es[i].1),
    decreases es.len(),
{
    if es.len() > 0 {
        lemma_umap_values_sorted(es.drop_first());
        if forall|i: int| 0 <= i < es.len() ==> #[trigger] maps_sorted(es[i].1) {
            assert forall|i: int| 0 <= i < es.drop_first().len() implies #[trigger] maps_sorted(
                es.drop_first()[i].1,
            ) by {
                assert(maps_sorted(es[i + 1].1));
            }
            assert(maps_sorted(es[0].1));
        }
        if umap_values_sorted(es) {
            assert forall|i: int| 0 <= i < es.len() implies #[trigger] maps_sorted(es[i].1) by {
                if i > 0 {
                    assert(es[i] == es.drop_first()[i - 1]);
                    assert(maps_sorted(es.drop_first()[i - 1].1));
                }
            }
        }
    }
}

/// Two string-keyed maps with ascending keys and the same entries are the
/// same value, so they encode to the same bytes, whatever order their
/// entries were inserted in.
pub proof fn lemma_canonical_string_map(a: Seq<(Seq<char>, Value)>, b: Seq<(Seq<char>, Value)>)
    requires
        sorted_keys(a, str_order()),
        sorted_keys(b, str_order()),
        forall|e: (Seq<char>, Value)|
            #![trigger has_entry(a, e)]
            #![trigger has_entry(b, e)]
            has_entry(a, e) <==> has_entry(b, e),
    ensures
        a == b,
        ser(Value::StringMap(a)) == ser(Value::StringMap(b)),
{
    lemma_str_key_order();
    lemma_sorted_unique(a, b, str_order());
}

/// Two u32-keyed maps with ascending keys and the same entries are the
/// same value, so they encode to the same bytes, whatever order their
/// entries were inserted in.
pub proof fn lemma_canonical_uint_map(a: Seq<(u32, Value)>, b: Seq<(u32, Value)>)
    requires
        sorted_keys(a, u32_order()),
        sorted_keys(b, u32_order()),
        forall|e: (u32, Value)|
            #![trigger has_entry(a, e)]
            #![trigger has_entry(b, e)]
            has_entry(a, e) <==> has_entry(b, e),
    ensures
        a == b,
        ser(Value::UintMap(a)) == ser(Value::UintMap(b)),
{
    lemma_u32_key_order();
    lemma_sorted_unique(a, b, u32_order());
}

/// Whatever `deserialize` returns has strictly ascending keys in every
/// map, at every depth.
pub proof fn lemma_deserialize_sorted(data: Seq<u8>)
    ensures
        deserialize_spec(data) matches Ok(v) ==> maps_sorted(v),
{
    lemma_parse_sorted(data, 0);
}

/// Whatever a buffer decodes to at `off` has strictly ascending keys in
/// every map.
pub proof fn lemma_parse_sorted(data: Seq<u8>, off: int)
    ensures
        parse(data, off) matches Ok((v, _)) ==> maps_sorted(v),
    decreases data.len() - off, 0int, 0nat,
{
    if 0 <= off < data.len() {
        let p = off + 1;
        let t = data[off];
        if p + 4 <= data.len() {
            let n = crate::bytes::u32_at(data, p) as nat;
            if t == TYPE_ARRAY {
                lemma_items_sorted(data, p + 4, n, Seq::empty());
                if let Ok((items, e)) = parse_items(data, p + 4, n, Seq::empty()) {
                    assert(parse(data, off) == Ok::<(Value, int), crate::error::SproqetError>(
                        (Value::Array(items), e),
                    ));
                    lemma_all_sorted(items);
                }
            } else if t == TYPE_STRING_MAP {
                lemma_smap_sorted(data, p + 4, n, Seq::empty());
                if let Ok((es, e)) = parse_smap(data, p + 4, n, Seq::empty()) {
                    assert(parse(data, off) == Ok::<(Value, int), crate::error::SproqetError>(
                        (Value::StringMap(es), e),
                    ));
                    lemma_smap_values_sorted(es);
                }
            } else if t == TYPE_UINT_MAP {
                lemma_umap_sorted(data, p + 4, n, Seq::empty());
                if let Ok((es, e)) = parse_umap(data, p + 4, n, Seq::empty()) {
                    assert(parse(data, off) == Ok::<(Value, int), crate::error::SproqetError>(
                        (Value::UintMap(es), e),
                    ));
                    lemma_umap_values_sorted(es);
                }
            }
        }
    }
}

proof fn lemma_items_sorted(data: Seq<u8>, off: int, n: nat, acc: Seq<Value>)
    requires
        forall|i: int| 0 <= i < acc.len() ==> #[trigger] maps_sorted(acc[i]),
    ensures
        parse_items(data, off, n, acc) matches Ok((items, _)) ==> forall|i: int|
            0 <= i < items.len() ==> #[trigger] maps_sorted(items[i]),
    decreases data.len() - off, 1int, n,
{
    if n > 0 {
        lemma_parse_sorted(data, off);
        if let Ok((v, e)) = parse(data, off) {
            if off < e <= data.len() {
                let acc2 = acc.push(v);
                assert forall|i: int| 0 <= i < acc2.len() implies #[trigger] maps_sorted(acc2[i]) by {
                    if i < acc.len() {
                        assert(acc2[i] == acc[i]);
                    }
                }
                lemma_items_sorted(data, e, (n - 1) as nat, acc2);
            }
        }
    }
}

proof fn lemma_smap_sorted(data: Seq<u8>, off: int, n: nat, acc: Seq<(Seq<char>, Value)>)
    requires
        sorted_keys(acc, str_order()),
        forall|i: int| 0 <= i < acc.len() ==> #[trigger] maps_sorted(acc[i].1),
    ensures
        parse_smap(data, off, n, acc) matches Ok((es, _)) ==> sorted_keys(es, str_order())
            && forall|i: int| 0 <= i < es.len() ==> #[trigger] maps_sorted(es[i].1),
    decreases data.len() - off, 1int, n,
{
    if n > 0 {
        if let Ok((kb, q)) = crate::deserialize::parse_len_prefixed(data, off) {
            lemma_parse_sorted(data, q);
            if let Ok((v, e)) = parse(data, q) {
                if off < e <= data.len() {
                    let k = crate::deserialize::decode_lossy(kb);
                    lemma_str_key_order();
                    lemma_insert_sorted(acc, k, v, str_order());
                    let pred = |x: Value| maps_sorted(x);
                    lemma_insert_values(acc, k, v, str_order(), pred);
                    let r = crate::keys::map_insert(acc, k, v, str_order());
                    assert forall|i: int| 0 <= i < r.len() implies #[trigger] maps_sorted(r[i].1) by {
                        assert(pred(r[i].1));
                    }
                    lemma_smap_sorted(data, e, (n - 1) as nat, r);
                }
            }
        }
    }
}

proof fn lemma_umap_sorted(data: Seq<u8>, off: int, n: nat, acc: Seq<(u32, Value)>)
    requires
        sorted_keys(acc, u32_order()),
        forall|i: int| 0 <= i < acc.len() ==> #[trigger] maps_sorted(acc[i].1),
    ensures
        parse_umap(data, off, n, acc) matches Ok((es, _)) ==> sorted_keys(es, u32_order())
            && forall|i: int| 0 <= i < es.len() ==> #[trigger] maps_sorted(es[i].1),
    decreases data.len() - off, 1int, n,
{
    if n > 0 && 0 <= off && off + 8 <= data.len() {
        lemma_parse_sorted(data, off + 8);
        if let Ok((v, e)) = parse(data, off + 8) {
            if off < e <= data.len() {
                let k = #[verifier::truncate] (crate::bytes::u64_at(data, off) as u32);
                lemma_u32_key_order();
                lemma_insert_sorted(acc, k, v, u32_order());
                let pred = |x: Value| maps_sorted(x);
                lemma_insert_values(acc, k, v, u32_order(), pred);
                let r = crate::keys::map_insert(acc, k, v, u32_order());
                assert forall|i: int| 0 <= i < r.len() implies #[trigger] maps_sorted(r[i].1) by {
                    assert(pred(r[i].1));
                }
                lemma_umap_sorted(data, e, (n - 1) as nat, r);
            }
        }
    }
}

} // verus!
