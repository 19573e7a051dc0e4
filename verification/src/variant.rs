//! Self-describing value type: the payload language of Sproqet.
use vstd::prelude::*;
use vstd::utf8::encode_utf8;

use crate::bytes::{append_bytes, le_bytes_u32, le_bytes_u64};
use crate::deserialize::deserialize_spec;
use crate::error::SproqetError;
use crate::roundtrip::{lemma_roundtrip, lengths_fit};
use crate::sorted::{lemma_all_sorted, lemma_smap_values_sorted, lemma_umap_values_sorted, maps_sorted};
use crate::keys::{
    has_entry, has_key, bytes_equal, bytes_less, lemma_encode_injective, lemma_insert_at, lemma_insert_greatest,
    lemma_insert_sorted, lemma_str_key_order, lemma_u32_key_order, map_insert, sorted_keys,
    str_order, u32_order,
};

verus! {

/// Type tag `NULL`: no payload.
pub const TYPE_NULL: u8 = 0x00;
/// Type tag `VOID`: legacy alias of `NULL`; decodes to `Null`.
pub const TYPE_VOID: u8 = 0x01;
/// Type tag `BOOL`: one byte, 0 = false, anything else = true.
pub const TYPE_BOOL: u8 = 0x02;
/// Type tag `INT32`: four little-endian bytes.
pub const TYPE_INT32: u8 = 0x07;
/// Type tag `UINT32`: four little-endian bytes.
pub const TYPE_UINT32: u8 = 0x08;
/// Type tag `INT64`: eight little-endian bytes.
pub const TYPE_INT64: u8 = 0x09;
/// Type tag `UINT64`: eight little-endian bytes.
pub const TYPE_UINT64: u8 = 0x0A;
/// Type tag `DOUBLE`: the IEEE-754 bit pattern as eight little-endian bytes.
pub const TYPE_DOUBLE: u8 = 0x0C;
/// Type tag `BUFFER`: u32 length, then the raw bytes.
pub const TYPE_BUFFER: u8 = 0x0D;
/// Type tag `STRING`: u32 length, then the UTF-8 bytes.
pub const TYPE_STRING: u8 = 0x0E;
/// Type tag `ARRAY`: u32 count, then that many variants.
pub const TYPE_ARRAY: u8 = 0x0F;
/// Type tag `STRING_MAP`: u32 count, then (u32 key length, key bytes, variant) per entry.
pub const TYPE_STRING_MAP: u8 = 0x10;
/// Type tag `UINT_MAP`: u32 count, then (u64 key, variant) per entry.
pub const TYPE_UINT_MAP: u8 = 0x11;
/// Type tag `NDARRAY`: shape, dtype and data, see [`SproqetNDArray`].
pub const TYPE_NDARRAY: u8 = 0x20;

/// A multidimensional array.
#[derive(Debug, Clone)]
pub struct SproqetNDArray {
    /// Dimensions, outermost first.
    pub shape: Vec<u64>,
    /// Element type as a free-form string, e.g. `"uint8"`.
    pub data_type: String,
    /// The raw element bytes.
    pub data: Vec<u8>,
}

/// A dynamically-typed value: a one-byte type tag, then a payload whose
/// layout the tag determines.
#[derive(Debug)]
pub enum SproqetVariant {
    /// No value.
    Null,
    /// A boolean flag.
    Bool(bool),
    /// A signed 32-bit integer.
    Int32(i32),
    /// An unsigned 32-bit integer.
    Uint32(u32),
    /// A signed 64-bit integer.
    Int64(i64),
    /// An unsigned 64-bit integer.
    Uint64(u64),
    /// A 64-bit IEEE-754 float, held as its bit pattern.
    Double(u64),
    /// A raw byte blob.
    Buffer(Vec<u8>),
    /// A UTF-8 string.
    String(String),
    /// A heterogeneous list of variants.
    Array(Vec<SproqetVariant>),
    /// A string-keyed map.
    StringMap(SproqetStringMap),
    /// A u32-keyed map. Keys are written as u64 on the wire.
    UintMap(SproqetUintMap),
    /// A multidimensional array.
    NDArray(SproqetNDArray),
}

/// A map from strings to variants, held as its entries in strictly
/// ascending key order (by UTF-8 bytes), so that equal maps have equal
/// entries and encode to the same bytes.
#[derive(Debug)]
pub struct SproqetStringMap {
    entries: Vec<(String, SproqetVariant)>,
}

/// A map from u32 keys to variants, held as its entries in strictly
/// ascending key order.
#[derive(Debug)]
pub struct SproqetUintMap {
    entries: Vec<(u32, SproqetVariant)>,
}

impl From<bool> for SproqetVariant {
    fn from(v: bool) -> (r: Self) {
        SproqetVariant::Bool(v)
    }
}

impl vstd::std_specs::convert::FromSpecImpl<bool> for SproqetVariant {
    open spec fn obeys_from_spec() -> bool {
        true
    }

    open spec fn from_spec(v: bool) -> SproqetVariant {
        SproqetVariant::Bool(v)
    }
}

impl From<i32> for SproqetVariant {
    fn from(v: i32) -> (r: Self) {
        SproqetVariant::Int32(v)
    }
}

impl vstd::std_specs::convert::FromSpecImpl<i32> for SproqetVariant {
    open spec fn obeys_from_spec() -> bool {
        true
    }

    open spec fn from_spec(v: i32) -> SproqetVariant {
        SproqetVariant::Int32(v)
    }
}

impl From<u32> for SproqetVariant {
    fn from(v: u32) -> (r: Self) {
        SproqetVariant::Uint32(v)
    }
}

impl vstd::std_specs::convert::FromSpecImpl<u32> for SproqetVariant {
    open spec fn obeys_from_spec() -> bool {
        true
    }

    open spec fn from_spec(v: u32) -> SproqetVariant {
        SproqetVariant::Uint32(v)
    }
}

impl From<i64> for SproqetVariant {
    fn from(v: i64) -> (r: Self) {
        SproqetVariant::Int64(v)
    }
}

impl vstd::std_specs::convert::FromSpecImpl<i64> for SproqetVariant {
    open spec fn obeys_from_spec() -> bool {
        true
    }

    open spec fn from_spec(v: i64) -> SproqetVariant {
        SproqetVariant::Int64(v)
    }
}

impl From<u64> for SproqetVariant {
    fn from(v: u64) -> (r: Self) {
        SproqetVariant::Uint64(v)
    }
}

impl vstd::std_specs::convert::FromSpecImpl<u64> for SproqetVariant {
    open spec fn obeys_from_spec() -> bool {
        true
    }

    open spec fn from_spec(v: u64) -> SproqetVariant {
        SproqetVariant::Uint64(v)
    }
}

impl From<Vec<u8>> for SproqetVariant {
    fn from(v: Vec<u8>) -> (r: Self) {
        SproqetVariant::Buffer(v)
    }
}

impl vstd::std_specs::convert::FromSpecImpl<Vec<u8>> for SproqetVariant {
    open spec fn obeys_from_spec() -> bool {
        true
    }

    open spec fn from_spec(v: Vec<u8>) -> SproqetVariant {
        SproqetVariant::Buffer(v)
    }
}

impl From<&str> for SproqetVariant {
    /// A `String` variant holding a copy of `v`.
    fn from(v: &str) -> (r: Self)
        ensures
            r.model() == Value::String(v@),
    {
        SproqetVariant::String(v.to_owned())
    }
}

/// The contract of `from` on a `&str` is stated on the method itself, over
/// the variant's model: a spec value of `String` is not fixed by its
/// characters alone, so no `from_spec` names the result.
impl vstd::std_specs::convert::FromSpecImpl<&str> for SproqetVariant {
    open spec fn obeys_from_spec() -> bool {
        false
    }

    open spec fn from_spec(v: &str) -> SproqetVariant {
        SproqetVariant::Null
    }
}

impl From<SproqetNDArray> for SproqetVariant {
    fn from(v: SproqetNDArray) -> (r: Self) {
        SproqetVariant::NDArray(v)
    }
}

impl vstd::std_specs::convert::FromSpecImpl<SproqetNDArray> for SproqetVariant {
    open spec fn obeys_from_spec() -> bool {
        true
    }

    open spec fn from_spec(v: SproqetNDArray) -> SproqetVariant {
        SproqetVariant::NDArray(v)
    }
}

/// A copy of the bytes of `b`.
fn clone_bytes(b: &Vec<u8>) -> (r: Vec<u8>)
    ensures
        r@ == b@,
{
    let mut r: Vec<u8> = Vec::new();
    append_bytes(&mut r, b.as_slice());
    assert(r@ =~= b@);
    r
}

impl Clone for SproqetVariant {
    /// A deep copy, equal in value.
    fn clone(&self) -> (r: Self)
        ensures
            r.model() == self.model(),
        decreases self,
    {
        match self {
            SproqetVariant::Null => SproqetVariant::Null,
            SproqetVariant::Bool(b) => SproqetVariant::Bool(*b),
            SproqetVariant::Int32(x) => SproqetVariant::Int32(*x),
            SproqetVariant::Uint32(x) => SproqetVariant::Uint32(*x),
            SproqetVariant::Int64(x) => SproqetVariant::Int64(*x),
            SproqetVariant::Uint64(x) => SproqetVariant::Uint64(*x),
            SproqetVariant::Double(x) => SproqetVariant::Double(*x),
            SproqetVariant::Buffer(b) => SproqetVariant::Buffer(clone_bytes(b)),
            SproqetVariant::String(s) => SproqetVariant::String(s.clone()),
            SproqetVariant::Array(v) => {
                let mut out: Vec<SproqetVariant> = Vec::new();
                let mut i: usize = 0;
                while i < v.len()
                    invariant
                        0 <= i <= v@.len(),
                        *self == SproqetVariant::Array(*v),
                        models(out@) == models(v@.take(i as int)),
                    decreases v@.len() - i,
                {
                    proof {
                        assert(decreases_to!(*self => self->Array_0));
                        assert(self->Array_0 == *v);
                        assert(decreases_to!(*v => v@));
                        assert(decreases_to!(v@ => v@[i as int]));
                    }
                    let c = v[i].clone();
                    proof {
                        lemma_models_push(out@, c);
                        lemma_models_push(v@.take(i as int), v@[i as int]);
                        assert(v@.take(i + 1) =~= v@.take(i as int).push(v@[i as int]));
                    }
                    out.push(c);
                    i += 1;
                }
                assert(v@.take(v@.len() as int) =~= v@);
                SproqetVariant::Array(out)
            },
            SproqetVariant::StringMap(m) => {
                let v = &m.entries;
                let mut out: Vec<(String, SproqetVariant)> = Vec::new();
                let mut i: usize = 0;
                while i < v.len()
                    invariant
                        0 <= i <= v@.len(),
                        *self == SproqetVariant::StringMap(*m),
                        *v == m.entries,
                        smap_models(out@) == smap_models(v@.take(i as int)),
                    decreases v@.len() - i,
                {
                    proof {
                        assert(decreases_to!(*self => self->StringMap_0));
                        assert(self->StringMap_0 == *m);
                        assert(decreases_to!(*m => m.entries));
                        assert(decreases_to!(*v => v@));
                        assert(decreases_to!(v@ => v@[i as int]));
                        assert(decreases_to!(v@[i as int] => v@[i as int].1));
                    }
                    let entry = &v[i];
                    let c = (entry.0.clone(), entry.1.clone());
                    proof {
                        lemma_smap_models_edit(out@, 0, c);
                        lemma_smap_models_edit(v@.take(i as int), 0, v@[i as int]);
                        assert(v@.take(i + 1) =~= v@.take(i as int).push(v@[i as int]));
                    }
                    out.push(c);
                    i += 1;
                }
                assert(v@.take(v@.len() as int) =~= v@);
                proof {
                    use_type_invariant(m);
                }
                SproqetVariant::StringMap(SproqetStringMap { entries: out })
            },
            SproqetVariant::UintMap(m) => {
                let v = &m.entries;
                let mut out: Vec<(u32, SproqetVariant)> = Vec::new();
                let mut i: usize = 0;
                while i < v.len()
                    invariant
                        0 <= i <= v@.len(),
                        *self == SproqetVariant::UintMap(*m),
                        *v == m.entries,
                        umap_models(out@) == umap_models(v@.take(i as int)),
                    decreases v@.len() - i,
                {
                    proof {
                        assert(decreases_to!(*self => self->UintMap_0));
                        assert(self->UintMap_0 == *m);
                        assert(decreases_to!(*m => m.entries));
                        assert(decreases_to!(*v => v@));
                        assert(decreases_to!(v@ => v@[i as int]));
                        assert(decreases_to!(v@[i as int] => v@[i as int].1));
                    }
                    let entry = &v[i];
                    let c = (entry.0, entry.1.clone());
                    proof {
                        lemma_umap_models_edit(out@, 0, c);
                        lemma_umap_models_edit(v@.take(i as int), 0, v@[i as int]);
                        assert(v@.take(i + 1) =~= v@.take(i as int).push(v@[i as int]));
                    }
                    out.push(c);
                    i += 1;
                }
                assert(v@.take(v@.len() as int) =~= v@);
                proof {
                    use_type_invariant(m);
                }
                SproqetVariant::UintMap(SproqetUintMap { entries: out })
            },
            SproqetVariant::NDArray(nd) => {
                let mut shape: Vec<u64> = Vec::new();
                let mut i: usize = 0;
                while i < nd.shape.len()
                    invariant
                        0 <= i <= nd.shape@.len(),
                        shape@ == nd.shape@.take(i as int),
                    decreases nd.shape@.len() - i,
                {
                    shape.push(nd.shape[i]);
                    i += 1;
                    assert(shape@ =~= nd.shape@.take(i as int));
                }
                assert(nd.shape@.take(nd.shape@.len() as int) =~= nd.shape@);
                SproqetVariant::NDArray(
                    SproqetNDArray {
                        shape,
                        data_type: nd.data_type.clone(),
                        data: clone_bytes(&nd.data),
                    },
                )
            },
        }
    }
}

/// The mathematical value of a variant: byte and character sequences in
/// place of vectors and strings, and maps as sequences of entries.
pub enum Value {
    /// `Null`.
    Null,
    /// `Bool`.
    Bool(bool),
    /// `Int32`.
    Int32(i32),
    /// `Uint32`.
    Uint32(u32),
    /// `Int64`.
    Int64(i64),
    /// `Uint64`.
    Uint64(u64),
    /// `Double`, by its bit pattern.
    Double(u64),
    /// `Buffer`: the bytes.
    Buffer(Seq<u8>),
    /// `String`: the characters.
    String(Seq<char>),
    /// `Array`: the item values.
    Array(Seq<Value>),
    /// `StringMap`: the entries, in order.
    StringMap(Seq<(Seq<char>, Value)>),
    /// `UintMap`: the entries, in order.
    UintMap(Seq<(u32, Value)>),
    /// `NDArray`: shape, element type and data bytes.
    NDArray(Seq<u64>, Seq<char>, Seq<u8>),
}

impl SproqetVariant {
    /// The mathematical value of this variant.
    pub open spec fn model(self) -> Value
        decreases self,
    {
        match self {
            SproqetVariant::Null => Value::Null,
            SproqetVariant::Bool(b) => Value::Bool(b),
            SproqetVariant::Int32(x) => Value::Int32(x),
            SproqetVariant::Uint32(x) => Value::Uint32(x),
            SproqetVariant::Int64(x) => Value::Int64(x),
            SproqetVariant::Uint64(x) => Value::Uint64(x),
            SproqetVariant::Double(x) => Value::Double(x),
            SproqetVariant::Buffer(b) => Value::Buffer(b@),
            SproqetVariant::String(s) => Value::String(s@),
            SproqetVariant::Array(items) => Value::Array(models(items@)),
            SproqetVariant::StringMap(m) => Value::StringMap(m.view()),
            SproqetVariant::UintMap(m) => Value::UintMap(m.view()),
            SproqetVariant::NDArray(nd) => Value::NDArray(nd.shape@, nd.data_type@, nd.data@),
        }
    }
}

impl SproqetStringMap {
    /// The entries, in ascending key order, as keys and values.
    pub closed spec fn view(&self) -> Seq<(Seq<char>, Value)>
        decreases self,
    {
        smap_models(self.entries@)
    }

    #[verifier::type_invariant]
    spec fn keys_ascending(self) -> bool {
        sorted_keys(smap_models(self.entries@), str_order())
    }
}

impl SproqetUintMap {
    /// The entries, in ascending key order, as keys and values.
    pub closed spec fn view(&self) -> Seq<(u32, Value)>
        decreases self,
    {
        umap_models(self.entries@)
    }

    #[verifier::type_invariant]
    spec fn keys_ascending(self) -> bool {
        sorted_keys(umap_models(self.entries@), u32_order())
    }
}

/// The values of a sequence of variants.
pub open spec fn models(s: Seq<SproqetVariant>) -> Seq<Value>
    decreases s,
{
    if s.len() == 0 {
        Seq::empty()
    } else {
        seq![s[0].model()] + models(s.drop_first())
    }
}

/// The entries of a string-keyed map, as keys and values.
pub open spec fn smap_models(s: Seq<(String, SproqetVariant)>) -> Seq<(Seq<char>, Value)>
    decreases s,
{
    if s.len() == 0 {
        Seq::empty()
    } else {
        seq![(s[0].0@, s[0].1.model())] + smap_models(s.drop_first())
    }
}

/// The entries of a u32-keyed map, as keys and values.
pub open spec fn umap_models(s: Seq<(u32, SproqetVariant)>) -> Seq<(u32, Value)>
    decreases s,
{
    if s.len() == 0 {
        Seq::empty()
    } else {
        seq![(s[0].0, s[0].1.model())] + umap_models(s.drop_first())
    }
}

/// A byte string preceded by its length as a little-endian u32.
pub open spec fn len_prefixed(b: Seq<u8>) -> Seq<u8> {
    le_bytes_u32(b.len() as u32) + b
}

/// The wire encoding of a value.
pub open spec fn ser(v: Value) -> Seq<u8>
    decreases v,
{
    match v {
        Value::Null => seq![TYPE_NULL],
        Value::Bool(b) => seq![TYPE_BOOL, if b { 1u8 } else { 0u8 }],
        Value::Int32(x) => seq![TYPE_INT32] + le_bytes_u32(x as u32),
        Value::Uint32(x) => seq![TYPE_UINT32] + le_bytes_u32(x),
        Value::Int64(x) => seq![TYPE_INT64] + le_bytes_u64(x as u64),
        Value::Uint64(x) => seq![TYPE_UINT64] + le_bytes_u64(x),
        Value::Double(x) => seq![TYPE_DOUBLE] + le_bytes_u64(x),
        Value::Buffer(b) => seq![TYPE_BUFFER] + len_prefixed(b),
        Value::String(s) => seq![TYPE_STRING] + len_prefixed(encode_utf8(s)),
        Value::Array(items) => seq![TYPE_ARRAY] + le_bytes_u32(items.len() as u32) + ser_items(
            items,
        ),
        Value::StringMap(es) => seq![TYPE_STRING_MAP] + le_bytes_u32(es.len() as u32) + ser_smap(
            es,
        ),
        Value::UintMap(es) => seq![TYPE_UINT_MAP] + le_bytes_u32(es.len() as u32) + ser_umap(es),
        Value::NDArray(shape, dt, data) => seq![TYPE_NDARRAY] + le_bytes_u32(shape.len() as u32)
            + ser_u64s(shape) + len_prefixed(encode_utf8(dt)) + len_prefixed(data),
    }
}

/// The encodings of `items`, one after another.
pub open spec fn ser_items(items: Seq<Value>) -> Seq<u8>
    decreases items,
{
    if items.len() == 0 {
        Seq::empty()
    } else {
        ser(items[0]) + ser_items(items.drop_first())
    }
}

/// The entries of a string-keyed map: each key length-prefixed, then its value.
pub open spec fn ser_smap(es: Seq<(Seq<char>, Value)>) -> Seq<u8>
    decreases es,
{
    if es.len() == 0 {
        Seq::empty()
    } else {
        len_prefixed(encode_utf8(es[0].0)) + ser(es[0].1) + ser_smap(es.drop_first())
    }
}

/// The entries of a u32-keyed map: each key as a u64, then its value.
pub open spec fn ser_umap(es: Seq<(u32, Value)>) -> Seq<u8>
    decreases es,
{
    if es.len() == 0 {
        Seq::empty()
    } else {
        le_bytes_u64(es[0].0 as u64) + ser(es[0].1) + ser_umap(es.drop_first())
    }
}

/// A sequence of u64s, each as eight little-endian bytes.
pub open spec fn ser_u64s(s: Seq<u64>) -> Seq<u8>
    decreases s.len(),
{
    if s.len() == 0 {
        Seq::empty()
    } else {
        le_bytes_u64(s[0]) + ser_u64s(s.drop_first())
    }
}

proof fn lemma_ser_items_take(s: Seq<Value>, i: int)
    requires
        0 <= i < s.len(),
    ensures
        ser_items(s.take(i + 1)) == ser_items(s.take(i)) + ser(s[i]),
    decreases i,
{
    if i == 0 {
        let t1 = s.take(1);
        assert(t1[0] == s[0]);
        assert(t1.drop_first() =~= Seq::<Value>::empty());
        assert(ser_items(t1.drop_first()) =~= Seq::<u8>::empty());
        assert(s.take(0) =~= Seq::<Value>::empty());
        assert(ser_items(s.take(1)) =~= ser(s[0]));
    } else {
        let t = s.drop_first();
        lemma_ser_items_take(t, i - 1);
        assert(s.take(i + 1).drop_first() =~= t.take(i));
        assert(s.take(i).drop_first() =~= t.take(i - 1));
        assert(ser_items(s.take(i + 1)) =~= ser_items(s.take(i)) + ser(s[i]));
    }
}

proof fn lemma_ser_smap_take(s: Seq<(Seq<char>, Value)>, i: int)
    requires
        0 <= i < s.len(),
    ensures
        ser_smap(s.take(i + 1)) == ser_smap(s.take(i)) + len_prefixed(encode_utf8(s[i].0)) + ser(
            s[i].1,
        ),
    decreases i,
{
    if i == 0 {
        let t1 = s.take(1);
        assert(t1[0] == s[0]);
        assert(t1.drop_first() =~= Seq::<(Seq<char>, Value)>::empty());
        assert(ser_smap(t1.drop_first()) =~= Seq::<u8>::empty());
        assert(s.take(0) =~= Seq::<(Seq<char>, Value)>::empty());
        assert(ser_smap(s.take(1)) =~= len_prefixed(encode_utf8(s[0].0)) + ser(s[0].1));
    } else {
        let t = s.drop_first();
        lemma_ser_smap_take(t, i - 1);
        assert(s.take(i + 1).drop_first() =~= t.take(i));
        assert(s.take(i).drop_first() =~= t.take(i - 1));
        assert(ser_smap(s.take(i + 1)) =~= ser_smap(s.take(i)) + len_prefixed(encode_utf8(s[i].0))
            + ser(s[i].1));
    }
}

proof fn lemma_ser_umap_take(s: Seq<(u32, Value)>, i: int)
    requires
        0 <= i < s.len(),
    ensures
        ser_umap(s.take(i + 1)) == ser_umap(s.take(i)) + le_bytes_u64(s[i].0 as u64) + ser(s[i].1),
    decreases i,
{
    if i == 0 {
        let t1 = s.take(1);
        assert(t1[0] == s[0]);
        assert(t1.drop_first() =~= Seq::<(u32, Value)>::empty());
        assert(ser_umap(t1.drop_first()) =~= Seq::<u8>::empty());
        assert(s.take(0) =~= Seq::<(u32, Value)>::empty());
        assert(ser_umap(s.take(1)) =~= le_bytes_u64(s[0].0 as u64) + ser(s[0].1));
    } else {
        let t = s.drop_first();
        lemma_ser_umap_take(t, i - 1);
        assert(s.take(i + 1).drop_first() =~= t.take(i));
        assert(s.take(i).drop_first() =~= t.take(i - 1));
        assert(ser_umap(s.take(i + 1)) =~= ser_umap(s.take(i)) + le_bytes_u64(s[i].0 as u64) + ser(
            s[i].1,
        ));
    }
}

proof fn lemma_ser_u64s_take(s: Seq<u64>, i: int)
    requires
        0 <= i < s.len(),
    ensures
        ser_u64s(s.take(i + 1)) == ser_u64s(s.take(i)) + le_bytes_u64(s[i]),
    decreases i,
{
    if i == 0 {
        let t1 = s.take(1);
        assert(t1[0] == s[0]);
        assert(t1.drop_first() =~= Seq::<u64>::empty());
        assert(ser_u64s(t1.drop_first()) =~= Seq::<u8>::empty());
        assert(s.take(0) =~= Seq::<u64>::empty());
        assert(ser_u64s(s.take(1)) =~= le_bytes_u64(s[0]));
    } else {
        let t = s.drop_first();
        lemma_ser_u64s_take(t, i - 1);
        assert(s.take(i + 1).drop_first() =~= t.take(i));
        assert(s.take(i).drop_first() =~= t.take(i - 1));
        assert(ser_u64s(s.take(i + 1)) =~= ser_u64s(s.take(i)) + le_bytes_u64(s[i]));
    }
}

pub(crate) proof fn lemma_models(s: Seq<SproqetVariant>)
    ensures
        models(s).len() == s.len(),
        forall|i: int| 0 <= i < s.len() ==> #[trigger] models(s)[i] == s[i].model(),
    decreases s.len(),
{
    if s.len() > 0 {
        lemma_models(s.drop_first());
        assert forall|i: int| 0 <= i < s.len() implies #[trigger] models(s)[i] == s[i].model() by {
            if i > 0 {
                assert(models(s)[i] == models(s.drop_first())[i - 1]);
            }
        }
    }
}

pub(crate) proof fn lemma_smap_models(s: Seq<(String, SproqetVariant)>)
    ensures
        smap_models(s).len() == s.len(),
        forall|i: int|
            0 <= i < s.len() ==> #[trigger] smap_models(s)[i] == (s[i].0@, s[i].1.model()),
    decreases s.len(),
{
    if s.len() > 0 {
        lemma_smap_models(s.drop_first());
        assert forall|i: int| 0 <= i < s.len() implies #[trigger] smap_models(s)[i] == (
            s[i].0@,
            s[i].1.model(),
        ) by {
            if i > 0 {
                assert(smap_models(s)[i] == smap_models(s.drop_first())[i - 1]);
            }
        }
    }
}

pub(crate) proof fn lemma_umap_models(s: Seq<(u32, SproqetVariant)>)
    ensures
        umap_models(s).len() == s.len(),
        forall|i: int| 0 <= i < s.len() ==> #[trigger] umap_models(s)[i] == (s[i].0, s[i].1.model()),
    decreases s.len(),
{
    if s.len() > 0 {
        lemma_umap_models(s.drop_first());
        assert forall|i: int| 0 <= i < s.len() implies #[trigger] umap_models(s)[i] == (
            s[i].0,
            s[i].1.model(),
        ) by {
            if i > 0 {
                assert(umap_models(s)[i] == umap_models(s.drop_first())[i - 1]);
            }
        }
    }
}

pub(crate) proof fn lemma_models_push(s: Seq<SproqetVariant>, x: SproqetVariant)
    ensures
        models(s.push(x)) == models(s).push(x.model()),
{
    lemma_models(s);
    lemma_models(s.push(x));
    assert(models(s.push(x)) =~= models(s).push(x.model()));
}

proof fn lemma_smap_models_edit(s: Seq<(String, SproqetVariant)>, i: int, e: (String, SproqetVariant))
    ensures
        0 <= i < s.len() ==> smap_models(s.update(i, e)) == smap_models(s).update(i, (e.0@, e.1.model())),
        0 <= i <= s.len() ==> smap_models(s.insert(i, e)) == smap_models(s).insert(i, (e.0@, e.1.model())),
        smap_models(s.push(e)) == smap_models(s).push((e.0@, e.1.model())),
{
    lemma_smap_models(s);
    lemma_smap_models(s.push(e));
    assert(smap_models(s.push(e)) =~= smap_models(s).push((e.0@, e.1.model())));
    if 0 <= i < s.len() {
        lemma_smap_models(s.update(i, e));
        assert(smap_models(s.update(i, e)) =~= smap_models(s).update(i, (e.0@, e.1.model())));
    }
    if 0 <= i <= s.len() {
        lemma_smap_models(s.insert(i, e));
        assert(smap_models(s.insert(i, e)) =~= smap_models(s).insert(i, (e.0@, e.1.model())));
    }
}

proof fn lemma_umap_models_edit(s: Seq<(u32, SproqetVariant)>, i: int, e: (u32, SproqetVariant))
    ensures
        0 <= i < s.len() ==> umap_models(s.update(i, e)) == umap_models(s).update(i, (e.0, e.1.model())),
        0 <= i <= s.len() ==> umap_models(s.insert(i, e)) == umap_models(s).insert(i, (e.0, e.1.model())),
        umap_models(s.push(e)) == umap_models(s).push((e.0, e.1.model())),
{
    lemma_umap_models(s);
    lemma_umap_models(s.push(e));
    assert(umap_models(s.push(e)) =~= umap_models(s).push((e.0, e.1.model())));
    if 0 <= i < s.len() {
        lemma_umap_models(s.update(i, e));
        assert(umap_models(s.update(i, e)) =~= umap_models(s).update(i, (e.0, e.1.model())));
    }
    if 0 <= i <= s.len() {
        lemma_umap_models(s.insert(i, e));
        assert(umap_models(s.insert(i, e)) =~= umap_models(s).insert(i, (e.0, e.1.model())));
    }
}

/// Map `key` to `value` in entries whose keys are strictly ascending (by
/// UTF-8 bytes): an existing entry for `key` gets the new value, otherwise
/// a new entry goes before the first greater key.
fn string_map_insert(map: &mut Vec<(String, SproqetVariant)>, key: String, value: SproqetVariant)
    requires
        sorted_keys(smap_models(old(map)@), str_order()),
    ensures
        smap_models(final(map)@) == map_insert(smap_models(old(map)@), key@, value.model(), str_order()),
{
    let ghost m = smap_models(map@);
    let ghost e = (key, value);
    proof {
        lemma_smap_models(map@);
        lemma_str_key_order();
    }
    let n = map.len();
    if n == 0 || bytes_less(map[n - 1].0.as_str().as_bytes(), key.as_str().as_bytes()) {
        proof {
            lemma_insert_greatest(m, key@, value.model(), str_order());
            lemma_smap_models_edit(map@, 0, e);
        }
        map.push((key, value));
        return;
    }
    let mut i: usize = 0;
    while i < n && bytes_less(map[i].0.as_str().as_bytes(), key.as_str().as_bytes())
        invariant
            0 <= i <= n,
            n == map@.len(),
            m == smap_models(map@),
            m.len() == n,
            forall|j: int| 0 <= j < n ==> #[trigger] m[j] == (map@[j].0@, map@[j].1.model()),
            forall|j: int| 0 <= j < i ==> #[trigger] str_order()(m[j].0, key@),
        decreases n - i,
    {
        i += 1;
    }
    if i < n && bytes_equal(map[i].0.as_str().as_bytes(), key.as_str().as_bytes()) {
        proof {
            lemma_encode_injective(m[i as int].0, key@);
            lemma_insert_at(m, key@, value.model(), str_order(), i as int);
            lemma_smap_models_edit(map@, i as int, e);
        }
        map.set(i, (key, value));
    } else {
        proof {
            lemma_insert_at(m, key@, value.model(), str_order(), i as int);
            lemma_smap_models_edit(map@, i as int, e);
        }
        map.insert(i, (key, value));
    }
}

/// Map `key` to `value` in entries whose keys are strictly ascending: an
/// existing entry for `key` gets the new value, otherwise a new entry goes
/// before the first greater key.
fn uint_map_insert(map: &mut Vec<(u32, SproqetVariant)>, key: u32, value: SproqetVariant)
    requires
        sorted_keys(umap_models(old(map)@), u32_order()),
    ensures
        umap_models(final(map)@) == map_insert(umap_models(old(map)@), key, value.model(), u32_order()),
{
    let ghost m = umap_models(map@);
    let ghost e = (key, value);
    proof {
        lemma_umap_models(map@);
        lemma_u32_key_order();
    }
    let n = map.len();
    if n == 0 || map[n - 1].0 < key {
        proof {
            lemma_insert_greatest(m, key, value.model(), u32_order());
            lemma_umap_models_edit(map@, 0, e);
        }
        map.push((key, value));
        return;
    }
    let mut i: usize = 0;
    while i < n && map[i].0 < key
        invariant
            0 <= i <= n,
            n == map@.len(),
            m == umap_models(map@),
            m.len() == n,
            forall|j: int| 0 <= j < n ==> #[trigger] m[j] == (map@[j].0, map@[j].1.model()),
            forall|j: int| 0 <= j < i ==> #[trigger] u32_order()(m[j].0, key),
        decreases n - i,
    {
        i += 1;
    }
    proof {
        lemma_insert_at(m, key, value.model(), u32_order(), i as int);
        lemma_umap_models_edit(map@, i as int, e);
    }
    if i < n && map[i].0 == key {
        map.set(i, (key, value));
    } else {
        map.insert(i, (key, value));
    }
}

impl SproqetStringMap {
    /// An empty map.
    pub fn new() -> (m: Self)
        ensures
            m@ == Seq::<(Seq<char>, Value)>::empty(),
    {
        let m = SproqetStringMap { entries: Vec::new() };
        assert(m@ =~= Seq::<(Seq<char>, Value)>::empty());
        m
    }

    /// Map `key` to `value`: an existing entry for `key` gets the new
    /// value, otherwise a new entry goes in its place in key order.
    pub fn insert(&mut self, key: String, value: SproqetVariant)
        ensures
            final(self)@ == map_insert(old(self)@, key@, value.model(), str_order()),
    {
        proof {
            use_type_invariant(&*self);
            lemma_str_key_order();
            lemma_insert_sorted(self@, key@, value.model(), str_order());
        }
        let mut entries: Vec<(String, SproqetVariant)> = Vec::new();
        std::mem::swap(&mut entries, &mut self.entries);
        string_map_insert(&mut entries, key, value);
        self.entries = entries;
    }

    /// The number of entries.
    pub fn len(&self) -> (n: usize)
        ensures
            n == self@.len(),
    {
        proof {
            lemma_smap_models(self.entries@);
        }
        self.entries.len()
    }

    /// The value mapped to `key`, if any.
    pub fn get(&self, key: &str) -> (r: Option<&SproqetVariant>)
        ensures
            match r {
                Some(v) => has_entry(self@, (key@, v.model())),
                None => !has_key(self@, key@),
            },
    {
        proof {
            lemma_smap_models(self.entries@);
        }
        let ghost m = self@;
        let mut i: usize = 0;
        while i < self.entries.len()
            invariant
                0 <= i <= self.entries@.len(),
                m == smap_models(self.entries@),
                m.len() == self.entries@.len(),
                forall|j: int|
                    0 <= j < m.len() ==> #[trigger] m[j] == (
                        self.entries@[j].0@,
                        self.entries@[j].1.model(),
                    ),
                forall|j: int| 0 <= j < i ==> #[trigger] m[j].0 != key@,
            decreases self.entries@.len() - i,
        {
            let entry = &self.entries[i];
            if bytes_equal(entry.0.as_str().as_bytes(), key.as_bytes()) {
                proof {
                    lemma_encode_injective(m[i as int].0, key@);
                    assert(m[i as int] == (key@, entry.1.model()));
                }
                return Some(&entry.1);
            }
            proof {
                if m[i as int].0 == key@ {
                    assert(encode_utf8(m[i as int].0) == encode_utf8(key@));
                }
            }
            i += 1;
        }
        None
    }

    /// The entries, in ascending key order.
    pub fn entries(&self) -> (es: &[(String, SproqetVariant)])
        ensures
            smap_models(es@) == self@,
    {
        self.entries.as_slice()
    }
}

impl SproqetUintMap {
    /// An empty map.
    pub fn new() -> (m: Self)
        ensures
            m@ == Seq::<(u32, Value)>::empty(),
    {
        let m = SproqetUintMap { entries: Vec::new() };
        assert(m@ =~= Seq::<(u32, Value)>::empty());
        m
    }

    /// Map `key` to `value`: an existing entry for `key` gets the new
    /// value, otherwise a new entry goes in its place in key order.
    pub fn insert(&mut self, key: u32, value: SproqetVariant)
        ensures
            final(self)@ == map_insert(old(self)@, key, value.model(), u32_order()),
    {
        proof {
            use_type_invariant(&*self);
            lemma_u32_key_order();
            lemma_insert_sorted(self@, key, value.model(), u32_order());
        }
        let mut entries: Vec<(u32, SproqetVariant)> = Vec::new();
        std::mem::swap(&mut entries, &mut self.entries);
        uint_map_insert(&mut entries, key, value);
        self.entries = entries;
    }

    /// The number of entries.
    pub fn len(&self) -> (n: usize)
        ensures
            n == self@.len(),
    {
        proof {
            lemma_umap_models(self.entries@);
        }
        self.entries.len()
    }

    /// The value mapped to `key`, if any.
    pub fn get(&self, key: u32) -> (r: Option<&SproqetVariant>)
        ensures
            match r {
                Some(v) => has_entry(self@, (key, v.model())),
                None => !has_key(self@, key),
            },
    {
        proof {
            lemma_umap_models(self.entries@);
        }
        let ghost m = self@;
        let mut i: usize = 0;
        while i < self.entries.len()
            invariant
                0 <= i <= self.entries@.len(),
                m == umap_models(self.entries@),
                m.len() == self.entries@.len(),
                forall|j: int|
                    0 <= j < m.len() ==> #[trigger] m[j] == (self.entries@[j].0, self.entries@[j].1.model()),
                forall|j: int| 0 <= j < i ==> #[trigger] m[j].0 != key,
            decreases self.entries@.len() - i,
        {
            let entry = &self.entries[i];
            if entry.0 == key {
                assert(m[i as int] == (key, entry.1.model()));
                return Some(&entry.1);
            }
            i += 1;
        }
        None
    }

    /// The entries, in ascending key order.
    pub fn entries(&self) -> (es: &[(u32, SproqetVariant)])
        ensures
            umap_models(es@) == self@,
    {
        self.entries.as_slice()
    }
}

/// Append one byte.
fn write8(buf: &mut Vec<u8>, v: u8)
    ensures
        final(buf)@ == old(buf)@.push(v),
{
    buf.push(v);
}

/// Append the four little-endian bytes of `v`.
fn write32(buf: &mut Vec<u8>, v: u32)
    ensures
        final(buf)@ == old(buf)@ + le_bytes_u32(v),
{
    buf.push((v & 0xff) as u8);
    buf.push(((v >> 8) & 0xff) as u8);
    buf.push(((v >> 16) & 0xff) as u8);
    buf.push(((v >> 24) & 0xff) as u8);
    assert(buf@ =~= old(buf)@ + le_bytes_u32(v));
}

/// Append the eight little-endian bytes of `v`.
fn write64(buf: &mut Vec<u8>, v: u64)
    ensures
        final(buf)@ == old(buf)@ + le_bytes_u64(v),
{
    buf.push((v & 0xff) as u8);
    buf.push(((v >> 8) & 0xff) as u8);
    buf.push(((v >> 16) & 0xff) as u8);
    buf.push(((v >> 24) & 0xff) as u8);
    buf.push(((v >> 32) & 0xff) as u8);
    buf.push(((v >> 40) & 0xff) as u8);
    buf.push(((v >> 48) & 0xff) as u8);
    buf.push(((v >> 56) & 0xff) as u8);
    assert(buf@ =~= old(buf)@ + le_bytes_u64(v));
}

/// Append `b` preceded by its length as a u32.
fn write_len_prefixed(buf: &mut Vec<u8>, b: &[u8])
    ensures
        final(buf)@ == old(buf)@ + len_prefixed(b@),
{
    write32(buf, b.len() as u32);
    append_bytes(buf, b);
    assert(buf@ =~= old(buf)@ + len_prefixed(b@));
}

impl SproqetVariant {
    /// Append the wire encoding of `self` to `buf`.
    ///
    /// The encoding is a function of the value alone, and every map holds
    /// its entries in ascending key order, so equal values (maps equal as
    /// sets of entries, whatever order they were built in) give
    /// byte-identical output. Decoding the encoding gives the value back,
    /// whatever bytes follow it, where every length and count fits in a u32.
    #[verifier::rlimit(50)]
    pub fn serialize(&self, buf: &mut Vec<u8>)
        ensures
            final(buf)@ == old(buf)@ + ser(self.model()),
            maps_sorted(self.model()),
            lengths_fit(self.model()) ==> forall|rest: Seq<u8>|
                #[trigger] deserialize_spec(ser(self.model()) + rest) == Ok::<Value, SproqetError>(
                    self.model(),
                ),
        decreases self,
    {
        let ghost start = buf@;
        match self {
            SproqetVariant::Null => write8(buf, TYPE_NULL),
            SproqetVariant::Bool(v) => {
                write8(buf, TYPE_BOOL);
                write8(buf, if *v { 1u8 } else { 0u8 });
            },
            SproqetVariant::Int32(v) => {
                write8(buf, TYPE_INT32);
                write32(buf, *v as u32);
            },
            SproqetVariant::Uint32(v) => {
                write8(buf, TYPE_UINT32);
                write32(buf, *v);
            },
            SproqetVariant::Int64(v) => {
                write8(buf, TYPE_INT64);
                write64(buf, *v as u64);
            },
            SproqetVariant::Uint64(v) => {
                write8(buf, TYPE_UINT64);
                write64(buf, *v);
            },
            SproqetVariant::Double(v) => {
                write8(buf, TYPE_DOUBLE);
                write64(buf, *v);
            },
            SproqetVariant::Buffer(v) => {
                write8(buf, TYPE_BUFFER);
                write_len_prefixed(buf, v.as_slice());
            },
            SproqetVariant::String(v) => {
                write8(buf, TYPE_STRING);
                write_len_prefixed(buf, v.as_str().as_bytes());
            },
            SproqetVariant::Array(v) => {
                write8(buf, TYPE_ARRAY);
                write32(buf, v.len() as u32);
                let ghost mid = buf@;
                let ghost ms = models(v@);
                proof {
                    lemma_models(v@);
                }
                let mut i: usize = 0;
                while i < v.len()
                    invariant
                        0 <= i <= v@.len(),
                        ms == models(v@),
                        *self == SproqetVariant::Array(*v),
                        ms.len() == v@.len(),
                        forall|j: int| 0 <= j < v@.len() ==> #[trigger] ms[j] == v@[j].model(),
                        forall|j: int| 0 <= j < i ==> #[trigger] maps_sorted(ms[j]),
                        buf@ == mid + ser_items(ms.take(i as int)),
                    decreases v@.len() - i,
                {
                    proof {
                        assert(decreases_to!(*self => self->Array_0));
                        assert(self->Array_0 == *v);
                        assert(decreases_to!(*v => v@));
                        assert(decreases_to!(v@ => v@[i as int]));
                    }
                    v[i].serialize(buf);
                    proof {
                        lemma_ser_items_take(ms, i as int);
                    }
                    i += 1;
                    assert(buf@ =~= mid + ser_items(ms.take(i as int)));
                }
                assert(ms.take(v@.len() as int) =~= ms);
                assert(buf@ =~= start + ser(self.model()));
                proof {
                    lemma_all_sorted(ms);
                }
            },
            SproqetVariant::StringMap(m) => {
                let v = &m.entries;
                write8(buf, TYPE_STRING_MAP);
                write32(buf, v.len() as u32);
                let ghost mid = buf@;
                let ghost ms = smap_models(v@);
                proof {
                    lemma_smap_models(v@);
                }
                let mut i: usize = 0;
                while i < v.len()
                    invariant
                        0 <= i <= v@.len(),
                        ms == smap_models(v@),
                        *self == SproqetVariant::StringMap(*m),
                        *v == m.entries,
                        ms.len() == v@.len(),
                        forall|j: int|
                            0 <= j < v@.len() ==> #[trigger] ms[j] == (v@[j].0@, v@[j].1.model()),
                        forall|j: int| 0 <= j < i ==> #[trigger] maps_sorted(ms[j].1),
                        buf@ == mid + ser_smap(ms.take(i as int)),
                    decreases v@.len() - i,
                {
                    let entry = &v[i];
                    write_len_prefixed(buf, entry.0.as_str().as_bytes());
                    proof {
                        assert(decreases_to!(*self => self->StringMap_0));
                        assert(self->StringMap_0 == *m);
                        assert(decreases_to!(*m => m.entries));
                        assert(decreases_to!(*v => v@));
                        assert(decreases_to!(v@ => v@[i as int]));
                        assert(decreases_to!(v@[i as int] => v@[i as int].1));
                    }
                    entry.1.serialize(buf);
                    proof {
                        lemma_ser_smap_take(ms, i as int);
                    }
                    i += 1;
                    assert(buf@ =~= mid + ser_smap(ms.take(i as int)));
                }
                assert(ms.take(v@.len() as int) =~= ms);
                assert(buf@ =~= start + ser(self.model()));
                proof {
                    use_type_invariant(m);
                    lemma_smap_values_sorted(ms);
                }
            },
            SproqetVariant::UintMap(m) => {
                let v = &m.entries;
                write8(buf, TYPE_UINT_MAP);
                write32(buf, v.len() as u32);
                let ghost mid = buf@;
                let ghost ms = umap_models(v@);
                proof {
                    lemma_umap_models(v@);
                }
                let mut i: usize = 0;
                while i < v.len()
                    invariant
                        0 <= i <= v@.len(),
                        ms == umap_models(v@),
                        *self == SproqetVariant::UintMap(*m),
                        *v == m.entries,
                        ms.len() == v@.len(),
                        forall|j: int|
                            0 <= j < v@.len() ==> #[trigger] ms[j] == (v@[j].0, v@[j].1.model()),
                        forall|j: int| 0 <= j < i ==> #[trigger] maps_sorted(ms[j].1),
                        buf@ == mid + ser_umap(ms.take(i as int)),
                    decreases v@.len() - i,
                {
                    let entry = &v[i];
                    write64(buf, entry.0 as u64);
                    proof {
                        assert(decreases_to!(*self => self->UintMap_0));
                        assert(self->UintMap_0 == *m);
                        assert(decreases_to!(*m => m.entries));
                        assert(decreases_to!(*v => v@));
                        assert(decreases_to!(v@ => v@[i as int]));
                        assert(decreases_to!(v@[i as int] => v@[i as int].1));
                    }
                    entry.1.serialize(buf);
                    proof {
                        lemma_ser_umap_take(ms, i as int);
                    }
                    i += 1;
                    assert(buf@ =~= mid + ser_umap(ms.take(i as int)));
                }
                assert(ms.take(v@.len() as int) =~= ms);
                assert(buf@ =~= start + ser(self.model()));
                proof {
                    use_type_invariant(m);
                    lemma_umap_values_sorted(ms);
                }
            },
            SproqetVariant::NDArray(nd) => {
                write8(buf, TYPE_NDARRAY);
                write32(buf, nd.shape.len() as u32);
                let ghost mid = buf@;
                let mut i: usize = 0;
                while i < nd.shape.len()
                    invariant
                        0 <= i <= nd.shape@.len(),
                        buf@ == mid + ser_u64s(nd.shape@.take(i as int)),
                    decreases nd.shape@.len() - i,
                {
                    write64(buf, nd.shape[i]);
                    proof {
                        lemma_ser_u64s_take(nd.shape@, i as int);
                    }
                    i += 1;
                }
                assert(nd.shape@.take(nd.shape@.len() as int) =~= nd.shape@);
                write_len_prefixed(buf, nd.data_type.as_str().as_bytes());
                write_len_prefixed(buf, nd.data.as_slice());
                assert(buf@ =~= start + ser(self.model()));
            },
        }
        assert(buf@ =~= start + ser(self.model()));
        proof {
            lemma_roundtrip_all(self.model());
        }
    }
}

proof fn lemma_roundtrip_all(v: Value)
    requires
        maps_sorted(v),
    ensures
        lengths_fit(v) ==> forall|rest: Seq<u8>|
            #[trigger] deserialize_spec(ser(v) + rest) == Ok::<Value, SproqetError>(v),
{
    if lengths_fit(v) {
        assert forall|rest: Seq<u8>|
            #[trigger] deserialize_spec(ser(v) + rest) == Ok::<Value, SproqetError>(v) by {
            lemma_roundtrip(v, rest);
        }
    }
}

} // verus!
