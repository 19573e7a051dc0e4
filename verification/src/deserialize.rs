//! Decoding of the variant wire format.
use vstd::prelude::*;
use vstd::utf8::{decode_utf8, valid_utf8};

use crate::bytes::{append_bytes, u32_at, u64_at};
use crate::error::SproqetError;
use crate::keys::{map_insert, str_order, u32_order};
use crate::roundtrip::{lemma_parse_ser, lengths_fit};
use crate::sorted::maps_sorted;
use crate::variant::{
    lemma_models_push, models, ser, SproqetNDArray, SproqetStringMap, SproqetUintMap, SproqetVariant,
    Value, TYPE_ARRAY, TYPE_BOOL, TYPE_BUFFER, TYPE_DOUBLE, TYPE_INT32,
    TYPE_INT64, TYPE_NDARRAY, TYPE_NULL, TYPE_STRING, TYPE_STRING_MAP, TYPE_UINT32, TYPE_UINT64,
    TYPE_UINT_MAP, TYPE_VOID,
};

verus! {

/// The string that `String::from_utf8_lossy` makes of `bytes`.
pub uninterp spec fn utf8_lossy(bytes: Seq<u8>) -> Seq<char>;

/// `String::from_utf8_lossy(bytes).into_owned()`. Its result is named
/// `utf8_lossy(bytes)`; where `bytes` is valid UTF-8, std documents that
/// the result is exactly the decoded string. What invalid sequences are
/// replaced with is left unsaid here.
#[verifier::external_body]
fn string_from_utf8_lossy(bytes: &[u8]) -> (s: String)
    ensures
        s@ == utf8_lossy(bytes@),
        valid_utf8(bytes@) ==> s@ == decode_utf8(bytes@),
{
    String::from_utf8_lossy(bytes).into_owned()
}

/// The text a decoder makes of the bytes of a string field: the decoded
/// string where they are valid UTF-8, else the lossy conversion.
pub open spec fn decode_lossy(bytes: Seq<u8>) -> Seq<char> {
    if valid_utf8(bytes) {
        decode_utf8(bytes)
    } else {
        utf8_lossy(bytes)
    }
}

/// A u32 length at `data[off]` followed by that many bytes: the bytes and
/// the offset just past them.
pub open spec fn parse_len_prefixed(data: Seq<u8>, off: int) -> Result<(Seq<u8>, int), SproqetError> {
    if off < 0 || off + 4 > data.len() {
        Err(SproqetError::BufferUnderflow)
    } else {
        let n = u32_at(data, off);
        let q = off + 4;
        if q + n > data.len() {
            Err(SproqetError::BufferUnderflow)
        } else {
            Ok((data.subrange(q, q + n), q + n))
        }
    }
}

/// `n` more u64s from `data[off]`, appended to `acc`.
pub open spec fn parse_u64s(data: Seq<u8>, off: int, n: nat, acc: Seq<u64>) -> Result<
    (Seq<u64>, int),
    SproqetError,
>
    decreases n,
{
    if n == 0 {
        Ok((acc, off))
    } else if off < 0 || off + 8 > data.len() {
        Err(SproqetError::BufferUnderflow)
    } else {
        parse_u64s(data, off + 8, (n - 1) as nat, acc.push(u64_at(data, off)))
    }
}

/// The value encoded at `data[off]` and the offset just past it, or the
/// error that decoding it meets.
pub open spec fn parse(data: Seq<u8>, off: int) -> Result<(Value, int), SproqetError>
    decreases data.len() - off, 0int,
{
    if off < 0 || off >= data.len() {
        Err(SproqetError::BufferUnderflow)
    } else {
        let t = data[off];
        let p = off + 1;
        if t == TYPE_NULL || t == TYPE_VOID {
            Ok((Value::Null, p))
        } else if t == TYPE_BOOL {
            if p + 1 > data.len() {
                Err(SproqetError::BufferUnderflow)
            } else {
                Ok((Value::Bool(data[p] != 0), p + 1))
            }
        } else if t == TYPE_INT32 || t == TYPE_UINT32 {
            if p + 4 > data.len() {
                Err(SproqetError::BufferUnderflow)
            } else if t == TYPE_INT32 {
                Ok((Value::Int32(u32_at(data, p) as i32), p + 4))
            } else {
                Ok((Value::Uint32(u32_at(data, p)), p + 4))
            }
        } else if t == TYPE_INT64 || t == TYPE_UINT64 || t == TYPE_DOUBLE {
            if p + 8 > data.len() {
                Err(SproqetError::BufferUnderflow)
            } else if t == TYPE_INT64 {
                Ok((Value::Int64(u64_at(data, p) as i64), p + 8))
            } else if t == TYPE_UINT64 {
                Ok((Value::Uint64(u64_at(data, p)), p + 8))
            } else {
                Ok((Value::Double(u64_at(data, p)), p + 8))
            }
        } else if t == TYPE_BUFFER || t == TYPE_STRING {
            match parse_len_prefixed(data, p) {
                Ok((b, e)) => if t == TYPE_BUFFER {
                    Ok((Value::Buffer(b), e))
                } else {
                    Ok((Value::String(decode_lossy(b)), e))
                },
                Err(x) => Err(x),
            }
        } else if t == TYPE_ARRAY || t == TYPE_STRING_MAP || t == TYPE_UINT_MAP {
            if p + 4 > data.len() {
                Err(SproqetError::BufferUnderflow)
            } else {
                let n = u32_at(data, p) as nat;
                if t == TYPE_ARRAY {
                    match parse_items(data, p + 4, n, Seq::empty()) {
                        Ok((items, e)) => Ok((Value::Array(items), e)),
                        Err(x) => Err(x),
                    }
                } else if t == TYPE_STRING_MAP {
                    match parse_smap(data, p + 4, n, Seq::empty()) {
                        Ok((es, e)) => Ok((Value::StringMap(es), e)),
                        Err(x) => Err(x),
                    }
                } else {
                    match parse_umap(data, p + 4, n, Seq::empty()) {
                        Ok((es, e)) => Ok((Value::UintMap(es), e)),
                        Err(x) => Err(x),
                    }
                }
            }
        } else if t == TYPE_NDARRAY {
            if p + 4 > data.len() {
                Err(SproqetError::BufferUnderflow)
            } else {
                match parse_u64s(data, p + 4, u32_at(data, p) as nat, Seq::empty()) {
                    Ok((shape, q)) => match parse_len_prefixed(data, q) {
                        Ok((dt, r)) => match parse_len_prefixed(data, r) {
                            Ok((d, e)) => Ok((Value::NDArray(shape, decode_lossy(dt), d), e)),
                            Err(x) => Err(x),
                        },
                        Err(x) => Err(x),
                    },
                    Err(x) => Err(x),
                }
            }
        } else {
            Err(SproqetError::UnknownTypeId(t))
        }
    }
}

/// `n` more values from `data[off]`, appended to `acc`.
pub open spec fn parse_items(data: Seq<u8>, off: int, n: nat, acc: Seq<Value>) -> Result<
    (Seq<Value>, int),
    SproqetError,
>
    decreases data.len() - off, 1int, n,
{
    if n == 0 {
        Ok((acc, off))
    } else {
        match parse(data, off) {
            Ok((v, e)) => if e <= off || e > data.len() {
                Err(SproqetError::BufferUnderflow)
            } else {
                parse_items(data, e, (n - 1) as nat, acc.push(v))
            },
            Err(x) => Err(x),
        }
    }
}

/// `n` more string-keyed entries from `data[off]`, each inserted into `acc`.
pub open spec fn parse_smap(
    data: Seq<u8>,
    off: int,
    n: nat,
    acc: Seq<(Seq<char>, Value)>,
) -> Result<(Seq<(Seq<char>, Value)>, int), SproqetError>
    decreases data.len() - off, 1int, n,
{
    if n == 0 {
        Ok((acc, off))
    } else {
        match parse_len_prefixed(data, off) {
            Ok((kb, q)) => match parse(data, q) {
                Ok((v, e)) => if e <= off || e > data.len() {
                    Err(SproqetError::BufferUnderflow)
                } else {
                    parse_smap(
                        data,
                        e,
                        (n - 1) as nat,
                        map_insert(acc, decode_lossy(kb), v, str_order()),
                    )
                },
                Err(x) => Err(x),
            },
            Err(x) => Err(x),
        }
    }
}

/// `n` more u32-keyed entries from `data[off]` (each key stored as a u64
/// and truncated to u32), each inserted into `acc`.
pub open spec fn parse_umap(data: Seq<u8>, off: int, n: nat, acc: Seq<(u32, Value)>) -> Result<
    (Seq<(u32, Value)>, int),
    SproqetError,
>
    decreases data.len() - off, 1int, n,
{
    if n == 0 {
        Ok((acc, off))
    } else if off < 0 || off + 8 > data.len() {
        Err(SproqetError::BufferUnderflow)
    } else {
        match parse(data, off + 8) {
            Ok((v, e)) => if e <= off || e > data.len() {
                Err(SproqetError::BufferUnderflow)
            } else {
                parse_umap(
                    data,
                    e,
                    (n - 1) as nat,
                    map_insert(acc, u64_at(data, off) as u32, v, u32_order()),
                )
            },
            Err(x) => Err(x),
        }
    }
}

/// The value a whole buffer decodes to; trailing bytes are ignored.
pub open spec fn deserialize_spec(data: Seq<u8>) -> Result<Value, SproqetError> {
    match parse(data, 0) {
        Ok((v, _)) => Ok(v),
        Err(e) => Err(e),
    }
}

/// Read one byte at `*off` and advance past it.
fn read8(data: &[u8], off: &mut usize) -> (r: Result<u8, SproqetError>)
    ensures
        match r {
            Ok(v) => *old(off) < data@.len() && v == data@[*old(off) as int] && *final(off) == *old(
                off,
            ) + 1,
            Err(e) => *old(off) >= data@.len() && e is BufferUnderflow && *final(off) == *old(off),
        },
{
    if *off >= data.len() {
        return Err(SproqetError::BufferUnderflow);
    }
    let v = data[*off];
    *off += 1;
    Ok(v)
}

/// Read a little-endian u32 at `*off` and advance past it.
fn read32(data: &[u8], off: &mut usize) -> (r: Result<u32, SproqetError>)
    ensures
        match r {
            Ok(v) => *old(off) + 4 <= data@.len() && v == u32_at(data@, *old(off) as int)
                && *final(off) == *old(off) + 4,
            Err(e) => *old(off) + 4 > data@.len() && e is BufferUnderflow && *final(off) == *old(
                off,
            ),
        },
{
    if *off > data.len() || data.len() - *off < 4 {
        return Err(SproqetError::BufferUnderflow);
    }
    let o = *off;
    let v = (data[o] as u32) | ((data[o + 1] as u32) << 8u32) | ((data[o + 2] as u32) << 16u32) | ((
    data[o + 3] as u32) << 24u32);
    *off = o + 4;
    Ok(v)
}

/// Read a little-endian u64 at `*off` and advance past it.
fn read64(data: &[u8], off: &mut usize) -> (r: Result<u64, SproqetError>)
    ensures
        match r {
            Ok(v) => *old(off) + 8 <= data@.len() && v == u64_at(data@, *old(off) as int)
                && *final(off) == *old(off) + 8,
            Err(e) => *old(off) + 8 > data@.len() && e is BufferUnderflow && *final(off) == *old(
                off,
            ),
        },
{
    if *off > data.len() || data.len() - *off < 8 {
        return Err(SproqetError::BufferUnderflow);
    }
    let o = *off;
    let v = (data[o] as u64) | ((data[o + 1] as u64) << 8u64) | ((data[o + 2] as u64) << 16u64) | ((
    data[o + 3] as u64) << 24u64) | ((data[o + 4] as u64) << 32u64) | ((data[o + 5] as u64)
        << 40u64) | ((data[o + 6] as u64) << 48u64) | ((data[o + 7] as u64) << 56u64);
    *off = o + 8;
    Ok(v)
}

/// The `len` bytes at `*off`, advancing past them.
fn read_bytes<'a>(data: &'a [u8], off: &mut usize, len: usize) -> (r: Result<&'a [u8], SproqetError>)
    ensures
        match r {
            Ok(s) => *old(off) + len <= data@.len() && s@ == data@.subrange(
                *old(off) as int,
                *old(off) + len,
            ) && *final(off) == *old(off) + len,
            Err(e) => *old(off) + len > data@.len() && e is BufferUnderflow && *final(off) == *old(
                off,
            ),
        },
{
    if *off > data.len() || data.len() - *off < len {
        return Err(SproqetError::BufferUnderflow);
    }
    let o = *off;
    let s = &data[o..o + len];
    *off = o + len;
    Ok(s)
}

/// A vector holding the bytes of `s`.
fn copy_bytes(s: &[u8]) -> (v: Vec<u8>)
    ensures
        v@ == s@,
{
    let mut v: Vec<u8> = Vec::new();
    append_bytes(&mut v, s);
    assert(v@ =~= s@);
    v
}

/// A u32 length at `*off`, then that many bytes.
fn read_len_prefixed<'a>(data: &'a [u8], off: &mut usize) -> (r: Result<&'a [u8], SproqetError>)
    requires
        *old(off) <= data@.len(),
    ensures
        *old(off) <= *final(off) <= data@.len(),
        match r {
            Ok(s) => parse_len_prefixed(data@, *old(off) as int) == Ok::<(Seq<u8>, int), SproqetError>(
                (s@, *final(off) as int),
            ),
            Err(e) => parse_len_prefixed(data@, *old(off) as int) == Err::<(Seq<u8>, int), SproqetError>(e),
        },
{
    let n = read32(data, off)?;
    read_bytes(data, off, n as usize)
}

/// The value encoded at `*off`, whose type tag `t` was just read, for a
/// tag that does not open a container; `*off` ends just past it.
fn read_leaf(data: &[u8], off: &mut usize, t: u8) -> (r: Result<SproqetVariant, SproqetError>)
    requires
        0 < *old(off) <= data@.len(),
        data@[*old(off) - 1] == t,
        t != TYPE_ARRAY && t != TYPE_STRING_MAP && t != TYPE_UINT_MAP,
    ensures
        *old(off) <= *final(off) <= data@.len(),
        match r {
            Ok(v) => parse(data@, *old(off) - 1) == Ok::<(Value, int), SproqetError>(
                (v.model(), *final(off) as int),
            ),
            Err(e) => parse(data@, *old(off) - 1) == Err::<(Value, int), SproqetError>(e),
        },
{
    if t == TYPE_NULL || t == TYPE_VOID {
        Ok(SproqetVariant::Null)
    } else if t == TYPE_BOOL {
        let b = read8(data, off)?;
        Ok(SproqetVariant::Bool(b != 0))
    } else if t == TYPE_INT32 {
        let v = read32(data, off)?;
        Ok(SproqetVariant::Int32(v as i32))
    } else if t == TYPE_UINT32 {
        let v = read32(data, off)?;
        Ok(SproqetVariant::Uint32(v))
    } else if t == TYPE_INT64 {
        let v = read64(data, off)?;
        Ok(SproqetVariant::Int64(v as i64))
    } else if t == TYPE_UINT64 {
        let v = read64(data, off)?;
        Ok(SproqetVariant::Uint64(v))
    } else if t == TYPE_DOUBLE {
        let v = read64(data, off)?;
        Ok(SproqetVariant::Double(v))
    } else if t == TYPE_BUFFER {
        let b = read_len_prefixed(data, off)?;
        Ok(SproqetVariant::Buffer(copy_bytes(b)))
    } else if t == TYPE_STRING {
        let b = read_len_prefixed(data, off)?;
        Ok(SproqetVariant::String(string_from_utf8_lossy(b)))
    } else if t == TYPE_NDARRAY {
        let n = read32(data, off)?;
        let shape = read_u64s(data, off, n)?;
        let dt = read_len_prefixed(data, off)?;
        let data_type = string_from_utf8_lossy(dt);
        let bytes = read_len_prefixed(data, off)?;
        Ok(SproqetVariant::NDArray(SproqetNDArray { shape, data_type, data: copy_bytes(bytes) }))
    } else {
        Err(SproqetError::UnknownTypeId(t))
    }
}

/// A container being decoded: what it holds so far, how many more
/// elements follow the one being decoded, and where that element began.
#[allow(inconsistent_fields)]
enum Pending {
    /// An array, with its items so far.
    Items { items: Vec<SproqetVariant>, left: u32, start: usize },
    /// A string-keyed map, with its entries so far and the key of the
    /// entry whose value is being decoded.
    StrEntries { map: SproqetStringMap, key: String, left: u32, start: usize },
    /// A u32-keyed map, with its entries so far and the key of the entry
    /// whose value is being decoded.
    UintEntries { map: SproqetUintMap, key: u32, left: u32, start: usize },
}

/// What decoding the container `p` comes to, given the result `r` of
/// decoding the element it waits for.
spec fn resume(data: Seq<u8>, p: Pending, r: Result<(Value, int), SproqetError>) -> Result<
    (Value, int),
    SproqetError,
> {
    match r {
        Err(x) => Err(x),
        Ok((v, e)) => match p {
            Pending::Items { items, left, start } => if e <= start || e > data.len() {
                Err(SproqetError::BufferUnderflow)
            } else {
                match parse_items(data, e, left as nat, models(items@).push(v)) {
                    Ok((vs, q)) => Ok((Value::Array(vs), q)),
                    Err(x) => Err(x),
                }
            },
            Pending::StrEntries { map, key, left, start } => if e <= start || e > data.len() {
                Err(SproqetError::BufferUnderflow)
            } else {
                match parse_smap(data, e, left as nat, map_insert(map@, key@, v, str_order())) {
                    Ok((es, q)) => Ok((Value::StringMap(es), q)),
                    Err(x) => Err(x),
                }
            },
            Pending::UintEntries { map, key, left, start } => if e <= start || e > data.len() {
                Err(SproqetError::BufferUnderflow)
            } else {
                match parse_umap(data, e, left as nat, map_insert(map@, key, v, u32_order())) {
                    Ok((es, q)) => Ok((Value::UintMap(es), q)),
                    Err(x) => Err(x),
                }
            },
        },
    }
}

/// What decoding comes to, given the result `r` of decoding the innermost
/// pending element: each container of `stack`, innermost last, resumes in
/// turn.
spec fn resume_all(data: Seq<u8>, stack: Seq<Pending>, r: Result<(Value, int), SproqetError>) -> Result<
    (Value, int),
    SproqetError,
>
    decreases stack.len(),
{
    if stack.len() == 0 {
        r
    } else {
        resume_all(data, stack.drop_last(), resume(data, stack.last(), r))
    }
}

proof fn lemma_resume_err(data: Seq<u8>, stack: Seq<Pending>, x: SproqetError)
    ensures
        resume_all(data, stack, Err(x)) == Err::<(Value, int), SproqetError>(x),
    decreases stack.len(),
{
    if stack.len() > 0 {
        lemma_resume_err(data, stack.drop_last(), x);
    }
}

proof fn lemma_resume_push(data: Seq<u8>, stack: Seq<Pending>, p: Pending, r: Result<(Value, int), SproqetError>)
    ensures
        resume_all(data, stack.push(p), r) == resume_all(data, stack, resume(data, p, r)),
{
    assert(stack.push(p).drop_last() =~= stack);
    assert(stack.push(p).last() == p);
}

proof fn lemma_items_done(data: Seq<u8>, items: Vec<SproqetVariant>, start: usize, v: Value, o: usize)
    requires
        start < o <= data.len(),
    ensures
        resume(data, Pending::Items { items, left: 0, start }, Ok((v, o as int))) == Ok::<
            (Value, int),
            SproqetError,
        >((Value::Array(models(items@).push(v)), o as int)),
{
}

proof fn lemma_items_next(
    data: Seq<u8>,
    items: Vec<SproqetVariant>,
    left: u32,
    start: usize,
    items2: Vec<SproqetVariant>,
    v: Value,
    o: usize,
)
    requires
        start < o <= data.len(),
        left > 0,
        models(items2@) == models(items@).push(v),
    ensures
        resume(data, Pending::Items { items, left, start }, Ok((v, o as int))) == resume(
            data,
            Pending::Items { items: items2, left: (left - 1) as u32, start: o },
            parse(data, o as int),
        ),
{
}

proof fn lemma_smap_done(data: Seq<u8>, map: SproqetStringMap, key: String, start: usize, v: Value, o: usize)
    requires
        start < o <= data.len(),
    ensures
        resume(data, Pending::StrEntries { map, key, left: 0, start }, Ok((v, o as int))) == Ok::<
            (Value, int),
            SproqetError,
        >((Value::StringMap(map_insert(map@, key@, v, str_order())), o as int)),
{
}

proof fn lemma_smap_next(
    data: Seq<u8>,
    map: SproqetStringMap,
    key: String,
    left: u32,
    start: usize,
    map2: SproqetStringMap,
    key2: String,
    v: Value,
    o: usize,
)
    requires
        start < o <= data.len(),
        left > 0,
        map2@ == map_insert(map@, key@, v, str_order()),
        parse_len_prefixed(data, o as int) matches Ok((kb, q)) && key2@ == decode_lossy(kb),
    ensures
        resume(data, Pending::StrEntries { map, key, left, start }, Ok((v, o as int))) == resume(
            data,
            Pending::StrEntries { map: map2, key: key2, left: (left - 1) as u32, start: o },
            parse(data, parse_len_prefixed(data, o as int)->Ok_0.1),
        ),
{
}

proof fn lemma_smap_key_err(
    data: Seq<u8>,
    map: SproqetStringMap,
    key: String,
    left: u32,
    start: usize,
    v: Value,
    o: usize,
    x: SproqetError,
)
    requires
        start < o <= data.len(),
        left > 0,
        parse_len_prefixed(data, o as int) == Err::<(Seq<u8>, int), SproqetError>(x),
    ensures
        resume(data, Pending::StrEntries { map, key, left, start }, Ok((v, o as int))) == Err::<
            (Value, int),
            SproqetError,
        >(x),
{
}

proof fn lemma_umap_done(data: Seq<u8>, map: SproqetUintMap, key: u32, start: usize, v: Value, o: usize)
    requires
        start < o <= data.len(),
    ensures
        resume(data, Pending::UintEntries { map, key, left: 0, start }, Ok((v, o as int))) == Ok::<
            (Value, int),
            SproqetError,
        >((Value::UintMap(map_insert(map@, key, v, u32_order())), o as int)),
{
}

proof fn lemma_umap_next(
    data: Seq<u8>,
    map: SproqetUintMap,
    key: u32,
    left: u32,
    start: usize,
    map2: SproqetUintMap,
    key2: u32,
    v: Value,
    o: usize,
)
    requires
        start < o,
        o + 8 <= data.len(),
        left > 0,
        map2@ == map_insert(map@, key, v, u32_order()),
        key2 == u64_at(data, o as int) as u32,
    ensures
        resume(data, Pending::UintEntries { map, key, left, start }, Ok((v, o as int))) == resume(
            data,
            Pending::UintEntries { map: map2, key: key2, left: (left - 1) as u32, start: o },
            parse(data, o + 8),
        ),
{
}

proof fn lemma_umap_key_err(
    data: Seq<u8>,
    map: SproqetUintMap,
    key: u32,
    left: u32,
    start: usize,
    v: Value,
    o: usize,
)
    requires
        start < o <= data.len(),
        o + 8 > data.len(),
        left > 0,
    ensures
        resume(data, Pending::UintEntries { map, key, left, start }, Ok((v, o as int))) == Err::<
            (Value, int),
            SproqetError,
        >(SproqetError::BufferUnderflow),
{
}

proof fn lemma_early(data: Seq<u8>, p: Pending, v: Value, o: usize)
    requires
        o <= data.len(),
        match p {
            Pending::Items { start, .. } => o <= start,
            Pending::StrEntries { start, .. } => o <= start,
            Pending::UintEntries { start, .. } => o <= start,
        },
    ensures
        resume(data, p, Ok((v, o as int))) == Err::<(Value, int), SproqetError>(
            SproqetError::BufferUnderflow,
        ),
{
}

proof fn lemma_open_short(data: Seq<u8>, start: usize)
    requires
        start < data.len(),
        start + 5 > data.len(),
        data[start as int] == TYPE_ARRAY || data[start as int] == TYPE_STRING_MAP || data[start as int]
            == TYPE_UINT_MAP,
    ensures
        parse(data, start as int) == Err::<(Value, int), SproqetError>(SproqetError::BufferUnderflow),
{
}

proof fn lemma_open_empty(data: Seq<u8>, start: usize)
    requires
        start + 5 <= data.len(),
        u32_at(data, start + 1) == 0,
    ensures
        data[start as int] == TYPE_ARRAY ==> parse(data, start as int) == Ok::<(Value, int), SproqetError>(
            (Value::Array(Seq::empty()), start + 5),
        ),
        data[start as int] == TYPE_STRING_MAP ==> parse(data, start as int) == Ok::<
            (Value, int),
            SproqetError,
        >((Value::StringMap(Seq::empty()), start + 5)),
        data[start as int] == TYPE_UINT_MAP ==> parse(data, start as int) == Ok::<
            (Value, int),
            SproqetError,
        >((Value::UintMap(Seq::empty()), start + 5)),
{
}

proof fn lemma_open_items(data: Seq<u8>, start: usize, items: Vec<SproqetVariant>, o: usize)
    requires
        o == start + 5,
        o <= data.len(),
        data[start as int] == TYPE_ARRAY,
        u32_at(data, start + 1) > 0,
        models(items@) == Seq::<Value>::empty(),
    ensures
        parse(data, start as int) == resume(
            data,
            Pending::Items { items, left: (u32_at(data, start + 1) - 1) as u32, start: o },
            parse(data, o as int),
        ),
{
}

proof fn lemma_open_smap(data: Seq<u8>, start: usize, map: SproqetStringMap, key: String, o: usize)
    requires
        o == start + 5,
        o <= data.len(),
        data[start as int] == TYPE_STRING_MAP,
        u32_at(data, start + 1) > 0,
        map@ == Seq::<(Seq<char>, Value)>::empty(),
        parse_len_prefixed(data, o as int) matches Ok((kb, q)) && key@ == decode_lossy(kb),
    ensures
        parse(data, start as int) == resume(
            data,
            Pending::StrEntries { map, key, left: (u32_at(data, start + 1) - 1) as u32, start: o },
            parse(data, parse_len_prefixed(data, o as int)->Ok_0.1),
        ),
{
}

proof fn lemma_open_smap_err(data: Seq<u8>, start: usize, o: usize, x: SproqetError)
    requires
        o == start + 5,
        o <= data.len(),
        data[start as int] == TYPE_STRING_MAP,
        u32_at(data, start + 1) > 0,
        parse_len_prefixed(data, o as int) == Err::<(Seq<u8>, int), SproqetError>(x),
    ensures
        parse(data, start as int) == Err::<(Value, int), SproqetError>(x),
{
}

proof fn lemma_open_umap(data: Seq<u8>, start: usize, map: SproqetUintMap, key: u32, o: usize)
    requires
        o == start + 5,
        o + 8 <= data.len(),
        data[start as int] == TYPE_UINT_MAP,
        u32_at(data, start + 1) > 0,
        map@ == Seq::<(u32, Value)>::empty(),
        key == u64_at(data, o as int) as u32,
    ensures
        parse(data, start as int) == resume(
            data,
            Pending::UintEntries { map, key, left: (u32_at(data, start + 1) - 1) as u32, start: o },
            parse(data, o + 8),
        ),
{
}

proof fn lemma_open_umap_err(data: Seq<u8>, start: usize, o: usize)
    requires
        o == start + 5,
        o <= data.len(),
        o + 8 > data.len(),
        data[start as int] == TYPE_UINT_MAP,
        u32_at(data, start + 1) > 0,
    ensures
        parse(data, start as int) == Err::<(Value, int), SproqetError>(SproqetError::BufferUnderflow),
{
}

/// Hand the decoded value `v`, ending at `*off`, to the pending container
/// `top`. Returns the container's value once it is complete, or `None`
/// once it is pushed back onto `stack` to wait for another element, which
/// starts at `*off` (a map's key is read here).
#[verifier::rlimit(40)]
fn step(data: &[u8], off: &mut usize, stack: &mut Vec<Pending>, top: Pending, v: SproqetVariant) -> (r: Result<
    Option<SproqetVariant>,
    SproqetError,
>)
    requires
        *old(off) <= data@.len(),
    ensures
        *old(off) <= *final(off) <= data@.len(),
        match r {
            Ok(Some(w)) => resume(data@, top, Ok((v.model(), *old(off) as int))) == Ok::<
                (Value, int),
                SproqetError,
            >((w.model(), *old(off) as int)) && *final(off) == *old(off) && final(stack)@ == old(
                stack,
            )@,
            Ok(None) => resume_all(data@, old(stack)@, resume(data@, top, Ok((v.model(), *old(off) as int))))
                == resume_all(data@, final(stack)@, parse(data@, *final(off) as int)),
            Err(x) => resume(data@, top, Ok((v.model(), *old(off) as int))) == Err::<
                (Value, int),
                SproqetError,
            >(x),
        },
{
    let ghost top_g = top;
    let ghost vm = v.model();
    let o = *off;
    match top {
        Pending::Items { mut items, left, start } => {
            if o <= start {
                proof {
                    lemma_early(data@, top_g, vm, o);
                }
                return Err(SproqetError::BufferUnderflow);
            }
            let ghost items0 = items;
            proof {
                lemma_models_push(items@, v);
            }
            items.push(v);
            if left == 0 {
                proof {
                    lemma_items_done(data@, items0, start, vm, o);
                }
                Ok(Some(SproqetVariant::Array(items)))
            } else {
                proof {
                    lemma_items_next(data@, items0, left, start, items, vm, o);
                }
                let p = Pending::Items { items, left: left - 1, start: o };
                proof {
                    lemma_resume_push(data@, stack@, p, parse(data@, o as int));
                }
                stack.push(p);
                return Ok(None);
            }
        },
        Pending::StrEntries { mut map, key, left, start } => {
            if o <= start {
                proof {
                    lemma_early(data@, top_g, vm, o);
                }
                return Err(SproqetError::BufferUnderflow);
            }
            let ghost map0 = map;
            let ghost key0 = key;
            map.insert(key, v);
            if left == 0 {
                proof {
                    lemma_smap_done(data@, map0, key0, start, vm, o);
                }
                Ok(Some(SproqetVariant::StringMap(map)))
            } else {
                let kb = match read_len_prefixed(data, off) {
                    Ok(kb) => kb,
                    Err(x) => {
                        proof {
                            lemma_smap_key_err(data@, map0, key0, left, start, vm, o, x);
                        }
                        return Err(x);
                    },
                };
                let key2 = string_from_utf8_lossy(kb);
                proof {
                    lemma_smap_next(data@, map0, key0, left, start, map, key2, vm, o);
                }
                let p = Pending::StrEntries { map, key: key2, left: left - 1, start: o };
                proof {
                    lemma_resume_push(data@, stack@, p, parse(data@, *off as int));
                }
                stack.push(p);
                return Ok(None);
            }
        },
        Pending::UintEntries { mut map, key, left, start } => {
            if o <= start {
                proof {
                    lemma_early(data@, top_g, vm, o);
                }
                return Err(SproqetError::BufferUnderflow);
            }
            let ghost map0 = map;
            map.insert(key, v);
            if left == 0 {
                proof {
                    lemma_umap_done(data@, map0, key, start, vm, o);
                }
                Ok(Some(SproqetVariant::UintMap(map)))
            } else {
                let k64 = match read64(data, off) {
                    Ok(k) => k,
                    Err(x) => {
                        proof {
                            lemma_umap_key_err(data@, map0, key, left, start, vm, o);
                        }
                        return Err(x);
                    },
                };
                let key2 = #[verifier::truncate] (k64 as u32);
                proof {
                    lemma_umap_next(data@, map0, key, left, start, map, key2, vm, o);
                }
                let p = Pending::UintEntries { map, key: key2, left: left - 1, start: o };
                proof {
                    lemma_resume_push(data@, stack@, p, parse(data@, *off as int));
                }
                stack.push(p);
                return Ok(None);
            }
        },
    }
}

/// Hand the decoded value `v`, ending at `*off`, to the innermost pending
/// container, and on outwards as containers complete. Returns the whole
/// value once no container is pending, or `None` once a container waits
/// for another element, which starts at `*off`.
fn complete(data: &[u8], off: &mut usize, stack: &mut Vec<Pending>, v: SproqetVariant) -> (r: Result<
    Option<SproqetVariant>,
    SproqetError,
>)
    requires
        *old(off) <= data@.len(),
    ensures
        *old(off) <= *final(off) <= data@.len(),
        match r {
            Ok(Some(w)) => resume_all(data@, old(stack)@, Ok((v.model(), *old(off) as int)))
                == Ok::<(Value, int), SproqetError>((w.model(), *final(off) as int)),
            Ok(None) => resume_all(data@, old(stack)@, Ok((v.model(), *old(off) as int)))
                == resume_all(data@, final(stack)@, parse(data@, *final(off) as int)),
            Err(x) => resume_all(data@, old(stack)@, Ok((v.model(), *old(off) as int))) == Err::<
                (Value, int),
                SproqetError,
            >(x),
        },
{
    let ghost goal = resume_all(data@, stack@, Ok((v.model(), *off as int)));
    let mut cur = v;
    loop
        invariant
            *old(off) == *off,
            *off <= data@.len(),
            goal == resume_all(data@, old(stack)@, Ok((v.model(), *old(off) as int))),
            goal == resume_all(data@, stack@, Ok((cur.model(), *off as int))),
        decreases stack@.len(),
    {
        let ghost before = stack@;
        let ghost vm = cur.model();
        let o = *off;
        let top = match stack.pop() {
            None => {
                return Ok(Some(cur));
            },
            Some(top) => top,
        };
        let ghost rest = stack@;
        let ghost mid = resume(data@, top, Ok((vm, o as int)));
        proof {
            assert(before =~= rest.push(top));
            lemma_resume_push(data@, rest, top, Ok((vm, o as int)));
            assert(goal == resume_all(data@, rest, mid));
        }
        match step(data, off, stack, top, cur) {
            Ok(Some(w)) => {
                assert(mid == Ok::<(Value, int), SproqetError>((w.model(), o as int)));
                cur = w;
            },
            Ok(None) => {
                assert(goal == resume_all(data@, stack@, parse(data@, *off as int)));
                return Ok(None);
            },
            Err(x) => {
                proof {
                    lemma_resume_err(data@, rest, x);
                }
                assert(goal == Err::<(Value, int), SproqetError>(x));
                return Err(x);
            },
        }
    }
}

/// The value encoded at `*off`; `*off` ends just past it. Where the
/// encoding of a value whose lengths and counts fit their u32 fields, and
/// whose maps have ascending keys, stands at `*off`, exactly that encoding
/// is consumed and the value is returned.
fn deserialize_at(data: &[u8], off: &mut usize) -> (r: Result<SproqetVariant, SproqetError>)
    requires
        *old(off) <= data@.len(),
    ensures
        match r {
            Ok(v) => parse(data@, *old(off) as int) == Ok::<(Value, int), SproqetError>(
                (v.model(), *final(off) as int),
            ),
            Err(e) => parse(data@, *old(off) as int) == Err::<(Value, int), SproqetError>(e),
        },
        forall|v: Value|
            lengths_fit(v) && maps_sorted(v) && *old(off) + ser(v).len() <= data@.len()
                && data@.subrange(*old(off) as int, *old(off) + ser(v).len()) == #[trigger] ser(v)
                ==> (r matches Ok(w) && w.model() == v && *final(off) == *old(off) + ser(v).len()),
{
    let ghost off0 = *off as int;
    let r = decode_at(data, off);
    proof {
        assert forall|v: Value|
            lengths_fit(v) && maps_sorted(v) && off0 + ser(v).len() <= data@.len() && data@.subrange(
                off0,
                off0 + ser(v).len(),
            ) == #[trigger] ser(v) implies (r matches Ok(w) && w.model() == v && *off == off0 + ser(
            v,
        ).len()) by {
            lemma_parse_ser(v, data@, off0);
        }
    }
    r
}

/// The value encoded at `*off`; `*off` ends just past it. Containers are
/// decoded with a stack of their own, not by recursion, so nesting depth
/// is bounded by the input alone.
fn decode_at(data: &[u8], off: &mut usize) -> (r: Result<SproqetVariant, SproqetError>)
    requires
        *old(off) <= data@.len(),
    ensures
        match r {
            Ok(v) => parse(data@, *old(off) as int) == Ok::<(Value, int), SproqetError>(
                (v.model(), *final(off) as int),
            ),
            Err(e) => parse(data@, *old(off) as int) == Err::<(Value, int), SproqetError>(e),
        },
{
    let ghost off0 = *off as int;
    let mut stack: Vec<Pending> = Vec::new();
    loop
        invariant
            off0 == *old(off) as int,
            *off <= data@.len(),
            parse(data@, off0) == resume_all(data@, stack@, parse(data@, *off as int)),
        decreases data@.len() - *off,
    {
        let start = *off;
        let t = match read8(data, off) {
            Ok(t) => t,
            Err(x) => {
                proof {
                    lemma_resume_err(data@, stack@, x);
                }
                return Err(x);
            },
        };
        let v = if t == TYPE_ARRAY || t == TYPE_STRING_MAP || t == TYPE_UINT_MAP {
            let n = match read32(data, off) {
                Ok(n) => n,
                Err(x) => {
                    proof {
                        lemma_open_short(data@, start);
                        lemma_resume_err(data@, stack@, x);
                    }
                    return Err(x);
                },
            };
            let o = *off;
            if n == 0 {
                proof {
                    lemma_open_empty(data@, start);
                }
                if t == TYPE_ARRAY {
                    let items: Vec<SproqetVariant> = Vec::new();
                    assert(models(items@) =~= Seq::<Value>::empty());
                    SproqetVariant::Array(items)
                } else if t == TYPE_STRING_MAP {
                    SproqetVariant::StringMap(SproqetStringMap::new())
                } else {
                    SproqetVariant::UintMap(SproqetUintMap::new())
                }
            } else if t == TYPE_ARRAY {
                let items: Vec<SproqetVariant> = Vec::new();
                assert(models(items@) =~= Seq::<Value>::empty());
                proof {
                    lemma_open_items(data@, start, items, o);
                }
                let p = Pending::Items { items, left: n - 1, start: o };
                proof {
                    lemma_resume_push(data@, stack@, p, parse(data@, o as int));
                }
                stack.push(p);
                continue;
            } else if t == TYPE_STRING_MAP {
                let kb = match read_len_prefixed(data, off) {
                    Ok(kb) => kb,
                    Err(x) => {
                        proof {
                            lemma_open_smap_err(data@, start, o, x);
                            lemma_resume_err(data@, stack@, x);
                        }
                        return Err(x);
                    },
                };
                let map = SproqetStringMap::new();
                let key = string_from_utf8_lossy(kb);
                proof {
                    lemma_open_smap(data@, start, map, key, o);
                }
                let p = Pending::StrEntries { map, key, left: n - 1, start: o };
                proof {
                    lemma_resume_push(data@, stack@, p, parse(data@, *off as int));
                }
                stack.push(p);
                continue;
            } else {
                let k64 = match read64(data, off) {
                    Ok(k) => k,
                    Err(x) => {
                        proof {
                            lemma_open_umap_err(data@, start, o);
                            lemma_resume_err(data@, stack@, x);
                        }
                        return Err(x);
                    },
                };
                let map = SproqetUintMap::new();
                let key = #[verifier::truncate] (k64 as u32);
                proof {
                    lemma_open_umap(data@, start, map, key, o);
                }
                let p = Pending::UintEntries { map, key, left: n - 1, start: o };
                proof {
                    lemma_resume_push(data@, stack@, p, parse(data@, *off as int));
                }
                stack.push(p);
                continue;
            }
        } else {
            match read_leaf(data, off, t) {
                Ok(v) => v,
                Err(x) => {
                    proof {
                        lemma_resume_err(data@, stack@, x);
                    }
                    return Err(x);
                },
            }
        };
        match complete(data, off, &mut stack, v) {
            Ok(Some(w)) => {
                return Ok(w);
            },
            Ok(None) => {},
            Err(x) => {
                return Err(x);
            },
        }
    }
}

/// `n` little-endian u64s from `*off`.
fn read_u64s(data: &[u8], off: &mut usize, n: u32) -> (r: Result<Vec<u64>, SproqetError>)
    requires
        *old(off) <= data@.len(),
    ensures
        *old(off) <= *final(off) <= data@.len(),
        match r {
            Ok(v) => parse_u64s(data@, *old(off) as int, n as nat, Seq::empty()) == Ok::<
                (Seq<u64>, int),
                SproqetError,
            >((v@, *final(off) as int)),
            Err(e) => parse_u64s(data@, *old(off) as int, n as nat, Seq::empty()) == Err::<
                (Seq<u64>, int),
                SproqetError,
            >(e),
        },
{
    let ghost off0 = *off as int;
    let mut v: Vec<u64> = Vec::new();
    let mut i: u32 = 0;
    while i < n
        invariant
            off0 == *old(off) as int,
            off0 <= *off <= data@.len(),
            i <= n,
            parse_u64s(data@, off0, n as nat, Seq::empty()) == parse_u64s(
                data@,
                *off as int,
                (n - i) as nat,
                v@,
            ),
        decreases n - i,
    {
        let x = read64(data, off)?;
        v.push(x);
        i += 1;
    }
    Ok(v)
}

impl SproqetVariant {
    /// Decode a wire-encoded variant from the start of `data`.
    ///
    /// Fails with `BufferUnderflow` where a length or count promises more
    /// bytes than follow, and with `UnknownTypeId` at an unknown type tag.
    /// Bytes after the variant are ignored.
    pub fn deserialize(data: &[u8]) -> (r: Result<SproqetVariant, SproqetError>)
        ensures
            match r {
                Ok(v) => deserialize_spec(data@) == Ok::<Value, SproqetError>(v.model()),
                Err(e) => deserialize_spec(data@) == Err::<Value, SproqetError>(e),
            },
    {
        let mut off: usize = 0;
        deserialize_at(data, &mut off)
    }
}

} // verus!
