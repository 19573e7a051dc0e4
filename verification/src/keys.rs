//! Key orders and sorted-map insertion for the map variants.
//!
//! A map is held as a sequence of (key, value) entries whose keys are
//! strictly ascending; string keys are ordered by their UTF-8 bytes.
use vstd::prelude::*;
use vstd::utf8::{decode_utf8, encode_utf8, encode_utf8_decode_utf8};

verus! {

/// Lexicographic order on byte strings: a proper prefix comes first.
pub open spec fn bytes_lt(a: Seq<u8>, b: Seq<u8>) -> bool
    decreases a.len(),
{
    if a.len() == 0 {
        b.len() > 0
    } else if b.len() == 0 {
        false
    } else if a[0] != b[0] {
        a[0] < b[0]
    } else {
        bytes_lt(a.drop_first(), b.drop_first())
    }
}

/// Order on string keys: lexicographic on their UTF-8 encodings.
pub open spec fn str_key_lt(a: Seq<char>, b: Seq<char>) -> bool {
    bytes_lt(encode_utf8(a), encode_utf8(b))
}

/// Order on u32 keys.
pub open spec fn u32_key_lt(a: u32, b: u32) -> bool {
    a < b
}

/// The order on string keys, as a function value.
pub open spec fn str_order() -> spec_fn(Seq<char>, Seq<char>) -> bool {
    |a: Seq<char>, b: Seq<char>| str_key_lt(a, b)
}

/// The order on u32 keys, as a function value.
pub open spec fn u32_order() -> spec_fn(u32, u32) -> bool {
    |a: u32, b: u32| u32_key_lt(a, b)
}

/// `lt` is a strict total order.
pub open spec fn strict_total<K>(lt: spec_fn(K, K) -> bool) -> bool {
    &&& forall|a: K| !#[trigger] lt(a, a)
    &&& forall|a: K, b: K, c: K| #[trigger] lt(a, b) && #[trigger] lt(b, c) ==> lt(a, c)
    &&& forall|a: K, b: K| a != b ==> #[trigger] lt(a, b) || #[trigger] lt(b, a)
}

/// The keys of `m` are strictly ascending under `lt`.
pub open spec fn sorted_keys<K, V>(m: Seq<(K, V)>, lt: spec_fn(K, K) -> bool) -> bool {
    forall|i: int, j: int| 0 <= i < j < m.len() ==> #[trigger] lt(m[i].0, m[j].0)
}

/// Some entry of `m` has key `x`.
pub open spec fn has_key<K, V>(m: Seq<(K, V)>, x: K) -> bool {
    exists|j: int| 0 <= j < m.len() && m[j].0 == x
}

/// `e` is one of the entries of `m`.
pub open spec fn has_entry<K, V>(m: Seq<(K, V)>, e: (K, V)) -> bool {
    exists|j: int| 0 <= j < m.len() && m[j] == e
}

/// `m` with `k` mapped to `v`: the entry for `k` is replaced if present,
/// otherwise a new entry is placed before the first greater key.
pub open spec fn map_insert<K, V>(m: Seq<(K, V)>, k: K, v: V, lt: spec_fn(K, K) -> bool) -> Seq<
    (K, V),
>
    decreases m.len(),
{
    if m.len() == 0 {
        seq![(k, v)]
    } else if m[0].0 == k {
        seq![(k, v)] + m.drop_first()
    } else if lt(k, m[0].0) {
        seq![(k, v)] + m
    } else {
        seq![m[0]] + map_insert(m.drop_first(), k, v, lt)
    }
}

proof fn lemma_bytes_lt_irrefl(a: Seq<u8>)
    ensures
        !bytes_lt(a, a),
    decreases a.len(),
{
    if a.len() > 0 {
        lemma_bytes_lt_irrefl(a.drop_first());
    }
}

proof fn lemma_bytes_lt_trans(a: Seq<u8>, b: Seq<u8>, c: Seq<u8>)
    requires
        bytes_lt(a, b),
        bytes_lt(b, c),
    ensures
        bytes_lt(a, c),
    decreases a.len(),
{
    if a.len() > 0 && b.len() > 0 && c.len() > 0 && a[0] == b[0] && b[0] == c[0] {
        lemma_bytes_lt_trans(a.drop_first(), b.drop_first(), c.drop_first());
    }
}

proof fn lemma_bytes_lt_total(a: Seq<u8>, b: Seq<u8>)
    requires
        a != b,
    ensures
        bytes_lt(a, b) || bytes_lt(b, a),
    decreases a.len(),
{
    if a.len() > 0 && b.len() > 0 && a[0] == b[0] {
        if a.drop_first() == b.drop_first() {
            assert(a =~= seq![a[0]] + a.drop_first());
            assert(b =~= seq![b[0]] + b.drop_first());
        }
        lemma_bytes_lt_total(a.drop_first(), b.drop_first());
    } else if a.len() == 0 && b.len() == 0 {
        assert(a =~= b);
    }
}

/// Lexicographic order on byte strings is a strict total order.
pub proof fn lemma_bytes_order()
    ensures
        strict_total(|a: Seq<u8>, b: Seq<u8>| bytes_lt(a, b)),
{
    assert forall|a: Seq<u8>| !bytes_lt(a, a) by {
        lemma_bytes_lt_irrefl(a);
    }
    assert forall|a: Seq<u8>, b: Seq<u8>, c: Seq<u8>|
        bytes_lt(a, b) && bytes_lt(b, c) implies bytes_lt(a, c) by {
        lemma_bytes_lt_trans(a, b, c);
    }
    assert forall|a: Seq<u8>, b: Seq<u8>| a != b implies bytes_lt(a, b) || bytes_lt(b, a) by {
        lemma_bytes_lt_total(a, b);
    }
}

/// Distinct strings have distinct UTF-8 encodings.
pub proof fn lemma_encode_injective(a: Seq<char>, b: Seq<char>)
    requires
        encode_utf8(a) == encode_utf8(b),
    ensures
        a == b,
{
    encode_utf8_decode_utf8(a);
    encode_utf8_decode_utf8(b);
}

/// The order on string keys is a strict total order.
pub proof fn lemma_str_key_order()
    ensures
        strict_total(str_order()),
{
    lemma_bytes_order();
    assert forall|a: Seq<char>, b: Seq<char>| a != b implies str_key_lt(a, b) || str_key_lt(b, a) by {
        if encode_utf8(a) == encode_utf8(b) {
            lemma_encode_injective(a, b);
        }
        lemma_bytes_lt_total(encode_utf8(a), encode_utf8(b));
    }
    assert forall|a: Seq<char>| !str_key_lt(a, a) by {
        lemma_bytes_lt_irrefl(encode_utf8(a));
    }
    assert forall|a: Seq<char>, b: Seq<char>, c: Seq<char>|
        str_key_lt(a, b) && str_key_lt(b, c) implies str_key_lt(a, c) by {
        lemma_bytes_lt_trans(encode_utf8(a), encode_utf8(b), encode_utf8(c));
    }
}

/// The order on u32 keys is a strict total order.
pub proof fn lemma_u32_key_order()
    ensures
        strict_total(u32_order()),
{
}

/// Inserting a key greater than every key of a sorted map appends it.
pub proof fn lemma_insert_greatest<K, V>(m: Seq<(K, V)>, k: K, v: V, lt: spec_fn(K, K) -> bool)
    requires
        strict_total(lt),
        sorted_keys(m, lt),
        m.len() > 0 ==> lt(m.last().0, k),
    ensures
        map_insert(m, k, v, lt) == m.push((k, v)),
    decreases m.len(),
{
    if m.len() > 0 {
        let t = m.drop_first();
        if m.len() > 1 {
            assert(lt(m[0].0, m.last().0));
        }
        assert(lt(m[0].0, k));
        assert(m[0].0 != k);
        assert(!lt(k, m[0].0));
        assert(sorted_keys(t, lt)) by {
            assert forall|i: int, j: int| 0 <= i < j < t.len() implies #[trigger] lt(t[i].0, t[j].0) by {
                assert(lt(m[i + 1].0, m[j + 1].0));
            }
        }
        if t.len() > 0 {
            assert(t.last() == m.last());
        }
        lemma_insert_greatest(t, k, v, lt);
        assert(map_insert(m, k, v, lt) =~= m.push((k, v)));
    }
}

/// Where `i` is the first position whose key is not below `k`, inserting
/// either replaces entry `i` (same key) or places the new entry at `i`.
pub proof fn lemma_insert_at<K, V>(m: Seq<(K, V)>, k: K, v: V, lt: spec_fn(K, K) -> bool, i: int)
    requires
        strict_total(lt),
        0 <= i <= m.len(),
        forall|j: int| 0 <= j < i ==> #[trigger] lt(m[j].0, k),
        i < m.len() ==> !lt(m[i].0, k),
    ensures
        map_insert(m, k, v, lt) == if i < m.len() && m[i].0 == k {
            m.update(i, (k, v))
        } else {
            m.insert(i, (k, v))
        },
    decreases i,
{
    if i == 0 {
        if m.len() > 0 && m[0].0 != k {
            assert(lt(k, m[0].0));
            assert(map_insert(m, k, v, lt) =~= m.insert(0, (k, v)));
        } else if m.len() > 0 {
            assert(map_insert(m, k, v, lt) =~= m.update(0, (k, v)));
        } else {
            assert(map_insert(m, k, v, lt) =~= m.insert(0, (k, v)));
        }
    } else {
        let t = m.drop_first();
        assert(lt(m[0].0, k));
        assert(m[0].0 != k);
        assert(!lt(k, m[0].0));
        assert forall|j: int| 0 <= j < i - 1 implies #[trigger] lt(t[j].0, k) by {
            assert(lt(m[j + 1].0, k));
        }
        lemma_insert_at(t, k, v, lt, i - 1);
        if i < m.len() && m[i].0 == k {
            assert(map_insert(m, k, v, lt) =~= m.update(i, (k, v)));
        } else {
            assert(map_insert(m, k, v, lt) =~= m.insert(i, (k, v)));
        }
    }
}

/// Every value of `map_insert(m, k, v, lt)` is `v` or a value of `m`, so a
/// property of all of those holds of all its values.
pub proof fn lemma_insert_values<K, V>(
    m: Seq<(K, V)>,
    k: K,
    v: V,
    lt: spec_fn(K, K) -> bool,
    p: spec_fn(V) -> bool,
)
    requires
        p(v),
        forall|i: int| 0 <= i < m.len() ==> #[trigger] p(m[i].1),
    ensures
        forall|j: int|
            0 <= j < map_insert(m, k, v, lt).len() ==> #[trigger] p(map_insert(m, k, v, lt)[j].1),
    decreases m.len(),
{
    if m.len() > 0 {
        let t = m.drop_first();
        assert forall|i: int| 0 <= i < t.len() implies #[trigger] p(t[i].1) by {
            assert(p(m[i + 1].1));
        }
        lemma_insert_values(t, k, v, lt, p);
        let r = map_insert(m, k, v, lt);
        assert forall|j: int| 0 <= j < r.len() implies #[trigger] p(r[j].1) by {
            if m[0].0 == k {
                if j > 0 {
                    assert(r[j] == t[j - 1]);
                }
            } else if lt(k, m[0].0) {
                if j > 0 {
                    assert(r[j] == m[j - 1]);
                }
            } else {
                if j > 0 {
                    assert(r[j] == map_insert(t, k, v, lt)[j - 1]);
                }
            }
        }
    }
}

/// Inserting into a sorted map keeps it sorted.
pub proof fn lemma_insert_sorted<K, V>(m: Seq<(K, V)>, k: K, v: V, lt: spec_fn(K, K) -> bool)
    requires
        strict_total(lt),
        sorted_keys(m, lt),
    ensures
        sorted_keys(map_insert(m, k, v, lt), lt),
        forall|x: K| #[trigger] has_key(map_insert(m, k, v, lt), x) ==> x == k || has_key(m, x),
    decreases m.len(),
{
    let r = map_insert(m, k, v, lt);
    if m.len() > 0 {
        let t = m.drop_first();
        assert(sorted_keys(t, lt)) by {
            assert forall|i: int, j: int| 0 <= i < j < t.len() implies #[trigger] lt(t[i].0, t[j].0) by {
                assert(lt(m[i + 1].0, m[j + 1].0));
            }
        }
        lemma_insert_sorted(t, k, v, lt);
        let rt = map_insert(t, k, v, lt);
        if m[0].0 == k {
            assert(sorted_keys(r, lt)) by {
                assert forall|i: int, j: int| 0 <= i < j < r.len() implies #[trigger] lt(r[i].0, r[j].0) by {
                    assert(lt(m[i].0, m[j].0));
                }
            }
        } else if lt(k, m[0].0) {
            assert(sorted_keys(r, lt)) by {
                assert forall|i: int, j: int| 0 <= i < j < r.len() implies #[trigger] lt(r[i].0, r[j].0) by {
                    if i == 0 {
                        if j > 1 {
                            assert(lt(m[0].0, m[j - 1].0));
                        }
                    } else {
                        assert(lt(m[i - 1].0, m[j - 1].0));
                    }
                }
            }
        } else {
            assert(lt(m[0].0, k));
            assert forall|x: K| #[trigger] has_key(rt, x) implies lt(m[0].0, x) by {
                if x != k {
                    let j = choose|j: int| 0 <= j < t.len() && t[j].0 == x;
                    assert(lt(m[0].0, m[j + 1].0));
                }
            }
            assert(sorted_keys(r, lt)) by {
                assert forall|i: int, j: int| 0 <= i < j < r.len() implies #[trigger] lt(r[i].0, r[j].0) by {
                    if i == 0 {
                        assert(r[j] == rt[j - 1]);
                        assert(has_key(rt, r[j].0));
                    } else {
                        assert(r[i] == rt[i - 1]);
                        assert(r[j] == rt[j - 1]);
                    }
                }
            }
        }
        assert forall|x: K| #[trigger] has_key(r, x) implies x == k || has_key(m, x) by {
            let j = choose|j: int| 0 <= j < r.len() && r[j].0 == x;
            if m[0].0 == k {
                if j > 0 {
                    assert(m[j].0 == x);
                    assert(has_key(m, x));
                }
            } else if lt(k, m[0].0) {
                if j > 0 {
                    assert(m[j - 1].0 == x);
                    assert(has_key(m, x));
                }
            } else {
                if j == 0 {
                    assert(m[0].0 == x);
                    assert(has_key(m, x));
                } else {
                    assert(rt[j - 1].0 == x);
                    assert(has_key(rt, x));
                    if x != k {
                        let jj = choose|jj: int| 0 <= jj < t.len() && t[jj].0 == x;
                        assert(m[jj + 1].0 == x);
                        assert(has_key(m, x));
                    }
                }
            }
        }
    }
}

proof fn lemma_sorted_tail<K, V>(m: Seq<(K, V)>, lt: spec_fn(K, K) -> bool)
    requires
        m.len() > 0,
        sorted_keys(m, lt),
    ensures
        sorted_keys(m.drop_first(), lt),
        forall|j: int| 0 < j < m.len() ==> #[trigger] lt(m[0].0, m[j].0),
{
    let t = m.drop_first();
    assert forall|i: int, j: int| 0 <= i < j < t.len() implies #[trigger] lt(t[i].0, t[j].0) by {
        assert(lt(m[i + 1].0, m[j + 1].0));
    }
}

/// The entries of `map_insert(m, k, v, lt)`, for sorted `m`: `(k, v)`, and
/// those of `m` whose key is not `k`.
pub proof fn lemma_insert_entries<K, V>(m: Seq<(K, V)>, k: K, v: V, lt: spec_fn(K, K) -> bool)
    requires
        strict_total(lt),
        sorted_keys(m, lt),
    ensures
        forall|e: (K, V)|
            #[trigger] has_entry(map_insert(m, k, v, lt), e) <==> (e == (k, v) || (has_entry(m, e)
                && e.0 != k)),
    decreases m.len(),
{
    let r = map_insert(m, k, v, lt);
    if m.len() == 0 {
        assert forall|e: (K, V)| #[trigger] has_entry(r, e) <==> (e == (k, v) || (has_entry(m, e)
            && e.0 != k)) by {
            if e == (k, v) {
                assert(r[0] == e);
            }
        }
    } else {
        let t = m.drop_first();
        lemma_sorted_tail(m, lt);
        lemma_insert_entries(t, k, v, lt);
        assert forall|e: (K, V)| #[trigger] has_entry(r, e) <==> (e == (k, v) || (has_entry(m, e)
            && e.0 != k)) by {
            if m[0].0 == k {
                if has_entry(r, e) && e != (k, v) {
                    let j = choose|j: int| 0 <= j < r.len() && r[j] == e;
                    assert(j > 0);
                    assert(m[j] == e);
                    assert(lt(m[0].0, m[j].0));
                }
                if e == (k, v) {
                    assert(r[0] == e);
                } else if has_entry(m, e) && e.0 != k {
                    let j = choose|j: int| 0 <= j < m.len() && m[j] == e;
                    assert(j > 0);
                    assert(r[j] == e);
                }
            } else if lt(k, m[0].0) {
                if has_entry(r, e) && e != (k, v) {
                    let j = choose|j: int| 0 <= j < r.len() && r[j] == e;
                    assert(m[j - 1] == e);
                    if j - 1 > 0 {
                        assert(lt(m[0].0, m[j - 1].0));
                    }
                }
                if e == (k, v) {
                    assert(r[0] == e);
                } else if has_entry(m, e) && e.0 != k {
                    let j = choose|j: int| 0 <= j < m.len() && m[j] == e;
                    assert(r[j + 1] == e);
                }
            } else {
                let rt = map_insert(t, k, v, lt);
                if has_entry(r, e) {
                    let j = choose|j: int| 0 <= j < r.len() && r[j] == e;
                    if j > 0 {
                        assert(rt[j - 1] == e);
                        assert(has_entry(rt, e));
                        if e != (k, v) {
                            let jj = choose|jj: int| 0 <= jj < t.len() && t[jj] == e;
                            assert(m[jj + 1] == e);
                        }
                    }
                }
                if e == (k, v) {
                    assert(has_entry(rt, e));
                    let jj = choose|jj: int| 0 <= jj < rt.len() && rt[jj] == e;
                    assert(r[jj + 1] == e);
                } else if has_entry(m, e) && e.0 != k {
                    let j = choose|j: int| 0 <= j < m.len() && m[j] == e;
                    if j == 0 {
                        assert(r[0] == e);
                    } else {
                        assert(t[j - 1] == e);
                        assert(has_entry(rt, e));
                        let jj = choose|jj: int| 0 <= jj < rt.len() && rt[jj] == e;
                        assert(r[jj + 1] == e);
                    }
                }
            }
        }
    }
}

/// Sorted entries are fixed by what they hold: two sequences of entries
/// with strictly ascending keys and the same entries are equal.
pub proof fn lemma_sorted_unique<K, V>(a: Seq<(K, V)>, b: Seq<(K, V)>, lt: spec_fn(K, K) -> bool)
    requires
        strict_total(lt),
        sorted_keys(a, lt),
        sorted_keys(b, lt),
        forall|e: (K, V)|
            #![trigger has_entry(a, e)]
            #![trigger has_entry(b, e)]
            has_entry(a, e) <==> has_entry(b, e),
    ensures
        a == b,
    decreases a.len(),
{
    if a.len() == 0 {
        if b.len() > 0 {
            assert(has_entry(b, b[0]));
        }
        assert(a =~= b);
    } else {
        assert(has_entry(a, a[0]));
        let j = choose|j: int| 0 <= j < b.len() && b[j] == a[0];
        assert(has_entry(b, b[0]));
        let i = choose|i: int| 0 <= i < a.len() && a[i] == b[0];
        if i > 0 && j > 0 {
            assert(lt(a[0].0, a[i].0));
            assert(lt(b[0].0, b[j].0));
        }
        assert(a[0] == b[0]);
        lemma_sorted_tail(a, lt);
        lemma_sorted_tail(b, lt);
        let ta = a.drop_first();
        let tb = b.drop_first();
        assert forall|e: (K, V)|
            #![trigger has_entry(ta, e)]
            #![trigger has_entry(tb, e)]
            has_entry(ta, e) <==> has_entry(tb, e) by {
            if has_entry(ta, e) {
                let p = choose|p: int| 0 <= p < ta.len() && ta[p] == e;
                assert(a[p + 1] == e);
                assert(has_entry(a, e));
                let q = choose|q: int| 0 <= q < b.len() && b[q] == e;
                assert(lt(a[0].0, a[p + 1].0));
                assert(q > 0);
                assert(tb[q - 1] == e);
            }
            if has_entry(tb, e) {
                let p = choose|p: int| 0 <= p < tb.len() && tb[p] == e;
                assert(b[p + 1] == e);
                assert(has_entry(b, e));
                let q = choose|q: int| 0 <= q < a.len() && a[q] == e;
                assert(lt(b[0].0, b[p + 1].0));
                assert(q > 0);
                assert(ta[q - 1] == e);
            }
        }
        lemma_sorted_unique(ta, tb, lt);
        assert(a =~= seq![a[0]] + ta);
        assert(b =~= seq![b[0]] + tb);
    }
}

/// Inserting two different keys gives the same map in either order.
pub proof fn lemma_insert_commutes<K, V>(
    m: Seq<(K, V)>,
    k1: K,
    v1: V,
    k2: K,
    v2: V,
    lt: spec_fn(K, K) -> bool,
)
    requires
        strict_total(lt),
        sorted_keys(m, lt),
        k1 != k2,
    ensures
        map_insert(map_insert(m, k1, v1, lt), k2, v2, lt) == map_insert(
            map_insert(m, k2, v2, lt),
            k1,
            v1,
            lt,
        ),
{
    let a1 = map_insert(m, k1, v1, lt);
    let b1 = map_insert(m, k2, v2, lt);
    lemma_insert_sorted(m, k1, v1, lt);
    lemma_insert_sorted(m, k2, v2, lt);
    lemma_insert_sorted(a1, k2, v2, lt);
    lemma_insert_sorted(b1, k1, v1, lt);
    lemma_insert_entries(m, k1, v1, lt);
    lemma_insert_entries(m, k2, v2, lt);
    lemma_insert_entries(a1, k2, v2, lt);
    lemma_insert_entries(b1, k1, v1, lt);
    let a = map_insert(a1, k2, v2, lt);
    let b = map_insert(b1, k1, v1, lt);
    assert forall|e: (K, V)|
        #![trigger has_entry(a, e)]
        #![trigger has_entry(b, e)]
        has_entry(a, e) <==> has_entry(b, e) by {
        assert(has_entry(a, e) == (e == (k2, v2) || (has_entry(a1, e) && e.0 != k2)));
        assert(has_entry(b, e) == (e == (k1, v1) || (has_entry(b1, e) && e.0 != k1)));
        assert(has_entry(a1, e) == (e == (k1, v1) || (has_entry(m, e) && e.0 != k1)));
        assert(has_entry(b1, e) == (e == (k2, v2) || (has_entry(m, e) && e.0 != k2)));
    }
    lemma_sorted_unique(a, b, lt);
}

/// Inserting a key twice keeps only the later value.
pub proof fn lemma_insert_overwrites<K, V>(m: Seq<(K, V)>, k: K, v1: V, v2: V, lt: spec_fn(K, K) -> bool)
    requires
        strict_total(lt),
        sorted_keys(m, lt),
    ensures
        map_insert(map_insert(m, k, v1, lt), k, v2, lt) == map_insert(m, k, v2, lt),
{
    let a1 = map_insert(m, k, v1, lt);
    lemma_insert_sorted(m, k, v1, lt);
    lemma_insert_sorted(a1, k, v2, lt);
    lemma_insert_sorted(m, k, v2, lt);
    lemma_insert_entries(m, k, v1, lt);
    lemma_insert_entries(a1, k, v2, lt);
    lemma_insert_entries(m, k, v2, lt);
    let a = map_insert(a1, k, v2, lt);
    let b = map_insert(m, k, v2, lt);
    assert forall|e: (K, V)|
        #![trigger has_entry(a, e)]
        #![trigger has_entry(b, e)]
        has_entry(a, e) <==> has_entry(b, e) by {
        assert(has_entry(a, e) == (e == (k, v2) || (has_entry(a1, e) && e.0 != k)));
        assert(has_entry(a1, e) == (e == (k, v1) || (has_entry(m, e) && e.0 != k)));
        assert(has_entry(b, e) == (e == (k, v2) || (has_entry(m, e) && e.0 != k)));
    }
    lemma_sorted_unique(a, b, lt);
}

/// Whether `a` comes before `b` in lexicographic byte order.
pub fn bytes_less(a: &[u8], b: &[u8]) -> (r: bool)
    ensures
        r == bytes_lt(a@, b@),
{
    let mut i: usize = 0;
    assert(a@.skip(0) =~= a@);
    assert(b@.skip(0) =~= b@);
    while i < a.len() && i < b.len()
        invariant
            0 <= i <= a@.len(),
            i <= b@.len(),
            bytes_lt(a@, b@) == bytes_lt(a@.skip(i as int), b@.skip(i as int)),
        decreases a@.len() - i,
    {
        if a[i] != b[i] {
            return a[i] < b[i];
        }
        assert(a@.skip(i as int).drop_first() =~= a@.skip(i + 1));
        assert(b@.skip(i as int).drop_first() =~= b@.skip(i + 1));
        i += 1;
    }
    i < b.len()
}

/// Whether `a` and `b` hold the same bytes.
pub fn bytes_equal(a: &[u8], b: &[u8]) -> (r: bool)
    ensures
        r == (a@ == b@),
{
    if a.len() != b.len() {
        return false;
    }
    let mut i: usize = 0;
    while i < a.len()
        invariant
            0 <= i <= a@.len(),
            a@.len() == b@.len(),
            a@.take(i as int) == b@.take(i as int),
        decreases a@.len() - i,
    {
        if a[i] != b[i] {
            assert(a@[i as int] != b@[i as int]);
            return false;
        }
        assert(a@.take(i + 1) =~= a@.take(i as int).push(a@[i as int]));
        assert(b@.take(i + 1) =~= b@.take(i as int).push(b@[i as int]));
        i += 1;
    }
    assert(a@ =~= a@.take(i as int));
    assert(b@ =~= b@.take(i as int));
    true
}

} // verus!
