//! Vectors kept in strictly increasing order of a 64-bit key, seen as
//! maps from key to element. The routing ids of users and nodes are
//! eight bytes; their big-endian value orders them exactly as the bytes
//! compare lexicographically.

use vstd::prelude::*;

use crate::codec::utils::be64_value;

verus! {

/// The order key of an 8-byte id: its big-endian value.
pub open spec fn spec_id_key(id: [u8; 8]) -> u64 {
    be64_value(id@)
}

/// The order key of an 8-byte id.
pub fn id_key(id: &[u8; 8]) -> (k: u64)
    ensures
        k == spec_id_key(*id),
{
    ((id[0] as u64) << 56u64) | ((id[1] as u64) << 48u64) | ((id[2] as u64) << 40u64) | ((
    id[3] as u64) << 32u64) | ((id[4] as u64) << 24u64) | ((id[5] as u64) << 16u64) | ((id[6] as u64)
        << 8u64) | (id[7] as u64)
}

/// Distinct ids have distinct keys.
pub proof fn lemma_id_key_injective(a: [u8; 8], b: [u8; 8])
    ensures
        spec_id_key(a) == spec_id_key(b) ==> a == b,
{
    if spec_id_key(a) == spec_id_key(b) {
        let (a0, a1, a2, a3, a4, a5, a6, a7) = (a@[0], a@[1], a@[2], a@[3], a@[4], a@[5], a@[6], a@[7]);
        let (b0, b1, b2, b3, b4, b5, b6, b7) = (b@[0], b@[1], b@[2], b@[3], b@[4], b@[5], b@[6], b@[7]);
        assert((((a0 as u64) << 56u64) | ((a1 as u64) << 48u64) | ((a2 as u64) << 40u64) | ((a3 as u64)
            << 32u64) | ((a4 as u64) << 24u64) | ((a5 as u64) << 16u64) | ((a6 as u64) << 8u64) | (a7 as u64))
            == (((b0 as u64) << 56u64) | ((b1 as u64) << 48u64) | ((b2 as u64) << 40u64) | ((b3 as u64)
            << 32u64) | ((b4 as u64) << 24u64) | ((b5 as u64) << 16u64) | ((b6 as u64) << 8u64) | (b7 as u64))
            ==> a0 == b0 && a1 == b1 && a2 == b2 && a3 == b3 && a4 == b4 && a5 == b5 && a6 == b6 && a7 == b7)
            by (bit_vector);
        assert(a@ =~= b@);
        assert(a =~= b);
    }
}

/// Whether two ids are the same.
pub fn same_id(a: &[u8; 8], b: &[u8; 8]) -> (r: bool)
    ensures
        r == (*a == *b),
{
    proof {
        lemma_id_key_injective(*a, *b);
    }
    id_key(a) == id_key(b)
}

/// Keys strictly increase along the sequence.
pub open spec fn strictly_sorted_by<T>(s: Seq<T>, key: spec_fn(T) -> u64) -> bool {
    forall|i: int, j: int| 0 <= i < j < s.len() ==> key(#[trigger] s[i]) < key(#[trigger] s[j])
}

/// Some element has key `k`.
pub open spec fn has_key<T>(s: Seq<T>, key: spec_fn(T) -> u64, k: u64) -> bool {
    exists|i: int| 0 <= i < s.len() && key(#[trigger] s[i]) == k
}

/// The sequence as a map from key to element.
pub open spec fn keyed_map<T>(s: Seq<T>, key: spec_fn(T) -> u64) -> Map<u64, T> {
    Map::new(
        |k: u64| has_key(s, key, k),
        |k: u64| s[choose|i: int| 0 <= i < s.len() && key(#[trigger] s[i]) == k],
    )
}

/// In a strictly sorted sequence the element at `i` is what the map
/// holds under its key.
pub proof fn lemma_keyed_map_at<T>(s: Seq<T>, key: spec_fn(T) -> u64, i: int)
    requires
        strictly_sorted_by(s, key),
        0 <= i < s.len(),
    ensures
        keyed_map(s, key).dom().contains(key(s[i])),
        keyed_map(s, key)[key(s[i])] == s[i],
{
    let k = key(s[i]);
    assert(has_key(s, key, k));
    let j = choose|j: int| 0 <= j < s.len() && key(#[trigger] s[j]) == k;
    if j != i {
        if j < i {
            assert(key(s[j]) < key(s[i]));
        } else {
            assert(key(s[i]) < key(s[j]));
        }
    }
}

/// Inserting at the position that keeps the order adds the element to
/// the map under its key.
pub proof fn lemma_keyed_insert<T>(s: Seq<T>, key: spec_fn(T) -> u64, pos: int, x: T)
    requires
        strictly_sorted_by(s, key),
        0 <= pos <= s.len(),
        forall|i: int| 0 <= i < pos ==> key(#[trigger] s[i]) < key(x),
        forall|i: int| pos <= i < s.len() ==> key(x) < key(#[trigger] s[i]),
    ensures
        strictly_sorted_by(s.insert(pos, x), key),
        keyed_map(s.insert(pos, x), key) =~= keyed_map(s, key).insert(key(x), x),
{
    let t = s.insert(pos, x);
    s.insert_ensures(pos, x);
    assert forall|i: int, j: int| 0 <= i < j < t.len() implies key(#[trigger] t[i]) < key(
        #[trigger] t[j],
    ) by {
        if j < pos {
        } else if j == pos {
        } else if i < pos {
            assert(t[j] == s[j - 1]);
        } else if i == pos {
            assert(t[j] == s[j - 1]);
        } else {
            assert(t[i] == s[i - 1]);
            assert(t[j] == s[j - 1]);
        }
    }
    let m = keyed_map(s, key).insert(key(x), x);
    assert forall|k: u64| #[trigger] keyed_map(t, key).dom().contains(k) == m.dom().contains(k) by {
        if has_key(t, key, k) {
            let j = choose|j: int| 0 <= j < t.len() && key(#[trigger] t[j]) == k;
            if j < pos {
                assert(has_key(s, key, k));
            } else if j > pos {
                assert(t[j] == s[j - 1]);
                assert(has_key(s, key, k));
            }
        }
        if has_key(s, key, k) {
            let j = choose|j: int| 0 <= j < s.len() && key(#[trigger] s[j]) == k;
            if j < pos {
                assert(t[j] == s[j]);
            } else {
                assert(t[j + 1] == s[j]);
            }
            assert(has_key(t, key, k));
        }
        if k == key(x) {
            assert(t[pos] == x);
            assert(has_key(t, key, k));
        }
    }
    assert forall|k: u64| #[trigger] keyed_map(t, key).dom().contains(k) implies keyed_map(t, key)[k]
        == m[k] by {
        let j = choose|j: int| 0 <= j < t.len() && key(#[trigger] t[j]) == k;
        lemma_keyed_map_at(t, key, j);
        if j < pos {
            lemma_keyed_map_at(s, key, j);
        } else if j > pos {
            assert(t[j] == s[j - 1]);
            lemma_keyed_map_at(s, key, j - 1);
        }
    }
}

/// Overwriting the element at `pos` with one of the same key replaces
/// the map's value under that key.
pub proof fn lemma_keyed_update<T>(s: Seq<T>, key: spec_fn(T) -> u64, pos: int, x: T)
    requires
        strictly_sorted_by(s, key),
        0 <= pos < s.len(),
        key(s[pos]) == key(x),
    ensures
        strictly_sorted_by(s.update(pos, x), key),
        keyed_map(s.update(pos, x), key) =~= keyed_map(s, key).insert(key(x), x),
{
    let t = s.update(pos, x);
    assert forall|i: int, j: int| 0 <= i < j < t.len() implies key(#[trigger] t[i]) < key(
        #[trigger] t[j],
    ) by {
        assert(key(s[i]) < key(s[j]));
    }
    let m = keyed_map(s, key).insert(key(x), x);
    assert forall|k: u64| #[trigger] keyed_map(t, key).dom().contains(k) == m.dom().contains(k) by {
        if has_key(t, key, k) {
            let j = choose|j: int| 0 <= j < t.len() && key(#[trigger] t[j]) == k;
            if j != pos {
                assert(has_key(s, key, k));
            }
        }
        if has_key(s, key, k) {
            let j = choose|j: int| 0 <= j < s.len() && key(#[trigger] s[j]) == k;
            assert(key(t[j]) == k);
            assert(has_key(t, key, k));
        }
        if k == key(x) {
            assert(t[pos] == x);
            assert(has_key(t, key, k));
        }
    }
    assert forall|k: u64| #[trigger] keyed_map(t, key).dom().contains(k) implies keyed_map(t, key)[k]
        == m[k] by {
        let j = choose|j: int| 0 <= j < t.len() && key(#[trigger] t[j]) == k;
        lemma_keyed_map_at(t, key, j);
        if j != pos {
            lemma_keyed_map_at(s, key, j);
        }
    }
}

/// Removing the element at `pos` removes its key from the map.
pub proof fn lemma_keyed_remove<T>(s: Seq<T>, key: spec_fn(T) -> u64, pos: int)
    requires
        strictly_sorted_by(s, key),
        0 <= pos < s.len(),
    ensures
        strictly_sorted_by(s.remove(pos), key),
        keyed_map(s.remove(pos), key) =~= keyed_map(s, key).remove(key(s[pos])),
{
    let t = s.remove(pos);
    s.remove_ensures(pos);
    assert forall|i: int, j: int| 0 <= i < j < t.len() implies key(#[trigger] t[i]) < key(
        #[trigger] t[j],
    ) by {
        if j < pos {
        } else if i < pos {
            assert(t[j] == s[j + 1]);
        } else {
            assert(t[i] == s[i + 1]);
            assert(t[j] == s[j + 1]);
        }
    }
    let m = keyed_map(s, key).remove(key(s[pos]));
    assert forall|k: u64| #[trigger] keyed_map(t, key).dom().contains(k) == m.dom().contains(k) by {
        if has_key(t, key, k) {
            let j = choose|j: int| 0 <= j < t.len() && key(#[trigger] t[j]) == k;
            if j < pos {
                assert(has_key(s, key, k));
                assert(key(s[j]) < key(s[pos]));
            } else {
                assert(t[j] == s[j + 1]);
                assert(has_key(s, key, k));
                assert(key(s[pos]) < key(s[j + 1]));
            }
        }
        if has_key(s, key, k) && k != key(s[pos]) {
            let j = choose|j: int| 0 <= j < s.len() && key(#[trigger] s[j]) == k;
            if j < pos {
                assert(t[j] == s[j]);
            } else {
                assert(j != pos);
                assert(t[j - 1] == s[j]);
            }
            assert(has_key(t, key, k));
        }
    }
    assert forall|k: u64| #[trigger] keyed_map(t, key).dom().contains(k) implies keyed_map(t, key)[k]
        == m[k] by {
        let j = choose|j: int| 0 <= j < t.len() && key(#[trigger] t[j]) == k;
        lemma_keyed_map_at(t, key, j);
        if j < pos {
            lemma_keyed_map_at(s, key, j);
        } else {
            assert(t[j] == s[j + 1]);
            lemma_keyed_map_at(s, key, j + 1);
        }
    }
}

/// A key that falls strictly between the neighbours of `pos` is not in
/// the map.
pub proof fn lemma_keyed_absent<T>(s: Seq<T>, key: spec_fn(T) -> u64, pos: int, k: u64)
    requires
        0 <= pos <= s.len(),
        forall|i: int| 0 <= i < pos ==> key(#[trigger] s[i]) < k,
        forall|i: int| pos <= i < s.len() ==> k < key(#[trigger] s[i]),
    ensures
        !keyed_map(s, key).dom().contains(k),
{
    if has_key(s, key, k) {
        let j = choose|j: int| 0 <= j < s.len() && key(#[trigger] s[j]) == k;
        if j < pos {
        } else {
        }
    }
}


/// The part of a map whose values satisfy `p`.
pub open spec fn map_where<T>(m: Map<u64, T>, p: spec_fn(T) -> bool) -> Map<u64, T> {
    Map::new(|k: u64| m.dom().contains(k) && p(m[k]), |k: u64| m[k])
}

/// `t` holds exactly the elements among the first `i` of `s` that
/// satisfy `p`.
pub open spec fn selects<T>(s: Seq<T>, t: Seq<T>, p: spec_fn(T) -> bool, i: int) -> bool {
    &&& forall|a: int|
        #![trigger source_index(a)]
        source_index(a) && 0 <= a < t.len() ==> exists|j: int| 0 <= j < i && t[a] == s[j] && p(s[j])
    &&& forall|j: int|
        #![trigger source_index(j)]
        source_index(j) && 0 <= j < i && p(s[j]) ==> exists|a: int| 0 <= a < t.len() && t[a] == s[j]
}

/// A marker for the positions of a source sequence; it holds everywhere.
pub open spec fn source_index(j: int) -> bool {
    true
}

/// `t` is strictly sorted and holds exactly the elements among the first
/// `i` of `s` that satisfy `p`.
pub open spec fn is_selection<T>(s: Seq<T>, t: Seq<T>, key: spec_fn(T) -> u64, p: spec_fn(T) -> bool, i: int) -> bool {
    &&& strictly_sorted_by(t, key)
    &&& selects(s, t, p, i)
}

/// Every element of a selection is one of the first `i` of `s`, and
/// satisfies `p`.
pub proof fn lemma_selects_member<T>(s: Seq<T>, t: Seq<T>, p: spec_fn(T) -> bool, i: int, a: int) -> (j: int)
    requires
        selects(s, t, p, i),
        0 <= a < t.len(),
    ensures
        0 <= j < i,
        t[a] == s[j],
        p(s[j]),
{
    assert(source_index(a));
    choose|j: int| 0 <= j < i && t[a] == s[j] && p(s[j])
}

/// Every one of the first `i` elements of `s` that satisfies `p` is in a
/// selection.
pub proof fn lemma_selects_covers<T>(s: Seq<T>, t: Seq<T>, p: spec_fn(T) -> bool, i: int, j: int) -> (a: int)
    requires
        selects(s, t, p, i),
        0 <= j < i,
        p(s[j]),
    ensures
        0 <= a < t.len(),
        t[a] == s[j],
{
    assert(source_index(j));
    choose|a: int| 0 <= a < t.len() && t[a] == s[j]
}

/// Passing over an element that fails `p` keeps a selection.
pub proof fn lemma_selects_skip<T>(s: Seq<T>, t: Seq<T>, p: spec_fn(T) -> bool, i: int)
    requires
        0 <= i < s.len(),
        selects(s, t, p, i),
        !p(s[i]),
    ensures
        selects(s, t, p, i + 1),
{
    assert forall|a: int| #![trigger source_index(a)] source_index(a) && 0 <= a < t.len() implies exists|j: int| 0 <= j < i + 1 && t[a] == s[j] && p(s[j]) by {
        let j = lemma_selects_member(s, t, p, i, a);
        assert(0 <= j < i + 1 && t[a] == s[j] && p(s[j]));
    }
    assert forall|j: int| #![trigger source_index(j)] source_index(j) && 0 <= j < i + 1 && p(s[j]) implies exists|a: int| 0 <= a < t.len() && t[a] == s[j] by {
        assert(j != i);
        let a = lemma_selects_covers(s, t, p, i, j);
        assert(0 <= a < t.len() && t[a] == s[j]);
    }
}

/// Inserting the next element of `s` anywhere into a selection keeps it
/// a selection.
pub proof fn lemma_selects_insert<T>(s: Seq<T>, t: Seq<T>, p: spec_fn(T) -> bool, i: int, pos: int)
    requires
        0 <= i < s.len(),
        0 <= pos <= t.len(),
        selects(s, t, p, i),
        p(s[i]),
    ensures
        selects(s, t.insert(pos, s[i]), p, i + 1),
{
    let t2 = t.insert(pos, s[i]);
    t.insert_ensures(pos, s[i]);
    assert forall|a: int| #![trigger source_index(a)] source_index(a) && 0 <= a < t2.len() implies exists|j: int| 0 <= j < i + 1 && t2[a] == s[j] && p(s[j]) by {
        if a < pos {
            let j = lemma_selects_member(s, t, p, i, a);
            assert(0 <= j < i + 1 && t2[a] == s[j] && p(s[j]));
        } else if a == pos {
            assert(0 <= i < i + 1 && t2[a] == s[i] && p(s[i]));
        } else {
            let j = lemma_selects_member(s, t, p, i, a - 1);
            assert(0 <= j < i + 1 && t2[a] == s[j] && p(s[j]));
        }
    }
    assert forall|j: int| #![trigger source_index(j)] source_index(j) && 0 <= j < i + 1 && p(s[j]) implies exists|a: int| 0 <= a < t2.len() && t2[a] == s[j] by {
        if j == i {
            assert(0 <= pos < t2.len() && t2[pos] == s[j]);
        } else {
            let a = lemma_selects_covers(s, t, p, i, j);
            if a < pos {
                assert(0 <= a < t2.len() && t2[a] == s[j]);
            } else {
                assert(0 <= a + 1 < t2.len() && t2[a + 1] == s[j]);
            }
        }
    }
}

/// Taking the next element of `s` into a key-sorted selection when it
/// satisfies `p` keeps it a key-sorted selection.
#[verifier::rlimit(40)]
pub proof fn lemma_selection_step<T>(s: Seq<T>, t: Seq<T>, key: spec_fn(T) -> u64, p: spec_fn(T) -> bool, i: int)
    requires
        strictly_sorted_by(s, key),
        0 <= i < s.len(),
        is_selection(s, t, key, p, i),
    ensures
        p(s[i]) ==> is_selection(s, t.push(s[i]), key, p, i + 1),
        !p(s[i]) ==> is_selection(s, t, key, p, i + 1),
{
    if p(s[i]) {
        let t2 = t.push(s[i]);
        assert(t2 =~= t.insert(t.len() as int, s[i]));
        lemma_selects_insert(s, t, p, i, t.len() as int);
        assert(selects(s, t2, p, i + 1));
        assert forall|a: int, b: int| 0 <= a < b < t2.len() implies key(#[trigger] t2[a]) < key(#[trigger] t2[b]) by {
                    if b == t.len() {
                assert(t2[a] == t[a]);
                let j = lemma_selects_member(s, t, p, i, a);
                assert(key(s[j]) < key(s[i]));
            } else {
                assert(key(t[a]) < key(t[b]));
            }
        }
    } else {
        lemma_selects_skip(s, t, p, i);
    }
}

/// A strictly sorted sequence holding exactly the elements of `s` that
/// satisfy `p` is, as a map, the part of `s`'s map that satisfies `p`.
pub proof fn lemma_keyed_selection<T>(s: Seq<T>, t: Seq<T>, key: spec_fn(T) -> u64, p: spec_fn(T) -> bool)
    requires
        strictly_sorted_by(s, key),
        is_selection(s, t, key, p, s.len() as int),
    ensures
        keyed_map(t, key) =~= map_where(keyed_map(s, key), p),
{
    let ms = keyed_map(s, key);
    let mt = keyed_map(t, key);
    assert forall|k: u64| #[trigger] mt.dom().contains(k) == map_where(ms, p).dom().contains(k) by {
        if has_key(t, key, k) {
            let a = choose|a: int| 0 <= a < t.len() && key(#[trigger] t[a]) == k;
            let j = lemma_selects_member(s, t, p, s.len() as int, a);
            lemma_keyed_map_at(s, key, j);
        }
        if ms.dom().contains(k) && p(ms[k]) {
            let j = choose|j: int| 0 <= j < s.len() && key(#[trigger] s[j]) == k;
            lemma_keyed_map_at(s, key, j);
            let a = lemma_selects_covers(s, t, p, s.len() as int, j);
            assert(key(t[a]) == k);
            assert(has_key(t, key, k));
        }
    }
    assert forall|k: u64| #[trigger] mt.dom().contains(k) implies mt[k] == map_where(ms, p)[k] by {
        let a = choose|a: int| 0 <= a < t.len() && key(#[trigger] t[a]) == k;
        lemma_keyed_map_at(t, key, a);
        let j = lemma_selects_member(s, t, p, s.len() as int, a);
        lemma_keyed_map_at(s, key, j);
    }
}


/// The map of a strictly sorted sequence has one key per element.
pub proof fn lemma_keyed_map_len<T>(s: Seq<T>, key: spec_fn(T) -> u64)
    requires
        strictly_sorted_by(s, key),
    ensures
        keyed_map(s, key).dom().finite(),
        keyed_map(s, key).dom().len() == s.len(),
{
    let keys = s.map_values(|x: T| key(x));
    assert forall|i: int, j: int| 0 <= i < keys.len() && 0 <= j < keys.len() && i != j implies keys[i]
        != keys[j] by {
        if i < j {
            assert(key(s[i]) < key(s[j]));
        } else {
            assert(key(s[j]) < key(s[i]));
        }
    }
    keys.unique_seq_to_set();
    assert forall|k: u64| #[trigger] keyed_map(s, key).dom().contains(k) == keys.to_set().contains(k) by {
        if has_key(s, key, k) {
            let j = choose|j: int| 0 <= j < s.len() && key(#[trigger] s[j]) == k;
            assert(keys[j] == k);
        }
        if keys.to_set().contains(k) {
            let j = choose|j: int| 0 <= j < keys.len() && keys[j] == k;
            assert(key(s[j]) == k);
        }
    }
    assert(keyed_map(s, key).dom() =~= keys.to_set());
}

/// Strictly increasing keys below `s.len()` are exactly the positions.
pub proof fn lemma_dense_keys<T>(s: Seq<T>, key: spec_fn(T) -> u64)
    requires
        strictly_sorted_by(s, key),
        forall|i: int| 0 <= i < s.len() ==> key(#[trigger] s[i]) < s.len(),
    ensures
        forall|i: int| 0 <= i < s.len() ==> key(#[trigger] s[i]) == i,
{
    assert forall|i: int| 0 <= i < s.len() implies key(#[trigger] s[i]) >= i by {
        lemma_keys_at_least(s, key, i);
    }
    assert forall|i: int| 0 <= i < s.len() implies key(#[trigger] s[i]) <= i by {
        lemma_keys_at_most(s, key, i);
    }
}

pub proof fn lemma_keys_at_least<T>(s: Seq<T>, key: spec_fn(T) -> u64, i: int)
    requires
        strictly_sorted_by(s, key),
        0 <= i < s.len(),
    ensures
        key(s[i]) >= i,
    decreases i,
{
    if i > 0 {
        lemma_keys_at_least(s, key, i - 1);
        assert(key(s[i - 1]) < key(s[i]));
    }
}

proof fn lemma_keys_at_most<T>(s: Seq<T>, key: spec_fn(T) -> u64, i: int)
    requires
        strictly_sorted_by(s, key),
        forall|j: int| 0 <= j < s.len() ==> key(#[trigger] s[j]) < s.len(),
        0 <= i < s.len(),
    ensures
        key(s[i]) <= i,
    decreases s.len() - i,
{
    if i < s.len() - 1 {
        lemma_keys_at_most(s, key, i + 1);
        assert(key(s[i]) < key(s[i + 1]));
    } else {
        assert(key(s[i]) < s.len());
    }
}

} // verus!
