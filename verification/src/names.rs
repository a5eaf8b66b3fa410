//! Lists of named entries: each name once, in ascending order.
use vstd::prelude::*;

use crate::order::{before, comes_before, lemma_before_total, lemma_before_transitive};
use crate::text::same;

verus! {

/// The names of some entries.
pub open spec fn keys<V>(m: Seq<(Seq<char>, V)>) -> Seq<Seq<char>> {
    m.map_values(|e: (Seq<char>, V)| e.0)
}

/// The names of some entries held as strings.
pub open spec fn names<V>(m: Seq<(String, V)>) -> Seq<Seq<char>> {
    m.map_values(|e: (String, V)| e.0@)
}

/// The position of the first name equal to `k`.
pub open spec fn key_pos(ks: Seq<Seq<char>>, k: Seq<char>) -> Option<nat>
    decreases ks.len(),
{
    if ks.len() == 0 {
        None
    } else if ks[0] == k {
        Some(0)
    } else {
        match key_pos(ks.drop_first(), k) {
            Some(i) => Some(i + 1),
            None => None,
        }
    }
}

/// `key_pos` is the first position of the name, where it occurs.
pub proof fn lemma_key_pos(ks: Seq<Seq<char>>, k: Seq<char>)
    ensures
        match key_pos(ks, k) {
            Some(i) => i < ks.len() && ks[i as int] == k && forall|j: int|
                0 <= j < i ==> ks[j] != k,
            None => forall|j: int| 0 <= j < ks.len() ==> ks[j] != k,
        },
    decreases ks.len(),
{
    if ks.len() > 0 && ks[0] != k {
        let t = ks.drop_first();
        lemma_key_pos(t, k);
        assert forall|j: int| 0 < j < ks.len() implies ks[j] == t[j - 1] by {}
    }
}

/// The place of a name that is not in the list: before the first greater one.
pub open spec fn place(ks: Seq<Seq<char>>, k: Seq<char>) -> nat
    decreases ks.len(),
{
    if ks.len() == 0 || before(k, ks[0], false) {
        0
    } else {
        1 + place(ks.drop_first(), k)
    }
}

/// `place` is the first position whose name comes after the given one.
pub proof fn lemma_place(ks: Seq<Seq<char>>, k: Seq<char>)
    ensures
        place(ks, k) <= ks.len(),
        forall|j: int| 0 <= j < place(ks, k) ==> !before(k, #[trigger] ks[j], false),
        place(ks, k) < ks.len() ==> before(k, ks[place(ks, k) as int], false),
    decreases ks.len(),
{
    if ks.len() > 0 && !before(k, ks[0], false) {
        let t = ks.drop_first();
        lemma_place(t, k);
        assert forall|j: int| 0 <= j < place(ks, k) implies !before(k, #[trigger] ks[j], false) by {
            if j > 0 {
                assert(ks[j] == t[j - 1]);
            }
        }
    }
}

proof fn lemma_place_is(ks: Seq<Seq<char>>, k: Seq<char>, p: nat)
    requires
        p <= ks.len(),
        forall|j: int| 0 <= j < p ==> !before(k, #[trigger] ks[j], false),
        p < ks.len() ==> before(k, ks[p as int], false),
    ensures
        place(ks, k) == p,
{
    lemma_place(ks, k);
    let q = place(ks, k);
    if q < p {
        assert(!before(k, ks[q as int], false));
    }
    if p < q {
        assert(!before(k, ks[p as int], false));
    }
}

/// The value under a name.
pub open spec fn lookup<V>(m: Seq<(Seq<char>, V)>, k: Seq<char>) -> Option<V> {
    match key_pos(keys(m), k) {
        Some(i) => Some(m[i as int].1),
        None => None,
    }
}

/// `m` with a value under a name: in the place of the old one, or put in where
/// the order wants it.
pub open spec fn put<V>(m: Seq<(Seq<char>, V)>, k: Seq<char>, v: V) -> Seq<(Seq<char>, V)> {
    match key_pos(keys(m), k) {
        Some(i) => m.update(i as int, (k, v)),
        None => m.insert(place(keys(m), k) as int, (k, v)),
    }
}

/// Every name comes before the next.
pub open spec fn is_ordered(ks: Seq<Seq<char>>) -> bool {
    forall|i: int, j: int| 0 <= i < j < ks.len() ==> before(#[trigger] ks[i], #[trigger] ks[j], false)
}

/// The position of an entry by its name.
pub fn find_entry<V>(m: &Vec<(String, V)>, key: &str) -> (r: Option<usize>)
    ensures
        match r {
            Some(i) => i < m@.len() && key_pos(names(m@), key@) == Some(i as nat),
            None => key_pos(names(m@), key@) is None,
        },
{
    let ghost ks = names(m@);
    let mut i: usize = 0;
    assert(ks.skip(0) =~= ks);
    while i < m.len()
        invariant
            i <= m.len(),
            ks == names(m@),
            forall|j: int| 0 <= j < i ==> ks[j] != key@,
        decreases m.len() - i,
    {
        assert(ks[i as int] == m@[i as int].0@);
        if same(m[i].0.as_str(), key) {
            proof {
                lemma_key_pos(ks, key@);
                let p = key_pos(ks, key@);
                assert(p is Some && p->0 == i) by {
                    if p is Some && p->0 != i {
                        assert(ks[p->0 as int] == key@);
                    }
                }
            }
            return Some(i);
        }
        i += 1;
    }
    proof {
        lemma_key_pos(ks, key@);
    }
    None
}

/// The place for an entry whose name is not in the list.
pub fn entry_place<V>(m: &Vec<(String, V)>, key: &str) -> (r: usize)
    ensures
        r <= m@.len(),
        r == place(names(m@), key@),
{
    let ghost ks = names(m@);
    let mut i: usize = 0;
    while i < m.len() && !comes_before(key, m[i].0.as_str(), false)
        invariant
            i <= m.len(),
            ks == names(m@),
            forall|j: int| 0 <= j < i ==> !before(key@, #[trigger] ks[j], false),
        decreases m.len() - i,
    {
        assert(ks[i as int] == m@[i as int].0@);
        i += 1;
    }
    proof {
        if i < m.len() {
            assert(ks[i as int] == m@[i as int].0@);
        }
        lemma_place_is(ks, key@, i as nat);
    }
    i
}

/// A value that was put under a name is found there, and the values under all
/// other names stay.
pub proof fn law_put_then_lookup<V>(m: Seq<(Seq<char>, V)>, k: Seq<char>, v: V, other: Seq<char>)
    ensures
        lookup(put(m, k, v), k) == Some(v),
        other != k ==> lookup(put(m, k, v), other) == lookup(m, other),
{
    let ks = keys(m);
    let r = put(m, k, v);
    let rs = keys(r);
    lemma_key_pos(ks, k);
    lemma_key_pos(ks, other);
    lemma_key_pos(rs, k);
    lemma_key_pos(rs, other);
    lemma_place(ks, k);
    match key_pos(ks, k) {
        Some(i) => {
            assert(rs =~= ks);
        },
        None => {
            let p = place(ks, k) as int;
            assert(rs =~= ks.insert(p, k));
            assert(rs[p] == k);
            if other != k {
                if let Some(i) = key_pos(ks, other) {
                    let at = if i < p {
                        i as int
                    } else {
                        i as int + 1
                    };
                    assert(rs[at] == other);
                    assert(r[at] == m[i as int]);
                    let q = key_pos(rs, other)->0 as int;
                    assert(q == at) by {
                        if q < at {
                            if q < p {
                                assert(ks[q] == other);
                            } else if q > p {
                                assert(ks[q - 1] == other);
                            }
                        }
                    }
                } else {
                    if let Some(q) = key_pos(rs, other) {
                        if q < p {
                            assert(ks[q as int] == other);
                        } else if q > p {
                            assert(ks[q - 1] == other);
                        }
                    }
                }
            }
        },
    }
}

/// Putting in a value keeps the names in order.
pub proof fn law_put_keeps_order<V>(m: Seq<(Seq<char>, V)>, k: Seq<char>, v: V)
    requires
        is_ordered(keys(m)),
    ensures
        is_ordered(keys(put(m, k, v))),
{
    let ks = keys(m);
    let rs = keys(put(m, k, v));
    lemma_key_pos(ks, k);
    lemma_place(ks, k);
    match key_pos(ks, k) {
        Some(i) => {
            assert(rs =~= ks);
        },
        None => {
            let p = place(ks, k) as int;
            assert(rs =~= ks.insert(p, k));
            assert forall|i: int, j: int| 0 <= i < j < rs.len() implies before(
                #[trigger] rs[i],
                #[trigger] rs[j],
                false,
            ) by {
                if j == p {
                    assert(rs[i] == ks[i]);
                    assert(!before(k, ks[i], false));
                    lemma_before_total(ks[i], k, false);
                } else if i == p {
                    assert(rs[j] == ks[j - 1]);
                    if j - 1 > p {
                        assert(before(ks[p], ks[j - 1], false));
                        lemma_before_transitive(k, ks[p], ks[j - 1], false);
                    }
                } else {
                    let a = if i < p {
                        i
                    } else {
                        i - 1
                    };
                    let b = if j < p {
                        j
                    } else {
                        j - 1
                    };
                    assert(rs[i] == ks[a] && rs[j] == ks[b]);
                }
            }
        },
    }
}

/// A name has the value of the first entry with that name; one that no entry has, has none.
pub proof fn law_lookup_finds_the_first<V>(m: Seq<(Seq<char>, V)>, k: Seq<char>, i: int)
    ensures
        0 <= i < m.len() && m[i].0 == k && (forall|j: int| 0 <= j < i ==> (#[trigger] m[j]).0 != k)
            ==> lookup(m, k) == Some(m[i].1),
        (forall|j: int| 0 <= j < m.len() ==> (#[trigger] m[j]).0 != k) ==> lookup(m, k) is None,
{
    let ks = keys(m);
    lemma_key_pos(ks, k);
    assert forall|j: int| 0 <= j < m.len() implies #[trigger] ks[j] == m[j].0 by {}
    if 0 <= i < m.len() && m[i].0 == k && (forall|j: int|
        0 <= j < i ==> (#[trigger] m[j]).0 != k) {
        assert(ks[i] == k);
        let p = key_pos(ks, k)->0;
        assert(m[p as int].0 == k);
    }
    if forall|j: int| 0 <= j < m.len() ==> (#[trigger] m[j]).0 != k {
        if let Some(p) = key_pos(ks, k) {
            assert(m[p as int].0 == k);
        }
    }
}

/// Recording under a name that is known changes the number of entries not at all, and under
/// a new one by one.
pub proof fn law_put_counts<V>(m: Seq<(Seq<char>, V)>, k: Seq<char>, v: V)
    ensures
        lookup(m, k) is Some ==> put(m, k, v).len() == m.len(),
        lookup(m, k) is None ==> put(m, k, v).len() == m.len() + 1,
{
    lemma_key_pos(keys(m), k);
    lemma_place(keys(m), k);
}

}
