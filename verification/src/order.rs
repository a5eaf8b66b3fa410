//! Lexicographic order of texts, and sorting by it.
use vstd::prelude::*;

use crate::text::{texts, to_chars};

verus! {

/// `c` is ordered before `d`: by code point, except that in paths the separator
/// comes before every other character, so that components compare one by one.
pub open spec fn char_before(c: char, d: char, by_path: bool) -> bool {
    if by_path && d == '/' {
        false
    } else {
        (by_path && c == '/') || c < d
    }
}

/// `a` comes strictly before `b`.
pub open spec fn before(a: Seq<char>, b: Seq<char>, by_path: bool) -> bool
    decreases a.len(),
{
    if b.len() == 0 {
        false
    } else if a.len() == 0 {
        true
    } else if a[0] == b[0] {
        before(a.drop_first(), b.drop_first(), by_path)
    } else {
        char_before(a[0], b[0], by_path)
    }
}

/// Nothing comes before itself.
pub proof fn lemma_before_irreflexive(a: Seq<char>, by_path: bool)
    ensures
        !before(a, a, by_path),
    decreases a.len(),
{
    if a.len() > 0 {
        lemma_before_irreflexive(a.drop_first(), by_path);
    }
}

/// The order is transitive.
pub proof fn lemma_before_transitive(a: Seq<char>, b: Seq<char>, c: Seq<char>, by_path: bool)
    requires
        before(a, b, by_path),
        before(b, c, by_path),
    ensures
        before(a, c, by_path),
    decreases a.len(),
{
    if a.len() > 0 && a[0] == b[0] && b[0] == c[0] {
        lemma_before_transitive(a.drop_first(), b.drop_first(), c.drop_first(), by_path);
    }
}

/// Of two different texts one comes before the other.
pub proof fn lemma_before_total(a: Seq<char>, b: Seq<char>, by_path: bool)
    ensures
        a == b || before(a, b, by_path) || before(b, a, by_path),
    decreases a.len(),
{
    if a.len() == 0 && b.len() == 0 {
        assert(a =~= b);
    } else if a.len() > 0 && b.len() > 0 && a[0] == b[0] {
        lemma_before_total(a.drop_first(), b.drop_first(), by_path);
        if a.drop_first() == b.drop_first() {
            assert(a =~= seq![a[0]] + a.drop_first());
            assert(b =~= seq![b[0]] + b.drop_first());
        }
    }
}

/// Whether `a` comes strictly before `b`.
pub fn comes_before(a: &str, b: &str, by_path: bool) -> (r: bool)
    ensures
        r == before(a@, b@, by_path),
{
    let x = to_chars(a);
    let y = to_chars(b);
    let mut i: usize = 0;
    assert(a@.skip(0) =~= a@ && b@.skip(0) =~= b@);
    loop
        invariant
            i <= x.len(),
            i <= y.len(),
            x@ == a@,
            y@ == b@,
            before(a@.skip(i as int), b@.skip(i as int), by_path) == before(a@, b@, by_path),
        decreases x.len() - i,
    {
        if i == y.len() {
            return false;
        }
        if i == x.len() {
            return true;
        }
        let ghost s = a@.skip(i as int);
        let ghost t = b@.skip(i as int);
        assert(s[0] == x@[i as int] && t[0] == y@[i as int]);
        if x[i] != y[i] {
            if by_path && x[i] == '/' {
                return true;
            }
            if by_path && y[i] == '/' {
                return false;
            }
            return x[i] < y[i];
        }
        assert(s.drop_first() =~= a@.skip(i + 1));
        assert(t.drop_first() =~= b@.skip(i + 1));
        i += 1;
    }
}

/// No text comes before one in front of it.
pub open spec fn is_sorted(v: Seq<Seq<char>>, by_path: bool) -> bool {
    forall|i: int, j: int|
        0 <= i < j < v.len() ==> !before(#[trigger] v[j], #[trigger] v[i], by_path)
}

/// The place of `s` in a sorted sequence, behind what equals it.
pub fn place_of(v: &Vec<String>, s: &str, by_path: bool) -> (k: usize)
    requires
        is_sorted(texts(v@), by_path),
    ensures
        k <= v@.len(),
        forall|i: int| 0 <= i < k ==> !before(s@, #[trigger] texts(v@)[i], by_path),
        forall|i: int| k <= i < v@.len() ==> before(s@, #[trigger] texts(v@)[i], by_path),
{
    let ghost t = texts(v@);
    let mut k: usize = v.len();
    while k > 0 && comes_before(s, v[k - 1].as_str(), by_path)
        invariant
            k <= v.len(),
            t == texts(v@),
            forall|i: int| k <= i < v@.len() ==> before(s@, #[trigger] t[i], by_path),
        decreases k,
    {
        assert(t[k - 1] == v@[k - 1]@);
        k -= 1;
    }
    proof {
        if k > 0 {
            assert(t[k - 1] == v@[k - 1]@);
            assert forall|i: int| 0 <= i < k implies !before(s@, #[trigger] t[i], by_path) by {
                if i < k - 1 && before(s@, t[i], by_path) {
                    lemma_before_total(t[i], t[k - 1], by_path);
                    if before(t[i], t[k - 1], by_path) {
                        lemma_before_transitive(s@, t[i], t[k - 1], by_path);
                    } else {
                        assert(!before(t[k - 1], t[i], by_path));
                    }
                }
            }
        }
    }
    k
}

/// Sorts texts; equal ones keep their order.
pub fn sort_strings(v: Vec<String>, by_path: bool) -> (r: Vec<String>)
    ensures
        is_sorted(texts(r@), by_path),
        texts(r@).to_multiset() =~= texts(v@).to_multiset(),
{
    let mut r: Vec<String> = Vec::new();
    let mut i: usize = 0;
    assert(texts(v@).take(0) =~= texts(r@));
    while i < v.len()
        invariant
            i <= v.len(),
            is_sorted(texts(r@), by_path),
            texts(r@).to_multiset() =~= texts(v@).take(i as int).to_multiset(),
        decreases v.len() - i,
    {
        let k: usize = place_of(&r, v[i].as_str(), by_path);
        let ghost old_t = texts(r@);
        let ghost s = v@[i as int]@;
        r.insert(k, v[i].clone());
        proof {
            let t = texts(r@);
            assert(t =~= old_t.insert(k as int, s));
            assert forall|a: int, b: int| 0 <= a < b < t.len() implies !before(
                #[trigger] t[b],
                #[trigger] t[a],
                by_path,
            ) by {
                if a == k {
                    assert(t[b] == old_t[b - 1]);
                    if before(t[b], s, by_path) {
                        lemma_before_transitive(s, t[b], s, by_path);
                        lemma_before_irreflexive(s, by_path);
                    }
                } else if b == k {
                    assert(t[a] == old_t[a]);
                } else {
                    let x = if a < k {
                        a
                    } else {
                        a - 1
                    };
                    let y = if b < k {
                        b
                    } else {
                        b - 1
                    };
                    assert(t[a] == old_t[x] && t[b] == old_t[y]);
                }
            }
            vstd::seq_lib::to_multiset_insert(old_t, k as int, s);
            vstd::seq_lib::to_multiset_build(texts(v@).take(i as int), s);
            assert(texts(v@).take(i + 1) =~= texts(v@).take(i as int).push(s));
        }
        i += 1;
    }
    assert(texts(v@).take(i as int) =~= texts(v@));
    r
}

/// Texts are ordered by the first character in which they differ, and one that only goes on
/// where the other ends comes behind it. In paths the separator comes before every other
/// character.
pub proof fn law_order(a: Seq<char>, b: Seq<char>, by_path: bool)
    ensures
        before(a, b, by_path) <==> exists|k: int|
            {
                &&& 0 <= k <= a.len()
                &&& k < b.len()
                &&& #[trigger] a.take(k) == b.take(k)
                &&& k == a.len() || (!by_path && a[k] < b[k]) || (by_path && a[k] != b[k] && b[k]
                    != '/' && (a[k] == '/' || a[k] < b[k]))
            },
    decreases a.len(),
{
    if b.len() == 0 {
    } else if a.len() == 0 {
        assert(a.take(0) =~= b.take(0));
    } else if a[0] == b[0] {
        let x = a.drop_first();
        let y = b.drop_first();
        law_order(x, y, by_path);
        if before(x, y, by_path) {
            let k = choose|k: int|
                {
                    &&& 0 <= k <= x.len()
                    &&& k < y.len()
                    &&& #[trigger] x.take(k) == y.take(k)
                    &&& k == x.len() || (!by_path && x[k] < y[k]) || (by_path && x[k] != y[k]
                        && y[k] != '/' && (x[k] == '/' || x[k] < y[k]))
                };
            assert(a.take(k + 1) =~= seq![a[0]] + x.take(k));
            assert(b.take(k + 1) =~= seq![b[0]] + y.take(k));
            assert(a.take(k + 1) == b.take(k + 1));
        }
        if exists|k: int|
            {
                &&& 0 <= k <= a.len()
                &&& k < b.len()
                &&& #[trigger] a.take(k) == b.take(k)
                &&& k == a.len() || (!by_path && a[k] < b[k]) || (by_path && a[k] != b[k] && b[k]
                    != '/' && (a[k] == '/' || a[k] < b[k]))
            } {
            let k = choose|k: int|
                {
                    &&& 0 <= k <= a.len()
                    &&& k < b.len()
                    &&& #[trigger] a.take(k) == b.take(k)
                    &&& k == a.len() || (!by_path && a[k] < b[k]) || (by_path && a[k] != b[k]
                        && b[k] != '/' && (a[k] == '/' || a[k] < b[k]))
                };
            assert(k > 0);
            assert(x.take(k - 1) =~= a.take(k).skip(1));
            assert(y.take(k - 1) =~= b.take(k).skip(1));
            assert(x.take(k - 1) == y.take(k - 1));
        }
    } else {
        assert(a.take(0) =~= b.take(0));
        if exists|k: int|
            {
                &&& 0 <= k <= a.len()
                &&& k < b.len()
                &&& #[trigger] a.take(k) == b.take(k)
                &&& k == a.len() || (!by_path && a[k] < b[k]) || (by_path && a[k] != b[k] && b[k]
                    != '/' && (a[k] == '/' || a[k] < b[k]))
            } {
            let k = choose|k: int|
                {
                    &&& 0 <= k <= a.len()
                    &&& k < b.len()
                    &&& #[trigger] a.take(k) == b.take(k)
                    &&& k == a.len() || (!by_path && a[k] < b[k]) || (by_path && a[k] != b[k]
                        && b[k] != '/' && (a[k] == '/' || a[k] < b[k]))
                };
            if k > 0 {
                assert(a.take(k)[0] == a[0] && b.take(k)[0] == b[0]);
            }
        }
    }
}

/// In a sorted sequence every text is the same as each behind it or comes before it.
pub proof fn law_sorted(v: Seq<Seq<char>>, by_path: bool)
    ensures
        is_sorted(v, by_path) <==> forall|i: int, j: int|
            0 <= i < j < v.len() ==> #[trigger] v[i] == #[trigger] v[j] || before(
                v[i],
                v[j],
                by_path,
            ),
{
    if is_sorted(v, by_path) {
        assert forall|i: int, j: int| 0 <= i < j < v.len() implies #[trigger] v[i]
            == #[trigger] v[j] || before(v[i], v[j], by_path) by {
            lemma_before_total(v[i], v[j], by_path);
            assert(!before(v[j], v[i], by_path));
        }
    }
    if forall|i: int, j: int|
        0 <= i < j < v.len() ==> #[trigger] v[i] == #[trigger] v[j] || before(
            v[i],
            v[j],
            by_path,
        ) {
        assert forall|i: int, j: int| 0 <= i < j < v.len() implies !before(
            #[trigger] v[j],
            #[trigger] v[i],
            by_path,
        ) by {
            if before(v[j], v[i], by_path) {
                if v[i] == v[j] {
                    lemma_before_irreflexive(v[i], by_path);
                } else {
                    lemma_before_transitive(v[i], v[j], v[i], by_path);
                    lemma_before_irreflexive(v[i], by_path);
                }
            }
        }
    }
}

}
