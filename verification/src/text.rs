//! Text as sequences of characters: the operations every plugin needs, each
//! with a functional model over `Seq<char>`.
use vstd::prelude::*;
use vstd::utf8::{
    decode_utf8, encode_utf8, encode_utf8_decode_utf8, encode_utf8_valid_utf8, valid_utf8,
};

verus! {

/// `String::push` appends one character at the end.
pub assume_specification[ String::push ](s: &mut String, c: char)
    ensures
        final(s)@ == old(s)@.push(c),
;

/// `==` on string slices holds exactly when both hold the same characters.
pub assume_specification[ <str as PartialEq>::eq ](s: &str, other: &str) -> (r: bool)
    ensures
        r == (s@ == other@),
;

/// The characters of each string, in order.
pub open spec fn texts(v: Seq<String>) -> Seq<Seq<char>> {
    v.map_values(|s: String| s@)
}

/// The characters of each string slice, in order.
pub open spec fn views(v: Seq<&str>) -> Seq<Seq<char>> {
    v.map_values(|s: &str| s@)
}

/// The characters of an optional string.
pub open spec fn opt_text(v: Option<String>) -> Option<Seq<char>> {
    match v {
        Some(s) => Some(s@),
        None => None,
    }
}

/// The characters of an optional string slice.
pub open spec fn opt_view(v: Option<&str>) -> Option<Seq<char>> {
    match v {
        Some(s) => Some(s@),
        None => None,
    }
}

/// Equality of two string slices.
pub fn same(a: &str, b: &str) -> (r: bool)
    ensures
        r == (a@ == b@),
{
    *a == *b
}

/// The characters of a string slice as a vector.
pub fn to_chars(s: &str) -> (v: Vec<char>)
    ensures
        v@ == s@,
{
    let mut v: Vec<char> = Vec::new();
    for c in it: s.chars()
        invariant
            v@ == s@.take(it.index()),
            it.seq() == s@,
    {
        v.push(c);
    }
    assert(s@.take(s@.len() as int) == s@);
    v
}

/// The string that holds the characters of a slice.
pub fn from_chars(cs: &[char]) -> (s: String)
    ensures
        s@ == cs@,
{
    let mut s = String::new();
    let mut i: usize = 0;
    while i < cs.len()
        invariant
            i <= cs.len(),
            s@ == cs@.take(i as int),
        decreases cs.len() - i,
    {
        s.push(cs[i]);
        i += 1;
        assert(cs@.take(i as int) == cs@.take(i - 1).push(cs@[i - 1]));
    }
    assert(cs@.take(cs@.len() as int) == cs@);
    s
}

/// Unicode `White_Space`.
pub open spec fn is_space(c: char) -> bool {
    let n = c as u32;
    ||| 0x9 <= n <= 0xd
    ||| n == 0x20
    ||| n == 0x85
    ||| n == 0xa0
    ||| n == 0x1680
    ||| 0x2000 <= n <= 0x200a
    ||| n == 0x2028
    ||| n == 0x2029
    ||| n == 0x202f
    ||| n == 0x205f
    ||| n == 0x3000
}

/// Whether a character has the Unicode property `White_Space`.
pub fn is_whitespace(c: char) -> (r: bool)
    ensures
        r == is_space(c),
{
    let n: u32 = c as u32;
    (0x9 <= n && n <= 0xd) || n == 0x20 || n == 0x85 || n == 0xa0 || n == 0x1680 || (0x2000 <= n
        && n <= 0x200a) || n == 0x2028 || n == 0x2029 || n == 0x202f || n == 0x205f || n == 0x3000
}

/// `s` without its leading white space.
pub open spec fn trim_start(s: Seq<char>) -> Seq<char>
    decreases s.len(),
{
    if s.len() > 0 && is_space(s[0]) {
        trim_start(s.drop_first())
    } else {
        s
    }
}

/// `s` without its trailing white space.
pub open spec fn trim_end(s: Seq<char>) -> Seq<char>
    decreases s.len(),
{
    if s.len() > 0 && is_space(s.last()) {
        trim_end(s.drop_last())
    } else {
        s
    }
}

/// `s` without white space at either end.
pub open spec fn trim(s: Seq<char>) -> Seq<char> {
    trim_end(trim_start(s))
}

/// Removes leading white space.
pub fn str_trim_start<'a>(s: &'a str) -> (r: &'a str)
    ensures
        r@ == trim_start(s@),
{
    let cs = to_chars(s);
    let mut i: usize = 0;
    assert(s@.skip(0) == s@);
    while i < cs.len() && is_whitespace(cs[i])
        invariant
            i <= cs.len(),
            cs@ == s@,
            trim_start(s@.skip(i as int)) == trim_start(s@),
        decreases cs.len() - i,
    {
        assert(s@.skip(i as int).drop_first() == s@.skip(i + 1));
        i += 1;
    }
    assert(s@.subrange(i as int, s@.len() as int) == s@.skip(i as int));
    s.substring_char(i, cs.len())
}

/// Removes trailing white space.
pub fn str_trim_end<'a>(s: &'a str) -> (r: &'a str)
    ensures
        r@ == trim_end(s@),
{
    let cs = to_chars(s);
    let mut n: usize = cs.len();
    assert(s@.take(s@.len() as int) == s@);
    while n > 0 && is_whitespace(cs[n - 1])
        invariant
            n <= cs.len(),
            cs@ == s@,
            trim_end(s@.take(n as int)) == trim_end(s@),
        decreases n,
    {
        assert(s@.take(n as int).drop_last() == s@.take(n - 1));
        n -= 1;
    }
    assert(s@.subrange(0, n as int) == s@.take(n as int));
    s.substring_char(0, n)
}

/// Removes white space at both ends.
pub fn str_trim<'a>(s: &'a str) -> (r: &'a str)
    ensures
        r@ == trim(s@),
{
    str_trim_end(str_trim_start(s))
}

/// Position of the first `c` in `s`, or the length of `s` when there is none.
pub open spec fn char_pos(s: Seq<char>, c: char) -> nat
    decreases s.len(),
{
    if s.len() == 0 || s[0] == c {
        0
    } else {
        1 + char_pos(s.drop_first(), c)
    }
}

/// `char_pos` is the only position with nothing equal before it and `c` at it.
pub proof fn lemma_char_pos(s: Seq<char>, c: char)
    ensures
        char_pos(s, c) <= s.len(),
        forall|j: int| 0 <= j < char_pos(s, c) ==> s[j] != c,
        char_pos(s, c) < s.len() ==> s[char_pos(s, c) as int] == c,
    decreases s.len(),
{
    if s.len() == 0 || s[0] == c {
    } else {
        let t = s.drop_first();
        lemma_char_pos(t, c);
        assert forall|j: int| 0 <= j < char_pos(s, c) implies s[j] != c by {
            if j > 0 {
                assert(s[j] == t[j - 1]);
            }
        }
    }
}

/// A position with no `c` before it that ends `s` or holds `c` is `char_pos`.
pub proof fn lemma_char_pos_is(s: Seq<char>, c: char, p: nat)
    requires
        p <= s.len(),
        forall|j: int| 0 <= j < p ==> s[j] != c,
        p < s.len() ==> s[p as int] == c,
    ensures
        char_pos(s, c) == p,
{
    lemma_char_pos(s, c);
    let q = char_pos(s, c);
    if q < p {
        assert(s[q as int] == c);
    }
    if p < q {
        assert(s[p as int] != c);
    }
}

/// Position of the first `c` at or after `from`, or the length.
pub fn pos_from(cs: &[char], c: char, from: usize) -> (p: usize)
    requires
        from <= cs@.len(),
    ensures
        from <= p <= cs@.len(),
        p - from == char_pos(cs@.skip(from as int), c),
{
    let mut p: usize = from;
    while p < cs.len() && cs[p] != c
        invariant
            from <= p <= cs@.len(),
            forall|j: int| from <= j < p ==> cs@[j] != c,
        decreases cs.len() - p,
    {
        p += 1;
    }
    proof {
        let t = cs@.skip(from as int);
        assert forall|j: int| 0 <= j < p - from implies t[j] != c by {
            assert(t[j] == cs@[from + j]);
        }
        if p < cs@.len() {
            assert(t[p - from] == cs@[p as int]);
        }
        lemma_char_pos_is(t, c, (p - from) as nat);
    }
    p
}

/// Whether `s` starts with `p`.
pub open spec fn starts_with(s: Seq<char>, p: Seq<char>) -> bool {
    p.len() <= s.len() && s.take(p.len() as int) == p
}

/// Whether `s` ends with `p`.
pub open spec fn ends_with(s: Seq<char>, p: Seq<char>) -> bool {
    p.len() <= s.len() && s.skip(s.len() - p.len()) == p
}

/// Whether the characters from `at` on start with `p`.
pub fn matches_at(cs: &[char], at: usize, p: &[char]) -> (r: bool)
    requires
        at <= cs@.len(),
    ensures
        r == starts_with(cs@.skip(at as int), p@),
{
    if p.len() > cs.len() - at {
        return false;
    }
    let ghost t = cs@.skip(at as int);
    let mut i: usize = 0;
    while i < p.len()
        invariant
            i <= p@.len() <= t.len(),
            at + p@.len() <= cs.len(),
            t == cs@.skip(at as int),
            forall|j: int| 0 <= j < i ==> t[j] == p@[j],
        decreases p.len() - i,
    {
        if cs[at + i] != p[i] {
            assert(t.take(p@.len() as int)[i as int] == t[i as int]);
            return false;
        }
        i += 1;
    }
    assert(t.take(p@.len() as int) == p@);
    true
}

/// Whether `s` starts with `p`.
pub fn str_starts_with(s: &str, p: &str) -> (r: bool)
    ensures
        r == starts_with(s@, p@),
{
    let cs = to_chars(s);
    let ps = to_chars(p);
    assert(s@.skip(0) == s@);
    matches_at(&cs, 0, &ps)
}

/// Whether `s` ends with `p`.
pub fn str_ends_with(s: &str, p: &str) -> (r: bool)
    ensures
        r == ends_with(s@, p@),
{
    let cs = to_chars(s);
    let ps = to_chars(p);
    if ps.len() > cs.len() {
        return false;
    }
    proof {
        let t = s@.skip(s@.len() - p@.len());
        assert(t.take(p@.len() as int) == t);
    }
    matches_at(&cs, cs.len() - ps.len(), &ps)
}

/// What follows `p` in `s`, when `s` starts with `p`.
pub open spec fn strip_prefix(s: Seq<char>, p: Seq<char>) -> Option<Seq<char>> {
    if starts_with(s, p) {
        Some(s.skip(p.len() as int))
    } else {
        None
    }
}

/// What follows `p` in `s`, when `s` starts with `p`.
pub fn str_strip_prefix<'a>(s: &'a str, p: &str) -> (r: Option<&'a str>)
    ensures
        opt_view(r) == strip_prefix(s@, p@),
{
    if str_starts_with(s, p) {
        let n: usize = s.unicode_len();
        let k: usize = p.unicode_len();
        assert(s@.subrange(k as int, n as int) == s@.skip(k as int));
        Some(s.substring_char(k, n))
    } else {
        None
    }
}

/// The parts of `s` before and after its first `c`.
pub open spec fn split_once(s: Seq<char>, c: char) -> Option<(Seq<char>, Seq<char>)> {
    let p = char_pos(s, c);
    if p < s.len() {
        Some((s.take(p as int), s.skip(p as int + 1)))
    } else {
        None
    }
}

/// The parts of `s` before and after its first `c`.
pub fn str_split_once<'a>(s: &'a str, c: char) -> (r: Option<(&'a str, &'a str)>)
    ensures
        match r {
            Some((a, b)) => split_once(s@, c) == Some((a@, b@)),
            None => split_once(s@, c) is None,
        },
{
    let cs = to_chars(s);
    assert(s@.skip(0) == s@);
    let p: usize = pos_from(&cs, c, 0);
    if p < cs.len() {
        assert(s@.subrange(0, p as int) == s@.take(p as int));
        assert(s@.subrange(p + 1, s@.len() as int) == s@.skip(p + 1));
        Some((s.substring_char(0, p), s.substring_char(p + 1, cs.len())))
    } else {
        None
    }
}

/// `s` without one trailing carriage return.
pub open spec fn strip_cr(s: Seq<char>) -> Seq<char> {
    if s.len() > 0 && s.last() == '\r' {
        s.drop_last()
    } else {
        s
    }
}

/// The lines of a text: each ends at a line feed, which is dropped with the
/// carriage return before it; text after the last line feed is a line as it is.
pub open spec fn lines(s: Seq<char>) -> Seq<Seq<char>>
    decreases s.len(),
{
    if s.len() == 0 {
        Seq::empty()
    } else {
        let p = char_pos(s, '\n');
        if p >= s.len() {
            seq![s]
        } else {
            seq![strip_cr(s.take(p as int))] + lines(s.skip(p as int + 1))
        }
    }
}

/// The lines of a text.
pub fn str_lines<'a>(s: &'a str) -> (v: Vec<&'a str>)
    ensures
        views(v@) == lines(s@),
{
    let cs = to_chars(s);
    let mut v: Vec<&'a str> = Vec::new();
    let mut i: usize = 0;
    assert(s@.skip(0) == s@);
    assert(views(v@) + lines(s@) == lines(s@));
    while i < cs.len()
        invariant
            i <= cs.len(),
            cs@ == s@,
            views(v@) + lines(s@.skip(i as int)) == lines(s@),
        decreases cs.len() - i,
    {
        let ghost t = s@.skip(i as int);
        let ghost before = v@;
        let p: usize = pos_from(&cs, '\n', i);
        if p >= cs.len() {
            assert(s@.subrange(i as int, p as int) == t);
            v.push(s.substring_char(i, p));
            assert(views(v@) == views(before).push(t));
            assert(views(before) + seq![t] == views(before).push(t));
            return v;
        }
        let mut e: usize = p;
        if p > i && cs[p - 1] == '\r' {
            e = p - 1;
        }
        assert(t.take(p - i) == s@.subrange(i as int, p as int));
        assert(s@.subrange(i as int, e as int) == strip_cr(t.take(p - i)));
        assert(t.skip(p - i + 1) == s@.skip(p + 1));
        v.push(s.substring_char(i, e));
        i = p + 1;
        proof {
            assert(lines(t) == seq![v@.last()@] + lines(s@.skip(i as int)));
            assert(views(v@) == views(before).push(v@.last()@));
            assert(views(v@) + lines(s@.skip(i as int)) == views(before) + (seq![v@.last()@]
                + lines(s@.skip(i as int))));
        }
    }
    assert(s@.skip(i as int).len() == 0);
    assert(views(v@) + lines(s@.skip(i as int)) == views(v@));
    v
}

/// A letter in lower case, where it is one of the 26 capital letters.
pub open spec fn lower_char(c: char) -> char {
    if 'A' <= c && c <= 'Z' {
        ((c as u32) + 32) as char
    } else {
        c
    }
}

/// A text with its 26 capital letters in lower case.
pub open spec fn lower(s: Seq<char>) -> Seq<char> {
    s.map_values(|c: char| lower_char(c))
}

/// A text with its 26 capital letters in lower case.
pub fn to_lower(s: &str) -> (r: String)
    ensures
        r@ == lower(s@),
{
    let cs = to_chars(s);
    let mut out = String::new();
    let mut i: usize = 0;
    assert(out@ =~= lower(s@).take(0));
    while i < cs.len()
        invariant
            i <= cs.len(),
            cs@ == s@,
            out@ == lower(s@).take(i as int),
        decreases cs.len() - i,
    {
        let c = cs[i];
        let d: char = if 'A' <= c && c <= 'Z' {
            (c as u8 + 32) as char
        } else {
            c
        };
        out.push(d);
        assert(lower(s@).take(i + 1) =~= lower(s@).take(i as int).push(lower(s@)[i as int]));
        i += 1;
    }
    assert(lower(s@).take(i as int) =~= lower(s@));
    out
}

/// Whether a text holds none but the first 128 characters.
pub open spec fn is_ascii_text(s: Seq<char>) -> bool {
    forall|i: int| 0 <= i < s.len() ==> (#[trigger] s[i] as u32) < 128
}

/// What `str::to_lowercase` makes of a text.
pub uninterp spec fn lowercase(s: Seq<char>) -> Seq<char>;

/// A text in lower case: letter by letter where it is ASCII, else as
/// `str::to_lowercase` has it.
pub open spec fn lowered(s: Seq<char>) -> Seq<char> {
    if is_ascii_text(s) {
        lower(s)
    } else {
        lowercase(s)
    }
}

/// Lower-cases a text with `str::to_lowercase`. Claimed: the result is a
/// function of the text, and of a text of the first 128 characters it is the text with
/// its 26 capital letters in lower case.
#[verifier::external_body]
fn unicode_lowercase(s: &str) -> (r: String)
    ensures
        r@ == lowercase(s@),
        is_ascii_text(s@) ==> r@ == lower(s@),
{
    s.to_lowercase()
}

/// A text in lower case.
pub fn str_to_lowercase(s: &str) -> (r: String)
    ensures
        r@ == lowered(s@),
{
    unicode_lowercase(s)
}

/// What `String::from_utf8_lossy` makes of some bytes.
pub uninterp spec fn lossy_text(bytes: Seq<u8>) -> Seq<char>;

/// The text of some bytes: the one they encode, or where they encode none, the one that
/// `String::from_utf8_lossy` makes of them.
pub open spec fn bytes_text(bytes: Seq<u8>) -> Seq<char> {
    if valid_utf8(bytes) {
        decode_utf8(bytes)
    } else {
        lossy_text(bytes)
    }
}

/// Reads bytes as text with `String::from_utf8_lossy`. Claimed: the result is a function
/// of the bytes, and of valid UTF-8 it is the text that the bytes encode.
#[verifier::external_body]
fn utf8_lossy(bytes: &[u8]) -> (r: String)
    ensures
        r@ == lossy_text(bytes@),
        valid_utf8(bytes@) ==> r@ == decode_utf8(bytes@),
{
    String::from_utf8_lossy(bytes).into_owned()
}

/// Reads bytes as text; what is not UTF-8 is replaced.
pub fn text_from_bytes(bytes: &[u8]) -> (r: String)
    ensures
        r@ == bytes_text(bytes@),
{
    utf8_lossy(bytes)
}

/// The bytes of a text are read as that text.
pub proof fn law_bytes_give_their_text(s: Seq<char>)
    ensures
        bytes_text(encode_utf8(s)) == s,
{
    encode_utf8_valid_utf8(s);
    encode_utf8_decode_utf8(s);
}

/// Position of the first occurrence of `p` in `s`.
pub open spec fn find(s: Seq<char>, p: Seq<char>) -> Option<nat>
    decreases s.len(),
{
    if starts_with(s, p) {
        Some(0)
    } else if s.len() == 0 {
        None
    } else {
        match find(s.drop_first(), p) {
            Some(k) => Some(k + 1),
            None => None,
        }
    }
}

/// Whether `p` occurs in `s`.
pub open spec fn contains(s: Seq<char>, p: Seq<char>) -> bool {
    find(s, p) is Some
}

/// Where `find` finds `p`, `p` stands, and nowhere before.
pub proof fn lemma_find(s: Seq<char>, p: Seq<char>)
    ensures
        match find(s, p) {
            Some(k) => k + p.len() <= s.len() && starts_with(s.skip(k as int), p) && forall|j: int|
                0 <= j < k ==> !starts_with(#[trigger] s.skip(j), p),
            None => forall|j: int| 0 <= j <= s.len() ==> !starts_with(#[trigger] s.skip(j), p),
        },
    decreases s.len(),
{
    assert(s.skip(0) == s);
    if !starts_with(s, p) && s.len() > 0 {
        let t = s.drop_first();
        lemma_find(t, p);
        assert forall|j: int| 0 < j <= s.len() implies s.skip(j) == t.skip(j - 1) by {
            assert(s.skip(j) =~= t.skip(j - 1));
        }
    }
}

/// A position where `p` stands, and nowhere before, is what `find` finds.
pub proof fn lemma_find_is(s: Seq<char>, p: Seq<char>, k: nat)
    requires
        k <= s.len(),
        starts_with(s.skip(k as int), p),
        forall|j: int| 0 <= j < k ==> !starts_with(#[trigger] s.skip(j), p),
    ensures
        find(s, p) == Some(k),
{
    lemma_find(s, p);
    assert(starts_with(s.skip(k as int), p));
}

/// An occurrence of `p` in `s` shows that `s` contains it.
pub proof fn lemma_contains_at(s: Seq<char>, p: Seq<char>, k: int)
    requires
        0 <= k <= s.len(),
        starts_with(s.skip(k), p),
    ensures
        contains(s, p),
{
    lemma_find(s, p);
}

/// Position of the first occurrence of `p` at or after `from`.
pub fn find_from(cs: &[char], p: &[char], from: usize) -> (r: Option<usize>)
    requires
        from <= cs@.len(),
    ensures
        match r {
            Some(k) => from <= k && k + p@.len() <= cs@.len() && find(cs@.skip(from as int), p@)
                == Some((k - from) as nat),
            None => find(cs@.skip(from as int), p@) is None,
        },
{
    let ghost t = cs@.skip(from as int);
    let mut k: usize = from;
    loop
        invariant
            from <= k <= cs.len(),
            t == cs@.skip(from as int),
            forall|j: int| 0 <= j < k - from ==> !starts_with(#[trigger] t.skip(j), p@),
        decreases cs.len() - k,
    {
        assert(t.skip(k - from) =~= cs@.skip(k as int));
        if matches_at(cs, k, p) {
            proof {
                lemma_find_is(t, p@, (k - from) as nat);
                lemma_find(t, p@);
            }
            return Some(k);
        }
        if k == cs.len() {
            proof {
                lemma_find(t, p@);
            }
            return None;
        }
        k += 1;
    }
}

/// Whether `p` occurs in `s`.
pub fn str_contains(s: &str, p: &str) -> (r: bool)
    ensures
        r == contains(s@, p@),
{
    let cs = to_chars(s);
    let ps = to_chars(p);
    assert(s@.skip(0) == s@);
    find_from(&cs, &ps, 0).is_some()
}

/// The texts with `sep` between each two.
pub open spec fn join(v: Seq<Seq<char>>, sep: Seq<char>) -> Seq<char>
    decreases v.len(),
{
    if v.len() == 0 {
        Seq::empty()
    } else if v.len() == 1 {
        v[0]
    } else {
        join(v.drop_last(), sep) + sep + v.last()
    }
}

/// Joins strings with a separator.
pub fn join_strings(v: &Vec<String>, sep: &str) -> (r: String)
    ensures
        r@ == join(texts(v@), sep@),
{
    let mut out = String::new();
    let mut i: usize = 0;
    let ghost t = texts(v@);
    assert(t.take(0).len() == 0);
    while i < v.len()
        invariant
            i <= v.len(),
            t == texts(v@),
            out@ == join(t.take(i as int), sep@),
        decreases v.len() - i,
    {
        let ghost before = out@;
        if i > 0 {
            out.append(sep);
        }
        out.append(v[i].as_str());
        proof {
            assert(t.take(i + 1).drop_last() =~= t.take(i as int));
            assert(t.take(i + 1).last() == v@[i as int]@);
            if i == 0 {
                assert(before + v@[0]@ =~= v@[0]@);
            }
        }
        i += 1;
    }
    assert(t.take(i as int) =~= t);
    out
}

/// Joins string slices with a separator.
pub fn join_strs(v: &Vec<&str>, sep: &str) -> (r: String)
    ensures
        r@ == join(views(v@), sep@),
{
    let mut out = String::new();
    let mut i: usize = 0;
    let ghost t = views(v@);
    assert(t.take(0).len() == 0);
    while i < v.len()
        invariant
            i <= v.len(),
            t == views(v@),
            out@ == join(t.take(i as int), sep@),
        decreases v.len() - i,
    {
        let ghost before = out@;
        if i > 0 {
            out.append(sep);
        }
        out.append(v[i]);
        proof {
            assert(t.take(i + 1).drop_last() =~= t.take(i as int));
            assert(t.take(i + 1).last() == v@[i as int]@);
            if i == 0 {
                assert(before + v@[0]@ =~= v@[0]@);
            }
        }
        i += 1;
    }
    assert(t.take(i as int) =~= t);
    out
}

/// Whether a text is among some strings.
pub fn has_text(v: &Vec<String>, s: &str) -> (r: bool)
    ensures
        r == texts(v@).contains(s@),
{
    let mut i: usize = 0;
    while i < v.len()
        invariant
            i <= v.len(),
            forall|j: int| 0 <= j < i ==> texts(v@)[j] != s@,
        decreases v.len() - i,
    {
        if same(v[i].as_str(), s) {
            assert(texts(v@)[i as int] == s@);
            return true;
        }
        i += 1;
    }
    false
}

/// A copy of some strings.
pub fn clone_strings(v: &Vec<String>) -> (r: Vec<String>)
    ensures
        texts(r@) == texts(v@),
{
    let mut r: Vec<String> = Vec::new();
    let mut i: usize = 0;
    while i < v.len()
        invariant
            i <= v.len(),
            r@ =~= v@.take(i as int),
        decreases v.len() - i,
    {
        r.push(v[i].clone());
        i += 1;
    }
    assert(v@.take(i as int) =~= v@);
    r
}

/// The pieces of `s` between its `c`s; one piece where there is no `c`.
pub open spec fn split(s: Seq<char>, c: char) -> Seq<Seq<char>>
    decreases s.len(),
{
    let p = char_pos(s, c);
    if p >= s.len() {
        seq![s]
    } else {
        seq![s.take(p as int)] + split(s.skip(p as int + 1), c)
    }
}

/// The pieces of `s` between its `c`s.
pub fn str_split<'a>(s: &'a str, c: char) -> (v: Vec<&'a str>)
    ensures
        views(v@) == split(s@, c),
{
    let cs = to_chars(s);
    let mut v: Vec<&'a str> = Vec::new();
    let mut i: usize = 0;
    assert(s@.skip(0) == s@);
    assert(views(v@) + split(s@, c) == split(s@, c));
    loop
        invariant
            i <= cs.len(),
            cs@ == s@,
            views(v@) + split(s@.skip(i as int), c) == split(s@, c),
        decreases cs.len() - i,
    {
        let ghost t = s@.skip(i as int);
        let ghost before = v@;
        let p: usize = pos_from(&cs, c, i);
        assert(s@.subrange(i as int, p as int) =~= t.take(p - i));
        v.push(s.substring_char(i, p));
        assert(views(v@) =~= views(before).push(t.take(p - i)));
        if p >= cs.len() {
            assert(t.take(p - i) =~= t);
            assert(views(before) + seq![t] =~= views(before).push(t));
            return v;
        }
        assert(t.skip(p - i + 1) =~= s@.skip(p + 1));
        assert(views(before) + (seq![t.take(p - i)] + split(s@.skip(p + 1), c)) =~= views(
            before,
        ).push(t.take(p - i)) + split(s@.skip(p + 1), c));
        i = p + 1;
    }
}

/// The pieces without white space at their ends, and without the empty ones.
pub open spec fn trimmed_nonempty(v: Seq<Seq<char>>) -> Seq<Seq<char>>
    decreases v.len(),
{
    if v.len() == 0 {
        Seq::empty()
    } else {
        let r = trimmed_nonempty(v.drop_last());
        let t = trim(v.last());
        if t.len() == 0 {
            r
        } else {
            r.push(t)
        }
    }
}

/// The pieces without white space at their ends, and without the empty ones.
pub fn keep_nonempty(v: &Vec<&str>) -> (r: Vec<String>)
    ensures
        texts(r@) == trimmed_nonempty(views(v@)),
{
    let ghost all = views(v@);
    let mut r: Vec<String> = Vec::new();
    let mut i: usize = 0;
    assert(all.take(0).len() == 0);
    assert(texts(r@) =~= trimmed_nonempty(all.take(0)));
    while i < v.len()
        invariant
            i <= v.len(),
            all == views(v@),
            texts(r@) == trimmed_nonempty(all.take(i as int)),
        decreases v.len() - i,
    {
        let ghost before = r@;
        proof {
            assert(all.take(i + 1).drop_last() =~= all.take(i as int));
            assert(all.take(i + 1).last() == v@[i as int]@);
        }
        let t = str_trim(v[i]);
        if !t.is_empty() {
            r.push(t.to_owned());
            assert(texts(r@) =~= texts(before).push(t@));
        }
        i += 1;
    }
    assert(all.take(i as int) =~= all);
    r
}

/// At most the first `n` characters.
pub open spec fn clip(s: Seq<char>, n: nat) -> Seq<char> {
    if s.len() <= n {
        s
    } else {
        s.take(n as int)
    }
}

/// At most the first `n` characters.
pub fn str_clip<'a>(s: &'a str, n: usize) -> (r: &'a str)
    ensures
        r@ == clip(s@, n as nat),
{
    let len: usize = s.unicode_len();
    if len <= n {
        s
    } else {
        assert(s@.subrange(0, n as int) =~= s@.take(n as int));
        s.substring_char(0, n)
    }
}

/// `v`, or a fallback where it is empty.
pub open spec fn or_else(v: Seq<char>, fallback: Seq<char>) -> Seq<char> {
    if v.len() == 0 {
        fallback
    } else {
        v
    }
}

/// `v`, or a fallback where it is empty.
pub fn non_empty_or(v: &str, fallback: &str) -> (r: String)
    ensures
        r@ == or_else(v@, fallback@),
{
    if v.is_empty() {
        fallback.to_owned()
    } else {
        v.to_owned()
    }
}

/// `s` without a prefix, as often as it has it.
pub open spec fn strip_all(s: Seq<char>, p: Seq<char>) -> Seq<char>
    decreases s.len(),
{
    if p.len() > 0 && starts_with(s, p) {
        strip_all(s.skip(p.len() as int), p)
    } else {
        s
    }
}

/// `s` without a prefix, as often as it has it.
pub fn str_strip_all<'a>(s: &'a str, p: &str) -> (r: &'a str)
    requires
        p@.len() > 0,
    ensures
        r@ == strip_all(s@, p@),
{
    let cs = to_chars(s);
    let ps = to_chars(p);
    let mut i: usize = 0;
    assert(s@.skip(0) =~= s@);
    while matches_at(&cs, i, &ps)
        invariant
            i <= cs.len(),
            cs@ == s@,
            ps@ == p@,
            p@.len() > 0,
            strip_all(s@.skip(i as int), p@) == strip_all(s@, p@),
        decreases cs.len() - i,
    {
        assert(s@.skip(i as int).skip(p@.len() as int) =~= s@.skip(i + p@.len()));
        i += ps.len();
    }
    assert(s@.subrange(i as int, s@.len() as int) =~= s@.skip(i as int));
    s.substring_char(i, cs.len())
}

/// `s` without the `c`s at its end.
pub open spec fn trim_end_char(s: Seq<char>, c: char) -> Seq<char>
    decreases s.len(),
{
    if s.len() > 0 && s.last() == c {
        trim_end_char(s.drop_last(), c)
    } else {
        s
    }
}

/// Removes the `c`s at the end of a text.
pub fn str_trim_end_char<'a>(s: &'a str, c: char) -> (r: &'a str)
    ensures
        r@ == trim_end_char(s@, c),
{
    let cs = to_chars(s);
    let mut n: usize = cs.len();
    assert(s@.take(s@.len() as int) =~= s@);
    while n > 0 && cs[n - 1] == c
        invariant
            n <= cs.len(),
            cs@ == s@,
            trim_end_char(s@.take(n as int), c) == trim_end_char(s@, c),
        decreases n,
    {
        assert(s@.take(n as int).drop_last() =~= s@.take(n - 1));
        n -= 1;
    }
    assert(s@.subrange(0, n as int) =~= s@.take(n as int));
    s.substring_char(0, n)
}

/// `e` is a line of `s` that begins at `i`.
pub open spec fn line_at(s: Seq<char>, e: Seq<char>, i: int) -> bool {
    let j = i + e.len();
    &&& 0 <= i && j <= s.len()
    &&& i == 0 || s[i - 1] == '\n'
    &&& s.subrange(i, j) == e
    &&& j == s.len() || s[j] == '\n' || (s[j] == '\r' && j + 1 < s.len() && s[j + 1] == '\n')
}

proof fn lemma_first_line(s: Seq<char>, e: Seq<char>)
    requires
        e.len() > 0,
        e.last() != '\r',
        forall|k: int| 0 <= k < e.len() ==> e[k] != '\n',
        char_pos(s, '\n') < s.len(),
    ensures
        line_at(s, e, 0) <==> strip_cr(s.take(char_pos(s, '\n') as int)) == e,
{
    let p = char_pos(s, '\n');
    lemma_char_pos(s, '\n');
    let first = strip_cr(s.take(p as int));
    if first == e {
        assert(s.subrange(0, e.len() as int) =~= e);
        assert(line_at(s, e, 0));
    }
    if line_at(s, e, 0) {
        assert forall|k: int| 0 <= k < e.len() implies s[k] == e[k] by {
            assert(s.subrange(0, e.len() as int)[k] == e[k]);
        }
        assert(e.len() <= p) by {
            if e.len() > p {
                assert(s[p as int] == e[p as int]);
            }
        }
        if e.len() == p {
            assert(s.take(p as int) =~= e);
        } else {
            assert(s[e.len() as int] == '\r');
            assert(p == e.len() + 1);
            assert(s.take(p as int).drop_last() =~= e);
            assert(s.take(p as int).last() == '\r');
        }
    }
}

proof fn lemma_later_line(s: Seq<char>, e: Seq<char>, i: int)
    requires
        e.len() > 0,
        char_pos(s, '\n') < s.len(),
        i > 0,
    ensures
        line_at(s, e, i) <==> line_at(
            s.skip(char_pos(s, '\n') as int + 1),
            e,
            i - char_pos(s, '\n') - 1,
        ),
{
    let p = char_pos(s, '\n');
    lemma_char_pos(s, '\n');
    let rest = s.skip(p as int + 1);
    let j = i - p - 1;
    if line_at(s, e, i) {
        assert(s[i - 1] == '\n');
        assert(rest.subrange(j, j + e.len()) =~= s.subrange(i, i + e.len()));
        if j > 0 {
            assert(rest[j - 1] == s[i - 1]);
        }
    }
    if line_at(rest, e, j) {
        assert(rest.subrange(j, j + e.len()) =~= s.subrange(i, i + e.len()));
        if j > 0 {
            assert(rest[j - 1] == s[i - 1]);
        }
    }
}

/// A line is one of the lines of a text exactly where it begins somewhere in it.
pub proof fn lemma_line_at(s: Seq<char>, e: Seq<char>)
    requires
        e.len() > 0,
        e.last() != '\r',
        forall|k: int| 0 <= k < e.len() ==> e[k] != '\n',
    ensures
        lines(s).contains(e) <==> exists|i: int| line_at(s, e, i),
    decreases s.len(),
{
    let p = char_pos(s, '\n');
    lemma_char_pos(s, '\n');
    if s.len() == 0 {
        assert forall|i: int| !line_at(s, e, i) by {}
    } else if p >= s.len() {
        assert(lines(s) =~= seq![s]);
        if lines(s).contains(e) {
            assert(s == e);
            assert(s.subrange(0, s.len() as int) =~= s);
            assert(line_at(s, e, 0));
        }
        if exists|i: int| line_at(s, e, i) {
            let i = choose|i: int| line_at(s, e, i);
            assert(i == 0);
            assert(e.len() == s.len());
            assert(s.subrange(0, s.len() as int) =~= s);
            assert(lines(s)[0] == e);
        }
    } else {
        let rest = s.skip(p as int + 1);
        let first = strip_cr(s.take(p as int));
        lemma_line_at(rest, e);
        lemma_first_line(s, e);
        assert(lines(s) =~= seq![first] + lines(rest));
        if lines(s).contains(e) {
            let k = choose|k: int| 0 <= k < lines(s).len() && lines(s)[k] == e;
            if k == 0 {
                assert(line_at(s, e, 0));
            } else {
                assert(lines(rest)[k - 1] == e);
                let j = choose|j: int| line_at(rest, e, j);
                lemma_later_line(s, e, j + p + 1);
                assert(line_at(s, e, j + p + 1));
            }
        }
        if exists|i: int| line_at(s, e, i) {
            let i = choose|i: int| line_at(s, e, i);
            if i == 0 {
                assert(lines(s)[0] == e);
            } else {
                lemma_later_line(s, e, i);
                assert(line_at(rest, e, i - p - 1));
                let k = choose|k: int| 0 <= k < lines(rest).len() && lines(rest)[k] == e;
                assert(lines(s)[k + 1] == e);
            }
        }
    }
}

/// What a filter keeps was there.
pub proof fn lemma_filter_keeps<A>(s: Seq<A>, f: spec_fn(A) -> bool, j: int)
    requires
        0 <= j < s.filter(f).len(),
    ensures
        f(s.filter(f)[j]),
        exists|i: int| 0 <= i < s.len() && #[trigger] s[i] == s.filter(f)[j],
    decreases s.len(),
{
    reveal(Seq::filter);
    if s.len() > 0 {
        let init = s.drop_last();
        if j < init.filter(f).len() {
            lemma_filter_keeps(init, f, j);
            let i = choose|i: int| 0 <= i < init.len() && #[trigger] init[i] == init.filter(f)[j];
            assert(s[i] == init[i]);
        } else {
            assert(s[s.len() - 1] == s.filter(f)[j]);
        }
    }
}

/// The pieces that are kept are all the pieces, each trimmed, but for those that are then
/// empty.
pub proof fn law_trimmed_pieces(v: Seq<Seq<char>>)
    ensures
        trimmed_nonempty(v) == v.map_values(|t: Seq<char>| trim(t)).filter(
            |t: Seq<char>| t.len() > 0,
        ),
    decreases v.len(),
{
    reveal(Seq::filter);
    let f = |t: Seq<char>| trim(t);
    let g = |t: Seq<char>| t.len() > 0;
    let m = v.map_values(f);
    if v.len() > 0 {
        law_trimmed_pieces(v.drop_last());
        assert(m.drop_last() =~= v.drop_last().map_values(f));
        assert(m.last() == trim(v.last()));
    } else {
        assert(trimmed_nonempty(v) =~= m.filter(g));
    }
}

/// Blanks, tabs and the ends of lines are white space, and so are the wide blanks of Unicode; no
/// visible ASCII character is, nor one without width.
pub proof fn law_white_space(c: char)
    ensures
        is_space(' '),
        is_space('\t'),
        is_space('\n'),
        is_space('\r'),
        is_space('\u{b}'),
        is_space('\u{c}'),
        is_space('\u{85}'),
        is_space('\u{a0}'),
        is_space('\u{1680}'),
        '\u{2000}' <= c <= '\u{200a}' ==> is_space(c),
        is_space('\u{2028}'),
        is_space('\u{2029}'),
        is_space('\u{202f}'),
        is_space('\u{205f}'),
        is_space('\u{3000}'),
        !is_space('\u{200b}'),
        c < '\t' ==> !is_space(c),
        '\u{e}' <= c <= '\u{1f}' ==> !is_space(c),
        '!' <= c <= '~' ==> !is_space(c),
        '\u{a1}' <= c <= '\u{167f}' ==> !is_space(c),
        c as u32 > 0x3000 ==> !is_space(c),
{
}

/// Whether all characters are white space.
pub open spec fn is_blank(s: Seq<char>) -> bool {
    forall|i: int| 0 <= i < s.len() ==> is_space(#[trigger] s[i])
}

/// Trimming a start takes white space away and nothing else, and leaves none there.
pub proof fn law_trim_start(s: Seq<char>)
    ensures
        trim_start(s).len() <= s.len(),
        is_blank(s.take(s.len() - trim_start(s).len())),
        s == s.take(s.len() - trim_start(s).len()) + trim_start(s),
        trim_start(s).len() > 0 ==> !is_space(trim_start(s)[0]),
    decreases s.len(),
{
    let t = trim_start(s);
    if s.len() > 0 && is_space(s[0]) {
        let rest = s.drop_first();
        law_trim_start(rest);
        let a = rest.take(rest.len() - t.len());
        let b = s.take(s.len() - t.len());
        assert(b =~= seq![s[0]] + a);
        assert(s =~= b + t) by {
            assert(rest == a + t);
            assert(s =~= seq![s[0]] + rest);
        }
    } else {
        assert(s =~= s.take(0) + s);
    }
}

/// Trimming an end takes white space away and nothing else, and leaves none there.
pub proof fn law_trim_end(s: Seq<char>)
    ensures
        trim_end(s).len() <= s.len(),
        is_blank(s.skip(trim_end(s).len() as int)),
        s == trim_end(s) + s.skip(trim_end(s).len() as int),
        trim_end(s).len() > 0 ==> !is_space(trim_end(s).last()),
    decreases s.len(),
{
    let t = trim_end(s);
    if s.len() > 0 && is_space(s.last()) {
        let rest = s.drop_last();
        law_trim_end(rest);
        let a = rest.skip(t.len() as int);
        let b = s.skip(t.len() as int);
        assert(b =~= a.push(s.last()));
        assert(s =~= t + b) by {
            assert(rest == t + a);
            assert(s =~= rest.push(s.last()));
        }
    } else {
        assert(s =~= s + s.skip(s.len() as int));
    }
}

/// What is between white space and has none at its own ends is what trimming gives; and
/// trimming gives such a text, or nothing where there is only white space.
pub proof fn law_trim(a: Seq<char>, t: Seq<char>, b: Seq<char>)
    requires
        is_blank(a),
        is_blank(b),
        t.len() > 0 ==> !is_space(t[0]) && !is_space(t.last()),
    ensures
        trim(a + t + b) == t,
        trim_start(a + t) == t,
        trim_end(t + b) == t,
{
    lemma_trim_start_of(a, t + b);
    lemma_trim_start_of(a, t);
    assert(a + t + b =~= a + (t + b));
    lemma_trim_end_of(t, b);
    if t.len() == 0 {
        assert(t + b =~= b);
        lemma_trim_start_of(b, t);
        assert(b + t =~= b);
        lemma_trim_start_of(a, t);
        assert(a + (t + b) =~= (a + b) + t);
        assert(is_blank(a + b)) by {
            assert forall|i: int| 0 <= i < (a + b).len() implies is_space(
                #[trigger] (a + b)[i],
            ) by {}
        }
        lemma_trim_start_of(a + b, t);
        assert(t + t =~= t);
        assert(trim_end(t) =~= t);
    } else {
        assert((t + b)[0] == t[0]);
    }
}

/// White space in front of a text is what trimming its start takes away.
pub proof fn lemma_trim_start_of(a: Seq<char>, t: Seq<char>)
    requires
        is_blank(a),
    ensures
        t.len() == 0 || !is_space(t[0]) ==> trim_start(a + t) == t,
    decreases a.len(),
{
    if t.len() == 0 || !is_space(t[0]) {
        if a.len() > 0 {
            let r = a.drop_first();
            assert forall|i: int| 0 <= i < r.len() implies is_space(#[trigger] r[i]) by {
                assert(r[i] == a[i + 1]);
            }
            lemma_trim_start_of(r, t);
            assert((a + t).drop_first() =~= r + t);
            assert((a + t)[0] == a[0]);
        } else {
            assert(a + t =~= t);
        }
    }
}

proof fn lemma_trim_end_of(t: Seq<char>, b: Seq<char>)
    requires
        is_blank(b),
        t.len() == 0 || !is_space(t.last()),
    ensures
        trim_end(t + b) == t,
    decreases b.len(),
{
    if b.len() > 0 {
        let r = b.drop_last();
        assert forall|i: int| 0 <= i < r.len() implies is_space(#[trigger] r[i]) by {
            assert(r[i] == b[i]);
        }
        lemma_trim_end_of(t, r);
        assert((t + b).drop_last() =~= t + r);
        assert((t + b).last() == b.last());
        assert(is_space(b[b.len() - 1]));
    } else {
        assert(t + b =~= t);
    }
}

/// A trimmed text stands in the text it was made of, with white space on both sides and
/// none at its own ends; trimming it again changes nothing.
pub proof fn law_trimmed(s: Seq<char>)
    ensures
        trim(s).len() > 0 ==> !is_space(trim(s)[0]) && !is_space(trim(s).last()),
        exists|a: Seq<char>, b: Seq<char>| is_blank(a) && is_blank(b) && s == #[trigger] (a + trim(s) + b),
        trim(trim(s)) == trim(s),
        trim(s).len() == 0 <==> is_blank(s),
{
    let u = trim_start(s);
    let t = trim(s);
    law_trim_start(s);
    law_trim_end(u);
    let a = s.take(s.len() - u.len());
    let b = u.skip(t.len() as int);
    if t.len() > 0 {
        assert(u[0] == t[0]);
    }
    assert(s =~= a + t + b);
    let e = Seq::<char>::empty();
    assert(is_blank(e));
    law_trim(e, t, e);
    assert(e + t + e =~= t);
    if t.len() == 0 {
        assert forall|i: int| 0 <= i < s.len() implies is_space(#[trigger] s[i]) by {
            if i < a.len() {
                assert(s[i] == a[i]);
            } else {
                assert(s[i] == b[i - a.len()]);
            }
        }
    } else if is_blank(s) {
        assert(s[a.len() as int] == t[0]);
    }
}

/// A text without the character is one piece, and one in front of it is the first piece.
pub proof fn law_split(a: Seq<char>, c: char, b: Seq<char>)
    requires
        !a.contains(c),
    ensures
        split(a, c) == seq![a],
        split(a + seq![c] + b, c) == seq![a] + split(b, c),
        split_once(a, c) is None,
        split_once(a + seq![c] + b, c) == Some((a, b)),
{
    assert forall|j: int| 0 <= j < a.len() implies a[j] != c by {
        assert(a.contains(a[j]));
    }
    lemma_char_pos_is(a, c, a.len());
    let s = a + seq![c] + b;
    lemma_char_pos_is(s, c, a.len());
    assert(s.take(a.len() as int) =~= a);
    assert(s.skip(a.len() as int + 1) =~= b);
}

/// Nothing has no lines; a text without a line feed is one line; what stands in front of a
/// line feed is a line, without one carriage return at its end.
pub proof fn law_lines(a: Seq<char>, b: Seq<char>)
    requires
        !a.contains('\n'),
    ensures
        lines(Seq::empty()) == Seq::<Seq<char>>::empty(),
        a.len() > 0 ==> lines(a) == seq![a],
        lines(a + seq!['\n'] + b) == seq![
            if a.len() > 0 && a.last() == '\r' {
                a.drop_last()
            } else {
                a
            },
        ] + lines(b),
{
    assert forall|j: int| 0 <= j < a.len() implies a[j] != '\n' by {
        assert(a.contains(a[j]));
    }
    lemma_char_pos_is(a, '\n', a.len());
    let s = a + seq!['\n'] + b;
    lemma_char_pos_is(s, '\n', a.len());
    assert(s.take(a.len() as int) =~= a);
    assert(s.skip(a.len() as int + 1) =~= b);
}

/// A text starts with another just where that stands in front of the rest of it, and ends
/// with another just where that stands behind the rest.
pub proof fn law_starts_and_ends(s: Seq<char>, p: Seq<char>)
    ensures
        starts_with(s, p) <==> exists|t: Seq<char>| s == #[trigger] (p + t),
        ends_with(s, p) <==> exists|t: Seq<char>| s == #[trigger] (t + p),
        forall|t: Seq<char>| strip_prefix(#[trigger] (p + t), p) == Some(t),
        !starts_with(s, p) ==> strip_prefix(s, p) is None,
{
    if starts_with(s, p) {
        assert(s =~= p + s.skip(p.len() as int));
    }
    if ends_with(s, p) {
        assert(s =~= s.take(s.len() - p.len()) + p);
    }
    assert forall|t: Seq<char>| strip_prefix(#[trigger] (p + t), p) == Some(t) by {
        assert((p + t).take(p.len() as int) =~= p);
        assert((p + t).skip(p.len() as int) =~= t);
    }
    if exists|t: Seq<char>| s == #[trigger] (p + t) {
        let t = choose|t: Seq<char>| s == #[trigger] (p + t);
        assert(s.take(p.len() as int) =~= p);
    }
    if exists|t: Seq<char>| s == #[trigger] (t + p) {
        let t = choose|t: Seq<char>| s == #[trigger] (t + p);
        assert(s.skip(s.len() - p.len()) =~= p);
    }
}

/// A text contains another just where that stands somewhere in it; it is found at the
/// first such place.
pub proof fn law_contains(s: Seq<char>, p: Seq<char>)
    ensures
        contains(s, p) <==> exists|a: Seq<char>, b: Seq<char>| s == #[trigger] (a + p + b),
        find(s, p) matches Some(k) ==> k + p.len() <= s.len() && s.subrange(
            k as int,
            (k + p.len()) as int,
        ) == p && forall|j: int|
            0 <= j < k && j + p.len() <= s.len() ==> #[trigger] s.subrange(j, j + p.len()) != p,
{
    lemma_find(s, p);
    if let Some(k) = find(s, p) {
        let a = s.take(k as int);
        let b = s.skip((k + p.len()) as int);
        let t = s.skip(k as int);
        assert(t.take(p.len() as int) =~= s.subrange(k as int, (k + p.len()) as int));
        assert(s =~= a + p + b);
        assert forall|j: int| 0 <= j < k && j + p.len() <= s.len() implies #[trigger] s.subrange(
            j,
            j + p.len(),
        ) != p by {
            assert(!starts_with(s.skip(j), p));
            assert(s.skip(j).take(p.len() as int) =~= s.subrange(j, j + p.len()));
        }
    }
    if exists|a: Seq<char>, b: Seq<char>| s == #[trigger] (a + p + b) {
        let (a, b) = choose|a: Seq<char>, b: Seq<char>| s == #[trigger] (a + p + b);
        assert(s.skip(a.len() as int).take(p.len() as int) =~= p);
        lemma_contains_at(s, p, a.len() as int);
    }
}

/// Texts are joined with the separator between each two, and with nothing around them.
pub proof fn law_join(v: Seq<Seq<char>>, x: Seq<char>, sep: Seq<char>)
    ensures
        join(Seq::empty(), sep) == Seq::<char>::empty(),
        join(seq![x], sep) == x,
        v.len() > 0 ==> join(v.push(x), sep) == join(v, sep) + sep + x,
{
    let w = v.push(x);
    assert(w.drop_last() =~= v);
    assert(w.last() == x);
}

/// Joining the pieces of a text with the character between them gives the text back.
pub proof fn law_split_and_join(s: Seq<char>, c: char)
    ensures
        join(split(s, c), seq![c]) == s,
        split(s, c).len() > 0,
        forall|i: int| 0 <= i < split(s, c).len() ==> !(#[trigger] split(s, c)[i]).contains(c),
    decreases s.len(),
{
    let p = char_pos(s, c);
    lemma_char_pos(s, c);
    if p >= s.len() {
        assert(!s.contains(c));
        assert(split(s, c) =~= seq![s]);
    } else {
        let a = s.take(p as int);
        let b = s.skip(p as int + 1);
        law_split_and_join(b, c);
        lemma_join_front(a, split(b, c), seq![c]);
        assert(s =~= a + seq![c] + b);
        let v = split(s, c);
        assert forall|i: int| 0 <= i < v.len() implies !(#[trigger] v[i]).contains(c) by {
            if i > 0 {
                assert(v[i] == split(b, c)[i - 1]);
            } else {
                assert(v[0] == a);
                assert forall|j: int| 0 <= j < a.len() implies a[j] != c by {
                    assert(a[j] == s[j]);
                }
            }
        }
    }
}

/// What is joined behind a text follows it after the separator.
pub proof fn lemma_join_front(a: Seq<char>, v: Seq<Seq<char>>, sep: Seq<char>)
    requires
        v.len() > 0,
    ensures
        join(seq![a] + v, sep) == a + sep + join(v, sep),
    decreases v.len(),
{
    let w = seq![a] + v;
    assert(w.last() == v.last());
    assert(w.drop_last() =~= seq![a] + v.drop_last());
    if v.len() == 1 {
        assert(w.drop_last() =~= seq![a]);
        assert(join(seq![a], sep) == a);
    } else {
        lemma_join_front(a, v.drop_last(), sep);
        assert(a + sep + join(v.drop_last(), sep) + sep + v.last() =~= a + sep + (join(
            v.drop_last(),
            sep,
        ) + sep + v.last()));
    }
}

/// Cutting a text keeps its start, and all of it where it is short enough; a fallback
/// stands in for an empty text alone.
pub proof fn law_clip_and_fallback(s: Seq<char>, n: nat, fallback: Seq<char>)
    ensures
        clip(s, n).is_prefix_of(s),
        clip(s, n).len() == (if s.len() <= n {
            s.len()
        } else {
            n
        }),
        or_else(s, fallback) == s || (s == Seq::<char>::empty() && or_else(s, fallback)
            == fallback),
        s == Seq::<char>::empty() ==> or_else(s, fallback) == fallback,
{
    assert(clip(s, n) =~= s.subrange(0, clip(s, n).len() as int));
    if s.len() == 0 {
        assert(s =~= Seq::<char>::empty());
    }
}

/// Of a text only the marks at its end are cut off, all of them and nothing else.
pub proof fn law_trim_end_char(s: Seq<char>, c: char)
    ensures
        ({
            let t = trim_end_char(s, c);
            &&& t.is_prefix_of(s)
            &&& t.len() > 0 ==> t.last() != c
            &&& forall|i: int| t.len() <= i < s.len() ==> #[trigger] s[i] == c
        }),
    decreases s.len(),
{
    let t = trim_end_char(s, c);
    if s.len() > 0 && s.last() == c {
        let r = s.drop_last();
        law_trim_end_char(r, c);
        assert forall|i: int| t.len() <= i < s.len() implies #[trigger] s[i] == c by {
            if i < r.len() {
                assert(r[i] == s[i]);
            }
        }
        assert(t =~= s.subrange(0, t.len() as int)) by {
            assert(t =~= r.subrange(0, t.len() as int));
        }
    } else {
        assert(t =~= s.subrange(0, t.len() as int));
    }
}

/// Of a text only the marks in front of it are cut off, all of them and nothing else.
pub proof fn law_strip_all_marks(s: Seq<char>, c: char)
    ensures
        ({
            let t = strip_all(s, seq![c]);
            &&& t.len() <= s.len()
            &&& s.skip(s.len() - t.len()) == t
            &&& t.len() > 0 ==> t[0] != c
            &&& forall|i: int| 0 <= i < s.len() - t.len() ==> #[trigger] s[i] == c
        }),
    decreases s.len(),
{
    let p = seq![c];
    let t = strip_all(s, p);
    if s.len() > 0 {
        assert(s.take(1) =~= seq![s[0]]);
        assert(s[0] == c ==> s.take(1) =~= p);
        assert(s.take(1) == p ==> s.take(1)[0] == p[0]);
    }
    if starts_with(s, p) {
        let r = s.skip(1);
        law_strip_all_marks(r, c);
        assert(s[0] == c);
        assert forall|i: int| 0 <= i < s.len() - t.len() implies #[trigger] s[i] == c by {
            if i > 0 {
                assert(s[i] == r[i - 1]);
            }
        }
        assert(s.skip(s.len() - t.len()) =~= r.skip(r.len() - t.len()));
    } else {
        assert(s.skip(0) =~= s);
    }
}

/// Lower case changes the letters from `A` to `Z` to those from `a` to `z`, one for one,
/// and nothing else.
pub proof fn law_lower(s: Seq<char>, i: int)
    requires
        0 <= i < s.len(),
    ensures
        lower(s).len() == s.len(),
        'A' <= s[i] <= 'Z' ==> lower(s)[i] as u32 - 'a' as u32 == s[i] as u32 - 'A' as u32,
        !('A' <= s[i] <= 'Z') ==> lower(s)[i] == s[i],
{
}

/// What follows a character, and has none itself, is the last piece.
pub proof fn law_split_at_the_last(a: Seq<char>, c: char, b: Seq<char>)
    requires
        !b.contains(c),
    ensures
        split(a + seq![c] + b, c) == split(a, c).push(b),
    decreases a.len(),
{
    let s = a + seq![c] + b;
    let p = char_pos(a, c);
    lemma_char_pos(a, c);
    if p >= a.len() {
        assert(!a.contains(c)) by {
            if a.contains(c) {
                let j = choose|j: int| 0 <= j < a.len() && a[j] == c;
                assert(a[j] != c);
            }
        }
        law_split(a, c, b);
        law_split(b, c, b);
        assert(seq![a] + seq![b] =~= seq![a].push(b));
    } else {
        let front = a.take(p as int);
        let rest = a.skip(p as int + 1);
        assert(!front.contains(c)) by {
            if front.contains(c) {
                let j = choose|j: int| 0 <= j < front.len() && front[j] == c;
                assert(a[j] != c);
            }
        }
        assert(a =~= front + seq![c] + rest);
        assert(s =~= front + seq![c] + (rest + seq![c] + b));
        law_split(front, c, rest);
        law_split(front, c, rest + seq![c] + b);
        law_split_at_the_last(rest, c, b);
        assert(seq![front] + split(rest, c).push(b) =~= (seq![front] + split(rest, c)).push(b));
    }
}

/// A filter keeps what it is to keep, all of it and nothing else.
pub proof fn lemma_filter<A>(s: Seq<A>, f: spec_fn(A) -> bool)
    ensures
        s.filter(f).len() <= s.len(),
        forall|j: int| 0 <= j < s.filter(f).len() ==> f(#[trigger] s.filter(f)[j]),
        forall|i: int| 0 <= i < s.len() && f(s[i]) ==> s.filter(f).contains(#[trigger] s[i]),
{
    broadcast use vstd::seq_lib::group_filter_ensures;

}

}
