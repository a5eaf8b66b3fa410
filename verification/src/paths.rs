//! Paths as texts with `/` between their components.
use vstd::prelude::*;

use crate::text::{same, split, starts_with, str_split, str_starts_with, views};

verus! {

/// Whether a path starts at the root.
pub open spec fn is_absolute(p: Seq<char>) -> bool {
    starts_with(p, "/"@)
}

/// The components of a path given by its pieces: the empty ones do not count, nor
/// does a dot, except as the first of a relative path.
pub open spec fn components_of(pieces: Seq<Seq<char>>) -> Seq<Seq<char>>
    decreases pieces.len(),
{
    if pieces.len() == 0 {
        Seq::empty()
    } else {
        let r = components_of(pieces.drop_last());
        let last = pieces.last();
        if last.len() == 0 || (last == "."@ && pieces.len() > 1) {
            r
        } else {
            r.push(last)
        }
    }
}

/// The components of a path.
pub open spec fn components(p: Seq<char>) -> Seq<Seq<char>> {
    components_of(split(p, '/'))
}

/// Two paths name the same place, component by component.
pub open spec fn is_same_path(a: Seq<char>, b: Seq<char>) -> bool {
    is_absolute(a) == is_absolute(b) && components(a) == components(b)
}

/// `p` is `base` or lies below it.
pub open spec fn is_under(p: Seq<char>, base: Seq<char>) -> bool {
    is_absolute(p) == is_absolute(base) && components(base).is_prefix_of(components(p))
}

/// The name that a path ends in; empty for one that ends in a dot or two, and for
/// the root.
pub open spec fn last_name(p: Seq<char>) -> Seq<char> {
    let c = components(p);
    if c.len() == 0 || c.last() == "."@ || c.last() == ".."@ {
        Seq::empty()
    } else {
        c.last()
    }
}

/// A relative path below a directory.
pub open spec fn joined(dir: Seq<char>, rel: Seq<char>) -> Seq<char> {
    if dir.len() == 0 || dir.last() == '/' {
        dir + rel
    } else {
        dir + "/"@ + rel
    }
}

/// Whether a path starts at the root.
pub fn absolute(p: &str) -> (r: bool)
    ensures
        r == is_absolute(p@),
{
    str_starts_with(p, "/")
}

fn path_components<'a>(p: &'a str) -> (v: Vec<&'a str>)
    ensures
        views(v@) == components(p@),
{
    let pieces = str_split(p, '/');
    let ghost all = split(p@, '/');
    let mut v: Vec<&'a str> = Vec::new();
    let mut i: usize = 0;
    assert(all.take(0).len() == 0);
    assert(views(v@) =~= components_of(all.take(0)));
    while i < pieces.len()
        invariant
            i <= pieces.len(),
            views(pieces@) == all,
            views(v@) == components_of(all.take(i as int)),
        decreases pieces.len() - i,
    {
        let ghost before = v@;
        proof {
            assert(all.take(i + 1).drop_last() =~= all.take(i as int));
            assert(all.take(i + 1).last() == pieces@[i as int]@);
        }
        if !(pieces[i].is_empty() || (same(pieces[i], ".") && i > 0)) {
            v.push(pieces[i]);
            assert(views(v@) =~= views(before).push(pieces@[i as int]@));
        }
        i += 1;
    }
    assert(all.take(i as int) =~= all);
    v
}

fn is_prefix(a: &Vec<&str>, b: &Vec<&str>) -> (r: bool)
    ensures
        r == views(a@).is_prefix_of(views(b@)),
{
    let ghost x = views(a@);
    let ghost y = views(b@);
    assert(x.len() == a@.len() && y.len() == b@.len());
    if a.len() > b.len() {
        return false;
    }
    let mut i: usize = 0;
    while i < a.len()
        invariant
            i <= a.len() <= b.len(),
            x == views(a@),
            y == views(b@),
            forall|j: int| 0 <= j < i ==> x[j] == y[j],
        decreases a.len() - i,
    {
        assert(x[i as int] == a@[i as int]@ && y[i as int] == b@[i as int]@);
        if !same(a[i], b[i]) {
            assert(y.subrange(0, x.len() as int)[i as int] == y[i as int]);
            return false;
        }
        i += 1;
    }
    assert(x =~= y.subrange(0, x.len() as int));
    true
}

/// Whether two paths name the same place.
pub fn same_path(a: &str, b: &str) -> (r: bool)
    ensures
        r == is_same_path(a@, b@),
{
    let x = path_components(a);
    let y = path_components(b);
    let p = is_prefix(&x, &y);
    proof {
        let u = views(x@);
        let v = views(y@);
        assert(u.len() == x@.len() && v.len() == y@.len());
        if u.len() == v.len() && u.is_prefix_of(v) {
            assert(v.subrange(0, v.len() as int) =~= v);
        }
        if u == v {
            assert(v.subrange(0, v.len() as int) =~= v);
        }
    }
    absolute(a) == absolute(b) && x.len() == y.len() && p
}

/// Whether `p` is `base` or lies below it.
pub fn under(p: &str, base: &str) -> (r: bool)
    ensures
        r == is_under(p@, base@),
{
    let x = path_components(p);
    let y = path_components(base);
    absolute(p) == absolute(base) && is_prefix(&y, &x)
}

/// The name that a path ends in.
pub fn basename(path: &str) -> (r: String)
    ensures
        r@ == last_name(path@),
{
    let c = path_components(path);
    assert(views(c@).len() == c@.len());
    if c.len() == 0 {
        return String::new();
    }
    let last = c[c.len() - 1];
    assert(views(c@).last() == last@);
    if same(last, ".") || same(last, "..") {
        String::new()
    } else {
        last.to_owned()
    }
}

/// A relative path below a directory.
pub fn join_path(dir: &str, rel: &str) -> (r: String)
    ensures
        r@ == joined(dir@, rel@),
{
    let n: usize = dir.unicode_len();
    let mut out = dir.to_owned();
    if n > 0 && dir.get_char(n - 1) != '/' {
        out.append("/");
    }
    out.append(rel);
    out
}

proof fn lemma_components_append(a: Seq<Seq<char>>, name: Seq<char>)
    requires
        a.len() > 0,
    ensures
        components_of(a.push(name)) == (if name.len() == 0 || name == "."@ {
            components_of(a)
        } else {
            components_of(a).push(name)
        }),
{
    assert(a.push(name).drop_last() =~= a);
}

/// A path has the component behind a slash behind those in front of it; nothing and a single
/// dot behind a slash are no component.
pub proof fn law_components(dir: Seq<char>, name: Seq<char>)
    requires
        !name.contains('/'),
    ensures
        components(dir + seq!['/'] + name) == (if name.len() == 0 || name == "."@ {
            components(dir)
        } else {
            components(dir).push(name)
        }),
        components(name) == (if name.len() == 0 {
            Seq::empty()
        } else {
            seq![name]
        }),
{
    crate::text::law_split_at_the_last(dir, '/', name);
    crate::text::law_split_and_join(dir, '/');
    lemma_components_append(split(dir, '/'), name);
    crate::text::law_split(name, '/', name);
    let one = seq![name];
    assert(one.drop_last() =~= Seq::<Seq<char>>::empty());
    assert(components_of(one.drop_last()) =~= Seq::<Seq<char>>::empty());
    assert(components_of(one) =~= (if name.len() == 0 {
        Seq::empty()
    } else {
        seq![name]
    }));
}

/// A path starts at the root just where it starts with a slash.
pub proof fn law_absolute(p: Seq<char>)
    ensures
        is_absolute(p) <==> p.len() > 0 && p[0] == '/',
{
    reveal_strlit("/");
    assert("/"@ =~= seq!['/']);
    if p.len() > 0 {
        assert(p.take(1) =~= seq![p[0]]);
        if p.take(1) == "/"@ {
            assert(p.take(1)[0] == '/');
        }
    }
}

/// The name at the end of a path is what follows the last slash, also where further slashes
/// follow; a path that ends in two dots has no name.
pub proof fn law_last_name(dir: Seq<char>, name: Seq<char>)
    requires
        name.len() > 0,
        !name.contains('/'),
    ensures
        name != "."@ && name != ".."@ ==> last_name(dir + seq!['/'] + name) == name && last_name(
            dir + seq!['/'] + name + seq!['/'],
        ) == name && last_name(name) == name,
        name == ".."@ ==> last_name(dir + seq!['/'] + name) == Seq::<char>::empty(),
        last_name(Seq::empty()) == Seq::<char>::empty(),
{
    let p = dir + seq!['/'] + name;
    let e = Seq::<char>::empty();
    law_components(dir, name);
    law_components(p, e);
    law_components(dir, e);
    assert(p + seq!['/'] + e =~= p + seq!['/']);
    reveal_strlit(".");
    reveal_strlit("..");
    assert("."@.len() == 1 && ".."@.len() == 2);
}

/// A place is the same with a slash behind it; what lies below a directory is under it, and a
/// directory is under itself; one that only starts with the same letters is not.
pub proof fn law_under(dir: Seq<char>, name: Seq<char>)
    requires
        dir.len() > 0,
        name.len() > 0,
        !name.contains('/'),
        name != "."@,
    ensures
        is_same_path(dir, dir),
        is_same_path(dir, dir + seq!['/']),
        is_under(dir, dir),
        is_under(dir + seq!['/'] + name, dir),
        !is_under(dir, dir + seq!['/'] + name),
        !is_same_path(dir, dir + seq!['/'] + name),
{
    let e = Seq::<char>::empty();
    let p = dir + seq!['/'] + name;
    law_components(dir, name);
    law_components(dir, e);
    assert(dir + seq!['/'] + e =~= dir + seq!['/']);
    law_absolute(dir);
    law_absolute(p);
    law_absolute(dir + seq!['/']);
    let c = components(dir);
    assert(c =~= c.subrange(0, c.len() as int));
    assert(c =~= c.push(name).subrange(0, c.len() as int));
}

/// Two places under a directory by different names are different, and neither is under the
/// other.
pub proof fn law_siblings(dir: Seq<char>, a: Seq<char>, b: Seq<char>)
    requires
        a.len() > 0,
        b.len() > 0,
        !a.contains('/'),
        !b.contains('/'),
        a != "."@,
        b != "."@,
        a != b,
    ensures
        !is_same_path(dir + seq!['/'] + a, dir + seq!['/'] + b),
        !is_under(dir + seq!['/'] + a, dir + seq!['/'] + b),
{
    law_components(dir, a);
    law_components(dir, b);
    let c = components(dir);
    let x = c.push(a);
    let y = c.push(b);
    assert(x.last() == a && y.last() == b);
    if y.is_prefix_of(x) {
        assert(y =~= x.subrange(0, x.len() as int));
        assert(x.subrange(0, x.len() as int) =~= x);
    }
}

/// A relative path is put behind a directory with one slash between, or none where the
/// directory ends in one already.
pub proof fn law_joined(dir: Seq<char>, rel: Seq<char>)
    ensures
        joined(Seq::empty(), rel) == rel,
        joined(dir + seq!['/'], rel) == dir + seq!['/'] + rel,
        dir.len() > 0 && dir.last() != '/' ==> joined(dir, rel) == dir + seq!['/'] + rel,
{
    reveal_strlit("/");
    assert("/"@ =~= seq!['/']);
    assert(Seq::<char>::empty() + rel =~= rel);
}

}
