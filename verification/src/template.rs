//! Text templates: `{{name}}` tokens and the values they stand for.
use vstd::prelude::*;

use crate::text::{find, find_from, lemma_find, same, to_chars};

verus! {

/// The models of some variables, in order.
pub open spec fn var_views(vars: Seq<(&str, String)>) -> Seq<(Seq<char>, Seq<char>)> {
    vars.map_values(|e: (&str, String)| (e.0@, e.1@))
}

/// The value of a variable; empty for one that is not known.
pub open spec fn value_of(vars: Seq<(Seq<char>, Seq<char>)>, key: Seq<char>) -> Seq<char>
    decreases vars.len(),
{
    if vars.len() == 0 {
        Seq::empty()
    } else if vars[0].0 == key {
        vars[0].1
    } else {
        value_of(vars.drop_first(), key)
    }
}

/// The last place of two opening braces in a text at or before `i`, or its start.
pub open spec fn last_open(t: Seq<char>, i: int) -> int
    decreases i,
{
    if i <= 0 {
        0
    } else if t[i] == '{' && t[i + 1] == '{' {
        i
    } else {
        last_open(t, i - 1)
    }
}

/// A template with each token replaced by its value. A token runs from the last opening
/// braces before the closing ones; braces that are never closed stay as they are.
pub open spec fn filled(t: Seq<char>, vars: Seq<(Seq<char>, Seq<char>)>) -> Seq<char>
    decreases t.len(),
{
    match find(t, seq!['{', '{']) {
        None => t,
        Some(p) => {
            let after = t.skip(p as int + 2);
            match find(after, seq!['}', '}']) {
                None => t,
                Some(e) => {
                    proof {
                        lemma_find(t, seq!['{', '{']);
                        lemma_find(after, seq!['}', '}']);
                    }
                    let braced = t.subrange(p as int, p as int + 2 + e as int);
                    let o = last_open(braced, e as int);
                    t.take(p + o) + value_of(vars, braced.skip(o + 2)) + filled(
                        after.skip(e as int + 2),
                        vars,
                    )
                },
            }
        },
    }
}

fn push_value(out: &mut String, vars: &Vec<(&str, String)>, key: &str)
    ensures
        final(out)@ == old(out)@ + value_of(var_views(vars@), key@),
{
    let ghost vs = var_views(vars@);
    let mut i: usize = 0;
    assert(vs.skip(0) =~= vs);
    while i < vars.len()
        invariant
            i <= vars.len(),
            vs == var_views(vars@),
            out@ == old(out)@,
            value_of(vs.skip(i as int), key@) == value_of(vs, key@),
        decreases vars.len() - i,
    {
        assert(vs.skip(i as int)[0] == (vars@[i as int].0@, vars@[i as int].1@));
        assert(vs.skip(i as int).drop_first() =~= vs.skip(i + 1));
        if same(vars[i].0, key) {
            out.append(vars[i].1.as_str());
            return;
        }
        i += 1;
    }
    assert(out@ + Seq::<char>::empty() =~= out@);
}

/// Replaces each `{{name}}` token of a template by its value.
pub fn fill(template: &str, vars: &Vec<(&str, String)>) -> (r: String)
    ensures
        r@ == filled(template@, var_views(vars@)),
{
    let cs = to_chars(template);
    let mut open: Vec<char> = Vec::new();
    open.push('{');
    open.push('{');
    let mut close: Vec<char> = Vec::new();
    close.push('}');
    close.push('}');
    assert(open@ =~= seq!['{', '{']);
    assert(close@ =~= seq!['}', '}']);
    let ghost t = template@;
    let ghost vs = var_views(vars@);
    let mut out = String::new();
    let mut pos: usize = 0;
    assert(t.skip(0) =~= t);
    assert(out@ + filled(t, vs) =~= filled(t, vs));
    loop
        invariant
            pos <= cs.len(),
            cs@ == t,
            t == template@,
            vs == var_views(vars@),
            open@ == seq!['{', '{'],
            close@ == seq!['}', '}'],
            out@ + filled(t.skip(pos as int), vs) == filled(t, vs),
        decreases cs.len() - pos,
    {
        let ghost rest = t.skip(pos as int);
        let ghost start = out@;
        let end: usize = cs.len();
        if let Some(p) = find_from(&cs, &open, pos) {
            assert(rest.skip(p - pos + 2) =~= t.skip(p + 2));
            if let Some(e) = find_from(&cs, &close, p + 2) {
                let ghost after = t.skip(p + 2);
                let ghost braced = rest.subrange(p - pos, e - pos);
                let mut o: usize = e - 2;
                while o > p && !(cs[o] == '{' && cs[o + 1] == '{')
                    invariant
                        pos <= p <= o <= e - 2,
                        e <= cs.len(),
                        cs@ == t,
                        rest == t.skip(pos as int),
                        braced == rest.subrange(p - pos, e - pos),
                        last_open(braced, o - p) == last_open(braced, e - 2 - p),
                    decreases o,
                {
                    assert(braced[o - p] == t[o as int] && braced[o - p + 1] == t[o + 1]);
                    o -= 1;
                }
                assert(o > p ==> braced[o - p] == t[o as int] && braced[o - p + 1] == t[o + 1]);
                assert(last_open(braced, e - 2 - p) == o - p);
                assert(t.subrange(pos as int, o as int) =~= rest.take(o - pos));
                assert(t.subrange(o + 2, e as int) =~= braced.skip(o - p + 2));
                out.append(template.substring_char(pos, o));
                push_value(&mut out, vars, template.substring_char(o + 2, e));
                proof {
                    let head = rest.take(o - pos);
                    let value = value_of(vs, braced.skip(o - p + 2));
                    let tail = filled(t.skip(e + 2), vs);
                    assert(after.skip(e - (p + 2) + 2) =~= t.skip(e + 2));
                    assert(filled(rest, vs) == head + value + tail);
                    assert(start + (head + value + tail) =~= start + head + value + tail);
                }
                pos = e + 2;
                continue ;
            }
        }
        assert(filled(rest, vs) == rest);
        assert(t.subrange(pos as int, end as int) =~= rest);
        out.append(template.substring_char(pos, end));
        return out;
    }
}

/// A template without an opening token is its own result.
pub proof fn law_plain_text_is_kept(t: Seq<char>, vars: Seq<(Seq<char>, Seq<char>)>)
    requires
        find(t, seq!['{', '{']) is None,
    ensures
        filled(t, vars) == t,
{
}

/// A variable has the first value under its name, and one that has none is empty.
pub proof fn law_value_of(vars: Seq<(Seq<char>, Seq<char>)>, key: Seq<char>, k: int)
    ensures
        0 <= k < vars.len() && vars[k].0 == key && (forall|j: int|
            0 <= j < k ==> (#[trigger] vars[j]).0 != key) ==> value_of(vars, key) == vars[k].1,
        (forall|j: int| 0 <= j < vars.len() ==> (#[trigger] vars[j]).0 != key) ==> value_of(
            vars,
            key,
        ) == Seq::<char>::empty(),
    decreases vars.len(),
{
    if vars.len() > 0 && vars[0].0 != key {
        let t = vars.drop_first();
        law_value_of(t, key, k - 1);
        assert forall|j: int| 0 <= j < t.len() implies #[trigger] t[j] == vars[j + 1] by {}
        if forall|j: int| 0 <= j < vars.len() ==> (#[trigger] vars[j]).0 != key {
            assert forall|j: int| 0 <= j < t.len() implies (#[trigger] t[j]).0 != key by {
                assert(vars[j + 1].0 != key);
            }
        }
        if 0 <= k < vars.len() && vars[k].0 == key && (forall|j: int|
            0 <= j < k ==> (#[trigger] vars[j]).0 != key) {
            assert forall|j: int| 0 <= j < k - 1 implies (#[trigger] t[j]).0 != key by {
                assert(vars[j + 1].0 != key);
            }
            assert(t[k - 1] == vars[k]);
        }
    } else if vars.len() > 0 {
        assert(vars[0].0 == key);
    }
}

proof fn lemma_last_open(braced: Seq<char>, i: int)
    requires
        0 <= i < braced.len() - 1,
        forall|j: int| 2 <= j < braced.len() ==> #[trigger] braced[j] != '{',
    ensures
        last_open(braced, i) == 0,
    decreases i,
{
    if i > 0 {
        assert(braced[i + 1] != '{');
        lemma_last_open(braced, i - 1);
    }
}

/// A token is replaced by its value: the text in front of it stays, the value stands in its
/// place, and what follows is filled on its own. The value itself is taken as it is.
pub proof fn law_tokens_are_replaced(
    front: Seq<char>,
    key: Seq<char>,
    rest: Seq<char>,
    vars: Seq<(Seq<char>, Seq<char>)>,
)
    requires
        !front.contains('{'),
        !key.contains('{'),
        !key.contains('}'),
    ensures
        filled(front + seq!['{', '{'] + key + seq!['}', '}'] + rest, vars) == front + value_of(
            vars,
            key,
        ) + filled(rest, vars),
{
    let open = seq!['{', '{'];
    let close = seq!['}', '}'];
    let t = front + open + key + close + rest;
    let p = front.len() as int;
    assert forall|j: int| 0 <= j < p implies !crate::text::starts_with(
        #[trigger] t.skip(j),
        open,
    ) by {
        assert(t.skip(j)[0] == front[j]);
        assert(front.contains(front[j]));
        if t.skip(j).take(2) == open {
            assert(t.skip(j).take(2)[0] == '{');
        }
    }
    assert(t.skip(p).take(2) =~= open);
    crate::text::lemma_find_is(t, open, p as nat);
    let after = t.skip(p + 2);
    assert(after =~= key + close + rest);
    let e = key.len() as int;
    assert forall|j: int| 0 <= j < e implies !crate::text::starts_with(
        #[trigger] after.skip(j),
        close,
    ) by {
        assert(after.skip(j)[0] == key[j]);
        assert(key.contains(key[j]));
        if after.skip(j).take(2) == close {
            assert(after.skip(j).take(2)[0] == '}');
        }
    }
    assert(after.skip(e).take(2) =~= close);
    crate::text::lemma_find_is(after, close, e as nat);
    let braced = t.subrange(p, p + 2 + e);
    assert(braced =~= open + key);
    assert forall|j: int| 2 <= j < braced.len() implies #[trigger] braced[j] != '{' by {
        assert(braced[j] == key[j - 2]);
        assert(key.contains(key[j - 2]));
    }
    lemma_last_open(braced, e);
    assert(t.take(p) =~= front);
    assert(braced.skip(2) =~= key);
    assert(after.skip(e + 2) =~= rest);
}

/// Without a token that is closed a template stays as it is.
pub proof fn law_open_braces_stay(t: Seq<char>, vars: Seq<(Seq<char>, Seq<char>)>)
    requires
        !t.contains('{') || !t.contains('}'),
    ensures
        filled(t, vars) == t,
{
    lemma_find(t, seq!['{', '{']);
    if let Some(p) = find(t, seq!['{', '{']) {
        let after = t.skip(p as int + 2);
        assert(t.skip(p as int).take(2)[0] == '{');
        assert(t[p as int] == '{');
        lemma_find(after, seq!['}', '}']);
        if let Some(e) = find(after, seq!['}', '}']) {
            assert(after.skip(e as int).take(2)[0] == '}');
            assert(t[(p + 2 + e) as int] == '}');
        }
    }
}

proof fn lemma_last_open_at(braced: Seq<char>, o: int, i: int)
    requires
        0 < o <= i < braced.len() - 1,
        braced[o] == '{',
        braced[o + 1] == '{',
        forall|j: int| o + 2 <= j < braced.len() ==> #[trigger] braced[j] != '{',
    ensures
        last_open(braced, i) == o,
    decreases i,
{
    if i > o {
        assert(braced[i + 1] != '{');
        lemma_last_open_at(braced, o, i - 1);
    }
}

/// Braces that open and are opened again before any close stay as they are: the token runs from the
/// last that open in front of the closing ones.
pub proof fn law_the_last_open_braces_count(
    front: Seq<char>,
    between: Seq<char>,
    key: Seq<char>,
    rest: Seq<char>,
    vars: Seq<(Seq<char>, Seq<char>)>,
)
    requires
        !front.contains('{'),
        !between.contains('{'),
        !between.contains('}'),
        !key.contains('{'),
        !key.contains('}'),
    ensures
        filled(
            front + seq!['{', '{'] + between + seq!['{', '{'] + key + seq!['}', '}'] + rest,
            vars,
        ) == front + seq!['{', '{'] + between + value_of(vars, key) + filled(rest, vars),
{
    let open = seq!['{', '{'];
    let close = seq!['}', '}'];
    let t = front + open + between + open + key + close + rest;
    let p = front.len() as int;
    assert forall|j: int| 0 <= j < p implies !crate::text::starts_with(
        #[trigger] t.skip(j),
        open,
    ) by {
        assert(t.skip(j)[0] == front[j]);
        assert(front.contains(front[j]));
        if t.skip(j).take(2) == open {
            assert(t.skip(j).take(2)[0] == '{');
        }
    }
    assert(t.skip(p).take(2) =~= open);
    crate::text::lemma_find_is(t, open, p as nat);
    let after = t.skip(p + 2);
    assert(after =~= between + open + key + close + rest);
    let o = between.len() as int + 2;
    let e = o + key.len();
    assert forall|j: int| 0 <= j < e implies !crate::text::starts_with(
        #[trigger] after.skip(j),
        close,
    ) by {
        assert(after[j] != '}') by {
            if j < between.len() {
                assert(after[j] == between[j]);
                assert(between.contains(between[j]));
            } else if j >= o {
                assert(after[j] == key[j - o]);
                assert(key.contains(key[j - o]));
            }
        }
        assert(after.skip(j)[0] == after[j]);
        if after.skip(j).take(2) == close {
            assert(after.skip(j).take(2)[0] == '}');
        }
    }
    assert(after.skip(e).take(2) =~= close);
    crate::text::lemma_find_is(after, close, e as nat);
    let braced = t.subrange(p, p + 2 + e);
    assert(braced =~= open + between + open + key);
    assert forall|j: int| o + 2 <= j < braced.len() implies #[trigger] braced[j] != '{' by {
        assert(braced[j] == key[j - o - 2]);
        assert(key.contains(key[j - o - 2]));
    }
    assert(braced[o] == '{' && braced[o + 1] == '{');
    lemma_last_open_at(braced, o, e);
    assert(t.take(p + o) =~= front + open + between);
    assert(braced.skip(o + 2) =~= key);
    assert(after.skip(e + 2) =~= rest);
}

}
