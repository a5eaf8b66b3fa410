//! Arguments of the command line.
use vstd::prelude::*;

use crate::text::{same, texts};

verus! {

/// The value after the first `name` that has one.
pub open spec fn flag_value(args: Seq<Seq<char>>, name: Seq<char>) -> Option<Seq<char>>
    decreases args.len(),
{
    if args.len() < 2 {
        None
    } else if args[0] == name {
        Some(args[1])
    } else {
        flag_value(args.drop_first(), name)
    }
}

/// The value after the first `name` that has one.
pub fn flag<'a>(args: &'a [String], name: &str) -> (r: Option<&'a str>)
    ensures
        crate::text::opt_view(r) == flag_value(texts(args@), name@),
{
    let ghost all = texts(args@);
    let mut i: usize = 0;
    assert(all.skip(0) =~= all);
    while i < args.len() && args.len() - i >= 2
        invariant
            i <= args.len(),
            all == texts(args@),
            flag_value(all.skip(i as int), name@) == flag_value(all, name@),
        decreases args.len() - i,
    {
        assert(all.skip(i as int)[0] == args@[i as int]@);
        assert(all.skip(i as int)[1] == args@[i + 1]@);
        assert(all.skip(i as int).drop_first() =~= all.skip(i + 1));
        if same(args[i].as_str(), name) {
            return Some(args[i + 1].as_str());
        }
        i += 1;
    }
    None
}

/// A flag has what stands behind the first place of its name; one that stands nowhere, or at
/// the very end, has nothing.
pub proof fn law_flag_value(args: Seq<Seq<char>>, name: Seq<char>, i: int)
    ensures
        0 <= i < args.len() && args[i] == name && (forall|j: int|
            0 <= j < i ==> #[trigger] args[j] != name) ==> flag_value(args, name) == (if i + 1
            < args.len() {
            Some(args[i + 1])
        } else {
            None
        }),
        (forall|j: int| 0 <= j < args.len() ==> #[trigger] args[j] != name) ==> flag_value(
            args,
            name,
        ) is None,
    decreases args.len(),
{
    if args.len() >= 2 && args[0] != name {
        let t = args.drop_first();
        law_flag_value(t, name, i - 1);
        if forall|j: int| 0 <= j < args.len() ==> #[trigger] args[j] != name {
            assert forall|j: int| 0 <= j < t.len() implies #[trigger] t[j] != name by {
                assert(args[j + 1] != name);
            }
        }
        if 0 <= i < args.len() && args[i] == name && (forall|j: int|
            0 <= j < i ==> #[trigger] args[j] != name) {
            assert forall|j: int| 0 <= j < i - 1 implies #[trigger] t[j] != name by {
                assert(args[j + 1] != name);
            }
            assert(t[i - 1] == args[i]);
        }
    } else if args.len() >= 2 {
        assert(args[0] == name);
    }
}

}
