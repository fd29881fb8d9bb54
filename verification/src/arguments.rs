//! The command lines of the tools.

use vstd::prelude::*;

use crate::composer::project::text_view;
use crate::text::{chars_of, same_str};

verus! {

/// Where an argument first stands, or how many there are.
pub open spec fn arg_place(args: Seq<String>, name: Seq<char>) -> int
    decreases args.len(),
{
    if args.len() == 0 || args[0]@ == name {
        0
    } else {
        1 + arg_place(args.skip(1), name)
    }
}

fn find_arg(args: &Vec<String>, name: &str) -> (r: usize)
    ensures
        r == arg_place(args@, name@),
        r <= args@.len(),
{
    let n: usize = args.len();
    let mut k: usize = 0;
    assert(args@.skip(0) =~= args@);
    while k < n
        invariant
            k <= n,
            n == args@.len(),
            arg_place(args@, name@) == k + arg_place(args@.skip(k as int), name@),
        decreases n - k,
    {
        assert(args@.skip(k as int)[0] == args@[k as int]);
        if same_str(args[k].as_str(), name) {
            return k;
        }
        assert(args@.skip(k as int).skip(1) =~= args@.skip(k + 1));
        k += 1;
    }
    k
}

/// Whether a flag is given.
pub fn has_flag(args: &Vec<String>, name: &str) -> (r: bool)
    ensures
        r == (arg_place(args@, name@) < args@.len()),
{
    find_arg(args, name) < args.len()
}

/// The value of an option: the argument behind its name.
pub fn option_value(args: &Vec<String>, name: &str) -> (r: Option<String>)
    ensures
        text_view(r) == (if arg_place(args@, name@) + 1 < args@.len() {
            Some(args@[arg_place(args@, name@) + 1]@)
        } else {
            None
        }),
{
    let k: usize = find_arg(args, name);
    if k < args.len() && k + 1 < args.len() {
        Some(args[k + 1].clone())
    } else {
        None
    }
}

/// Whether an argument is the name of an option.
pub open spec fn is_option(arg: Seq<char>) -> bool {
    arg.len() >= 2 && arg[0] == '-' && arg[1] == '-'
}

/// Where the first argument stands that is not the name of an option, or how many
/// there are.
pub open spec fn plain_place(args: Seq<String>) -> int
    decreases args.len(),
{
    if args.len() == 0 || !is_option(args[0]@) {
        0
    } else {
        1 + plain_place(args.skip(1))
    }
}

/// The file to work on: the first argument that is not the name of an option.
pub fn source_argument(args: &Vec<String>) -> (r: Option<String>)
    ensures
        text_view(r) == (if plain_place(args@) < args@.len() {
            Some(args@[plain_place(args@)]@)
        } else {
            None
        }),
{
    let n: usize = args.len();
    let mut k: usize = 0;
    assert(args@.skip(0) =~= args@);
    while k < n
        invariant
            k <= n,
            n == args@.len(),
            plain_place(args@) == k + plain_place(args@.skip(k as int)),
        decreases n - k,
    {
        assert(args@.skip(k as int)[0] == args@[k as int]);
        let v = chars_of(args[k].as_str());
        if !(v.len() >= 2 && v[0] == '-' && v[1] == '-') {
            return Some(args[k].clone());
        }
        assert(args@.skip(k as int).skip(1) =~= args@.skip(k + 1));
        k += 1;
    }
    None
}

/// The longest of some lengths: the last one, where several are.
pub fn longest(lengths: &Vec<usize>) -> (r: Option<usize>)
    ensures
        match r {
            None => lengths@.len() == 0,
            Some(k) => {
                &&& k < lengths@.len()
                &&& forall|i: int| 0 <= i < lengths@.len() ==> #[trigger] lengths@[i] <= lengths@[k as int]
                &&& forall|i: int|
                    k < i < lengths@.len() ==> #[trigger] lengths@[i] < lengths@[k as int]
            },
        },
{
    let n: usize = lengths.len();
    if n == 0 {
        return None;
    }
    let mut best: usize = 0;
    let mut k: usize = 1;
    while k < n
        invariant
            best < k <= n,
            n == lengths@.len(),
            forall|i: int| 0 <= i < k ==> #[trigger] lengths@[i] <= lengths@[best as int],
            forall|i: int| best < i < k ==> #[trigger] lengths@[i] < lengths@[best as int],
        decreases n - k,
    {
        if lengths[k] >= lengths[best] {
            best = k;
        }
        k += 1;
    }
    Some(best)
}

/// An argument is found where it first stands, and is not there only where none is
/// the same text.
pub proof fn law_an_argument_is_found_where_it_first_stands(args: Seq<String>, name: Seq<char>)
    ensures
        0 <= arg_place(args, name) <= args.len(),
        arg_place(args, name) < args.len() ==> args[arg_place(args, name)]@ == name,
        forall|k: int|
            0 <= k < args.len() && (#[trigger] args[k])@ == name ==> arg_place(args, name) <= k,
    decreases args.len(),
{
    if args.len() > 0 && args[0]@ != name {
        let rest = args.skip(1);
        law_an_argument_is_found_where_it_first_stands(rest, name);
        assert forall|k: int| 0 <= k < args.len() && (
        #[trigger] args[k])@ == name implies arg_place(args, name) <= k by {
            if k > 0 {
                assert(rest[k - 1] == args[k]);
            }
        }
    }
}

/// The source is the first argument that does not start with two dashes.
pub proof fn law_the_source_is_the_first_that_is_no_option(args: Seq<String>)
    ensures
        0 <= plain_place(args) <= args.len(),
        plain_place(args) < args.len() ==> !(args[plain_place(args)]@.len() >= 2
            && args[plain_place(args)]@[0] == '-' && args[plain_place(args)]@[1] == '-'),
        forall|k: int|
            0 <= k < args.len() && !((#[trigger] args[k])@.len() >= 2 && args[k]@[0] == '-'
                && args[k]@[1] == '-') ==> plain_place(args) <= k,
    decreases args.len(),
{
    if args.len() > 0 && is_option(args[0]@) {
        let rest = args.skip(1);
        law_the_source_is_the_first_that_is_no_option(rest);
        assert forall|k: int|
            0 <= k < args.len() && !((#[trigger] args[k])@.len() >= 2 && args[k]@[0] == '-'
                && args[k]@[1] == '-') implies plain_place(args) <= k by {
            if k > 0 {
                assert(rest[k - 1] == args[k]);
            }
        }
    }
}

} // verus!
