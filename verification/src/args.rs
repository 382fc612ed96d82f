//! The command-line flags: `-dr` runs without downloading, and
//! `-af <config> <remoteDir> <localDir> <name> [nameToSaveAs]` adds an entry
//! to a configuration.

use vstd::prelude::*;
use crate::text::{chars_of, contains, contains_exec, string_views};

verus! {

/// `-dr`
pub open spec fn flag_dry_run() -> Seq<char> {
    seq!['-', 'd', 'r']
}

/// `-af`
pub open spec fn flag_add_file() -> Seq<char> {
    seq!['-', 'a', 'f']
}

/// The argument at `x` holds `-af` and at least four arguments follow it.
pub open spec fn add_applies(args: Seq<Seq<char>>, x: int) -> bool {
    contains(args[x], flag_add_file()) && x + 4 < args.len()
}

/// The argument at `x` holds `-af` but fewer than four arguments follow it.
pub open spec fn add_lacks_fields(args: Seq<Seq<char>>, x: int) -> bool {
    contains(args[x], flag_add_file()) && !(x + 4 < args.len())
}

/// The fields that an `-af` at `x` takes: the next four arguments, and the
/// fifth where there is one.
pub open spec fn add_fields(args: Seq<Seq<char>>, x: int) -> Seq<Seq<char>> {
    if x + 5 < args.len() {
        args.subrange(x + 1, x + 6)
    } else {
        args.subrange(x + 1, x + 5)
    }
}

/// The fields gathered from the first `k` arguments, in order.
pub open spec fn gathered_fields(args: Seq<Seq<char>>, k: int) -> Seq<Seq<char>>
    decreases k,
{
    if k <= 0 {
        Seq::empty()
    } else if add_applies(args, k - 1) {
        gathered_fields(args, k - 1) + add_fields(args, k - 1)
    } else {
        gathered_fields(args, k - 1)
    }
}

/// How many of the first `k` arguments hold `-af` without the four fields.
pub open spec fn lacking_count(args: Seq<Seq<char>>, k: int) -> nat
    decreases k,
{
    if k <= 0 {
        0
    } else if add_lacks_fields(args, k - 1) {
        lacking_count(args, k - 1) + 1
    } else {
        lacking_count(args, k - 1)
    }
}

/// What the flags ask for.
pub struct Options {
    /// Some argument holds `-dr`: nothing is downloaded.
    pub dry_run: bool,
    /// Some `-af` came with its fields.
    pub should_add: bool,
    /// The fields of every complete `-af`, one after the other.
    pub add_to_config: Vec<String>,
    /// How many `-af` came without their fields; each is reported to the user.
    pub incomplete_adds: usize,
}

/// Reads the flags from the arguments, the program's name first.
pub fn parse_args(ag: &Vec<String>) -> (r: Options)
    ensures
        r.dry_run == exists|x: int|
            0 <= x < ag@.len() && contains(#[trigger] string_views(ag@)[x], flag_dry_run()),
        r.should_add == exists|x: int|
            0 <= x < ag@.len() && #[trigger] add_applies(string_views(ag@), x),
        string_views(r.add_to_config@) == gathered_fields(string_views(ag@), ag@.len() as int),
        r.incomplete_adds == lacking_count(string_views(ag@), ag@.len() as int),
{
    let ghost args = string_views(ag@);
    let dr = vec!['-', 'd', 'r'];
    let af = vec!['-', 'a', 'f'];
    assert(dr@ =~= flag_dry_run());
    assert(af@ =~= flag_add_file());
    let n = ag.len();
    let mut dry_run = false;
    let mut should_add = false;
    let mut fields: Vec<String> = Vec::new();
    let mut lacking: usize = 0;
    let mut x: usize = 0;
    while x < n
        invariant
            n == ag@.len() == args.len(),
            args == string_views(ag@),
            dr@ == flag_dry_run(),
            af@ == flag_add_file(),
            x <= n,
            lacking <= x,
            dry_run == exists|y: int| 0 <= y < x && contains(#[trigger] args[y], flag_dry_run()),
            should_add == exists|y: int| 0 <= y < x && #[trigger] add_applies(args, y),
            string_views(fields@) == gathered_fields(args, x as int),
            lacking == lacking_count(args, x as int),
        decreases n - x,
    {
        let a = chars_of(ag[x].as_str());
        assert(a@ == args[x as int]);
        if contains_exec(&a, &dr) {
            dry_run = true;
        }
        if contains_exec(&a, &af) {
            if n - x > 4 {
                should_add = true;
                let ghost before = fields@;
                let mut k: usize = x + 1;
                let last: usize = if n - x > 5 {
                    x + 5
                } else {
                    x + 4
                };
                while k <= last
                    invariant
                        x + 1 <= k <= last + 1,
                        last < n == ag@.len() == args.len(),
                        args == string_views(ag@),
                        fields@.len() == before.len() + (k - x - 1),
                        string_views(fields@) == string_views(before) + args.subrange(
                            x + 1,
                            k as int,
                        ),
                    decreases last + 1 - k,
                {
                    let f = ag[k].clone();
                    assert(f@ == args[k as int]);
                    let ghost prev = fields@;
                    fields.push(f);
                    assert(fields@ == prev.push(f));
                    assert(string_views(fields@) =~= string_views(prev).push(f@));
                    assert(args.subrange(x + 1, k + 1) =~= args.subrange(x + 1, k as int).push(
                        args[k as int],
                    ));
                    assert(string_views(fields@) =~= string_views(before) + args.subrange(
                        x + 1,
                        k + 1,
                    ));
                    k = k + 1;
                }
                assert(args.subrange(x + 1, last + 1) =~= add_fields(args, x as int));
            } else {
                lacking = lacking + 1;
            }
        }
        assert(exists|y: int| 0 <= y < x + 1 && contains(#[trigger] args[y], flag_dry_run())
            <==> (exists|y: int| 0 <= y < x && contains(#[trigger] args[y], flag_dry_run()))
            || contains(args[x as int], flag_dry_run()));
        assert(exists|y: int| 0 <= y < x + 1 && #[trigger] add_applies(args, y)
            <==> (exists|y: int| 0 <= y < x && #[trigger] add_applies(args, y)) || add_applies(
            args,
            x as int,
        ));
        x = x + 1;
    }
    Options { dry_run, should_add, add_to_config: fields, incomplete_adds: lacking }
}


/// With one `-af`, at `x`, the fields gathered from the whole command line
/// are exactly the arguments that follow it: the next five where there are
/// at least five, whatever follows them, and the next four where exactly
/// four follow; fewer than four gather nothing.
pub proof fn lemma_single_add_fields(args: Seq<Seq<char>>, x: int)
    requires
        0 <= x < args.len(),
        contains(args[x], flag_add_file()),
        forall|y: int| 0 <= y < args.len() && y != x ==> !contains(#[trigger] args[y], flag_add_file()),
    ensures
        x + 5 < args.len() ==> gathered_fields(args, args.len() as int) == args.subrange(x + 1, x + 6),
        x + 5 == args.len() ==> gathered_fields(args, args.len() as int) == args.subrange(x + 1, x + 5),
        x + 5 > args.len() ==> gathered_fields(args, args.len() as int) == Seq::<Seq<char>>::empty(),
{
    lemma_gathered_single(args, x, args.len() as int);
}

proof fn lemma_gathered_single(args: Seq<Seq<char>>, x: int, k: int)
    requires
        0 <= x < args.len(),
        0 <= k <= args.len(),
        contains(args[x], flag_add_file()),
        forall|y: int| 0 <= y < args.len() && y != x ==> !contains(#[trigger] args[y], flag_add_file()),
    ensures
        gathered_fields(args, k) == if k > x && x + 4 < args.len() {
            add_fields(args, x)
        } else {
            Seq::<Seq<char>>::empty()
        },
    decreases k,
{
    if k > 0 {
        lemma_gathered_single(args, x, k - 1);
        if k - 1 != x {
            assert(!contains(args[k - 1], flag_add_file()));
        } else if x + 4 < args.len() {
            assert(Seq::<Seq<char>>::empty() + add_fields(args, x) =~= add_fields(args, x));
        }
    }
}

} // verus!
