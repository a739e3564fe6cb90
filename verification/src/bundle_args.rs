//! Command-line arguments of the bundling task: a `bundle` command without a package
//! gets the plugin's package inserted as its first argument.

use vstd::prelude::*;

verus! {

/// Whether `prefix` is a prefix of `s`.
pub open spec fn is_prefix(prefix: Seq<char>, s: Seq<char>) -> bool {
    prefix.len() <= s.len() && s.take(prefix.len() as int) == prefix
}

/// Whether an argument is a bundling command.
pub open spec fn is_bundle_command(arg: Seq<char>) -> bool {
    arg == "bundle"@ || arg == "bundle-universal"@
}

/// Whether an argument names the package by a flag.
pub open spec fn is_package_flag(arg: Seq<char>) -> bool {
    arg == "-p"@ || arg == "--package"@ || is_prefix("--package="@, arg)
}

/// Whether an argument is positional (does not start with `-`).
pub open spec fn is_positional(arg: Seq<char>) -> bool {
    !(arg.len() > 0 && arg[0] == '-')
}

/// Whether a bundling command lacks a package: its first argument after the command is
/// not positional, and no argument after the command is a package flag.
pub open spec fn lacks_package(args: Seq<Seq<char>>) -> bool {
    &&& args.len() > 0
    &&& is_bundle_command(args[0])
    &&& !(args.len() > 1 && is_positional(args[1]))
    &&& !(exists|i: int| 1 <= i < args.len() && is_package_flag(args[i]))
}

/// The arguments with the package inserted after a bundling command that lacks one.
pub open spec fn bundle_result(args: Seq<Seq<char>>, package: Seq<char>) -> Seq<Seq<char>> {
    if lacks_package(args) {
        args.insert(1, package)
    } else {
        args
    }
}

/// Defaulting the package twice is defaulting it once, for a package name that is
/// positional; and the defaulted list is the given list with at most the package added
/// right after the command.
pub proof fn lemma_bundle_default_idempotent(args: Seq<Seq<char>>, package: Seq<char>)
    requires
        is_positional(package),
    ensures
        bundle_result(bundle_result(args, package), package) == bundle_result(args, package),
        lacks_package(args) ==> bundle_result(args, package).remove(1) == args,
        !lacks_package(args) ==> bundle_result(args, package) == args,
{
    if lacks_package(args) {
        let r = args.insert(1, package);
        assert(r[1] == package);
        assert(!lacks_package(r));
        assert(r.remove(1) =~= args);
    }
}

/// A `-p`, `--package` or `--package=..` flag anywhere after the command leaves the
/// arguments as they are; so does a positional first argument, and so does any command
/// other than `bundle` and `bundle-universal`.
pub proof fn lemma_bundle_keeps_named_package(args: Seq<Seq<char>>, package: Seq<char>, i: int)
    ensures
        1 <= i < args.len() && (args[i] == "-p"@ || args[i] == "--package"@ || (args[i].len()
            >= "--package="@.len() && args[i].take("--package="@.len() as int) == "--package="@))
            ==> bundle_result(args, package) == args,
        args.len() > 1 && !(args[1].len() > 0 && args[1][0] == '-') ==> bundle_result(
            args,
            package,
        ) == args,
        args.len() > 0 && args[0] != "bundle"@ && args[0] != "bundle-universal"@ ==> bundle_result(
            args,
            package,
        ) == args,
        args.len() == 0 ==> bundle_result(args, package) == args,
{
    if 1 <= i < args.len() && (args[i] == "-p"@ || args[i] == "--package"@ || (args[i].len()
        >= "--package="@.len() && args[i].take("--package="@.len() as int) == "--package="@)) {
        assert(is_package_flag(args[i]));
    }
}

/// A `bundle` or `bundle-universal` command whose first argument after the command is a
/// flag (or missing) and that has no package flag anywhere gets the package inserted right
/// after the command, with every other argument kept in order.
pub proof fn lemma_bundle_inserts_missing_package(args: Seq<Seq<char>>, package: Seq<char>)
    requires
        args.len() > 0,
        args[0] == "bundle"@ || args[0] == "bundle-universal"@,
        args.len() == 1 || (args[1].len() > 0 && args[1][0] == '-'),
        forall|i: int|
            1 <= i < args.len() ==> args[i] != "-p"@ && args[i] != "--package"@ && !(args[i].len()
                >= "--package="@.len() && args[i].take("--package="@.len() as int)
                == "--package="@),
    ensures
        bundle_result(args, package).len() == args.len() + 1,
        bundle_result(args, package)[0] == args[0],
        bundle_result(args, package)[1] == package,
        forall|i: int| 1 <= i < args.len() ==> bundle_result(args, package)[i + 1] == args[i],
{
    assert(!(exists|i: int| 1 <= i < args.len() && is_package_flag(args[i])));
}

/// The characters of each argument.
pub open spec fn arg_chars(args: Seq<String>) -> Seq<Seq<char>> {
    args.map_values(|a: String| a@)
}

/// Whether two strings hold the same characters.
fn str_eq(a: &str, b: &str) -> (same: bool)
    ensures
        same == (a@ == b@),
{
    let n = a.unicode_len();
    if n != b.unicode_len() {
        return false;
    }
    let mut i: usize = 0;
    while i < n
        invariant
            n == a@.len(),
            n == b@.len(),
            i <= n,
            forall|j: int| 0 <= j < i ==> a@[j] == b@[j],
        decreases n - i,
    {
        if a.get_char(i) != b.get_char(i) {
            return false;
        }
        i = i + 1;
    }
    proof {
        assert(a@ =~= b@);
    }
    true
}

/// Whether `s` starts with `prefix`.
fn starts_with(s: &str, prefix: &str) -> (r: bool)
    ensures
        r == is_prefix(prefix@, s@),
{
    let n = prefix.unicode_len();
    if n > s.unicode_len() {
        return false;
    }
    let mut i: usize = 0;
    while i < n
        invariant
            n == prefix@.len(),
            n <= s@.len(),
            i <= n,
            forall|j: int| 0 <= j < i ==> s@[j] == prefix@[j],
        decreases n - i,
    {
        if s.get_char(i) != prefix.get_char(i) {
            proof {
                assert(s@.take(n as int)[i as int] != prefix@[i as int]);
            }
            return false;
        }
        i = i + 1;
    }
    proof {
        assert(s@.take(n as int) =~= prefix@);
    }
    true
}

/// Whether `s` starts with the character `c`.
fn starts_with_char(s: &str, c: char) -> (r: bool)
    ensures
        r == (s@.len() > 0 && s@[0] == c),
{
    s.unicode_len() > 0 && s.get_char(0) == c
}

/// Whether an argument names the package by a flag.
fn is_package_flag_arg(arg: &str) -> (r: bool)
    ensures
        r == is_package_flag(arg@),
{
    str_eq(arg, "-p") || str_eq(arg, "--package") || starts_with(arg, "--package=")
}

/// Inserts `package` as the first argument of a `bundle` or `bundle-universal` command
/// that names no package (neither positionally nor by `-p`/`--package`); any other
/// argument list is returned unchanged.
pub fn default_bundle_package(args: Vec<String>, package: &str) -> (result: Vec<String>)
    ensures
        arg_chars(result@) == bundle_result(arg_chars(args@), package@),
{
    let mut args = args;
    if args.len() == 0 {
        return args;
    }
    let ghost chars = arg_chars(args@);

    let command = args[0].as_str();
    if str_eq(command, "bundle") || str_eq(command, "bundle-universal") {
        let has_positional_package = args.len() > 1 && !starts_with_char(args[1].as_str(), '-');

        let mut has_package_flag = false;
        let mut i: usize = 1;
        while i < args.len() && !has_package_flag
            invariant
                1 <= i <= args@.len(),
                chars == arg_chars(args@),
                has_package_flag ==> i < args@.len() && is_package_flag(chars[i as int]),
                forall|j: int| 1 <= j < i ==> !is_package_flag(chars[j]),
            decreases args@.len() - i + (if has_package_flag { 0int } else { 1int }),
        {
            if is_package_flag_arg(args[i].as_str()) {
                has_package_flag = true;
            } else {
                i = i + 1;
            }
        }

        if !has_package_flag {
            assert(!(exists|j: int| 1 <= j < chars.len() && is_package_flag(chars[j])));
        }
        if !has_positional_package && !has_package_flag {
            let name = String::from_str(package);
            args.insert(1, name);
            proof {
                assert(arg_chars(args@) =~= chars.insert(1, package@));
            }
        }
    }
    args
}

} // verus!
