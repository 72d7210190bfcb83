//! Self-update decisions: reading the published version out of a manifest,
//! comparing versions, reading the `update` command line and choosing how to
//! reinstall. Fetching, running the installer and the process environment
//! stay with the caller.

use vstd::prelude::*;
use crate::text::{
    chars_of, digits_value, is_digit, is_lit, lines, parse_unsigned, slice_of, split_chars,
    split_lines, split_on, string_of, trim, trimmed, views,
};

verus! {

/// End of the run of ASCII digits starting at `i`.
pub open spec fn run_end(s: Seq<char>, i: int) -> int
    decreases s.len() - i,
{
    if i < 0 || i >= s.len() || !is_digit(s[i]) {
        i
    } else {
        run_end(s, i + 1)
    }
}

proof fn lemma_run_end(s: Seq<char>, i: int)
    requires
        0 <= i <= s.len(),
    ensures
        i <= run_end(s, i) <= s.len(),
        forall|k: int| i <= k < run_end(s, i) ==> is_digit(s[k]),
        run_end(s, i) < s.len() ==> !is_digit(s[run_end(s, i)]),
    decreases s.len() - i,
{
    if i < s.len() && is_digit(s[i]) {
        lemma_run_end(s, i + 1);
    }
}

/// The maximal runs of ASCII digits of `s` from position `i` on, in order.
pub open spec fn digit_runs_from(s: Seq<char>, i: int) -> Seq<Seq<char>>
    decreases s.len() - i,
{
    if i < 0 || i >= s.len() {
        Seq::empty()
    } else if !is_digit(s[i]) {
        digit_runs_from(s, i + 1)
    } else {
        let j = run_end(s, i + 1);
        if j <= i || j > s.len() {
            Seq::empty()
        } else {
            seq![s.subrange(i, j)] + digit_runs_from(s, j)
        }
    }
}

/// Numeric value of a run of digits, `0` when it does not fit `u64`
/// (`parse::<u64>().unwrap_or(0)`).
pub open spec fn run_value(run: Seq<char>) -> nat {
    match parse_unsigned(run, u64::MAX as nat) {
        Some(v) => v,
        None => 0,
    }
}

/// The `k`-th number of a version, `0` when there is none.
pub open spec fn nth_number(runs: Seq<Seq<char>>, k: int) -> nat {
    if 0 <= k < runs.len() {
        run_value(runs[k])
    } else {
        0
    }
}

/// Major, minor and patch of a version: its first three runs of digits
/// (anything else separates them; trimming the text changes no run).
pub open spec fn parts_of(v: Seq<char>) -> (nat, nat, nat) {
    let runs = digit_runs_from(v, 0);
    (nth_number(runs, 0), nth_number(runs, 1), nth_number(runs, 2))
}

/// Lexicographic order on version triples.
pub open spec fn triple_gt(a: (nat, nat, nat), b: (nat, nat, nat)) -> bool {
    a.0 > b.0 || (a.0 == b.0 && (a.1 > b.1 || (a.1 == b.1 && a.2 > b.2)))
}

/// Whether version `a` is newer than version `b`.
pub open spec fn newer(a: Seq<char>, b: Seq<char>) -> bool {
    triple_gt(parts_of(a), parts_of(b))
}

/// Value of a run of digits, as `parse::<u64>().unwrap_or(0)` gives it.
fn value_of_run(run: &Vec<char>) -> (r: u64)
    ensures
        r == run_value(run@),
{
    match crate::text::parse_bounded(run, u64::MAX) {
        Some(v) => v,
        None => 0,
    }
}

/// The numbers of a version: major, minor and patch.
pub fn parts(v: &str) -> (r: (u64, u64, u64))
    ensures
        r.0 == parts_of(v@).0,
        r.1 == parts_of(v@).1,
        r.2 == parts_of(v@).2,
{
    let s = chars_of(v);
    let mut nums: Vec<u64> = Vec::new();
    let mut i: usize = 0;
    let ghost all = digit_runs_from(s@, 0);
    while i < s.len() && nums.len() < 3
        invariant
            i <= s.len(),
            s@ == v@,
            all == digit_runs_from(s@, 0),
            nums@.len() <= 3,
            nums@.len() <= all.len(),
            all == all.subrange(0, nums@.len() as int) + digit_runs_from(s@, i as int),
            forall|k: int| 0 <= k < nums@.len() ==> nums@[k] == run_value(all[k]),
        decreases s.len() - i,
    {
        if !('0' <= s[i] && s[i] <= '9') {
            assert(digit_runs_from(s@, i as int) == digit_runs_from(s@, i + 1));
            i = i + 1;
        } else {
            let mut j: usize = i + 1;
            proof {
                lemma_run_end(s@, i + 1);
            }
            while j < s.len() && '0' <= s[j] && s[j] <= '9'
                invariant
                    i < j <= s.len(),
                    run_end(s@, i + 1) == run_end(s@, j as int),
                decreases s.len() - j,
            {
                j = j + 1;
            }
            let run = slice_of(&s, i, j);
            let ghost rest = digit_runs_from(s@, j as int);
            assert(digit_runs_from(s@, i as int) == seq![s@.subrange(i as int, j as int)] + rest);
            let ghost n0 = nums@.len() as int;
            assert(all[n0] == run@) by {
                assert(all == all.subrange(0, n0) + (seq![run@] + rest));
            }
            nums.push(value_of_run(&run));
            proof {
                assert(all.subrange(0, n0 + 1) =~= all.subrange(0, n0).push(run@));
                assert(all =~= all.subrange(0, n0 + 1) + rest);
            }
            i = j;
        }
    }
    proof {
        if nums@.len() < 3 {
            assert(digit_runs_from(s@, i as int) =~= Seq::<Seq<char>>::empty());
            assert(all =~= all.subrange(0, nums@.len() as int));
        }
    }
    let a: u64 = if nums.len() > 0 { nums[0] } else { 0 };
    let b: u64 = if nums.len() > 1 { nums[1] } else { 0 };
    let c: u64 = if nums.len() > 2 { nums[2] } else { 0 };
    (a, b, c)
}

/// Whether version `a` is newer than version `b` (plain numeric x.y.z).
pub fn is_newer(a: &str, b: &str) -> (r: bool)
    ensures
        r == newer(a@, b@),
{
    let x = parts(a);
    let y = parts(b);
    x.0 > y.0 || (x.0 == y.0 && (x.1 > y.1 || (x.1 == y.1 && x.2 > y.2)))
}

/// "Newer" is a strict order: never reflexive, never both ways.
pub proof fn newer_is_strict(a: Seq<char>, b: Seq<char>)
    ensures
        !newer(a, a),
        newer(a, b) ==> !newer(b, a),
{
}

/// "Newer" is transitive.
pub proof fn newer_is_transitive(a: Seq<char>, b: Seq<char>, c: Seq<char>)
    requires
        newer(a, b),
        newer(b, c),
    ensures
        newer(a, c),
{
}

/// Two versions either compare one way or the other, or have the same numbers.
pub proof fn newer_is_total(a: Seq<char>, b: Seq<char>)
    ensures
        newer(a, b) || newer(b, a) || parts_of(a) == parts_of(b),
{
}

/// Whether a trimmed manifest line declares the version: it starts with
/// `version` and holds an `=`.
pub open spec fn is_version_line(l: Seq<char>) -> bool {
    &&& l.len() >= 7
    &&& l.subrange(0, 7) == "version"@
    &&& l.contains('=')
}

/// Index of the first version line among `ls` from `k` on.
pub open spec fn first_version_line(ls: Seq<Seq<char>>, k: int) -> Option<int>
    decreases ls.len() - k,
{
    if k < 0 || k >= ls.len() {
        None
    } else if is_version_line(trim(ls[k])) {
        Some(k)
    } else {
        first_version_line(ls, k + 1)
    }
}

/// The version a manifest declares: the first trimmed line that starts with
/// `version` and holds an `=`, and in it the text between its first two `"`.
pub open spec fn version_of(manifest: Seq<char>) -> Option<Seq<char>> {
    let ls = lines(manifest);
    match first_version_line(ls, 0) {
        Some(k) => {
            let pieces = split_on(trim(ls[k]), '"');
            if pieces.len() > 1 {
                Some(pieces[1])
            } else {
                None
            }
        },
        None => None,
    }
}

/// Whether a trimmed line declares the version.
fn version_line(l: &Vec<char>) -> (r: bool)
    ensures
        r == is_version_line(l@),
{
    if l.len() < 7 {
        return false;
    }
    let head = slice_of(l, 0, 7);
    if !is_lit(&head, "version") {
        return false;
    }
    let mut i: usize = 0;
    while i < l.len()
        invariant
            i <= l.len(),
            l@.len() >= 7,
            l@.subrange(0, 7) == "version"@,
            forall|k: int| 0 <= k < i ==> l@[k] != '=',
        decreases l.len() - i,
    {
        if l[i] == '=' {
            assert(l@[i as int] == '=');
            assert(l@.contains('='));
            return true;
        }
        i = i + 1;
    }
    false
}

/// The version declared by a manifest (the one of its `[package]`).
pub fn parse_version(manifest: &str) -> (r: Option<String>)
    ensures
        match r {
            Some(v) => version_of(manifest@) == Some(v@),
            None => version_of(manifest@) is None,
        },
{
    let text = chars_of(manifest);
    let ls = split_lines(&text);
    let ghost lv = views(ls@);
    let mut k: usize = 0;
    while k < ls.len()
        invariant
            k <= ls.len(),
            lv == views(ls@),
            lv == lines(manifest@),
            first_version_line(lv, 0) == first_version_line(lv, k as int),
        decreases ls.len() - k,
    {
        let t = trimmed(&ls[k]);
        assert(ls@[k as int]@ == lv[k as int]);
        if version_line(&t) {
            let pieces = split_chars(&t, '"');
            if pieces.len() > 1 {
                return Some(string_of(&pieces[1]));
            } else {
                return None;
            }
        }
        k = k + 1;
    }
    None
}

/// How the binary is reinstalled.
#[derive(Debug, Clone, Copy, PartialEq, Eq)]
pub enum Method {
    /// `cargo install --force` from the repository.
    Cargo,
    /// The repository's `install.sh`.
    Script,
}

impl Method {
    /// How the method is named to the user.
    pub fn label(self) -> (r: &'static str)
        ensures
            r@ == match self {
                Method::Cargo => "cargo install --force"@,
                Method::Script => "install.sh"@,
            },
    {
        match self {
            Method::Cargo => "cargo install --force",
            Method::Script => "install.sh",
        }
    }
}

/// The method used when none is forced: cargo when the binary lives in
/// cargo's `bin` and cargo is available; otherwise the script when `curl` is
/// there; otherwise cargo when available; the script as a last resort.
pub open spec fn method_for(in_cargo_bin: bool, has_cargo: bool, has_curl: bool) -> Method {
    if in_cargo_bin && has_cargo {
        Method::Cargo
    } else if has_curl {
        Method::Script
    } else if has_cargo {
        Method::Cargo
    } else {
        Method::Script
    }
}

/// Chooses how to reinstall.
pub fn detect_method(in_cargo_bin: bool, has_cargo: bool, has_curl: bool) -> (r: Method)
    ensures
        r == method_for(in_cargo_bin, has_cargo, has_curl),
{
    if in_cargo_bin && has_cargo {
        Method::Cargo
    } else if has_curl {
        Method::Script
    } else if has_cargo {
        Method::Cargo
    } else {
        Method::Script
    }
}


/// What an `update` command line asks for.
#[derive(Debug, Clone, Copy, PartialEq, Eq)]
pub enum UpdateCommand {
    /// Compare (and reinstall unless `check_only`), possibly forced or with a
    /// forced method.
    Run { check_only: bool, force: bool, method: Option<Method> },
    Help,
}

/// The command an `update` command line asks for, read from position `i`
/// with the flags gathered so far; `Err` carries an unknown option.
pub open spec fn update_args_from(
    args: Seq<Seq<char>>,
    i: int,
    check_only: bool,
    force: bool,
    method: Option<Method>,
) -> Result<UpdateCommand, Seq<char>>
    decreases args.len() - i,
{
    if i < 0 || i >= args.len() {
        Ok(UpdateCommand::Run { check_only, force, method })
    } else {
        let a = args[i];
        if a == "--check"@ {
            update_args_from(args, i + 1, true, force, method)
        } else if a == "--force"@ || a == "-f"@ {
            update_args_from(args, i + 1, check_only, true, method)
        } else if a == "--cargo"@ {
            update_args_from(args, i + 1, check_only, force, Some(Method::Cargo))
        } else if a == "--script"@ {
            update_args_from(args, i + 1, check_only, force, Some(Method::Script))
        } else if a == "--help"@ || a == "-h"@ {
            Ok(UpdateCommand::Help)
        } else {
            Err(a)
        }
    }
}

/// Reads the `update` command line (the arguments after `update`); an
/// unknown option is returned as the error.
pub fn parse_update_args(args: &Vec<String>) -> (r: Result<UpdateCommand, String>)
    ensures
        match r {
            Ok(c) => update_args_from(crate::gain::string_views(args@), 0, false, false, None) == Ok::<UpdateCommand, Seq<char>>(c),
            Err(e) => update_args_from(crate::gain::string_views(args@), 0, false, false, None) == Err::<UpdateCommand, Seq<char>>(e@),
        },
{
    let ghost sargs = crate::gain::string_views(args@);
    let mut check_only = false;
    let mut force = false;
    let mut method: Option<Method> = None;
    let mut i: usize = 0;
    while i < args.len()
        invariant
            sargs == crate::gain::string_views(args@),
            sargs.len() == args.len(),
            i <= args.len(),
            update_args_from(sargs, i as int, check_only, force, method) == update_args_from(sargs, 0, false, false, None),
        decreases args.len() - i,
    {
        let a = chars_of(args[i].as_str());
        assert(a@ == sargs[i as int]);
        if is_lit(&a, "--check") {
            check_only = true;
        } else if is_lit(&a, "--force") || is_lit(&a, "-f") {
            force = true;
        } else if is_lit(&a, "--cargo") {
            method = Some(Method::Cargo);
        } else if is_lit(&a, "--script") {
            method = Some(Method::Script);
        } else if is_lit(&a, "--help") || is_lit(&a, "-h") {
            return Ok(UpdateCommand::Help);
        } else {
            return Err(string_of(&a));
        }
        i = i + 1;
    }
    Ok(UpdateCommand::Run { check_only, force, method })
}

/// What `update` does once the published version is known (or not).
#[derive(Debug, Clone, Copy, PartialEq, Eq)]
pub enum UpdatePlan {
    /// `--check`: report whether a newer version is published (exit 1 if so).
    Checked { outdated: bool },
    /// Already on the published version: nothing to do (exit 0).
    UpToDate,
    /// The published version is unknown and nothing was forced (exit 1).
    NothingToCompare,
    /// Reinstall.
    Install,
}

/// The plan: outdated means a published version exists and is newer; without
/// one nothing is guessed, only `--force` reinstalls.
pub open spec fn plan_for(remote: Option<Seq<char>>, local: Seq<char>, check_only: bool, force: bool) -> UpdatePlan {
    let outdated = match remote {
        Some(v) => newer(v, local),
        None => false,
    };
    if check_only {
        UpdatePlan::Checked { outdated }
    } else if !outdated && !force {
        if remote is Some {
            UpdatePlan::UpToDate
        } else {
            UpdatePlan::NothingToCompare
        }
    } else {
        UpdatePlan::Install
    }
}

/// Decides what `update` does.
pub fn update_plan(remote: Option<&str>, local: &str, check_only: bool, force: bool) -> (r: UpdatePlan)
    ensures
        r == plan_for(crate::telemetry::opt_view(remote), local@, check_only, force),
{
    let outdated = match remote {
        Some(v) => is_newer(v, local),
        None => false,
    };
    if check_only {
        UpdatePlan::Checked { outdated }
    } else if !outdated && !force {
        if remote.is_some() {
            UpdatePlan::UpToDate
        } else {
            UpdatePlan::NothingToCompare
        }
    } else {
        UpdatePlan::Install
    }
}

/// The process exit status of a plan that ends without reinstalling.
pub open spec fn plan_status(p: UpdatePlan) -> i32 {
    match p {
        UpdatePlan::Checked { outdated } => if outdated { 1 } else { 0 },
        UpdatePlan::UpToDate => 0,
        UpdatePlan::NothingToCompare => 1,
        UpdatePlan::Install => 0,
    }
}

/// `update --check` exits with 1 exactly when a newer version is
/// published; a plain `update` reinstalls exactly when one is, or when
/// forced.
pub proof fn update_acts_only_on_newer_versions(remote: Option<Seq<char>>, local: Seq<char>, force: bool)
    ensures
        plan_status(plan_for(remote, local, true, force)) == 1 <==> (remote matches Some(v) && newer(v, local)),
        (plan_for(remote, local, false, force) == UpdatePlan::Install) <==> (force || (remote matches Some(v)
            && newer(v, local))),
{
}

/// Exit status of a plan that ends without reinstalling.
pub fn exit_status(p: UpdatePlan) -> (r: i32)
    ensures
        r == plan_status(p),
{
    match p {
        UpdatePlan::Checked { outdated } => if outdated { 1 } else { 0 },
        UpdatePlan::UpToDate => 0,
        UpdatePlan::NothingToCompare => 1,
        UpdatePlan::Install => 0,
    }
}

/// The components of a `/`-separated path as `Path::components` reads them:
/// a leading `/` is the root, empty pieces and `.` are skipped except a
/// leading `.` of a relative path.
pub open spec fn components_of(p: Seq<char>) -> Seq<Seq<char>> {
    let pieces = split_on(p, '/');
    let named = pieces.filter(|x: Seq<char>| x.len() > 0 && x != "."@);
    if p.len() > 0 && p[0] == '/' {
        seq!["/"@] + named
    } else if pieces.len() > 0 && pieces[0] == "."@ {
        seq!["."@] + named
    } else {
        named
    }
}

/// `Path::starts_with`: the components of `base` begin those of `p`.
pub open spec fn path_starts_with(p: Seq<char>, base: Seq<char>) -> bool {
    let a = components_of(p);
    let b = components_of(base);
    b.len() <= a.len() && a.subrange(0, b.len() as int) == b
}

/// Collects the components of a path.
pub fn components(p: &Vec<char>) -> (r: Vec<Vec<char>>)
    ensures
        views(r@) == components_of(p@),
{
    let pieces = split_chars(p, '/');
    let ghost pv = views(pieces@);
    let ghost pred = |x: Seq<char>| x.len() > 0 && x != "."@;
    let mut out: Vec<Vec<char>> = Vec::new();
    if p.len() > 0 && p[0] == '/' {
        out.push(chars_of("/"));
    } else if pieces.len() > 0 && is_lit(&pieces[0], ".") {
        assert(pieces@[0]@ == pv[0]);
        out.push(chars_of("."));
    }
    let ghost head = views(out@);
    let mut k: usize = 0;
    assert(pv.subrange(0, 0) =~= Seq::<Seq<char>>::empty());
    while k < pieces.len()
        invariant
            k <= pieces.len(),
            pv == views(pieces@),
            pv == split_on(p@, '/'),
            views(out@) == head + pv.subrange(0, k as int).filter(pred),
            pred == (|x: Seq<char>| x.len() > 0 && x != "."@),
        decreases pieces.len() - k,
    {
        let ghost before = views(out@);
        assert(pv.subrange(0, k + 1) =~= pv.subrange(0, k as int).push(pv[k as int]));
        proof {
            pv.subrange(0, k as int).lemma_filter_push(pv[k as int], pred);
        }
        assert(pieces@[k as int]@ == pv[k as int]);
        if pieces[k].len() > 0 && !is_lit(&pieces[k], ".") {
            let c = slice_of(&pieces[k], 0, pieces[k].len());
            assert(c@ =~= pv[k as int]);
            let ghost old_out = out@;
            out.push(c);
            assert(out@ =~= old_out.push(c));
            assert(views(out@) =~= before.push(pv[k as int]));
        }
        k = k + 1;
    }
    assert(pv.subrange(0, k as int) =~= pv);
    proof {
        reveal_strlit("/");
        reveal_strlit(".");
    }
    out
}

/// Whether path `p` lies under `base`, component by component.
pub fn starts_with(p: &str, base: &str) -> (r: bool)
    ensures
        r == path_starts_with(p@, base@),
{
    let a = components(&chars_of(p));
    let b = components(&chars_of(base));
    if b.len() > a.len() {
        return false;
    }
    let mut k: usize = 0;
    while k < b.len()
        invariant
            k <= b.len() <= a.len(),
            views(a@) == components_of(p@),
            views(b@) == components_of(base@),
            forall|q: int| 0 <= q < k ==> a@[q]@ == b@[q]@,
        decreases b.len() - k,
    {
        if !crate::text::same_chars(&a[k], &b[k]) {
            assert(views(a@)[k as int] == a@[k as int]@);
            assert(views(b@)[k as int] == b@[k as int]@);
            assert(views(a@).subrange(0, b@.len() as int)[k as int] == views(a@)[k as int]);
            assert(views(a@).subrange(0, b@.len() as int) != views(b@));
            return false;
        }
        k = k + 1;
    }
    assert(views(a@).subrange(0, b@.len() as int) =~= views(b@));
    true
}

/// cargo's `bin` directory: `$CARGO_HOME/bin`, else `$HOME/.cargo/bin`
/// (an unset `$HOME` reads as empty).
pub open spec fn cargo_bin_of(cargo_home: Option<Seq<char>>, home: Option<Seq<char>>) -> Seq<char> {
    let base = match cargo_home {
        Some(c) => c,
        None => crate::text::join_path(
            match home {
                Some(h) => h,
                None => Seq::empty(),
            },
            ".cargo"@,
        ),
    };
    crate::text::join_path(base, "bin"@)
}

/// cargo's `bin` directory, from `CARGO_HOME` and `HOME`.
pub fn cargo_bin(cargo_home: Option<&str>, home: Option<&str>) -> (r: String)
    ensures
        r@ == cargo_bin_of(crate::telemetry::opt_view(cargo_home), crate::telemetry::opt_view(home)),
{
    let base = match cargo_home {
        Some(c) => chars_of(c),
        None => {
            let h = match home {
                Some(h) => chars_of(h),
                None => Vec::new(),
            };
            crate::text::joined(&h, &chars_of(".cargo"))
        },
    };
    string_of(&crate::text::joined(&base, &chars_of("bin")))
}

} // verus!
