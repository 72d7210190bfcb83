//! `rtk_find`: files listed compactly, grouped by directory, over the same
//! walk as the indexer (the caller walks, honouring `.gitignore`; here the
//! index, `.git` and OpenSpec's archive are skipped, names are matched and
//! the listing is capped, saying how many were left out).

use vstd::prelude::*;
use crate::text::{
    blen, chars_of, decimal, strip_dot_slash, stripped_dot_slash, file_name, file_name_of, lemma_lex_asymmetric, lemma_lex_irreflexive,
    lemma_lex_total, lemma_lex_transitive, lex_less, lex_lt, lex_sorted, push_all, push_decimal,
    push_str, slice_of, sort_texts, string_of, views,
};
use crate::index::{join, join_chars, walk_skips, walk_skips_path};
use crate::tools::ToolResult;

verus! {

/// Most files listed; past it the answer says how many were left out (a
/// silent cut would read as "that is all").
pub const MAX_FILES: usize = 400;

/// Longest name pattern taken, in characters: globset turns a literal
/// prefix or suffix into an automaton whose states it numbers in 31 bits.
pub const MAX_PATTERN_CHARS: usize = 16777216;

/// Whether `name` matches the glob `pattern`: a globset `GlobSet` built from
/// that one glob (`*` also crossing `/`) matches it.
pub uninterp spec fn glob_matches(pattern: Seq<char>, name: Seq<char>) -> bool;

/// Whether globset accepts `pattern`: the glob parses and its set builds
/// (within the size limit of its compiled expressions).
pub uninterp spec fn glob_valid(pattern: Seq<char>) -> bool;

/// The message of globset's error for a pattern it refuses.
pub uninterp spec fn glob_error_of(pattern: Seq<char>) -> Seq<char>;

/// globset's compiled set of globs, declared so that a name pattern can hold
/// one; its contents are opaque to the proofs.
#[verifier::external_type_specification]
#[verifier::external_body]
pub struct ExGlobSet(globset::GlobSet);

/// globset's error for a glob it refuses; its contents are opaque to the proofs.
#[verifier::external_type_specification]
#[verifier::external_body]
pub struct ExGlobError(globset::Error);

/// A compiled name pattern with its source; only `compile_glob` makes one.
pub struct NamePattern {
    source: String,
    matcher: globset::GlobSet,
}

/// globset's refusal of a pattern, kept with the pattern; only
/// `compile_glob` makes one.
pub struct GlobRefusal {
    pattern: String,
    error: globset::Error,
}

/// Trusted: `GlobBuilder::new(pattern).literal_separator(false).build()`,
/// then a `GlobSetBuilder` with that glob alone and `GlobSetBuilder::build`
/// (which compiles the glob's expressions and reports a too large one as an
/// error). The claim: it succeeds exactly for the patterns globset accepts,
/// and the set (or the error) is kept with its pattern. Up to
/// `MAX_PATTERN_CHARS` characters no literal reaches the 31-bit state limit
/// of the automata it builds, where it would panic.
#[verifier::external_body]
fn compile_glob(pattern: &str) -> (r: Result<NamePattern, GlobRefusal>)
    requires
        pattern@.len() < MAX_PATTERN_CHARS,
    ensures
        r is Ok == glob_valid(pattern@),
        r matches Ok(p) ==> p.source@ == pattern@,
        r matches Err(e) ==> e.pattern@ == pattern@,
{
    let glob = match globset::GlobBuilder::new(pattern).literal_separator(false).build() {
        Ok(g) => g,
        Err(error) => return Err(GlobRefusal { pattern: pattern.to_string(), error }),
    };
    match globset::GlobSetBuilder::new().add(glob).build() {
        Ok(set) => Ok(NamePattern { source: pattern.to_string(), matcher: set }),
        Err(error) => Err(GlobRefusal { pattern: pattern.to_string(), error }),
    }
}

/// Trusted: `GlobSet::is_match` on a file name. The claim: the answer is
/// whether the name matches the pattern the set was built from.
#[verifier::external_body]
fn glob_is_match(p: &NamePattern, name: &str) -> (r: bool)
    ensures
        r == glob_matches(p.source@, name@),
{
    p.matcher.is_match(name)
}

/// Trusted: globset's `Display` of a build error. The claim: the message
/// depends on the refused pattern alone (globset's error holds the pattern
/// and the kind of failure).
#[verifier::external_body]
fn glob_error_text(e: &GlobRefusal) -> (r: String)
    ensures
        r@ == glob_error_of(e.pattern@),
{
    e.error.to_string()
}

/// The directory part of a walked path: everything before its last `/`
/// (`/` itself for a file at the root, empty for a bare name).
pub open spec fn parent_of(p: Seq<char>) -> Seq<char> {
    match crate::text::last_before(p, '/', p.len() as int) {
        Some(j) => if j == 0 {
            "/"@
        } else {
            p.subrange(0, j)
        },
        None => Seq::empty(),
    }
}

/// The directory part of a walked path.
pub fn parent(p: &Vec<char>) -> (r: Vec<char>)
    ensures
        r@ == parent_of(p@),
{
    let mut k: usize = p.len();
    while k > 0 && p[k - 1] != '/'
        invariant
            k <= p.len(),
            crate::text::last_before(p@, '/', p@.len() as int) == crate::text::last_before(p@, '/', k as int),
        decreases k,
    {
        k = k - 1;
    }
    if k == 0 {
        return Vec::new();
    }
    if k == 1 {
        return chars_of("/");
    }
    slice_of(p, 0, k - 1)
}

/// Whether a walked file is listed: not skipped, with a name, matching the
/// pattern when there is one.
pub open spec fn selected(p: Seq<char>, pattern: Option<Seq<char>>) -> bool {
    &&& !walk_skips_path(p)
    &&& file_name_of(p) is Some
    &&& match pattern {
        Some(g) => glob_matches(g, file_name_of(p)->0),
        None => true,
    }
}

/// The walked files that the listing counts, in walk order.
pub open spec fn matches_of(files: Seq<Seq<char>>, pattern: Option<Seq<char>>) -> Seq<Seq<char>> {
    files.filter(|p: Seq<char>| selected(p, pattern))
}

/// The baseline: every counted path on a line of its own.
pub open spec fn raw_size(ps: Seq<Seq<char>>) -> nat
    decreases ps.len(),
{
    if ps.len() == 0 {
        0
    } else {
        raw_size(ps.drop_last()) + blen(ps.last()) + 1
    }
}

/// A directory with the names listed in it.
pub struct DirGroup {
    pub dir: Vec<char>,
    pub names: Vec<Vec<char>>,
}

/// The listing: how many files matched, how many are shown, the baseline
/// size and the shown files grouped by directory.
pub struct FindListing {
    pub total: usize,
    pub listed: usize,
    pub raw_chars: usize,
    pub groups: Vec<DirGroup>,
}

/// The names (with their directory) of the shown paths.
pub open spec fn names_in(shown: Seq<Seq<char>>, dir: Seq<char>) -> Seq<Seq<char>> {
    shown.filter(|p: Seq<char>| parent_of(p) == dir).map_values(|p: Seq<char>| file_name_of(p)->0)
}

/// Groups of the shown paths: one per directory, directories in increasing
/// order, each with the names of its files in increasing order.
pub open spec fn grouped(gs: Seq<DirGroup>, shown: Seq<Seq<char>>) -> bool {
    &&& forall|a: int, b: int| 0 <= a < b < gs.len() ==> lex_lt(gs[a].dir@, gs[b].dir@)
    &&& forall|p: Seq<char>| shown.contains(p) ==> exists|a: int| 0 <= a < gs.len() && (#[trigger] gs[a].dir@) == parent_of(p)
    &&& forall|a: int| 0 <= a < gs.len() ==> names_in(shown, (#[trigger] gs[a]).dir@).len() > 0
    &&& forall|a: int| 0 <= a < gs.len() ==> lex_sorted(views((#[trigger] gs[a]).names@))
    &&& forall|a: int| 0 <= a < gs.len() ==> views((#[trigger] gs[a]).names@).to_multiset() == names_in(shown, gs[a].dir@).to_multiset()
}

/// What a listing must hold for the walked `files` and the pattern.
pub open spec fn listing_of(l: FindListing, files: Seq<Seq<char>>, pattern: Option<Seq<char>>) -> bool {
    let m = matches_of(files, pattern);
    &&& l.total == m.len()
    &&& l.listed == if m.len() <= MAX_FILES { m.len() } else { MAX_FILES as nat }
    &&& l.raw_chars == raw_size(m)
    &&& grouped(l.groups@, m.subrange(0, l.listed as int))
}


/// The view of an optional pattern.
pub open spec fn pattern_view(p: Option<&str>) -> Option<Seq<char>> {
    crate::telemetry::opt_view(p)
}

proof fn lemma_names_push(shown: Seq<Seq<char>>, p: Seq<char>, dir: Seq<char>)
    ensures
        names_in(shown.push(p), dir) == if parent_of(p) == dir {
            names_in(shown, dir).push(file_name_of(p)->0)
        } else {
            names_in(shown, dir)
        },
{
    let pred = |q: Seq<char>| parent_of(q) == dir;
    shown.lemma_filter_push(p, pred);
    let f = shown.filter(pred);
    if parent_of(p) == dir {
        assert(f.push(p).map_values(|q: Seq<char>| file_name_of(q)->0) =~= f.map_values(|q: Seq<char>| file_name_of(q)->0).push(file_name_of(p)->0));
    }
}

/// Adds a shown path to the groups.
fn add_to_groups(gs: &mut Vec<DirGroup>, p: &Vec<char>, name: &Vec<char>, Ghost(shown): Ghost<Seq<Seq<char>>>)
    requires
        file_name_of(p@) == Some(name@),
        forall|a: int, b: int| 0 <= a < b < old(gs)@.len() ==> lex_lt(old(gs)@[a].dir@, old(gs)@[b].dir@),
        forall|q: Seq<char>| shown.contains(q) ==> exists|a: int| 0 <= a < old(gs)@.len() && (#[trigger] old(gs)@[a].dir@) == parent_of(q),
        forall|a: int| 0 <= a < old(gs)@.len() ==> names_in(shown, (#[trigger] old(gs)@[a]).dir@).len() > 0,
        forall|a: int| 0 <= a < old(gs)@.len() ==> views((#[trigger] old(gs)@[a]).names@).to_multiset() == names_in(shown, old(gs)@[a].dir@).to_multiset(),
    ensures
        forall|a: int, b: int| 0 <= a < b < final(gs)@.len() ==> lex_lt(final(gs)@[a].dir@, final(gs)@[b].dir@),
        forall|q: Seq<char>| shown.push(p@).contains(q) ==> exists|a: int| 0 <= a < final(gs)@.len() && (#[trigger] final(gs)@[a].dir@) == parent_of(q),
        forall|a: int| 0 <= a < final(gs)@.len() ==> names_in(shown.push(p@), (#[trigger] final(gs)@[a]).dir@).len() > 0,
        forall|a: int| 0 <= a < final(gs)@.len() ==> views((#[trigger] final(gs)@[a]).names@).to_multiset() == names_in(shown.push(p@), final(gs)@[a].dir@).to_multiset(),
{
    let dir = parent(p);
    let ghost s2 = shown.push(p@);
    let mut idx: usize = 0;
    while idx < gs.len() && lex_less(&gs[idx].dir, &dir)
        invariant
            idx <= gs.len(),
            forall|a: int| 0 <= a < idx ==> lex_lt(#[trigger] gs@[a].dir@, dir@),
        decreases gs.len() - idx,
    {
        idx = idx + 1;
    }
    let ghost old_gs = gs@;
    assert forall|d: Seq<char>| #[trigger] names_in(s2, d) == if parent_of(p@) == d {
        names_in(shown, d).push(name@)
    } else {
        names_in(shown, d)
    } by {
        lemma_names_push(shown, p@, d);
    }
    assert forall|q: Seq<char>| s2.contains(q) && q != p@ implies shown.contains(q) by {
        let w = choose|w: int| 0 <= w < s2.len() && s2[w] == q;
        assert(shown[w] == q);
    }
    if idx < gs.len() && crate::text::same_chars(&gs[idx].dir, &dir) {
        let mut g = gs.remove(idx);
        let ghost old_names = views(g.names@);
        let nm = slice_of(name, 0, name.len());
        assert(nm@ =~= name@);
        let ghost old_vec = g.names@;
        g.names.push(nm);
        assert(g.names@ =~= old_vec.push(nm));
        proof {
            assert(views(g.names@) =~= old_names.push(name@));
            vstd::seq_lib::lemma_multiset_commutative(old_names, seq![name@]);
            vstd::seq_lib::lemma_multiset_commutative(names_in(shown, dir@), seq![name@]);
            assert(old_names.push(name@) =~= old_names + seq![name@]);
            assert(names_in(shown, dir@).push(name@) =~= names_in(shown, dir@) + seq![name@]);
        }
        gs.insert(idx, g);
        proof {
            assert(gs@ =~= old_gs.update(idx as int, g));
            assert forall|a: int| 0 <= a < gs@.len() implies views((#[trigger] gs@[a]).names@).to_multiset() == names_in(s2, gs@[a].dir@).to_multiset() by {
                if a != idx {
                    assert(gs@[a] == old_gs[a]);
                    assert(old_gs[a].dir@ != dir@) by {
                        if a < idx {
                            lemma_lex_irreflexive(dir@);
                        } else {
                            assert(lex_lt(old_gs[idx as int].dir@, old_gs[a].dir@));
                            if old_gs[a].dir@ == dir@ {
                                lemma_lex_irreflexive(dir@);
                            }
                        }
                    }
                }
            }
            assert forall|a: int| 0 <= a < gs@.len() implies names_in(s2, (#[trigger] gs@[a]).dir@).len() > 0 by {
                assert(gs@[a].dir@ == old_gs[a].dir@);
                assert(names_in(s2, old_gs[a].dir@).len() >= names_in(shown, old_gs[a].dir@).len());
            }
            assert forall|q: Seq<char>| s2.contains(q) implies exists|a: int| 0 <= a < gs@.len() && (#[trigger] gs@[a].dir@) == parent_of(q) by {
                if q == p@ {
                    assert(gs@[idx as int].dir@ == parent_of(q));
                } else {
                    let a = choose|a: int| 0 <= a < old_gs.len() && (#[trigger] old_gs[a].dir@) == parent_of(q);
                    assert(gs@[a].dir@ == old_gs[a].dir@);
                }
            }
        }
    } else {
        proof {
            if idx < gs.len() {
                lemma_lex_total(gs@[idx as int].dir@, dir@);
            }
        }
        let mut names: Vec<Vec<char>> = Vec::new();
        let nm = slice_of(name, 0, name.len());
        assert(nm@ =~= name@);
        names.push(nm);
        assert(names@ =~= seq![nm]);
        let g = DirGroup { dir, names };
        gs.insert(idx, g);
        proof {
            assert(gs@ =~= old_gs.insert(idx as int, g));
            assert forall|d: Seq<char>| (forall|a: int| 0 <= a < old_gs.len() ==> old_gs[a].dir@ != d) implies names_in(shown, d).len() == 0 by {
                if names_in(shown, d).len() > 0 {
                    let pred = |q: Seq<char>| parent_of(q) == d;
                    let f = shown.filter(pred);
                    assert(f.len() > 0);
                    assert(f.contains(f[0]));
                    shown.lemma_filter_contains_rev(pred, f[0]);
                    broadcast use vstd::seq_lib::group_filter_ensures;
                    let a = choose|a: int| 0 <= a < old_gs.len() && (#[trigger] old_gs[a].dir@) == parent_of(f[0]);
                }
            }
            assert forall|a: int| 0 <= a < old_gs.len() implies old_gs[a].dir@ != dir@ by {
                if a < idx {
                    assert(lex_lt(old_gs[a].dir@, dir@));
                    lemma_lex_irreflexive(dir@);
                } else {
                    assert(lex_lt(dir@, old_gs[idx as int].dir@));
                    if a > idx {
                        lemma_lex_transitive(dir@, old_gs[idx as int].dir@, old_gs[a].dir@);
                    }
                    if old_gs[a].dir@ == dir@ {
                        lemma_lex_irreflexive(dir@);
                    }
                }
            }
            assert(names_in(shown, dir@).len() == 0);
            assert(names_in(shown, dir@) =~= Seq::<Seq<char>>::empty());
            assert(names_in(s2, dir@) =~= seq![name@]);
            assert(views(g.names@) =~= seq![name@]);
            assert forall|a: int, b: int| 0 <= a < b < gs@.len() implies lex_lt(gs@[a].dir@, gs@[b].dir@) by {
                if b == idx {
                    assert(lex_lt(old_gs[a].dir@, dir@));
                } else if a == idx {
                    let ob = b - 1;
                    assert(gs@[b] == old_gs[ob]);
                    if ob > idx {
                        lemma_lex_transitive(dir@, old_gs[idx as int].dir@, old_gs[ob].dir@);
                    }
                } else {
                    let oa = if a < idx { a } else { a - 1 };
                    let ob = if b < idx { b } else { b - 1 };
                    assert(gs@[a] == old_gs[oa]);
                    assert(gs@[b] == old_gs[ob]);
                }
            }
            assert forall|a: int| 0 <= a < gs@.len() implies views((#[trigger] gs@[a]).names@).to_multiset() == names_in(s2, gs@[a].dir@).to_multiset() by {
                if a != idx {
                    let oa = if a < idx { a } else { a - 1 };
                    assert(gs@[a] == old_gs[oa]);
                    assert(old_gs[oa].dir@ != dir@);
                }
            }
            assert forall|a: int| 0 <= a < gs@.len() implies names_in(s2, (#[trigger] gs@[a]).dir@).len() > 0 by {
                if a != idx {
                    let oa = if a < idx { a } else { a - 1 };
                    assert(gs@[a] == old_gs[oa]);
                    assert(old_gs[oa].dir@ != dir@);
                }
            }
            assert forall|q: Seq<char>| s2.contains(q) implies exists|a: int| 0 <= a < gs@.len() && (#[trigger] gs@[a].dir@) == parent_of(q) by {
                if q == p@ {
                    assert(gs@[idx as int].dir@ == parent_of(q));
                } else {
                    let a = choose|a: int| 0 <= a < old_gs.len() && (#[trigger] old_gs[a].dir@) == parent_of(q);
                    let na = if a < idx { a } else { a + 1 };
                    assert(gs@[na] == old_gs[a]);
                }
            }
        }
    }
}


/// The start of the answer to a pattern globset refuses.
pub open spec fn invalid_pattern_prefix(p: Seq<char>) -> Seq<char> {
    "Patrón inválido '"@ + p + "': "@
}

proof fn lemma_raw_size_prefix(fv: Seq<Seq<char>>, i: int)
    requires
        0 <= i <= fv.len(),
    ensures
        raw_size(fv.take(i)) <= raw_size(fv),
    decreases fv.len() - i,
{
    if i < fv.len() {
        lemma_raw_size_prefix(fv, i + 1);
        assert(fv.take(i + 1).drop_last() =~= fv.take(i));
    } else {
        assert(fv.take(i) =~= fv);
    }
}

/// The listing of the walked files (paths as the walk gave them), matched
/// by name against `pattern` when there is one. A pattern globset refuses is
/// an error that quotes it.
pub fn find_listing(files: &Vec<String>, pattern: Option<&str>) -> (r: Result<FindListing, String>)
    requires
        raw_size(crate::gain::string_views(files@)) <= usize::MAX,
        pattern matches Some(p) ==> p@.len() < MAX_PATTERN_CHARS,
    ensures
        r is Ok <==> match pattern_view(pattern) {
            Some(g) => glob_valid(g),
            None => true,
        },
        r matches Ok(l) ==> listing_of(l, crate::gain::string_views(files@), pattern_view(pattern)),
        r matches Err(msg) ==> pattern matches Some(p) && msg@ == invalid_pattern_prefix(p@) + glob_error_of(p@),
{
    let ghost fv = crate::gain::string_views(files@);
    let ghost pv = pattern_view(pattern);
    let matcher: Option<NamePattern> = match pattern {
        None => None,
        Some(p) => match compile_glob(p) {
            Ok(m) => Some(m),
            Err(e) => {
                let mut msg: Vec<char> = Vec::new();
                push_str(&mut msg, "Patrón inválido '");
                push_str(&mut msg, p);
                push_str(&mut msg, "': ");
                let ghost pre = msg@;
                let et = glob_error_text(&e);
                push_str(&mut msg, et.as_str());
                assert(msg@ =~= invalid_pattern_prefix(p@) + glob_error_of(p@));
                return Err(string_of(&msg));
            },
        },
    };
    let mut groups: Vec<DirGroup> = Vec::new();
    let mut total: usize = 0;
    let mut listed: usize = 0;
    let mut raw: usize = 0;
    let mut i: usize = 0;
    assert(fv.take(0) =~= Seq::<Seq<char>>::empty());
    assert(matches_of(fv.take(0), pv) =~= Seq::<Seq<char>>::empty());
    while i < files.len()
        invariant
            i <= files.len(),
            fv == crate::gain::string_views(files@),
            fv.len() == files.len(),
            pv == pattern_view(pattern),
            raw_size(fv) <= usize::MAX,
            raw <= raw_size(fv.take(i as int)),
            match pv {
                Some(g) => matcher matches Some(m) && m.source@ == g,
                None => matcher is None,
            },
            total == matches_of(fv.take(i as int), pv).len(),
            raw == raw_size(matches_of(fv.take(i as int), pv)),
            listed == if total <= MAX_FILES { total } else { MAX_FILES },
            ({
                let shown = matches_of(fv.take(i as int), pv).subrange(0, listed as int);
                &&& forall|a: int, b: int| 0 <= a < b < groups@.len() ==> lex_lt(groups@[a].dir@, groups@[b].dir@)
                &&& forall|q: Seq<char>| shown.contains(q) ==> exists|a: int| 0 <= a < groups@.len() && (#[trigger] groups@[a].dir@) == parent_of(q)
                &&& forall|a: int| 0 <= a < groups@.len() ==> names_in(shown, (#[trigger] groups@[a]).dir@).len() > 0
                &&& forall|a: int| 0 <= a < groups@.len() ==> views((#[trigger] groups@[a]).names@).to_multiset() == names_in(shown, groups@[a].dir@).to_multiset()
            }),
        decreases files.len() - i,
    {
        let ghost m0 = matches_of(fv.take(i as int), pv);
        let ghost shown0 = m0.subrange(0, listed as int);
        let ghost sel = |p: Seq<char>| selected(p, pv);
        proof {
            assert(fv.take(i + 1) =~= fv.take(i as int).push(fv[i as int]));
            fv.take(i as int).lemma_filter_push(fv[i as int], sel);
            assert(fv[i as int] == files@[i as int]@);
            assert(fv.take(i + 1).drop_last() =~= fv.take(i as int));
            lemma_raw_size_prefix(fv, i + 1);
        }
        let path = files[i].as_str();
        let p = chars_of(path);
        let keep = if walk_skips(path) {
            None
        } else {
            match file_name(&p) {
                None => None,
                Some(name) => {
                    let ok = match &matcher {
                        Some(m) => glob_is_match(m, string_of(&name).as_str()),
                        None => true,
                    };
                    if ok { Some(name) } else { None }
                },
            }
        };
        match keep {
            None => {
                assert(!selected(p@, pv));
                assert(matches_of(fv.take(i + 1), pv) == m0);
            },
            Some(name) => {
                assert(selected(p@, pv));
                let ghost m1 = matches_of(fv.take(i + 1), pv);
                assert(m1 == m0.push(p@));
                assert(m1.drop_last() =~= m0);
                let len = crate::text::byte_len(&p);
                total = total + 1;
                raw = raw + len + 1;
                if listed < MAX_FILES {
                    add_to_groups(&mut groups, &p, &name, Ghost(shown0));
                    listed = listed + 1;
                    assert(m1.subrange(0, listed as int) =~= shown0.push(p@));
                } else {
                    assert(m1.subrange(0, listed as int) =~= shown0);
                }
            },
        }
        i = i + 1;
    }
    assert(fv.take(files.len() as int) =~= fv);
    let ghost m = matches_of(fv, pv);
    let ghost shown = m.subrange(0, listed as int);
    // Names within each directory in increasing order.
    let ghost unsorted = groups@;
    let n = groups.len();
    let mut sorted: Vec<DirGroup> = Vec::new();
    while groups.len() > 0
        invariant
            sorted.len() + groups.len() == n,
            n == unsorted.len(),
            groups@ == unsorted.subrange(sorted.len() as int, n as int),
            forall|a: int| 0 <= a < sorted.len() ==> (#[trigger] sorted@[a]).dir@ == unsorted[a].dir@,
            forall|a: int| 0 <= a < sorted.len() ==> lex_sorted(views((#[trigger] sorted@[a]).names@)),
            forall|a: int| 0 <= a < sorted.len() ==> views((#[trigger] sorted@[a]).names@).to_multiset() == views(unsorted[a].names@).to_multiset(),
        decreases groups.len(),
    {
        let ghost k = sorted.len();
        let mut g = groups.remove(0);
        assert(g == unsorted[k as int]);
        sort_texts(&mut g.names);
        sorted.push(g);
        assert(groups@ =~= unsorted.subrange(k + 1, n as int));
    }
    let l = FindListing { total, listed, raw_chars: raw, groups: sorted };
    assert(grouped(l.groups@, shown)) by {
        assert forall|q: Seq<char>| shown.contains(q) implies exists|a: int| 0 <= a < l.groups@.len() && (#[trigger] l.groups@[a].dir@) == parent_of(q) by {
            let a = choose|a: int| 0 <= a < unsorted.len() && (#[trigger] unsorted[a].dir@) == parent_of(q);
            assert(l.groups@[a].dir@ == unsorted[a].dir@);
        }
        assert forall|a: int| 0 <= a < l.groups@.len() implies names_in(shown, (#[trigger] l.groups@[a]).dir@).len() > 0 by {
            assert(l.groups@[a].dir@ == unsorted[a].dir@);
        }
        assert forall|a: int, b: int| 0 <= a < b < l.groups@.len() implies lex_lt(l.groups@[a].dir@, l.groups@[b].dir@) by {
            assert(l.groups@[a].dir@ == unsorted[a].dir@);
            assert(l.groups@[b].dir@ == unsorted[b].dir@);
        }
    }
    Ok(l)
}


/// The history label: the path, and the pattern when there is one.
pub open spec fn find_detail(path: Seq<char>, pattern: Option<Seq<char>>) -> Seq<char> {
    match pattern {
        Some(p) => path + " -name "@ + p,
        None => path,
    }
}

/// The answer when no file matched.
pub open spec fn none_found_text(path: Seq<char>, pattern: Option<Seq<char>>) -> Seq<char> {
    "Sin archivos en '"@ + path + "'"@ + match pattern {
        Some(p) => " que coincidan con '"@ + p + "'"@,
        None => Seq::empty(),
    } + "."@
}

/// First line of a listing: the count, the path and the pattern.
pub open spec fn find_header(total: nat, path: Seq<char>, pattern: Option<Seq<char>>) -> Seq<char> {
    decimal(total) + " archivo(s) en "@ + path + match pattern {
        Some(p) => " · patrón "@ + p,
        None => Seq::empty(),
    }
}

/// The line of a directory: its path, then its names.
pub open spec fn group_line(g: DirGroup) -> Seq<char> {
    strip_dot_slash(g.dir@) + "/: "@ + join(views(g.names@), ", "@)
}

/// The closing line that says how many files were not listed.
pub open spec fn unlisted_line(n: nat) -> Seq<char> {
    "… +"@ + decimal(n) + " archivos no listados (tope "@ + decimal(MAX_FILES as nat)
        + "); acota con `name` o un `path` más específico"@
}

/// The lines of a non-empty listing.
pub open spec fn find_lines(l: FindListing, path: Seq<char>, pattern: Option<Seq<char>>) -> Seq<Seq<char>> {
    seq![find_header(l.total as nat, path, pattern)] + l.groups@.map_values(|g: DirGroup| group_line(g))
        + if l.total > l.listed {
        seq![unlisted_line((l.total - l.listed) as nat)]
    } else {
        Seq::empty()
    }
}

/// Label of the baseline of a listing.
pub open spec fn find_baseline_label() -> Seq<char> {
    "una ruta por línea"@
}

/// The answer of `rtk_find` for a listing of `path` with the optional name
/// pattern: directories one per line with their names, led by the count and
/// closed, when files were left out, by how many.
pub fn find_report(path: &str, pattern: Option<&str>, l: &FindListing) -> (r: ToolResult)
    ensures
        r.detail matches Some(d) && d@ == find_detail(path@, pattern_view(pattern)),
        l.total == 0 ==> {
            &&& r.text@ == none_found_text(path@, pattern_view(pattern))
            &&& r.baseline_chars == blen(r.text@) as usize
            &&& r.vs@ == crate::tools::no_gain_label()
            &&& r.no_gain
        },
        l.total > 0 ==> {
            &&& r.text@ == join(find_lines(*l, path@, pattern_view(pattern)), "\n"@)
            &&& r.baseline_chars == l.raw_chars
            &&& r.vs@ == find_baseline_label()
            &&& !r.no_gain
        },
{
    let mut detail = chars_of(path);
    match pattern {
        Some(p) => {
            push_str(&mut detail, " -name ");
            push_str(&mut detail, p);
        },
        None => {},
    }
    let detail_s = string_of(&detail);
    if l.total == 0 {
        let mut t: Vec<char> = Vec::new();
        push_str(&mut t, "Sin archivos en '");
        push_str(&mut t, path);
        push_str(&mut t, "'");
        let ghost before = t@;
        match pattern {
            Some(p) => {
                push_str(&mut t, " que coincidan con '");
                push_str(&mut t, p);
                push_str(&mut t, "'");
            },
            None => {},
        }
        push_str(&mut t, ".");
        proof {
            match pattern {
                Some(p) => {
                    assert(t@ =~= none_found_text(path@, pattern_view(pattern)));
                },
                None => {
                    assert(t@ =~= none_found_text(path@, pattern_view(pattern)));
                },
            }
        }
        return ToolResult::text_no_gain(string_of(&t), detail_s.as_str());
    }
    let ghost lines_spec = find_lines(*l, path@, pattern_view(pattern));
    let mut lines: Vec<Vec<char>> = Vec::new();
    let mut h: Vec<char> = Vec::new();
    push_decimal(&mut h, l.total as u64);
    push_str(&mut h, " archivo(s) en ");
    push_str(&mut h, path);
    match pattern {
        Some(p) => {
            push_str(&mut h, " · patrón ");
            push_str(&mut h, p);
        },
        None => {},
    }
    assert(h@ =~= find_header(l.total as nat, path@, pattern_view(pattern)));
    lines.push(h);
    let mut k: usize = 0;
    while k < l.groups.len()
        invariant
            k <= l.groups.len(),
            lines_spec == find_lines(*l, path@, pattern_view(pattern)),
            views(lines@) == lines_spec.subrange(0, k + 1),
        decreases l.groups.len() - k,
    {
        let g = &l.groups[k];
        let mut line = stripped_dot_slash(&g.dir);
        push_str(&mut line, "/: ");
        let names = join_chars(&g.names, 0, g.names.len(), ", ");
        assert(views(g.names@).subrange(0, g.names@.len() as int) =~= views(g.names@));
        push_all(&mut line, &names);
        assert(line@ == group_line(l.groups@[k as int]));
        assert(lines_spec[k + 1] == group_line(l.groups@[k as int]));
        let ghost before = lines@;
        lines.push(line);
        assert(views(lines@) =~= views(before).push(line@));
        assert(lines_spec.subrange(0, k + 2) =~= lines_spec.subrange(0, k + 1).push(lines_spec[k + 1]));
        k = k + 1;
    }
    if l.total > l.listed {
        let mut last: Vec<char> = Vec::new();
        push_str(&mut last, "… +");
        push_decimal(&mut last, (l.total - l.listed) as u64);
        push_str(&mut last, " archivos no listados (tope ");
        push_decimal(&mut last, MAX_FILES as u64);
        push_str(&mut last, "); acota con `name` o un `path` más específico");
        assert(last@ =~= unlisted_line((l.total - l.listed) as nat));
        let ghost before = lines@;
        lines.push(last);
        assert(views(lines@) =~= views(before).push(last@));
        assert(lines_spec =~= lines_spec.subrange(0, k + 1).push(unlisted_line((l.total - l.listed) as nat)));
    } else {
        assert(lines_spec =~= lines_spec.subrange(0, k + 1));
    }
    let text = join_chars(&lines, 0, lines.len(), "\n");
    assert(views(lines@).subrange(0, lines@.len() as int) =~= views(lines@));
    ToolResult::text(string_of(&text), l.raw_chars, "una ruta por línea", detail_s.as_str())
}


/// Whether the walked paths are few and short enough for a listing: their
/// baseline (`raw_size`) fits in a `usize`.
pub fn paths_fit(files: &Vec<String>) -> (r: bool)
    ensures
        r == (raw_size(crate::gain::string_views(files@)) <= usize::MAX),
{
    let ghost fv = crate::gain::string_views(files@);
    let mut total: usize = 0;
    let mut i: usize = 0;
    assert(fv.take(0) =~= Seq::<Seq<char>>::empty());
    while i < files.len()
        invariant
            i <= files.len(),
            fv == crate::gain::string_views(files@),
            fv.len() == files.len(),
            total == raw_size(fv.take(i as int)),
        decreases files.len() - i,
    {
        proof {
            assert(fv.take(i + 1).drop_last() =~= fv.take(i as int));
            assert(fv[i as int] == files@[i as int]@);
        }
        let n = crate::text::byte_len_capped(&chars_of(files[i].as_str()), usize::MAX);
        if n >= usize::MAX - total {
            proof {
                lemma_raw_size_prefix(fv, i + 1);
            }
            return false;
        }
        total = total + n + 1;
        i = i + 1;
    }
    assert(fv.take(files.len() as int) =~= fv);
    true
}

} // verus!
