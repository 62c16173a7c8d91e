//! The mapping table of a repository: how configured mappings are checked,
//! expanded and merged over the defaults, and the decisions about single
//! links that the commands act on.

use crate::defaults::{
    darwin_pairs, default_entries, default_mappings_spec, default_platforms, lemma_defaults_merge_cleanly,
    linux_pairs, unixlike_pairs, windows_pairs,
};
use crate::error::{DotfilesError, ErrorView};
use crate::paths::{
    components, first_char_is, is_prefix, join_spec, lemma_join_starts_with, path_starts_with, starts_with_char, str_eq,
};
use crate::table::{
    has_key, keys_distinct, lemma_seq_to_map_dom, lemma_seq_to_map_index, lemma_table_seq_distinct, lemma_table_seq_entries, seq_to_map,
    strings_view, table_seq,
};
use crate::util::{expand_tilde_spec, expand_tilde_with_home, home_dir, needs_home};
use vstd::prelude::*;

pub use crate::defaults::{get_default_mappings, DefaultMappings};
pub use crate::table::Mappings;

verus! {

/// The home directory as a plain value.
pub open spec fn home_view(home: Option<&str>) -> Option<Seq<char>> {
    match home {
        Some(h) => Some(h@),
        None => None,
    }
}

/// The outcome of a merge as a plain value.
pub open spec fn outcome_view(r: Result<(), DotfilesError>) -> Result<(), ErrorView> {
    match r {
        Ok(()) => Ok(()),
        Err(e) => Err(e@),
    }
}

/// A configured path is accepted when it starts with `~` or `/`.
pub open spec fn is_rooted(v: Seq<char>) -> bool {
    starts_with_char(v, '~') || starts_with_char(v, '/')
}

/// `path` with its `~` expanded against `home`, where there is one.
pub open spec fn expand_with(path: Seq<char>, home: Option<Seq<char>>) -> Seq<char> {
    match home {
        Some(h) => expand_tilde_spec(path, h),
        None => path,
    }
}

/// The first problem among configured paths, in order: a non-empty path that
/// is not rooted, or one that needs a home directory when none is known.
/// Empty paths are skipped.
pub open spec fn values_problem(vs: Seq<Seq<char>>, home: Option<Seq<char>>) -> Option<ErrorView>
    decreases vs.len(),
{
    if vs.len() == 0 {
        None
    } else {
        let earlier = values_problem(vs.drop_last(), home);
        let v = vs.last();
        if earlier is Some {
            earlier
        } else if v.len() == 0 {
            None
        } else if !is_rooted(v) {
            Some(ErrorView::NotAbsolutePath(v))
        } else if needs_home(v) && home is None {
            Some(ErrorView::NoHomeDirectory)
        } else {
            None
        }
    }
}

/// The non-empty configured paths, in order, each expanded.
pub open spec fn expand_values(vs: Seq<Seq<char>>, home: Option<Seq<char>>) -> Seq<Seq<char>>
    decreases vs.len(),
{
    if vs.len() == 0 {
        Seq::empty()
    } else {
        let earlier = expand_values(vs.drop_last(), home);
        if vs.last().len() == 0 {
            earlier
        } else {
            earlier.push(expand_with(vs.last(), home))
        }
    }
}

/// The problem with one configured entry: an empty key, or its first bad path.
pub open spec fn entry_problem(e: (Seq<char>, Seq<Seq<char>>), home: Option<Seq<char>>) -> Option<ErrorView> {
    if e.0.len() == 0 {
        Some(ErrorView::EmptyKey)
    } else {
        values_problem(e.1, home)
    }
}

/// The first `n` entries have no problem.
pub open spec fn prefix_ok(es: Seq<(Seq<char>, Seq<Seq<char>>)>, n: int, home: Option<Seq<char>>) -> bool {
    forall|j: int| 0 <= j < n ==> entry_problem(#[trigger] es[j], home) is None
}

/// `m` with each entry of `es` set in turn to its expanded paths.
pub open spec fn merge_spec(
    m: Map<Seq<char>, Seq<Seq<char>>>,
    es: Seq<(Seq<char>, Seq<Seq<char>>)>,
    home: Option<Seq<char>>,
) -> Map<Seq<char>, Seq<Seq<char>>>
    decreases es.len(),
{
    if es.len() == 0 {
        m
    } else {
        merge_spec(m, es.drop_last(), home).insert(es.last().0, expand_values(es.last().1, home))
    }
}

/// What merging `es` into `old_m` gives: success when no entry has a problem,
/// with every entry set; otherwise the first entry's problem, with the entries
/// before it set.
pub open spec fn merge_outcome(
    old_m: Map<Seq<char>, Seq<Seq<char>>>,
    es: Seq<(Seq<char>, Seq<Seq<char>>)>,
    home: Option<Seq<char>>,
    r: Result<(), ErrorView>,
    new_m: Map<Seq<char>, Seq<Seq<char>>>,
) -> bool {
    match r {
        Ok(()) => prefix_ok(es, es.len() as int, home) && new_m == merge_spec(old_m, es, home),
        Err(e) => exists|i: int|
            0 <= i < es.len() && prefix_ok(es, i, home) && #[trigger] entry_problem(es[i], home) == Some(e)
                && new_m == merge_spec(old_m, es.take(i), home),
    }
}

/// A problem among the first paths is the problem of them all.
proof fn lemma_values_problem_prefix(vs: Seq<Seq<char>>, k: int, home: Option<Seq<char>>)
    requires
        0 <= k <= vs.len(),
        values_problem(vs.take(k), home) is Some,
    ensures
        values_problem(vs, home) == values_problem(vs.take(k), home),
    decreases vs.len(),
{
    if k < vs.len() {
        assert(vs.drop_last().take(k) =~= vs.take(k));
        lemma_values_problem_prefix(vs.drop_last(), k, home);
    } else {
        assert(vs.take(k) =~= vs);
    }
}

/// Checks and expands configured paths: empty ones are skipped, the others must
/// be rooted and are expanded against `home`.
fn expand_paths(vs: &Vec<String>, home: Option<&str>) -> (res: Result<Vec<String>, DotfilesError>)
    ensures
        res is Ok <==> values_problem(strings_view(vs@), home_view(home)) is None,
        res matches Ok(out) ==> strings_view(out@) == expand_values(strings_view(vs@), home_view(home)),
        res matches Err(e) ==> values_problem(strings_view(vs@), home_view(home)) == Some(e@),
{
    let ghost hv = home_view(home);
    let ghost all = strings_view(vs@);
    let mut out: Vec<String> = Vec::new();
    let n = vs.len();
    let mut i: usize = 0;
    while i < n
        invariant
            n == vs@.len(),
            all == strings_view(vs@),
            hv == home_view(home),
            i <= n,
            values_problem(all.take(i as int), hv) is None,
            strings_view(out@) == expand_values(all.take(i as int), hv),
        decreases n - i,
    {
        let v = &vs[i];
        proof {
            assert(all.take(i + 1).drop_last() =~= all.take(i as int));
            assert(all.take(i + 1).last() == v@);
        }
        let len = v.as_str().unicode_len();
        if len > 0 {
            if !(first_char_is(v.as_str(), '~') || first_char_is(v.as_str(), '/')) {
                proof {
                    lemma_values_problem_prefix(all, i + 1, hv);
                }
                return Err(DotfilesError::NotAbsolutePath(v.clone()));
            }
            let e = expand_tilde_with_home(v.as_str(), home);
            match e {
                Ok(p) => {
                    proof {
                        assert(p@ == expand_with(v@, hv));
                    }
                    out.push(p);
                    assert(strings_view(out@) =~= expand_values(all.take(i as int), hv).push(expand_with(v@, hv)));
                },
                Err(err) => {
                    proof {
                        lemma_values_problem_prefix(all, i + 1, hv);
                    }
                    return Err(err);
                },
            }
        }
        i += 1;
    }
    assert(all.take(n as int) =~= all);
    Ok(out)
}

/// Merges the configured entries of `src` into `dest`, with `home` for `~`.
/// Every key of `src` gets its non-empty paths, each expanded, in place of what
/// `dest` had under it. The first empty key or bad path, in the order of
/// `src`, stops the merge with its error.
pub fn merge_with_home(dest: &mut Mappings, src: &Mappings, home: Option<&str>) -> (res: Result<(), DotfilesError>)
    requires
        old(dest).wf(),
        src.wf(),
    ensures
        final(dest).wf(),
        merge_outcome(old(dest)@, src.entry_seq(), home_view(home), outcome_view(res), final(dest)@),
{
    let ghost es = src.entry_seq();
    let ghost hv = home_view(home);
    let ghost m0 = dest@;
    let n = src.len();
    let mut i: usize = 0;
    while i < n
        invariant
            n == es.len(),
            es == src.entry_seq(),
            hv == home_view(home),
            m0 == old(dest)@,
            i <= n,
            dest.wf(),
            prefix_ok(es, i as int, hv),
            dest@ == merge_spec(m0, es.take(i as int), hv),
        decreases n - i,
    {
        let key = src.key_at(i);
        let paths = src.paths_at(i);
        proof {
            assert(es.take(i + 1).drop_last() =~= es.take(i as int));
            assert(es.take(i + 1).last() == es[i as int]);
        }
        if key.as_str().unicode_len() == 0 {
            assert(entry_problem(es[i as int], hv) == Some(ErrorView::EmptyKey));
            assert(merge_outcome(m0, es, hv, Err(ErrorView::EmptyKey), dest@));
            return Err(DotfilesError::EmptyKey);
        }
        match expand_paths(paths, home) {
            Ok(expanded) => {
                dest.insert(key.clone(), expanded);
            },
            Err(e) => {
                assert(entry_problem(es[i as int], hv) == Some(e@));
                assert(merge_outcome(m0, es, hv, Err(e@), dest@));
                return Err(e);
            },
        }
        i += 1;
    }
    assert(es.take(n as int) =~= es);
    Ok(())
}


/// Whether merging `src` without a home directory would first stop at a path
/// that needs one: only then is the home directory looked up.
fn first_problem_is_missing_home(src: &Mappings) -> (r: bool)
    requires
        src.wf(),
    ensures
        r == (first_problem(src.entry_seq(), None) == Some(ErrorView::NoHomeDirectory)),
{
    let ghost es = src.entry_seq();
    let n = src.len();
    let mut i: usize = 0;
    while i < n
        invariant
            n == es.len(),
            es == src.entry_seq(),
            i <= n,
            prefix_ok(es, i as int, None),
        decreases n - i,
    {
        proof {
            lemma_first_problem(es, i as int, None);
        }
        if src.key_at(i).as_str().unicode_len() == 0 {
            assert(entry_problem(es[i as int], None) == Some(ErrorView::EmptyKey));
            return false;
        }
        match expand_paths(src.paths_at(i), None) {
            Ok(_) => {},
            Err(e) => {
                assert(entry_problem(es[i as int], None) == Some(e@));
                return match e {
                    DotfilesError::NoHomeDirectory => true,
                    _ => false,
                };
            },
        }
        i += 1;
    }
    proof {
        lemma_first_problem(es, n as int, None);
        assert(es.take(n as int) =~= es);
    }
    false
}

/// Merges the configured entries of `src` into `dest`, with the home directory
/// that the system gives at the time of the call. The home directory is looked
/// up only when the merge would otherwise stop at a path that needs it. What happens is what
/// `merge_with_home` does for that home directory.
pub fn merge_json_to_mappings(dest: &mut Mappings, src: &Mappings) -> (res: Result<(), DotfilesError>)
    requires
        old(dest).wf(),
        src.wf(),
    ensures
        final(dest).wf(),
        exists|h: Option<Seq<char>>|
            merge_outcome(old(dest)@, src.entry_seq(), h, outcome_view(res), final(dest)@),
        first_problem(src.entry_seq(), None) != Some(ErrorView::NoHomeDirectory) ==> merge_outcome(
            old(dest)@,
            src.entry_seq(),
            None,
            outcome_view(res),
            final(dest)@,
        ),
{
    if !first_problem_is_missing_home(src) {
        let res = merge_with_home(dest, src, None);
        assert(merge_outcome(old(dest)@, src.entry_seq(), None, outcome_view(res), dest@));
        return res;
    }
    let home = home_dir();
    let res = match &home {
        Some(h) => merge_with_home(dest, src, Some(h.as_str())),
        None => merge_with_home(dest, src, None),
    };
    proof {
        let hv: Option<Seq<char>> = match home {
            Some(h) => Some(h@),
            None => None,
        };
        assert(merge_outcome(old(dest)@, src.entry_seq(), hv, outcome_view(res), dest@));
    }
    res
}

/// A value of a mapping file: one path, or a list of paths.
pub enum MappingValue {
    Single(String),
    Multiple(Vec<String>),
}

/// The paths of a mapping file value.
pub open spec fn value_paths(v: MappingValue) -> Seq<Seq<char>> {
    match v {
        MappingValue::Single(s) => seq![s@],
        MappingValue::Multiple(vs) => strings_view(vs@),
    }
}

/// The entries of a mapping file as plain values.
pub open spec fn file_view(json: Seq<(String, MappingValue)>) -> Seq<(Seq<char>, Seq<Seq<char>>)> {
    json.map_values(|e: (String, MappingValue)| (e.0@, value_paths(e.1)))
}

/// The table that the entries of a mapping file make, a later duplicate key
/// replacing the value of an earlier one.
pub open spec fn file_table(json: Seq<(String, MappingValue)>) -> Seq<(Seq<char>, Seq<Seq<char>>)> {
    table_seq(file_view(json))
}

/// The paths of a mapping file value, as a list.
fn value_to_paths(v: &MappingValue) -> (res: Vec<String>)
    ensures
        strings_view(res@) == value_paths(*v),
{
    match v {
        MappingValue::Single(s) => {
            let mut res: Vec<String> = Vec::new();
            res.push(s.clone());
            assert(strings_view(res@) =~= seq![s@]);
            res
        },
        MappingValue::Multiple(vs) => {
            let mut res: Vec<String> = Vec::new();
            let n = vs.len();
            let mut i: usize = 0;
            while i < n
                invariant
                    n == vs@.len(),
                    i <= n,
                    strings_view(res@) =~= strings_view(vs@).take(i as int),
                decreases n - i,
            {
                let c = vs[i].clone();
                let ghost before = res@;
                res.push(c);
                assert(res@ == before.push(c));
                assert(strings_view(res@) =~= strings_view(before).push(c@));
                assert(strings_view(vs@).take(i + 1) =~= strings_view(vs@).take(i as int).push(vs@[i as int]@));
                i += 1;
            }
            res
        },
    }
}

/// The table of a parsed mapping file, in its order.
pub fn file_to_mappings(json: &Vec<(String, MappingValue)>) -> (m: Mappings)
    ensures
        m.wf(),
        m.entry_seq() == file_table(json@),
{
    let ghost fv = file_view(json@);
    let mut m = Mappings::new();
    let n = json.len();
    let mut i: usize = 0;
    while i < n
        invariant
            n == json@.len(),
            fv == file_view(json@),
            i <= n,
            m.wf(),
            m.entry_seq() == table_seq(fv.take(i as int)),
        decreases n - i,
    {
        let paths = value_to_paths(&json[i].1);
        m.insert(json[i].0.clone(), paths);
        assert(fv.take(i + 1).drop_last() =~= fv.take(i as int));
        i += 1;
    }
    assert(fv.take(n as int) =~= fv);
    m
}

/// Merges a parsed mapping file into `dest`, with `home` for `~`.
pub fn merge_file_to_mappings(dest: &mut Mappings, json: &Vec<(String, MappingValue)>, home: Option<&str>) -> (res: Result<(), DotfilesError>)
    requires
        old(dest).wf(),
    ensures
        final(dest).wf(),
        merge_outcome(old(dest)@, file_table(json@), home_view(home), outcome_view(res), final(dest)@),
{
    let src = file_to_mappings(json);
    merge_with_home(dest, &src, home)
}

/// The first problem among entries, in order.
pub open spec fn first_problem(es: Seq<(Seq<char>, Seq<Seq<char>>)>, home: Option<Seq<char>>) -> Option<ErrorView>
    decreases es.len(),
{
    if es.len() == 0 {
        None
    } else {
        let earlier = first_problem(es.drop_last(), home);
        if earlier is Some {
            earlier
        } else {
            entry_problem(es.last(), home)
        }
    }
}

/// `first_problem` finds the problem of the first entry that has one.
pub proof fn lemma_first_problem(es: Seq<(Seq<char>, Seq<Seq<char>>)>, i: int, home: Option<Seq<char>>)
    requires
        0 <= i <= es.len(),
        prefix_ok(es, i, home),
    ensures
        first_problem(es.take(i), home) is None,
        i < es.len() ==> first_problem(es.take(i + 1), home) == entry_problem(es[i], home),
        i < es.len() && entry_problem(es[i], home) is Some ==> first_problem(es, home) == entry_problem(es[i], home),
    decreases es.len(),
{
    if i == es.len() {
        assert(es.take(i) =~= es);
        if es.len() > 0 {
            assert(prefix_ok(es.drop_last(), i - 1, home));
            lemma_first_problem(es.drop_last(), i - 1, home);
            assert(es.drop_last().take(i - 1) =~= es.drop_last());
            assert(entry_problem(es[i - 1], home) is None);
        }
    } else {
        let t = es.drop_last();
        if i < t.len() {
            assert(prefix_ok(t, i, home));
            lemma_first_problem(t, i, home);
            assert(t.take(i) =~= es.take(i));
            assert(t.take(i + 1) =~= es.take(i + 1));
        } else {
            assert(t.take(i) =~= t);
            assert(es.take(i + 1) =~= es);
            assert(prefix_ok(t, i, home));
            lemma_first_problem(t, i, home);
        }
    }
}

/// A merge outcome in terms of `first_problem`: success exactly when no entry
/// has a problem, and otherwise the first problem.
pub proof fn lemma_merge_outcome_first_problem(
    old_m: Map<Seq<char>, Seq<Seq<char>>>,
    es: Seq<(Seq<char>, Seq<Seq<char>>)>,
    home: Option<Seq<char>>,
    r: Result<(), ErrorView>,
    new_m: Map<Seq<char>, Seq<Seq<char>>>,
)
    requires
        merge_outcome(old_m, es, home, r, new_m),
    ensures
        r is Ok <==> first_problem(es, home) is None,
        r matches Err(e) ==> first_problem(es, home) == Some(e),
        r is Ok ==> new_m == merge_spec(old_m, es, home),
{
    match r {
        Ok(()) => {
            lemma_first_problem(es, es.len() as int, home);
            assert(es.take(es.len() as int) =~= es);
        },
        Err(e) => {
            let i = choose|i: int|
                0 <= i < es.len() && prefix_ok(es, i, home) && #[trigger] entry_problem(es[i], home) == Some(e)
                    && new_m == merge_spec(old_m, es.take(i), home);
            lemma_first_problem(es, i, home);
        },
    }
}


/// Linux and macOS share the `unixlike` defaults and mapping file.
pub open spec fn is_unix_like_spec(platform: Seq<char>) -> bool {
    platform == "linux"@ || platform == "darwin"@
}

/// Whether `platform` is one of the Unix-like platforms, `linux` or `darwin`.
pub fn is_unix_like(platform: &str) -> (b: bool)
    ensures
        b == is_unix_like_spec(platform@),
{
    str_eq(platform, "linux") || str_eq(platform, "darwin")
}

/// The mapping files of the configuration directory, in the order they are
/// merged: `mappings.json`, then `mappings_unixlike.json` on a Unix-like
/// platform, then `mappings_<platform>.json`.
pub open spec fn mapping_file_names_spec(platform: Seq<char>) -> Seq<Seq<char>> {
    let unix: Seq<Seq<char>> = if is_unix_like_spec(platform) {
        seq!["mappings_unixlike.json"@]
    } else {
        Seq::empty()
    };
    seq!["mappings.json"@] + unix + seq!["mappings_"@ + platform + ".json"@]
}

/// The names of the mapping files to read for `platform`, in merge order.
pub fn mapping_file_names(platform: &str) -> (names: Vec<String>)
    ensures
        strings_view(names@) == mapping_file_names_spec(platform@),
{
    let mut names: Vec<String> = Vec::new();
    names.push("mappings.json".to_owned());
    if is_unix_like(platform) {
        names.push("mappings_unixlike.json".to_owned());
    }
    let mut own = "mappings_".to_owned();
    own.append(platform);
    own.append(".json");
    names.push(own);
    assert(strings_view(names@) =~= mapping_file_names_spec(platform@));
    names
}

/// The default tables that apply to `platform`, in merge order: the
/// `unixlike` one on a Unix-like platform, then the platform's own.
pub open spec fn default_sources(platform: Seq<char>) -> Seq<Seq<(Seq<char>, Seq<Seq<char>>)>> {
    let d = default_mappings_spec();
    let unix: Seq<Seq<(Seq<char>, Seq<Seq<char>>)>> = if is_unix_like_spec(platform) && d.contains_key("unixlike"@) {
        seq![d["unixlike"@]]
    } else {
        Seq::empty()
    };
    let own: Seq<Seq<(Seq<char>, Seq<Seq<char>>)>> = if d.contains_key(platform) {
        seq![d[platform]]
    } else {
        Seq::empty()
    };
    unix + own
}

/// The tables of the mapping files that exist, in order.
pub open spec fn file_sources(files: Seq<Option<Vec<(String, MappingValue)>>>) -> Seq<Seq<(Seq<char>, Seq<Seq<char>>)>>
    decreases files.len(),
{
    if files.len() == 0 {
        Seq::empty()
    } else {
        let earlier = file_sources(files.drop_last());
        match files.last() {
            Some(json) => earlier.push(file_table(json@)),
            None => earlier,
        }
    }
}

/// Everything that is merged for `platform`, in order.
pub open spec fn mapping_sources(
    platform: Seq<char>,
    files: Seq<Option<Vec<(String, MappingValue)>>>,
) -> Seq<Seq<(Seq<char>, Seq<Seq<char>>)>> {
    default_sources(platform) + file_sources(files)
}

/// Merging `sources` in turn into `m`: the first source with a problem stops
/// it with its first problem.
pub open spec fn chain_outcome(
    m: Map<Seq<char>, Seq<Seq<char>>>,
    sources: Seq<Seq<(Seq<char>, Seq<Seq<char>>)>>,
    home: Option<Seq<char>>,
) -> Result<Map<Seq<char>, Seq<Seq<char>>>, ErrorView>
    decreases sources.len(),
{
    if sources.len() == 0 {
        Ok(m)
    } else {
        match chain_outcome(m, sources.drop_last(), home) {
            Err(e) => Err(e),
            Ok(pm) => match first_problem(sources.last(), home) {
                Some(e) => Err(e),
                None => Ok(merge_spec(pm, sources.last(), home)),
            },
        }
    }
}

/// The mappings of `platform` given its mapping files (`None` for a file that
/// does not exist) and `home`.
pub open spec fn mappings_result(
    platform: Seq<char>,
    files: Seq<Option<Vec<(String, MappingValue)>>>,
    home: Option<Seq<char>>,
) -> Result<Map<Seq<char>, Seq<Seq<char>>>, ErrorView> {
    chain_outcome(Map::empty(), mapping_sources(platform, files), home)
}

/// A result of mappings as a plain value.
pub open spec fn mappings_result_view(r: Result<Mappings, DotfilesError>) -> Result<Map<Seq<char>, Seq<Seq<char>>>, ErrorView> {
    match r {
        Ok(m) => Ok(m@),
        Err(e) => Err(e@),
    }
}

/// One more merge continues the chain.
proof fn lemma_chain_push(
    m0: Map<Seq<char>, Seq<Seq<char>>>,
    done: Seq<Seq<(Seq<char>, Seq<Seq<char>>)>>,
    es: Seq<(Seq<char>, Seq<Seq<char>>)>,
    home: Option<Seq<char>>,
    cur: Map<Seq<char>, Seq<Seq<char>>>,
    r: Result<(), ErrorView>,
    new_m: Map<Seq<char>, Seq<Seq<char>>>,
)
    requires
        chain_outcome(m0, done, home) == Ok::<Map<Seq<char>, Seq<Seq<char>>>, ErrorView>(cur),
        merge_outcome(cur, es, home, r, new_m),
    ensures
        r is Ok ==> chain_outcome(m0, done.push(es), home) == Ok::<Map<Seq<char>, Seq<Seq<char>>>, ErrorView>(new_m),
        r matches Err(e) ==> chain_outcome(m0, done.push(es), home) == Err::<Map<Seq<char>, Seq<Seq<char>>>, ErrorView>(e),
{
    lemma_merge_outcome_first_problem(cur, es, home, r, new_m);
    assert(done.push(es).drop_last() =~= done);
}

/// Once the chain has failed, merging more sources keeps the failure.
proof fn lemma_chain_err_prefix(
    m0: Map<Seq<char>, Seq<Seq<char>>>,
    sources: Seq<Seq<(Seq<char>, Seq<Seq<char>>)>>,
    k: int,
    home: Option<Seq<char>>,
)
    requires
        0 <= k <= sources.len(),
        chain_outcome(m0, sources.take(k), home) is Err,
    ensures
        chain_outcome(m0, sources, home) == chain_outcome(m0, sources.take(k), home),
    decreases sources.len(),
{
    if k < sources.len() {
        assert(sources.drop_last().take(k) =~= sources.take(k));
        lemma_chain_err_prefix(m0, sources.drop_last(), k, home);
    } else {
        assert(sources.take(k) =~= sources);
    }
}

/// The file part of the sources grows one file at a time.
proof fn lemma_file_sources_step(files: Seq<Option<Vec<(String, MappingValue)>>>, i: int)
    requires
        0 <= i < files.len(),
    ensures
        file_sources(files.take(i + 1)) == match files[i] {
            Some(json) => file_sources(files.take(i)).push(file_table(json@)),
            None => file_sources(files.take(i)),
        },
{
    assert(files.take(i + 1).drop_last() =~= files.take(i));
}

/// Merges one source into `m` and keeps track of the chain.
fn merge_source(
    m: &mut Mappings,
    src: &Mappings,
    home: Option<&str>,
    Ghost(done): Ghost<Seq<Seq<(Seq<char>, Seq<Seq<char>>)>>>,
) -> (res: Result<(), DotfilesError>)
    requires
        old(m).wf(),
        src.wf(),
        chain_outcome(Map::empty(), done, home_view(home)) == Ok::<Map<Seq<char>, Seq<Seq<char>>>, ErrorView>(old(m)@),
    ensures
        final(m).wf(),
        res is Ok ==> chain_outcome(Map::empty(), done.push(src.entry_seq()), home_view(home))
            == Ok::<Map<Seq<char>, Seq<Seq<char>>>, ErrorView>(final(m)@),
        res matches Err(e) ==> chain_outcome(Map::empty(), done.push(src.entry_seq()), home_view(home))
            == Err::<Map<Seq<char>, Seq<Seq<char>>>, ErrorView>(e@),
{
    let ghost before = m@;
    let r = merge_with_home(m, src, home);
    proof {
        lemma_chain_push(Map::empty(), done, src.entry_seq(), home_view(home), before, outcome_view(r), m@);
    }
    r
}

/// The mappings of `platform`: its defaults, then the mapping files that exist
/// (`files` holds one parsed file or `None` for each of
/// `mapping_file_names(platform)`), each merged in turn with `home` for `~`.
pub fn get_mappings_with_home(
    platform: &str,
    files: &Vec<Option<Vec<(String, MappingValue)>>>,
    home: Option<&str>,
) -> (res: Result<Mappings, DotfilesError>)
    requires
        files@.len() == mapping_file_names_spec(platform@).len(),
    ensures
        res matches Ok(m) ==> m.wf(),
        mappings_result_view(res) == mappings_result(platform@, files@, home_view(home)),
{
    let ghost hv = home_view(home);
    let ghost all = mapping_sources(platform@, files@);
    let ghost dsrc = default_sources(platform@);
    let defaults = get_default_mappings();
    let mut m = Mappings::new();
    let ghost mut done: Seq<Seq<(Seq<char>, Seq<Seq<char>>)>> = Seq::empty();
    assert(chain_outcome(Map::empty(), done, hv) == Ok::<Map<Seq<char>, Seq<Seq<char>>>, ErrorView>(m@));
    if is_unix_like(platform) {
        if let Some(d) = defaults.get("unixlike") {
            let r = merge_source(&mut m, d, home, Ghost(done));
            proof {
                done = done.push(d.entry_seq());
                assert(done =~= all.take(1));
            }
            if let Err(e) = r {
                proof {
                    lemma_chain_err_prefix(Map::empty(), all, 1, hv);
                }
                return Err(e);
            }
        }
    }
    assert(done =~= all.take(done.len() as int));
    if let Some(d) = defaults.get(platform) {
        let ghost k: int = done.len() as int + 1;
        let r = merge_source(&mut m, d, home, Ghost(done));
        proof {
            done = done.push(d.entry_seq());
            assert(done =~= all.take(k));
        }
        if let Err(e) = r {
            proof {
                lemma_chain_err_prefix(Map::empty(), all, k, hv);
            }
            return Err(e);
        }
    }
    assert(done =~= dsrc);
    let n = files.len();
    let mut i: usize = 0;
    assert(file_sources(files@.take(0)) =~= Seq::<Seq<(Seq<char>, Seq<Seq<char>>)>>::empty());
    while i < n
        invariant
            n == files@.len(),
            hv == home_view(home),
            all == mapping_sources(platform@, files@),
            dsrc == default_sources(platform@),
            i <= n,
            m.wf(),
            done == dsrc + file_sources(files@.take(i as int)),
            chain_outcome(Map::empty(), done, hv) == Ok::<Map<Seq<char>, Seq<Seq<char>>>, ErrorView>(m@),
        decreases n - i,
    {
        proof {
            lemma_file_sources_step(files@, i as int);
        }
        match &files[i] {
            Some(json) => {
                let src = file_to_mappings(json);
                let r = merge_source(&mut m, &src, home, Ghost(done));
                proof {
                    done = done.push(src.entry_seq());
                    assert(done =~= dsrc + file_sources(files@.take(i + 1)));
                }
                if let Err(e) = r {
                    proof {
                        lemma_file_sources_prefix(files@, i + 1);
                        assert(done =~= all.take(done.len() as int));
                        lemma_chain_err_prefix(Map::empty(), all, done.len() as int, hv);
                    }
                    return Err(e);
                }
            },
            None => {},
        }
        i += 1;
    }
    assert(files@.take(n as int) =~= files@);
    Ok(m)
}

/// The tables of the first files are the first tables.
proof fn lemma_file_sources_prefix(files: Seq<Option<Vec<(String, MappingValue)>>>, k: int)
    requires
        0 <= k <= files.len(),
    ensures
        file_sources(files.take(k)) == file_sources(files).take(file_sources(files.take(k)).len() as int),
        file_sources(files.take(k)).len() <= file_sources(files).len(),
    decreases files.len(),
{
    if k == files.len() {
        assert(files.take(k) =~= files);
        assert(file_sources(files).take(file_sources(files).len() as int) =~= file_sources(files));
    } else {
        lemma_file_sources_prefix(files.drop_last(), k);
        assert(files.drop_last().take(k) =~= files.take(k));
        let p = file_sources(files.take(k));
        let e = file_sources(files.drop_last());
        assert(e.take(p.len() as int) == p);
        match files.last() {
            Some(json) => {
                assert(file_sources(files) == e.push(file_table(json@)));
                assert(e.push(file_table(json@)).take(p.len() as int) =~= e.take(p.len() as int));
            },
            None => {},
        }
    }
}

/// The mappings of `platform` (see `get_mappings_with_home`), with the home
/// directory that the system gives at the time of the call. The home directory
/// is looked up only when the mappings would otherwise stop at a path that
/// needs it.
pub fn get_mappings(platform: &str, files: &Vec<Option<Vec<(String, MappingValue)>>>) -> (res: Result<Mappings, DotfilesError>)
    requires
        files@.len() == mapping_file_names_spec(platform@).len(),
    ensures
        res matches Ok(m) ==> m.wf(),
        exists|h: Option<Seq<char>>| mappings_result_view(res) == mappings_result(platform@, files@, h),
        mappings_result(platform@, files@, None) != Err::<Map<Seq<char>, Seq<Seq<char>>>, ErrorView>(
            ErrorView::NoHomeDirectory,
        ) ==> mappings_result_view(res) == mappings_result(platform@, files@, None),
{
    let without = get_mappings_with_home(platform, files, None);
    match &without {
        Err(DotfilesError::NoHomeDirectory) => {},
        _ => {
            assert(mappings_result_view(without) == mappings_result(platform@, files@, None));
            return without;
        },
    }
    let home = home_dir();
    let res = match &home {
        Some(h) => get_mappings_with_home(platform, files, Some(h.as_str())),
        None => get_mappings_with_home(platform, files, None),
    };
    proof {
        let hv: Option<Seq<char>> = match home {
            Some(h) => Some(h@),
            None => None,
        };
        assert(mappings_result_view(res) == mappings_result(platform@, files@, hv));
    }
    res
}


/// Merging sets every key of the merged entries to its expanded non-empty
/// paths and leaves every other key as it was.
pub proof fn lemma_merge_overrides(
    m: Map<Seq<char>, Seq<Seq<char>>>,
    es: Seq<(Seq<char>, Seq<Seq<char>>)>,
    home: Option<Seq<char>>,
)
    requires
        keys_distinct(es),
    ensures
        merge_spec(m, es, home) == m.union_prefer_right(
            seq_to_map(es).map_values(|vs: Seq<Seq<char>>| expand_values(vs, home)),
        ),
    decreases es.len(),
{
    let f = |vs: Seq<Seq<char>>| expand_values(vs, home);
    if es.len() == 0 {
        assert(m.union_prefer_right(seq_to_map(es).map_values(f)) =~= m);
    } else {
        let t = es.drop_last();
        assert(keys_distinct(t));
        lemma_merge_overrides(m, t, home);
        let k = es.last().0;
        let v = es.last().1;
        assert(seq_to_map(es) == seq_to_map(t).insert(k, v));
        assert(seq_to_map(es).map_values(f) =~= seq_to_map(t).map_values(f).insert(k, f(v)));
        assert(m.union_prefer_right(seq_to_map(t).map_values(f).insert(k, f(v))) =~= m.union_prefer_right(
            seq_to_map(t).map_values(f),
        ).insert(k, f(v)));
    }
}

/// A table made of entries without problems has no problem.
pub(crate) proof fn lemma_table_no_problem(es: Seq<(Seq<char>, Seq<Seq<char>>)>, home: Option<Seq<char>>)
    requires
        forall|j: int| 0 <= j < es.len() ==> entry_problem(#[trigger] es[j], home) is None,
    ensures
        first_problem(table_seq(es), home) is None,
{
    let t = table_seq(es);
    assert forall|i: int| 0 <= i < t.len() implies entry_problem(#[trigger] t[i], home) is None by {
        lemma_table_seq_entries(es, i);
    }
    assert(prefix_ok(t, t.len() as int, home));
    lemma_first_problem(t, t.len() as int, home);
    assert(t.take(t.len() as int) =~= t);
}

/// Merging sources that have no problem succeeds.
proof fn lemma_chain_ok(
    m: Map<Seq<char>, Seq<Seq<char>>>,
    sources: Seq<Seq<(Seq<char>, Seq<Seq<char>>)>>,
    home: Option<Seq<char>>,
)
    requires
        forall|i: int| 0 <= i < sources.len() ==> first_problem(#[trigger] sources[i], home) is None,
    ensures
        chain_outcome(m, sources, home) is Ok,
    decreases sources.len(),
{
    if sources.len() > 0 {
        let t = sources.drop_last();
        assert forall|i: int| 0 <= i < t.len() implies first_problem(#[trigger] t[i], home) is None by {
            assert(t[i] == sources[i]);
        }
        lemma_chain_ok(m, t, home);
        assert(first_problem(sources[sources.len() - 1], home) is None);
    }
}

/// With a home directory known and no mapping file present, getting the
/// mappings of any platform succeeds: it merges only the defaults.
pub proof fn lemma_defaults_alone_succeed(
    platform: Seq<char>,
    files: Seq<Option<Vec<(String, MappingValue)>>>,
    h: Seq<char>,
)
    requires
        forall|i: int| 0 <= i < files.len() ==> files[i] is None,
    ensures
        mappings_result(platform, files, Some(h)) is Ok,
{
    lemma_no_file_sources(files);
    lemma_defaults_merge_cleanly(h);
    let srcs = mapping_sources(platform, files);
    assert(srcs =~= default_sources(platform));
    lemma_chain_ok(Map::empty(), srcs, Some(h));
}

/// Without any present file there are no file tables.
proof fn lemma_no_file_sources(files: Seq<Option<Vec<(String, MappingValue)>>>)
    requires
        forall|i: int| 0 <= i < files.len() ==> files[i] is None,
    ensures
        file_sources(files) == Seq::<Seq<(Seq<char>, Seq<Seq<char>>)>>::empty(),
    decreases files.len(),
{
    if files.len() > 0 {
        assert(files[files.len() - 1] is None);
        lemma_no_file_sources(files.drop_last());
    }
}


/// What linking one path does, given what the file system shows.
pub enum LinkStep {
    /// The source does not exist: nothing is done, and nothing is linked.
    SourceMissing,
    /// Something exists at the destination already: it is reported and kept.
    AlreadyExists,
    /// A dry run: the link is only reported; nothing on disk changes.
    Preview,
    /// The destination's parent directories are made, the link is reported, and
    /// a symlink to a directory (`dir`) or to a file is made.
    Create { dir: bool },
}

/// The step of `create_link` for a source that exists or not, a destination
/// that exists or not, a source that is a directory or not, and a dry run or not.
pub open spec fn create_link_spec(from_exists: bool, to_exists: bool, from_is_dir: bool, dry: bool) -> LinkStep {
    if !from_exists {
        LinkStep::SourceMissing
    } else if to_exists {
        LinkStep::AlreadyExists
    } else if dry {
        LinkStep::Preview
    } else {
        LinkStep::Create { dir: from_is_dir }
    }
}

/// The step changes the file system: only `Create` does.
pub open spec fn changes_file_system(step: LinkStep) -> bool {
    step is Create
}

/// The step counts as linked: every step but a missing source.
pub open spec fn counts_as_linked(step: LinkStep) -> bool {
    !(step is SourceMissing)
}

/// Decides how to link `from` to `to`: a missing source is skipped, an existing
/// destination is kept, a dry run only shows the link, and otherwise the link is
/// made. Only a missing source counts as not linked; the file system changes
/// only when a source exists, its destination does not, and the run is not dry.
pub fn create_link(from_exists: bool, to_exists: bool, from_is_dir: bool, dry: bool) -> (step: LinkStep)
    ensures
        step == create_link_spec(from_exists, to_exists, from_is_dir, dry),
        counts_as_linked(step) == from_exists,
        changes_file_system(step) <==> (from_exists && !to_exists && !dry),
        !from_exists ==> step == LinkStep::SourceMissing,
        from_exists && to_exists ==> step == LinkStep::AlreadyExists,
        step is Preview <==> (from_exists && !to_exists && dry),
        step matches LinkStep::Create { dir } ==> dir == from_is_dir,
{
    if !from_exists {
        LinkStep::SourceMissing
    } else if to_exists {
        LinkStep::AlreadyExists
    } else if dry {
        LinkStep::Preview
    } else {
        LinkStep::Create { dir: from_is_dir }
    }
}

/// A dry run changes nothing on disk, and neither does linking to a
/// destination that exists: so linking again, once every destination exists,
/// changes nothing.
pub proof fn lemma_link_changes_only_new_destinations(from_exists: bool, to_exists: bool, from_is_dir: bool, dry: bool)
    ensures
        dry ==> !changes_file_system(create_link_spec(from_exists, to_exists, from_is_dir, dry)),
        to_exists ==> !changes_file_system(create_link_spec(from_exists, to_exists, from_is_dir, dry)),
{
}

/// The four cases of linking one path: a missing source is skipped; an
/// existing destination is kept and reported as there, in a dry run too; a dry
/// run previews only a link whose destination is absent; and only a run that
/// is not dry makes a link, of the kind of its source.
pub proof fn lemma_link_step_cases(from_exists: bool, to_exists: bool, from_is_dir: bool, dry: bool)
    ensures
        !from_exists ==> create_link_spec(from_exists, to_exists, from_is_dir, dry) == LinkStep::SourceMissing,
        from_exists && to_exists ==> create_link_spec(from_exists, to_exists, from_is_dir, dry)
            == LinkStep::AlreadyExists,
        create_link_spec(from_exists, to_exists, from_is_dir, dry) is Preview <==> (from_exists && !to_exists
            && dry),
        create_link_spec(from_exists, to_exists, from_is_dir, dry) is Create <==> (from_exists && !to_exists
            && !dry),
        create_link_spec(from_exists, to_exists, from_is_dir, dry) matches LinkStep::Create { dir }
            ==> dir == from_is_dir,
{
}

impl LinkStep {
    /// Whether the step counts as linked.
    pub fn linked(&self) -> (b: bool)
        ensures
            b == counts_as_linked(*self),
    {
        !matches!(self, LinkStep::SourceMissing)
    }
}

/// The source of a symlink belongs to the repository when its path starts
/// with the repository's path.
pub open spec fn link_source_spec(repo: Seq<char>, source: Option<Seq<char>>) -> Option<Seq<char>> {
    match source {
        Some(s) => if is_prefix(components(repo), components(s)) {
            Some(s)
        } else {
            None
        },
        None => None,
    }
}

/// An optional string as a plain value.
pub open spec fn opt_view(o: Option<String>) -> Option<Seq<char>> {
    match o {
        Some(s) => Some(s@),
        None => None,
    }
}

/// The source of the symlink at a destination, if it lies in `repo`.
/// `source` is what the symlink points to, or `None` when there is no symlink.
/// Paths are compared by their components under the Unix rules of
/// `crate::paths`; Windows separators and prefixes are not recognised.
pub fn get_link_source(repo: &str, source: Option<String>) -> (res: Option<String>)
    ensures
        res matches Some(s) ==> source matches Some(t) && s == t,
        link_source_spec(repo@, opt_view(source)) == opt_view(res),
{
    match source {
        Some(s) => {
            if path_starts_with(s.as_str(), repo) {
                Some(s)
            } else {
                None
            }
        },
        None => None,
    }
}

/// A symlink that linking makes from the repository, for a key that is a
/// relative path, is recognized as the repository's by `get_link_source`, so
/// listing and cleaning find it.
pub proof fn lemma_linked_source_found(repo: Seq<char>, key: Seq<char>)
    requires
        !starts_with_char(key, '/'),
    ensures
        link_source_spec(repo, Some(join_spec(repo, key))) == Some(join_spec(repo, key)),
{
    lemma_join_starts_with(repo, key);
}


/// Every path of every entry, in table order.
pub open spec fn all_paths(es: Seq<(Seq<char>, Seq<Seq<char>>)>) -> Seq<Seq<char>>
    decreases es.len(),
{
    if es.len() == 0 {
        Seq::empty()
    } else {
        all_paths(es.drop_last()) + es.last().1
    }
}

/// The destinations of all mappings, in table order: what the list and clean
/// commands look at.
pub fn all_destinations(maps: &Mappings) -> (res: Vec<String>)
    ensures
        strings_view(res@) == all_paths(maps.entry_seq()),
{
    let ghost es = maps.entry_seq();
    let mut out: Vec<String> = Vec::new();
    let n = maps.len();
    let mut i: usize = 0;
    assert(es.take(0) =~= Seq::<(Seq<char>, Seq<Seq<char>>)>::empty());
    while i < n
        invariant
            n == es.len(),
            es == maps.entry_seq(),
            i <= n,
            strings_view(out@) == all_paths(es.take(i as int)),
        decreases n - i,
    {
        let tos = maps.paths_at(i);
        let m = tos.len();
        let mut j: usize = 0;
        let ghost before = strings_view(out@);
        while j < m
            invariant
                m == tos@.len(),
                j <= m,
                strings_view(out@) == before + strings_view(tos@).take(j as int),
            decreases m - j,
        {
            let ghost prev = out@;
            out.push(tos[j].clone());
            assert(strings_view(out@) =~= strings_view(prev).push(tos@[j as int]@));
            assert(strings_view(tos@).take(j + 1) =~= strings_view(tos@).take(j as int).push(tos@[j as int]@));
            j += 1;
        }
        assert(strings_view(tos@).take(m as int) =~= strings_view(tos@));
        assert(es.take(i + 1).drop_last() =~= es.take(i as int));
        i += 1;
    }
    assert(es.take(n as int) =~= es);
    out
}


/// A later source wins: when merging one more source succeeds, a key of that
/// source gets its expanded paths, and every other key keeps what the earlier
/// sources gave it.
pub proof fn lemma_last_source_wins(
    m: Map<Seq<char>, Seq<Seq<char>>>,
    sources: Seq<Seq<(Seq<char>, Seq<Seq<char>>)>>,
    es: Seq<(Seq<char>, Seq<Seq<char>>)>,
    home: Option<Seq<char>>,
    k: Seq<char>,
)
    requires
        keys_distinct(es),
        chain_outcome(m, sources.push(es), home) is Ok,
    ensures
        chain_outcome(m, sources, home) is Ok,
        seq_to_map(es).contains_key(k) ==> chain_outcome(m, sources.push(es), home)->Ok_0.contains_key(k)
            && chain_outcome(m, sources.push(es), home)->Ok_0[k] == expand_values(seq_to_map(es)[k], home),
        !seq_to_map(es).contains_key(k) ==> (chain_outcome(m, sources.push(es), home)->Ok_0.contains_key(k)
            <==> chain_outcome(m, sources, home)->Ok_0.contains_key(k)),
        !seq_to_map(es).contains_key(k) && chain_outcome(m, sources, home)->Ok_0.contains_key(k)
            ==> chain_outcome(m, sources.push(es), home)->Ok_0[k] == chain_outcome(m, sources, home)->Ok_0[k],
{
    assert(sources.push(es).drop_last() =~= sources);
    assert(sources.push(es).last() == es);
    let prev = chain_outcome(m, sources, home)->Ok_0;
    lemma_merge_overrides(prev, es, home);
}


/// No source merged for a platform has a key twice, so `lemma_last_source_wins`
/// applies to each of them.
pub proof fn lemma_sources_distinct(platform: Seq<char>, files: Seq<Option<Vec<(String, MappingValue)>>>)
    ensures
        forall|i: int|
            0 <= i < mapping_sources(platform, files).len() ==> keys_distinct(#[trigger] mapping_sources(platform, files)[i]),
{
    let l = seq![
        ("windows"@, table_seq(default_entries(windows_pairs()))),
        ("unixlike"@, table_seq(default_entries(unixlike_pairs()))),
        ("linux"@, table_seq(default_entries(linux_pairs()))),
        ("darwin"@, table_seq(default_entries(darwin_pairs()))),
    ];
    let t = table_seq(l);
    assert(t == default_platforms());
    lemma_table_seq_distinct(l);
    lemma_table_seq_distinct(default_entries(windows_pairs()));
    lemma_table_seq_distinct(default_entries(unixlike_pairs()));
    lemma_table_seq_distinct(default_entries(linux_pairs()));
    lemma_table_seq_distinct(default_entries(darwin_pairs()));
    assert forall|p: Seq<char>| #[trigger] default_mappings_spec().contains_key(p) implies keys_distinct(
        default_mappings_spec()[p],
    ) by {
        lemma_seq_to_map_dom(t, p);
        let i = choose|i: int| 0 <= i < t.len() && t[i].0 == p;
        lemma_seq_to_map_index(t, i);
        lemma_table_seq_entries(l, i);
        let j = choose|j: int| 0 <= j < l.len() && l[j] == t[i];
        assert(j == 0 || j == 1 || j == 2 || j == 3);
    }
    lemma_file_sources_distinct(files);
    let d = default_sources(platform);
    let all = mapping_sources(platform, files);
    assert forall|i: int| 0 <= i < all.len() implies keys_distinct(#[trigger] all[i]) by {
        if i >= d.len() {
            assert(all[i] == file_sources(files)[i - d.len()]);
        }
    }
}

/// Every file table has no key twice.
proof fn lemma_file_sources_distinct(files: Seq<Option<Vec<(String, MappingValue)>>>)
    ensures
        forall|i: int| 0 <= i < file_sources(files).len() ==> keys_distinct(#[trigger] file_sources(files)[i]),
    decreases files.len(),
{
    if files.len() > 0 {
        lemma_file_sources_distinct(files.drop_last());
        match files.last() {
            Some(json) => {
                lemma_table_seq_distinct(file_view(json@));
                let e = file_sources(files.drop_last());
                assert forall|i: int| 0 <= i < file_sources(files).len() implies keys_distinct(#[trigger] file_sources(files)[i]) by {
                    if i < e.len() {
                        assert(file_sources(files)[i] == e[i]);
                    } else {
                        assert(file_sources(files)[i] == file_table(json@));
                        assert(file_table(json@) == table_seq(file_view(json@)));
                    }
                }
            },
            None => {
                assert(file_sources(files) == file_sources(files.drop_last()));
            },
        }
    }
}


/// Merging the same entries twice with the same home directory gives what
/// merging them once gives: the second merge succeeds and changes nothing.
pub proof fn lemma_merge_twice(
    m: Map<Seq<char>, Seq<Seq<char>>>,
    es: Seq<(Seq<char>, Seq<Seq<char>>)>,
    home: Option<Seq<char>>,
    mid: Map<Seq<char>, Seq<Seq<char>>>,
    r2: Result<(), ErrorView>,
    last: Map<Seq<char>, Seq<Seq<char>>>,
)
    requires
        keys_distinct(es),
        merge_outcome(m, es, home, Ok(()), mid),
        merge_outcome(mid, es, home, r2, last),
    ensures
        r2 is Ok,
        last == mid,
{
    if let Err(e) = r2 {
        let i = choose|i: int|
            0 <= i < es.len() && prefix_ok(es, i, home) && #[trigger] entry_problem(es[i], home) == Some(e)
                && last == merge_spec(mid, es.take(i), home);
        assert(entry_problem(es[i], home) is None);
    }
    let f = |vs: Seq<Seq<char>>| expand_values(vs, home);
    lemma_merge_overrides(m, es, home);
    lemma_merge_overrides(mid, es, home);
    let x = seq_to_map(es).map_values(f);
    assert(m.union_prefer_right(x).union_prefer_right(x) =~= m.union_prefer_right(x));
}

/// An association list without a repeated key is its own table.
proof fn lemma_table_seq_of_distinct<V>(es: Seq<(Seq<char>, V)>)
    requires
        keys_distinct(es),
    ensures
        table_seq(es) == es,
    decreases es.len(),
{
    if es.len() > 0 {
        let t = es.drop_last();
        assert(keys_distinct(t));
        lemma_table_seq_of_distinct(t);
        assert(!has_key(t, es.last().0)) by {
            if has_key(t, es.last().0) {
                let i = choose|i: int| 0 <= i < t.len() && t[i].0 == es.last().0;
                assert(es[i].0 == es[es.len() - 1].0);
            }
        }
        assert(t.push((es.last().0, es.last().1)) =~= es);
    }
}

/// A parsed mapping file without a repeated key, as a JSON object is, is
/// merged as its own entries in order: each key with its single path or its
/// list of paths. So merging a parsed file is merging that table directly.
pub proof fn lemma_file_merge_is_direct_merge(json: Seq<(String, MappingValue)>)
    requires
        keys_distinct(file_view(json)),
    ensures
        file_table(json) == file_view(json),
        forall|i: int| 0 <= i < json.len() ==> (#[trigger] file_table(json)[i]) == (json[i].0@, value_paths(json[i].1)),
{
    lemma_table_seq_of_distinct(file_view(json));
}

} // verus!
