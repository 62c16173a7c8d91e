//! The `link` command: which paths are linked, in which order, and when the
//! command fails. The file system work is done by the caller, one link at a
//! time, and reported back.

use crate::error::{DotfilesError, ErrorView};
use crate::mappings::{changes_file_system, counts_as_linked, create_link_spec, LinkStep};
use crate::table::{lemma_seq_to_map_dom, lemma_seq_to_map_index, strings_view, Mappings};
use crate::paths::{join, join_spec};
use vstd::prelude::*;

verus! {

/// The links of one key: its file in the repository to each of its paths.
pub open spec fn targets_of(repo: Seq<char>, key: Seq<char>, tos: Seq<Seq<char>>) -> Seq<(Seq<char>, Seq<char>)> {
    tos.map_values(|to: Seq<char>| (join_spec(repo, key), to))
}

/// The links of every entry, in table order.
pub open spec fn all_targets(repo: Seq<char>, es: Seq<(Seq<char>, Seq<Seq<char>>)>) -> Seq<(Seq<char>, Seq<char>)>
    decreases es.len(),
{
    if es.len() == 0 {
        Seq::empty()
    } else {
        all_targets(repo, es.drop_last()) + targets_of(repo, es.last().0, es.last().1)
    }
}

/// The links of the named files, in the order they are named; a name that is
/// not a key is skipped.
pub open spec fn chosen_targets(
    repo: Seq<char>,
    m: Map<Seq<char>, Seq<Seq<char>>>,
    names: Seq<Seq<char>>,
) -> Seq<(Seq<char>, Seq<char>)>
    decreases names.len(),
{
    if names.len() == 0 {
        Seq::empty()
    } else {
        let earlier = chosen_targets(repo, m, names.drop_last());
        let f = names.last();
        if m.contains_key(f) {
            earlier + targets_of(repo, f, m[f])
        } else {
            earlier
        }
    }
}

/// The links that the command makes: all of them when no file is named,
/// otherwise those of the named files.
pub open spec fn link_targets_spec(
    repo: Seq<char>,
    maps: Mappings,
    names: Seq<Seq<char>>,
) -> Seq<(Seq<char>, Seq<char>)> {
    if names.len() == 0 {
        all_targets(repo, maps.entry_seq())
    } else {
        chosen_targets(repo, maps@, names)
    }
}

/// `link` goes from `repo` joined with `key` to one of the paths that `m`
/// gives for `key`.
pub open spec fn is_link_of(
    repo: Seq<char>,
    m: Map<Seq<char>, Seq<Seq<char>>>,
    key: Seq<char>,
    link: (Seq<char>, Seq<char>),
) -> bool {
    &&& m.contains_key(key)
    &&& link.0 == join_spec(repo, key)
    &&& m[key].contains(link.1)
}

/// A key is chosen when no file is named, or when it is one of the named files.
pub open spec fn is_chosen(names: Seq<Seq<char>>, key: Seq<char>) -> bool {
    names.len() == 0 || names.contains(key)
}

/// `link` is a link of some chosen key of `m`.
pub open spec fn is_chosen_link(
    repo: Seq<char>,
    m: Map<Seq<char>, Seq<Seq<char>>>,
    names: Seq<Seq<char>>,
    link: (Seq<char>, Seq<char>),
) -> bool {
    exists|key: Seq<char>| is_chosen(names, key) && #[trigger] is_link_of(repo, m, key, link)
}

/// `links` are the links of the chosen keys of `m`, no more and no fewer:
/// each one is a link of a chosen key, and each path of a chosen key is linked.
pub open spec fn links_of_chosen_keys(
    repo: Seq<char>,
    m: Map<Seq<char>, Seq<Seq<char>>>,
    names: Seq<Seq<char>>,
    links: Seq<(Seq<char>, Seq<char>)>,
) -> bool {
    &&& forall|i: int| 0 <= i < links.len() ==> is_chosen_link(repo, m, names, #[trigger] links[i])
    &&& forall|key: Seq<char>, k: int|
        m.contains_key(key) && is_chosen(names, key) && 0 <= k < m[key].len() ==> links.contains(
            (join_spec(repo, key), #[trigger] m[key][k]),
        )
}

proof fn lemma_chosen_sound(repo: Seq<char>, m: Map<Seq<char>, Seq<Seq<char>>>, names: Seq<Seq<char>>)
    ensures
        forall|i: int|
            0 <= i < chosen_targets(repo, m, names).len() ==> exists|j: int|
                0 <= j < names.len() && is_link_of(repo, m, names[j], #[trigger] chosen_targets(repo, m, names)[i]),
    decreases names.len(),
{
    if names.len() > 0 {
        let pre = names.drop_last();
        lemma_chosen_sound(repo, m, pre);
        let c = chosen_targets(repo, m, names);
        let e = chosen_targets(repo, m, pre);
        let f = names.last();
        assert forall|i: int| 0 <= i < c.len() implies exists|j: int|
            0 <= j < names.len() && is_link_of(repo, m, names[j], #[trigger] c[i]) by {
            if i < e.len() {
                let j = choose|j: int| 0 <= j < pre.len() && is_link_of(repo, m, pre[j], #[trigger] e[i]);
                assert(c[i] == e[i]);
                assert(names[j] == pre[j]);
            } else {
                assert(m.contains_key(f));
                let t = targets_of(repo, f, m[f]);
                let k = i - e.len();
                assert(c[i] == t[k]);
                assert(m[f][k] == c[i].1);
                assert(names[names.len() - 1] == f);
            }
        }
    }
}

proof fn lemma_chosen_complete(
    repo: Seq<char>,
    m: Map<Seq<char>, Seq<Seq<char>>>,
    names: Seq<Seq<char>>,
    j: int,
    k: int,
)
    requires
        0 <= j < names.len(),
        m.contains_key(names[j]),
        0 <= k < m[names[j]].len(),
    ensures
        chosen_targets(repo, m, names).contains((join_spec(repo, names[j]), m[names[j]][k])),
    decreases names.len(),
{
    let pre = names.drop_last();
    let e = chosen_targets(repo, m, pre);
    let c = chosen_targets(repo, m, names);
    let link = (join_spec(repo, names[j]), m[names[j]][k]);
    if j == names.len() - 1 {
        let t = targets_of(repo, names[j], m[names[j]]);
        assert(c[e.len() + k] == t[k]);
        assert(c[e.len() + k] == link);
    } else {
        assert(pre[j] == names[j]);
        lemma_chosen_complete(repo, m, pre, j, k);
        let x = choose|x: int| 0 <= x < e.len() && e[x] == link;
        assert(c[x] == e[x]);
    }
}

proof fn lemma_all_sound(repo: Seq<char>, es: Seq<(Seq<char>, Seq<Seq<char>>)>)
    ensures
        forall|i: int|
            0 <= i < all_targets(repo, es).len() ==> exists|j: int|
                0 <= j < es.len() && (#[trigger] all_targets(repo, es)[i]).0 == join_spec(repo, es[j].0)
                    && es[j].1.contains(all_targets(repo, es)[i].1),
    decreases es.len(),
{
    if es.len() > 0 {
        let pre = es.drop_last();
        lemma_all_sound(repo, pre);
        let c = all_targets(repo, es);
        let e = all_targets(repo, pre);
        assert forall|i: int| 0 <= i < c.len() implies exists|j: int|
            0 <= j < es.len() && (#[trigger] c[i]).0 == join_spec(repo, es[j].0) && es[j].1.contains(c[i].1) by {
            if i < e.len() {
                let j = choose|j: int|
                    0 <= j < pre.len() && (#[trigger] e[i]).0 == join_spec(repo, pre[j].0) && pre[j].1.contains(e[i].1);
                assert(c[i] == e[i]);
                assert(es[j] == pre[j]);
            } else {
                let l = es.len() - 1;
                let t = targets_of(repo, es[l].0, es[l].1);
                let k = i - e.len();
                assert(c[i] == t[k]);
                assert(es[l].1[k] == c[i].1);
            }
        }
    }
}

proof fn lemma_all_complete(repo: Seq<char>, es: Seq<(Seq<char>, Seq<Seq<char>>)>, j: int, k: int)
    requires
        0 <= j < es.len(),
        0 <= k < es[j].1.len(),
    ensures
        all_targets(repo, es).contains((join_spec(repo, es[j].0), es[j].1[k])),
    decreases es.len(),
{
    let pre = es.drop_last();
    let e = all_targets(repo, pre);
    let c = all_targets(repo, es);
    let link = (join_spec(repo, es[j].0), es[j].1[k]);
    if j == es.len() - 1 {
        let t = targets_of(repo, es[j].0, es[j].1);
        assert(c[e.len() + k] == t[k]);
        assert(c[e.len() + k] == link);
    } else {
        assert(pre[j] == es[j]);
        lemma_all_complete(repo, pre, j, k);
        let x = choose|x: int| 0 <= x < e.len() && e[x] == link;
        assert(c[x] == e[x]);
    }
}

/// The link command links exactly the paths of the chosen keys: every key of
/// the table when no file is named, and only the named files that are keys
/// otherwise (none at all when no named file is a key). Every link goes from
/// the repository joined with its key to one of that key's paths.
pub proof fn lemma_link_targets_are_chosen_keys(repo: Seq<char>, maps: Mappings, names: Seq<Seq<char>>)
    requires
        maps.wf(),
    ensures
        links_of_chosen_keys(repo, maps@, names, link_targets_spec(repo, maps, names)),
{
    let m = maps@;
    let links = link_targets_spec(repo, maps, names);
    let es = maps.entry_seq();
    if names.len() == 0 {
        lemma_all_sound(repo, es);
        assert forall|i: int| 0 <= i < links.len() implies is_chosen_link(repo, m, names, #[trigger] links[i]) by {
            let j = choose|j: int|
                0 <= j < es.len() && (#[trigger] links[i]).0 == join_spec(repo, es[j].0) && es[j].1.contains(links[i].1);
            lemma_seq_to_map_index(es, j);
            assert(is_link_of(repo, m, es[j].0, links[i]));
            assert(is_chosen(names, es[j].0));
            assert(is_chosen_link(repo, m, names, links[i]));
        }
        assert forall|key: Seq<char>, k: int|
            m.contains_key(key) && is_chosen(names, key) && 0 <= k < m[key].len() implies links.contains(
            (join_spec(repo, key), #[trigger] m[key][k]),
        ) by {
            lemma_seq_to_map_dom(es, key);
            let j = choose|j: int| 0 <= j < es.len() && es[j].0 == key;
            lemma_seq_to_map_index(es, j);
            lemma_all_complete(repo, es, j, k);
        }
    } else {
        lemma_chosen_sound(repo, m, names);
        assert forall|i: int| 0 <= i < links.len() implies is_chosen_link(repo, m, names, #[trigger] links[i]) by {
            let j = choose|j: int| 0 <= j < names.len() && is_link_of(repo, m, names[j], #[trigger] links[i]);
            assert(names.contains(names[j]));
            assert(is_chosen(names, names[j]));
            assert(is_link_of(repo, m, names[j], links[i]));
            assert(is_chosen_link(repo, m, names, links[i]));
        }
        assert forall|key: Seq<char>, k: int|
            m.contains_key(key) && is_chosen(names, key) && 0 <= k < m[key].len() implies links.contains(
            (join_spec(repo, key), #[trigger] m[key][k]),
        ) by {
            let j = choose|j: int| 0 <= j < names.len() && names[j] == key;
            lemma_chosen_complete(repo, m, names, j, k);
        }
    }
}

/// Pairs of strings as plain values.
pub open spec fn links_view(v: Seq<(String, String)>) -> Seq<(Seq<char>, Seq<char>)> {
    v.map_values(|p: (String, String)| (p.0@, p.1@))
}

/// Appends the links of `key` to `out`.
fn push_targets(out: &mut Vec<(String, String)>, repo: &str, key: &str, tos: &Vec<String>)
    ensures
        links_view(final(out)@) == links_view(old(out)@) + targets_of(repo@, key@, strings_view(tos@)),
{
    let from = join(repo, key);
    let ghost before = links_view(out@);
    let n = tos.len();
    let mut i: usize = 0;
    while i < n
        invariant
            n == tos@.len(),
            i <= n,
            from@ == join_spec(repo@, key@),
            links_view(out@) == before + targets_of(repo@, key@, strings_view(tos@).take(i as int)),
        decreases n - i,
    {
        let ghost prev = out@;
        out.push((from.clone(), tos[i].clone()));
        assert(links_view(out@) =~= links_view(prev).push((from@, tos@[i as int]@)));
        assert(strings_view(tos@).take(i + 1) =~= strings_view(tos@).take(i as int).push(tos@[i as int]@));
        assert(targets_of(repo@, key@, strings_view(tos@).take(i + 1)) =~= targets_of(
            repo@,
            key@,
            strings_view(tos@).take(i as int),
        ).push((from@, tos@[i as int]@)));
        i += 1;
    }
    assert(strings_view(tos@).take(n as int) =~= strings_view(tos@));
}

/// The links that the command makes, in order: from `repo` joined with each
/// key to each of its paths; when `specified` names files, only theirs, in the
/// order named.
pub fn link_targets(repo: &str, maps: &Mappings, specified: &Vec<String>) -> (res: Vec<(String, String)>)
    requires
        maps.wf(),
    ensures
        links_view(res@) == link_targets_spec(repo@, *maps, strings_view(specified@)),
        links_of_chosen_keys(repo@, maps@, strings_view(specified@), links_view(res@)),
{
    proof {
        lemma_link_targets_are_chosen_keys(repo@, *maps, strings_view(specified@));
    }
    let mut out: Vec<(String, String)> = Vec::new();
    if specified.len() == 0 {
        let ghost es = maps.entry_seq();
        let n = maps.len();
        let mut i: usize = 0;
        assert(links_view(out@) =~= all_targets(repo@, es.take(0)));
        while i < n
            invariant
                n == es.len(),
                es == maps.entry_seq(),
                i <= n,
                links_view(out@) == all_targets(repo@, es.take(i as int)),
            decreases n - i,
        {
            push_targets(&mut out, repo, maps.key_at(i).as_str(), maps.paths_at(i));
            assert(es.take(i + 1).drop_last() =~= es.take(i as int));
            i += 1;
        }
        assert(es.take(n as int) =~= es);
    } else {
        let ghost names = strings_view(specified@);
        let n = specified.len();
        let mut i: usize = 0;
        assert(links_view(out@) =~= chosen_targets(repo@, maps@, names.take(0)));
        while i < n
            invariant
                n == names.len(),
                names == strings_view(specified@),
                maps.wf(),
                i <= n,
                links_view(out@) == chosen_targets(repo@, maps@, names.take(i as int)),
            decreases n - i,
        {
            let f = specified[i].as_str();
            assert(names.take(i + 1).drop_last() =~= names.take(i as int));
            assert(names.take(i + 1).last() == f@);
            match maps.get(f) {
                Some(tos) => {
                    push_targets(&mut out, repo, f, tos);
                },
                None => {},
            }
            i += 1;
        }
        assert(names.take(n as int) =~= names);
    }
    out
}


/// What the caller does next.
pub enum LinkAction {
    /// Link `from` to `to` (see `mappings::create_link`) and report whether it
    /// counts as linked.
    Link { from: String, to: String },
    /// The command is over, with this outcome.
    Finish(Result<(), DotfilesError>),
}

/// A run of the link command: the links to make, and what has been reported.
pub struct LinkState {
    repo: String,
    targets: Vec<(String, String)>,
    next: usize,
    created: bool,
    awaiting: bool,
    reports: Ghost<Seq<bool>>,
}

impl LinkState {
    /// The repository.
    pub closed spec fn repo(&self) -> Seq<char> {
        self.repo@
    }

    /// The links to make, in order.
    pub closed spec fn targets(&self) -> Seq<(Seq<char>, Seq<char>)> {
        links_view(self.targets@)
    }

    /// What was reported for each link made so far, in order.
    pub closed spec fn reports(&self) -> Seq<bool> {
        self.reports@
    }

    /// A link was handed out and its report is due.
    pub closed spec fn awaiting(&self) -> bool {
        self.awaiting
    }

    /// Well-formed: one report per link made, none beyond the last link, a
    /// link handed out only while one is left, and `created` telling whether
    /// any report was a link.
    pub closed spec fn wf(&self) -> bool {
        &&& self.next == self.reports@.len()
        &&& self.next <= self.targets@.len()
        &&& self.awaiting ==> self.next < self.targets@.len()
        &&& self.created == self.reports@.contains(true)
    }

    /// Starts a run for `repo` with the links that `link_targets` gives.
    pub fn new(repo: &str, maps: &Mappings, specified: &Vec<String>) -> (st: LinkState)
        requires
            maps.wf(),
        ensures
            st.wf(),
            st.repo() == repo@,
            st.targets() == link_targets_spec(repo@, *maps, strings_view(specified@)),
            links_of_chosen_keys(repo@, maps@, strings_view(specified@), st.targets()),
            st.reports() == Seq::<bool>::empty(),
            !st.awaiting(),
    {
        let targets = link_targets(repo, maps, specified);
        let st = LinkState {
            repo: repo.to_owned(),
            targets,
            next: 0,
            created: false,
            awaiting: false,
            reports: Ghost(Seq::empty()),
        };
        assert(!st.reports@.contains(true));
        st
    }
}

/// One step of the link command. `reported` is the outcome of the link handed
/// out last (whether it counts as linked); it is taken only while that report
/// is due, and a due link is handed out again until it comes. Then the next
/// link is handed out, or, when every link has been reported, the run ends:
/// with success when some link counted as linked, and with `NothingLinked`
/// otherwise.
pub fn execute(state: &mut LinkState, reported: Option<bool>) -> (action: LinkAction)
    requires
        old(state).wf(),
    ensures
        final(state).wf(),
        final(state).repo() == old(state).repo(),
        final(state).targets() == old(state).targets(),
        final(state).reports() == (if old(state).awaiting() && reported is Some {
            old(state).reports().push(reported->0)
        } else {
            old(state).reports()
        }),
        action is Link <==> final(state).reports().len() < final(state).targets().len(),
        action matches LinkAction::Link { from, to } ==> final(state).awaiting()
            && (from@, to@) == final(state).targets()[final(state).reports().len() as int],
        action matches LinkAction::Finish(r) ==> !final(state).awaiting()
            && (r is Ok <==> final(state).reports().contains(true))
            && (r matches Err(e) ==> e@ == ErrorView::NothingLinked(final(state).repo())),
{
    let total = state.targets.len();
    if state.awaiting {
        if let Some(b) = reported {
            assert(state.next < total);
            let ghost before = state.reports@;
            state.reports = Ghost(state.reports@.push(b));
            state.created = state.created || b;
            state.next = state.next + 1;
            state.awaiting = false;
            proof {
                let now = state.reports@;
                assert(now.last() == b);
                if before.contains(true) {
                    let k = choose|k: int| 0 <= k < before.len() && before[k] == true;
                    assert(now[k] == true);
                }
                if now.contains(true) && !b {
                    let k = choose|k: int| 0 <= k < now.len() && now[k] == true;
                    assert(before[k] == true);
                }
            }
        }
    }
    if state.next < state.targets.len() {
        state.awaiting = true;
        let (from, to) = (state.targets[state.next].0.clone(), state.targets[state.next].1.clone());
        LinkAction::Link { from, to }
    } else if state.created {
        LinkAction::Finish(Ok(()))
    } else {
        LinkAction::Finish(Err(DotfilesError::NothingLinked(state.repo.clone())))
    }
}

/// The steps of one run of the command over its links, not dry: link `i` finds
/// its source there or not (`from_exists[i]`), its destination there or not
/// (`to_exists[i]`), and its source a directory or not (`from_is_dir[i]`).
pub open spec fn run_steps(from_exists: Seq<bool>, to_exists: Seq<bool>, from_is_dir: Seq<bool>) -> Seq<LinkStep> {
    Seq::new(from_exists.len(), |i: int| create_link_spec(from_exists[i], to_exists[i], from_is_dir[i], false))
}

/// What a run reports to `execute`, link by link: whether the step counts as
/// linked.
pub open spec fn run_reports(steps: Seq<LinkStep>) -> Seq<bool> {
    steps.map_values(|s: LinkStep| counts_as_linked(s))
}

/// Running the command twice over the same links, with nothing changed in
/// between: after the first run every link that counted as linked has its
/// destination in place, and the sources are as they were. Then the second run
/// changes nothing on disk, reports every link whose source exists as already
/// there and every other one as missing, and reports the same as the first
/// run, so that (by `execute`) it ends in success exactly when the first did.
pub proof fn lemma_link_twice_changes_nothing(
    from_exists: Seq<bool>,
    first_to_exists: Seq<bool>,
    second_to_exists: Seq<bool>,
    from_is_dir: Seq<bool>,
)
    requires
        first_to_exists.len() == from_exists.len(),
        second_to_exists.len() == from_exists.len(),
        from_is_dir.len() == from_exists.len(),
        forall|i: int|
            0 <= i < from_exists.len() && counts_as_linked(
                #[trigger] run_steps(from_exists, first_to_exists, from_is_dir)[i],
            ) ==> second_to_exists[i],
    ensures
        ({
            let first = run_steps(from_exists, first_to_exists, from_is_dir);
            let second = run_steps(from_exists, second_to_exists, from_is_dir);
            &&& forall|i: int| 0 <= i < second.len() ==> !changes_file_system(#[trigger] second[i])
            &&& forall|i: int|
                0 <= i < second.len() ==> (#[trigger] second[i] == if from_exists[i] {
                    LinkStep::AlreadyExists
                } else {
                    LinkStep::SourceMissing
                })
            &&& run_reports(second) == run_reports(first)
            &&& (run_reports(second).contains(true) <==> run_reports(first).contains(true))
        }),
{
    let first = run_steps(from_exists, first_to_exists, from_is_dir);
    let second = run_steps(from_exists, second_to_exists, from_is_dir);
    assert forall|i: int| 0 <= i < second.len() implies #[trigger] second[i] == (if from_exists[i] {
        LinkStep::AlreadyExists
    } else {
        LinkStep::SourceMissing
    }) by {
        assert(counts_as_linked(first[i]) == from_exists[i]);
    }
    assert(run_reports(second) =~= run_reports(first));
}

} // verus!
