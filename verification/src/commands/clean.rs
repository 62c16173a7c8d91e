//! The `clean` command: which destinations are looked at, which symlinks are
//! removed, and how the command ends. The caller reads and removes the
//! symlinks, one destination at a time, and reports back.

use crate::mappings::{all_destinations, all_paths, get_link_source, link_source_spec, opt_view};
use crate::table::{strings_view, Mappings};
use vstd::prelude::*;

verus! {

/// Some reported symlink source lies in `repo`: something was removed.
pub open spec fn any_removed(repo: Seq<char>, sources: Seq<Option<Seq<char>>>) -> bool {
    exists|k: int| 0 <= k < sources.len() && (#[trigger] link_source_spec(repo, sources[k])) is Some
}

/// What the caller does next.
pub enum CleanAction {
    /// Read the symlink at `to` and report what it points to (`None` when
    /// there is no symlink).
    Inspect { to: String },
    /// The symlink at `to` points to `source` in the repository: remove it
    /// (a directory link or a file link), tell so, and ask for the next step.
    Remove { source: String, to: String },
    /// Every destination was looked at; `removed` tells whether any symlink
    /// was removed.
    Finish { removed: bool },
}

/// A run of the clean command: the destinations to look at, and what was
/// reported of each so far.
pub struct CleanState {
    repo: String,
    targets: Vec<String>,
    next: usize,
    removed: bool,
    awaiting: bool,
    reports: Ghost<Seq<Option<Seq<char>>>>,
}

impl CleanState {
    /// The repository.
    pub closed spec fn repo(&self) -> Seq<char> {
        self.repo@
    }

    /// The destinations to look at, in order.
    pub closed spec fn targets(&self) -> Seq<Seq<char>> {
        strings_view(self.targets@)
    }

    /// What each destination looked at so far points to, in order.
    pub closed spec fn reports(&self) -> Seq<Option<Seq<char>>> {
        self.reports@
    }

    /// A destination was handed out and its report is due.
    pub closed spec fn awaiting(&self) -> bool {
        self.awaiting
    }

    /// Well-formed: one report per destination looked at, none beyond the
    /// last, a destination handed out only while one is left, and `removed`
    /// telling whether a reported symlink lay in the repository.
    pub closed spec fn wf(&self) -> bool {
        &&& self.next == self.reports@.len()
        &&& self.next <= self.targets@.len()
        &&& self.awaiting ==> self.next < self.targets@.len()
        &&& self.removed == any_removed(self.repo@, self.reports@)
    }

    /// Starts a run for `repo` over every destination of `maps`, in table order.
    pub fn new(repo: &str, maps: &Mappings) -> (st: CleanState)
        ensures
            st.wf(),
            st.repo() == repo@,
            st.targets() == all_paths(maps.entry_seq()),
            st.reports() == Seq::<Option<Seq<char>>>::empty(),
            !st.awaiting(),
    {
        let targets = all_destinations(maps);
        CleanState {
            repo: repo.to_owned(),
            targets,
            next: 0,
            removed: false,
            awaiting: false,
            reports: Ghost(Seq::empty()),
        }
    }
}

/// One step of the clean command. `reported` is what the symlink at the
/// destination handed out last points to; it is taken only while that report
/// is due, and a due destination is handed out again until it comes. A
/// reported symlink into the repository is to be removed; after that, or after
/// any other report, the next destination is handed out, and once every
/// destination has been looked at the run ends, telling whether anything was
/// removed.
pub fn execute(state: &mut CleanState, reported: Option<Option<String>>) -> (action: CleanAction)
    requires
        old(state).wf(),
    ensures
        final(state).wf(),
        final(state).repo() == old(state).repo(),
        final(state).targets() == old(state).targets(),
        final(state).reports() == (if old(state).awaiting() && reported is Some {
            old(state).reports().push(opt_view(reported->0))
        } else {
            old(state).reports()
        }),
        action is Remove <==> old(state).awaiting() && reported is Some
            && link_source_spec(old(state).repo(), opt_view(reported->0)) is Some,
        action matches CleanAction::Remove { source, to } ==> !final(state).awaiting()
            && link_source_spec(old(state).repo(), opt_view(reported->0)) == Some(source@)
            && to@ == final(state).targets()[final(state).reports().len() - 1],
        !(action is Remove) ==> (action is Inspect <==> final(state).reports().len()
            < final(state).targets().len()),
        action matches CleanAction::Inspect { to } ==> final(state).awaiting()
            && to@ == final(state).targets()[final(state).reports().len() as int],
        action matches CleanAction::Finish { removed } ==> !final(state).awaiting()
            && final(state).reports().len() == final(state).targets().len()
            && removed == any_removed(final(state).repo(), final(state).reports()),
{
    if state.awaiting {
        if let Some(source) = reported {
            let ghost before = state.reports@;
            let ghost src_view = opt_view(source);
            let i = state.next;
            assert(i < state.targets.len());
            let found = get_link_source(state.repo.as_str(), source);
            state.reports = Ghost(state.reports@.push(src_view));
            state.next = state.next + 1;
            state.awaiting = false;
            proof {
                let now = state.reports@;
                assert(now[now.len() - 1] == src_view);
                if any_removed(state.repo@, before) {
                    let k = choose|k: int|
                        0 <= k < before.len() && (#[trigger] link_source_spec(state.repo@, before[k])) is Some;
                    assert(now[k] == before[k]);
                }
                if any_removed(state.repo@, now) && found is None {
                    let k = choose|k: int|
                        0 <= k < now.len() && (#[trigger] link_source_spec(state.repo@, now[k])) is Some;
                    assert(k < before.len());
                    assert(before[k] == now[k]);
                }
            }
            match found {
                Some(src) => {
                    state.removed = true;
                    return CleanAction::Remove { source: src, to: state.targets[i].clone() };
                },
                None => {},
            }
        }
    }
    if state.next < state.targets.len() {
        state.awaiting = true;
        CleanAction::Inspect { to: state.targets[state.next].clone() }
    } else {
        CleanAction::Finish { removed: state.removed }
    }
}

} // verus!
