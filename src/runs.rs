//! What holds of every run of the engine against a filesystem that answers
//! consistently.
use vstd::prelude::*;

use crate::explorer::{
    drop_rejected, listing_model, seed, step_model, ExplorerModel, ListingView, Outcome, Probe,
    ProbeView,
};
use crate::policy::{Exclusions, Filter};

verus! {

/// What a metadata probe of a path finds.
pub enum Kind {
    Dir,
    File,
    /// The probe fails: the path is missing, a broken link, or unreadable.
    Unreadable,
}

/// A filesystem as the engine's driver sees it: the kind of each path, the
/// entries that listing each directory yields, and a height for each path.
pub struct World {
    pub kind: spec_fn(Seq<char>) -> Kind,
    pub entries: spec_fn(Seq<char>) -> Seq<Seq<char>>,
    pub height: spec_fn(Seq<char>) -> nat,
}

/// Whether `probe` is what probing `p` in `w` reports.
pub open spec fn probe_agrees(w: World, p: Seq<char>, probe: ProbeView) -> bool {
    match probe {
        ProbeView::Dir => (w.kind)(p) == Kind::Dir,
        ProbeView::File => (w.kind)(p) == Kind::File,
        ProbeView::Failed(_) => (w.kind)(p) == Kind::Unreadable,
    }
}

/// Whether every base path comes with what probing it in `w` reports.
pub open spec fn roots_agree(w: World, roots: Seq<(String, Probe)>) -> bool {
    forall|i: int| 0 <= i < roots.len() ==> probe_agrees(w, #[trigger] roots[i].0@, roots[i].1@)
}

/// One call into the engine: `next_step`, or `on_listing` with a directory
/// and one outcome of listing it.
pub enum Event {
    Next,
    Listed(Seq<char>, ListingView),
}

/// Whether an event could come from a driver that works against `w`: a
/// listing is of a directory, and an entry comes with what probing it
/// reports.
pub open spec fn event_agrees(w: World, ev: Event) -> bool {
    match ev {
        Event::Next => true,
        Event::Listed(d, item) => {
            &&& (w.kind)(d) == Kind::Dir
            &&& match item {
                ListingView::Entry(p, probe) => probe_agrees(w, p, probe),
                _ => true,
            }
        },
    }
}

pub open spec fn events_agree(w: World, evs: Seq<Event>) -> bool {
    forall|i: int| 0 <= i < evs.len() ==> event_agrees(w, #[trigger] evs[i])
}

/// The state after one event, and the files it handed out.
pub open spec fn apply(m: ExplorerModel, f: Filter, e: Exclusions, ev: Event) -> (
    ExplorerModel,
    Seq<Seq<char>>,
) {
    match ev {
        Event::Next => {
            let (m2, o) = step_model(m, f);
            (
                m2,
                match o {
                    Outcome::Emit(p) => seq![p],
                    _ => Seq::empty(),
                },
            )
        },
        Event::Listed(d, item) => (listing_model(m, d, item, e).0, Seq::empty()),
    }
}

/// The state after a sequence of events, and all the files handed out on the
/// way, in order.
pub open spec fn run(m: ExplorerModel, f: Filter, e: Exclusions, evs: Seq<Event>) -> (
    ExplorerModel,
    Seq<Seq<char>>,
)
    decreases evs.len(),
{
    if evs.len() == 0 {
        (m, Seq::empty())
    } else {
        let (m1, out1) = run(m, f, e, evs.drop_last());
        let (m2, out2) = apply(m1, f, e, evs.last());
        (m2, out1 + out2)
    }
}

/// Every pending directory is a directory of `w`, every pending file a file
/// of `w`, and no logged path is a file of `w`.
pub open spec fn agrees(m: ExplorerModel, w: World) -> bool {
    &&& forall|i: int| 0 <= i < m.dirs.len() ==> (w.kind)(#[trigger] m.dirs[i]) == Kind::Dir
    &&& forall|i: int| 0 <= i < m.files.len() ==> (w.kind)(#[trigger] m.files[i]) == Kind::File
    &&& forall|i: int| 0 <= i < m.failed.len() ==> (w.kind)(#[trigger] m.failed[i].0) != Kind::File
}

/// Dropping rejected files leaves a prefix of the file stack.
pub proof fn lemma_drop_rejected_prefix(files: Seq<Seq<char>>, f: Filter)
    ensures
        drop_rejected(files, f).len() <= files.len(),
        drop_rejected(files, f) == files.take(drop_rejected(files, f).len() as int),
    decreases files.len(),
{
    if files.len() == 0 || f.admits(files.last()) {
        assert(files.take(files.len() as int) =~= files);
    } else {
        lemma_drop_rejected_prefix(files.drop_last(), f);
        let t = drop_rejected(files.drop_last(), f);
        assert(files.drop_last().take(t.len() as int) =~= files.take(t.len() as int));
    }
}

pub proof fn lemma_seed_agrees(w: World, roots: Seq<(String, Probe)>, e: Exclusions)
    requires
        roots_agree(w, roots),
    ensures
        agrees(seed(roots, e), w),
        seed(roots, e).failed.len() == 0,
    decreases roots.len(),
{
    if roots.len() > 0 {
        let rest = roots.drop_last();
        assert(roots_agree(w, rest)) by {
            assert forall|i: int| 0 <= i < rest.len() implies probe_agrees(
                w,
                #[trigger] rest[i].0@,
                rest[i].1@,
            ) by {
                assert(rest[i] == roots[i]);
            }
        }
        lemma_seed_agrees(w, rest, e);
        let m = seed(rest, e);
        let p = roots.last().0@;
        assert(probe_agrees(w, roots[roots.len() - 1].0@, roots[roots.len() - 1].1@));
        assert forall|i: int| 0 <= i < m.dirs.len() + 1 implies (w.kind)(
            #[trigger] m.dirs.push(p)[i],
        ) == Kind::Dir || roots.last().1 != Probe::Dir by {
            if i < m.dirs.len() {
                assert(m.dirs.push(p)[i] == m.dirs[i]);
            }
        }
        assert forall|i: int| 0 <= i < m.files.len() + 1 implies (w.kind)(
            #[trigger] m.files.push(p)[i],
        ) == Kind::File || roots.last().1 != Probe::File by {
            if i < m.files.len() {
                assert(m.files.push(p)[i] == m.files[i]);
            }
        }
    }
}

proof fn lemma_apply_agrees(m: ExplorerModel, f: Filter, e: Exclusions, w: World, ev: Event)
    requires
        agrees(m, w),
        event_agrees(w, ev),
    ensures
        agrees(apply(m, f, e, ev).0, w),
        forall|i: int|
            0 <= i < apply(m, f, e, ev).1.len() ==> (w.kind)(#[trigger] apply(m, f, e, ev).1[i])
                == Kind::File,
        apply(m, f, e, ev).0.failed.len() >= m.failed.len(),
        forall|i: int|
            0 <= i < m.failed.len() ==> #[trigger] apply(m, f, e, ev).0.failed[i] == m.failed[i],
{
    match ev {
        Event::Next => {
            lemma_drop_rejected_prefix(m.files, f);
            let t = drop_rejected(m.files, f);
            assert forall|i: int| 0 <= i < t.len() implies (w.kind)(#[trigger] t[i])
                == Kind::File by {
                assert(t[i] == m.files[i]);
            }
            if t.len() > 0 {
                assert(t.last() == t[t.len() - 1]);
            }
        },
        Event::Listed(d, item) => {
            let m2 = listing_model(m, d, item, e).0;
            assert forall|i: int| 0 <= i < m2.dirs.len() implies (w.kind)(#[trigger] m2.dirs[i])
                == Kind::Dir by {
                if i < m.dirs.len() {
                    assert(m2.dirs[i] == m.dirs[i]);
                }
            }
            assert forall|i: int| 0 <= i < m2.files.len() implies (w.kind)(
                #[trigger] m2.files[i],
            ) == Kind::File by {
                if i < m.files.len() {
                    assert(m2.files[i] == m.files[i]);
                }
            }
            assert forall|i: int| 0 <= i < m2.failed.len() implies (w.kind)(
                #[trigger] m2.failed[i].0,
            ) != Kind::File by {
                if i < m.failed.len() {
                    assert(m2.failed[i] == m.failed[i]);
                }
            }
        },
    }
}

/// Over a run against `w` from any state that agrees with it: the state
/// keeps agreeing, only files of `w` are handed out, and the failure log only
/// grows.
pub proof fn lemma_run_agrees(m: ExplorerModel, f: Filter, e: Exclusions, w: World, evs: Seq<Event>)
    requires
        agrees(m, w),
        events_agree(w, evs),
    ensures
        agrees(run(m, f, e, evs).0, w),
        forall|i: int|
            0 <= i < run(m, f, e, evs).1.len() ==> (w.kind)(#[trigger] run(m, f, e, evs).1[i])
                == Kind::File,
        run(m, f, e, evs).0.failed.len() >= m.failed.len(),
        forall|i: int|
            0 <= i < m.failed.len() ==> #[trigger] run(m, f, e, evs).0.failed[i] == m.failed[i],
    decreases evs.len(),
{
    if evs.len() > 0 {
        let rest = evs.drop_last();
        assert(events_agree(w, rest)) by {
            assert forall|i: int| 0 <= i < rest.len() implies event_agrees(w, #[trigger] rest[i]) by {
                assert(rest[i] == evs[i]);
            }
        }
        lemma_run_agrees(m, f, e, w, rest);
        let (m1, out1) = run(m, f, e, rest);
        assert(event_agrees(w, evs[evs.len() - 1]));
        lemma_apply_agrees(m1, f, e, w, evs.last());
        let out2 = apply(m1, f, e, evs.last()).1;
        assert forall|i: int| 0 <= i < (out1 + out2).len() implies (w.kind)(
            #[trigger] (out1 + out2)[i],
        ) == Kind::File by {
            if i >= out1.len() {
                assert((out1 + out2)[i] == out2[i - out1.len()]);
            }
        }
    }
}

/// A path that stands on the directory stack at any point of a run against
/// `w`, which started from base paths probed in `w`, is never handed out in
/// that run.
pub proof fn lemma_directory_never_emitted(
    roots: Seq<(String, Probe)>,
    f: Filter,
    e: Exclusions,
    w: World,
    evs: Seq<Event>,
    k: int,
    p: Seq<char>,
)
    requires
        roots_agree(w, roots),
        events_agree(w, evs),
        0 <= k <= evs.len(),
        run(seed(roots, e), f, e, evs.take(k)).0.dirs.contains(p),
    ensures
        !run(seed(roots, e), f, e, evs).1.contains(p),
{
    lemma_seed_agrees(w, roots, e);
    let pre = evs.take(k);
    assert(events_agree(w, pre)) by {
        assert forall|i: int| 0 <= i < pre.len() implies event_agrees(w, #[trigger] pre[i]) by {
            assert(pre[i] == evs[i]);
        }
    }
    lemma_run_agrees(seed(roots, e), f, e, w, pre);
    lemma_run_agrees(seed(roots, e), f, e, w, evs);
}

/// A path in the failure log at the end of a run against `w`, which started
/// from base paths probed in `w`, was never handed out in that run.
pub proof fn lemma_failed_never_emitted(
    roots: Seq<(String, Probe)>,
    f: Filter,
    e: Exclusions,
    w: World,
    evs: Seq<Event>,
    i: int,
)
    requires
        roots_agree(w, roots),
        events_agree(w, evs),
        0 <= i < run(seed(roots, e), f, e, evs).0.failed.len(),
    ensures
        !run(seed(roots, e), f, e, evs).1.contains(run(seed(roots, e), f, e, evs).0.failed[i].0),
{
    lemma_seed_agrees(w, roots, e);
    lemma_run_agrees(seed(roots, e), f, e, w, evs);
}

/// Once a step finds nothing pending, every later step finds the same state
/// and reports the end again.
pub proof fn lemma_exhausted_stays(m: ExplorerModel, f: Filter)
    requires
        step_model(m, f).1 == Outcome::Exhausted,
    ensures
        step_model(step_model(m, f).0, f) == step_model(m, f),
{
    let m1 = step_model(m, f).0;
    assert(m1.files.len() == 0);
    assert(drop_rejected(m1.files, f) == m1.files);
}

/// The base paths whose probe did not fail, in order.
pub open spec fn live_roots(roots: Seq<(String, Probe)>) -> Seq<(String, Probe)>
    decreases roots.len(),
{
    if roots.len() == 0 {
        roots
    } else if roots.last().1 is Failed {
        live_roots(roots.drop_last())
    } else {
        live_roots(roots.drop_last()).push(roots.last())
    }
}

/// Base paths whose probe failed leave no trace: the engine starts in the
/// state it would have without them, with an empty failure log, so every run
/// from it goes exactly as it would without them.
pub proof fn lemma_failed_roots_dropped(
    roots: Seq<(String, Probe)>,
    f: Filter,
    e: Exclusions,
    evs: Seq<Event>,
)
    ensures
        seed(roots, e) == seed(live_roots(roots), e),
        seed(roots, e).failed.len() == 0,
        run(seed(roots, e), f, e, evs) == run(seed(live_roots(roots), e), f, e, evs),
    decreases roots.len(),
{
    if roots.len() > 0 {
        let rest = roots.drop_last();
        lemma_failed_roots_dropped(rest, f, e, evs);
        if !(roots.last().1 is Failed) {
            let l = live_roots(roots);
            assert(l.drop_last() =~= live_roots(rest));
            assert(l.last() == roots.last());
        }
    }
}

/// Whether the event lists directory `p`, or hands over an entry at `p`.
pub open spec fn names(ev: Event, p: Seq<char>) -> bool {
    match ev {
        Event::Next => false,
        Event::Listed(d, item) => d == p || match item {
            ListingView::Entry(q, _) => q == p,
            _ => false,
        },
    }
}

/// Every path in the failure log after a run from the engine's first state
/// was named by one of the run's listing events.
pub proof fn lemma_logged_paths_were_listed(
    roots: Seq<(String, Probe)>,
    f: Filter,
    e: Exclusions,
    evs: Seq<Event>,
)
    ensures
        forall|i: int|
            0 <= i < run(seed(roots, e), f, e, evs).0.failed.len() ==> exists|k: int|
                0 <= k < evs.len() && names(
                    evs[k],
                    #[trigger] run(seed(roots, e), f, e, evs).0.failed[i].0,
                ),
    decreases evs.len(),
{
    lemma_failed_roots_dropped(roots, f, e, evs);
    if evs.len() > 0 {
        let rest = evs.drop_last();
        lemma_logged_paths_were_listed(roots, f, e, rest);
        let m1 = run(seed(roots, e), f, e, rest).0;
        let m2 = run(seed(roots, e), f, e, evs).0;
        let ev = evs.last();
        assert(m2 == apply(m1, f, e, ev).0);
        assert forall|i: int| 0 <= i < m2.failed.len() implies exists|k: int|
            0 <= k < evs.len() && names(evs[k], #[trigger] m2.failed[i].0) by {
            if i < m1.failed.len() {
                match ev {
                    Event::Next => {
                        lemma_drop_rejected_prefix(m1.files, f);
                    },
                    _ => {},
                }
                assert(m2.failed[i] == m1.failed[i]);
                let k = choose|k: int| 0 <= k < rest.len() && names(rest[k], m1.failed[i].0);
                assert(evs[k] == rest[k]);
            } else {
                assert(names(evs[evs.len() - 1], m2.failed[i].0));
            }
        }
    }
}

/// A base path whose probe failed, and which no listing of the run names
/// (it is no directory listed and no entry of one), is never in the failure
/// log of that run.
pub proof fn lemma_failed_root_never_logged(
    roots: Seq<(String, Probe)>,
    f: Filter,
    e: Exclusions,
    evs: Seq<Event>,
    j: int,
)
    requires
        0 <= j < roots.len(),
        roots[j].1 is Failed,
        forall|k: int| 0 <= k < evs.len() ==> !names(#[trigger] evs[k], roots[j].0@),
    ensures
        forall|i: int|
            0 <= i < run(seed(roots, e), f, e, evs).0.failed.len() ==> (#[trigger] run(
                seed(roots, e),
                f,
                e,
                evs,
            ).0.failed[i]).0 != roots[j].0@,
{
    lemma_logged_paths_were_listed(roots, f, e, evs);
}

} // verus!
