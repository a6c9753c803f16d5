//! Enumerating a tree hands out each file under the base paths, outside the
//! excluded paths, exactly as often as it lies under them.
use vstd::multiset::Multiset;
use vstd::prelude::*;

use crate::explorer::{
    drop_rejected, listing_model, seed, step_model, ExplorerModel, ListingView, Outcome, Probe,
    ProbeView,
};
use crate::runs::{lemma_seed_agrees, roots_agree, Kind, World};
use crate::policy::{Exclusions, Filter};

verus! {

broadcast use vstd::seq_lib::group_to_multiset_ensures, vstd::multiset::group_multiset_axioms;

/// Whether every entry of a directory of `w` is lower than the directory, so
/// that the directories of `w` hold no cycle.
pub open spec fn is_tree(w: World) -> bool {
    forall|d: Seq<char>, i: int|
        (w.kind)(d) == Kind::Dir && 0 <= i < (w.entries)(d).len() ==> (w.height)(
            #[trigger] (w.entries)(d)[i],
        ) < (w.height)(d)
}

/// The files under each of `paths` lower than `bound`, each counted once per
/// way it is reached; an excluded path and all that lies under it count for
/// nothing.
pub open spec fn files_below(
    w: World,
    e: Exclusions,
    paths: Seq<Seq<char>>,
    bound: nat,
) -> Multiset<Seq<char>>
    decreases bound, paths.len(),
{
    if paths.len() == 0 {
        Multiset::empty()
    } else {
        let p = paths.last();
        files_below(w, e, paths.drop_last(), bound).add(
            if e.excludes(p) {
                Multiset::empty()
            } else {
                match (w.kind)(p) {
                    Kind::File => Multiset::singleton(p),
                    Kind::Dir => if (w.height)(p) < bound {
                        files_below(w, e, (w.entries)(p), (w.height)(p))
                    } else {
                        Multiset::empty()
                    },
                    Kind::Unreadable => Multiset::empty(),
                }
            },
        )
    }
}

/// The files under `p`, outside excluded paths: `p` itself if it is a file,
/// what lies under its entries if it is a directory, nothing if it cannot be
/// probed or is excluded.
pub open spec fn files_at(w: World, e: Exclusions, p: Seq<char>) -> Multiset<Seq<char>> {
    files_below(w, e, seq![p], (w.height)(p) + 1)
}

/// The files under each of `paths`, together.
pub open spec fn files_under(w: World, e: Exclusions, paths: Seq<Seq<char>>) -> Multiset<
    Seq<char>,
>
    decreases paths.len(),
{
    if paths.len() == 0 {
        Multiset::empty()
    } else {
        files_under(w, e, paths.drop_last()).add(files_at(w, e, paths.last()))
    }
}

/// The files still to come from a state: the pending files, and those under
/// the pending directories.
pub open spec fn pending(w: World, e: Exclusions, m: ExplorerModel) -> Multiset<Seq<char>> {
    m.files.to_multiset().add(files_under(w, e, m.dirs))
}

pub open spec fn root_paths(roots: Seq<(String, Probe)>) -> Seq<Seq<char>> {
    roots.map_values(|r: (String, Probe)| r.0@)
}

/// What probing `p` in `w` reports (with an empty cause for a failure).
pub open spec fn probe_in(w: World, p: Seq<char>) -> ProbeView {
    match (w.kind)(p) {
        Kind::Dir => ProbeView::Dir,
        Kind::File => ProbeView::File,
        Kind::Unreadable => ProbeView::Failed(Seq::empty()),
    }
}

/// The state after each of `entries` of `d` is handed over, probed in `w`.
pub open spec fn list_entries(
    m: ExplorerModel,
    d: Seq<char>,
    entries: Seq<Seq<char>>,
    w: World,
    e: Exclusions,
) -> ExplorerModel
    decreases entries.len(),
{
    if entries.len() == 0 {
        m
    } else {
        let p = entries.last();
        listing_model(
            list_entries(m, d, entries.drop_last(), w, e),
            d,
            ListingView::Entry(p, probe_in(w, p)),
            e,
        ).0
    }
}

/// `n` rounds of a driver that works against `w`: each round calls
/// `next_step`, and lists in full the directory it names. The result is the
/// state reached, the files handed out in order, and whether the end was
/// reported.
pub open spec fn drive(m: ExplorerModel, f: Filter, e: Exclusions, w: World, n: nat) -> (
    ExplorerModel,
    Seq<Seq<char>>,
    bool,
)
    decreases n,
{
    if n == 0 {
        (m, Seq::empty(), false)
    } else {
        let (m1, o) = step_model(m, f);
        match o {
            Outcome::Emit(p) => {
                let (m2, out, done) = drive(m1, f, e, w, (n - 1) as nat);
                (m2, seq![p] + out, done)
            },
            Outcome::Expand(d) => drive(
                list_entries(m1, d, (w.entries)(d), w, e),
                f,
                e,
                w,
                (n - 1) as nat,
            ),
            Outcome::Exhausted => (m1, Seq::empty(), true),
        }
    }
}

/// Every pending directory is a directory of `w` that is not excluded.
pub open spec fn dirs_agree(m: ExplorerModel, w: World, e: Exclusions) -> bool {
    forall|i: int|
        0 <= i < m.dirs.len() ==> (w.kind)(#[trigger] m.dirs[i]) == Kind::Dir && !e.excludes(
            m.dirs[i],
        )
}

/// What lies under `p`, by its kind and whether it is excluded. In
/// particular nothing under an excluded path is counted.
pub proof fn lemma_files_at_unfold(w: World, e: Exclusions, p: Seq<char>)
    ensures
        files_at(w, e, p) == if e.excludes(p) {
            Multiset::empty()
        } else {
            match (w.kind)(p) {
                Kind::File => Multiset::singleton(p),
                Kind::Dir => files_below(w, e, (w.entries)(p), (w.height)(p)),
                Kind::Unreadable => Multiset::empty(),
            }
        },
{
    let b = (w.height)(p) + 1;
    assert(seq![p].drop_last() =~= Seq::<Seq<char>>::empty());
    assert(seq![p].last() == p);
    assert(files_below(w, e, Seq::<Seq<char>>::empty(), b) == Multiset::<Seq<char>>::empty());
    let x = if e.excludes(p) {
        Multiset::empty()
    } else {
        match (w.kind)(p) {
            Kind::File => Multiset::singleton(p),
            Kind::Dir => files_below(w, e, (w.entries)(p), (w.height)(p)),
            Kind::Unreadable => Multiset::empty(),
        }
    };
    assert(files_at(w, e, p) == Multiset::<Seq<char>>::empty().add(x));
    assert(Multiset::<Seq<char>>::empty().add(x) =~= x);
}

proof fn lemma_files_below_bound(w: World, e: Exclusions, paths: Seq<Seq<char>>, bound: nat)
    requires
        is_tree(w),
        forall|i: int| 0 <= i < paths.len() ==> (w.height)(#[trigger] paths[i]) < bound,
    ensures
        files_below(w, e, paths, bound) == files_under(w, e, paths),
    decreases bound, paths.len(),
{
    if paths.len() > 0 {
        let p = paths.last();
        lemma_files_below_bound(w, e, paths.drop_last(), bound);
        lemma_files_at_unfold(w, e, p);
        if (w.kind)(p) == Kind::Dir {
            assert((w.height)(paths[paths.len() - 1]) < bound);
            lemma_files_below_bound(w, e, (w.entries)(p), (w.height)(p));
        }
        assert(files_below(w, e, paths, bound) =~= files_under(w, e, paths));
    }
}

proof fn lemma_files_at_dir(w: World, e: Exclusions, d: Seq<char>)
    requires
        is_tree(w),
        (w.kind)(d) == Kind::Dir,
        !e.excludes(d),
    ensures
        files_at(w, e, d) == files_under(w, e, (w.entries)(d)),
{
    lemma_files_at_unfold(w, e, d);
    lemma_files_below_bound(w, e, (w.entries)(d), (w.height)(d));
}

proof fn lemma_files_at_leaf(w: World, e: Exclusions, p: Seq<char>)
    ensures
        !e.excludes(p) && (w.kind)(p) == Kind::File ==> files_at(w, e, p)
            == Multiset::<Seq<char>>::empty().insert(p),
        e.excludes(p) || (w.kind)(p) == Kind::Unreadable ==> files_at(w, e, p) == Multiset::<
            Seq<char>,
        >::empty(),
{
    lemma_files_at_unfold(w, e, p);
    assert(!e.excludes(p) && (w.kind)(p) == Kind::File ==> files_at(w, e, p)
        =~= Multiset::<Seq<char>>::empty().insert(p));
}

proof fn lemma_files_under_push(w: World, e: Exclusions, s: Seq<Seq<char>>, p: Seq<char>)
    ensures
        files_under(w, e, s.push(p)) == files_under(w, e, s).add(files_at(w, e, p)),
{
    assert(s.push(p).drop_last() =~= s);
    assert(s.push(p).last() == p);
}

proof fn lemma_seed_pending(w: World, roots: Seq<(String, Probe)>, e: Exclusions)
    requires
        roots_agree(w, roots),
    ensures
        pending(w, e, seed(roots, e)) == files_under(w, e, root_paths(roots)),
        dirs_agree(seed(roots, e), w, e),
    decreases roots.len(),
{
    lemma_seed_agrees(w, roots, e);
    if roots.len() == 0 {
        assert(pending(w, e, seed(roots, e)) =~= files_under(w, e, root_paths(roots)));
    } else {
        let rest = roots.drop_last();
        assert(roots_agree(w, rest)) by {
            assert forall|i: int| 0 <= i < rest.len() implies crate::runs::probe_agrees(
                w,
                #[trigger] rest[i].0@,
                rest[i].1@,
            ) by {
                assert(rest[i] == roots[i]);
            }
        }
        lemma_seed_pending(w, rest, e);
        let m = seed(rest, e);
        let m2 = seed(roots, e);
        let p = roots.last().0@;
        assert(crate::runs::probe_agrees(w, roots[roots.len() - 1].0@, roots[roots.len() - 1].1@));
        assert(root_paths(roots).drop_last() =~= root_paths(rest));
        assert(root_paths(roots).last() == p);
        lemma_files_at_leaf(w, e, p);
        lemma_files_under_push(w, e, m.dirs, p);
        if !e.excludes(p) {
            match roots.last().1 {
                Probe::Dir => {
                    assert(m2.dirs == m.dirs.push(p));
                    assert forall|i: int| 0 <= i < m2.dirs.len() implies (w.kind)(
                        #[trigger] m2.dirs[i],
                    ) == Kind::Dir && !e.excludes(m2.dirs[i]) by {
                        if i < m.dirs.len() {
                            assert(m2.dirs[i] == m.dirs[i]);
                        }
                    }
                },
                Probe::File => {
                    assert(m.files.push(p).to_multiset() == m.files.to_multiset().insert(p));
                },
                Probe::Failed(_) => {},
            }
        }
        assert(pending(w, e, m2) =~= files_under(w, e, root_paths(roots)));
    }
}

proof fn lemma_list_entries(
    m: ExplorerModel,
    d: Seq<char>,
    entries: Seq<Seq<char>>,
    w: World,
    e: Exclusions,
)
    requires
        dirs_agree(m, w, e),
    ensures
        pending(w, e, list_entries(m, d, entries, w, e)) == pending(w, e, m).add(
            files_under(w, e, entries),
        ),
        dirs_agree(list_entries(m, d, entries, w, e), w, e),
    decreases entries.len(),
{
    if entries.len() == 0 {
        assert(pending(w, e, m).add(files_under(w, e, entries)) =~= pending(w, e, m));
    } else {
        let c = entries.last();
        lemma_list_entries(m, d, entries.drop_last(), w, e);
        let m1 = list_entries(m, d, entries.drop_last(), w, e);
        let m2 = list_entries(m, d, entries, w, e);
        lemma_files_at_leaf(w, e, c);
        assert(files_under(w, e, entries) == files_under(w, e, entries.drop_last()).add(
            files_at(w, e, c),
        ));
        if e.excludes(c) {
            assert(m2 == m1);
            assert(pending(w, e, m2) =~= pending(w, e, m1).add(files_at(w, e, c)));
        } else if (w.kind)(c) == Kind::File {
            assert(m2.files == m1.files.push(c));
            assert(m2.dirs == m1.dirs);
            assert(m1.files.push(c).to_multiset() == m1.files.to_multiset().insert(c));
            assert(pending(w, e, m2) =~= pending(w, e, m1).add(files_at(w, e, c)));
        } else if (w.kind)(c) == Kind::Unreadable {
            assert(m2.files == m1.files);
            assert(m2.dirs == m1.dirs);
            assert(pending(w, e, m2) =~= pending(w, e, m1).add(files_at(w, e, c)));
        } else {
            assert(m2.dirs == m1.dirs.push(c));
            assert(m2.files == m1.files);
            lemma_files_under_push(w, e, m1.dirs, c);
            assert(pending(w, e, m2) =~= pending(w, e, m1).add(files_at(w, e, c)));
            assert forall|i: int| 0 <= i < m2.dirs.len() implies (w.kind)(#[trigger] m2.dirs[i])
                == Kind::Dir && !e.excludes(m2.dirs[i]) by {
                if i < m1.dirs.len() {
                    assert(m2.dirs[i] == m1.dirs[i]);
                }
            }
        }
        assert(pending(w, e, m2) =~= pending(w, e, m).add(files_under(w, e, entries)));
    }
}

proof fn lemma_drive(m: ExplorerModel, f: Filter, e: Exclusions, w: World, n: nat)
    requires
        is_tree(w),
        f@.len() == 0,
        dirs_agree(m, w, e),
    ensures
        drive(m, f, e, w, n).1.to_multiset().add(pending(w, e, drive(m, f, e, w, n).0))
            == pending(w, e, m),
        drive(m, f, e, w, n).2 ==> pending(w, e, drive(m, f, e, w, n).0) == Multiset::<
            Seq<char>,
        >::empty(),
    decreases n,
{
    if n > 0 {
        assert(drop_rejected(m.files, f) == m.files);
        let (m1, o) = step_model(m, f);
        match o {
            Outcome::Emit(p) => {
                lemma_drive(m1, f, e, w, (n - 1) as nat);
                let (m2, out, done) = drive(m1, f, e, w, (n - 1) as nat);
                assert(m.files =~= m1.files.push(p));
                assert(seq![p] + out =~= out.insert(0, p));
                assert(out.insert(0, p).to_multiset() == out.to_multiset().insert(p));
                assert(m1.files.push(p).to_multiset() == m1.files.to_multiset().insert(p));
                assert(pending(w, e, m) =~= pending(w, e, m1).insert(p));
                assert(drive(m, f, e, w, n).1.to_multiset().add(pending(w, e, m2)) =~= pending(
                    w,
                    e,
                    m,
                ));
            },
            Outcome::Expand(d) => {
                assert(m.files.len() == 0);
                assert(m.dirs[m.dirs.len() - 1] == d);
                lemma_files_at_dir(w, e, d);
                assert(dirs_agree(m1, w, e)) by {
                    assert forall|i: int| 0 <= i < m1.dirs.len() implies (w.kind)(
                        #[trigger] m1.dirs[i],
                    ) == Kind::Dir && !e.excludes(m1.dirs[i]) by {
                        assert(m1.dirs[i] == m.dirs[i]);
                    }
                }
                assert(m.dirs =~= m1.dirs.push(d));
                lemma_files_under_push(w, e, m1.dirs, d);
                lemma_list_entries(m1, d, (w.entries)(d), w, e);
                let m2 = list_entries(m1, d, (w.entries)(d), w, e);
                lemma_drive(m2, f, e, w, (n - 1) as nat);
                assert(m.files.to_multiset() =~= Multiset::<Seq<char>>::empty());
                assert(m1.files.to_multiset() =~= Multiset::<Seq<char>>::empty());
                assert(pending(w, e, m2) =~= pending(w, e, m));
            },
            Outcome::Exhausted => {
                assert(m1.files.to_multiset() =~= Multiset::<Seq<char>>::empty());
                assert(pending(w, e, m1) =~= Multiset::<Seq<char>>::empty());
                assert(pending(w, e, m) =~= Multiset::<Seq<char>>::empty());
                assert(Seq::<Seq<char>>::empty().to_multiset() =~= Multiset::<Seq<char>>::empty());
            },
        }
    } else {
        assert(Seq::<Seq<char>>::empty().to_multiset() =~= Multiset::<Seq<char>>::empty());
        assert(drive(m, f, e, w, n).1.to_multiset().add(pending(w, e, m)) =~= pending(w, e, m));
    }
}

/// Enumerating base paths probed in a tree `w`, with a filter that accepts
/// every file: after any number of rounds, the files handed out and the
/// files still pending make up exactly the files under the base paths that
/// lie outside every excluded path; so once the end is reported, the files
/// handed out are exactly those, each as often as it lies under a base path.
/// With no exclusion, that is every file under the base paths; an excluded
/// directory hides all that lies under it (`lemma_files_at_unfold`).
pub proof fn lemma_enumeration_complete(
    roots: Seq<(String, Probe)>,
    f: Filter,
    e: Exclusions,
    w: World,
    n: nat,
)
    requires
        is_tree(w),
        roots_agree(w, roots),
        f@.len() == 0,
    ensures
        drive(seed(roots, e), f, e, w, n).1.to_multiset().add(
            pending(w, e, drive(seed(roots, e), f, e, w, n).0),
        ) == files_under(w, e, root_paths(roots)),
        drive(seed(roots, e), f, e, w, n).2 ==> drive(seed(roots, e), f, e, w, n).1.to_multiset()
            == files_under(w, e, root_paths(roots)),
{
    lemma_seed_pending(w, roots, e);
    lemma_drive(seed(roots, e), f, e, w, n);
    let out = drive(seed(roots, e), f, e, w, n).1;
    assert(out.to_multiset().add(Multiset::<Seq<char>>::empty()) =~= out.to_multiset());
}

} // verus!
