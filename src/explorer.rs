//! The traversal engine: two stacks of pending paths and a failure log.
//!
//! The engine decides; its driver does the I/O. `next_step` hands out the
//! next pending file, or names the next directory to list. The driver lists
//! that directory, probes each entry, and passes each outcome to
//! `on_listing`, which enqueues or logs it and says whether to read on.
use std::collections::VecDeque;
use vstd::prelude::*;

use crate::paths_of;
use crate::policy::{Exclusions, Filter};

verus! {

/// What a metadata probe reported of a path.
pub enum Probe {
    Dir,
    /// Anything that is not a directory is treated as a file.
    File,
    /// The probe failed, with this cause.
    Failed(String),
}

/// One outcome of reading a directory, in the order the listing yields them.
pub enum Listing {
    /// An entry, with what probing it reported.
    Entry(String, Probe),
    /// The listing has ended.
    End,
    /// The directory could not be opened, or its listing broke off, with this
    /// cause.
    Failed(String),
}

/// The view of a `Probe`.
pub enum ProbeView {
    Dir,
    File,
    Failed(Seq<char>),
}

impl View for Probe {
    type V = ProbeView;

    open spec fn view(&self) -> ProbeView {
        match self {
            Probe::Dir => ProbeView::Dir,
            Probe::File => ProbeView::File,
            Probe::Failed(c) => ProbeView::Failed(c@),
        }
    }
}

/// The view of a `Listing`.
pub enum ListingView {
    Entry(Seq<char>, ProbeView),
    End,
    Failed(Seq<char>),
}

impl View for Listing {
    type V = ListingView;

    open spec fn view(&self) -> ListingView {
        match self {
            Listing::Entry(p, probe) => ListingView::Entry(p@, probe@),
            Listing::End => ListingView::End,
            Listing::Failed(c) => ListingView::Failed(c@),
        }
    }
}

/// What the driver is to do after `next_step`.
pub enum Step {
    /// Hand out this file.
    Emit(String),
    /// List this directory and report what it holds through `on_listing`.
    Expand(String),
    /// Nothing is pending: the enumeration is over.
    Exhausted,
}

/// The view of a `Step`.
pub enum Outcome {
    Emit(Seq<char>),
    Expand(Seq<char>),
    Exhausted,
}

impl View for Step {
    type V = Outcome;

    open spec fn view(&self) -> Outcome {
        match self {
            Step::Emit(p) => Outcome::Emit(p@),
            Step::Expand(d) => Outcome::Expand(d@),
            Step::Exhausted => Outcome::Exhausted,
        }
    }
}

/// The engine's state: the two stacks, whose last element is the top, and the
/// failure log as (path, cause) pairs in the order they were logged.
pub struct ExplorerModel {
    pub dirs: Seq<Seq<char>>,
    pub files: Seq<Seq<char>>,
    pub failed: Seq<(Seq<char>, Seq<char>)>,
}

impl ExplorerModel {
    pub open spec fn empty() -> ExplorerModel {
        ExplorerModel { dirs: Seq::empty(), files: Seq::empty(), failed: Seq::empty() }
    }
}

/// Views a failure log as (path, cause) pairs.
pub open spec fn failures_of(v: Seq<(String, String)>) -> Seq<(Seq<char>, Seq<char>)> {
    v.map_values(|f: (String, String)| (f.0@, f.1@))
}

/// The state built from the base paths and their probes, taken in order: a
/// directory goes on top of the directory stack, a file on top of the file
/// stack; an excluded path or one whose probe failed goes nowhere. So the
/// first base path of each kind is the last one popped.
pub open spec fn seed(roots: Seq<(String, Probe)>, e: Exclusions) -> ExplorerModel
    decreases roots.len(),
{
    if roots.len() == 0 {
        ExplorerModel::empty()
    } else {
        let m = seed(roots.drop_last(), e);
        let p = roots.last().0@;
        if e.excludes(p) {
            m
        } else {
            match roots.last().1 {
                Probe::Dir => ExplorerModel { dirs: m.dirs.push(p), ..m },
                Probe::File => ExplorerModel { files: m.files.push(p), ..m },
                Probe::Failed(_) => m,
            }
        }
    }
}

/// The file stack once the files on top that the filter rejects are dropped.
pub open spec fn drop_rejected(files: Seq<Seq<char>>, f: Filter) -> Seq<Seq<char>>
    decreases files.len(),
{
    if files.len() == 0 || f.admits(files.last()) {
        files
    } else {
        drop_rejected(files.drop_last(), f)
    }
}

/// One step: the top accepted file is handed out (rejected files above it
/// are discarded); with no file left, the top directory is popped for
/// expansion; with neither, the enumeration is over.
pub open spec fn step_model(m: ExplorerModel, f: Filter) -> (ExplorerModel, Outcome) {
    let t = drop_rejected(m.files, f);
    if t.len() > 0 {
        (ExplorerModel { files: t.drop_last(), ..m }, Outcome::Emit(t.last()))
    } else if m.dirs.len() > 0 {
        (ExplorerModel { files: t, dirs: m.dirs.drop_last(), ..m }, Outcome::Expand(m.dirs.last()))
    } else {
        (ExplorerModel { files: t, ..m }, Outcome::Exhausted)
    }
}

/// What one listing outcome of directory `dir` does, and whether to read on.
/// An entry that is not excluded is pushed on the stack its probe calls for,
/// or logged with its cause if the probe failed. A failed listing is logged
/// against `dir`, and the rest of the directory is abandoned.
pub open spec fn listing_model(
    m: ExplorerModel,
    dir: Seq<char>,
    item: ListingView,
    e: Exclusions,
) -> (ExplorerModel, bool) {
    match item {
        ListingView::Entry(p, probe) => {
            if e.excludes(p) {
                (m, true)
            } else {
                match probe {
                    ProbeView::Dir => (ExplorerModel { dirs: m.dirs.push(p), ..m }, true),
                    ProbeView::File => (ExplorerModel { files: m.files.push(p), ..m }, true),
                    ProbeView::Failed(c) => (
                        ExplorerModel { failed: m.failed.push((p, c)), ..m },
                        true,
                    ),
                }
            }
        },
        ListingView::End => (m, false),
        ListingView::Failed(c) => (ExplorerModel { failed: m.failed.push((dir, c)), ..m }, false),
    }
}

/// A recursive enumerator of the files under a set of base paths.
pub struct FileExplorer {
    base_paths: Vec<String>,
    exclusions: Exclusions,
    filter: Filter,
    walk_dirs: VecDeque<String>,
    walk_files: VecDeque<String>,
    failed_paths: Vec<(String, String)>,
}

impl View for FileExplorer {
    type V = ExplorerModel;

    closed spec fn view(&self) -> ExplorerModel {
        ExplorerModel {
            dirs: paths_of(self.walk_dirs@),
            files: paths_of(self.walk_files@),
            failed: failures_of(self.failed_paths@),
        }
    }
}

impl FileExplorer {
    /// The base paths, in the order they were given.
    pub closed spec fn bases(&self) -> Seq<Seq<char>> {
        paths_of(self.base_paths@)
    }

    pub closed spec fn exclusions_spec(&self) -> Exclusions {
        self.exclusions
    }

    pub closed spec fn filter_spec(&self) -> Filter {
        self.filter
    }

    /// Builds the engine from the base paths, each with what a metadata probe
    /// of it reported. A base path whose probe failed is dropped: it is
    /// neither enqueued nor logged.
    pub fn new(roots: Vec<(String, Probe)>, exclusions: Exclusions, filter: Filter) -> (r: Self)
        ensures
            r@ == seed(roots@, exclusions),
            r.bases() == roots@.map_values(|root: (String, Probe)| root.0@),
            r.exclusions_spec() == exclusions,
            r.filter_spec() == filter,
    {
        let mut base_paths: Vec<String> = Vec::new();
        let mut dirs: VecDeque<String> = VecDeque::new();
        let mut files: VecDeque<String> = VecDeque::new();
        let mut i: usize = 0;
        while i < roots.len()
            invariant
                i <= roots@.len(),
                base_paths@.len() == i,
                forall|j: int| 0 <= j < i ==> base_paths@[j]@ == roots@[j].0@,
                paths_of(dirs@) == seed(roots@.take(i as int), exclusions).dirs,
                paths_of(files@) == seed(roots@.take(i as int), exclusions).files,
                seed(roots@.take(i as int), exclusions).failed.len() == 0,
            decreases roots@.len() - i,
        {
            let ghost before = roots@.take(i as int);
            let ghost d0 = dirs@;
            let ghost f0 = files@;
            assert(roots@.take(i + 1).drop_last() =~= before);
            let path = roots[i].0.clone();
            base_paths.push(path.clone());
            if !exclusions.is_excluded(&path) {
                match &roots[i].1 {
                    Probe::Dir => {
                        dirs.push_back(path);
                        assert(paths_of(dirs@) =~= paths_of(d0).push(roots@[i as int].0@));
                    },
                    Probe::File => {
                        files.push_back(path);
                        assert(paths_of(files@) =~= paths_of(f0).push(roots@[i as int].0@));
                    },
                    Probe::Failed(_) => {},
                }
            }
            i += 1;
        }
        assert(roots@.take(roots@.len() as int) =~= roots@);
        assert(paths_of(base_paths@) =~= roots@.map_values(|root: (String, Probe)| root.0@));
        assert(failures_of(Seq::empty()) =~= Seq::empty());
        assert(seed(roots@, exclusions).failed =~= Seq::empty());
        let r = FileExplorer {
            base_paths,
            exclusions,
            filter,
            walk_dirs: dirs,
            walk_files: files,
            failed_paths: Vec::new(),
        };
        r
    }

    /// Hands out the next accepted file, or pops the next directory to
    /// expand, or reports that nothing is pending. Once nothing is pending,
    /// every further call reports it again and changes nothing.
    pub fn next_step(&mut self) -> (r: Step)
        ensures
            (final(self)@, r@) == step_model(old(self)@, old(self).filter_spec()),
            final(self).bases() == old(self).bases(),
            final(self).exclusions_spec() == old(self).exclusions_spec(),
            final(self).filter_spec() == old(self).filter_spec(),
    {
        loop
            invariant
                drop_rejected(self@.files, self.filter) == drop_rejected(
                    old(self)@.files,
                    old(self).filter,
                ),
                self.walk_dirs == old(self).walk_dirs,
                self.failed_paths == old(self).failed_paths,
                self.base_paths == old(self).base_paths,
                self.exclusions == old(self).exclusions,
                self.filter == old(self).filter,
            ensures
                self.walk_files@.len() == 0,
                drop_rejected(old(self)@.files, old(self).filter) == Seq::<Seq<char>>::empty(),
                self.walk_dirs == old(self).walk_dirs,
                self.failed_paths == old(self).failed_paths,
                self.base_paths == old(self).base_paths,
                self.exclusions == old(self).exclusions,
                self.filter == old(self).filter,
            decreases self.walk_files@.len(),
        {
            let ghost before = self.walk_files@;
            match self.walk_files.pop_back() {
                Some(p) => {
                    assert(paths_of(self.walk_files@) =~= paths_of(before).drop_last());
                    if self.filter.accepts(&p) {
                        return Step::Emit(p);
                    }
                },
                None => {
                    assert(self@.files =~= Seq::<Seq<char>>::empty());
                    break ;
                },
            }
        }
        assert(self@.files =~= Seq::<Seq<char>>::empty());
        let ghost before = self.walk_dirs@;
        match self.walk_dirs.pop_back() {
            Some(d) => {
                assert(paths_of(self.walk_dirs@) =~= paths_of(before).drop_last());
                Step::Expand(d)
            },
            None => Step::Exhausted,
        }
    }

    /// Takes one listing outcome of the directory `dir` that the last
    /// `next_step` handed out, and says whether to read on: an entry is
    /// enqueued by its kind or logged with its probe's cause, unless it is
    /// excluded; a failed listing is logged against `dir`, and it and the end
    /// of the listing stop the reading.
    pub fn on_listing(&mut self, dir: &String, item: Listing) -> (more: bool)
        ensures
            (final(self)@, more) == listing_model(old(self)@, dir@, item@, old(self).exclusions_spec()),
            final(self).bases() == old(self).bases(),
            final(self).exclusions_spec() == old(self).exclusions_spec(),
            final(self).filter_spec() == old(self).filter_spec(),
    {
        let ghost m = self@;
        match item {
            Listing::Entry(p, probe) => {
                if self.exclusions.is_excluded(&p) {
                    return true;
                }
                match probe {
                    Probe::Dir => {
                        self.walk_dirs.push_back(p);
                        assert(self@.dirs =~= m.dirs.push(p@));
                    },
                    Probe::File => {
                        self.walk_files.push_back(p);
                        assert(self@.files =~= m.files.push(p@));
                    },
                    Probe::Failed(c) => {
                        self.failed_paths.push((p, c));
                        assert(self@.failed =~= m.failed.push((p@, c@)));
                    },
                }
                true
            },
            Listing::End => false,
            Listing::Failed(c) => {
                self.failed_paths.push((dir.clone(), c));
                assert(self@.failed =~= m.failed.push((dir@, c@)));
                false
            },
        }
    }

    /// Whether `p` is excluded, so that handing it to `on_listing` would
    /// change nothing.
    pub fn is_excluded(&self, p: &String) -> (r: bool)
        ensures
            r == self.exclusions_spec().excludes(p@),
    {
        self.exclusions.is_excluded(p)
    }

    /// The failure log, in the order it was written.
    pub fn failures(&self) -> (r: &Vec<(String, String)>)
        ensures
            failures_of(r@) == self@.failed,
    {
        &self.failed_paths
    }

    /// The base paths, in the order they were given.
    pub fn base_paths(&self) -> (r: &Vec<String>)
        ensures
            paths_of(r@) == self.bases(),
    {
        &self.base_paths
    }
}

} // verus!
