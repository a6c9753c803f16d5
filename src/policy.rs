//! The two policies the engine consults: exclusions when a path is about to
//! be enqueued, and a filter when a file is about to be handed out.
use vstd::prelude::*;

use crate::paths_of;

verus! {

/// Paths that are never enqueued, compared character for character.
pub struct Exclusions {
    paths: Vec<String>,
}

impl View for Exclusions {
    type V = Seq<Seq<char>>;

    closed spec fn view(&self) -> Seq<Seq<char>> {
        paths_of(self.paths@)
    }
}

impl Exclusions {
    /// Whether `p` is one of the excluded paths.
    pub open spec fn excludes(&self, p: Seq<char>) -> bool {
        self@.contains(p)
    }

    /// Excludes nothing.
    pub fn new() -> (r: Exclusions)
        ensures
            r@ == Seq::<Seq<char>>::empty(),
    {
        let r = Exclusions { paths: Vec::new() };
        assert(r@ =~= Seq::<Seq<char>>::empty());
        r
    }

    /// Excludes exactly the given paths.
    pub fn from_paths(paths: Vec<String>) -> (r: Exclusions)
        ensures
            r@ == paths_of(paths@),
    {
        Exclusions { paths }
    }

    pub fn is_excluded(&self, p: &String) -> (r: bool)
        ensures
            r == self.excludes(p@),
    {
        let mut i: usize = 0;
        while i < self.paths.len()
            invariant
                i <= self.paths@.len(),
                forall|j: int| 0 <= j < i ==> self.paths@[j]@ != p@,
            decreases self.paths@.len() - i,
        {
            if self.paths[i] == *p {
                assert(self@[i as int] == p@);
                return true;
            }
            i += 1;
        }
        assert forall|j: int| 0 <= j < self@.len() implies self@[j] != p@ by {
            assert(self@[j] == self.paths@[j]@);
        }
        false
    }
}

/// Whether `p` ends with a dot followed by the extension `e`.
pub open spec fn has_extension(p: Seq<char>, e: Seq<char>) -> bool {
    &&& p.len() > e.len()
    &&& p[p.len() - e.len() - 1] == '.'
    &&& p.subrange(p.len() - e.len(), p.len() as int) == e
}

/// Files to hand out, chosen by extension. With no extension listed, every
/// file is accepted.
pub struct Filter {
    extensions: Vec<String>,
}

impl View for Filter {
    type V = Seq<Seq<char>>;

    closed spec fn view(&self) -> Seq<Seq<char>> {
        paths_of(self.extensions@)
    }
}

impl Filter {
    /// Whether a file at `p` is handed out.
    pub open spec fn admits(&self, p: Seq<char>) -> bool {
        self@.len() == 0 || exists|i: int| 0 <= i < self@.len() && has_extension(p, self@[i])
    }

    /// Accepts every file.
    pub fn new() -> (r: Filter)
        ensures
            r@ == Seq::<Seq<char>>::empty(),
    {
        let r = Filter { extensions: Vec::new() };
        assert(r@ =~= Seq::<Seq<char>>::empty());
        r
    }

    /// Accepts the files whose name ends with a dot and one of `extensions`
    /// (all files, if `extensions` is empty).
    pub fn from_extensions(extensions: Vec<String>) -> (r: Filter)
        ensures
            r@ == paths_of(extensions@),
    {
        Filter { extensions }
    }

    pub fn accepts(&self, p: &String) -> (r: bool)
        ensures
            r == self.admits(p@),
    {
        if self.extensions.len() == 0 {
            return true;
        }
        let mut i: usize = 0;
        while i < self.extensions.len()
            invariant
                i <= self.extensions@.len(),
                forall|j: int| 0 <= j < i ==> !has_extension(p@, self@[j]),
            decreases self.extensions@.len() - i,
        {
            assert(self@[i as int] == self.extensions@[i as int]@);
            if ends_with_extension(p.as_str(), self.extensions[i].as_str()) {
                return true;
            }
            i += 1;
        }
        false
    }
}

fn ends_with_extension(p: &str, e: &str) -> (r: bool)
    ensures
        r == has_extension(p@, e@),
{
    let pl = p.unicode_len();
    let el = e.unicode_len();
    if pl <= el {
        return false;
    }
    if p.get_char(pl - el - 1) != '.' {
        return false;
    }
    let start: usize = pl - el;
    let mut i: usize = 0;
    while i < el
        invariant
            pl == p@.len(),
            el == e@.len(),
            start == pl - el,
            i <= el,
            forall|j: int| 0 <= j < i ==> p@[start + j] == e@[j],
        decreases el - i,
    {
        if p.get_char(start + i) != e.get_char(i) {
            assert(p@.subrange(start as int, pl as int)[i as int] != e@[i as int]);
            return false;
        }
        i += 1;
    }
    assert(p@.subrange(start as int, pl as int) =~= e@);
    true
}

} // verus!
