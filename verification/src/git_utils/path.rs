//! Paths inside a tree.

use vstd::prelude::*;
use vstd::string::StringExecFns;

verus! {

/// A path as contracts see it: its segments, root first.
pub type Segments = Seq<Seq<char>>;

/// A path inside a tree, held segment by segment. The root is the empty path.
#[derive(Clone, Debug, PartialEq, Eq, PartialOrd, Ord, Hash)]
pub struct RepoPath {
    segments: Vec<String>,
}

impl View for RepoPath {
    type V = Segments;

    open spec fn view(&self) -> Segments {
        self.segments_view()
    }
}

/// `prefix` leads to `path` or is `path` itself.
pub open spec fn is_prefix(prefix: Segments, path: Segments) -> bool {
    prefix.len() <= path.len() && forall|i: int| 0 <= i < prefix.len() ==> prefix[i] == path[i]
}

/// `prefix` leads to `path` and stops short of it.
pub open spec fn is_strict_prefix(prefix: Segments, path: Segments) -> bool {
    prefix.len() < path.len() && is_prefix(prefix, path)
}

/// The path written out: its segments with a slash between each two.
pub open spec fn slashed(path: Segments) -> Seq<char>
    decreases path.len(),
{
    if path.len() == 0 {
        Seq::empty()
    } else if path.len() == 1 {
        path[0]
    } else {
        slashed(path.drop_last()) + seq!['/'] + path.last()
    }
}

/// A prefix as long as the path is the path.
pub proof fn lemma_prefix_of_equal_length(prefix: Segments, path: Segments)
    requires
        is_prefix(prefix, path),
        prefix.len() == path.len(),
    ensures
        prefix == path,
{
}

impl RepoPath {
    /// The segments, each as the text it holds.
    pub closed spec fn segments_view(&self) -> Segments {
        self.segments@.map_values(|s: String| s@)
    }

    /// The root: the path without segments.
    pub fn new() -> (path: RepoPath)
        ensures
            path@.len() == 0,
    {
        RepoPath { segments: Vec::new() }
    }

    /// The path made of the given segments, in their order.
    pub fn from_segments(segments: Vec<String>) -> (path: RepoPath)
        ensures
            path@ == segments@.map_values(|s: String| s@),
    {
        RepoPath { segments }
    }

    /// The number of segments.
    pub fn len(&self) -> (n: usize)
        ensures
            n == self@.len(),
    {
        self.segments.len()
    }

    /// The segment at `index`, counted from the root.
    pub fn segment(&self, index: usize) -> (s: &String)
        requires
            index < self@.len(),
        ensures
            s@ == self@[index as int],
    {
        &self.segments[index]
    }

    /// A copy of this path.
    pub fn duplicate(&self) -> (path: RepoPath)
        ensures
            path@ == self@,
    {
        let mut segments: Vec<String> = Vec::new();
        let mut i: usize = 0;
        while i < self.segments.len()
            invariant
                i <= self.segments.len(),
                segments.len() == i,
                forall|j: int| 0 <= j < i ==> segments@[j]@ == self.segments@[j]@,
            decreases self.segments.len() - i,
        {
            segments.push(self.segments[i].clone());
            i += 1;
        }
        let path = RepoPath { segments };
        path
    }

    /// This path with `name` added as its last segment.
    pub fn join(&self, name: &str) -> (path: RepoPath)
        ensures
            path@ == self@.push(name@),
    {
        let mut segments: Vec<String> = Vec::new();
        let mut i: usize = 0;
        while i < self.segments.len()
            invariant
                i <= self.segments.len(),
                segments.len() == i,
                forall|j: int| 0 <= j < i ==> segments@[j]@ == self.segments@[j]@,
            decreases self.segments.len() - i,
        {
            segments.push(self.segments[i].clone());
            i += 1;
        }
        segments.push(name.to_owned());
        let path = RepoPath { segments };
        path
    }

    /// The path written out, with a slash between each two segments.
    pub fn display(&self) -> (text: String)
        ensures
            text@ == slashed(self@),
    {
        let mut text = String::new();
        let mut i: usize = 0;
        while i < self.segments.len()
            invariant
                i <= self.segments.len(),
                text@ == slashed(self@.subrange(0, i as int)),
            decreases self.segments.len() - i,
        {
            let ghost front = self@.subrange(0, i as int);
            let ghost next = self@.subrange(0, i + 1);
            proof {
                assert(next.drop_last() =~= front);
                reveal_strlit("/");
            }
            if i > 0 {
                text.append("/");
            }
            text.append(self.segments[i].as_str());
            i += 1;
        }
        assert(self@.subrange(0, i as int) =~= self@);
        text
    }

    /// Whether both paths have the same segments.
    pub fn same(&self, other: &RepoPath) -> (r: bool)
        ensures
            r == (self@ == other@),
    {
        if self.segments.len() != other.segments.len() {
            assert(self@.len() != other@.len());
            return false;
        }
        let mut i: usize = 0;
        while i < self.segments.len()
            invariant
                i <= self.segments.len(),
                self.segments.len() == other.segments.len(),
                forall|j: int| 0 <= j < i ==> self@[j] == other@[j],
            decreases self.segments.len() - i,
        {
            if self.segments[i] != other.segments[i] {
                assert(self@[i as int] != other@[i as int]);
                return false;
            }
            i += 1;
        }
        assert(self@ =~= other@);
        true
    }

    /// Whether `prefix` leads to this path or is this path.
    pub fn starts_with(&self, prefix: &RepoPath) -> (r: bool)
        ensures
            r == is_prefix(prefix@, self@),
    {
        if prefix.segments.len() > self.segments.len() {
            return false;
        }
        let mut i: usize = 0;
        while i < prefix.segments.len()
            invariant
                i <= prefix.segments.len(),
                prefix.segments.len() <= self.segments.len(),
                forall|j: int| 0 <= j < i ==> prefix@[j] == self@[j],
            decreases prefix.segments.len() - i,
        {
            if prefix.segments[i] != self.segments[i] {
                assert(prefix@[i as int] != self@[i as int]);
                return false;
            }
            i += 1;
        }
        true
    }
}

} // verus!
