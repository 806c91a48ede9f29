//! The order in which paths are listed.

use vstd::prelude::*;
use vstd::utf8::{encode_utf8, encode_utf8_decode_utf8};
use crate::git_utils::path::{RepoPath, Segments};

verus! {

/// How one value stands to another in an order.
#[derive(Clone, Copy, Debug, PartialEq, Eq, Structural)]
pub enum Rank {
    Before,
    Same,
    After,
}

/// `a` and `b` agree on their first `k` items, and there `a` ends while `b`
/// goes on, or `a` goes on with the lesser item.
pub open spec fn parts_at<A>(a: Seq<A>, b: Seq<A>, less: spec_fn(A, A) -> bool, k: int) -> bool {
    &&& 0 <= k <= a.len()
    &&& k < b.len()
    &&& forall|j: int| 0 <= j < k ==> a[j] == b[j]
    &&& k < a.len() ==> less(a[k], b[k])
}

/// `a` comes before `b` as in a dictionary, the items compared by `less`.
pub open spec fn lex_less<A>(a: Seq<A>, b: Seq<A>, less: spec_fn(A, A) -> bool) -> bool {
    exists|k: int| parts_at(a, b, less, k)
}

/// The order of bytes by their value.
pub open spec fn byte_less() -> spec_fn(u8, u8) -> bool {
    |x: u8, y: u8| x < y
}

/// The order of names: that of their bytes in UTF-8, as `str` orders itself.
pub open spec fn name_less() -> spec_fn(Seq<char>, Seq<char>) -> bool {
    |x: Seq<char>, y: Seq<char>| lex_less(encode_utf8(x), encode_utf8(y), byte_less())
}

/// The order of paths: segment by segment, so that a path comes before all
/// that lies below it.
pub open spec fn path_less(a: Segments, b: Segments) -> bool {
    lex_less(a, b, name_less())
}

/// `a` comes before `b`.
pub open spec fn path_less_than(a: RepoPath, b: RepoPath) -> bool {
    path_less(a@, b@)
}

/// Each path comes before all later ones.
pub open spec fn ascending(list: Seq<RepoPath>) -> bool {
    forall|i: int, j: int|
        0 <= i < j < list.len() ==> path_less_than(#[trigger] list[i], #[trigger] list[j])
}

/// No value comes before itself where no item does.
pub proof fn lemma_lex_irreflexive<A>(a: Seq<A>, less: spec_fn(A, A) -> bool)
    requires
        forall|x: A| !#[trigger] less(x, x),
    ensures
        !lex_less(a, a, less),
{
}

/// The order by `less` passes on from item to item where `less` does.
pub proof fn lemma_lex_transitive<A>(a: Seq<A>, b: Seq<A>, c: Seq<A>, less: spec_fn(A, A) -> bool)
    requires
        forall|x: A, y: A, z: A| #[trigger] less(x, y) && #[trigger] less(y, z) ==> less(x, z),
        lex_less(a, b, less),
        lex_less(b, c, less),
    ensures
        lex_less(a, c, less),
{
    let k1 = choose|k: int| parts_at(a, b, less, k);
    let k2 = choose|k: int| parts_at(b, c, less, k);
    if k1 < k2 {
        assert(parts_at(a, c, less, k1));
    } else if k2 < k1 {
        assert(parts_at(a, c, less, k2));
    } else {
        assert(parts_at(a, c, less, k1));
    }
}

/// The order of names passes on.
pub proof fn lemma_name_less_transitive(x: Seq<char>, y: Seq<char>, z: Seq<char>)
    requires
        name_less()(x, y),
        name_less()(y, z),
    ensures
        name_less()(x, z),
{
    lemma_lex_transitive(encode_utf8(x), encode_utf8(y), encode_utf8(z), byte_less());
}

/// The order of paths passes on.
pub proof fn lemma_path_less_transitive(a: Segments, b: Segments, c: Segments)
    requires
        path_less(a, b),
        path_less(b, c),
    ensures
        path_less(a, c),
{
    assert forall|x: Seq<char>, y: Seq<char>, z: Seq<char>| #[trigger]
        name_less()(x, y) && #[trigger] name_less()(y, z) implies name_less()(x, z) by {
        lemma_name_less_transitive(x, y, z);
    }
    lemma_lex_transitive(a, b, c, name_less());
}

/// No path comes before itself: an ascending list holds no path twice.
pub proof fn lemma_path_less_irreflexive(a: Segments)
    ensures
        !path_less(a, a),
{
    lemma_lex_irreflexive(a, name_less());
}

/// How the name `a` stands to the name `b`.
pub fn rank_names(a: &str, b: &str) -> (rank: Rank)
    ensures
        match rank {
            Rank::Before => name_less()(a@, b@),
            Rank::Same => a@ == b@,
            Rank::After => name_less()(b@, a@),
        },
{
    let x = a.as_bytes();
    let y = b.as_bytes();
    let mut i: usize = 0;
    while i < x.len() && i < y.len()
        invariant
            i <= x@.len(),
            i <= y@.len(),
            x@ == encode_utf8(a@),
            y@ == encode_utf8(b@),
            forall|j: int| 0 <= j < i ==> x@[j] == y@[j],
        decreases x.len() - i,
    {
        if x[i] < y[i] {
            assert(parts_at(x@, y@, byte_less(), i as int));
            return Rank::Before;
        }
        if y[i] < x[i] {
            assert(parts_at(y@, x@, byte_less(), i as int));
            return Rank::After;
        }
        i += 1;
    }
    if i < y.len() {
        assert(parts_at(x@, y@, byte_less(), i as int));
        Rank::Before
    } else if i < x.len() {
        assert(parts_at(y@, x@, byte_less(), i as int));
        Rank::After
    } else {
        proof {
            assert(x@ =~= y@);
            encode_utf8_decode_utf8(a@);
            encode_utf8_decode_utf8(b@);
        }
        Rank::Same
    }
}

/// How the path `a` stands to the path `b`.
pub fn rank_paths(a: &RepoPath, b: &RepoPath) -> (rank: Rank)
    ensures
        match rank {
            Rank::Before => path_less(a@, b@),
            Rank::Same => a@ == b@,
            Rank::After => path_less(b@, a@),
        },
{
    let mut i: usize = 0;
    while i < a.len() && i < b.len()
        invariant
            i <= a@.len(),
            i <= b@.len(),
            forall|j: int| 0 <= j < i ==> a@[j] == b@[j],
        decreases a@.len() - i,
    {
        match rank_names(a.segment(i).as_str(), b.segment(i).as_str()) {
            Rank::Before => {
                assert(parts_at(a@, b@, name_less(), i as int));
                return Rank::Before;
            },
            Rank::After => {
                assert(parts_at(b@, a@, name_less(), i as int));
                return Rank::After;
            },
            Rank::Same => {},
        }
        i += 1;
    }
    if i < b.len() {
        assert(parts_at(a@, b@, name_less(), i as int));
        Rank::Before
    } else if i < a.len() {
        assert(parts_at(b@, a@, name_less(), i as int));
        Rank::After
    } else {
        Rank::Same
    }
}

} // verus!
