//! Compass directions and the pure derivation of one direction from a
//! cell's cumulative value and its eight neighbours' values.

use vstd::prelude::*;

use crate::grid::SENTINEL;

verus! {

/// One of nine compass directions, encoded as 0 for none and 1 through 8
/// for N, NE, E, SE, S, SW, W, NW in that fixed order.
#[derive(PartialEq, Eq, Structural, PartialOrd, Ord, Clone, Copy)]
pub struct Direction(u8);

impl Direction {
    /// The direction's code: 0 for none, then 1 through 8 in the fixed
    /// order N, NE, E, SE, S, SW, W, NW.
    pub closed spec fn spec_code(&self) -> u8 {
        self.0
    }

    pub fn none() -> (r: Direction)
        ensures
            r.spec_code() == 0,
    {
        Direction(0)
    }

    pub fn north() -> (r: Direction)
        ensures
            r.spec_code() == 1,
    {
        Direction(1)
    }

    pub fn northeast() -> (r: Direction)
        ensures
            r.spec_code() == 2,
    {
        Direction(2)
    }

    pub fn east() -> (r: Direction)
        ensures
            r.spec_code() == 3,
    {
        Direction(3)
    }

    pub fn southeast() -> (r: Direction)
        ensures
            r.spec_code() == 4,
    {
        Direction(4)
    }

    pub fn south() -> (r: Direction)
        ensures
            r.spec_code() == 5,
    {
        Direction(5)
    }

    pub fn southwest() -> (r: Direction)
        ensures
            r.spec_code() == 6,
    {
        Direction(6)
    }

    pub fn west() -> (r: Direction)
        ensures
            r.spec_code() == 7,
    {
        Direction(7)
    }

    pub fn northwest() -> (r: Direction)
        ensures
            r.spec_code() == 8,
    {
        Direction(8)
    }
}

/// Index `i` holds the first occurrence of the smallest element of `s`:
/// no element is smaller, and every earlier element is strictly larger.
pub open spec fn is_first_min(s: Seq<u16>, i: int) -> bool {
    &&& 0 <= i < s.len()
    &&& forall|j: int| 0 <= j < s.len() ==> s[i] <= #[trigger] s[j]
    &&& forall|j: int| 0 <= j < i ==> s[i] < #[trigger] s[j]
}

/// The index of the first occurrence of the smallest element of `s`.
pub open spec fn first_min_index(s: Seq<u16>) -> int
    decreases s.len(),
{
    if s.len() <= 1 {
        0
    } else {
        let i = first_min_index(s.drop_last());
        if s.last() < s[i] {
            s.len() - 1
        } else {
            i
        }
    }
}

/// The direction derived from a cell's own value `p` and its neighbour
/// values `s` in the fixed order N, NE, E, SE, S, SW, W, NW: one past the
/// index of the first smallest neighbour if that neighbour is strictly
/// cheaper than the cell itself, and 0 (none) otherwise.
pub open spec fn spec_direction(p: u16, s: Seq<u16>) -> u8 {
    if s.len() >= 1 && s[first_min_index(s)] < p {
        (first_min_index(s) + 1) as u8
    } else {
        0
    }
}

/// `first_min_index` indeed points at the first occurrence of the minimum.
pub proof fn lemma_first_min_index(s: Seq<u16>)
    requires
        s.len() >= 1,
    ensures
        is_first_min(s, first_min_index(s)),
    decreases s.len(),
{
    if s.len() > 1 {
        lemma_first_min_index(s.drop_last());
        let q = s.drop_last();
        let i = first_min_index(q);
        assert forall|j: int| 0 <= j < q.len() implies q[j] == #[trigger] s[j] by {}
    }
}

/// Only one index can hold the first occurrence of the minimum.
pub proof fn lemma_first_min_unique(s: Seq<u16>, i: int, j: int)
    requires
        is_first_min(s, i),
        is_first_min(s, j),
    ensures
        i == j,
{
    if i < j {
        assert(s[j] < s[i]);
        assert(s[i] <= s[j]);
    }
    if j < i {
        assert(s[i] < s[j]);
        assert(s[j] <= s[i]);
    }
}

/// Tie-break determinism: when the smallest neighbour value beats the cell,
/// the derived direction names the *earliest* neighbour achieving that
/// minimum in the fixed order N, NE, E, SE, S, SW, W, NW.
pub proof fn lemma_direction_tie_break(p: u16, s: Seq<u16>)
    requires
        1 <= s.len() <= 255,
        exists|j: int| 0 <= j < s.len() && s[j] < p,
    ensures
        spec_direction(p, s) == first_min_index(s) + 1,
        is_first_min(s, first_min_index(s)),
        s[first_min_index(s)] < p,
{
    lemma_first_min_index(s);
    let j = choose|j: int| 0 <= j < s.len() && s[j] < p;
    assert(s[first_min_index(s)] <= s[j]);
}

/// A cell gets no direction exactly when no neighbour value is strictly
/// smaller than its own.
pub proof fn lemma_direction_none_iff(p: u16, s: Seq<u16>)
    requires
        1 <= s.len() <= 255,
    ensures
        spec_direction(p, s) == 0 <==> (forall|j: int| 0 <= j < s.len() ==> #[trigger] s[j] >= p),
{
    lemma_first_min_index(s);
    if s[first_min_index(s)] < p {
        assert(!(forall|j: int| 0 <= j < s.len() ==> #[trigger] s[j] >= p)) by {
            assert(s[first_min_index(s)] < p);
        }
    }
}

/// Linearly scans the neighbour values for the first strict minimum and
/// returns the direction toward it when it beats the cell's own value `p`;
/// neighbour values at or above the sentinel never win, so a cell
/// surrounded by unreached cells gets no direction.
pub fn direction(p: u16, neighbours: &[u16]) -> (r: Direction)
    requires
        1 <= neighbours@.len() <= 255,
    ensures
        r.spec_code() == spec_direction(p, neighbours@),
{
    let s = Ghost(neighbours@);
    let d = Direction(0);
    let mut the_min: u16 = SENTINEL;
    let mut min_i: u8 = 0;
    let mut idx: usize = 0;
    let len = neighbours.len();
    while idx < len
        invariant
            len == s@.len(),
            1 <= len <= 255,
            s@ == neighbours@,
            0 <= idx <= len,
            min_i <= idx,
            min_i == 0 ==> the_min == SENTINEL && forall|j: int|
                0 <= j < idx ==> #[trigger] s@[j] >= SENTINEL,
            min_i >= 1 ==> {
                &&& the_min == s@[min_i - 1]
                &&& the_min < SENTINEL
                &&& forall|j: int| 0 <= j < idx ==> the_min <= #[trigger] s@[j]
                &&& forall|j: int| 0 <= j < min_i - 1 ==> the_min < #[trigger] s@[j]
            },
        decreases len - idx,
    {
        let n = neighbours[idx];
        if n < the_min {
            the_min = n;
            min_i = (idx as u8) + 1;
        }
        idx = idx + 1;
    }
    proof {
        lemma_first_min_index(s@);
        let f = first_min_index(s@);
        if min_i >= 1 {
            assert(is_first_min(s@, min_i - 1));
            lemma_first_min_unique(s@, min_i - 1, f);
        } else {
            assert(s@[f] >= SENTINEL);
            assert(s@[f] == SENTINEL);
        }
    }
    if the_min < p {
        Direction(min_i)
    } else {
        d
    }
}

} // verus!
