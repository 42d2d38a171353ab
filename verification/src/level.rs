//! The leaf primitive of the generator: one level of the permutation stack.
//!
//! A `Permutation` owns a full-length working buffer and a fixed pivot
//! index.  Each successful step swaps the pivot position with the next
//! cursor position and hands back a copy of the whole buffer.  The swaps
//! are cumulative: every step starts from the previous step's buffer, so
//! one reseed cycle walks the pivot through every remaining candidate
//! exactly once.

use vstd::prelude::*;
use vstd::seq_lib::group_to_multiset_ensures;
use vstd::multiset::group_multiset_axioms;

verus! {

/// The buffer `s` with the values at positions `i` and `j` exchanged.
pub open spec fn swapped<T>(s: Seq<T>, i: int, j: int) -> Seq<T>
    recommends
        0 <= i < s.len(),
        0 <= j < s.len(),
{
    s.update(i, s[j]).update(j, s[i])
}

/// Exchanging two positions rearranges the buffer but never changes which
/// values it holds, nor how often it holds them.
pub proof fn lemma_swapped_multiset<T>(s: Seq<T>, i: int, j: int)
    requires
        0 <= i < s.len(),
        0 <= j < s.len(),
    ensures
        swapped(s, i, j).to_multiset() == s.to_multiset(),
{
    broadcast use group_to_multiset_ensures;
    broadcast use group_multiset_axioms;

    if i == j {
        assert(swapped(s, i, j) =~= s);
    } else {
        assert(s.to_multiset().count(s[i]) > 0);
        assert(s.to_multiset().count(s[j]) > 0);
        assert(swapped(s, i, j).to_multiset() =~= s.to_multiset());
    }
}

/// The buffer a level holds after `t` cumulative swap steps from the seed
/// `seed`, pivoting at `p` with the cursor starting at `lo`.
pub open spec fn cycle_buffer<T>(seed: Seq<T>, p: int, lo: int, t: nat) -> Seq<T>
    recommends
        0 <= p <= lo,
        p < seed.len(),
        lo + t <= seed.len(),
    decreases t,
{
    if t == 0 {
        seed
    } else {
        swapped(cycle_buffer(seed, p, lo, (t - 1) as nat), p, lo + t - 1)
    }
}

/// Over one reseed cycle the pivot walks the candidates in seed order:
/// after `t` steps it holds exactly the seed's value at position
/// `lo + t - 1`, while every position outside the cycle's reach keeps its
/// seed value.  Distinct steps of one cycle therefore draw the pivot's
/// value from distinct seed positions: no candidate is handed to the
/// pivot twice.
pub proof fn lemma_cycle_pivot_walks_candidates<T>(seed: Seq<T>, p: int, lo: int, t: nat)
    requires
        0 <= p <= lo,
        p < seed.len(),
        lo + t <= seed.len(),
    ensures
        cycle_buffer(seed, p, lo, t).len() == seed.len(),
        forall|j: int|
            0 <= j < seed.len() && j != p && (j < lo || j >= lo + t)
                ==> cycle_buffer(seed, p, lo, t)[j] == seed[j],
        t >= 1 ==> cycle_buffer(seed, p, lo, t)[p] == seed[lo + t - 1],
    decreases t,
{
    if t >= 1 {
        lemma_cycle_pivot_walks_candidates(seed, p, lo, (t - 1) as nat);
    }
}

/// An independent copy of a buffer of plain values.
pub fn copy_vec<T: Copy>(v: &Vec<T>) -> (r: Vec<T>)
    ensures
        r@ == v@,
{
    let mut r: Vec<T> = Vec::new();
    let mut i: usize = 0;
    while i < v.len()
        invariant
            i <= v.len(),
            r@ == v@.take(i as int),
        decreases v.len() - i,
    {
        r.push(v[i]);
        proof {
            assert(v@.take(i as int).push(v@[i as int]) =~= v@.take(i + 1));
        }
        i = i + 1;
    }
    proof {
        assert(v@.take(v@.len() as int) =~= v@);
    }
    r
}

/// One level of the permutation stack: a working buffer, the fixed pivot
/// position `start` that this level permutes, and a forward-only cursor
/// over the candidate positions still to be swapped with the pivot.
pub struct Permutation<T> {
    elements: Vec<T>,
    start: usize,
    cursor: usize,
}

impl<T: Copy> Permutation<T> {
    /// The current buffer snapshot.
    pub closed spec fn elems(self) -> Seq<T> {
        self.elements@
    }

    /// The fixed pivot position of this level.
    pub closed spec fn pivot(self) -> int {
        self.start as int
    }

    /// The next candidate position to be swapped with the pivot.
    pub closed spec fn cursor_pos(self) -> int {
        self.cursor as int
    }

    /// The pivot lies in the buffer and the cursor never trails it nor
    /// overruns the buffer's end.
    pub open spec fn wf(self) -> bool {
        &&& 0 <= self.pivot() < self.elems().len()
        &&& self.pivot() <= self.cursor_pos() <= self.elems().len()
    }

    /// No candidate positions remain for the current seed.
    pub open spec fn done(self) -> bool {
        self.cursor_pos() == self.elems().len()
    }

    /// A fresh level over `elements`, pivoting at `start`.  The cursor
    /// begins just past the pivot, so the unmodified seed itself is not
    /// yielded; the deepest level of a stack opts back in through
    /// `include_identity`.
    pub fn new(elements: Vec<T>, start: usize) -> (r: Self)
        requires
            start < elements.len(),
        ensures
            r.wf(),
            r.elems() == elements@,
            r.pivot() == start as int,
            r.cursor_pos() == start + 1,
    {
        let cursor = start + 1;
        Permutation { elements, start, cursor }
    }

    /// Rewind the cursor onto the pivot itself, so that the first step
    /// swaps the pivot with itself and yields the unmodified seed.
    pub fn include_identity(&mut self)
        requires
            old(self).wf(),
        ensures
            final(self).wf(),
            final(self).elems() == old(self).elems(),
            final(self).pivot() == old(self).pivot(),
            final(self).cursor_pos() == final(self).pivot(),
    {
        self.cursor = self.start;
    }

    /// Reseed: replace the buffer with a fresh snapshot and reset the
    /// cursor to just past the pivot, discarding this level's stale
    /// in-progress permutation.
    pub fn update(&mut self, elements: Vec<T>)
        requires
            old(self).wf(),
            elements@.len() == old(self).elems().len(),
        ensures
            final(self).wf(),
            final(self).elems() == elements@,
            final(self).pivot() == old(self).pivot(),
            final(self).cursor_pos() == final(self).pivot() + 1,
    {
        proof {
            assert(self.start < self.elements.len());
        }
        self.cursor = self.start + 1;
        self.elements = elements;
    }

    /// Advance one step: swap the pivot with the cursor position, move the
    /// cursor forward, and return a copy of the resulting buffer; `None`
    /// once the cursor has exhausted the buffer.  The buffer is only ever
    /// rearranged, never changed in content.
    pub fn next(&mut self) -> (r: Option<Vec<T>>)
        requires
            old(self).wf(),
        ensures
            final(self).wf(),
            final(self).pivot() == old(self).pivot(),
            final(self).elems().len() == old(self).elems().len(),
            final(self).elems().to_multiset() == old(self).elems().to_multiset(),
            r is None <==> old(self).done(),
            old(self).done() ==> *final(self) == *old(self),
            r is Some ==> {
                &&& final(self).cursor_pos() == old(self).cursor_pos() + 1
                &&& final(self).elems() == swapped(
                    old(self).elems(),
                    old(self).pivot(),
                    old(self).cursor_pos(),
                )
                &&& r.unwrap()@ == final(self).elems()
            },
    {
        if self.cursor < self.elements.len() {
            let i = self.start;
            let j = self.cursor;
            self.cursor = j + 1;
            let a = self.elements[i];
            let b = self.elements[j];
            self.elements.set(i, b);
            self.elements.set(j, a);
            proof {
                lemma_swapped_multiset(old(self).elems(), i as int, j as int);
            }
            Some(copy_vec(&self.elements))
        } else {
            None
        }
    }
}

} // verus!
