//! The permutation driver: a stack of level generators composed into a
//! lazy enumeration of every k-permutation of the input.
//!
//! The driver always pulls from the deepest level first.  When a level is
//! exhausted it backtracks to the nearest shallower level that can still
//! advance, reseeds every deeper level with that level's fresh buffer, and
//! resumes depth-first at the bottom.  Once level 0 is exhausted the
//! enumeration is over for good.

use vstd::prelude::*;
use vstd::multiset::group_multiset_axioms;
use vstd::seq_lib::lemma_multiset_commutative;
use crate::level::Permutation;
use crate::level::copy_vec;
use crate::level::swapped;

verus! {

/// A prefix of a buffer only draws from what the whole buffer holds: no
/// value can occur in the first `k` positions more often than in all of
/// them.
pub proof fn lemma_take_multiset_subset<T>(s: Seq<T>, k: int)
    requires
        0 <= k <= s.len(),
    ensures
        s.take(k).to_multiset().subset_of(s.to_multiset()),
{
    broadcast use group_multiset_axioms;

    assert(s =~= s.take(k) + s.skip(k));
    lemma_multiset_commutative(s.take(k), s.skip(k));
}

/// The stack of `k` level generators that together enumerate every
/// k-permutation of the input, one per pull.
pub struct Permutations<T> {
    permutation: Vec<Permutation<T>>,
    current_level: usize,
    k: usize,
    input: Ghost<Seq<T>>,
}

impl<T: Copy> Permutations<T> {
    /// The input buffer the driver was built over.
    pub closed spec fn input_elems(self) -> Seq<T> {
        self.input@
    }

    /// The arrangement length `k`, fixed at construction.
    pub closed spec fn take_size(self) -> int {
        self.k as int
    }

    /// The stack of level generators, shallowest first.
    pub closed spec fn levels(self) -> Seq<Permutation<T>> {
        self.permutation@
    }

    /// The index of the level generator currently being pulled from.
    pub closed spec fn active_level(self) -> int {
        self.current_level as int
    }

    /// The enumeration is over: the shallowest level is the active one and
    /// it has no candidate swaps left.
    pub open spec fn exhausted(self) -> bool {
        self.active_level() == 0 && self.levels()[0].done()
    }

    /// Structural soundness of the stack itself: one well-formed level
    /// generator per position of the arrangement, each pivoting at its own
    /// stack index, each holding a full-length rearrangement of the input,
    /// and the active index in range.
    pub open spec fn levels_wf(self) -> bool {
        &&& 1 <= self.take_size() <= self.input_elems().len()
        &&& self.levels().len() == self.take_size()
        &&& 0 <= self.active_level() < self.take_size()
        &&& forall|l: int|
            0 <= l < self.levels().len() ==> {
                &&& (#[trigger] self.levels()[l]).wf()
                &&& self.levels()[l].pivot() == l
                &&& self.levels()[l].elems().len() == self.input_elems().len()
                &&& self.levels()[l].elems().to_multiset() == self.input_elems().to_multiset()
            }
    }

    /// Soundness between pulls: the stack is sound and the active level is
    /// the deepest one, except once the enumeration is over.
    pub open spec fn wf(self) -> bool {
        &&& self.levels_wf()
        &&& (self.active_level() == self.take_size() - 1 || self.exhausted())
    }

    /// One pull that yields an arrangement advances exactly one level `c`:
    /// every deeper level had run out of candidate swaps, every level
    /// shallower than `c` is left untouched, level `c` performs its next
    /// swap, every deeper level is reseeded with the fresh buffer (cursor
    /// back to just past its pivot), and the arrangement handed out is
    /// that buffer truncated to the take-size.
    pub open spec fn advances_at(pre: Self, post: Self, out: Seq<T>, c: int) -> bool {
        &&& 0 <= c < pre.take_size()
        &&& !pre.levels()[c].done()
        &&& (forall|l: int| c < l < pre.take_size() ==> (#[trigger] pre.levels()[l]).done())
        &&& (forall|l: int| 0 <= l < c ==> #[trigger] post.levels()[l] == pre.levels()[l])
        &&& post.levels()[c].pivot() == pre.levels()[c].pivot()
        &&& post.levels()[c].cursor_pos() == pre.levels()[c].cursor_pos() + 1
        &&& post.levels()[c].elems() == swapped(
            pre.levels()[c].elems(),
            pre.levels()[c].pivot(),
            pre.levels()[c].cursor_pos(),
        )
        &&& (forall|l: int|
            c < l < pre.take_size() ==> (#[trigger] post.levels()[l]).elems()
                == post.levels()[c].elems())
        &&& (forall|l: int|
            c < l < pre.take_size() ==> (#[trigger] post.levels()[l]).cursor_pos() == l + 1)
        &&& out == post.levels()[c].elems().take(pre.take_size())
    }

    /// The shape of a single yielded arrangement: below the advanced level
    /// `c` it keeps that level's buffer values unchanged, and at position
    /// `c` itself it carries exactly the candidate the cursor pointed at.
    /// Since the cursor only ever moves forward, one reseed cycle of a
    /// level hands each remaining candidate to its pivot once, under an
    /// unchanged prefix.
    pub proof fn lemma_advance_pins_prefix(pre: Self, post: Self, out: Seq<T>, c: int)
        requires
            pre.levels_wf(),
            Self::advances_at(pre, post, out, c),
        ensures
            out.len() == pre.take_size(),
            forall|j: int| 0 <= j < c ==> out[j] == pre.levels()[c].elems()[j],
            out[c] == pre.levels()[c].elems()[pre.levels()[c].cursor_pos()],
    {
        let lv = pre.levels()[c];
        assert(lv.pivot() == c);
        assert(lv.cursor_pos() < lv.elems().len());
        assert(out == swapped(lv.elems(), c, lv.cursor_pos()).take(pre.take_size()));
    }

    /// Build the driver over `elements` for arrangements of length `k`.
    ///
    /// Construction yields a driver exactly when `1 <= k <= n`: a zero
    /// take-size, an empty input, or a take-size beyond the input length
    /// all yield `None` rather than a generator that immediately ends.
    /// Levels `0 .. k-1` start with their cursor just past their pivot;
    /// the deepest level alone includes the identity swap, so the very
    /// first pull yields the untouched input prefix.
    pub fn new(elements: Vec<T>, k: usize) -> (r: Option<Self>)
        ensures
            r is Some <==> 1 <= k <= elements@.len(),
            r is Some ==> {
                let p = r.unwrap();
                &&& p.wf()
                &&& p.input_elems() == elements@
                &&& p.take_size() == k as int
                &&& !p.exhausted()
                &&& p.active_level() == k - 1
                &&& (forall|l: int|
                    0 <= l < k ==> (#[trigger] p.levels()[l]).elems() == elements@)
                &&& (forall|l: int|
                    0 <= l < k - 1 ==> (#[trigger] p.levels()[l]).cursor_pos() == l + 1)
                &&& p.levels()[k - 1].cursor_pos() == k - 1
            },
    {
        if k == 0 || elements.is_empty() || k > elements.len() {
            return None;
        }
        let ghost input = elements@;
        let mut levels: Vec<Permutation<T>> = Vec::new();
        let mut i: usize = 0;
        while i < k - 1
            invariant
                1 <= k <= elements@.len(),
                elements@ == input,
                i <= k - 1,
                levels@.len() == i,
                forall|l: int|
                    0 <= l < i ==> {
                        &&& (#[trigger] levels@[l]).wf()
                        &&& levels@[l].pivot() == l
                        &&& levels@[l].elems() == input
                        &&& levels@[l].cursor_pos() == l + 1
                    },
            decreases k - 1 - i,
        {
            levels.push(Permutation::new(copy_vec(&elements), i));
            i = i + 1;
        }
        let mut deepest = Permutation::new(elements, k - 1);
        deepest.include_identity();
        levels.push(deepest);
        let r = Permutations { permutation: levels, current_level: k - 1, k, input: Ghost(input) };
        proof {
            assert(forall|l: int| 0 <= l < k ==> (#[trigger] r.levels()[l]).elems() == input);
        }
        Some(r)
    }

    /// Pull one step from the level generator at stack index `i`, leaving
    /// every other level untouched.
    fn advance(&mut self, i: usize) -> (r: Option<Vec<T>>)
        requires
            i < old(self).levels().len(),
            old(self).levels()[i as int].wf(),
        ensures
            final(self).levels().len() == old(self).levels().len(),
            forall|l: int|
                0 <= l < old(self).levels().len() && l != i ==> final(self).levels()[l]
                    == old(self).levels()[l],
            final(self).active_level() == old(self).active_level(),
            final(self).take_size() == old(self).take_size(),
            final(self).input_elems() == old(self).input_elems(),
            r is None <==> old(self).levels()[i as int].done(),
            r is None ==> final(self).levels()[i as int] == old(self).levels()[i as int],
            r is Some ==> {
                let before = old(self).levels()[i as int];
                let after = final(self).levels()[i as int];
                &&& after.wf()
                &&& after.pivot() == before.pivot()
                &&& after.cursor_pos() == before.cursor_pos() + 1
                &&& after.elems() == swapped(before.elems(), before.pivot(), before.cursor_pos())
                &&& after.elems().len() == before.elems().len()
                &&& after.elems().to_multiset() == before.elems().to_multiset()
                &&& r.unwrap()@ == after.elems()
            },
    {
        let mut lvl = self.permutation.remove(i);
        let r = lvl.next();
        self.permutation.insert(i, lvl);
        proof {
            assert(self.permutation@ =~= old(self).permutation@.update(i as int, lvl));
        }
        r
    }

    /// Reseed the level generator at stack index `i` with a copy of
    /// `buf`, leaving every other level untouched.
    fn reseed(&mut self, i: usize, buf: &Vec<T>)
        requires
            i < old(self).levels().len(),
            old(self).levels()[i as int].wf(),
            buf@.len() == old(self).levels()[i as int].elems().len(),
        ensures
            final(self).levels().len() == old(self).levels().len(),
            forall|l: int|
                0 <= l < old(self).levels().len() && l != i ==> final(self).levels()[l]
                    == old(self).levels()[l],
            final(self).active_level() == old(self).active_level(),
            final(self).take_size() == old(self).take_size(),
            final(self).input_elems() == old(self).input_elems(),
            final(self).levels()[i as int].wf(),
            final(self).levels()[i as int].pivot() == old(self).levels()[i as int].pivot(),
            final(self).levels()[i as int].elems() == buf@,
            final(self).levels()[i as int].cursor_pos() == old(self).levels()[i as int].pivot()
                + 1,
    {
        let mut lvl = self.permutation.remove(i);
        lvl.update(copy_vec(buf));
        self.permutation.insert(i, lvl);
        proof {
            assert(self.permutation@ =~= old(self).permutation@.update(i as int, lvl));
        }
    }

    /// Produce the next k-permutation, or `None` once every level is
    /// exhausted.  Each yielded arrangement has length exactly the
    /// take-size, draws every element from the input (no input position
    /// contributing more than once), and is the k-prefix of the freshly
    /// advanced buffer, as `advances_at` pins down.  Once the enumeration
    /// has ended it stays ended: an exhausted driver yields `None` and is
    /// left exhausted, with its stack untouched.
    pub fn next(&mut self) -> (r: Option<Vec<T>>)
        requires
            old(self).wf(),
        ensures
            final(self).wf(),
            final(self).take_size() == old(self).take_size(),
            final(self).input_elems() == old(self).input_elems(),
            old(self).exhausted() ==> r is None,
            r is None ==> final(self).exhausted(),
            r is None ==> final(self).levels() == old(self).levels(),
            r is None <==> (forall|l: int|
                0 <= l <= old(self).active_level() ==> (#[trigger] old(self).levels()[l]).done()),
            r is Some ==> {
                &&& r.unwrap()@.len() == old(self).take_size()
                &&& r.unwrap()@.to_multiset().subset_of(old(self).input_elems().to_multiset())
                &&& final(self).active_level() == final(self).take_size() - 1
                &&& exists|c: int|
                    Self::advances_at(*old(self), *final(self), r.unwrap()@, c)
            },
    {
        let cl = self.current_level;
        if let Some(buf) = self.advance(cl) {
            let ghost full = buf@;
            let mut out = buf;
            out.truncate(self.k);
            proof {
                lemma_take_multiset_subset(full, self.k as int);
                assert(Self::advances_at(*old(self), *self, out@, cl as int));
            }
            return Some(out);
        }
        while self.current_level > 0
            invariant
                old(self).wf(),
                self.levels_wf(),
                self.take_size() == old(self).take_size(),
                self.input_elems() == old(self).input_elems(),
                self.levels().len() == old(self).levels().len(),
                forall|l: int|
                    0 <= l < self.levels().len() ==> #[trigger] self.levels()[l]
                        == old(self).levels()[l],
                self.active_level() <= old(self).active_level(),
                forall|l: int|
                    self.active_level() <= l <= old(self).active_level() ==> (#[trigger] self
                        .levels()[l]).done(),
            decreases self.current_level,
        {
            let ghost head = *self;
            let c = self.current_level - 1;
            self.current_level = c;
            if let Some(buf) = self.advance(c) {
                let ghost full = buf@;
                let ghost mid = *self;
                proof {
                    assert(head.active_level() == c + 1);
                    assert(old(self).active_level() == old(self).take_size() - 1);
                    assert forall|l: int|
                        c < l < old(self).take_size() implies (#[trigger] old(self).levels()[
                        l]).done() by {
                        assert(head.levels()[l].done());
                        assert(head.levels()[l] == old(self).levels()[l]);
                    }
                }
                let mut idx: usize = c + 1;
                while idx < self.k
                    invariant
                        c + 1 <= idx <= self.take_size(),
                        forall|l: int|
                            c < l < old(self).take_size()
                                ==> (#[trigger] old(self).levels()[l]).done(),
                        self.levels_wf(),
                        self.active_level() == c as int,
                        self.take_size() == old(self).take_size(),
                        self.input_elems() == old(self).input_elems(),
                        full.len() == self.input_elems().len(),
                        full.to_multiset() == self.input_elems().to_multiset(),
                        buf@ == full,
                        forall|l: int| 0 <= l <= c ==> #[trigger] self.levels()[l]
                            == mid.levels()[l],
                        self.levels()[c as int].elems() == full,
                        forall|l: int|
                            c < l < idx ==> (#[trigger] self.levels()[l]).elems() == full
                                && self.levels()[l].cursor_pos() == l + 1,
                        forall|l: int|
                            idx <= l < self.levels().len() ==> #[trigger] self.levels()[l]
                                == mid.levels()[l],
                    decreases self.take_size() - idx,
                {
                    self.reseed(idx, &buf);
                    idx = idx + 1;
                }
                self.current_level = self.k - 1;
                let mut out = buf;
                out.truncate(self.k);
                proof {
                    lemma_take_multiset_subset(full, self.k as int);
                    assert(Self::advances_at(*old(self), *self, out@, c as int));
                }
                return Some(out);
            }
        }
        proof {
            assert(self.levels() =~= old(self).levels());
        }
        None
    }
}

/// Construction of a k-permutation generator from any ordered collection
/// that views as a sequence of elements.
pub trait Combinatorial<T: Copy>: Sized + View<V = Seq<T>> {
    /// Build a generator over this collection's elements, or `None` when
    /// `k` is zero, the collection is empty, or `k` exceeds its length.
    fn permutations(self, k: usize) -> (r: Option<Permutations<T>>)
        ensures
            r is Some <==> 1 <= k <= self@.len(),
            r is Some ==> {
                let p = r.unwrap();
                &&& p.wf()
                &&& p.input_elems() == self@
                &&& p.take_size() == k as int
                &&& !p.exhausted()
            },
    ;
}

impl<T: Copy> Combinatorial<T> for Vec<T> {
    fn permutations(self, k: usize) -> (r: Option<Permutations<T>>) {
        Permutations::new(self, k)
    }
}

} // verus!
