//! The segments that a reader has taken lately.

use vstd::prelude::*;
use std::collections::{HashSet, VecDeque};

verus! {

/// How many segments are remembered.
pub const MAX_SEEN: usize = 10;

/// The segments `seen`, oldest first, after `n` has been taken: the oldest is forgotten
/// where they are too many.
pub open spec fn remembered(seen: Seq<u32>, n: u32) -> Seq<u32> {
    if seen.len() >= MAX_SEEN {
        seen.push(n).skip(1)
    } else {
        seen.push(n)
    }
}

/// The last segments taken, in the order in which they were taken.
#[derive(Debug)]
pub struct SeenSegments {
    segments: HashSet<u32>,
    queue: VecDeque<u32>,
}

impl View for SeenSegments {
    type V = Seq<u32>;

    closed spec fn view(&self) -> Seq<u32> {
        self.queue@
    }
}

impl SeenSegments {
    /// The set holds the segments of the queue, which holds none twice and is not too
    /// long.
    pub closed spec fn wf(&self) -> bool {
        &&& self.queue@.no_duplicates()
        &&& self.queue@.len() <= MAX_SEEN
        &&& self.segments@ == self.queue@.to_set()
    }

    /// No more than the last segments are remembered, and none twice.
    pub proof fn lemma_bounded(&self)
        requires
            self.wf(),
        ensures
            self@.no_duplicates(),
            self@.len() <= MAX_SEEN,
    {
    }

    /// No segments.
    pub fn new() -> (r: Self)
        ensures
            r.wf(),
            r@ == Seq::<u32>::empty(),
    {
        let r = SeenSegments { segments: HashSet::new(), queue: VecDeque::new() };
        assert(r.segments@ =~= r.queue@.to_set());
        r
    }

    /// Whether the segment is remembered.
    pub fn contains(&self, n: u32) -> (r: bool)
        requires
            self.wf(),
        ensures
            r == self@.contains(n),
    {
        broadcast use vstd::std_specs::hash::group_hash_axioms;

        self.segments.contains(&n)
    }

    /// Remembers a segment that is not remembered.
    pub fn remember(&mut self, n: u32)
        requires
            old(self).wf(),
            !old(self)@.contains(n),
        ensures
            final(self).wf(),
            final(self)@ == remembered(old(self)@, n),
    {
        broadcast use vstd::std_specs::hash::group_hash_axioms;

        let ghost before = self.queue@;
        self.queue.push_back(n);
        self.segments.insert(n);
        assert(self.segments@ =~= self.queue@.to_set()) by {
            assert(before.push(n).to_set() =~= before.to_set().insert(n)) by {
                assert forall|m: u32| before.push(n).contains(m) <==> before.contains(m) || m
                    == n by {
                    vstd::seq_lib::lemma_seq_contains_after_push(before, n, m);
                }
            }
        }
        if self.queue.len() > MAX_SEEN {
            let ghost longer = self.queue@;
            if let Some(oldest) = self.queue.pop_front() {
                self.segments.remove(&oldest);
                proof {
                    assert(longer.skip(1) =~= self.queue@);
                    assert forall|m: u32| self.queue@.contains(m) <==> longer.contains(m) && m
                        != oldest by {
                        if self.queue@.contains(m) {
                            let i = choose|i: int| 0 <= i < self.queue@.len() && self.queue@[i]
                                == m;
                            assert(longer[i + 1] == m);
                        }
                        if longer.contains(m) && m != oldest {
                            let i = choose|i: int| 0 <= i < longer.len() && longer[i] == m;
                            assert(self.queue@[i - 1] == m);
                        }
                    }
                    assert(self.queue@.to_set() =~= longer.to_set().remove(oldest));
                    assert(self.segments@ =~= self.queue@.to_set());
                }
            }
        }
    }
}

/// A segment that is taken is remembered last. The others keep their order; the oldest is
/// forgotten exactly if there were ten.
pub proof fn law_ten_are_remembered(seen: Seq<u32>, n: u32)
    requires
        seen.len() <= 10,
    ensures
        remembered(seen, n).len() == if seen.len() < 10 {
            seen.len() + 1
        } else {
            10
        },
        remembered(seen, n).last() == n,
        forall|i: int|
            0 <= i < remembered(seen, n).len() - 1 ==> #[trigger] remembered(seen, n)[i]
                == seen[i + seen.len() + 1 - remembered(seen, n).len()],
{
}

} // verus!
