use std::collections::VecDeque;
use vstd::prelude::*;

verus! {

/// The work list used while raising node heights after an edge was added, bucketed by
/// the height each node had when it was queued.
pub struct AdjustHeightsHeap {
    length: usize,
    height_lower_bound: i32,
    max_height_seen: i32,
    queues: Vec<VecDeque<usize>>,
    pre_heights: Ghost<Map<usize, int>>,
}

impl View for AdjustHeightsHeap {
    type V = Map<usize, int>;

    /// Each queued node, mapped to the height it was queued at.
    closed spec fn view(&self) -> Map<usize, int> {
        self.pre_heights@
    }
}

impl AdjustHeightsHeap {
    pub closed spec fn wf(&self) -> bool {
        &&& 1 <= self.queues@.len() <= i32::MAX
        &&& self.pre_heights@.dom().finite()
        &&& self.length == self.pre_heights@.dom().len()
        &&& self.height_lower_bound >= 0
        &&& 0 <= self.max_height_seen < self.queues@.len()
        &&& forall|h: int, i: int|
            0 <= h < self.queues@.len() && 0 <= i < self.queues@[h]@.len() ==> {
                &&& self.pre_heights@.contains_key(#[trigger] self.queues@[h]@[i])
                &&& self.pre_heights@[self.queues@[h]@[i]] == h
            }
        &&& forall|n: usize| #[trigger]
            self.pre_heights@.contains_key(n) ==> {
                &&& 0 <= self.pre_heights@[n] < self.queues@.len()
                &&& self.queues@[self.pre_heights@[n]]@.contains(n)
                &&& self.height_lower_bound <= self.pre_heights@[n]
            }
        &&& forall|h: int| 0 <= h < self.queues@.len() ==> (#[trigger] self.queues@[h]@).no_duplicates()
    }

    /// No node is queued below this height.
    pub closed spec fn lower_bound(&self) -> int {
        self.height_lower_bound as int
    }

    /// The greatest height a node may have.
    pub closed spec fn max_allowed(&self) -> int {
        self.queues@.len() - 1
    }

    /// The greatest height given to a node so far.
    pub closed spec fn max_seen(&self) -> int {
        self.max_height_seen as int
    }

    /// What well-formedness tells a user of the heap: finitely many nodes, each queued
    /// between the lower bound and the allowed maximum, which fits below `i32::MAX`.
    pub proof fn lemma_wf(&self)
        requires
            self.wf(),
        ensures
            self@.dom().finite(),
            0 <= self.lower_bound(),
            0 <= self.max_seen() <= self.max_allowed() < i32::MAX,
            forall|n: usize| #[trigger]
                self@.contains_key(n) ==> self.lower_bound() <= self@[n] <= self.max_allowed(),
            self@.len() == 0 ==> forall|n: usize| !(#[trigger] self@.contains_key(n)),
    {
        vstd::set_lib::lemma_set_empty_equivalency_len(self@.dom());
    }

    /// An empty heap for heights `0..=max_height_allowed`.
    pub fn new(max_height_allowed: usize) -> (r: Self)
        requires
            max_height_allowed < i32::MAX,
        ensures
            r.wf(),
            r@ == Map::<usize, int>::empty(),
            r.max_allowed() == max_height_allowed,
            r.max_seen() == 0,
            r.lower_bound() == max_height_allowed + 1,
    {
        let mut queues: Vec<VecDeque<usize>> = Vec::with_capacity(max_height_allowed + 1);
        let mut i: usize = 0;
        while i < max_height_allowed + 1
            invariant
                i <= max_height_allowed + 1,
                max_height_allowed < i32::MAX,
                queues@.len() == i,
                forall|h: int| 0 <= h < i ==> (#[trigger] queues@[h]@).len() == 0,
            decreases max_height_allowed + 1 - i,
        {
            queues.push(VecDeque::new());
            i = i + 1;
        }
        let r = AdjustHeightsHeap {
            length: 0,
            height_lower_bound: (max_height_allowed as i32) + 1,
            max_height_seen: 0,
            queues,
            pre_heights: Ghost(Map::empty()),
        };
        assert forall|h: int| 0 <= h < r.queues@.len() implies (#[trigger] r.queues@[h]@).no_duplicates() by {
            assert(r.queues@[h]@.len() == 0);
        }
        r
    }

    /// Whether no node is queued.
    pub fn is_empty(&self) -> (r: bool)
        requires
            self.wf(),
        ensures
            r == (self@.len() == 0),
    {
        self.length == 0
    }

    /// The greatest height a node may have.
    pub fn max_height_allowed(&self) -> (r: i32)
        requires
            self.wf(),
        ensures
            r == self.max_allowed(),
    {
        (self.queues.len() as i32) - 1
    }

    /// Record that some node now has height `height`. A height above the allowed
    /// maximum is refused with `false` and leaves the heap as it was.
    pub fn note_height(&mut self, height: i32) -> (ok: bool)
        requires
            old(self).wf(),
        ensures
            final(self).wf(),
            final(self)@ == old(self)@,
            final(self).max_allowed() == old(self).max_allowed(),
            final(self).lower_bound() == old(self).lower_bound(),
            ok == (height <= old(self).max_allowed()),
            ok ==> final(self).max_seen() == if height > old(self).max_seen() {
                height as int
            } else {
                old(self).max_seen()
            },
            !ok ==> final(self).max_seen() == old(self).max_seen(),
    {
        if height > self.max_height_seen {
            if height > (self.queues.len() as i32) - 1 {
                return false;
            }
            self.max_height_seen = height;
        }
        height <= (self.queues.len() as i32) - 1
    }

    /// Change the number of buckets to `new_max_height_allowed`, so that the greatest
    /// height allowed becomes `new_max_height_allowed - 1`.
    pub fn set_max_height_allowed(&mut self, new_max_height_allowed: usize)
        requires
            old(self).wf(),
            old(self)@.len() == 0,
            old(self).max_seen() < new_max_height_allowed <= i32::MAX,
        ensures
            final(self).wf(),
            final(self)@ == old(self)@,
            final(self).max_allowed() == new_max_height_allowed - 1,
            final(self).max_seen() == old(self).max_seen(),
    {
        if new_max_height_allowed <= self.queues.len() {
            self.queues.truncate(new_max_height_allowed);
        } else {
            let ghost old_len = self.queues@.len();
            while self.queues.len() < new_max_height_allowed
                invariant
                    old_len <= self.queues@.len() <= new_max_height_allowed,
                    forall|h: int| 0 <= h < old_len ==> #[trigger] self.queues@[h] == old(self).queues@[h],
                    forall|h: int| old_len <= h < self.queues@.len() ==> (#[trigger] self.queues@[h]@).len() == 0,
                    old_len == old(self).queues@.len(),
                    self.pre_heights == old(self).pre_heights,
                    self.length == old(self).length,
                    self.height_lower_bound == old(self).height_lower_bound,
                    self.max_height_seen == old(self).max_height_seen,
                decreases new_max_height_allowed - self.queues@.len(),
            {
                self.queues.push(VecDeque::new());
            }
        }
        assert forall|h: int| 0 <= h < self.queues@.len() implies (#[trigger] self.queues@[h]@).len() == 0 by {
            if h < old(self).queues@.len() {
                assert(self.queues@[h] == old(self).queues@[h]);
                if old(self).queues@[h]@.len() > 0 {
                    assert(old(self).pre_heights@.contains_key(old(self).queues@[h]@[0]));
                }
            }
        }
        assert forall|h: int| 0 <= h < self.queues@.len() implies (#[trigger] self.queues@[h]@).no_duplicates() by {
            assert(self.queues@[h]@.len() == 0);
        }
    }

    /// Forget every queued node.
    pub fn clear(&mut self)
        requires
            old(self).wf(),
        ensures
            final(self).wf(),
            final(self)@ == Map::<usize, int>::empty(),
            final(self).max_allowed() == old(self).max_allowed(),
            final(self).max_seen() == old(self).max_seen(),
    {
        let n = self.queues.len();
        let mut i: usize = 0;
        while i < n
            invariant
                n == self.queues@.len(),
                1 <= n <= i32::MAX,
                i <= n,
                0 <= self.max_height_seen < n,
                forall|h: int| 0 <= h < i ==> (#[trigger] self.queues@[h]@).len() == 0,
                self.max_height_seen == old(self).max_height_seen,
                self.height_lower_bound >= 0,
            decreases n - i,
        {
            let mut empty: VecDeque<usize> = VecDeque::new();
            self.queues.set_and_swap(i, &mut empty);
            i = i + 1;
        }
        self.length = 0;
        self.pre_heights = Ghost(Map::empty());
        assert forall|h: int| 0 <= h < self.queues@.len() implies (#[trigger] self.queues@[h]@).no_duplicates() by {
            assert(self.queues@[h]@.len() == 0);
        }
    }

    /// Start a round of adjustments whose nodes are all queued at or above `height`.
    pub fn set_lower_bound(&mut self, height: i32)
        requires
            old(self).wf(),
            old(self)@.len() == 0,
            height >= 0,
        ensures
            final(self).wf(),
            final(self)@ == old(self)@,
            final(self).max_allowed() == old(self).max_allowed(),
            final(self).max_seen() == old(self).max_seen(),
            final(self).lower_bound() == height,
    {
        self.height_lower_bound = height;
    }

    /// Queue `node` at `height`.
    pub fn push(&mut self, node: usize, height: i32)
        requires
            old(self).wf(),
            !old(self)@.contains_key(node),
            old(self).lower_bound() <= height <= old(self).max_allowed(),
            old(self)@.len() < usize::MAX,
        ensures
            final(self).wf(),
            final(self)@ == old(self)@.insert(node, height as int),
            final(self).max_allowed() == old(self).max_allowed(),
            final(self).max_seen() == old(self).max_seen(),
            final(self).lower_bound() == old(self).lower_bound(),
    {
        let hu = height as usize;
        let mut q: VecDeque<usize> = VecDeque::new();
        self.queues.set_and_swap(hu, &mut q);
        let ghost old_q = q@;
        assert(!old_q.contains(node)) by {
            if old_q.contains(node) {
                let i = choose|i: int| 0 <= i < old_q.len() && old_q[i] == node;
                assert(old(self).queues@[hu as int]@[i] == node);
            }
        }
        q.push_back(node);
        assert(q@ == old_q.push(node));
        self.queues.set_and_swap(hu, &mut q);
        self.pre_heights = Ghost(self.pre_heights@.insert(node, height as int));
        self.length = self.length + 1;
        assert(self.queues@[hu as int]@ == old_q.push(node));
        assert forall|h: int, i: int|
            0 <= h < self.queues@.len() && 0 <= i < self.queues@[h]@.len() implies {
                &&& self.pre_heights@.contains_key(#[trigger] self.queues@[h]@[i])
                &&& self.pre_heights@[self.queues@[h]@[i]] == h
            } by {
            if h != hu as int {
                assert(self.queues@[h] == old(self).queues@[h]);
                assert(old(self).pre_heights@.contains_key(old(self).queues@[h]@[i]));
            } else if i < old_q.len() {
                assert(self.queues@[h]@[i] == old(self).queues@[h]@[i]);
                assert(old(self).pre_heights@.contains_key(old(self).queues@[h]@[i]));
            }
        }
        assert forall|n: usize| #[trigger]
            self.pre_heights@.contains_key(n) implies {
                &&& 0 <= self.pre_heights@[n] < self.queues@.len()
                &&& self.queues@[self.pre_heights@[n]]@.contains(n)
                &&& self.height_lower_bound <= self.pre_heights@[n]
            } by {
            if n != node {
                assert(old(self).pre_heights@.contains_key(n));
                let hn = old(self).pre_heights@[n];
                if hn == hu as int {
                    let i = choose|i: int| 0 <= i < old_q.len() && old_q[i] == n;
                    assert(self.queues@[hn]@[i] == n);
                } else {
                    assert(self.queues@[hn] == old(self).queues@[hn]);
                }
            } else {
                assert(self.queues@[hu as int]@[old_q.len() as int] == node);
            }
        }
        assert forall|h: int| 0 <= h < self.queues@.len() implies (#[trigger] self.queues@[h]@).no_duplicates() by {
            if h == hu as int {
                assert(old(self).queues@[h]@.no_duplicates());
            } else {
                assert(self.queues@[h] == old(self).queues@[h]);
            }
        }
    }

    /// Take out a node of the lowest non-empty bucket, or `None` when empty. The lower
    /// bound moves to that bucket.
    pub fn remove_min(&mut self) -> (r: Option<usize>)
        requires
            old(self).wf(),
        ensures
            final(self).wf(),
            final(self).max_allowed() == old(self).max_allowed(),
            final(self).max_seen() == old(self).max_seen(),
            r is None <==> old(self)@.len() == 0,
            r is None ==> final(self)@ == old(self)@ && final(self).lower_bound() == old(self).lower_bound(),
            r matches Some(n) ==> {
                &&& old(self)@.contains_key(n)
                &&& old(self)@[n] == final(self).lower_bound()
                &&& final(self).lower_bound() >= old(self).lower_bound()
                &&& final(self)@ == old(self)@.remove(n)
            },
    {
        if self.length == 0 {
            return None;
        }
        let ghost n0 = self.pre_heights@.dom().choose();
        proof {
            assert(self.pre_heights@.dom().len() > 0);
            assert(self.pre_heights@.dom().contains(n0));
        }
        while self.queues[self.height_lower_bound as usize].len() == 0
            invariant
                self.wf(),
                self@ == old(self)@,
                self.queues@ == old(self).queues@,
                self.length == old(self).length,
                self.max_height_seen == old(self).max_height_seen,
                self.height_lower_bound >= old(self).height_lower_bound,
                self.pre_heights@.contains_key(n0),
            decreases self.pre_heights@[n0] - self.height_lower_bound,
        {
            let h = self.height_lower_bound;
            assert forall|n: usize| #[trigger] self.pre_heights@.contains_key(n) implies h + 1 <= self.pre_heights@[n] by {
                if self.pre_heights@[n] == h {
                    assert(self.queues@[h as int]@.contains(n));
                }
            }
            self.height_lower_bound = h + 1;
        }
        let h = self.height_lower_bound;
        let hu = h as usize;
        let mut q: VecDeque<usize> = VecDeque::new();
        self.queues.set_and_swap(hu, &mut q);
        let ghost old_q = q@;
        assert(old_q == old(self).queues@[h as int]@);
        let node = q.pop_front().unwrap();
        assert(q@ == old_q.drop_first());
        self.queues.set_and_swap(hu, &mut q);
        assert(old(self).pre_heights@.contains_key(old_q[0]));
        self.pre_heights = Ghost(self.pre_heights@.remove(node));
        self.length = self.length - 1;
        assert forall|h2: int, i: int|
            0 <= h2 < self.queues@.len() && 0 <= i < self.queues@[h2]@.len() implies {
                &&& self.pre_heights@.contains_key(#[trigger] self.queues@[h2]@[i])
                &&& self.pre_heights@[self.queues@[h2]@[i]] == h2
            } by {
            if h2 != h as int {
                assert(self.queues@[h2] == old(self).queues@[h2]);
                assert(old(self).pre_heights@.contains_key(old(self).queues@[h2]@[i]));
                assert(old(self).queues@[h2]@[i] != node);
            } else {
                assert(self.queues@[h2]@[i] == old_q[i + 1]);
                assert(old(self).queues@[h2]@[i + 1] == old_q[i + 1]);
                assert(old(self).pre_heights@.contains_key(old_q[i + 1]));
                assert(old(self).queues@[h2]@.no_duplicates());
            }
        }
        assert forall|n: usize| #[trigger]
            self.pre_heights@.contains_key(n) implies {
                &&& 0 <= self.pre_heights@[n] < self.queues@.len()
                &&& self.queues@[self.pre_heights@[n]]@.contains(n)
                &&& self.height_lower_bound <= self.pre_heights@[n]
            } by {
            assert(old(self).pre_heights@.contains_key(n));
            let hn = old(self).pre_heights@[n];
            if hn == h as int {
                let j = choose|j: int| 0 <= j < old_q.len() && old_q[j] == n;
                assert(j != 0);
                assert(self.queues@[hn]@[j - 1] == n);
            } else {
                assert(self.queues@[hn] == old(self).queues@[hn]);
            }
        }
        assert forall|h2: int| 0 <= h2 < self.queues@.len() implies (#[trigger] self.queues@[h2]@).no_duplicates() by {
            if h2 == h as int {
                assert(old(self).queues@[h2]@.no_duplicates());
                assert(self.queues@[h2]@ == old_q.drop_first());
            } else {
                assert(self.queues@[h2] == old(self).queues@[h2]);
            }
        }
        Some(node)
    }
}

} // verus!
