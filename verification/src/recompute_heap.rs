use vstd::prelude::*;
use vstd::set_lib::*;

verus! {

/// The queue of nodes waiting to be recomputed, bucketed by height.
///
/// Nodes are identified by their index in the engine's node arena. Each bucket holds
/// the nodes of one height; the order within a bucket does not matter, because
/// nodes of equal height never depend on one another.
pub struct RecomputeHeap {
    queues: Vec<Vec<usize>>,
    height_lower_bound: i32,
    length: usize,
    heights: Ghost<Map<usize, int>>,
}

impl View for RecomputeHeap {
    type V = Map<usize, int>;

    /// Each queued node, mapped to the height it is queued at.
    closed spec fn view(&self) -> Map<usize, int> {
        self.heights@
    }
}

impl RecomputeHeap {
    spec fn queue(&self, h: int) -> Seq<usize> {
        self.queues@[h]@
    }

    /// The bucket structure agrees with the queued nodes, and the lower bound is below
    /// every queued node's height.
    pub closed spec fn wf(&self) -> bool {
        &&& self.queues@.len() <= i32::MAX
        &&& self.heights@.dom().finite()
        &&& self.length == self.heights@.dom().len()
        &&& self.height_lower_bound >= 0
        &&& forall|h: int, i: int|
            0 <= h < self.queues@.len() && 0 <= i < self.queues@[h]@.len() ==> {
                &&& self.heights@.contains_key(#[trigger] self.queues@[h]@[i])
                &&& self.heights@[self.queues@[h]@[i]] == h
            }
        &&& forall|n: usize| #[trigger]
            self.heights@.contains_key(n) ==> {
                &&& 0 <= self.heights@[n] < self.queues@.len()
                &&& self.queues@[self.heights@[n]]@.contains(n)
                &&& self.height_lower_bound <= self.heights@[n]
            }
        &&& forall|h: int| 0 <= h < self.queues@.len() ==> (#[trigger] self.queues@[h]@).no_duplicates()
    }

    /// No queued node is below this height.
    pub closed spec fn lower_bound(&self) -> int {
        self.height_lower_bound as int
    }

    /// The greatest height a node may be queued at.
    pub closed spec fn max_allowed(&self) -> int {
        self.queues@.len() - 1
    }

    /// What well-formedness tells a user of the heap: finitely many nodes, each queued
    /// between the lower bound and the allowed maximum, which fits below `i32::MAX`.
    pub proof fn lemma_wf(&self)
        requires
            self.wf(),
        ensures
            self@.dom().finite(),
            0 <= self.lower_bound(),
            -1 <= self.max_allowed() < i32::MAX,
            forall|n: usize| #[trigger]
                self@.contains_key(n) ==> self.lower_bound() <= self@[n] <= self.max_allowed(),
            self@.len() == 0 ==> forall|n: usize| !(#[trigger] self@.contains_key(n)),
    {
        vstd::set_lib::lemma_set_empty_equivalency_len(self@.dom());
    }

    /// An empty heap accepting heights `0..=max_height_allowed`.
    pub fn new(max_height_allowed: usize) -> (r: Self)
        requires
            max_height_allowed < i32::MAX,
        ensures
            r.wf(),
            r@ == Map::<usize, int>::empty(),
            r.max_allowed() == max_height_allowed,
            r.lower_bound() == max_height_allowed + 1,
    {
        let mut queues: Vec<Vec<usize>> = Vec::with_capacity(max_height_allowed + 1);
        let mut i: usize = 0;
        while i < max_height_allowed + 1
            invariant
                i <= max_height_allowed + 1,
                max_height_allowed < i32::MAX,
                queues@.len() == i,
                forall|h: int| 0 <= h < i ==> (#[trigger] queues@[h]@).len() == 0,
            decreases max_height_allowed + 1 - i,
        {
            queues.push(Vec::new());
            i = i + 1;
        }
        let r = RecomputeHeap {
            queues,
            height_lower_bound: (max_height_allowed as i32) + 1,
            length: 0,
            heights: Ghost(Map::empty()),
        };
        assert forall|h: int| 0 <= h < r.queues@.len() implies (#[trigger] r.queues@[h]@).no_duplicates() by {
            assert(r.queues@[h]@.len() == 0);
        }
        r
    }

    /// Number of queued nodes.
    pub fn len(&self) -> (r: usize)
        requires
            self.wf(),
        ensures
            r == self@.len(),
    {
        self.length
    }

    /// Whether no node is queued.
    pub fn is_empty(&self) -> (r: bool)
        requires
            self.wf(),
        ensures
            r == (self@.len() == 0),
    {
        self.length == 0
    }

    /// The greatest height a node may be queued at.
    pub fn max_height_allowed(&self) -> (r: i32)
        requires
            self.wf(),
        ensures
            r == self.max_allowed(),
    {
        (self.queues.len() as i32) - 1
    }

    /// Forget every queued node.
    pub fn clear(&mut self)
        requires
            old(self).wf(),
        ensures
            final(self).wf(),
            final(self)@ == Map::<usize, int>::empty(),
            final(self).max_allowed() == old(self).max_allowed(),
            final(self).lower_bound() == i32::MAX,
    {
        let n = self.queues.len();
        let mut i: usize = 0;
        while i < n
            invariant
                n == self.queues@.len(),
                n <= i32::MAX,
                i <= n,
                forall|h: int| 0 <= h < i ==> (#[trigger] self.queues@[h]@).len() == 0,
            decreases n - i,
        {
            let mut empty: Vec<usize> = Vec::new();
            self.queues.set_and_swap(i, &mut empty);
            i = i + 1;
        }
        self.length = 0;
        self.height_lower_bound = i32::MAX;
        self.heights = Ghost(Map::empty());
        assert forall|h: int| 0 <= h < self.queues@.len() implies (#[trigger] self.queues@[h]@).no_duplicates() by {
            assert(self.queues@[h]@.len() == 0);
        }
    }

    /// Queue `node` at `height`.
    pub fn insert(&mut self, node: usize, height: i32)
        requires
            old(self).wf(),
            !old(self)@.contains_key(node),
            0 <= height <= old(self).max_allowed(),
            old(self)@.len() < usize::MAX,
        ensures
            final(self).wf(),
            final(self)@ == old(self)@.insert(node, height as int),
            final(self).max_allowed() == old(self).max_allowed(),
            final(self).lower_bound() == if height < old(self).lower_bound() {
                height as int
            } else {
                old(self).lower_bound()
            },
    {
        if height < self.height_lower_bound {
            self.height_lower_bound = height;
        }
        self.link(node, height);
        self.length = self.length + 1;
    }

    /// Put `node` in the bucket for `height` and record it there.
    fn link(&mut self, node: usize, height: i32)
        requires
            old(self).queues@.len() <= i32::MAX,
            old(self).heights@.dom().finite(),
            old(self).length == old(self).heights@.dom().len(),
            old(self).length < usize::MAX,
            old(self).height_lower_bound >= 0,
            0 <= old(self).height_lower_bound <= height < old(self).queues@.len(),
            !old(self).heights@.contains_key(node),
            forall|h: int, i: int|
                0 <= h < old(self).queues@.len() && 0 <= i < old(self).queues@[h]@.len() ==> {
                    &&& old(self).heights@.contains_key(#[trigger] old(self).queues@[h]@[i])
                    &&& old(self).heights@[old(self).queues@[h]@[i]] == h
                },
            forall|n: usize| #[trigger]
                old(self).heights@.contains_key(n) ==> {
                    &&& 0 <= old(self).heights@[n] < old(self).queues@.len()
                    &&& old(self).queues@[old(self).heights@[n]]@.contains(n)
                    &&& old(self).height_lower_bound <= old(self).heights@[n]
                },
            forall|h: int|
                0 <= h < old(self).queues@.len() ==> (#[trigger] old(self).queues@[h]@).no_duplicates(),
        ensures
            final(self).queues@.len() == old(self).queues@.len(),
            final(self).height_lower_bound == old(self).height_lower_bound,
            final(self).length == old(self).length,
            final(self).heights@ == old(self).heights@.insert(node, height as int),
            final(self).heights@.dom().len() == old(self).length + 1,
            final(self).queues@.len() <= i32::MAX,
            final(self).heights@.dom().finite(),
            final(self).height_lower_bound >= 0,
            forall|h: int, i: int|
                0 <= h < final(self).queues@.len() && 0 <= i < final(self).queues@[h]@.len() ==> {
                    &&& final(self).heights@.contains_key(#[trigger] final(self).queues@[h]@[i])
                    &&& final(self).heights@[final(self).queues@[h]@[i]] == h
                },
            forall|n: usize| #[trigger]
                final(self).heights@.contains_key(n) ==> {
                    &&& 0 <= final(self).heights@[n] < final(self).queues@.len()
                    &&& final(self).queues@[final(self).heights@[n]]@.contains(n)
                    &&& final(self).height_lower_bound <= final(self).heights@[n]
                },
            forall|h: int|
                0 <= h < final(self).queues@.len() ==> (#[trigger] final(self).queues@[h]@).no_duplicates(),
    {
        let hu = height as usize;
        let mut q: Vec<usize> = Vec::new();
        self.queues.set_and_swap(hu, &mut q);
        let ghost old_q = q@;
        assert(!old_q.contains(node)) by {
            if old_q.contains(node) {
                let i = choose|i: int| 0 <= i < old_q.len() && old_q[i] == node;
                assert(old(self).queues@[hu as int]@[i] == node);
            }
        }
        q.push(node);
        assert(q@ == old_q.push(node));
        self.queues.set_and_swap(hu, &mut q);
        self.heights = Ghost(self.heights@.insert(node, height as int));
        assert(self.queues@[hu as int]@ == old_q.push(node));
        assert forall|h: int, i: int|
            0 <= h < self.queues@.len() && 0 <= i < self.queues@[h]@.len() implies {
                &&& self.heights@.contains_key(#[trigger] self.queues@[h]@[i])
                &&& self.heights@[self.queues@[h]@[i]] == h
            } by {
            if h != hu as int {
                assert(self.queues@[h] == old(self).queues@[h]);
                assert(old(self).heights@.contains_key(old(self).queues@[h]@[i]));
            } else if i < old_q.len() {
                assert(self.queues@[h]@[i] == old(self).queues@[h]@[i]);
                assert(old(self).heights@.contains_key(old(self).queues@[h]@[i]));
            }
        }
        assert forall|n: usize| #[trigger]
            self.heights@.contains_key(n) implies {
                &&& 0 <= self.heights@[n] < self.queues@.len()
                &&& self.queues@[self.heights@[n]]@.contains(n)
                &&& self.height_lower_bound <= self.heights@[n]
            } by {
            if n != node {
                assert(old(self).heights@.contains_key(n));
                let hn = old(self).heights@[n];
                if hn == hu as int {
                    let i = choose|i: int| 0 <= i < old_q.len() && old_q[i] == n;
                    assert(self.queues@[hn]@[i] == n);
                } else {
                    assert(self.queues@[hn] == old(self).queues@[hn]);
                }
            } else {
                assert(self.queues@[hu as int]@[old_q.len() as int] == node);
            }
        }
        assert forall|h: int| 0 <= h < self.queues@.len() implies (#[trigger] self.queues@[h]@).no_duplicates() by {
            if h == hu as int {
                assert(old(self).queues@[h]@.no_duplicates());
            } else {
                assert(self.queues@[h] == old(self).queues@[h]);
            }
        }
    }

    /// Take `node`, queued at `height`, out of its bucket.
    fn unlink(&mut self, node: usize, height: i32)
        requires
            old(self).wf(),
            old(self)@.contains_key(node),
            old(self)@[node] == height,
        ensures
            final(self).queues@.len() == old(self).queues@.len(),
            final(self).height_lower_bound == old(self).height_lower_bound,
            final(self).length == old(self).length,
            final(self).heights@ == old(self).heights@.remove(node),
            final(self).heights@.dom().len() + 1 == old(self).length,
            final(self).queues@.len() <= i32::MAX,
            final(self).heights@.dom().finite(),
            final(self).height_lower_bound >= 0,
            forall|h: int, i: int|
                0 <= h < final(self).queues@.len() && 0 <= i < final(self).queues@[h]@.len() ==> {
                    &&& final(self).heights@.contains_key(#[trigger] final(self).queues@[h]@[i])
                    &&& final(self).heights@[final(self).queues@[h]@[i]] == h
                },
            forall|n: usize| #[trigger]
                final(self).heights@.contains_key(n) ==> {
                    &&& 0 <= final(self).heights@[n] < final(self).queues@.len()
                    &&& final(self).queues@[final(self).heights@[n]]@.contains(n)
                    &&& final(self).height_lower_bound <= final(self).heights@[n]
                },
            forall|h: int|
                0 <= h < final(self).queues@.len() ==> (#[trigger] final(self).queues@[h]@).no_duplicates(),
    {
        let hu = height as usize;
        let mut q: Vec<usize> = Vec::new();
        self.queues.set_and_swap(hu, &mut q);
        let ghost old_q = q@;
        assert(old_q == old(self).queues@[hu as int]@);
        assert(old_q.contains(node));
        let ghost k = choose|k: int| 0 <= k < old_q.len() && old_q[k] == node;
        let mut idx: usize = 0;
        while q[idx] != node
            invariant
                q@ == old_q,
                0 <= k < old_q.len(),
                old_q[k] == node,
                idx <= k,
            decreases k - idx,
        {
            assert(idx < k);
            assert(k < q.len());
            idx = idx + 1;
        }
        assert(idx == k) by {
            assert(old(self).queues@[hu as int]@.no_duplicates());
        }
        let _removed = q.swap_remove(idx);
        let ghost new_q = q@;
        assert(new_q == old_q.update(idx as int, old_q.last()).drop_last());
        self.queues.set_and_swap(hu, &mut q);
        self.heights = Ghost(self.heights@.remove(node));
        assert(self.queues@[hu as int]@ == new_q);
        assert(old(self).queues@[hu as int]@.no_duplicates());
        // Every element of the new bucket is an old element other than `node`.
        assert forall|i: int| 0 <= i < new_q.len() implies #[trigger] new_q[i] != node && old_q.contains(new_q[i]) by {
            if i == idx as int {
                assert(new_q[i] == old_q[old_q.len() - 1]);
            } else {
                assert(new_q[i] == old_q[i]);
            }
        }
        assert forall|h: int, i: int|
            0 <= h < self.queues@.len() && 0 <= i < self.queues@[h]@.len() implies {
                &&& self.heights@.contains_key(#[trigger] self.queues@[h]@[i])
                &&& self.heights@[self.queues@[h]@[i]] == h
            } by {
            if h != hu as int {
                assert(self.queues@[h] == old(self).queues@[h]);
                assert(old(self).heights@.contains_key(old(self).queues@[h]@[i]));
                assert(old(self).queues@[h]@[i] != node) by {
                    assert(old(self).heights@[node] == hu as int);
                }
            } else {
                assert(new_q[i] != node && old_q.contains(new_q[i]));
                let j = choose|j: int| 0 <= j < old_q.len() && old_q[j] == new_q[i];
                assert(old(self).queues@[h]@[j] == new_q[i]);
            }
        }
        assert forall|n: usize| #[trigger]
            self.heights@.contains_key(n) implies {
                &&& 0 <= self.heights@[n] < self.queues@.len()
                &&& self.queues@[self.heights@[n]]@.contains(n)
                &&& self.height_lower_bound <= self.heights@[n]
            } by {
            assert(old(self).heights@.contains_key(n));
            let hn = old(self).heights@[n];
            if hn == hu as int {
                let j = choose|j: int| 0 <= j < old_q.len() && old_q[j] == n;
                assert(j != idx as int);
                if j == old_q.len() - 1 {
                    assert(new_q[idx as int] == n);
                } else {
                    assert(new_q[j] == n);
                }
            } else {
                assert(self.queues@[hn] == old(self).queues@[hn]);
            }
        }
        assert forall|h: int| 0 <= h < self.queues@.len() implies (#[trigger] self.queues@[h]@).no_duplicates() by {
            if h == hu as int {
                assert forall|i: int, j: int| 0 <= i < j < new_q.len() implies new_q[i] != new_q[j] by {
                    if i == idx as int {
                        assert(new_q[i] == old_q[old_q.len() - 1]);
                        assert(new_q[j] == old_q[j]);
                    } else if j == idx as int {
                        assert(new_q[j] == old_q[old_q.len() - 1]);
                        assert(new_q[i] == old_q[i]);
                    } else {
                        assert(new_q[i] == old_q[i]);
                        assert(new_q[j] == old_q[j]);
                    }
                }
            } else {
                assert(self.queues@[h] == old(self).queues@[h]);
            }
        }
    }

    /// Take `node`, queued at `height`, out of the heap.
    pub fn remove(&mut self, node: usize, height: i32)
        requires
            old(self).wf(),
            old(self)@.contains_key(node),
            old(self)@[node] == height,
        ensures
            final(self).wf(),
            final(self)@ == old(self)@.remove(node),
            final(self).max_allowed() == old(self).max_allowed(),
            final(self).lower_bound() == old(self).lower_bound(),
    {
        self.unlink(node, height);
        self.length = self.length - 1;
    }

    /// Move `node` from `old_height` to the greater `new_height`.
    pub fn increase_height(&mut self, node: usize, old_height: i32, new_height: i32)
        requires
            old(self).wf(),
            old(self)@.contains_key(node),
            old(self)@[node] == old_height,
            old_height < new_height <= old(self).max_allowed(),
        ensures
            final(self).wf(),
            final(self)@ == old(self)@.insert(node, new_height as int),
            final(self).max_allowed() == old(self).max_allowed(),
            final(self).lower_bound() == old(self).lower_bound(),
    {
        self.unlink(node, old_height);
        self.length = self.length - 1;
        self.link(node, new_height);
        self.length = self.length + 1;
        assert(self.heights@ =~= old(self).heights@.insert(node, new_height as int));
    }

    /// The height below which no node is queued. Nodes taken out with
    /// [`Self::remove_min_layer`] still count: the bound only moves up when asked to.
    pub fn min_height(&self) -> (r: i32)
        requires
            self.wf(),
        ensures
            r == self.lower_bound(),
            forall|n: usize| #[trigger] self@.contains_key(n) ==> r <= self@[n],
    {
        self.height_lower_bound
    }

    /// Move the lower bound up to the lowest non-empty bucket (or past the last bucket
    /// when the heap is empty).
    pub fn raise_min_height(&mut self)
        requires
            old(self).wf(),
        ensures
            final(self).wf(),
            final(self)@ == old(self)@,
            final(self).max_allowed() == old(self).max_allowed(),
            old(self)@.len() == 0 ==> final(self).lower_bound() == old(self).max_allowed() + 1,
            old(self)@.len() > 0 ==> {
                &&& final(self).lower_bound() >= old(self).lower_bound()
                &&& exists|n: usize| #[trigger]
                    final(self)@.contains_key(n) && final(self)@[n] == final(self).lower_bound()
            },
    {
        let max = self.queues.len() as i32;
        if self.length == 0 {
            self.height_lower_bound = max;
            return;
        }
        let ghost n0 = self.heights@.dom().choose();
        proof {
            assert(self.heights@.dom().len() > 0);
            assert(self.heights@.dom().contains(n0));
        }
        while (self.height_lower_bound as usize) < self.queues.len()
            && self.queues[self.height_lower_bound as usize].len() == 0
            invariant
                self.wf(),
                self@ == old(self)@,
                self.queues@.len() == old(self).queues@.len(),
                self.height_lower_bound >= old(self).height_lower_bound,
                self.heights@.contains_key(n0),
            decreases self.heights@[n0] - self.height_lower_bound,
        {
            let h = self.height_lower_bound;
            assert forall|n: usize| #[trigger] self.heights@.contains_key(n) implies h + 1 <= self.heights@[n] by {
                if self.heights@[n] == h {
                    assert(self.queues@[h as int]@.contains(n));
                }
            }
            self.height_lower_bound = h + 1;
        }
        let h = self.height_lower_bound;
        assert(self.heights@[n0] < self.queues@.len());
        assert((h as usize) < self.queues@.len());
        let ghost q = self.queues@[h as int]@;
        assert(q.len() > 0);
        assert(self.heights@.contains_key(q[0]));
    }

    /// Take out every node of the lowest non-empty bucket, or `None` when the heap is
    /// empty. The lower bound moves to that bucket's height.
    pub fn remove_min_layer(&mut self) -> (r: Option<Vec<usize>>)
        requires
            old(self).wf(),
        ensures
            final(self).wf(),
            final(self).max_allowed() == old(self).max_allowed(),
            r is None <==> old(self)@.len() == 0,
            r is None ==> final(self)@ == old(self)@ && final(self).lower_bound() == old(self).lower_bound(),
            r matches Some(layer) ==> {
                let h = final(self).lower_bound();
                &&& layer@.len() > 0
                &&& layer@.no_duplicates()
                &&& h >= old(self).lower_bound()
                &&& forall|n: usize| #[trigger] old(self)@.contains_key(n) ==> h <= old(self)@[n]
                &&& forall|n: usize|
                    #[trigger] layer@.contains(n) <==> (old(self)@.contains_key(n) && old(self)@[n] == h)
                &&& final(self)@ == old(self)@.remove_keys(layer@.to_set())
                &&& forall|n: usize| #[trigger] final(self)@.contains_key(n) ==> h < final(self)@[n]
            },
    {
        if self.length == 0 {
            return None;
        }
        let ghost n0 = self.heights@.dom().choose();
        proof {
            assert(self.heights@.dom().len() > 0);
            assert(self.heights@.dom().contains(n0));
        }
        while self.queues[self.height_lower_bound as usize].len() == 0
            invariant
                self.wf(),
                self@ == old(self)@,
                self.queues@ == old(self).queues@,
                self.length == old(self).length,
                self.height_lower_bound >= old(self).height_lower_bound,
                self.heights@.contains_key(n0),
            decreases self.heights@[n0] - self.height_lower_bound,
        {
            let h = self.height_lower_bound;
            assert forall|n: usize| #[trigger] self.heights@.contains_key(n) implies h + 1 <= self.heights@[n] by {
                if self.heights@[n] == h {
                    assert(self.queues@[h as int]@.contains(n));
                }
            }
            self.height_lower_bound = h + 1;
        }
        let h = self.height_lower_bound;
        let hu = h as usize;
        let mut layer: Vec<usize> = Vec::new();
        self.queues.set_and_swap(hu, &mut layer);
        let ghost lset = layer@.to_set();
        let ghost old_heights = self.heights@;
        assert(layer@ == old(self).queues@[h as int]@);
        assert(layer@.no_duplicates());
        assert forall|n: usize| #[trigger] layer@.contains(n) <==> (old_heights.contains_key(n) && old_heights[n] == h) by {
            if layer@.contains(n) {
                let i = choose|i: int| 0 <= i < layer@.len() && layer@[i] == n;
                assert(old(self).queues@[h as int]@[i] == n);
            }
        }
        proof {
            layer@.unique_seq_to_set();
            assert(lset.subset_of(old_heights.dom()));
            assert(old_heights.dom().intersect(lset) =~= lset);
            lemma_set_difference_len(old_heights.dom(), lset);
        }
        self.heights = Ghost(old_heights.remove_keys(lset));
        assert(self.heights@.dom() =~= old_heights.dom().difference(lset));
        self.length = self.length - layer.len();
        assert forall|h2: int, i: int|
            0 <= h2 < self.queues@.len() && 0 <= i < self.queues@[h2]@.len() implies {
                &&& self.heights@.contains_key(#[trigger] self.queues@[h2]@[i])
                &&& self.heights@[self.queues@[h2]@[i]] == h2
            } by {
            assert(h2 != h as int);
            assert(self.queues@[h2] == old(self).queues@[h2]);
            let n = self.queues@[h2]@[i];
            assert(old_heights.contains_key(n) && old_heights[n] == h2);
            assert(!lset.contains(n));
        }
        assert forall|n: usize| #[trigger]
            self.heights@.contains_key(n) implies {
                &&& 0 <= self.heights@[n] < self.queues@.len()
                &&& self.queues@[self.heights@[n]]@.contains(n)
                &&& self.height_lower_bound <= self.heights@[n]
            } by {
            assert(old_heights.contains_key(n));
            assert(!lset.contains(n));
            assert(old_heights[n] != h);
            assert(self.queues@[old_heights[n]] == old(self).queues@[old_heights[n]]);
        }
        assert forall|h2: int| 0 <= h2 < self.queues@.len() implies (#[trigger] self.queues@[h2]@).no_duplicates() by {
            if h2 != h as int {
                assert(self.queues@[h2] == old(self).queues@[h2]);
            }
        }
        assert forall|n: usize| #[trigger] self@.contains_key(n) implies h < self@[n] by {
            assert(old_heights.contains_key(n));
            assert(!lset.contains(n));
        }
        Some(layer)
    }

    /// Change the number of buckets to `new_max_height`, so that the greatest height
    /// allowed becomes `new_max_height - 1`. No queued node may be at a height that
    /// would be cut off.
    pub fn set_max_height_allowed(&mut self, new_max_height: usize)
        requires
            old(self).wf(),
            new_max_height <= i32::MAX - 1,
            forall|n: usize| #[trigger] old(self)@.contains_key(n) ==> old(self)@[n] < new_max_height,
        ensures
            final(self).wf(),
            final(self)@ == old(self)@,
            final(self).max_allowed() == new_max_height - 1,
            final(self).lower_bound() == if old(self).lower_bound() < new_max_height + 1 {
                old(self).lower_bound()
            } else {
                new_max_height + 1
            },
    {
        if new_max_height <= self.queues.len() {
            self.queues.truncate(new_max_height);
            assert forall|h: int| 0 <= h < self.queues@.len() implies #[trigger] self.queues@[h] == old(self).queues@[h] by {}
        } else {
            let ghost old_len = self.queues@.len();
            while self.queues.len() < new_max_height
                invariant
                    old_len <= self.queues@.len() <= new_max_height,
                    forall|h: int| 0 <= h < old_len ==> #[trigger] self.queues@[h] == old(self).queues@[h],
                    forall|h: int| old_len <= h < self.queues@.len() ==> (#[trigger] self.queues@[h]@).len() == 0,
                    old_len == old(self).queues@.len(),
                    self.heights == old(self).heights,
                    self.length == old(self).length,
                    self.height_lower_bound == old(self).height_lower_bound,
                decreases new_max_height - self.queues@.len(),
            {
                self.queues.push(Vec::new());
            }
        }
        assert(forall|h: int| 0 <= h < self.queues@.len() && h < old(self).queues@.len() ==> #[trigger] self.queues@[h] == old(self).queues@[h]);
        let len = self.queues.len() as i32;
        if len + 1 < self.height_lower_bound {
            self.height_lower_bound = len + 1;
        }
        assert forall|h: int, i: int|
            0 <= h < self.queues@.len() && 0 <= i < self.queues@[h]@.len() implies {
                &&& self.heights@.contains_key(#[trigger] self.queues@[h]@[i])
                &&& self.heights@[self.queues@[h]@[i]] == h
            } by {
            if h < old(self).queues@.len() {
                assert(self.queues@[h] == old(self).queues@[h]);
                assert(old(self).heights@.contains_key(old(self).queues@[h]@[i]));
            } else {
                assert(self.queues@[h]@.len() == 0);
            }
        }
        assert forall|n: usize| #[trigger]
            self.heights@.contains_key(n) implies {
                &&& 0 <= self.heights@[n] < self.queues@.len()
                &&& self.queues@[self.heights@[n]]@.contains(n)
                &&& self.height_lower_bound <= self.heights@[n]
            } by {
            let hn = self.heights@[n];
            assert(old(self).heights@.contains_key(n));
            assert(0 <= hn < old(self).queues@.len());
            assert(old(self)@.contains_key(n));
            assert(hn < new_max_height);
            assert(hn < self.queues@.len());
            assert(self.queues@[hn] == old(self).queues@[hn]);
        }
        assert forall|h: int| 0 <= h < self.queues@.len() implies (#[trigger] self.queues@[h]@).no_duplicates() by {
            if h < old(self).queues@.len() {
                assert(self.queues@[h] == old(self).queues@[h]);
            } else {
                assert(self.queues@[h]@.len() == 0);
            }
        }
    }
}

} // verus!
