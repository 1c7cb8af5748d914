use vstd::prelude::*;

verus! {

/// Every node points at a node, and a node that points at another has the
/// smaller rank of the two.
pub open spec fn linked(parent: Seq<i32>, rank: Seq<i32>) -> bool {
    &&& parent.len() == rank.len()
    &&& forall|i: int| 0 <= i < parent.len() ==> 0 <= #[trigger] parent[i] < parent.len()
    &&& forall|i: int|
        0 <= i < parent.len() && #[trigger] parent[i] != i ==> rank[i] < rank[parent[i] as int]
}

/// The node that the chain of parents from `i` ends in.
pub open spec fn root_from(parent: Seq<i32>, rank: Seq<i32>, i: int) -> int
    decreases i32::MAX - rank[i],
    when linked(parent, rank) && 0 <= i < parent.len()
{
    if parent[i] == i {
        i
    } else {
        root_from(parent, rank, parent[i] as int)
    }
}

/// Some node has rank `k`.
pub open spec fn has_rank(rank: Seq<i32>, k: int) -> bool {
    exists|j: int| 0 <= j < rank.len() && rank[j] == k
}

/// The ranks in use have no gap: below each rank every rank down to 0 is
/// in use.
pub open spec fn gapless(rank: Seq<i32>) -> bool {
    &&& forall|j: int| 0 <= j < rank.len() ==> #[trigger] rank[j] >= 0
    &&& forall|k: int| k >= 1 && #[trigger] has_rank(rank, k) ==> has_rank(rank, k - 1)
}

/// The chain from a node ends in a node that points at itself, of a rank no
/// smaller, and the node's parent has the same end.
pub proof fn lemma_root(parent: Seq<i32>, rank: Seq<i32>, i: int)
    requires
        linked(parent, rank),
        0 <= i < parent.len(),
    ensures
        0 <= root_from(parent, rank, i) < parent.len(),
        parent[root_from(parent, rank, i)] == root_from(parent, rank, i),
        rank[i] <= rank[root_from(parent, rank, i)],
        parent[i] != i ==> rank[i] < rank[root_from(parent, rank, i)],
        root_from(parent, rank, parent[i] as int) == root_from(parent, rank, i),
    decreases i32::MAX - rank[i],
{
    if parent[i] != i {
        lemma_root(parent, rank, parent[i] as int);
    }
}

/// The end of a chain depends on the parents alone.
pub proof fn lemma_root_any_rank(parent: Seq<i32>, rank: Seq<i32>, other: Seq<i32>, i: int)
    requires
        linked(parent, rank),
        linked(parent, other),
        0 <= i < parent.len(),
    ensures
        root_from(parent, rank, i) == root_from(parent, other, i),
    decreases i32::MAX - rank[i],
{
    if parent[i] != i {
        lemma_root_any_rank(parent, rank, other, parent[i] as int);
    }
}

/// Pointing a node straight at the end of its chain moves no chain's end.
pub proof fn lemma_compress(parent: Seq<i32>, rank: Seq<i32>, k: int, i: int)
    requires
        linked(parent, rank),
        0 <= k < parent.len(),
        0 <= i < parent.len(),
    ensures
        linked(parent.update(k, root_from(parent, rank, k) as i32), rank),
        root_from(parent.update(k, root_from(parent, rank, k) as i32), rank, i) == root_from(
            parent,
            rank,
            i,
        ),
    decreases i32::MAX - rank[i],
{
    let top = root_from(parent, rank, k);
    let after = parent.update(k, top as i32);
    lemma_root(parent, rank, k);
    assert(linked(after, rank));
    if after[i] != i {
        lemma_compress(parent, rank, k, after[i] as int);
        if i == k {
            lemma_root(parent, rank, k);
            assert(root_from(parent, rank, top) == top);
        } else {
            lemma_root(parent, rank, i);
        }
    } else {
        if i == k {
            assert(top == k);
        }
    }
}

/// Pointing the end of one chain at the end of another of greater rank makes
/// the second the end of every chain that ended in the first.
pub proof fn lemma_link(parent: Seq<i32>, rank: Seq<i32>, low: int, high: int, i: int)
    requires
        linked(parent, rank),
        0 <= low < parent.len(),
        0 <= high < parent.len(),
        0 <= i < parent.len(),
        parent[low] == low,
        parent[high] == high,
        rank[low] < rank[high],
    ensures
        linked(parent.update(low, high as i32), rank),
        root_from(parent.update(low, high as i32), rank, i) == if root_from(parent, rank, i)
            == low {
            high
        } else {
            root_from(parent, rank, i)
        },
    decreases i32::MAX - rank[i],
{
    let after = parent.update(low, high as i32);
    assert(linked(after, rank));
    if i == low {
        assert(root_from(after, rank, high) == high);
    } else if parent[i] != i {
        lemma_link(parent, rank, low, high, parent[i] as int);
    }
}

/// Some entry of `s` is `k`.
pub open spec fn occurs(s: Seq<int>, k: int) -> bool {
    exists|j: int| 0 <= j < s.len() && s[j] == k
}

/// With ranks 0 to `m` all in use there are more than `m` nodes.
pub proof fn lemma_ranks_fit(rank: Seq<int>, m: int)
    requires
        forall|k: int| 0 <= k <= m ==> #[trigger] occurs(rank, k),
    ensures
        rank.len() > m,
    decreases rank.len(),
{
    if m >= 0 {
        assert(occurs(rank, m));
        let w = choose|j: int| 0 <= j < rank.len() && rank[j] == m;
        let rest = rank.remove(w);
        assert forall|k: int| 0 <= k <= m - 1 implies #[trigger] occurs(rest, k) by {
            assert(occurs(rank, k));
            let j = choose|j: int| 0 <= j < rank.len() && rank[j] == k;
            if j < w {
                assert(rest[j] == k);
            } else {
                assert(rest[j - 1] == k);
            }
        }
        lemma_ranks_fit(rest, m - 1);
    }
}

/// Gapless ranks stay below the number of nodes.
pub proof fn lemma_rank_bound(rank: Seq<i32>, i: int)
    requires
        gapless(rank),
        0 <= i < rank.len(),
    ensures
        rank[i] < rank.len(),
{
    let m = rank[i] as int;
    let wide = Seq::new(rank.len(), |j: int| rank[j] as int);
    assert(has_rank(rank, m));
    lemma_ranks_down(rank, m, 0);
    assert forall|k: int| 0 <= k <= m implies #[trigger] occurs(wide, k) by {
        assert(has_rank(rank, k));
        let j = choose|j: int| 0 <= j < rank.len() && rank[j] == k;
        assert(wide[j] == k);
    }
    lemma_ranks_fit(wide, m);
}

proof fn lemma_ranks_down(rank: Seq<i32>, m: int, k: int)
    requires
        gapless(rank),
        has_rank(rank, m),
        0 <= k <= m,
    ensures
        forall|x: int| k <= x <= m ==> has_rank(rank, x),
    decreases m - k,
{
    if k < m {
        lemma_ranks_down(rank, m, k + 1);
        assert(has_rank(rank, k + 1));
    }
}

/// The node `i` is passed on the way from `x` to the end of its chain, both
/// ends counted.
pub open spec fn on_path(parent: Seq<i32>, rank: Seq<i32>, x: int, i: int) -> bool
    decreases i32::MAX - rank[x],
    when linked(parent, rank) && 0 <= x < parent.len()
{
    i == x || (parent[x] != x && on_path(parent, rank, parent[x] as int, i))
}

/// The parents after the nodes on the way from `x` were pointed at the end
/// of the chain.
pub open spec fn compressed(parent: Seq<i32>, rank: Seq<i32>, x: int) -> Seq<i32> {
    Seq::new(
        parent.len(),
        |i: int|
            if on_path(parent, rank, x, i) {
                root_from(parent, rank, x) as i32
            } else {
                parent[i]
            },
    )
}

/// Pointing the nodes on the way from `x` at the end of the chain keeps the
/// forest in order and moves no chain's end.
pub proof fn lemma_compressed(parent: Seq<i32>, rank: Seq<i32>, x: int, i: int)
    requires
        linked(parent, rank),
        0 <= x < parent.len(),
        0 <= i < parent.len(),
    ensures
        linked(compressed(parent, rank, x), rank),
        root_from(compressed(parent, rank, x), rank, i) == root_from(parent, rank, i),
    decreases i32::MAX - rank[i],
{
    let top = root_from(parent, rank, x);
    let after = compressed(parent, rank, x);
    lemma_root(parent, rank, x);
    assert forall|j: int| 0 <= j < parent.len() implies (0 <= #[trigger] after[j] < parent.len())
        && (after[j] != j ==> rank[j] < rank[after[j] as int]) by {
        lemma_root(parent, rank, j);
        if on_path(parent, rank, x, j) {
            lemma_path_root(parent, rank, x, j);
        }
    }
    assert(linked(after, rank));
    lemma_root(parent, rank, i);
    if on_path(parent, rank, x, i) {
        lemma_path_root(parent, rank, x, i);
        if after[i] != i {
            assert(after[top] == top) by {
                lemma_path_end(parent, rank, x);
            }
            assert(root_from(after, rank, top) == top);
        }
    } else if after[i] != i {
        lemma_compressed(parent, rank, x, after[i] as int);
    }
}

/// Every node on the way from `x` has the end of the chain of `x` for the end
/// of its own.
pub proof fn lemma_path_root(parent: Seq<i32>, rank: Seq<i32>, x: int, i: int)
    requires
        linked(parent, rank),
        0 <= x < parent.len(),
        on_path(parent, rank, x, i),
    ensures
        0 <= i < parent.len(),
        root_from(parent, rank, i) == root_from(parent, rank, x),
    decreases i32::MAX - rank[x],
{
    if i != x {
        lemma_path_root(parent, rank, parent[x] as int, i);
    }
}

/// The end of the chain of `x` is on the way from `x`.
pub proof fn lemma_path_end(parent: Seq<i32>, rank: Seq<i32>, x: int)
    requires
        linked(parent, rank),
        0 <= x < parent.len(),
    ensures
        on_path(parent, rank, x, root_from(parent, rank, x)),
    decreases i32::MAX - rank[x],
{
    if parent[x] != x {
        lemma_path_end(parent, rank, parent[x] as int);
    }
}

/// Disjoint sets over the nodes `0..size`, as a forest with union by rank.
#[derive(Debug)]
pub struct Disjoint {
    size: i32,
    parent: Vec<i32>,
    rank: Vec<i32>,
}

impl Disjoint {
    /// The number of nodes.
    pub closed spec fn len(&self) -> int {
        self.size as int
    }

    /// The parent of each node; a node that stands for its set is its own.
    pub closed spec fn parents(&self) -> Seq<i32> {
        self.parent@
    }

    /// The rank of each node.
    pub closed spec fn ranks(&self) -> Seq<i32> {
        self.rank@
    }

    /// The forest is well formed: every node has a parent of greater rank or
    /// is its own, and the ranks in use have no gap.
    pub open spec fn wf(&self) -> bool {
        &&& self.len() >= 0
        &&& self.parents().len() == self.len()
        &&& linked(self.parents(), self.ranks())
        &&& gapless(self.ranks())
    }

    /// The node that stands for the set of `x`.
    pub open spec fn root(&self, x: int) -> int {
        root_from(self.parents(), self.ranks(), x)
    }

    /// The node that stands for a set stands for itself.
    pub proof fn lemma_root_stands(&self, x: int)
        requires
            self.wf(),
            0 <= x < self.len(),
        ensures
            0 <= self.root(x) < self.len(),
            self.parents()[self.root(x)] == self.root(x),
            self.root(self.root(x)) == self.root(x),
    {
        lemma_root(self.parents(), self.ranks(), x);
        lemma_root(self.parents(), self.ranks(), self.root(x));
    }

    /// Every rank is below the number of nodes.
    pub proof fn lemma_rank_below_len(&self, x: int)
        requires
            self.wf(),
            0 <= x < self.len(),
        ensures
            0 <= self.ranks()[x] < self.len(),
    {
        lemma_rank_bound(self.ranks(), x);
    }

    /// `size` nodes, each a set of its own, of rank 0.
    pub fn new(size: i32) -> (set: Disjoint)
        requires
            size >= 0,
        ensures
            set.wf(),
            set.len() == size,
            set.parents().len() == size,
            set.ranks().len() == size,
            forall|x: int| 0 <= x < size ==> #[trigger] set.parents()[x] == x,
            forall|x: int| 0 <= x < size ==> #[trigger] set.ranks()[x] == 0,
            forall|x: int| 0 <= x < size ==> set.root(x) == x,
    {
        let mut parent: Vec<i32> = Vec::new();
        let mut rank: Vec<i32> = Vec::new();
        let mut i: i32 = 0;
        while i < size
            invariant
                0 <= i <= size,
                parent@.len() == i,
                rank@.len() == i,
                forall|k: int| 0 <= k < i ==> #[trigger] parent@[k] == k,
                forall|k: int| 0 <= k < i ==> #[trigger] rank@[k] == 0,
            decreases size - i,
        {
            parent.push(i);
            rank.push(0);
            i = i + 1;
        }
        proof {
            assert forall|k: int| k >= 1 && #[trigger] has_rank(rank@, k) implies has_rank(
                rank@,
                k - 1,
            ) by {}
        }
        Disjoint { size, parent, rank }
    }

    /// The node that stands for the set of `x`. The nodes passed on the way
    /// point at it afterwards; no set and no rank changes.
    pub fn find(&mut self, x: i32) -> (top: i32)
        requires
            old(self).wf(),
            0 <= x < old(self).len(),
        ensures
            final(self).wf(),
            final(self).len() == old(self).len(),
            final(self).ranks() == old(self).ranks(),
            final(self).parents() == compressed(old(self).parents(), old(self).ranks(), x as int),
            0 <= top < old(self).len(),
            top == old(self).root(x as int),
            final(self).root(top as int) == top,
            forall|i: int| 0 <= i < old(self).len() ==> final(self).root(i) == old(self).root(i),
    {
        let mut y: usize = x as usize;
        let mut path: Vec<usize> = Vec::new();
        let ghost first = self.parent@;
        let ghost ranks = self.rank@;
        proof {
            lemma_root(first, ranks, x as int);
        }
        while self.parent[y] as usize != y
            invariant
                self.wf(),
                *self == *old(self),
                first == self.parent@,
                ranks == self.rank@,
                0 <= y < self.size,
                0 <= x < self.size,
                root_from(first, ranks, y as int) == root_from(first, ranks, x as int),
                forall|k: int| 0 <= k < path@.len() ==> 0 <= #[trigger] path@[k] < self.size,
                forall|i: int|
                    on_path(first, ranks, x as int, i) <==> path@.contains(i as usize) && 0 <= i
                        < self.size || on_path(first, ranks, y as int, i),
            decreases i32::MAX - self.rank@[y as int],
        {
            let ghost before = path@;
            let ghost at = y;
            proof {
                lemma_root(first, ranks, y as int);
            }
            path.push(y);
            y = self.parent[y] as usize;
            proof {
                assert forall|i: int|
                    on_path(first, ranks, x as int, i) <==> path@.contains(i as usize) && 0 <= i
                        < self.size || on_path(first, ranks, y as int, i) by {
                    if before.contains(i as usize) {
                        let k = choose|k: int| 0 <= k < before.len() && before[k] == i as usize;
                        assert(path@[k] == i as usize);
                    }
                    if path@.contains(i as usize) && 0 <= i < self.size {
                        let k = choose|k: int| 0 <= k < path@.len() && path@[k] == i as usize;
                        if k < before.len() {
                            assert(before[k] == i as usize);
                        } else {
                            assert(i == at);
                        }
                    }
                    if i == at {
                        assert(path@[path@.len() - 1] == at);
                    }
                }
            }
        }
        let ghost top = root_from(first, ranks, x as int);
        let mut k: usize = 0;
        proof {
            assert(top == y);
        }
        while k < path.len()
            invariant
                self.size == old(self).size,
                self.rank@ == ranks,
                ranks == old(self).rank@,
                first == old(self).parent@,
                old(self).wf(),
                self.parent@.len() == first.len(),
                0 <= y < self.size,
                y == top,
                k <= path@.len(),
                forall|j: int| 0 <= j < path@.len() ==> 0 <= #[trigger] path@[j] < self.size,
                forall|i: int|
                    0 <= i < self.size ==> #[trigger] self.parent@[i] == (if exists|j: int|
                        0 <= j < k && path@[j] == i as usize {
                        top as i32
                    } else {
                        first[i]
                    }),
            decreases path@.len() - k,
        {
            let node = path[k];
            let ghost prior = self.parent@;
            self.parent[node] = y as i32;
            proof {
                assert forall|i: int| 0 <= i < self.size implies #[trigger] self.parent@[i] == (
                if exists|j: int| 0 <= j < k + 1 && path@[j] == i as usize {
                    top as i32
                } else {
                    first[i]
                }) by {
                    if exists|j: int| 0 <= j < k && path@[j] == i as usize {
                        let j = choose|j: int| 0 <= j < k && path@[j] == i as usize;
                        assert(0 <= j < k + 1 && path@[j] == i as usize);
                    }
                    if i == node {
                        assert(0 <= k < k + 1 && path@[k as int] == i as usize);
                    }
                    if exists|j: int| 0 <= j < k + 1 && path@[j] == i as usize {
                        let j = choose|j: int| 0 <= j < k + 1 && path@[j] == i as usize;
                        if j < k {
                            assert(0 <= j < k && path@[j] == i as usize);
                        }
                    }
                }
            }
            k = k + 1;
        }
        proof {
            let want = compressed(first, ranks, x as int);
            lemma_root(first, ranks, x as int);
            assert forall|i: int| 0 <= i < self.size implies self.parent@[i] == want[i] by {
                if on_path(first, ranks, x as int, i) {
                    if path@.contains(i as usize) {
                        let j = choose|j: int| 0 <= j < path@.len() && path@[j] == i as usize;
                        assert(0 <= j < k && path@[j] == i as usize);
                    } else {
                        assert(on_path(first, ranks, y as int, i));
                        assert(i == y);
                    }
                } else {
                    if exists|j: int| 0 <= j < k && path@[j] == i as usize {
                        let j = choose|j: int| 0 <= j < k && path@[j] == i as usize;
                        assert(path@.contains(i as usize));
                    }
                }
            }
            assert(self.parent@ =~= want);
            lemma_compressed(first, ranks, x as int, 0);
            assert forall|i: int| 0 <= i < self.size implies self.root(i) == old(self).root(i) by {
                lemma_compressed(first, ranks, x as int, i);
            }
            lemma_path_end(first, ranks, x as int);
            lemma_compressed(first, ranks, x as int, top);
            lemma_root(first, ranks, top);
        }
        self.parent[x as usize]
    }

    /// The node that stands for the set of `i` once the sets of `x` and `y`
    /// are joined: of the two nodes that stood for them the one of greater
    /// rank, and the one of `x` where the ranks are equal.
    pub open spec fn joined_root(&self, x: int, y: int, i: int) -> int {
        let a = self.root(x);
        let b = self.root(y);
        if a == b {
            self.root(i)
        } else if self.ranks()[a] < self.ranks()[b] {
            if self.root(i) == a {
                b
            } else {
                self.root(i)
            }
        } else {
            if self.root(i) == b {
                a
            } else {
                self.root(i)
            }
        }
    }

    /// The ranks once the sets of `x` and `y` are joined: where two sets of
    /// equal rank are joined, the node that stood for `x` has a rank greater
    /// by one; else the ranks are what they were.
    pub open spec fn joined_ranks(&self, x: int, y: int) -> Seq<i32> {
        let a = self.root(x);
        let b = self.root(y);
        if a != b && self.ranks()[a] == self.ranks()[b] {
            self.ranks().update(a, (self.ranks()[a] + 1) as i32)
        } else {
            self.ranks()
        }
    }

    /// The parents once the sets of `x` and `y` are joined: the nodes on the
    /// way from `x` and then those on the way from `y` point at the ends of
    /// their chains, and of the two ends the one of smaller rank points at
    /// the other, the one of `y` where the ranks are equal.
    pub open spec fn joined_parents(&self, x: int, y: int) -> Seq<i32> {
        let a = self.root(x);
        let b = self.root(y);
        let once = compressed(self.parents(), self.ranks(), x);
        let twice = compressed(once, self.ranks(), y);
        if a == b {
            twice
        } else if self.ranks()[a] < self.ranks()[b] {
            twice.update(a, b as i32)
        } else {
            twice.update(b, a as i32)
        }
    }

    /// Joins the sets of `x` and `y`: the node that stands for the one of
    /// smaller rank comes to point at the other, and at the node for `x` where
    /// the ranks are equal; then the rank of that node grows by one.
    pub fn union(&mut self, x: i32, y: i32)
        requires
            old(self).wf(),
            0 <= x < old(self).len(),
            0 <= y < old(self).len(),
        ensures
            final(self).wf(),
            final(self).len() == old(self).len(),
            final(self).ranks() == old(self).joined_ranks(x as int, y as int),
            final(self).parents() == old(self).joined_parents(x as int, y as int),
            forall|i: int|
                0 <= i < old(self).len() ==> final(self).root(i) == old(self).joined_root(
                    x as int,
                    y as int,
                    i,
                ),
    {
        let x_root = self.find(x) as usize;
        let y_root = self.find(y) as usize;
        if x_root == y_root {
            return ;
        }
        let ghost before = *self;
        proof {
            lemma_root(before.parent@, before.rank@, x as int);
            lemma_root(before.parent@, before.rank@, y as int);
            assert(before.root(x as int) == x_root);
            assert(before.root(y as int) == y_root);
        }
        if self.rank[x_root] < self.rank[y_root] {
            self.parent[x_root] = y_root as i32;
            proof {
                assert forall|i: int| 0 <= i < self.size implies self.root(i) == if before.root(i)
                    == x_root {
                    y_root as int
                } else {
                    before.root(i)
                } by {
                    lemma_link(before.parent@, before.rank@, x_root as int, y_root as int, i);
                }
                lemma_link(before.parent@, before.rank@, x_root as int, y_root as int, 0);
            }
        } else if self.rank[x_root] > self.rank[y_root] {
            self.parent[y_root] = x_root as i32;
            proof {
                assert forall|i: int| 0 <= i < self.size implies self.root(i) == if before.root(i)
                    == y_root {
                    x_root as int
                } else {
                    before.root(i)
                } by {
                    lemma_link(before.parent@, before.rank@, y_root as int, x_root as int, i);
                }
                lemma_link(before.parent@, before.rank@, y_root as int, x_root as int, 0);
            }
        } else {
            proof {
                lemma_rank_bound(before.rank@, x_root as int);
            }
            let ghost raised = before.rank@.update(
                x_root as int,
                (before.rank@[x_root as int] + 1) as i32,
            );
            self.parent[y_root] = x_root as i32;
            self.rank[x_root] = self.rank[x_root] + 1;
            proof {
                assert(self.rank@ == raised);
                assert(linked(before.parent@, raised));
                assert forall|i: int| 0 <= i < self.size implies self.root(i) == if before.root(i)
                    == y_root {
                    x_root as int
                } else {
                    before.root(i)
                } by {
                    lemma_root_any_rank(before.parent@, before.rank@, raised, i);
                    lemma_link(before.parent@, raised, y_root as int, x_root as int, i);
                }
                lemma_link(before.parent@, raised, y_root as int, x_root as int, 0);
                let r = before.rank@[x_root as int] as int;
                assert forall|k: int| has_rank(before.rank@, k) implies has_rank(raised, k) by {
                    let j = choose|j: int| 0 <= j < before.rank@.len() && before.rank@[j] == k;
                    if j == x_root {
                        assert(raised[y_root as int] == k);
                    } else {
                        assert(raised[j] == k);
                    }
                }
                assert forall|k: int| k >= 1 && #[trigger] has_rank(raised, k) implies has_rank(
                    raised,
                    k - 1,
                ) by {
                    let j = choose|j: int| 0 <= j < raised.len() && raised[j] == k;
                    if j == x_root {
                        assert(before.rank@[y_root as int] == k - 1);
                        assert(has_rank(before.rank@, k - 1));
                    } else {
                        assert(before.rank@[j] == k);
                        assert(has_rank(before.rank@, k));
                        assert(has_rank(before.rank@, k - 1));
                    }
                }
            }
        }
    }
}

} // verus!
