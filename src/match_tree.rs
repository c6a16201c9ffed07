//! Longest-prior-match search over the sliding window: a binary search tree
//! whose nodes are window slots, ordered by the bytes that follow each
//! slot's input position.
use vstd::prelude::*;
use crate::format::{LOOK_AHEAD, WINDOW_SIZE};

verus! {

/// Arena index of the sentinel whose `larger` link holds the top node.
pub const ROOT: usize = 4096;

/// Arena size: one node per window slot, plus the sentinel.
pub const NODE_COUNT: usize = 4097;

/// Link value meaning "no node".
pub const UNUSED: usize = 4098;

pub open spec fn link_ok(v: usize) -> bool {
    v < NODE_COUNT || v == UNUSED
}

pub open spec fn links_ok(v: Seq<usize>) -> bool {
    v.len() == NODE_COUNT && forall|i: int| 0 <= i < NODE_COUNT ==> link_ok(#[trigger] v[i])
}

/// Look-ahead for position `p`: as many bytes as a match can cover, or
/// as remain.
pub open spec fn look_limit(input: Seq<u8>, p: int) -> int {
    if input.len() - p < LOOK_AHEAD {
        input.len() - p
    } else {
        LOOK_AHEAD as int
    }
}

/// Number of equal bytes from `q` and from `p` on, counting from offset `i`
/// and stopping at `limit`.
pub open spec fn run_from(input: Seq<u8>, q: int, p: int, i: int, limit: int) -> int
    decreases limit - i,
{
    if i < limit && input[q + i] == input[p + i] {
        run_from(input, q, p, i + 1, limit)
    } else {
        i
    }
}

/// Length of the equal run between the bytes from `q` and those from `p`.
pub open spec fn run(input: Seq<u8>, q: int, p: int) -> int {
    run_from(input, q, p, 0, look_limit(input, p))
}

/// The tree is kept in parallel arrays indexed by node: structure only, the
/// bytes themselves are read from the input being compressed.
pub struct MatchTree {
    parent: Vec<usize>,
    smaller: Vec<usize>,
    larger: Vec<usize>,
    /// Input position that each window slot currently stands for.
    position: Vec<usize>,
}

fn set_link(v: &mut Vec<usize>, i: usize, val: usize)
    requires
        links_ok(old(v)@),
        i < NODE_COUNT,
        link_ok(val),
    ensures
        links_ok(final(v)@),
        final(v)@ == old(v)@.update(i as int, val),
{
    v.set(i, val);
    assert forall|j: int| 0 <= j < NODE_COUNT implies link_ok(#[trigger] v@[j]) by {
        if j != i {
            assert(v@[j] == old(v)@[j]);
        }
    }
}

impl MatchTree {
    /// Every link is a node of the arena or `UNUSED`.
    pub closed spec fn wf(&self) -> bool {
        links_ok(self.parent@) && links_ok(self.smaller@) && links_ok(self.larger@)
            && self.position@.len() == NODE_COUNT
    }

    /// Window slot `slot` is linked into the tree.
    pub closed spec fn in_tree(&self, slot: int) -> bool {
        self.parent@[slot] != UNUSED
    }

    /// The input position that window slot `slot` stands for.
    pub closed spec fn position_of(&self, slot: int) -> usize {
        self.position@[slot]
    }

    /// An empty tree.
    pub fn new() -> (t: MatchTree)
        ensures
            t.wf(),
            forall|slot: int| 0 <= slot < WINDOW_SIZE ==> !#[trigger] t.in_tree(slot),
    {
        let mut parent: Vec<usize> = Vec::new();
        let mut smaller: Vec<usize> = Vec::new();
        let mut larger: Vec<usize> = Vec::new();
        let mut position: Vec<usize> = Vec::new();
        let mut i: usize = 0;
        while i < NODE_COUNT
            invariant
                i <= NODE_COUNT,
                parent@.len() == i && smaller@.len() == i && larger@.len() == i,
                position@.len() == i,
                forall|j: int| 0 <= j < i ==> #[trigger] parent@[j] == UNUSED,
                forall|j: int| 0 <= j < i ==> #[trigger] smaller@[j] == UNUSED,
                forall|j: int| 0 <= j < i ==> #[trigger] larger@[j] == UNUSED,
            decreases NODE_COUNT - i,
        {
            parent.push(UNUSED);
            smaller.push(UNUSED);
            larger.push(UNUSED);
            position.push(0);
            i = i + 1;
        }
        MatchTree { parent, smaller, larger, position }
    }

    /// Node `x` has `y` as its smaller or its larger child.
    pub closed spec fn links_to(&self, x: int, y: usize) -> bool {
        self.smaller@[x] == y || self.larger@[x] == y
    }

    /// The node whose child `x` is, or `UNUSED`.
    pub closed spec fn parent_of(&self, x: int) -> usize {
        self.parent@[x]
    }

    /// Sets the parent of `x` to a node: no node leaves the tree.
    fn set_parent(&mut self, x: usize, par: usize)
        requires
            old(self).wf(),
            x < NODE_COUNT,
            par < NODE_COUNT,
        ensures
            final(self).wf(),
            final(self).parent@ == old(self).parent@.update(x as int, par),
            final(self).smaller@ == old(self).smaller@,
            final(self).larger@ == old(self).larger@,
            final(self).position@ == old(self).position@,
    {
        set_link(&mut self.parent, x, par);
    }

    /// Points whichever child link of `par` holds `from` at `to` instead.
    fn relink(&mut self, par: usize, from: usize, to: usize)
        requires
            old(self).wf(),
            par < NODE_COUNT,
            link_ok(to),
            to != from,
        ensures
            final(self).wf(),
            !final(self).links_to(par as int, from),
            final(self).parent@ == old(self).parent@,
            final(self).position@ == old(self).position@,
    {
        if self.smaller[par] == from {
            set_link(&mut self.smaller, par, to);
        }
        if self.larger[par] == from {
            set_link(&mut self.larger, par, to);
        }
    }

    /// Puts `new_node` at the place of `old_node`, children included, and
    /// detaches `old_node`.
    fn replace(&mut self, old_node: usize, new_node: usize)
        requires
            old(self).wf(),
            old_node < NODE_COUNT,
            new_node < NODE_COUNT,
            new_node != old_node,
        ensures
            final(self).wf(),
            !final(self).in_tree(old_node as int),
            old(self).in_tree(old_node as int) ==> final(self).in_tree(new_node as int),
            forall|s: int|
                0 <= s < NODE_COUNT && s != old_node && #[trigger] old(self).in_tree(s)
                    ==> final(self).in_tree(s),
            final(self).position@ == old(self).position@,
    {
        let par = self.parent[old_node];
        let sm = self.smaller[old_node];
        let lg = self.larger[old_node];
        set_link(&mut self.smaller, new_node, sm);
        set_link(&mut self.larger, new_node, lg);
        if sm != UNUSED {
            self.set_parent(sm, new_node);
        }
        if lg != UNUSED {
            self.set_parent(lg, new_node);
        }
        if par != UNUSED {
            self.set_parent(new_node, par);
            self.relink(par, old_node, new_node);
        }
        set_link(&mut self.parent, old_node, UNUSED);
    }

    /// Removes window slot `slot` from the tree, if it is in it: its place
    /// goes to its only child, or, where it has two, to its in-order
    /// successor. Every other node of the tree stays in it.
    pub fn delete(&mut self, slot: usize)
        requires
            old(self).wf(),
            slot < WINDOW_SIZE,
        ensures
            final(self).wf(),
            !final(self).in_tree(slot as int),
            forall|s: int|
                0 <= s < NODE_COUNT && s != slot && #[trigger] old(self).in_tree(s)
                    ==> final(self).in_tree(s),
            old(self).in_tree(slot as int) ==> !final(self).links_to(
                old(self).parent_of(slot as int) as int,
                slot,
            ),
            forall|s: int| 0 <= s < NODE_COUNT ==> #[trigger] final(self).position_of(s) == old(
                self,
            ).position_of(s),
    {
        let par = self.parent[slot];
        if par == UNUSED {
            return;
        }
        let sm = self.smaller[slot];
        let lg = self.larger[slot];
        let mut repl = UNUSED;
        if lg == UNUSED {
            repl = sm;
        } else if sm == UNUSED {
            repl = lg;
        } else {
            // The in-order successor: leftmost node of the larger subtree,
            // which has no smaller child.
            let mut prev = slot;
            let mut succ = lg;
            let mut steps: usize = 0;
            while steps < NODE_COUNT && self.smaller[succ] != UNUSED
                invariant
                    self.wf(),
                    succ < NODE_COUNT,
                    prev < NODE_COUNT,
                decreases NODE_COUNT - steps,
            {
                prev = succ;
                succ = self.smaller[succ];
                steps = steps + 1;
            }
            if succ != slot {
                // The successor's larger child takes the successor's place.
                let succ_larger = self.larger[succ];
                if succ_larger != UNUSED {
                    self.set_parent(succ_larger, prev);
                }
                if succ_larger != succ {
                    self.relink(prev, succ, succ_larger);
                }
                // The successor takes over the children of `slot`.
                let new_sm = self.smaller[slot];
                let new_lg = self.larger[slot];
                set_link(&mut self.smaller, succ, new_sm);
                set_link(&mut self.larger, succ, new_lg);
                if new_sm != UNUSED {
                    self.set_parent(new_sm, succ);
                }
                if new_lg != UNUSED {
                    self.set_parent(new_lg, succ);
                }
            }
            repl = succ;
        }
        if repl == slot {
            repl = UNUSED;
        }
        if repl != UNUSED {
            self.set_parent(repl, par);
        }
        self.relink(par, slot, repl);
        set_link(&mut self.parent, slot, UNUSED);
    }

    /// A node that the descent for position `p` may compare: a window slot
    /// other than `p`'s, standing for a position at most a window back.
    pub closed spec fn usable(&self, p: int, x: usize) -> bool {
        &&& x < WINDOW_SIZE
        &&& x != p % (WINDOW_SIZE as int)
        &&& self.position@[x as int] < p
        &&& p - self.position@[x as int] <= WINDOW_SIZE
    }

    /// Equal run between the bytes at node `x` and those at `p`.
    pub closed spec fn run_at(&self, input: Seq<u8>, p: int, x: usize) -> int {
        run(input, self.position@[x as int] as int, p)
    }

    /// The child of `x` on the way to `p`: smaller where `p`'s bytes compare
    /// below `x`'s, larger otherwise.
    pub closed spec fn next_of(&self, input: Seq<u8>, p: int, x: usize) -> usize {
        let q = self.position@[x as int] as int;
        let i = self.run_at(input, p, x);
        if i < look_limit(input, p) && input[p + i] < input[q + i] {
            self.smaller@[x as int]
        } else {
            self.larger@[x as int]
        }
    }

    /// The node the descent reaches after comparing the nodes of `path`.
    pub closed spec fn after(&self, input: Seq<u8>, p: int, path: Seq<usize>) -> usize {
        if path.len() == 0 {
            self.larger@[ROOT as int]
        } else {
            self.next_of(input, p, path.last())
        }
    }

    /// `path` is how a descent for `p` starts: from the top node, each step
    /// to the child the comparison picks, past no full-length match.
    pub closed spec fn descent(&self, input: Seq<u8>, p: int, path: Seq<usize>) -> bool {
        &&& forall|i: int| 0 <= i < path.len() ==> #[trigger] self.usable(p, path[i])
        &&& path.len() > 0 ==> path[0] == self.larger@[ROOT as int]
        &&& forall|i: int|
            0 <= i < path.len() - 1 ==> path[i + 1] == #[trigger] self.next_of(input, p, path[i])
        &&& forall|i: int|
            0 <= i < path.len() - 1 ==> #[trigger] self.run_at(input, p, path[i]) < LOOK_AHEAD
    }

    /// The descent `path` for `p` stops where it must: at a full-length
    /// match, at a missing child, at a node out of the window, or after as
    /// many steps as the arena has nodes.
    pub closed spec fn descent_ends(&self, input: Seq<u8>, p: int, path: Seq<usize>) -> bool {
        ||| path.len() >= NODE_COUNT
        ||| path.len() > 0 && self.run_at(input, p, path.last()) >= LOOK_AHEAD
        ||| self.after(input, p, path) == UNUSED
        ||| !self.usable(p, self.after(input, p, path))
    }

    /// What `insert` of `p` did, `self` before and `t` after, along the
    /// descent `path`: `r.0` is the longest run against its nodes and `r.1`
    /// the position of a node with that run; `p`'s slot hangs where the
    /// descent found no child, or in place of a node it fully matched; no
    /// other node of the tree leaves it.
    pub closed spec fn found(
        &self,
        t: MatchTree,
        input: Seq<u8>,
        p: int,
        r: (usize, usize),
        path: Seq<usize>,
    ) -> bool {
        let slot = p % (WINDOW_SIZE as int);
        let superseded = path.len() > 0 && self.run_at(input, p, path.last()) >= LOOK_AHEAD;
        &&& self.descent(input, p, path)
        &&& self.descent_ends(input, p, path)
        &&& forall|i: int|
            0 <= i < path.len() ==> #[trigger] self.run_at(input, p, path[i]) <= r.0
        &&& r.0 > 0 ==> exists|i: int|
            0 <= i < path.len() && #[trigger] self.run_at(input, p, path[i]) == r.0 && r.1
                == self.position@[path[i] as int]
        &&& path.len() < NODE_COUNT && !superseded && self.after(input, p, path) == UNUSED
            ==> t.in_tree(slot)
        &&& superseded && self.in_tree(path.last() as int) ==> t.in_tree(slot)
        &&& forall|s: int|
            0 <= s < NODE_COUNT && s != slot && #[trigger] self.in_tree(s) && !(superseded && s
                == path.last()) ==> t.in_tree(s)
    }

    /// Enters input position `p` into the tree at window slot `p % WINDOW_SIZE`,
    /// which must have been deleted first, and returns the longest match
    /// `(length, source)` found against the nodes on the way down.
    ///
    /// A node whose bytes agree with `p`'s over the full look-ahead is
    /// superseded by `p`.
    pub fn insert(&mut self, input: &[u8], p: usize) -> (r: (usize, usize))
        requires
            old(self).wf(),
            p < input@.len(),
            !old(self).in_tree((p % WINDOW_SIZE) as int),
        ensures
            final(self).wf(),
            final(self).position_of((p % WINDOW_SIZE) as int) == p,
            r.0 <= LOOK_AHEAD,
            p + r.0 <= input@.len(),
            r.0 > 0 ==> r.1 < p && p - r.1 <= WINDOW_SIZE,
            forall|k: int| 0 <= k < r.0 ==> input@[r.1 + k] == #[trigger] input@[p + k],
            exists|path: Seq<usize>| #[trigger]
                old(self).found(*final(self), input@, p as int, r, path),
    {
        let ghost t0: MatchTree = *self;
        let n = input.len();
        let slot = p % WINDOW_SIZE;
        set_link(&mut self.smaller, slot, UNUSED);
        set_link(&mut self.larger, slot, UNUSED);
        self.position.set(slot, p);
        let limit: usize = if input.len() - p < LOOK_AHEAD {
            input.len() - p
        } else {
            LOOK_AHEAD
        };
        let mut best_len: usize = 0;
        let mut best_src: usize = 0;
        let ghost mut path: Seq<usize> = Seq::empty();
        let mut node = self.larger[ROOT];
        if node == UNUSED {
            set_link(&mut self.larger, ROOT, slot);
            self.set_parent(slot, ROOT);
            assert(t0.found(*self, input@, p as int, (0, 0), path));
            return (0, 0);
        }
        let mut steps: usize = 0;
        while steps < NODE_COUNT
            invariant
                t0 == *old(self),
                self.wf(),
                t0.wf(),
                !t0.in_tree(slot as int),
                node < NODE_COUNT,
                node == t0.after(input@, p as int, path),
                steps == path.len(),
                steps <= NODE_COUNT,
                t0.descent(input@, p as int, path),
                path.len() > 0 ==> t0.run_at(input@, p as int, path.last()) < LOOK_AHEAD,
                self.smaller@ == t0.smaller@.update(slot as int, UNUSED),
                self.larger@ == t0.larger@.update(slot as int, UNUSED),
                self.parent@ == t0.parent@,
                self.position@ == t0.position@.update(slot as int, p),
                slot < WINDOW_SIZE,
                slot == p % WINDOW_SIZE,
                n == input@.len(),
                p < input@.len(),
                limit == look_limit(input@, p as int),
                limit <= LOOK_AHEAD,
                p + limit <= input@.len(),
                best_len <= limit,
                best_len > 0 ==> best_src < p && p - best_src <= WINDOW_SIZE,
                forall|k: int| 0 <= k < best_len ==> input@[best_src + k] == #[trigger] input@[p + k],
                forall|i: int|
                    0 <= i < path.len() ==> #[trigger] t0.run_at(input@, p as int, path[i]) <= best_len,
                best_len > 0 ==> exists|i: int|
                    0 <= i < path.len() && #[trigger] t0.run_at(input@, p as int, path[i]) == best_len
                        && best_src == t0.position@[path[i] as int],
            decreases NODE_COUNT - steps,
        {
            let q = self.position[node];
            if node >= WINDOW_SIZE || node == slot || q >= p || p - q > WINDOW_SIZE {
                assert(node != slot ==> q == t0.position@[node as int]);
                assert(!t0.usable(p as int, t0.after(input@, p as int, path)));
                assert(t0.found(*self, input@, p as int, (best_len, best_src), path));
                return (best_len, best_src);
            }
            assert(q == t0.position@[node as int]);
            let mut i: usize = 0;
            while i < limit
                invariant
                    i <= limit,
                    q < p,
                    n == input@.len(),
                    p + limit <= input@.len(),
                    forall|k: int| 0 <= k < i ==> input@[q + k] == #[trigger] input@[p + k],
                    run_from(input@, q as int, p as int, i as int, limit as int) == run_from(
                        input@,
                        q as int,
                        p as int,
                        0,
                        limit as int,
                    ),
                ensures
                    i <= limit,
                    forall|k: int| 0 <= k < i ==> input@[q + k] == #[trigger] input@[p + k],
                    run_from(input@, q as int, p as int, i as int, limit as int) == i,
                    run_from(input@, q as int, p as int, 0, limit as int) == i,
                decreases limit - i,
            {
                if input[q + i] != input[p + i] {
                    break;
                }
                i = i + 1;
            }
            assert(run_from(input@, q as int, p as int, i as int, limit as int) == i);
            assert(t0.run_at(input@, p as int, node) == i);
            let ghost old_path = path;
            proof {
                path = path.push(node);
                assert(path.last() == node);
                assert forall|j: int| 0 <= j < path.len() - 1 implies path[j + 1]
                    == #[trigger] t0.next_of(input@, p as int, path[j]) by {
                    if j + 1 == path.len() - 1 {
                        assert(old_path.last() == path[j]);
                    } else {
                        assert(path[j + 1] == old_path[j + 1]);
                    }
                }
                assert forall|j: int| 0 <= j < path.len() implies #[trigger] t0.usable(
                    p as int,
                    path[j],
                ) by {
                    if j < old_path.len() {
                        assert(path[j] == old_path[j]);
                    }
                }
                assert forall|j: int| 0 <= j < path.len() - 1 implies #[trigger] t0.run_at(
                    input@,
                    p as int,
                    path[j],
                ) < LOOK_AHEAD by {
                    if j < old_path.len() - 1 {
                        assert(path[j] == old_path[j]);
                    } else {
                        assert(old_path.last() == path[j]);
                    }
                }
            }
            let ghost updated = i > best_len;
            if i > best_len {
                best_len = i;
                best_src = q;
            }
            proof {
                assert forall|j: int| 0 <= j < path.len() implies #[trigger] t0.run_at(
                    input@,
                    p as int,
                    path[j],
                ) <= best_len by {
                    if j < old_path.len() {
                        assert(path[j] == old_path[j]);
                    }
                }
                if best_len > 0 {
                    if updated {
                        let w = path.len() - 1;
                        assert(0 <= w < path.len() && t0.run_at(input@, p as int, path[w]) == best_len
                            && best_src == t0.position@[path[w] as int]);
                    } else {
                        let w = choose|w: int|
                            0 <= w < old_path.len() && #[trigger] t0.run_at(
                                input@,
                                p as int,
                                old_path[w],
                            ) == best_len && best_src == t0.position@[old_path[w] as int];
                        assert(path[w] == old_path[w]);
                    }
                }
            }
            if i >= LOOK_AHEAD {
                assert(forall|s: int| 0 <= s < NODE_COUNT ==> (#[trigger] t0.in_tree(s) <==> self.in_tree(s)));
                self.replace(node, slot);
                assert(t0.found(*self, input@, p as int, (best_len, best_src), path));
                return (best_len, best_src);
            }
            let go_smaller = i < limit && input[p + i] < input[q + i];
            let child = if go_smaller {
                self.smaller[node]
            } else {
                self.larger[node]
            };
            assert(child == t0.after(input@, p as int, path));
            if child == UNUSED {
                if go_smaller {
                    set_link(&mut self.smaller, node, slot);
                } else {
                    set_link(&mut self.larger, node, slot);
                }
                self.set_parent(slot, node);
                assert(t0.found(*self, input@, p as int, (best_len, best_src), path));
                return (best_len, best_src);
            }
            node = child;
            steps = steps + 1;
        }
        assert(t0.found(*self, input@, p as int, (best_len, best_src), path));
        (best_len, best_src)
    }
}

} // verus!
