//! The skip list itself: nodes, the lane walker used by the search, and
//! the insertion algorithm.

use vstd::prelude::*;

verus! {

/// One stored element: its value and one successor slot per lane the
/// node participates in (slot `k` holds the handle of the next node on
/// lane `k`, or `None` at the end of that lane).
pub struct SkipNode {
    pub value: u64,
    pub next: Vec<Option<usize>>,
}

impl SkipNode {
    /// A fresh node for lanes `0..=lane`, with every successor still
    /// absent; the slots are filled in when the node is spliced in.
    pub fn new(value: u64, lane: usize) -> (node: Self)
        requires
            lane < usize::MAX,
        ensures
            node.value == value,
            node.next@.len() == lane + 1,
            forall|k: int| 0 <= k <= lane ==> node.next@[k] is None,
    {
        let mut next: Vec<Option<usize>> = Vec::new();
        let mut k: usize = 0;
        while k < lane + 1
            invariant
                k <= lane + 1,
                lane < usize::MAX,
                next@.len() == k,
                forall|i: int| 0 <= i < k ==> next@[i] is None,
            decreases lane + 1 - k,
        {
            next.push(None);
            k = k + 1;
        }
        SkipNode { value, next }
    }
}

/// A cursor over the lanes of a skip list: it can peek at the next node
/// on a given lane without moving, or advance to it.
pub struct LaneWalker<'a> {
    /// The node the walker stands on, or `None` while it still stands
    /// before the first node of every lane.
    current_node: Option<usize>,
    /// The lane heads it started from.
    lanes: &'a Vec<usize>,
}

impl<'a> LaneWalker<'a> {
    /// The node the walker currently stands on.
    pub closed spec fn current(&self) -> Option<usize> {
        self.current_node
    }

    /// The lane heads the walker was started from.
    pub closed spec fn heads(&self) -> Seq<usize> {
        self.lanes@
    }

    /// What a peek returns: the head of the lane while the walker has not
    /// advanced yet, the current node's successor on that lane otherwise,
    /// and `None` where the lane ends or does not reach.
    pub open spec fn peek_spec(
        nodes: Seq<SkipNode>,
        heads: Seq<usize>,
        cur: Option<usize>,
        lane: int,
    ) -> Option<usize> {
        match cur {
            Option::None => if lane < heads.len() {
                Option::Some(heads[lane])
            } else {
                Option::None
            },
            Option::Some(h) => if lane < nodes[h as int].next@.len() {
                nodes[h as int].next@[lane]
            } else {
                Option::None
            },
        }
    }

    /// A walker standing before the first node of every lane.
    pub fn new(starting_nodes: &'a Vec<usize>) -> (w: Self)
        ensures
            w.current() is None,
            w.heads() == starting_nodes@,
    {
        Self { current_node: None, lanes: starting_nodes }
    }

    /// The next node on `lane` from the current position, without moving.
    /// Total: absent lanes and lane ends give `None`.
    pub fn peek_next(&self, nodes: &Vec<SkipNode>, lane: usize) -> (r: Option<usize>)
        requires
            self.current() is Some ==> self.current()->0 < nodes@.len(),
        ensures
            r == Self::peek_spec(nodes@, self.heads(), self.current(), lane as int),
    {
        if let Some(h) = self.current_node {
            let node = &nodes[h];
            if lane < node.next.len() {
                node.next[lane]
            } else {
                None
            }
        } else {
            if lane < self.lanes.len() {
                Some(self.lanes[lane])
            } else {
                None
            }
        }
    }

    /// Moves the walker to the next node on `lane`. Advancing where a
    /// peek would return `None` is a caller error, so it is ruled out by
    /// the precondition; callers check `peek_next` first.
    pub fn next(&mut self, nodes: &Vec<SkipNode>, lane: usize)
        requires
            old(self).current() is Some ==> old(self).current()->0 < nodes@.len(),
            Self::peek_spec(nodes@, old(self).heads(), old(self).current(), lane as int) is Some,
        ensures
            final(self).current()
                == Self::peek_spec(nodes@, old(self).heads(), old(self).current(), lane as int),
            final(self).heads() == old(self).heads(),
    {
        self.current_node = self.peek_next(nodes, lane);
    }
}

/// A skip list over `u64` values: an arena of nodes (a handle is an
/// index into it, assigned in insertion order), one head handle per lane
/// in use, the element count, and the randomness source that picks lane
/// heights.
pub struct SkipList {
    pub(crate) nodes: Vec<SkipNode>,
    pub(crate) lanes: Vec<usize>,
    pub(crate) size: usize,
    pub(crate) max_lanes: usize,
    pub(crate) rng: rand::rngs::ThreadRng,
    /// The handles on each lane, in lane order; the model the chain
    /// invariants are stated over.
    pub(crate) lane_seqs: Ghost<Seq<Seq<usize>>>,
}

impl SkipList {
    /// The value stored at handle `h`.
    pub(crate) open spec fn val(&self, h: usize) -> u64 {
        self.nodes@[h as int].value
    }

    /// Handle `a`'s node comes strictly before handle `b`'s on a lane:
    /// its value is smaller, or equal with `a` inserted earlier (handles
    /// grow in insertion order, which keeps duplicates stable).
    pub(crate) open spec fn node_before(&self, a: usize, b: usize) -> bool {
        self.val(a) < self.val(b) || (self.val(a) == self.val(b) && a < b)
    }

    /// Lane `k` is a well-formed chain: non-empty, headed by `lanes[k]`,
    /// every member a valid handle tall enough to reach lane `k`, the
    /// successor slots at index `k` linking the members in order and
    /// ending the lane, and the members strictly ordered.
    pub(crate) open spec fn lane_ok(&self, k: int) -> bool {
        let s = self.lane_seqs@[k];
        &&& s.len() >= 1
        &&& self.lanes@[k] == s[0]
        &&& (forall|i: int| 0 <= i < s.len() ==> (#[trigger] s[i]) < self.nodes@.len())
        &&& (forall|i: int| 0 <= i < s.len() ==> k < self.nodes@[#[trigger] s[i] as int].next@.len())
        &&& (forall|i: int|
            0 <= i < s.len() - 1 ==> self.nodes@[#[trigger] s[i] as int].next@[k] == Some(s[i + 1]))
        &&& self.nodes@[s[s.len() - 1] as int].next@[k] is None
        &&& (forall|i: int, j: int|
            #![trigger s[i], s[j]]
            0 <= i < j < s.len() ==> self.node_before(s[i], s[j]))
    }

    /// The structure's invariant: the count matches the arena, the lane
    /// array fits under the configured maximum, every node reaches lane 0
    /// and no lane beyond the array, every lane is a well-formed chain,
    /// lane 0 carries every node, and each upper lane is a subset of the
    /// lane below it.
    pub open(crate) spec fn wf(&self) -> bool {
        &&& self.size == self.nodes@.len()
        &&& 1 <= self.max_lanes
        &&& self.lanes@.len() == self.lane_seqs@.len()
        &&& self.lanes@.len() <= self.max_lanes
        &&& (forall|i: int|
            0 <= i < self.nodes@.len()
                ==> 1 <= (#[trigger] self.nodes@[i].next@.len()) <= self.lanes@.len())
        &&& (forall|k: int| 0 <= k < self.lane_seqs@.len() ==> #[trigger] self.lane_ok(k))
        &&& (self.lanes@.len() == 0 ==> self.nodes@.len() == 0)
        &&& (self.lanes@.len() > 0 ==> self.lane_seqs@[0].len() == self.nodes@.len())
        &&& (forall|k: int, i: int|
            1 <= k < self.lane_seqs@.len() && 0 <= i < self.lane_seqs@[k].len()
                ==> self.lane_seqs@[k - 1].contains(#[trigger] self.lane_seqs@[k][i]))
    }

    /// The handles on lane 0, in lane order.
    pub(crate) open spec fn lane0(&self) -> Seq<usize> {
        if self.lanes@.len() == 0 {
            Seq::empty()
        } else {
            self.lane_seqs@[0]
        }
    }

    /// The stored values in lane-0 order: the structure's model.
    pub open(crate) spec fn seq_view(&self) -> Seq<u64> {
        Seq::new(self.lane0().len(), |i: int| self.val(self.lane0()[i]))
    }

    /// The number of lanes currently in use.
    pub closed spec fn lane_count(&self) -> int {
        self.lanes@.len() as int
    }

    /// The configured maximum number of lanes.
    pub closed spec fn max_lane_count(&self) -> int {
        self.max_lanes as int
    }

    /// The height of the node inserted `i`-th: the highest lane it
    /// participates in.
    pub closed spec fn node_height(&self, i: int) -> int {
        self.nodes@[i].next@.len() - 1
    }

    /// Lane `k` currently has a head node.
    pub closed spec fn lane_has_head(&self, k: int) -> bool {
        0 <= k < self.lanes@.len()
    }

    /// `upd` is a correct splice point for `v` on lane `k`: either the
    /// lane's very front, with the lane head already above `v`, or a
    /// member `<= v` whose successor on the lane is absent or above `v`.
    pub(crate) open spec fn pred_ok(&self, k: int, upd: Option<usize>, v: u64) -> bool {
        let s = self.lane_seqs@[k];
        match upd {
            Option::None => self.val(s[0]) > v,
            Option::Some(c) => exists|i: int|
                0 <= i < s.len() && (#[trigger] s[i]) == c && self.val(c) <= v && (i == s.len() - 1
                    || self.val(s[i + 1]) > v),
        }
    }

    /// For each lane, from the top down, the rightmost node whose value
    /// is `<= value` (`None` where `value` belongs at the lane's very
    /// front). The walker carries its position down the lanes instead of
    /// restarting, descending whenever the next node would overshoot.
    fn search_path(&self, value: u64) -> (updates: Vec<Option<usize>>)
        requires
            self.wf(),
        ensures
            updates@.len() == self.lanes@.len(),
            forall|k: int| 0 <= k < updates@.len() ==> self.pred_ok(k, #[trigger] updates@[k], value),
    {
        let current_lane_count = self.lanes.len();
        let mut updates: Vec<Option<usize>> = Vec::new();
        let mut f: usize = 0;
        while f < current_lane_count
            invariant
                f <= current_lane_count,
                updates@.len() == f,
                forall|k: int| 0 <= k < f ==> updates@[k] is None,
            decreases current_lane_count - f,
        {
            updates.push(None);
            f = f + 1;
        }

        let mut node_walker = LaneWalker::new(&self.lanes);
        let mut current_lane = current_lane_count;
        let ghost mut pos: int = -1;
        while current_lane > 0
            invariant
                self.wf(),
                current_lane <= current_lane_count,
                current_lane_count == self.lanes@.len(),
                updates@.len() == current_lane_count,
                node_walker.heads() == self.lanes@,
                forall|k: int|
                    current_lane <= k < current_lane_count
                        ==> self.pred_ok(k, #[trigger] updates@[k], value),
                current_lane > 0 ==> {
                    let s = self.lane_seqs@[current_lane - 1];
                    &&& -1 <= pos < s.len()
                    &&& (pos == -1 <==> node_walker.current() is None)
                    &&& (pos >= 0
                        ==> node_walker.current() == Some(s[pos]) && self.val(s[pos]) <= value)
                },
            decreases
                    current_lane,
                    (if current_lane > 0 {
                        self.lane_seqs@[current_lane - 1].len() - pos
                    } else {
                        0
                    }),
        {
            let lane_index = current_lane - 1;
            let ghost s = self.lane_seqs@[lane_index as int];
            proof {
                assert(self.lane_ok(lane_index as int));
            }
            let peeked = node_walker.peek_next(&self.nodes, lane_index);
            proof {
                if pos >= 0 {
                    if pos < s.len() - 1 {
                        assert(peeked == Some(s[pos + 1]));
                    } else {
                        assert(peeked is None);
                    }
                } else {
                    assert(peeked == Some(s[0]));
                }
            }
            let mut do_advance = false;
            if let Some(h) = peeked {
                if self.nodes[h].value <= value {
                    do_advance = true;
                }
            }
            if do_advance {
                node_walker.next(&self.nodes, lane_index);
                proof {
                    pos = pos + 1;
                }
            } else {
                let cur = node_walker.current_node;
                updates[lane_index] = cur;
                proof {
                    if pos >= 0 {
                        assert(s[pos] == cur->0 && self.val(cur->0) <= value && (pos == s.len() - 1
                            || self.val(s[pos + 1]) > value));
                        assert(self.pred_ok(lane_index as int, updates@[lane_index as int], value));
                    } else {
                        assert(self.pred_ok(lane_index as int, updates@[lane_index as int], value));
                    }
                }
                current_lane = current_lane - 1;
                proof {
                    if current_lane > 0 {
                        let k_new = current_lane - 1;
                        let s_new = self.lane_seqs@[k_new];
                        if pos >= 0 {
                            let c = s[pos];
                            assert(self.lane_seqs@[k_new + 1][pos] == c);
                            assert(s_new.contains(c));
                            pos = choose|i: int| 0 <= i < s_new.len() && s_new[i] == c;
                        }
                    }
                }
            }
        }
        updates
    }

    /// A list with room for `lane_count` lanes, drawing heights from
    /// `rng`.
    fn with(lane_count: usize, rng: rand::rngs::ThreadRng) -> (list: Self)
        requires
            lane_count >= 1,
        ensures
            list.wf(),
            list@ == Seq::<u64>::empty(),
            list.max_lane_count() == lane_count,
    {
        let list = Self {
            nodes: Vec::new(),
            lanes: Vec::new(),
            size: 0,
            max_lanes: lane_count,
            rng,
            lane_seqs: Ghost(Seq::empty()),
        };
        proof {
            assert(list.seq_view() =~= Seq::<u64>::empty());
        }
        list
    }

    /// A fresh, empty skip list with the default maximum of 16 lanes.
    pub fn new() -> (list: Self)
        ensures
            list.wf(),
            list@ == Seq::<u64>::empty(),
            list.max_lane_count() == 16,
    {
        Self::with(16, crate::rng::fresh_rng())
    }

    /// Order invariant: a well-formed skip list always models a sorted
    /// sequence, so iterating it yields ascending values.
    pub proof fn lemma_sorted_view(&self)
        requires
            self.wf(),
        ensures
            crate::sorted(self@),
    {
        if self.lanes@.len() > 0 {
            assert(self.lane_ok(0));
            let s = self.lane_seqs@[0];
            assert forall|i: int, j: int| 0 <= i < j < self@.len() implies self@[i] <= self@[j] by {
                assert(self.node_before(s[i], s[j]));
            }
        }
    }

    /// All the facts carried across the splice loop of `insert_value`,
    /// relating the current state to `old_list` (the list before the
    /// insertion began): what the fresh node looks like, which successor
    /// slots are still untouched, how the lanes spliced so far relate to
    /// the old ones, and that every lane is currently a well-formed
    /// chain. `lane0_pos` is where the new node landed on lane 0, once
    /// lane 0 has been spliced.
    spec fn splice_inv(
        self,
        old_list: SkipList,
        updates: Seq<Option<usize>>,
        value: u64,
        new_handle: usize,
        max_lane: usize,
        lane_index: int,
        lane0_pos: int,
    ) -> bool {
        let n = old_list.nodes@.len() as int;
        let big_l = old_list.lanes@.len() as int;
        &&& old_list.wf()
        &&& crate::sorted(old_list@)
        &&& updates.len() == big_l
        &&& (forall|k: int| 0 <= k < big_l ==> old_list.pred_ok(k, #[trigger] updates[k], value))
        &&& new_handle == n
        &&& max_lane < old_list.max_lanes
        &&& 0 <= lane_index <= max_lane + 1
        &&& self.max_lanes == old_list.max_lanes
        &&& self.size == old_list.size
        &&& self.nodes@.len() == n + 1
        &&& (forall|i: int|
            0 <= i < n ==> (#[trigger] self.nodes@[i]).value == old_list.nodes@[i].value)
        &&& (forall|i: int|
            0 <= i < n ==> (#[trigger] self.nodes@[i]).next@.len() == old_list.nodes@[i].next@.len())
        &&& self.nodes@[n].value == value
        &&& self.nodes@[n].next@.len() == max_lane + 1
        &&& (forall|i: int, k: int|
            0 <= i < n && lane_index <= k < self.nodes@[i].next@.len()
                ==> (#[trigger] self.nodes@[i].next@[k]) == old_list.nodes@[i].next@[k])
        &&& (forall|k: int| lane_index <= k <= max_lane ==> self.nodes@[n].next@[k] is None)
        &&& self.lane_seqs@.len() == self.lanes@.len()
        &&& self.lanes@.len() == (if lane_index <= big_l {
            big_l
        } else {
            lane_index
        })
        &&& (forall|k: int| lane_index <= k < big_l ==> self.lanes@[k] == old_list.lanes@[k])
        &&& (forall|k: int|
            lane_index <= k < big_l ==> (#[trigger] self.lane_seqs@[k]) == old_list.lane_seqs@[k])
        &&& (forall|k: int| 0 <= k < self.lane_seqs@.len() ==> #[trigger] self.lane_ok(k))
        &&& (forall|k: int|
            big_l <= k < self.lane_seqs@.len()
                ==> (#[trigger] self.lane_seqs@[k]) == seq![new_handle])
        &&& (forall|k: int|
            0 <= k < lane_index && k < big_l
                ==> spliced(old_list.lane_seqs@[k], #[trigger] self.lane_seqs@[k], new_handle))
        &&& (lane_index > 0 ==> 0 <= lane0_pos <= old_list.lane0().len())
        &&& (lane_index > 0 ==> self.lane_seqs@[0] == old_list.lane0().insert(
            lane0_pos,
            new_handle,
        ))
        &&& (lane_index > 0 ==> lane0_pos == crate::insert_pos(old_list@, value))
        &&& (forall|k: int, i: int|
            1 <= k < self.lane_seqs@.len() && 0 <= i < self.lane_seqs@[k].len()
                ==> self.lane_seqs@[k - 1].contains(#[trigger] self.lane_seqs@[k][i]))
    }

    /// After splicing the new node in right after `c` on lane `k0`, that
    /// lane is a well-formed chain again: the links run through the new
    /// node and the members stay strictly ordered.
    #[verifier::rlimit(100)]
    proof fn lemma_after_lane_ok(
        post: SkipList,
        old_list: SkipList,
        value: u64,
        new_handle: usize,
        k0: int,
        c: usize,
        i: int,
    )
        requires
            old_list.wf(),
            0 <= k0 < old_list.lane_seqs@.len(),
            ({
                let s_old = old_list.lane_seqs@[k0];
                &&& 0 <= i < s_old.len()
                &&& s_old[i] == c
                &&& old_list.val(c) <= value
                &&& (i == s_old.len() - 1 || old_list.val(s_old[i + 1]) > value)
            }),
            new_handle == old_list.nodes@.len(),
            post.nodes@.len() == old_list.nodes@.len() + 1,
            forall|m: int|
                0 <= m < old_list.nodes@.len()
                    ==> (#[trigger] post.nodes@[m]).value == old_list.nodes@[m].value,
            forall|m: int|
                0 <= m < old_list.nodes@.len()
                    ==> (#[trigger] post.nodes@[m]).next@.len() == old_list.nodes@[m].next@.len(),
            forall|m: int|
                0 <= m < old_list.nodes@.len() && m != c && k0 < old_list.nodes@[m].next@.len()
                    ==> (#[trigger] post.nodes@[m]).next@[k0] == old_list.nodes@[m].next@[k0],
            post.nodes@[c as int].next@[k0] == Some(new_handle),
            post.nodes@[new_handle as int].next@[k0] == old_list.nodes@[c as int].next@[k0],
            post.nodes@[new_handle as int].value == value,
            k0 < post.nodes@[new_handle as int].next@.len(),
            k0 < post.lane_seqs@.len(),
            post.lane_seqs@[k0] == old_list.lane_seqs@[k0].insert(i + 1, new_handle),
            k0 < post.lanes@.len(),
            post.lanes@[k0] == old_list.lanes@[k0],
        ensures
            post.lane_ok(k0),
    {
        let s_old = old_list.lane_seqs@[k0];
        let s_new = s_old.insert(i + 1, new_handle);
        s_old.insert_ensures(i + 1, new_handle);
        assert(old_list.lane_ok(k0));
        assert forall|j: int| 0 <= j < s_old.len() && s_old[j] == c implies j == i by {
            if j < i {
                assert(old_list.node_before(s_old[j], s_old[i]));
            }
            if j > i {
                assert(old_list.node_before(s_old[i], s_old[j]));
            }
        }
        assert(post.lanes@[k0] == s_new[0]);
        assert forall|j: int|
            0 <= j < s_new.len() - 1 implies post.nodes@[s_new[j] as int].next@[k0] == Some(
            s_new[j + 1],
        ) by {
            if j < i {
                assert(s_new[j] == s_old[j]);
                assert(s_new[j + 1] == s_old[j + 1]);
                assert(s_old[j] != c && s_old[j] != new_handle);
            } else if j == i + 1 {
                assert(s_new[j] == new_handle);
                assert(s_new[j + 1] == s_old[i + 1]);
            } else if j > i + 1 {
                assert(s_new[j] == s_old[j - 1]);
                assert(s_new[j + 1] == s_old[j]);
                assert(s_old[j - 1] != c && s_old[j - 1] != new_handle);
            }
        }
        assert(post.nodes@[s_new[s_new.len() - 1] as int].next@[k0] is None) by {
            if i == s_old.len() - 1 {
                assert(s_new[s_new.len() - 1] == new_handle);
            } else {
                assert(s_new[s_new.len() - 1] == s_old[s_old.len() - 1]);
                assert(s_old[s_old.len() - 1] != c && s_old[s_old.len() - 1] != new_handle);
            }
        }
        assert forall|j1: int, j2: int|
            0 <= j1 < j2 < s_new.len() implies post.node_before(s_new[j1], s_new[j2]) by {
            if j2 < i + 1 {
                assert(old_list.node_before(s_old[j1], s_old[j2]));
            } else if j1 > i + 1 {
                assert(old_list.node_before(s_old[j1 - 1], s_old[j2 - 1]));
            } else if j1 < i + 1 && j2 == i + 1 {
                if j1 < i {
                    assert(old_list.node_before(s_old[j1], s_old[i]));
                }
                assert(old_list.val(s_old[j1]) <= value);
                assert(s_old[j1] < new_handle);
            } else if j1 == i + 1 {
                assert(s_new[j2] == s_old[j2 - 1]);
                if j2 - 1 > i + 1 {
                    assert(old_list.node_before(s_old[i + 1], s_old[j2 - 1]));
                }
                assert(old_list.val(s_old[j2 - 1]) > value);
            } else {
                assert(old_list.node_before(s_old[j1], s_old[j2 - 1]));
            }
        }
    }

    /// Splices the new node in immediately after predecessor `c` on lane
    /// `lane_index`, taking over whatever successor `c` had there.
    #[verifier::rlimit(100)]
    fn splice_after(
        &mut self,
        c: usize,
        value: u64,
        new_handle: usize,
        max_lane: usize,
        lane_index: usize,
        Ghost(updates): Ghost<Seq<Option<usize>>>,
        Ghost(old_list): Ghost<SkipList>,
        Ghost(lane0_pos): Ghost<int>,
    ) -> (res: Ghost<int>)
        requires
            old(self).splice_inv(
                old_list,
                updates,
                value,
                new_handle,
                max_lane,
                lane_index as int,
                lane0_pos,
            ),
            lane_index <= max_lane,
            lane_index < updates.len(),
            updates[lane_index as int] == Some(c),
        ensures
            final(self).splice_inv(
                old_list,
                updates,
                value,
                new_handle,
                max_lane,
                lane_index as int + 1,
                res@,
            ),
    {
        let ghost k0 = lane_index as int;
        let ghost n = old_list.nodes@.len() as int;
        let ghost big_l = old_list.lanes@.len() as int;
        let ghost s_old = old_list.lane_seqs@[k0];
        proof {
            assert(old_list.pred_ok(k0, Some(c), value));
            assert(old_list.lane_ok(k0));
            assert(self.lane_seqs@[k0] == s_old);
        }
        let ghost i = choose|i: int|
            #![trigger s_old[i]]
            0 <= i < s_old.len() && s_old[i] == c && old_list.val(c) <= value && (i == s_old.len()
                - 1 || old_list.val(s_old[i + 1]) > value);
        proof {
            assert(0 <= i < s_old.len() && s_old[i] == c);
            assert(c < n);
            assert(k0 < old_list.nodes@[c as int].next@.len());
            assert forall|j: int| 0 <= j < s_old.len() && s_old[j] == c implies j == i by {
                if j < i {
                    assert(old_list.node_before(s_old[j], s_old[i]));
                }
                if j > i {
                    assert(old_list.node_before(s_old[i], s_old[j]));
                }
            }
        }
        let succ = self.nodes[c].next[lane_index];
        self.nodes[new_handle].next[lane_index] = succ;
        self.nodes[c].next[lane_index] = Some(new_handle);
        proof {
            let s_new = s_old.insert(i + 1, new_handle);
            s_old.insert_ensures(i + 1, new_handle);
            self.lane_seqs@ = self.lane_seqs@.update(k0, s_new);
            if k0 == 0 {
                assert(big_l > 0);
                assert(old_list.lane0() == s_old);
                assert forall|j: int| 0 <= j < i + 1 implies old_list@[j] <= value by {
                    assert(old_list@[j] == old_list.val(s_old[j]));
                    if j < i {
                        assert(old_list.node_before(s_old[j], s_old[i]));
                    }
                }
                if i + 1 < old_list@.len() {
                    assert(old_list@[i + 1] == old_list.val(s_old[i + 1]));
                }
                crate::lemma_insert_pos_unique(old_list@, value, i + 1);
            }
            assert(self.lane_ok(k0)) by {
                assert forall|m: int|
                    0 <= m < n && m != c && k0 < old_list.nodes@[m].next@.len()
                        implies (#[trigger] self.nodes@[m]).next@[k0]
                        == old_list.nodes@[m].next@[k0] by {
                    assert(old(self).nodes@[m].next@[k0] == old_list.nodes@[m].next@[k0]);
                }
                Self::lemma_after_lane_ok(*self, old_list, value, new_handle, k0, c, i);
            }
            assert forall|k: int|
                0 <= k < self.lane_seqs@.len() && k != k0 implies #[trigger] self.lane_ok(k) by {
                assert(old(self).lane_ok(k));
                assert(self.lane_seqs@[k] == old(self).lane_seqs@[k]);
                assert(self.lanes@[k] == old(self).lanes@[k]);
            }
            assert(spliced(s_old, self.lane_seqs@[k0], new_handle)) by {
                assert(self.lane_seqs@[k0] == s_old.insert(i + 1, new_handle));
            }
            assert forall|k: int|
                0 <= k < k0 + 1 && k < big_l implies spliced(
                old_list.lane_seqs@[k],
                #[trigger] self.lane_seqs@[k],
                new_handle,
            ) by {
                if k < k0 {
                    assert(spliced(old_list.lane_seqs@[k], old(self).lane_seqs@[k], new_handle));
                    assert(self.lane_seqs@[k] == old(self).lane_seqs@[k]);
                }
            }
            assert forall|k: int, i2: int|
                1 <= k < self.lane_seqs@.len() && 0 <= i2 < self.lane_seqs@[k].len()
                    implies self.lane_seqs@[k - 1].contains(#[trigger] self.lane_seqs@[k][i2]) by {
                if k == k0 {
                    let x = s_new[i2];
                    if i2 == i + 1 {
                        assert(x == new_handle);
                        assert(self.lane_seqs@[k - 1].contains(new_handle)) by {
                            if k - 1 >= big_l {
                                assert(self.lane_seqs@[k - 1] == seq![new_handle]);
                                assert(self.lane_seqs@[k - 1][0] == new_handle);
                            } else {
                                lemma_spliced_contains(
                                    old_list.lane_seqs@[k - 1],
                                    self.lane_seqs@[k - 1],
                                    new_handle,
                                );
                            }
                        }
                    } else {
                        let i3: int = if i2 < i + 1 {
                            i2
                        } else {
                            i2 - 1
                        };
                        assert(x == s_old[i3]);
                        assert(old(self).lane_seqs@[k].contains(x)) by {
                            assert(old(self).lane_seqs@[k][i3] == x);
                        }
                        assert(old(self).lane_seqs@[k - 1].contains(x));
                    }
                } else if k - 1 == k0 {
                    let x = self.lane_seqs@[k][i2];
                    assert(old(self).lane_seqs@[k - 1].contains(x));
                    lemma_spliced_contains(s_old, self.lane_seqs@[k0], new_handle);
                } else {
                    assert(old(self).lane_seqs@[k - 1].contains(old(self).lane_seqs@[k][i2]));
                }
            }
        }
        Ghost(
            if lane_index == 0 {
                i + 1
            } else {
                lane0_pos
            },
        )
    }

    /// Splices the new node in at the front of existing lane
    /// `lane_index`, taking over the lane's previous head.
    #[verifier::rlimit(100)]
    fn splice_front(
        &mut self,
        value: u64,
        new_handle: usize,
        max_lane: usize,
        lane_index: usize,
        Ghost(updates): Ghost<Seq<Option<usize>>>,
        Ghost(old_list): Ghost<SkipList>,
        Ghost(lane0_pos): Ghost<int>,
    ) -> (res: Ghost<int>)
        requires
            old(self).splice_inv(
                old_list,
                updates,
                value,
                new_handle,
                max_lane,
                lane_index as int,
                lane0_pos,
            ),
            lane_index <= max_lane,
            lane_index < old(self).lanes@.len(),
            updates[lane_index as int] is None,
        ensures
            final(self).splice_inv(
                old_list,
                updates,
                value,
                new_handle,
                max_lane,
                lane_index as int + 1,
                res@,
            ),
    {
        let ghost k0 = lane_index as int;
        let ghost n = old_list.nodes@.len() as int;
        let ghost big_l = old_list.lanes@.len() as int;
        let ghost s_old = old_list.lane_seqs@[k0];
        proof {
            assert(k0 < big_l);
            assert(old_list.pred_ok(k0, None, value));
            assert(old_list.lane_ok(k0));
            assert(self.lane_seqs@[k0] == s_old);
            assert(s_old[0] < n);
        }
        let old_head = self.lanes[lane_index];
        proof {
            assert(old_head == s_old[0]);
        }
        self.nodes[new_handle].next[lane_index] = Some(old_head);
        self.lanes[lane_index] = new_handle;
        proof {
            let s_new = s_old.insert(0, new_handle);
            s_old.insert_ensures(0, new_handle);
            self.lane_seqs@ = self.lane_seqs@.update(k0, s_new);
            if k0 == 0 {
                assert(old_list.lane0() == s_old);
                assert(old_list@[0] == old_list.val(s_old[0]));
                crate::lemma_insert_pos_unique(old_list@, value, 0);
            }
            assert(self.lane_ok(k0)) by {
                assert(s_new[0] == new_handle);
                assert(self.lanes@[k0] == new_handle);
                assert forall|j: int|
                    0 <= j < s_new.len() - 1 implies self.nodes@[s_new[j] as int].next@[k0] == Some(
                    s_new[j + 1],
                ) by {
                    if j == 0 {
                        assert(s_new[1] == s_old[0]);
                    } else {
                        assert(s_new[j] == s_old[j - 1]);
                        assert(s_new[j + 1] == s_old[j]);
                        assert(s_old[j - 1] != new_handle);
                    }
                }
                assert(self.nodes@[s_new[s_new.len() - 1] as int].next@[k0] is None) by {
                    assert(s_new[s_new.len() - 1] == s_old[s_old.len() - 1]);
                    assert(s_old[s_old.len() - 1] != new_handle);
                }
                assert forall|j1: int, j2: int|
                    0 <= j1 < j2 < s_new.len() implies self.node_before(s_new[j1], s_new[j2]) by {
                    if j1 == 0 {
                        assert(s_new[j2] == s_old[j2 - 1]);
                        if j2 - 1 > 0 {
                            assert(old_list.node_before(s_old[0], s_old[j2 - 1]));
                        }
                        assert(old_list.val(s_old[j2 - 1]) >= old_list.val(s_old[0]));
                        assert(old_list.val(s_old[0]) > value);
                    } else {
                        assert(old_list.node_before(s_old[j1 - 1], s_old[j2 - 1]));
                    }
                }
            }
            assert forall|k: int|
                0 <= k < self.lane_seqs@.len() && k != k0 implies #[trigger] self.lane_ok(k) by {
                assert(old(self).lane_ok(k));
                assert(self.lane_seqs@[k] == old(self).lane_seqs@[k]);
                assert(self.lanes@[k] == old(self).lanes@[k]);
            }
            assert(spliced(s_old, self.lane_seqs@[k0], new_handle)) by {
                assert(self.lane_seqs@[k0] == s_old.insert(0, new_handle));
            }
            assert forall|k: int|
                0 <= k < k0 + 1 && k < big_l implies spliced(
                old_list.lane_seqs@[k],
                #[trigger] self.lane_seqs@[k],
                new_handle,
            ) by {
                if k < k0 {
                    assert(spliced(old_list.lane_seqs@[k], old(self).lane_seqs@[k], new_handle));
                    assert(self.lane_seqs@[k] == old(self).lane_seqs@[k]);
                }
            }
            assert forall|k: int, i2: int|
                1 <= k < self.lane_seqs@.len() && 0 <= i2 < self.lane_seqs@[k].len()
                    implies self.lane_seqs@[k - 1].contains(#[trigger] self.lane_seqs@[k][i2]) by {
                if k == k0 {
                    let x = s_new[i2];
                    if i2 == 0 {
                        assert(x == new_handle);
                        assert(self.lane_seqs@[k - 1].contains(new_handle)) by {
                            if k - 1 >= big_l {
                                assert(self.lane_seqs@[k - 1] == seq![new_handle]);
                                assert(self.lane_seqs@[k - 1][0] == new_handle);
                            } else {
                                lemma_spliced_contains(
                                    old_list.lane_seqs@[k - 1],
                                    self.lane_seqs@[k - 1],
                                    new_handle,
                                );
                            }
                        }
                    } else {
                        assert(x == s_old[i2 - 1]);
                        assert(old(self).lane_seqs@[k].contains(x)) by {
                            assert(old(self).lane_seqs@[k][i2 - 1] == x);
                        }
                        assert(old(self).lane_seqs@[k - 1].contains(x));
                    }
                } else if k - 1 == k0 {
                    let x = self.lane_seqs@[k][i2];
                    assert(old(self).lane_seqs@[k - 1].contains(x));
                    lemma_spliced_contains(s_old, self.lane_seqs@[k0], new_handle);
                } else {
                    assert(old(self).lane_seqs@[k - 1].contains(old(self).lane_seqs@[k][i2]));
                }
            }
        }
        Ghost(
            if lane_index == 0 {
                0
            } else {
                lane0_pos
            },
        )
    }

    /// Starts lane `lane_index`, which did not exist yet, with the new
    /// node as its first-ever head.
    #[verifier::rlimit(100)]
    fn splice_new_lane(
        &mut self,
        value: u64,
        new_handle: usize,
        max_lane: usize,
        lane_index: usize,
        Ghost(updates): Ghost<Seq<Option<usize>>>,
        Ghost(old_list): Ghost<SkipList>,
        Ghost(lane0_pos): Ghost<int>,
    ) -> (res: Ghost<int>)
        requires
            old(self).splice_inv(
                old_list,
                updates,
                value,
                new_handle,
                max_lane,
                lane_index as int,
                lane0_pos,
            ),
            lane_index <= max_lane,
            lane_index as int == old(self).lanes@.len(),
        ensures
            final(self).splice_inv(
                old_list,
                updates,
                value,
                new_handle,
                max_lane,
                lane_index as int + 1,
                res@,
            ),
    {
        let ghost k0 = lane_index as int;
        let ghost n = old_list.nodes@.len() as int;
        let ghost big_l = old_list.lanes@.len() as int;
        proof {
            assert(big_l <= k0);
        }
        self.lanes.push(new_handle);
        proof {
            self.lane_seqs@ = self.lane_seqs@.push(seq![new_handle]);
            if k0 == 0 {
                assert(big_l == 0);
                assert(old_list@.len() == 0);
                assert(self.lane_seqs@[0] =~= old_list.lane0().insert(0, new_handle)) by {
                    old_list.lane0().insert_ensures(0, new_handle);
                }
            }
            assert(self.lane_ok(k0)) by {
                assert(self.lane_seqs@[k0] == seq![new_handle]);
                assert(self.lane_seqs@[k0][0] == new_handle);
                assert(self.lanes@[k0] == new_handle);
                assert(self.nodes@[n].next@[k0] is None);
            }
            assert forall|k: int|
                0 <= k < self.lane_seqs@.len() && k != k0 implies #[trigger] self.lane_ok(k) by {
                assert(old(self).lane_ok(k));
                assert(self.lane_seqs@[k] == old(self).lane_seqs@[k]);
                assert(self.lanes@[k] == old(self).lanes@[k]);
            }
            assert forall|k: int|
                0 <= k < k0 + 1 && k < big_l implies spliced(
                old_list.lane_seqs@[k],
                #[trigger] self.lane_seqs@[k],
                new_handle,
            ) by {
                assert(spliced(old_list.lane_seqs@[k], old(self).lane_seqs@[k], new_handle));
                assert(self.lane_seqs@[k] == old(self).lane_seqs@[k]);
            }
            assert forall|k: int, i2: int|
                1 <= k < self.lane_seqs@.len() && 0 <= i2 < self.lane_seqs@[k].len()
                    implies self.lane_seqs@[k - 1].contains(#[trigger] self.lane_seqs@[k][i2]) by {
                if k == k0 {
                    assert(self.lane_seqs@[k][i2] == new_handle);
                    assert(self.lane_seqs@[k - 1].contains(new_handle)) by {
                        if k - 1 >= big_l {
                            assert(self.lane_seqs@[k - 1] == seq![new_handle]);
                            assert(self.lane_seqs@[k - 1][0] == new_handle);
                        } else {
                            lemma_spliced_contains(
                                old_list.lane_seqs@[k - 1],
                                self.lane_seqs@[k - 1],
                                new_handle,
                            );
                        }
                    }
                } else {
                    assert(old(self).lane_seqs@[k - 1].contains(old(self).lane_seqs@[k][i2]));
                }
            }
        }
        Ghost(
            if lane_index == 0 {
                0
            } else {
                lane0_pos
            },
        )
    }

    /// Splices `value` into every lane up to the chosen height: after the
    /// recorded predecessor on each lane, at the lane's front, or as the
    /// first node of a lane that did not exist yet. A value equal to its
    /// lane-0 predecessor is kept at height 0; otherwise the height is
    /// drawn uniformly from the configured range.
    #[verifier::rlimit(100)]
    fn insert_value(&mut self, value: u64)
        requires
            old(self).wf(),
            old(self)@.len() < usize::MAX,
        ensures
            final(self).wf(),
            final(self)@ == old(self)@.insert(crate::insert_pos(old(self)@, value), value),
            final(self).max_lane_count() == old(self).max_lane_count(),
    {
        let ghost old_list = *self;
        let updates = self.search_path(value);
        let ghost big_l = old_list.lanes@.len() as int;
        let ghost n = old_list.nodes@.len() as int;
        proof {
            old_list.lemma_sorted_view();
        }

        let mut is_dup = false;
        if updates.len() > 0 {
            if let Some(c) = updates[0] {
                proof {
                    assert(self.pred_ok(0, Some(c), value));
                    assert(self.lane_ok(0));
                    let s0 = self.lane_seqs@[0];
                    let i = choose|i: int|
                        #![trigger s0[i]]
                        0 <= i < s0.len() && s0[i] == c && self.val(c) <= value && (i == s0.len()
                            - 1 || self.val(s0[i + 1]) > value);
                    assert(s0[i] < self.nodes@.len());
                }
                if self.nodes[c].value == value {
                    is_dup = true;
                }
            }
        }

        let bound = self.max_lanes;
        let max_lane: usize = if is_dup {
            0
        } else {
            crate::rng::random_below(&mut self.rng, bound)
        };

        let new_handle = self.nodes.len();
        let node = SkipNode::new(value, max_lane);
        self.nodes.push(node);

        proof {
            assert forall|k: int| 0 <= k < self.lane_seqs@.len() implies #[trigger] self.lane_ok(
                k,
            ) by {
                assert(old_list.lane_ok(k));
            }
            assert(self.splice_inv(old_list, updates@, value, new_handle, max_lane, 0, 0));
        }

        let ghost mut lane0_pos: int = 0;
        let mut lane_index: usize = 0;
        while lane_index <= max_lane
            invariant
                self.splice_inv(
                    old_list,
                    updates@,
                    value,
                    new_handle,
                    max_lane,
                    lane_index as int,
                    lane0_pos,
                ),
            decreases max_lane + 1 - lane_index,
        {
            let pred_opt: Option<usize> = if lane_index < updates.len() {
                updates[lane_index]
            } else {
                None
            };
            if let Some(c) = pred_opt {
                let res = self.splice_after(
                    c,
                    value,
                    new_handle,
                    max_lane,
                    lane_index,
                    Ghost(updates@),
                    Ghost(old_list),
                    Ghost(lane0_pos),
                );
                proof {
                    lane0_pos = res@;
                }
            } else if lane_index < self.lanes.len() {
                let res = self.splice_front(
                    value,
                    new_handle,
                    max_lane,
                    lane_index,
                    Ghost(updates@),
                    Ghost(old_list),
                    Ghost(lane0_pos),
                );
                proof {
                    lane0_pos = res@;
                }
            } else {
                let res = self.splice_new_lane(
                    value,
                    new_handle,
                    max_lane,
                    lane_index,
                    Ghost(updates@),
                    Ghost(old_list),
                    Ghost(lane0_pos),
                );
                proof {
                    lane0_pos = res@;
                }
            }
            lane_index = lane_index + 1;
        }

        let ghost pre = *self;
        self.size = self.size + 1;
        proof {
            assert forall|k: int| 0 <= k < self.lane_seqs@.len() implies #[trigger] self.lane_ok(
                k,
            ) by {
                assert(pre.lane_ok(k));
            }
            assert forall|k: int, i2: int|
                1 <= k < self.lane_seqs@.len() && 0 <= i2 < self.lane_seqs@[k].len()
                    implies self.lane_seqs@[k - 1].contains(#[trigger] self.lane_seqs@[k][i2]) by {
                assert(pre.lane_seqs@[k - 1].contains(pre.lane_seqs@[k][i2]));
            }
            crate::lemma_insert_pos_bounds(old_list@, value);
            let p = crate::insert_pos(old_list@, value);
            let s0 = self.lane_seqs@[0];
            let old0 = old_list.lane0();
            old0.insert_ensures(lane0_pos, new_handle);
            let t = old_list@.insert(p, value);
            old_list@.insert_ensures(p, value);
            assert(s0.len() == old0.len() + 1);
            assert(old0.len() == n);
            assert(self@.len() == t.len());
            assert forall|j: int| 0 <= j < self@.len() implies self@[j] == t[j] by {
                if big_l > 0 {
                    assert(old_list.lane_ok(0));
                }
                assert(self@[j] == self.val(s0[j]));
                if j < lane0_pos {
                    assert(s0[j] == old0[j]);
                    assert(old0[j] < n);
                    assert(old_list@[j] == old_list.val(old0[j]));
                } else if j == lane0_pos {
                    assert(s0[j] == new_handle);
                } else {
                    assert(s0[j] == old0[j - 1]);
                    assert(old0[j - 1] < n);
                    assert(old_list@[j - 1] == old_list.val(old0[j - 1]));
                }
            }
            assert(self@ =~= t);
            assert(self.wf()) by {
                assert(self.lane_seqs@[0].len() == self.nodes@.len());
                assert forall|i: int|
                    0 <= i < self.nodes@.len() implies 1 <= (#[trigger] self.nodes@[i].next@.len())
                    <= self.lanes@.len() by {
                    if i < n {
                        assert(old_list.nodes@[i].next@.len() <= big_l);
                    }
                }
            }
        }
    }

    /// Inserts `value`: ascending order is kept, a duplicate lands after
    /// every equal value already present, and the count grows by one.
    /// Hands the list back so further insertions can be chained. The
    /// lane height for a fresh value is drawn uniformly over all
    /// configured lanes (a flatter spread than the classic coin-flip
    /// distribution; ordering does not depend on it), while a duplicate
    /// always stays at height 0.
    pub fn insert(&mut self, value: u64) -> (ret: &mut Self)
        requires
            old(self).wf(),
            old(self)@.len() < usize::MAX,
        ensures
            *final(self) == *final(ret),
            (*ret).wf(),
            (*ret)@ == old(self)@.insert(crate::insert_pos(old(self)@, value), value),
            (*ret)@.len() == old(self)@.len() + 1,
            (*ret).max_lane_count() == old(self).max_lane_count(),
    {
        proof {
            crate::lemma_insert_pos_bounds(old(self)@, value);
            old(self)@.insert_ensures(crate::insert_pos(old(self)@, value), value);
        }
        self.insert_value(value);
        self
    }

    /// Height bound: no node's height reaches the configured maximum
    /// lane count, and lane `k` has a head exactly when `k` lies below
    /// the number of lanes in use, so a lane has a head only if every
    /// lane under it does.
    pub proof fn lemma_height_bound(&self)
        requires
            self.wf(),
        ensures
            self.lane_count() <= self.max_lane_count(),
            forall|i: int|
                0 <= i < self@.len()
                    ==> 0 <= #[trigger] self.node_height(i) < self.max_lane_count(),
            forall|k: int| #[trigger] self.lane_has_head(k) <==> 0 <= k < self.lane_count(),
            forall|k: int| 1 <= k && #[trigger] self.lane_has_head(k) ==> self.lane_has_head(k - 1),
    {
        assert(self@.len() == self.nodes@.len());
    }

    /// The stored values in ascending order, collected by walking lane 0
    /// with a lane walker from head to tail.
    pub fn to_values(&self) -> (values: Vec<u64>)
        requires
            self.wf(),
        ensures
            values@ == self@,
    {
        let mut values: Vec<u64> = Vec::new();
        let mut lane_walker = LaneWalker::new(&self.lanes);
        let ghost mut pos: int = 0;
        proof {
            if self.lanes@.len() > 0 {
                assert(self.lane_ok(0));
            }
        }
        let mut cur = lane_walker.peek_next(&self.nodes, 0);
        while cur.is_some()
            invariant
                self.wf(),
                lane_walker.heads() == self.lanes@,
                0 <= pos <= self@.len(),
                values@.len() == pos,
                forall|j: int| 0 <= j < pos ==> values@[j] == self@[j],
                pos == 0 ==> lane_walker.current() is None,
                pos > 0 ==> lane_walker.current() == Some(self.lane0()[pos - 1]),
                cur == (if pos < self@.len() {
                    Some(self.lane0()[pos])
                } else {
                    None::<usize>
                }),
            decreases self@.len() - pos,
        {
            let h = cur.unwrap();
            proof {
                assert(self.lane_ok(0));
                assert(h == self.lane0()[pos]);
                assert(h < self.nodes@.len());
            }
            values.push(self.nodes[h].value);
            lane_walker.next(&self.nodes, 0);
            cur = lane_walker.peek_next(&self.nodes, 0);
            proof {
                pos = pos + 1;
                assert(self.lane_ok(0));
                assert(lane_walker.current() == Some(self.lane0()[pos - 1]));
            }
        }
        proof {
            assert(values@ =~= self@);
        }
        values
    }

    /// A diagnostic rendering of the lane-0 sequence of values, in
    /// ascending order; not a stable machine format.
    pub fn debug_string(&self) -> (s: String)
        requires
            self.wf(),
        ensures
            s@ == rendered(self@),
    {
        let values = self.to_values();
        render_values(&values)
    }

    /// The number of elements stored so far: one per `insert` call made,
    /// duplicates counted individually.
    pub fn len(&self) -> (n: usize)
        requires
            self.wf(),
        ensures
            n == self@.len(),
    {
        self.size
    }
}

impl View for SkipList {
    type V = Seq<u64>;

    open spec fn view(&self) -> Seq<u64> {
        self.seq_view()
    }
}

/// A sequence still contains everything it contained before a splice.
proof fn lemma_insert_preserves_contains(s: Seq<usize>, p: int, x: usize, y: usize)
    requires
        0 <= p <= s.len(),
        s.contains(y),
    ensures
        s.insert(p, x).contains(y),
{
    let j = choose|j: int| 0 <= j < s.len() && s[j] == y;
    s.insert_ensures(p, x);
    if j < p {
        assert(s.insert(p, x)[j] == y);
    } else {
        assert(s.insert(p, x)[j + 1] == y);
    }
}

/// A sequence contains what was just spliced into it.
proof fn lemma_insert_contains_new(s: Seq<usize>, p: int, x: usize)
    requires
        0 <= p <= s.len(),
    ensures
        s.insert(p, x).contains(x),
{
    s.insert_ensures(p, x);
    assert(s.insert(p, x)[p] == x);
}

/// The text std's Debug formatting produces for a vector holding these
/// values: a function of the values alone.
pub uninterp spec fn rendered(values: Seq<u64>) -> Seq<char>;

/// Relies on std's Debug formatting of a vector of integers: renders
/// the values for diagnostics, from the values alone.
#[verifier::external_body]
fn render_values(values: &Vec<u64>) -> (r: String)
    ensures
        r@ == rendered(values@),
{
    format!("{:?}", values)
}

/// `t` is `s` with `x` spliced in at one position.
spec fn spliced(s: Seq<usize>, t: Seq<usize>, x: usize) -> bool {
    exists|p: int| 0 <= p <= s.len() && t == #[trigger] s.insert(p, x)
}

/// A spliced sequence contains the new element and everything the old
/// one contained.
proof fn lemma_spliced_contains(s: Seq<usize>, t: Seq<usize>, x: usize)
    requires
        spliced(s, t, x),
    ensures
        t.contains(x),
        forall|y: usize| s.contains(y) ==> t.contains(y),
{
    let p = choose|p: int| 0 <= p <= s.len() && t == #[trigger] s.insert(p, x);
    lemma_insert_contains_new(s, p, x);
    assert forall|y: usize| s.contains(y) implies t.contains(y) by {
        lemma_insert_preserves_contains(s, p, x, y);
    }
}

} // verus!
