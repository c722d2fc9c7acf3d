use vstd::prelude::*;
use crate::frontier::{heap_push, is_heap, lemma_empty_heap, pop_min};
use crate::heuristic::lemma_one_move_changes_estimate_by_one;
use crate::heuristic::tiles_match;
use crate::parity::{is_arrangement, lemma_unsolvable_has_no_path};
use crate::puzzle::{solvable, Puzzle};
use crate::search::{
    lemma_walk_well_formed,
    copy_state, exact_priority, exact_rank, heuristic_value, is_solution_path,
    lemma_moved_well_formed, never_overestimates, same_state, steps_view,
    Heuristic, Mode, Solution, SolveError,
};
use crate::state::{
    direction_rank, is_grid, is_move, is_walk, moved, neighbors, opt_view, Direction, Node,
};
use std::collections::HashMap;

verus! {

broadcast use vstd::std_specs::hash::group_hash_axioms;

/// A digest of the cells of `s`, by which states are filed.
pub open spec fn state_key(s: Seq<i32>) -> u64
    decreases s.len(),
{
    if s.len() == 0 {
        0
    } else {
        vstd::wrapping::u64_specs::wrapping_add(
            vstd::wrapping::u64_specs::wrapping_mul(state_key(s.drop_last()), 1000003),
            s.last() as u32 as u64,
        )
    }
}

/// The digest of the cells of `s`.
fn key_of(s: &[i32]) -> (r: u64)
    ensures
        r == state_key(s@),
{
    let mut h: u64 = 0;
    let mut i: usize = 0;
    while i < s.len()
        invariant
            i <= s@.len(),
            h == state_key(s@.subrange(0, i as int)),
        decreases s@.len() - i,
    {
        proof {
            assert(s@.subrange(0, i + 1).drop_last() =~= s@.subrange(0, i as int));
        }
        h = h.wrapping_mul(1000003).wrapping_add(s[i] as u32 as u64);
        i += 1;
    }
    proof {
        assert(s@.subrange(0, s@.len() as int) =~= s@);
    }
    h
}

/// The state numbered `i` is filed under the digest `k`.
pub open spec fn filed_at(index: Map<u64, Vec<usize>>, k: u64, i: int) -> bool {
    index.contains_key(k) && exists|c: int|
        0 <= c < index[k]@.len() && #[trigger] index[k]@[c] as int == i
}

/// Files the state numbered `j` under the digest `key`.
fn file_state(index: &mut HashMap<u64, Vec<usize>>, key: u64, j: usize)
    ensures
        final(index)@.contains_key(key),
        final(index)@[key]@ == (if old(index)@.contains_key(key) {
            old(index)@[key]@
        } else {
            Seq::<usize>::empty()
        }).push(j),
        forall|k: u64|
            k != key ==> (#[trigger] final(index)@.contains_key(k) == old(index)@.contains_key(k)),
        forall|k: u64| k != key && old(index)@.contains_key(k) ==> #[trigger] final(index)@[k] == old(
            index,
        )@[k],
{
    let mut bucket: Vec<usize> = match index.get(&key) {
        Some(b) => copy_ids(b),
        None => Vec::new(),
    };
    bucket.push(j);
    index.insert(key, bucket);
}

/// A copy of a list of state numbers.
fn copy_ids(v: &Vec<usize>) -> (r: Vec<usize>)
    ensures
        r@ == v@,
{
    let mut r: Vec<usize> = Vec::new();
    let mut i: usize = 0;
    while i < v.len()
        invariant
            i <= v@.len(),
            r@ == v@.subrange(0, i as int),
        decreases v@.len() - i,
    {
        r.push(v[i]);
        proof {
            assert(v@.subrange(0, i + 1) =~= v@.subrange(0, i as int).push(v@[i as int]));
        }
        i += 1;
    }
    proof {
        assert(v@.subrange(0, v@.len() as int) =~= v@);
    }
    r
}

/// The states met so far, each with its best known predecessor and move count, and
/// whether it has been expanded. State `0` is the start.
struct Explored {
    states: Vec<Node>,
    parents: Vec<usize>,
    costs: Vec<u64>,
    closed: Vec<bool>,
    /// The numbers of the states met so far, by the digest of their cells.
    index: HashMap<u64, Vec<usize>>,
}

/// Some entry of `frontier` is for the state numbered `i`.
spec fn queued(frontier: Seq<(u128, usize)>, i: int) -> bool {
    exists|e: (u128, usize)| #[trigger] frontier.contains(e) && e.1 as int == i
}

/// Some entry of `frontier` is for the state numbered `i`, at rank `k`.
spec fn queued_at(frontier: Seq<(u128, usize)>, i: int, k: int) -> bool {
    exists|e: (u128, usize)| #[trigger] frontier.contains(e) && e.1 as int == i && e.0 as int == k
}

/// A grid of side `size` whose tiles have places in `goal`.
spec fn node_ok(size: int, s: Seq<i32>, goal: Seq<i32>) -> bool {
    is_grid(size, s) && tiles_match(size, s, goal)
}

impl Explored {
    spec fn len(&self) -> int {
        self.states@.len() as int
    }

    spec fn state(&self, i: int) -> Seq<i32> {
        self.states@[i]@
    }

    /// Every state is a well-formed grid, every state but the start is one slide away from
    /// its predecessor and costs more than it, and no count exceeds `total`.
    spec fn inv(&self, size: int, start: Seq<i32>, goal: Seq<i32>, total: int) -> bool {
        &&& self.len() >= 1
        &&& self.parents@.len() == self.len()
        &&& self.costs@.len() == self.len()
        &&& self.closed@.len() == self.len()
        &&& self.state(0) == start
        &&& self.costs@[0] == 0
        &&& forall|i: int| 0 <= i < self.len() ==> node_ok(size, #[trigger] self.states@[i]@, goal)
        &&& forall|i: int|
            0 < i < self.len() ==> {
                let p = #[trigger] self.parents@[i] as int;
                &&& 0 <= p < self.len()
                &&& self.costs@[p] < self.costs@[i]
                &&& is_move(size, self.state(p), self.state(i))
            }
        &&& forall|i: int| 0 <= i < self.len() ==> #[trigger] self.costs@[i] <= total
        &&& forall|a: int, b: int|
            0 <= a < self.len() && 0 <= b < self.len() && a != b ==> #[trigger] self.states@[a]@
                != #[trigger] self.states@[b]@
        &&& self.filed()
    }

    /// The state `s` was first reached from the state `p`: `p` is the recorded predecessor
    /// of `s`.
    spec fn follows(&self, p: Seq<i32>, s: Seq<i32>) -> bool {
        exists|j: int|
            0 < j < self.len() && #[trigger] self.states@[j]@ == s && self.states@[self.parents@[j] as int]@
                == p
    }

    /// `s` is among the states met so far.
    spec fn discovered(&self, s: Seq<i32>) -> bool {
        exists|j: int| 0 <= j < self.len() && #[trigger] self.states@[j]@ == s
    }

    /// Every neighbour of an expanded state has been met, except maybe those of `open`,
    /// and no expanded state is the goal.
    spec fn expanded_ok(&self, size: int, goal: Seq<i32>, open: int) -> bool {
        &&& forall|i: int, d: Direction|
            0 <= i < self.len() && i != open && self.closed@[i] && #[trigger] moved(
                size,
                self.states@[i]@,
                d,
            ) is Some ==> self.discovered(moved(size, self.states@[i]@, d)->0)
        &&& forall|i: int| 0 <= i < self.len() && #[trigger] self.closed@[i] ==> self.states@[i]@ != goal
    }

    /// The cost of every expanded state is no more than the length of any path to it.
    spec fn closed_optimal(&self, size: int, start: Seq<i32>) -> bool {
        forall|c: int, w: Seq<Seq<i32>>|
            0 <= c < self.len() && self.closed@[c] && #[trigger] is_solution_path(
                size,
                start,
                self.states@[c]@,
                w,
            ) ==> self.costs@[c] <= w.len() - 1
    }

    /// Each unexpanded state is queued at its cost, and no entry ranks below the cost of
    /// its state.
    spec fn entries_ok(
        &self,
        frontier: Seq<(u128, usize)>,
        mode: Mode,
        heuristic: Heuristic,
        size: int,
        goal: Seq<i32>,
    ) -> bool {
        &&& forall|i: int|
            0 <= i < self.len() && !#[trigger] self.closed@[i] ==> queued_at(
                frontier,
                i,
                self.key(mode, heuristic, size, goal, i),
            )
        &&& forall|e: (u128, usize)|
            #[trigger] frontier.contains(e) && e.1 < self.len() ==> self.key(
                mode,
                heuristic,
                size,
                goal,
                e.1 as int,
            ) <= e.0
    }

    /// The exact rank of the state numbered `i` at its current cost.
    spec fn key(&self, mode: Mode, heuristic: Heuristic, size: int, goal: Seq<i32>, i: int) -> int {
        exact_priority(
            mode,
            self.costs@[i] as int,
            heuristic_value(heuristic, size, self.states@[i]@, goal),
        )
    }

    /// `s` was met at a cost of at most `g`.
    spec fn met_within(&self, s: Seq<i32>, g: int) -> bool {
        exists|j: int| 0 <= j < self.len() && #[trigger] self.states@[j]@ == s && self.costs@[j] <= g
    }

    /// Every neighbour of an expanded state other than `open` was met at a cost of at most
    /// one more than that state.
    spec fn neighbours_close(&self, size: int, open: int) -> bool {
        forall|c: int, d: Direction|
            0 <= c < self.len() && c != open && self.closed@[c] && #[trigger] moved(
                size,
                self.states@[c]@,
                d,
            ) is Some ==> self.met_within(moved(size, self.states@[c]@, d)->0, self.costs@[c] + 1)
    }

    /// Every state is filed under its digest, and only states are filed.
    spec fn filed(&self) -> bool {
        &&& forall|i: int|
            0 <= i < self.len() ==> filed_at(self.index@, state_key(#[trigger] self.states@[i]@), i)
        &&& forall|k: u64, c: int|
            self.index@.contains_key(k) && 0 <= c < self.index@[k]@.len() ==> (
            #[trigger] self.index@[k]@[c]) < self.len()
    }

    /// Where `s` stands among the states met so far, if it does.
    fn lookup(&self, s: &[i32]) -> (r: Option<usize>)
        requires
            self.filed(),
        ensures
            match r {
                Some(i) => i < self.len() && self.state(i as int) == s@,
                None => forall|i: int| 0 <= i < self.len() ==> self.state(i) != s@,
            },
    {
        let key = key_of(s);
        match self.index.get(&key) {
            None => {
                proof {
                    assert forall|i: int| 0 <= i < self.len() implies self.state(i) != s@ by {
                        let _ = self.states@[i];
                    }
                }
                None
            },
            Some(bucket) => {
                let mut b: usize = 0;
                while b < bucket.len()
                    invariant
                        self.filed(),
                        self.index@.contains_key(key),
                        bucket@ == self.index@[key]@,
                        key == state_key(s@),
                        b <= bucket@.len(),
                        forall|c: int| 0 <= c < b ==> self.state(bucket@[c] as int) != s@,
                    decreases bucket@.len() - b,
                {
                    let id = bucket[b];
                    proof {
                        assert(self.index@[key]@[b as int] == id);
                    }
                    if same_state(self.states[id].as_slice(), s) {
                        return Some(id);
                    }
                    b += 1;
                }
                proof {
                    assert forall|i: int| 0 <= i < self.len() implies self.state(i) != s@ by {
                        if self.state(i) == s@ {
                            let _ = self.states@[i];
                            let c = choose|c: int|
                                0 <= c < self.index@[key]@.len() && #[trigger] self.index@[key]@[c]
                                    as int == i;
                            assert(self.state(bucket@[c] as int) != s@);
                        }
                    }
                }
                None
            },
        }
    }

    /// Takes note of `nb`, reached in `g` moves through the state `from`: it is recorded
    /// and queued if it is new or cheaper than before.
    fn offer(
        &mut self,
        frontier: &mut Vec<(u128, usize)>,
        puzzle: &Puzzle,
        mode: &Mode,
        heuristic: &Heuristic,
        nb: Node,
        from: usize,
        total: u64,
    )
        requires
            puzzle.is_well_formed(),
            old(self).inv(puzzle.size as int, puzzle.map@, puzzle.goal@, total as int),
            from < old(self).len(),
            old(self).costs@[from as int] < total,
            is_move(puzzle.size as int, old(self).state(from as int), nb@),
            is_grid(puzzle.size as int, nb@),
            tiles_match(puzzle.size as int, nb@, puzzle.goal@),
            forall|e: (u128, usize)| old(frontier)@.contains(e) ==> e.1 < old(self).len(),
            is_heap(old(frontier)@),
            never_overestimates(*mode, *heuristic) ==> old(self).closed_optimal(puzzle.size as int, puzzle.map@)
                && old(self).entries_ok(old(frontier)@, *mode, *heuristic, puzzle.size as int, puzzle.goal@),
        ensures
            final(self).inv(puzzle.size as int, puzzle.map@, puzzle.goal@, total as int),
            final(self).met_within(nb@, old(self).costs@[from as int] + 1),
            forall|t: Seq<i32>, c: int| old(self).met_within(t, c) ==> final(self).met_within(t, c),
            never_overestimates(*mode, *heuristic) ==> final(self).entries_ok(final(frontier)@, *mode, *heuristic, puzzle.size as int, puzzle.goal@),
            never_overestimates(*mode, *heuristic) ==> forall|i: int|
                0 <= i < old(self).len() && #[trigger] old(self).closed@[i] ==> final(self).costs@[i]
                    == old(self).costs@[i],
            is_heap(final(frontier)@),
            final(self).len() >= old(self).len(),
            final(self).closed@.len() >= old(self).closed@.len(),
            forall|i: int| 0 <= i < old(self).len() ==> final(self).state(i) == old(self).state(i),
            forall|i: int|
                0 <= i < old(self).len() ==> final(self).closed@[i] == old(self).closed@[i],
            forall|i: int|
                0 <= i < old(self).len() ==> final(self).costs@[i] <= old(self).costs@[i],
            forall|e: (u128, usize)| final(frontier)@.contains(e) ==> e.1 < final(self).len(),
            final(frontier)@.len() >= old(frontier)@.len(),
            forall|e: (u128, usize)| old(frontier)@.contains(e) ==> final(frontier)@.contains(e),
            forall|i: int|
                old(self).len() <= i < final(self).len() ==> !#[trigger] final(self).closed@[i],
            forall|i: int|
                old(self).len() <= i < final(self).len() ==> #[trigger] queued(final(frontier)@, i),
            final(self).discovered(nb@),
            forall|t: Seq<i32>| old(self).discovered(t) ==> final(self).discovered(t),
            num_closed(final(self).closed@) == num_closed(old(self).closed@),
    {
        let ghost nb_view = nb@;
        let ghost mut pushed: Option<(u128, usize)> = None;
        let g = self.costs[from] + 1;
        let count = self.states.len();
        match self.lookup(nb.as_slice()) {
            Some(j) => {
                proof {
                    if never_overestimates(*mode, *heuristic) && g < self.costs@[j as int] && self.closed@[j as int] {
                        let w0 = lemma_chain_walk(
                            *self,
                            puzzle.size as int,
                            puzzle.map@,
                            puzzle.goal@,
                            total as int,
                            from as int,
                        );
                        let w = w0.push(nb@);
                        assert forall|k: int| 0 <= k < w.len() - 1 implies is_move(
                            puzzle.size as int,
                            #[trigger] w[k],
                            w[k + 1],
                        ) by {
                            if k < w0.len() - 1 {
                                assert(w[k] == w0[k] && w[k + 1] == w0[k + 1]);
                            }
                        }
                        assert(is_solution_path(puzzle.size as int, puzzle.map@, self.states@[j as int]@, w));
                    }
                }
                if g < self.costs[j] {
                    let h = heuristic.evaluate(puzzle.size, nb.as_slice(), puzzle.goal.as_slice());
                    self.parents.set(j, from);
                    self.costs.set(j, g);
                    let entry = (exact_rank(mode, g, h), j);
                    heap_push(frontier, entry);
                    proof {
                        pushed = Some(entry);
                        assert(frontier@.contains(entry));
                        assert(entry.0 as int == self.key(
                            *mode,
                            *heuristic,
                            puzzle.size as int,
                            puzzle.goal@,
                            j as int,
                        ));
                    }
                }
                proof {
                    assert(self.states@[j as int]@ == nb_view);
                }
            },
            None => {
                let h = heuristic.evaluate(puzzle.size, nb.as_slice(), puzzle.goal.as_slice());
                let j = self.states.len();
                let key = key_of(nb.as_slice());
                file_state(&mut self.index, key, j);
                self.states.push(nb);
                self.parents.push(from);
                self.costs.push(g);
                self.closed.push(false);
                let entry = (exact_rank(mode, g, h), j);
                heap_push(frontier, entry);
                proof {
                    pushed = Some(entry);
                    assert(frontier@.contains(entry));
                    assert(self.states@[j as int]@ == nb_view);
                    assert(entry.0 as int == self.key(
                        *mode,
                        *heuristic,
                        puzzle.size as int,
                        puzzle.goal@,
                        j as int,
                    ));
                    lemma_num_closed_push(old(self).closed@);
                    assert forall|a: int, b: int|
                        0 <= a < self.len() && 0 <= b < self.len() && a != b implies #[trigger] self.states@[a]@
                        != #[trigger] self.states@[b]@ by {
                        if a < old(self).len() && b < old(self).len() {
                            let _ = old(self).states@[a];
                            let _ = old(self).states@[b];
                        } else if a < old(self).len() {
                            assert(old(self).state(a) != nb_view);
                        } else if b < old(self).len() {
                            assert(old(self).state(b) != nb_view);
                        }
                    }
                }
            },
        }
        proof {
            let s = *self;
            assert forall|i: int| 0 < i < s.len() implies {
                let p = #[trigger] s.parents@[i] as int;
                &&& 0 <= p < s.len()
                &&& s.costs@[p] < s.costs@[i]
                &&& is_move(puzzle.size as int, s.state(p), s.state(i))
            } by {
                if i < old(self).len() {
                    let _ = old(self).parents@[i];
                }
            }
            assert forall|i: int| 0 <= i < s.len() implies node_ok(
                puzzle.size as int,
                #[trigger] s.states@[i]@,
                puzzle.goal@,
            ) by {
                if i < old(self).len() {
                    let _ = old(self).states@[i];
                }
            }
            lemma_still_filed(*old(self), s, count);
            assert forall|t: Seq<i32>, c: int| old(self).met_within(t, c) implies s.met_within(t, c) by {
                let j = choose|j: int|
                    0 <= j < old(self).len() && #[trigger] old(self).states@[j]@ == t
                        && old(self).costs@[j] <= c;
                assert(s.states@[j]@ == t);
            }
            assert(s.met_within(nb_view, old(self).costs@[from as int] + 1)) by {
                let j = choose|j: int| 0 <= j < s.len() && #[trigger] s.states@[j]@ == nb_view;
                assert(s.states@[j]@ == nb_view);
            }
            if never_overestimates(*mode, *heuristic) {
                let sz = puzzle.size as int;
                let gl = puzzle.goal@;
                assert forall|i: int|
                    0 <= i < s.len() && !#[trigger] s.closed@[i] implies queued_at(
                    frontier@,
                    i,
                    s.key(*mode, *heuristic, sz, gl, i),
                ) by {
                    if i < old(self).len() && s.costs@[i] == old(self).costs@[i] {
                        assert(!old(self).closed@[i]);
                        assert(s.states@[i] == old(self).states@[i]);
                        let e = choose|e: (u128, usize)|
                            #[trigger] old(frontier)@.contains(e) && e.1 as int == i && e.0 as int
                                == old(self).key(*mode, *heuristic, sz, gl, i);
                        assert(frontier@.contains(e));
                    } else {
                        assert(pushed is Some && (pushed->0).1 == i);
                        assert(frontier@.contains(pushed->0));
                    }
                }
                assert forall|e: (u128, usize)|
                    #[trigger] frontier@.contains(e) && e.1 < s.len() implies s.key(
                    *mode,
                    *heuristic,
                    sz,
                    gl,
                    e.1 as int,
                ) <= e.0 by {
                    if old(frontier)@.contains(e) {
                        assert(s.states@[e.1 as int] == old(self).states@[e.1 as int]);
                        assert(old(self).key(*mode, *heuristic, sz, gl, e.1 as int) <= e.0);
                    } else {
                        assert(pushed == Some(e));
                    }
                }
            }
            assert forall|t: Seq<i32>| old(self).discovered(t) implies s.discovered(t) by {
                let j = choose|j: int| 0 <= j < old(self).len() && #[trigger] old(self).states@[j]@
                    == t;
                assert(s.states@[j]@ == t);
            }
        }
    }

    /// Expands the state numbered `id`: offers each of its neighbours.
    fn expand(
        &mut self,
        frontier: &mut Vec<(u128, usize)>,
        puzzle: &Puzzle,
        mode: &Mode,
        heuristic: &Heuristic,
        id: usize,
        total_used_states: u64,
    )
        requires
            puzzle.is_well_formed(),
            old(self).inv(puzzle.size as int, puzzle.map@, puzzle.goal@, total_used_states as int),
            id < old(self).len(),
            old(self).costs@[id as int] < total_used_states,
            old(self).closed@[id as int],
            forall|e: (u128, usize)| old(frontier)@.contains(e) ==> e.1 < old(self).len(),
            forall|i: int|
                0 <= i < old(self).len() && !#[trigger] old(self).closed@[i] ==> queued(
                    old(frontier)@,
                    i,
                ),
            old(self).expanded_ok(puzzle.size as int, puzzle.goal@, id as int),
            is_heap(old(frontier)@),
            never_overestimates(*mode, *heuristic) ==> old(self).closed_optimal(puzzle.size as int, puzzle.map@)
                && old(self).entries_ok(old(frontier)@, *mode, *heuristic, puzzle.size as int, puzzle.goal@) && old(self).neighbours_close(
                puzzle.size as int,
                id as int,
            ),
        ensures
            never_overestimates(*mode, *heuristic) ==> final(self).closed_optimal(puzzle.size as int, puzzle.map@)
                && final(self).entries_ok(final(frontier)@, *mode, *heuristic, puzzle.size as int, puzzle.goal@) && final(self).neighbours_close(
                puzzle.size as int,
                -1,
            ),
            final(self).inv(puzzle.size as int, puzzle.map@, puzzle.goal@, total_used_states as int),
            is_heap(final(frontier)@),
            forall|e: (u128, usize)| final(frontier)@.contains(e) ==> e.1 < final(self).len(),
            forall|i: int|
                0 <= i < final(self).len() && !#[trigger] final(self).closed@[i] ==> queued(
                    final(frontier)@,
                    i,
                ),
            final(self).expanded_ok(puzzle.size as int, puzzle.goal@, -1),
            num_closed(final(self).closed@) == num_closed(old(self).closed@),
    {
        let size = puzzle.size;
        proof {
            let _ = self.states@[id as int];
        }
        let nbrs = neighbors(size, self.states[id].as_slice());
        let ghost current = self.state(id as int);
        let mut k: usize = 0;
        while k < 4
            invariant
                puzzle.is_well_formed(),
                size == puzzle.size,
                self.inv(size as int, puzzle.map@, puzzle.goal@, total_used_states as int),
                id < self.len(),
                self.state(id as int) == current,
                self.costs@[id as int] < total_used_states,
                is_grid(size as int, current),
                tiles_match(size as int, current, puzzle.goal@),
                opt_view(nbrs@[0]) == moved(size as int, current, Direction::Left),
                opt_view(nbrs@[1]) == moved(size as int, current, Direction::Right),
                opt_view(nbrs@[2]) == moved(size as int, current, Direction::Down),
                opt_view(nbrs@[3]) == moved(size as int, current, Direction::Up),
                forall|e: (u128, usize)| frontier@.contains(e) ==> e.1 < self.len(),
                is_heap(frontier@),
                num_closed(self.closed@) == num_closed(old(self).closed@),
                never_overestimates(*mode, *heuristic) ==> self.closed_optimal(size as int, puzzle.map@)
                    && self.entries_ok(frontier@, *mode, *heuristic, puzzle.size as int, puzzle.goal@) && self.neighbours_close(size as int, id as int)
                    && self.costs@[id as int] == old(self).costs@[id as int],
                never_overestimates(*mode, *heuristic) ==> forall|dd: Direction|
                    direction_rank(dd) < k && #[trigger] moved(size as int, current, dd) is Some
                        ==> self.met_within(
                        moved(size as int, current, dd)->0,
                        self.costs@[id as int] + 1,
                    ),
                k <= 4,
                self.closed@[id as int],
                forall|i: int|
                    0 <= i < self.len() && !#[trigger] self.closed@[i] ==> queued(frontier@, i),
                self.expanded_ok(size as int, puzzle.goal@, id as int),
                forall|d: Direction|
                    direction_rank(d) < k && #[trigger] moved(size as int, current, d) is Some
                        ==> self.discovered(moved(size as int, current, d)->0),
            decreases 4 - k,
        {
            let ghost d = if k == 0 {
                Direction::Left
            } else if k == 1 {
                Direction::Right
            } else if k == 2 {
                Direction::Down
            } else {
                Direction::Up
            };
            match &nbrs[k] {
                Some(nb) => {
                    proof {
                        assert(opt_view(nbrs@[k as int]) == moved(size as int, current, d));
                        lemma_moved_well_formed(size as int, current, puzzle.goal@, d);
                        assert(is_move(size as int, current, nb@));
                    }
                    let ghost before_offer = *self;
                    let ghost frontier_before = frontier@;
                    self.offer(
                        frontier,
                        puzzle,
                        mode,
                        heuristic,
                        copy_state(nb.as_slice()),
                        id,
                        total_used_states,
                    );
                    proof {
                        assert forall|i: int|
                            0 <= i < self.len() && !self.closed@[i] implies queued(
                            frontier@,
                            i,
                        ) by {
                            if i < before_offer.len() {
                                let e = choose|e: (u128, usize)|
                                    #[trigger] frontier_before.contains(e) && e.1 as int == i;
                                assert(frontier@.contains(e));
                            }
                        }
                        assert forall|i: int, dd: Direction|
                            0 <= i < self.len() && i != id && self.closed@[i]
                                && #[trigger] moved(
                                size as int,
                                self.states@[i]@,
                                dd,
                            ) is Some implies self.discovered(
                            moved(size as int, self.states@[i]@, dd)->0,
                        ) by {
                            assert(i < before_offer.len());
                            assert(self.state(i) == before_offer.state(i));
                            assert(moved(size as int, before_offer.states@[i]@, dd) is Some);
                        }
                        if never_overestimates(*mode, *heuristic) {
                            assert forall|c: int, w: Seq<Seq<i32>>|
                                0 <= c < self.len() && self.closed@[c] && #[trigger] is_solution_path(
                                    size as int,
                                    puzzle.map@,
                                    self.states@[c]@,
                                    w,
                                ) implies self.costs@[c] <= w.len() - 1 by {
                                assert(c < before_offer.len());
                                assert(before_offer.closed@[c]);
                                assert(self.state(c) == before_offer.state(c));
                            }
                            assert forall|c: int, dd: Direction|
                                0 <= c < self.len() && c != id && self.closed@[c]
                                    && #[trigger] moved(
                                    size as int,
                                    self.states@[c]@,
                                    dd,
                                ) is Some implies self.met_within(
                                moved(size as int, self.states@[c]@, dd)->0,
                                self.costs@[c] + 1,
                            ) by {
                                assert(c < before_offer.len());
                                assert(before_offer.closed@[c]);
                                assert(self.state(c) == before_offer.state(c));
                                assert(moved(size as int, before_offer.states@[c]@, dd) is Some);
                            }
                            assert forall|dd: Direction|
                                direction_rank(dd) < k + 1 && #[trigger] moved(
                                    size as int,
                                    current,
                                    dd,
                                ) is Some implies self.met_within(
                                moved(size as int, current, dd)->0,
                                self.costs@[id as int] + 1,
                            ) by {
                                if direction_rank(dd) == k {
                                    assert(dd == d);
                                } else {
                                    assert(before_offer.met_within(
                                        moved(size as int, current, dd)->0,
                                        before_offer.costs@[id as int] + 1,
                                    ));
                                }
                            }
                        }
                        assert forall|i: int|
                            0 <= i < self.len() && #[trigger] self.closed@[i] implies self.states@[i]@
                            != puzzle.goal@ by {
                            assert(i < before_offer.len());
                            assert(before_offer.closed@[i]);
                            assert(self.state(i) == before_offer.state(i));
                        }
                    }
                },
                None => {},
            }
            proof {
                assert forall|dd: Direction|
                    direction_rank(dd) < k + 1 && #[trigger] moved(size as int, current, dd) is Some
                        implies self.discovered(moved(size as int, current, dd)->0) by {
                    if direction_rank(dd) == k {
                        assert(dd == d);
                        assert(opt_view(nbrs@[k as int]) == moved(size as int, current, d));
                    }
                }
            }
            k += 1;
        }
        proof {
            assert forall|i: int, dd: Direction|
                0 <= i < self.len() && i != -1 && self.closed@[i] && #[trigger] moved(
                    size as int,
                    self.states@[i]@,
                    dd,
                ) is Some implies self.discovered(
                moved(size as int, self.states@[i]@, dd)->0,
            ) by {
                if i == id {
                    assert(direction_rank(dd) < 4);
                    assert(self.states@[i]@ == current);
                }
            }
        }
    }

    /// The path to the goal, found as the state numbered `id`.
    fn found(&self, id: usize, puzzle: &Puzzle, total: u64) -> (r: Vec<Node>)
        requires
            self.inv(puzzle.size as int, puzzle.map@, puzzle.goal@, total as int),
            id < self.len(),
            self.state(id as int) == puzzle.goal@,
        ensures
            is_solution_path(puzzle.size as int, puzzle.map@, puzzle.goal@, steps_view(r@)),
            forall|a: int, b: int|
                0 <= a < r@.len() && 0 <= b < r@.len() && a != b ==> #[trigger] r@[a]@
                    != #[trigger] r@[b]@,
            puzzle.map@ == puzzle.goal@ ==> r@.len() == 1,
            r@.len() - 1 <= self.costs@[id as int],
            !(is_arrangement(puzzle.size as int, puzzle.map@, puzzle.goal@) && !solvable(
                puzzle.size as int,
                puzzle.map@,
                puzzle.goal@,
            )),
    {
        proof {
            if puzzle.map@ == puzzle.goal@ && id != 0 {
                let _ = self.states@[0];
                let _ = self.states@[id as int];
            }
        }
        let steps = if id == 0 {
            let mut only: Vec<Node> = Vec::new();
            only.push(copy_state(puzzle.map.as_slice()));
            proof {
                let v = steps_view(only@);
                assert(v[0] == puzzle.map@);
            }
            only
        } else {
            let steps = self.path_to(id, puzzle, total);
            proof {
                assert forall|a: int, b: int|
                    0 <= a < steps@.len() && 0 <= b < steps@.len() && a != b implies #[trigger] steps@[a]@
                    != #[trigger] steps@[b]@ by {
                    assert(steps_view(steps@)[a] != steps_view(steps@)[b]);
                }
            }
            steps
        };
        proof {
            if is_arrangement(puzzle.size as int, puzzle.map@, puzzle.goal@) && !solvable(
                puzzle.size as int,
                puzzle.map@,
                puzzle.goal@,
            ) {
                lemma_unsolvable_has_no_path(
                    puzzle.size as int,
                    puzzle.map@,
                    puzzle.goal@,
                    steps_view(steps@),
                );
            }
        }
        steps
    }

    /// The states from the start to state `id`, each the recorded predecessor of the next.
    fn path_to(&self, id: usize, puzzle: &Puzzle, total: u64) -> (r: Vec<Node>)
        requires
            self.inv(puzzle.size as int, puzzle.map@, puzzle.goal@, total as int),
            id < self.len(),
        ensures
            is_solution_path(puzzle.size as int, puzzle.map@, self.state(id as int), steps_view(r@)),
            r@.len() - 1 <= self.costs@[id as int],
            forall|k: int|
                0 <= k < r@.len() - 1 ==> self.follows(
                    #[trigger] steps_view(r@)[k],
                    steps_view(r@)[k + 1],
                ),
            forall|a: int, b: int|
                0 <= a < r@.len() && 0 <= b < r@.len() && a != b ==> #[trigger] steps_view(r@)[a]
                    != #[trigger] steps_view(r@)[b],
    {
        let ghost size = puzzle.size;
        let ghost start = puzzle.map@;
        let ghost goal = puzzle.goal@;
        let mut rev: Vec<Node> = Vec::new();
        rev.push(copy_state(self.states[id].as_slice()));
        let mut cur: usize = id;
        let ghost mut ids: Seq<int> = seq![id as int];
        while cur != 0
            invariant
                self.inv(size as int, start, goal, total as int),
                cur < self.len(),
                rev@.len() >= 1,
                ids.len() == rev@.len(),
                ids[0] == id,
                ids[ids.len() - 1] == cur,
                forall|k: int|
                    0 <= k < ids.len() ==> 0 <= #[trigger] ids[k] < self.len() && rev@[k]@
                        == self.state(ids[k]),
                forall|k: int|
                    0 <= k < ids.len() - 1 ==> #[trigger] ids[k] != 0 && self.parents@[ids[k]]
                        as int == ids[k + 1],
                forall|a: int, b: int|
                    0 <= a < b < ids.len() ==> self.costs@[#[trigger] ids[b]] < self.costs@[#[trigger] ids[a]],
            decreases self.costs@[cur as int],
        {
            proof {
                let _ = self.parents@[cur as int];
            }
            let ghost old_ids = ids;
            let ghost last = cur as int;
            cur = self.parents[cur];
            rev.push(copy_state(self.states[cur].as_slice()));
            proof {
                ids = ids.push(cur as int);
                assert forall|a: int, b: int|
                    0 <= a < b < ids.len() implies self.costs@[#[trigger] ids[b]] < self.costs@[#[trigger] ids[a]] by {
                    if b == ids.len() - 1 {
                        assert(ids[b] == cur);
                        if a < b - 1 {
                            assert(self.costs@[old_ids[old_ids.len() - 1]] < self.costs@[old_ids[a]]);
                        }
                    } else {
                        assert(ids[a] == old_ids[a]);
                        assert(ids[b] == old_ids[b]);
                    }
                }
                assert forall|k: int| 0 <= k < ids.len() - 1 implies #[trigger] ids[k] != 0
                    && self.parents@[ids[k]] as int == ids[k + 1] by {
                    if k == ids.len() - 2 {
                        assert(ids[k] == last);
                    } else {
                        assert(ids[k] == old_ids[k]);
                        assert(ids[k + 1] == old_ids[k + 1]);
                    }
                }
                assert forall|k: int| 0 <= k < ids.len() implies 0 <= #[trigger] ids[k] < self.len()
                    && rev@[k]@ == self.state(ids[k]) by {
                    if k < ids.len() - 1 {
                        assert(ids[k] == old_ids[k]);
                    }
                }
            }
        }
        let mut steps: Vec<Node> = Vec::new();
        let mut i: usize = rev.len();
        while i > 0
            invariant
                i <= rev@.len(),
                rev@.len() >= 1,
                steps@.len() == rev@.len() - i,
                forall|k: int| 0 <= k < steps@.len() ==> #[trigger] steps@[k]@ == rev@[rev@.len() - 1 - k]@,
            decreases i,
        {
            i -= 1;
            steps.push(copy_state(rev[i].as_slice()));
        }
        proof {
            let n = rev@.len();
            assert forall|k: int| 0 <= k < n implies #[trigger] steps_view(steps@)[k]
                == steps_view(rev@)[n - 1 - k] by {}
            assert forall|k: int| 0 <= k < n implies #[trigger] steps_view(rev@)[k] == self.state(
                ids[k],
            ) by {}
            lemma_reversed_chain(*self, size as int, start, goal, total as int, steps_view(rev@), ids, steps_view(steps@));
        }
        steps
    }
}

/// The reverse of a chain of recorded predecessors, from the start, is a path of distinct
/// states, each the recorded predecessor of the next.
/// Costs that fall at every step fall by at least one per step.
proof fn lemma_descending(e: Explored, ids: Seq<int>, k: int)
    requires
        0 <= k < ids.len(),
        forall|a: int, b: int|
            0 <= a < b < ids.len() ==> e.costs@[#[trigger] ids[b]] < e.costs@[#[trigger] ids[a]],
    ensures
        e.costs@[ids[0]] >= e.costs@[ids[k]] + k,
    decreases k,
{
    if k > 0 {
        lemma_descending(e, ids, k - 1);
        assert(e.costs@[ids[k]] < e.costs@[ids[k - 1]]);
    }
}

#[verifier::rlimit(30)]
proof fn lemma_reversed_chain(
    e: Explored,
    size: int,
    start: Seq<i32>,
    goal: Seq<i32>,
    total: int,
    rv: Seq<Seq<i32>>,
    ids: Seq<int>,
    sv: Seq<Seq<i32>>,
)
    requires
        e.inv(size, start, goal, total),
        rv.len() >= 1,
        ids.len() == rv.len(),
        sv.len() == rv.len(),
        ids[ids.len() - 1] == 0,
        forall|k: int| 0 <= k < rv.len() ==> #[trigger] sv[k] == rv[rv.len() - 1 - k],
        forall|k: int|
            0 <= k < ids.len() ==> 0 <= #[trigger] ids[k] < e.len() && rv[k] == e.state(ids[k]),
        forall|k: int|
            0 <= k < ids.len() - 1 ==> #[trigger] ids[k] != 0 && e.parents@[ids[k]] as int == ids[k
                + 1],
        forall|a: int, b: int|
            0 <= a < b < ids.len() ==> e.costs@[#[trigger] ids[b]] < e.costs@[#[trigger] ids[a]],
    ensures
        is_solution_path(size, start, rv[0], sv),
        sv.len() - 1 <= e.costs@[ids[0]],
        forall|k: int| 0 <= k < sv.len() - 1 ==> e.follows(#[trigger] sv[k], sv[k + 1]),
        forall|a: int, b: int|
            0 <= a < sv.len() && 0 <= b < sv.len() && a != b ==> #[trigger] sv[a] != #[trigger] sv[b],
{
    let n = rv.len() as int;
    lemma_descending(e, ids, n - 1);
    assert(e.costs@[ids[n - 1]] >= 0);
    assert(sv[0] == rv[n - 1]);
    assert(sv[n - 1] == rv[0]);
    assert(rv[n - 1] == e.state(0));
    assert forall|k: int| 0 <= k < sv.len() - 1 implies e.follows(#[trigger] sv[k], sv[k + 1]) by {
        let j = ids[n - 2 - k];
        assert(sv[k + 1] == rv[n - 2 - k]);
        assert(sv[k] == rv[n - 1 - k]);
        assert(e.parents@[ids[n - 2 - k]] as int == ids[n - 1 - k]);
        assert(0 < j < e.len() && e.states@[j]@ == sv[k + 1]);
    }
    assert forall|k: int| 0 <= k < sv.len() - 1 implies is_move(size, #[trigger] sv[k], sv[k + 1]) by {
        assert(e.follows(sv[k], sv[k + 1]));
        let j = choose|j: int|
            0 < j < e.len() && #[trigger] e.states@[j]@ == sv[k + 1] && e.states@[e.parents@[j]
                as int]@ == sv[k];
        let _ = e.parents@[j];
    }
    assert forall|a: int, b: int|
        0 <= a < sv.len() && 0 <= b < sv.len() && a != b implies #[trigger] sv[a] != #[trigger] sv[b] by {
        let ia = ids[n - 1 - a];
        let ib = ids[n - 1 - b];
        if n - 1 - a < n - 1 - b {
            assert(e.costs@[ib] < e.costs@[ia]);
        } else {
            assert(e.costs@[ia] < e.costs@[ib]);
        }
        assert(sv[a] == e.state(ia));
        assert(sv[b] == e.state(ib));
        let _ = e.states@[ia];
        let _ = e.states@[ib];
    }
}

/// Following recorded predecessors from the state numbered `i` back to the start gives a
/// path from the start to it with no more moves than its cost.
proof fn lemma_chain_walk(
    e: Explored,
    size: int,
    start: Seq<i32>,
    goal: Seq<i32>,
    total: int,
    i: int,
) -> (w: Seq<Seq<i32>>)
    requires
        e.inv(size, start, goal, total),
        0 <= i < e.len(),
    ensures
        is_solution_path(size, start, e.state(i), w),
        w.len() - 1 <= e.costs@[i],
    decreases e.costs@[i],
{
    if i == 0 {
        let w = seq![e.state(0)];
        assert(w[w.len() - 1] == e.state(0));
        w
    } else {
        let _ = e.parents@[i];
        let p = e.parents@[i] as int;
        let w0 = lemma_chain_walk(e, size, start, goal, total, p);
        let w = w0.push(e.state(i));
        assert forall|k: int| 0 <= k < w.len() - 1 implies is_move(size, #[trigger] w[k], w[k + 1]) by {
            if k < w0.len() - 1 {
                assert(w[k] == w0[k] && w[k + 1] == w0[k + 1]);
            } else {
                assert(w[k] == e.state(p));
            }
        }
        assert(w[0] == w0[0]);
        w
    }
}

/// The first `k + 1` states of `w` were each met and expanded at a cost of at most their
/// position.
spec fn settled_upto(e: Explored, w: Seq<Seq<i32>>, k: int) -> bool {
    forall|m: int| 0 <= m <= k ==> #[trigger] settled_at(e, w[m], m)
}

/// `s` was met and expanded at a cost of at most `m`.
spec fn settled_at(e: Explored, s: Seq<i32>, m: int) -> bool {
    exists|j: int| 0 <= j < e.len() && e.closed@[j] && #[trigger] e.states@[j]@ == s && e.costs@[j] <= m
}

/// One of the first `k + 1` states of `w` was met, but not expanded, at a cost of at most
/// its position.
spec fn open_hit(e: Explored, w: Seq<Seq<i32>>, k: int) -> bool {
    exists|m: int, j: int|
        0 <= m <= k && 0 <= j < e.len() && !e.closed@[j] && #[trigger] e.states@[j]@ == #[trigger] w[m]
            && e.costs@[j] <= m
}

proof fn lemma_walk_open(
    e: Explored,
    size: int,
    start: Seq<i32>,
    goal: Seq<i32>,
    total: int,
    w: Seq<Seq<i32>>,
    k: int,
)
    requires
        e.inv(size, start, goal, total),
        e.neighbours_close(size, -1),
        w.len() >= 1,
        w[0] == start,
        is_walk(size, w),
        0 <= k < w.len(),
    ensures
        settled_upto(e, w, k) || open_hit(e, w, k),
    decreases k,
{
    if k == 0 {
        let _ = e.states@[0];
        if e.closed@[0] {
            assert forall|m: int| 0 <= m <= k implies #[trigger] settled_at(e, w[m], m) by {
                assert(e.states@[0]@ == w[0]);
            }
        } else {
            assert(e.states@[0]@ == w[0]);
        }
    } else {
        lemma_walk_open(e, size, start, goal, total, w, k - 1);
        if open_hit(e, w, k - 1) {
            let (m, j) = choose|m: int, j: int|
                0 <= m <= k - 1 && 0 <= j < e.len() && !e.closed@[j] && #[trigger] e.states@[j]@
                    == #[trigger] w[m] && e.costs@[j] <= m;
            assert(e.states@[j]@ == w[m]);
        } else {
            assert(settled_at(e, w[k - 1], k - 1));
            let c = choose|j: int|
                0 <= j < e.len() && e.closed@[j] && #[trigger] e.states@[j]@ == w[k - 1]
                    && e.costs@[j] <= k - 1;
            assert(is_move(size, w[k - 1], w[k]));
            let d = choose|d: Direction| #[trigger] moved(size, w[k - 1], d) == Some(w[k]);
            assert(moved(size, e.states@[c]@, d) is Some);
            let j = choose|j: int|
                0 <= j < e.len() && #[trigger] e.states@[j]@ == w[k] && e.costs@[j] <= e.costs@[c]
                    + 1;
            if e.closed@[j] {
                assert forall|m: int| 0 <= m <= k implies #[trigger] settled_at(e, w[m], m) by {
                    if m == k {
                        assert(e.states@[j]@ == w[m]);
                    }
                }
            } else {
                assert(e.states@[j]@ == w[k]);
            }
        }
    }
}

/// Along a walk, the Manhattan or Hamming distance of a state is no more than the moves
/// left on the walk plus the distance of its last state.
proof fn lemma_consistent(
    heuristic: Heuristic,
    size: int,
    goal: Seq<i32>,
    w: Seq<Seq<i32>>,
    m: int,
)
    requires
        heuristic == Heuristic::Manhattan || heuristic == Heuristic::Hamming,
        w.len() >= 1,
        is_walk(size, w),
        is_grid(size, w[0]),
        tiles_match(size, w[0], goal),
        0 <= m < w.len(),
    ensures
        heuristic_value(heuristic, size, w[m], goal) <= (w.len() - 1 - m) + heuristic_value(
            heuristic,
            size,
            w[w.len() - 1],
            goal,
        ),
    decreases w.len() - m,
{
    if m < w.len() - 1 {
        lemma_consistent(heuristic, size, goal, w, m + 1);
        lemma_walk_well_formed(size, goal, w, m);
        assert(is_move(size, w[m], w[m + 1]));
        let d = choose|d: Direction| #[trigger] moved(size, w[m], d) == Some(w[m + 1]);
        lemma_one_move_changes_estimate_by_one(size, w[m], goal, d);
    }
}

/// When the mode and estimate never overestimate, the state that leaves the queue first
/// costs no more than the length of any path to it.
proof fn lemma_pop_optimal(
    e: Explored,
    mode: Mode,
    heuristic: Heuristic,
    size: int,
    start: Seq<i32>,
    goal: Seq<i32>,
    total: int,
    before: Seq<(u128, usize)>,
    popped: (u128, usize),
)
    requires
        never_overestimates(mode, heuristic),
        e.inv(size, start, goal, total),
        e.entries_ok(before, mode, heuristic, size, goal),
        e.neighbours_close(size, -1),
        before.contains(popped),
        forall|x: (u128, usize)| before.contains(x) ==> popped.0 <= x.0,
        popped.1 < e.len(),
        !e.closed@[popped.1 as int],
    ensures
        forall|w: Seq<Seq<i32>>|
            #[trigger] is_solution_path(size, start, e.states@[popped.1 as int]@, w)
                ==> e.costs@[popped.1 as int] <= w.len() - 1,
{
    let c = popped.1 as int;
    assert forall|w: Seq<Seq<i32>>|
        #[trigger] is_solution_path(size, start, e.states@[c]@, w) implies e.costs@[c] <= w.len()
        - 1 by {
        let k = w.len() - 1;
        lemma_walk_open(e, size, start, goal, total, w, k);
        if settled_upto(e, w, k) {
            assert(settled_at(e, w[k], k));
            let j = choose|j: int|
                0 <= j < e.len() && e.closed@[j] && #[trigger] e.states@[j]@ == w[k] && e.costs@[j]
                    <= k;
            let _ = e.states@[c];
            let _ = e.states@[j];
        } else {
            let (m, j) = choose|m: int, j: int|
                0 <= m <= k && 0 <= j < e.len() && !e.closed@[j] && #[trigger] e.states@[j]@
                    == #[trigger] w[m] && e.costs@[j] <= m;
            let x = choose|x: (u128, usize)|
                #[trigger] before.contains(x) && x.1 as int == j && x.0 as int == e.key(
                    mode,
                    heuristic,
                    size,
                    goal,
                    j,
                );
            assert(popped.0 <= x.0);
            assert(e.key(mode, heuristic, size, goal, c) <= popped.0);
            if mode == Mode::Normal {
                let _ = e.states@[0];
                assert(w[0] == e.states@[0]@);
                lemma_consistent(heuristic, size, goal, w, m);
            }
        }
    }
}

/// Number of expanded states.
spec fn num_closed(c: Seq<bool>) -> int
    decreases c.len(),
{
    if c.len() == 0 {
        0
    } else {
        num_closed(c.drop_last()) + if c.last() {
            1int
        } else {
            0
        }
    }
}

proof fn lemma_num_closed_bound(c: Seq<bool>)
    ensures
        0 <= num_closed(c) <= c.len(),
    decreases c.len(),
{
    if c.len() > 0 {
        lemma_num_closed_bound(c.drop_last());
    }
}

proof fn lemma_num_closed_push(c: Seq<bool>)
    ensures
        num_closed(c.push(false)) == num_closed(c),
{
    assert(c.push(false).drop_last() =~= c);
}

/// Marking an unexpanded state expanded adds one to the count.
proof fn lemma_num_closed_mark(c: Seq<bool>, i: int)
    requires
        0 <= i < c.len(),
        !c[i],
    ensures
        num_closed(c.update(i, true)) == num_closed(c) + 1,
        num_closed(c) < c.len(),
    decreases c.len(),
{
    let u = c.update(i, true);
    if i == c.len() - 1 {
        assert(u.drop_last() =~= c.drop_last());
        lemma_num_closed_bound(c.drop_last());
    } else {
        assert(u.drop_last() =~= c.drop_last().update(i, true));
        lemma_num_closed_mark(c.drop_last(), i);
    }
}

/// Filing a new last state, or changing nothing but costs, parents and marks, keeps every
/// state filed.
proof fn lemma_still_filed(a: Explored, b: Explored, j: usize)
    requires
        a.filed(),
        j == a.len(),
        b.len() >= a.len(),
        forall|i: int| 0 <= i < a.len() ==> b.states@[i] == a.states@[i],
        b.len() == a.len() ==> b.index@ == a.index@,
        b.len() == a.len() + 1 ==> {
            let key = state_key(b.states@[a.len()]@);
            &&& b.index@.contains_key(key)
            &&& b.index@[key]@ == (if a.index@.contains_key(key) {
                a.index@[key]@
            } else {
                Seq::<usize>::empty()
            }).push(j)
            &&& forall|k: u64|
                k != key ==> (#[trigger] b.index@.contains_key(k) == a.index@.contains_key(k))
            &&& forall|k: u64| k != key && a.index@.contains_key(k) ==> #[trigger] b.index@[k]
                == a.index@[k]
        },
        b.len() <= a.len() + 1,
    ensures
        b.filed(),
{
    if b.len() == a.len() + 1 {
        let key = state_key(b.states@[a.len()]@);
        assert forall|i: int| 0 <= i < b.len() implies filed_at(
            b.index@,
            state_key(#[trigger] b.states@[i]@),
            i,
        ) by {
            if i < a.len() {
                let _ = a.states@[i];
                let k = state_key(a.states@[i]@);
                let c = choose|c: int|
                    0 <= c < a.index@[k]@.len() && #[trigger] a.index@[k]@[c] as int == i;
                assert(b.index@[k]@[c] == a.index@[k]@[c]);
            } else {
                let n = b.index@[key]@.len() - 1;
                assert(b.index@[key]@[n] as int == i);
            }
        }
        assert forall|k: u64, c: int|
            b.index@.contains_key(k) && 0 <= c < b.index@[k]@.len() implies (
            #[trigger] b.index@[k]@[c]) < b.len() by {
            if k == key {
                if c < b.index@[k]@.len() - 1 {
                    assert(b.index@[k]@[c] == a.index@[k]@[c]);
                }
            }
        }
    } else {
        assert forall|i: int| 0 <= i < b.len() implies filed_at(
            b.index@,
            state_key(#[trigger] b.states@[i]@),
            i,
        ) by {
            let _ = a.states@[i];
        }
    }
}

/// When every state met is expanded, every walk from the start stays among them.
proof fn lemma_walk_stays_discovered(
    e: Explored,
    size: int,
    goal: Seq<i32>,
    steps: Seq<Seq<i32>>,
    i: int,
)
    requires
        e.len() >= 1,
        e.closed@.len() == e.len(),
        forall|j: int| 0 <= j < e.len() ==> #[trigger] e.closed@[j],
        e.expanded_ok(size, goal, -1),
        steps.len() >= 1,
        steps[0] == e.states@[0]@,
        is_walk(size, steps),
        0 <= i < steps.len(),
    ensures
        e.discovered(steps[i]),
    decreases i,
{
    if i == 0 {
        assert(e.states@[0]@ == steps[0]);
    } else {
        lemma_walk_stays_discovered(e, size, goal, steps, i - 1);
        assert(is_move(size, steps[i - 1], steps[i]));
        let d = choose|d: Direction| #[trigger] moved(size, steps[i - 1], d) == Some(steps[i]);
        let j = choose|j: int| 0 <= j < e.len() && #[trigger] e.states@[j]@ == steps[i - 1];
        assert(e.closed@[j]);
        assert(moved(size, e.states@[j]@, d) is Some);
    }
}

/// Best-first search from the start of `puzzle` to its goal. States are ranked exactly as
/// `mode` says, with `heuristic` as the estimate, and kept in a binary heap, which settles
/// ties between equal ranks. A state already expanded is not expanded again.
///
/// The result is a path exactly when one leads from the start to the goal; it never
/// repeats a state, each of its states is the recorded predecessor of the next, and when
/// the start is the goal it is that single state, found at the first examination. In
/// uniform mode, and in normal mode with the Manhattan or Hamming distance, no path to the
/// goal is shorter.
pub fn solve(puzzle: &Puzzle, mode: Mode, heuristic: Heuristic) -> (r: Result<Solution, SolveError>)
    requires
        puzzle.is_well_formed(),
    ensures
        r matches Ok(sol) ==> is_solution_path(
            puzzle.size as int,
            puzzle.map@,
            puzzle.goal@,
            steps_view(sol.steps@),
        ) && sol.total_used_states >= 1 && sol.biggest_state >= 1,
        puzzle.map@ == puzzle.goal@ ==> (r matches Ok(sol) && sol.steps@.len() == 1
            && sol.total_used_states == 1),
        is_arrangement(puzzle.size as int, puzzle.map@, puzzle.goal@) && !solvable(
            puzzle.size as int,
            puzzle.map@,
            puzzle.goal@,
        ) ==> r is Err,
        r matches Err(SolveError::NoSolution) ==> forall|steps: Seq<Seq<i32>>|
            !#[trigger] is_solution_path(puzzle.size as int, puzzle.map@, puzzle.goal@, steps),
        r matches Err(e) ==> e == SolveError::NoSolution,
        r is Ok <==> exists|steps: Seq<Seq<i32>>|
            #[trigger] is_solution_path(puzzle.size as int, puzzle.map@, puzzle.goal@, steps),
        r matches Ok(sol) ==> forall|a: int, b: int|
            0 <= a < sol.steps@.len() && 0 <= b < sol.steps@.len() && a != b
                ==> #[trigger] sol.steps@[a]@ != #[trigger] sol.steps@[b]@,
        never_overestimates(mode, heuristic) ==> (r matches Ok(sol) ==> forall|steps: Seq<Seq<i32>>|
            #[trigger] is_solution_path(puzzle.size as int, puzzle.map@, puzzle.goal@, steps)
                ==> sol.steps@.len() <= steps.len()),
{
    let size = puzzle.size;
    let mut explored = Explored {
        states: Vec::new(),
        parents: Vec::new(),
        costs: Vec::new(),
        closed: Vec::new(),
        index: HashMap::new(),
    };
    let start_key = key_of(puzzle.map.as_slice());
    let mut first: Vec<usize> = Vec::new();
    first.push(0);
    explored.index.insert(start_key, first);
    proof {
        assert(explored.index@[start_key]@[0] == 0usize);
    }
    explored.states.push(copy_state(puzzle.map.as_slice()));
    explored.parents.push(0);
    explored.costs.push(0);
    explored.closed.push(false);
    proof {
        assert(explored.closed@.drop_last() =~= Seq::<bool>::empty());
        assert(num_closed(Seq::<bool>::empty()) == 0);
        assert(num_closed(explored.closed@) == num_closed(explored.closed@.drop_last()) + 0);
    }
    let mut frontier: Vec<(u128, usize)> = Vec::new();
    proof {
        lemma_empty_heap();
        assert(frontier@ =~= Seq::<(u128, usize)>::empty());
    }
    let first_rank = exact_rank(
        &mode,
        0,
        heuristic.evaluate(size, puzzle.map.as_slice(), puzzle.goal.as_slice()),
    );
    heap_push(&mut frontier, (first_rank, 0));
    proof {
        assert(frontier@.contains((first_rank, 0usize)));
        let only = frontier@[0];
        assert(frontier@.contains(only));
        assert(frontier@ =~= seq![(first_rank, 0usize)]);
    }
    let mut total_used_states: u64 = 0;
    let mut closed_count: usize = 0;
    let mut biggest_state: usize = 1;
    while frontier.len() > 0
        invariant
            puzzle.is_well_formed(),
            size == puzzle.size,
            explored.inv(size as int, puzzle.map@, puzzle.goal@, closed_count as int),
            closed_count as int == num_closed(explored.closed@),
            forall|e: (u128, usize)| frontier@.contains(e) ==> e.1 < explored.len(),
            is_heap(frontier@),
            biggest_state >= 1,
            total_used_states == 0 ==> frontier@ == seq![(first_rank, 0usize)] && !explored.closed@[0],
            puzzle.map@ == puzzle.goal@ ==> total_used_states == 0,
            forall|i: int|
                0 <= i < explored.len() && !#[trigger] explored.closed@[i] ==> queued(frontier@, i),
            explored.expanded_ok(size as int, puzzle.goal@, -1),
            never_overestimates(mode, heuristic) ==> explored.closed_optimal(size as int, puzzle.map@)
                && explored.entries_ok(frontier@, mode, heuristic, size as int, puzzle.goal@) && explored.neighbours_close(size as int, -1),
        decreases usize::MAX - closed_count, frontier@.len(),
    {
        let ghost first = total_used_states == 0;
        let ghost before = frontier@;
        let popped = pop_min(&mut frontier);
        let id = popped.1;
        total_used_states = total_used_states.saturating_add(1);
        proof {
            assert forall|i: int|
                0 <= i < explored.len() && !explored.closed@[i] && i != id implies queued(
                frontier@,
                i,
            ) by {
                let e = choose|e: (u128, usize)| #[trigger] before.contains(e) && e.1 as int == i;
                assert(e != popped);
                assert(frontier@.contains(e));
            }
        }
        proof {
            if first {
                assert(seq![(first_rank, 0usize)].contains((first_rank, 0usize))) by {
                    assert(seq![(first_rank, 0usize)][0] == (first_rank, 0usize));
                }
                assert(id == 0);
            }
        }
        proof {
            if never_overestimates(mode, heuristic) {
                assert forall|i: int|
                    0 <= i < explored.len() && !#[trigger] explored.closed@[i] && i != id implies queued_at(
                    frontier@,
                    i,
                    explored.key(mode, heuristic, size as int, puzzle.goal@, i),
                ) by {
                    let e = choose|e: (u128, usize)|
                        #[trigger] before.contains(e) && e.1 as int == i && e.0 as int
                            == explored.key(mode, heuristic, size as int, puzzle.goal@, i);
                    assert(e != popped);
                    assert(frontier@.contains(e));
                }
            }
        }
        if explored.closed[id] {
            continue;
        }
        proof {
            let _ = explored.states@[id as int];
            if never_overestimates(mode, heuristic) {
                lemma_pop_optimal(
                    explored,
                    mode,
                    heuristic,
                    size as int,
                    puzzle.map@,
                    puzzle.goal@,
                    closed_count as int,
                    before,
                    popped,
                );
            }
        }
        if same_state(explored.states[id].as_slice(), puzzle.goal.as_slice()) {
            let steps = explored.found(id, puzzle, closed_count as u64);
            proof {
                assert(is_solution_path(size as int, puzzle.map@, puzzle.goal@, steps_view(steps@)));
                if never_overestimates(mode, heuristic) {
                    assert forall|w: Seq<Seq<i32>>|
                        #[trigger] is_solution_path(
                            size as int,
                            puzzle.map@,
                            puzzle.goal@,
                            w,
                        ) implies steps@.len() <= w.len() by {
                        assert(is_solution_path(
                            size as int,
                            puzzle.map@,
                            explored.states@[id as int]@,
                            w,
                        ));
                    }
                }
            }
            return Ok(Solution { total_used_states, biggest_state, steps });
        }
        let ghost marks = explored.closed@;
        proof {
            lemma_num_closed_mark(marks, id as int);
        }
        let bound = explored.closed.len();
        explored.closed.set(id, true);
        closed_count = closed_count + 1;
        proof {
            assert(explored.closed@ == marks.update(id as int, true));
            assert(explored.inv(size as int, puzzle.map@, puzzle.goal@, closed_count as int));
            if never_overestimates(mode, heuristic) {
                assert forall|c: int, w: Seq<Seq<i32>>|
                    0 <= c < explored.len() && explored.closed@[c] && #[trigger] is_solution_path(
                        size as int,
                        puzzle.map@,
                        explored.states@[c]@,
                        w,
                    ) implies explored.costs@[c] <= w.len() - 1 by {
                    if c != id {
                        assert(marks[c]);
                    }
                }
                assert forall|i: int|
                    0 <= i < explored.len() && !#[trigger] explored.closed@[i] implies queued_at(
                    frontier@,
                    i,
                    explored.key(mode, heuristic, size as int, puzzle.goal@, i),
                ) by {
                    assert(!marks[i]);
                }
                assert forall|c: int, d: Direction|
                    0 <= c < explored.len() && c != id && explored.closed@[c] && #[trigger] moved(
                        size as int,
                        explored.states@[c]@,
                        d,
                    ) is Some implies explored.met_within(
                    moved(size as int, explored.states@[c]@, d)->0,
                    explored.costs@[c] + 1,
                ) by {
                    assert(marks[c]);
                }
            }
        }
        explored.expand(&mut frontier, puzzle, &mode, &heuristic, id, closed_count as u64);
        if frontier.len() > biggest_state {
            biggest_state = frontier.len();
        }
    }
    proof {
        assert forall|i: int| 0 <= i < explored.len() implies #[trigger] explored.closed@[i] by {
            if !explored.closed@[i] {
                assert(queued(frontier@, i));
                let e = choose|e: (u128, usize)| #[trigger] frontier@.contains(e) && e.1 as int == i;
            }
        }
        assert forall|steps: Seq<Seq<i32>>|
            !#[trigger] is_solution_path(size as int, puzzle.map@, puzzle.goal@, steps) by {
            if is_solution_path(size as int, puzzle.map@, puzzle.goal@, steps) {
                lemma_walk_stays_discovered(
                    explored,
                    size as int,
                    puzzle.goal@,
                    steps,
                    steps.len() - 1,
                );
                let j = choose|j: int|
                    0 <= j < explored.len() && #[trigger] explored.states@[j]@ == steps[steps.len()
                        - 1];
                assert(explored.closed@[j]);
            }
        }
    }
    Err(SolveError::NoSolution)
}

} // verus!
