use vstd::prelude::*;

verus! {

/// A puzzle state: the grid read row by row, `0` standing for the blank.
pub type Node = Vec<i32>;

/// The four ways the blank can slide, in the order `neighbors` reports them.
pub enum Direction {
    Left,
    Right,
    Down,
    Up,
}

/// `i` is the first index of `s` that holds `v`.
pub open spec fn is_first_index(s: Seq<i32>, v: i32, i: int) -> bool {
    &&& 0 <= i < s.len()
    &&& s[i] == v
    &&& forall|j: int| 0 <= j < i ==> s[j] != v
}

/// The first index of `s` that holds `v` (meaningful when `s` contains `v`).
pub open spec fn index_of(s: Seq<i32>, v: i32) -> int {
    choose|i: int| is_first_index(s, v, i)
}

/// Where the blank stands in `s`.
pub open spec fn blank_of(s: Seq<i32>) -> int {
    index_of(s, 0)
}

/// A square grid of side `size` whose cells fit the `i32` arithmetic of the solver.
pub open spec fn is_grid(size: int, s: Seq<i32>) -> bool {
    &&& 1 <= size
    &&& s.len() == size * size
    &&& size * size <= i32::MAX
    &&& s.contains(0)
}

/// The blank at flat index `b` may slide in direction `d` without leaving the grid.
pub open spec fn can_move(size: int, b: int, d: Direction) -> bool {
    match d {
        Direction::Left => b % size != 0,
        Direction::Right => (b + 1) % size != 0,
        Direction::Down => b < size * (size - 1),
        Direction::Up => b >= size,
    }
}

/// The cell that the blank at `b` swaps with when it slides in direction `d`.
pub open spec fn move_target(size: int, b: int, d: Direction) -> int {
    match d {
        Direction::Left => b - 1,
        Direction::Right => b + 1,
        Direction::Down => b + size,
        Direction::Up => b - size,
    }
}

/// The position of a direction in the order `neighbors` reports them.
pub open spec fn direction_rank(d: Direction) -> int {
    match d {
        Direction::Left => 0,
        Direction::Right => 1,
        Direction::Down => 2,
        Direction::Up => 3,
    }
}

/// `s` with the blank at `b` and the tile at `t` exchanged.
pub open spec fn slide(s: Seq<i32>, b: int, t: int) -> Seq<i32> {
    s.update(b, s[t]).update(t, 0)
}

/// The state reached from `s` by sliding the blank in direction `d`, if that move is legal.
pub open spec fn moved(size: int, s: Seq<i32>, d: Direction) -> Option<Seq<i32>> {
    let b = blank_of(s);
    if can_move(size, b, d) {
        Some(slide(s, b, move_target(size, b, d)))
    } else {
        None
    }
}

/// `b` is reached from `a` by one legal slide of the blank.
pub open spec fn is_move(size: int, a: Seq<i32>, b: Seq<i32>) -> bool {
    exists|d: Direction| moved(size, a, d) == Some(b)
}

/// `path` is a sequence of states, each one legal slide away from the one before.
pub open spec fn is_walk(size: int, path: Seq<Seq<i32>>) -> bool {
    forall|i: int| 0 <= i < path.len() - 1 ==> is_move(size, #[trigger] path[i], path[i + 1])
}

pub open spec fn opt_view(o: Option<Vec<i32>>) -> Option<Seq<i32>> {
    match o {
        Some(v) => Some(v@),
        None => None,
    }
}

/// Every value that occurs in `s` has a first index.
pub proof fn lemma_index_of(s: Seq<i32>, v: i32, i: int)
    requires
        0 <= i < s.len(),
        s[i] == v,
    ensures
        is_first_index(s, v, index_of(s, v)),
        index_of(s, v) <= i,
    decreases i,
{
    if exists|j: int| 0 <= j < i && s[j] == v {
        let j = choose|j: int| 0 <= j < i && s[j] == v;
        lemma_index_of(s, v, j);
    } else {
        assert(is_first_index(s, v, i));
        let k = index_of(s, v);
        if k < i {
            assert(s[k] != v);
        }
        if k > i {
            assert(s[i] != v);
        }
    }
}

/// Where `v` first occurs in `s`, if it does.
pub fn find_cell(s: &[i32], v: i32) -> (r: Option<usize>)
    ensures
        match r {
            Some(i) => is_first_index(s@, v, i as int) && i as int == index_of(s@, v),
            None => !s@.contains(v),
        },
{
    let mut i: usize = 0;
    while i < s.len()
        invariant
            i <= s@.len(),
            forall|j: int| 0 <= j < i ==> s@[j] != v,
        decreases s@.len() - i,
    {
        if s[i] == v {
            proof {
                lemma_index_of(s@, v, i as int);
            }
            return Some(i);
        }
        i += 1;
    }
    None
}

/// A copy of `s` with the blank at `b` and the tile at `t` exchanged.
fn slide_copy(s: &[i32], b: usize, t: usize) -> (r: Vec<i32>)
    requires
        b < s@.len(),
        t < s@.len(),
    ensures
        r@ == slide(s@, b as int, t as int),
{
    let mut cpy = vstd::slice::slice_to_vec(s);
    let tile = cpy[t];
    cpy.set(b, tile);
    cpy.set(t, 0);
    cpy
}

/// The states one slide of the blank away from `source`, indexed left, right, down, up;
/// a direction that would leave the grid gives `None`.
pub fn neighbors(size: i32, source: &[i32]) -> (r: [Option<Vec<i32>>; 4])
    requires
        is_grid(size as int, source@),
    ensures
        opt_view(r@[0]) == moved(size as int, source@, Direction::Left),
        opt_view(r@[1]) == moved(size as int, source@, Direction::Right),
        opt_view(r@[2]) == moved(size as int, source@, Direction::Down),
        opt_view(r@[3]) == moved(size as int, source@, Direction::Up),
{
    let found = find_cell(source, 0);
    let b: usize = match found {
        Some(i) => i,
        None => {
            return [None, None, None, None];
        },
    };
    let sz: usize = size as usize;
    proof {
        let n = size as int;
        assert(n * (n - 1) <= n * n) by (nonlinear_arith)
            requires
                n >= 1,
        ;
        vstd::arithmetic::div_mod::lemma_mod_multiples_basic(n, n);
        assert(0int % n == 0) by (nonlinear_arith)
            requires
                n >= 1,
        ;
    }
    let left = if b % sz == 0 {
        None
    } else {
        Some(slide_copy(source, b, b - 1))
    };
    let right = if (b + 1) % sz == 0 {
        None
    } else {
        Some(slide_copy(source, b, b + 1))
    };
    let down = if b >= sz * (sz - 1) {
        None
    } else {
        proof {
            let n = size as int;
            assert(b + n < n * n) by (nonlinear_arith)
                requires
                    b < n * (n - 1),
                    n >= 1,
            ;
        }
        Some(slide_copy(source, b, b + sz))
    };
    let up = if b < sz {
        None
    } else {
        Some(slide_copy(source, b, b - sz))
    };
    [left, right, down, up]
}

/// A legal slide keeps both the blank and the cell it swaps with inside the grid.
pub proof fn lemma_move_in_grid(size: int, s: Seq<i32>, d: Direction)
    requires
        is_grid(size, s),
        can_move(size, blank_of(s), d),
    ensures
        is_first_index(s, 0, blank_of(s)),
        0 <= move_target(size, blank_of(s), d) < s.len(),
        move_target(size, blank_of(s), d) != blank_of(s),
        slide(s, blank_of(s), move_target(size, blank_of(s), d)).len() == s.len(),
{
    let i = choose|i: int| 0 <= i < s.len() && s[i] == 0;
    lemma_index_of(s, 0, i);
    let b = blank_of(s);
    let n = size;
    vstd::arithmetic::div_mod::lemma_mod_multiples_basic(n, n);
    assert(0int % n == 0) by (nonlinear_arith)
        requires
            n >= 1,
    ;
    if d == Direction::Down {
        assert(b + n < n * n) by (nonlinear_arith)
            requires
                b < n * (n - 1),
                n >= 1,
        ;
    }
}

} // verus!
