use vstd::prelude::*;
use vstd::set_lib::{lemma_int_range, lemma_len_subset, set_int_range};
use crate::types::{BoardSize, Color, Move};

verus! {

// ---------------------------------------------------------------------------
// Model. A board of width `w` is a sequence of cells, row after row: the cell
// of column `x` and row `y` has index `y * w + x`.
// ---------------------------------------------------------------------------

/// The cell next to cell `i` in direction `d`: 0 west, 1 east, 2 north, 3 south.
pub open spec fn neighbor(w: int, n: int, i: int, d: int) -> Option<int> {
    if d == 0 {
        if i % w != 0 && i - 1 >= 0 { Some(i - 1) } else { None }
    } else if d == 1 {
        if i % w != w - 1 && i + 1 < n { Some(i + 1) } else { None }
    } else if d == 2 {
        if i >= w { Some(i - w) } else { None }
    } else if d == 3 {
        if i + w < n { Some(i + w) } else { None }
    } else {
        None
    }
}

pub open spec fn color_at(cells: Seq<Option<Move>>, i: int) -> Option<Color> {
    match cells[i] {
        Some(m) => Some(m.color),
        None => None,
    }
}

/// Every stone of colour `c` next to a cell of `g` lies in `g`.
pub open spec fn closed(cells: Seq<Option<Move>>, w: int, c: Color, g: Set<int>) -> bool {
    forall|q: int, d: int|
        #![trigger g.contains(q), neighbor(w, cells.len() as int, q, d)]
        g.contains(q) && 0 <= d < 4 ==> match neighbor(w, cells.len() as int, q, d) {
            Some(r) => color_at(cells, r) == Some(c) ==> g.contains(r),
            None => true,
        }
}

/// `g` is the group of the stone on cell `p`: the least set of cells that holds
/// `p` and every stone of the same colour next to one of its cells.
pub open spec fn is_group(cells: Seq<Option<Move>>, w: int, p: int, g: Set<int>) -> bool {
    &&& 0 <= p < cells.len()
    &&& cells[p] is Some
    &&& g.contains(p)
    &&& forall|q: int| #[trigger] g.contains(q) ==> 0 <= q < cells.len() && color_at(cells, q) == color_at(cells, p)
    &&& closed(cells, w, cells[p]->0.color, g)
    &&& forall|s: Set<int>| #[trigger] closed(cells, w, cells[p]->0.color, s) && s.contains(p) ==> g.subset_of(s)
}

/// The group of the stone on cell `p`.
pub open spec fn group_of(cells: Seq<Option<Move>>, w: int, p: int) -> Set<int> {
    choose|g: Set<int>| is_group(cells, w, p, g)
}

/// Some cell of `g` has an empty neighbour.
pub open spec fn has_liberty(cells: Seq<Option<Move>>, w: int, g: Set<int>) -> bool {
    exists|q: int, d: int|
        #![trigger g.contains(q), neighbor(w, cells.len() as int, q, d)]
        g.contains(q) && 0 <= d < 4 && match neighbor(w, cells.len() as int, q, d) {
            Some(r) => cells[r] is None,
            None => false,
        }
}

/// The cells with the cells of `g` emptied.
pub open spec fn removed(cells: Seq<Option<Move>>, g: Set<int>) -> Seq<Option<Move>> {
    Seq::new(cells.len(), |i: int| if g.contains(i) { None } else { cells[i] })
}

/// The stones on the cells of `g` among the first `k` cells, in cell order.
pub open spec fn taken(cells: Seq<Option<Move>>, g: Set<int>, k: int) -> Seq<Move>
    decreases k,
{
    if k <= 0 {
        seq![]
    } else {
        taken(cells, g, k - 1) + if g.contains(k - 1) && cells[k - 1] is Some {
            seq![cells[k - 1]->0]
        } else {
            seq![]
        }
    }
}

/// The capture that a stone of colour `mover` on cell `p` makes in direction
/// `d`: the opposing group there, when it has no liberty.
pub open spec fn capture_toward(cells: Seq<Option<Move>>, w: int, p: int, d: int, mover: Color) -> (Seq<Option<Move>>, Seq<Move>) {
    match neighbor(w, cells.len() as int, p, d) {
        Some(r) => {
            let g = group_of(cells, w, r);
            if color_at(cells, r) == Some(mover.opposite()) && !has_liberty(cells, w, g) {
                (removed(cells, g), taken(cells, g, cells.len() as int))
            } else {
                (cells, seq![])
            }
        },
        None => (cells, seq![]),
    }
}

/// The captures in directions `d` to 3, in that order.
pub open spec fn captures_from(cells: Seq<Option<Move>>, w: int, p: int, d: int, mover: Color) -> (Seq<Option<Move>>, Seq<Move>)
    decreases 4 - d,
{
    if d >= 4 || d < 0 {
        (cells, seq![])
    } else {
        let (c1, k1) = capture_toward(cells, w, p, d, mover);
        let (c2, k2) = captures_from(c1, w, p, d + 1, mover);
        (c2, k1 + k2)
    }
}

/// Cell index of column `x`, row `y`.
pub open spec fn cell_index(size: BoardSize, x: int, y: int) -> int {
    y * size.width + x
}

/// The cells and the captured stones after `m` is played: a move off the board
/// changes nothing; otherwise the stone is put on its cell and the opposing
/// groups next to it that are left without a liberty are taken off.
pub open spec fn play_spec(size: BoardSize, cells: Seq<Option<Move>>, m: Move) -> (Seq<Option<Move>>, Seq<Move>) {
    if m.x < size.width && m.y < size.height {
        let p = cell_index(size, m.x as int, m.y as int);
        captures_from(cells.update(p, Some(m)), size.width as int, p, 0, m.color)
    } else {
        (cells, seq![])
    }
}

pub open spec fn empty_cells(n: int) -> Seq<Option<Move>> {
    Seq::new(n as nat, |i: int| None)
}

/// The cells and the captured stones after the moves are played in order on an
/// empty board.
pub open spec fn replay_spec(size: BoardSize, moves: Seq<Move>) -> (Seq<Option<Move>>, Seq<Move>)
    decreases moves.len(),
{
    if moves.len() == 0 {
        (empty_cells(size.cells()), seq![])
    } else {
        let (cells, caught) = replay_spec(size, moves.drop_last());
        let (next, more) = play_spec(size, cells, moves.last());
        (next, caught + more)
    }
}

pub open spec fn marked(v: Seq<bool>) -> Set<int> {
    Set::new(|i: int| 0 <= i < v.len() && v[i])
}

/// The stone on cell `p` has a group: the cells that every closed set holding
/// `p` holds.
pub proof fn lemma_group_exists(cells: Seq<Option<Move>>, w: int, p: int)
    requires
        w > 0,
        0 <= p < cells.len(),
        cells[p] is Some,
    ensures
        is_group(cells, w, p, group_of(cells, w, p)),
{
    let n = cells.len() as int;
    let c = cells[p]->0.color;
    let same = Set::new(|q: int| 0 <= q < n && color_at(cells, q) == Some(c));
    let g = Set::new(|q: int| forall|s: Set<int>| #[trigger] closed(cells, w, c, s) && s.contains(p) ==> s.contains(q));
    assert(closed(cells, w, c, same)) by {
        assert forall|q: int, d: int|
            #![trigger same.contains(q), neighbor(w, n, q, d)]
            same.contains(q) && 0 <= d < 4 implies match neighbor(w, n, q, d) {
                Some(r) => color_at(cells, r) == Some(c) ==> same.contains(r),
                None => true,
            } by {}
    }
    assert forall|q: int| #[trigger] g.contains(q) implies 0 <= q < n && color_at(cells, q) == color_at(cells, p) by {
        assert(closed(cells, w, c, same) && same.contains(p));
    }
    assert(closed(cells, w, c, g)) by {
        assert forall|q: int, d: int|
            #![trigger g.contains(q), neighbor(w, n, q, d)]
            g.contains(q) && 0 <= d < 4 implies match neighbor(w, n, q, d) {
                Some(r) => color_at(cells, r) == Some(c) ==> g.contains(r),
                None => true,
            } by {
            match neighbor(w, n, q, d) {
                Some(r) => {
                    if color_at(cells, r) == Some(c) {
                        assert forall|s: Set<int>| #[trigger] closed(cells, w, c, s) && s.contains(p) implies s.contains(r) by {
                            assert(s.contains(q));
                        }
                    }
                },
                None => {},
            }
        }
    }
    assert(is_group(cells, w, p, g));
}

/// Every set that is a group of `p` is the same set.
pub proof fn lemma_group_unique(cells: Seq<Option<Move>>, w: int, p: int, g1: Set<int>, g2: Set<int>)
    requires
        is_group(cells, w, p, g1),
        is_group(cells, w, p, g2),
    ensures
        g1 == g2,
{
    assert(closed(cells, w, cells[p]->0.color, g2));
    assert(closed(cells, w, cells[p]->0.color, g1));
    assert(g1 =~= g2);
}

// ---------------------------------------------------------------------------
// Executable engine
// ---------------------------------------------------------------------------

fn next_cell(w: usize, n: usize, i: usize, d: usize) -> (r: Option<usize>)
    requires
        w > 0,
        i < n,
    ensures
        r matches Some(j) ==> neighbor(w as int, n as int, i as int, d as int) == Some(j as int) && j < n,
        r is None ==> neighbor(w as int, n as int, i as int, d as int) is None,
{
    if d == 0 {
        if i % w != 0 && i >= 1 { Some(i - 1) } else { None }
    } else if d == 1 {
        if i % w != w - 1 && i + 1 < n { Some(i + 1) } else { None }
    } else if d == 2 {
        if i >= w { Some(i - w) } else { None }
    } else if d == 3 {
        if n - i > w { Some(i + w) } else { None }
    } else {
        None
    }
}

/// Side facts of the flood fill on cell `q` in direction `d`: a stone of the
/// group's colour there is marked, and an empty cell there has been seen.
pub open spec fn settled(cells: Seq<Option<Move>>, w: int, c: Color, vs: Set<int>, lib: bool, q: int, d: int) -> bool {
    match neighbor(w, cells.len() as int, q, d) {
        Some(r) => (color_at(cells, r) == Some(c) ==> vs.contains(r)) && (cells[r] is None ==> lib),
        None => true,
    }
}

/// Flood fill from the stone on cell `p`: marks its group, and tells whether
/// the group has a liberty.
fn flood_group(cells: &Vec<Option<Move>>, w: usize, p: usize) -> (r: (Vec<bool>, bool))
    requires
        w > 0,
        p < cells@.len(),
        cells@[p as int] is Some,
    ensures
        r.0@.len() == cells@.len(),
        is_group(cells@, w as int, p as int, marked(r.0@)),
        r.1 == has_liberty(cells@, w as int, marked(r.0@)),
{
    let n = cells.len();
    let c = match cells[p] {
        Some(m) => m.color,
        None => Color::Black,
    };
    let mut visited: Vec<bool> = Vec::new();
    let mut k: usize = 0;
    while k < n
        invariant
            k <= n,
            visited@.len() == k,
            forall|j: int| 0 <= j < k ==> !visited@[j],
        decreases n - k,
    {
        visited.push(false);
        k = k + 1;
    }
    visited.set(p, true);
    let mut stack: Vec<usize> = Vec::new();
    stack.push(p);
    let mut lib = false;
    let ghost mut vs: Set<int> = set![p as int];
    proof {
        assert(marked(visited@) =~= vs);
        assert forall|s: Set<int>| #[trigger] closed(cells@, w as int, c, s) && s.contains(p as int) implies vs.subset_of(s) by {}
        assert(stack@[0] == p);
        assert(stack@.contains(p));
        assert(vs.subset_of(set_int_range(0, n as int)));
        lemma_int_range(0, n as int);
        lemma_len_subset(vs, set_int_range(0, n as int));
    }
    while stack.len() > 0
        invariant
            n == cells@.len(),
            w > 0,
            p < n,
            color_at(cells@, p as int) == Some(c),
            visited@.len() == n,
            marked(visited@) == vs,
            vs.finite(),
            vs.len() <= n,
            vs.contains(p as int),
            forall|q: int| #[trigger] vs.contains(q) ==> 0 <= q < n && color_at(cells@, q) == Some(c),
            forall|k: int| 0 <= k < stack@.len() ==> vs.contains(#[trigger] stack@[k] as int),
            forall|q: int, d: int|
                #![trigger vs.contains(q), neighbor(w as int, n as int, q, d)]
                vs.contains(q) && !stack@.contains(q as usize) && 0 <= d < 4 ==> settled(cells@, w as int, c, vs, lib, q, d),
            lib ==> has_liberty(cells@, w as int, vs),
            forall|s: Set<int>| #[trigger] closed(cells@, w as int, c, s) && s.contains(p as int) ==> vs.subset_of(s),
        decreases (n - vs.len()) * 5 + stack@.len(),
    {
        let ghost m0: int = (n - vs.len()) * 5 + stack@.len();
        let ghost old_stack = stack@;
        let q = stack.pop().unwrap();
        assert(old_stack == stack@.push(q));
        assert(vs.contains(old_stack[old_stack.len() - 1] as int));
        let mut d: usize = 0;
        while d < 4
            invariant
                n == cells@.len(),
                w > 0,
                p < n,
                q < n,
                vs.contains(q as int),
                color_at(cells@, p as int) == Some(c),
                visited@.len() == n,
                marked(visited@) == vs,
                vs.finite(),
                vs.len() <= n,
                vs.contains(p as int),
                d <= 4,
                forall|q: int| #[trigger] vs.contains(q) ==> 0 <= q < n && color_at(cells@, q) == Some(c),
                forall|k: int| 0 <= k < stack@.len() ==> vs.contains(#[trigger] stack@[k] as int),
                forall|q2: int, d2: int|
                    #![trigger vs.contains(q2), neighbor(w as int, n as int, q2, d2)]
                    vs.contains(q2) && !old_stack.contains(q2 as usize) && !stack@.contains(q2 as usize) && 0 <= d2 < 4 ==> settled(cells@, w as int, c, vs, lib, q2, d2),
                forall|k: int| 0 <= k < old_stack.len() - 1 ==> stack@.contains(#[trigger] old_stack[k]),
                forall|k: int| 0 <= k < old_stack.len() ==> vs.contains(#[trigger] old_stack[k] as int),
                forall|d2: int| 0 <= d2 < d ==> settled(cells@, w as int, c, vs, lib, q as int, d2),
                lib ==> has_liberty(cells@, w as int, vs),
                forall|s: Set<int>| #[trigger] closed(cells@, w as int, c, s) && s.contains(p as int) ==> vs.subset_of(s),
                (n - vs.len()) * 5 + stack@.len() < m0,
            decreases 4 - d,
        {
            match next_cell(w, n, q, d) {
                Some(r) => {
                    match cells[r] {
                        None => {
                            proof {
                                assert(vs.contains(q as int) && 0 <= d < 4 && neighbor(w as int, n as int, q as int, d as int) == Some(r as int));
                            }
                            let ghost old_lib = lib;
                            lib = true;
                            assert(settled(cells@, w as int, c, vs, lib, q as int, d as int));
                            assert forall|d2: int| 0 <= d2 < d implies settled(cells@, w as int, c, vs, lib, q as int, d2) by {
                                assert(settled(cells@, w as int, c, vs, old_lib, q as int, d2));
                            }
                            assert forall|q2: int, d2: int|
                                #![trigger vs.contains(q2), neighbor(w as int, n as int, q2, d2)]
                                vs.contains(q2) && !old_stack.contains(q2 as usize) && !stack@.contains(q2 as usize) && 0 <= d2 < 4 implies settled(cells@, w as int, c, vs, lib, q2, d2) by {
                                assert(settled(cells@, w as int, c, vs, old_lib, q2, d2));
                            }
                        },
                        Some(m) => {
                            if m.color == c && !visited[r] {
                                assert(!vs.contains(r as int));
                                let ghost old_vs = vs;
                                let ghost prev_stack = stack@;
                                visited.set(r, true);
                                stack.push(r);
                                proof {
                                    vs = vs.insert(r as int);
                                    assert(marked(visited@) =~= vs);
                                    assert(vs.subset_of(set_int_range(0, n as int)));
                                    lemma_int_range(0, n as int);
                                    lemma_len_subset(vs, set_int_range(0, n as int));
                                    assert forall|s: Set<int>| #[trigger] closed(cells@, w as int, c, s) && s.contains(p as int) implies vs.subset_of(s) by {
                                        assert(old_vs.subset_of(s));
                                        assert(s.contains(q as int));
                                        assert(neighbor(w as int, n as int, q as int, d as int) == Some(r as int));
                                    }
                                    assert forall|k: int| 0 <= k < old_stack.len() - 1 implies stack@.contains(#[trigger] old_stack[k]) by {
                                        assert(prev_stack.contains(old_stack[k]));
                                        let j = choose|j: int| 0 <= j < prev_stack.len() && prev_stack[j] == old_stack[k];
                                        assert(stack@[j] == old_stack[k]);
                                    }
                                    assert forall|q2: int, d2: int|
                                        #![trigger vs.contains(q2), neighbor(w as int, n as int, q2, d2)]
                                        vs.contains(q2) && !old_stack.contains(q2 as usize) && !stack@.contains(q2 as usize) && 0 <= d2 < 4 implies settled(cells@, w as int, c, vs, lib, q2, d2) by {
                                        if q2 == r as int {
                                            assert(stack@[stack@.len() - 1] == r);
                                        } else {
                                            assert(old_vs.contains(q2));
                                            assert(!prev_stack.contains(q2 as usize)) by {
                                                if prev_stack.contains(q2 as usize) {
                                                    let j = choose|j: int| 0 <= j < prev_stack.len() && prev_stack[j] == q2 as usize;
                                                    assert(stack@[j] == prev_stack[j]);
                                                }
                                            }
                                            assert(settled(cells@, w as int, c, old_vs, lib, q2, d2));
                                        }
                                    }
                                    assert forall|k: int| 0 <= k < stack@.len() implies vs.contains(#[trigger] stack@[k] as int) by {
                                        if k < prev_stack.len() {
                                            assert(stack@[k] == prev_stack[k]);
                                        }
                                    }
                                    assert forall|d2: int| 0 <= d2 < d implies settled(cells@, w as int, c, vs, lib, q as int, d2) by {
                                        assert(settled(cells@, w as int, c, old_vs, lib, q as int, d2));
                                    }
                                    if lib {
                                        let (q0, d0) = choose|q0: int, d0: int|
                                            #![trigger old_vs.contains(q0), neighbor(w as int, n as int, q0, d0)]
                                            old_vs.contains(q0) && 0 <= d0 < 4 && match neighbor(w as int, n as int, q0, d0) {
                                                Some(r) => cells@[r] is None,
                                                None => false,
                                            };
                                        assert(vs.contains(q0));
                                    }
                                }
                            }
                            assert(settled(cells@, w as int, c, vs, lib, q as int, d as int));
                        },
                    }
                },
                None => {
                    assert(settled(cells@, w as int, c, vs, lib, q as int, d as int));
                },
            }
            d = d + 1;
        }
        proof {
            assert forall|q2: int, d2: int|
                #![trigger vs.contains(q2), neighbor(w as int, n as int, q2, d2)]
                vs.contains(q2) && !stack@.contains(q2 as usize) && 0 <= d2 < 4 implies settled(cells@, w as int, c, vs, lib, q2, d2) by {
                if q2 != q as int && old_stack.contains(q2 as usize) {
                    let j = choose|j: int| 0 <= j < old_stack.len() && old_stack[j] == q2 as usize;
                    if j < old_stack.len() - 1 {
                        assert(stack@.contains(old_stack[j]));
                    }
                }
            }
        }
    }
    proof {
        assert(closed(cells@, w as int, c, vs)) by {
            assert forall|q: int, d: int|
                #![trigger vs.contains(q), neighbor(w as int, cells@.len() as int, q, d)]
                vs.contains(q) && 0 <= d < 4 implies match neighbor(w as int, cells@.len() as int, q, d) {
                    Some(r) => color_at(cells@, r) == Some(c) ==> vs.contains(r),
                    None => true,
                } by {
                assert(settled(cells@, w as int, c, vs, lib, q, d));
            }
        }
        if has_liberty(cells@, w as int, vs) {
            let (q, d) = choose|q: int, d: int|
                #![trigger vs.contains(q), neighbor(w as int, cells@.len() as int, q, d)]
                vs.contains(q) && 0 <= d < 4 && match neighbor(w as int, cells@.len() as int, q, d) {
                    Some(r) => cells@[r] is None,
                    None => false,
                };
            assert(settled(cells@, w as int, c, vs, lib, q, d));
        }
    }
    (visited, lib)
}

/// Empties the cells of group `g` and appends its stones, in cell order, to
/// `caught`.
fn take_group(cells: &mut Vec<Option<Move>>, g: &Vec<bool>, caught: &mut Vec<Move>)
    requires
        g@.len() == old(cells)@.len(),
    ensures
        final(cells)@ == removed(old(cells)@, marked(g@)),
        final(caught)@ == old(caught)@ + taken(old(cells)@, marked(g@), old(cells)@.len() as int),
{
    let ghost start = cells@;
    let ghost caught0 = caught@;
    let ghost gs = marked(g@);
    let n = cells.len();
    let mut i: usize = 0;
    while i < n
        invariant
            n == start.len(),
            g@.len() == n,
            gs == marked(g@),
            cells@.len() == n,
            i <= n,
            forall|j: int| 0 <= j < i ==> cells@[j] == removed(start, gs)[j],
            forall|j: int| i <= j < n ==> cells@[j] == start[j],
            caught@ == caught0 + taken(start, gs, i as int),
        decreases n - i,
    {
        if g[i] {
            match cells[i] {
                Some(m) => {
                    caught.push(m);
                },
                None => {},
            }
            cells.set(i, None);
        }
        proof {
            assert(caught@ =~= caught0 + taken(start, gs, i + 1));
        }
        i = i + 1;
    }
    assert(cells@ =~= removed(start, gs));
}

/// The group of the stone on cell `r`, as marked by a flood fill.
proof fn lemma_group_marked(cells: Seq<Option<Move>>, w: int, r: int, v: Seq<bool>)
    requires
        w > 0,
        is_group(cells, w, r, marked(v)),
    ensures
        group_of(cells, w, r) == marked(v),
{
    lemma_group_exists(cells, w, r);
    lemma_group_unique(cells, w, r, group_of(cells, w, r), marked(v));
}

/// A board of a valid size: its cells, row after row.
pub struct Board {
    pub size: BoardSize,
    pub cells: Vec<Option<Move>>,
}

/// The stones on the cells, in cell order.
pub open spec fn live_stones(cells: Seq<Option<Move>>) -> Seq<Move>
    decreases cells.len(),
{
    if cells.len() == 0 {
        seq![]
    } else {
        live_stones(cells.drop_last()) + match cells.last() {
            Some(m) => seq![m],
            None => seq![],
        }
    }
}

impl Board {
    pub open spec fn wf(&self) -> bool {
        self.size.valid() && self.cells@.len() == self.size.cells()
    }

    /// An empty board of the given size.
    pub fn new(size: BoardSize) -> (r: Board)
        requires
            size.valid(),
        ensures
            r.wf(),
            r.size == size,
            r.cells@ == empty_cells(size.cells()),
    {
        proof {
            lemma_cell_in_range(size, 0, 0);
        }
        let n = size.width * size.height;
        let mut cells: Vec<Option<Move>> = Vec::new();
        let mut i: usize = 0;
        while i < n
            invariant
                i <= n,
                cells@.len() == i,
                forall|j: int| 0 <= j < i ==> cells@[j] is None,
            decreases n - i,
        {
            cells.push(None);
            i = i + 1;
        }
        assert(cells@ =~= empty_cells(size.cells()));
        Board { size, cells }
    }

    /// The stone on column `x`, row `y`, if any.
    pub fn stone_at(&self, x: usize, y: usize) -> (r: Option<Move>)
        requires
            self.wf(),
        ensures
            x < self.size.width && y < self.size.height ==> r == self.cells@[cell_index(self.size, x as int, y as int)],
            !(x < self.size.width && y < self.size.height) ==> r is None,
    {
        if x < self.size.width && y < self.size.height {
            proof {
                lemma_cell_in_range(self.size, x as int, y as int);
            }
            self.cells[y * self.size.width + x]
        } else {
            None
        }
    }

    /// Plays `m`: a move off the board is ignored; otherwise its stone is put
    /// on its cell (over any stone there), and each opposing group next to it,
    /// looked at west, east, north, south in turn, is taken off when it has no
    /// liberty left. Returns the stones taken off, group after group, each group
    /// in cell order. The played stone's own group is never taken off.
    pub fn play(&mut self, m: Move) -> (caught: Vec<Move>)
        requires
            old(self).wf(),
        ensures
            final(self).wf(),
            final(self).size == old(self).size,
            (final(self).cells@, caught@) == play_spec(old(self).size, old(self).cells@, m),
    {
        let mut caught: Vec<Move> = Vec::new();
        if !(m.x < self.size.width && m.y < self.size.height) {
            return caught;
        }
        proof {
            lemma_cell_in_range(self.size, m.x as int, m.y as int);
        }
        let w = self.size.width;
        let n = self.cells.len();
        let p = m.y * w + m.x;
        let ghost size = self.size;
        self.cells.set(p, Some(m));
        let ghost start = self.cells@;
        let ghost goal = captures_from(start, w as int, p as int, 0, m.color);
        let foe = m.color.other();
        let mut d: usize = 0;
        while d < 4
            invariant
                self.size == size,
                size.valid(),
                w == size.width,
                n == size.cells(),
                p < n,
                self.cells@.len() == n,
                d <= 4,
                foe == m.color.opposite(),
                captures_from(self.cells@, w as int, p as int, d as int, m.color).0 == goal.0,
                caught@ + captures_from(self.cells@, w as int, p as int, d as int, m.color).1 == goal.1,
            decreases 4 - d,
        {
            let ghost before = self.cells@;
            let ghost caught_before = caught@;
            let ghost step = capture_toward(before, w as int, p as int, d as int, m.color);
            let ghost rest = captures_from(step.0, w as int, p as int, d + 1, m.color);
            assert(captures_from(before, w as int, p as int, d as int, m.color) == (rest.0, step.1 + rest.1));
            match next_cell(w, n, p, d) {
                Some(r) => {
                    let hit = match self.cells[r] {
                        Some(o) => o.color == foe,
                        None => false,
                    };
                    if hit {
                        let (g, lib) = flood_group(&self.cells, w, r);
                        proof {
                            lemma_group_marked(before, w as int, r as int, g@);
                        }
                        if !lib {
                            take_group(&mut self.cells, &g, &mut caught);
                        }
                    }
                },
                None => {},
            }
            proof {
                assert(self.cells@ == step.0);
                assert(caught@ == caught_before + step.1);
                assert(caught_before + (step.1 + rest.1) == (caught_before + step.1) + rest.1);
            }
            d = d + 1;
        }
        proof {
            assert(caught@ + seq![] == caught@);
        }
        caught
    }

    /// The stones on the board, in cell order.
    pub fn stones(&self) -> (r: Vec<Move>)
        ensures
            r@ == live_stones(self.cells@),
    {
        let mut out: Vec<Move> = Vec::new();
        let mut i: usize = 0;
        while i < self.cells.len()
            invariant
                i <= self.cells@.len(),
                out@ == live_stones(self.cells@.take(i as int)),
            decreases self.cells@.len() - i,
        {
            proof {
                assert(self.cells@.take(i + 1).drop_last() == self.cells@.take(i as int));
            }
            match self.cells[i] {
                Some(m) => {
                    out.push(m);
                },
                None => {},
            }
            i = i + 1;
        }
        assert(self.cells@.take(i as int) == self.cells@);
        out
    }
}

proof fn lemma_cell_in_range(size: BoardSize, x: int, y: int)
    requires
        size.valid(),
        0 <= x < size.width,
        0 <= y < size.height,
    ensures
        0 <= cell_index(size, x, y) < size.cells(),
        size.cells() <= 625,
{
    let w = size.width as int;
    let h = size.height as int;
    assert(y * w + x < w * h) by (nonlinear_arith)
        requires 0 <= x < w, 0 <= y < h;
    assert(0 <= y * w) by (nonlinear_arith)
        requires 0 <= y, 0 <= w;
    assert(w * h <= 625) by (nonlinear_arith)
        requires 0 <= w <= 25, 0 <= h <= 25;
}

/// Plays the moves in order on an empty board of the given size. Returns the
/// board reached and every stone captured on the way, in the order taken off.
pub fn replay(size: BoardSize, moves: &Vec<Move>) -> (r: (Board, Vec<Move>))
    requires
        size.valid(),
    ensures
        r.0.wf(),
        r.0.size == size,
        (r.0.cells@, r.1@) == replay_spec(size, moves@),
{
    let mut board = Board::new(size);
    let mut caught: Vec<Move> = Vec::new();
    let mut i: usize = 0;
    proof {
        assert(moves@.take(0) =~= seq![]);
    }
    while i < moves.len()
        invariant
            i <= moves@.len(),
            board.wf(),
            board.size == size,
            (board.cells@, caught@) == replay_spec(size, moves@.take(i as int)),
        decreases moves@.len() - i,
    {
        proof {
            assert(moves@.take(i + 1).drop_last() =~= moves@.take(i as int));
        }
        let mut more = board.play(moves[i]);
        caught.append(&mut more);
        i = i + 1;
    }
    assert(moves@.take(i as int) =~= moves@);
    (board, caught)
}

/// The moves that land on the board, in order.
pub open spec fn on_board(size: BoardSize, moves: Seq<Move>) -> Seq<Move>
    decreases moves.len(),
{
    if moves.len() == 0 {
        seq![]
    } else {
        on_board(size, moves.drop_last()) + if moves.last().x < size.width && moves.last().y < size.height {
            seq![moves.last()]
        } else {
            seq![]
        }
    }
}

/// The stones to draw: in move-history mode every move that lands on the
/// board, captured or not, in move order; otherwise the stones left on the
/// board after the replay, in cell order.
pub open spec fn shown_stones(size: BoardSize, moves: Seq<Move>, history: bool) -> Seq<Move> {
    if history {
        on_board(size, moves)
    } else {
        live_stones(replay_spec(size, moves).0)
    }
}

/// The stones to draw for the given moves: see `shown_stones`.
pub fn stones_to_draw(size: BoardSize, moves: &Vec<Move>, history: bool) -> (r: Vec<Move>)
    requires
        size.valid(),
    ensures
        r@ == shown_stones(size, moves@, history),
{
    if history {
        let mut out: Vec<Move> = Vec::new();
        let mut i: usize = 0;
        while i < moves.len()
            invariant
                i <= moves@.len(),
                out@ == on_board(size, moves@.take(i as int)),
            decreases moves@.len() - i,
        {
            proof {
                assert(moves@.take(i + 1).drop_last() =~= moves@.take(i as int));
            }
            let m = moves[i];
            if m.x < size.width && m.y < size.height {
                out.push(m);
            }
            i = i + 1;
        }
        assert(moves@.take(i as int) =~= moves@);
        out
    } else {
        let (board, _caught) = replay(size, moves);
        board.stones()
    }
}

// ---------------------------------------------------------------------------
// Laws
// ---------------------------------------------------------------------------

/// Replaying no moves gives an empty board and no captures.
pub proof fn lemma_replay_empty(size: BoardSize)
    requires
        size.valid(),
    ensures
        replay_spec(size, seq![]).0 == empty_cells(size.cells()),
        forall|i: int| 0 <= i < size.cells() ==> #[trigger] replay_spec(size, seq![]).0[i] is None,
        replay_spec(size, seq![]).1.len() == 0,
        live_stones(replay_spec(size, seq![]).0).len() == 0,
{
    lemma_live_stones_member(empty_cells(size.cells()));
    if live_stones(empty_cells(size.cells())).len() > 0 {
        assert(live_stones(empty_cells(size.cells())).contains(live_stones(empty_cells(size.cells()))[0]));
    }
}

/// Replaying a move sequence depends on nothing but the board size and the
/// sequence: two replays of the same sequence end on the same board with the
/// same captures, in the same order.
pub proof fn lemma_replay_deterministic(size: BoardSize, a: Seq<Move>, b: Seq<Move>)
    requires
        a == b,
    ensures
        replay_spec(size, a).0 == replay_spec(size, b).0,
        replay_spec(size, a).1 == replay_spec(size, b).1,
{
}

proof fn lemma_captures_keep(cells: Seq<Option<Move>>, w: int, p: int, d: int, m: Move)
    requires
        w > 0,
        0 <= p < cells.len(),
        cells[p] == Some(m),
    ensures
        captures_from(cells, w, p, d, m.color).0.len() == cells.len(),
        captures_from(cells, w, p, d, m.color).0[p] == Some(m),
    decreases 4 - d,
{
    if 0 <= d < 4 {
        match neighbor(w, cells.len() as int, p, d) {
            Some(r) => {
                let g = group_of(cells, w, r);
                if color_at(cells, r) == Some(m.color.opposite()) && !has_liberty(cells, w, g) {
                    lemma_group_exists(cells, w, r);
                    assert(!g.contains(p));
                }
            },
            None => {},
        }
        let step = capture_toward(cells, w, p, d, m.color);
        lemma_captures_keep(step.0, w, p, d + 1, m);
    }
}

/// A move never captures its own stone: after a move lands on the board, its
/// stone is on its cell, whatever the liberties of its own group.
pub proof fn lemma_no_self_capture(size: BoardSize, cells: Seq<Option<Move>>, m: Move)
    requires
        size.valid(),
        cells.len() == size.cells(),
        m.x < size.width,
        m.y < size.height,
    ensures
        play_spec(size, cells, m).0.len() == cells.len(),
        play_spec(size, cells, m).0[cell_index(size, m.x as int, m.y as int)] == Some(m),
{
    lemma_cell_in_range(size, m.x as int, m.y as int);
    let p = cell_index(size, m.x as int, m.y as int);
    lemma_captures_keep(cells.update(p, Some(m)), size.width as int, p, 0, m);
}

/// A stone is among the live stones exactly when some cell holds it.
pub proof fn lemma_live_stones_member(cells: Seq<Option<Move>>)
    ensures
        forall|s: Move| #[trigger] live_stones(cells).contains(s) <==> exists|q: int| 0 <= q < cells.len() && cells[q] == Some(s),
    decreases cells.len(),
{
    if cells.len() > 0 {
        let init = cells.drop_last();
        lemma_live_stones_member(init);
        let tail: Seq<Move> = match cells.last() {
            Some(m) => seq![m],
            None => seq![],
        };
        assert forall|s: Move| #[trigger] live_stones(cells).contains(s) <==> exists|q: int| 0 <= q < cells.len() && cells[q] == Some(s) by {
            if live_stones(cells).contains(s) {
                let k = choose|k: int| 0 <= k < live_stones(cells).len() && live_stones(cells)[k] == s;
                if k < live_stones(init).len() {
                    assert(live_stones(init)[k] == s);
                    assert(live_stones(init).contains(s));
                    let q = choose|q: int| 0 <= q < init.len() && init[q] == Some(s);
                    assert(cells[q] == Some(s));
                } else {
                    assert(cells[cells.len() - 1] == Some(s));
                }
            }
            if exists|q: int| 0 <= q < cells.len() && cells[q] == Some(s) {
                let q = choose|q: int| 0 <= q < cells.len() && cells[q] == Some(s);
                if q < cells.len() - 1 {
                    assert(init[q] == Some(s));
                    assert(live_stones(init).contains(s));
                    let k = choose|k: int| 0 <= k < live_stones(init).len() && live_stones(init)[k] == s;
                    assert(live_stones(cells)[k] == s);
                } else {
                    assert(live_stones(cells)[live_stones(init).len() as int] == s);
                }
            }
        }
    }
}

/// Each move carries its own position in the sequence as its number.
pub open spec fn is_numbered(moves: Seq<Move>) -> bool {
    forall|i: int| 0 <= i < moves.len() ==> #[trigger] moves[i].sequence_index == i
}

/// Each stone on the cells comes from `pool` and lies on its own cell.
pub open spec fn consistent(size: BoardSize, cells: Seq<Option<Move>>, pool: Seq<Move>) -> bool {
    &&& cells.len() == size.cells()
    &&& forall|q: int| 0 <= q < cells.len() && #[trigger] cells[q] is Some ==>
            pool.contains(cells[q]->0) && q == cell_index(size, cells[q]->0.x as int, cells[q]->0.y as int)
}

/// Each captured stone comes from `pool` and is on no cell.
pub open spec fn all_gone(cells: Seq<Option<Move>>, caught: Seq<Move>, pool: Seq<Move>) -> bool {
    forall|c: Move| #[trigger] caught.contains(c) ==> pool.contains(c) && forall|q: int| 0 <= q < cells.len() ==> cells[q] != Some(c)
}

proof fn lemma_taken_member(cells: Seq<Option<Move>>, g: Set<int>, k: int)
    ensures
        forall|t: Move| #[trigger] taken(cells, g, k).contains(t) ==> exists|q: int| 0 <= q < k && g.contains(q) && cells[q] == Some(t),
    decreases k,
{
    if k > 0 {
        lemma_taken_member(cells, g, k - 1);
        assert forall|t: Move| #[trigger] taken(cells, g, k).contains(t) implies exists|q: int| 0 <= q < k && g.contains(q) && cells[q] == Some(t) by {
            let prev = taken(cells, g, k - 1);
            let j = choose|j: int| 0 <= j < taken(cells, g, k).len() && taken(cells, g, k)[j] == t;
            if j < prev.len() {
                assert(prev[j] == t);
                assert(prev.contains(t));
            } else {
                assert(cells[k - 1] == Some(t));
            }
        }
    }
}

proof fn lemma_capture_toward_gone(size: BoardSize, cells: Seq<Option<Move>>, caught: Seq<Move>, pool: Seq<Move>, p: int, d: int, mover: Color)
    requires
        size.valid(),
        consistent(size, cells, pool),
        all_gone(cells, caught, pool),
    ensures
        consistent(size, capture_toward(cells, size.width as int, p, d, mover).0, pool),
        all_gone(capture_toward(cells, size.width as int, p, d, mover).0, caught + capture_toward(cells, size.width as int, p, d, mover).1, pool),
{
    let w = size.width as int;
    let n = cells.len() as int;
    match neighbor(w, n, p, d) {
        Some(r) => {
            let g = group_of(cells, w, r);
            if color_at(cells, r) == Some(mover.opposite()) && !has_liberty(cells, w, g) {
                let c1 = removed(cells, g);
                let k1 = taken(cells, g, n);
                lemma_taken_member(cells, g, n);
                assert forall|q: int| 0 <= q < c1.len() && #[trigger] c1[q] is Some implies
                    pool.contains(c1[q]->0) && q == cell_index(size, c1[q]->0.x as int, c1[q]->0.y as int) by {
                    assert(cells[q] is Some);
                }
                assert forall|c: Move| #[trigger] (caught + k1).contains(c) implies pool.contains(c) && forall|q: int| 0 <= q < c1.len() ==> c1[q] != Some(c) by {
                    let j = choose|j: int| 0 <= j < (caught + k1).len() && (caught + k1)[j] == c;
                    if j < caught.len() {
                        assert(caught[j] == c);
                        assert(caught.contains(c));
                    } else {
                        assert(k1[j - caught.len()] == c);
                        assert(k1.contains(c));
                        let q0 = choose|q0: int| 0 <= q0 < n && g.contains(q0) && cells[q0] == Some(c);
                        assert(cells[q0] is Some);
                        assert forall|q: int| 0 <= q < c1.len() implies c1[q] != Some(c) by {
                            if c1[q] == Some(c) {
                                assert(cells[q] is Some);
                            }
                        }
                    }
                }
            } else {
                assert(caught + seq![] =~= caught);
            }
        },
        None => {
            assert(caught + seq![] =~= caught);
        },
    }
}

proof fn lemma_captures_gone(size: BoardSize, cells: Seq<Option<Move>>, caught: Seq<Move>, pool: Seq<Move>, p: int, d: int, mover: Color)
    requires
        size.valid(),
        consistent(size, cells, pool),
        all_gone(cells, caught, pool),
    ensures
        consistent(size, captures_from(cells, size.width as int, p, d, mover).0, pool),
        all_gone(captures_from(cells, size.width as int, p, d, mover).0, caught + captures_from(cells, size.width as int, p, d, mover).1, pool),
    decreases 4 - d,
{
    if d >= 4 || d < 0 {
        assert(caught + seq![] =~= caught);
    } else {
        let w = size.width as int;
        let (c1, k1) = capture_toward(cells, w, p, d, mover);
        lemma_capture_toward_gone(size, cells, caught, pool, p, d, mover);
        lemma_captures_gone(size, c1, caught + k1, pool, p, d + 1, mover);
        let (c2, k2) = captures_from(c1, w, p, d + 1, mover);
        assert(caught + k1 + k2 =~= caught + (k1 + k2));
    }
}

/// A move lands on the board exactly when it is among the moves and on the board.
pub(crate) proof fn lemma_on_board_member(size: BoardSize, moves: Seq<Move>)
    ensures
        forall|s: Move| #[trigger] on_board(size, moves).contains(s) <==> moves.contains(s) && s.x < size.width && s.y < size.height,
    decreases moves.len(),
{
    if moves.len() > 0 {
        let init = moves.drop_last();
        lemma_on_board_member(size, init);
        assert forall|s: Move| #[trigger] on_board(size, moves).contains(s) <==> moves.contains(s) && s.x < size.width && s.y < size.height by {
            let ob = on_board(size, moves);
            let oi = on_board(size, init);
            if ob.contains(s) {
                let j = choose|j: int| 0 <= j < ob.len() && ob[j] == s;
                if j < oi.len() {
                    assert(oi[j] == s);
                    assert(oi.contains(s));
                    let k = choose|k: int| 0 <= k < init.len() && init[k] == s;
                    assert(moves[k] == s);
                } else {
                    assert(moves[moves.len() - 1] == s);
                }
            }
            if moves.contains(s) && s.x < size.width && s.y < size.height {
                let k = choose|k: int| 0 <= k < moves.len() && moves[k] == s;
                if k < moves.len() - 1 {
                    assert(init[k] == s);
                    assert(oi.contains(s));
                    let j = choose|j: int| 0 <= j < oi.len() && oi[j] == s;
                    assert(ob[j] == s);
                } else {
                    assert(ob[oi.len() as int] == s);
                }
            }
        }
    }
}

pub(crate) proof fn lemma_replay_gone(size: BoardSize, moves: Seq<Move>)
    requires
        size.valid(),
        is_numbered(moves),
    ensures
        consistent(size, replay_spec(size, moves).0, on_board(size, moves)),
        all_gone(replay_spec(size, moves).0, replay_spec(size, moves).1, on_board(size, moves)),
    decreases moves.len(),
{
    lemma_on_board_member(size, moves);
    if moves.len() == 0 {
        lemma_cell_in_range(size, 0, 0);
    } else {
        let init = moves.drop_last();
        let m = moves.last();
        assert(is_numbered(init));
        lemma_replay_gone(size, init);
        lemma_on_board_member(size, init);
        let (cells, caught) = replay_spec(size, init);
        let pool = on_board(size, moves);
        let old_pool = on_board(size, init);
        assert forall|s: Move| #[trigger] old_pool.contains(s) implies pool.contains(s) && s.sequence_index < init.len() by {
            let k = choose|k: int| 0 <= k < init.len() && init[k] == s;
            assert(moves[k] == s);
        }
        assert(consistent(size, cells, pool));
        assert(all_gone(cells, caught, pool));
        if m.x < size.width && m.y < size.height {
            lemma_cell_in_range(size, m.x as int, m.y as int);
            let p = cell_index(size, m.x as int, m.y as int);
            let placed = cells.update(p, Some(m));
            assert(moves[moves.len() - 1] == m);
            assert(pool.contains(m));
            assert(consistent(size, placed, pool));
            assert(all_gone(placed, caught, pool)) by {
                assert forall|c: Move| #[trigger] caught.contains(c) implies pool.contains(c) && forall|q: int| 0 <= q < placed.len() ==> placed[q] != Some(c) by {
                    assert(old_pool.contains(c));
                    assert(c.sequence_index < init.len());
                }
            }
            lemma_captures_gone(size, placed, caught, pool, p, 0, m.color);
        } else {
            assert(caught + seq![] =~= caught);
        }
    }
}

/// In move-history mode every captured stone is drawn, with the number of the
/// move that placed it; in final-position mode no captured stone is drawn.
pub proof fn lemma_history_shows_captured(size: BoardSize, moves: Seq<Move>)
    requires
        size.valid(),
        is_numbered(moves),
    ensures
        forall|c: Move| #[trigger] replay_spec(size, moves).1.contains(c) ==> {
            &&& shown_stones(size, moves, true).contains(c)
            &&& 0 <= c.sequence_index < moves.len()
            &&& moves[c.sequence_index as int] == c
            &&& !shown_stones(size, moves, false).contains(c)
        },
{
    lemma_replay_gone(size, moves);
    lemma_on_board_member(size, moves);
    let cells = replay_spec(size, moves).0;
    lemma_live_stones_member(cells);
    assert forall|c: Move| #[trigger] replay_spec(size, moves).1.contains(c) implies {
        &&& shown_stones(size, moves, true).contains(c)
        &&& 0 <= c.sequence_index < moves.len()
        &&& moves[c.sequence_index as int] == c
        &&& !shown_stones(size, moves, false).contains(c)
    } by {
        assert(on_board(size, moves).contains(c));
        let k = choose|k: int| 0 <= k < moves.len() && moves[k] == c;
        assert(moves[k].sequence_index == k);
        if live_stones(cells).contains(c) {
            let q = choose|q: int| 0 <= q < cells.len() && cells[q] == Some(c);
        }
    }
}

} // verus!
