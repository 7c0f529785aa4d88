//! The board state and its move-validation algorithm: occupancy check,
//! connected-group liberty counting by flood fill, capture resolution,
//! suicide rejection and single-step positional-repetition (ko) rejection.

use vstd::prelude::*;
use crate::model::{
    adjacent, at_cell, captured_set, classify, clear_cells, closed_under_adjacency, const_grid,
    empty_neighbor_count, gview, grid_wf, group_of, has_capture, height, in_group, ipos,
    ipositions, lib_count, masked_sum, on_grid, opponent, seq_as_set, true_count, update_at, width,
    GridView,
};
use crate::model::{
    lemma_group_in_closed, lemma_group_concat, lemma_group_root, lemma_group_step,
    lemma_masked_sum_bounds, lemma_masked_sum_congruence, lemma_masked_sum_empty,
    lemma_true_count_all_false, lemma_ipositions_drop_last, lemma_ipositions_push,
    lemma_push_contains, lemma_drop_last_contains,
    lemma_update_at_cells,
    lemma_masked_sum_insert, lemma_rm_index_in_area, lemma_true_count_bounds,
    lemma_true_count_set,
};
use crate::networking::ServerMessage;

verus! {

/// Why a proposed move was refused.
#[derive(Clone, Debug, PartialEq, Eq, Structural)]
pub enum InvalidMove {
    PieceAlreadyPresent,
    Suicide,
    KoRule,
    InvalidTurn,
}

/// One reported cell-state change: `Some((p, Some(s)))` places `s` at `p`,
/// `Some((p, None))` clears `p`, and `None` is a pass; the second field is an
/// optional free-text annotation.
#[derive(Clone, Debug)]
pub struct Move<T: Copy>(pub Option<(Position<T>, Option<Stone>)>, pub Option<String>);

/// A two-dimensional integer coordinate, `x` then `y`.
#[derive(Clone, Copy, Debug, PartialEq, Eq, Hash)]
pub struct Position<T: Copy>(pub T, pub T);

impl<T: Copy> Position<T> {
    pub fn x(&self) -> (r: T)
        ensures
            r == self.0,
    {
        self.0
    }

    pub fn y(&self) -> (r: T)
        ensures
            r == self.1,
    {
        self.1
    }
}

/// A stone's color. Emptiness is represented at the cell level, never at the
/// stone level.
#[derive(Clone, Copy, Debug, PartialEq, Eq, Structural)]
pub enum Stone {
    White,
    Black,
}

/// The opposing color.
pub fn other_cell(stone: Stone) -> (r: Stone)
    ensures
        r == opponent(stone),
{
    if stone == Stone::White {
        Stone::Black
    } else {
        Stone::White
    }
}

/// A grid of `size_y` rows by `size_x` columns holding `v` everywhere.
fn fill_grid<T: Copy>(size_x: usize, size_y: usize, v: T) -> (r: Vec<Vec<T>>)
    ensures
        gview(r) == const_grid(size_x as int, size_y as int, v),
{
    let mut rows: Vec<Vec<T>> = Vec::new();
    let mut y: usize = 0;
    while y < size_y
        invariant
            y <= size_y,
            rows@.len() == y,
            forall|yy: int| 0 <= yy < y ==> (#[trigger] rows@[yy])@.len() == size_x,
            forall|yy: int, xx: int|
                0 <= yy < y && 0 <= xx < size_x ==> #[trigger] rows@[yy]@[xx] == v,
        decreases size_y - y,
    {
        let mut row: Vec<T> = Vec::new();
        let mut x: usize = 0;
        while x < size_x
            invariant
                x <= size_x,
                row@.len() == x,
                forall|xx: int| 0 <= xx < x ==> row@[xx] == v,
            decreases size_x - x,
        {
            row.push(v);
            x = x + 1;
        }
        rows.push(row);
        y = y + 1;
    }
    assert(forall|yy: int| 0 <= yy < y ==> #[trigger] gview(rows)[yy] == rows@[yy]@);
    assert(gview(rows) =~~= const_grid(size_x as int, size_y as int, v));
    rows
}

/// The content of the cell at `(x, y)`.
fn read_at<T: Copy>(grid: &Vec<Vec<T>>, x: usize, y: usize) -> (r: T)
    requires
        grid_wf(gview(*grid)),
        on_grid(gview(*grid), (x as int, y as int)),
    ensures
        r == at_cell(gview(*grid), (x as int, y as int)),
{
    proof {
        assert(gview(*grid)[y as int] == grid@[y as int]@);
        assert(gview(*grid)[y as int].len() == width(gview(*grid)));
    }
    grid[y][x]
}

/// Replaces the content of the cell at `(x, y)`.
fn write_at<T: Copy>(grid: &mut Vec<Vec<T>>, x: usize, y: usize, v: T)
    requires
        grid_wf(gview(*old(grid))),
        on_grid(gview(*old(grid)), (x as int, y as int)),
    ensures
        gview(*final(grid)) == update_at(gview(*old(grid)), (x as int, y as int), v),
{
    let w: usize = grid[y].len();
    let mut row: Vec<T> = Vec::new();
    let mut j: usize = 0;
    while j < w
        invariant
            j <= w,
            *grid == *old(grid),
            grid_wf(gview(*grid)),
            on_grid(gview(*grid), (x as int, y as int)),
            w == gview(*grid)[y as int].len(),
            row@.len() == j,
            forall|k: int| 0 <= k < j ==> row@[k] == gview(*grid)[y as int][k],
        decreases w - j,
    {
        assert(grid@[y as int]@.len() == w);
        row.push(grid[y][j]);
        j = j + 1;
    }
    assert(row@ =~= gview(*grid)[y as int]);
    row[x] = v;
    grid[y] = row;
    assert(gview(*grid) =~~= update_at(gview(*old(grid)), (x as int, y as int), v));
}

/// An element-for-element copy of the grid.
fn copy_grid<T: Copy>(grid: &Vec<Vec<T>>) -> (r: Vec<Vec<T>>)
    ensures
        gview(r) == gview(*grid),
{
    let mut rows: Vec<Vec<T>> = Vec::new();
    let mut y: usize = 0;
    while y < grid.len()
        invariant
            y <= grid@.len(),
            gview(rows).len() == y,
            forall|yy: int| 0 <= yy < y ==> gview(rows)[yy] == gview(*grid)[yy],
        decreases grid@.len() - y,
    {
        let w: usize = grid[y].len();
        let mut row: Vec<T> = Vec::new();
        let mut j: usize = 0;
        while j < w
            invariant
                j <= w,
                y < grid@.len(),
                w == grid@[y as int]@.len(),
                row@.len() == j,
                forall|k: int| 0 <= k < j ==> row@[k] == gview(*grid)[y as int][k],
            decreases w - j,
        {
            row.push(grid[y][j]);
            j = j + 1;
        }
        assert(row@ =~= gview(*grid)[y as int]);
        rows.push(row);
        y = y + 1;
    }
    assert(gview(rows) =~~= gview(*grid));
    rows
}

/// Cell-for-cell equality of two grids.
fn grids_equal(a: &Vec<Vec<Option<Stone>>>, b: &Vec<Vec<Option<Stone>>>) -> (r: bool)
    ensures
        r == (gview(*a) == gview(*b)),
{
    if a.len() != b.len() {
        proof {
            assert(gview(*a).len() == a@.len());
            assert(gview(*b).len() == b@.len());
        }
        return false;
    }
    let mut y: usize = 0;
    while y < a.len()
        invariant
            y <= a@.len(),
            a@.len() == b@.len(),
            forall|yy: int| 0 <= yy < y ==> gview(*a)[yy] == gview(*b)[yy],
        decreases a@.len() - y,
    {
        if a[y].len() != b[y].len() {
            proof {
                assert(gview(*a)[y as int] == a@[y as int]@);
                assert(gview(*b)[y as int] == b@[y as int]@);
            }
            return false;
        }
        let w: usize = a[y].len();
        let mut x: usize = 0;
        while x < w
            invariant
                x <= w,
                y < a@.len(),
                a@.len() == b@.len(),
                w == a@[y as int]@.len(),
                w == b@[y as int]@.len(),
                forall|xx: int|
                    0 <= xx < x ==> gview(*a)[y as int][xx] == gview(*b)[y as int][xx],
            decreases w - x,
        {
            proof {
                assert(gview(*a)[y as int] == a@[y as int]@);
                assert(gview(*b)[y as int] == b@[y as int]@);
            }
            let ca = a[y][x];
            let cb = b[y][x];
            let same = match (ca, cb) {
                (None, None) => true,
                (Some(u), Some(v)) => u == v,
                _ => false,
            };
            if !same {
                assert(gview(*a)[y as int][x as int] != gview(*b)[y as int][x as int]);
                return false;
            }
            x = x + 1;
        }
        assert(gview(*a)[y as int] =~= gview(*b)[y as int]);
        y = y + 1;
    }
    assert(gview(*a) =~~= gview(*b));
    true
}

/// How many of the up-to-four orthogonal neighbors of `(x, y)` are empty
/// on-grid cells.
fn count_empty_around(grid: &Vec<Vec<Option<Stone>>>, x: usize, y: usize) -> (r: u32)
    requires
        grid_wf(gview(*grid)),
        on_grid(gview(*grid), (x as int, y as int)),
    ensures
        r as int == empty_neighbor_count(gview(*grid), (x as int, y as int)),
        r <= 4,
{
    let h: usize = grid.len();
    let w: usize = grid[0].len();
    let mut cnt: u32 = 0;
    if x > 0 {
        if read_at(grid, x - 1, y).is_none() {
            cnt = cnt + 1;
        }
    }
    if x + 1 < w {
        if read_at(grid, x + 1, y).is_none() {
            cnt = cnt + 1;
        }
    }
    if y > 0 {
        if read_at(grid, x, y - 1).is_none() {
            cnt = cnt + 1;
        }
    }
    if y + 1 < h {
        if read_at(grid, x, y + 1).is_none() {
            cnt = cnt + 1;
        }
    }
    cnt
}

/// After one pop-and-expand round of the flood fill, every member's colored
/// neighbors are again accounted for, and the root is still reachable.
proof fn lemma_scan_step_invariants(
    gv: GridView,
    c: Stone,
    rooti: (int, int),
    pi: (int, int),
    m_old: Seq<(int, int)>,
    s_old: Seq<(int, int)>,
    s1: Seq<(int, int)>,
    mi: Seq<(int, int)>,
    si: Seq<(int, int)>,
    candi: Seq<(int, int)>,
)
    requires
        mi == m_old.push(pi),
        s_old.len() >= 1,
        s_old[s_old.len() - 1] == pi,
        s_old.no_duplicates(),
        s1 == s_old.subrange(0, s_old.len() - 1),
        forall|q: (int, int)| s1.contains(q) ==> #[trigger] si.contains(q),
        forall|i: int, q: (int, int)|
            #![trigger adjacent(m_old[i], q)]
            0 <= i < m_old.len() && adjacent(m_old[i], q) && on_grid(gv, q) && at_cell(gv, q)
                == Some(c) ==> (m_old.contains(q) || s_old.contains(q)),
        forall|q: (int, int)| adjacent(pi, q) && on_grid(gv, q) ==> #[trigger] candi.contains(q),
        forall|i: int|
            0 <= i < m_old.len() ==> on_grid(gv, #[trigger] m_old[i]) && in_group(
                gv,
                c,
                rooti,
                m_old[i],
            ),
        on_grid(gv, pi),
        in_group(gv, c, rooti, pi),
        forall|j: int|
            0 <= j < candi.len() && at_cell(gv, #[trigger] candi[j]) == Some(c) ==> (mi.contains(
                candi[j],
            ) || si.contains(candi[j])),
        m_old.contains(rooti) || s_old.contains(rooti),
    ensures
        forall|i: int, q: (int, int)|
            #![trigger adjacent(mi[i], q)]
            0 <= i < mi.len() && adjacent(mi[i], q) && on_grid(gv, q) && at_cell(gv, q) == Some(c)
                ==> (mi.contains(q) || si.contains(q)),
        mi.contains(rooti) || si.contains(rooti),
        forall|i: int|
            0 <= i < mi.len() ==> on_grid(gv, #[trigger] mi[i]) && in_group(gv, c, rooti, mi[i]),
{
    assert forall|i: int|
        0 <= i < mi.len() implies on_grid(gv, #[trigger] mi[i]) && in_group(
        gv,
        c,
        rooti,
        mi[i],
    ) by {
        if i < m_old.len() {
            assert(mi[i] == m_old[i]);
        } else {
            assert(mi[i] == pi);
        }
    }
    lemma_push_contains(m_old, pi);
    lemma_drop_last_contains(s_old);
    assert forall|i: int, q: (int, int)|
        #![trigger adjacent(mi[i], q)]
        0 <= i < mi.len() && adjacent(mi[i], q) && on_grid(gv, q) && at_cell(gv, q) == Some(
        c,
    ) implies (mi.contains(q) || si.contains(q)) by {
        if i < m_old.len() {
            assert(mi[i] == m_old[i]);
            assert(adjacent(m_old[i], q));
            assert(m_old.contains(q) || s_old.contains(q));
            if !m_old.contains(q) && q != pi {
                assert(s1.contains(q));
                assert(si.contains(q));
            }
        } else {
            assert(mi[i] == pi);
            assert(candi.contains(q));
            let j = choose|j: int| 0 <= j < candi.len() && candi[j] == q;
            assert(at_cell(gv, candi[j]) == Some(c));
        }
    }
    if !m_old.contains(rooti) && s_old.contains(rooti) && rooti != pi {
        assert(s1.contains(rooti));
        assert(si.contains(rooti));
    }
}

/// When the stack has emptied, the members list is exactly the group.
#[verifier::rlimit(100)]
#[verifier::spinoff_prover]
proof fn lemma_scan_complete(gv: GridView, c: Stone, rooti: (int, int), mi: Seq<(int, int)>)
    requires
        mi.contains(rooti),
        forall|i: int|
            0 <= i < mi.len() ==> on_grid(gv, #[trigger] mi[i]) && in_group(gv, c, rooti, mi[i]),
        forall|i: int, q: (int, int)|
            #![trigger adjacent(mi[i], q)]
            0 <= i < mi.len() && adjacent(mi[i], q) && on_grid(gv, q) && at_cell(gv, q) == Some(c)
                ==> mi.contains(q),
    ensures
        forall|p: (int, int)| #[trigger] mi.contains(p) <==> in_group(gv, c, rooti, p),
{
    let gs = seq_as_set(mi);
    assert forall|p2: (int, int), q: (int, int)|
        #![trigger gs.contains(p2), adjacent(p2, q)]
        gs.contains(p2) && adjacent(p2, q) && on_grid(gv, q) && at_cell(gv, q) == Some(
        c,
    ) implies gs.contains(q) by {
        let i = choose|i: int| 0 <= i < mi.len() && mi[i] == p2;
        assert(adjacent(mi[i], q));
    }
    assert(closed_under_adjacency(gv, c, gs));
    lemma_group_in_closed(gv, c, rooti, gs);
    assert forall|p2: (int, int)| #[trigger] mi.contains(p2) implies in_group(
        gv,
        c,
        rooti,
        p2,
    ) by {
        let i = choose|i: int| 0 <= i < mi.len() && mi[i] == p2;
    }
    assert forall|p2: (int, int)| in_group(gv, c, rooti, p2) implies #[trigger] mi.contains(
        p2,
    ) by {
        assert(gs.contains(p2));
    }
}

/// The flood fill's running state: the visited flags mark exactly the listed
/// members and the pending stack entries, members and stack hold distinct
/// on-grid cells of the group, every colored neighbor of a member has been
/// visited, the root has been visited, and the running total is the masked
/// sum over the members so far.
pub open spec fn scan_inv(
    gv: GridView,
    fv: Seq<Seq<bool>>,
    mi: Seq<(int, int)>,
    si: Seq<(int, int)>,
    total: u32,
    c: Stone,
    rooti: (int, int),
) -> bool {
    &&& fv.len() == height(gv)
    &&& width(fv) == width(gv)
    &&& grid_wf(fv)
    &&& forall|q: (int, int)|
        #![trigger at_cell(fv, q)]
        on_grid(gv, q) ==> at_cell(fv, q) == (mi.contains(q) || si.contains(q))
    &&& mi.no_duplicates()
    &&& si.no_duplicates()
    &&& forall|q: (int, int)|
        #![trigger mi.contains(q), si.contains(q)]
        !(mi.contains(q) && si.contains(q))
    &&& forall|i: int|
        0 <= i < mi.len() ==> on_grid(gv, #[trigger] mi[i]) && in_group(gv, c, rooti, mi[i])
    &&& forall|i: int|
        0 <= i < si.len() ==> on_grid(gv, #[trigger] si[i]) && in_group(gv, c, rooti, si[i])
    &&& forall|i: int, q: (int, int)|
        #![trigger adjacent(mi[i], q)]
        0 <= i < mi.len() && adjacent(mi[i], q) && on_grid(gv, q) && at_cell(gv, q) == Some(c)
            ==> (mi.contains(q) || si.contains(q))
    &&& (mi.contains(rooti) || si.contains(rooti))
    &&& total as int == masked_sum(gv, seq_as_set(mi), (height(gv) * width(gv)) as nat)
    &&& mi.len() + si.len() == true_count(fv, (height(gv) * width(gv)) as nat)
}

/// One round of the flood fill: pop a pending cell, add its own empty-neighbor
/// count to the total, record it as a member, and push its unvisited
/// same-color neighbors.
#[verifier::rlimit(100)]
#[verifier::spinoff_prover]
fn scan_step(
    grid: &Vec<Vec<Option<Stone>>>,
    flags: &mut Vec<Vec<bool>>,
    stack: &mut Vec<(usize, usize)>,
    members: &mut Vec<(usize, usize)>,
    total: &mut u32,
    c: Stone,
    Ghost(rooti): Ghost<(int, int)>,
)
    requires
        grid_wf(gview(*grid)),
        on_grid(gview(*grid), rooti),
        4 * height(gview(*grid)) * width(gview(*grid)) <= u32::MAX,
        old(stack)@.len() > 0,
        scan_inv(
            gview(*grid),
            gview(*old(flags)),
            ipositions(old(members)@),
            ipositions(old(stack)@),
            *old(total),
            c,
            rooti,
        ),
    ensures
        scan_inv(
            gview(*grid),
            gview(*final(flags)),
            ipositions(final(members)@),
            ipositions(final(stack)@),
            *final(total),
            c,
            rooti,
        ),
        final(members)@.len() == old(members)@.len() + 1,
{
    let ghost gv = gview(*grid);
    let ghost area: nat = (height(gv) * width(gv)) as nat;
    let h: usize = grid.len();
    let w: usize = grid[0].len();
    proof {
        assert(gview(*grid)[0] == grid@[0]@);
        assert(w == width(gv));
    }
    let ghost m_old = ipositions(members@);
    let ghost s_old = ipositions(stack@);
    let ghost su0 = stack@;
    proof {
        assert(scan_inv(gv, gview(*flags), m_old, s_old, *total, c, rooti));
    }
    let p: (usize, usize) = stack.pop().unwrap();
    let ghost pi = ipos(p);
    proof {
        lemma_ipositions_drop_last(su0);
        lemma_drop_last_contains(s_old);
        assert(pi == s_old[s_old.len() - 1]);
        assert(s_old.contains(pi));
        assert(!m_old.contains(pi));
        assert(on_grid(gv, pi) && in_group(gv, c, rooti, pi));
        assert(ipositions(stack@) == s_old.subrange(0, s_old.len() - 1));
    }
    let cnt: u32 = count_empty_around(grid, p.0, p.1);
    let ghost mu0 = members@;
    proof {
        lemma_ipositions_push(mu0, p);
        lemma_push_contains(m_old, pi);
        lemma_masked_sum_insert(gv, seq_as_set(m_old), pi, area);
        lemma_rm_index_in_area(gv, pi);
        lemma_masked_sum_bounds(gv, seq_as_set(m_old).insert(pi), area);
        lemma_masked_sum_bounds(gv, seq_as_set(m_old), area);
        assert(masked_sum(gv, seq_as_set(m_old).insert(pi), area) == masked_sum(
            gv,
            seq_as_set(m_old),
            area,
        ) + empty_neighbor_count(gv, pi));
        vstd::arithmetic::mul::lemma_mul_nonnegative(height(gv), width(gv));
        assert(area as int == height(gv) * width(gv));
        assert(4 * (area as int) <= u32::MAX) by (nonlinear_arith)
            requires
                4 * height(gv) * width(gv) <= u32::MAX,
                area as int == height(gv) * width(gv),
        ;
        assert(*total as int + cnt as int <= 4 * (area as int));
    }
    *total = *total + cnt;
    members.push(p);
    proof {
        let mi = ipositions(members@);
        assert(mi == m_old.push(pi));
        assert(mi.no_duplicates());
        assert(seq_as_set(mi) =~= seq_as_set(m_old).insert(pi));
        lemma_masked_sum_congruence(gv, seq_as_set(mi), seq_as_set(m_old).insert(pi), area);
    }
    let mut cand: Vec<(usize, usize)> = Vec::new();
    if p.0 > 0 {
        let ghost c0 = cand@;
        cand.push((p.0 - 1, p.1));
        proof {
            lemma_ipositions_push(c0, (((p.0 - 1) as int) as usize, p.1));
            lemma_push_contains(ipositions(c0), (pi.0 - 1, pi.1));
            assert(ipositions(cand@).contains((pi.0 - 1, pi.1)));
        }
    }
    if p.1 > 0 {
        let ghost c0 = cand@;
        cand.push((p.0, p.1 - 1));
        proof {
            lemma_ipositions_push(c0, (p.0, ((p.1 - 1) as int) as usize));
            lemma_push_contains(ipositions(c0), (pi.0, pi.1 - 1));
            assert(forall|q: (int, int)|
                ipositions(c0).contains(q) ==> #[trigger] ipositions(cand@).contains(q));
            assert(ipositions(cand@).contains((pi.0, pi.1 - 1)));
        }
    }
    if p.0 + 1 < w {
        let ghost c0 = cand@;
        cand.push((p.0 + 1, p.1));
        proof {
            lemma_ipositions_push(c0, ((p.0 + 1) as usize, p.1));
            lemma_push_contains(ipositions(c0), (pi.0 + 1, pi.1));
            assert(forall|q: (int, int)|
                ipositions(c0).contains(q) ==> #[trigger] ipositions(cand@).contains(q));
            assert(ipositions(cand@).contains((pi.0 + 1, pi.1)));
        }
    }
    if p.1 + 1 < h {
        let ghost c0 = cand@;
        cand.push((p.0, p.1 + 1));
        proof {
            lemma_ipositions_push(c0, (p.0, (p.1 + 1) as usize));
            lemma_push_contains(ipositions(c0), (pi.0, pi.1 + 1));
            assert(forall|q: (int, int)|
                ipositions(c0).contains(q) ==> #[trigger] ipositions(cand@).contains(q));
            assert(ipositions(cand@).contains((pi.0, pi.1 + 1)));
        }
    }
    proof {
        assert(forall|jj: int|
            0 <= jj < cand@.len() ==> on_grid(gv, ipos(#[trigger] cand@[jj])) && adjacent(
                pi,
                ipos(cand@[jj]),
            ));
        assert forall|q: (int, int)|
            adjacent(pi, q) && on_grid(gv, q) implies ipositions(cand@).contains(q) by {
            if q.0 == pi.0 - 1 && q.1 == pi.1 {
                assert(ipositions(cand@).contains(q));
            } else if q.0 == pi.0 && q.1 == pi.1 - 1 {
                assert(ipositions(cand@).contains(q));
            } else if q.0 == pi.0 + 1 && q.1 == pi.1 {
                assert(ipositions(cand@).contains(q));
            } else {
                assert(q.0 == pi.0 && q.1 == pi.1 + 1);
                assert(ipositions(cand@).contains(q));
            }
        }
    }
    let ghost s1 = ipositions(stack@);
    let ghost m1 = ipositions(members@);
    proof {
        assert forall|q: (int, int)| on_grid(gv, q) implies at_cell(gview(*flags), q) == (
        m1.contains(q) || s1.contains(q)) by {
            assert(at_cell(gview(*flags), q) == (m_old.contains(q) || s_old.contains(q)));
            if s_old.contains(q) && q != pi {
                assert(s1.contains(q));
            }
            if s1.contains(q) {
                assert(s_old.contains(q));
            }
            if m_old.contains(q) {
                assert(m1.contains(q));
            }
            if m1.contains(q) && !m_old.contains(q) {
                assert(q == pi);
            }
        }
    }
    let mut j: usize = 0;
    while j < cand.len()
        invariant
            gv == gview(*grid),
            grid_wf(gv),
            on_grid(gv, rooti),
            h == height(gv),
            w == width(gv),
            0 < w,
            0 < h,
            area == (height(gv) * width(gv)) as nat,
            members@.len() + stack@.len() == true_count(gview(*flags), area),
            gview(*flags).len() == h,
            width(gview(*flags)) == w,
            grid_wf(gview(*flags)),
            j <= cand@.len(),
            m1 == ipositions(members@),
            on_grid(gv, pi),
            in_group(gv, c, rooti, pi),
            forall|jj: int|
                0 <= jj < cand@.len() ==> on_grid(gv, ipos(#[trigger] cand@[jj])) && adjacent(
                    pi,
                    ipos(cand@[jj]),
                ),
            forall|q: (int, int)|
                on_grid(gv, q) ==> at_cell(#[trigger] gview(*flags), q) == (m1.contains(q)
                    || ipositions(stack@).contains(q)),
            ipositions(stack@).no_duplicates(),
            forall|q: (int, int)|
                #![trigger ipositions(stack@).contains(q)]
                !(m1.contains(q) && ipositions(stack@).contains(q)),
            forall|i: int|
                0 <= i < ipositions(stack@).len() ==> on_grid(
                    gv,
                    #[trigger] ipositions(stack@)[i],
                ) && in_group(gv, c, rooti, ipositions(stack@)[i]),
            forall|q: (int, int)| s1.contains(q) ==> #[trigger] ipositions(stack@).contains(q),
            forall|jj: int|
                0 <= jj < j && at_cell(gv, ipos(#[trigger] cand@[jj])) == Some(c) ==> (m1.contains(
                    ipos(cand@[jj]),
                ) || ipositions(stack@).contains(ipos(cand@[jj]))),
        decreases cand@.len() - j,
    {
        let q = cand[j];
        let cq = read_at(grid, q.0, q.1);
        let is_c = match cq {
            Some(s2) => s2 == c,
            None => false,
        };
        if is_c {
            if !read_at(&flags, q.0, q.1) {
                let ghost fv0 = gview(*flags);
                let ghost sv0 = stack@;
                let ghost qi = ipos(q);
                proof {
                    assert(at_cell(fv0, qi) == false);
                    assert(!m1.contains(qi) && !ipositions(sv0).contains(qi));
                }
                write_at(flags, q.0, q.1, true);
                stack.push(q);
                proof {
                    lemma_ipositions_push(sv0, q);
                    lemma_push_contains(ipositions(sv0), qi);
                    lemma_update_at_cells(fv0, qi, true);
                    lemma_true_count_set(fv0, qi, area);
                    lemma_rm_index_in_area(fv0, qi);
                    lemma_group_step(gv, c, rooti, pi, qi);
                    let sn = ipositions(stack@);
                    assert(sn == ipositions(sv0).push(qi));
                    assert(sn.no_duplicates());
                    assert(sn.contains(qi));
                    assert forall|r: (int, int)| on_grid(gv, r) implies at_cell(
                        #[trigger] gview(*flags),
                        r,
                    ) == (m1.contains(r) || sn.contains(r)) by {
                        if r == qi {
                            assert(at_cell(gview(*flags), r) == true);
                        } else {
                            assert(at_cell(gview(*flags), r) == at_cell(fv0, r));
                        }
                    }
                }
            }
        }
        j = j + 1;
    }
    proof {
        lemma_scan_step_invariants(
            gv,
            c,
            rooti,
            pi,
            m_old,
            s_old,
            s1,
            ipositions(members@),
            ipositions(stack@),
            ipositions(cand@),
        );
    }
}

/// Flood fill of the connected group rooted at `(x, y)`: returns the group's
/// liberty count (the sum over its members of each member's own number of
/// empty orthogonal neighbors) together with the list of its member cells,
/// each exactly once.
#[verifier::rlimit(100)]
#[verifier::spinoff_prover]
fn group_scan(grid: &Vec<Vec<Option<Stone>>>, x: usize, y: usize, c: Stone) -> (r: (
    u32,
    Vec<(usize, usize)>,
))
    requires
        grid_wf(gview(*grid)),
        on_grid(gview(*grid), (x as int, y as int)),
        4 * height(gview(*grid)) * width(gview(*grid)) <= u32::MAX,
    ensures
        r.0 as int == lib_count(gview(*grid), c, (x as int, y as int)),
        ipositions(r.1@).no_duplicates(),
        forall|p: (int, int)|
            ipositions(r.1@).contains(p) <==> in_group(gview(*grid), c, (x as int, y as int), p),
        forall|i: int| 0 <= i < r.1@.len() ==> on_grid(gview(*grid), ipos(#[trigger] r.1@[i])),
{
    let ghost gv = gview(*grid);
    let ghost rooti: (int, int) = (x as int, y as int);
    let h: usize = grid.len();
    let w: usize = grid[0].len();
    let ghost area: nat = (height(gv) * width(gv)) as nat;
    let mut flags: Vec<Vec<bool>> = fill_grid(w, h, false);
    proof {
        assert(h == height(gv));
        assert(gview(*grid)[0] == grid@[0]@);
        assert(w == width(gv));
        assert(gview(flags).len() == h);
        assert(forall|yy: int| 0 <= yy < h ==> (#[trigger] gview(flags)[yy]).len() == w);
        assert(width(gview(flags)) == w);
        assert(grid_wf(gview(flags)));
        assert(forall|q: (int, int)|
            on_grid(gview(flags), q) ==> at_cell(#[trigger] gview(flags), q) == false);
        lemma_true_count_all_false(gview(flags), area);
        lemma_rm_index_in_area(gview(flags), rooti);
        lemma_update_at_cells(gview(flags), rooti, true);
        lemma_true_count_set(gview(flags), rooti, area);
        lemma_group_root(gv, c, rooti);
        lemma_masked_sum_empty(gv, area);
    }
    write_at(&mut flags, x, y, true);
    let mut stack: Vec<(usize, usize)> = Vec::new();
    stack.push((x, y));
    let mut members: Vec<(usize, usize)> = Vec::new();
    let mut total: u32 = 0;
    proof {
        assert(seq_as_set(ipositions(members@)) =~= Set::empty());
        assert(ipositions(stack@)[0] == rooti);
        assert(forall|q: (int, int)| #[trigger] ipositions(stack@).contains(q) ==> q == rooti);
        assert(scan_inv(gv, gview(flags), ipositions(members@), ipositions(stack@), total, c, rooti));
    }
    while stack.len() > 0
        invariant
            gv == gview(*grid),
            grid_wf(gv),
            on_grid(gv, rooti),
            h == height(gv),
            w == width(gv),
            4 * height(gv) * width(gv) <= u32::MAX,
            area == (height(gv) * width(gv)) as nat,
            scan_inv(gv, gview(flags), ipositions(members@), ipositions(stack@), total, c, rooti),
        decreases h * w - members@.len(),
    {
        proof {
            lemma_true_count_bounds(gview(flags), area);
        }
        scan_step(grid, &mut flags, &mut stack, &mut members, &mut total, c, Ghost(rooti));
        proof {
            lemma_true_count_bounds(gview(flags), area);
        }
    }
    proof {
        assert(ipositions(stack@).len() == 0);
        assert(forall|q: (int, int)| !#[trigger] ipositions(stack@).contains(q));
        let mi = ipositions(members@);
        assert(mi.contains(rooti));
        assert forall|i: int, q: (int, int)|
            #![trigger adjacent(mi[i], q)]
            0 <= i < mi.len() && adjacent(mi[i], q) && on_grid(gv, q) && at_cell(gv, q) == Some(
            c,
        ) implies mi.contains(q) by {
            assert(mi.contains(q) || ipositions(stack@).contains(q));
        }
        lemma_scan_complete(gv, c, rooti, mi);
        assert(seq_as_set(mi) =~= group_of(gv, c, rooti));
        lemma_masked_sum_congruence(gv, seq_as_set(mi), group_of(gv, c, rooti), area);
        assert forall|i: int|
            0 <= i < members@.len() implies on_grid(gv, ipos(#[trigger] members@[i])) by {
            assert(ipositions(members@)[i] == ipos(members@[i]));
        }
    }
    (total, members)
}


/// The wire message that reports the cell at `p` now holding `v`.
pub open spec fn change_msg(p: (int, int), v: Option<Stone>) -> ServerMessage {
    ServerMessage::PlaceResponse(Ok(Move(Some((Position((p.0 as u8), (p.1 as u8)), v)), None)))
}

/// The change list reported for an accepted move: the placement first, then
/// one removal for each captured cell, each captured cell exactly once.
pub open spec fn delta_matches(
    msgs: Seq<ServerMessage>,
    pos: (int, int),
    s: Stone,
    cap: Set<(int, int)>,
) -> bool {
    &&& msgs.len() >= 1
    &&& msgs[0] == change_msg(pos, Some(s))
    &&& forall|i: int|
        1 <= i < msgs.len() ==> exists|p: (int, int)|
            #![auto]
            cap.contains(p) && #[trigger] msgs[i] == change_msg(p, None)
    &&& forall|i: int, j: int|
        #![trigger msgs[i], msgs[j]]
        1 <= i < j < msgs.len() ==> msgs[i] != msgs[j]
    &&& forall|p: (int, int)|
        #[trigger] cap.contains(p) ==> exists|i: int|
            #![auto]
            1 <= i < msgs.len() && msgs[i] == change_msg(p, None)
}

/// The cells of every opposing zero-liberty group adjacent to the stone just
/// placed at `(x, y)`, each exactly once.
#[verifier::rlimit(100)]
#[verifier::spinoff_prover]
fn collect_captures(grid: &Vec<Vec<Option<Stone>>>, x: usize, y: usize, stone: Stone) -> (r: Vec<
    (usize, usize),
>)
    requires
        grid_wf(gview(*grid)),
        on_grid(gview(*grid), (x as int, y as int)),
        4 * height(gview(*grid)) * width(gview(*grid)) <= u32::MAX,
    ensures
        ipositions(r@).no_duplicates(),
        forall|i: int| 0 <= i < r@.len() ==> on_grid(gview(*grid), ipos(#[trigger] r@[i])),
        forall|p: (int, int)|
            #[trigger] ipositions(r@).contains(p) <==> captured_set(
                gview(*grid),
                (x as int, y as int),
                stone,
            ).contains(p),
{
    let ghost g1 = gview(*grid);
    let ghost pos: (int, int) = (x as int, y as int);
    let ghost cap = captured_set(g1, pos, stone);
    let opp = other_cell(stone);
    let h: usize = grid.len();
    let w: usize = grid[0].len();
    proof {
        assert(gview(*grid)[0] == grid@[0]@);
        assert(w == width(g1) && h == height(g1));
    }
    let mut nbrs: Vec<(usize, usize)> = Vec::new();
    if x > 0 {
        let ghost c0 = nbrs@;
        nbrs.push((x - 1, y));
        proof {
            lemma_ipositions_push(c0, (((x - 1) as int) as usize, y));
            lemma_push_contains(ipositions(c0), (pos.0 - 1, pos.1));
            assert(ipositions(nbrs@).contains((pos.0 - 1, pos.1)));
        }
    }
    if y > 0 {
        let ghost c0 = nbrs@;
        nbrs.push((x, y - 1));
        proof {
            lemma_ipositions_push(c0, (x, ((y - 1) as int) as usize));
            lemma_push_contains(ipositions(c0), (pos.0, pos.1 - 1));
            assert(forall|q: (int, int)|
                ipositions(c0).contains(q) ==> #[trigger] ipositions(nbrs@).contains(q));
            assert(ipositions(nbrs@).contains((pos.0, pos.1 - 1)));
        }
    }
    if x + 1 < w {
        let ghost c0 = nbrs@;
        nbrs.push((x + 1, y));
        proof {
            lemma_ipositions_push(c0, ((x + 1) as usize, y));
            lemma_push_contains(ipositions(c0), (pos.0 + 1, pos.1));
            assert(forall|q: (int, int)|
                ipositions(c0).contains(q) ==> #[trigger] ipositions(nbrs@).contains(q));
            assert(ipositions(nbrs@).contains((pos.0 + 1, pos.1)));
        }
    }
    if y + 1 < h {
        let ghost c0 = nbrs@;
        nbrs.push((x, (y + 1)));
        proof {
            lemma_ipositions_push(c0, (x, (y + 1) as usize));
            lemma_push_contains(ipositions(c0), (pos.0, pos.1 + 1));
            assert(forall|q: (int, int)|
                ipositions(c0).contains(q) ==> #[trigger] ipositions(nbrs@).contains(q));
            assert(ipositions(nbrs@).contains((pos.0, pos.1 + 1)));
        }
    }
    proof {
        assert(forall|jj: int|
            0 <= jj < nbrs@.len() ==> on_grid(g1, ipos(#[trigger] nbrs@[jj])) && adjacent(
                pos,
                ipos(nbrs@[jj]),
            ));
        assert forall|q: (int, int)|
            adjacent(pos, q) && on_grid(g1, q) implies ipositions(nbrs@).contains(q) by {
            if q.0 == pos.0 - 1 && q.1 == pos.1 {
                assert(ipositions(nbrs@).contains(q));
            } else if q.0 == pos.0 && q.1 == pos.1 - 1 {
                assert(ipositions(nbrs@).contains(q));
            } else if q.0 == pos.0 + 1 && q.1 == pos.1 {
                assert(ipositions(nbrs@).contains(q));
            } else {
                assert(q.0 == pos.0 && q.1 == pos.1 + 1);
                assert(ipositions(nbrs@).contains(q));
            }
        }
    }
    let mut flags: Vec<Vec<bool>> = fill_grid(w, h, false);
    let mut caught: Vec<(usize, usize)> = Vec::new();
    proof {
        assert(gview(flags).len() == h);
        assert(forall|yy: int| 0 <= yy < h ==> (#[trigger] gview(flags)[yy]).len() == w);
        assert(width(gview(flags)) == w);
        assert(grid_wf(gview(flags)));
        assert(forall|q: (int, int)|
            on_grid(g1, q) ==> at_cell(#[trigger] gview(flags), q) == false);
    }
    let mut i: usize = 0;
    while i < nbrs.len()
        invariant
            g1 == gview(*grid),
            grid_wf(g1),
            on_grid(g1, pos),
            h == height(g1),
            w == width(g1),
            0 < w,
            0 < h,
            4 * height(g1) * width(g1) <= u32::MAX,
            opp == opponent(stone),
            cap == captured_set(g1, pos, stone),
            i <= nbrs@.len(),
            forall|jj: int|
                0 <= jj < nbrs@.len() ==> on_grid(g1, ipos(#[trigger] nbrs@[jj])) && adjacent(
                    pos,
                    ipos(nbrs@[jj]),
                ),
            forall|q: (int, int)|
                adjacent(pos, q) && on_grid(g1, q) ==> #[trigger] ipositions(nbrs@).contains(q),
            gview(flags).len() == h,
            width(gview(flags)) == w,
            grid_wf(gview(flags)),
            forall|q: (int, int)|
                #![trigger at_cell(gview(flags), q)]
                on_grid(g1, q) ==> at_cell(gview(flags), q) == ipositions(caught@).contains(q),
            ipositions(caught@).no_duplicates(),
            forall|k: int|
                0 <= k < ipositions(caught@).len() ==> on_grid(
                    g1,
                    #[trigger] ipositions(caught@)[k],
                ),
            forall|p: (int, int)|
                #[trigger] ipositions(caught@).contains(p) ==> exists|j: int|
                    #![auto]
                    0 <= j < i && at_cell(g1, ipositions(nbrs@)[j]) == Some(opp) && lib_count(
                        g1,
                        opp,
                        ipositions(nbrs@)[j],
                    ) == 0 && in_group(g1, opp, ipositions(nbrs@)[j], p),
            forall|j: int, p: (int, int)|
                #![trigger in_group(g1, opp, ipositions(nbrs@)[j], p)]
                0 <= j < i && at_cell(g1, ipositions(nbrs@)[j]) == Some(opp) && lib_count(
                    g1,
                    opp,
                    ipositions(nbrs@)[j],
                ) == 0 && in_group(g1, opp, ipositions(nbrs@)[j], p) ==> ipositions(
                    caught@,
                ).contains(p),
        decreases nbrs@.len() - i,
    {
        let q = nbrs[i];
        let ghost qi = ipos(q);
        proof {
            assert(qi == ipositions(nbrs@)[i as int]);
            assert(on_grid(g1, qi) && adjacent(pos, qi));
        }
        let flagged = read_at(&flags, q.0, q.1);
        let cellv = read_at(grid, q.0, q.1);
        let is_opp = match cellv {
            Some(s2) => s2 == opp,
            None => false,
        };
        if is_opp && !flagged {
            let scan = group_scan(grid, q.0, q.1, opp);
            let libs = scan.0;
            let gm = scan.1;
            if libs == 0 {
                let ghost c_entry = ipositions(caught@);
                let mut k: usize = 0;
                while k < gm.len()
                    invariant
                        g1 == gview(*grid),
                        grid_wf(g1),
                        h == height(g1),
                        w == width(g1),
                        0 < w,
                        0 < h,
                        opp == opponent(stone),
                        k <= gm@.len(),
                        qi == ipos(q),
                        on_grid(g1, qi),
                        at_cell(g1, qi) == Some(opp),
                        lib_count(g1, opp, qi) == 0,
                        forall|p: (int, int)|
                            #[trigger] ipositions(gm@).contains(p) <==> in_group(g1, opp, qi, p),
                        forall|kk: int|
                            0 <= kk < gm@.len() ==> on_grid(g1, ipos(#[trigger] gm@[kk])),
                        gview(flags).len() == h,
                        width(gview(flags)) == w,
                        grid_wf(gview(flags)),
                        forall|r2: (int, int)|
                            #![trigger at_cell(gview(flags), r2)]
                            on_grid(g1, r2) ==> at_cell(gview(flags), r2) == ipositions(
                                caught@,
                            ).contains(r2),
                        ipositions(caught@).no_duplicates(),
                        forall|kk: int|
                            0 <= kk < ipositions(caught@).len() ==> on_grid(
                                g1,
                                #[trigger] ipositions(caught@)[kk],
                            ),
                        forall|p: (int, int)|
                            #[trigger] ipositions(caught@).contains(p) ==> (c_entry.contains(p)
                                || in_group(g1, opp, qi, p)),
                        forall|p: (int, int)|
                            #[trigger] c_entry.contains(p) ==> ipositions(caught@).contains(p),
                        forall|kk: int|
                            0 <= kk < k ==> #[trigger] ipositions(caught@).contains(
                                ipos(gm@[kk]),
                            ),
                    decreases gm@.len() - k,
                {
                    let m = gm[k];
                    proof {
                        assert(ipositions(gm@)[k as int] == ipos(m));
                        assert(ipositions(gm@).contains(ipos(m)));
                        assert(in_group(g1, opp, qi, ipos(m)));
                        assert(on_grid(g1, ipos(m)));
                    }
                    let fm = read_at(&flags, m.0, m.1);
                    if !fm {
                        let ghost cf0 = gview(flags);
                        let ghost cu0 = caught@;
                        write_at(&mut flags, m.0, m.1, true);
                        caught.push(m);
                        proof {
                            lemma_ipositions_push(cu0, m);
                            lemma_push_contains(ipositions(cu0), ipos(m));
                            lemma_update_at_cells(cf0, ipos(m), true);
                            let cn = ipositions(caught@);
                            assert(cn == ipositions(cu0).push(ipos(m)));
                            assert(cn.no_duplicates());
                            assert forall|r2: (int, int)| on_grid(g1, r2) implies at_cell(
                                #[trigger] gview(flags),
                                r2,
                            ) == cn.contains(r2) by {
                                if r2 == ipos(m) {
                                    assert(at_cell(gview(flags), r2) == true);
                                    assert(cn.contains(r2));
                                } else {
                                    assert(at_cell(gview(flags), r2) == at_cell(cf0, r2));
                                }
                            }
                        }
                    }
                    k = k + 1;
                }
                proof {
                    assert forall|p: (int, int)| in_group(g1, opp, qi, p) implies ipositions(
                        caught@,
                    ).contains(p) by {
                        assert(ipositions(gm@).contains(p));
                        let kk = choose|kk: int|
                            0 <= kk < ipositions(gm@).len() && ipositions(gm@)[kk] == p;
                        assert(ipositions(caught@).contains(ipos(gm@[kk])));
                        assert(ipos(gm@[kk]) == p);
                    }
                    assert forall|p: (int, int)| #[trigger]
                        ipositions(caught@).contains(p) implies exists|j: int|
                        #![auto]
                        0 <= j < i + 1 && at_cell(g1, ipositions(nbrs@)[j]) == Some(opp)
                            && lib_count(g1, opp, ipositions(nbrs@)[j]) == 0 && in_group(
                            g1,
                            opp,
                            ipositions(nbrs@)[j],
                            p,
                        ) by {
                        if c_entry.contains(p) {
                            let j = choose|j: int|
                                #![auto]
                                0 <= j < i && at_cell(g1, ipositions(nbrs@)[j]) == Some(opp)
                                    && lib_count(g1, opp, ipositions(nbrs@)[j]) == 0 && in_group(
                                    g1,
                                    opp,
                                    ipositions(nbrs@)[j],
                                    p,
                                );
                            assert(0 <= j < i + 1 && at_cell(g1, ipositions(nbrs@)[j]) == Some(opp)
                                && lib_count(g1, opp, ipositions(nbrs@)[j]) == 0 && in_group(
                                g1,
                                opp,
                                ipositions(nbrs@)[j],
                                p,
                            ));
                        } else {
                            assert(in_group(g1, opp, qi, p));
                            assert(ipositions(nbrs@)[i as int] == qi);
                            assert(0 <= i < i + 1 && at_cell(g1, ipositions(nbrs@)[i as int])
                                == Some(opp) && lib_count(g1, opp, ipositions(nbrs@)[i as int])
                                == 0 && in_group(g1, opp, ipositions(nbrs@)[i as int], p));
                        }
                    }
                }
            }
        } else {
            proof {
                if is_opp {
                    assert(at_cell(gview(flags), qi) == true);
                    assert(ipositions(caught@).contains(qi));
                    let j = choose|j: int|
                        #![auto]
                        0 <= j < i && at_cell(g1, ipositions(nbrs@)[j]) == Some(opp) && lib_count(
                            g1,
                            opp,
                            ipositions(nbrs@)[j],
                        ) == 0 && in_group(g1, opp, ipositions(nbrs@)[j], qi);
                    assert forall|p: (int, int)| in_group(g1, opp, qi, p) implies ipositions(
                        caught@,
                    ).contains(p) by {
                        lemma_group_concat(g1, opp, ipositions(nbrs@)[j], qi, p);
                        assert(in_group(g1, opp, ipositions(nbrs@)[j], p));
                    }
                }
            }
        }
        i = i + 1;
    }
    proof {
        assert forall|p: (int, int)| #[trigger]
            ipositions(caught@).contains(p) implies cap.contains(p) by {
            let j = choose|j: int|
                #![auto]
                0 <= j < nbrs@.len() && at_cell(g1, ipositions(nbrs@)[j]) == Some(opp)
                    && lib_count(g1, opp, ipositions(nbrs@)[j]) == 0 && in_group(
                    g1,
                    opp,
                    ipositions(nbrs@)[j],
                    p,
                );
            let qq = ipositions(nbrs@)[j];
            assert(adjacent(pos, qq) && on_grid(g1, qq));
            assert(captured_set(g1, pos, stone).contains(p));
        }
        assert forall|p: (int, int)| cap.contains(p) implies ipositions(caught@).contains(p) by {
            let qq = choose|qq: (int, int)|
                #![auto]
                adjacent(pos, qq) && on_grid(g1, qq) && at_cell(g1, qq) == Some(opponent(stone))
                    && lib_count(g1, opponent(stone), qq) == 0 && in_group(
                    g1,
                    opponent(stone),
                    qq,
                    p,
                );
            assert(ipositions(nbrs@).contains(qq));
            let j = choose|j: int|
                0 <= j < ipositions(nbrs@).len() && ipositions(nbrs@)[j] == qq;
            assert(in_group(g1, opp, ipositions(nbrs@)[j], p));
        }
        assert forall|ii: int|
            0 <= ii < caught@.len() implies on_grid(g1, ipos(#[trigger] caught@[ii])) by {
            assert(ipositions(caught@)[ii] == ipos(caught@[ii]));
        }
    }
    caught
}


/// Clears every listed cell from the grid and, when asked for, appends one
/// removal message per cleared cell, in list order.
#[verifier::rlimit(100)]
#[verifier::spinoff_prover]
fn clear_captured(
    stones: &mut Vec<Vec<Option<Stone>>>,
    caught: &Vec<(usize, usize)>,
    delta: &mut Vec<ServerMessage>,
    update_vector: bool,
)
    requires
        grid_wf(gview(*old(stones))),
        ipositions(caught@).no_duplicates(),
        forall|kk: int|
            0 <= kk < ipositions(caught@).len() ==> on_grid(
                gview(*old(stones)),
                #[trigger] ipositions(caught@)[kk],
            ),
        update_vector ==> width(gview(*old(stones))) <= 256 && height(gview(*old(stones)))
            <= 256,
    ensures
        gview(*final(stones)).len() == gview(*old(stones)).len(),
        width(gview(*final(stones))) == width(gview(*old(stones))),
        grid_wf(gview(*final(stones))),
        forall|q: (int, int)|
            #![trigger at_cell(gview(*final(stones)), q)]
            on_grid(gview(*old(stones)), q) ==> at_cell(gview(*final(stones)), q) == (
            if ipositions(caught@).contains(q) {
                None
            } else {
                at_cell(gview(*old(stones)), q)
            }),
        !update_vector ==> final(delta)@ == old(delta)@,
        update_vector ==> {
            &&& final(delta)@.len() == old(delta)@.len() + caught@.len()
            &&& forall|jj: int|
                0 <= jj < old(delta)@.len() ==> #[trigger] final(delta)@[jj] == old(delta)@[jj]
            &&& forall|jj: int|
                0 <= jj < caught@.len() ==> #[trigger] final(delta)@[old(delta)@.len() + jj]
                    == change_msg(ipositions(caught@)[jj], None)
        },
{
    let ghost og = gview(*old(stones));
    let ghost cl = ipositions(caught@);
    let ghost d_base = old(delta)@;
    let mut k: usize = 0;
    while k < caught.len()
        invariant
            k <= caught@.len(),
            cl == ipositions(caught@),
            cl.no_duplicates(),
            forall|kk: int| 0 <= kk < cl.len() ==> on_grid(og, #[trigger] cl[kk]),
            grid_wf(og),
            d_base == old(delta)@,
            gview(*stones).len() == og.len(),
            width(gview(*stones)) == width(og),
            grid_wf(gview(*stones)),
            forall|q: (int, int)|
                #![trigger at_cell(gview(*stones), q)]
                on_grid(og, q) ==> at_cell(gview(*stones), q) == (if cl.subrange(
                    0,
                    k as int,
                ).contains(q) {
                    None
                } else {
                    at_cell(og, q)
                }),
            update_vector ==> width(og) <= 256 && height(og) <= 256,
            delta@.len() == d_base.len() + (if update_vector {
                k as int
            } else {
                0
            }),
            forall|jj: int| 0 <= jj < d_base.len() ==> #[trigger] delta@[jj] == d_base[jj],
            update_vector ==> forall|jj: int|
                0 <= jj < k ==> #[trigger] delta@[d_base.len() + jj] == change_msg(cl[jj], None),
        decreases caught@.len() - k,
    {
        let m = caught[k];
        let ghost s_before = gview(*stones);
        proof {
            assert(cl[k as int] == ipos(m));
            assert(on_grid(og, ipos(m)));
            assert(on_grid(s_before, ipos(m)));
        }
        write_at(stones, m.0, m.1, None);
        if update_vector {
            delta.push(
                ServerMessage::PlaceResponse(
                    Ok(Move(Some((Position(m.0 as u8, m.1 as u8), None)), None)),
                ),
            );
            proof {
                assert(delta@[delta@.len() - 1] == change_msg(cl[k as int], None));
            }
        }
        proof {
            lemma_update_at_cells(s_before, ipos(m), None);
            assert(cl.subrange(0, k + 1) =~= cl.subrange(0, k as int).push(cl[k as int]));
            lemma_push_contains(cl.subrange(0, k as int), cl[k as int]);
            assert forall|q: (int, int)| on_grid(og, q) implies at_cell(
                #[trigger] gview(*stones),
                q,
            ) == (if cl.subrange(0, k + 1).contains(q) {
                None
            } else {
                at_cell(og, q)
            }) by {
                if q == ipos(m) {
                    assert(at_cell(gview(*stones), q) is None);
                    assert(cl.subrange(0, k + 1).contains(q));
                } else {
                    assert(at_cell(gview(*stones), q) == at_cell(s_before, q));
                }
            }
        }
        k = k + 1;
    }
    proof {
        assert(cl.subrange(0, cl.len() as int) =~= cl);
    }
}

/// An accepted move's change list is well formed when the placement comes
/// first and the removals list each captured cell exactly once.
proof fn lemma_delta_shape(
    msgs: Seq<ServerMessage>,
    pos: (int, int),
    s: Stone,
    cl: Seq<(int, int)>,
    cap: Set<(int, int)>,
    g1: GridView,
)
    requires
        msgs.len() == 1 + cl.len(),
        msgs[0] == change_msg(pos, Some(s)),
        forall|jj: int| 0 <= jj < cl.len() ==> #[trigger] msgs[1 + jj] == change_msg(cl[jj], None),
        cl.no_duplicates(),
        forall|kk: int| 0 <= kk < cl.len() ==> on_grid(g1, #[trigger] cl[kk]),
        width(g1) <= 256,
        height(g1) <= 256,
        forall|p: (int, int)| #[trigger] cl.contains(p) <==> cap.contains(p),
    ensures
        delta_matches(msgs, pos, s, cap),
{
    assert forall|i2: int| 1 <= i2 < msgs.len() implies exists|p: (int, int)|
        #![auto]
        cap.contains(p) && #[trigger] msgs[i2] == change_msg(p, None) by {
        assert(msgs[1 + (i2 - 1)] == change_msg(cl[i2 - 1], None));
        assert(cl.contains(cl[i2 - 1]));
        assert(cap.contains(cl[i2 - 1]));
    }
    assert forall|i2: int, j2: int|
        #![trigger msgs[i2], msgs[j2]]
        1 <= i2 < j2 < msgs.len() implies msgs[i2] != msgs[j2] by {
        let pa = cl[i2 - 1];
        let pb = cl[j2 - 1];
        assert(msgs[1 + (i2 - 1)] == change_msg(pa, None));
        assert(msgs[1 + (j2 - 1)] == change_msg(pb, None));
        assert(pa != pb);
        assert(on_grid(g1, pa) && on_grid(g1, pb));
        assert(0 <= pa.0 < 256 && 0 <= pa.1 < 256 && 0 <= pb.0 < 256 && 0 <= pb.1 < 256);
        assert((pa.0 as u8) != (pb.0 as u8) || (pa.1 as u8) != (pb.1 as u8));
    }
    assert forall|p: (int, int)| #[trigger] cap.contains(p) implies exists|i2: int|
        #![auto]
        1 <= i2 < msgs.len() && msgs[i2] == change_msg(p, None) by {
        assert(cl.contains(p));
        let jj = choose|jj: int| 0 <= jj < cl.len() && cl[jj] == p;
        assert(msgs[1 + jj] == change_msg(p, None));
    }
}

/// The board: the authoritative live grid and a snapshot of the grid as it
/// stood immediately before the most recently accepted move (used only by the
/// ko check). Both grids are indexed `[y][x]` and share one fixed shape.
#[derive(Clone, Debug)]
pub struct Board {
    pub prev_stones: Vec<Vec<Option<Stone>>>,
    pub stones: Vec<Vec<Option<Stone>>>,
}

impl Board {
    /// Both grids are rectangular and share the same shape.
    pub open spec fn wf(&self) -> bool {
        &&& grid_wf(gview(self.stones))
        &&& grid_wf(gview(self.prev_stones))
        &&& height(gview(self.prev_stones)) == height(gview(self.stones))
        &&& width(gview(self.prev_stones)) == width(gview(self.stones))
    }

    /// An empty board of the given dimensions.
    pub fn new(size_x: usize, size_y: usize) -> (r: Board)
        ensures
            r.wf(),
            gview(r.stones) == const_grid(size_x as int, size_y as int, None::<Stone>),
            gview(r.prev_stones) == const_grid(size_x as int, size_y as int, None::<Stone>),
    {
        let r = Board {
            prev_stones: fill_grid(size_x, size_y, None),
            stones: fill_grid(size_x, size_y, None),
        };
        assert(grid_wf(gview(r.stones)));
        assert(grid_wf(gview(r.prev_stones)));
        r
    }

    /// The liberty count of the connected group rooted at `position`, for the
    /// color `cell_owner`: the sum over the group's members of each member's
    /// own number of empty orthogonal neighbors (an empty cell adjacent to
    /// two members counts twice). A pure function of the live grid.
    pub fn count_liberties(&self, position: Position<usize>, cell_owner: Stone) -> (r: u32)
        requires
            grid_wf(gview(self.stones)),
            on_grid(gview(self.stones), (position.0 as int, position.1 as int)),
            4 * height(gview(self.stones)) * width(gview(self.stones)) <= u32::MAX,
        ensures
            r as int == lib_count(
                gview(self.stones),
                cell_owner,
                (position.0 as int, position.1 as int),
            ),
    {
        let scan = group_scan(&self.stones, position.0, position.1, cell_owner);
        scan.0
    }

    /// Plays `stone` at `position`: rejects an occupied target, applies the
    /// placement, captures every adjacent opposing group without liberties,
    /// rejects the move as ko if the capture recreates the position from
    /// before the last accepted move, rejects it as suicide if nothing was
    /// captured and the placed stone's own group has no liberties, and
    /// otherwise accepts it, remembering the prior grid. With `update_vector`
    /// set, an accepted move returns the change list: the placement first,
    /// then one removal per captured stone.
    #[verifier::rlimit(100)]
    #[verifier::spinoff_prover]
    pub fn play(&mut self, update_vector: bool, position: Position<usize>, stone: Stone) -> (r:
        Result<Option<Vec<ServerMessage>>, InvalidMove>)
        requires
            old(self).wf(),
            on_grid(gview(old(self).stones), (position.0 as int, position.1 as int)),
            4 * height(gview(old(self).stones)) * width(gview(old(self).stones)) <= u32::MAX,
            update_vector ==> width(gview(old(self).stones)) <= 256 && height(
                gview(old(self).stones),
            ) <= 256,
        ensures
            final(self).wf(),
            ({
                let g0 = gview(old(self).stones);
                let p0 = gview(old(self).prev_stones);
                let pos = (position.0 as int, position.1 as int);
                match classify(g0, p0, pos, stone) {
                    Some(e) => {
                        &&& r == Err::<Option<Vec<ServerMessage>>, InvalidMove>(e)
                        &&& gview(final(self).stones) == g0
                        &&& gview(final(self).prev_stones) == p0
                    },
                    None => {
                        let g1 = update_at(g0, pos, Some(stone));
                        let cap = captured_set(g1, pos, stone);
                        &&& gview(final(self).stones) == clear_cells(g1, cap)
                        &&& gview(final(self).prev_stones) == g0
                        &&& (!update_vector ==> r == Ok::<
                            Option<Vec<ServerMessage>>,
                            InvalidMove,
                        >(None))
                        &&& (update_vector ==> (r matches Ok(Some(dl)) && delta_matches(
                            dl@,
                            pos,
                            stone,
                            cap,
                        )))
                    },
                }
            }),
    {
        let x: usize = position.0;
        let y: usize = position.1;
        let ghost g0 = gview(self.stones);
        let ghost p0 = gview(self.prev_stones);
        let ghost pos: (int, int) = (x as int, y as int);
        let occupied = read_at(&self.stones, x, y);
        if occupied.is_some() {
            return Err(InvalidMove::PieceAlreadyPresent);
        }
        let snapshot = copy_grid(&self.stones);
        write_at(&mut self.stones, x, y, Some(stone));
        let ghost g1 = gview(self.stones);
        proof {
            assert(g1 == update_at(g0, pos, Some(stone)));
            lemma_update_at_cells(g0, pos, Some(stone));
            assert(grid_wf(g1) && height(g1) == height(g0) && width(g1) == width(g0));
        }
        let ghost cap = captured_set(g1, pos, stone);
        let mut delta: Vec<ServerMessage> = Vec::new();
        if update_vector {
            delta.push(
                ServerMessage::PlaceResponse(
                    Ok(Move(Some((Position(x as u8, y as u8), Some(stone))), None)),
                ),
            );
            proof {
                assert(delta@[0] == change_msg(pos, Some(stone)));
            }
        }
        let caught = collect_captures(&self.stones, x, y, stone);
        let ghost cl = ipositions(caught@);
        if caught.len() > 0 {
            let ghost d_base = delta@;
            clear_captured(&mut self.stones, &caught, &mut delta, update_vector);
            proof {
                let cur = gview(self.stones);
                let cleared = clear_cells(g1, cap);
                assert(cleared.len() == g1.len());
                assert forall|yy: int| 0 <= yy < g1.len() implies (#[trigger] cur[yy]).len()
                    == cleared[yy].len() by {
                    assert(g1[yy].len() == width(g1));
                    assert(cur[yy].len() == width(cur));
                }
                assert forall|yy: int, xx: int|
                    0 <= yy < g1.len() && 0 <= xx < g1[yy].len() implies #[trigger] cur[yy][xx]
                    == cleared[yy][xx] by {
                    let q = (xx, yy);
                    assert(g1[yy].len() == width(g1));
                    assert(on_grid(g1, q));
                    assert(at_cell(cur, q) == (if cl.contains(q) {
                        None
                    } else {
                        at_cell(g1, q)
                    }));
                    assert(cleared[yy][xx] == (if cap.contains((xx, yy)) {
                        None
                    } else {
                        g1[yy][xx]
                    }));
                }
                assert(gview(self.stones) =~~= clear_cells(g1, cap));
                assert(gview(self.stones) == clear_cells(g1, cap));
                assert(cl[0] == ipos(caught@[0]));
                assert(cl.contains(cl[0]));
                assert(captured_set(g1, pos, stone).contains(cl[0]));
                assert(has_capture(g1, pos, stone));
            }
            let ko = grids_equal(&self.stones, &self.prev_stones);
            if ko {
                proof {
                    assert(clear_cells(g1, cap) == p0);
                    assert(classify(g0, p0, pos, stone) == Some(InvalidMove::KoRule));
                }
                self.stones = snapshot;
                return Err(InvalidMove::KoRule);
            }
            proof {
                assert(clear_cells(g1, cap) != p0);
                assert(classify(g0, p0, pos, stone) is None);
            }
        } else {
            proof {
                assert forall|p: (int, int)| !#[trigger] captured_set(
                    g1,
                    pos,
                    stone,
                ).contains(p) by {
                    if captured_set(g1, pos, stone).contains(p) {
                        assert(cl.contains(p));
                    }
                }
                assert(!has_capture(g1, pos, stone));
            }
            let scan = group_scan(&self.stones, x, y, stone);
            if scan.0 == 0 {
                proof {
                    assert(lib_count(g1, stone, pos) == 0);
                    assert(classify(g0, p0, pos, stone) == Some(InvalidMove::Suicide));
                }
                let ghost s_before = gview(self.stones);
                write_at(&mut self.stones, x, y, None);
                proof {
                    lemma_update_at_cells(s_before, pos, None);
                    lemma_update_at_cells(g0, pos, Some(stone));
                    assert(gview(self.stones) =~~= g0);
                }
                return Err(InvalidMove::Suicide);
            }
            proof {
                assert(lib_count(g1, stone, pos) != 0);
                assert(classify(g0, p0, pos, stone) is None);
                assert(clear_cells(g1, cap) =~~= g1) by {
                    assert forall|p: (int, int)| !#[trigger] cap.contains(p) by {
                        if cap.contains(p) {
                            assert(cl.contains(p));
                        }
                    }
                }
                assert(gview(self.stones) == clear_cells(g1, cap));
            }
        }
        self.prev_stones = snapshot;
        proof {
            assert(gview(self.prev_stones) == g0);
            assert(self.wf());
        }
        if update_vector {
            proof {
                let msgs = delta@;
                assert(msgs[0] == change_msg(pos, Some(stone)));
                assert(msgs.len() == 1 + cl.len());
                assert(forall|jj: int|
                    0 <= jj < cl.len() ==> #[trigger] msgs[1 + jj] == change_msg(cl[jj], None));
                lemma_delta_shape(msgs, pos, stone, cl, cap, g1);
            }
            Ok(Some(delta))
        } else {
            Ok(None)
        }
    }
}

} // verus!
