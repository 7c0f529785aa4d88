//! The mathematical view of the game: grids as sequences of rows, connected
//! groups as chains of orthogonally adjacent same-color cells, liberty
//! counting as a sum over a group's members, and the verdict of the rules on
//! a proposed move.

use vstd::prelude::*;
use crate::logic::{InvalidMove, Stone};

verus! {

/// A grid of stones: a sequence of rows, each cell holding a stone or nothing.
pub type GridView = Seq<Seq<Option<Stone>>>;

/// The abstract value of a two-dimensional vector: the sequence of its rows'
/// sequences.
pub open spec fn gview<T>(v: Vec<Vec<T>>) -> Seq<Seq<T>> {
    v@.map_values(|row: Vec<T>| row@)
}

/// Number of rows.
pub open spec fn height<T>(g: Seq<Seq<T>>) -> int {
    g.len() as int
}

/// Number of columns; rows all share it on a well-formed grid.
pub open spec fn width<T>(g: Seq<Seq<T>>) -> int {
    if g.len() == 0 {
        0
    } else {
        g[0].len() as int
    }
}

/// Every row has the same length.
pub open spec fn grid_wf<T>(g: Seq<Seq<T>>) -> bool {
    forall|y: int| 0 <= y < g.len() ==> (#[trigger] g[y]).len() == width(g)
}

/// A cell coordinate `(x, y)` lies on the grid.
pub open spec fn on_grid<T>(g: Seq<Seq<T>>, p: (int, int)) -> bool {
    0 <= p.1 < height(g) && 0 <= p.0 < width(g)
}

/// The content of the cell at `p`.
pub open spec fn at_cell<T>(g: Seq<Seq<T>>, p: (int, int)) -> T {
    g[p.1][p.0]
}

/// The grid with the cell at `p` replaced by `v`.
pub open spec fn update_at<T>(g: Seq<Seq<T>>, p: (int, int), v: T) -> Seq<Seq<T>> {
    g.update(p.1, g[p.1].update(p.0, v))
}

/// A `size_y` by `size_x` grid holding `v` everywhere.
pub open spec fn const_grid<T>(size_x: int, size_y: int, v: T) -> Seq<Seq<T>> {
    Seq::new(size_y as nat, |y: int| Seq::new(size_x as nat, |x: int| v))
}

/// The opposing color.
pub open spec fn opponent(stone: Stone) -> Stone {
    match stone {
        Stone::White => Stone::Black,
        Stone::Black => Stone::White,
    }
}

/// Orthogonal adjacency of two cell coordinates.
pub open spec fn adjacent(p: (int, int), q: (int, int)) -> bool {
    ||| p.0 == q.0 && (q.1 == p.1 - 1 || q.1 == p.1 + 1)
    ||| p.1 == q.1 && (q.0 == p.0 - 1 || q.0 == p.0 + 1)
}

/// The cell at `p` lies on the grid and is empty.
pub open spec fn empty_at(g: GridView, p: (int, int)) -> bool {
    on_grid(g, p) && at_cell(g, p) is None
}

/// How many of the up-to-four orthogonal neighbors of `p` are empty cells of
/// the grid.
pub open spec fn empty_neighbor_count(g: GridView, p: (int, int)) -> int {
    (if empty_at(g, (p.0 - 1, p.1)) { 1int } else { 0int })
        + (if empty_at(g, (p.0 + 1, p.1)) { 1int } else { 0int })
        + (if empty_at(g, (p.0, p.1 - 1)) { 1int } else { 0int })
        + (if empty_at(g, (p.0, p.1 + 1)) { 1int } else { 0int })
}

/// A chain: consecutive entries are orthogonally adjacent, and every entry
/// after the first is an on-grid cell holding `c`. Opaque: only the group
/// lemmas below look inside a chain.
#[verifier::opaque]
pub open spec fn is_chain(g: GridView, c: Stone, path: Seq<(int, int)>) -> bool {
    forall|i: int| 0 < i < path.len() ==> {
        &&& adjacent(path[i - 1], #[trigger] path[i])
        &&& on_grid(g, path[i])
        &&& at_cell(g, path[i]) == Some(c)
    }
}

/// `p` belongs to the group rooted at `root`: the root itself together with
/// every `c`-colored cell reachable from it through `c`-colored cells.
pub open spec fn in_group(g: GridView, c: Stone, root: (int, int), p: (int, int)) -> bool {
    exists|path: Seq<(int, int)>|
        #![auto]
        is_chain(g, c, path) && path.len() >= 1 && path[0] == root && path.last() == p
}

/// The members of the group rooted at `root`, as a set.
pub open spec fn group_of(g: GridView, c: Stone, root: (int, int)) -> Set<(int, int)> {
    Set::new(|p: (int, int)| in_group(g, c, root, p))
}

/// `s` cannot be left by stepping to an adjacent on-grid `c`-colored cell.
pub open spec fn closed_under_adjacency(g: GridView, c: Stone, s: Set<(int, int)>) -> bool {
    forall|p: (int, int), q: (int, int)|
        #![trigger s.contains(p), adjacent(p, q)]
        s.contains(p) && adjacent(p, q) && on_grid(g, q) && at_cell(g, q) == Some(c)
            ==> s.contains(q)
}

/// Sum of `empty_neighbor_count` over the members of `s` among the first `n`
/// cells of the grid in row-major order.
pub open spec fn masked_sum(g: GridView, s: Set<(int, int)>, n: nat) -> int
    decreases n,
{
    if n == 0 {
        0
    } else {
        let w = width(g);
        let k = (n - 1) as int;
        let p = (k % w, k / w);
        masked_sum(g, s, (n - 1) as nat) + if s.contains(p) {
            empty_neighbor_count(g, p)
        } else {
            0
        }
    }
}

/// The liberty count of the group rooted at `root`: the sum over the group's
/// members of each member's own number of empty orthogonal neighbors. An
/// empty cell adjacent to two members is counted twice.
pub open spec fn lib_count(g: GridView, c: Stone, root: (int, int)) -> int {
    masked_sum(g, group_of(g, c, root), (height(g) * width(g)) as nat)
}

/// The cells captured by a stone of color `s` just placed at `pos`, on the
/// grid `g1` that already holds it: every member of an opposing group that is
/// adjacent to `pos` and has liberty count zero.
pub open spec fn captured_set(g1: GridView, pos: (int, int), s: Stone) -> Set<(int, int)> {
    Set::new(
        |p: (int, int)|
            exists|q: (int, int)|
                #![auto]
                adjacent(pos, q) && on_grid(g1, q) && at_cell(g1, q) == Some(opponent(s))
                    && lib_count(g1, opponent(s), q) == 0 && in_group(g1, opponent(s), q, p),
    )
}

/// At least one opposing group is captured by the placement.
pub open spec fn has_capture(g1: GridView, pos: (int, int), s: Stone) -> bool {
    exists|p: (int, int)| #![auto] captured_set(g1, pos, s).contains(p)
}

/// The grid with every cell of `s` cleared.
pub open spec fn clear_cells(g: GridView, s: Set<(int, int)>) -> GridView {
    Seq::new(
        g.len(),
        |y: int| Seq::new(g[y].len(), |x: int| if s.contains((x, y)) { None } else { g[y][x] }),
    )
}

/// The verdict of the rules on placing `s` at `pos`: `None` accepts the move,
/// `Some(reason)` rejects it. `g0` is the live grid before the move and `p0`
/// the grid from immediately before the last accepted move.
pub open spec fn classify(g0: GridView, p0: GridView, pos: (int, int), s: Stone) -> Option<
    InvalidMove,
> {
    if at_cell(g0, pos) is Some {
        Some(InvalidMove::PieceAlreadyPresent)
    } else {
        let g1 = update_at(g0, pos, Some(s));
        if has_capture(g1, pos, s) {
            if clear_cells(g1, captured_set(g1, pos, s)) == p0 {
                Some(InvalidMove::KoRule)
            } else {
                None
            }
        } else {
            if lib_count(g1, s, pos) == 0 {
                Some(InvalidMove::Suicide)
            } else {
                None
            }
        }
    }
}

/// The coordinate pair of an executable cell index.
pub open spec fn ipos(q: (usize, usize)) -> (int, int) {
    (q.0 as int, q.1 as int)
}

/// The coordinate pairs of a sequence of executable cell indices.
pub open spec fn ipositions(s: Seq<(usize, usize)>) -> Seq<(int, int)> {
    s.map_values(|q: (usize, usize)| ipos(q))
}

/// The set holding the entries of `s`.
pub open spec fn seq_as_set(s: Seq<(int, int)>) -> Set<(int, int)> {
    Set::new(|p: (int, int)| s.contains(p))
}

/// How many cells among the first `n` in row-major order hold `true`.
pub open spec fn true_count(f: Seq<Seq<bool>>, n: nat) -> int
    decreases n,
{
    if n == 0 {
        0
    } else {
        let w = width(f);
        let k = (n - 1) as int;
        let p = (k % w, k / w);
        true_count(f, (n - 1) as nat) + if at_cell(f, p) { 1int } else { 0int }
    }
}

/// Every group contains its root.
pub proof fn lemma_group_root(g: GridView, c: Stone, root: (int, int))
    ensures
        in_group(g, c, root, root),
{
    reveal(is_chain);
    let path: Seq<(int, int)> = seq![root];
    assert(is_chain(g, c, path));
    assert(path.last() == root);
}

/// A group absorbs any adjacent on-grid cell of its color.
pub proof fn lemma_group_step(g: GridView, c: Stone, root: (int, int), p: (int, int), q: (int, int))
    requires
        in_group(g, c, root, p),
        adjacent(p, q),
        on_grid(g, q),
        at_cell(g, q) == Some(c),
    ensures
        in_group(g, c, root, q),
{
    reveal(is_chain);
    let path = choose|path: Seq<(int, int)>|
        #![auto]
        is_chain(g, c, path) && path.len() >= 1 && path[0] == root && path.last() == p;
    let ext = path.push(q);
    assert forall|i: int| 0 < i < ext.len() implies {
        &&& adjacent(ext[i - 1], #[trigger] ext[i])
        &&& on_grid(g, ext[i])
        &&& at_cell(g, ext[i]) == Some(c)
    } by {
        if i < path.len() {
            assert(ext[i] == path[i]);
            assert(ext[i - 1] == path[i - 1]);
        } else {
            assert(ext[i] == q);
            assert(ext[i - 1] == path[path.len() - 1]);
        }
    }
    assert(is_chain(g, c, ext));
    assert(ext[0] == root && ext.last() == q);
}

/// Membership in groups is transitive: a member's own group lies inside the
/// group it was reached from.
pub proof fn lemma_group_concat(
    g: GridView,
    c: Stone,
    root: (int, int),
    mid: (int, int),
    p: (int, int),
)
    requires
        in_group(g, c, root, mid),
        in_group(g, c, mid, p),
    ensures
        in_group(g, c, root, p),
{
    reveal(is_chain);
    let pa = choose|pa: Seq<(int, int)>|
        #![auto]
        is_chain(g, c, pa) && pa.len() >= 1 && pa[0] == root && pa.last() == mid;
    let pb = choose|pb: Seq<(int, int)>|
        #![auto]
        is_chain(g, c, pb) && pb.len() >= 1 && pb[0] == mid && pb.last() == p;
    if pb.len() == 1 {
        assert(pa.last() == p);
    } else {
        let joined = pa + pb.skip(1);
        assert forall|i: int| 0 < i < joined.len() implies {
            &&& adjacent(joined[i - 1], #[trigger] joined[i])
            &&& on_grid(g, joined[i])
            &&& at_cell(g, joined[i]) == Some(c)
        } by {
            if i < pa.len() {
                assert(joined[i] == pa[i]);
                assert(joined[i - 1] == pa[i - 1]);
            } else if i == pa.len() {
                assert(joined[i] == pb[1]);
                assert(joined[i - 1] == pa[pa.len() - 1]);
                assert(pa.last() == pb[0]);
                assert(adjacent(pb[0], pb[1]) && on_grid(g, pb[1]) && at_cell(g, pb[1]) == Some(c));
            } else {
                let j = i - pa.len() + 1;
                assert(joined[i] == pb[j]);
                assert(joined[i - 1] == pb[j - 1]);
                assert(adjacent(pb[j - 1], pb[j]) && on_grid(g, pb[j]) && at_cell(g, pb[j])
                    == Some(c));
            }
        }
        assert(is_chain(g, c, joined));
        assert(joined[0] == root);
        assert(joined.last() == pb.last());
    }
}

/// A chain that starts inside a closed set ends inside it.
proof fn lemma_chain_in_closed(
    g: GridView,
    c: Stone,
    s: Set<(int, int)>,
    path: Seq<(int, int)>,
)
    requires
        closed_under_adjacency(g, c, s),
        is_chain(g, c, path),
        path.len() >= 1,
        s.contains(path[0]),
    ensures
        s.contains(path.last()),
    decreases path.len(),
{
    reveal(is_chain);
    if path.len() > 1 {
        let front = path.drop_last();
        assert forall|i: int| 0 < i < front.len() implies {
            &&& adjacent(front[i - 1], #[trigger] front[i])
            &&& on_grid(g, front[i])
            &&& at_cell(g, front[i]) == Some(c)
        } by {
            assert(front[i] == path[i]);
            assert(front[i - 1] == path[i - 1]);
        }
        lemma_chain_in_closed(g, c, s, front);
        let n = path.len() - 1;
        assert(adjacent(path[n - 1], path[n]) && on_grid(g, path[n]) && at_cell(g, path[n])
            == Some(c));
        assert(front.last() == path[n - 1]);
    }
}

/// A closed set holding the root holds the whole group: flood fill reaches
/// every member.
pub proof fn lemma_group_in_closed(g: GridView, c: Stone, root: (int, int), s: Set<(int, int)>)
    requires
        closed_under_adjacency(g, c, s),
        s.contains(root),
    ensures
        forall|p: (int, int)| in_group(g, c, root, p) ==> s.contains(p),
{
    assert forall|p: (int, int)| in_group(g, c, root, p) implies s.contains(p) by {
        let path = choose|path: Seq<(int, int)>|
            #![auto]
            is_chain(g, c, path) && path.len() >= 1 && path[0] == root && path.last() == p;
        lemma_chain_in_closed(g, c, s, path);
    }
}

/// The masked sum over the empty set is zero.
pub proof fn lemma_masked_sum_empty(g: GridView, n: nat)
    ensures
        masked_sum(g, Set::empty(), n) == 0,
    decreases n,
{
    if n > 0 {
        lemma_masked_sum_empty(g, (n - 1) as nat);
    }
}

/// Equal sets give equal masked sums.
pub proof fn lemma_masked_sum_congruence(g: GridView, s: Set<(int, int)>, t: Set<(int, int)>, n: nat)
    requires
        forall|p: (int, int)| s.contains(p) <==> t.contains(p),
    ensures
        masked_sum(g, s, n) == masked_sum(g, t, n),
{
    assert(s =~= t);
}

/// Adding one on-grid cell to the set adds that cell's own empty-neighbor
/// count to the masked sum, once the row-major enumeration has passed it.
pub proof fn lemma_masked_sum_insert(g: GridView, s: Set<(int, int)>, p: (int, int), n: nat)
    requires
        width(g) > 0,
        0 <= p.0 < width(g),
        0 <= p.1,
        !s.contains(p),
    ensures
        masked_sum(g, s.insert(p), n) == masked_sum(g, s, n) + if p.1 * width(g) + p.0 < n {
            empty_neighbor_count(g, p)
        } else {
            0
        },
    decreases n,
{
    let w = width(g);
    if n > 0 {
        lemma_masked_sum_insert(g, s, p, (n - 1) as nat);
        let k = (n - 1) as int;
        let q = (k % w, k / w);
        vstd::arithmetic::div_mod::lemma_fundamental_div_mod(k, w);
        if q == p {
            assert(k == w * (k / w) + k % w);
            assert(k == p.1 * w + p.0) by (nonlinear_arith)
                requires
                    k == w * (k / w) + k % w,
                    k / w == p.1,
                    k % w == p.0,
            ;
        }
        if k == p.1 * w + p.0 {
            vstd::arithmetic::div_mod::lemma_fundamental_div_mod_converse(k, w, p.1, p.0);
            assert(q == p);
        }
    }
}

/// The masked sum lies between zero and four per enumerated cell.
pub proof fn lemma_masked_sum_bounds(g: GridView, s: Set<(int, int)>, n: nat)
    ensures
        0 <= masked_sum(g, s, n) <= 4 * n,
    decreases n,
{
    if n > 0 {
        lemma_masked_sum_bounds(g, s, (n - 1) as nat);
    }
}

/// The true count lies between zero and the number of enumerated cells.
pub proof fn lemma_true_count_bounds(f: Seq<Seq<bool>>, n: nat)
    ensures
        0 <= true_count(f, n) <= n,
    decreases n,
{
    if n > 0 {
        lemma_true_count_bounds(f, (n - 1) as nat);
    }
}

/// A cell enumerated in row-major order within the grid's area lies on the
/// grid.
proof fn lemma_rm_cell_on_grid<T>(f: Seq<Seq<T>>, k: int)
    requires
        width(f) > 0,
        0 <= k < height(f) * width(f),
    ensures
        on_grid(f, (k % width(f), k / width(f))),
{
    let w = width(f);
    let h = height(f);
    vstd::arithmetic::div_mod::lemma_mod_bound(k, w);
    vstd::arithmetic::div_mod::lemma_div_pos_is_pos(k, w);
    assert(h * w == w * h);
    vstd::arithmetic::div_mod::lemma_multiply_divide_lt(k, w, h);
}

/// A grid holding `false` everywhere has a true count of zero.
pub proof fn lemma_true_count_all_false(f: Seq<Seq<bool>>, n: nat)
    requires
        width(f) > 0,
        n <= height(f) * width(f),
        forall|q: (int, int)| on_grid(f, q) ==> at_cell(f, q) == false,
    ensures
        true_count(f, n) == 0,
    decreases n,
{
    if n > 0 {
        lemma_true_count_all_false(f, (n - 1) as nat);
        lemma_rm_cell_on_grid(f, (n - 1) as int);
    }
}

/// Setting a false cell to true raises the true count by one, once the
/// row-major enumeration has passed it.
pub proof fn lemma_true_count_set(f: Seq<Seq<bool>>, p: (int, int), n: nat)
    requires
        grid_wf(f),
        width(f) > 0,
        on_grid(f, p),
        at_cell(f, p) == false,
        n <= height(f) * width(f),
    ensures
        true_count(update_at(f, p, true), n) == true_count(f, n) + if p.1 * width(f) + p.0 < n {
            1int
        } else {
            0int
        },
    decreases n,
{
    let w = width(f);
    let f2 = update_at(f, p, true);
    assert(f2.len() == f.len());
    assert(f2[p.1].len() == f[p.1].len());
    assert(width(f2) == w);
    if n > 0 {
        lemma_true_count_set(f, p, (n - 1) as nat);
        let k = (n - 1) as int;
        let q = (k % w, k / w);
        lemma_rm_cell_on_grid(f, k);
        vstd::arithmetic::div_mod::lemma_fundamental_div_mod(k, w);
        if q == p {
            assert(k == p.1 * w + p.0) by (nonlinear_arith)
                requires
                    k == w * (k / w) + k % w,
                    k / w == p.1,
                    k % w == p.0,
            ;
            assert(at_cell(f2, q) == true);
        } else {
            if k == p.1 * w + p.0 {
                vstd::arithmetic::div_mod::lemma_fundamental_div_mod_converse(k, w, p.1, p.0);
                assert(q == p);
            }
            if q.1 == p.1 {
                assert(at_cell(f2, q) == at_cell(f, q));
            } else {
                assert(f2[q.1] == f[q.1]);
                assert(at_cell(f2, q) == at_cell(f, q));
            }
        }
    }
}

/// Replacing one on-grid cell keeps the shape and changes no other cell.
pub proof fn lemma_update_at_cells<T>(g: Seq<Seq<T>>, p: (int, int), v: T)
    requires
        grid_wf(g),
        on_grid(g, p),
    ensures
        update_at(g, p, v).len() == g.len(),
        width(update_at(g, p, v)) == width(g),
        grid_wf(update_at(g, p, v)),
        at_cell(update_at(g, p, v), p) == v,
        forall|q: (int, int)|
            on_grid(g, q) && q != p ==> at_cell(#[trigger] update_at(g, p, v), q) == at_cell(g, q),
{
    let g2 = update_at(g, p, v);
    assert(g2[p.1].len() == g[p.1].len());
    assert(forall|y: int| 0 <= y < g.len() && y != p.1 ==> #[trigger] g2[y] == g[y]);
    assert forall|y: int| 0 <= y < g2.len() implies (#[trigger] g2[y]).len() == width(g2) by {
        assert(g2[p.1].len() == g[p.1].len());
    }
    assert forall|q: (int, int)| on_grid(g, q) && q != p implies at_cell(
        #[trigger] update_at(g, p, v),
        q,
    ) == at_cell(g, q) by {
        if q.1 == p.1 {
            assert(g2[q.1] == g[p.1].update(p.0, v));
            assert(g2[q.1][q.0] == g[q.1][q.0]);
        } else {
            assert(g2[q.1] == g[q.1]);
        }
    }
}

/// Widening each executable index pair, after appending one entry.
pub proof fn lemma_ipositions_push(s: Seq<(usize, usize)>, q: (usize, usize))
    ensures
        ipositions(s.push(q)) == ipositions(s).push(ipos(q)),
{
    assert(ipositions(s.push(q)) =~= ipositions(s).push(ipos(q)));
}

/// Widening each executable index pair, after dropping the last entry.
pub proof fn lemma_ipositions_drop_last(s: Seq<(usize, usize)>)
    requires
        s.len() >= 1,
    ensures
        ipositions(s.subrange(0, s.len() - 1)) == ipositions(s).subrange(0, s.len() - 1),
{
    assert(ipositions(s.subrange(0, s.len() - 1)) =~= ipositions(s).subrange(
        0,
        s.len() - 1,
    ));
}

/// What a sequence holds after appending one entry.
pub proof fn lemma_push_contains(s: Seq<(int, int)>, e: (int, int))
    ensures
        forall|q: (int, int)| #[trigger] s.push(e).contains(q) <==> (s.contains(q) || q == e),
        s.no_duplicates() && !s.contains(e) ==> s.push(e).no_duplicates(),
{
    assert forall|q: (int, int)| #[trigger]
        s.push(e).contains(q) implies (s.contains(q) || q == e) by {
        let i = choose|i: int| 0 <= i < s.push(e).len() && s.push(e)[i] == q;
        if i < s.len() {
            assert(s[i] == q);
        }
    }
    assert forall|q: (int, int)| s.contains(q) || q == e implies #[trigger]
        s.push(e).contains(q) by {
        if s.contains(q) {
            let i = choose|i: int| 0 <= i < s.len() && s[i] == q;
            assert(s.push(e)[i] == q);
        } else {
            assert(s.push(e)[s.len() as int] == q);
        }
    }
}

/// What a duplicate-free sequence holds after dropping its last entry.
pub proof fn lemma_drop_last_contains(s: Seq<(int, int)>)
    requires
        s.no_duplicates(),
        s.len() >= 1,
    ensures
        forall|q: (int, int)| #[trigger]
            s.subrange(0, s.len() - 1).contains(q) <==> (s.contains(q) && q != s[s.len() - 1]),
        s.subrange(0, s.len() - 1).no_duplicates(),
{
    let t = s.subrange(0, s.len() - 1);
    assert forall|q: (int, int)| #[trigger]
        t.contains(q) implies (s.contains(q) && q != s[s.len() - 1]) by {
        let i = choose|i: int| 0 <= i < t.len() && t[i] == q;
        assert(s[i] == q);
    }
    assert forall|q: (int, int)| s.contains(q) && q != s[s.len() - 1] implies #[trigger]
        t.contains(q) by {
        let i = choose|i: int| 0 <= i < s.len() && s[i] == q;
        assert(i < s.len() - 1);
        assert(t[i] == q);
    }
}

/// The row-major index of an on-grid cell lies within the grid's area.
pub proof fn lemma_rm_index_in_area<T>(g: Seq<Seq<T>>, p: (int, int))
    requires
        on_grid(g, p),
    ensures
        0 <= p.1 * width(g) + p.0 < height(g) * width(g),
{
    let w = width(g);
    let h = height(g);
    vstd::arithmetic::mul::lemma_mul_inequality(p.1, h - 1, w);
    assert(p.1 * w <= (h - 1) * w);
    assert((h - 1) * w == h * w - w) by (nonlinear_arith);
    vstd::arithmetic::mul::lemma_mul_nonnegative(p.1, w);
}

/// A rejected move, replayed against the board it left unchanged, is rejected
/// the same way again: the verdict is a function of the two grids' cells
/// alone, and a rejection leaves both grids exactly as they were.
pub proof fn lemma_rejection_idempotent(
    g0: GridView,
    p0: GridView,
    ga: GridView,
    pa: GridView,
    pos: (int, int),
    s: Stone,
    e: InvalidMove,
)
    requires
        classify(g0, p0, pos, s) == Some(e),
        ga == g0,
        pa == p0,
    ensures
        classify(ga, pa, pos, s) == Some(e),
{
}

/// Playing into a single-point eye is suicide: if every orthogonal neighbor
/// of an empty cell lies on the grid and holds the opponent, and each of
/// those opposing groups keeps at least one liberty after the placement,
/// then nothing is captured, the placed stone forms a group of one with no
/// empty neighbor, and the verdict is `Suicide`.
pub proof fn lemma_eye_play_is_suicide(g0: GridView, p0: GridView, pos: (int, int), s: Stone)
    requires
        grid_wf(g0),
        on_grid(g0, pos),
        at_cell(g0, pos) is None,
        forall|q: (int, int)| #[trigger] adjacent(pos, q) ==> on_grid(g0, q),
        forall|q: (int, int)| #[trigger]
            adjacent(pos, q) ==> at_cell(update_at(g0, pos, Some(s)), q) == Some(opponent(s)),
        forall|q: (int, int)| #[trigger]
            adjacent(pos, q) ==> lib_count(update_at(g0, pos, Some(s)), opponent(s), q) != 0,
    ensures
        classify(g0, p0, pos, s) == Some(InvalidMove::Suicide),
{
    let g1 = update_at(g0, pos, Some(s));
    lemma_update_at_cells(g0, pos, Some(s));
    assert forall|p: (int, int)| !#[trigger] captured_set(g1, pos, s).contains(p) by {
        if captured_set(g1, pos, s).contains(p) {
            let q = choose|q: (int, int)|
                #![auto]
                adjacent(pos, q) && on_grid(g1, q) && at_cell(g1, q) == Some(opponent(s))
                    && lib_count(g1, opponent(s), q) == 0 && in_group(g1, opponent(s), q, p);
            assert(lib_count(g1, opponent(s), q) != 0);
        }
    }
    assert(!has_capture(g1, pos, s)) by {
        if has_capture(g1, pos, s) {
            let p = choose|p: (int, int)| #![auto] captured_set(g1, pos, s).contains(p);
        }
    }
    assert(opponent(s) != s);
    assert forall|p: (int, int)| in_group(g1, s, pos, p) implies p == pos by {
        reveal(is_chain);
        let path = choose|path: Seq<(int, int)>|
            #![auto]
            is_chain(g1, s, path) && path.len() >= 1 && path[0] == pos && path.last() == p;
        if path.len() > 1 {
            assert(adjacent(path[0], path[1]));
            assert(at_cell(g1, path[1]) == Some(s));
            assert(at_cell(g1, path[1]) == Some(opponent(s)));
        }
    }
    lemma_group_root(g1, s, pos);
    assert(group_of(g1, s, pos) =~= Set::empty().insert(pos));
    let area = (height(g1) * width(g1)) as nat;
    lemma_masked_sum_empty(g1, area);
    lemma_rm_index_in_area(g1, pos);
    lemma_masked_sum_insert(g1, Set::empty(), pos, area);
    assert(empty_neighbor_count(g1, pos) == 0) by {
        assert(adjacent(pos, (pos.0 - 1, pos.1)));
        assert(adjacent(pos, (pos.0 + 1, pos.1)));
        assert(adjacent(pos, (pos.0, pos.1 - 1)));
        assert(adjacent(pos, (pos.0, pos.1 + 1)));
    }
    assert(lib_count(g1, s, pos) == 0);
    assert(classify(g0, p0, pos, s) == Some(InvalidMove::Suicide));
}

} // verus!
