//! The traversal engine: move generation and the depth-first search.

use crate::board::{
    lemma_key_bounds, lemma_key_injective, Board, GridModel, SquareKind,
};
use crate::node::{coords_view, Node};
use vstd::prelude::*;
use vstd::set_lib::{lemma_int_range, lemma_len_subset, set_int_range};

verus! {

/// A deferred expansion candidate: a coordinate plus the node it would be
/// reached from.  Consumed exactly once when popped from the work stack.
#[derive(Debug)]
pub struct PendingMove {
    pub x: i32,
    pub y: i32,
    pub parent: Node,
}

/// The outcome of one traversal run: whether the end was reached, and the
/// discovered route in origin-to-target order (empty when unsolved).
#[derive(Clone, PartialEq, Debug)]
pub struct TraversalResult {
    pub solved: bool,
    pub path: Vec<(i32, i32)>,
}

/// The model of a pending move: its coordinate and the origin-to-parent
/// coordinate chain it would extend.
pub ghost struct GMove {
    pub x: int,
    pub y: int,
    pub chain: Seq<(int, int)>,
}

impl PendingMove {
    pub open spec fn model(self) -> GMove {
        GMove { x: self.x as int, y: self.y as int, chain: self.parent.ancestry() }
    }
}

/// A pending-move vector read as a sequence of move models.
pub open spec fn moves_view(s: Seq<PendingMove>) -> Seq<GMove> {
    Seq::new(s.len(), |i: int| s[i].model())
}

/// One direction's candidate: a single pending move if the target cell is
/// traversable, none otherwise.
pub open spec fn probe(m: GridModel, x: int, y: int, chain: Seq<(int, int)>) -> Seq<GMove> {
    if m.traversable(x, y) {
        seq![GMove { x, y, chain }]
    } else {
        Seq::empty()
    }
}

/// The expansion of a node at `(x, y)`: the orthogonal neighbors in the
/// fixed order East, West, North, South, filtered by the validity rule.
pub open spec fn expansion(m: GridModel, x: int, y: int, chain: Seq<(int, int)>) -> Seq<GMove> {
    probe(m, x + 1, y, chain) + probe(m, x - 1, y, chain) + probe(m, x, y - 1, chain) + probe(
        m,
        x,
        y + 1,
        chain,
    )
}

/// Two coordinates are orthogonally adjacent: they differ by one in exactly
/// one axis.
pub open spec fn orth_adjacent(a: (int, int), b: (int, int)) -> bool {
    ||| (a.0 - b.0 == 1 || b.0 - a.0 == 1) && a.1 == b.1
    ||| (a.1 - b.1 == 1 || b.1 - a.1 == 1) && a.0 == b.0
}

/// Every consecutive pair of the sequence is orthogonally adjacent.
pub open spec fn path_adjacent(p: Seq<(int, int)>) -> bool {
    forall|i: int| 0 <= i < p.len() - 1 ==> orth_adjacent(#[trigger] p[i], p[i + 1])
}

/// No coordinate occurs twice in the sequence.
pub open spec fn path_distinct(p: Seq<(int, int)>) -> bool {
    forall|i: int, j: int| 0 <= i < j < p.len() ==> #[trigger] p[i] != #[trigger] p[j]
}

/// The pending move sits on a traversable cell.
pub open spec fn move_sited(m: GridModel, g: GMove) -> bool {
    m.traversable(g.x, g.y)
}

/// Every pending move of the stack sits on a traversable cell.
pub open spec fn stack_wf(m: GridModel, stack: Seq<GMove>) -> bool {
    forall|i: int| 0 <= i < stack.len() ==> #[trigger] move_sited(m, stack[i])
}

/// The row-major keys of the whole grid.
pub open spec fn grid_keys(m: GridModel) -> Set<int> {
    set_int_range(0, m.width * m.height)
}

/// How many grid cells have not been expanded yet; the termination measure
/// of the search.
pub open spec fn unvisited_count(m: GridModel, visited: Set<int>) -> nat {
    grid_keys(m).difference(visited).len()
}

/// Expanding a fresh traversable cell strictly shrinks the count of
/// unexpanded cells.
pub proof fn lemma_unvisited_decreases(m: GridModel, visited: Set<int>, x: int, y: int)
    requires
        m.wf(),
        visited.finite(),
        m.traversable(x, y),
        !visited.contains(m.key(x, y)),
    ensures
        unvisited_count(m, visited.insert(m.key(x, y))) < unvisited_count(m, visited),
{
    let all = grid_keys(m);
    let k = m.key(x, y);
    lemma_key_bounds(m.width, m.height, x, y);
    lemma_int_range(0, m.width * m.height);
    let free = all.difference(visited);
    lemma_len_subset(free, all);
    assert(all.difference(visited.insert(k)) =~= free.remove(k));
    assert(free.contains(k));
    vstd::set::axiom_set_remove_len(free, k);
}

/// The depth-first search over a grid model.  The stack holds deferred
/// moves, most recent last; `visited` holds the keys of cells already
/// expanded.  Returns the origin-to-target path of the first move popped on
/// the end cell, or `None` once the stack runs dry.
pub open spec fn dfs(m: GridModel, stack: Seq<GMove>, visited: Set<int>) -> Option<
    Seq<(int, int)>,
>
    decreases unvisited_count(m, visited), stack.len(),
        when m.wf() && stack_wf(m, stack) && visited.finite()
{
    if stack.len() == 0 {
        Option::None
    } else {
        let g = stack.last();
        if m.cell(g.x, g.y) == SquareKind::EndSquare {
            Option::Some(g.chain.push((g.x, g.y)))
        } else if visited.contains(m.key(g.x, g.y)) {
            dfs(m, stack.drop_last(), visited)
        } else {
            proof {
                assert(move_sited(m, stack[stack.len() - 1]));
                lemma_unvisited_decreases(m, visited, g.x, g.y);
            }
            dfs(
                m,
                stack.drop_last() + expansion(m, g.x, g.y, g.chain.push((g.x, g.y))).reverse(),
                visited.insert(m.key(g.x, g.y)),
            )
        }
    }
}

/// The whole run on a board model: the initial stack is the expansion of
/// the synthetic root at the start cell, pushed so that the East candidate
/// is popped first, and nothing is visited yet.
pub open spec fn traversal_outcome(m: GridModel) -> Option<Seq<(int, int)>> {
    dfs(m, expansion(m, m.start.0, m.start.1, seq![m.start]).reverse(), Set::empty())
}

/// The keys marked true in the visited vector.
pub open spec fn visited_set(v: Seq<bool>) -> Set<int> {
    Set::new(|k: int| 0 <= k < v.len() && v[k] == true)
}

/// The visited set is finite: it lives inside the key range of the vector.
pub proof fn lemma_visited_set_finite(v: Seq<bool>)
    ensures
        visited_set(v).finite(),
{
    lemma_int_range(0, v.len() as int);
    assert(visited_set(v).subset_of(set_int_range(0, v.len() as int)));
    lemma_len_subset(visited_set(v), set_int_range(0, v.len() as int));
}

/// Traversability is judged the same by two grids whose cells differ only
/// at visited keys, where the current grid holds `PossiblePath` over a
/// cell the first grid held as traversable.
pub proof fn lemma_expansion_stable(m: GridModel, cur: GridModel, x: int, y: int, chain: Seq<(int, int)>)
    requires
        m.wf(),
        cur.width == m.width,
        cur.height == m.height,
        cur.cells.len() == m.cells.len(),
        forall|a: int, b: int|
            m.in_grid(a, b) ==> #[trigger] cur.cell(a, b) == m.cell(a, b) || (cur.cell(a, b)
                == SquareKind::PossiblePath && m.traversable(a, b)),
    ensures
        expansion(cur, x, y, chain) == expansion(m, x, y, chain),
{
    assert forall|a: int, b: int| #[trigger] cur.traversable(a, b) == m.traversable(a, b) by {
        if m.in_grid(a, b) {
            assert(cur.cell(a, b) == m.cell(a, b) || (cur.cell(a, b) == SquareKind::PossiblePath
                && m.traversable(a, b)));
        }
    }
    assert(expansion(cur, x, y, chain) =~= expansion(m, x, y, chain));
}

/// The row-major index of an in-grid coordinate, as executable code.
fn cell_index(board: &Board, x: i32, y: i32) -> (idx: usize)
    requires
        board.wf(),
        board.model().in_grid(x as int, y as int),
    ensures
        idx == board.model().key(x as int, y as int),
        idx < board.grid@.len(),
{
    proof {
        lemma_key_bounds(board.model().width, board.model().height, x as int, y as int);
    }
    (y as usize) * (board.width as usize) + (x as usize)
}

/// Enumerates the candidate moves out of `parent`'s coordinate in the fixed
/// order East, West, North, South, keeping exactly those the board's
/// validity rule accepts.  Reads the board only; no side effects.
pub fn get_possible_moves(board: &Board, parent: &Node) -> (r: Vec<PendingMove>)
    requires
        board.wf(),
        board.model().in_grid(parent.x as int, parent.y as int),
    ensures
        moves_view(r@) == expansion(
            board.model(),
            parent.x as int,
            parent.y as int,
            parent.ancestry(),
        ),
{
    let ghost m = board.model();
    let ghost ch = parent.ancestry();
    let cx = parent.x;
    let cy = parent.y;
    proof {
        crate::board::lemma_dims_bounded(m);
    }
    let mut result: Vec<PendingMove> = Vec::new();
    if board.is_traversable(cx + 1, cy) {
        result.push(PendingMove { x: cx + 1, y: cy, parent: parent.clone() });
    }
    proof {
        assert(moves_view(result@) =~= probe(m, cx as int + 1, cy as int, ch));
    }
    if board.is_traversable(cx - 1, cy) {
        result.push(PendingMove { x: cx - 1, y: cy, parent: parent.clone() });
    }
    proof {
        assert(moves_view(result@) =~= probe(m, cx as int + 1, cy as int, ch) + probe(m, cx as int - 1, cy as int, ch));
    }
    if board.is_traversable(cx, cy - 1) {
        result.push(PendingMove { x: cx, y: cy - 1, parent: parent.clone() });
    }
    proof {
        assert(moves_view(result@) =~= probe(m, cx as int + 1, cy as int, ch) + probe(m, cx as int - 1, cy as int, ch)
            + probe(m, cx as int, cy as int - 1, ch));
    }
    if board.is_traversable(cx, cy + 1) {
        result.push(PendingMove { x: cx, y: cy + 1, parent: parent.clone() });
    }
    proof {
        assert(moves_view(result@) =~= expansion(m, cx as int, cy as int, ch));
    }
    result
}

/// The row-major key of a coordinate pair.
pub open spec fn key_of_coord(m: GridModel, c: (int, int)) -> int {
    m.key(c.0, c.1)
}

/// Some coordinate of the sequence has the key `k`.
pub open spec fn in_keys(m: GridModel, cs: Seq<(int, int)>, k: int) -> bool {
    exists|t: int| 0 <= t < cs.len() && k == key_of_coord(m, #[trigger] cs[t])
}

/// The coordinate sits on a traversable cell whose key has been visited.
pub open spec fn chain_cell_ok(m: GridModel, visited: Set<int>, c: (int, int)) -> bool {
    m.traversable(c.0, c.1) && visited.contains(key_of_coord(m, c))
}

/// The bookkeeping a pending move's chain obeys throughout the search: it
/// runs from the start cell to the move's coordinate along adjacent cells,
/// never repeats a coordinate, and consists (after the start) of visited
/// traversable cells.
pub open spec fn chain_ok(m: GridModel, visited: Set<int>, g: GMove) -> bool {
    &&& g.chain.len() >= 1
    &&& g.chain[0] == m.start
    &&& path_adjacent(g.chain.push((g.x, g.y)))
    &&& path_distinct(g.chain)
    &&& forall|j: int|
        1 <= j < g.chain.len() ==> chain_cell_ok(m, visited, #[trigger] g.chain[j])
}

/// Reversal keeps length and maps index `i` to index `len - 1 - i`.
pub proof fn lemma_reverse_elements<A>(s: Seq<A>)
    ensures
        s.reverse().len() == s.len(),
        forall|i: int| 0 <= i < s.len() ==> #[trigger] s.reverse()[i] == s[s.len() - 1 - i],
{
    if s.len() == 0 {
        assert(s.reverse() =~= Seq::<A>::empty());
    }
}

/// What each produced candidate looks like: it is traversable, carries the
/// chain it was expanded with, and lies orthogonally next to the expanded
/// coordinate.
pub proof fn lemma_expansion_moves(m: GridModel, x: int, y: int, chain: Seq<(int, int)>)
    ensures
        forall|i: int|
            0 <= i < expansion(m, x, y, chain).len() ==> {
                let g = #[trigger] expansion(m, x, y, chain)[i];
                &&& move_sited(m, g)
                &&& g.chain == chain
                &&& orth_adjacent((x, y), (g.x, g.y))
            },
{
    assert forall|i: int| 0 <= i < expansion(m, x, y, chain).len() implies {
        let g = #[trigger] expansion(m, x, y, chain)[i];
        &&& move_sited(m, g)
        &&& g.chain == chain
        &&& orth_adjacent((x, y), (g.x, g.y))
    } by {
        let e = expansion(m, x, y, chain);
        let g = e[i];
        assert(orth_adjacent((x, y), (x + 1, y)));
        assert(orth_adjacent((x, y), (x - 1, y)));
        assert(orth_adjacent((x, y), (x, y - 1)));
        assert(orth_adjacent((x, y), (x, y + 1)));
    }
}

/// Pushes the pending moves onto the work stack back to front, so that the
/// earliest candidate ends on top of the stack.
fn push_reversed(stack: &mut Vec<PendingMove>, moves: Vec<PendingMove>)
    ensures
        moves_view(final(stack)@) == moves_view(old(stack)@) + moves_view(moves@).reverse(),
{
    let ghost base = moves_view(old(stack)@);
    let ghost all = moves_view(moves@);
    let mut ms = moves;
    while ms.len() > 0
        invariant
            moves_view(stack@) + moves_view(ms@).reverse() == base + all.reverse(),
        decreases ms@.len(),
    {
        let ghost pre_stack = moves_view(stack@);
        let ghost pre_ms = moves_view(ms@);
        let mv = ms.pop().unwrap();
        stack.push(mv);
        proof {
            assert(moves_view(ms@) =~= pre_ms.drop_last());
            assert(moves_view(stack@) =~= pre_stack.push(pre_ms.last()));
            assert(pre_ms.reverse() =~= seq![pre_ms.last()] + pre_ms.drop_last().reverse());
            assert(moves_view(stack@) + moves_view(ms@).reverse() =~= pre_stack
                + pre_ms.reverse());
        }
    }
    proof {
        assert(moves_view(stack@) =~= moves_view(stack@) + moves_view(ms@).reverse());
    }
}

/// Runs the depth-first traversal over the board, from its start cell
/// toward its end cell.
///
/// Expanded cells are marked `PossiblePath` in place; when the end is
/// reached, the discovered route (except the start cell) is overwritten
/// with `SolutionPath`, and the route is returned in origin-to-target
/// order.  When the work stack runs dry instead, the board keeps its
/// exploration markings and the path is empty.  The outcome is exactly
/// `traversal_outcome` of the board's initial model: obstacles never
/// change, the start cell keeps its kind, and a returned path is a simple
/// orthogonally-connected route from start to end.
#[verifier::loop_isolation(false)]
#[verifier::rlimit(100)]
pub fn run_traversal(board: &mut Board) -> (r: TraversalResult)
    requires
        old(board).wf(),
        old(board).model().ready(),
    ensures
        final(board).wf(),
        final(board).width == old(board).width,
        final(board).height == old(board).height,
        final(board).start_x == old(board).start_x,
        final(board).start_y == old(board).start_y,
        final(board).end_x == old(board).end_x,
        final(board).end_y == old(board).end_y,
        final(board).solved == r.solved,
        r.solved == (traversal_outcome(old(board).model()) is Some),
        (match traversal_outcome(old(board).model()) {
            Option::Some(p) => coords_view(r.path@) == p,
            Option::None => r.path@ == Seq::<(i32, i32)>::empty(),
        }),
        r.solved ==> r.path@.len() >= 2 && coords_view(r.path@)[0] == old(board).model().start
            && coords_view(r.path@).last() == old(board).model().end,
        r.solved ==> path_adjacent(coords_view(r.path@)),
        r.solved ==> path_distinct(coords_view(r.path@)),
        !r.solved ==> r.path@ == Seq::<(i32, i32)>::empty(),
        forall|x: int, y: int|
            old(board).model().in_grid(x, y) ==> {
                ||| #[trigger] final(board).model().cell(x, y) == old(board).model().cell(x, y)
                ||| final(board).model().cell(x, y) == SquareKind::PossiblePath
                ||| final(board).model().cell(x, y) == SquareKind::SolutionPath
            },
        forall|x: int, y: int|
            old(board).model().in_grid(x, y) && old(board).model().cell(x, y)
                == SquareKind::Obstacle ==> #[trigger] final(board).model().cell(x, y)
                == SquareKind::Obstacle,
        final(board).model().cell(old(board).model().start.0, old(board).model().start.1)
            == SquareKind::StartSquare,
        r.solved ==> forall|i: int|
            1 <= i < r.path@.len() ==> {
                let c = #[trigger] coords_view(r.path@)[i];
                final(board).model().cell(c.0, c.1) == SquareKind::SolutionPath
            },
{
    let ghost m = old(board).model();
    let n: usize = board.grid.len();
    let mut visited: Vec<bool> = Vec::new();
    let mut k: usize = 0;
    while k < n
        invariant
            k <= n,
            visited@.len() == k,
            forall|i: int| 0 <= i < k ==> visited@[i] == false,
        decreases n - k,
    {
        visited.push(false);
        k = k + 1;
    }
    proof {
        assert(visited_set(visited@) =~= Set::<int>::empty());
        lemma_visited_set_finite(visited@);
    }
    let root = Node::new(board.start_x, board.start_y);
    let moves = get_possible_moves(board, &root);
    let mut stack: Vec<PendingMove> = Vec::new();
    push_reversed(&mut stack, moves);
    let ghost e0 = expansion(m, m.start.0, m.start.1, seq![m.start]);
    proof {
        assert(moves_view(Seq::<PendingMove>::empty()) =~= Seq::<GMove>::empty());
        assert(moves_view(stack@) =~= e0.reverse());
        lemma_reverse_elements(e0);
        lemma_expansion_moves(m, m.start.0, m.start.1, seq![m.start]);
        assert forall|i: int| 0 <= i < moves_view(stack@).len() implies move_sited(
            m,
            #[trigger] moves_view(stack@)[i],
        ) && chain_ok(m, visited_set(visited@), moves_view(stack@)[i]) by {
            let g = moves_view(stack@)[i];
            assert(g == e0[e0.len() - 1 - i]);
            assert(g.chain == seq![m.start]);
            assert(g.chain.push((g.x, g.y))[0] == m.start);
            assert(orth_adjacent(m.start, (g.x, g.y)));
        }
    }
    while stack.len() > 0
        invariant
            board.width == old(board).width,
            board.height == old(board).height,
            board.start_x == old(board).start_x,
            board.start_y == old(board).start_y,
            board.end_x == old(board).end_x,
            board.end_y == old(board).end_y,
            board.solved == old(board).solved,
            board.grid@.len() == m.cells.len(),
            visited@.len() == m.cells.len(),
            visited_set(visited@).finite(),
            forall|kk: int|
                0 <= kk < m.cells.len() ==> #[trigger] board.grid@[kk] == (
                if visited_set(visited@).contains(kk) {
                    SquareKind::PossiblePath
                } else {
                    m.cells[kk]
                }),
            forall|x: int, y: int|
                m.in_grid(x, y) && visited_set(visited@).contains(#[trigger] m.key(x, y))
                    ==> m.traversable(x, y),
            !visited_set(visited@).contains(m.key(m.end.0, m.end.1)),
            stack_wf(m, moves_view(stack@)),
            forall|i: int|
                0 <= i < moves_view(stack@).len() ==> chain_ok(
                    m,
                    visited_set(visited@),
                    #[trigger] moves_view(stack@)[i],
                ),
            dfs(m, moves_view(stack@), visited_set(visited@)) == traversal_outcome(m),
        decreases unvisited_count(m, visited_set(visited@)), stack@.len(),
    {
        let ghost pre_stack = moves_view(stack@);
        let ghost vset = visited_set(visited@);
        let mv = stack.pop().unwrap();
        let ghost g = mv.model();
        proof {
            assert(moves_view(stack@) =~= pre_stack.drop_last());
            assert(g == pre_stack[pre_stack.len() - 1]);
            assert(move_sited(m, pre_stack[pre_stack.len() - 1]));
            assert(chain_ok(m, vset, g));
        }
        let cur_x = mv.x;
        let cur_y = mv.y;
        let idx = cell_index(board, cur_x, cur_y);
        if board.grid[idx] == SquareKind::EndSquare {
            proof {
                assert(!vset.contains(idx as int));
                assert(m.cell(g.x, g.y) == SquareKind::EndSquare);
                assert((g.x, g.y) == m.end);
                assert(dfs(m, pre_stack, vset) == Option::Some(g.chain.push((g.x, g.y))));
            }
            let ghost full = g.chain.push((g.x, g.y));
            let mut child = Node::new(cur_x, cur_y);
            mv.parent.add(&mut child);
            proof {
                assert(child.ancestry() =~= full);
                child.lemma_rev_path_ancestry();
            }
            let rp = child.find_reverse_path();
            let ghost cv = coords_view(rp@);
            proof {
                lemma_reverse_elements::<(int, int)>(cv);
                assert(cv.reverse() =~= full.subrange(1, full.len() as int));
                assert forall|t: int| 0 <= t < cv.len() implies cv[t] == full[full.len() - 1
                    - t] by {
                    assert(cv.reverse()[cv.len() - 1 - t] == cv[t]);
                    assert(full.subrange(1, full.len() as int)[cv.len() - 1 - t] == full[
                        full.len() - 1 - t]);
                }
                assert forall|t: int| 0 <= t < cv.len() implies m.in_grid(cv[t].0, cv[t].1) by {
                    let j = full.len() - 1 - t;
                    if j < full.len() - 1 {
                        assert(chain_cell_ok(m, vset, g.chain[j]));
                    }
                }
            }
            let ghost pre_grid = board.grid@;
            let mut t: usize = 0;
            while t < rp.len()
                invariant
                    t <= rp@.len(),
                    board.grid@.len() == m.cells.len(),
                    board.width == old(board).width,
                    board.height == old(board).height,
                    board.start_x == old(board).start_x,
                    board.start_y == old(board).start_y,
                    board.end_x == old(board).end_x,
                    board.end_y == old(board).end_y,
                    board.solved == old(board).solved,
                    forall|u: int|
                        0 <= u < t ==> board.grid@[key_of_coord(m, #[trigger] cv[u])]
                            == SquareKind::SolutionPath,
                    forall|kk: int|
                        0 <= kk < m.cells.len() && !in_keys(m, cv.take(t as int), kk)
                            ==> #[trigger] board.grid@[kk] == pre_grid[kk],
                decreases rp@.len() - t,
            {
                let c = rp[t];
                proof {
                    assert(cv[t as int] == (c.0 as int, c.1 as int));
                }
                let pidx = cell_index(board, c.0, c.1);
                board.grid.set(pidx, SquareKind::SolutionPath);
                t = t + 1;
                proof {
                    assert forall|u: int| 0 <= u < t implies board.grid@[key_of_coord(
                        m,
                        #[trigger] cv[u],
                    )] == SquareKind::SolutionPath by {
                        if u < t - 1 {
                            if key_of_coord(m, cv[u]) != pidx as int {
                                assert(!in_keys(m, cv.take(t as int - 1), key_of_coord(
                                    m,
                                    cv[u],
                                )) ==> board.grid@[key_of_coord(m, cv[u])] == pre_grid[
                                key_of_coord(m, cv[u])]);
                            }
                        }
                    }
                    assert forall|kk: int|
                        0 <= kk < m.cells.len() && !in_keys(m, cv.take(t as int), kk) implies
                        board.grid@[kk] == pre_grid[kk] by {
                        assert(cv.take(t as int)[t - 1] == cv[t - 1]);
                        assert(forall|u: int|
                            0 <= u < t - 1 ==> cv.take(t as int - 1)[u] == #[trigger] cv.take(
                                t as int,
                            )[u]);
                    }
                }
            }
            proof {
                assert(cv.take(cv.len() as int) =~= cv);
            }
            let mut path: Vec<(i32, i32)> = Vec::new();
            path.push((board.start_x, board.start_y));
            let mut j: usize = rp.len();
            proof {
                assert(coords_view(path@) =~= seq![m.start]);
            }
            while j > 0
                invariant
                    j <= rp@.len(),
                    path@.len() == 1 + rp@.len() - j,
                    coords_view(path@)[0] == m.start,
                    forall|i: int|
                        1 <= i < path@.len() ==> #[trigger] coords_view(path@)[i] == cv[
                        cv.len() - i],
                decreases j,
            {
                j = j - 1;
                let c = rp[j];
                let ghost pre_path = coords_view(path@);
                path.push(c);
                proof {
                    assert(coords_view(path@) =~= pre_path.push(cv[j as int]));
                }
            }
            board.solved = true;
            proof {
                assert(coords_view(path@) =~= full);
                // the route is simple: the chain is distinct and never
                // touches the end cell
                assert forall|a: int, b: int| 0 <= a < b < full.len() implies full[a] != full[
                b] by {
                    if b < full.len() - 1 {
                        assert(full[a] == g.chain[a] && full[b] == g.chain[b]);
                        assert(path_distinct(g.chain));
                    } else {
                        assert(full[b] == m.end);
                        if a >= 1 {
                            assert(chain_cell_ok(m, vset, g.chain[a]));
                            assert(!vset.contains(m.key(m.end.0, m.end.1)));
                        }
                    }
                }
                // every marked or untouched cell obeys the frame conditions
                assert forall|x: int, y: int| m.in_grid(x, y) implies {
                    let c2 = board.model().cell(x, y);
                    &&& (c2 == m.cell(x, y) || c2 == SquareKind::PossiblePath || c2
                        == SquareKind::SolutionPath)
                    &&& (m.cell(x, y) == SquareKind::Obstacle ==> c2 == SquareKind::Obstacle)
                    &&& ((x, y) == m.start ==> c2 == SquareKind::StartSquare)
                } by {
                    lemma_key_bounds(m.width, m.height, x, y);
                    let kk = m.key(x, y);
                    if in_keys(m, cv, kk) {
                        let u = choose|u: int|
                            0 <= u < cv.len() && kk == key_of_coord(m, #[trigger] cv[u]);
                        lemma_key_bounds(m.width, m.height, cv[u].0, cv[u].1);
                        lemma_key_injective(m.width, x, y, cv[u].0, cv[u].1);
                        assert((x, y) == cv[u]);
                        assert(board.grid@[kk] == SquareKind::SolutionPath);
                        let jj = full.len() - 1 - u;
                        if jj < full.len() - 1 {
                            assert(chain_cell_ok(m, vset, g.chain[jj]));
                            assert(m.traversable(x, y));
                        } else {
                            assert((x, y) == m.end);
                        }
                    } else {
                        assert(board.grid@[kk] == pre_grid[kk]);
                        if vset.contains(kk) {
                            assert(m.traversable(x, y));
                        }
                    }
                }
                // the returned path's cells past the start are marked
                assert forall|i: int| 1 <= i < path@.len() implies {
                    let c2 = #[trigger] coords_view(path@)[i];
                    board.model().cell(c2.0, c2.1) == SquareKind::SolutionPath
                } by {
                    let u = cv.len() - i;
                    assert(coords_view(path@)[i] == cv[u]);
                    assert(board.grid@[key_of_coord(m, cv[u])] == SquareKind::SolutionPath);
                }
            }
            return TraversalResult { solved: true, path };
        }
        if visited[idx] {
            proof {
                assert(vset.contains(idx as int));
                assert(m.cell(g.x, g.y) != SquareKind::EndSquare) by {
                    if m.cell(g.x, g.y) == SquareKind::EndSquare {
                        assert((g.x, g.y) == m.end);
                    }
                }
                assert(dfs(m, pre_stack, vset) == dfs(m, pre_stack.drop_last(), vset));
            }
        } else {
            proof {
                assert(!vset.contains(idx as int));
                assert(m.cell(g.x, g.y) != SquareKind::EndSquare);
            }
            visited.set(idx, true);
            proof {
                assert(visited_set(visited@) =~= vset.insert(idx as int));
                lemma_visited_set_finite(visited@);
                assert forall|x: int, y: int|
                    m.in_grid(x, y) && visited_set(visited@).contains(
                        #[trigger] m.key(x, y),
                    ) implies m.traversable(x, y) by {
                    if m.key(x, y) == idx as int {
                        lemma_key_bounds(m.width, m.height, g.x, g.y);
                        lemma_key_injective(m.width, x, y, g.x, g.y);
                    }
                }
                assert(!visited_set(visited@).contains(m.key(m.end.0, m.end.1))) by {
                    if idx as int == m.key(m.end.0, m.end.1) {
                        assert(m.cells[m.key(m.end.0, m.end.1)] == SquareKind::EndSquare);
                    }
                }
            }
            board.grid.set(idx, SquareKind::PossiblePath);
            let mut child = Node::new(cur_x, cur_y);
            mv.parent.add(&mut child);
            let ghost full = g.chain.push((g.x, g.y));
            proof {
                assert(child.ancestry() =~= full);
            }
            let moves2 = get_possible_moves(board, &child);
            proof {
                assert forall|a: int, b: int| m.in_grid(a, b) implies #[trigger] board.model().cell(
                    a,
                    b,
                ) == m.cell(a, b) || (board.model().cell(a, b) == SquareKind::PossiblePath
                    && m.traversable(a, b)) by {
                    lemma_key_bounds(m.width, m.height, a, b);
                    if visited_set(visited@).contains(m.key(a, b)) {
                        assert(m.traversable(a, b));
                    }
                }
                lemma_expansion_stable(m, board.model(), g.x, g.y, full);
                assert(moves_view(moves2@) == expansion(m, g.x, g.y, full));
            }
            push_reversed(&mut stack, moves2);
            proof {
                let e = expansion(m, g.x, g.y, full);
                let vs2 = visited_set(visited@);
                assert(moves_view(stack@) == pre_stack.drop_last() + e.reverse());
                lemma_reverse_elements(e);
                lemma_expansion_moves(m, g.x, g.y, full);
                // the expanded coordinate joins every new chain without
                // breaking simplicity: it was unvisited, so it is none of
                // the chain's visited cells, and it is not the start
                assert((g.x, g.y) != m.start) by {
                    if (g.x, g.y) == m.start {
                        assert(m.cell(m.start.0, m.start.1) == SquareKind::StartSquare);
                    }
                }
                assert forall|a: int| 1 <= a < g.chain.len() implies g.chain[a] != (
                g.x,
                g.y,
                ) by {
                    assert(chain_cell_ok(m, vset, g.chain[a]));
                }
                assert(path_distinct(full));
                assert(path_adjacent(full));
                assert forall|i: int| 0 <= i < moves_view(stack@).len() implies move_sited(
                    m,
                    #[trigger] moves_view(stack@)[i],
                ) && chain_ok(m, vs2, moves_view(stack@)[i]) by {
                    let gg = moves_view(stack@)[i];
                    if i < pre_stack.len() - 1 {
                        assert(gg == pre_stack[i]);
                        assert(chain_ok(m, vset, gg));
                        assert forall|jj: int| 1 <= jj < gg.chain.len() implies chain_cell_ok(
                            m,
                            vs2,
                            #[trigger] gg.chain[jj],
                        ) by {
                            assert(chain_cell_ok(m, vset, gg.chain[jj]));
                        }
                    } else {
                        let ei = i - (pre_stack.len() - 1);
                        assert(gg == e.reverse()[ei]);
                        assert(gg == e[e.len() - 1 - ei]);
                        assert(gg.chain == full);
                        assert(orth_adjacent((g.x, g.y), (gg.x, gg.y)));
                        assert(full[0] == m.start);
                        assert forall|jj: int| 1 <= jj < full.len() implies chain_cell_ok(
                            m,
                            vs2,
                            #[trigger] full[jj],
                        ) by {
                            if jj < full.len() - 1 {
                                assert(chain_cell_ok(m, vset, g.chain[jj]));
                            } else {
                                assert(full[jj] == (g.x, g.y));
                                assert(vs2.contains(idx as int));
                            }
                        }
                        assert forall|a: int| 0 <= a < full.push((gg.x, gg.y)).len() - 1 implies
                            orth_adjacent(
                            #[trigger] full.push((gg.x, gg.y))[a],
                            full.push((gg.x, gg.y))[a + 1],
                        ) by {
                            if a < full.len() - 1 {
                                assert(full[a] == full.push((gg.x, gg.y))[a]);
                            }
                        }
                    }
                }
                // the search's answer is unchanged by this expansion step
                assert(dfs(m, pre_stack, vset) == dfs(m, moves_view(stack@), vs2));
                lemma_unvisited_decreases(m, vset, g.x, g.y);
            }
        }
    }
    board.solved = false;
    proof {
        assert(moves_view(stack@).len() == 0);
        assert(dfs(m, moves_view(stack@), visited_set(visited@)) == Option::<
            Seq<(int, int)>,
        >::None);
        assert forall|x: int, y: int| m.in_grid(x, y) implies {
            let c2 = board.model().cell(x, y);
            &&& (c2 == m.cell(x, y) || c2 == SquareKind::PossiblePath || c2
                == SquareKind::SolutionPath)
            &&& (m.cell(x, y) == SquareKind::Obstacle ==> c2 == SquareKind::Obstacle)
            &&& ((x, y) == m.start ==> c2 == SquareKind::StartSquare)
        } by {
            lemma_key_bounds(m.width, m.height, x, y);
            let kk = m.key(x, y);
            if visited_set(visited@).contains(kk) {
                assert(m.traversable(x, y));
            }
        }
    }
    TraversalResult { solved: false, path: Vec::new() }
}

} // verus!
