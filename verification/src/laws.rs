//! Library-wide laws: facts that relate whole operations to one another,
//! proved once over the board model.

use crate::board::{freshly_reset, lemma_key_injective, Board, GridModel, SquareKind};
use crate::engine::{
    dfs, expansion, key_of_coord, lemma_expansion_moves, lemma_reverse_elements,
    lemma_unvisited_decreases, move_sited, orth_adjacent, path_adjacent, probe, stack_wf,
    traversal_outcome, GMove,
};
use vstd::prelude::*;

verus! {

/// A route to the end through traversable cells: nonempty, every cell
/// traversable, consecutive cells orthogonally adjacent, the last cell the
/// end.
pub open spec fn route_to_end(m: GridModel, p: Seq<(int, int)>) -> bool {
    &&& p.len() >= 1
    &&& forall|i: int| 0 <= i < p.len() ==> m.traversable((#[trigger] p[i]).0, p[i].1)
    &&& path_adjacent(p)
    &&& p.last() == m.end
}

/// No cell of the sequence has a visited key.
pub open spec fn avoids(m: GridModel, visited: Set<int>, p: Seq<(int, int)>) -> bool {
    forall|i: int| 0 <= i < p.len() ==> !visited.contains(key_of_coord(m, #[trigger] p[i]))
}

/// A pending move can still escape to the end: an unvisited route to the
/// end starts at its coordinate.
pub open spec fn move_escapes(m: GridModel, visited: Set<int>, g: GMove, p: Seq<(int, int)>) -> bool {
    &&& route_to_end(m, p)
    &&& avoids(m, visited, p)
    &&& p[0] == (g.x, g.y)
}

/// Some pending move of the stack can still escape to the end.
pub open spec fn stack_escapes(m: GridModel, visited: Set<int>, stack: Seq<GMove>) -> bool {
    exists|i: int, p: Seq<(int, int)>|
        0 <= i < stack.len() && #[trigger] move_escapes(m, visited, stack[i], p)
}

/// Distinct in-grid coordinates have distinct keys.
proof fn lemma_distinct_coords_distinct_keys(m: GridModel, a: (int, int), b: (int, int))
    requires
        m.wf(),
        m.in_grid(a.0, a.1),
        m.in_grid(b.0, b.1),
        a != b,
    ensures
        key_of_coord(m, a) != key_of_coord(m, b),
{
    if key_of_coord(m, a) == key_of_coord(m, b) {
        lemma_key_injective(m.width, a.0, a.1, b.0, b.1);
    }
}

/// A sequence that contains a value contains it a last time.
proof fn lemma_last_occurrence(p: Seq<(int, int)>, c: (int, int))
    requires
        exists|t: int| 0 <= t < p.len() && #[trigger] p[t] == c,
    ensures
        exists|t: int|
            0 <= t < p.len() && #[trigger] p[t] == c && (forall|u: int|
                t < u < p.len() ==> p[u] != c),
    decreases p.len(),
{
    if p[p.len() - 1] == c {
        let t = p.len() - 1;
        assert(p[t] == c && (forall|u: int| t < u < p.len() ==> p[u] != c));
    } else {
        let t0 = choose|t: int| 0 <= t < p.len() && #[trigger] p[t] == c;
        assert(p.drop_last()[t0] == c);
        lemma_last_occurrence(p.drop_last(), c);
        let t = choose|t: int|
            0 <= t < p.drop_last().len() && #[trigger] p.drop_last()[t] == c && (forall|u: int|
                t < u < p.drop_last().len() ==> p.drop_last()[u] != c);
        assert(p[t] == c);
        assert forall|u: int| t < u < p.len() implies p[u] != c by {
            if u < p.len() - 1 {
                assert(p.drop_last()[u] == p[u]);
            }
        }
    }
}

/// One index of the expansion carries exactly the requested traversable
/// neighbor.
proof fn lemma_expansion_contains_neighbor(
    m: GridModel,
    x: int,
    y: int,
    chain: Seq<(int, int)>,
    c: (int, int),
) -> (j: int)
    requires
        m.traversable(c.0, c.1),
        orth_adjacent((x, y), c),
    ensures
        0 <= j < expansion(m, x, y, chain).len(),
        (expansion(m, x, y, chain)[j].x, expansion(m, x, y, chain)[j].y) == c,
        expansion(m, x, y, chain)[j].chain == chain,
{
    let pe = probe(m, x + 1, y, chain);
    let pw = probe(m, x - 1, y, chain);
    let pn = probe(m, x, y - 1, chain);
    if c == (x + 1, y) {
        0int
    } else if c == (x - 1, y) {
        pe.len() as int
    } else if c == (x, y - 1) {
        pe.len() as int + pw.len() as int
    } else {
        assert(c == (x, y + 1));
        pe.len() as int + pw.len() as int + pn.len() as int
    }
}

/// Popping the last move and pushing sited moves keeps every stack move
/// sited.
proof fn lemma_appended_stack_wf(m: GridModel, stack: Seq<GMove>, e: Seq<GMove>)
    requires
        stack_wf(m, stack),
        stack.len() >= 1,
        forall|j: int| 0 <= j < e.len() ==> move_sited(m, #[trigger] e[j]),
    ensures
        stack_wf(m, stack.drop_last() + e.reverse()),
{
    lemma_reverse_elements(e);
    let s2 = stack.drop_last() + e.reverse();
    assert forall|jj: int| 0 <= jj < s2.len() implies move_sited(m, #[trigger] s2[jj]) by {
        if jj < stack.len() - 1 {
            assert(s2[jj] == stack[jj]);
            assert(move_sited(m, stack[jj]));
        } else {
            assert(s2[jj] == e.reverse()[jj - (stack.len() - 1)]);
            assert(s2[jj] == e[e.len() - 1 - (jj - (stack.len() - 1))]);
        }
    }
}

/// An escaping route that never touches the cell being expanded survives
/// the expansion as it is.
proof fn lemma_escape_avoiding(
    m: GridModel,
    visited: Set<int>,
    g2: GMove,
    p: Seq<(int, int)>,
    c: (int, int),
)
    requires
        m.wf(),
        m.in_grid(c.0, c.1),
        move_escapes(m, visited, g2, p),
        forall|u: int| 0 <= u < p.len() ==> #[trigger] p[u] != c,
    ensures
        move_escapes(m, visited.insert(key_of_coord(m, c)), g2, p),
{
    assert forall|u: int| 0 <= u < p.len() implies !visited.insert(
        key_of_coord(m, c),
    ).contains(key_of_coord(m, #[trigger] p[u])) by {
        assert(m.traversable(p[u].0, p[u].1));
        lemma_distinct_coords_distinct_keys(m, p[u], c);
    }
}

/// An escaping route that runs through the cell being expanded can be
/// rerouted: its tail after the last visit of that cell is itself an
/// escaping route, and it starts next to the expanded cell.
proof fn lemma_escape_rerouted(
    m: GridModel,
    visited: Set<int>,
    gc: (int, int),
    p: Seq<(int, int)>,
) -> (q: Seq<(int, int)>)
    requires
        m.wf(),
        m.in_grid(gc.0, gc.1),
        gc != m.end,
        route_to_end(m, p),
        avoids(m, visited, p),
        exists|u: int| 0 <= u < p.len() && #[trigger] p[u] == gc,
    ensures
        route_to_end(m, q),
        avoids(m, visited.insert(key_of_coord(m, gc)), q),
        orth_adjacent(gc, q[0]),
{
    lemma_last_occurrence(p, gc);
    let t = choose|t: int|
        0 <= t < p.len() && #[trigger] p[t] == gc && (forall|u: int|
            t < u < p.len() ==> p[u] != gc);
    assert(t < p.len() - 1) by {
        assert(p[p.len() - 1] == m.end);
    }
    let q = p.subrange(t + 1, p.len() as int);
    assert(q[0] == p[t + 1]);
    assert(orth_adjacent(p[t], p[t + 1]));
    assert(q[q.len() - 1] == p[p.len() - 1]);
    assert forall|u: int| 0 <= u < q.len() implies m.traversable((#[trigger] q[u]).0, q[u].1)
        && !visited.insert(key_of_coord(m, gc)).contains(key_of_coord(m, q[u])) by {
        assert(q[u] == p[t + 1 + u]);
        assert(m.traversable(p[t + 1 + u].0, p[t + 1 + u].1));
        assert(!visited.contains(key_of_coord(m, p[t + 1 + u])));
        assert(p[t + 1 + u] != gc);
        lemma_distinct_coords_distinct_keys(m, q[u], gc);
    }
    assert(path_adjacent(q)) by {
        assert forall|u: int| 0 <= u < q.len() - 1 implies orth_adjacent(
            #[trigger] q[u],
            q[u + 1],
        ) by {
            assert(q[u] == p[t + 1 + u]);
            assert(q[u + 1] == p[t + 1 + u + 1]);
            assert(orth_adjacent(p[t + 1 + u], p[t + 1 + u + 1]));
        }
    }
    q
}

/// The completeness of the search: as long as some pending move of the
/// stack can still escape to the end, the search finds the end.
#[verifier::rlimit(100)]
#[verifier::spinoff_prover]
proof fn lemma_dfs_complete(m: GridModel, stack: Seq<GMove>, visited: Set<int>)
    requires
        m.wf(),
        m.ready(),
        stack_wf(m, stack),
        visited.finite(),
        stack_escapes(m, visited, stack),
    ensures
        dfs(m, stack, visited) is Some,
    decreases crate::engine::unvisited_count(m, visited), stack.len(),
{
    let (i, p) = choose|i: int, p: Seq<(int, int)>|
        0 <= i < stack.len() && #[trigger] move_escapes(m, visited, stack[i], p);
    let g = stack.last();
    let gc = (g.x, g.y);
    assert(move_sited(m, stack[stack.len() - 1]));
    if m.cell(g.x, g.y) == SquareKind::EndSquare {
    } else {
        assert(gc != m.end);
        if visited.contains(m.key(g.x, g.y)) {
            assert(i < stack.len() - 1) by {
                if i == stack.len() - 1 {
                    assert(!visited.contains(key_of_coord(m, p[0])));
                }
            }
            assert(stack.drop_last()[i] == stack[i]);
            assert(move_escapes(m, visited, stack.drop_last()[i], p));
            lemma_dfs_complete(m, stack.drop_last(), visited);
        } else {
            let kg = m.key(g.x, g.y);
            let visited2 = visited.insert(kg);
            let full = g.chain.push(gc);
            let e = expansion(m, g.x, g.y, full);
            let stack2 = stack.drop_last() + e.reverse();
            lemma_expansion_moves(m, g.x, g.y, full);
            lemma_reverse_elements(e);
            assert(forall|j: int| 0 <= j < e.len() ==> move_sited(m, #[trigger] e[j]));
            lemma_appended_stack_wf(m, stack, e);
            assert(kg == key_of_coord(m, gc));
            if exists|u: int| 0 <= u < p.len() && #[trigger] p[u] == gc {
                let q = lemma_escape_rerouted(m, visited, gc, p);
                let j = lemma_expansion_contains_neighbor(m, g.x, g.y, full, q[0]);
                let j2 = (stack.len() - 1) + (e.len() - 1 - j);
                assert(stack2[j2] == e.reverse()[e.len() - 1 - j]);
                assert(stack2[j2] == e[j]);
                assert(move_escapes(m, visited2, stack2[j2], q));
                assert(stack_escapes(m, visited2, stack2));
            } else {
                assert(i < stack.len() - 1) by {
                    if i == stack.len() - 1 {
                        assert(p[0] == gc);
                    }
                }
                lemma_escape_avoiding(m, visited, stack[i], p, gc);
                assert(stack2[i] == stack[i]);
                assert(move_escapes(m, visited2, stack2[i], p));
                assert(stack_escapes(m, visited2, stack2));
            }
            lemma_unvisited_decreases(m, visited, g.x, g.y);
            lemma_dfs_complete(m, stack2, visited2);
        }
    }
}

/// The reachability law: on a board whose end can be reached from the
/// start at all — some route of traversable cells leads from a neighbor of
/// the start to the end — the traversal solves.
pub proof fn lemma_reachable_solves(m: GridModel, p: Seq<(int, int)>)
    requires
        m.wf(),
        m.ready(),
        route_to_end(m, p),
        orth_adjacent(m.start, p[0]),
    ensures
        traversal_outcome(m) is Some,
{
    let full = seq![m.start];
    let e = expansion(m, m.start.0, m.start.1, full);
    let s0 = e.reverse();
    lemma_expansion_moves(m, m.start.0, m.start.1, full);
    lemma_reverse_elements(e);
    assert forall|jj: int| 0 <= jj < s0.len() implies move_sited(m, #[trigger] s0[jj]) by {
        assert(s0[jj] == e[e.len() - 1 - jj]);
    }
    let q0 = p[0];
    assert(m.traversable(q0.0, q0.1));
    let j = lemma_expansion_contains_neighbor(m, m.start.0, m.start.1, full, q0);
    let j2 = e.len() - 1 - j;
    assert(s0[j2] == e[j]);
    assert(avoids(m, Set::empty(), p));
    assert(move_escapes(m, Set::empty(), s0[j2], p));
    assert(stack_escapes(m, Set::empty(), s0));
    lemma_dfs_complete(m, s0, Set::empty());
}

/// Resetting is idempotent: two resets with the same parameters yield
/// boards equal in content, whatever the boards held before.
pub proof fn lemma_reset_idempotent(
    a: Board,
    b: Board,
    w: i32,
    h: i32,
    sx: i32,
    sy: i32,
    ex: i32,
    ey: i32,
)
    requires
        freshly_reset(a, w, h, sx, sy, ex, ey),
        freshly_reset(b, w, h, sx, sy, ex, ey),
    ensures
        a.width == b.width,
        a.height == b.height,
        a.start_x == b.start_x,
        a.start_y == b.start_y,
        a.end_x == b.end_x,
        a.end_y == b.end_y,
        a.solved == b.solved,
        a.grid@ == b.grid@,
{
}

/// The traversal is deterministic: boards equal in content have the same
/// outcome — the same solved verdict and the same path, coordinate for
/// coordinate.
pub proof fn lemma_traversal_deterministic(a: Board, b: Board)
    requires
        a.width == b.width,
        a.height == b.height,
        a.start_x == b.start_x,
        a.start_y == b.start_y,
        a.end_x == b.end_x,
        a.end_y == b.end_y,
        a.grid@ == b.grid@,
    ensures
        traversal_outcome(a.model()) == traversal_outcome(b.model()),
{
    assert(a.model() == b.model());
}

/// A start cell walled in by obstacles: when every in-grid orthogonal
/// neighbor of the start is an `Obstacle`, the very first expansion is
/// empty and the traversal is exhausted with no path.
pub proof fn lemma_enclosed_start_exhausts(m: GridModel)
    requires
        m.wf(),
        forall|x: int, y: int|
            m.in_grid(x, y) && orth_adjacent(m.start, (x, y)) ==> #[trigger] m.cell(x, y)
                == SquareKind::Obstacle,
    ensures
        traversal_outcome(m) is None,
{
    let sx = m.start.0;
    let sy = m.start.1;
    assert(orth_adjacent(m.start, (sx + 1, sy)));
    assert(orth_adjacent(m.start, (sx - 1, sy)));
    assert(orth_adjacent(m.start, (sx, sy - 1)));
    assert(orth_adjacent(m.start, (sx, sy + 1)));
    assert(!m.traversable(sx + 1, sy)) by {
        if m.in_grid(sx + 1, sy) {
            assert(m.cell(sx + 1, sy) == SquareKind::Obstacle);
        }
    }
    assert(!m.traversable(sx - 1, sy)) by {
        if m.in_grid(sx - 1, sy) {
            assert(m.cell(sx - 1, sy) == SquareKind::Obstacle);
        }
    }
    assert(!m.traversable(sx, sy - 1)) by {
        if m.in_grid(sx, sy - 1) {
            assert(m.cell(sx, sy - 1) == SquareKind::Obstacle);
        }
    }
    assert(!m.traversable(sx, sy + 1)) by {
        if m.in_grid(sx, sy + 1) {
            assert(m.cell(sx, sy + 1) == SquareKind::Obstacle);
        }
    }
    let e = expansion(m, sx, sy, seq![m.start]);
    assert(e =~= Seq::<GMove>::empty());
    assert(e.reverse() =~= Seq::<GMove>::empty());
    assert(stack_wf(m, e.reverse()));
    assert(dfs(m, e.reverse(), Set::empty()) == Option::<Seq<(int, int)>>::None);
}

} // verus!
