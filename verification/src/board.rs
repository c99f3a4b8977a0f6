//! The board: a rectangular grid of classified cells.

use vstd::prelude::*;

verus! {

/// The classification of one grid cell.  Exactly one kind applies to a cell
/// at any time.
#[derive(Clone, Copy, PartialEq, Eq, Structural, Debug)]
pub enum SquareKind {
    /// Not yet touched by a traversal.
    Init,
    /// Blocked: the traversal may never enter this cell.
    Obstacle,
    /// Explored by the traversal without ending up on the solution route.
    PossiblePath,
    /// Part of the route the traversal returned.
    SolutionPath,
    /// The origin of the search.
    StartSquare,
    /// The target of the search.
    EndSquare,
}

/// The two failure conditions of board operations.
#[derive(Clone, Copy, PartialEq, Eq, Structural, Debug)]
pub enum BoardError {
    /// A coordinate fell outside the grid.
    OutOfBounds,
    /// The requested dimensions or start/end cells are unusable.
    InvalidConfiguration,
}

/// The mathematical model of a board: dimensions, the flat cell sequence in
/// row-major order, and the designated start and end coordinates.
pub ghost struct GridModel {
    pub width: int,
    pub height: int,
    pub cells: Seq<SquareKind>,
    pub start: (int, int),
    pub end: (int, int),
}

impl GridModel {
    /// Row-major index of the coordinate `(x, y)`.
    pub open spec fn key(self, x: int, y: int) -> int {
        y * self.width + x
    }

    pub open spec fn in_grid(self, x: int, y: int) -> bool {
        0 <= x < self.width && 0 <= y < self.height
    }

    pub open spec fn cell(self, x: int, y: int) -> SquareKind {
        self.cells[self.key(x, y)]
    }

    /// The move validity rule: a cell can be entered unless it lies outside
    /// the grid, is an obstacle, or is the start square.
    pub open spec fn traversable(self, x: int, y: int) -> bool {
        &&& self.in_grid(x, y)
        &&& self.cell(x, y) != SquareKind::Obstacle
        &&& self.cell(x, y) != SquareKind::StartSquare
    }

    /// Structural well-formedness: positive dimensions, a cell for every
    /// coordinate and nothing more, start and end on the grid and distinct.
    pub open spec fn wf(self) -> bool {
        &&& 1 <= self.width
        &&& 1 <= self.height
        &&& self.width * self.height <= 0x7fff_ffff
        &&& self.cells.len() == self.width * self.height
        &&& self.in_grid(self.start.0, self.start.1)
        &&& self.in_grid(self.end.0, self.end.1)
        &&& self.start != self.end
    }

    /// The cell contents a traversal relies on: the start coordinate is the
    /// unique `StartSquare` and the end coordinate the unique `EndSquare`.
    pub open spec fn ready(self) -> bool {
        &&& self.cell(self.start.0, self.start.1) == SquareKind::StartSquare
        &&& self.cell(self.end.0, self.end.1) == SquareKind::EndSquare
        &&& forall|x: int, y: int|
            self.in_grid(x, y) && #[trigger] self.cell(x, y) == SquareKind::StartSquare
                ==> (x, y) == self.start
        &&& forall|x: int, y: int|
            self.in_grid(x, y) && #[trigger] self.cell(x, y) == SquareKind::EndSquare
                ==> (x, y) == self.end
    }
}

/// A row-major index stays inside the cell sequence of a well-formed grid.
pub proof fn lemma_key_bounds(w: int, h: int, x: int, y: int)
    requires
        1 <= w,
        1 <= h,
        0 <= x < w,
        0 <= y < h,
    ensures
        0 <= y * w + x,
        y * w + x < w * h,
        y * w <= (h - 1) * w,
{
    assert(0 <= y * w + x && y * w + x < w * h && y * w <= (h - 1) * w) by (nonlinear_arith)
        requires
            1 <= w,
            1 <= h,
            0 <= x < w,
            0 <= y < h,
    ;
}

/// Distinct in-grid coordinates have distinct row-major indices.
pub proof fn lemma_key_injective(w: int, x1: int, y1: int, x2: int, y2: int)
    requires
        1 <= w,
        0 <= x1 < w,
        0 <= y1,
        0 <= x2 < w,
        0 <= y2,
        y1 * w + x1 == y2 * w + x2,
    ensures
        x1 == x2,
        y1 == y2,
{
    assert(x1 == x2 && y1 == y2) by (nonlinear_arith)
        requires
            1 <= w,
            0 <= x1 < w,
            0 <= y1,
            0 <= x2 < w,
            0 <= y2,
            y1 * w + x1 == y2 * w + x2,
    ;
}

/// Each dimension of a well-formed grid fits the coordinate type on its
/// own.
pub proof fn lemma_dims_bounded(m: GridModel)
    requires
        m.wf(),
    ensures
        m.width <= 0x7fff_ffff,
        m.height <= 0x7fff_ffff,
{
    assert(m.width <= 0x7fff_ffff && m.height <= 0x7fff_ffff) by (nonlinear_arith)
        requires
            1 <= m.width,
            1 <= m.height,
            m.width * m.height <= 0x7fff_ffff,
    ;
}

/// The grid contents right after construction or a reset: all `Init` except
/// the start and end cells.
pub open spec fn grid_spec(w: int, h: int, sx: int, sy: int, ex: int, ey: int) -> Seq<
    SquareKind,
> {
    Seq::new(
        (w * h) as nat,
        |k: int|
            if k == sy * w + sx {
                SquareKind::StartSquare
            } else if k == ey * w + ex {
                SquareKind::EndSquare
            } else {
                SquareKind::Init
            },
    )
}

/// The configurations `new_board` and `reset` accept: positive dimensions
/// whose cell count fits the index type, start and end on the grid, and
/// start distinct from end.
pub open spec fn valid_config(w: int, h: int, sx: int, sy: int, ex: int, ey: int) -> bool {
    &&& 1 <= w
    &&& 1 <= h
    &&& w * h <= 0x7fff_ffff
    &&& 0 <= sx < w
    &&& 0 <= sy < h
    &&& 0 <= ex < w
    &&& 0 <= ey < h
    &&& !(sx == ex && sy == ey)
}

/// A board in the state `new_board` and `reset` leave behind.
pub open spec fn freshly_reset(
    b: Board,
    w: i32,
    h: i32,
    sx: i32,
    sy: i32,
    ex: i32,
    ey: i32,
) -> bool {
    &&& b.width == w
    &&& b.height == h
    &&& b.start_x == sx
    &&& b.start_y == sy
    &&& b.end_x == ex
    &&& b.end_y == ey
    &&& b.solved == false
    &&& b.grid@ == grid_spec(w as int, h as int, sx as int, sy as int, ex as int, ey as int)
}

/// A rectangular grid of cells with designated start and end coordinates.
/// The grid is stored flat in row-major order.
#[derive(Clone, PartialEq, Debug)]
pub struct Board {
    pub width: i32,
    pub height: i32,
    pub start_x: i32,
    pub start_y: i32,
    pub end_x: i32,
    pub end_y: i32,
    pub grid: Vec<SquareKind>,
    pub solved: bool,
}

impl Board {
    /// The mathematical view of this board.
    pub open spec fn model(self) -> GridModel {
        GridModel {
            width: self.width as int,
            height: self.height as int,
            cells: self.grid@,
            start: (self.start_x as int, self.start_y as int),
            end: (self.end_x as int, self.end_y as int),
        }
    }

    pub open spec fn wf(self) -> bool {
        self.model().wf()
    }

    /// Reads one cell.  Fails with `OutOfBounds` exactly when the coordinate
    /// lies outside the grid.
    pub fn classify(&self, x: i32, y: i32) -> (r: Result<SquareKind, BoardError>)
        requires
            self.wf(),
        ensures
            self.model().in_grid(x as int, y as int) ==> r == Result::<SquareKind,
                BoardError,
            >::Ok(self.model().cell(x as int, y as int)),
            !self.model().in_grid(x as int, y as int) ==> r == Result::<SquareKind,
                BoardError,
            >::Err(BoardError::OutOfBounds),
    {
        if x < 0 || y < 0 || x >= self.width || y >= self.height {
            return Result::Err(BoardError::OutOfBounds);
        }
        proof {
            lemma_key_bounds(self.width as int, self.height as int, x as int, y as int);
        }
        let idx: usize = (y as usize) * (self.width as usize) + (x as usize);
        Result::Ok(self.grid[idx])
    }

    /// Overwrites one cell.  Fails with `OutOfBounds` exactly when the
    /// coordinate lies outside the grid; the board is then unchanged.
    pub fn set_classification(&mut self, x: i32, y: i32, kind: SquareKind) -> (r: Result<
        (),
        BoardError,
    >)
        requires
            old(self).wf(),
        ensures
            final(self).wf(),
            final(self).width == old(self).width,
            final(self).height == old(self).height,
            final(self).start_x == old(self).start_x,
            final(self).start_y == old(self).start_y,
            final(self).end_x == old(self).end_x,
            final(self).end_y == old(self).end_y,
            final(self).solved == old(self).solved,
            old(self).model().in_grid(x as int, y as int) ==> r == Result::<(),
                BoardError,
            >::Ok(()) && final(self).grid@ == old(self).grid@.update(
                old(self).model().key(x as int, y as int),
                kind,
            ),
            !old(self).model().in_grid(x as int, y as int) ==> r == Result::<(),
                BoardError,
            >::Err(BoardError::OutOfBounds) && *final(self) == *old(self),
    {
        if x < 0 || y < 0 || x >= self.width || y >= self.height {
            return Result::Err(BoardError::OutOfBounds);
        }
        proof {
            lemma_key_bounds(self.width as int, self.height as int, x as int, y as int);
        }
        let idx: usize = (y as usize) * (self.width as usize) + (x as usize);
        self.grid.set(idx, kind);
        Result::Ok(())
    }

    /// The move validity rule of the board, as executable code: false for a
    /// coordinate off the grid, an obstacle, or the start square; true for
    /// every other cell.
    pub fn is_traversable(&self, x: i32, y: i32) -> (r: bool)
        requires
            self.wf(),
        ensures
            r == self.model().traversable(x as int, y as int),
    {
        if x < 0 || y < 0 || x >= self.width || y >= self.height {
            return false;
        }
        proof {
            lemma_key_bounds(self.width as int, self.height as int, x as int, y as int);
        }
        let idx: usize = (y as usize) * (self.width as usize) + (x as usize);
        match self.grid[idx] {
            SquareKind::Obstacle => false,
            SquareKind::StartSquare => false,
            SquareKind::Init => true,
            SquareKind::SolutionPath => true,
            SquareKind::PossiblePath => true,
            SquareKind::EndSquare => true,
        }
    }

    /// Restores the initial state: every cell `Init`, then the given start
    /// and end coordinates stamped.  Discards all prior markings.  Fails
    /// with `InvalidConfiguration` exactly when the parameters are not a
    /// `valid_config`; the board is then unchanged.
    pub fn reset(&mut self, width: i32, height: i32, start: (i32, i32), end: (i32, i32)) -> (r:
        Result<(), BoardError>)
        ensures
            valid_config(
                width as int,
                height as int,
                start.0 as int,
                start.1 as int,
                end.0 as int,
                end.1 as int,
            ) ==> r == Result::<(), BoardError>::Ok(()) && freshly_reset(
                *final(self),
                width,
                height,
                start.0,
                start.1,
                end.0,
                end.1,
            ),
            !valid_config(
                width as int,
                height as int,
                start.0 as int,
                start.1 as int,
                end.0 as int,
                end.1 as int,
            ) ==> r == Result::<(), BoardError>::Err(BoardError::InvalidConfiguration)
                && *final(self) == *old(self),
    {
        match new_board(width, height, start, end) {
            Result::Ok(b) => {
                *self = b;
                Result::Ok(())
            },
            Result::Err(e) => Result::Err(e),
        }
    }
}

/// Builds a fresh board: all cells `Init` except the designated start and
/// end.  Fails with `InvalidConfiguration` exactly when the parameters are
/// not a `valid_config`.
pub fn new_board(width: i32, height: i32, start: (i32, i32), end: (i32, i32)) -> (r: Result<
    Board,
    BoardError,
>)
    ensures
        valid_config(
            width as int,
            height as int,
            start.0 as int,
            start.1 as int,
            end.0 as int,
            end.1 as int,
        ) ==> (r matches Result::Ok(b) && freshly_reset(
            b,
            width,
            height,
            start.0,
            start.1,
            end.0,
            end.1,
        )),
        !valid_config(
            width as int,
            height as int,
            start.0 as int,
            start.1 as int,
            end.0 as int,
            end.1 as int,
        ) ==> r == Result::<Board, BoardError>::Err(BoardError::InvalidConfiguration),
{
    if width < 1 || height < 1 {
        return Result::Err(BoardError::InvalidConfiguration);
    }
    let w64: i64 = width as i64;
    let h64: i64 = height as i64;
    proof {
        assert(w64 * h64 <= 0x4000_0000_0000_0000) by (nonlinear_arith)
            requires
                0 <= w64 <= 0x8000_0000,
                0 <= h64 <= 0x8000_0000,
        ;
    }
    if w64 * h64 > 0x7fff_ffff {
        return Result::Err(BoardError::InvalidConfiguration);
    }
    if start.0 < 0 || start.0 >= width || start.1 < 0 || start.1 >= height {
        return Result::Err(BoardError::InvalidConfiguration);
    }
    if end.0 < 0 || end.0 >= width || end.1 < 0 || end.1 >= height {
        return Result::Err(BoardError::InvalidConfiguration);
    }
    if start.0 == end.0 && start.1 == end.1 {
        return Result::Err(BoardError::InvalidConfiguration);
    }
    proof {
        lemma_key_bounds(width as int, height as int, start.0 as int, start.1 as int);
        lemma_key_bounds(width as int, height as int, end.0 as int, end.1 as int);
    }
    let n: usize = (width as usize) * (height as usize);
    let skey: usize = (start.1 as usize) * (width as usize) + (start.0 as usize);
    let ekey: usize = (end.1 as usize) * (width as usize) + (end.0 as usize);
    let ghost gs = grid_spec(
        width as int,
        height as int,
        start.0 as int,
        start.1 as int,
        end.0 as int,
        end.1 as int,
    );
    let mut grid: Vec<SquareKind> = Vec::new();
    let mut k: usize = 0;
    while k < n
        invariant
            k <= n,
            n == (width as int) * (height as int),
            skey == (start.1 as int) * (width as int) + (start.0 as int),
            ekey == (end.1 as int) * (width as int) + (end.0 as int),
            gs == grid_spec(
                width as int,
                height as int,
                start.0 as int,
                start.1 as int,
                end.0 as int,
                end.1 as int,
            ),
            gs.len() == n,
            grid@.len() == k,
            forall|i: int| 0 <= i < k ==> grid@[i] == gs[i],
        decreases n - k,
    {
        let kind = if k == skey {
            SquareKind::StartSquare
        } else if k == ekey {
            SquareKind::EndSquare
        } else {
            SquareKind::Init
        };
        grid.push(kind);
        k = k + 1;
    }
    proof {
        assert(grid@ =~= gs);
    }
    Result::Ok(
        Board {
            width,
            height,
            start_x: start.0,
            start_y: start.1,
            end_x: end.0,
            end_y: end.1,
            grid,
            solved: false,
        },
    )
}

/// A freshly built board is well formed and its start and end cells are the
/// unique `StartSquare` and `EndSquare` of the grid.
pub proof fn lemma_fresh_board_ready(b: Board, w: i32, h: i32, sx: i32, sy: i32, ex: i32, ey: i32)
    requires
        valid_config(w as int, h as int, sx as int, sy as int, ex as int, ey as int),
        freshly_reset(b, w, h, sx, sy, ex, ey),
    ensures
        b.wf(),
        b.model().ready(),
        forall|x: int, y: int|
            b.model().in_grid(x, y) && (x, y) != b.model().start && (x, y) != b.model().end
                ==> #[trigger] b.model().cell(x, y) == SquareKind::Init,
{
    let m = b.model();
    lemma_key_bounds(m.width, m.height, m.start.0, m.start.1);
    lemma_key_bounds(m.width, m.height, m.end.0, m.end.1);
    if m.key(m.start.0, m.start.1) == m.key(m.end.0, m.end.1) {
        lemma_key_injective(m.width, m.start.0, m.start.1, m.end.0, m.end.1);
    }
    assert forall|x: int, y: int| m.in_grid(x, y) implies {
        &&& (#[trigger] m.cell(x, y) == SquareKind::StartSquare ==> (x, y) == m.start)
        &&& (m.cell(x, y) == SquareKind::EndSquare ==> (x, y) == m.end)
        &&& ((x, y) != m.start && (x, y) != m.end ==> m.cell(x, y) == SquareKind::Init)
    } by {
        lemma_key_bounds(m.width, m.height, x, y);
        if m.key(x, y) == m.key(m.start.0, m.start.1) {
            lemma_key_injective(m.width, x, y, m.start.0, m.start.1);
        }
        if m.key(x, y) == m.key(m.end.0, m.end.1) {
            lemma_key_injective(m.width, x, y, m.end.0, m.end.1);
        }
    }
}

} // verus!
