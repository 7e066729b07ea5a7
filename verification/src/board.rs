//! The authoritative minesweeper game state: a grid of cell types (bomb /
//! empty / adjacent count) paired with a grid of cell states (unopened /
//! flagged / opened), and the algorithms that mutate them.

use vstd::prelude::*;

use crate::coords::Vec2i;
use crate::grid::Grid;

verus! {

/// What a cell holds. Set at generation, changed only by bomb relocation or a
/// full regeneration, never by reveal or flag operations.
#[derive(Debug, Copy, Clone, Eq, PartialEq, Structural)]
pub enum CellType {
    Empty,
    Bomb,
    /// A non-bomb cell with `n` bombs among its eight neighbours, `1 <= n <= 8`.
    BombAdjacent(usize),
}

/// How much of a cell the player has revealed. Every cell starts `Unopened`;
/// `Opened` is terminal.
#[derive(Copy, Clone, Debug, Eq, PartialEq, Structural)]
pub enum CellState {
    Unopened,
    Flagged,
    Opened,
}

/// What a player action did to the cell it targeted.
#[derive(Copy, Clone, Debug, Eq, PartialEq, Structural)]
pub enum CellResponse {
    BombHit,
    FlagPlaced,
    FlagRemoved,
    OpenSpaceUncovered,
    UnsafeSpaceUncovered,
}

/// The mathematical value of a [`Board`]: both grids in row-major order and
/// the shared dimensions.
#[verifier::ext_equal]
pub struct BoardModel {
    pub types: Seq<CellType>,
    pub states: Seq<CellState>,
    pub width: int,
    pub height: int,
}

impl BoardModel {
    /// Both grids hold exactly one value per coordinate of the shared size.
    pub open spec fn wf(self) -> bool {
        &&& 0 <= self.width <= i32::MAX
        &&& 0 <= self.height <= i32::MAX
        &&& self.width * self.height <= usize::MAX
        &&& self.types.len() == self.width * self.height
        &&& self.states.len() == self.width * self.height
    }

    pub open spec fn in_bounds(self, x: int, y: int) -> bool {
        0 <= x < self.width && 0 <= y < self.height
    }

    pub open spec fn idx(self, x: int, y: int) -> int {
        y * self.width + x
    }

    pub open spec fn type_at(self, x: int, y: int) -> CellType {
        self.types[self.idx(x, y)]
    }

    pub open spec fn state_at(self, x: int, y: int) -> CellState {
        self.states[self.idx(x, y)]
    }

    /// This model with one cell type replaced.
    pub open spec fn with_type_at(self, x: int, y: int, t: CellType) -> BoardModel {
        BoardModel { types: self.types.update(self.idx(x, y), t), ..self }
    }

    /// This model with one cell state replaced.
    pub open spec fn with_state_at(self, x: int, y: int, s: CellState) -> BoardModel {
        BoardModel { states: self.states.update(self.idx(x, y), s), ..self }
    }
}

/// How many of the first `n` values of `s` satisfy `p`.
pub open spec fn count_matching<T>(s: Seq<T>, p: spec_fn(T) -> bool, n: int) -> int
    decreases n,
{
    if n <= 0 {
        0
    } else {
        count_matching(s, p, n - 1) + (if p(s[n - 1]) {
            1int
        } else {
            0int
        })
    }
}

pub proof fn lemma_count_matching_bounds<T>(s: Seq<T>, p: spec_fn(T) -> bool, n: int)
    ensures
        0 <= count_matching(s, p, n) <= (if n <= 0 {
            0int
        } else {
            n
        }),
    decreases n,
{
    if n > 0 {
        lemma_count_matching_bounds(s, p, n - 1);
    }
}

/// A count over a range holding at least one satisfying value is positive.
proof fn lemma_count_matching_positive<T>(s: Seq<T>, p: spec_fn(T) -> bool, n: int, i: int)
    requires
        0 <= i < n,
        p(s[i]),
    ensures
        count_matching(s, p, n) >= 1,
    decreases n,
{
    if i == n - 1 {
        lemma_count_matching_bounds(s, p, n - 1);
    } else {
        lemma_count_matching_positive(s, p, n - 1, i);
    }
}

/// A count over cells none of which satisfies the predicate is zero.
proof fn lemma_count_all_false<T>(s: Seq<T>, p: spec_fn(T) -> bool, n: int)
    requires
        forall|i: int| 0 <= i < n ==> !p(s[i]),
    ensures
        count_matching(s, p, n) <= 0,
    decreases n,
{
    if n > 0 {
        lemma_count_all_false(s, p, n - 1);
    }
}

/// A value either satisfies `p` or it does not, so the two counts partition `n`.
pub proof fn lemma_count_matching_complement<T>(
    s: Seq<T>,
    p: spec_fn(T) -> bool,
    q: spec_fn(T) -> bool,
    n: int,
)
    requires
        forall|t: T| #[trigger] q(t) <==> !p(t),
        0 <= n,
    ensures
        count_matching(s, p, n) + count_matching(s, q, n) == n,
    decreases n,
{
    if n > 0 {
        lemma_count_matching_complement(s, p, q, n - 1);
    }
}

/// Replacing the value at `i` moves the count by the difference of the two
/// indicator values, and only when `i` lies below `n`.
pub proof fn lemma_count_matching_update<T>(
    s: Seq<T>,
    p: spec_fn(T) -> bool,
    n: int,
    i: int,
    v: T,
)
    requires
        0 <= i < s.len(),
        n <= s.len(),
    ensures
        count_matching(s.update(i, v), p, n) == count_matching(s, p, n) + (if i < n {
            (if p(v) {
                1int
            } else {
                0int
            }) - (if p(s[i]) {
                1int
            } else {
                0int
            })
        } else {
            0int
        }),
    decreases n,
{
    if n > 0 {
        lemma_count_matching_update(s, p, n - 1, i, v);
    }
}

/// The predicate the bomb count counts.
pub open spec fn bomb_pred() -> spec_fn(CellType) -> bool {
    |c: CellType| c is Bomb
}

/// The complement of [`bomb_pred`].
pub open spec fn non_bomb_pred() -> spec_fn(CellType) -> bool {
    |c: CellType| !(c is Bomb)
}

/// The number of bomb cells of the model.
pub open spec fn bomb_count(m: BoardModel) -> int {
    count_matching(m.types, bomb_pred(), m.types.len() as int)
}

/// The number of non-bomb cells of the model.
pub open spec fn non_bomb_count(m: BoardModel) -> int {
    count_matching(m.types, non_bomb_pred(), m.types.len() as int)
}

/// Every cell is a bomb or it is not: the two counts always cover the whole
/// board, `width * height` cells.
pub proof fn lemma_cell_partition(m: BoardModel)
    requires
        m.wf(),
    ensures
        bomb_count(m) + non_bomb_count(m) == m.width * m.height,
{
    assert(0 <= m.width * m.height) by (nonlinear_arith)
        requires
            0 <= m.width,
            0 <= m.height,
    ;
    lemma_count_matching_complement(m.types, bomb_pred(), non_bomb_pred(), m.types.len() as int);
}

/// The game state: one cell type and one cell state per coordinate. The two
/// grids always share one size; every algorithm reads them together by
/// position.
#[derive(Debug)]
pub struct Board {
    pub types: Grid<CellType>,
    pub states: Grid<CellState>,
}

impl View for Board {
    type V = BoardModel;

    open spec fn view(&self) -> BoardModel {
        BoardModel {
            types: self.types@.cells,
            states: self.states@.cells,
            width: self.types@.width,
            height: self.types@.height,
        }
    }
}

impl Board {
    /// The two grids are well formed and share one size.
    pub open spec fn wf(self) -> bool {
        &&& self.types@.wf()
        &&& self.states@.wf()
        &&& self.states@.width == self.types@.width
        &&& self.states@.height == self.types@.height
    }

    /// A board of the given size with no bombs and nothing revealed.
    pub fn empty(size: Vec2i) -> (r: Board)
        requires
            0 <= size.x,
            0 <= size.y,
            size.x * size.y <= usize::MAX,
        ensures
            r.wf(),
            r@.wf(),
            r@.width == size.x,
            r@.height == size.y,
            forall|i: int| 0 <= i < r@.types.len() ==> r@.types[i] == CellType::Empty,
            forall|i: int| 0 <= i < r@.states.len() ==> r@.states[i] == CellState::Unopened,
    {
        Board {
            types: Grid::new(size, CellType::Empty),
            states: Grid::new(size, CellState::Unopened),
        }
    }

    pub fn size(&self) -> (r: Vec2i)
        ensures
            r.x == self@.width,
            r.y == self@.height,
    {
        self.types.size()
    }

    /// The type of the cell at `pos`, or `None` out of bounds.
    pub fn cell_type(&self, pos: Vec2i) -> (r: Option<CellType>)
        requires
            self.wf(),
        ensures
            match r {
                Some(t) => self@.in_bounds(pos.x as int, pos.y as int) && t == self@.type_at(
                    pos.x as int,
                    pos.y as int,
                ),
                None => !self@.in_bounds(pos.x as int, pos.y as int),
            },
    {
        match self.types.get(pos) {
            Some(t) => Some(*t),
            None => None,
        }
    }

    /// The state of the cell at `pos`, or `None` out of bounds.
    pub fn cell_state(&self, pos: Vec2i) -> (r: Option<CellState>)
        requires
            self.wf(),
        ensures
            match r {
                Some(s) => self@.in_bounds(pos.x as int, pos.y as int) && s == self@.state_at(
                    pos.x as int,
                    pos.y as int,
                ),
                None => !self@.in_bounds(pos.x as int, pos.y as int),
            },
    {
        match self.states.get(pos) {
            Some(s) => Some(*s),
            None => None,
        }
    }
}

/// Whether `(x, y)` is an in-bounds bomb cell of a type grid with the given
/// contents and dimensions. Out-of-bounds coordinates hold no bomb.
pub open spec fn bomb_at(types: Seq<CellType>, width: int, height: int, x: int, y: int) -> bool {
    &&& 0 <= x < width
    &&& 0 <= y < height
    &&& types[y * width + x] is Bomb
}

pub open spec fn b2i(b: bool) -> int {
    if b {
        1
    } else {
        0
    }
}

/// How many of the eight neighbours of `(x, y)` are bomb cells, in the fixed
/// order up-left, up, up-right, left, right, down-left, down, down-right.
pub open spec fn adjacent_bombs(
    types: Seq<CellType>,
    width: int,
    height: int,
    x: int,
    y: int,
) -> int {
    b2i(bomb_at(types, width, height, x - 1, y - 1)) + b2i(bomb_at(types, width, height, x, y - 1))
        + b2i(bomb_at(types, width, height, x + 1, y - 1)) + b2i(
        bomb_at(types, width, height, x - 1, y),
    ) + b2i(bomb_at(types, width, height, x + 1, y)) + b2i(
        bomb_at(types, width, height, x - 1, y + 1),
    ) + b2i(bomb_at(types, width, height, x, y + 1)) + b2i(
        bomb_at(types, width, height, x + 1, y + 1),
    )
}

/// What the adjacency rebuild writes into a non-bomb cell: `Empty` when no
/// neighbour holds a bomb, else the neighbour bomb count.
pub open spec fn adjacency_class(
    types: Seq<CellType>,
    width: int,
    height: int,
    x: int,
    y: int,
) -> CellType {
    if adjacent_bombs(types, width, height, x, y) == 0 {
        CellType::Empty
    } else {
        CellType::BombAdjacent(adjacent_bombs(types, width, height, x, y) as usize)
    }
}

/// The model after a full adjacency rebuild: bomb cells are untouched, every
/// other cell is reclassified from its eight neighbours.
pub open spec fn rebuilt(m: BoardModel) -> BoardModel {
    BoardModel {
        types: Seq::new(
            m.types.len(),
            |i: int|
                if m.types[i] is Bomb {
                    m.types[i]
                } else {
                    adjacency_class(m.types, m.width, m.height, i % m.width, i / m.width)
                },
        ),
        ..m
    }
}

/// An in-bounds coordinate's row-major index lies inside the storage.
proof fn lemma_pos_index_range(width: int, height: int, x: int, y: int)
    requires
        0 <= x < width,
        0 <= y < height,
    ensures
        0 <= y * width + x < width * height,
{
    assert(0 <= y * width + x < width * height) by (nonlinear_arith)
        requires
            0 <= x < width,
            0 <= y < height,
    ;
}

/// Neighbour bomb counts agree between two type grids with the same
/// dimensions and the same bomb cells.
pub proof fn lemma_adjacent_bombs_congruent(
    t1: Seq<CellType>,
    t2: Seq<CellType>,
    width: int,
    height: int,
    x: int,
    y: int,
)
    requires
        forall|u: int, v: int| #[trigger]
            bomb_at(t1, width, height, u, v) == bomb_at(t2, width, height, u, v),
    ensures
        adjacent_bombs(t1, width, height, x, y) == adjacent_bombs(t2, width, height, x, y),
        adjacency_class(t1, width, height, x, y) == adjacency_class(t2, width, height, x, y),
{
}

/// A rebuild changes no bomb cell and leaves no bomb anywhere else.
pub proof fn lemma_rebuilt_bombs(m: BoardModel, u: int, v: int)
    requires
        m.wf(),
    ensures
        bomb_at(rebuilt(m).types, m.width, m.height, u, v) == bomb_at(
            m.types,
            m.width,
            m.height,
            u,
            v,
        ),
{
    if m.in_bounds(u, v) {
        lemma_pos_index_range(m.width, m.height, u, v);
    }
}

/// After a rebuild, every non-bomb cell holds exactly the classification of
/// its eight neighbours *in the rebuilt grid*: `Empty` when none of them is a
/// bomb, else their bomb count.
pub proof fn lemma_rebuilt_classifies(m: BoardModel, x: int, y: int)
    requires
        m.wf(),
        m.in_bounds(x, y),
        !(rebuilt(m).type_at(x, y) is Bomb),
    ensures
        rebuilt(m).type_at(x, y) == adjacency_class(rebuilt(m).types, m.width, m.height, x, y),
{
    lemma_pos_index_range(m.width, m.height, x, y);
    crate::coords::lemma_row_major_index(m.width, x, y);
    assert forall|u: int, v: int| #[trigger]
        bomb_at(rebuilt(m).types, m.width, m.height, u, v) == bomb_at(
            m.types,
            m.width,
            m.height,
            u,
            v,
        ) by {
        lemma_rebuilt_bombs(m, u, v);
    }
    lemma_adjacent_bombs_congruent(m.types, rebuilt(m).types, m.width, m.height, x, y);
}

impl BoardModel {
    /// The win condition: a cell is flagged exactly when it holds a bomb.
    pub open spec fn all_bombs_flagged(self) -> bool {
        forall|x: int, y: int|
            self.in_bounds(x, y) ==> ((#[trigger] self.state_at(x, y)) is Flagged <==> self.type_at(
                x,
                y,
            ) is Bomb)
    }

    /// The model after the terminal reveal: every cell not flagged is opened.
    pub open spec fn uncovered(self) -> BoardModel {
        BoardModel {
            states: Seq::new(
                self.states.len(),
                |i: int|
                    if self.states[i] is Flagged {
                        self.states[i]
                    } else {
                        CellState::Opened
                    },
            ),
            ..self
        }
    }
}

/// The coordinates of the flagged cells.
pub open spec fn flagged_set(m: BoardModel) -> Set<(int, int)> {
    Set::new(|p: (int, int)| m.in_bounds(p.0, p.1) && m.state_at(p.0, p.1) is Flagged)
}

/// The coordinates of the bomb cells.
pub open spec fn bomb_set(m: BoardModel) -> Set<(int, int)> {
    Set::new(|p: (int, int)| m.in_bounds(p.0, p.1) && m.type_at(p.0, p.1) is Bomb)
}

/// The win condition holds exactly when the set of flagged coordinates equals
/// the set of bomb coordinates. On a board without bombs it holds exactly
/// when nothing is flagged.
pub proof fn lemma_win_condition(m: BoardModel)
    requires
        m.wf(),
    ensures
        m.all_bombs_flagged() <==> flagged_set(m) == bomb_set(m),
{
    if m.all_bombs_flagged() {
        assert(flagged_set(m) =~= bomb_set(m)) by {
            assert forall|p: (int, int)|
                flagged_set(m).contains(p) == bomb_set(m).contains(p) by {
                if m.in_bounds(p.0, p.1) {
                    assert(m.state_at(p.0, p.1) is Flagged <==> m.type_at(p.0, p.1) is Bomb);
                }
            }
        }
    }
    if flagged_set(m) == bomb_set(m) {
        assert forall|x: int, y: int| m.in_bounds(x, y) implies ((#[trigger] m.state_at(x, y))
            is Flagged <==> m.type_at(x, y) is Bomb) by {
            assert(flagged_set(m).contains((x, y)) == bomb_set(m).contains((x, y)));
        }
    }
}

/// An index below `width * height` names the in-bounds coordinate
/// `(j % width, j / width)`.
proof fn lemma_index_pos(width: int, height: int, j: int)
    requires
        0 <= width,
        0 <= height,
        0 <= j < width * height,
    ensures
        0 <= j % width < width,
        0 <= j / width < height,
        (j / width) * width + (j % width) == j,
{
    assert(0 < width) by (nonlinear_arith)
        requires
            0 <= width,
            0 <= height,
            0 <= j < width * height,
    ;
    vstd::arithmetic::div_mod::lemma_fundamental_div_mod(j, width);
    vstd::arithmetic::div_mod::lemma_mod_pos_bound(j, width);
    let q: int = j / width;
    let r: int = j % width;
    assert(0 <= q < height && q * width == width * q) by (nonlinear_arith)
        requires
            j == width * q + r,
            0 <= r < width,
            0 <= j < width * height,
            0 < width,
    ;
}

impl Board {
    /// True exactly when every flagged cell is a bomb and every bomb cell is
    /// flagged. Re-evaluated by the caller after each flag placement.
    pub fn are_all_bombs_flagged(&self) -> (r: bool)
        requires
            self.wf(),
        ensures
            r == self@.all_bombs_flagged(),
    {
        let ghost m = self@;
        let types = self.types.iter();
        let states = self.states.iter();
        let n = types.len();
        let mut k: usize = 0;
        while k < n
            invariant
                m == self@,
                m.wf(),
                types@ == m.types,
                states@ == m.states,
                n == m.types.len(),
                0 <= k <= n,
                forall|j: int|
                    0 <= j < k ==> ((#[trigger] m.states[j]) is Flagged <==> m.types[j] is Bomb),
            decreases n - k,
        {
            let flagged = states[k] == CellState::Flagged;
            let bomb = types[k] == CellType::Bomb;
            if flagged != bomb {
                proof {
                    lemma_index_pos(m.width, m.height, k as int);
                    let x: int = (k as int) % m.width;
                    let y: int = (k as int) / m.width;
                    assert(m.in_bounds(x, y));
                    assert(m.state_at(x, y) == m.states[k as int]);
                    assert(m.type_at(x, y) == m.types[k as int]);
                    assert(!(m.state_at(x, y) is Flagged <==> m.type_at(x, y) is Bomb));
                    assert(!m.all_bombs_flagged());
                }
                return false;
            }
            k = k + 1;
        }
        proof {
            assert forall|x: int, y: int| m.in_bounds(x, y) implies ((#[trigger] m.state_at(x, y))
                is Flagged <==> m.type_at(x, y) is Bomb) by {
                lemma_pos_index_range(m.width, m.height, x, y);
            }
        }
        true
    }

    /// The terminal reveal at a win or a loss: opens every cell that is not
    /// flagged; flagged cells stay flagged.
    pub fn uncover_all(&mut self)
        requires
            old(self).wf(),
        ensures
            final(self).wf(),
            final(self)@ == old(self)@.uncovered(),
    {
        let ghost m0 = self@;
        let size = self.size();
        let mut y: i32 = 0;
        while y < size.y
            invariant
                self.wf(),
                m0.wf(),
                self@.width == m0.width,
                self@.height == m0.height,
                self@.types == m0.types,
                size.x == m0.width,
                size.y == m0.height,
                0 <= y <= size.y,
                forall|i: int|
                    0 <= i < y * m0.width ==> self@.states[i] == m0.uncovered().states[i],
                forall|i: int|
                    y * m0.width <= i < m0.states.len() ==> self@.states[i] == m0.states[i],
            decreases size.y - y,
        {
            let mut x: i32 = 0;
            proof {
                assert(y * m0.width <= (y + 1) * m0.width <= m0.width * m0.height)
                    by (nonlinear_arith)
                    requires
                        0 <= y < m0.height,
                        0 <= m0.width,
                ;
            }
            while x < size.x
                invariant
                    self.wf(),
                    m0.wf(),
                    self@.width == m0.width,
                    self@.height == m0.height,
                    self@.types == m0.types,
                    size.x == m0.width,
                    size.y == m0.height,
                    0 <= x <= size.x,
                    0 <= y < size.y,
                    (y + 1) * m0.width <= m0.states.len(),
                    forall|i: int|
                        0 <= i < y * m0.width + x ==> self@.states[i] == m0.uncovered().states[i],
                    forall|i: int|
                        y * m0.width + x <= i < m0.states.len() ==> self@.states[i] == m0.states[i],
                decreases size.x - x,
            {
                let pos = Vec2i { x, y };
                let ghost i = (y as int) * m0.width + (x as int);
                proof {
                    lemma_pos_index_range(m0.width, m0.height, x as int, y as int);
                    assert(i < (y + 1) * m0.width) by (nonlinear_arith)
                        requires
                            0 <= x < m0.width,
                            i == y * m0.width + x,
                    ;
                }
                let st = *self.states.get(pos).unwrap();
                if !(st == CellState::Flagged) {
                    self.states.set(pos, CellState::Opened);
                }
                x = x + 1;
            }
            y = y + 1;
            proof {
                assert(y * m0.width == (y - 1) * m0.width + m0.width) by (nonlinear_arith);
            }
        }
        proof {
            assert(m0.height * m0.width == m0.width * m0.height) by (nonlinear_arith);
            assert(self@.states =~= m0.uncovered().states);
            assert(self@ =~= m0.uncovered());
        }
    }

    /// Toggles the flag on an unopened or flagged cell. No effect — and no
    /// result — on an out-of-bounds coordinate or an opened cell.
    pub fn toggle_flag(&mut self, pos: Vec2i) -> (r: Option<CellResponse>)
        requires
            old(self).wf(),
        ensures
            final(self).wf(),
            match r {
                None => final(self)@ == old(self)@ && (!old(self)@.in_bounds(
                    pos.x as int,
                    pos.y as int,
                ) || old(self)@.state_at(pos.x as int, pos.y as int) is Opened),
                Some(CellResponse::FlagPlaced) => old(self)@.in_bounds(pos.x as int, pos.y as int)
                    && old(self)@.state_at(pos.x as int, pos.y as int) is Unopened && final(self)@
                    == old(self)@.with_state_at(pos.x as int, pos.y as int, CellState::Flagged),
                Some(CellResponse::FlagRemoved) => old(self)@.in_bounds(pos.x as int, pos.y as int)
                    && old(self)@.state_at(pos.x as int, pos.y as int) is Flagged && final(self)@
                    == old(self)@.with_state_at(pos.x as int, pos.y as int, CellState::Unopened),
                Some(_) => false,
            },
    {
        let st = match self.states.get(pos) {
            Some(s) => Some(*s),
            None => None,
        };
        match st {
            None => None,
            Some(CellState::Opened) => None,
            Some(CellState::Unopened) => {
                self.states.set(pos, CellState::Flagged);
                Some(CellResponse::FlagPlaced)
            },
            Some(CellState::Flagged) => {
                self.states.set(pos, CellState::Unopened);
                Some(CellResponse::FlagRemoved)
            },
        }
    }
}

/// Orthogonal (4-direction) adjacency of two coordinates.
pub open spec fn ortho_adjacent(qx: int, qy: int, px: int, py: int) -> bool {
    ||| qx == px && (qy == py + 1 || qy + 1 == py)
    ||| qy == py && (qx == px + 1 || qx + 1 == px)
}

/// A path the flood fill propagates along: it starts at the seed, and each
/// later step is an in-bounds, empty, unopened orthogonal neighbour of the
/// step before it.
pub open spec fn is_flood_path(m: BoardModel, sx: int, sy: int, path: Seq<(int, int)>) -> bool {
    &&& path.len() >= 1
    &&& path[0] == (sx, sy)
    &&& forall|i: int|
        1 <= i < path.len() ==> {
            &&& ortho_adjacent(path[i - 1].0, path[i - 1].1, (#[trigger] path[i]).0, path[i].1)
            &&& m.in_bounds(path[i].0, path[i].1)
            &&& m.type_at(path[i].0, path[i].1) is Empty
            &&& m.state_at(path[i].0, path[i].1) is Unopened
        }
}

/// The cells the flood fill pops from its work list and expands: the seed,
/// and — when the seed itself is empty — every cell a flood path reaches.
pub open spec fn flood_reach(m: BoardModel, sx: int, sy: int, qx: int, qy: int) -> bool {
    ||| (qx, qy) == (sx, sy)
    ||| (m.type_at(sx, sy) is Empty && exists|path: Seq<(int, int)>|
        #[trigger] is_flood_path(m, sx, sy, path) && path.last() == (qx, qy))
}

/// The cells a flood fill from the seed opens: every unopened non-bomb cell
/// orthogonally adjacent to an expanded cell.
pub open spec fn flood_opens(m: BoardModel, sx: int, sy: int, px: int, py: int) -> bool {
    &&& m.in_bounds(px, py)
    &&& m.state_at(px, py) is Unopened
    &&& !(m.type_at(px, py) is Bomb)
    &&& exists|qx: int, qy: int|
        #[trigger] flood_reach(m, sx, sy, qx, qy) && ortho_adjacent(qx, qy, px, py)
}

/// The model after a flood fill from the seed: the cells it opens are opened,
/// everything else — all cell types, and the states of flagged, already
/// opened and unreached cells — is unchanged.
pub open spec fn flood_result(m: BoardModel, sx: int, sy: int) -> BoardModel {
    BoardModel {
        states: Seq::new(
            m.states.len(),
            |i: int|
                if flood_opens(m, sx, sy, i % m.width, i / m.width) {
                    CellState::Opened
                } else {
                    m.states[i]
                },
        ),
        ..m
    }
}

/// Reads `flood_result` one cell at a time.
pub proof fn lemma_flood_result_at(m: BoardModel, sx: int, sy: int, px: int, py: int)
    requires
        m.wf(),
        m.in_bounds(px, py),
    ensures
        flood_result(m, sx, sy).state_at(px, py) == (if flood_opens(m, sx, sy, px, py) {
            CellState::Opened
        } else {
            m.state_at(px, py)
        }),
{
    lemma_pos_index_range(m.width, m.height, px, py);
    crate::coords::lemma_row_major_index(m.width, px, py);
}

/// What the flood fill never touches: cell types are unchanged, and a cell
/// that is flagged, already opened, or a bomb keeps its state.
pub proof fn lemma_flood_preserves(m: BoardModel, sx: int, sy: int, px: int, py: int)
    requires
        m.wf(),
        m.in_bounds(px, py),
    ensures
        flood_result(m, sx, sy).types == m.types,
        flood_result(m, sx, sy).width == m.width,
        flood_result(m, sx, sy).height == m.height,
        !(m.state_at(px, py) is Unopened) ==> flood_result(m, sx, sy).state_at(px, py)
            == m.state_at(px, py),
        m.type_at(px, py) is Bomb ==> flood_result(m, sx, sy).state_at(px, py) == m.state_at(
            px,
            py,
        ),
{
    lemma_flood_result_at(m, sx, sy, px, py);
}

/// The flood fill is complete over its region: every cell it can expand to,
/// other than the seed itself, ends up opened.
pub proof fn lemma_flood_opens_reached(m: BoardModel, sx: int, sy: int, px: int, py: int)
    requires
        m.wf(),
        flood_reach(m, sx, sy, px, py),
        (px, py) != (sx, sy),
    ensures
        flood_opens(m, sx, sy, px, py),
        m.in_bounds(px, py) && flood_result(m, sx, sy).state_at(px, py) is Opened,
{
    let path = choose|path: Seq<(int, int)>|
        #[trigger] is_flood_path(m, sx, sy, path) && path.last() == (px, py);
    let n = path.len() - 1;
    assert(n >= 1);
    assert(m.in_bounds(px, py) && m.type_at(px, py) is Empty && m.state_at(px, py) is Unopened);
    let (qx, qy) = path[n - 1];
    assert(ortho_adjacent(qx, qy, px, py));
    if n == 1 {
        assert(flood_reach(m, sx, sy, qx, qy));
    } else {
        let pre = path.drop_last();
        assert(is_flood_path(m, sx, sy, pre)) by {
            assert(pre[0] == path[0]);
            assert forall|i: int| 1 <= i < pre.len() implies {
                &&& ortho_adjacent(pre[i - 1].0, pre[i - 1].1, (#[trigger] pre[i]).0, pre[i].1)
                &&& m.in_bounds(pre[i].0, pre[i].1)
                &&& m.type_at(pre[i].0, pre[i].1) is Empty
                &&& m.state_at(pre[i].0, pre[i].1) is Unopened
            } by {
                assert(pre[i] == path[i]);
                assert(pre[i - 1] == path[i - 1]);
            }
        }
        assert(pre.last() == (qx, qy));
        assert(flood_reach(m, sx, sy, qx, qy));
    }
    assert(flood_opens(m, sx, sy, px, py));
    lemma_flood_result_at(m, sx, sy, px, py);
}

/// Extends a flood path by one empty unopened neighbour.
proof fn lemma_flood_reach_step(
    m: BoardModel,
    sx: int,
    sy: int,
    qx: int,
    qy: int,
    px: int,
    py: int,
)
    requires
        flood_reach(m, sx, sy, qx, qy),
        ortho_adjacent(qx, qy, px, py),
        m.in_bounds(px, py),
        m.type_at(px, py) is Empty,
        m.state_at(px, py) is Unopened,
        m.type_at(sx, sy) is Empty,
    ensures
        flood_reach(m, sx, sy, px, py),
{
    if (qx, qy) == (sx, sy) {
        let path = seq![(sx, sy), (px, py)];
        assert(is_flood_path(m, sx, sy, path));
        assert(path.last() == (px, py));
    } else {
        let path = choose|path: Seq<(int, int)>|
            #[trigger] is_flood_path(m, sx, sy, path) && path.last() == (qx, qy);
        let longer = path.push((px, py));
        assert(is_flood_path(m, sx, sy, longer)) by {
            assert(longer[0] == path[0]);
            assert forall|i: int| 1 <= i < longer.len() implies {
                &&& ortho_adjacent(
                    longer[i - 1].0,
                    longer[i - 1].1,
                    (#[trigger] longer[i]).0,
                    longer[i].1,
                )
                &&& m.in_bounds(longer[i].0, longer[i].1)
                &&& m.type_at(longer[i].0, longer[i].1) is Empty
                &&& m.state_at(longer[i].0, longer[i].1) is Unopened
            } by {
                if i < path.len() {
                    assert(longer[i] == path[i]);
                    assert(longer[i - 1] == path[i - 1]);
                } else {
                    assert(longer[i] == (px, py));
                    assert(longer[i - 1] == path[path.len() - 1]);
                }
            }
        }
        assert(longer.last() == (px, py));
    }
}

/// A set that contains the seed and is closed under stepping to empty
/// unopened neighbours contains the last cell of every flood path.
proof fn lemma_flood_path_in_closed_set(
    m: BoardModel,
    sx: int,
    sy: int,
    s: Set<(int, int)>,
    path: Seq<(int, int)>,
)
    requires
        s.contains((sx, sy)),
        forall|qx: int, qy: int, px: int, py: int|
            #![trigger s.contains((qx, qy)), ortho_adjacent(qx, qy, px, py)]
            s.contains((qx, qy)) && ortho_adjacent(qx, qy, px, py) && m.in_bounds(px, py)
                && m.type_at(px, py) is Empty && m.state_at(px, py) is Unopened ==> s.contains(
                (px, py),
            ),
        is_flood_path(m, sx, sy, path),
    ensures
        s.contains(path.last()),
    decreases path.len(),
{
    if path.len() == 1 {
        assert(path.last() == (sx, sy));
    } else {
        let pre = path.drop_last();
        assert(is_flood_path(m, sx, sy, pre)) by {
            assert(pre[0] == path[0]);
            assert forall|i: int| 1 <= i < pre.len() implies {
                &&& ortho_adjacent(pre[i - 1].0, pre[i - 1].1, (#[trigger] pre[i]).0, pre[i].1)
                &&& m.in_bounds(pre[i].0, pre[i].1)
                &&& m.type_at(pre[i].0, pre[i].1) is Empty
                &&& m.state_at(pre[i].0, pre[i].1) is Unopened
            } by {
                assert(pre[i] == path[i]);
                assert(pre[i - 1] == path[i - 1]);
            }
        }
        lemma_flood_path_in_closed_set(m, sx, sy, s, pre);
        let n = path.len() - 1;
        assert(pre.last() == path[n - 1]);
        assert(ortho_adjacent(path[n - 1].0, path[n - 1].1, path[n].0, path[n].1));
        assert(s.contains((path[n].0, path[n].1)));
    }
}

/// A set that contains the seed and is closed under stepping to empty
/// unopened neighbours contains every cell the flood fill expands.
proof fn lemma_flood_reach_in_closed_set(
    m: BoardModel,
    sx: int,
    sy: int,
    s: Set<(int, int)>,
    qx: int,
    qy: int,
)
    requires
        s.contains((sx, sy)),
        forall|ax: int, ay: int, px: int, py: int|
            #![trigger s.contains((ax, ay)), ortho_adjacent(ax, ay, px, py)]
            s.contains((ax, ay)) && ortho_adjacent(ax, ay, px, py) && m.in_bounds(px, py)
                && m.type_at(px, py) is Empty && m.state_at(px, py) is Unopened ==> s.contains(
                (px, py),
            ),
        flood_reach(m, sx, sy, qx, qy),
    ensures
        s.contains((qx, qy)),
{
    if (qx, qy) != (sx, sy) {
        let path = choose|path: Seq<(int, int)>|
            #[trigger] is_flood_path(m, sx, sy, path) && path.last() == (qx, qy);
        lemma_flood_path_in_closed_set(m, sx, sy, s, path);
    }
}

/// Flood filling is idempotent: a second flood fill from the same seed, on
/// the board the first one produced, opens nothing and changes no state.
pub proof fn lemma_flood_idempotent(m: BoardModel, sx: int, sy: int)
    requires
        m.wf(),
        m.in_bounds(sx, sy),
    ensures
        flood_result(flood_result(m, sx, sy), sx, sy) == flood_result(m, sx, sy),
{
    let m1 = flood_result(m, sx, sy);
    assert(m1.wf());
    assert forall|px: int, py: int| m1.in_bounds(px, py) implies !flood_opens(
        m1,
        sx,
        sy,
        px,
        py,
    ) by {
        if flood_opens(m1, sx, sy, px, py) {
            lemma_flood_result_at(m, sx, sy, px, py);
            assert(m1.state_at(px, py) is Unopened);
            assert(!flood_opens(m, sx, sy, px, py));
            assert(m.state_at(px, py) is Unopened);
            let (qx, qy) = choose|qx: int, qy: int|
                #[trigger] flood_reach(m1, sx, sy, qx, qy) && ortho_adjacent(qx, qy, px, py);
            assert(flood_reach(m, sx, sy, qx, qy)) by {
                if (qx, qy) != (sx, sy) {
                    let path = choose|path: Seq<(int, int)>|
                        #[trigger] is_flood_path(m1, sx, sy, path) && path.last() == (qx, qy);
                    assert(is_flood_path(m, sx, sy, path)) by {
                        assert forall|i: int| 1 <= i < path.len() implies {
                            &&& ortho_adjacent(
                                path[i - 1].0,
                                path[i - 1].1,
                                (#[trigger] path[i]).0,
                                path[i].1,
                            )
                            &&& m.in_bounds(path[i].0, path[i].1)
                            &&& m.type_at(path[i].0, path[i].1) is Empty
                            &&& m.state_at(path[i].0, path[i].1) is Unopened
                        } by {
                            lemma_flood_result_at(m, sx, sy, path[i].0, path[i].1);
                        }
                    }
                }
            }
            assert(flood_opens(m, sx, sy, px, py));
        }
    }
    assert(flood_result(m1, sx, sy).states =~= m1.states) by {
        assert forall|i: int| 0 <= i < m1.states.len() implies flood_result(m1, sx, sy).states[i]
            == m1.states[i] by {
            lemma_index_pos(m1.width, m1.height, i);
            assert(m1.in_bounds(i % m1.width, i / m1.width));
        }
    }
    assert(flood_result(m1, sx, sy) =~= m1);
}

/// The predicate the flood fill's termination measure counts.
pub open spec fn unopened_pred() -> spec_fn(CellState) -> bool {
    |s: CellState| s is Unopened
}

/// The number of unopened cells. Every opening lowers it, which bounds the
/// flood fill's work.
pub open spec fn unopened_count(m: BoardModel) -> int {
    count_matching(m.states, unopened_pred(), m.states.len() as int)
}

/// Whether some element of the work list holds the coordinate `(px, py)`.
spec fn in_queue(q: Seq<Vec2i>, px: int, py: int) -> bool {
    exists|i: int| 0 <= i < q.len() && ((#[trigger] q[i]).x as int, q[i].y as int) == (px, py)
}

proof fn lemma_in_queue_pop(q: Seq<Vec2i>, px: int, py: int)
    requires
        q.len() > 0,
        in_queue(q, px, py),
    ensures
        in_queue(q.drop_last(), px, py) || ((q.last().x as int, q.last().y as int) == (px, py)),
{
    let i = choose|i: int|
        0 <= i < q.len() && ((#[trigger] q[i]).x as int, q[i].y as int) == (px, py);
    if i < q.len() - 1 {
        assert(q.drop_last()[i] == q[i]);
    }
}

proof fn lemma_in_queue_push(q: Seq<Vec2i>, v: Vec2i, px: int, py: int)
    requires
        in_queue(q, px, py) || ((v.x as int, v.y as int) == (px, py)),
    ensures
        in_queue(q.push(v), px, py),
{
    if in_queue(q, px, py) {
        let i = choose|i: int|
            0 <= i < q.len() && ((#[trigger] q[i]).x as int, q[i].y as int) == (px, py);
        assert(q.push(v)[i] == q[i]);
    } else {
        assert(q.push(v)[q.len() as int] == v);
    }
}

impl Board {
    /// Marks one unopened in-bounds cell opened, and nothing else.
    fn open_cell(&mut self, pos: Vec2i)
        requires
            old(self).wf(),
            old(self)@.in_bounds(pos.x as int, pos.y as int),
            old(self)@.state_at(pos.x as int, pos.y as int) is Unopened,
        ensures
            final(self).wf(),
            final(self)@ == old(self)@.with_state_at(pos.x as int, pos.y as int, CellState::Opened),
            final(self)@.types == old(self)@.types,
            final(self)@.width == old(self)@.width,
            final(self)@.height == old(self)@.height,
            forall|px: int, py: int|
                old(self)@.in_bounds(px, py) ==> #[trigger] final(self)@.state_at(px, py) == (if px
                    == pos.x as int && py == pos.y as int {
                    CellState::Opened
                } else {
                    old(self)@.state_at(px, py)
                }),
            unopened_count(final(self)@) == unopened_count(old(self)@) - 1,
    {
        let ghost m0 = self@;
        self.states.set(pos, CellState::Opened);
        proof {
            let x: int = pos.x as int;
            let y: int = pos.y as int;
            lemma_pos_index_range(m0.width, m0.height, x, y);
            lemma_count_matching_update(
                m0.states,
                unopened_pred(),
                m0.states.len() as int,
                y * m0.width + x,
                CellState::Opened,
            );
            assert forall|px: int, py: int| m0.in_bounds(px, py) implies #[trigger] self@.state_at(
                px,
                py,
            ) == (if px == x && py == y {
                CellState::Opened
            } else {
                m0.state_at(px, py)
            }) by {
                lemma_pos_index_range(m0.width, m0.height, px, py);
                if py * m0.width + px == y * m0.width + x {
                    crate::coords::lemma_row_major_index(m0.width, px, py);
                    crate::coords::lemma_row_major_index(m0.width, x, y);
                }
            }
        }
    }
}

/// Everything the flood fill keeps true between iterations, over the live
/// board `b`, the pre-flood model `m0`, the work list `q` and the ghost sets
/// of processed, opened and activated coordinates.
spec fn flood_inv(
    b: Board,
    m0: BoardModel,
    sx: int,
    sy: int,
    q: Seq<Vec2i>,
    processed: Set<(int, int)>,
    opened: Set<(int, int)>,
    activated: Set<(int, int)>,
    blank: bool,
) -> bool {
    &&& b.wf()
    &&& m0.wf()
    &&& m0.in_bounds(sx, sy)
    &&& b@.width == m0.width
    &&& b@.height == m0.height
    &&& b@.types == m0.types
    &&& blank == (m0.type_at(sx, sy) is Empty)
    &&& activated.contains((sx, sy))
    &&& (forall|i: int|
        0 <= i < q.len() ==> activated.contains(
            (((#[trigger] q[i]).x as int), (q[i].y as int)),
        ) && m0.in_bounds(q[i].x as int, q[i].y as int))
    &&& (forall|qx: int, qy: int| #[trigger]
        activated.contains((qx, qy)) ==> flood_reach(m0, sx, sy, qx, qy) && m0.in_bounds(qx, qy))
    &&& (forall|px: int, py: int|
        m0.in_bounds(px, py) ==> #[trigger] b@.state_at(px, py) == (if opened.contains((px, py)) {
            CellState::Opened
        } else {
            m0.state_at(px, py)
        }))
    &&& (forall|px: int, py: int| #[trigger]
        opened.contains((px, py)) ==> m0.in_bounds(px, py) && m0.state_at(px, py) is Unopened && !(
        m0.type_at(px, py) is Bomb) && (exists|qx: int, qy: int|
            #![trigger processed.contains((qx, qy)), ortho_adjacent(qx, qy, px, py)]
            processed.contains((qx, qy)) && ortho_adjacent(qx, qy, px, py)))
    &&& (forall|px: int, py: int|
        (#[trigger] opened.contains((px, py))) && blank && m0.type_at(px, py) is Empty
            ==> activated.contains((px, py)))
    &&& (forall|qx: int, qy: int| #[trigger]
        processed.contains((qx, qy)) ==> activated.contains((qx, qy)))
}

impl Board {
    /// One step of the flood fill: looks at the neighbour `np` of the cell
    /// being expanded, opens it when it is an unopened non-bomb cell, and
    /// queues it when the flood keeps propagating through it.
    fn flood_visit(
        &mut self,
        np: Vec2i,
        visit_queue: &mut Vec<Vec2i>,
        starting_from_blank: bool,
        Ghost(m0): Ghost<BoardModel>,
        Ghost(sx): Ghost<int>,
        Ghost(sy): Ghost<int>,
        Ghost(posx): Ghost<int>,
        Ghost(posy): Ghost<int>,
        Ghost(processed): Ghost<Set<(int, int)>>,
        Ghost(opened0): Ghost<Set<(int, int)>>,
        Ghost(activated0): Ghost<Set<(int, int)>>,
    ) -> (r: (Ghost<Set<(int, int)>>, Ghost<Set<(int, int)>>))
        requires
            flood_inv(
                *old(self),
                m0,
                sx,
                sy,
                old(visit_queue)@,
                processed,
                opened0,
                activated0,
                starting_from_blank,
            ),
            processed.contains((posx, posy)),
            ortho_adjacent(posx, posy, np.x as int, np.y as int),
        ensures
            flood_inv(
                *final(self),
                m0,
                sx,
                sy,
                final(visit_queue)@,
                processed,
                r.0@,
                r.1@,
                starting_from_blank,
            ),
            forall|p: (int, int)| opened0.contains(p) ==> r.0@.contains(p),
            forall|p: (int, int)| activated0.contains(p) ==> r.1@.contains(p),
            forall|p: (int, int)| #[trigger]
                r.1@.contains(p) ==> activated0.contains(p) || in_queue(
                    final(visit_queue)@,
                    p.0,
                    p.1,
                ),
            (m0.in_bounds(np.x as int, np.y as int) && !(m0.type_at(np.x as int, np.y as int)
                is Bomb) && m0.state_at(np.x as int, np.y as int) is Unopened) ==> r.0@.contains(
                (np.x as int, np.y as int),
            ),
            forall|qx: int, qy: int|
                in_queue(old(visit_queue)@, qx, qy) ==> in_queue(final(visit_queue)@, qx, qy),
            unopened_count(final(self)@) <= unopened_count(old(self)@),
            unopened_count(final(self)@) < unopened_count(old(self)@) || (*final(self) == *old(
                self,
            ) && final(visit_queue)@ == old(visit_queue)@ && r.0@ == opened0 && r.1@
                == activated0),
    {
        let ghost nx = np.x as int;
        let ghost ny = np.y as int;
        let ghost mut opened = opened0;
        let ghost mut activated = activated0;
        match self.types.get(np) {
            Some(c) => {
                let cell = *c;
                if !(cell == CellType::Bomb) {
                    let st = *self.states.get(np).unwrap();
                    if st == CellState::Unopened {
                        proof {
                            assert(m0.in_bounds(nx, ny));
                            assert(self@.state_at(nx, ny) == st);
                            assert(!opened.contains((nx, ny)));
                            assert(m0.state_at(nx, ny) is Unopened);
                        }
                        self.open_cell(np);
                        proof {
                            opened = opened.insert((nx, ny));
                            assert(processed.contains((posx, posy)) && ortho_adjacent(
                                posx,
                                posy,
                                nx,
                                ny,
                            ));
                        }
                        if starting_from_blank && cell == CellType::Empty {
                            proof {
                                assert(flood_reach(m0, sx, sy, posx, posy));
                                lemma_flood_reach_step(m0, sx, sy, posx, posy, nx, ny);
                            }
                            visit_queue.push(np);
                            proof {
                                activated = activated.insert((nx, ny));
                                lemma_in_queue_push(old(visit_queue)@, np, nx, ny);
                                assert(in_queue(visit_queue@, nx, ny));
                                assert forall|qx: int, qy: int|
                                    in_queue(old(visit_queue)@, qx, qy) implies in_queue(
                                    visit_queue@,
                                    qx,
                                    qy,
                                ) by {
                                    lemma_in_queue_push(old(visit_queue)@, np, qx, qy);
                                }
                            }
                        }
                        proof {
                            assert forall|px: int, py: int| m0.in_bounds(px, py) implies #[trigger]
                                self@.state_at(px, py) == (if opened.contains((px, py)) {
                                CellState::Opened
                            } else {
                                m0.state_at(px, py)
                            }) by {}
                        }
                    }
                }
            },
            None => {},
        }
        (Ghost(opened), Ghost(activated))
    }
}

impl Board {
    /// Reveals the region around `start`: opens every unopened non-bomb cell
    /// orthogonally adjacent to a cell the flood expands. When `start` is an
    /// empty cell the flood expands through every empty unopened cell it
    /// opens, so the whole connected empty region and its bordering
    /// adjacent-count cells are revealed; otherwise only the four direct
    /// neighbours of `start` are considered. Bomb cells and flagged cells
    /// are never opened, and cell types are untouched.
    #[verifier::rlimit(80)]
    pub fn flood_uncover_empty(&mut self, start: Vec2i)
        requires
            old(self).wf(),
            old(self)@.in_bounds(start.x as int, start.y as int),
        ensures
            final(self).wf(),
            final(self)@ == flood_result(old(self)@, start.x as int, start.y as int),
    {
        let ghost m0 = self@;
        let ghost sx = start.x as int;
        let ghost sy = start.y as int;
        let start_cell = *self.types.get(start).unwrap();
        let starting_from_blank = start_cell == CellType::Empty;
        let mut visit_queue: Vec<Vec2i> = Vec::new();
        visit_queue.push(start);
        let ghost mut processed: Set<(int, int)> = Set::empty();
        let ghost mut opened: Set<(int, int)> = Set::empty();
        let ghost mut activated: Set<(int, int)> = Set::empty().insert((sx, sy));
        proof {
            lemma_count_matching_bounds(self@.states, unopened_pred(), self@.states.len() as int);
            assert(visit_queue@[0] == start);
        }
        while visit_queue.len() > 0
            invariant
                flood_inv(
                    *self,
                    m0,
                    sx,
                    sy,
                    visit_queue@,
                    processed,
                    opened,
                    activated,
                    starting_from_blank,
                ),
                forall|qx: int, qy: int| #[trigger]
                    activated.contains((qx, qy)) ==> processed.contains((qx, qy)) || in_queue(
                        visit_queue@,
                        qx,
                        qy,
                    ),
                forall|qx: int, qy: int, px: int, py: int|
                    #![trigger processed.contains((qx, qy)), ortho_adjacent(qx, qy, px, py)]
                    processed.contains((qx, qy)) && ortho_adjacent(qx, qy, px, py) && m0.in_bounds(
                        px,
                        py,
                    ) && !(m0.type_at(px, py) is Bomb) && m0.state_at(px, py) is Unopened
                        ==> opened.contains((px, py)),
                0 <= unopened_count(self@),
            decreases unopened_count(self@), visit_queue@.len(),
        {
            let ghost q_entry = visit_queue@;
            let ghost count_entry = unopened_count(self@);
            let ghost opened_entry = opened;
            let ghost processed_entry = processed;
            let position = visit_queue.pop().unwrap();
            let ghost posx = position.x as int;
            let ghost posy = position.y as int;
            proof {
                assert(q_entry[q_entry.len() - 1] == position);
                assert(activated.contains((posx, posy)));
                assert(m0.in_bounds(posx, posy));
                processed = processed.insert((posx, posy));
                assert forall|qx: int, qy: int| #[trigger]
                    activated.contains((qx, qy)) implies processed.contains((qx, qy)) || in_queue(
                    visit_queue@,
                    qx,
                    qy,
                ) by {
                    if !processed.contains((qx, qy)) && in_queue(q_entry, qx, qy) {
                        lemma_in_queue_pop(q_entry, qx, qy);
                    }
                }
            }
            let n_up = Vec2i { x: position.x, y: position.y - 1 };
            let (Ghost(o1), Ghost(a1)) = self.flood_visit(
                n_up,
                &mut visit_queue,
                starting_from_blank,
                Ghost(m0),
                Ghost(sx),
                Ghost(sy),
                Ghost(posx),
                Ghost(posy),
                Ghost(processed),
                Ghost(opened),
                Ghost(activated),
            );
            proof {
                opened = o1;
                activated = a1;
            }
            let n_down = Vec2i { x: position.x, y: position.y + 1 };
            let (Ghost(o2), Ghost(a2)) = self.flood_visit(
                n_down,
                &mut visit_queue,
                starting_from_blank,
                Ghost(m0),
                Ghost(sx),
                Ghost(sy),
                Ghost(posx),
                Ghost(posy),
                Ghost(processed),
                Ghost(opened),
                Ghost(activated),
            );
            proof {
                opened = o2;
                activated = a2;
            }
            let n_left = Vec2i { x: position.x - 1, y: position.y };
            let (Ghost(o3), Ghost(a3)) = self.flood_visit(
                n_left,
                &mut visit_queue,
                starting_from_blank,
                Ghost(m0),
                Ghost(sx),
                Ghost(sy),
                Ghost(posx),
                Ghost(posy),
                Ghost(processed),
                Ghost(opened),
                Ghost(activated),
            );
            proof {
                opened = o3;
                activated = a3;
            }
            let n_right = Vec2i { x: position.x + 1, y: position.y };
            let (Ghost(o4), Ghost(a4)) = self.flood_visit(
                n_right,
                &mut visit_queue,
                starting_from_blank,
                Ghost(m0),
                Ghost(sx),
                Ghost(sy),
                Ghost(posx),
                Ghost(posy),
                Ghost(processed),
                Ghost(opened),
                Ghost(activated),
            );
            proof {
                opened = o4;
                activated = a4;
                assert forall|qx: int, qy: int, px: int, py: int|
                    #![trigger processed.contains((qx, qy)), ortho_adjacent(qx, qy, px, py)]
                    processed.contains((qx, qy)) && ortho_adjacent(qx, qy, px, py) && m0.in_bounds(
                        px,
                        py,
                    ) && !(m0.type_at(px, py) is Bomb) && m0.state_at(px, py)
                    is Unopened implies opened.contains((px, py)) by {
                    if (qx, qy) == (posx, posy) {
                        assert((px, py) == (posx, posy - 1) || (px, py) == (posx, posy + 1) || (
                        px,
                        py,
                        ) == (posx - 1, posy) || (px, py) == (posx + 1, posy));
                    } else {
                        assert(processed_entry.contains((qx, qy)));
                        assert(opened_entry.contains((px, py)));
                    }
                }
                assert forall|qx: int, qy: int| #[trigger]
                    activated.contains((qx, qy)) implies processed.contains((qx, qy)) || in_queue(
                    visit_queue@,
                    qx,
                    qy,
                ) by {
                    assert(a1.contains((qx, qy)) ==> a1.contains((qx, qy)));
                    assert(a2.contains((qx, qy)) ==> a2.contains((qx, qy)));
                    assert(a3.contains((qx, qy)) ==> a3.contains((qx, qy)));
                }
                lemma_count_matching_bounds(
                    self@.states,
                    unopened_pred(),
                    self@.states.len() as int,
                );
                assert(unopened_count(self@) < count_entry || (unopened_count(self@) == count_entry
                    && visit_queue@.len() < q_entry.len()));
            }
        }
        proof {
            assert forall|qx: int, qy: int| #[trigger]
                activated.contains((qx, qy)) implies processed.contains((qx, qy)) by {
                assert(!in_queue(visit_queue@, qx, qy));
            }
            let mf = flood_result(m0, sx, sy);
            assert forall|px: int, py: int| m0.in_bounds(px, py) implies self@.state_at(px, py)
                == mf.state_at(px, py) by {
                lemma_flood_result_at(m0, sx, sy, px, py);
                if opened.contains((px, py)) {
                    let (qx, qy) = choose|qx: int, qy: int|
                        #![trigger processed.contains((qx, qy)), ortho_adjacent(qx, qy, px, py)]
                        processed.contains((qx, qy)) && ortho_adjacent(qx, qy, px, py);
                    assert(activated.contains((qx, qy)));
                    assert(flood_reach(m0, sx, sy, qx, qy));
                    assert(flood_opens(m0, sx, sy, px, py));
                } else {
                    if flood_opens(m0, sx, sy, px, py) {
                        let (qx, qy) = choose|qx: int, qy: int|
                            #[trigger] flood_reach(m0, sx, sy, qx, qy) && ortho_adjacent(
                                qx,
                                qy,
                                px,
                                py,
                            );
                        if (qx, qy) == (sx, sy) {
                            assert(activated.contains((sx, sy)));
                        } else {
                            assert(m0.type_at(sx, sy) is Empty);
                            assert forall|ax: int, ay: int, bx: int, by: int|
                                #![trigger activated.contains((ax, ay)), ortho_adjacent(ax, ay, bx, by)]
                                activated.contains((ax, ay)) && ortho_adjacent(ax, ay, bx, by)
                                    && m0.in_bounds(bx, by) && m0.type_at(bx, by) is Empty
                                    && m0.state_at(bx, by) is Unopened implies activated.contains(
                                (bx, by),
                            ) by {
                                assert(processed.contains((ax, ay)));
                                assert(opened.contains((bx, by)));
                            }
                            lemma_flood_reach_in_closed_set(m0, sx, sy, activated, qx, qy);
                        }
                        assert(processed.contains((qx, qy)));
                        assert(opened.contains((px, py)));
                        assert(false);
                    }
                }
            }
            assert(self@.states =~= mf.states) by {
                assert forall|i: int| 0 <= i < m0.states.len() implies self@.states[i]
                    == mf.states[i] by {
                    lemma_index_pos(m0.width, m0.height, i);
                    let px: int = i % m0.width;
                    let py: int = i / m0.width;
                    assert(m0.in_bounds(px, py));
                    assert(self@.state_at(px, py) == mf.state_at(px, py));
                    assert(self@.states[py * m0.width + px] == mf.states[py * m0.width + px]);
                }
            }
            assert(self@ =~= mf);
        }
    }
}

/// Whether `(x, y)` holds a bomb, read from the live grid.
fn bomb_probe(types: &Grid<CellType>, x: i32, y: i32) -> (r: bool)
    requires
        types@.wf(),
    ensures
        r == bomb_at(types@.cells, types@.width, types@.height, x as int, y as int),
{
    match types.get(Vec2i { x, y }) {
        Some(c) => *c == CellType::Bomb,
        None => false,
    }
}

/// The number of bombs among the eight neighbours of the in-bounds cell `pos`.
fn count_adjacent_bombs(types: &Grid<CellType>, pos: Vec2i) -> (r: u32)
    requires
        types@.wf(),
        types@.in_bounds(pos.x as int, pos.y as int),
    ensures
        r == adjacent_bombs(types@.cells, types@.width, types@.height, pos.x as int, pos.y as int),
        r <= 8,
{
    let mut count: u32 = 0;
    if bomb_probe(types, pos.x - 1, pos.y - 1) {
        count = count + 1;
    }
    if bomb_probe(types, pos.x, pos.y - 1) {
        count = count + 1;
    }
    if bomb_probe(types, pos.x + 1, pos.y - 1) {
        count = count + 1;
    }
    if bomb_probe(types, pos.x - 1, pos.y) {
        count = count + 1;
    }
    if bomb_probe(types, pos.x + 1, pos.y) {
        count = count + 1;
    }
    if bomb_probe(types, pos.x - 1, pos.y + 1) {
        count = count + 1;
    }
    if bomb_probe(types, pos.x, pos.y + 1) {
        count = count + 1;
    }
    if bomb_probe(types, pos.x + 1, pos.y + 1) {
        count = count + 1;
    }
    count
}

impl Board {
    /// Recomputes the classification of every non-bomb cell from its eight
    /// neighbours; bomb cells are left untouched. Invoked after generation
    /// and after bomb relocation, always as a full pass.
    pub fn rebuild_adjacency(&mut self)
        requires
            old(self).wf(),
        ensures
            final(self).wf(),
            final(self)@ == rebuilt(old(self)@),
    {
        let ghost m0 = self@;
        let size = self.size();
        let mut y: i32 = 0;
        while y < size.y
            invariant
                self.wf(),
                m0.wf(),
                self@.width == m0.width,
                self@.height == m0.height,
                self@.states == m0.states,
                size.x == m0.width,
                size.y == m0.height,
                0 <= y <= size.y,
                forall|i: int|
                    0 <= i < y * m0.width ==> self@.types[i] == rebuilt(m0).types[i],
                forall|i: int|
                    y * m0.width <= i < m0.types.len() ==> self@.types[i] == m0.types[i],
                forall|u: int, v: int| #[trigger]
                    bomb_at(self@.types, m0.width, m0.height, u, v) == bomb_at(
                        m0.types,
                        m0.width,
                        m0.height,
                        u,
                        v,
                    ),
            decreases size.y - y,
        {
            let mut x: i32 = 0;
            proof {
                assert(y * m0.width <= (y + 1) * m0.width <= m0.width * m0.height)
                    by (nonlinear_arith)
                    requires
                        0 <= y < m0.height,
                        0 <= m0.width,
                ;
            }
            while x < size.x
                invariant
                    self.wf(),
                    m0.wf(),
                    self@.width == m0.width,
                    self@.height == m0.height,
                    self@.states == m0.states,
                    size.x == m0.width,
                    size.y == m0.height,
                    0 <= x <= size.x,
                    0 <= y < size.y,
                    (y + 1) * m0.width <= m0.types.len(),
                    forall|i: int|
                        0 <= i < y * m0.width + x ==> self@.types[i] == rebuilt(m0).types[i],
                    forall|i: int|
                        y * m0.width + x <= i < m0.types.len() ==> self@.types[i] == m0.types[i],
                    forall|u: int, v: int| #[trigger]
                        bomb_at(self@.types, m0.width, m0.height, u, v) == bomb_at(
                            m0.types,
                            m0.width,
                            m0.height,
                            u,
                            v,
                        ),
                decreases size.x - x,
            {
                let pos = Vec2i { x, y };
                let ghost i = (y as int) * m0.width + (x as int);
                proof {
                    lemma_pos_index_range(m0.width, m0.height, x as int, y as int);
                    crate::coords::lemma_row_major_index(m0.width, x as int, y as int);
                    assert(i < (y + 1) * m0.width) by (nonlinear_arith)
                        requires
                            0 <= x < m0.width,
                            i == y * m0.width + x,
                    ;
                }
                let cell = *self.types.get(pos).unwrap();
                if !(cell == CellType::Bomb) {
                    let n = count_adjacent_bombs(&self.types, pos);
                    proof {
                        lemma_adjacent_bombs_congruent(
                            self@.types,
                            m0.types,
                            m0.width,
                            m0.height,
                            x as int,
                            y as int,
                        );
                    }
                    let new_cell = if n == 0 {
                        CellType::Empty
                    } else {
                        CellType::BombAdjacent(n as usize)
                    };
                    let ghost before = self@.types;
                    self.types.set(pos, new_cell);
                    proof {
                        assert(self@.types == before.update(i, new_cell));
                        assert(self@.types[i] == rebuilt(m0).types[i]);
                        assert forall|u: int, v: int| #[trigger]
                            bomb_at(self@.types, m0.width, m0.height, u, v) == bomb_at(
                                m0.types,
                                m0.width,
                                m0.height,
                                u,
                                v,
                            ) by {
                            assert(bomb_at(before, m0.width, m0.height, u, v) == bomb_at(
                                m0.types,
                                m0.width,
                                m0.height,
                                u,
                                v,
                            ));
                            if 0 <= u < m0.width && 0 <= v < m0.height {
                                lemma_pos_index_range(m0.width, m0.height, u, v);
                                if v * m0.width + u == i {
                                    crate::coords::lemma_row_major_index(m0.width, u, v);
                                    assert(u == x as int && v == y as int);
                                }
                            }
                        }
                    }
                }
                x = x + 1;
            }
            y = y + 1;
            proof {
                assert(y * m0.width == (y - 1) * m0.width + m0.width) by (nonlinear_arith);
            }
        }
        proof {
            assert(self@.types.len() == m0.width * m0.height);
            assert(m0.height * m0.width == m0.width * m0.height) by (nonlinear_arith);
            assert(self@.types =~= rebuilt(m0).types);
            assert(self@ =~= rebuilt(m0));
        }
    }
}

/// Two grids whose cells agree under `p` at every index below `n` have one
/// count.
proof fn lemma_count_matching_congruent<T>(s1: Seq<T>, s2: Seq<T>, p: spec_fn(T) -> bool, n: int)
    requires
        forall|i: int| 0 <= i < n ==> p(s1[i]) == p(s2[i]),
    ensures
        count_matching(s1, p, n) == count_matching(s2, p, n),
    decreases n,
{
    if n > 0 {
        lemma_count_matching_congruent(s1, s2, p, n - 1);
    }
}

/// Every non-bomb cell holds exactly the classification of its eight
/// neighbours: `Empty` with no bomb neighbour, else their count.
pub open spec fn adjacency_consistent(m: BoardModel) -> bool {
    forall|x: int, y: int|
        m.in_bounds(x, y) && !((#[trigger] m.type_at(x, y)) is Bomb) ==> m.type_at(x, y)
            == adjacency_class(m.types, m.width, m.height, x, y)
}

/// A full adjacency rebuild always leaves the board adjacency-consistent,
/// with the same bombs and the same bomb count.
pub proof fn lemma_rebuilt_consistent(m: BoardModel)
    requires
        m.wf(),
    ensures
        rebuilt(m).wf(),
        adjacency_consistent(rebuilt(m)),
        bomb_count(rebuilt(m)) == bomb_count(m),
        forall|i: int|
            0 <= i < m.types.len() ==> ((#[trigger] rebuilt(m).types[i]) is Bomb <==> m.types[i]
                is Bomb),
{
    assert forall|i: int|
        0 <= i < m.types.len() implies ((#[trigger] rebuilt(m).types[i]) is Bomb <==> m.types[i]
        is Bomb) by {}
    assert forall|x: int, y: int|
        rebuilt(m).in_bounds(x, y) && !((#[trigger] rebuilt(m).type_at(x, y))
            is Bomb) implies rebuilt(m).type_at(x, y) == adjacency_class(
        rebuilt(m).types,
        rebuilt(m).width,
        rebuilt(m).height,
        x,
        y,
    ) by {
        lemma_rebuilt_classifies(m, x, y);
    }
    assert forall|i: int|
        0 <= i < m.types.len() implies bomb_pred()(rebuilt(m).types[i]) == bomb_pred()(
        m.types[i],
    ) by {}
    lemma_count_matching_congruent(rebuilt(m).types, m.types, bomb_pred(), m.types.len() as int);
}

impl Board {
    /// Opens an unopened cell and reports what the player hit: a bomb, an
    /// adjacent-count cell (opened alone), or an empty cell, which triggers
    /// the flood fill. `None` — and no change — when the coordinate is out
    /// of bounds or the cell is flagged or already opened.
    pub fn open(&mut self, pos: Vec2i) -> (r: Option<CellResponse>)
        requires
            old(self).wf(),
        ensures
            final(self).wf(),
            final(self)@.types == old(self)@.types,
            final(self)@.width == old(self)@.width,
            final(self)@.height == old(self)@.height,
            match r {
                None => final(self)@ == old(self)@ && (!old(self)@.in_bounds(
                    pos.x as int,
                    pos.y as int,
                ) || !(old(self)@.state_at(pos.x as int, pos.y as int) is Unopened)),
                Some(CellResponse::BombHit) => old(self)@.in_bounds(pos.x as int, pos.y as int)
                    && old(self)@.state_at(pos.x as int, pos.y as int) is Unopened && old(
                    self,
                )@.type_at(pos.x as int, pos.y as int) is Bomb && final(self)@ == old(
                    self,
                )@.with_state_at(pos.x as int, pos.y as int, CellState::Opened),
                Some(CellResponse::UnsafeSpaceUncovered) => old(self)@.in_bounds(
                    pos.x as int,
                    pos.y as int,
                ) && old(self)@.state_at(pos.x as int, pos.y as int) is Unopened && old(
                    self,
                )@.type_at(pos.x as int, pos.y as int) is BombAdjacent && final(self)@ == old(
                    self,
                )@.with_state_at(pos.x as int, pos.y as int, CellState::Opened),
                Some(CellResponse::OpenSpaceUncovered) => old(self)@.in_bounds(
                    pos.x as int,
                    pos.y as int,
                ) && old(self)@.state_at(pos.x as int, pos.y as int) is Unopened && old(
                    self,
                )@.type_at(pos.x as int, pos.y as int) is Empty && final(self)@ == flood_result(
                    old(self)@.with_state_at(pos.x as int, pos.y as int, CellState::Opened),
                    pos.x as int,
                    pos.y as int,
                ),
                Some(_) => false,
            },
    {
        let st = match self.states.get(pos) {
            Some(s) => Some(*s),
            None => None,
        };
        match st {
            Some(CellState::Unopened) => {
                self.open_cell(pos);
                let t = *self.types.get(pos).unwrap();
                match t {
                    CellType::Bomb => Some(CellResponse::BombHit),
                    CellType::BombAdjacent(_) => Some(CellResponse::UnsafeSpaceUncovered),
                    CellType::Empty => {
                        self.flood_uncover_empty(pos);
                        Some(CellResponse::OpenSpaceUncovered)
                    },
                }
            },
            _ => None,
        }
    }

    /// A board of the given size with up to `count` bombs placed at random
    /// coordinates, adjacency rebuilt, and nothing revealed. Draws that land
    /// on one cell twice overwrite it, so the realized bomb count may fall
    /// below `count`.
    pub fn with_bombs(size: Vec2i, count: usize, rng: &mut rand::rngs::StdRng) -> (r: Board)
        requires
            1 <= size.x,
            1 <= size.y,
            size.x * size.y <= usize::MAX,
        ensures
            r.wf(),
            r@.wf(),
            r@.width == size.x,
            r@.height == size.y,
            forall|i: int| 0 <= i < r@.states.len() ==> r@.states[i] is Unopened,
            adjacency_consistent(r@),
            bomb_count(r@) <= count,
            count >= 1 ==> bomb_count(r@) >= 1,
    {
        let mut board = Board::empty(size);
        proof {
            lemma_count_matching_bounds(board@.types, bomb_pred(), board@.types.len() as int);
            assert(bomb_count(board@) <= 0) by {
                assert forall|i: int| 0 <= i < board@.types.len() implies !bomb_pred()(
                    board@.types[i],
                ) by {}
                lemma_count_all_false(board@.types, bomb_pred(), board@.types.len() as int);
            }
        }
        let mut placed: usize = 0;
        while placed < count
            invariant
                board.wf(),
                board@.wf(),
                board@.width == size.x,
                board@.height == size.y,
                1 <= size.x,
                1 <= size.y,
                forall|i: int| 0 <= i < board@.states.len() ==> board@.states[i] is Unopened,
                placed <= count,
                bomb_count(board@) <= placed,
                placed >= 1 ==> bomb_count(board@) >= 1,
            decreases count - placed,
        {
            let bx = crate::rng::rng_below(rng, size.x);
            let by = crate::rng::rng_below(rng, size.y);
            let pos = Vec2i { x: bx, y: by };
            let ghost before = board@;
            board.types.set(pos, CellType::Bomb);
            proof {
                lemma_pos_index_range(before.width, before.height, bx as int, by as int);
                let i: int = (by as int) * before.width + (bx as int);
                lemma_count_matching_update(
                    before.types,
                    bomb_pred(),
                    before.types.len() as int,
                    i,
                    CellType::Bomb,
                );
                lemma_count_matching_positive(
                    board@.types,
                    bomb_pred(),
                    board@.types.len() as int,
                    i,
                );
            }
            placed = placed + 1;
        }
        let ghost pre = board@;
        board.rebuild_adjacency();
        proof {
            lemma_rebuilt_consistent(pre);
        }
        board
    }
}

/// A relocation's middle state: either no free cell was found and the types
/// are unchanged, or exactly one empty cell other than the clicked one now
/// holds the bomb. States and dimensions are untouched.
pub open spec fn placement_ok(m1: BoardModel, m2: BoardModel, px: int, py: int) -> bool {
    &&& m2.states == m1.states
    &&& m2.width == m1.width
    &&& m2.height == m1.height
    &&& (m2.types == m1.types || (exists|qx: int, qy: int|
        #![trigger m1.type_at(qx, qy)]
        m1.in_bounds(qx, qy) && !((qx, qy) == (px, py)) && m1.type_at(qx, qy) is Empty && m2.types
            == m1.types.update(qy * m1.width + qx, CellType::Bomb)))
}

/// Everything a bomb relocation may produce: the clicked cell is cleared,
/// at most one other empty cell receives the bomb, adjacency is rebuilt,
/// and when the clicked cell ends empty the flood fill runs from it.
pub open spec fn is_move_bomb_result(m0: BoardModel, px: int, py: int, mf: BoardModel) -> bool {
    exists|m2: BoardModel|
        #[trigger] placement_ok(m0.with_type_at(px, py, CellType::Empty), m2, px, py) && ({
            let m3 = rebuilt(m2);
            mf == if m3.type_at(px, py) is Empty {
                flood_result(m3, px, py)
            } else {
                m3
            }
        })
}

impl Board {
    /// Relocates the bomb under a first click: clears the clicked cell,
    /// tries up to 32 random draws to put the bomb on some other empty cell
    /// (silently keeping one bomb fewer when every draw fails), rebuilds
    /// adjacency, and — when the clicked cell now has no adjacent bombs —
    /// flood fills from it as an ordinary empty-cell open. The clicked cell
    /// never holds a bomb afterwards.
    pub fn move_bomb(&mut self, position: Vec2i, rng: &mut rand::rngs::StdRng)
        requires
            old(self).wf(),
            old(self)@.in_bounds(position.x as int, position.y as int),
        ensures
            final(self).wf(),
            final(self)@.width == old(self)@.width,
            final(self)@.height == old(self)@.height,
            is_move_bomb_result(old(self)@, position.x as int, position.y as int, final(self)@),
            !(final(self)@.type_at(position.x as int, position.y as int) is Bomb),
    {
        let ghost m0 = self@;
        let ghost px = position.x as int;
        let ghost py = position.y as int;
        self.types.set(position, CellType::Empty);
        let ghost m1 = self@;
        proof {
            lemma_pos_index_range(m0.width, m0.height, px, py);
            assert(m1 == m0.with_type_at(px, py, CellType::Empty));
            assert(placement_ok(m1, m1, px, py));
        }
        let size = self.size();
        let mut tries: u32 = 0;
        let mut placed = false;
        while tries < 32 && !placed
            invariant
                self.wf(),
                m1.wf(),
                self@.wf(),
                size.x == m1.width,
                size.y == m1.height,
                1 <= size.x,
                1 <= size.y,
                px == position.x as int,
                py == position.y as int,
                placement_ok(m1, self@, px, py),
                !placed ==> self@ == m1,
            decreases 32 - tries,
        {
            let qx = crate::rng::rng_below(rng, size.x);
            let qy = crate::rng::rng_below(rng, size.y);
            let q = Vec2i { x: qx, y: qy };
            if !(q == position) {
                let cell = *self.types.get(q).unwrap();
                if cell == CellType::Empty {
                    proof {
                        assert(m1.type_at(qx as int, qy as int) is Empty);
                    }
                    self.types.set(q, CellType::Bomb);
                    placed = true;
                    proof {
                        assert(!((qx as int, qy as int) == (px, py)));
                        assert(self@.types == m1.types.update(
                            (qy as int) * m1.width + (qx as int),
                            CellType::Bomb,
                        ));
                        assert(m1.type_at(qx as int, qy as int) is Empty && m1.in_bounds(
                            qx as int,
                            qy as int,
                        ));
                        assert(placement_ok(m1, self@, px, py));
                    }
                }
            }
            tries = tries + 1;
        }
        let ghost m2 = self@;
        self.rebuild_adjacency();
        proof {
            lemma_rebuilt_consistent(m2);
            assert(!(m2.type_at(px, py) is Bomb)) by {
                if m2.types != m1.types {
                    let (qx, qy) = choose|qx: int, qy: int|
                        #![trigger m1.type_at(qx, qy)]
                        m1.in_bounds(qx, qy) && !((qx, qy) == (px, py)) && m1.type_at(qx, qy)
                            is Empty && m2.types == m1.types.update(
                            qy * m1.width + qx,
                            CellType::Bomb,
                        );
                    lemma_pos_index_range(m1.width, m1.height, qx, qy);
                    if qy * m1.width + qx == py * m1.width + px {
                        crate::coords::lemma_row_major_index(m1.width, qx, qy);
                        crate::coords::lemma_row_major_index(m1.width, px, py);
                    }
                }
            }
            assert(!(self@.type_at(px, py) is Bomb)) by {
                assert(self@.types[py * m2.width + px] == rebuilt(m2).types[py * m2.width + px]);
            }
        }
        let t = *self.types.get(position).unwrap();
        if t == CellType::Empty {
            self.flood_uncover_empty(position);
            proof {
                assert(placement_ok(m0.with_type_at(px, py, CellType::Empty), m2, px, py));
                assert(is_move_bomb_result(m0, px, py, self@));
            }
        } else {
            proof {
                assert(placement_ok(m0.with_type_at(px, py, CellType::Empty), m2, px, py));
                assert(is_move_bomb_result(m0, px, py, self@));
            }
        }
    }

    /// The caller's response to a first click that landed on a bomb: the
    /// bomb is relocated instead of counting as a loss (the clicked cell is
    /// guaranteed non-bomb afterwards), and the cell then behaves as an
    /// ordinary opened cell.
    pub fn handle_first_click_bomb(&mut self, position: Vec2i, rng: &mut rand::rngs::StdRng)
        requires
            old(self).wf(),
            old(self)@.in_bounds(position.x as int, position.y as int),
        ensures
            final(self).wf(),
            final(self)@.width == old(self)@.width,
            final(self)@.height == old(self)@.height,
            is_move_bomb_result(old(self)@, position.x as int, position.y as int, final(self)@),
            !(final(self)@.type_at(position.x as int, position.y as int) is Bomb),
    {
        self.move_bomb(position, rng);
    }
}

} // verus!
