//! The board: cells, turns, legal moves and the end of the game.
use vstd::prelude::*;

verus! {

/// One of the two marks a player puts on the board.
#[derive(Debug, Copy, Clone, PartialEq, Eq, Structural)]
pub enum Player {
    X,
    O,
}

/// The other mark.
pub open spec fn other(p: Player) -> Player {
    match p {
        Player::X => Player::O,
        Player::O => Player::X,
    }
}

impl Player {
    /// The mark that moves after this one.
    pub fn opponent(&self) -> (r: Player)
        ensures
            r == other(*self),
    {
        match *self {
            Player::X => Player::O,
            Player::O => Player::X,
        }
    }
}

/// Taking the opponent twice gives the mark back, and no mark is its own
/// opponent.
pub proof fn opponent_is_involution(m: Player)
    ensures
        other(other(m)) == m,
        other(m) != m,
{
}

/// The grid and the mark to move next.
#[derive(Copy, Clone)]
pub struct Board {
    pub fields: [[Option<Player>; 3]; 3],
    pub next_player: Player,
}

/// A board as mathematics: the nine cells in row-major order (cell
/// `3 * row + col`) and the mark to move next.
pub struct BoardView {
    pub cells: Seq<Option<Player>>,
    pub next_player: Player,
}

/// The cell index of a coordinate.
pub open spec fn index_of(a: (i32, i32)) -> int {
    3 * a.0 + a.1
}

/// The coordinate of a cell index.
pub open spec fn coord_of(k: int) -> (i32, i32) {
    ((k / 3) as i32, (k % 3) as i32)
}

impl View for Board {
    type V = BoardView;

    open spec fn view(&self) -> BoardView {
        BoardView {
            cells: Seq::new(9, |k: int| self.fields[k / 3][k % 3]),
            next_player: self.next_player,
        }
    }
}

impl BoardView {
    /// Nine cells.
    pub open spec fn wf(self) -> bool {
        self.cells.len() == 9
    }

    /// The cell at a row and a column.
    pub open spec fn at(self, row: int, col: int) -> Option<Player> {
        self.cells[3 * row + col]
    }

    /// Both components in 0..=2 and the cell empty.
    pub open spec fn legal(self, a: (i32, i32)) -> bool {
        &&& 0 <= a.0 <= 2
        &&& 0 <= a.1 <= 2
        &&& self.cells[index_of(a)] is None
    }

    /// Whether `p` holds all three cells of line `k`.
    pub open spec fn owns_line(self, p: Player, k: int) -> bool {
        let (a, b, c) = line(k);
        &&& self.cells[a] == Some(p)
        &&& self.cells[b] == Some(p)
        &&& self.cells[c] == Some(p)
    }

    /// Whether `p` holds some whole line.
    pub open spec fn wins(self, p: Player) -> bool {
        exists|k: int| 0 <= k < 8 && self.owns_line(p, k)
    }

    /// The mark that holds a whole line, looking at `X` first.
    pub open spec fn winner(self) -> Option<Player> {
        if self.wins(Player::X) {
            Some(Player::X)
        } else if self.wins(Player::O) {
            Some(Player::O)
        } else {
            None
        }
    }

    /// Every cell is taken.
    pub open spec fn full(self) -> bool {
        forall|k: int| 0 <= k < 9 ==> self.cells[k] is Some
    }

    /// Someone has won, or no cell is left.
    pub open spec fn ended(self) -> bool {
        self.winner() is Some || self.full()
    }

    /// The coordinates of the empty cells among the first `k`, in
    /// row-major order.
    pub open spec fn empties(self, k: int) -> Seq<(i32, i32)>
        decreases k,
    {
        if k <= 0 {
            seq![]
        } else if self.cells[k - 1] is None {
            self.empties(k - 1).push(coord_of(k - 1))
        } else {
            self.empties(k - 1)
        }
    }

    /// How many cells are empty.
    pub open spec fn empty_count(self) -> nat {
        self.empties(9).len()
    }

    /// The moves open to the mark to move: none once the game has ended,
    /// else every empty cell in row-major order.
    pub open spec fn actions(self) -> Seq<(i32, i32)> {
        if self.ended() {
            seq![]
        } else {
            self.empties(9)
        }
    }

    /// The board after the moves of `moves`, taken in turn.
    pub open spec fn replay(self, moves: Seq<(i32, i32)>) -> BoardView
        decreases moves.len(),
    {
        if moves.len() == 0 {
            self
        } else {
            self.apply(moves[0]).replay(moves.drop_first())
        }
    }

    /// The board after the mark to move takes the cell at `a`.
    pub open spec fn apply(self, a: (i32, i32)) -> BoardView {
        BoardView {
            cells: self.cells.update(index_of(a), Some(self.next_player)),
            next_player: other(self.next_player),
        }
    }
}

/// The cell indices of the eight lines: three rows, three columns, the
/// diagonal from the top left and the one from the top right.
pub open spec fn line(k: int) -> (int, int, int) {
    if k < 3 {
        (3 * k, 3 * k + 1, 3 * k + 2)
    } else if k < 6 {
        (k - 3, k, k + 3)
    } else if k == 6 {
        (0, 4, 8)
    } else {
        (2, 4, 6)
    }
}

/// Row-major cell indices: `3 * row + col` is the cell of `row` and `col`.
pub proof fn lemma_index_parts(row: int, col: int)
    requires
        0 <= row < 3,
        0 <= col < 3,
    ensures
        (3 * row + col) / 3 == row,
        (3 * row + col) % 3 == col,
{
}

/// What the list of empty cells holds: each entry is a legal move among the
/// first `k` cells, every empty cell among them is listed, and the entries
/// come in increasing cell order.
pub proof fn lemma_empties(v: BoardView, k: int)
    requires
        v.wf(),
        0 <= k <= 9,
    ensures
        v.empties(k).len() <= k,
        forall|i: int|
            0 <= i < v.empties(k).len() ==> v.legal(#[trigger] v.empties(k)[i]) && index_of(
                v.empties(k)[i],
            ) < k,
        forall|j: int|
            0 <= j < k && v.cells[j] is None ==> #[trigger] v.empties(k).contains(coord_of(j)),
        forall|i: int, j: int|
            0 <= i < j < v.empties(k).len() ==> index_of(#[trigger] v.empties(k)[i]) < index_of(
                #[trigger] v.empties(k)[j],
            ),
    decreases k,
{
    if k > 0 {
        lemma_empties(v, k - 1);
        lemma_index_parts((k - 1) / 3, (k - 1) % 3);
        let e = v.empties(k - 1);
        if v.cells[k - 1] is None {
            assert(v.empties(k) == e.push(coord_of(k - 1)));
            assert(index_of(coord_of(k - 1)) == k - 1);
            assert forall|j: int| 0 <= j < k && v.cells[j] is None implies #[trigger] v.empties(
                k,
            ).contains(coord_of(j)) by {
                if j < k - 1 {
                    assert(e.contains(coord_of(j)));
                    let i = choose|i: int| 0 <= i < e.len() && e[i] == coord_of(j);
                    assert(v.empties(k)[i] == coord_of(j));
                } else {
                    assert(v.empties(k)[e.len() as int] == coord_of(j));
                }
            }
        } else {
            assert forall|j: int| 0 <= j < k && v.cells[j] is None implies #[trigger] v.empties(
                k,
            ).contains(coord_of(j)) by {
                assert(e.contains(coord_of(j)));
            }
        }
    }
}

/// The moves offered: none once the game has ended; otherwise exactly the
/// legal coordinates, in row-major order.
pub proof fn actions_are_the_empty_cells(v: BoardView)
    requires
        v.wf(),
    ensures
        v.ended() ==> v.actions().len() == 0,
        !v.ended() ==> forall|a: (i32, i32)| #[trigger] v.actions().contains(a) <==> v.legal(a),
        forall|i: int, j: int|
            0 <= i < j < v.actions().len() ==> index_of(#[trigger] v.actions()[i]) < index_of(
                #[trigger] v.actions()[j],
            ),
{
    lemma_empties(v, 9);
    if !v.ended() {
        assert forall|a: (i32, i32)| #[trigger] v.actions().contains(a) <==> v.legal(a) by {
            if v.legal(a) {
                lemma_index_parts(a.0 as int, a.1 as int);
                assert(coord_of(index_of(a)) == a);
                assert(v.empties(9).contains(coord_of(index_of(a))));
            }
            if v.actions().contains(a) {
                let i = choose|i: int| 0 <= i < v.actions().len() && v.actions()[i] == a;
                assert(v.legal(v.empties(9)[i]));
            }
        }
    }
}

/// A game that has not ended leaves a move.
pub proof fn lemma_open_game_has_moves(v: BoardView)
    requires
        v.wf(),
        !v.ended(),
    ensures
        v.actions().len() > 0,
{
    lemma_empties(v, 9);
    let k = choose|k: int| 0 <= k < 9 && v.cells[k] is None;
    assert(v.empties(9).contains(coord_of(k)));
}

/// A mark that holds any one of the eight lines wins, unless its opponent
/// holds a line too (`X` is looked at first); with no line held there is no
/// winner.
pub proof fn winner_of_a_line(v: BoardView, p: Player, k: int)
    requires
        0 <= k < 8,
    ensures
        v.owns_line(p, k) && !v.wins(other(p)) ==> v.winner() == Some(p),
        v.owns_line(p, k) && p == Player::X ==> v.winner() == Some(Player::X),
        !v.wins(Player::X) && !v.wins(Player::O) ==> v.winner() is None,
{
}

/// A board is no more than its view: boards with equal views hold the same
/// grid and the same mark to move.
pub proof fn view_determines_board(b1: Board, b2: Board)
    requires
        b1@ == b2@,
    ensures
        b1.fields == b2.fields,
        b1.next_player == b2.next_player,
{
    assert forall|r: int, c: int| 0 <= r < 3 && 0 <= c < 3 implies b1.fields[r][c]
        == b2.fields[r][c] by {
        lemma_index_parts(r, c);
        assert(b1@.cells[3 * r + c] == b2@.cells[3 * r + c]);
    }
    assert forall|r: int| 0 <= r < 3 implies b1.fields[r] == b2.fields[r] by {
        assert(b1.fields[r] =~= b2.fields[r]);
    }
    assert(b1.fields =~= b2.fields);
}

/// Two copies of a board that take the same moves in turn end with the same
/// grid and the same mark to move: `c1` and `c2` are `b1` and `b2` after
/// `moves`.
pub proof fn copies_stay_equal(b1: Board, b2: Board, moves: Seq<(i32, i32)>, c1: Board, c2: Board)
    requires
        b1@ == b2@,
        c1@ == b1@.replay(moves),
        c2@ == b2@.replay(moves),
    ensures
        c1.fields == c2.fields,
        c1.next_player == c2.next_player,
{
    view_determines_board(c1, c2);
}

/// Taking a legal cell removes exactly that cell from the empty ones.
pub proof fn lemma_apply_empties(v: BoardView, a: (i32, i32), k: int)
    requires
        v.wf(),
        v.legal(a),
        0 <= k <= 9,
    ensures
        v.apply(a).empties(k).len() + (if index_of(a) < k {
            1int
        } else {
            0int
        }) == v.empties(k).len(),
    decreases k,
{
    if k > 0 {
        lemma_apply_empties(v, a, k - 1);
    }
}

impl Board {
    /// An empty grid, with `first_player` to move.
    pub fn new(first_player: Player) -> (r: Board)
        ensures
            forall|k: int| 0 <= k < 9 ==> r@.cells[k] is None,
            r@.next_player == first_player,
    {
        Board { fields: [[None, None, None], [None, None, None], [None, None, None]], next_player: first_player }
    }

    /// The mark to move.
    pub fn next_player(&self) -> (r: Player)
        ensures
            r == self@.next_player,
    {
        self.next_player
    }

    /// Whether the cell at `row` and `col` holds `p`.
    fn holds(&self, row: usize, col: usize, p: Player) -> (r: bool)
        requires
            row < 3,
            col < 3,
        ensures
            r == (self@.at(row as int, col as int) == Some(p)),
    {
        proof {
            lemma_index_parts(row as int, col as int);
        }
        match self.fields[row][col] {
            Some(q) => q == p,
            None => false,
        }
    }

    /// Whether `p` holds a whole line.
    fn has_line(&self, p: Player) -> (r: bool)
        ensures
            r == self@.wins(p),
    {
        let mut row: usize = 0;
        while row < 3
            invariant
                row <= 3,
                forall|k: int| 0 <= k < row ==> !self@.owns_line(p, k),
            decreases 3 - row,
        {
            if self.holds(row, 0, p) && self.holds(row, 1, p) && self.holds(row, 2, p) {
                assert(self@.owns_line(p, row as int));
                return true;
            }
            row += 1;
        }
        let mut col: usize = 0;
        while col < 3
            invariant
                col <= 3,
                forall|k: int| 0 <= k < 3 + col ==> !self@.owns_line(p, k),
            decreases 3 - col,
        {
            if self.holds(0, col, p) && self.holds(1, col, p) && self.holds(2, col, p) {
                assert(self@.owns_line(p, 3 + col as int));
                return true;
            }
            col += 1;
        }
        if self.holds(0, 0, p) && self.holds(1, 1, p) && self.holds(2, 2, p) {
            assert(self@.owns_line(p, 6));
            return true;
        }
        if self.holds(0, 2, p) && self.holds(1, 1, p) && self.holds(2, 0, p) {
            assert(self@.owns_line(p, 7));
            return true;
        }
        assert(!self@.owns_line(p, 6));
        assert(!self@.owns_line(p, 7));
        false
    }

    /// The mark holding a whole line, `X` looked at first; `None` if neither.
    pub fn get_winner(&self) -> (r: Option<Player>)
        ensures
            r == self@.winner(),
    {
        if self.has_line(Player::X) {
            Some(Player::X)
        } else if self.has_line(Player::O) {
            Some(Player::O)
        } else {
            None
        }
    }

    /// Whether someone has won or every cell is taken.
    pub fn is_ended(&self) -> (r: bool)
        ensures
            r == self@.ended(),
    {
        let winner = self.get_winner();
        if winner.is_some() {
            return true;
        }
        let mut row: usize = 0;
        while row < 3
            invariant
                row <= 3,
                self@.winner() is None,
                forall|k: int| 0 <= k < 3 * row ==> self@.cells[k] is Some,
            decreases 3 - row,
        {
            let mut col: usize = 0;
            while col < 3
                invariant
                    row < 3,
                    col <= 3,
                    self@.winner() is None,
                    forall|k: int| 0 <= k < 3 * row + col ==> self@.cells[k] is Some,
                decreases 3 - col,
            {
                proof {
                    lemma_index_parts(row as int, col as int);
                }
                if self.fields[row][col].is_none() {
                    assert(self@.cells[3 * row + col] is None);
                    return false;
                }
                col += 1;
            }
            row += 1;
        }
        true
    }

    /// The legal moves in row-major order; none once the game has ended.
    pub fn get_actions(&self) -> (r: Vec<(i32, i32)>)
        ensures
            r@ == self@.actions(),
    {
        if self.is_ended() {
            return Vec::new();
        }
        let mut actions: Vec<(i32, i32)> = Vec::with_capacity(9);
        let mut row: i32 = 0;
        while row < 3
            invariant
                0 <= row <= 3,
                actions@ == self@.empties(3 * row),
            decreases 3 - row,
        {
            let mut col: i32 = 0;
            while col < 3
                invariant
                    0 <= row < 3,
                    0 <= col <= 3,
                    actions@ == self@.empties(3 * row + col),
                decreases 3 - col,
            {
                proof {
                    lemma_index_parts(row as int, col as int);
                }
                if self.is_legal_action((row, col)) {
                    actions.push((row, col));
                }
                col += 1;
            }
            row += 1;
        }
        actions
    }

    /// Whether `action` lies on the grid and points at an empty cell.
    pub fn is_legal_action(&self, action: (i32, i32)) -> (r: bool)
        ensures
            r == self@.legal(action),
    {
        if action.0 < 0 || action.0 > 2 || action.1 < 0 || action.1 > 2 {
            return false;
        }
        proof {
            lemma_index_parts(action.0 as int, action.1 as int);
        }
        self.fields[action.0 as usize][action.1 as usize].is_none()
    }

    /// Puts the mark to move at `action` and passes the turn.
    pub fn perform_action(&mut self, action: (i32, i32))
        requires
            old(self)@.legal(action),
        ensures
            final(self)@ == old(self)@.apply(action),
            forall|k: int|
                0 <= k < 9 ==> final(self)@.cells[k] == if k == index_of(action) {
                    Some(old(self)@.next_player)
                } else {
                    old(self)@.cells[k]
                },
            final(self)@.next_player == other(old(self)@.next_player),
    {
        let r = action.0 as usize;
        let c = action.1 as usize;
        proof {
            lemma_index_parts(r as int, c as int);
        }
        self.fields[r][c] = Some(self.next_player);
        self.next_player = self.next_player.opponent();
        proof {
            assert forall|k: int| 0 <= k < 9 implies self@.cells[k] == old(self)@.apply(action).cells[k] by {
                lemma_index_parts(k / 3, k % 3);
            }
            assert(self@.cells =~= old(self)@.apply(action).cells);
        }
    }
}

} // verus!
