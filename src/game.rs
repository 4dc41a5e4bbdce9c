//! Turn controller: whose turn it is, whether the match is over, and whether a
//! move is legal, before the stone is dropped on the board.
use vstd::prelude::*;

use crate::board::{
    did_win, has_four, has_line_of_four, has_stone, lemma_win_is_line_of_four, only_cells, TOP_MASK,
};

verus! {

/// Identity of a player: the 32 bytes of its public key.
#[derive(Clone, Copy, Debug, PartialEq, Eq)]
pub struct PlayerKey {
    pub bytes: [u8; 32],
}

impl View for PlayerKey {
    type V = Seq<u8>;

    open spec fn view(&self) -> Seq<u8> {
        self.bytes@
    }
}

impl PlayerKey {
    pub fn new(bytes: [u8; 32]) -> (r: PlayerKey)
        ensures
            r.bytes == bytes,
    {
        PlayerKey { bytes }
    }

    /// Whether the two keys hold the same bytes.
    pub fn same_as(&self, other: &PlayerKey) -> (r: bool)
        ensures
            r == (self@ == other@),
    {
        let mut i: usize = 0;
        while i < 32
            invariant
                i <= 32,
                self@.len() == 32,
                other@.len() == 32,
                forall|j: int| 0 <= j < i ==> self@[j] == other@[j],
            decreases 32 - i,
        {
            if self.bytes[i] != other.bytes[i] {
                return false;
            }
            i = i + 1;
        }
        assert(self@ =~= other@);
        true
    }
}

/// Why a move was rejected.
#[derive(Clone, Copy, Debug, PartialEq, Eq, Structural)]
pub enum ErrorCode {
    /// The column has no free cell left.
    InvalidMove,
    /// The acting player is not the one whose turn it is.
    Unauthorized,
    /// The match has already been won.
    GameAlreadyFinished,
    /// The column index is not below the number of columns.
    InvalidColumn,
}

/// The seven bits of `column` in `mask`, lowest row first.
pub open spec fn column_bits(mask: u64, column: u64) -> u64 {
    (mask >> ((7 * column) as u64)) & 0x7fu64
}

/// A contiguous stack of `count` bits from the lowest row up.
pub open spec fn stack_bits(count: u64) -> u64 {
    !(0xffff_ffff_ffff_ffffu64 << count)
}

/// Bit index of the lowest cell of `column`.
pub open spec fn column_base(column: int) -> int {
    7 * column
}

proof fn lemma_drop_other_column(b: u64, column: u64, other: u64, count: u64)
    by (bit_vector)
    requires
        column < 7,
        other < 7,
        column != other,
        count < 7,
    ensures
        column_bits(b | (1u64 << ((7 * column + count) as u64)), other) == column_bits(b, other),
{
}

proof fn lemma_drop_same_column(b: u64, column: u64, count: u64)
    by (bit_vector)
    requires
        column < 7,
        count < 7,
    ensures
        column_bits(b | (1u64 << ((7 * column + count) as u64)), column) == column_bits(b, column)
            | (1u64 << count),
{
}

proof fn lemma_drop_stays_below(b: u64, column: u64, count: u64)
    by (bit_vector)
    requires
        b >> 49u64 == 0,
        column < 7,
        count < 6,
    ensures
        (b | (1u64 << ((7 * column + count) as u64))) >> 49u64 == 0,
{
}

proof fn lemma_stack_grows(x: u64, y: u64, count: u64)
    by (bit_vector)
    requires
        count < 6,
        x & y == 0 || y & x == 0,
        x | y == stack_bits(count) || y | x == stack_bits(count),
    ensures
        (x | (1u64 << count)) & y == 0,
        y & (x | (1u64 << count)) == 0,
        (x | (1u64 << count)) | y == stack_bits((count + 1) as u64),
        y | (x | (1u64 << count)) == stack_bits((count + 1) as u64),
{
}

/// Per-match state.
#[derive(Clone, Copy, Debug, PartialEq, Eq)]
pub struct Game {
    pub game_id: u128,
    /// Moves first, on even move counts.
    pub player1: PlayerKey,
    /// Moves second, on odd move counts.
    pub player2: PlayerKey,
    /// For each column, the bit index where its next stone lands.
    pub height: [u64; 7],
    /// The stones of each side: index 0 for `player1`, 1 for `player2`.
    pub board: [u64; 2],
    pub moves: u8,
    pub finished: bool,
    pub nonce: u8,
}

impl Game {
    /// Stones in `column`.
    pub open spec fn stones_in_column(&self, column: int) -> int {
        self.height[column] - column_base(column)
    }

    /// Stones on the whole board, as counted from the column heights.
    pub open spec fn stones_placed(&self) -> int {
        self.stones_in_column(0) + self.stones_in_column(1) + self.stones_in_column(2)
            + self.stones_in_column(3) + self.stones_in_column(4) + self.stones_in_column(5)
            + self.stones_in_column(6)
    }

    /// `column` holds between zero and six stones, no cell of it is taken by
    /// both sides, and its taken cells are a stack from the lowest row up.
    pub open spec fn column_ok(&self, column: int) -> bool {
        &&& column_base(column) <= self.height[column] <= column_base(column) + 6
        &&& column_bits(self.board[0], column as u64) & column_bits(self.board[1], column as u64)
            == 0
        &&& column_bits(self.board[0], column as u64) | column_bits(self.board[1], column as u64)
            == stack_bits(self.stones_in_column(column) as u64)
    }

    /// Stones in the columns below `n`.
    pub open spec fn stones_below(&self, n: int) -> int
        decreases n,
    {
        if n <= 0 {
            0
        } else {
            self.stones_below(n - 1) + self.stones_in_column(n - 1)
        }
    }

    /// The board invariant: every column is a well-formed stack, no stone lies
    /// beyond the last column, and `moves` counts the stones.
    pub open spec fn wf(&self) -> bool {
        &&& forall|column: int| 0 <= column < 7 ==> #[trigger] self.column_ok(column)
        &&& self.board[0] >> 49u64 == 0
        &&& self.board[1] >> 49u64 == 0
        &&& self.moves == self.stones_placed()
    }

    /// The side to move: 0 when `moves` is even, 1 when it is odd.
    pub open spec fn side(&self) -> int {
        self.moves as int % 2
    }

    /// The player whose turn it is.
    pub open spec fn mover(&self) -> PlayerKey {
        if self.moves % 2 == 0 {
            self.player1
        } else {
            self.player2
        }
    }

    /// Whether `column` has a free cell.
    pub open spec fn has_room(&self, column: int) -> bool {
        self.height[column] < column_base(column) + 6
    }

    /// The error a move by `player` in `column` is rejected with, checked in
    /// this order; `None` when the move is legal.
    pub open spec fn move_error(&self, player: PlayerKey, column: u8) -> Option<ErrorCode> {
        if self.finished {
            Some(ErrorCode::GameAlreadyFinished)
        } else if player@ != self.mover()@ {
            Some(ErrorCode::Unauthorized)
        } else if column >= 7 {
            Some(ErrorCode::InvalidColumn)
        } else if !self.has_room(column as int) {
            Some(ErrorCode::InvalidMove)
        } else {
            None
        }
    }

    /// `self` is `prev` after the side to move dropped a stone in `column`:
    /// one bit set at the column's height, that height raised by one, one more
    /// move, and the match over exactly when the mover now has four in a line.
    pub open spec fn follows_drop(&self, prev: Game, column: int) -> bool {
        let side = prev.side();
        let stones = prev.board[side] | (1u64 << prev.height[column]);
        &&& self.game_id == prev.game_id
        &&& self.player1 == prev.player1
        &&& self.player2 == prev.player2
        &&& self.nonce == prev.nonce
        &&& self.height@ == prev.height@.update(column, (prev.height[column] + 1) as u64)
        &&& self.board@ == prev.board@.update(side, stones)
        &&& self.moves == prev.moves + 1
        &&& self.finished == has_four(stones)
    }

    /// Whether the state is well formed, as it must be before a move is
    /// made on it: for a game read back from storage.
    pub fn is_consistent(&self) -> (r: bool)
        ensures
            r == self.wf(),
    {
        let mut total: u64 = 0;
        let mut c: usize = 0;
        while c < 7
            invariant
                c <= 7,
                forall|j: int| 0 <= j < c ==> #[trigger] self.column_ok(j),
                total == self.stones_below(c as int),
                total <= 6 * c,
            decreases 7 - c,
        {
            let base = 7 * (c as u64);
            let h = self.height[c];
            if h < base || h > base + 6 {
                assert(!self.column_ok(c as int));
                return false;
            }
            let count = h - base;
            let mine = (self.board[0] >> base) & 0x7f;
            let theirs = (self.board[1] >> base) & 0x7f;
            if mine & theirs != 0 || mine | theirs != !(0xffff_ffff_ffff_ffffu64 << count) {
                assert(!self.column_ok(c as int));
                return false;
            }
            total = total + count;
            c = c + 1;
        }
        if self.board[0] >> 49 != 0 || self.board[1] >> 49 != 0 {
            return false;
        }
        assert(self.stones_below(7) == self.stones_placed()) by {
            reveal_with_fuel(Game::stones_below, 8);
        }
        self.moves as u64 == total
    }

    /// The side to move: 0 (`player1`) when `moves` is even, 1 (`player2`)
    /// when it is odd.
    pub fn side_to_move(&self) -> (r: u8)
        ensures
            r == self.side(),
    {
        self.moves % 2
    }

    /// The player whose turn it is: `player1` when `moves` is even, `player2`
    /// when it is odd.
    pub fn current_player(&self) -> (r: PlayerKey)
        ensures
            r == self.mover(),
    {
        if self.moves % 2 == 0 {
            self.player1
        } else {
            self.player2
        }
    }
}

/// A legal drop keeps the board invariant.
proof fn lemma_drop_keeps_wf(prev: Game, next: Game, column: int)
    requires
        prev.wf(),
        0 <= column < 7,
        prev.has_room(column),
        next.follows_drop(prev, column),
    ensures
        next.wf(),
{
    let side = prev.side();
    assert(prev.column_ok(column));
    let count = prev.stones_in_column(column) as u64;
    assert(prev.height[column] == 7 * column + count);
    let mine = prev.board[side];
    let theirs = prev.board[1 - side];
    lemma_drop_stays_below(mine, column as u64, count);
    assert(next.board[side] == mine | (1u64 << ((7 * column as u64 + count) as u64)));
    assert(next.board[1 - side] == theirs);
    assert forall|c: int| 0 <= c < 7 implies #[trigger] next.column_ok(c) by {
        assert(prev.column_ok(c));
        if c == column {
            lemma_drop_same_column(mine, column as u64, count);
            lemma_stack_grows(
                column_bits(mine, column as u64),
                column_bits(theirs, column as u64),
                count,
            );
        } else {
            lemma_drop_other_column(mine, column as u64, c as u64, count);
        }
    }
}

/// Drops a stone for `player` in `column`, after checking in order that the
/// match is not over, that it is `player`'s turn, that the column exists and
/// that it has a free cell. Returns whether the move won the match. A rejected
/// move leaves the game unchanged.
pub fn make_move(game: &mut Game, player: &PlayerKey, column: u8) -> (r: Result<bool, ErrorCode>)
    requires
        old(game).wf(),
    ensures
        final(game).wf(),
        match r {
            Ok(won) => {
                &&& old(game).move_error(*player, column) is None
                &&& final(game).follows_drop(*old(game), column as int)
                &&& won == final(game).finished
                &&& won == has_line_of_four(final(game).board[old(game).side()])
            },
            Err(e) => {
                &&& old(game).move_error(*player, column) == Some(e)
                &&& *final(game) == *old(game)
            },
        },
{
    if game.finished {
        return Err(ErrorCode::GameAlreadyFinished);
    }
    let moves = game.moves;
    let side: usize = (moves & 1) as usize;
    assert(moves & 1 == moves % 2) by (bit_vector);
    let expected = game.current_player();
    if !player.same_as(&expected) {
        return Err(ErrorCode::Unauthorized);
    }
    if column >= 7 {
        return Err(ErrorCode::InvalidColumn);
    }
    let c = column as usize;
    let h = game.height[c];
    if h >= 7 * (column as u64) + 6 {
        return Err(ErrorCode::InvalidMove);
    }
    proof {
        assert(game.column_ok(0) && game.column_ok(1) && game.column_ok(2) && game.column_ok(3));
        assert(game.column_ok(4) && game.column_ok(5) && game.column_ok(6));
    }
    let ghost prev = *game;
    let stones = game.board[side] | (1u64 << h);
    game.board[side] = stones;
    game.height[c] = h + 1;
    game.moves = moves + 1;
    let won = did_win(stones);
    game.finished = won;
    proof {
        assert(game.height@ =~= prev.height@.update(c as int, (h + 1) as u64));
        assert(game.board@ =~= prev.board@.update(side as int, stones));
        lemma_drop_keeps_wf(prev, *game, c as int);
        lemma_stones_on_cells(*game, side as int);
        lemma_win_is_line_of_four(stones);
    }
    Ok(won)
}

/// Whether the stones of `side` hold four in a line.
pub fn did_player_win(game: &Game, side: u8) -> (r: bool)
    requires
        side < 2,
    ensures
        r == has_four(game.board[side as int]),
{
    did_win(game.board[side as usize])
}

/// Program-wide settings and the identifier handed to the next match.
#[derive(Clone, Copy, Debug, PartialEq, Eq)]
pub struct ConnectFour {
    /// The lowest bit index of each column, where a fresh game's heights start.
    pub initial_height: [u64; 7],
    /// The sentinel-row mask.
    pub top_column: u64,
    /// Identifier of the next match created.
    pub game_id: u128,
}

impl ConnectFour {
    /// Heights start at each column's base, the sentinel mask is the board's,
    /// and identifiers are counted from 1.
    pub open spec fn wf(&self) -> bool {
        &&& forall|c: int| 0 <= c < 7 ==> #[trigger] self.initial_height[c] == column_base(c)
        &&& self.top_column == TOP_MASK
        &&& self.game_id >= 1
    }

    /// Whether the registry is well formed: for a registry read back from
    /// storage.
    pub fn is_consistent(&self) -> (r: bool)
        ensures
            r == self.wf(),
    {
        let mut c: usize = 0;
        while c < 7
            invariant
                c <= 7,
                forall|j: int| 0 <= j < c ==> #[trigger] self.initial_height[j] == column_base(j),
            decreases 7 - c,
        {
            if self.initial_height[c] != 7 * (c as u64) {
                return false;
            }
            c = c + 1;
        }
        self.top_column == TOP_MASK && self.game_id >= 1
    }
}

/// A fresh registry: column bases `0, 7, ..., 42`, the sentinel mask, and the
/// first match identifier 1.
pub fn initialize() -> (r: ConnectFour)
    ensures
        r.wf(),
        r.game_id == 1,
{
    let mut initial_height: [u64; 7] = [0; 7];
    let mut i: usize = 0;
    while i < 7
        invariant
            i <= 7,
            forall|c: int| 0 <= c < i ==> #[trigger] initial_height[c] == column_base(c),
        decreases 7 - i,
    {
        initial_height[i] = 7 * (i as u64);
        i = i + 1;
    }
    ConnectFour { initial_height, top_column: TOP_MASK, game_id: 1 }
}

/// Starts a match: `opponent` moves first, `challenger` second, on an empty
/// board with the registry's base heights. The match takes the registry's
/// current identifier, and the registry moves on to the next one.
pub fn challenge(
    connect_four: &mut ConnectFour,
    nonce: u8,
    opponent: PlayerKey,
    challenger: PlayerKey,
) -> (game: Game)
    requires
        old(connect_four).wf(),
        old(connect_four).game_id < u128::MAX,
    ensures
        final(connect_four).wf(),
        final(connect_four).game_id == old(connect_four).game_id + 1,
        final(connect_four).initial_height == old(connect_four).initial_height,
        final(connect_four).top_column == old(connect_four).top_column,
        game.wf(),
        game.game_id == old(connect_four).game_id,
        game.player1 == opponent,
        game.player2 == challenger,
        game.height == old(connect_four).initial_height,
        game.board@ == seq![0u64, 0u64],
        game.moves == 0,
        !game.finished,
        game.nonce == nonce,
{
    let game = Game {
        game_id: connect_four.game_id,
        player1: opponent,
        player2: challenger,
        height: connect_four.initial_height,
        board: [0, 0],
        moves: 0,
        finished: false,
        nonce,
    };
    connect_four.game_id = connect_four.game_id + 1;
    proof {
        assert(game.board@ =~= seq![0u64, 0u64]);
        assert forall|c: int| 0 <= c < 7 implies #[trigger] game.column_ok(c) by {
            assert(game.height[c] == column_base(c));
            assert(game.board[0] == 0 && game.board[1] == 0);
            assert(game.stones_in_column(c) == 0);
            let cc = c as u64;
            assert(column_bits(0, cc) & column_bits(0, cc) == 0 && column_bits(0, cc) | column_bits(
                0,
                cc,
            ) == stack_bits(0)) by (bit_vector);
        }
        assert(0u64 >> 49u64 == 0) by (bit_vector);
        assert(game.stones_in_column(0) == 0 && game.stones_in_column(1) == 0);
        assert(game.stones_in_column(2) == 0 && game.stones_in_column(3) == 0);
        assert(game.stones_in_column(4) == 0 && game.stones_in_column(5) == 0);
        assert(game.stones_in_column(6) == 0);
    }
    game
}

proof fn lemma_disjoint_columns(a: u64, b: u64)
    by (bit_vector)
    requires
        column_bits(a, 0u64) & column_bits(b, 0u64) == 0,
        column_bits(a, 1u64) & column_bits(b, 1u64) == 0,
        column_bits(a, 2u64) & column_bits(b, 2u64) == 0,
        column_bits(a, 3u64) & column_bits(b, 3u64) == 0,
        column_bits(a, 4u64) & column_bits(b, 4u64) == 0,
        column_bits(a, 5u64) & column_bits(b, 5u64) == 0,
        column_bits(a, 6u64) & column_bits(b, 6u64) == 0,
        a >> 49u64 == 0,
        b >> 49u64 == 0,
    ensures
        a & b == 0,
{
}

/// No cell is taken by both sides: the two bitboards of a well-formed game
/// share no bit.
pub proof fn lemma_no_double_occupancy(game: Game)
    requires
        game.wf(),
    ensures
        game.board[0] & game.board[1] == 0,
{
    assert(game.column_ok(0) && game.column_ok(1) && game.column_ok(2) && game.column_ok(3));
    assert(game.column_ok(4) && game.column_ok(5) && game.column_ok(6));
    lemma_disjoint_columns(game.board[0], game.board[1]);
}

proof fn lemma_stack_cell(a: u64, b: u64, column: u64, row: u64, count: u64)
    by (bit_vector)
    requires
        column < 7,
        row < 7,
        count <= 6,
        column_bits(a, column) | column_bits(b, column) == stack_bits(count),
    ensures
        (has_stone(a, (7 * column + row) as u64) || has_stone(b, (7 * column + row) as u64))
            <==> row < count,
{
}

/// Gravity: in every column of a well-formed game the taken cells are exactly
/// the lowest ones, as many as the column holds stones, with no gap; the
/// sentinel row is never taken.
pub proof fn lemma_gravity(game: Game, column: u64, row: u64)
    requires
        game.wf(),
        column < 7,
        row < 7,
    ensures
        (has_stone(game.board[0], (7 * column + row) as u64) || has_stone(
            game.board[1],
            (7 * column + row) as u64,
        )) <==> row < game.stones_in_column(column as int),
{
    assert(game.column_ok(column as int));
    lemma_stack_cell(
        game.board[0],
        game.board[1],
        column,
        row,
        game.stones_in_column(column as int) as u64,
    );
}

proof fn lemma_high_bit_clear(b: u64, i: u64)
    by (bit_vector)
    requires
        b >> 49u64 == 0,
        49 <= i < 64,
    ensures
        !has_stone(b, i),
{
}

/// Every stone of either side of a well-formed game stands on a playable cell.
pub proof fn lemma_stones_on_cells(game: Game, side: int)
    requires
        game.wf(),
        0 <= side < 2,
    ensures
        only_cells(game.board[side]),
{
    let b = game.board[side];
    assert forall|i: u64| i < 64 && #[trigger] has_stone(b, i) implies i < 49 && i % 7 < 6 by {
        if i >= 49 {
            lemma_high_bit_clear(b, i);
        } else {
            let column = i / 7;
            let row = i % 7;
            assert(i == 7 * column + row);
            lemma_gravity(game, column, row);
            assert(game.column_ok(column as int));
        }
    }
}

proof fn lemma_stack_below_sentinel(a: u64, b: u64, column: u64, count: u64)
    by (bit_vector)
    requires
        count <= 6,
        column_bits(a, column) | column_bits(b, column) == stack_bits(count),
    ensures
        column_bits(a, column) & 0x40u64 == 0,
        column_bits(b, column) & 0x40u64 == 0,
{
}

proof fn lemma_sentinels_clear(a: u64)
    by (bit_vector)
    requires
        column_bits(a, 0u64) & 0x40u64 == 0,
        column_bits(a, 1u64) & 0x40u64 == 0,
        column_bits(a, 2u64) & 0x40u64 == 0,
        column_bits(a, 3u64) & 0x40u64 == 0,
        column_bits(a, 4u64) & 0x40u64 == 0,
        column_bits(a, 5u64) & 0x40u64 == 0,
        column_bits(a, 6u64) & 0x40u64 == 0,
    ensures
        a & TOP_MASK == 0,
{
}

proof fn lemma_drop_hits_sentinel(b: u64, column: u64, count: u64)
    by (bit_vector)
    requires
        b & TOP_MASK == 0,
        column < 7,
        count <= 6,
    ensures
        (b | (1u64 << ((7 * column + count) as u64))) & TOP_MASK != 0 <==> count == 6,
{
}

/// A column is full exactly when a stone dropped there would land in the
/// sentinel row, that is, when the mover's stones with it would meet
/// `TOP_MASK`.
pub proof fn lemma_full_column_hits_sentinel(game: Game, column: u8)
    requires
        game.wf(),
        column < 7,
    ensures
        !game.has_room(column as int) <==> (game.board[game.side()] | (1u64
            << game.height[column as int])) & TOP_MASK != 0,
{
    let b = game.board[game.side()];
    assert forall|c: int| 0 <= c < 7 implies #[trigger] column_bits(b, c as u64) & 0x40u64 == 0 by {
        assert(game.column_ok(c));
        lemma_stack_below_sentinel(
            game.board[0],
            game.board[1],
            c as u64,
            game.stones_in_column(c) as u64,
        );
    }
    assert(column_bits(b, 0int as u64) & 0x40u64 == 0);
    assert(column_bits(b, 1int as u64) & 0x40u64 == 0);
    assert(column_bits(b, 2int as u64) & 0x40u64 == 0);
    assert(column_bits(b, 3int as u64) & 0x40u64 == 0);
    assert(column_bits(b, 4int as u64) & 0x40u64 == 0);
    assert(column_bits(b, 5int as u64) & 0x40u64 == 0);
    assert(column_bits(b, 6int as u64) & 0x40u64 == 0);
    lemma_sentinels_clear(b);
    assert(game.column_ok(column as int));
    lemma_drop_hits_sentinel(b, column as u64, game.stones_in_column(column as int) as u64);
}

/// Turns alternate: while the match runs, a move is refused as unauthorized
/// exactly when it does not come from `player1` on an even move count or from
/// `player2` on an odd one; after a legal move the other player is to move.
pub proof fn lemma_turn_alternation(game: Game, next: Game, player: PlayerKey, column: u8)
    requires
        game.wf(),
        next.follows_drop(game, column as int),
    ensures
        !game.finished ==> (game.move_error(player, column) == Some(ErrorCode::Unauthorized)
            <==> player@ != (if game.moves % 2 == 0 {
            game.player1
        } else {
            game.player2
        })@),
        game.move_error(player, column) is None ==> player@ == (if game.moves % 2 == 0 {
            game.player1
        } else {
            game.player2
        })@ && next.mover() == (if game.moves % 2 == 0 {
            game.player2
        } else {
            game.player1
        }),
{
}

/// Once a match is over, every further move is refused as finished; by the
/// contract of `make_move` such a refusal leaves the game as it was.
pub proof fn lemma_finished_is_terminal(game: Game, player: PlayerKey, column: u8)
    requires
        game.finished,
    ensures
        game.move_error(player, column) == Some(ErrorCode::GameAlreadyFinished),
{
}

} // verus!
