//! The game server of "trap the mouse" on an 11 x 11 board: the board and its
//! text form, the computer's mouse, the moves the players send, and the
//! rooms that players join.

use vstd::prelude::*;
use vstd::array::spec_array_update;
use rand::rngs::ThreadRng;
use rand::Rng;
use crate::text::{chars_of, parse_usize, parsed_usize, str_equal, trim, trim_chars};

verus! {

/// What a board cell holds.
#[derive(Clone, Copy, Debug, PartialEq, Eq, Structural)]
pub enum Cell {
    Empty,
    Trap,
    Mouse,
}

/// The side a player plays.
#[derive(Clone, Copy, Debug, PartialEq, Eq, Structural)]
pub enum Role {
    Trapper,
    Mouse,
}

/// Whether the mouse is played by a second person or by the computer.
#[derive(Clone, Copy, Debug, PartialEq, Eq, Structural)]
pub enum Mode {
    Human,
    Computer,
}

/// The board, indexed by row and then column.
pub type Board = [[Cell; 11]; 11];

/// The cell at row `x`, column `y`.
pub open spec fn cell(b: Board, x: int, y: int) -> Cell {
    b@[x]@[y]
}

/// `(x, y)` lies on the board.
pub open spec fn on_board(x: int, y: int) -> bool {
    0 <= x < 11 && 0 <= y < 11
}

/// The value a `usize` has once converted to `isize`, as the server does
/// before stepping in a direction.
pub open spec fn signed(u: usize) -> int {
    (u as isize) as int
}

/// The eight steps the mouse may take, in the order the server tries them.
pub open spec fn dir(k: int) -> (int, int) {
    if k == 0 {
        (-1, 0)
    } else if k == 1 {
        (0, 1)
    } else if k == 2 {
        (1, 0)
    } else if k == 3 {
        (0, -1)
    } else if k == 4 {
        (-1, -1)
    } else if k == 5 {
        (1, 1)
    } else if k == 6 {
        (-1, 1)
    } else {
        (1, -1)
    }
}

/// The step number `k` (of 0 to 7).
pub fn direction(k: usize) -> (r: (isize, isize))
    requires
        k < 8,
    ensures
        r.0 as int == dir(k as int).0,
        r.1 as int == dir(k as int).1,
{
    if k == 0 {
        (-1, 0)
    } else if k == 1 {
        (0, 1)
    } else if k == 2 {
        (1, 0)
    } else if k == 3 {
        (0, -1)
    } else if k == 4 {
        (-1, -1)
    } else if k == 5 {
        (1, 1)
    } else if k == 6 {
        (-1, 1)
    } else {
        (1, -1)
    }
}

/// The cell one step `k` away from `(x, y)` is on the board and empty.
pub open spec fn free_step(b: Board, x: int, y: int, k: int) -> bool {
    let (dx, dy) = dir(k);
    on_board(x + dx, y + dy) && cell(b, x + dx, y + dy) == Cell::Empty
}

/// How many of the first `m` steps from `(x, y)` lead to a free cell.
pub open spec fn free_count(b: Board, x: int, y: int, m: int) -> int
    decreases m,
{
    if m <= 0 {
        0
    } else {
        free_count(b, x, y, m - 1) + if free_step(b, x, y, m - 1) {
            1int
        } else {
            0int
        }
    }
}

proof fn lemma_free_count_bounds(b: Board, x: int, y: int, m: int)
    requires
        0 <= m,
    ensures
        0 <= free_count(b, x, y, m) <= m,
    decreases m,
{
    if m > 0 {
        lemma_free_count_bounds(b, x, y, m - 1);
    }
}

/// The position's steps cannot overflow `isize`.
pub open spec fn steppable(pos: (usize, usize)) -> bool {
    isize::MIN < signed(pos.0) < isize::MAX && isize::MIN < signed(pos.1) < isize::MAX
}

/// Some step from `pos` leads to a free cell.
pub open spec fn can_move(b: Board, pos: (usize, usize)) -> bool {
    exists|k: int| 0 <= k < 8 && #[trigger] free_step(b, signed(pos.0), signed(pos.1), k)
}

/// Whether the cell one step `k` from `(x, y)` is on the board and empty.
fn step_is_free(board: &Board, x: isize, y: isize, k: usize) -> (r: bool)
    requires
        k < 8,
        isize::MIN < x < isize::MAX,
        isize::MIN < y < isize::MAX,
    ensures
        r == free_step(*board, x as int, y as int, k as int),
{
    let (dx, dy) = direction(k);
    let nx = x + dx;
    let ny = y + dy;
    nx >= 0 && ny >= 0 && nx < 11 && ny < 11 && board[nx as usize][ny as usize] == Cell::Empty
}

/// Whether the mouse at `pos` has a free cell among its eight neighbours.
pub fn mouse_can_move(board: &Board, pos: (usize, usize)) -> (r: bool)
    requires
        steppable(pos),
    ensures
        r == can_move(*board, pos),
{
    let x = pos.0 as isize;
    let y = pos.1 as isize;
    let mut k: usize = 0;
    while k < 8
        invariant
            k <= 8,
            x as int == signed(pos.0),
            y as int == signed(pos.1),
            steppable(pos),
            forall|j: int| 0 <= j < k ==> !#[trigger] free_step(*board, x as int, y as int, j),
        decreases 8 - k,
    {
        if step_is_free(board, x, y, k) {
            return true;
        }
        k = k + 1;
    }
    false
}

/// How many of the eight neighbours of an on-board cell are free.
fn count_free(board: &Board, x: isize, y: isize) -> (r: i32)
    requires
        on_board(x as int, y as int),
    ensures
        r as int == free_count(*board, x as int, y as int, 8),
{
    let mut n: i32 = 0;
    let mut k: usize = 0;
    while k < 8
        invariant
            k <= 8,
            on_board(x as int, y as int),
            n as int == free_count(*board, x as int, y as int, k as int),
        decreases 8 - k,
    {
        proof {
            lemma_free_count_bounds(*board, x as int, y as int, k as int);
        }
        if step_is_free(board, x, y, k) {
            n = n + 1;
        }
        k = k + 1;
    }
    n
}

/// The distance from `(x, y)` to the nearest edge of the board.
pub open spec fn edge_distance(x: int, y: int) -> int {
    let a = if x <= 10 - x {
        x
    } else {
        10 - x
    };
    let c = if y <= 10 - y {
        y
    } else {
        10 - y
    };
    if a <= c {
        a
    } else {
        c
    }
}

/// How the computer rates the free neighbour one step `k` from `(x, y)`:
/// close to an edge is better, and so is having many free neighbours.
pub open spec fn step_score(b: Board, x: int, y: int, k: int) -> int {
    let (dx, dy) = dir(k);
    -10 * edge_distance(x + dx, y + dy) + 2 * free_count(b, x + dx, y + dy, 8)
}

/// The computer's choice for the mouse at `pos`: the free neighbour with the
/// best score, the first one in step order among equals, or `None` when the
/// mouse is trapped.
pub open spec fn best_step(b: Board, pos: (usize, usize), k: int) -> bool {
    let x = signed(pos.0);
    let y = signed(pos.1);
    &&& 0 <= k < 8
    &&& free_step(b, x, y, k)
    &&& forall|j: int| 0 <= j < 8 && #[trigger] free_step(b, x, y, j) ==> step_score(b, x, y, j) <= step_score(b, x, y, k)
    &&& forall|j: int| 0 <= j < k && #[trigger] free_step(b, x, y, j) ==> step_score(b, x, y, j) < step_score(b, x, y, k)
}

/// The cell one step `k` from `pos`.
pub open spec fn step_target(pos: (usize, usize), k: int) -> (int, int) {
    (signed(pos.0) + dir(k).0, signed(pos.1) + dir(k).1)
}

/// The free neighbour one step `k` from `(x, y)` and the computer's score for it.
fn neighbour_score(board: &Board, x: isize, y: isize, k: usize) -> (r: ((usize, usize), i32))
    requires
        k < 8,
        isize::MIN < x < isize::MAX,
        isize::MIN < y < isize::MAX,
        free_step(*board, x as int, y as int, k as int),
    ensures
        r.0.0 as int == x + dir(k as int).0,
        r.0.1 as int == y + dir(k as int).1,
        r.1 as int == step_score(*board, x as int, y as int, k as int),
        r.1 > i32::MIN,
{
    let (dx, dy) = direction(k);
    let nx = x + dx;
    let ny = y + dy;
    assert(0 <= nx < 11 && 0 <= ny < 11);
    let ux = nx as usize;
    let uy = ny as usize;
    let da = if ux <= 10 - ux { ux } else { 10 - ux };
    let db = if uy <= 10 - uy { uy } else { 10 - uy };
    let dist = if da <= db { da } else { db };
    let free = count_free(board, nx, ny);
    proof {
        lemma_free_count_bounds(*board, nx as int, ny as int, 8);
    }
    assert(dist <= 10);
    assert(0 <= free <= 8);
    let d32 = dist as i32;
    let score = 2 * free - 10 * d32;
    ((ux, uy), score)
}

/// Picks the move of the computer's mouse.
pub fn computer_mouse_move(board: &Board, pos: (usize, usize)) -> (r: Option<(usize, usize)>)
    requires
        steppable(pos),
    ensures
        r is None <==> !can_move(*board, pos),
        r matches Some(n) ==> exists|k: int| #[trigger] best_step(*board, pos, k) && step_target(pos, k) == (n.0 as int, n.1 as int),
{
    let x = pos.0 as isize;
    let y = pos.1 as isize;
    let mut best: Option<(usize, usize)> = None;
    let mut best_score: i32 = i32::MIN;
    let ghost mut bk: int = -1;
    let mut k: usize = 0;
    while k < 8
        invariant
            k <= 8,
            x as int == signed(pos.0),
            y as int == signed(pos.1),
            steppable(pos),
            best is None ==> best_score == i32::MIN && forall|j: int| 0 <= j < k ==> !#[trigger] free_step(*board, x as int, y as int, j),
            best matches Some(n) ==> {
                &&& 0 <= bk < k
                &&& free_step(*board, x as int, y as int, bk)
                &&& best_score as int == step_score(*board, x as int, y as int, bk)
                &&& step_target(pos, bk) == (n.0 as int, n.1 as int)
                &&& forall|j: int| 0 <= j < k && #[trigger] free_step(*board, x as int, y as int, j) ==> step_score(*board, x as int, y as int, j) <= best_score
                &&& forall|j: int| 0 <= j < bk && #[trigger] free_step(*board, x as int, y as int, j) ==> step_score(*board, x as int, y as int, j) < best_score
            },
        decreases 8 - k,
    {
        if step_is_free(board, x, y, k) {
            let (n, score) = neighbour_score(board, x, y, k);
            if score > best_score {
                best_score = score;
                best = Some(n);
                proof {
                    bk = k as int;
                }
            }
        }
        k = k + 1;
    }
    proof {
        if let Some(n) = best {
            assert(best_step(*board, pos, bk));
        } else {
            assert forall|j: int| 0 <= j < 8 implies !#[trigger] free_step(*board, signed(pos.0), signed(pos.1), j) by {}
        }
    }
    best
}

/// The text form of a cell.
pub open spec fn cell_char(c: Cell) -> char {
    match c {
        Cell::Empty => '.',
        Cell::Trap => '#',
        Cell::Mouse => 'M',
    }
}

/// Row `x` of the board as a line of text.
pub open spec fn row_text(b: Board, x: int) -> Seq<char> {
    Seq::new(11, |y: int| cell_char(cell(b, x, y))).push('\n')
}

/// The first `n` rows of the board as lines of text.
pub open spec fn rows_text(b: Board, n: int) -> Seq<char>
    decreases n,
{
    if n <= 0 {
        seq![]
    } else {
        rows_text(b, n - 1) + row_text(b, n - 1)
    }
}

/// The board as the server sends it, between its start and end markers.
pub open spec fn board_text(b: Board) -> Seq<char> {
    "BOARD_START\n"@ + rows_text(b, 11) + "BOARD_END\n"@
}

fn cell_symbol(c: Cell) -> (r: char)
    ensures
        r == cell_char(c),
{
    match c {
        Cell::Empty => '.',
        Cell::Trap => '#',
        Cell::Mouse => 'M',
    }
}

/// The board as text: a start marker, one line per row, an end marker.
pub fn serialize_board(board: &Board) -> (s: String)
    ensures
        s@ == board_text(*board),
{
    let mut s = String::new();
    s.append("BOARD_START\n");
    let ghost head = s@;
    let mut x: usize = 0;
    while x < 11
        invariant
            x <= 11,
            s@ == head + rows_text(*board, x as int),
        decreases 11 - x,
    {
        let ghost before = s@;
        let mut y: usize = 0;
        while y < 11
            invariant
                y <= 11,
                x < 11,
                s@ == before + Seq::new(y as nat, |j: int| cell_char(cell(*board, x as int, j))),
            decreases 11 - y,
        {
            crate::text::push_char(&mut s, cell_symbol(board[x][y]));
            y = y + 1;
            assert(s@ =~= before + Seq::new(y as nat, |j: int| cell_char(cell(*board, x as int, j))));
        }
        crate::text::push_char(&mut s, '\n');
        assert(s@ =~= head + rows_text(*board, x + 1));
        x = x + 1;
    }
    s.append("BOARD_END\n");
    s
}

/// What `str::parse::<usize>` gives for a word.
pub open spec fn parse_word(w: &str) -> Option<nat> {
    parsed_usize(w@)
}

/// The coordinates of a three-word command such as `MOVE 3 4`, when both
/// numbers parse and lie on the board.
pub open spec fn coords_of(parts: Seq<&str>) -> Option<(usize, usize)> {
    if parts.len() == 3 && parse_word(parts[1]) is Some && parse_word(parts[2]) is Some
        && parse_word(parts[1])->0 < 11 && parse_word(parts[2])->0 < 11 {
        Some((parse_word(parts[1])->0 as usize, parse_word(parts[2])->0 as usize))
    } else {
        None
    }
}

/// Reads the two coordinates of a command of three words.
pub fn parse_coords(parts: &[&str]) -> (r: Option<(usize, usize)>)
    ensures
        r == coords_of(parts@),
{
    if parts.len() != 3 {
        return None;
    }
    let x = match parse_usize(parts[1]) {
        Some(v) => v,
        None => return None,
    };
    let y = match parse_usize(parts[2]) {
        Some(v) => v,
        None => return None,
    };
    if x < 11 && y < 11 {
        Some((x, y))
    } else {
        None
    }
}

/// A game: its mode, how many players joined, the board, where the mouse
/// is, and whose turn it is.
#[derive(Clone, Copy)]
pub struct Room {
    pub mode: Mode,
    pub players: usize,
    pub board: Board,
    pub mouse_pos: (usize, usize),
    pub turn: Role,
}

impl Room {
    /// The mouse is on the board, at `mouse_pos`, and nowhere else.
    pub open spec fn wf(&self) -> bool {
        &&& on_board(self.mouse_pos.0 as int, self.mouse_pos.1 as int)
        &&& cell(self.board, self.mouse_pos.0 as int, self.mouse_pos.1 as int) == Cell::Mouse
        &&& forall|i: int, j: int| on_board(i, j) && (i, j) != (self.mouse_pos.0 as int, self.mouse_pos.1 as int) ==> #[trigger] cell(self.board, i, j) != Cell::Mouse
    }

    /// Whether the room is well formed (`wf`).
    pub fn is_well_formed(&self) -> (r: bool)
        ensures
            r == self.wf(),
    {
        let (mx, my) = self.mouse_pos;
        if mx >= 11 || my >= 11 || self.board[mx][my] != Cell::Mouse {
            return false;
        }
        let mut i: usize = 0;
        while i < 11
            invariant
                i <= 11,
                mx < 11 && my < 11,
                (mx, my) == self.mouse_pos,
                forall|a: int, b: int| 0 <= a < i && 0 <= b < 11 && (a, b) != (mx as int, my as int) ==> #[trigger] cell(self.board, a, b) != Cell::Mouse,
            decreases 11 - i,
        {
            let mut j: usize = 0;
            while j < 11
                invariant
                    i < 11,
                    j <= 11,
                    mx < 11 && my < 11,
                    (mx, my) == self.mouse_pos,
                    forall|a: int, b: int| 0 <= a < i && 0 <= b < 11 && (a, b) != (mx as int, my as int) ==> #[trigger] cell(self.board, a, b) != Cell::Mouse,
                    forall|b: int| 0 <= b < j && (i as int, b) != (mx as int, my as int) ==> #[trigger] cell(self.board, i as int, b) != Cell::Mouse,
                decreases 11 - j,
            {
                if (i != mx || j != my) && self.board[i][j] == Cell::Mouse {
                    assert(cell(self.board, i as int, j as int) == Cell::Mouse);
                    return false;
                }
                j = j + 1;
            }
            i = i + 1;
        }
        true
    }
}

proof fn lemma_wf_steppable(room: &Room)
    requires
        room.wf(),
    ensures
        steppable(room.mouse_pos),
        signed(room.mouse_pos.0) == room.mouse_pos.0 as int,
        signed(room.mouse_pos.1) == room.mouse_pos.1 as int,
{
}

/// The mouse has reached an edge of the board.
pub open spec fn mouse_escaped(pos: (usize, usize)) -> bool {
    pos.0 == 0 || pos.0 == 10 || pos.1 == 0 || pos.1 == 10
}

/// The role of the player who joined a room in place `i`: the first plays the
/// trapper, every later one the mouse.
pub open spec fn player_role(i: int) -> Role {
    if i == 0 {
        Role::Trapper
    } else {
        Role::Mouse
    }
}

/// How a role is written in messages.
pub open spec fn role_name(r: Role) -> Seq<char> {
    match r {
        Role::Trapper => "Trapper"@,
        Role::Mouse => "Mouse"@,
    }
}

/// How a mode is written in messages.
pub open spec fn mode_name(m: Mode) -> Seq<char> {
    match m {
        Mode::Human => "Human"@,
        Mode::Computer => "Computer"@,
    }
}

/// The name of a role.
pub fn role_text(r: Role) -> (s: &'static str)
    ensures
        s@ == role_name(r),
{
    match r {
        Role::Trapper => "Trapper",
        Role::Mouse => "Mouse",
    }
}

/// The name of a mode.
pub fn mode_text(m: Mode) -> (s: &'static str)
    ensures
        s@ == mode_name(m),
{
    match m {
        Mode::Human => "Human",
        Mode::Computer => "Computer",
    }
}

/// The game-over line for a player, empty while the game goes on: the mouse
/// wins by reaching an edge and loses when it cannot move.
pub open spec fn game_over_line(room: Room, role: Role) -> Seq<char> {
    if mouse_escaped(room.mouse_pos) {
        if role == Role::Mouse {
            "GAME_OVER: WIN\n"@
        } else {
            "GAME_OVER: LOSE\n"@
        }
    } else if !can_move(room.board, room.mouse_pos) {
        if role == Role::Mouse {
            "GAME_OVER: LOSE\n"@
        } else {
            "GAME_OVER: WIN\n"@
        }
    } else {
        seq![]
    }
}

/// The update the player in place `i` receives.
pub open spec fn message_text(room: Room, i: int) -> Seq<char> {
    board_text(room.board) + game_over_line(room, player_role(i)) + "YOUR_ROLE: "@ + role_name(
        player_role(i),
    ) + "\nTURN: "@ + role_name(room.turn) + "\nMODE: "@ + mode_name(room.mode) + "\n"@
}

/// The update for the player in place `i`: the board, the end of the game if
/// it is over, the player's role, whose turn it is, and the mode.
pub fn player_message(room: &Room, i: usize) -> (s: String)
    requires
        room.wf(),
    ensures
        s@ == message_text(*room, i as int),
{
    proof {
        lemma_wf_steppable(room);
    }
    let mut s = serialize_board(&room.board);
    let won = room.mouse_pos.0 == 0 || room.mouse_pos.0 == 10 || room.mouse_pos.1 == 0
        || room.mouse_pos.1 == 10;
    let lost = !mouse_can_move(&room.board, room.mouse_pos);
    let role = if i == 0 {
        Role::Trapper
    } else {
        Role::Mouse
    };
    let over: &str = if won {
        if role == Role::Mouse {
            "GAME_OVER: WIN\n"
        } else {
            "GAME_OVER: LOSE\n"
        }
    } else if lost {
        if role == Role::Mouse {
            "GAME_OVER: LOSE\n"
        } else {
            "GAME_OVER: WIN\n"
        }
    } else {
        ""
    };
    proof {
        reveal_strlit("");
    }
    s.append(over);
    s.append("YOUR_ROLE: ");
    s.append(role_text(role));
    s.append("\nTURN: ");
    s.append(role_text(room.turn));
    s.append("\nMODE: ");
    s.append(mode_text(room.mode));
    s.append("\n");
    s
}

/// The board with the cell at row `x`, column `y` replaced by `c`.
pub open spec fn set_cell(b: Board, x: int, y: int, c: Cell) -> Board {
    spec_array_update(b, x, spec_array_update(b@[x], y, c))
}

proof fn lemma_set_cell(b: Board, x: int, y: int, c: Cell)
    requires
        on_board(x, y),
    ensures
        forall|i: int, j: int| on_board(i, j) ==> #[trigger] cell(set_cell(b, x, y, c), i, j) == if i == x && j == y {
            c
        } else {
            cell(b, i, j)
        },
{
    assert forall|i: int, j: int| on_board(i, j) implies #[trigger] cell(set_cell(b, x, y, c), i, j) == if i == x && j == y {
        c
    } else {
        cell(b, i, j)
    } by {
        if i == x {
            assert(set_cell(b, x, y, c)@[i] == spec_array_update(b@[x], y, c));
        }
    }
}

/// The room after the mouse moved from its place to `(x, y)`.
pub open spec fn with_mouse_at(room: Room, x: int, y: int) -> Room {
    Room {
        mode: room.mode,
        players: room.players,
        board: set_cell(
            set_cell(room.board, room.mouse_pos.0 as int, room.mouse_pos.1 as int, Cell::Empty),
            x,
            y,
            Cell::Mouse,
        ),
        mouse_pos: (x as usize, y as usize),
        turn: room.turn,
    }
}

/// The room with a trap at `(x, y)` and the turn passed to the mouse.
pub open spec fn with_trap_at(room: Room, x: int, y: int) -> Room {
    Room {
        mode: room.mode,
        players: room.players,
        board: set_cell(room.board, x, y, Cell::Trap),
        mouse_pos: room.mouse_pos,
        turn: Role::Mouse,
    }
}

/// The room with the turn given to `r`.
pub open spec fn with_turn(room: Room, r: Role) -> Room {
    Room { mode: room.mode, players: room.players, board: room.board, mouse_pos: room.mouse_pos, turn: r }
}

/// What the computer does when it is its turn to move the mouse: it moves to
/// its best free neighbour, if there is one, and gives the turn back to the
/// trapper. In any other case the room is left as it is.
pub open spec fn computer_step(before: Room, after: Room) -> bool {
    if before.mode == Mode::Computer && before.turn == Role::Mouse {
        if can_move(before.board, before.mouse_pos) {
            exists|k: int| #[trigger] best_step(before.board, before.mouse_pos, k)
                && after == with_turn(with_mouse_at(before, step_target(before.mouse_pos, k).0, step_target(before.mouse_pos, k).1), Role::Trapper)
        } else {
            after == with_turn(before, Role::Trapper)
        }
    } else {
        after == before
    }
}

proof fn lemma_mouse_move_wf(room: Room, x: int, y: int)
    requires
        room.wf(),
        on_board(x, y),
        cell(room.board, x, y) == Cell::Empty,
    ensures
        with_mouse_at(room, x, y).wf(),
{
    let mx = room.mouse_pos.0 as int;
    let my = room.mouse_pos.1 as int;
    lemma_set_cell(room.board, mx, my, Cell::Empty);
    lemma_set_cell(set_cell(room.board, mx, my, Cell::Empty), x, y, Cell::Mouse);
}

proof fn lemma_trap_wf(room: Room, x: int, y: int)
    requires
        room.wf(),
        on_board(x, y),
        cell(room.board, x, y) == Cell::Empty,
    ensures
        with_trap_at(room, x, y).wf(),
{
    lemma_set_cell(room.board, x, y, Cell::Trap);
}

/// When the computer plays the mouse and it is the mouse's turn, moves the
/// mouse and gives the turn back; says whether it did, so that the players
/// are sent the new state.
pub fn computer_move_if_needed(room: &mut Room) -> (r: bool)
    requires
        old(room).wf(),
    ensures
        final(room).wf(),
        r == (old(room).mode == Mode::Computer && old(room).turn == Role::Mouse),
        computer_step(*old(room), *final(room)),
{
    if room.mode == Mode::Computer && room.turn == Role::Mouse {
        proof {
            lemma_wf_steppable(room);
        }
        let (mx, my) = room.mouse_pos;
        if let Some(np) = computer_mouse_move(&room.board, room.mouse_pos) {
            let ghost k = choose|k: int| #[trigger] best_step(old(room).board, old(room).mouse_pos, k) && step_target(old(room).mouse_pos, k) == (np.0 as int, np.1 as int);
            proof {
                lemma_mouse_move_wf(*old(room), np.0 as int, np.1 as int);
            }
            room.board[mx][my] = Cell::Empty;
            room.board[np.0][np.1] = Cell::Mouse;
            room.mouse_pos = np;
            room.turn = Role::Trapper;
            assert(*room == with_turn(with_mouse_at(*old(room), step_target(old(room).mouse_pos, k).0, step_target(old(room).mouse_pos, k).1), Role::Trapper));
        } else {
            room.turn = Role::Trapper;
        }
        true
    } else {
        false
    }
}

/// The role of the player in place `idx`: with the computer as the mouse
/// every player is the trapper; otherwise the first player is.
pub open spec fn my_role(mode: Mode, idx: int) -> Role {
    if mode == Mode::Computer || idx == 0 {
        Role::Trapper
    } else {
        Role::Mouse
    }
}

/// The target of a `MOVE x y` command, when it is the sender's turn.
pub open spec fn move_request(room: Room, idx: int, parts: Seq<&str>) -> Option<(usize, usize)> {
    if parts.len() > 0 && parts[0]@ == "MOVE"@ && room.turn == my_role(room.mode, idx) {
        coords_of(parts)
    } else {
        None
    }
}

/// `(x, y)` is one of the eight neighbours of `(a, b)`.
pub open spec fn adjacent(x: int, y: int, a: int, b: int) -> bool {
    -1 <= x - a <= 1 && -1 <= y - b <= 1 && (x != a || y != b)
}

/// Plays the command a player sent (its words in `parts`). Returns how many
/// times the players must be sent the new state: none when the command is not
/// a move of the sender's turn, once after any such move (also when the
/// target is refused), and once more when the computer answered.
pub fn handle_move(room: &mut Room, player_idx: usize, parts: &[&str]) -> (r: usize)
    requires
        old(room).wf(),
    ensures
        final(room).wf(),
        move_request(*old(room), player_idx as int, parts@) is None ==> r == 0 && *final(room) == *old(room),
        move_request(*old(room), player_idx as int, parts@) matches Some((x, y)) ==> {
            let role = my_role(old(room).mode, player_idx as int);
            let target = cell(old(room).board, x as int, y as int);
            if role == Role::Trapper && target == Cell::Empty {
                &&& computer_step(with_trap_at(*old(room), x as int, y as int), *final(room))
                &&& r == if old(room).mode == Mode::Computer { 2usize } else { 1usize }
            } else if role == Role::Mouse && target == Cell::Empty && adjacent(x as int, y as int, old(room).mouse_pos.0 as int, old(room).mouse_pos.1 as int) {
                &&& *final(room) == with_turn(with_mouse_at(*old(room), x as int, y as int), Role::Trapper)
                &&& r == 1
            } else {
                &&& *final(room) == *old(room)
                &&& r == 1
            }
        },
{
    let my = if room.mode == Mode::Computer || (room.mode == Mode::Human && player_idx == 0) {
        Role::Trapper
    } else {
        Role::Mouse
    };
    let is_move = parts.len() > 0 && str_equal(parts[0], "MOVE");
    let coords = parse_coords(parts);
    if !is_move || room.turn != my {
        return 0;
    }
    let (x, y) = match coords {
        Some(c) => c,
        None => return 0,
    };
    let mut sends: usize = 1;
    let target = room.board[x][y];
    if my == Role::Trapper && target == Cell::Empty {
        proof {
            lemma_trap_wf(*old(room), x as int, y as int);
        }
        room.board[x][y] = Cell::Trap;
        room.turn = Role::Mouse;
        assert(*room == with_trap_at(*old(room), x as int, y as int));
        if computer_move_if_needed(room) {
            sends = 2;
        }
    } else if my == Role::Mouse && target == Cell::Empty {
        let (mx, my_) = room.mouse_pos;
        let dx = if x >= mx { x - mx } else { mx - x };
        let dy = if y >= my_ { y - my_ } else { my_ - y };
        if (dx == 1 && dy == 0) || (dx == 0 && dy == 1) || (dx == 1 && dy == 1) {
            proof {
                lemma_mouse_move_wf(*old(room), x as int, y as int);
            }
            room.board[mx][my_] = Cell::Empty;
            room.board[x][y] = Cell::Mouse;
            room.mouse_pos = (x, y);
            room.turn = Role::Trapper;
            assert(*room == with_turn(with_mouse_at(*old(room), x as int, y as int), Role::Trapper));
        }
    }
    sends
}

/// The cells of the board in reading order: row by row, left to right.
pub open spec fn cells(b: Board) -> Seq<Cell> {
    Seq::new(121, |k: int| cell(b, k / 11, k % 11))
}

/// How many times `c` occurs in `s`.
pub open spec fn count_of(s: Seq<Cell>, c: Cell) -> nat
    decreases s.len(),
{
    if s.len() == 0 {
        0
    } else {
        count_of(s.drop_last(), c) + if s.last() == c {
            1nat
        } else {
            0nat
        }
    }
}

/// The number of traps on the board.
pub open spec fn trap_count(b: Board) -> nat {
    count_of(cells(b), Cell::Trap)
}

/// The number of empty cells on the board.
pub open spec fn empty_count(b: Board) -> nat {
    count_of(cells(b), Cell::Empty)
}

proof fn lemma_count_update(s: Seq<Cell>, i: int, v: Cell, c: Cell)
    requires
        0 <= i < s.len(),
    ensures
        count_of(s.update(i, v), c) + (if s[i] == c {
            1int
        } else {
            0int
        }) == count_of(s, c) + (if v == c {
            1int
        } else {
            0int
        }),
    decreases s.len(),
{
    if i == s.len() - 1 {
        assert(s.update(i, v).drop_last() =~= s.drop_last());
    } else {
        lemma_count_update(s.drop_last(), i, v, c);
        assert(s.update(i, v).drop_last() =~= s.drop_last().update(i, v));
    }
}

proof fn lemma_count_take_push(s: Seq<Cell>, i: int, c: Cell)
    requires
        0 <= i < s.len(),
    ensures
        count_of(s.take(i + 1), c) == count_of(s.take(i), c) + if s[i] == c {
            1nat
        } else {
            0nat
        },
{
    assert(s.take(i + 1).drop_last() =~= s.take(i));
}

proof fn lemma_count_all(s: Seq<Cell>, c: Cell)
    requires
        forall|k: int| 0 <= k < s.len() ==> s[k] == c,
    ensures
        count_of(s, c) == s.len(),
    decreases s.len(),
{
    if s.len() > 0 {
        lemma_count_all(s.drop_last(), c);
    }
}

proof fn lemma_count_none(s: Seq<Cell>, c: Cell)
    requires
        forall|k: int| 0 <= k < s.len() ==> s[k] != c,
    ensures
        count_of(s, c) == 0,
    decreases s.len(),
{
    if s.len() > 0 {
        lemma_count_none(s.drop_last(), c);
    }
}

proof fn lemma_cells_set(b: Board, x: int, y: int, v: Cell)
    requires
        on_board(x, y),
    ensures
        cells(set_cell(b, x, y, v)) == cells(b).update(x * 11 + y, v),
{
    lemma_set_cell(b, x, y, v);
    assert forall|k: int| 0 <= k < 121 implies #[trigger] cells(set_cell(b, x, y, v))[k] == cells(b).update(x * 11 + y, v)[k] by {
        let i = k / 11;
        let j = k % 11;
        assert(on_board(i, j));
        assert((i == x && j == y) <==> k == x * 11 + y);
    }
    assert(cells(set_cell(b, x, y, v)) =~= cells(b).update(x * 11 + y, v));
}

/// The index of the `k`-th empty cell of `s` from index `i` on (counting
/// from 0), or `s.len()` when there are not that many.
pub open spec fn nth_empty_from(s: Seq<Cell>, k: nat, i: int) -> int
    decreases s.len() - i,
{
    if i < 0 || i >= s.len() {
        s.len() as int
    } else if s[i] == Cell::Empty {
        if k == 0 {
            i
        } else {
            nth_empty_from(s, (k - 1) as nat, i + 1)
        }
    } else {
        nth_empty_from(s, k, i + 1)
    }
}

/// The `k`-th empty cell in reading order (counting from 0).
fn nth_empty(board: &Board, k: usize) -> (r: (usize, usize))
    requires
        k < empty_count(*board),
    ensures
        on_board(r.0 as int, r.1 as int),
        cell(*board, r.0 as int, r.1 as int) == Cell::Empty,
        count_of(cells(*board).take(r.0 * 11 + r.1), Cell::Empty) == k,
        r.0 * 11 + r.1 == nth_empty_from(cells(*board), k as nat, 0),
{
    let ghost cs = cells(*board);
    let mut seen: usize = 0;
    let mut idx: usize = 0;
    while idx < 121
        invariant
            idx <= 121,
            cs == cells(*board),
            seen <= k,
            k < count_of(cs, Cell::Empty),
            seen as nat == count_of(cs.take(idx as int), Cell::Empty),
            nth_empty_from(cs, k as nat, 0) == nth_empty_from(cs, (k - seen) as nat, idx as int),
        decreases 121 - idx,
    {
        let i = idx / 11;
        let j = idx % 11;
        proof {
            lemma_count_take_push(cs, idx as int, Cell::Empty);
            assert(cs[idx as int] == cell(*board, i as int, j as int));
        }
        if board[i][j] == Cell::Empty {
            if seen == k {
                return (i, j);
            }
            seen = seen + 1;
        }
        idx = idx + 1;
    }
    proof {
        assert(cs.take(121) =~= cs);
    }
    (0, 0)
}

/// The cells of a board before any trap is placed: the mouse in the centre,
/// every other cell empty.
pub open spec fn start_cells() -> Seq<Cell> {
    Seq::new(121, |k: int| if k == 60 { Cell::Mouse } else { Cell::Empty })
}

/// The cells after the first `n` of the `picks` are placed as traps, in
/// order: each pick is the rank, in reading order, of the trap's cell among
/// the cells still empty.
pub open spec fn cells_after_draws(picks: Seq<usize>, n: int) -> Seq<Cell>
    decreases n,
{
    if n <= 0 {
        start_cells()
    } else {
        let prev = cells_after_draws(picks, n - 1);
        prev.update(nth_empty_from(prev, picks[n - 1] as nat, 0), Cell::Trap)
    }
}

/// `walls` picks, each below the number of cells still empty when it is
/// used (120 before the first trap, one fewer after each).
pub open spec fn valid_draws(walls: int, picks: Seq<usize>) -> bool {
    &&& 0 <= walls <= 120
    &&& picks.len() == walls
    &&& forall|t: int| 0 <= t < walls ==> #[trigger] picks[t] <= 119 - t
}

/// The board built from drawn values: the mouse in the centre and one trap
/// for each pick, on the cell of that rank among the cells still empty.
pub fn board_from_draws(walls: usize, picks: &Vec<usize>) -> (b: Board)
    requires
        valid_draws(walls as int, picks@),
    ensures
        cells(b) == cells_after_draws(picks@, walls as int),
        cell(b, 5, 5) == Cell::Mouse,
        forall|i: int, j: int| on_board(i, j) && (i, j) != (5int, 5int) ==> #[trigger] cell(b, i, j) != Cell::Mouse,
        trap_count(b) == walls,
        empty_count(b) == 120 - walls,
{
    let mut board: Board = [[Cell::Empty; 11]; 11];
    proof {
        assert forall|k: int| 0 <= k < 121 implies #[trigger] cells(board)[k] == Cell::Empty by {
            let i = k / 11;
            assert(0 <= i < 11);
            assert(board@[i]@[k % 11] == Cell::Empty);
        }
        lemma_count_all(cells(board), Cell::Empty);
        lemma_count_none(cells(board), Cell::Trap);
        lemma_cells_set(board, 5, 5, Cell::Mouse);
        lemma_count_update(cells(board), 60, Cell::Mouse, Cell::Empty);
        lemma_count_update(cells(board), 60, Cell::Mouse, Cell::Trap);
        lemma_set_cell(board, 5, 5, Cell::Mouse);
        assert(cells(board).update(60, Cell::Mouse) =~= start_cells());
    }
    board[5][5] = Cell::Mouse;
    let mut placed: usize = 0;
    while placed < walls
        invariant
            placed <= walls <= 120,
            valid_draws(walls as int, picks@),
            cells(board) == cells_after_draws(picks@, placed as int),
            cell(board, 5, 5) == Cell::Mouse,
            forall|i: int, j: int| on_board(i, j) && (i, j) != (5int, 5int) ==> #[trigger] cell(board, i, j) != Cell::Mouse,
            trap_count(board) == placed,
            empty_count(board) == 120 - placed,
        decreases walls - placed,
    {
        let pick = picks[placed];
        assert(pick <= 119 - placed);
        let (x, y) = nth_empty(&board, pick);
        proof {
            lemma_set_cell(board, x as int, y as int, Cell::Trap);
            lemma_cells_set(board, x as int, y as int, Cell::Trap);
            lemma_count_update(cells(board), x * 11 + y, Cell::Trap, Cell::Empty);
            lemma_count_update(cells(board), x * 11 + y, Cell::Trap, Cell::Trap);
            assert(cells(board)[x * 11 + y] == Cell::Empty);
        }
        board[x][y] = Cell::Trap;
        placed = placed + 1;
    }
    board
}

#[verifier::external_type_specification]
#[verifier::external_body]
pub struct ExThreadRng(ThreadRng);

/// `rand::thread_rng`: a handle on the generator of the current thread.
/// Nothing is claimed of it.
#[verifier::external_body]
fn new_thread_rng() -> ThreadRng {
    rand::thread_rng()
}

/// `Rng::gen_range` over the inclusive range `lo..=hi`, which must not be
/// empty (rand panics on an empty range). Claimed: the number lies in the
/// range; which one is left to chance.
#[verifier::external_body]
fn gen_range_inclusive(rng: &mut ThreadRng, lo: usize, hi: usize) -> (r: usize)
    requires
        lo <= hi,
    ensures
        lo <= r <= hi,
{
    rng.gen_range(lo..=hi)
}

/// A new board: the mouse in the centre and between 5 and 12 traps, each on
/// an empty cell drawn uniformly among the cells still empty. The number of
/// traps and the picks are drawn at random; the board is the one
/// `board_from_draws` builds from them.
pub fn initial_board() -> (b: Board)
    ensures
        exists|walls: int, picks: Seq<usize>|
            5 <= walls <= 12 && valid_draws(walls, picks) && cells(b) == #[trigger] cells_after_draws(picks, walls),
        cell(b, 5, 5) == Cell::Mouse,
        forall|i: int, j: int| on_board(i, j) && (i, j) != (5int, 5int) ==> #[trigger] cell(b, i, j) != Cell::Mouse,
        5 <= trap_count(b) <= 12,
        empty_count(b) + trap_count(b) == 120,
{
    let mut rng = new_thread_rng();
    let walls = gen_range_inclusive(&mut rng, 5, 12);
    let mut picks: Vec<usize> = Vec::new();
    let mut t: usize = 0;
    while t < walls
        invariant
            t <= walls <= 12,
            picks@.len() == t,
            forall|u: int| 0 <= u < t ==> #[trigger] picks@[u] <= 119 - u,
        decreases walls - t,
    {
        picks.push(gen_range_inclusive(&mut rng, 0, 119 - t));
        t = t + 1;
    }
    let b = board_from_draws(walls, &picks);
    assert(5 <= walls <= 12 && valid_draws(walls as int, picks@) && cells(b) == cells_after_draws(picks@, walls as int));
    b
}

/// A room as it is created: the given mode, one player, a new board, the
/// mouse in the centre and the trapper to play.
pub open spec fn fresh_room(r: Room, mode: Mode) -> bool {
    &&& r.mode == mode
    &&& r.players == 1
    &&& r.mouse_pos == (5usize, 5usize)
    &&& r.turn == Role::Trapper
    &&& r.wf()
    &&& 5 <= trap_count(r.board) <= 12
    &&& empty_count(r.board) + trap_count(r.board) == 120
}

/// A new room for its first player.
pub fn new_room(mode: Mode) -> (r: Room)
    ensures
        fresh_room(r, mode),
{
    Room { mode, players: 1, board: initial_board(), mouse_pos: (5, 5), turn: Role::Trapper }
}

/// The mode a player asks for: `2` (around whitespace) for a game against the
/// computer, anything else for a game between two people.
pub open spec fn chosen_mode(choice: Seq<char>) -> Mode {
    if trim(choice) == "2"@ {
        Mode::Computer
    } else {
        Mode::Human
    }
}

/// Reads the mode a player chose.
pub fn parse_mode_choice(choice: &str) -> (m: Mode)
    ensures
        m == chosen_mode(choice@),
{
    let t = trim_chars(&chars_of(choice));
    proof {
        reveal_strlit("2");
    }
    if t.len() == 1 && t[0] == '2' {
        assert(t@ =~= "2"@);
        Mode::Computer
    } else {
        Mode::Human
    }
}

/// A room between people that still takes players (fewer than three).
pub open spec fn open_human_room(r: Room) -> bool {
    r.mode == Mode::Human && r.players < 3
}

/// The first room between people that still takes players.
pub fn find_human_room(rooms: &Vec<Room>) -> (r: Option<usize>)
    ensures
        r matches Some(i) ==> i < rooms@.len() && open_human_room(rooms@[i as int]) && forall|j: int| 0 <= j < i ==> !#[trigger] open_human_room(rooms@[j]),
        r is None ==> forall|j: int| 0 <= j < rooms@.len() ==> !#[trigger] open_human_room(rooms@[j]),
{
    let mut i: usize = 0;
    while i < rooms.len()
        invariant
            i <= rooms@.len(),
            forall|j: int| 0 <= j < i ==> !#[trigger] open_human_room(rooms@[j]),
        decreases rooms@.len() - i,
    {
        if rooms[i].mode == Mode::Human && rooms[i].players < 3 {
            return Some(i);
        }
        i = i + 1;
    }
    None
}

/// Every room is well formed.
pub open spec fn all_wf(rooms: Seq<Room>) -> bool {
    forall|j: int| 0 <= j < rooms.len() ==> #[trigger] rooms[j].wf()
}

/// Seats a new player: a player who wants a game between people joins the
/// first such room that takes players, in place 1; otherwise a new room is
/// opened with the player in place 0. Returns the room's index and the
/// player's place.
pub fn join_room(rooms: &mut Vec<Room>, mode: Mode) -> (r: (usize, usize))
    requires
        all_wf(old(rooms)@),
    ensures
        all_wf(final(rooms)@),
        ({
            let first = if mode == Mode::Human {
                exists|i: int| 0 <= i < old(rooms)@.len() && #[trigger] open_human_room(old(rooms)@[i])
            } else {
                false
            };
            if first {
                &&& r.1 == 1
                &&& r.0 < old(rooms)@.len()
                &&& open_human_room(old(rooms)@[r.0 as int])
                &&& forall|j: int| 0 <= j < r.0 ==> !#[trigger] open_human_room(old(rooms)@[j])
                &&& final(rooms)@.len() == old(rooms)@.len()
                &&& forall|j: int| 0 <= j < old(rooms)@.len() && j != r.0 ==> #[trigger] final(rooms)@[j] == old(rooms)@[j]
                &&& final(rooms)@[r.0 as int] == (Room { players: (old(rooms)@[r.0 as int].players + 1) as usize, ..old(rooms)@[r.0 as int] })
            } else {
                &&& r == (old(rooms)@.len() as usize, 0usize)
                &&& final(rooms)@.len() == old(rooms)@.len() + 1
                &&& forall|j: int| 0 <= j < old(rooms)@.len() ==> #[trigger] final(rooms)@[j] == old(rooms)@[j]
                &&& fresh_room(final(rooms)@[r.0 as int], mode)
            }
        }),
{
    if mode == Mode::Human {
        if let Some(id) = find_human_room(rooms) {
            let mut room = rooms[id];
            assert(room.wf());
            room.players = room.players + 1;
            rooms.set(id, room);
            assert forall|j: int| 0 <= j < rooms@.len() implies #[trigger] rooms@[j].wf() by {
                if j != id {
                    assert(old(rooms)@[j].wf());
                }
            }
            return (id, 1);
        }
    }
    let id = rooms.len();
    rooms.push(new_room(mode));
    (id, 0)
}

/// Every trap of `before` is still a trap in `after`.
pub open spec fn traps_kept(before: Board, after: Board) -> bool {
    forall|i: int, j: int| on_board(i, j) && #[trigger] cell(before, i, j) == Cell::Trap ==> cell(after, i, j) == Cell::Trap
}

/// A trap placed on an empty cell is one more trap on the board; no trap
/// goes away and the mouse stays where it is.
pub proof fn trap_placement_adds_one_trap(room: Room, x: int, y: int)
    requires
        room.wf(),
        on_board(x, y),
        cell(room.board, x, y) == Cell::Empty,
    ensures
        with_trap_at(room, x, y).wf(),
        trap_count(with_trap_at(room, x, y).board) == trap_count(room.board) + 1,
        traps_kept(room.board, with_trap_at(room, x, y).board),
        cell(with_trap_at(room, x, y).board, x, y) == Cell::Trap,
        with_trap_at(room, x, y).mouse_pos == room.mouse_pos,
{
    lemma_trap_wf(room, x, y);
    lemma_set_cell(room.board, x, y, Cell::Trap);
    lemma_cells_set(room.board, x, y, Cell::Trap);
    assert(cells(room.board)[x * 11 + y] == cell(room.board, x, y));
    lemma_count_update(cells(room.board), x * 11 + y, Cell::Trap, Cell::Trap);
}

/// When the mouse moves to an empty cell, the traps stay exactly as they
/// were.
pub proof fn mouse_move_keeps_traps(room: Room, x: int, y: int)
    requires
        room.wf(),
        on_board(x, y),
        cell(room.board, x, y) == Cell::Empty,
    ensures
        with_mouse_at(room, x, y).wf(),
        trap_count(with_mouse_at(room, x, y).board) == trap_count(room.board),
        traps_kept(room.board, with_mouse_at(room, x, y).board),
{
    let mx = room.mouse_pos.0 as int;
    let my = room.mouse_pos.1 as int;
    let b1 = set_cell(room.board, mx, my, Cell::Empty);
    lemma_mouse_move_wf(room, x, y);
    lemma_set_cell(room.board, mx, my, Cell::Empty);
    lemma_set_cell(b1, x, y, Cell::Mouse);
    lemma_cells_set(room.board, mx, my, Cell::Empty);
    lemma_cells_set(b1, x, y, Cell::Mouse);
    assert(cells(room.board)[mx * 11 + my] == cell(room.board, mx, my));
    assert(cells(b1)[x * 11 + y] == cell(b1, x, y));
    lemma_count_update(cells(room.board), mx * 11 + my, Cell::Empty, Cell::Trap);
    lemma_count_update(cells(b1), x * 11 + y, Cell::Mouse, Cell::Trap);
}

/// The computer's answer keeps the room well formed and every trap in place,
/// and its mouse moves by one step to a neighbouring cell, if at all.
pub proof fn computer_step_law(before: Room, after: Room)
    requires
        before.wf(),
        computer_step(before, after),
    ensures
        after.wf(),
        traps_kept(before.board, after.board),
        trap_count(after.board) == trap_count(before.board),
        after.mouse_pos == before.mouse_pos || adjacent(after.mouse_pos.0 as int, after.mouse_pos.1 as int, before.mouse_pos.0 as int, before.mouse_pos.1 as int),
{
    if before.mode == Mode::Computer && before.turn == Role::Mouse && can_move(before.board, before.mouse_pos) {
        let k = choose|k: int| #[trigger] best_step(before.board, before.mouse_pos, k)
            && after == with_turn(with_mouse_at(before, step_target(before.mouse_pos, k).0, step_target(before.mouse_pos, k).1), Role::Trapper);
        let t = step_target(before.mouse_pos, k);
        lemma_wf_steppable(&before);
        assert(free_step(before.board, signed(before.mouse_pos.0), signed(before.mouse_pos.1), k));
        mouse_move_keeps_traps(before, t.0, t.1);
    }
}

/// The end of the game is told to both players with opposite results: the
/// mouse wins exactly when the trapper loses, and the other way round.
pub proof fn game_over_is_shared(room: Room)
    ensures
        (game_over_line(room, Role::Mouse) == "GAME_OVER: WIN\n"@) <==> (game_over_line(room, Role::Trapper) == "GAME_OVER: LOSE\n"@),
        (game_over_line(room, Role::Mouse) == "GAME_OVER: LOSE\n"@) <==> (game_over_line(room, Role::Trapper) == "GAME_OVER: WIN\n"@),
        (game_over_line(room, Role::Mouse).len() == 0) <==> (game_over_line(room, Role::Trapper).len() == 0),
{
    reveal_strlit("GAME_OVER: WIN\n");
    reveal_strlit("GAME_OVER: LOSE\n");
    assert("GAME_OVER: WIN\n"@.len() == 15);
    assert("GAME_OVER: LOSE\n"@.len() == 16);
}

/// How far `(x, y)` is from the nearest border line of the board.
pub open spec fn border_distance(x: int, y: int) -> int {
    let m1 = if x < 10 - x { x } else { 10 - x };
    let m2 = if y < 10 - y { y } else { 10 - y };
    if m1 < m2 { m1 } else { m2 }
}

/// `1` when `(x, y)` is an empty cell of the board, `0` otherwise.
pub open spec fn empty_at(b: Board, x: int, y: int) -> int {
    if on_board(x, y) && cell(b, x, y) == Cell::Empty { 1 } else { 0 }
}

/// How many of the eight cells around `(x, y)` are empty.
pub open spec fn empty_around(b: Board, x: int, y: int) -> int {
    empty_at(b, x - 1, y - 1) + empty_at(b, x - 1, y) + empty_at(b, x - 1, y + 1) + empty_at(b, x, y - 1)
        + empty_at(b, x, y + 1) + empty_at(b, x + 1, y - 1) + empty_at(b, x + 1, y) + empty_at(b, x + 1, y + 1)
}

proof fn lemma_free_count_around(b: Board, x: int, y: int)
    ensures
        free_count(b, x, y, 8) == empty_around(b, x, y),
{
    reveal_with_fuel(free_count, 9);
}

/// How the computer chooses the mouse's step, over all free neighbours `j`
/// of the mouse: one step nearer the border weighs as much as five more
/// empty cells around the target, so the chosen target is never more than
/// one step further from the border than another free neighbour; at the
/// same distance it has at least as many empty cells around it; and a
/// neighbour earlier in step order is chosen over it only with a strictly
/// better weighing.
pub proof fn computer_step_choice(b: Board, pos: (usize, usize), k: int, j: int)
    requires
        best_step(b, pos, k),
        0 <= j < 8,
        free_step(b, signed(pos.0), signed(pos.1), j),
    ensures
        ({
            let x = signed(pos.0);
            let y = signed(pos.1);
            let (kx, ky) = (x + dir(k).0, y + dir(k).1);
            let (jx, jy) = (x + dir(j).0, y + dir(j).1);
            &&& 10 * border_distance(kx, ky) - 2 * empty_around(b, kx, ky) <= 10 * border_distance(jx, jy) - 2 * empty_around(b, jx, jy)
            &&& j < k ==> 10 * border_distance(kx, ky) - 2 * empty_around(b, kx, ky) < 10 * border_distance(jx, jy) - 2 * empty_around(b, jx, jy)
            &&& border_distance(kx, ky) <= border_distance(jx, jy) + 1
            &&& border_distance(kx, ky) == border_distance(jx, jy) ==> empty_around(b, jx, jy) <= empty_around(b, kx, ky)
            &&& border_distance(kx, ky) == border_distance(jx, jy) && j < k ==> empty_around(b, jx, jy) < empty_around(b, kx, ky)
        }),
{
    let x = signed(pos.0);
    let y = signed(pos.1);
    let (kx, ky) = (x + dir(k).0, y + dir(k).1);
    let (jx, jy) = (x + dir(j).0, y + dir(j).1);
    lemma_free_count_around(b, kx, ky);
    lemma_free_count_around(b, jx, jy);
    assert(step_score(b, x, y, j) <= step_score(b, x, y, k));
    assert(0 <= empty_around(b, kx, ky) <= 8);
    assert(0 <= empty_around(b, jx, jy) <= 8);
}

} // verus!
