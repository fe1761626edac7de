//! The first game server of "trap the mouse", on a 7 x 7 board: the board and
//! its text form, the mouse of the strategy mode, and the join requests.

use vstd::prelude::*;
use crate::text::{chars_of, parse_usize, parsed_usize, push_char, trim, trim_chars};

verus! {

/// What a board cell holds.
#[derive(Clone, Copy, Debug, PartialEq, Eq, Structural)]
pub enum Cell {
    Empty,
    Trap,
    Mouse,
}

/// The side a player plays.
#[derive(Clone, Copy, Debug, PartialEq, Eq, Structural)]
pub enum Role {
    Trapper,
    Mouse,
}

/// A game between two people, or against the server's strategy.
#[derive(Clone, Copy, Debug, PartialEq, Eq, Structural)]
pub enum Mode {
    Pvp,
    Strategy,
}

/// The board, indexed by row and then column.
pub type Board = [[Cell; 7]; 7];

/// The cell at row `x`, column `y`.
pub open spec fn cell(b: Board, x: int, y: int) -> Cell {
    b@[x]@[y]
}

/// `(x, y)` lies on the board.
pub open spec fn on_board(x: int, y: int) -> bool {
    0 <= x < 7 && 0 <= y < 7
}

/// The new board: empty but for the mouse in the centre.
pub fn initial_board() -> (b: Board)
    ensures
        forall|i: int, j: int| on_board(i, j) ==> #[trigger] cell(b, i, j) == if i == 3 && j == 3 {
            Cell::Mouse
        } else {
            Cell::Empty
        },
{
    let mut board: Board = [[Cell::Empty; 7]; 7];
    board[3][3] = Cell::Mouse;
    proof {
        assert forall|i: int, j: int| on_board(i, j) implies #[trigger] cell(board, i, j) == if i == 3 && j == 3 {
            Cell::Mouse
        } else {
            Cell::Empty
        } by {}
    }
    board
}

/// The text form of a cell.
pub open spec fn cell_char(c: Cell) -> char {
    match c {
        Cell::Empty => '.',
        Cell::Trap => '#',
        Cell::Mouse => 'M',
    }
}

/// The board as 49 characters, row by row.
pub open spec fn board_text(b: Board) -> Seq<char> {
    Seq::new(49, |k: int| cell_char(cell(b, k / 7, k % 7)))
}

fn cell_symbol(c: Cell) -> (r: char)
    ensures
        r == cell_char(c),
{
    match c {
        Cell::Empty => '.',
        Cell::Trap => '#',
        Cell::Mouse => 'M',
    }
}

/// The board as text, one character per cell, row by row.
pub fn serialize_board(board: &Board) -> (s: String)
    ensures
        s@ == board_text(*board),
{
    let mut s = String::new();
    let mut k: usize = 0;
    while k < 49
        invariant
            k <= 49,
            s@ == board_text(*board).take(k as int),
        decreases 49 - k,
    {
        push_char(&mut s, cell_symbol(board[k / 7][k % 7]));
        k = k + 1;
        assert(s@ =~= board_text(*board).take(k as int));
    }
    assert(board_text(*board).take(49) =~= board_text(*board));
    s
}

/// The coordinates of a three-word command such as `MOVE 3 4`, when both
/// numbers parse and lie on the board.
pub open spec fn coords_of(parts: Seq<&str>) -> Option<(usize, usize)> {
    if parts.len() == 3 && parsed_usize(parts[1]@) is Some && parsed_usize(parts[2]@) is Some
        && parsed_usize(parts[1]@)->0 < 7 && parsed_usize(parts[2]@)->0 < 7 {
        Some((parsed_usize(parts[1]@)->0 as usize, parsed_usize(parts[2]@)->0 as usize))
    } else {
        None
    }
}

/// Reads the two coordinates of a command of three words.
pub fn parse_coords(parts: &[&str]) -> (r: Option<(usize, usize)>)
    ensures
        r == coords_of(parts@),
{
    if parts.len() != 3 {
        return None;
    }
    let x = match parse_usize(parts[1]) {
        Some(v) => v,
        None => return None,
    };
    let y = match parse_usize(parts[2]) {
        Some(v) => v,
        None => return None,
    };
    if x < 7 && y < 7 {
        Some((x, y))
    } else {
        None
    }
}

/// The value a `usize` has once converted to `isize`.
pub open spec fn signed(u: usize) -> int {
    (u as isize) as int
}

/// The four steps the strategy tries, in order: up, right, down, left.
pub open spec fn dir(k: int) -> (int, int) {
    if k == 0 {
        (-1, 0)
    } else if k == 1 {
        (0, 1)
    } else if k == 2 {
        (1, 0)
    } else {
        (0, -1)
    }
}

fn direction(k: usize) -> (r: (isize, isize))
    requires
        k < 4,
    ensures
        r.0 as int == dir(k as int).0,
        r.1 as int == dir(k as int).1,
{
    if k == 0 {
        (-1, 0)
    } else if k == 1 {
        (0, 1)
    } else if k == 2 {
        (1, 0)
    } else {
        (0, -1)
    }
}

/// The cell one step `k` from `pos` is on the board and empty.
pub open spec fn free_step(b: Board, pos: (usize, usize), k: int) -> bool {
    let x = signed(pos.0) + dir(k).0;
    let y = signed(pos.1) + dir(k).1;
    on_board(x, y) && cell(b, x, y) == Cell::Empty
}

/// The position's steps cannot overflow `isize`.
pub open spec fn steppable(pos: (usize, usize)) -> bool {
    isize::MIN < signed(pos.0) < isize::MAX && isize::MIN < signed(pos.1) < isize::MAX
}

/// The strategy's mouse moves to the first free cell among up, right, down
/// and left, and stays when there is none.
pub fn strategy_mouse_move(board: &Board, pos: (usize, usize)) -> (r: Option<(usize, usize)>)
    requires
        steppable(pos),
    ensures
        r is None ==> forall|k: int| 0 <= k < 4 ==> !#[trigger] free_step(*board, pos, k),
        r matches Some(n) ==> exists|k: int|
            0 <= k < 4 && #[trigger] free_step(*board, pos, k) && (forall|j: int| 0 <= j < k ==> !#[trigger] free_step(*board, pos, j))
                && n.0 as int == signed(pos.0) + dir(k).0 && n.1 as int == signed(pos.1) + dir(k).1,
{
    let x = pos.0 as isize;
    let y = pos.1 as isize;
    let mut k: usize = 0;
    while k < 4
        invariant
            k <= 4,
            x as int == signed(pos.0),
            y as int == signed(pos.1),
            steppable(pos),
            forall|j: int| 0 <= j < k ==> !#[trigger] free_step(*board, pos, j),
        decreases 4 - k,
    {
        let (dx, dy) = direction(k);
        let nx = x + dx;
        let ny = y + dy;
        if nx >= 0 && ny >= 0 && nx < 7 && ny < 7 {
            let (ux, uy) = (nx as usize, ny as usize);
            if board[ux][uy] == Cell::Empty {
                assert(free_step(*board, pos, k as int));
                return Some((ux, uy));
            }
        }
        k = k + 1;
    }
    None
}

/// How a role is written in messages.
pub open spec fn role_name(r: Role) -> Seq<char> {
    match r {
        Role::Trapper => "Trapper"@,
        Role::Mouse => "Mouse"@,
    }
}

/// The state every player of a room is sent: the board and whose turn it is.
pub open spec fn state_text(b: Board, turn: Role) -> Seq<char> {
    "BOARD "@ + board_text(b) + "\nTURN "@ + role_name(turn) + "\n"@
}

/// The message with the board and whose turn it is.
pub fn state_message(board: &Board, turn: Role) -> (s: String)
    ensures
        s@ == state_text(*board, turn),
{
    let mut s = String::new();
    s.append("BOARD ");
    let b = serialize_board(board);
    s.append(b.as_str());
    s.append("\nTURN ");
    match turn {
        Role::Trapper => s.append("Trapper"),
        Role::Mouse => s.append("Mouse"),
    }
    s.append("\n");
    s
}

/// The game a join request asks for (after trimming whitespace), if it is
/// one of the two requests the server knows.
pub open spec fn join_request(input: Seq<char>) -> Option<Mode> {
    if trim(input) == "JOIN PVP"@ {
        Some(Mode::Pvp)
    } else if trim(input) == "JOIN STRATEGY"@ {
        Some(Mode::Strategy)
    } else {
        None
    }
}

/// Reads a join request.
pub fn parse_join(input: &str) -> (r: Option<Mode>)
    ensures
        r == join_request(input@),
{
    let t = crate::text::string_of(&trim_chars(&chars_of(input)));
    if crate::text::str_equal(t.as_str(), "JOIN PVP") {
        Some(Mode::Pvp)
    } else if crate::text::str_equal(t.as_str(), "JOIN STRATEGY") {
        Some(Mode::Strategy)
    } else {
        None
    }
}

/// A game: its mode, how many players joined, the board, where the mouse
/// is, and whose turn it is.
#[derive(Clone, Copy)]
pub struct Room {
    pub mode: Mode,
    pub players: usize,
    pub board: Board,
    pub mouse_pos: (usize, usize),
    pub turn: Role,
}

/// A room as it is opened for its first player in the given mode: the
/// initial board, the mouse in the centre, the trapper to play.
pub open spec fn fresh_room(r: Room, mode: Mode) -> bool {
    &&& r.mode == mode
    &&& r.players == 1
    &&& r.mouse_pos == (3usize, 3usize)
    &&& r.turn == Role::Trapper
    &&& forall|i: int, j: int| on_board(i, j) ==> #[trigger] cell(r.board, i, j) == if i == 3 && j == 3 {
        Cell::Mouse
    } else {
        Cell::Empty
    }
}

/// A new room for its first player.
pub fn new_room(mode: Mode) -> (r: Room)
    ensures
        fresh_room(r, mode),
{
    Room { mode, players: 1, board: initial_board(), mouse_pos: (3, 3), turn: Role::Trapper }
}

/// A two-player room waiting for its second player.
pub open spec fn waiting_pvp_room(r: Room) -> bool {
    r.mode == Mode::Pvp && r.players == 1
}

/// The first two-player room waiting for its second player.
pub fn find_waiting_room(rooms: &Vec<Room>) -> (r: Option<usize>)
    ensures
        r matches Some(i) ==> i < rooms@.len() && waiting_pvp_room(rooms@[i as int]) && forall|j: int|
            0 <= j < i ==> !#[trigger] waiting_pvp_room(rooms@[j]),
        r is None ==> forall|j: int| 0 <= j < rooms@.len() ==> !#[trigger] waiting_pvp_room(rooms@[j]),
{
    let mut i: usize = 0;
    while i < rooms.len()
        invariant
            i <= rooms@.len(),
            forall|j: int| 0 <= j < i ==> !#[trigger] waiting_pvp_room(rooms@[j]),
        decreases rooms@.len() - i,
    {
        if rooms[i].mode == Mode::Pvp && rooms[i].players == 1 {
            return Some(i);
        }
        i = i + 1;
    }
    None
}

/// What the server does with a player who joined.
#[derive(Clone, Copy, Debug, PartialEq, Eq, Structural)]
pub enum Seating {
    /// Joined the waiting room with this index as the mouse; the game starts.
    Joined(usize),
    /// Opened a two-player room with this index and waits for a partner.
    Waiting(usize),
    /// Opened a strategy room with this index; the game starts.
    Started(usize),
}

/// Seats a player who asked for a game in `mode`.
pub fn seat_player(rooms: &mut Vec<Room>, mode: Mode) -> (r: Seating)
    ensures
        mode == Mode::Pvp && (exists|j: int| 0 <= j < old(rooms)@.len() && #[trigger] waiting_pvp_room(old(rooms)@[j])) ==> {
            &&& r matches Seating::Joined(i)
            &&& i < old(rooms)@.len()
            &&& waiting_pvp_room(old(rooms)@[i as int])
            &&& forall|j: int| 0 <= j < i ==> !#[trigger] waiting_pvp_room(old(rooms)@[j])
            &&& final(rooms)@ == old(rooms)@.update(i as int, Room { players: 2, ..old(rooms)@[i as int] })
        },
        mode == Mode::Pvp && !(exists|j: int| 0 <= j < old(rooms)@.len() && #[trigger] waiting_pvp_room(old(rooms)@[j])) ==> {
            &&& r == Seating::Waiting(old(rooms)@.len() as usize)
            &&& final(rooms)@.len() == old(rooms)@.len() + 1
            &&& final(rooms)@.take(old(rooms)@.len() as int) == old(rooms)@
            &&& fresh_room(final(rooms)@.last(), Mode::Pvp)
        },
        mode == Mode::Strategy ==> {
            &&& r == Seating::Started(old(rooms)@.len() as usize)
            &&& final(rooms)@.len() == old(rooms)@.len() + 1
            &&& final(rooms)@.take(old(rooms)@.len() as int) == old(rooms)@
            &&& fresh_room(final(rooms)@.last(), Mode::Strategy)
        },
{
    if mode == Mode::Pvp {
        if let Some(i) = find_waiting_room(rooms) {
            let mut room = rooms[i];
            room.players = 2;
            rooms.set(i, room);
            return Seating::Joined(i);
        }
        let id = rooms.len();
        rooms.push(new_room(mode));
        assert(rooms@.take(id as int) =~= old(rooms)@);
        Seating::Waiting(id)
    } else {
        let id = rooms.len();
        rooms.push(new_room(mode));
        assert(rooms@.take(id as int) =~= old(rooms)@);
        Seating::Started(id)
    }
}

} // verus!
