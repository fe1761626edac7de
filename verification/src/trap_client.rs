//! The graphical client of the 11 x 11 game, without its drawing: the screen
//! it shows, how it reacts to what the server sends, and how it reads the
//! board and the named values out of a server message.

use vstd::prelude::*;
use crate::trap_server::{
    board_text, can_move, cell, cell_char, dir, free_step, game_over_line, message_text, mode_name,
    mouse_escaped, player_role, role_name, row_text, rows_text, signed, Board, Cell, Role, Room,
};
use crate::text::{
    lemma_lines_of_line, lemma_replace_absent, lemma_trim_bare, no_newline, chars_from, chars_of, chars_upto, find_chars, find_from, has_prefix, lines, occurs_at,
    push_decimal, replace_all, replace_chars, split_lines, str_equal, string_of, trim, trim_chars,
    decimal,
};

verus! {

/// How a finished game ended for this player.
#[derive(Clone, Copy, Debug, PartialEq, Eq, Structural)]
pub enum GameResult {
    Win,
    Lose,
}

/// The screen the client shows.
#[derive(Clone, Copy, Debug, PartialEq, Eq, Structural)]
pub enum AppState {
    ChooseMode,
    InGame,
    GameOver(GameResult),
}

/// The index of the first of `ls[i..]` that starts with `key`.
pub open spec fn first_with_prefix(ls: Seq<Seq<char>>, key: Seq<char>, i: int) -> Option<int>
    decreases ls.len() - i,
{
    if i < 0 || i >= ls.len() {
        None
    } else if has_prefix(ls[i], key) {
        Some(i)
    } else {
        first_with_prefix(ls, key, i + 1)
    }
}

/// The value after `key` on the first line that starts with `key`: that line
/// with every occurrence of `key` removed, then trimmed.
pub open spec fn value_of(raw: Seq<char>, key: Seq<char>) -> Option<Seq<char>> {
    match first_with_prefix(lines(raw), key, 0) {
        Some(i) => Some(trim(replace_all(lines(raw)[i], key, seq![]))),
        None => None,
    }
}

/// Reads the value of `key` out of a server message.
pub fn extract_value(raw: &str, key: &str) -> (r: Option<String>)
    ensures
        r matches Some(v) ==> value_of(raw@, key@) == Some(v@),
        r is None ==> value_of(raw@, key@) is None,
{
    let ls = split_lines(&chars_of(raw));
    let k = chars_of(key);
    let ghost g = lines(raw@);
    let mut i: usize = 0;
    while i < ls.len()
        invariant
            i <= ls@.len(),
            ls@.len() == g.len(),
            k@ == key@,
            forall|m: int| 0 <= m < ls@.len() ==> #[trigger] ls@[m]@ == g[m],
            g == lines(raw@),
            first_with_prefix(g, key@, 0) == first_with_prefix(g, key@, i as int),
        decreases ls@.len() - i,
    {
        let line = &ls[i];
        assert(line@.skip(0) =~= line@);
        if occurs_at(line, 0, &k) {
            let removed = if k.len() > 0 {
                replace_chars(line, &k, &Vec::new())
            } else {
                assert(line@.skip(0) =~= line@);
                chars_from(line, 0)
            };
            assert(removed@ == replace_all(g[i as int], key@, seq![]));
            let out = string_of(&trim_chars(&removed));
            assert(out@ == trim(replace_all(g[i as int], key@, seq![])));
            return Some(out);
        }
        i = i + 1;
    }
    None
}

/// The value of `key`, or `Unknown` when the message does not hold it.
pub fn value_or_unknown(raw: &str, key: &str) -> (r: String)
    ensures
        value_of(raw@, key@) matches Some(v) ==> r@ == v,
        value_of(raw@, key@) is None ==> r@ == "Unknown"@,
{
    match extract_value(raw, key) {
        Some(v) => v,
        None => {
            let mut s = String::new();
            s.append("Unknown");
            s
        },
    }
}

/// `s.split(p).nth(1)`, or empty: the text between the first and the second
/// occurrence of `p`, or after the first when there is no second.
pub open spec fn second_piece(s: Seq<char>, p: Seq<char>) -> Seq<char> {
    match find_from(s, p, 0) {
        None => seq![],
        Some(i) => {
            let rest = s.skip(i + p.len());
            match find_from(rest, p, 0) {
                None => rest,
                Some(j) => rest.take(j),
            }
        },
    }
}

/// `s.split(p).next()`: the text before the first occurrence of `p`, or all
/// of it.
pub open spec fn first_piece(s: Seq<char>, p: Seq<char>) -> Seq<char> {
    match find_from(s, p, 0) {
        None => s,
        Some(i) => s.take(i),
    }
}

/// The rows of the board in a server message: the lines between the
/// `BOARD_START` line and `BOARD_END`.
pub open spec fn board_rows(raw: Seq<char>) -> Seq<Seq<char>> {
    lines(first_piece(second_piece(raw, "BOARD_START\n"@), "BOARD_END"@))
}

proof fn lemma_find_in_range(s: Seq<char>, p: Seq<char>, k: int, i: int)
    requires
        find_from(s, p, k) == Some(i),
    ensures
        k <= i,
        i + p.len() <= s.len(),
    decreases s.len() + 1 - k,
{
    if !(k < 0 || k + p.len() > s.len()) && !has_prefix(s.skip(k), p) {
        lemma_find_in_range(s, p, k + 1, i);
    }
}

/// The rows of the board in a server message.
pub fn board_lines(raw: &str) -> (r: Vec<String>)
    ensures
        r@.len() == board_rows(raw@).len(),
        forall|m: int| 0 <= m < r@.len() ==> #[trigger] r@[m]@ == board_rows(raw@)[m],
{
    let s = chars_of(raw);
    let start = chars_of("BOARD_START\n");
    let end = chars_of("BOARD_END");
    let second: Vec<char> = match find_chars(&s, &start) {
        None => Vec::new(),
        Some(i) => {
            proof {
                lemma_find_in_range(s@, start@, 0, i as int);
            }
            let sl = s.len();
            let stl = start.len();
            assert(i + stl <= sl);
            let rest = chars_from(&s, i + start.len());
            match find_chars(&rest, &start) {
                None => rest,
                Some(j) => {
                    proof {
                        lemma_find_in_range(rest@, start@, 0, j as int);
                    }
                    chars_upto(&rest, j)
                },
            }
        },
    };
    assert(second@ == second_piece(raw@, "BOARD_START\n"@));
    let first: Vec<char> = match find_chars(&second, &end) {
        None => second,
        Some(i) => {
            proof {
                lemma_find_in_range(second@, end@, 0, i as int);
            }
            chars_upto(&second, i)
        },
    };
    let rows = split_lines(&first);
    let mut out: Vec<String> = Vec::new();
    let mut m: usize = 0;
    while m < rows.len()
        invariant
            m <= rows@.len(),
            rows@.len() == lines(first@).len(),
            forall|q: int| 0 <= q < rows@.len() ==> #[trigger] rows@[q]@ == lines(first@)[q],
            out@.len() == m,
            forall|q: int| 0 <= q < m ==> #[trigger] out@[q]@ == lines(first@)[q],
        decreases rows@.len() - m,
    {
        out.push(string_of(&rows[m]));
        m = m + 1;
    }
    out
}

/// The character shown at row `x`, column `y`: `.` where the rows do not
/// reach.
pub open spec fn cell_at(rows: Seq<Seq<char>>, x: int, y: int) -> char {
    if 0 <= x < rows.len() && 0 <= y < rows[x].len() {
        rows[x][y]
    } else {
        '.'
    }
}

/// The character of the board at row `x`, column `y`.
pub fn board_cell(rows: &Vec<String>, x: usize, y: usize) -> (c: char)
    ensures
        c == cell_at(rows@.map_values(|s: String| s@), x as int, y as int),
{
    if x < rows.len() {
        let row = chars_of(rows[x].as_str());
        if y < row.len() {
            return row[y];
        }
    }
    '.'
}

/// The command that asks for a move to row `x`, column `y`.
pub fn move_command(x: usize, y: usize) -> (s: String)
    ensures
        s@ == "MOVE "@ + decimal(x as nat) + " "@ + decimal(y as nat) + "\n"@,
{
    let mut s = String::new();
    s.append("MOVE ");
    push_decimal(&mut s, x as u64);
    s.append(" ");
    push_decimal(&mut s, y as u64);
    s.append("\n");
    s
}

/// The client's state apart from its connection and its pictures.
pub struct ClientModel {
    pub state: AppState,
    /// The mode line to send when the game starts, once one is chosen.
    pub chosen_mode: Option<String>,
    /// The last message that held the board.
    pub board_raw: String,
    pub status_msg: String,
}

/// The screen a server message leads to: the end of the game when it holds
/// a `GAME_OVER` value of `WIN` or `LOSE`, the game otherwise.
pub open spec fn screen_after(msg: Seq<char>) -> AppState {
    match value_of(msg, "GAME_OVER: "@) {
        Some(v) => if v == "WIN"@ {
            AppState::GameOver(GameResult::Win)
        } else if v == "LOSE"@ {
            AppState::GameOver(GameResult::Lose)
        } else {
            AppState::InGame
        },
        None => AppState::InGame,
    }
}

impl ClientModel {
    /// The client as it starts: choosing a mode, nothing chosen or received.
    pub fn new() -> (m: ClientModel)
        ensures
            m.state == AppState::ChooseMode,
            m.chosen_mode is None,
            m.board_raw@ == Seq::<char>::empty(),
            m.status_msg@ == Seq::<char>::empty(),
    {
        ClientModel { state: AppState::ChooseMode, chosen_mode: None, board_raw: String::new(), status_msg: String::new() }
    }

    /// A message from the server: a game-over message changes the screen; any
    /// other message is kept as the board and shows the game.
    pub fn on_board_update(&mut self, msg: String)
        ensures
            final(self).state == screen_after(msg@),
            final(self).chosen_mode == old(self).chosen_mode,
            final(self).status_msg == old(self).status_msg,
            value_of(msg@, "GAME_OVER: "@) is Some ==> final(self).board_raw == old(self).board_raw,
            value_of(msg@, "GAME_OVER: "@) is None ==> final(self).board_raw@ == msg@,
    {
        match extract_value(msg.as_str(), "GAME_OVER: ") {
            Some(r) => {
                self.state = if str_equal(r.as_str(), "WIN") {
                    AppState::GameOver(GameResult::Win)
                } else if str_equal(r.as_str(), "LOSE") {
                    AppState::GameOver(GameResult::Lose)
                } else {
                    AppState::InGame
                };
            },
            None => {
                self.board_raw = msg;
                self.state = AppState::InGame;
            },
        }
    }

    /// The connection was lost: back to choosing a mode, with the reason shown.
    pub fn on_disconnect(&mut self, err: String)
        ensures
            final(self).state == AppState::ChooseMode,
            final(self).status_msg == err,
            final(self).chosen_mode == old(self).chosen_mode,
            final(self).board_raw == old(self).board_raw,
    {
        self.status_msg = err;
        self.state = AppState::ChooseMode;
    }

    /// A mode button: `1` for a game between people, `2` against the computer.
    pub fn choose_mode(&mut self, against_computer: bool)
        ensures
            final(self).chosen_mode matches Some(m) && m@ == if against_computer {
                "2\n"@
            } else {
                "1\n"@
            },
            final(self).state == old(self).state,
            final(self).board_raw == old(self).board_raw,
            final(self).status_msg == old(self).status_msg,
    {
        let mut m = String::new();
        if against_computer {
            m.append("2\n");
        } else {
            m.append("1\n");
        }
        self.chosen_mode = Some(m);
    }

    /// The game was started (the connection was tried): the choice is used
    /// up and the outcome of the connection is shown.
    pub fn on_started(&mut self, status: String)
        ensures
            final(self).chosen_mode is None,
            final(self).status_msg == status,
            final(self).state == old(self).state,
            final(self).board_raw == old(self).board_raw,
    {
        self.chosen_mode = None;
        self.status_msg = status;
    }

    /// A click on the game-over screen: back to choosing a mode, with the
    /// board and the status cleared.
    pub fn leave_game_over(&mut self)
        ensures
            final(self).state == AppState::ChooseMode,
            final(self).board_raw@ == Seq::<char>::empty(),
            final(self).status_msg@ == Seq::<char>::empty(),
            final(self).chosen_mode == old(self).chosen_mode,
    {
        self.state = AppState::ChooseMode;
        self.board_raw = String::new();
        self.status_msg = String::new();
    }
}


/// The screen an update announces to a player with the given role: the end
/// of the game once the mouse has escaped or is stuck, the game otherwise.
pub open spec fn announced_screen(room: Room, role: Role) -> AppState {
    if mouse_escaped(room.mouse_pos) {
        if role == Role::Mouse {
            AppState::GameOver(GameResult::Win)
        } else {
            AppState::GameOver(GameResult::Lose)
        }
    } else if !can_move(room.board, room.mouse_pos) {
        if role == Role::Mouse {
            AppState::GameOver(GameResult::Lose)
        } else {
            AppState::GameOver(GameResult::Win)
        }
    } else {
        AppState::InGame
    }
}

proof fn lemma_first_with_prefix_range(ls: Seq<Seq<char>>, key: Seq<char>, i: int, j: int)
    requires
        first_with_prefix(ls, key, i) == Some(j),
    ensures
        i <= j < ls.len(),
    decreases ls.len() - i,
{
    if 0 <= i < ls.len() && !has_prefix(ls[i], key) {
        lemma_first_with_prefix_range(ls, key, i + 1, j);
    }
}

proof fn lemma_first_with_prefix_shift(a: Seq<char>, ls: Seq<Seq<char>>, key: Seq<char>, i: int)
    requires
        0 <= i,
    ensures
        first_with_prefix(seq![a] + ls, key, i + 1) == (match first_with_prefix(ls, key, i) {
            Some(j) => Some(j + 1),
            None => None::<int>,
        }),
    decreases ls.len() - i,
{
    if i < ls.len() {
        assert((seq![a] + ls)[i + 1] == ls[i]);
        if !has_prefix(ls[i], key) {
            lemma_first_with_prefix_shift(a, ls, key, i + 1);
        }
    }
}

/// A first line that does not start with the key does not count.
proof fn lemma_value_skips_line(a: Seq<char>, rest: Seq<char>, key: Seq<char>)
    requires
        no_newline(a),
        a.len() == 0 || a.last() != '\r',
        !has_prefix(a, key),
    ensures
        value_of(a + seq!['\n'] + rest, key) == value_of(rest, key),
{
    lemma_lines_of_line(a, rest);
    let ls = lines(rest);
    let all = seq![a] + ls;
    assert(all[0] == a);
    lemma_first_with_prefix_shift(a, ls, key, 0);
    if let Some(j) = first_with_prefix(ls, key, 0) {
        lemma_first_with_prefix_range(ls, key, 0, j);
        assert(all[j + 1] == ls[j]);
    }
}

/// A first line that starts with the key gives the value.
proof fn lemma_value_on_line(a: Seq<char>, rest: Seq<char>, key: Seq<char>)
    requires
        no_newline(a),
        a.len() == 0 || a.last() != '\r',
        has_prefix(a, key),
        key.len() > 0,
    ensures
        value_of(a + seq!['\n'] + rest, key) == Some(trim(replace_all(a.skip(key.len() as int), key, seq![]))),
{
    lemma_lines_of_line(a, rest);
    let all = seq![a] + lines(rest);
    assert(all[0] == a);
    assert(seq![] + replace_all(a.skip(key.len() as int), key, seq![]) =~= replace_all(a.skip(key.len() as int), key, seq![]));
}

proof fn lemma_not_prefix(a: Seq<char>, key: Seq<char>)
    requires
        a.len() > 0,
        key.len() > 0,
        a[0] != key[0],
    ensures
        !has_prefix(a, key),
{
    if has_prefix(a, key) {
        assert(a.take(key.len() as int)[0] == a[0]);
    }
}

/// A key that no line of the board text starts with.
spec fn off_board_key(key: Seq<char>) -> bool {
    key.len() > 0 && key[0] != 'B' && key[0] != '.' && key[0] != '#' && key[0] != 'M'
}

proof fn lemma_value_skips_rows(b: Board, n: int, rest: Seq<char>, key: Seq<char>)
    requires
        0 <= n <= 11,
        off_board_key(key),
    ensures
        value_of(rows_text(b, n) + rest, key) == value_of(rest, key),
    decreases n,
{
    if n <= 0 {
        assert(rows_text(b, n) + rest =~= rest);
    } else {
        let r = Seq::new(11, |y: int| cell_char(cell(b, n - 1, y)));
        assert(row_text(b, n - 1) == r.push('\n'));
        assert(rows_text(b, n) + rest =~= rows_text(b, n - 1) + (r + seq!['\n'] + rest));
        assert(no_newline(r));
        lemma_not_prefix(r, key);
        lemma_value_skips_line(r, rest, key);
        lemma_value_skips_rows(b, n - 1, r + seq!['\n'] + rest, key);
    }
}

proof fn lemma_value_skips_board(b: Board, rest: Seq<char>, key: Seq<char>)
    requires
        off_board_key(key),
    ensures
        value_of(board_text(b) + rest, key) == value_of(rest, key),
{
    reveal_strlit("BOARD_START\n");
    reveal_strlit("BOARD_END\n");
    let s1 = "BOARD_START\n"@.drop_last();
    let e1 = "BOARD_END\n"@.drop_last();
    assert("BOARD_START\n"@ =~= s1 + seq!['\n']);
    assert("BOARD_END\n"@ =~= e1 + seq!['\n']);
    assert(board_text(b) + rest =~= s1 + seq!['\n'] + (rows_text(b, 11) + (e1 + seq!['\n'] + rest)));
    assert(no_newline(s1));
    assert(no_newline(e1));
    lemma_not_prefix(s1, key);
    lemma_not_prefix(e1, key);
    lemma_value_skips_line(e1, rest, key);
    lemma_value_skips_rows(b, 11, e1 + seq!['\n'] + rest, key);
    lemma_value_skips_line(s1, rows_text(b, 11) + (e1 + seq!['\n'] + rest), key);
}

/// `c` does not occur in `s`.
spec fn lacks(s: Seq<char>, c: char) -> bool {
    forall|k: int| 0 <= k < s.len() ==> #[trigger] s[k] != c
}

proof fn lemma_lacks_add(a: Seq<char>, b: Seq<char>, c: char)
    requires
        lacks(a, c),
        lacks(b, c),
    ensures
        lacks(a + b, c),
{
    assert forall|k: int| 0 <= k < (a + b).len() implies #[trigger] (a + b)[k] != c by {
        if k >= a.len() {
            assert((a + b)[k] == b[k - a.len()]);
        }
    }
}

proof fn lemma_find_none(s: Seq<char>, p: Seq<char>, k: int)
    requires
        0 <= k,
        forall|j: int| k <= j && j + p.len() <= s.len() ==> !#[trigger] has_prefix(s.skip(j), p),
    ensures
        find_from(s, p, k) is None,
    decreases s.len() + 1 - k,
{
    if k + p.len() <= s.len() {
        lemma_find_none(s, p, k + 1);
    }
}

proof fn lemma_find_at(s: Seq<char>, p: Seq<char>, k: int, i: int)
    requires
        0 <= k <= i,
        i + p.len() <= s.len(),
        has_prefix(s.skip(i), p),
        forall|j: int| k <= j < i ==> !#[trigger] has_prefix(s.skip(j), p),
    ensures
        find_from(s, p, k) == Some(i),
    decreases i - k,
{
    if k < i {
        lemma_find_at(s, p, k + 1, i);
    }
}

/// Row `x` of the board as the client reads it.
pub open spec fn row_chars(b: Board, x: int) -> Seq<char> {
    Seq::new(11, |y: int| cell_char(cell(b, x, y)))
}

proof fn lemma_rows_shape(b: Board, n: int)
    requires
        0 <= n <= 11,
    ensures
        rows_text(b, n).len() == 12 * n,
        forall|k: int| 0 <= k < rows_text(b, n).len() ==> {
            let c = #[trigger] rows_text(b, n)[k];
            c == '.' || c == '#' || c == 'M' || c == '\n'
        },
        forall|rest: Seq<char>| #[trigger] lines(rows_text(b, n) + rest) == Seq::new(n as nat, |x: int| row_chars(b, x)) + lines(rest),
    decreases n,
{
    if n > 0 {
        lemma_rows_shape(b, n - 1);
        let r = row_chars(b, n - 1);
        assert(row_text(b, n - 1) =~= r + seq!['\n']);
        let prev = rows_text(b, n - 1);
        assert forall|k: int| 0 <= k < rows_text(b, n).len() implies {
            let c = #[trigger] rows_text(b, n)[k];
            c == '.' || c == '#' || c == 'M' || c == '\n'
        } by {
            if k >= prev.len() {
                assert(rows_text(b, n)[k] == row_text(b, n - 1)[k - prev.len()]);
            } else {
                assert(rows_text(b, n)[k] == prev[k]);
            }
        }
        assert(no_newline(r));
        assert forall|rest: Seq<char>| #[trigger] lines(rows_text(b, n) + rest) == Seq::new(n as nat, |x: int| row_chars(b, x)) + lines(rest) by {
            assert(rows_text(b, n) + rest =~= prev + (r + seq!['\n'] + rest));
            lemma_lines_of_line(r, rest);
            assert(lines(prev + (r + seq!['\n'] + rest)) == Seq::new((n - 1) as nat, |x: int| row_chars(b, x)) + lines(r + seq!['\n'] + rest));
            assert(Seq::new((n - 1) as nat, |x: int| row_chars(b, x)) + (seq![r] + lines(rest)) =~= Seq::new(n as nat, |x: int| row_chars(b, x)) + lines(rest));
        }
    }
}

proof fn lemma_board_rows(b: Board, rest: Seq<char>)
    requires
        lacks(rest, 'B'),
    ensures
        board_rows(board_text(b) + rest) == Seq::new(11, |x: int| row_chars(b, x)),
{
    reveal_strlit("BOARD_START\n");
    reveal_strlit("BOARD_END\n");
    reveal_strlit("BOARD_END");
    let sp = "BOARD_START\n"@;
    let ep = "BOARD_END"@;
    let e = "BOARD_END\n"@;
    let r = rows_text(b, 11);
    lemma_rows_shape(b, 11);
    let msg = board_text(b) + rest;
    assert(msg.skip(0).take(12) =~= sp);
    assert(msg.skip(0) =~= msg);
    lemma_find_at(msg, sp, 0, 0);
    let after = msg.skip(12);
    assert(after =~= r + (e + rest));
    assert forall|j: int| 0 <= j && j + sp.len() <= after.len() implies !#[trigger] has_prefix(after.skip(j), sp) by {
        if has_prefix(after.skip(j), sp) {
            assert(after.skip(j).take(12)[0] == after[j]);
            assert(after[j] == 'B');
            if j < 132 {
                assert(after[j] == r[j]);
            } else if j == 132 {
                assert(after.skip(j).take(12)[6] == after[138]);
                assert(after[138] == e[6]);
                assert(sp[6] == 'S');
                assert(e[6] == 'E');
            } else if j < 142 {
                assert(after[j] == e[j - 132]);
                assert(forall|k: int| 1 <= k < 10 ==> #[trigger] e[k] != 'B');
            } else {
                assert(after[j] == rest[j - 142]);
            }
        }
    }
    lemma_find_none(after, sp, 0);
    assert(second_piece(msg, sp) == after);
    assert(after.skip(132).take(9) =~= ep);
    assert forall|j: int| 0 <= j < 132 implies !#[trigger] has_prefix(after.skip(j), ep) by {
        if has_prefix(after.skip(j), ep) {
            assert(after.skip(j).take(9)[0] == after[j]);
            assert(after[j] == r[j]);
        }
    }
    lemma_find_at(after, ep, 0, 132);
    assert(after.take(132) =~= r);
    assert(r + seq![] =~= r);
    assert(lines(seq![]) == Seq::<Seq<char>>::empty());
    assert(lines(r + seq![]) == Seq::new(11, |x: int| row_chars(b, x)) + lines(seq![]));
    assert(Seq::new(11, |x: int| row_chars(b, x)) + Seq::<Seq<char>>::empty() =~= Seq::new(11, |x: int| row_chars(b, x)));
}

/// What the client makes of the update the server sends the player in place
/// `i`: the rows it draws are those of the server's board, the screen shows
/// the end of the game exactly as the server announces it to that player, and
/// the role and the turn it reads are those the server wrote.
pub proof fn client_reads_trap_update(room: Room, i: int)
    ensures
        board_rows(message_text(room, i)) == Seq::new(11, |x: int| row_chars(room.board, x)),
        screen_after(message_text(room, i)) == announced_screen(room, player_role(i)),
        value_of(message_text(room, i), "YOUR_ROLE: "@) == Some(role_name(player_role(i))),
        value_of(message_text(room, i), "TURN: "@) == Some(role_name(room.turn)),
{
    reveal_strlit("YOUR_ROLE: ");
    reveal_strlit("TURN: ");
    reveal_strlit("MODE: ");
    reveal_strlit("\nTURN: ");
    reveal_strlit("\nMODE: ");
    reveal_strlit("\n");
    reveal_strlit("Trapper");
    reveal_strlit("Mouse");
    reveal_strlit("Human");
    reveal_strlit("Computer");
    reveal_strlit("GAME_OVER: ");
    reveal_strlit("GAME_OVER: WIN\n");
    reveal_strlit("GAME_OVER: LOSE\n");
    reveal_strlit("WIN");
    reveal_strlit("LOSE");
    let role = player_role(i);
    let rn = role_name(role);
    let tn = role_name(room.turn);
    let mn = mode_name(room.mode);
    let y = "YOUR_ROLE: "@ + rn;
    let t = "TURN: "@ + tn;
    let m = "MODE: "@ + mn;
    let nl = seq!['\n'];
    let tail = y + nl + (t + nl + (m + nl + seq![]));
    let g = game_over_line(room, role);
    let b = room.board;
    assert(message_text(room, i) =~= board_text(b) + (g + tail));
    assert(no_newline(y));
    assert(no_newline(t));
    assert(no_newline(m));
    assert(lacks(y, 'B'));
    assert(lacks(t, 'B'));
    assert(lacks(m, 'B'));
    assert(lacks(nl, 'B'));
    assert(lacks(g, 'B'));
    lemma_lacks_add(m, nl, 'B');
    lemma_lacks_add(m + nl, seq![], 'B');
    lemma_lacks_add(t, nl, 'B');
    lemma_lacks_add(t + nl, m + nl + seq![], 'B');
    lemma_lacks_add(y, nl, 'B');
    lemma_lacks_add(y + nl, t + nl + (m + nl + seq![]), 'B');
    lemma_lacks_add(g, tail, 'B');
    lemma_board_rows(b, g + tail);
    let gk = "GAME_OVER: "@;
    let yk = "YOUR_ROLE: "@;
    let tk = "TURN: "@;
    lemma_value_skips_board(b, g + tail, gk);
    lemma_value_skips_board(b, g + tail, yk);
    lemma_value_skips_board(b, g + tail, tk);
    lemma_not_prefix(y, gk);
    lemma_not_prefix(t, gk);
    lemma_not_prefix(m, gk);
    lemma_not_prefix(y, tk);
    lemma_value_skips_line(y, t + nl + (m + nl + seq![]), tk);
    assert(has_prefix(y, yk)) by {
        assert(y.take(11) =~= yk);
    }
    assert(has_prefix(t, tk)) by {
        assert(t.take(6) =~= tk);
    }
    lemma_value_on_line(y, t + nl + (m + nl + seq![]), yk);
    lemma_value_on_line(t, m + nl + seq![], tk);
    assert(y.skip(11) =~= rn);
    assert(t.skip(6) =~= tn);
    lemma_replace_absent(rn, yk, seq![]);
    lemma_replace_absent(tn, tk, seq![]);
    lemma_trim_bare(rn);
    lemma_trim_bare(tn);
    if g.len() == 0 {
        assert(g + tail =~= tail);
        lemma_value_skips_line(y, t + nl + (m + nl + seq![]), gk);
        lemma_value_skips_line(t, m + nl + seq![], gk);
        lemma_value_skips_line(m, seq![], gk);
        assert(lines(seq![]) == Seq::<Seq<char>>::empty());
        assert(value_of(seq![], gk) is None);
    } else {
        let gl = g.drop_last();
        assert(g =~= gl + nl);
        assert(g + tail =~= gl + nl + tail);
        assert(no_newline(gl));
        assert(has_prefix(gl, gk)) by {
            assert(gl.take(11) =~= gk);
        }
        lemma_not_prefix(gl, yk);
        lemma_not_prefix(gl, tk);
        lemma_value_skips_line(gl, tail, yk);
        lemma_value_skips_line(gl, tail, tk);
        lemma_value_on_line(gl, tail, gk);
        let v = gl.skip(11);
        lemma_replace_absent(v, gk, seq![]);
        lemma_trim_bare(v);
        if g == "GAME_OVER: WIN\n"@ {
            assert(v =~= "WIN"@);
        } else {
            assert(v =~= "LOSE"@);
        }
    }
}

/// The mouse at `(mx, my)` has an empty cell among its eight neighbours.
pub open spec fn has_empty_neighbour(b: Board, mx: int, my: int) -> bool {
    exists|x: int, y: int|
        0 <= x < 11 && 0 <= y < 11 && -1 <= x - mx <= 1 && -1 <= y - my <= 1 && (x != mx || y != my)
            && #[trigger] cell(b, x, y) == Cell::Empty
}

proof fn lemma_can_move_neighbour(b: Board, pos: (usize, usize))
    requires
        pos.0 < 11,
        pos.1 < 11,
    ensures
        can_move(b, pos) <==> has_empty_neighbour(b, pos.0 as int, pos.1 as int),
{
    let mx = pos.0 as int;
    let my = pos.1 as int;
    assert(signed(pos.0) == mx);
    assert(signed(pos.1) == my);
    if can_move(b, pos) {
        let k = choose|k: int| 0 <= k < 8 && #[trigger] free_step(b, signed(pos.0), signed(pos.1), k);
        let (dx, dy) = dir(k);
        assert(cell(b, mx + dx, my + dy) == Cell::Empty);
    }
    if has_empty_neighbour(b, mx, my) {
        let (x, y) = choose|x: int, y: int|
            0 <= x < 11 && 0 <= y < 11 && -1 <= x - mx <= 1 && -1 <= y - my <= 1 && (x != mx || y != my)
                && #[trigger] cell(b, x, y) == Cell::Empty;
        let k = if x - mx == -1 && y == my {
            0int
        } else if x == mx && y - my == 1 {
            1int
        } else if x - mx == 1 && y == my {
            2int
        } else if x == mx && y - my == -1 {
            3int
        } else if x - mx == -1 && y - my == -1 {
            4int
        } else if x - mx == 1 && y - my == 1 {
            5int
        } else if x - mx == -1 && y - my == 1 {
            6int
        } else {
            7int
        };
        assert(dir(k) == (x - mx, y - my));
        assert(free_step(b, signed(pos.0), signed(pos.1), k));
    }
}

/// How an update ends the game, for the player in place `i` (0 is the
/// trapper, every later place the mouse): with the mouse on a border line
/// (row 0 or 10, column 0 or 10) the mouse has won; inside the border the
/// game goes on while a neighbouring cell is empty, and the mouse has lost
/// when none is.
pub proof fn border_ends_the_game(room: Room, i: int)
    requires
        room.mouse_pos.0 < 11,
        room.mouse_pos.1 < 11,
    ensures
        ({
            let (mx, my) = room.mouse_pos;
            let border = mx == 0 || mx == 10 || my == 0 || my == 10;
            &&& border ==> screen_after(message_text(room, i)) == if i == 0 {
                AppState::GameOver(GameResult::Lose)
            } else {
                AppState::GameOver(GameResult::Win)
            }
            &&& !border && has_empty_neighbour(room.board, mx as int, my as int) ==> screen_after(message_text(room, i))
                == AppState::InGame
            &&& !border && !has_empty_neighbour(room.board, mx as int, my as int) ==> screen_after(message_text(room, i))
                == if i == 0 {
                AppState::GameOver(GameResult::Win)
            } else {
                AppState::GameOver(GameResult::Lose)
            }
        }),
{
    client_reads_trap_update(room, i);
    lemma_can_move_neighbour(room.board, room.mouse_pos);
}

} // verus!
