//! The client of the 7 x 7 game, without its window: what it keeps of the
//! server's messages and which command a click on a cell sends.

use vstd::prelude::*;
use crate::pvp_server;
use crate::text::{
    chars_from, chars_of, decimal, has_prefix, lemma_lines_of_line, lines, no_newline, occurs_at,
    push_decimal, split_lines, str_equal, string_of, trim, trim_chars,
};

verus! {

/// What the client keeps: the board text, its role, whether it may play,
/// and a status line.
pub struct ClientView {
    pub board: String,
    pub role: String,
    pub my_turn: bool,
    pub status: String,
}

/// The client's state as character sequences.
pub type ViewState = (Seq<char>, Seq<char>, bool, Seq<char>);

/// The state after one line from the server: `BOARD ` sets the board,
/// `START ` the role, `TURN ` whether it is this client's turn (the named
/// role is its own), and a line starting with `WIN` becomes the status and
/// ends the client's turn.
pub open spec fn after_line(v: ViewState, line: Seq<char>) -> ViewState {
    if has_prefix(line, "BOARD "@) {
        (line.skip(6), v.1, v.2, v.3)
    } else if has_prefix(line, "START "@) {
        (v.0, line.skip(6), v.2, v.3)
    } else if has_prefix(line, "TURN "@) {
        (v.0, v.1, line.skip(5) == v.1, v.3)
    } else if has_prefix(line, "WIN"@) {
        (v.0, v.1, false, line)
    } else {
        v
    }
}

/// The state after the first `n` lines.
pub open spec fn after_lines(v: ViewState, ls: Seq<Seq<char>>, n: int) -> ViewState
    decreases n,
{
    if n <= 0 {
        v
    } else {
        after_line(after_lines(v, ls, n - 1), ls[n - 1])
    }
}

/// The command a click sends, when the client may play there: `TRAP x y` for
/// the trapper and `MOVE x y` for the mouse, on an empty cell (`.`).
pub open spec fn click_text(v: ViewState, i: int, j: int) -> Option<Seq<char>> {
    let idx = i * 7 + j;
    let c = if 0 <= idx < v.0.len() {
        v.0[idx]
    } else {
        '.'
    };
    if v.2 && c == '.' && v.1 == "TRAPPER"@ {
        Some("TRAP "@ + decimal(i as nat) + " "@ + decimal(j as nat))
    } else if v.2 && c == '.' && v.1 == "MOUSE"@ {
        Some("MOVE "@ + decimal(i as nat) + " "@ + decimal(j as nat))
    } else {
        None
    }
}

impl ClientView {
    /// The state as character sequences.
    pub open spec fn state(&self) -> ViewState {
        (self.board@, self.role@, self.my_turn, self.status@)
    }

    /// The client as it starts: an empty board, no role yet, not its turn.
    pub fn new() -> (v: ClientView)
        ensures
            v.board@ == Seq::new(49, |k: int| '.'),
            v.role@ == "UNKNOWN"@,
            !v.my_turn,
            v.status@ == "Connected"@,
    {
        let mut board = String::new();
        let mut k: usize = 0;
        while k < 49
            invariant
                k <= 49,
                board@ == Seq::new(k as nat, |m: int| '.'),
            decreases 49 - k,
        {
            crate::text::push_char(&mut board, '.');
            k = k + 1;
            assert(board@ =~= Seq::new(k as nat, |m: int| '.'));
        }
        let mut role = String::new();
        role.append("UNKNOWN");
        let mut status = String::new();
        status.append("Connected");
        ClientView { board, role, my_turn: false, status }
    }

    /// Takes in every line of a server message, in order.
    pub fn handle_server_message(&mut self, msg: &str)
        ensures
            final(self).state() == after_lines(old(self).state(), lines(msg@), lines(msg@).len() as int),
    {
        let ls = split_lines(&chars_of(msg));
        let ghost g = lines(msg@);
        let board_p = chars_of("BOARD ");
        let start_p = chars_of("START ");
        let turn_p = chars_of("TURN ");
        let win_p = chars_of("WIN");
        proof {
            reveal_strlit("BOARD ");
            reveal_strlit("START ");
            reveal_strlit("TURN ");
        }
        let mut k: usize = 0;
        while k < ls.len()
            invariant
                k <= ls@.len(),
                ls@.len() == g.len(),
                g == lines(msg@),
                board_p@ == "BOARD "@,
                start_p@ == "START "@,
                turn_p@ == "TURN "@,
                win_p@ == "WIN"@,
                forall|m: int| 0 <= m < ls@.len() ==> #[trigger] ls@[m]@ == g[m],
                self.state() == after_lines(old(self).state(), g, k as int),
            decreases ls@.len() - k,
        {
            let line = &ls[k];
            proof {
                reveal_strlit("BOARD ");
                reveal_strlit("START ");
                reveal_strlit("TURN ");
            }
            assert(line@.skip(0) =~= line@);
            if occurs_at(line, 0, &board_p) {
                self.board = string_of(&chars_from(line, 6));
            } else if occurs_at(line, 0, &start_p) {
                self.role = string_of(&chars_from(line, 6));
            } else if occurs_at(line, 0, &turn_p) {
                let rest = string_of(&chars_from(line, 5));
                self.my_turn = str_equal(rest.as_str(), self.role.as_str());
            } else if occurs_at(line, 0, &win_p) {
                self.status = string_of(line);
                self.my_turn = false;
            }
            k = k + 1;
        }
    }

    /// The command a click on row `i`, column `j` sends, if any.
    pub fn click_command(&self, i: usize, j: usize) -> (r: Option<String>)
        requires
            i * 7 + j <= usize::MAX,
        ensures
            r matches Some(s) ==> click_text(self.state(), i as int, j as int) == Some(s@),
            r is None ==> click_text(self.state(), i as int, j as int) is None,
    {
        let idx = i * 7 + j;
        let b = chars_of(self.board.as_str());
        let c = if idx < b.len() {
            b[idx]
        } else {
            '.'
        };
        if !(self.my_turn && c == '.') {
            return None;
        }
        let trapper = str_equal(self.role.as_str(), "TRAPPER");
        let mouse = str_equal(self.role.as_str(), "MOUSE");
        if !trapper && !mouse {
            return None;
        }
        let mut s = String::new();
        if trapper {
            s.append("TRAP ");
        } else {
            s.append("MOVE ");
        }
        push_decimal(&mut s, i as u64);
        s.append(" ");
        push_decimal(&mut s, j as u64);
        Some(s)
    }
}

/// The join request for the mode typed at start-up: `1` (around whitespace)
/// asks for a game between people, anything else for the strategy.
pub fn join_message(input: &str) -> (m: &'static str)
    ensures
        trim(input@) == "1"@ ==> m@ == "JOIN PVP\n"@,
        trim(input@) != "1"@ ==> m@ == "JOIN STRATEGY\n"@,
{
    let t = string_of(&trim_chars(&chars_of(input)));
    if str_equal(t.as_str(), "1") {
        "JOIN PVP\n"
    } else {
        "JOIN STRATEGY\n"
    }
}

/// What the client keeps of the state the server sends: the board exactly
/// as the server wrote it, and its turn when the role the server names is
/// the client's own role.
pub proof fn client_reads_server_state(v: ViewState, b: pvp_server::Board, t: pvp_server::Role)
    ensures
        after_lines(v, lines(pvp_server::state_text(b, t)), lines(pvp_server::state_text(b, t)).len() as int)
            == (pvp_server::board_text(b), v.1, pvp_server::role_name(t) == v.1, v.3),
{
    reveal_strlit("BOARD ");
    reveal_strlit("\nTURN ");
    reveal_strlit("TURN ");
    reveal_strlit("START ");
    reveal_strlit("WIN");
    reveal_strlit("\n");
    reveal_strlit("Trapper");
    reveal_strlit("Mouse");
    let bt = pvp_server::board_text(b);
    let rn = pvp_server::role_name(t);
    let a = "BOARD "@ + bt;
    let c = "TURN "@ + rn;
    assert(pvp_server::state_text(b, t) =~= a + seq!['\n'] + (c + seq!['\n'] + seq![]));
    assert forall|i: int| 0 <= i < a.len() implies #[trigger] a[i] != '\n' by {
        if i >= 6 {
            assert(a[i] == bt[i - 6]);
        }
    }
    assert(no_newline(c));
    assert(a.last() == bt[48]);
    lemma_lines_of_line(a, c + seq!['\n'] + seq![]);
    lemma_lines_of_line(c, seq![]);
    assert(lines(seq![]) == Seq::<Seq<char>>::empty());
    let ls = lines(pvp_server::state_text(b, t));
    assert(ls =~= seq![a, c]);
    assert(has_prefix(a, "BOARD "@)) by {
        assert(a.take(6) =~= "BOARD "@);
    }
    assert(a.skip(6) =~= bt);
    assert(!has_prefix(c, "BOARD "@)) by {
        assert(c.take(6)[0] == 'T');
        assert("BOARD "@[0] == 'B');
    }
    assert(!has_prefix(c, "START "@)) by {
        assert(c.take(6)[0] == 'T');
        assert("START "@[0] == 'S');
    }
    assert(has_prefix(c, "TURN "@)) by {
        assert(c.take(5) =~= "TURN "@);
    }
    assert(c.skip(5) =~= rn);
    let v1 = after_line(v, a);
    assert(v1 == (bt, v.1, v.2, v.3));
    assert(after_lines(v, ls, 1) == v1) by {
        assert(after_lines(v, ls, 0) == v);
    }
    assert(after_line(v1, c) == (bt, v.1, rn == v.1, v.3));
    assert(after_lines(v, ls, 2) == after_line(v1, c));
}

} // verus!
