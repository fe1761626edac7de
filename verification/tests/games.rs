use rust_labs::pvp_client::{join_message, ClientView};
use rust_labs::pvp_server;
use rust_labs::pvp_server::{parse_join, seat_player, Seating};
use rust_labs::trap_client::{board_cell, board_lines, extract_value, move_command, value_or_unknown, AppState, ClientModel, GameResult};
use rust_labs::trap_server::{
    computer_mouse_move, computer_move_if_needed, find_human_room, handle_move, initial_board,
    join_room, mouse_can_move, new_room, parse_coords, parse_mode_choice, player_message,
    serialize_board, Board, Cell, Mode, Role, Room,
};

fn empty_board() -> Board {
    [[Cell::Empty; 11]; 11]
}

fn room_with(board: Board, mouse: (usize, usize), mode: Mode, turn: Role) -> Room {
    let mut board = board;
    board[mouse.0][mouse.1] = Cell::Mouse;
    Room { mode, players: 2, board, mouse_pos: mouse, turn }
}

fn count(board: &Board, c: Cell) -> usize {
    board.iter().flat_map(|r| r.iter()).filter(|&&x| x == c).count()
}

#[test]
fn initial_board_has_mouse_and_traps() {
    for _ in 0..50 {
        let b = initial_board();
        assert_eq!(b[5][5], Cell::Mouse);
        assert_eq!(count(&b, Cell::Mouse), 1);
        let traps = count(&b, Cell::Trap);
        assert!((5..=12).contains(&traps));
        assert_eq!(count(&b, Cell::Empty) + traps, 120);
    }
}

#[test]
fn parse_coords_cases() {
    assert_eq!(parse_coords(&["MOVE", "3", "10"]), Some((3, 10)));
    assert_eq!(parse_coords(&["MOVE", "3", "11"]), None);
    assert_eq!(parse_coords(&["MOVE", "3"]), None);
    assert_eq!(parse_coords(&["MOVE", "x", "1"]), None);
    assert_eq!(parse_coords(&["ANY", "+1", "0"]), Some((1, 0)));
    assert_eq!(pvp_server::parse_coords(&["TRAP", "6", "6"]), Some((6, 6)));
    assert_eq!(pvp_server::parse_coords(&["TRAP", "7", "6"]), None);
}

#[test]
fn serialize_small_boards() {
    let mut b = empty_board();
    b[0][0] = Cell::Trap;
    b[5][5] = Cell::Mouse;
    let s = serialize_board(&b);
    let lines: Vec<&str> = s.lines().collect();
    assert_eq!(lines.len(), 13);
    assert_eq!(lines[0], "BOARD_START");
    assert_eq!(lines[1], "#..........");
    assert_eq!(lines[6], ".....M.....");
    assert_eq!(lines[12], "BOARD_END");
    assert!(s.ends_with("BOARD_END\n"));
    let p = pvp_server::serialize_board(&pvp_server::initial_board());
    assert_eq!(p.len(), 49);
    assert_eq!(&p[21..28], "...M...");
}

#[test]
fn mouse_surrounded_cannot_move() {
    let mut b = empty_board();
    for (x, y) in [(4, 4), (4, 5), (4, 6), (5, 4), (5, 6), (6, 4), (6, 5), (6, 6)] {
        b[x][y] = Cell::Trap;
    }
    b[5][5] = Cell::Mouse;
    assert!(!mouse_can_move(&b, (5, 5)));
    assert_eq!(computer_mouse_move(&b, (5, 5)), None);
    b[6][6] = Cell::Empty;
    assert!(mouse_can_move(&b, (5, 5)));
    assert_eq!(computer_mouse_move(&b, (5, 5)), Some((6, 6)));
}

#[test]
fn computer_mouse_runs_to_the_edge() {
    let mut b = empty_board();
    b[1][5] = Cell::Mouse;
    // From row 1 the top row is one step away: distance 0 beats everything.
    assert_eq!(computer_mouse_move(&b, (1, 5)), Some((0, 5)));
    let mut b = empty_board();
    b[5][5] = Cell::Mouse;
    // In the open every neighbour is as far from the edge: the first one in
    // step order with the most free neighbours wins (up, with 7 free).
    assert_eq!(computer_mouse_move(&b, (5, 5)), Some((4, 5)));
}

#[test]
fn strategy_mouse_first_free_direction() {
    let mut b = pvp_server::initial_board();
    assert_eq!(pvp_server::strategy_mouse_move(&b, (3, 3)), Some((2, 3)));
    b[2][3] = pvp_server::Cell::Trap;
    assert_eq!(pvp_server::strategy_mouse_move(&b, (3, 3)), Some((3, 4)));
    b[3][4] = pvp_server::Cell::Trap;
    b[4][3] = pvp_server::Cell::Trap;
    b[3][2] = pvp_server::Cell::Trap;
    assert_eq!(pvp_server::strategy_mouse_move(&b, (3, 3)), None);
    assert_eq!(pvp_server::strategy_mouse_move(&b, (0, 0)), Some((0, 1)));
}

#[test]
fn trapper_move_then_mouse_move() {
    let mut room = room_with(empty_board(), (5, 5), Mode::Human, Role::Trapper);
    // Not the mouse's turn yet.
    assert_eq!(handle_move(&mut room, 1, &["MOVE", "5", "6"]), 0);
    assert_eq!(handle_move(&mut room, 0, &["MOVE", "2", "2"]), 1);
    assert_eq!(room.board[2][2], Cell::Trap);
    assert_eq!(room.turn, Role::Mouse);
    // A jump of two cells is refused but still answered.
    assert_eq!(handle_move(&mut room, 1, &["MOVE", "5", "7"]), 1);
    assert_eq!(room.mouse_pos, (5, 5));
    assert_eq!(handle_move(&mut room, 1, &["MOVE", "4", "6"]), 1);
    assert_eq!(room.mouse_pos, (4, 6));
    assert_eq!(room.board[5][5], Cell::Empty);
    assert_eq!(room.board[4][6], Cell::Mouse);
    assert_eq!(room.turn, Role::Trapper);
    // Trapping an occupied cell does nothing.
    assert_eq!(handle_move(&mut room, 0, &["MOVE", "2", "2"]), 1);
    assert_eq!(room.turn, Role::Trapper);
    // Not a move command.
    assert_eq!(handle_move(&mut room, 0, &["TRAP", "1", "1"]), 0);
    assert_eq!(handle_move(&mut room, 0, &["MOVE", "1"]), 0);
}

#[test]
fn computer_answers_a_trap() {
    let mut room = room_with(empty_board(), (1, 5), Mode::Computer, Role::Trapper);
    assert_eq!(handle_move(&mut room, 0, &["MOVE", "9", "9"]), 2);
    assert_eq!(room.board[9][9], Cell::Trap);
    assert_eq!(room.mouse_pos, (0, 5));
    assert_eq!(room.turn, Role::Trapper);
    assert_eq!(count(&room.board, Cell::Mouse), 1);
    let mut idle = room_with(empty_board(), (5, 5), Mode::Human, Role::Mouse);
    assert!(!computer_move_if_needed(&mut idle));
    assert_eq!(idle.mouse_pos, (5, 5));
}

#[test]
fn messages_for_players() {
    let mut board = empty_board();
    board[0][3] = Cell::Mouse;
    let room = Room { mode: Mode::Human, players: 2, board, mouse_pos: (0, 3), turn: Role::Trapper };
    let m0 = player_message(&room, 0);
    let m1 = player_message(&room, 1);
    assert!(m0.starts_with("BOARD_START\n...M......."));
    assert!(m0.ends_with("BOARD_END\nGAME_OVER: LOSE\nYOUR_ROLE: Trapper\nTURN: Trapper\nMODE: Human\n"));
    assert!(m1.ends_with("BOARD_END\nGAME_OVER: WIN\nYOUR_ROLE: Mouse\nTURN: Trapper\nMODE: Human\n"));
    let room = room_with(empty_board(), (5, 5), Mode::Computer, Role::Mouse);
    assert!(player_message(&room, 0).ends_with("BOARD_END\nYOUR_ROLE: Trapper\nTURN: Mouse\nMODE: Computer\n"));
}

#[test]
fn lobby_seats_players() {
    assert_eq!(parse_mode_choice("2\n"), Mode::Computer);
    assert_eq!(parse_mode_choice(" 1 "), Mode::Human);
    assert_eq!(parse_mode_choice("22"), Mode::Human);
    let mut rooms: Vec<Room> = Vec::new();
    assert_eq!(join_room(&mut rooms, Mode::Human), (0, 0));
    assert_eq!(join_room(&mut rooms, Mode::Computer), (1, 0));
    assert_eq!(join_room(&mut rooms, Mode::Human), (0, 1));
    assert_eq!(rooms[0].players, 2);
    assert_eq!(join_room(&mut rooms, Mode::Human), (0, 1));
    assert_eq!(rooms[0].players, 3);
    assert_eq!(find_human_room(&rooms), None);
    assert_eq!(join_room(&mut rooms, Mode::Human), (2, 0));
    let fresh = new_room(Mode::Computer);
    assert_eq!(fresh.mouse_pos, (5, 5));
    assert_eq!(fresh.turn, Role::Trapper);
}

#[test]
fn pvp_lobby() {
    assert_eq!(parse_join("JOIN PVP\n"), Some(pvp_server::Mode::Pvp));
    assert_eq!(parse_join("  JOIN STRATEGY"), Some(pvp_server::Mode::Strategy));
    assert_eq!(parse_join("JOIN"), None);
    let mut rooms = Vec::new();
    assert_eq!(seat_player(&mut rooms, pvp_server::Mode::Pvp), Seating::Waiting(0));
    assert_eq!(seat_player(&mut rooms, pvp_server::Mode::Strategy), Seating::Started(1));
    assert_eq!(seat_player(&mut rooms, pvp_server::Mode::Pvp), Seating::Joined(0));
    assert_eq!(rooms[0].players, 2);
    assert_eq!(seat_player(&mut rooms, pvp_server::Mode::Pvp), Seating::Waiting(2));
}

#[test]
fn pvp_state_message() {
    let b = pvp_server::initial_board();
    let s = pvp_server::state_message(&b, pvp_server::Role::Trapper);
    assert_eq!(s, format!("BOARD {}\nTURN Trapper\n", ".".repeat(24) + "M" + &".".repeat(24)));
}

#[test]
fn trap_client_reads_values() {
    let msg = "BOARD_START\n.M.\n#..\nBOARD_END\nYOUR_ROLE: Mouse\nTURN: Trapper\n";
    assert_eq!(extract_value(msg, "YOUR_ROLE: "), Some(String::from("Mouse")));
    assert_eq!(extract_value(msg, "TURN: "), Some(String::from("Trapper")));
    assert_eq!(extract_value(msg, "GAME_OVER: "), None);
    assert_eq!(extract_value("a: b a: c\n", "a: "), Some(String::from("b c")));
    assert_eq!(value_or_unknown(msg, "MODE: "), "Unknown");
    let rows = board_lines(msg);
    assert_eq!(rows, vec![".M.", "#.."]);
    assert_eq!(board_cell(&rows, 0, 1), 'M');
    assert_eq!(board_cell(&rows, 1, 0), '#');
    assert_eq!(board_cell(&rows, 5, 0), '.');
    assert_eq!(board_cell(&rows, 0, 9), '.');
    assert_eq!(board_lines("no board here"), Vec::<String>::new());
    assert_eq!(move_command(3, 10), "MOVE 3 10\n");
}

#[test]
fn trap_client_reads_server_messages() {
    let room = room_with(empty_board(), (5, 5), Mode::Human, Role::Trapper);
    let msg = player_message(&room, 1);
    let rows = board_lines(&msg);
    assert_eq!(rows.len(), 11);
    assert_eq!(board_cell(&rows, 5, 5), 'M');
    assert_eq!(value_or_unknown(&msg, "YOUR_ROLE: "), "Mouse");
    assert_eq!(value_or_unknown(&msg, "TURN: "), "Trapper");
}

#[test]
fn trap_client_screens() {
    let mut m = ClientModel::new();
    assert_eq!(m.state, AppState::ChooseMode);
    m.choose_mode(true);
    assert_eq!(m.chosen_mode.as_deref(), Some("2\n"));
    m.on_started(String::from("Conectat!"));
    assert_eq!(m.chosen_mode, None);
    m.on_board_update(String::from("BOARD_START\n...\nBOARD_END\n"));
    assert_eq!(m.state, AppState::InGame);
    assert_eq!(m.board_raw, "BOARD_START\n...\nBOARD_END\n");
    m.on_board_update(String::from("BOARD_START\n...\nBOARD_END\nGAME_OVER: WIN\n"));
    assert_eq!(m.state, AppState::GameOver(GameResult::Win));
    assert_eq!(m.board_raw, "BOARD_START\n...\nBOARD_END\n");
    m.on_board_update(String::from("GAME_OVER: LOSE\n"));
    assert_eq!(m.state, AppState::GameOver(GameResult::Lose));
    m.leave_game_over();
    assert_eq!(m.state, AppState::ChooseMode);
    assert_eq!(m.board_raw, "");
    m.on_disconnect(String::from("gone"));
    assert_eq!(m.status_msg, "gone");
}

#[test]
fn pvp_client_follows_messages() {
    let mut v = ClientView::new();
    assert_eq!(v.board, ".".repeat(49));
    assert_eq!(v.role, "UNKNOWN");
    v.handle_server_message("START TRAPPER\nBOARD ##.\nTURN TRAPPER\n");
    assert_eq!(v.role, "TRAPPER");
    assert_eq!(v.board, "##.");
    assert!(v.my_turn);
    assert_eq!(v.click_command(0, 0), None);
    assert_eq!(v.click_command(0, 2).as_deref(), Some("TRAP 0 2"));
    assert_eq!(v.click_command(3, 3).as_deref(), Some("TRAP 3 3"));
    v.handle_server_message("TURN Trapper\n");
    assert!(!v.my_turn);
    assert_eq!(v.click_command(0, 2), None);
    v.handle_server_message("TURN TRAPPER\nWIN trapper\n");
    assert!(!v.my_turn);
    assert_eq!(v.status, "WIN trapper");
    assert_eq!(join_message("1\n"), "JOIN PVP\n");
    assert_eq!(join_message("2"), "JOIN STRATEGY\n");
}

#[test]
fn pvp_client_reads_server_state() {
    let b = pvp_server::initial_board();
    let s = pvp_server::state_message(&b, pvp_server::Role::Mouse);
    let mut v = ClientView::new();
    v.handle_server_message("START MOUSE\n");
    v.handle_server_message(&s);
    assert_eq!(v.board, pvp_server::serialize_board(&b));
    // The server names the turn "Mouse" and the role "MOUSE": they never match.
    assert!(!v.my_turn);
}

#[test]
fn trap_client_shows_announced_end() {
    let escaped = room_with(empty_board(), (0, 4), Mode::Human, Role::Trapper);
    let mut mouse = ClientModel::new();
    mouse.on_board_update(player_message(&escaped, 1));
    assert_eq!(mouse.state, AppState::GameOver(GameResult::Win));
    let mut trapper = ClientModel::new();
    trapper.on_board_update(player_message(&escaped, 0));
    assert_eq!(trapper.state, AppState::GameOver(GameResult::Lose));

    let mut b = empty_board();
    for &(x, y) in &[(4, 4), (4, 5), (4, 6), (5, 4), (5, 6), (6, 4), (6, 5), (6, 6)] {
        b[x][y] = Cell::Trap;
    }
    let stuck = room_with(b, (5, 5), Mode::Computer, Role::Mouse);
    let mut mouse = ClientModel::new();
    mouse.on_board_update(player_message(&stuck, 1));
    assert_eq!(mouse.state, AppState::GameOver(GameResult::Lose));
    let mut trapper = ClientModel::new();
    trapper.on_board_update(player_message(&stuck, 0));
    assert_eq!(trapper.state, AppState::GameOver(GameResult::Win));

    let going = room_with(b, (2, 2), Mode::Human, Role::Mouse);
    let msg = player_message(&going, 0);
    let mut trapper = ClientModel::new();
    trapper.on_board_update(msg.clone());
    assert_eq!(trapper.state, AppState::InGame);
    let rows = board_lines(&msg);
    assert_eq!(rows.len(), 11);
    assert_eq!(board_cell(&rows, 2, 2), 'M');
    assert_eq!(board_cell(&rows, 4, 4), '#');
    assert_eq!(value_or_unknown(&msg, "YOUR_ROLE: "), "Trapper");
    assert_eq!(value_or_unknown(&msg, "TURN: "), "Mouse");
}

#[test]
fn room_well_formedness() {
    let room = room_with(empty_board(), (5, 5), Mode::Human, Role::Trapper);
    assert!(room.is_well_formed());
    let mut two_mice = room;
    two_mice.board[1][1] = Cell::Mouse;
    assert!(!two_mice.is_well_formed());
    let mut moved = room;
    moved.mouse_pos = (4, 4);
    assert!(!moved.is_well_formed());
    let mut off = room;
    off.mouse_pos = (11, 0);
    assert!(!off.is_well_formed());
    assert!(new_room(Mode::Computer).is_well_formed());
}

#[test]
fn board_from_draws_places_by_rank() {
    let b = rust_labs::trap_server::board_from_draws(3, &vec![0, 0, 0]);
    assert_eq!(b[0][0], Cell::Trap);
    assert_eq!(b[0][1], Cell::Trap);
    assert_eq!(b[0][2], Cell::Trap);
    assert_eq!(count(&b, Cell::Trap), 3);
    assert_eq!(b[5][5], Cell::Mouse);

    // Rank 60 skips the mouse's cell; rank 119 is the last empty cell.
    let b = rust_labs::trap_server::board_from_draws(2, &vec![60, 118]);
    assert_eq!(b[5][6], Cell::Trap);
    assert_eq!(b[10][10], Cell::Trap);
    assert_eq!(count(&b, Cell::Trap), 2);

    let b = rust_labs::trap_server::board_from_draws(0, &vec![]);
    assert_eq!(count(&b, Cell::Trap), 0);
    assert_eq!(count(&b, Cell::Mouse), 1);
}
