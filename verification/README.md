# rust_labs

A small collection of programming exercises and a networked "trap the mouse"
board game, with the logic written in Verus and proved against its
specifications.

- `src/` is the verified library: number and text exercises (`lab01` to
  `lab06`, `text`), the rules of the 11 x 11 game and the state of its
  graphical client (`trap_server`, `trap_client`), and the 7 x 7 game with its
  client (`pvp_server`, `pvp_client`).
- `app/` holds the programs around it: the exercises' `main`, the TCP servers,
  and the egui windows. They read files and sockets, draw, and hand plain
  values to the library.
- `tests/` runs the library on concrete inputs.
