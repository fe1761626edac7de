//! Small verified exercises on numbers and text, together with the game logic
//! of a "trap the mouse" board game played over the network.

pub mod lab01;
pub mod text;
pub mod lab03;
pub mod lab03_ops;
pub mod trap_server;
pub mod pvp_server;
pub mod lab06;
pub mod lab02;
pub mod lab04;
pub mod trap_client;
pub mod pvp_client;
