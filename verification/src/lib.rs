pub mod text;
pub mod model;
pub mod history;
pub mod search;
pub mod parser;
pub mod tmux;
pub mod ui;
