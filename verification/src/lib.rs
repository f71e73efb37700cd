pub mod tree;
pub mod text;
pub mod app;
pub mod editbuf;
pub mod history;
pub mod parser;
pub mod plugins;
pub mod theme;
pub mod validation;
pub mod widgets;
