pub mod ai;
pub mod clipboard;
pub mod clock;
pub mod commands;
pub mod data;
pub mod format;
pub mod history;
pub mod laws;
pub mod search;
pub mod settings;
pub mod sort;
pub mod storage;
pub mod tags;
pub mod text;
pub mod validator;
pub mod value_map;
pub mod variable;
