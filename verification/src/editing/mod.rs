pub mod text;
pub mod hex;
pub mod rope;
pub mod lines;
pub mod numedit;
pub mod buffer;
pub mod commands;
pub mod motion;
pub mod textobject;
