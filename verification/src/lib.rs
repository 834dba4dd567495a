//! Finds compiled Lua bytecode in script files and Roblox place files, schedules it for remote
//! decompilation, and writes the answers back into the document.

pub mod text;
pub mod utf8;
pub mod bytecode;
pub mod outside;
pub mod compiled;
pub mod messages;
pub mod decompiler;
pub mod rbxlx;
