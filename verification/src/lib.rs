//! Key-layout and spelling-table tooling for a Cangjie/shuangpin based
//! input method: line parsers for the dictionary tables, the spelling
//! translators that derive word spells, swap-table handling and the
//! statistics used to score keyboard layouts.
pub mod text;
pub mod cmap;
pub mod dict;
pub mod py;
pub mod parser;
pub mod yubi;
pub mod spell;
pub mod util;
pub mod out;
pub mod kt;
pub mod chain;
pub mod repeat;
pub mod swap;
pub mod sta;
