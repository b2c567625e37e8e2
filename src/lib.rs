pub mod archive;
pub mod cache;
pub mod character;
pub mod inspect;
pub mod keys;
pub mod map;
pub mod npc;
pub mod order;
pub mod sprite;
pub mod table;
pub mod timer;
pub mod ui;
pub mod value;
