pub mod cauterize;
pub mod chunks;
pub mod groups;
pub mod names;
pub mod parse;
pub mod paths;
pub mod picks;
pub mod removal;
pub mod resolver;
pub mod search;
pub mod syntax;
pub mod targets;
pub mod text;
pub mod unused;
