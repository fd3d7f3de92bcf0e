pub mod consts;
pub mod gamemap;
pub mod player;
pub mod game_info;
pub mod random;
pub mod text;
pub mod xor128;
