pub mod game_of_life;
pub mod typst_table;
