pub mod puzzle_display;
