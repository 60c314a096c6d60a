//! Solutions to daily programming puzzles, one module per day: each parses
//! the day's text input and computes its two answers, with the parsing and
//! the computations verified.
//!
//! Shared helpers: `text` (characters, splitting, decimal numbers), `clock`
//! (timing and the decimal form of an answer) and `num_bridge` (greatest
//! common divisor and least common multiple).
pub mod clock;
pub mod num_bridge;
pub mod text;
pub mod y2015_day_01;
pub mod y2015_day_02;
pub mod y2015_day_03;
pub mod y2022_day_01;
pub mod y2022_day_02;
pub mod y2022_day_03;
pub mod y2022_day_04;
pub mod y2022_day_06;
pub mod y2022_day_10;
pub mod y2022_day_11;
pub mod y2022_day_16;
pub mod y2023_day_01;
pub mod y2023_day_02;
pub mod y2023_day_03;
pub mod y2023_day_04;
pub mod y2023_day_06;
pub mod y2023_day_07;
pub mod y2023_day_08;
pub mod y2023_day_09;
pub mod y2023_day_11;
pub mod y2023_day_12;
pub mod y2024_day_01;
pub mod y2024_day_02;
pub mod y2024_day_04;
pub mod y2024_day_09;
