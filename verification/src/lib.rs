//! A solver for the binary colouring puzzle played on an even-sided square
//! grid: every square is red or blue, no three equal colours stand next to each
//! other in a line, every line holds as many reds as blues, and no two rows and
//! no two columns are alike.
pub mod board;
pub mod rules;
pub mod solution;
pub mod solver;
