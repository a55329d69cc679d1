pub mod helpers;
pub mod tally;
pub mod order_book;
pub mod ladder;
pub mod clock;
pub mod snapshot;
pub mod synthetic;
pub mod level_book;
pub mod feed;
pub mod laws;
pub mod publish;
