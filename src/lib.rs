pub mod basin;
pub mod bingo;
pub mod calories;
pub mod days;
pub mod depth;
pub mod diagnostic;
pub mod dive;
pub mod filesystem;
pub mod marker;
pub mod rps;
pub mod rucksack;
pub mod trees;
