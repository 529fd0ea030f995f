//! The commands of the library; today there is one, the co-author command.

pub mod coauthor;
