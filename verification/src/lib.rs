pub mod calendar;
pub mod instant;
pub mod meetings;
pub mod scan;
pub mod tokens;
