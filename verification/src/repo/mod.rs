//! The decisions behind the repository queries, split by data domain.

pub mod breaches;
pub mod imports;
pub mod pam;
pub mod positions;
pub mod reference;
pub mod seeding;
