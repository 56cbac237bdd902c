//! A small, verified question repository: validated identifiers, question
//! records, an in-memory store with unique keys, range-paginated listing,
//! and a closed error taxonomy that the service boundary maps to statuses.

pub mod error;
pub mod params;
pub mod question;
pub mod questionbase;

pub use error::Error;
pub use question::Question;
pub use question::QuestionId;
pub use question::QuestionView;
pub use questionbase::QuestionBase;
