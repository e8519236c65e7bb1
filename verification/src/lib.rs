//! Detects local-variable shadowing inside functions.
//!
//! A function record keeps, for every name bound in the function, the ordered
//! history of the lines at which that name was bound. A name whose history
//! holds more than one line was shadowed. Scope is flat: every binding inside
//! a function's extent lands in that function's record.

pub mod binding;
pub mod model;
pub mod function;
pub mod counter;
pub mod pattern;
pub mod report;
pub mod laws;
pub mod walk;

pub use binding::{Case, Count, Ident, Pattern};
pub use function::Function;
pub use counter::{ShadowCounter, ShadowError};
pub use pattern::{get_idents, patterns_of, select_idents};
pub use report::{FunctionReport, ShadowedVar};
pub use walk::is_file_with_ext;
