//! Tables of items addressed by handles, with sorted indices and
//! one-to-one relations between items.
pub mod handle;

pub use handle::Handle;
pub mod loops;
pub use loops::{BreakContinue, End};
pub mod index;
pub mod sort;
pub use sort::Sort;
pub mod query;
pub use query::Query;
pub mod table;
pub use table::{Table, TableMutRef};
pub mod source;
pub mod onetoone;
pub mod plan;
pub use plan::TablePlan;
pub use onetoone::{CanView, Mut, Rel, RelSelf, View};
