//! The incremental group-by operator of a differential dataflow engine:
//! weighted updates are installed per key and time into a trace, and a
//! reduction is re-run only for the keys and times whose input could have
//! changed, emitting the net change of its output.

pub mod coalesce;
pub mod compact;
pub mod group;
pub mod lookup;
pub mod time;
pub mod trace;
pub mod worklist;

pub use coalesce::{coalesce, consolidate, negate};
pub use compact::Compact;
pub use group::{Group, GroupBy, GroupError, GroupUnsigned, MaxValue, Reduce};
pub use lookup::Lookup;
pub use time::Time;
pub use trace::Trace;
