//! The sinks that receive rows, and the schema that they discover.
use crate::parser::models::{RecordView, TableLocation, TableLocationView, TableRecord};
use vstd::prelude::*;

pub mod database_csv;
pub mod database_json;
pub mod database_stdout;
pub mod schema;

verus! {

/// Why a sink or the schema registry refused an operation.
#[derive(Debug, Clone, Copy, PartialEq, Eq, Structural)]
pub enum DatabaseError {
    /// A table schema was handed back for a path that the registry never
    /// lent out.
    UnknownTable,
    /// A table schema that is needed is lent out and has not come back.
    StillBorrowed,
    /// A pattern of the name mangling was not accepted by the pattern engine.
    PatternRejected,
}

/// A sink for rows. A sink takes the rows of all tables one by one and
/// hands back, for each, what is left for its caller to do with it.
pub trait Database: View + Sized {
    /// What the sink hands back for a row.
    type Written;

    /// What `Written` is in contracts.
    type WrittenView;

    /// The sink's invariant.
    spec fn wf(&self) -> bool;

    /// What a handed-back value is in contracts.
    spec fn written_view(written: Self::Written) -> Self::WrittenView;

    /// The sink after it was given the row.
    spec fn after_write(state: Self::V, table: TableLocationView, record: RecordView) -> Self::V;

    /// What the sink hands back for the row, or why it refuses it.
    spec fn write_result(state: Self::V, table: TableLocationView, record: RecordView) -> Result<
        Self::WrittenView,
        DatabaseError,
    >;

    /// The sink after it was closed.
    spec fn after_close(state: Self::V) -> Self::V;

    /// Whether the sink can be closed, or why not.
    spec fn close_result(state: Self::V) -> Result<(), DatabaseError>;

    /// Gives the sink a row.
    fn write(&mut self, table: TableLocation, record: TableRecord) -> (r: Result<
        Self::Written,
        DatabaseError,
    >)
        requires
            old(self).wf(),
        ensures
            final(self).wf(),
            final(self)@ == Self::after_write(old(self)@, table@, record@),
            r is Ok == Self::write_result(old(self)@, table@, record@) is Ok,
            r matches Ok(w) ==> Ok::<Self::WrittenView, DatabaseError>(Self::written_view(w))
                == Self::write_result(old(self)@, table@, record@),
            r matches Err(e) ==> Err::<Self::WrittenView, DatabaseError>(e) == Self::write_result(
                old(self)@,
                table@,
                record@,
            ),
    ;

    /// Closes the sink.
    fn close(&mut self) -> (r: Result<(), DatabaseError>)
        requires
            old(self).wf(),
        ensures
            final(self).wf(),
            final(self)@ == Self::after_close(old(self)@),
            r == Self::close_result(old(self)@),
    ;
}

} // verus!
