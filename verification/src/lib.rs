//! Single-threaded shared ownership and run-time borrow checking, stated as
//! verified state machines.
//!
//! [`rc`] keeps the count of the handles that share one heap cell.
//! [`refcell`] keeps the marker that says which guards a cell has handed out.
//! Neither module holds a pointer: every operation takes the cell it works on,
//! so the one who stores the cell decides how handles and guards find it.

pub mod rc;
pub mod refcell;
