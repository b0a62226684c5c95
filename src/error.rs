use vstd::prelude::*;

verus! {

/// The kinds of failure that the store and its record formats report.
#[derive(Debug, Clone, Copy, PartialEq, Eq, Structural)]
pub enum GradeError {
    /// A student with the same id is already registered.
    DuplicateStudent,
    /// No student with the given id is registered.
    StudentNotFound,
    /// A grade with the same (student id, subject, semester) key already exists.
    DuplicateGrade,
    /// No grade with the given key exists.
    GradeNotFound,
    /// A snapshot could not be encoded or decoded.
    SerializationFailure,
    /// Reading or writing a file failed.
    IOFailure,
    /// An imported row has too few columns or an unreadable score.
    MalformedRecord,
}

} // verus!
