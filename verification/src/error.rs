use vstd::prelude::*;

verus! {

/// The errors that the store reports.
#[derive(Debug)]
pub enum GuiXuError {
    /// An operating-system error, carried as its message.
    Io(String),
    /// No live entry is stored under this id.
    EntryNotFound(u64),
    /// An explicit id that the box has not handed out yet.
    IllegalId { id: u64, next_id: u64 },
    /// No live value is stored under this key.
    KeyNotFound(String),
    /// The stored value has another type than the one asked for.
    TypeError { stored: u8, expected: u8 },
    /// A value could not be turned into bytes or back.
    Serialization(String),
    /// A file position does not fit the address space.
    FileTooLarge(u64),
    /// The files of a box do not hold what they should.
    Corrupt(String),
}

/// The result of every fallible operation of the store.
pub type Result<T> = core::result::Result<T, GuiXuError>;

} // verus!
