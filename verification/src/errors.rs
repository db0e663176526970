use vstd::prelude::*;

verus! {

/// The ways in which handing out a channel or one of its handles can fail.
#[derive(Debug, Clone, Copy, PartialEq, Eq, Structural)]
pub enum BondiError {
    /// A construction argument is malformed: the capacity is zero.
    InvalidInput,
    /// The channel has already handed out its one writer.
    WriterAlreadyExists,
    /// Every reader slot is taken, or no reader is registered at all.
    NoReaderAvailable,
}

impl BondiError {
    /// The text of the message that belongs to each error.
    pub open spec fn message_text(self) -> Seq<char> {
        match self {
            BondiError::InvalidInput => "Invalid Input"@,
            BondiError::WriterAlreadyExists => "Writer already exists"@,
            BondiError::NoReaderAvailable => "No reader available"@,
        }
    }

    /// The human-readable message of this error.
    pub fn message(&self) -> (text: String)
        ensures
            text@ == self.message_text(),
    {
        match self {
            BondiError::InvalidInput => "Invalid Input".to_owned(),
            BondiError::WriterAlreadyExists => "Writer already exists".to_owned(),
            BondiError::NoReaderAvailable => "No reader available".to_owned(),
        }
    }
}

} // verus!
