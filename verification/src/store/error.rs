//! What can go wrong with a store's state.
use crate::entry::EntryError;
use crate::head::{StoredError, StoredFault};
use crate::message::DecodeError;
use crate::store::log::LogError;
use crate::store::sigchain::{ChainFault, SigChainError};
use crate::text;
use crate::text::decimal;
use vstd::prelude::*;
use vstd::string::*;

verus! {

/// What can go wrong with a store's state.
#[derive(Debug, PartialEq, Eq)]
pub enum StateError {
    /// The log that is replayed is faulty.
    Log(LogError),
    /// What is stored for a key is not a list of heads.
    Decode(DecodeError),
    /// An entry is not acceptable.
    Entry(EntryError),
    /// An entry cannot be chained.
    SigChain(SigChainError),
    /// The entry does not follow the author's last one.
    NotSuccessor { entry_seq: u64, prev_hash: String, tip_hash: String },
    /// One of the stored heads is malformed.
    Conversion(String),
    /// The storage failed.
    Backend(String),
    /// The entry's author may not write.
    Unauthorized(String),
    /// Something outside failed.
    Io(String),
}

/// The model of [`StateError`].
pub enum StateFault {
    Log(LogError),
    Decode(DecodeError),
    Entry(EntryError),
    SigChain(ChainFault),
    NotSuccessor(u64, Seq<char>, Seq<char>),
    Conversion(Seq<char>),
    Backend(Seq<char>),
    Unauthorized(Seq<char>),
    Io(Seq<char>),
}

impl View for StateError {
    type V = StateFault;

    open spec fn view(&self) -> StateFault {
        match self {
            StateError::Log(e) => StateFault::Log(*e),
            StateError::Decode(e) => StateFault::Decode(*e),
            StateError::Entry(e) => StateFault::Entry(*e),
            StateError::SigChain(e) => StateFault::SigChain(e@),
            StateError::NotSuccessor { entry_seq, prev_hash, tip_hash } => StateFault::NotSuccessor(
                *entry_seq,
                prev_hash@,
                tip_hash@,
            ),
            StateError::Conversion(t) => StateFault::Conversion(t@),
            StateError::Backend(t) => StateFault::Backend(t@),
            StateError::Unauthorized(t) => StateFault::Unauthorized(t@),
            StateError::Io(t) => StateFault::Io(t@),
        }
    }
}

impl StateFault {
    /// The text of the error.
    pub open spec fn text(self) -> Seq<char> {
        match self {
            StateFault::Log(e) => "Log error: "@ + e.text(),
            StateFault::Decode(e) => "Decode error: "@ + e.text(),
            StateFault::Entry(e) => "Entry error: "@ + e.text(),
            StateFault::SigChain(f) => "Sigchain error: "@ + f.text(),
            StateFault::NotSuccessor(seq, prev, tip) => "Entry not successor of tip (seq "@
                + text::decimal_text(seq as nat) + ", prev_hash "@ + prev + ", tip_hash "@ + tip
                + ")"@,
            StateFault::Conversion(t) => "Conversion error: "@ + t,
            StateFault::Backend(t) => "Backend error: "@ + t,
            StateFault::Unauthorized(t) => "Unauthorized: "@ + t,
            StateFault::Io(t) => "IO error: "@ + t,
        }
    }

    /// The error for heads that cannot be read.
    pub open spec fn of_stored(f: StoredFault) -> StateFault {
        match f {
            StoredFault::Decode(e) => StateFault::Decode(e),
            StoredFault::Conversion(t) => StateFault::Conversion(t),
        }
    }
}

impl StateError {
    /// The text of the error.
    pub fn to_string(&self) -> (r: String)
        ensures
            r@ == self@.text(),
    {
        match self {
            StateError::Log(e) => "Log error: ".to_owned().concat(e.to_string().as_str()),
            StateError::Decode(e) => "Decode error: ".to_owned().concat(e.to_string().as_str()),
            StateError::Entry(e) => "Entry error: ".to_owned().concat(e.to_string().as_str()),
            StateError::SigChain(e) => "Sigchain error: ".to_owned().concat(
                e.to_string().as_str(),
            ),
            StateError::NotSuccessor { entry_seq, prev_hash, tip_hash } =>
                "Entry not successor of tip (seq ".to_owned().concat(
                decimal(*entry_seq).as_str(),
            ).concat(", prev_hash ").concat(prev_hash.as_str()).concat(", tip_hash ").concat(
                tip_hash.as_str(),
            ).concat(")"),
            StateError::Conversion(t) => "Conversion error: ".to_owned().concat(t.as_str()),
            StateError::Backend(t) => "Backend error: ".to_owned().concat(t.as_str()),
            StateError::Unauthorized(t) => "Unauthorized: ".to_owned().concat(t.as_str()),
            StateError::Io(t) => "IO error: ".to_owned().concat(t.as_str()),
        }
    }

    /// The error for heads that cannot be read.
    pub fn of_stored(e: StoredError) -> (r: StateError)
        ensures
            r@ == StateFault::of_stored(e@),
    {
        match e {
            StoredError::Decode(e) => StateError::Decode(e),
            StoredError::Conversion(t) => StateError::Conversion(t),
        }
    }
}

/// Why an entry's parents do not check out.
#[derive(Clone, Debug, PartialEq, Eq)]
pub enum ParentValidationError {
    /// A parent is not there. `key` is the key that the entry is about.
    MissingParent { key: Vec<u8>, awaited_hash: Vec<u8> },
    /// A parent could not be decoded.
    Decode(String),
    /// The state could not be read, with the text of the error.
    State(String),
    /// The store could not be read, with the text of the error.
    Store(String),
}

/// The model of [`ParentValidationError`].
pub enum ParentFault {
    MissingParent(Seq<u8>, Seq<u8>),
    Decode(Seq<char>),
    State(Seq<char>),
    Store(Seq<char>),
}

impl View for ParentValidationError {
    type V = ParentFault;

    open spec fn view(&self) -> ParentFault {
        match self {
            ParentValidationError::MissingParent { key, awaited_hash } =>
                ParentFault::MissingParent(key@, awaited_hash@),
            ParentValidationError::Decode(t) => ParentFault::Decode(t@),
            ParentValidationError::State(t) => ParentFault::State(t@),
            ParentValidationError::Store(t) => ParentFault::Store(t@),
        }
    }
}

impl ParentFault {
    /// The text of the error.
    pub open spec fn text(self) -> Seq<char> {
        match self {
            ParentFault::MissingParent(_, _) => "Missing parent hash for key"@,
            ParentFault::Decode(t) => "Decode error: "@ + t,
            ParentFault::State(t) => "State error: "@ + t,
            ParentFault::Store(t) => "Store error: "@ + t,
        }
    }
}

impl ParentValidationError {
    /// The text of the error.
    pub fn to_string(&self) -> (r: String)
        ensures
            r@ == self@.text(),
    {
        match self {
            ParentValidationError::MissingParent { .. } => "Missing parent hash for key".to_owned(),
            ParentValidationError::Decode(t) => "Decode error: ".to_owned().concat(t.as_str()),
            ParentValidationError::State(t) => "State error: ".to_owned().concat(t.as_str()),
            ParentValidationError::Store(t) => "Store error: ".to_owned().concat(t.as_str()),
        }
    }
}

/// What can go wrong with a store that keeps its heads as messages.
#[derive(Debug, PartialEq, Eq)]
pub enum StoreError {
    /// The database cannot be opened.
    Database(String),
    /// A table cannot be opened.
    Table(String),
    /// A transaction cannot be begun.
    Transaction(String),
    /// A transaction cannot be committed.
    Commit(String),
    /// The storage failed.
    Storage(String),
    /// The log that is replayed is faulty.
    Log(LogError),
    /// What is stored, or an entry, is no message.
    Decode(DecodeError),
    /// An entry cannot be chained.
    SigChain(SigChainError),
    /// The entry does not follow the author's last one.
    NotSuccessor { entry_seq: u64, prev_hash: String, tip_hash: String },
}

/// The model of [`StoreError`].
pub enum StoreFault {
    Database(Seq<char>),
    Table(Seq<char>),
    Transaction(Seq<char>),
    Commit(Seq<char>),
    Storage(Seq<char>),
    Log(LogError),
    Decode(DecodeError),
    SigChain(ChainFault),
    NotSuccessor(u64, Seq<char>, Seq<char>),
}

impl View for StoreError {
    type V = StoreFault;

    open spec fn view(&self) -> StoreFault {
        match self {
            StoreError::Database(t) => StoreFault::Database(t@),
            StoreError::Table(t) => StoreFault::Table(t@),
            StoreError::Transaction(t) => StoreFault::Transaction(t@),
            StoreError::Commit(t) => StoreFault::Commit(t@),
            StoreError::Storage(t) => StoreFault::Storage(t@),
            StoreError::Log(e) => StoreFault::Log(*e),
            StoreError::Decode(e) => StoreFault::Decode(*e),
            StoreError::SigChain(e) => StoreFault::SigChain(e@),
            StoreError::NotSuccessor { entry_seq, prev_hash, tip_hash } => StoreFault::NotSuccessor(
                *entry_seq,
                prev_hash@,
                tip_hash@,
            ),
        }
    }
}

impl StoreFault {
    /// The text of the error.
    pub open spec fn text(self) -> Seq<char> {
        match self {
            StoreFault::Database(t) => "Database error: "@ + t,
            StoreFault::Table(t) => "Table error: "@ + t,
            StoreFault::Transaction(t) => "Transaction error: "@ + t,
            StoreFault::Commit(t) => "Commit error: "@ + t,
            StoreFault::Storage(t) => "Storage error: "@ + t,
            StoreFault::Log(e) => "Log error: "@ + e.text(),
            StoreFault::Decode(e) => "Decode error: "@ + e.text(),
            StoreFault::SigChain(f) => "Sigchain error: "@ + f.text(),
            StoreFault::NotSuccessor(seq, prev, tip) => "Entry not successor of tip (seq "@
                + text::decimal_text(seq as nat) + ", prev_hash "@ + prev + ", tip_hash "@ + tip
                + ")"@,
        }
    }
}

impl StoreError {
    /// The text of the error.
    pub fn to_string(&self) -> (r: String)
        ensures
            r@ == self@.text(),
    {
        match self {
            StoreError::Database(t) => "Database error: ".to_owned().concat(t.as_str()),
            StoreError::Table(t) => "Table error: ".to_owned().concat(t.as_str()),
            StoreError::Transaction(t) => "Transaction error: ".to_owned().concat(t.as_str()),
            StoreError::Commit(t) => "Commit error: ".to_owned().concat(t.as_str()),
            StoreError::Storage(t) => "Storage error: ".to_owned().concat(t.as_str()),
            StoreError::Log(e) => "Log error: ".to_owned().concat(e.to_string().as_str()),
            StoreError::Decode(e) => "Decode error: ".to_owned().concat(e.to_string().as_str()),
            StoreError::SigChain(e) => "Sigchain error: ".to_owned().concat(
                e.to_string().as_str(),
            ),
            StoreError::NotSuccessor { entry_seq, prev_hash, tip_hash } =>
                "Entry not successor of tip (seq ".to_owned().concat(
                decimal(*entry_seq).as_str(),
            ).concat(", prev_hash ").concat(prev_hash.as_str()).concat(", tip_hash ").concat(
                tip_hash.as_str(),
            ).concat(")"),
        }
    }
}

} // verus!
