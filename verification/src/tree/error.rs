//! Tree operation error types.

use vstd::prelude::*;

use crate::text::{decimal, owned, push_str, u64_text};

verus! {

/// Errors that can occur during tree operations on `Value`.
#[derive(Debug, PartialEq, Eq)]
pub enum TreeError {
    /// The path does not exist in the tree.
    PathNotFound,
    /// A path segment type does not match the node type:
    /// (operation, expected type, actual type).
    WrongType(String, String, String),
    /// A key already exists in an object (used by `insert`).
    KeyAlreadyExists(String),
    /// An index is out of bounds for an array.
    IndexOutOfBounds(usize),
    /// The operation targets the root node (empty path), which is not allowed.
    RootOperation(String),
    /// The source and destination paths are the same (used by `move_value`).
    SourceEqualsTarget,
}

/// The mathematical view of a tree error: strings are taken by their characters.
pub enum TreeErr {
    PathNotFound,
    WrongType(Seq<char>, Seq<char>, Seq<char>),
    KeyAlreadyExists(Seq<char>),
    IndexOutOfBounds(usize),
    RootOperation(Seq<char>),
    SourceEqualsTarget,
}

impl View for TreeError {
    type V = TreeErr;

    open spec fn view(&self) -> TreeErr {
        match self {
            TreeError::PathNotFound => TreeErr::PathNotFound,
            TreeError::WrongType(a, b, c) => TreeErr::WrongType(a@, b@, c@),
            TreeError::KeyAlreadyExists(k) => TreeErr::KeyAlreadyExists(k@),
            TreeError::IndexOutOfBounds(i) => TreeErr::IndexOutOfBounds(*i),
            TreeError::RootOperation(op) => TreeErr::RootOperation(op@),
            TreeError::SourceEqualsTarget => TreeErr::SourceEqualsTarget,
        }
    }
}


/// The human-readable message for an error.
pub open spec fn message_of(e: TreeErr) -> Seq<char> {
    match e {
        TreeErr::PathNotFound => "path not found"@,
        TreeErr::WrongType(op, expected, actual) => "cannot "@ + op + ": expected "@ + expected
            + ", got "@ + actual,
        TreeErr::KeyAlreadyExists(k) => "key already exists: `"@ + k + "`"@,
        TreeErr::IndexOutOfBounds(i) => "index out of bounds: "@ + decimal(i as nat),
        TreeErr::RootOperation(op) => "cannot "@ + op + " on root value"@,
        TreeErr::SourceEqualsTarget => "source and destination paths are the same"@,
    }
}

impl Clone for TreeError {
    fn clone(&self) -> (r: Self)
        ensures
            r@ == self@,
    {
        match self {
            TreeError::PathNotFound => TreeError::PathNotFound,
            TreeError::WrongType(a, b, c) => TreeError::WrongType(a.clone(), b.clone(), c.clone()),
            TreeError::KeyAlreadyExists(k) => TreeError::KeyAlreadyExists(k.clone()),
            TreeError::IndexOutOfBounds(i) => TreeError::IndexOutOfBounds(*i),
            TreeError::RootOperation(op) => TreeError::RootOperation(op.clone()),
            TreeError::SourceEqualsTarget => TreeError::SourceEqualsTarget,
        }
    }
}

impl TreeError {
    /// The human-readable message for this error (what `Display` shows).
    pub fn message(&self) -> (r: String)
        ensures
            r@ == message_of(self@),
    {
        match self {
            TreeError::PathNotFound => owned("path not found"),
            TreeError::WrongType(op, expected, actual) => {
                let mut s = owned("cannot ");
                push_str(&mut s, op.as_str());
                push_str(&mut s, ": expected ");
                push_str(&mut s, expected.as_str());
                push_str(&mut s, ", got ");
                push_str(&mut s, actual.as_str());
                s
            },
            TreeError::KeyAlreadyExists(k) => {
                let mut s = owned("key already exists: `");
                push_str(&mut s, k.as_str());
                push_str(&mut s, "`");
                s
            },
            TreeError::IndexOutOfBounds(i) => {
                let mut s = owned("index out of bounds: ");
                let n = u64_text(*i as u64);
                push_str(&mut s, n.as_str());
                s
            },
            TreeError::RootOperation(op) => {
                let mut s = owned("cannot ");
                push_str(&mut s, op.as_str());
                push_str(&mut s, " on root value");
                s
            },
            TreeError::SourceEqualsTarget => owned("source and destination paths are the same"),
        }
    }
}

} // verus!
