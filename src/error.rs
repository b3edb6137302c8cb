//! Definite errors: a stable numeric code and a human-readable reason.

use vstd::prelude::*;

verus! {

pub const NODE_NOT_FOUND: i32 = 1;
pub const NOT_SUPPORTED: i32 = 10;
pub const TEMPORARILY_UNAVAILABLE: i32 = 11;
pub const MALFORMED_REQUEST: i32 = 12;
pub const ABORT: i32 = 14;
pub const KEY_DOES_NOT_EXIST: i32 = 20;
pub const KEY_ALREADY_EXISTS: i32 = 21;
pub const PRECONDITION_FAILED: i32 = 22;
pub const TXN_CONFLICT: i32 = 30;

/// An error that is final for the client: nothing lasting was done.
#[derive(Debug)]
pub struct DefiniteError {
    pub code: i32,
    pub text: String,
}

/// A definite error addressed to the request it answers.
#[derive(Debug)]
pub struct MaelstromError {
    pub in_reply_to: i32,
    pub error: DefiniteError,
}

/// Builds the error with the given code and reason.
pub fn definite_error(code: i32, text: String) -> (r: DefiniteError)
    ensures
        r.code == code,
        r.text@ == text@,
{
    DefiniteError { code, text }
}

pub fn node_not_found(text: String) -> (r: DefiniteError)
    ensures
        r.code == NODE_NOT_FOUND,
        r.text@ == text@,
{
    definite_error(NODE_NOT_FOUND, text)
}

pub fn not_supported(text: String) -> (r: DefiniteError)
    ensures
        r.code == NOT_SUPPORTED,
        r.text@ == text@,
{
    definite_error(NOT_SUPPORTED, text)
}

pub fn temporarily_unavailable(text: String) -> (r: DefiniteError)
    ensures
        r.code == TEMPORARILY_UNAVAILABLE,
        r.text@ == text@,
{
    definite_error(TEMPORARILY_UNAVAILABLE, text)
}

pub fn malformed_request(text: String) -> (r: DefiniteError)
    ensures
        r.code == MALFORMED_REQUEST,
        r.text@ == text@,
{
    definite_error(MALFORMED_REQUEST, text)
}

pub fn abort(text: String) -> (r: DefiniteError)
    ensures
        r.code == ABORT,
        r.text@ == text@,
{
    definite_error(ABORT, text)
}

pub fn key_does_not_exist(text: String) -> (r: DefiniteError)
    ensures
        r.code == KEY_DOES_NOT_EXIST,
        r.text@ == text@,
{
    definite_error(KEY_DOES_NOT_EXIST, text)
}

pub fn key_already_exists(text: String) -> (r: DefiniteError)
    ensures
        r.code == KEY_ALREADY_EXISTS,
        r.text@ == text@,
{
    definite_error(KEY_ALREADY_EXISTS, text)
}

pub fn precondition_failed(text: String) -> (r: DefiniteError)
    ensures
        r.code == PRECONDITION_FAILED,
        r.text@ == text@,
{
    definite_error(PRECONDITION_FAILED, text)
}

pub fn txn_conflict(text: String) -> (r: DefiniteError)
    ensures
        r.code == TXN_CONFLICT,
        r.text@ == text@,
{
    definite_error(TXN_CONFLICT, text)
}

} // verus!
