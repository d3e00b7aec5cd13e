//! Errors of snapshot operations and the checks that most operations make
//! before they touch a snapshot.
use vstd::prelude::*;
use crate::text::{chars_of, push_all, string_of};

verus! {

/// The kind of an error, as the operating system's error kinds classify it.
#[derive(PartialEq, Eq, Structural, Debug, Clone, Copy)]
pub enum ErrorKind {
    NotFound,
    Unsupported,
    AlreadyExists,
    Interrupted,
    Other,
}

/// An error of a snapshot operation: its kind and the message shown.
#[derive(Debug)]
pub struct AshError {
    pub kind: ErrorKind,
    pub message: String,
}

/// `Cannot <verb> as snapshot <s> doesn't exist.`
pub open spec fn missing_msg(verb: Seq<char>, s: Seq<char>) -> Seq<char> {
    "Cannot "@ + verb + " as snapshot "@ + s + " doesn't exist."@
}

/// The message for a snapshot that another ash process holds.
pub open spec fn in_use_msg(s: Seq<char>) -> Seq<char> {
    "Snapshot "@ + s + " appears to be in use. If you're certain it's not in use, clear lock with 'ash unlock "@
        + s + "'."@
}

/// The message for an attempt to change the base snapshot.
pub open spec fn base_msg() -> Seq<char> {
    "Changing base snapshot is not allowed."@
}

/// `a`, then `s`, then `b`.
pub fn around(a: &str, s: &str, b: &str) -> (r: String)
    ensures
        r@ == a@ + s@ + b@,
{
    let mut v = chars_of(a);
    let m = chars_of(s);
    push_all(&mut v, m.as_slice());
    let e = chars_of(b);
    push_all(&mut v, e.as_slice());
    string_of(v.as_slice())
}

/// An error of the given kind and message.
pub fn error_of(kind: ErrorKind, message: &str) -> (e: AshError)
    ensures
        e.kind == kind,
        e.message@ == message@,
{
    let v = chars_of(message);
    AshError { kind, message: string_of(v.as_slice()) }
}

/// The error for a snapshot that does not exist: `verb` names the operation.
pub fn missing(verb: &str, snapshot: &str) -> (e: AshError)
    ensures
        e.kind == ErrorKind::NotFound,
        e.message@ == missing_msg(verb@, snapshot@),
{
    let mut v = chars_of("Cannot ");
    let w = chars_of(verb);
    push_all(&mut v, w.as_slice());
    let m = around(" as snapshot ", snapshot, " doesn't exist.");
    let mc = chars_of(m.as_str());
    push_all(&mut v, mc.as_slice());
    assert(v@ =~= missing_msg(verb@, snapshot@));
    AshError { kind: ErrorKind::NotFound, message: string_of(v.as_slice()) }
}

/// The error for a snapshot that another ash process holds.
pub fn in_use(snapshot: &str) -> (e: AshError)
    ensures
        e.kind == ErrorKind::Unsupported,
        e.message@ == in_use_msg(snapshot@),
{
    let first = around(
        "Snapshot ",
        snapshot,
        " appears to be in use. If you're certain it's not in use, clear lock with 'ash unlock ",
    );
    let mut v = chars_of(first.as_str());
    let rest = around("", snapshot, "'.");
    let rc = chars_of(rest.as_str());
    push_all(&mut v, rc.as_slice());
    proof { reveal_strlit(""); }
    assert(v@ =~= in_use_msg(snapshot@));
    AshError { kind: ErrorKind::Unsupported, message: string_of(v.as_slice()) }
}

/// Whether `s` names the base snapshot `0`.
pub fn is_base(s: &str) -> (b: bool)
    ensures
        b == (s@ == "0"@),
{
    let v = chars_of(s);
    let z = chars_of("0");
    crate::config::vec_eq(&v, &z)
}

/// The error that the checks made before changing a snapshot give, if any:
/// it must exist, no other ash process may hold it, and it must not be the
/// base snapshot, checked in this order.
pub open spec fn guard_error(verb: Seq<char>, s: Seq<char>, exists: bool, held: bool) -> Option<(ErrorKind, Seq<char>)> {
    if !exists {
        Some((ErrorKind::NotFound, missing_msg(verb, s)))
    } else if held {
        Some((ErrorKind::Unsupported, in_use_msg(s)))
    } else if s == "0"@ {
        Some((ErrorKind::Unsupported, base_msg()))
    } else {
        None
    }
}

/// `r` fails with exactly the error `e`, or succeeds when `e` is `None`.
pub open spec fn fails_with<T>(r: Result<T, AshError>, e: Option<(ErrorKind, Seq<char>)>) -> bool {
    match e {
        None => r is Ok,
        Some(k) => match r {
            Err(x) => x.kind == k.0 && x.message@ == k.1,
            Ok(_) => false,
        },
    }
}

/// The checks made before a snapshot is changed; `verb` names the operation
/// in the message for a missing snapshot.
pub fn change_guard(verb: &str, snapshot: &str, exists: bool, held: bool) -> (r: Result<(), AshError>)
    ensures
        fails_with(r, guard_error(verb@, snapshot@, exists, held)),
{
    if !exists {
        Err(missing(verb, snapshot))
    } else if held {
        Err(in_use(snapshot))
    } else if is_base(snapshot) {
        Err(error_of(ErrorKind::Unsupported, "Changing base snapshot is not allowed."))
    } else {
        Ok(())
    }
}

} // verus!
