//! Reading records that another program wrote as raw structures: the
//! kind of a record, and the text of a message.

use crate::text::{first_byte_at, utf8_text};
use vstd::prelude::*;
use vstd::slice::slice_subrange;
use vstd::string::StringExecFns;
use vstd::utf8::{decode_utf8, valid_utf8};

verus! {

/// What a record holds.
#[derive(Debug, Clone, Copy, PartialEq, Eq, Structural)]
pub enum Kind {
    Value,
    MValue,
    Message,
}

/// The kind that a type tag stands for. The tags are 1, 2 and 3.
pub fn kind_of(data_type: i32) -> (k: Kind)
    requires
        1 <= data_type <= 3,
    ensures
        k == if data_type == 1 {
            Kind::Value
        } else if data_type == 2 {
            Kind::MValue
        } else {
            Kind::Message
        },
{
    if data_type == 1 {
        Kind::Value
    } else if data_type == 2 {
        Kind::MValue
    } else {
        Kind::Message
    }
}

/// The position of the first zero byte, if there is one.
pub fn first_nul(raw: &[u8]) -> (r: Option<usize>)
    ensures
        match r {
            Some(i) => i < raw@.len() && i == first_byte_at(raw@, 0),
            None => first_byte_at(raw@, 0) == raw@.len(),
        },
{
    let n = raw.len();
    let mut i: usize = 0;
    while i < n
        invariant
            i <= n,
            n == raw@.len(),
            forall|j: int| 0 <= j < i ==> raw@[j] != 0,
        decreases n - i,
    {
        if raw[i] == 0 {
            proof {
                crate::text::lemma_first_byte_at(raw@, 0, i as int);
            }
            return Some(i);
        }
        i += 1;
    }
    proof {
        crate::text::lemma_first_byte_at(raw@, 0, n as int);
    }
    None
}

/// The text of a message: the bytes before the first zero byte, read as
/// UTF-8. There must be a zero byte, and the bytes before it must be
/// valid UTF-8.
pub fn message_text(raw: &[u8]) -> (r: String)
    requires
        first_byte_at(raw@, 0) < raw@.len(),
        valid_utf8(raw@.take(first_byte_at(raw@, 0))),
    ensures
        r@ == decode_utf8(raw@.take(first_byte_at(raw@, 0))),
{
    let end = match first_nul(raw) {
        Some(i) => i,
        None => 0,
    };
    let bytes = slice_subrange(raw, 0, end);
    assert(bytes@ =~= raw@.take(end as int));
    match utf8_text(bytes) {
        Some(s) => String::from_str(s),
        None => String::new(),
    }
}

} // verus!
