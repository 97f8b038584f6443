//! Records and their validation.
//!
//! A record is an opaque payload that must already be base64 text: the store
//! keeps it as the bytes of one log line. Validation is delegated to the
//! base64 decoder of the `base64` crate; everything the store itself needs to
//! know about an accepted payload — it is ASCII and free of the line
//! delimiter — follows from which bytes the decoder accepts.

use vstd::prelude::*;

use crate::framing::{all_ascii, nl_free, NL};
use crate::CoreError;

verus! {

/// Which byte sequences `base64::decode` accepts as standard base64.
/// Acceptance depends on the bytes alone; the store never interprets the
/// decoded octets, so only acceptance is named.
pub uninterp spec fn is_base64(s: Seq<u8>) -> bool;

/// The bytes that can occur in an accepted base64 input: the standard
/// alphabet (`A`-`Z`, `a`-`z`, `0`-`9`, `+`, `/`) and the `=` padding.
/// All are ASCII and none is the line delimiter.
pub open spec fn is_base64_byte(b: u8) -> bool {
    b == 43 || (47 <= b && b <= 57) || b == 61 || (65 <= b && b <= 90) || (97 <= b && b
        <= 122)
}

/// Relies on `base64::decode` with the standard character set: whether an
/// input is accepted is a function of its bytes alone, and every byte of an
/// accepted input is an alphabet or padding character, because the decoder
/// rejects any byte that its decode table marks invalid.
#[verifier::external_body]
pub(crate) fn base64_check(data: &[u8]) -> (r: bool)
    ensures
        r == is_base64(data@),
        r ==> forall|i: int| 0 <= i < data@.len() ==> is_base64_byte(data@[i]),
{
    base64::decode(data).is_ok()
}

/// The characters of an all-ASCII byte sequence, one per byte.
pub open spec fn ascii_chars(b: Seq<u8>) -> Seq<char> {
    Seq::new(b.len(), |i: int| b[i] as char)
}

/// Relies on `String::from_utf8`: ASCII bytes are valid UTF-8, and decode to
/// one character per byte with the same code.
#[verifier::external_body]
pub(crate) fn ascii_to_string(bytes: Vec<u8>) -> (r: String)
    requires
        all_ascii(bytes@),
    ensures
        r@ == ascii_chars(bytes@),
{
    String::from_utf8(bytes).unwrap()
}

/// An opaque record payload: the base64 text a client handed in, kept as
/// the bytes that the log stores on one line.
#[derive(Debug, Clone, PartialEq)]
pub struct Record(pub Vec<u8>);

impl View for Record {
    type V = Seq<u8>;

    open spec fn view(&self) -> Seq<u8> {
        self.0@
    }
}

impl DeepView for Record {
    type V = Seq<u8>;

    open spec fn deep_view(&self) -> Seq<u8> {
        self.0@
    }
}

impl Record {
    /// A record over a copy of the given payload bytes.
    pub fn from(base64_data: &[u8]) -> (r: Record)
        ensures
            r@ == base64_data@,
    {
        let mut res: Vec<u8> = Vec::new();
        let mut i: usize = 0;
        while i < base64_data.len()
            invariant
                i <= base64_data.len(),
                res@ == base64_data@.take(i as int),
            decreases base64_data.len() - i,
        {
            res.push(base64_data[i]);
            i = i + 1;
            assert(res@ =~= base64_data@.take(i as int));
        }
        assert(res@ =~= base64_data@);
        Record(res)
    }

    /// The record's on-disk form: its payload followed by the delimiter.
    pub fn serialized(self) -> (r: Vec<u8>)
        ensures
            r@ == self@ + seq![NL],
    {
        let mut res = self.0;
        res.push(NL);
        assert(res@ =~= self@ + seq![NL]);
        res
    }

    /// The payload as text. The store only ever builds records from ASCII
    /// bytes, which is what the precondition asks of the caller.
    pub fn as_string(&self) -> (r: String)
        requires
            all_ascii(self@),
        ensures
            r@ == ascii_chars(self@),
    {
        let bytes = self.0.clone();
        assert(bytes@ =~= self.0@);
        ascii_to_string(bytes)
    }

    /// A record from base64 text, or `InvalidRecord` if the text does not
    /// parse as base64.
    pub fn from_string(s: String) -> (r: Result<Record, CoreError>)
        ensures
            r is Ok <==> is_base64(vstd::utf8::encode_utf8(s@)),
            r matches Ok(rec) ==> rec@ == vstd::utf8::encode_utf8(s@),
            r is Err ==> r == Err::<Record, CoreError>(CoreError::InvalidRecord),
    {
        let bytes = s.as_str().as_bytes_vec();
        if base64_check(bytes.as_slice()) {
            Ok(Record(bytes))
        } else {
            Err(CoreError::InvalidRecord)
        }
    }
}

/// Validates a payload before acceptance: it must be UTF-8 text that parses
/// as base64. One check by the base64 decoder decides both, since every
/// byte it accepts is ASCII.
pub fn assert_recordable(data: &[u8]) -> (r: Result<(), CoreError>)
    ensures
        r is Ok <==> is_base64(data@),
        r is Ok ==> all_ascii(data@) && nl_free(data@),
        r is Err ==> r == Err::<(), CoreError>(CoreError::InvalidRecord),
{
    if base64_check(data) {
        assert(all_ascii(data@));
        assert(nl_free(data@));
        Ok(())
    } else {
        Err(CoreError::InvalidRecord)
    }
}

} // verus!
