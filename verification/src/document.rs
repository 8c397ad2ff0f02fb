//! A loaded settings file: its decoded tree and the load-time fidelity
//! verdict that gates every save.

use vstd::prelude::*;
use vstd::string::StringExecFns;

use crate::decode::{decode, spec_decode};
use crate::encode::{encode, spec_encode};
use crate::error::{decode_error_text, encode_error_text, EncodeError};
use crate::parse::{decimal, decimal_text};
use crate::value::Value;

verus! {

/// Whether the document may be saved. Decided once, at load: re-encoding
/// the decoded tree must reproduce the on-disk bytes exactly, otherwise a
/// save would write a file that differs from what the client wrote in ways
/// the user never asked for.
#[derive(Debug, Clone, PartialEq, Eq)]
pub enum Fidelity {
    Editable,
    ReadOnly { reason: String },
}

/// Why a file could not be loaded.
#[derive(Debug, Clone, PartialEq, Eq)]
pub enum LoadError {
    Io(String),
    /// The file is not a decodable stream; `offset` points at the failure.
    Decode { offset: usize, message: String },
}

/// Why re-encoding a decoded tree did not reproduce the bytes it came from.
pub open spec fn read_only_reason(encoded: Result<Seq<u8>, EncodeError>, on_disk: Seq<u8>) -> Seq<char> {
    match encoded {
        Ok(out) => "re-encode differs from on-disk bytes ("@ + decimal_text(out.len() as int) + " vs "@
            + decimal_text(on_disk.len() as int)
            + " bytes) — editing disabled to avoid unintended changes"@,
        Err(e) => "re-encode failed: "@ + encode_error_text(e.kind),
    }
}

/// What loading `bytes` gives: the decoded tree, editable exactly when it
/// re-encodes to the same bytes; or the decode failure.
pub open spec fn load_ok(bytes: Seq<u8>, r: Result<(Value, Fidelity), LoadError>) -> bool {
    match spec_decode(bytes) {
        Err(e) => r matches Err(LoadError::Decode { offset, message }) && offset == e.offset
            && message@ == decode_error_text(e.offset, e.kind),
        Ok(v) => r matches Ok((x, f)) && x@ == v && match f {
            Fidelity::Editable => spec_encode(v) == Ok::<Seq<u8>, EncodeError>(bytes),
            Fidelity::ReadOnly { reason } => spec_encode(v) != Ok::<Seq<u8>, EncodeError>(bytes)
                && reason@ == read_only_reason(spec_encode(v), bytes),
        },
    }
}

fn same_bytes(a: &Vec<u8>, b: &[u8]) -> (r: bool)
    ensures
        r == (a@ == b@),
{
    if a.len() != b.len() {
        return false;
    }
    let mut i: usize = 0;
    while i < a.len()
        invariant
            i <= a.len(),
            a.len() == b.len(),
            forall|j: int| 0 <= j < i ==> a@[j] == b@[j],
        decreases a.len() - i,
    {
        if a[i] != b[i] {
            assert(a@[i as int] != b@[i as int]);
            return false;
        }
        i = i + 1;
    }
    assert(a@ =~= b@);
    true
}

/// Decode a file's bytes and decide, once, whether it may be saved.
pub fn load_bytes(bytes: &[u8]) -> (r: Result<(Value, Fidelity), LoadError>)
    ensures
        load_ok(bytes@, r),
{
    let value = match decode(bytes) {
        Ok(v) => v,
        Err(e) => {
            return Err(LoadError::Decode { offset: e.offset, message: e.message() });
        },
    };
    let fidelity = match encode(&value) {
        Ok(out) => {
            if same_bytes(&out, bytes) {
                Fidelity::Editable
            } else {
                let mut reason = String::from_str("re-encode differs from on-disk bytes (");
                reason.append(decimal(out.len() as i128).as_str());
                reason.append(" vs ");
                reason.append(decimal(bytes.len() as i128).as_str());
                reason.append(" bytes) — editing disabled to avoid unintended changes");
                Fidelity::ReadOnly { reason }
            }
        },
        Err(e) => {
            let mut reason = String::from_str("re-encode failed: ");
            reason.append(e.message().as_str());
            Fidelity::ReadOnly { reason }
        },
    };
    Ok((value, fidelity))
}

} // verus!
