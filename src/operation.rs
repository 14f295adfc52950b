//! Workload records and their decoding into typed operations.
use vstd::prelude::*;
use crate::codec::{
    fixed_field, hex_field, numeric_field, parse_address, parse_h256, parse_hex, parse_u256,
    DecodeError,
};

verus! {

/// One workload record as it stands on its line: the operation's name and
/// every field it may carry; a field the record leaves out is empty or zero.
#[derive(Debug, Clone)]
pub struct RawOperation {
    pub op: String,
    pub address: String,
    pub balance: String,
    pub nonce: u64,
    pub code: String,
    pub slot: String,
    pub value: String,
}

/// A decoded operation. Addresses hold 20 bytes; slots, balances and values
/// hold 32 bytes, big-endian.
#[derive(Debug, Clone)]
pub enum Operation {
    CreateAccount { address: Vec<u8>, balance: Vec<u8>, nonce: u64 },
    SetCode { address: Vec<u8>, code: Vec<u8> },
    SetStorage { address: Vec<u8>, slot: Vec<u8>, value: Vec<u8> },
    Finalize,
}

/// What an operation says, over byte sequences.
pub enum OpModel {
    CreateAccount { address: Seq<u8>, balance: Seq<u8>, nonce: u64 },
    SetCode { address: Seq<u8>, code: Seq<u8> },
    SetStorage { address: Seq<u8>, slot: Seq<u8>, value: Seq<u8> },
    Finalize,
}

impl View for Operation {
    type V = OpModel;

    open spec fn view(&self) -> OpModel {
        match self {
            Operation::CreateAccount { address, balance, nonce } => OpModel::CreateAccount {
                address: address@,
                balance: balance@,
                nonce: *nonce,
            },
            Operation::SetCode { address, code } => OpModel::SetCode {
                address: address@,
                code: code@,
            },
            Operation::SetStorage { address, slot, value } => OpModel::SetStorage {
                address: address@,
                slot: slot@,
                value: value@,
            },
            Operation::Finalize => OpModel::Finalize,
        }
    }
}

impl Operation {
    /// Whether this is the finalize operation.
    pub fn is_finalize(&self) -> (r: bool)
        ensures
            r == (self@ is Finalize),
    {
        match self {
            Operation::Finalize => true,
            _ => false,
        }
    }
}

impl OpModel {
    /// Every field has the width its kind asks for.
    pub open spec fn well_formed(self) -> bool {
        match self {
            OpModel::CreateAccount { address, balance, .. } => address.len() == 20
                && balance.len() == 32,
            OpModel::SetCode { address, .. } => address.len() == 20,
            OpModel::SetStorage { address, slot, value } => address.len() == 20 && slot.len()
                == 32 && value.len() == 32,
            OpModel::Finalize => true,
        }
    }
}

/// The operation a record decodes to. Fields are checked in the order in
/// which they stand in the record; the first bad one gives the error.
pub open spec fn decode_spec(r: RawOperation) -> Result<OpModel, DecodeError> {
    if r.op@ == "create_account"@ {
        match (fixed_field(r.address@, 20), numeric_field(r.balance@)) {
            (Err(e), _) => Err(e),
            (Ok(_), Err(e)) => Err(e),
            (Ok(a), Ok(b)) => Ok(OpModel::CreateAccount { address: a, balance: b, nonce: r.nonce }),
        }
    } else if r.op@ == "set_code"@ {
        match (fixed_field(r.address@, 20), hex_field(r.code@)) {
            (Err(e), _) => Err(e),
            (Ok(_), None) => Err(DecodeError::InvalidHex),
            (Ok(a), Some(c)) => Ok(OpModel::SetCode { address: a, code: c }),
        }
    } else if r.op@ == "set_storage"@ {
        match (fixed_field(r.address@, 20), fixed_field(r.slot@, 32), numeric_field(r.value@)) {
            (Err(e), _, _) => Err(e),
            (Ok(_), Err(e), _) => Err(e),
            (Ok(_), Ok(_), Err(e)) => Err(e),
            (Ok(a), Ok(k), Ok(v)) => Ok(OpModel::SetStorage { address: a, slot: k, value: v }),
        }
    } else if r.op@ == "compute_root"@ {
        Ok(OpModel::Finalize)
    } else {
        Err(DecodeError::UnknownOperation)
    }
}

/// The model of a decoding result.
pub open spec fn view_op(r: Result<Operation, DecodeError>) -> Result<OpModel, DecodeError> {
    match r {
        Ok(op) => Ok(op@),
        Err(e) => Err(e),
    }
}

/// Whether two strings hold the same characters.
pub fn same_text(a: &str, b: &str) -> (r: bool)
    ensures
        r == (a@ == b@),
{
    let n = a.unicode_len();
    if n != b.unicode_len() {
        return false;
    }
    let mut i: usize = 0;
    while i < n
        invariant
            n == a@.len(),
            n == b@.len(),
            i <= n,
            a@.subrange(0, i as int) == b@.subrange(0, i as int),
        decreases n - i,
    {
        if a.get_char(i) != b.get_char(i) {
            return false;
        }
        assert(a@.subrange(0, i + 1) =~= a@.subrange(0, i as int).push(a@[i as int]));
        assert(b@.subrange(0, i + 1) =~= b@.subrange(0, i as int).push(b@[i as int]));
        i = i + 1;
    }
    assert(a@ =~= a@.subrange(0, n as int));
    assert(b@ =~= b@.subrange(0, n as int));
    true
}

/// Decodes one record into an operation.
pub fn decode_operation(r: &RawOperation) -> (res: Result<Operation, DecodeError>)
    ensures
        view_op(res) == decode_spec(*r),
        res matches Ok(op) ==> op@.well_formed(),
{
    if same_text(r.op.as_str(), "create_account") {
        let address = match parse_address(r.address.as_str()) {
            Ok(a) => a,
            Err(e) => return Err(e),
        };
        let balance = match parse_u256(r.balance.as_str()) {
            Ok(b) => b,
            Err(e) => return Err(e),
        };
        Ok(Operation::CreateAccount { address, balance, nonce: r.nonce })
    } else if same_text(r.op.as_str(), "set_code") {
        let address = match parse_address(r.address.as_str()) {
            Ok(a) => a,
            Err(e) => return Err(e),
        };
        let code = match parse_hex(r.code.as_str()) {
            Ok(c) => c,
            Err(e) => return Err(e),
        };
        Ok(Operation::SetCode { address, code })
    } else if same_text(r.op.as_str(), "set_storage") {
        let address = match parse_address(r.address.as_str()) {
            Ok(a) => a,
            Err(e) => return Err(e),
        };
        let slot = match parse_h256(r.slot.as_str()) {
            Ok(k) => k,
            Err(e) => return Err(e),
        };
        let value = match parse_u256(r.value.as_str()) {
            Ok(v) => v,
            Err(e) => return Err(e),
        };
        Ok(Operation::SetStorage { address, slot, value })
    } else if same_text(r.op.as_str(), "compute_root") {
        Ok(Operation::Finalize)
    } else {
        Err(DecodeError::UnknownOperation)
    }
}

/// Decoding depends on the record's contents alone: two records with the same
/// fields decode to the same operation, or fail with the same error.
pub proof fn lemma_decode_deterministic(a: RawOperation, b: RawOperation)
    requires
        a.op@ == b.op@,
        a.address@ == b.address@,
        a.balance@ == b.balance@,
        a.nonce == b.nonce,
        a.code@ == b.code@,
        a.slot@ == b.slot@,
        a.value@ == b.value@,
    ensures
        decode_spec(a) == decode_spec(b),
{
}

} // verus!
