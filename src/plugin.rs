//! The `galois_ram_v0` plugin: which memory operation a plugin call
//! performs, and over which field.
use vstd::prelude::*;
use vstd::string::StringSliceAdditionalSpecFns;

verus! {

/// Index of a type in the circuit's type list.
pub type TypeId = u8;

/// A number of wires.
pub type WireCount = u64;

/// The two operations of the memory plugin.
#[derive(Clone, Copy, PartialEq, Eq, Structural, Debug)]
pub enum RamOperation {
    Read,
    Write,
}

/// Why a plugin call could not be instantiated.
#[derive(Clone, Copy, PartialEq, Eq, Structural, Debug)]
pub enum PluginError {
    /// The operation is neither `read` nor `write`.
    UnsupportedOperation,
    /// The call has no inputs, so no field to work over.
    NoInputs,
}

/// An instantiated call of the memory plugin.
#[derive(Clone, Copy, PartialEq, Eq, Structural, Debug)]
pub struct RamV0 {
    field: TypeId,
    op: RamOperation,
}

/// The bytes of the operation name `read`.
pub open spec fn read_name() -> Seq<u8> {
    seq![0x72u8, 0x65u8, 0x61u8, 0x64u8]
}

/// The bytes of the operation name `write`.
pub open spec fn write_name() -> Seq<u8> {
    seq![0x77u8, 0x72u8, 0x69u8, 0x74u8, 0x65u8]
}

fn bytes_equal(a: &[u8], b: &[u8]) -> (r: bool)
    ensures
        r == (a@ == b@),
{
    if a.len() != b.len() {
        return false;
    }
    let mut i: usize = 0;
    while i < a.len()
        invariant
            a@.len() == b@.len(),
            i <= a@.len(),
            forall|j: int| 0 <= j < i ==> a@[j] == b@[j],
        decreases a@.len() - i,
    {
        if a[i] != b[i] {
            return false;
        }
        i = i + 1;
    }
    proof {
        assert(a@ == b@);
    }
    true
}

impl RamV0 {
    pub closed spec fn spec_field(self) -> TypeId {
        self.field
    }

    pub closed spec fn spec_operation(self) -> RamOperation {
        self.op
    }

    /// The field the memory works over.
    pub fn field(&self) -> (r: TypeId)
        ensures
            r == self.spec_field(),
    {
        self.field
    }

    pub fn operation(&self) -> (r: RamOperation)
        ensures
            r == self.spec_operation(),
    {
        self.op
    }

    /// Instantiates a call named `operation`, `read` or `write`, over the
    /// type of its last input. Any other name, or a call without inputs, is
    /// a malformed circuit and left out; a caller outside verified code
    /// that passes one gets `UnsupportedOperation` or `NoInputs`.
    pub fn instantiate(operation: &str, input_counts: &[(TypeId, WireCount)]) -> (r: Result<RamV0, PluginError>)
        requires
            operation.spec_bytes() == read_name() || operation.spec_bytes() == write_name(),
            input_counts@.len() > 0,
        ensures
            r matches Ok(c) && c.spec_field() == input_counts@.last().0 && (c.spec_operation()
                == RamOperation::Read <==> operation.spec_bytes() == read_name()) && (c.spec_operation()
                == RamOperation::Write <==> operation.spec_bytes() == write_name()),
    {
        let name = operation.as_bytes();
        let read: [u8; 4] = [0x72, 0x65, 0x61, 0x64];
        let write: [u8; 5] = [0x77, 0x72, 0x69, 0x74, 0x65];
        proof {
            assert(read@ == read_name());
            assert(write@ == write_name());
        }
        let op = if bytes_equal(name, read.as_slice()) {
            RamOperation::Read
        } else if bytes_equal(name, write.as_slice()) {
            RamOperation::Write
        } else {
            return Err(PluginError::UnsupportedOperation);
        };
        let mut field: Option<TypeId> = None;
        let mut i: usize = 0;
        while i < input_counts.len()
            invariant
                i <= input_counts@.len(),
                i == 0 ==> field is None,
                i > 0 ==> field == Some(input_counts@[i - 1].0),
            decreases input_counts@.len() - i,
        {
            field = Some(input_counts[i].0);
            i = i + 1;
        }
        match field {
            Some(f) => Ok(RamV0 { field: f, op }),
            None => Err(PluginError::NoInputs),
        }
    }
}

} // verus!
