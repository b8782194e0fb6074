//! Interpreter values.

use vstd::prelude::*;
use std::sync::Arc;
use vstd::utf8::encode_utf8;

verus! {

broadcast use vstd::string::group_string_axioms;

/// Largest length of a string value, in bytes.
pub const MAX_STRING_LEN: usize = 4294967295;

/// A compiled unit whose procedures subroutines refer to.
#[derive(Clone, Copy, Debug, PartialEq, Eq, Structural)]
pub struct Unit {
    /// Number of procedures in the unit.
    pub procedure_count: usize,
}

/// Interpreter value.
#[derive(Clone)]
pub struct Value {
    inner: Inner,
}

#[derive(Clone)]
enum Inner {
    Undef,
    Boolean(bool),
    String(Vec<u8>),
    /// An error, held as the bytes of its message.
    Error(Vec<u8>),
    Subroutine { environment: Arc<Vec<Value>>, unit: Unit, procedure: usize },
}

/// Mathematical model of a value.
pub enum ValueModel {
    Undef,
    Boolean(bool),
    String(Seq<u8>),
    Error(Seq<u8>),
    Subroutine { environment_len: nat, procedure_count: nat, procedure: nat },
}

impl View for Value {
    type V = ValueModel;

    closed spec fn view(&self) -> ValueModel {
        match self.inner {
            Inner::Undef => ValueModel::Undef,
            Inner::Boolean(b) => ValueModel::Boolean(b),
            Inner::String(s) => ValueModel::String(s@),
            Inner::Error(m) => ValueModel::Error(m@),
            Inner::Subroutine { environment, unit, procedure } => ValueModel::Subroutine {
                environment_len: (*environment)@.len(),
                procedure_count: unit.procedure_count as nat,
                procedure: procedure as nat,
            },
        }
    }
}

/// Error returned by [`Value::string_from_bytes`].
#[derive(Clone, Copy, Debug, PartialEq, Eq, Structural)]
pub struct StringFromBytesError;

impl StringFromBytesError {
    /// Human-readable description of the error.
    pub fn message(&self) -> (r: &'static str)
        ensures
            r@ == "String value would be too large"@,
    {
        "String value would be too large"
    }
}

/// Error returned by [`Value::to_string`].
#[derive(Clone, Copy, Debug, PartialEq, Eq, Structural)]
pub enum ToStringError {
    Undef,
    Subroutine,
}

impl ToStringError {
    /// Human-readable description of the error.
    pub fn message(&self) -> (r: &'static str)
        ensures
            r@ == match self {
                ToStringError::Undef => "Use of undef in string context"@,
                ToStringError::Subroutine => "Use of subroutine in string context"@,
            },
    {
        match self {
            ToStringError::Undef => "Use of undef in string context",
            ToStringError::Subroutine => "Use of subroutine in string context",
        }
    }
}

/// The bytes of `true`.
pub open spec fn true_bytes() -> Seq<u8> {
    seq![116u8, 114u8, 117u8, 101u8]
}

/// The bytes of `false`.
pub open spec fn false_bytes() -> Seq<u8> {
    seq![102u8, 97u8, 108u8, 115u8, 101u8]
}

/// What converting a value to a string yields.
pub open spec fn model_to_string(v: ValueModel) -> Result<Seq<u8>, ToStringError> {
    match v {
        ValueModel::Undef => Err(ToStringError::Undef),
        ValueModel::Boolean(b) => Ok(
            if b {
                true_bytes()
            } else {
                false_bytes()
            },
        ),
        ValueModel::String(s) => Ok(s),
        ValueModel::Error(m) => Ok(m),
        ValueModel::Subroutine { .. } => Err(ToStringError::Subroutine),
    }
}

impl Value {
    /// Create the undef value.
    pub fn undef() -> (r: Self)
        ensures
            r@ == ValueModel::Undef,
    {
        Value { inner: Inner::Undef }
    }

    /// Create a Boolean value.
    pub fn boolean_from_bool(value: bool) -> (r: Self)
        ensures
            r@ == ValueModel::Boolean(value),
    {
        Value { inner: Inner::Boolean(value) }
    }

    /// Create a string value from the bytes that make it up.
    ///
    /// Fails when there are more bytes than a string value can hold.
    pub fn string_from_bytes(bytes: Vec<u8>) -> (r: Result<Self, StringFromBytesError>)
        ensures
            bytes@.len() > MAX_STRING_LEN <==> r is Err,
            r matches Ok(v) ==> v@ == ValueModel::String(bytes@),
    {
        if bytes.len() > MAX_STRING_LEN {
            return Err(StringFromBytesError);
        }
        Ok(Value { inner: Inner::String(bytes) })
    }

    /// Create an error value from the message of an error.
    pub fn error_from_error(message: &str) -> (r: Self)
        ensures
            r@ == ValueModel::Error(encode_utf8(message@)),
    {
        let bytes = message.as_bytes();
        let mut copy: Vec<u8> = Vec::new();
        let mut i: usize = 0;
        while i < bytes.len()
            invariant
                bytes@ == encode_utf8(message@),
                i <= bytes@.len(),
                copy@ == bytes@.subrange(0, i as int),
            decreases bytes@.len() - i,
        {
            copy.push(bytes[i]);
            i = i + 1;
            proof {
                assert(copy@ =~= bytes@.subrange(0, i as int));
            }
        }
        assert(copy@ =~= bytes@);
        Value { inner: Inner::Error(copy) }
    }

    /// Create a subroutine value from an environment and a procedure of a unit.
    pub fn subroutine_from_environment_and_procedure(
        environment: Arc<Vec<Value>>,
        unit: Unit,
        procedure: usize,
    ) -> (r: Self)
        requires
            procedure < unit.procedure_count,
        ensures
            r@ == (ValueModel::Subroutine {
                environment_len: (*environment)@.len(),
                procedure_count: unit.procedure_count as nat,
                procedure: procedure as nat,
            }),
    {
        Value { inner: Inner::Subroutine { environment, unit, procedure } }
    }

    /// Convert the value to a string.
    pub fn to_string(self) -> (r: Result<Vec<u8>, ToStringError>)
        ensures
            (match r {
                Ok(b) => Ok::<Seq<u8>, ToStringError>(b@),
                Err(e) => Err(e),
            }) == model_to_string(self@),
    {
        match self.inner {
            Inner::Undef => Err(ToStringError::Undef),
            Inner::Boolean(value) => {
                if value {
                    let r: Vec<u8> = vec![116u8, 114u8, 117u8, 101u8];
                    assert(r@ =~= true_bytes());
                    Ok(r)
                } else {
                    let r: Vec<u8> = vec![102u8, 97u8, 108u8, 115u8, 101u8];
                    assert(r@ =~= false_bytes());
                    Ok(r)
                }
            },
            Inner::String(bytes) => Ok(bytes),
            Inner::Error(message) => Ok(message),
            Inner::Subroutine { .. } => Err(ToStringError::Subroutine),
        }
    }
}

} // verus!
