use crate::error::Error;
use vstd::prelude::*;

verus! {

/// A value as the store holds it. Floating-point values are kept as their
/// IEEE-754 bit patterns (`f32::to_bits`, `f64::to_bits`).
#[derive(Debug, Clone, PartialEq)]
pub enum DataType {
    BOOL(bool),
    INT8(i8),
    INT16(i16),
    INT32(i32),
    INT64(i64),
    FLOAT32(u32),
    FLOAT64(u64),
    STRING(String),
    BYTES(Vec<u8>),
}

/// The mathematical value that a `DataType` stands for.
pub enum Value {
    Bool(bool),
    Int8(i8),
    Int16(i16),
    Int32(i32),
    Int64(i64),
    Float32(u32),
    Float64(u64),
    Text(Seq<char>),
    Bytes(Seq<u8>),
}

impl View for DataType {
    type V = Value;

    open spec fn view(&self) -> Value {
        match self {
            DataType::BOOL(b) => Value::Bool(*b),
            DataType::INT8(x) => Value::Int8(*x),
            DataType::INT16(x) => Value::Int16(*x),
            DataType::INT32(x) => Value::Int32(*x),
            DataType::INT64(x) => Value::Int64(*x),
            DataType::FLOAT32(x) => Value::Float32(*x),
            DataType::FLOAT64(x) => Value::Float64(*x),
            DataType::STRING(s) => Value::Text(s@),
            DataType::BYTES(b) => Value::Bytes(b@),
        }
    }
}

/// The one-byte wire tag of each variant.
pub open spec fn tag_of(v: Value) -> u8 {
    match v {
        Value::Bool(_) => 0,
        Value::Int8(_) => 1,
        Value::Int16(_) => 2,
        Value::Int32(_) => 3,
        Value::Int64(_) => 4,
        Value::Float32(_) => 5,
        Value::Float64(_) => 6,
        Value::Text(_) => 7,
        Value::Bytes(_) => 8,
    }
}

impl DataType {
    /// The wire tag of this value's variant.
    pub fn id(&self) -> (r: u8)
        ensures
            r == tag_of(self@),
    {
        match self {
            DataType::BOOL(_) => 0,
            DataType::INT8(_) => 1,
            DataType::INT16(_) => 2,
            DataType::INT32(_) => 3,
            DataType::INT64(_) => 4,
            DataType::FLOAT32(_) => 5,
            DataType::FLOAT64(_) => 6,
            DataType::STRING(_) => 7,
            DataType::BYTES(_) => 8,
        }
    }
}

/// A host type that a stored value can be narrowed to.
pub trait FromValue: Sized {
    /// Whether a value of this variant converts to `Self`.
    spec fn accepts(v: Value) -> bool;

    /// Whether `x` is the conversion of `v`.
    spec fn converts_to(v: Value, x: Self) -> bool;

    /// Narrows a stored value to `Self`, failing when the variant differs.
    fn from_value(v: &DataType) -> (r: Result<Self, Error>)
        ensures
            r is Ok <==> Self::accepts(v@),
            r matches Ok(x) ==> Self::converts_to(v@, x),
            r matches Err(e) ==> e == Error::ConversionError,
    ;
}

impl FromValue for bool {
    open spec fn accepts(v: Value) -> bool {
        v is Bool
    }

    open spec fn converts_to(v: Value, x: bool) -> bool {
        v == Value::Bool(x)
    }

    fn from_value(v: &DataType) -> (r: Result<bool, Error>) {
        match v {
            DataType::BOOL(x) => Ok(*x),
            _ => Err(Error::ConversionError),
        }
    }
}

impl FromValue for i8 {
    open spec fn accepts(v: Value) -> bool {
        v is Int8
    }

    open spec fn converts_to(v: Value, x: i8) -> bool {
        v == Value::Int8(x)
    }

    fn from_value(v: &DataType) -> (r: Result<i8, Error>) {
        match v {
            DataType::INT8(x) => Ok(*x),
            _ => Err(Error::ConversionError),
        }
    }
}

impl FromValue for i16 {
    open spec fn accepts(v: Value) -> bool {
        v is Int16
    }

    open spec fn converts_to(v: Value, x: i16) -> bool {
        v == Value::Int16(x)
    }

    fn from_value(v: &DataType) -> (r: Result<i16, Error>) {
        match v {
            DataType::INT16(x) => Ok(*x),
            _ => Err(Error::ConversionError),
        }
    }
}

impl FromValue for i32 {
    open spec fn accepts(v: Value) -> bool {
        v is Int32
    }

    open spec fn converts_to(v: Value, x: i32) -> bool {
        v == Value::Int32(x)
    }

    fn from_value(v: &DataType) -> (r: Result<i32, Error>) {
        match v {
            DataType::INT32(x) => Ok(*x),
            _ => Err(Error::ConversionError),
        }
    }
}

impl FromValue for i64 {
    open spec fn accepts(v: Value) -> bool {
        v is Int64
    }

    open spec fn converts_to(v: Value, x: i64) -> bool {
        v == Value::Int64(x)
    }

    fn from_value(v: &DataType) -> (r: Result<i64, Error>) {
        match v {
            DataType::INT64(x) => Ok(*x),
            _ => Err(Error::ConversionError),
        }
    }
}

impl FromValue for String {
    open spec fn accepts(v: Value) -> bool {
        v is Text
    }

    open spec fn converts_to(v: Value, x: String) -> bool {
        v == Value::Text(x@)
    }

    fn from_value(v: &DataType) -> (r: Result<String, Error>) {
        match v {
            DataType::STRING(s) => Ok(s.clone()),
            _ => Err(Error::ConversionError),
        }
    }
}

impl FromValue for Vec<u8> {
    open spec fn accepts(v: Value) -> bool {
        v is Bytes
    }

    open spec fn converts_to(v: Value, x: Vec<u8>) -> bool {
        v == Value::Bytes(x@)
    }

    fn from_value(v: &DataType) -> (r: Result<Vec<u8>, Error>) {
        match v {
            DataType::BYTES(b) => {
                let mut out: Vec<u8> = Vec::new();
                let mut i: usize = 0;
                while i < b.len()
                    invariant
                        i <= b@.len(),
                        out@ == b@.subrange(0, i as int),
                    decreases b@.len() - i,
                {
                    out.push(b[i]);
                    i = i + 1;
                }
                assert(out@ =~= b@);
                Ok(out)
            },
            _ => Err(Error::ConversionError),
        }
    }
}

} // verus!
