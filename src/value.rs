use vstd::prelude::*;

verus! {

/// The ways decoding can fail.
#[derive(Debug, Clone, Copy, PartialEq, Eq, Structural)]
pub enum BencodeError {
    /// The decoder was asked for a value at or past the end of the input.
    EmptyInput,
    /// A byte string has no `:` after its length prefix.
    MissingColon,
    /// A length prefix is not a decimal number, or runs past the input.
    InvalidLength,
    /// Any other malformed input: a bad integer, a missing terminator,
    /// an unknown leading byte, a dictionary key that is not a string.
    InvalidFormat,
    /// Containers are nested deeper than the decoder allows.
    MaxDepthExceeded,
    /// A dictionary holds the same key twice.
    DuplicateKey,
}

impl BencodeError {
    /// A short human-readable description of the error.
    pub fn message(&self) -> (r: &'static str)
        ensures
            r@ == match *self {
                BencodeError::EmptyInput => "Input string is empty"@,
                BencodeError::MissingColon => "Expected colon in string format"@,
                BencodeError::InvalidLength => "Invalid length in string format"@,
                BencodeError::InvalidFormat => "Invalid bencode format"@,
                BencodeError::MaxDepthExceeded => "Nesting exceeds the maximum depth"@,
                BencodeError::DuplicateKey => "Duplicate dictionary key"@,
            },
    {
        let r = match self {
            BencodeError::EmptyInput => "Input string is empty",
            BencodeError::MissingColon => "Expected colon in string format",
            BencodeError::InvalidLength => "Invalid length in string format",
            BencodeError::InvalidFormat => "Invalid bencode format",
            BencodeError::MaxDepthExceeded => "Nesting exceeds the maximum depth",
            BencodeError::DuplicateKey => "Duplicate dictionary key",
        };
        proof {
            reveal_strlit("Input string is empty");
            reveal_strlit("Expected colon in string format");
            reveal_strlit("Invalid length in string format");
            reveal_strlit("Invalid bencode format");
            reveal_strlit("Nesting exceeds the maximum depth");
            reveal_strlit("Duplicate dictionary key");
        }
        r
    }
}

/// The mathematical model of a decoded value.
pub enum SValue {
    Bytes(Seq<u8>),
    Int(int),
    List(Seq<SValue>),
    Dict(Seq<(Seq<u8>, SValue)>),
}

/// A decoded Bencode value.
#[derive(Debug, PartialEq, Eq)]
pub enum Value {
    /// A byte string; its bytes need not be valid text.
    Bytes(Vec<u8>),
    /// A signed integer.
    Integer(i64),
    /// An ordered list of values.
    List(Vec<Value>),
    /// Key/value pairs in the order they were read; the keys are distinct.
    Dictionary(Vec<(Vec<u8>, Value)>),
}

/// The model of a decoded value: its bytes, its number, and the models of
/// its elements and entries.
pub open spec fn value_model(v: Value) -> SValue
    decreases v, 0int,
{
    match v {
        Value::Bytes(b) => SValue::Bytes(b@),
        Value::Integer(i) => SValue::Int(i as int),
        Value::List(items) => SValue::List(list_model(items@)),
        Value::Dictionary(entries) => SValue::Dict(entries_model(entries@)),
    }
}

/// The models of a sequence of values, element by element.
pub open spec fn list_model(s: Seq<Value>) -> Seq<SValue>
    decreases s, 0int,
{
    if s.len() == 0 {
        Seq::empty()
    } else {
        list_model(s.drop_last()).push(value_model(s.last()))
    }
}

/// The models of a sequence of dictionary entries, entry by entry.
pub open spec fn entries_model(s: Seq<(Vec<u8>, Value)>) -> Seq<(Seq<u8>, SValue)>
    decreases s, 0int,
{
    if s.len() == 0 {
        Seq::empty()
    } else {
        entries_model(s.drop_last()).push((s.last().0@, value_model(s.last().1)))
    }
}

impl View for Value {
    type V = SValue;

    open spec fn view(&self) -> SValue {
        value_model(*self)
    }
}

/// Appending a value appends its model.
pub proof fn lemma_list_model_push(s: Seq<Value>, v: Value)
    ensures
        list_model(s.push(v)) == list_model(s).push(value_model(v)),
{
    assert(s.push(v).drop_last() =~= s);
}

/// Appending an entry appends its model.
pub proof fn lemma_entries_model_push(s: Seq<(Vec<u8>, Value)>, k: Vec<u8>, v: Value)
    ensures
        entries_model(s.push((k, v))) == entries_model(s).push((k@, value_model(v))),
{
    assert(s.push((k, v)).drop_last() =~= s);
}

} // verus!

verus! {

/// The model of entries has one pair per entry, key by key.
pub proof fn lemma_entries_model_index(s: Seq<(Vec<u8>, Value)>)
    ensures
        entries_model(s).len() == s.len(),
        forall|j: int|
            0 <= j < s.len() ==> (#[trigger] entries_model(s)[j]) == (s[j].0@, value_model(s[j].1)),
    decreases s.len(),
{
    if s.len() > 0 {
        lemma_entries_model_index(s.drop_last());
    }
}

} // verus!
