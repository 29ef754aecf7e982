//! The tagged value a wire unit decodes to, together with its mathematical
//! model: a tree whose text payloads are character sequences and whose
//! integers are unbounded.

use vstd::prelude::*;
use vstd::utf8::encode_utf8;

verus! {

broadcast use vstd::seq::group_seq_axioms, vstd::std_specs::vec::group_vec_axioms;

/// A slice is never longer than `usize::MAX`.
pub proof fn lemma_slice_len_bound(s: &[u8])
    ensures
        s@.len() <= usize::MAX,
{
    let l = vstd::slice::spec_slice_len(s);
}

/// The character of one decimal digit.
pub open spec fn digit_char(d: nat) -> char
    recommends
        d < 10,
{
    ((48 + d) as u8) as char
}

/// The decimal digits of `n`, most significant first, as characters.
pub open spec fn dec_chars(n: nat) -> Seq<char>
    decreases n,
{
    if n < 10 {
        seq![digit_char(n)]
    } else {
        dec_chars(n / 10).push(digit_char(n % 10))
    }
}

/// The wire form of a string value with payload `t`, as characters: the bulk
/// string marker, the decimal byte length of the payload, CR-LF, the payload,
/// CR-LF.
pub open spec fn spec_encode_string(t: Seq<char>) -> Seq<char> {
    seq!['$'] + dec_chars(encode_utf8(t).len()) + seq!['\r', '\n'] + t + seq!['\r', '\n']
}

/// Relies on `String::push`: it appends exactly the one character.
#[verifier::external_body]
fn push_char(s: &mut String, c: char)
    ensures
        final(s)@ == old(s)@.push(c),
{
    s.push(c);
}

/// Append the decimal digits of `n`, most significant first.
fn push_dec(out: &mut String, n: usize)
    ensures
        final(out)@ == old(out)@ + dec_chars(n as nat),
    decreases n,
{
    if n < 10 {
        push_char(out, (48 + n as u8) as char);
        proof {
            assert(old(out)@.push(digit_char(n as nat)) =~= old(out)@ + dec_chars(n as nat));
        }
    } else {
        push_dec(out, n / 10);
        push_char(out, (48 + (n % 10) as u8) as char);
        proof {
            assert((old(out)@ + dec_chars((n / 10) as nat)).push(digit_char((n % 10) as nat))
                =~= old(out)@ + dec_chars(n as nat));
        }
    }
}

/// The failure encoding a value that has no wire form of its own.
#[derive(PartialEq, Eq, Debug, Clone, Copy)]
pub enum EncodeError {
    /// Only the string variant can be encoded.
    UnhandledVariant,
}

/// The mathematical model of a [`Value`]: what a value *is*, independent of
/// the executable representation.
pub enum ValueModel {
    VStr(Seq<char>),
    VInt(int),
    VArr(Seq<ValueModel>),
    VErr(Seq<char>),
}

/// The output value from the decoder.
#[derive(PartialEq, Debug)]
pub enum Value {
    String(String),
    Integer(i32),
    Array(Vec<Value>),
    Error(String),
}

/// The mathematical model of a value.
pub open spec fn model_of(v: Value) -> ValueModel
    decreases v, 0int,
{
    match v {
        Value::String(s) => ValueModel::VStr(s@),
        Value::Integer(i) => ValueModel::VInt(i as int),
        Value::Array(items) => ValueModel::VArr(models_upto(items@, items@.len() as int)),
        Value::Error(s) => ValueModel::VErr(s@),
    }
}

/// Models of the first `n` elements of a sequence of values, in order.
pub open spec fn models_upto(items: Seq<Value>, n: int) -> Seq<ValueModel>
    decreases items, n,
{
    if n <= 0 || n > items.len() {
        Seq::empty()
    } else {
        models_upto(items, n - 1).push(model_of(items[n - 1]))
    }
}

/// Models of a sequence of values, element by element, in order.
pub open spec fn models_of(items: Seq<Value>) -> Seq<ValueModel> {
    models_upto(items, items.len() as int)
}

/// `models_upto(items, n)` lines up with the first `n` elements.
pub proof fn lemma_models_upto(items: Seq<Value>, n: int)
    requires
        0 <= n <= items.len(),
    ensures
        models_upto(items, n).len() == n,
        forall|i: int| 0 <= i < n ==> models_upto(items, n)[i] == model_of(items[i]),
    decreases n,
{
    if n > 0 {
        lemma_models_upto(items, n - 1);
    }
}

/// `models_upto` looks only at the first `n` elements.
pub proof fn lemma_models_upto_agree(a: Seq<Value>, b: Seq<Value>, n: int)
    requires
        0 <= n <= a.len(),
        n <= b.len(),
        forall|i: int| 0 <= i < n ==> a[i] == b[i],
    ensures
        models_upto(a, n) == models_upto(b, n),
    decreases n,
{
    if n > 0 {
        lemma_models_upto_agree(a, b, n - 1);
    }
}

/// Appending a value appends its model.
pub proof fn lemma_models_of_push(items: Seq<Value>, v: Value)
    ensures
        models_of(items.push(v)) == models_of(items).push(model_of(v)),
{
    let n = items.len() as int;
    lemma_models_upto_agree(items.push(v), items, n);
    assert(items.push(v)[n] == v);
}

impl Value {
    /// The mathematical model of this value.
    pub open spec fn model(self) -> ValueModel {
        model_of(self)
    }

    /// Encode the value in the wire format.
    ///
    /// Only the string variant has an encoding (the bulk form); encoding any
    /// other variant fails with an unhandled-variant error. This asymmetry
    /// (the decoder accepts more shapes than the encoder produces) is part of
    /// the contract.
    pub fn encode(&self) -> (r: Result<String, EncodeError>)
        ensures
            match r {
                Ok(s) => self matches Value::String(x) && s@ == spec_encode_string(x@),
                Err(_) => !(self is String),
            },
    {
        match self {
            Value::String(x) => {
                let bs = x.as_str().as_bytes();
                proof {
                    lemma_slice_len_bound(bs);
                }
                let len = bs.len();
                let mut out = String::new();
                push_char(&mut out, '$');
                push_dec(&mut out, len);
                push_char(&mut out, '\r');
                push_char(&mut out, '\n');
                out.append(x.as_str());
                push_char(&mut out, '\r');
                push_char(&mut out, '\n');
                proof {
                    assert(out@ =~= spec_encode_string(x@));
                }
                Ok(out)
            },
            _ => Err(EncodeError::UnhandledVariant),
        }
    }

    /// Returns the value as a string or None if the value isn't a string.
    ///
    /// Both the string and the error variants carry plain text and are
    /// reported uniformly.
    pub fn to_string(&self) -> (r: Option<String>)
        ensures
            match self.model() {
                ValueModel::VStr(t) => r matches Some(s) && s@ == t,
                ValueModel::VErr(t) => r matches Some(s) && s@ == t,
                _ => r is None,
            },
    {
        match self {
            Value::String(x) => Some(x.clone()),
            Value::Error(x) => Some(x.clone()),
            _ => None,
        }
    }

    /// Returns true if the value is a string.
    pub fn is_string(&self) -> (r: bool)
        ensures
            r == (self is String),
    {
        match self {
            Value::String(_) => true,
            _ => false,
        }
    }

    /// Returns true if the value is an integer.
    pub fn is_int(&self) -> (r: bool)
        ensures
            r == (self is Integer),
    {
        match self {
            Value::Integer(_) => true,
            _ => false,
        }
    }

    /// Returns true if the value is an array.
    pub fn is_array(&self) -> (r: bool)
        ensures
            r == (self is Array),
    {
        match self {
            Value::Array(_) => true,
            _ => false,
        }
    }

    /// Returns true if the value is an error.
    pub fn is_error(&self) -> (r: bool)
        ensures
            r == (self is Error),
    {
        match self {
            Value::Error(_) => true,
            _ => false,
        }
    }
}

impl Clone for Value {
    /// A clone has the same mathematical model as the original.
    #[verifier::loop_isolation(false)]
    fn clone(&self) -> (res: Self)
        ensures
            res.model() == self.model(),
        decreases self,
    {
        match self {
            Value::String(s) => Value::String(s.clone()),
            Value::Integer(i) => Value::Integer(*i),
            Value::Error(s) => Value::Error(s.clone()),
            Value::Array(items) => {
                let mut out: Vec<Value> = Vec::new();
                let mut i: usize = 0;
                while i < items.len()
                    invariant
                        i <= items@.len(),
                        out@.len() == i,
                        models_of(out@) == models_upto(items@, i as int),
                    decreases items@.len() - i,
                {
                    let c = items[i].clone();
                    proof {
                        lemma_models_of_push(out@, c);
                        lemma_models_upto(items@, i as int + 1);
                        lemma_models_upto(items@, i as int);
                        assert(models_of(out@).push(c.model()) =~= models_upto(
                            items@,
                            i as int + 1,
                        ));
                    }
                    out.push(c);
                    i = i + 1;
                }
                Value::Array(out)
            },
        }
    }
}

impl From<i32> for Value {
    fn from(value: i32) -> (r: Self)
        ensures
            r == Value::Integer(value),
    {
        Value::Integer(value)
    }
}

impl vstd::std_specs::convert::FromSpecImpl<i32> for Value {
    open spec fn obeys_from_spec() -> bool {
        true
    }

    open spec fn from_spec(v: i32) -> Value {
        Value::Integer(v)
    }
}

impl From<Vec<Value>> for Value {
    fn from(value: Vec<Value>) -> (r: Self)
        ensures
            r == Value::Array(value),
    {
        Value::Array(value)
    }
}

impl vstd::std_specs::convert::FromSpecImpl<Vec<Value>> for Value {
    open spec fn obeys_from_spec() -> bool {
        true
    }

    open spec fn from_spec(v: Vec<Value>) -> Value {
        Value::Array(v)
    }
}

} // verus!
