//! Weights, as a file of named tensors holds them.
use crate::scalar::Scalar;
use crate::shape::{count, element_count};
use crate::tensor::{Array, Elements, ViewTensor};
use crate::wire::{from_memory, numbers};
use vstd::prelude::*;
use vstd::string::StringExecFns;

verus! {

/// The named tensors of a file.
#[verifier::external_type_specification]
#[verifier::external_body]
pub struct ExSafeTensors<'data>(safetensors::SafeTensors<'data>);

/// The error of `safetensors::SafeTensors::tensor`.
#[verifier::external_type_specification]
#[verifier::external_body]
pub struct ExSafeTensorError(safetensors::SafeTensorError);

/// What a file holds under each name: dimensions, and the bytes of the elements.
pub type Contents = Map<Seq<char>, (Seq<usize>, Seq<u8>)>;

/// What `tensors` holds.
pub uninterp spec fn contents(tensors: safetensors::SafeTensors) -> Map<
    Seq<char>,
    (Seq<usize>, Seq<u8>),
>;

/// `safetensors::SafeTensors::tensor`, with the shape and the bytes of the view that it returns:
/// succeeds on the names that `tensors` holds and on no other, with what is held under the name.
#[verifier::external_body]
fn lookup<'a>(tensors: &'a safetensors::SafeTensors<'a>, name: &str) -> (r: Result<
    (Vec<usize>, &'a [u8]),
    safetensors::SafeTensorError,
>)
    ensures
        r is Ok <==> contents(*tensors).contains_key(name@),
        r matches Ok(t) ==> contents(*tensors)[name@] == (t.0@, t.1@),
{
    let view = tensors.tensor(name)?;
    Ok((view.shape().to_vec(), view.data()))
}

/// A tensor of a file: its dimensions, and the bytes that hold its elements.
pub struct RawTensor<'a> {
    pub shape: Vec<usize>,
    pub data: &'a [u8],
}

impl<'a> View for RawTensor<'a> {
    type V = (Seq<usize>, Seq<u8>);

    open spec fn view(&self) -> (Seq<usize>, Seq<u8>) {
        (self.shape@, self.data@)
    }
}

/// Why weights could not be loaded.
pub enum LoadError {
    /// There is no tensor of this name.
    Missing(String),
    /// A tensor's bytes are not four for each element.
    Size,
}

/// What a `LoadError` is.
pub enum Fault {
    Missing(Seq<char>),
    Size,
}

impl View for LoadError {
    type V = Fault;

    open spec fn view(&self) -> Fault {
        match self {
            LoadError::Missing(name) => Fault::Missing(name@),
            LoadError::Size => Fault::Size,
        }
    }
}

/// Whether a tensor of a file has four bytes for each element.
pub open spec fn sized(raw: (Seq<usize>, Seq<u8>)) -> bool {
    raw.1.len() == 4 * count(raw.0)
}

/// The tensor that a file holds as `raw`.
pub open spec fn decoded_array<S: Scalar>(raw: (Seq<usize>, Seq<u8>)) -> Array<S> {
    Array { dims: raw.0, elems: numbers::<S>(raw.1, count(raw.0)) }
}

impl<'a> RawTensor<'a> {
    /// The tensor itself.
    pub fn decode<S: Scalar>(self) -> (r: Result<ViewTensor<'a, S>, LoadError>)
        ensures
            match r {
                Ok(t) => sized(self@) && t@ == decoded_array::<S>(self@) && t@.wf(),
                Err(e) => !sized(self@) && e@ == Fault::Size,
            },
    {
        let len: usize = self.data.len();
        let n: usize = match element_count(self.shape.as_slice()) {
            Some(n) => n,
            None => {
                return Err(LoadError::Size);
            },
        };
        if len % 4 != 0 || n != len / 4 {
            return Err(LoadError::Size);
        }
        let data = from_memory(self.data, n);
        Ok(ViewTensor { shape: self.shape, data: Elements::Owned(data) })
    }
}

/// The tensor of the given name.
pub fn find<'a>(tensors: &'a safetensors::SafeTensors<'a>, name: &str) -> (r: Result<
    RawTensor<'a>,
    LoadError,
>)
    ensures
        match r {
            Ok(t) => {
                &&& contents(*tensors).contains_key(name@)
                &&& t@ == contents(*tensors)[name@]
            },
            Err(e) => {
                &&& !contents(*tensors).contains_key(name@)
                &&& e@ == Fault::Missing(name@)
            },
        },
{
    match lookup(tensors, name) {
        Ok((shape, data)) => Ok(RawTensor { shape, data }),
        Err(_) => Err(LoadError::Missing(name.to_owned())),
    }
}

/// Why the tensor of the given name cannot be loaded from a file, if it cannot.
pub open spec fn fault(held: Contents, name: Seq<char>) -> Option<Fault> {
    if !held.contains_key(name) {
        Some(Fault::Missing(name))
    } else if !sized(held[name]) {
        Some(Fault::Size)
    } else {
        None
    }
}

/// Why the tensors of two names cannot be loaded from a file, if they cannot. Both are looked up
/// before either is decoded.
pub open spec fn pair_fault(held: Contents, first: Seq<char>, second: Seq<char>) -> Option<Fault> {
    if !held.contains_key(first) {
        Some(Fault::Missing(first))
    } else if !held.contains_key(second) {
        Some(Fault::Missing(second))
    } else if !sized(held[first]) || !sized(held[second]) {
        Some(Fault::Size)
    } else {
        None
    }
}

/// `a`, or else `b`.
pub open spec fn sooner(a: Option<Fault>, b: Option<Fault>) -> Option<Fault> {
    if a is Some {
        a
    } else {
        b
    }
}

/// The tensor that a file holds under a name.
pub open spec fn held_array<S: Scalar>(held: Contents, name: Seq<char>) -> Array<S> {
    decoded_array::<S>(held[name])
}

/// A number in decimal digits.
pub open spec fn decimal(n: nat) -> Seq<char>
    decreases n,
{
    if n < 10 {
        seq![(48 + n) as char]
    } else {
        decimal(n / 10).push((48 + n % 10) as char)
    }
}

/// The name of a tensor of layer `index`.
pub open spec fn layer_name(index: usize, part: Seq<char>) -> Seq<char> {
    "h."@ + decimal(index as nat) + part
}

fn digit_text(n: usize) -> (r: &'static str)
    requires
        n < 10,
    ensures
        r@ == seq![(48 + n) as char],
{
    proof {
        reveal_strlit("0");
        reveal_strlit("1");
        reveal_strlit("2");
        reveal_strlit("3");
        reveal_strlit("4");
        reveal_strlit("5");
        reveal_strlit("6");
        reveal_strlit("7");
        reveal_strlit("8");
        reveal_strlit("9");
    }
    match n {
        0 => "0",
        1 => "1",
        2 => "2",
        3 => "3",
        4 => "4",
        5 => "5",
        6 => "6",
        7 => "7",
        8 => "8",
        _ => "9",
    }
}

/// Appends `n` in decimal digits.
fn append_decimal(text: &mut String, n: usize)
    ensures
        final(text)@ == old(text)@ + decimal(n as nat),
    decreases n,
{
    if n >= 10 {
        append_decimal(text, n / 10);
    }
    text.append(digit_text(n % 10));
}

/// The name of a tensor of layer `index`, whose last part is `part`.
pub fn layer_tensor_name(index: usize, part: &str) -> (r: String)
    ensures
        r@ == layer_name(index, part@),
{
    let mut text = String::from_str("h.");
    append_decimal(&mut text, index);
    text.append(part);
    text
}

} // verus!
