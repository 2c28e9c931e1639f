//! Reading a fixed number of values from white-space separated text.
use crate::number::{shown, Scalar};
use crate::text::{split_whitespace, to_chars, tokens, views};
use vstd::prelude::*;

verus! {

/// Why a text does not hold the values that were asked for.
#[derive(Debug, Clone, Copy, PartialEq, Eq)]
pub enum FieldError {
    /// The text holds `actual` tokens where `expected` were asked for.
    CountMismatch { expected: usize, actual: usize },
    /// A token is no literal of the kind of number that was asked for.
    MalformedToken,
}

/// Whether every token is a literal of the kind `T`.
pub open spec fn all_parse<T: Scalar>(tokens: Seq<Seq<char>>) -> bool {
    forall|i: int| 0 <= i < tokens.len() ==> (#[trigger] T::parse_spec(tokens[i])) is Some
}

/// What the tokens denote, each read as a literal of the kind `T`.
pub open spec fn parsed<T: Scalar>(tokens: Seq<Seq<char>>) -> Seq<T::V> {
    Seq::new(tokens.len(), |i: int| T::parse_spec(tokens[i])->0)
}

/// The `count` values of kind `T` that `s` holds. A token that is no literal
/// is reported before a wrong number of tokens.
pub open spec fn fields<T: Scalar>(s: Seq<char>, count: usize) -> Result<Seq<T::V>, FieldError> {
    let found = tokens(s);
    if !all_parse::<T>(found) {
        Err(FieldError::MalformedToken)
    } else if found.len() != count {
        Err(FieldError::CountMismatch { expected: count, actual: found.len() as usize })
    } else {
        Ok(parsed::<T>(found))
    }
}

/// Reads exactly `count` values of kind `T` from the tokens of `s`.
pub fn parse_fields<T: Scalar>(s: &[char], count: usize) -> (r: Result<Vec<T>, FieldError>)
    ensures
        match fields::<T>(s@, count) {
            Ok(values) => r is Ok && shown(r->Ok_0@) == values && r->Ok_0@.len() == count,
            Err(e) => r == Err::<Vec<T>, FieldError>(e),
        },
{
    let found = split_whitespace(s);
    let mut values: Vec<T> = Vec::new();
    let mut i: usize = 0;
    while i < found.len()
        invariant
            i <= found@.len(),
            views(found@) == tokens(s@),
            values@.len() == i,
            forall|j: int|
                0 <= j < i ==> (#[trigger] T::parse_spec(tokens(s@)[j])) == Some(values@[j]@),
        decreases found@.len() - i,
    {
        assert(views(found@)[i as int] == found@[i as int]@);
        match T::parse(found[i]) {
            Some(value) => {
                values.push(value);
            },
            None => {
                assert(T::parse_spec(tokens(s@)[i as int]) is None);
                return Err(FieldError::MalformedToken);
            },
        }
        i += 1;
    }
    assert(views(found@).len() == found@.len());
    if values.len() != count {
        return Err(FieldError::CountMismatch { expected: count, actual: values.len() });
    }
    assert(shown(values@) =~= parsed::<T>(tokens(s@)));
    Ok(values)
}

/// Reads exactly `N` values of kind `T` from the tokens of `data`: the
/// values in the order of the tokens, or the reason why there are none.
pub fn parse_nums_from_str<T: Scalar, const N: usize>(data: String) -> (r: Result<
    Vec<T>,
    FieldError,
>)
    ensures
        match fields::<T>(data@, N) {
            Ok(values) => r is Ok && shown(r->Ok_0@) == values && r->Ok_0@.len() == N,
            Err(e) => r == Err::<Vec<T>, FieldError>(e),
        },
{
    let chars = to_chars(data.as_str());
    parse_fields::<T>(chars.as_slice(), N)
}

} // verus!
