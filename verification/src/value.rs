use vstd::prelude::*;

verus! {

/// A MessagePack value, carried through the tree without being read.
#[verifier::external_type_specification]
#[verifier::external_body]
pub struct ExValue(lighthouse_protocol::Value);

/// Holds of a value exactly when it is `Value::Nil`.
pub uninterp spec fn value_is_nil(v: lighthouse_protocol::Value) -> bool;

/// Makes `Value::Nil`; the result is described by `value_is_nil`.
#[verifier::external_body]
pub(crate) fn nil_value() -> (v: lighthouse_protocol::Value)
    ensures
        value_is_nil(v),
{
    lighthouse_protocol::Value::Nil
}

/// The derived `Clone` of `Value` copies the value field by field, so the
/// copy equals the value it was made from.
pub assume_specification[ <lighthouse_protocol::Value as Clone>::clone ](v: &lighthouse_protocol::Value) -> (r: lighthouse_protocol::Value)
    ensures
        r == *v,
;

/// What `Value::from` makes of the `u8` integer `x`.
pub uninterp spec fn value_of_u8(x: u8) -> lighthouse_protocol::Value;

/// `Value::from` on a `u8`: the integer value of `x`.
#[verifier::external_body]
pub(crate) fn value_from_u8(x: u8) -> (v: lighthouse_protocol::Value)
    ensures
        v == value_of_u8(x),
{
    lighthouse_protocol::Value::from(x)
}

/// What `Value::from` makes of the `u16` integer `x`.
pub uninterp spec fn value_of_u16(x: u16) -> lighthouse_protocol::Value;

/// `Value::from` on a `u16`: the integer value of `x`.
#[verifier::external_body]
pub(crate) fn value_from_u16(x: u16) -> (v: lighthouse_protocol::Value)
    ensures
        v == value_of_u16(x),
{
    lighthouse_protocol::Value::from(x)
}

/// What `Value::from` makes of the `u32` integer `x`.
pub uninterp spec fn value_of_u32(x: u32) -> lighthouse_protocol::Value;

/// `Value::from` on a `u32`: the integer value of `x`.
#[verifier::external_body]
pub(crate) fn value_from_u32(x: u32) -> (v: lighthouse_protocol::Value)
    ensures
        v == value_of_u32(x),
{
    lighthouse_protocol::Value::from(x)
}

/// What `Value::from` makes of the `u64` integer `x`.
pub uninterp spec fn value_of_u64(x: u64) -> lighthouse_protocol::Value;

/// `Value::from` on a `u64`: the integer value of `x`.
#[verifier::external_body]
pub(crate) fn value_from_u64(x: u64) -> (v: lighthouse_protocol::Value)
    ensures
        v == value_of_u64(x),
{
    lighthouse_protocol::Value::from(x)
}

/// What `Value::from` makes of the `usize` integer `x`.
pub uninterp spec fn value_of_usize(x: usize) -> lighthouse_protocol::Value;

/// `Value::from` on a `usize`: the integer value of `x`.
#[verifier::external_body]
pub(crate) fn value_from_usize(x: usize) -> (v: lighthouse_protocol::Value)
    ensures
        v == value_of_usize(x),
{
    lighthouse_protocol::Value::from(x)
}

/// What `Value::from` makes of the `i8` integer `x`.
pub uninterp spec fn value_of_i8(x: i8) -> lighthouse_protocol::Value;

/// `Value::from` on a `i8`: the integer value of `x`.
#[verifier::external_body]
pub(crate) fn value_from_i8(x: i8) -> (v: lighthouse_protocol::Value)
    ensures
        v == value_of_i8(x),
{
    lighthouse_protocol::Value::from(x)
}

/// What `Value::from` makes of the `i16` integer `x`.
pub uninterp spec fn value_of_i16(x: i16) -> lighthouse_protocol::Value;

/// `Value::from` on a `i16`: the integer value of `x`.
#[verifier::external_body]
pub(crate) fn value_from_i16(x: i16) -> (v: lighthouse_protocol::Value)
    ensures
        v == value_of_i16(x),
{
    lighthouse_protocol::Value::from(x)
}

/// What `Value::from` makes of the `i32` integer `x`.
pub uninterp spec fn value_of_i32(x: i32) -> lighthouse_protocol::Value;

/// `Value::from` on a `i32`: the integer value of `x`.
#[verifier::external_body]
pub(crate) fn value_from_i32(x: i32) -> (v: lighthouse_protocol::Value)
    ensures
        v == value_of_i32(x),
{
    lighthouse_protocol::Value::from(x)
}

/// What `Value::from` makes of the `i64` integer `x`.
pub uninterp spec fn value_of_i64(x: i64) -> lighthouse_protocol::Value;

/// `Value::from` on a `i64`: the integer value of `x`.
#[verifier::external_body]
pub(crate) fn value_from_i64(x: i64) -> (v: lighthouse_protocol::Value)
    ensures
        v == value_of_i64(x),
{
    lighthouse_protocol::Value::from(x)
}

/// What `Value::from` makes of the `isize` integer `x`.
pub uninterp spec fn value_of_isize(x: isize) -> lighthouse_protocol::Value;

/// `Value::from` on a `isize`: the integer value of `x`.
#[verifier::external_body]
pub(crate) fn value_from_isize(x: isize) -> (v: lighthouse_protocol::Value)
    ensures
        v == value_of_isize(x),
{
    lighthouse_protocol::Value::from(x)
}

/// What `Value::from` makes of an owned string with the characters `s`.
pub uninterp spec fn value_of_string(s: Seq<char>) -> lighthouse_protocol::Value;

/// `Value::from` on a `String`: the string value of `s`.
#[verifier::external_body]
pub(crate) fn value_from_string(s: String) -> (v: lighthouse_protocol::Value)
    ensures
        v == value_of_string(s@),
{
    lighthouse_protocol::Value::from(s)
}

/// What `Value::from` makes of a string slice with the characters `s`.
pub uninterp spec fn value_of_str(s: Seq<char>) -> lighthouse_protocol::Value;

/// `Value::from` on a `&str`: the string value of `s`.
#[verifier::external_body]
pub(crate) fn value_from_str(s: &str) -> (v: lighthouse_protocol::Value)
    ensures
        v == value_of_str(s@),
{
    lighthouse_protocol::Value::from(s)
}

} // verus!
