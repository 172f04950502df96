//! Wire constants: the version token, one tag byte per kind of value, and the
//! largest length a length field can carry.

use vstd::prelude::*;

verus! {

/// The version token that opens every encoded stream.
pub const VERSION: &'static str = "1.1.0";

pub const NULL_TYPE: u8 = 0;

pub const STRING_TYPE: u8 = 1;

pub const INTEGER_TYPE: u8 = 2;

pub const DOUBLE_TYPE: u8 = 3;

pub const BOOL_TYPE: u8 = 4;

pub const LIST_TYPE: u8 = 10;

pub const MAP_TYPE: u8 = 11;

pub const MIN_LIST_TYPED: u8 = LIST_UINT8_TYPE;

pub const MAX_LIST_TYPED: u8 = LIST_FLOAT64_TYPE;

pub const LIST_UINT8_TYPE: u8 = 100;

pub const LIST_UINT16_TYPE: u8 = 101;

pub const LIST_UINT32_TYPE: u8 = 102;

pub const LIST_INT8_TYPE: u8 = 103;

pub const LIST_INT16_TYPE: u8 = 104;

pub const LIST_INT32_TYPE: u8 = 105;

pub const LIST_INT64_TYPE: u8 = 106;

pub const LIST_UINT64_TYPE: u8 = 107;

pub const LIST_FLOAT32_TYPE: u8 = 110;

pub const LIST_FLOAT64_TYPE: u8 = 111;

pub const LIST_STRING_TYPE: u8 = 112;

/// A length field is four bytes wide, so no declared length exceeds this.
pub const MAX_LIST_LENGTH: usize = 4294967295;

/// The element types of typed lists, each with the tag of its list.
pub trait TsonTypedListType {
    /// The tag of a typed list of `Self`.
    spec fn list_tag() -> u8;

    fn to_int32() -> (tag: u8)
        ensures
            tag == Self::list_tag(),
            MIN_LIST_TYPED <= tag <= MAX_LIST_TYPED,
    ;
}

impl TsonTypedListType for u8 {
    open spec fn list_tag() -> u8 {
        LIST_UINT8_TYPE
    }

    fn to_int32() -> (tag: u8) {
        LIST_UINT8_TYPE
    }
}

impl TsonTypedListType for i8 {
    open spec fn list_tag() -> u8 {
        LIST_INT8_TYPE
    }

    fn to_int32() -> (tag: u8) {
        LIST_INT8_TYPE
    }
}

impl TsonTypedListType for u16 {
    open spec fn list_tag() -> u8 {
        LIST_UINT16_TYPE
    }

    fn to_int32() -> (tag: u8) {
        LIST_UINT16_TYPE
    }
}

impl TsonTypedListType for i16 {
    open spec fn list_tag() -> u8 {
        LIST_INT16_TYPE
    }

    fn to_int32() -> (tag: u8) {
        LIST_INT16_TYPE
    }
}

impl TsonTypedListType for u32 {
    open spec fn list_tag() -> u8 {
        LIST_UINT32_TYPE
    }

    fn to_int32() -> (tag: u8) {
        LIST_UINT32_TYPE
    }
}

impl TsonTypedListType for i32 {
    open spec fn list_tag() -> u8 {
        LIST_INT32_TYPE
    }

    fn to_int32() -> (tag: u8) {
        LIST_INT32_TYPE
    }
}

impl TsonTypedListType for u64 {
    open spec fn list_tag() -> u8 {
        LIST_UINT64_TYPE
    }

    fn to_int32() -> (tag: u8) {
        LIST_UINT64_TYPE
    }
}

impl TsonTypedListType for i64 {
    open spec fn list_tag() -> u8 {
        LIST_INT64_TYPE
    }

    fn to_int32() -> (tag: u8) {
        LIST_INT64_TYPE
    }
}

} // verus!
