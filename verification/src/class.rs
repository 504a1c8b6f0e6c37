use vstd::prelude::*;

verus! {

/// Classification value of a codepoint that carries neither identifier
/// property.
pub const IDENTIFIER_OTHER: u8 = 0;

/// Bit set in a classification value when the codepoint may start an
/// identifier.
pub const IDENTIFIER_START: u8 = 1;

/// Bit set in a classification value when the codepoint may continue an
/// identifier.
pub const IDENTIFIER_CONTINUE: u8 = 2;

/// Whether a 2-bit classification value carries the start property.
pub open spec fn value_is_start(v: u8) -> bool {
    v & IDENTIFIER_START != 0
}

/// Whether a 2-bit classification value carries the continue property.
pub open spec fn value_is_continue(v: u8) -> bool {
    v & IDENTIFIER_CONTINUE != 0
}

/// The bitwise reading of the four classification values, stated once so
/// the rest of the crate can reason about them arithmetically.
pub proof fn lemma_value_bits()
    by (bit_vector)
    ensures
        forall|v: u8| v < 4 ==> ((v & 1u8 != 0) <==> (v == 1 || v == 3)),
        forall|v: u8| v < 4 ==> ((v & 2u8 != 0) <==> (v == 2 || v == 3)),
        forall|v: u8| v < 4 ==> (v | 1u8) < 4 && (v | 1u8) & 1u8 != 0 && (v | 1u8) & 2u8 == v & 2u8,
        forall|v: u8| v < 4 ==> (v | 2u8) < 4 && (v | 2u8) & 2u8 != 0 && (v | 2u8) & 1u8 == v & 1u8,
{
}

/// A Unicode identifier class, as returned by
/// [`unicode_identifier_class`](crate::unicode_identifier_class).  Use the
/// [`UnicodeIdentifierClass::is_start`] and
/// [`UnicodeIdentifierClass::is_continue`] methods to query specific
/// properties.
pub struct UnicodeIdentifierClass(u8);

impl UnicodeIdentifierClass {
    /// The underlying 2-bit classification value.
    pub closed spec fn bits(self) -> u8 {
        self.0
    }

    pub(crate) fn from_bits(v: u8) -> (r: Self)
        ensures
            r.bits() == v,
    {
        UnicodeIdentifierClass(v)
    }

    /// Returns whether or not the codepoint was one of the `*_Start`
    /// identifiers.
    #[inline]
    pub fn is_start(&self) -> (r: bool)
        ensures
            r == value_is_start(self.bits()),
    {
        self.0 & IDENTIFIER_START != 0
    }

    /// Returns whether or not the codepoint was one of the `*_Continue`
    /// identifiers.
    #[inline]
    pub fn is_continue(&self) -> (r: bool)
        ensures
            r == value_is_continue(self.bits()),
    {
        self.0 & IDENTIFIER_CONTINUE != 0
    }
}

} // verus!
