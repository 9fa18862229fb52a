//! The values a channel can hold.
//!
//! Channels store small machine integers.  The store and its algebra are
//! generic over the stored type through these traits: `ChannelValue`
//! supplies the type default that floor queries fall back to, and
//! `BitwiseValue` supplies the bitwise connectives the timeline algebra
//! combines held values with.  All implementations live in this crate and
//! are verified; the traits carry no trust.

use vstd::prelude::*;

verus! {

/// A value a channel can hold: copyable, with a known default that floor
/// queries return when no entry qualifies, and with equality that
/// contracts can speak about.
pub trait ChannelValue: Copy {
    /// The type default under zero-order-hold semantics.
    spec fn default_spec() -> Self;

    /// The executable default.
    fn default_value() -> (r: Self)
        ensures
            r == Self::default_spec(),
    ;

    /// Executable equality with a pinned meaning.
    fn eq_value(self, other: Self) -> (r: bool)
        ensures
            r == (self == other),
    ;
}

impl ChannelValue for u8 {
    open spec fn default_spec() -> u8 {
        0u8
    }

    fn default_value() -> u8 {
        0u8
    }

    fn eq_value(self, other: u8) -> bool {
        self == other
    }
}

impl ChannelValue for u16 {
    open spec fn default_spec() -> u16 {
        0u16
    }

    fn default_value() -> u16 {
        0u16
    }

    fn eq_value(self, other: u16) -> bool {
        self == other
    }
}

impl ChannelValue for u32 {
    open spec fn default_spec() -> u32 {
        0u32
    }

    fn default_value() -> u32 {
        0u32
    }

    fn eq_value(self, other: u32) -> bool {
        self == other
    }
}

/// A channel value that the timeline algebra can combine bitwise.
pub trait BitwiseValue: ChannelValue {
    /// Bitwise conjunction.
    spec fn and_spec(self, other: Self) -> Self;

    /// Bitwise disjunction.
    spec fn or_spec(self, other: Self) -> Self;

    /// Bitwise exclusive disjunction.
    spec fn xor_spec(self, other: Self) -> Self;

    /// Bitwise complement.
    spec fn not_spec(self) -> Self;

    fn and_value(self, other: Self) -> (r: Self)
        ensures
            r == self.and_spec(other),
    ;

    fn or_value(self, other: Self) -> (r: Self)
        ensures
            r == self.or_spec(other),
    ;

    fn xor_value(self, other: Self) -> (r: Self)
        ensures
            r == self.xor_spec(other),
    ;

    fn not_value(self) -> (r: Self)
        ensures
            r == self.not_spec(),
    ;

    /// Combining a value with the default on either side behaves as the
    /// algebra's omission rule expects, and disjunction only yields the
    /// default when both operands are the default.
    proof fn lemma_default_laws()
        ensures
            forall|a: Self| #![all_triggers] a.or_spec(a) == a && a.and_spec(a) == a,
            forall|a: Self| #![all_triggers]
                a.or_spec(Self::default_spec()) == a && Self::default_spec().or_spec(a) == a,
            forall|a: Self| #[trigger] a.xor_spec(a) == Self::default_spec(),
            forall|a: Self, b: Self|
                #[trigger] a.or_spec(b) == Self::default_spec() ==> a == Self::default_spec()
                    && b == Self::default_spec(),
    ;
}

impl BitwiseValue for u8 {
    open spec fn and_spec(self, other: u8) -> u8 {
        self & other
    }

    open spec fn or_spec(self, other: u8) -> u8 {
        self | other
    }

    open spec fn xor_spec(self, other: u8) -> u8 {
        self ^ other
    }

    open spec fn not_spec(self) -> u8 {
        !self
    }

    fn and_value(self, other: u8) -> u8 {
        self & other
    }

    fn or_value(self, other: u8) -> u8 {
        self | other
    }

    fn xor_value(self, other: u8) -> u8 {
        self ^ other
    }

    fn not_value(self) -> u8 {
        !self
    }

    proof fn lemma_default_laws() {
        assert forall|a: u8| #![all_triggers] (a | a) == a && (a & a) == a by {
            assert((a | a) == a && (a & a) == a) by (bit_vector);
        }
        assert forall|a: u8| #![all_triggers] (a | 0u8) == a && (0u8 | a) == a by {
            assert((a | 0u8) == a && (0u8 | a) == a) by (bit_vector);
        }
        assert forall|a: u8| #[trigger] (a ^ a) == 0u8 by {
            assert((a ^ a) == 0u8) by (bit_vector);
        }
        assert forall|a: u8, b: u8| #[trigger] (a | b) == 0u8 implies a == 0u8 && b == 0u8 by {
            assert((a | b) == 0u8 ==> a == 0u8 && b == 0u8) by (bit_vector);
        }
    }
}

impl BitwiseValue for u16 {
    open spec fn and_spec(self, other: u16) -> u16 {
        self & other
    }

    open spec fn or_spec(self, other: u16) -> u16 {
        self | other
    }

    open spec fn xor_spec(self, other: u16) -> u16 {
        self ^ other
    }

    open spec fn not_spec(self) -> u16 {
        !self
    }

    fn and_value(self, other: u16) -> u16 {
        self & other
    }

    fn or_value(self, other: u16) -> u16 {
        self | other
    }

    fn xor_value(self, other: u16) -> u16 {
        self ^ other
    }

    fn not_value(self) -> u16 {
        !self
    }

    proof fn lemma_default_laws() {
        assert forall|a: u16| #![all_triggers] (a | a) == a && (a & a) == a by {
            assert((a | a) == a && (a & a) == a) by (bit_vector);
        }
        assert forall|a: u16| #![all_triggers] (a | 0u16) == a && (0u16 | a) == a by {
            assert((a | 0u16) == a && (0u16 | a) == a) by (bit_vector);
        }
        assert forall|a: u16| #[trigger] (a ^ a) == 0u16 by {
            assert((a ^ a) == 0u16) by (bit_vector);
        }
        assert forall|a: u16, b: u16| #[trigger] (a | b) == 0u16 implies a == 0u16 && b
            == 0u16 by {
            assert((a | b) == 0u16 ==> a == 0u16 && b == 0u16) by (bit_vector);
        }
    }
}

} // verus!
