//! Prefixes of identifiers, in hexadecimal digits.

use crate::object_id;
use crate::object_id::ObjectId;
use vstd::prelude::*;

verus! {

/// A prefix of an identifier, given by hexadecimal digits.
#[derive(Debug, PartialEq, Eq)]
pub struct HexPrefix {
    // With an odd number of digits, the low half of the last byte is zero.
    min_prefix_bytes: Vec<u8>,
    has_odd_byte: bool,
}

/// The outcome of looking up a prefix.
#[derive(Debug, PartialEq, Eq)]
pub enum PrefixResolution<T> {
    /// Nothing starts with the prefix.
    NoMatch,
    /// The prefix stands for one identifier.
    SingleMatch(T),
    /// Different identifiers start with the prefix.
    AmbiguousMatch,
}

/// Whether the identifier with the given bytes starts with the digits.
pub open spec fn starts_with_digits(digits: Seq<u8>, bytes: Seq<u8>) -> bool {
    digits.is_prefix_of(object_id::hex_digits(bytes))
}

impl View for HexPrefix {
    type V = Seq<u8>;

    /// The digits of the prefix.
    closed spec fn view(&self) -> Seq<u8> {
        let digits = object_id::hex_digits(self.min_prefix_bytes@);
        if self.has_odd_byte {
            digits.drop_last()
        } else {
            digits
        }
    }
}

/// The least bytes that start with the digits: an odd last digit is followed by a zero.
pub open spec fn is_min_prefix_of(bytes: Seq<u8>, digits: Seq<u8>) -> bool {
    object_id::hex_digits(bytes) == if digits.len() % 2 == 0 {
        digits
    } else {
        digits.push(0)
    }
}

impl HexPrefix {
    #[verifier::type_invariant]
    spec fn padded_with_zero(self) -> bool {
        self.has_odd_byte ==> self.min_prefix_bytes@.len() > 0 && self.min_prefix_bytes@.last() % 16
            == 0
    }

    proof fn lemma_min_prefix(self)
        requires
            self.padded_with_zero(),
        ensures
            is_min_prefix_of(self.min_prefix_bytes@, self@),
            self.has_odd_byte <==> self@.len() % 2 == 1,
            self@.len() == 2 * self.min_prefix_bytes@.len() - if self.has_odd_byte {
                1int
            } else {
                0
            },
    {
        if self.has_odd_byte {
            let bytes = self.min_prefix_bytes@;
            object_id::lemma_hex_digit(bytes, bytes.len() - 1);
            assert(self@.push(0) =~= object_id::hex_digits(bytes));
        }
    }

    /// The prefix that the hexadecimal text spells.
    pub fn new(prefix: &str) -> (result: Option<HexPrefix>)
        ensures
            result is Some <==> object_id::is_hex(prefix@),
            result is Some ==> result->0@ == object_id::hex_text_digits(prefix@),
    {
        match object_id::parse_hex_digits(prefix) {
            Some(mut digits) => {
                let ghost all = digits@;
                let has_odd_byte = digits.len() % 2 != 0;
                if has_odd_byte {
                    digits.push(0);
                }
                let min_prefix_bytes = object_id::bytes_from_digits(&digits);
                proof {
                    if has_odd_byte {
                        object_id::lemma_hex_digit(
                            min_prefix_bytes@,
                            min_prefix_bytes@.len() - 1,
                        );
                        assert(all.push(0).drop_last() =~= all);
                    }
                }
                Some(HexPrefix { min_prefix_bytes, has_odd_byte })
            },
            None => None,
        }
    }

    /// The least bytes that start with the prefix.
    pub fn min_prefix_bytes(&self) -> (bytes: &[u8])
        ensures
            is_min_prefix_of(bytes@, self@),
    {
        proof {
            use_type_invariant(self);
            self.lemma_min_prefix();
        }
        self.min_prefix_bytes.as_slice()
    }

    /// Whether the identifier starts with the prefix.
    pub fn matches<Q: ObjectId>(&self, id: &Q) -> (matched: bool)
        ensures
            matched == starts_with_digits(self@, id.bytes()),
    {
        proof {
            use_type_invariant(self);
            self.lemma_min_prefix();
        }
        let id_bytes = id.as_bytes();
        let ghost id_digits = object_id::hex_digits(id_bytes@);
        if id_bytes.len() < self.min_prefix_bytes.len() {
            return false;
        }
        let whole_bytes: usize = if self.has_odd_byte {
            self.min_prefix_bytes.len() - 1
        } else {
            self.min_prefix_bytes.len()
        };
        for k in 0..whole_bytes
            invariant
                whole_bytes <= self.min_prefix_bytes@.len() <= id_bytes@.len(),
                self@.len() >= 2 * whole_bytes,
                is_min_prefix_of(self.min_prefix_bytes@, self@),
                id_digits == object_id::hex_digits(id_bytes@),
                id_bytes@ == id.bytes(),
                forall|i: int| 0 <= i < 2 * k ==> self@[i] == #[trigger] id_digits[i],
        {
            let ghost digits = object_id::hex_digits(self.min_prefix_bytes@);
            proof {
                object_id::lemma_hex_digit(self.min_prefix_bytes@, k as int);
                object_id::lemma_hex_digit(id_bytes@, k as int);
                assert(self@[2 * k] == digits[2 * k]);
                assert(self@[2 * k + 1] == digits[2 * k + 1]);
            }
            if id_bytes[k] != self.min_prefix_bytes[k] {
                assert(id_digits.take(self@.len() as int)[2 * k] != self@[2 * k]
                    || id_digits.take(self@.len() as int)[2 * k + 1] != self@[2 * k + 1]);
                return false;
            }
        }
        let matched = if self.has_odd_byte {
            proof {
                object_id::lemma_hex_digit(self.min_prefix_bytes@, whole_bytes as int);
                object_id::lemma_hex_digit(id_bytes@, whole_bytes as int);
            }
            id_bytes[whole_bytes] / 16 == self.min_prefix_bytes[whole_bytes] / 16
        } else {
            true
        };
        proof {
            if matched {
                assert(self@ =~= id_digits.take(self@.len() as int));
            } else {
                assert(id_digits.take(self@.len() as int)[2 * whole_bytes as int] != self@[2
                    * whole_bytes as int]);
            }
        }
        matched
    }
}

} // verus!
