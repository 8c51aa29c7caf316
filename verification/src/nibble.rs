//! The nibble arithmetic unit: a 4-bit value type whose operations are closed
//! over the range `[0, 15]` by truncating every raw result to its low 4 bits.
//! Wraparound is the defined semantics (it mirrors hardware register
//! truncation), not an error: `9 + 9 == 18 mod 16 == 2`.

use vstd::prelude::*;

verus! {

/// A 4-bit unsigned value. Its mathematical view (`@`) is a `u8` in
/// `[0, 15]`; every constructor of this module truncates to that range.
#[allow(non_camel_case_types)]
#[derive(Clone, Copy, Debug, PartialEq, Eq, Structural)]
pub struct u4 {
    n: u8,
}

impl View for u4 {
    type V = u8;

    closed spec fn view(&self) -> u8 {
        self.n & 0xF
    }
}

impl u4 {
    /// The canonical nibble with value `v mod 16`; every executable
    /// constructor below states its result with this function.
    pub closed spec fn of(v: u8) -> u4 {
        u4 { n: v & 0xF }
    }

    /// A nibble's view never leaves `[0, 15]`.
    pub broadcast proof fn lemma_view_bound(x: u4)
        ensures
            #![trigger x.view()]
            x@ <= 15,
    {
        let n = x.n;
        assert(n & 0xF <= 15) by (bit_vector);
    }

    /// What `of` denotes: the low four bits, i.e. the value modulo 16.
    pub broadcast proof fn lemma_of_view(v: u8)
        ensures
            #[trigger] u4::of(v)@ == v % 16,
    {
        assert((v & 0xF) & 0xF == v % 16) by (bit_vector);
    }

    /// Build a nibble from the low four bits of a byte.
    pub fn from_u8(v: u8) -> (r: u4)
        ensures
            r == u4::of(v),
            r@ == v % 16,
    {
        proof {
            u4::lemma_of_view(v);
        }
        u4 { n: v & 0xF }
    }

    /// The nibble's value as a byte in `[0, 15]`.
    pub fn to_u8(self) -> (r: u8)
        ensures
            r == self@,
    {
        self.n & 0xF
    }

    /// Join a high and a low nibble into one byte: `[high, low]` becomes
    /// `high * 16 + low`. Address operands are always transmitted this way,
    /// high nibble first.
    pub fn combine(from: [u4; 2]) -> (r: u8)
        ensures
            r == from[0]@ * 16 + from[1]@,
    {
        let rh = from[0].n;
        let rl = from[1].n;
        let hi = rh & 0xF;
        let lo = rl & 0xF;
        proof {
            assert((hi << 4) | lo == hi * 16 + lo) by (bit_vector)
                requires
                    hi == rh & 0xF && lo == rl & 0xF,
            ;
        }
        (hi << 4) | lo
    }

    /// Split a byte into its high and low nibble, in that order.
    pub fn split(from: u8) -> (r: [u4; 2])
        ensures
            r[0] == u4::of(from / 16),
            r[1] == u4::of(from),
            r[0]@ == from / 16,
            r[1]@ == from % 16,
    {
        proof {
            u4::lemma_of_view(from);
            u4::lemma_of_view((from / 16) as u8);
            assert(from >> 4 == from / 16 && (from / 16) & 0xF == from >> 4 && ((from >> 4) & 0xF)
                & 0xF == from / 16) by (bit_vector);
        }
        [u4 { n: from >> 4 }, u4 { n: from & 0xF }]
    }

    /// The primitive all multi-nibble arithmetic builds on: the truncated
    /// sum together with an explicit carry-out nibble (0 or 1).
    pub fn add_with_carry(self, rhs: u4) -> (r: (u4, u4))
        ensures
            r.0 == u4::of(((self@ + rhs@) % 16) as u8),
            r.1 == u4::of(((self@ + rhs@) / 16) as u8),
            r.0@ == (self@ + rhs@) % 16,
            r.1@ == (self@ + rhs@) / 16,
    {
        let ra = self.n;
        let rb = rhs.n;
        let a = ra & 0xF;
        let b = rb & 0xF;
        proof {
            assert(a <= 15 && b <= 15) by (bit_vector)
                requires
                    a == ra & 0xF && b == rb & 0xF,
            ;
        }
        let sum = a + b;
        proof {
            u4::lemma_of_view((sum % 16) as u8);
            u4::lemma_of_view((sum / 16) as u8);
            assert(sum & 0xF == sum % 16 && sum >> 4 == sum / 16 && (sum & 0xF) & 0xF == sum % 16
                && (sum >> 4) & 0xF == sum / 16) by (bit_vector)
                requires
                    sum < 32,
            ;
        }
        (u4 { n: sum & 0xF }, u4 { n: sum >> 4 })
    }

    /// Wrapping addition: `(self + rhs) mod 16`.
    pub fn add(self, rhs: u4) -> (r: u4)
        ensures
            r == u4::of(((self@ + rhs@) % 16) as u8),
            r@ == (self@ + rhs@) % 16,
    {
        self.add_with_carry(rhs).0
    }

    /// Wrapping subtraction: `(self - rhs) mod 16`.
    pub fn sub(self, rhs: u4) -> (r: u4)
        ensures
            r == u4::of(((self@ + 16 - rhs@) % 16) as u8),
            r@ == (self@ + 16 - rhs@) % 16,
    {
        let ra = self.n;
        let rb = rhs.n;
        let a = ra & 0xF;
        let b = rb & 0xF;
        proof {
            assert(a <= 15 && b <= 15) by (bit_vector)
                requires
                    a == ra & 0xF && b == rb & 0xF,
            ;
        }
        let d = (a + 16) - b;
        proof {
            u4::lemma_of_view((d % 16) as u8);
            assert(d & 0xF == d % 16 && (d & 0xF) & 0xF == d % 16) by (bit_vector)
                requires
                    d < 32,
            ;
        }
        u4 { n: d & 0xF }
    }

    /// Wrapping multiplication: `(self * rhs) mod 16`.
    pub fn mul(self, rhs: u4) -> (r: u4)
        ensures
            r == u4::of(((self@ * rhs@) % 16) as u8),
            r@ == (self@ * rhs@) % 16,
    {
        let ra = self.n;
        let rb = rhs.n;
        let a = ra & 0xF;
        let b = rb & 0xF;
        proof {
            assert(a <= 15 && b <= 15) by (bit_vector)
                requires
                    a == ra & 0xF && b == rb & 0xF,
            ;
            assert(a * b <= 225) by (nonlinear_arith)
                requires
                    a <= 15 && b <= 15,
            ;
        }
        let p = a * b;
        proof {
            u4::lemma_of_view((p % 16) as u8);
            assert(p & 0xF == p % 16 && (p & 0xF) & 0xF == p % 16) by (bit_vector);
        }
        u4 { n: p & 0xF }
    }

    /// Truncated division. Division by zero is left out, as the raw byte
    /// division would fail on it.
    pub fn div(self, rhs: u4) -> (r: u4)
        requires
            rhs@ != 0,
        ensures
            r == u4::of((self@ / rhs@) as u8),
            r@ == self@ / rhs@,
    {
        let ra = self.n;
        let rb = rhs.n;
        let a = ra & 0xF;
        let b = rb & 0xF;
        let q = a / b;
        proof {
            u4::lemma_of_view(q);
            assert(q & 0xF == q && q % 16 == q) by (bit_vector)
                requires
                    q == (ra & 0xF) / b && b != 0,
            ;
        }
        u4 { n: q }
    }

    /// Remainder. Division by zero is left out, as the raw byte remainder
    /// would fail on it.
    pub fn rem(self, rhs: u4) -> (r: u4)
        requires
            rhs@ != 0,
        ensures
            r == u4::of((self@ % rhs@) as u8),
            r@ == self@ % rhs@,
    {
        let ra = self.n;
        let rb = rhs.n;
        let a = ra & 0xF;
        let b = rb & 0xF;
        let m = a % b;
        proof {
            u4::lemma_of_view(m);
            assert(m & 0xF == m && m % 16 == m) by (bit_vector)
                requires
                    m == (ra & 0xF) % b && b != 0,
            ;
        }
        u4 { n: m }
    }

    /// Left shift, truncated to 4 bits. Shift amounts of 8 or more are left
    /// out, as the raw byte shift would fail on them.
    pub fn shl(self, rhs: u4) -> (r: u4)
        requires
            rhs@ < 8,
        ensures
            r == u4::of((self@ << rhs@) as u8),
            r@ == (self@ << rhs@) & 0xF,
    {
        let ra = self.n;
        let rb = rhs.n;
        let a = ra & 0xF;
        let b = rb & 0xF;
        let s = a << b;
        proof {
            u4::lemma_of_view(s);
            assert((s & 0xF) & 0xF == s & 0xF && s % 16 == s & 0xF) by (bit_vector);
        }
        u4 { n: s & 0xF }
    }

    /// Right shift; the result already fits in 4 bits. Shift amounts of 8 or
    /// more are left out, as the raw byte shift would fail on them.
    pub fn shr(self, rhs: u4) -> (r: u4)
        requires
            rhs@ < 8,
        ensures
            r == u4::of((self@ >> rhs@) as u8),
            r@ == self@ >> rhs@,
    {
        let ra = self.n;
        let rb = rhs.n;
        let a = ra & 0xF;
        let b = rb & 0xF;
        let s = a >> b;
        proof {
            u4::lemma_of_view(s);
            assert(s & 0xF == s && s % 16 == s) by (bit_vector)
                requires
                    s == (ra & 0xF) >> b,
            ;
        }
        u4 { n: s }
    }

    /// Bitwise and.
    pub fn and(self, rhs: u4) -> (r: u4)
        ensures
            r == u4::of((self@ & rhs@) as u8),
            r@ == (self@ & rhs@),
    {
        let ra = self.n;
        let rb = rhs.n;
        let a = ra & 0xF;
        let b = rb & 0xF;
        let s = a & b;
        proof {
            u4::lemma_of_view(s);
            assert(s & 0xF == s && s % 16 == s) by (bit_vector)
                requires
                    s == (ra & 0xF) & (rb & 0xF),
            ;
        }
        u4 { n: s }
    }

    /// Bitwise or.
    pub fn or(self, rhs: u4) -> (r: u4)
        ensures
            r == u4::of((self@ | rhs@) as u8),
            r@ == (self@ | rhs@),
    {
        let ra = self.n;
        let rb = rhs.n;
        let a = ra & 0xF;
        let b = rb & 0xF;
        let s = a | b;
        proof {
            u4::lemma_of_view(s);
            assert(s & 0xF == s && s % 16 == s) by (bit_vector)
                requires
                    s == (ra & 0xF) | (rb & 0xF),
            ;
        }
        u4 { n: s }
    }

    /// Bitwise exclusive or.
    pub fn xor(self, rhs: u4) -> (r: u4)
        ensures
            r == u4::of((self@ ^ rhs@) as u8),
            r@ == (self@ ^ rhs@),
    {
        let ra = self.n;
        let rb = rhs.n;
        let a = ra & 0xF;
        let b = rb & 0xF;
        let s = a ^ b;
        proof {
            u4::lemma_of_view(s);
            assert(s & 0xF == s && s % 16 == s) by (bit_vector)
                requires
                    s == (ra & 0xF) ^ (rb & 0xF),
            ;
        }
        u4 { n: s }
    }
}

/// The nibble value a hex digit character denotes, if it is one: `0`-`9`,
/// `a`-`f` or `A`-`F`.
pub open spec fn hex_val(c: char) -> Option<u8> {
    let u = c as u32;
    if 48 <= u && u <= 57 {
        Some((u - 48) as u8)
    } else if 65 <= u && u <= 70 {
        Some((u - 55) as u8)
    } else if 97 <= u && u <= 102 {
        Some((u - 87) as u8)
    } else {
        None
    }
}

/// Decode one hex digit character to its value.
pub fn hex_digit(c: char) -> (r: Option<u8>)
    ensures
        r == hex_val(c),
{
    let u = c as u32;
    if 48 <= u && u <= 57 {
        Some((u - 48) as u8)
    } else if 65 <= u && u <= 70 {
        Some((u - 55) as u8)
    } else if 97 <= u && u <= 102 {
        Some((u - 87) as u8)
    } else {
        None
    }
}

} // verus!
