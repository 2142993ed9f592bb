//! The weak checksum: two 16-bit accumulators over a byte window, which can be
//! moved forward one byte at a time in constant time.
use vstd::prelude::*;

verus! {

/// The modulus of both accumulators. rsync uses `1 << 16` for speed, where
/// Adler-32 uses the largest prime below it.
pub const MODULO: u32 = 0x1_0000;

/// The sum of the first `k` bytes of `s`.
pub open spec fn byte_sum_upto(s: Seq<u8>, k: nat) -> int
    decreases k,
{
    if k == 0 {
        0
    } else {
        byte_sum_upto(s, (k - 1) as nat) + s[k - 1]
    }
}

/// The sum of all bytes of `s`.
pub open spec fn byte_sum(s: Seq<u8>) -> int {
    byte_sum_upto(s, s.len())
}

/// The sum over the first `k` bytes of `s` of the byte times its distance
/// from the end of `s`: `s[i] * (s.len() - i)`.
pub open spec fn weighted_sum_upto(s: Seq<u8>, k: nat) -> int
    decreases k,
{
    if k == 0 {
        0
    } else {
        weighted_sum_upto(s, (k - 1) as nat) + s[k - 1] * (s.len() - (k - 1))
    }
}

/// The sum over all bytes of `s` of `s[i] * (s.len() - i)`.
pub open spec fn weighted_sum(s: Seq<u8>) -> int {
    weighted_sum_upto(s, s.len())
}

/// The weak hash of a byte sequence: the byte sum in the low 16 bits and the
/// weighted sum in the high 16 bits, each reduced modulo 2^16.
pub open spec fn weak_hash(s: Seq<u8>) -> u32 {
    (byte_sum(s) % 0x1_0000 + (weighted_sum(s) % 0x1_0000) * 0x1_0000) as u32
}

/// RollingSum keeps the checksum of a window of bytes, which can roll byte by
/// byte through a buffer.
pub struct RollingSum {
    /// Sum of the bytes in the window
    pub r1: u32,
    /// Sum of the bytes in the window, each weighted by its distance from the
    /// window's end
    pub r2: u32,
    /// Number of bytes in the window
    pub l: u32,
}

impl RollingSum {
    /// The state that summarises no bytes.
    pub open spec fn empty() -> RollingSum {
        RollingSum { r1: 0, r2: 0, l: 0 }
    }

    /// The state after folding the bytes `s` into `self`.
    pub open spec fn updated(self, s: Seq<u8>) -> RollingSum {
        RollingSum {
            r1: ((self.r1 + byte_sum(s)) % 0x1_0000) as u32,
            r2: ((self.r2 + weighted_sum(s)) % 0x1_0000) as u32,
            l: ((self.l + s.len()) % 0x1_0000) as u32,
        }
    }

    /// The state of a fresh checksum that has taken in exactly the bytes `s`.
    pub open spec fn seeded(s: Seq<u8>) -> RollingSum {
        RollingSum::empty().updated(s)
    }

    /// The state after the byte `prev` has left the window at its front and
    /// `next`, if there is one, has entered it at its end.
    pub open spec fn rolled(self, prev: u8, next: Option<u8>) -> RollingSum {
        let entering: int = match next {
            Some(b) => b as int,
            None => 0,
        };
        let r1 = (self.r1 - prev + entering) % 0x1_0000;
        RollingSum {
            r1: r1 as u32,
            r2: ((self.r2 - self.l * prev + r1) % 0x1_0000) as u32,
            l: match next {
                Some(_) => self.l,
                None => if self.l == 0 {
                    u32::MAX
                } else {
                    (self.l - 1) as u32
                },
            },
        }
    }

    /// The 32-bit value that the state stands for: `r1` in the low half and
    /// `r2` in the high half, each confined to 16 bits.
    pub open spec fn digest_value(self) -> u32 {
        (self.r1 % 0x1_0000 + (self.r2 % 0x1_0000) * 0x1_0000) as u32
    }

    /// A checksum that has taken in no bytes.
    pub fn new() -> (rs: Self)
        ensures
            rs == RollingSum::empty(),
    {
        Self { r1: 0, r2: 0, l: 0 }
    }

    /// Returns aggregated rolling checksum for current state
    pub fn digest(&self) -> (d: u32)
        ensures
            d == self.digest_value(),
    {
        let low: u32 = self.r1 % MODULO;
        let high: u32 = self.r2 % MODULO;
        assert(high << 16 == high * 0x1_0000) by (bit_vector)
            requires
                high < 0x1_0000,
        ;
        low + (high << 16)
    }

    /// Append a slice of bytes to the current rolling checksum state
    pub fn update(&mut self, buffer: &[u8])
        ensures
            *final(self) == old(self).updated(buffer@),
    {
        let len: usize = buffer.len();
        let mut a: u32 = 0;
        let mut b: u32 = 0;
        let mut index: usize = 0;
        while index < len
            invariant
                len == buffer@.len(),
                index <= len,
                a < 0x1_0000,
                b < 0x1_0000,
                a == byte_sum_upto(buffer@, index as nat) % 0x1_0000,
                b == weighted_sum_upto(buffer@, index as nat) % 0x1_0000,
            decreases len - index,
        {
            let byte: u32 = buffer[index] as u32;
            let weight: u32 = ((len - index) % 0x1_0000) as u32;
            proof {
                let term = byte as int * (len - index);
                assert(byte * weight <= 255 * 0xffff) by (nonlinear_arith)
                    requires
                        byte <= 255,
                        weight <= 0xffff,
                ;
                lemma_weight_reduced(byte as int, (len - index) as int);
                lemma_add_congruent(
                    a as int,
                    byte_sum_upto(buffer@, index as nat),
                    byte as int,
                    byte as int,
                );
                lemma_add_congruent(
                    b as int,
                    weighted_sum_upto(buffer@, index as nat),
                    byte as int * weight as int,
                    term,
                );
                assert(buffer@[index as int] * (buffer@.len() - index) == term);
            }
            a = (a + byte) % MODULO;
            b = (b + byte * weight) % MODULO;
            index += 1;
        }
        let added: u32 = (len % 0x1_0000) as u32;
        proof {
            lemma_add_congruent(
                (self.r1 % MODULO) as int,
                self.r1 as int,
                a as int,
                byte_sum(buffer@),
            );
            lemma_add_congruent(
                (self.r2 % MODULO) as int,
                self.r2 as int,
                b as int,
                weighted_sum(buffer@),
            );
            lemma_add_congruent((self.l % MODULO) as int, self.l as int, added as int, len as int);
        }
        self.r1 = (self.r1 % MODULO + a) % MODULO;
        self.r2 = (self.r2 % MODULO + b) % MODULO;
        self.l = (self.l % MODULO + added) % MODULO;
    }

    /// Roll forward the window. Remove one byte from the beginning
    /// of the window and add one byte at the end of the window (if provided)
    pub fn roll_fw(&mut self, prev: u8, next: Option<u8>)
        ensures
            *final(self) == old(self).rolled(prev, next),
    {
        let entering: u32 = match next {
            Some(byte) => byte as u32,
            None => 0,
        };
        let leaving: u32 = self.l.wrapping_mul(prev as u32);
        let r1: u32 = self.r1.wrapping_sub(prev as u32).wrapping_add(entering);
        let r1_reduced: u32 = r1 % MODULO;
        let r2: u32 = self.r2.wrapping_sub(leaving).wrapping_add(r1_reduced);
        proof {
            let product = self.l as int * prev as int;
            lemma_wrap_congruent(self.r1 - prev + entering, r1 as int);
            lemma_wrap_congruent(self.r2 - leaving + r1_reduced, r2 as int);
            lemma_weight_reduced_wide(product);
            lemma_sub_congruent(self.r2 as int, self.r2 as int, leaving as int, product);
            lemma_add_congruent(
                self.r2 - leaving,
                self.r2 - product,
                r1_reduced as int,
                r1_reduced as int,
            );
        }
        self.r1 = r1_reduced;
        self.r2 = r2 % MODULO;
        if next.is_none() {
            self.l = self.l.wrapping_sub(1);
        }
    }
}

impl Default for RollingSum {
    fn default() -> (rs: Self)
        ensures
            rs == RollingSum::empty(),
    {
        Self::new()
    }
}

/// Calculate rolling checksum (weak hash) for given chunk of data
pub fn chunk_rollsum(chunk: &[u8]) -> (weak: u32)
    ensures
        weak == weak_hash(chunk@),
{
    let mut rolling_sum = RollingSum::new();
    rolling_sum.update(chunk);
    rolling_sum.digest()
}

/// A fresh checksum that has taken in `s` reports the weak hash of `s`: the
/// digest depends on the bytes alone, not on any earlier use of the type.
pub proof fn lemma_digest_of_seeded(s: Seq<u8>)
    ensures
        RollingSum::seeded(s).digest_value() == weak_hash(s),
        RollingSum::seeded(s).r1 == byte_sum(s) % 0x1_0000,
        RollingSum::seeded(s).r2 == weighted_sum(s) % 0x1_0000,
        RollingSum::seeded(s).l == s.len() % 0x1_0000,
{
}

/// Rolling the checksum of a window forward by one byte, with a byte entering
/// at the end, gives the state that a fresh pass over the shifted window gives.
pub proof fn lemma_roll_is_fresh(window: Seq<u8>, next: u8)
    requires
        window.len() > 0,
    ensures
        RollingSum::seeded(window).rolled(window[0], Some(next)) == RollingSum::seeded(
            window.drop_first().push(next),
        ),
{
    let shifted = window.drop_first().push(next);
    let seeded = RollingSum::seeded(window);
    let len = window.len() as int;
    let first = window[0] as int;
    lemma_byte_sum_drop_first(window);
    lemma_byte_sum_push(window.drop_first(), next);
    lemma_weighted_sum_drop_first(window);
    lemma_weighted_sum_push(window.drop_first(), next);
    assert(byte_sum(shifted) == byte_sum(window) - first + next);
    assert(weighted_sum(shifted) == weighted_sum(window) - len * first + byte_sum(shifted));

    let r1 = (seeded.r1 - first + next) % 0x1_0000;
    lemma_add_congruent(seeded.r1 as int, byte_sum(window), next - first, next - first);
    assert(r1 == byte_sum(shifted) % 0x1_0000);

    vstd::arithmetic::div_mod::lemma_mul_mod_noop_left(len, first, 0x1_0000);
    assert(seeded.l * first == (len % 0x1_0000) * first);
    lemma_sub_congruent(seeded.r2 as int, weighted_sum(window), seeded.l * first, len * first);
    lemma_add_congruent(
        seeded.r2 - seeded.l * first,
        weighted_sum(window) - len * first,
        r1,
        byte_sum(shifted),
    );
    assert((seeded.r2 - seeded.l * first + r1) % 0x1_0000 == weighted_sum(shifted) % 0x1_0000);
}

/// Rolling the checksum of a window forward with no byte entering leaves the
/// byte sum of the shortened window in `r1`, but in `r2` its weighted sum and
/// its byte sum together: once a window shrinks, its checksum is no longer the
/// one that a fresh pass over it gives.
pub proof fn lemma_roll_without_next(window: Seq<u8>)
    requires
        window.len() > 0,
    ensures
        ({
            let rolled = RollingSum::seeded(window).rolled(window[0], None);
            let shortened = window.drop_first();
            &&& rolled.r1 == byte_sum(shortened) % 0x1_0000
            &&& rolled.r2 == (weighted_sum(shortened) + byte_sum(shortened)) % 0x1_0000
        }),
{
    let shortened = window.drop_first();
    let seeded = RollingSum::seeded(window);
    let len = window.len() as int;
    let first = window[0] as int;
    lemma_byte_sum_drop_first(window);
    lemma_weighted_sum_drop_first(window);

    let r1 = (seeded.r1 - first) % 0x1_0000;
    lemma_add_congruent(seeded.r1 as int, byte_sum(window), -first, -first);
    assert(r1 == byte_sum(shortened) % 0x1_0000);

    vstd::arithmetic::div_mod::lemma_mul_mod_noop_left(len, first, 0x1_0000);
    assert(seeded.l * first == (len % 0x1_0000) * first);
    lemma_sub_congruent(seeded.r2 as int, weighted_sum(window), seeded.l * first, len * first);
    lemma_add_congruent(
        seeded.r2 - seeded.l * first,
        weighted_sum(window) - len * first,
        r1,
        byte_sum(shortened),
    );
}

/// Appending a byte adds it to the byte sum.
pub proof fn lemma_byte_sum_push(s: Seq<u8>, last: u8)
    ensures
        byte_sum(s.push(last)) == byte_sum(s) + last,
{
    lemma_byte_sum_upto_push(s, last, s.len());
}

/// Removing the first byte takes it out of the byte sum.
pub proof fn lemma_byte_sum_drop_first(s: Seq<u8>)
    requires
        s.len() > 0,
    ensures
        byte_sum(s.drop_first()) == byte_sum(s) - s[0],
{
    lemma_byte_sum_upto_drop_first(s, (s.len() - 1) as nat);
}

/// Appending a byte moves every earlier byte one place further from the end,
/// and adds the new byte with weight one.
pub proof fn lemma_weighted_sum_push(s: Seq<u8>, last: u8)
    ensures
        weighted_sum(s.push(last)) == weighted_sum(s) + byte_sum(s) + last,
{
    lemma_weighted_sum_upto_push(s, last, s.len());
    let weight = s.push(last).len() - s.len();
    assert(last * weight == last as int) by (nonlinear_arith)
        requires
            weight == 1,
    ;
}

/// Removing the first byte takes away its term, the byte times the length,
/// and leaves the weights of the others as they were.
pub proof fn lemma_weighted_sum_drop_first(s: Seq<u8>)
    requires
        s.len() > 0,
    ensures
        weighted_sum(s.drop_first()) == weighted_sum(s) - s.len() * s[0],
{
    lemma_weighted_sum_upto_drop_first(s, (s.len() - 1) as nat);
}

proof fn lemma_byte_sum_upto_push(s: Seq<u8>, last: u8, k: nat)
    requires
        k <= s.len(),
    ensures
        byte_sum_upto(s.push(last), k) == byte_sum_upto(s, k),
    decreases k,
{
    if k > 0 {
        lemma_byte_sum_upto_push(s, last, (k - 1) as nat);
    }
}

proof fn lemma_byte_sum_upto_drop_first(s: Seq<u8>, k: nat)
    requires
        k < s.len(),
    ensures
        byte_sum_upto(s.drop_first(), k) == byte_sum_upto(s, k + 1) - s[0],
    decreases k,
{
    reveal_with_fuel(byte_sum_upto, 2);
    if k > 0 {
        lemma_byte_sum_upto_drop_first(s, (k - 1) as nat);
    }
}

proof fn lemma_weighted_sum_upto_push(s: Seq<u8>, last: u8, k: nat)
    requires
        k <= s.len(),
    ensures
        weighted_sum_upto(s.push(last), k) == weighted_sum_upto(s, k) + byte_sum_upto(s, k),
    decreases k,
{
    if k > 0 {
        lemma_weighted_sum_upto_push(s, last, (k - 1) as nat);
        let byte = s[k - 1] as int;
        let weight = s.len() - (k - 1);
        assert(byte * (weight + 1) == byte * weight + byte) by (nonlinear_arith);
    }
}

proof fn lemma_weighted_sum_upto_drop_first(s: Seq<u8>, k: nat)
    requires
        k < s.len(),
    ensures
        weighted_sum_upto(s.drop_first(), k) == weighted_sum_upto(s, k + 1) - s.len() * s[0],
    decreases k,
{
    reveal_with_fuel(weighted_sum_upto, 2);
    if k > 0 {
        lemma_weighted_sum_upto_drop_first(s, (k - 1) as nat);
    } else {
        assert(s[0] * (s.len() - 0) == s.len() * s[0]) by (nonlinear_arith);
    }
}

/// Reducing a weight modulo 2^16 before multiplying does not change the
/// product modulo 2^16.
proof fn lemma_weight_reduced(byte: int, weight: int)
    ensures
        (byte * (weight % 0x1_0000)) % 0x1_0000 == (byte * weight) % 0x1_0000,
{
    vstd::arithmetic::div_mod::lemma_mul_mod_noop_right(byte, weight, 0x1_0000);
}

/// Reducing modulo 2^32 first does not change a value modulo 2^16.
proof fn lemma_weight_reduced_wide(product: int)
    ensures
        (product % 0x1_0000_0000) % 0x1_0000 == product % 0x1_0000,
{
    vstd::arithmetic::div_mod::lemma_mod_mod(product, 0x1_0000, 0x1_0000);
}

/// Congruent summands have congruent sums, modulo 2^16.
proof fn lemma_add_congruent(x1: int, x2: int, y1: int, y2: int)
    requires
        x1 % 0x1_0000 == x2 % 0x1_0000,
        y1 % 0x1_0000 == y2 % 0x1_0000,
    ensures
        (x1 + y1) % 0x1_0000 == (x2 + y2) % 0x1_0000,
{
    vstd::arithmetic::div_mod::lemma_add_mod_noop(x1, y1, 0x1_0000);
    vstd::arithmetic::div_mod::lemma_add_mod_noop(x2, y2, 0x1_0000);
}

/// Congruent operands have congruent differences, modulo 2^16.
proof fn lemma_sub_congruent(x1: int, x2: int, y1: int, y2: int)
    requires
        x1 % 0x1_0000 == x2 % 0x1_0000,
        y1 % 0x1_0000 == y2 % 0x1_0000,
    ensures
        (x1 - y1) % 0x1_0000 == (x2 - y2) % 0x1_0000,
{
    vstd::arithmetic::div_mod::lemma_sub_mod_noop(x1, y1, 0x1_0000);
    vstd::arithmetic::div_mod::lemma_sub_mod_noop(x2, y2, 0x1_0000);
}

/// A value that differs from `exact` by wrapping once around 2^32, either
/// way, is congruent to it modulo 2^16.
proof fn lemma_wrap_congruent(exact: int, wrapped: int)
    requires
        wrapped == exact || wrapped == exact + 0x1_0000_0000 || wrapped == exact - 0x1_0000_0000,
    ensures
        wrapped % 0x1_0000 == exact % 0x1_0000,
{
    vstd::arithmetic::div_mod::lemma_mod_multiples_vanish(0x1_0000, exact, 0x1_0000);
    vstd::arithmetic::div_mod::lemma_mod_multiples_vanish(-0x1_0000, exact, 0x1_0000);
}

} // verus!
