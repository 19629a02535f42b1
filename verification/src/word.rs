//! Big-endian numbers: the mathematical value of a byte string, the byte
//! string of a value, and the 32-byte word and 20-byte address scalars.

use vstd::prelude::*;

verus! {

/// `256^n`.
pub open spec fn pow256(n: nat) -> nat
    decreases n,
{
    if n == 0 {
        1
    } else {
        256 * pow256((n - 1) as nat)
    }
}

/// The number that the bytes `s` spell, most significant byte first.
pub open spec fn be_nat(s: Seq<u8>) -> nat
    decreases s.len(),
{
    if s.len() == 0 {
        0
    } else {
        be_nat(s.drop_last()) * 256 + s.last() as nat
    }
}

/// The `n` low-order base-256 digits of `v`, most significant first.
pub open spec fn be_bytes(v: nat, n: nat) -> Seq<u8>
    decreases n,
{
    if n == 0 {
        Seq::empty()
    } else {
        be_bytes(v / 256, (n - 1) as nat).push((v % 256) as u8)
    }
}

/// `n` zero bytes.
pub open spec fn zeros(n: nat) -> Seq<u8> {
    Seq::new(n, |i: int| 0u8)
}

/// The 32-byte big-endian word of `v` (reduced modulo `2^256`).
pub open spec fn word_of_nat(v: nat) -> Seq<u8> {
    be_bytes(v, 32)
}

/// The 32-byte two's-complement word of `i` (reduced modulo `2^256`).
pub open spec fn word_of_int(i: int) -> Seq<u8> {
    be_bytes((i % (pow256(32) as int)) as nat, 32)
}

/// The value of the low `k` bytes of a word, read as a two's-complement
/// number of `8k` bits.
pub open spec fn signed_of(u: nat, k: nat) -> int {
    let m = u % pow256(k);
    if 2 * m >= pow256(k) {
        m - pow256(k)
    } else {
        m as int
    }
}

/// A power of 256 is at least 1.
pub proof fn lemma_pow256_pos(n: nat)
    ensures
        pow256(n) >= 1,
    decreases n,
{
    if n > 0 {
        lemma_pow256_pos((n - 1) as nat);
    }
}

/// `256^(a+b)` is `256^a * 256^b`.
pub proof fn lemma_pow256_add(a: nat, b: nat)
    ensures
        pow256(a + b) == pow256(a) * pow256(b),
    decreases a,
{
    let pb = pow256(b) as int;
    if a == 0 {
        assert(pow256(0) == 1);
        assert(1 * pb == pb) by (nonlinear_arith);
    } else {
        let pa = pow256((a - 1) as nat) as int;
        lemma_pow256_add((a - 1) as nat, b);
        assert(pow256(a + b) == 256 * pow256((a - 1 + b) as nat));
        assert(pow256(a) == 256 * pa);
        assert(256 * (pa * pb) == (256 * pa) * pb) by (nonlinear_arith);
    }
}

/// A greater exponent gives no smaller a power of 256.
pub proof fn lemma_pow256_mono(a: nat, b: nat)
    requires
        a <= b,
    ensures
        pow256(a) <= pow256(b),
    decreases b,
{
    if a < b {
        lemma_pow256_mono(a, (b - 1) as nat);
        lemma_pow256_pos((b - 1) as nat);
    }
}

/// Some powers of 256.
pub proof fn lemma_pow256_values()
    ensures
        pow256(0) == 1,
        pow256(1) == 256,
        pow256(2) == 0x1_0000,
        pow256(4) == 0x1_0000_0000,
        pow256(8) == 0x1_0000_0000_0000_0000,
        pow256(16) == 0x1_0000_0000_0000_0000_0000_0000_0000_0000,
{
    reveal_with_fuel(pow256, 17);
}

/// The number that `n` bytes spell is below `256^n`.
pub proof fn lemma_be_nat_bound(s: Seq<u8>)
    ensures
        be_nat(s) < pow256(s.len()),
    decreases s.len(),
{
    if s.len() > 0 {
        lemma_be_nat_bound(s.drop_last());
    }
}

/// The `n` digits of a number are `n` bytes.
pub proof fn lemma_be_bytes_len(v: nat, n: nat)
    ensures
        be_bytes(v, n).len() == n,
    decreases n,
{
    if n > 0 {
        lemma_be_bytes_len(v / 256, (n - 1) as nat);
    }
}

/// Reading back the `n` digits of `v` gives `v` modulo `256^n`.
pub proof fn lemma_be_nat_of_bytes(v: nat, n: nat)
    ensures
        be_nat(be_bytes(v, n)) == v % pow256(n),
    decreases n,
{
    lemma_pow256_pos(n);
    if n == 0 {
    } else {
        let m = (n - 1) as nat;
        let s = be_bytes(v, n);
        lemma_be_nat_of_bytes(v / 256, m);
        lemma_pow256_pos(m);
        assert(s.drop_last() =~= be_bytes(v / 256, m));
        assert(s.last() == (v % 256) as u8);
        let p = pow256(m) as int;
        let q = (v / 256) as int;
        assert(be_nat(s) == (q % p) * 256 + v % 256);
        assert(v as int == 256 * q + v % 256);
        assert(((256 * q + v % 256) % (256 * p)) == (q % p) * 256 + v % 256) by {
            lemma_mod_breakdown(v as int, p);
        }
    }
}

/// The remainder by `256 * p`, from the remainder by 256 and the remainder
/// of the quotient by `p`.
proof fn lemma_mod_breakdown(v: int, p: int)
    requires
        v >= 0,
        p >= 1,
    ensures
        v % (256 * p) == ((v / 256) % p) * 256 + v % 256,
{
    vstd::arithmetic::div_mod::lemma_breakdown(v, 256, p);
    assert(256 * p == p * 256) by (nonlinear_arith);
    assert(256 * ((v / 256) % p) == ((v / 256) % p) * 256) by (nonlinear_arith);
}

/// The digits of the number that `s` spells are `s`.
pub proof fn lemma_be_bytes_of_nat(s: Seq<u8>)
    ensures
        be_bytes(be_nat(s), s.len()) == s,
    decreases s.len(),
{
    if s.len() == 0 {
        assert(be_bytes(be_nat(s), 0) =~= s);
    } else {
        let v = be_nat(s);
        let r = be_nat(s.drop_last());
        lemma_be_bytes_of_nat(s.drop_last());
        assert(v == r * 256 + s.last() as nat);
        assert(v / 256 == r && v % 256 == s.last() as nat) by {
            vstd::arithmetic::div_mod::lemma_fundamental_div_mod_converse(
                v as int,
                256,
                r as int,
                s.last() as int,
            );
        }
        assert(be_bytes(v, s.len()) =~= s);
    }
}

/// Two byte strings of one length that spell the same number are equal.
pub proof fn lemma_be_nat_injective(a: Seq<u8>, b: Seq<u8>)
    requires
        a.len() == b.len(),
        be_nat(a) == be_nat(b),
    ensures
        a == b,
{
    lemma_be_bytes_of_nat(a);
    lemma_be_bytes_of_nat(b);
}

/// The number of two byte strings one after the other.
pub proof fn lemma_be_nat_concat(a: Seq<u8>, b: Seq<u8>)
    ensures
        be_nat(a + b) == be_nat(a) * pow256(b.len()) + be_nat(b),
    decreases b.len(),
{
    let x = be_nat(a) as int;
    if b.len() == 0 {
        assert(a + b =~= a);
        assert(x * 1 == x) by (nonlinear_arith);
    } else {
        let c = b.drop_last();
        lemma_be_nat_concat(a, c);
        assert((a + b).drop_last() =~= a + c);
        assert((a + b).last() == b.last());
        let p = pow256(c.len()) as int;
        let y = be_nat(c) as int;
        assert(pow256(b.len()) == 256 * p);
        assert(be_nat(a + b) == (x * p + y) * 256 + b.last() as nat);
        assert((x * p + y) * 256 == x * (256 * p) + y * 256) by (nonlinear_arith);
    }
}

/// Zero bytes spell zero.
pub proof fn lemma_be_nat_zeros(n: nat)
    ensures
        be_nat(zeros(n)) == 0,
    decreases n,
{
    if n > 0 {
        lemma_be_nat_zeros((n - 1) as nat);
        assert(zeros(n).drop_last() =~= zeros((n - 1) as nat));
    }
}

/// A byte string spells zero only if every byte is zero.
pub proof fn lemma_be_nat_zero_iff(s: Seq<u8>)
    ensures
        be_nat(s) == 0 <==> s == zeros(s.len()),
    decreases s.len(),
{
    if s.len() == 0 {
        assert(s =~= zeros(0));
    } else {
        lemma_be_nat_zero_iff(s.drop_last());
        lemma_be_nat_zeros(s.len());
        if be_nat(s) == 0 {
            assert(s.drop_last() == zeros((s.len() - 1) as nat));
            assert(s =~= zeros(s.len())) by {
                assert forall|i: int| 0 <= i < s.len() implies s[i] == 0u8 by {
                    if i < s.len() - 1 {
                        assert(s.drop_last()[i] == 0u8);
                    }
                }
            }
        }
    }
}

/// `n` bytes `0xff`.
pub open spec fn ones(n: nat) -> Seq<u8> {
    Seq::new(n, |i: int| 0xffu8)
}

/// Whether `v` fits an unsigned integer of `bits` bits, `bits` a multiple of 8.
pub open spec fn uint_fits(v: nat, bits: nat) -> bool {
    v < pow256(bits / 8)
}

/// Whether `i` fits a two's-complement integer of `bits` bits, `bits` a
/// multiple of 8.
pub open spec fn int_fits(i: int, bits: nat) -> bool {
    -(pow256(bits / 8) as int) <= 2 * i < pow256(bits / 8)
}

/// `n` bytes `0xff` spell `256^n - 1`.
pub proof fn lemma_be_nat_ones(n: nat)
    ensures
        be_nat(ones(n)) + 1 == pow256(n),
    decreases n,
{
    if n > 0 {
        lemma_be_nat_ones((n - 1) as nat);
        assert(ones(n).drop_last() =~= ones((n - 1) as nat));
    }
}

/// The digit of `v` that stands at place `i` of its `n` digits.
pub proof fn lemma_be_bytes_index(v: nat, n: nat, i: int)
    requires
        0 <= i < n,
    ensures
        be_bytes(v, n).len() == n,
        be_bytes(v, n)[i] as nat == (v / pow256((n - 1 - i) as nat)) % 256,
    decreases n,
{
    lemma_be_bytes_len(v, n);
    lemma_be_bytes_len(v / 256, (n - 1) as nat);
    if i == n - 1 {
        assert(v / 1 == v);
    } else {
        lemma_be_bytes_index(v / 256, (n - 1) as nat, i);
        let e = (n - 2 - i) as nat;
        lemma_pow256_pos(e);
        assert(pow256((n - 1 - i) as nat) == 256 * pow256(e));
        vstd::arithmetic::div_mod::lemma_div_denominator(v as int, 256, pow256(e) as int);
    }
}

/// Splits the number of a byte string at `k` bytes from its end.
pub proof fn lemma_be_nat_split(s: Seq<u8>, k: nat)
    requires
        k <= s.len(),
    ensures
        be_nat(s) == be_nat(s.subrange(0, s.len() - k)) * pow256(k) + be_nat(
            s.subrange(s.len() - k, s.len() as int),
        ),
        be_nat(s.subrange(s.len() - k, s.len() as int)) < pow256(k),
        be_nat(s.subrange(s.len() - k, s.len() as int)) == be_nat(s) % pow256(k),
        be_nat(s.subrange(0, s.len() - k)) == be_nat(s) / pow256(k),
{
    let hi = s.subrange(0, s.len() - k);
    let lo = s.subrange(s.len() - k, s.len() as int);
    assert(s =~= hi + lo);
    lemma_be_nat_concat(hi, lo);
    lemma_be_nat_bound(lo);
    lemma_pow256_pos(k);
    vstd::arithmetic::div_mod::lemma_fundamental_div_mod_converse(
        be_nat(s) as int,
        pow256(k) as int,
        be_nat(hi) as int,
        be_nat(lo) as int,
    );
}

/// A word has 32 bytes.
pub proof fn lemma_word_len(v: nat, i: int)
    ensures
        word_of_nat(v).len() == 32,
        word_of_int(i).len() == 32,
{
    lemma_be_bytes_len(v, 32);
    lemma_be_bytes_len((i % (pow256(32) as int)) as nat, 32);
}

/// The word of a number that fits a word reads back as that number.
pub proof fn lemma_word_of_nat_value(v: nat)
    requires
        v < pow256(32),
    ensures
        be_nat(word_of_nat(v)) == v,
{
    lemma_be_nat_of_bytes(v, 32);
    vstd::arithmetic::div_mod::lemma_small_mod(v, pow256(32));
}

/// A word is the word of the unsigned number it spells, and of the signed
/// number it spells.
pub proof fn lemma_word_of_own_value(w: Seq<u8>)
    requires
        w.len() == 32,
    ensures
        word_of_nat(be_nat(w)) == w,
        word_of_int(signed_of(be_nat(w), 32)) == w,
{
    lemma_be_bytes_of_nat(w);
    lemma_be_nat_bound(w);
    let u = be_nat(w);
    let p = pow256(32);
    vstd::arithmetic::div_mod::lemma_small_mod(u, p);
    let i = signed_of(u, 32);
    if i != u as int {
        vstd::arithmetic::div_mod::lemma_mod_add_multiples_vanish(i, p as int);
    }
}

/// A number that fits `8k` bits is read back, as a signed number of `8k`
/// bits, from its two's-complement word.
pub proof fn lemma_signed_of_mod(i: int, k: nat)
    requires
        k <= 32,
        -(pow256(k) as int) <= 2 * i < pow256(k),
    ensures
        signed_of((i % (pow256(32) as int)) as nat, k) == i,
{
    let p = pow256(k) as int;
    let q = pow256((32 - k) as nat) as int;
    lemma_pow256_pos(k);
    lemma_pow256_pos((32 - k) as nat);
    lemma_pow256_add(k, (32 - k) as nat);
    assert(pow256(32) == p * q);
    let u = i % (p * q);
    assert(p * q >= 1) by (nonlinear_arith)
        requires
            p >= 1,
            q >= 1,
    ;
    vstd::arithmetic::div_mod::lemma_mod_mod(i, p, q);
    assert(u % p == i % p);
    if i >= 0 {
        vstd::arithmetic::div_mod::lemma_small_mod(i as nat, p as nat);
    } else {
        vstd::arithmetic::div_mod::lemma_small_mod((i + p) as nat, p as nat);
        vstd::arithmetic::div_mod::lemma_mod_add_multiples_vanish(i, p);
    }
}

/// A 32-byte word, most significant byte first: an integer of up to 256
/// bits, or a hash.
#[derive(Debug, Clone, Copy, PartialEq, Eq)]
pub struct Word {
    pub bytes: [u8; 32],
}

impl View for Word {
    type V = Seq<u8>;

    open spec fn view(&self) -> Seq<u8> {
        self.bytes@
    }
}

/// A 20-byte account id.
#[derive(Debug, Clone, Copy, PartialEq, Eq)]
pub struct Address {
    pub bytes: [u8; 20],
}

impl View for Address {
    type V = Seq<u8>;

    open spec fn view(&self) -> Seq<u8> {
        self.bytes@
    }
}

/// Whether the two byte strings are equal.
pub fn bytes_eq(a: &[u8], b: &[u8]) -> (same: bool)
    ensures
        same == (a@ == b@),
{
    if a.len() != b.len() {
        return false;
    }
    let mut i: usize = 0;
    while i < a.len()
        invariant
            i <= a.len(),
            a.len() == b.len(),
            forall|j: int| 0 <= j < i ==> a@[j] == b@[j],
        decreases a.len() - i,
    {
        if a[i] != b[i] {
            return false;
        }
        i += 1;
    }
    assert(a@ =~= b@);
    true
}

impl Word {
    /// The word read as an unsigned number.
    pub open spec fn as_nat(self) -> nat {
        be_nat(self.bytes@)
    }

    /// The word read as a two's-complement number of 256 bits.
    pub open spec fn as_int(self) -> int {
        signed_of(be_nat(self.bytes@), 32)
    }

    /// The word of 32 zero bytes.
    pub fn zero() -> (w: Word)
        ensures
            w@ == zeros(32),
            w.as_nat() == 0,
    {
        let w = Word { bytes: [0u8; 32] };
        assert(w@ =~= zeros(32));
        proof {
            lemma_be_nat_zeros(32);
        }
        w
    }

    /// The word that holds the bytes `bs[at..at + 32]`.
    pub(crate) fn from_slice(bs: &[u8], at: usize) -> (w: Word)
        requires
            at + 32 <= bs.len(),
        ensures
            w@ == bs@.subrange(at as int, at + 32),
    {
        let mut bytes = [0u8; 32];
        let mut i: usize = 0;
        while i < 32
            invariant
                i <= 32,
                at + 32 <= bs.len(),
                forall|j: int| 0 <= j < i ==> bytes@[j] == bs@[at + j],
            decreases 32 - i,
        {
            bytes[i] = bs[at + i];
            i += 1;
        }
        let w = Word { bytes };
        assert(w@ =~= bs@.subrange(at as int, at + 32));
        w
    }

    /// The word that holds the bytes `bytes`.
    pub fn from_bytes(bytes: [u8; 32]) -> (w: Word)
        ensures
            w@ == bytes@,
    {
        Word { bytes }
    }

    /// The bytes of the word.
    pub fn to_bytes(&self) -> (bytes: [u8; 32])
        ensures
            bytes@ == self@,
    {
        self.bytes
    }

    /// The word of the unsigned number `v`.
    pub fn from_u128(v: u128) -> (w: Word)
        ensures
            w.as_nat() == v,
            w@ == word_of_nat(v as nat),
    {
        let mut bytes = [0u8; 32];
        let mut x: u128 = v;
        let mut j: usize = 0;
        proof {
            assert(v as nat / 1 == v as nat);
        }
        while j < 16
            invariant
                j <= 16,
                x as nat == (v as nat) / pow256(j as nat),
                forall|i: int|
                    32 - j <= i < 32 ==> bytes@[i] as nat == ((v as nat) / pow256(
                        (31 - i) as nat,
                    )) % 256,
                forall|i: int| 0 <= i < 32 - j ==> bytes@[i] == 0,
            decreases 16 - j,
        {
            bytes[31 - j] = (x % 256) as u8;
            proof {
                lemma_pow256_pos(j as nat);
                assert(pow256((j + 1) as nat) == 256 * pow256(j as nat));
                vstd::arithmetic::div_mod::lemma_div_denominator(
                    v as int,
                    pow256(j as nat) as int,
                    256,
                );
                assert(pow256(j as nat) * 256 == 256 * pow256(j as nat));
            }
            x = x / 256;
            j += 1;
        }
        let w = Word { bytes };
        proof {
            lemma_pow256_values();
            assert(x == 0) by {
                vstd::arithmetic::div_mod::lemma_basic_div(v as int, pow256(16) as int);
            }
            assert forall|i: int| 0 <= i < 32 implies w@[i] == be_bytes(v as nat, 32)[i] by {
                lemma_be_bytes_index(v as nat, 32, i);
                if i < 16 {
                    lemma_pow256_mono(16, (31 - i) as nat);
                    vstd::arithmetic::div_mod::lemma_basic_div(
                        v as int,
                        pow256((31 - i) as nat) as int,
                    );
                }
            }
            lemma_be_bytes_len(v as nat, 32);
            assert(w@ =~= be_bytes(v as nat, 32));
            lemma_be_nat_of_bytes(v as nat, 32);
            lemma_pow256_mono(16, 32);
            vstd::arithmetic::div_mod::lemma_small_mod(v as nat, pow256(32));
        }
        w
    }

    /// The word of the unsigned number `v`.
    pub fn from_u64(v: u64) -> (w: Word)
        ensures
            w.as_nat() == v,
            w@ == word_of_nat(v as nat),
    {
        Word::from_u128(v as u128)
    }

    /// The word of the unsigned number `v`.
    pub fn from_usize(v: usize) -> (w: Word)
        ensures
            w.as_nat() == v,
            w@ == word_of_nat(v as nat),
    {
        Word::from_u128(v as u128)
    }

    /// The word of the signed number `v`, in two's complement.
    pub fn from_i128(v: i128) -> (w: Word)
        ensures
            w.as_int() == v,
    {
        proof {
            lemma_pow256_values();
            lemma_pow256_add(16, 16);
        }
        if v >= 0 {
            let w = Word::from_u128(v as u128);
            proof {
                vstd::arithmetic::div_mod::lemma_small_mod(v as nat, pow256(32));
            }
            w
        } else {
            let low: u128 = u128::MAX - ((-(v + 1)) as u128);
            let positive = Word::from_u128(low);
            let mut bytes = positive.bytes;
            let mut i: usize = 0;
            while i < 16
                invariant
                    i <= 16,
                    forall|j: int| 0 <= j < i ==> bytes@[j] == 0xff,
                    forall|j: int| i <= j < 32 ==> bytes@[j] == positive@[j],
                decreases 16 - i,
            {
                bytes[i] = 0xff;
                i += 1;
            }
            let w = Word { bytes };
            proof {
                let p = pow256(16) as int;
                lemma_be_nat_split(positive@, 16);
                lemma_be_nat_split(w@, 16);
                assert(w@.subrange(16, 32) =~= positive@.subrange(16, 32));
                assert(w@.subrange(0, 16) =~= ones(16));
                lemma_be_nat_ones(16);
                vstd::arithmetic::div_mod::lemma_small_mod(low as nat, p as nat);
                let u = be_nat(w@) as int;
                assert(u == (p - 1) * p + low);
                assert((p - 1) * p + low == p * p + v) by (nonlinear_arith)
                    requires
                        low == p + v,
                ;
                assert(pow256(32) == p * p);
                vstd::arithmetic::div_mod::lemma_small_mod(u as nat, (p * p) as nat);
            }
            w
        }
    }

    /// The word of the signed number `v`, in two's complement.
    pub fn from_i64(v: i64) -> (w: Word)
        ensures
            w.as_int() == v,
    {
        Word::from_i128(v as i128)
    }

    /// The number of the word, or `None` where it does not fit a `usize`.
    pub fn to_usize(&self) -> (r: Option<usize>)
        ensures
            match r {
                Some(n) => n == self.as_nat(),
                None => self.as_nat() > usize::MAX,
            },
    {
        let mut acc: usize = 0;
        let mut i: usize = 0;
        proof {
            assert(self@.take(0) =~= Seq::<u8>::empty());
        }
        while i < 32
            invariant
                i <= 32,
                acc as nat == be_nat(self@.take(i as int)),
            decreases 32 - i,
        {
            proof {
                let pre = self@.take(i + 1);
                assert(pre.drop_last() =~= self@.take(i as int));
                assert(pre.last() == self@[i as int]);
                assert(self@ =~= pre + self@.skip(i + 1));
                lemma_be_nat_concat(pre, self@.skip(i + 1));
                lemma_pow256_pos((31 - i) as nat);
                assert(be_nat(pre) * pow256((31 - i) as nat) >= be_nat(pre)) by (nonlinear_arith)
                    requires
                        pow256((31 - i) as nat) >= 1,
                ;
            }
            let shifted = match acc.checked_mul(256) {
                None => {
                    return None;
                },
                Some(m) => m,
            };
            acc = match shifted.checked_add(self.bytes[i] as usize) {
                None => {
                    return None;
                },
                Some(a) => a,
            };
            i += 1;
        }
        assert(self@.take(32) =~= self@);
        Some(acc)
    }

    /// Whether every byte of the word is zero.
    pub fn is_zero(&self) -> (z: bool)
        ensures
            z == (self.as_nat() == 0),
    {
        let mut i: usize = 0;
        while i < 32
            invariant
                i <= 32,
                forall|j: int| 0 <= j < i ==> self@[j] == 0,
            decreases 32 - i,
        {
            if self.bytes[i] != 0 {
                proof {
                    lemma_be_nat_zero_iff(self@);
                    assert(zeros(32)[i as int] == 0);
                }
                return false;
            }
            i += 1;
        }
        proof {
            lemma_be_nat_zero_iff(self@);
            assert(self@ =~= zeros(32));
        }
        true
    }

    /// Whether the number of the word fits an unsigned integer of `bits`
    /// bits.
    pub(crate) fn fits_uint(&self, bits: usize) -> (ok: bool)
        requires
            0 < bits <= 256,
            bits % 8 == 0,
        ensures
            ok == uint_fits(self.as_nat(), bits as nat),
    {
        let k: usize = bits / 8;
        let ghost hi = self@.subrange(0, 32 - k);
        proof {
            lemma_be_nat_split(self@, k as nat);
            lemma_pow256_pos(k as nat);
            assert(be_nat(hi) == 0 <==> be_nat(self@) < pow256(k as nat)) by (nonlinear_arith)
                requires
                    be_nat(self@) == be_nat(hi) * pow256(k as nat) + be_nat(
                        self@.subrange(32 - k, 32),
                    ),
                    be_nat(self@.subrange(32 - k, 32)) < pow256(k as nat),
            ;
        }
        let ghost fits = uint_fits(self.as_nat(), bits as nat);
        let mut i: usize = 0;
        while i < 32 - k
            invariant
                i <= 32 - k,
                k <= 32,
                hi == self@.subrange(0, 32 - k),
                fits == uint_fits(self.as_nat(), bits as nat),
                fits == (be_nat(hi) == 0),
                forall|j: int| 0 <= j < i ==> self@[j] == 0,
            decreases 32 - k - i,
        {
            if self.bytes[i] != 0 {
                proof {
                    lemma_be_nat_zero_iff(hi);
                    assert(hi[i as int] != 0);
                    assert(zeros(hi.len())[i as int] == 0);
                }
                return false;
            }
            i += 1;
        }
        proof {
            lemma_be_nat_zero_iff(hi);
            assert(hi =~= zeros(hi.len()));
        }
        true
    }

    /// The word of the low `bits` bits of this word, read as an unsigned
    /// number.
    pub(crate) fn truncate_uint(&self, bits: usize) -> (w: Word)
        requires
            0 < bits <= 256,
            bits % 8 == 0,
        ensures
            w.as_nat() == self.as_nat() % pow256(bits as nat / 8),
    {
        let k: usize = bits / 8;
        let mut bytes = self.bytes;
        let mut i: usize = 0;
        while i < 32 - k
            invariant
                i <= 32 - k,
                k <= 32,
                forall|j: int| 0 <= j < i ==> bytes@[j] == 0,
                forall|j: int| i <= j < 32 ==> bytes@[j] == self@[j],
            decreases 32 - k - i,
        {
            bytes[i] = 0;
            i += 1;
        }
        let w = Word { bytes };
        proof {
            lemma_be_nat_split(self@, k as nat);
            lemma_be_nat_split(w@, k as nat);
            assert(w@.subrange(32 - k, 32) =~= self@.subrange(32 - k, 32));
            assert(w@.subrange(0, 32 - k) =~= zeros((32 - k) as nat));
            lemma_be_nat_zeros((32 - k) as nat);
            assert(0 * pow256(k as nat) == 0) by (nonlinear_arith);
        }
        w
    }

    /// The word of the low `bits` bits of this word, read as a
    /// two's-complement number and extended to 256 bits.
    pub(crate) fn sign_extend(&self, bits: usize) -> (w: Word)
        requires
            0 < bits <= 256,
            bits % 8 == 0,
        ensures
            w.as_int() == signed_of(self.as_nat(), bits as nat / 8),
            int_fits(w.as_int(), bits as nat),
    {
        let k: usize = bits / 8;
        let negative = self.bytes[32 - k] >= 0x80;
        let fill: u8 = if negative {
            0xff
        } else {
            0
        };
        let mut bytes = self.bytes;
        let mut i: usize = 0;
        while i < 32 - k
            invariant
                i <= 32 - k,
                1 <= k <= 32,
                forall|j: int| 0 <= j < i ==> bytes@[j] == fill,
                forall|j: int| i <= j < 32 ==> bytes@[j] == self@[j],
            decreases 32 - k - i,
        {
            bytes[i] = fill;
            i += 1;
        }
        let w = Word { bytes };
        proof {
            let lo = self@.subrange(32 - k, 32);
            let m = be_nat(lo);
            let pk = pow256(k as nat) as int;
            let pk1 = pow256((k - 1) as nat) as int;
            let ph = pow256((32 - k) as nat) as int;
            lemma_be_nat_split(self@, k as nat);
            lemma_be_nat_split(w@, k as nat);
            assert(w@.subrange(32 - k, 32) =~= lo);
            lemma_pow256_pos(k as nat);
            lemma_pow256_pos((k - 1) as nat);
            lemma_pow256_pos((32 - k) as nat);
            lemma_pow256_add((32 - k) as nat, k as nat);
            assert(pow256(32) == ph * pk);
            assert(pk == 256 * pk1);
            // the sign bit of the low part
            lemma_be_nat_split(lo, (k - 1) as nat);
            let top = lo.subrange(0, 1);
            assert(top.drop_last() =~= Seq::<u8>::empty());
            assert(be_nat(top.drop_last()) == 0);
            assert(top.last() == lo[0]);
            assert(be_nat(top) == lo[0] as nat);
            assert(lo[0] == self@[32 - k]);
            let rest = be_nat(lo.subrange(1, k as int));
            assert(m == lo[0] as nat * pk1 + rest);
            assert(negative <==> 2 * m >= pk) by (nonlinear_arith)
                requires
                    m == lo[0] as nat * pk1 + rest,
                    0 <= rest < pk1,
                    pk == 256 * pk1,
                    negative <==> lo[0] >= 128,
            ;
            let hi = w@.subrange(0, 32 - k);
            if negative {
                assert(hi =~= ones((32 - k) as nat));
                lemma_be_nat_ones((32 - k) as nat);
                assert(be_nat(w@) == (ph - 1) * pk + m);
                assert((ph - 1) * pk + m == ph * pk - pk + m) by (nonlinear_arith);
                assert(ph * pk >= pk) by (nonlinear_arith)
                    requires
                        ph >= 1,
                        pk >= 1,
                ;
                let u = be_nat(w@) as int;
                assert(u == ph * pk - pk + m);
                assert(0 <= u < ph * pk);
                vstd::arithmetic::div_mod::lemma_small_mod(u as nat, (ph * pk) as nat);
                assert(2 * u >= ph * pk) by (nonlinear_arith)
                    requires
                        u == ph * pk - pk + m,
                        2 * m >= pk,
                        ph >= 1,
                        pk >= 1,
                ;
            } else {
                assert(hi =~= zeros((32 - k) as nat));
                lemma_be_nat_zeros((32 - k) as nat);
                assert(0 * pk == 0) by (nonlinear_arith);
                let u = be_nat(w@) as int;
                assert(u == m);
                assert(u < ph * pk && 2 * u < ph * pk) by (nonlinear_arith)
                    requires
                        u == m,
                        2 * m < pk,
                        m >= 0,
                        ph >= 1,
                        pk >= 1,
                ;
                vstd::arithmetic::div_mod::lemma_small_mod(u as nat, (ph * pk) as nat);
            }
        }
        w
    }

    /// Whether the word, read as a two's-complement number of 256 bits,
    /// fits one of `bits` bits.
    pub(crate) fn fits_int(&self, bits: usize) -> (ok: bool)
        requires
            0 < bits <= 256,
            bits % 8 == 0,
        ensures
            ok == int_fits(self.as_int(), bits as nat),
    {
        let ext = self.sign_extend(bits);
        let same = bytes_eq(&self.bytes, &ext.bytes);
        proof {
            let k = bits as nat / 8;
            lemma_be_nat_bound(self@);
            lemma_be_nat_bound(ext@);
            lemma_pow256_pos(32);
            if int_fits(self.as_int(), bits as nat) {
                let i = self.as_int();
                let u = be_nat(self@) as int;
                let p = pow256(32) as int;
                assert(i % p == u) by {
                    vstd::arithmetic::div_mod::lemma_small_mod(u as nat, p as nat);
                    if i != u {
                        vstd::arithmetic::div_mod::lemma_mod_add_multiples_vanish(i, p);
                    }
                }
                lemma_signed_of_mod(i, k);
                assert(ext.as_int() == i);
                vstd::arithmetic::div_mod::lemma_small_mod(be_nat(ext@), p as nat);
                vstd::arithmetic::div_mod::lemma_small_mod(be_nat(self@), p as nat);
                assert(be_nat(ext@) == be_nat(self@));
                lemma_be_nat_injective(self@, ext@);
            }
        }
        same
    }
}

} // verus!
