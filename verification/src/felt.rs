//! Elements of the STARK prime field and their 32-byte big-endian encoding.

use vstd::arithmetic::div_mod::{lemma_fundamental_div_mod, lemma_fundamental_div_mod_converse};
use vstd::arithmetic::power2::{
    lemma2_to64, lemma2_to64_rest, lemma_pow2_adds, lemma_pow2_strictly_increases,
    lemma_pow2_unfold, pow2,
};
use vstd::prelude::*;

verus! {

/// Most significant 64-bit limb of the field modulus.
pub const MODULUS_TOP: u64 = 0x0800_0000_0000_0011;

/// The field modulus `2^251 + 17 * 2^192 + 1`.
pub open spec fn modulus() -> nat {
    0x800000000000011000000000000000000000000000000000000000000000001nat
}

/// `2^64` as a mathematical integer.
pub open spec fn radix() -> nat {
    0x1_0000_0000_0000_0000nat
}

/// The number denoted by four 64-bit limbs, most significant first.
pub open spec fn limbs_value(l3: u64, l2: u64, l1: u64, l0: u64) -> nat {
    l3 as nat * 0x1_0000_0000_0000_0000_0000_0000_0000_0000_0000_0000_0000_0000nat + l2 as nat
        * 0x1_0000_0000_0000_0000_0000_0000_0000_0000nat + l1 as nat * radix() + l0 as nat
}

/// The number denoted by the eight bytes of `s` that start at `at`, most
/// significant first.
pub open spec fn limb_at(s: Seq<u8>, at: int) -> nat {
    (s[at] as nat * 0x100_0000_0000_0000 + s[at + 1] as nat * 0x1_0000_0000_0000 + s[at
        + 2] as nat * 0x100_0000_0000 + s[at + 3] as nat * 0x1_0000_0000 + s[at + 4] as nat
        * 0x100_0000 + s[at + 5] as nat * 0x1_0000 + s[at + 6] as nat * 0x100 + s[at
        + 7] as nat) as nat
}

/// The number denoted by 32 bytes, most significant first.
pub open spec fn be_value(s: Seq<u8>) -> nat {
    limb_at(s, 0) * 0x1_0000_0000_0000_0000_0000_0000_0000_0000_0000_0000_0000_0000nat + limb_at(
        s,
        8,
    ) * 0x1_0000_0000_0000_0000_0000_0000_0000_0000nat + limb_at(s, 16) * radix() + limb_at(
        s,
        24,
    )
}

/// The eight bytes of a limb, most significant first.
pub open spec fn limb_bytes(l: u64) -> Seq<u8> {
    seq![
        (l / 0x100_0000_0000_0000) as u8,
        (l / 0x1_0000_0000_0000 % 0x100) as u8,
        (l / 0x100_0000_0000 % 0x100) as u8,
        (l / 0x1_0000_0000 % 0x100) as u8,
        (l / 0x100_0000 % 0x100) as u8,
        (l / 0x1_0000 % 0x100) as u8,
        (l / 0x100 % 0x100) as u8,
        (l % 0x100) as u8,
    ]
}

/// `2^251`: the trie keys are the elements below it.
pub open spec fn key_bound() -> nat {
    0x800000000000000000000000000000000000000000000000000000000000000nat
}

/// The low `n` binary digits of `v`, most significant first.
pub open spec fn low_bits(v: nat, n: nat) -> Seq<bool>
    decreases n,
{
    if n == 0 {
        Seq::empty()
    } else {
        low_bits(v / 2, (n - 1) as nat).push(v % 2 == 1)
    }
}

/// The number whose binary digits, most significant first, are `bits`.
pub open spec fn bits_value(bits: Seq<bool>) -> nat
    decreases bits.len(),
{
    if bits.len() == 0 {
        0
    } else {
        2 * bits_value(bits.drop_last()) + if bits.last() {
            1nat
        } else {
            0nat
        }
    }
}

/// `low_bits` yields exactly `n` digits.
pub proof fn lemma_low_bits_len(v: nat, n: nat)
    ensures
        low_bits(v, n).len() == n,
    decreases n,
{
    if n > 0 {
        lemma_low_bits_len(v / 2, (n - 1) as nat);
    }
}

/// A number below `2^n` is recovered from its low `n` digits.
pub proof fn lemma_bits_roundtrip(v: nat, n: nat)
    requires
        v < pow2(n),
    ensures
        bits_value(low_bits(v, n)) == v,
    decreases n,
{
    if n == 0 {
        lemma2_to64();
    } else {
        lemma_pow2_unfold(n);
        lemma_bits_roundtrip(v / 2, (n - 1) as nat);
        let rest = low_bits(v / 2, (n - 1) as nat);
        assert(low_bits(v, n).drop_last() =~= rest);
    }
}

/// Binary digits are recovered from the number that they denote.
pub proof fn lemma_value_roundtrip(bits: Seq<bool>)
    ensures
        low_bits(bits_value(bits), bits.len()) == bits,
    decreases bits.len(),
{
    if bits.len() > 0 {
        lemma_value_roundtrip(bits.drop_last());
        assert(low_bits(bits_value(bits), bits.len()) =~= bits);
    }
}

/// `n` binary digits denote a number below `2^n`.
pub proof fn lemma_bits_value_bound(bits: Seq<bool>)
    ensures
        bits_value(bits) < pow2(bits.len()),
    decreases bits.len(),
{
    if bits.len() == 0 {
        lemma2_to64();
    } else {
        lemma_pow2_unfold(bits.len());
        lemma_bits_value_bound(bits.drop_last());
    }
}

/// The literal `key_bound()` is `2^251`, and half of it is `2^250`.
pub proof fn lemma_key_bound()
    ensures
        key_bound() == pow2(251),
        key_bound() == 2 * pow2(250),
{
    lemma2_to64();
    lemma2_to64_rest();
    lemma_pow2_adds(64, 64);
    lemma_pow2_adds(128, 64);
    lemma_pow2_adds(192, 58);
    lemma_pow2_unfold(251);
}

/// Returned when 32 bytes denote a number that is not below the modulus.
#[derive(Clone, Copy, Debug, PartialEq, Eq, Structural)]
pub struct OutOfRange;

/// A field element, held as its canonical representative in four limbs.
#[derive(Clone, Copy, Debug, PartialEq, Eq, Structural)]
pub struct Felt {
    l3: u64,
    l2: u64,
    l1: u64,
    l0: u64,
}

impl View for Felt {
    type V = nat;

    closed spec fn view(&self) -> nat {
        limbs_value(self.l3, self.l2, self.l1, self.l0)
    }
}

/// The element with value `v`, for `v` below the modulus.
pub open spec fn felt_of(v: nat) -> Felt {
    choose|f: Felt| f@ == v
}

/// The path of a trie key: its 251 binary digits, most significant first.
pub open spec fn key_path(key: Felt) -> Seq<bool> {
    low_bits(key@, 251)
}

impl Felt {
    #[verifier::type_invariant]
    spec fn canonical(self) -> bool {
        limbs_value(self.l3, self.l2, self.l1, self.l0) < modulus()
    }

    /// The element that 32 bytes denote, limb by limb.
    pub closed spec fn decode(s: Seq<u8>) -> Felt {
        Felt {
            l3: limb_at(s, 0) as u64,
            l2: limb_at(s, 8) as u64,
            l1: limb_at(s, 16) as u64,
            l0: limb_at(s, 24) as u64,
        }
    }

    /// The 32-byte big-endian encoding.
    pub closed spec fn encode(self) -> Seq<u8> {
        limb_bytes(self.l3) + limb_bytes(self.l2) + limb_bytes(self.l1) + limb_bytes(self.l0)
    }

    /// Two elements with the same value are the same element.
    pub proof fn lemma_view_injective(a: Felt, b: Felt)
        requires
            a@ == b@,
        ensures
            a == b,
    {
        let r: int = radix() as int;
        let a1: int = a.l3 * 0x1_0000_0000_0000_0000_0000_0000_0000_0000int + a.l2 * r + a.l1;
        let b1: int = b.l3 * 0x1_0000_0000_0000_0000_0000_0000_0000_0000int + b.l2 * r + b.l1;
        lemma_fundamental_div_mod_converse(a@ as int, r, a1, a.l0 as int);
        lemma_fundamental_div_mod_converse(b@ as int, r, b1, b.l0 as int);
        let a2: int = a.l3 * r + a.l2;
        let b2: int = b.l3 * r + b.l2;
        lemma_fundamental_div_mod_converse(a1, r, a2, a.l1 as int);
        lemma_fundamental_div_mod_converse(b1, r, b2, b.l1 as int);
        lemma_fundamental_div_mod_converse(a2, r, a.l3 as int, a.l2 as int);
        lemma_fundamental_div_mod_converse(b2, r, b.l3 as int, b.l2 as int);
    }

    /// `felt_of` inverts the view.
    pub proof fn lemma_felt_of(f: Felt)
        ensures
            felt_of(f@) == f,
    {
        Felt::lemma_view_injective(felt_of(f@), f);
    }

    /// The element that 32 bytes encode, if they encode one: they do unless
    /// they denote a number that is not below the modulus.
    pub closed spec fn parse(s: Seq<u8>) -> Option<Felt> {
        if be_value(s) < modulus() {
            Some(Felt::decode(s))
        } else {
            None
        }
    }

    /// The encoding of an element has 32 bytes, denotes its value and
    /// decodes to it.
    pub proof fn lemma_encode(f: Felt)
        ensures
            f.encode().len() == 32,
            be_value(f.encode()) == f@,
            Felt::decode(f.encode()) == f,
            f@ < modulus() ==> Felt::parse(f.encode()) == Some(f),
    {
        let bytes = f.encode();
        lemma_limb_bytes_len(f.l3);
        lemma_limb_bytes_len(f.l2);
        lemma_limb_bytes_len(f.l1);
        lemma_limb_bytes_len(f.l0);
        lemma_words(limb_bytes(f.l3), limb_bytes(f.l2), limb_bytes(f.l1), limb_bytes(f.l0));
        lemma_limb_within(bytes, 0, f.l3);
        lemma_limb_within(bytes, 8, f.l2);
        lemma_limb_within(bytes, 16, f.l1);
        lemma_limb_within(bytes, 24, f.l0);
    }

    /// Every number below the modulus is the value of an element.
    pub proof fn lemma_felt_exists(v: nat)
        requires
            v < modulus(),
        ensures
            felt_of(v)@ == v,
    {
        let r: int = radix() as int;
        let q1: int = v as int / r;
        let q2: int = q1 / r;
        let q3: int = q2 / r;
        lemma_fundamental_div_mod(v as int, r);
        lemma_fundamental_div_mod(q1, r);
        lemma_fundamental_div_mod(q2, r);
        let f = Felt { l3: q3 as u64, l2: (q2 % r) as u64, l1: (q1 % r) as u64, l0: (v as int % r) as u64 };
        assert(f@ == v);
    }

    /// Every sequence of 251 binary digits is the path of a trie key.
    pub proof fn lemma_path_has_key(path: Seq<bool>)
        requires
            path.len() == 251,
        ensures
            felt_of(bits_value(path))@ < key_bound(),
            key_path(felt_of(bits_value(path))) == path,
    {
        lemma_bits_value_bound(path);
        lemma_key_bound();
        Felt::lemma_felt_exists(bits_value(path));
        lemma_value_roundtrip(path);
    }

    /// Distinct trie keys have distinct paths.
    pub proof fn lemma_key_path_injective(a: Felt, b: Felt)
        requires
            a@ < key_bound(),
            b@ < key_bound(),
            key_path(a) == key_path(b),
        ensures
            a == b,
    {
        lemma_key_bound();
        lemma_bits_roundtrip(a@, 251);
        lemma_bits_roundtrip(b@, 251);
        Felt::lemma_view_injective(a, b);
    }

    /// The additive identity.
    pub fn zero() -> (z: Felt)
        ensures
            z@ == 0,
            z == felt_of(0),
    {
        let z: Felt = Felt { l3: 0, l2: 0, l1: 0, l0: 0 };
        proof {
            Felt::lemma_felt_of(z);
        }
        z
    }

    /// The element with the value of a machine word.
    pub fn from_u64(v: u64) -> (f: Felt)
        ensures
            f@ == v,
            f == felt_of(v as nat),
    {
        let f: Felt = Felt { l3: 0, l2: 0, l1: 0, l0: v };
        proof {
            Felt::lemma_felt_of(f);
        }
        f
    }

    /// Decodes 32 big-endian bytes; fails exactly when they denote a number
    /// that is not below the modulus.
    pub fn from_be_bytes(bytes: [u8; 32]) -> (res: Result<Felt, OutOfRange>)
        ensures
            res == (if be_value(bytes@) < modulus() {
                Ok::<Felt, OutOfRange>(Felt::decode(bytes@))
            } else {
                Err::<Felt, OutOfRange>(OutOfRange)
            }),
            res matches Ok(f) ==> f@ == be_value(bytes@),
            Felt::parse(bytes@) == match res {
                Ok(f) => Some(f),
                Err(_) => None::<Felt>,
            },
    {
        let l3: u64 = read_limb(&bytes, 0);
        let l2: u64 = read_limb(&bytes, 8);
        let l1: u64 = read_limb(&bytes, 16);
        let l0: u64 = read_limb(&bytes, 24);
        if l3 < MODULUS_TOP || (l3 == MODULUS_TOP && l2 == 0 && l1 == 0 && l0 == 0) {
            Ok(Felt { l3, l2, l1, l0 })
        } else {
            Err(OutOfRange)
        }
    }

    /// The 32-byte big-endian encoding of the element.
    pub fn to_be_bytes(self) -> (bytes: [u8; 32])
        ensures
            bytes@ == self.encode(),
            be_value(bytes@) == self@,
            Felt::decode(bytes@) == self,
    {
        let mut bytes: [u8; 32] = [0u8; 32];
        write_limb(&mut bytes, 0, self.l3);
        write_limb(&mut bytes, 8, self.l2);
        write_limb(&mut bytes, 16, self.l1);
        write_limb(&mut bytes, 24, self.l0);
        proof {
            assert(bytes@ =~= self.encode());
            lemma_limb_roundtrip(self.l3);
            lemma_limb_roundtrip(self.l2);
            lemma_limb_roundtrip(self.l1);
            lemma_limb_roundtrip(self.l0);
            assert(limb_at(bytes@, 0) == limb_at(limb_bytes(self.l3), 0));
            assert(limb_at(bytes@, 8) == limb_at(limb_bytes(self.l2), 0));
            assert(limb_at(bytes@, 16) == limb_at(limb_bytes(self.l1), 0));
            assert(limb_at(bytes@, 24) == limb_at(limb_bytes(self.l0), 0));
        }
        bytes
    }

    /// Addition in the field.
    pub fn field_add(&self, other: &Felt) -> (sum: Felt)
        ensures
            sum@ == (self@ + other@) % modulus(),
            sum == felt_of((self@ + other@) % modulus()),
    {
        proof {
            use_type_invariant(self);
            use_type_invariant(other);
        }
        let s0: u128 = self.l0 as u128 + other.l0 as u128;
        let r0: u64 = (s0 % 0x1_0000_0000_0000_0000) as u64;
        let c0: u128 = s0 / 0x1_0000_0000_0000_0000;
        let s1: u128 = self.l1 as u128 + other.l1 as u128 + c0;
        let r1: u64 = (s1 % 0x1_0000_0000_0000_0000) as u64;
        let c1: u128 = s1 / 0x1_0000_0000_0000_0000;
        let s2: u128 = self.l2 as u128 + other.l2 as u128 + c1;
        let r2: u64 = (s2 % 0x1_0000_0000_0000_0000) as u64;
        let c2: u128 = s2 / 0x1_0000_0000_0000_0000;
        let s3: u128 = self.l3 as u128 + other.l3 as u128 + c2;
        let r3: u64 = s3 as u64;
        proof {
            assert(s0 == r0 + c0 * radix());
            assert(s1 == r1 + c1 * radix());
            assert(s2 == r2 + c2 * radix());
            assert(limbs_value(r3, r2, r1, r0) == self@ + other@);
        }
        let sum: Felt = reduce_once(r3, r2, r1, r0);
        proof {
            Felt::lemma_felt_of(sum);
        }
        sum
    }

    /// Half of the element's value, rounded down.
    fn halve(self) -> (h: Felt)
        ensures
            h@ == self@ / 2,
    {
        proof {
            use_type_invariant(self);
        }
        Felt {
            l3: self.l3 / 2,
            l2: self.l2 / 2 + (self.l3 % 2) * 0x8000_0000_0000_0000,
            l1: self.l1 / 2 + (self.l2 % 2) * 0x8000_0000_0000_0000,
            l0: self.l0 / 2 + (self.l1 % 2) * 0x8000_0000_0000_0000,
        }
    }

    /// Appends one binary digit to the element's value.
    fn double_plus(self, bit: bool) -> (d: Felt)
        requires
            2 * self@ < key_bound(),
        ensures
            d@ == 2 * self@ + if bit {
                1nat
            } else {
                0nat
            },
    {
        let low: u64 = if bit { 1 } else { 0 };
        Felt {
            l3: (self.l3 % 0x8000_0000_0000_0000) * 2 + self.l2 / 0x8000_0000_0000_0000,
            l2: (self.l2 % 0x8000_0000_0000_0000) * 2 + self.l1 / 0x8000_0000_0000_0000,
            l1: (self.l1 % 0x8000_0000_0000_0000) * 2 + self.l0 / 0x8000_0000_0000_0000,
            l0: (self.l0 % 0x8000_0000_0000_0000) * 2 + low,
        }
    }

    /// The low `n` binary digits of the element, most significant first.
    pub fn low_bits(self, n: usize) -> (bits: Vec<bool>)
        ensures
            bits@ == low_bits(self@, n as nat),
        decreases n,
    {
        if n == 0 {
            Vec::new()
        } else {
            let mut bits: Vec<bool> = self.halve().low_bits(n - 1);
            bits.push(self.l0 % 2 == 1);
            bits
        }
    }

    /// The 251 binary digits of a trie key, most significant first; `None`
    /// exactly when the element is `2^251` or more.
    pub fn to_path(&self) -> (path: Option<Vec<bool>>)
        ensures
            path matches Some(p) ==> self@ < key_bound() && p@ == key_path(*self),
            path is None ==> self@ >= key_bound(),
    {
        if self.l3 >= 0x0800_0000_0000_0000 {
            None
        } else {
            Some(self.low_bits(251))
        }
    }

    /// The element whose binary digits, most significant first, are `bits`;
    /// `None` exactly when there are more than 251 of them.
    pub fn from_bits(bits: &Vec<bool>) -> (f: Option<Felt>)
        ensures
            f matches Some(x) ==> bits@.len() <= 251 && x@ == bits_value(bits@) && x == felt_of(
                bits_value(bits@),
            ),
            f is None ==> bits@.len() > 251,
    {
        if bits.len() > 251 {
            return None;
        }
        let mut acc: Felt = Felt::zero();
        let mut i: usize = 0;
        while i < bits.len()
            invariant
                i <= bits.len() <= 251,
                acc@ == bits_value(bits@.take(i as int)),
            decreases bits.len() - i,
        {
            proof {
                lemma_bits_value_bound(bits@.take(i as int));
                lemma_key_bound();
                if i < 250 {
                    lemma_pow2_strictly_increases(i as nat, 250);
                }
                assert(bits@.take(i + 1).drop_last() =~= bits@.take(i as int));
            }
            acc = acc.double_plus(bits[i]);
            i += 1;
        }
        proof {
            assert(bits@.take(i as int) =~= bits@);
            Felt::lemma_felt_of(acc);
        }
        Some(acc)
    }

    /// Whether this is the additive identity.
    pub fn is_zero(&self) -> (z: bool)
        ensures
            z == (self@ == 0),
            z == (*self == felt_of(0)),
    {
        proof {
            Felt::lemma_felt_of(Felt { l3: 0, l2: 0, l1: 0, l0: 0 });
        }
        self.l3 == 0 && self.l2 == 0 && self.l1 == 0 && self.l0 == 0
    }
}

/// Brings a four-limb number below twice the modulus into the field.
fn reduce_once(r3: u64, r2: u64, r1: u64, r0: u64) -> (f: Felt)
    requires
        limbs_value(r3, r2, r1, r0) < 2 * modulus(),
    ensures
        f@ == limbs_value(r3, r2, r1, r0) % modulus(),
{
    if r3 > MODULUS_TOP || (r3 == MODULUS_TOP && (r2 != 0 || r1 != 0 || r0 != 0)) {
        let b0: u64 = if r0 == 0 { 1 } else { 0 };
        let d0: u64 = if r0 == 0 { u64::MAX } else { r0 - 1 };
        let b1: u64 = if b0 == 1 && r1 == 0 { 1 } else { 0 };
        let d1: u64 = if b0 == 0 { r1 } else if r1 == 0 { u64::MAX } else { r1 - 1 };
        let b2: u64 = if b1 == 1 && r2 == 0 { 1 } else { 0 };
        let d2: u64 = if b1 == 0 { r2 } else if r2 == 0 { u64::MAX } else { r2 - 1 };
        let d3: u64 = r3 - MODULUS_TOP - b2;
        proof {
            assert(d0 + radix() * (1 - b0) == r0 + radix() - 1);
            assert(d1 + radix() * (1 - b1) == r1 + radix() - b0);
            assert(d2 + radix() * (1 - b2) == r2 + radix() - b1);
            assert(limbs_value(d3, d2, d1, d0) + modulus() == limbs_value(r3, r2, r1, r0));
        }
        Felt { l3: d3, l2: d2, l1: d1, l0: d0 }
    } else {
        Felt { l3: r3, l2: r2, l1: r1, l0: r0 }
    }
}

pub(crate) fn read_limb(bytes: &[u8; 32], at: usize) -> (l: u64)
    requires
        at + 8 <= 32,
    ensures
        l == limb_at(bytes@, at as int),
{
    let b0: u64 = bytes[at] as u64;
    let b1: u64 = bytes[at + 1] as u64;
    let b2: u64 = bytes[at + 2] as u64;
    let b3: u64 = bytes[at + 3] as u64;
    let b4: u64 = bytes[at + 4] as u64;
    let b5: u64 = bytes[at + 5] as u64;
    let b6: u64 = bytes[at + 6] as u64;
    let b7: u64 = bytes[at + 7] as u64;
    b0 * 0x100_0000_0000_0000 + b1 * 0x1_0000_0000_0000 + b2 * 0x100_0000_0000 + b3
        * 0x1_0000_0000 + b4 * 0x100_0000 + b5 * 0x1_0000 + b6 * 0x100 + b7
}

pub(crate) fn write_limb(bytes: &mut [u8; 32], at: usize, l: u64)
    requires
        at + 8 <= 32,
    ensures
        final(bytes)@.len() == 32,
        forall|i: int| 0 <= i < 32 && !(at <= i < at + 8) ==> final(bytes)@[i] == old(bytes)@[i],
        forall|i: int| 0 <= i < 8 ==> final(bytes)@[at + i] == limb_bytes(l)[i],
{
    bytes[at] = (l / 0x100_0000_0000_0000) as u8;
    bytes[at + 1] = (l / 0x1_0000_0000_0000 % 0x100) as u8;
    bytes[at + 2] = (l / 0x100_0000_0000 % 0x100) as u8;
    bytes[at + 3] = (l / 0x1_0000_0000 % 0x100) as u8;
    bytes[at + 4] = (l / 0x100_0000 % 0x100) as u8;
    bytes[at + 5] = (l / 0x1_0000 % 0x100) as u8;
    bytes[at + 6] = (l / 0x100 % 0x100) as u8;
    bytes[at + 7] = (l % 0x100) as u8;
}

proof fn lemma_limb_bytes_len(l: u64)
    ensures
        limb_bytes(l).len() == 8,
{
}

/// Four words of eight bytes, one after the other, are found again where
/// they were put.
proof fn lemma_words(a: Seq<u8>, b: Seq<u8>, c: Seq<u8>, d: Seq<u8>)
    requires
        a.len() == 8,
        b.len() == 8,
        c.len() == 8,
        d.len() == 8,
    ensures
        (a + b + c + d).len() == 32,
        (a + b + c + d).subrange(0, 8) == a,
        (a + b + c + d).subrange(8, 16) == b,
        (a + b + c + d).subrange(16, 24) == c,
        (a + b + c + d).subrange(24, 32) == d,
{
    let s = a + b + c + d;
    assert(s.subrange(0, 8) =~= a);
    assert(s.subrange(8, 16) =~= b);
    assert(s.subrange(16, 24) =~= c);
    assert(s.subrange(24, 32) =~= d);
}

proof fn lemma_limb_within(s: Seq<u8>, at: int, l: u64)
    requires
        0 <= at,
        at + 8 <= s.len(),
        s.subrange(at, at + 8) == limb_bytes(l),
    ensures
        limb_at(s, at) == l,
{
    let w = s.subrange(at, at + 8);
    assert(w[0] == s[at] && w[1] == s[at + 1] && w[2] == s[at + 2] && w[3] == s[at + 3]);
    assert(w[4] == s[at + 4] && w[5] == s[at + 5] && w[6] == s[at + 6] && w[7] == s[at + 7]);
    assert(limb_at(s, at) == limb_at(limb_bytes(l), 0));
    lemma_limb_roundtrip(l);
}

proof fn lemma_limb_roundtrip(l: u64)
    ensures
        limb_at(limb_bytes(l), 0) == l,
{
    assert(l == (l / 0x100_0000_0000_0000) * 0x100_0000_0000_0000 + (l / 0x1_0000_0000_0000
        % 0x100) * 0x1_0000_0000_0000 + (l / 0x100_0000_0000 % 0x100) * 0x100_0000_0000 + (l
        / 0x1_0000_0000 % 0x100) * 0x1_0000_0000 + (l / 0x100_0000 % 0x100) * 0x100_0000 + (l
        / 0x1_0000 % 0x100) * 0x1_0000 + (l / 0x100 % 0x100) * 0x100 + l % 0x100)
        by (bit_vector);
    assert(l / 0x100_0000_0000_0000 < 0x100) by (bit_vector);
}

} // verus!
