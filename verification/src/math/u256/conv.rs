//! Conversions between identifiers, byte arrays and the primitive integers.

use super::value::{
    be_value, le_value, lemma_be_value_zero, lemma_le_value_ext, lemma_pow256_positive,
    lemma_split, pow256,
};
use super::U256;
use crate::math::ArithmeticError;
use vstd::prelude::*;
use vstd::std_specs::convert::{FromSpecImpl, TryFromSpecImpl};

verus! {

/// The powers of 256 that bound the primitive integers.
pub proof fn lemma_pow256_values()
    ensures
        pow256(0) == 1,
        pow256(1) == 0x100,
        pow256(2) == 0x1_0000,
        pow256(4) == 0x1_0000_0000,
        pow256(8) == 0x1_0000_0000_0000_0000,
        pow256(16) == 0x1_0000_0000_0000_0000_0000_0000_0000_0000,
{
    reveal_with_fuel(pow256, 17);
}

/// `pow256` grows with its exponent.
pub proof fn lemma_pow256_monotonic(a: nat, b: nat)
    requires
        a <= b,
    ensures
        pow256(a) <= pow256(b),
    decreases b,
{
    if a < b {
        lemma_pow256_monotonic(a, (b - 1) as nat);
    }
}

/// The identifier that stands for `v`.
fn from_u128(v: u128) -> (out: U256)
    ensures
        out.to_nat() == v,
        out == U256::of_nat(v as nat),
{
    let mut out = [0u8; 32];
    let mut rest: u128 = v;
    let mut n: usize = 0;
    proof {
        assert(rest * pow256(0) == v) by (nonlinear_arith)
            requires
                rest == v,
                pow256(0) == 1,
        ;
    }
    while n < 32
        invariant
            n <= 32,
            le_value(out@, n as nat) + rest * pow256(n as nat) == v,
        decreases 32 - n,
    {
        let idx = 31 - n;
        let ghost prev = out@;
        let ghost before = rest as int;
        out[idx] = (rest % 256) as u8;
        rest = rest / 256;
        proof {
            lemma_le_value_ext(prev, out@, n as nat);
            let p = pow256(n as nat) as int;
            let lo = (before % 256) as int;
            let hi = rest as int;
            assert(pow256((n + 1) as nat) == 256 * p);
            assert(lo * p + hi * (256 * p) == before * p) by (nonlinear_arith)
                requires
                    before == 256 * hi + lo,
            ;
        }
        n += 1;
    }
    let out = U256(out);
    proof {
        lemma_pow256_values();
        lemma_pow256_monotonic(16, 32);
        lemma_split(out@, 0);
        let m = pow256(32) as int;
        let r = rest as int;
        assert(r == 0) by (nonlinear_arith)
            requires
                r * m <= v,
                v < m,
                r >= 0,
        ;
        assert(rest * pow256(32) == 0) by (nonlinear_arith)
            requires
                rest == 0,
        ;
        U256::lemma_of_nat(v as nat);
        vstd::arithmetic::div_mod::lemma_small_mod(v as nat, pow256(32));
        U256::lemma_to_nat_injective(out, U256::of_nat(v as nat));
    }
    out
}

/// The number an identifier stands for, when it fits in `width` bytes.
fn to_u128(a: &U256, width: usize) -> (r: Option<u128>)
    requires
        1 <= width <= 16,
    ensures
        a.to_nat() < pow256(width as nat) ==> r == Some(a.to_nat() as u128),
        a.to_nat() >= pow256(width as nat) ==> r is None,
{
    let lead = 32 - width;
    let mut i: usize = 0;
    while i < lead
        invariant
            i <= lead == 32 - width,
            1 <= width <= 16,
            forall|j: int| 0 <= j < i ==> a@[j] == 0,
        decreases lead - i,
    {
        if a.0[i] != 0 {
            proof {
                let rest = (31 - i) as nat;
                lemma_split(a@, (i + 1) as nat);
                lemma_be_value_zero(a@, i as nat);
                lemma_pow256_monotonic(width as nat, rest);
                let p = pow256(rest);
                let b = a@[i as int] as nat;
                assert(be_value(a@, (i + 1) as nat) == b);
                assert(b * p >= p) by (nonlinear_arith)
                    requires
                        b >= 1,
                ;
            }
            return None;
        }
        i += 1;
    }
    let mut acc: u128 = 0;
    let mut n: usize = lead;
    proof {
        lemma_be_value_zero(a@, lead as nat);
        lemma_pow256_values();
    }
    while n < 32
        invariant
            lead <= n <= 32,
            lead == 32 - width,
            1 <= width <= 16,
            acc == be_value(a@, n as nat),
            acc < pow256((n - lead) as nat),
        decreases 32 - n,
    {
        proof {
            lemma_pow256_values();
            lemma_pow256_monotonic((n - lead + 1) as nat, 16);
            assert(pow256((n - lead + 1) as nat) == 256 * pow256((n - lead) as nat));
        }
        acc = acc * 256 + a.0[n] as u128;
        n += 1;
    }
    Some(acc)
}

impl From<[u8; 32]> for U256 {
    /// The identifier with the given bytes.
    fn from(value: [u8; 32]) -> (out: U256)
        ensures
            out@ == value@,
    {
        U256(value)
    }
}

impl FromSpecImpl<[u8; 32]> for U256 {
    open spec fn obeys_from_spec() -> bool {
        true
    }

    open spec fn from_spec(value: [u8; 32]) -> U256 {
        U256(value)
    }
}

impl From<U256> for [u8; 32] {
    /// The bytes of an identifier.
    fn from(value: U256) -> (out: [u8; 32])
        ensures
            out@ == value@,
    {
        value.0
    }
}

impl FromSpecImpl<U256> for [u8; 32] {
    open spec fn obeys_from_spec() -> bool {
        true
    }

    open spec fn from_spec(value: U256) -> [u8; 32] {
        value.0
    }
}

impl From<u8> for U256 {
    /// The identifier that stands for `value`.
    fn from(value: u8) -> (out: U256)
        ensures
            out.to_nat() == value,
    {
        from_u128(value as u128)
    }
}

impl FromSpecImpl<u8> for U256 {
    open spec fn obeys_from_spec() -> bool {
        true
    }

    open spec fn from_spec(value: u8) -> U256 {
        U256::of_nat(value as nat)
    }
}

impl TryFrom<U256> for u8 {
    type Error = ();

    /// The number an identifier stands for, when it fits.
    fn try_from(value: U256) -> (r: Result<u8, ()>)
        ensures
            value.to_nat() <= u8::MAX ==> r == Ok::<u8, ()>(value.to_nat() as u8),
            value.to_nat() > u8::MAX ==> r is Err,
    {
        proof {
            lemma_pow256_values();
        }
        match to_u128(&value, 1) {
            Some(v) => Ok(v as u8),
            None => Err(()),
        }
    }
}

impl TryFromSpecImpl<U256> for u8 {
    open spec fn obeys_try_from_spec() -> bool {
        true
    }

    open spec fn try_from_spec(value: U256) -> Result<u8, ()> {
        if value.to_nat() <= u8::MAX {
            Ok(value.to_nat() as u8)
        } else {
            Err(())
        }
    }
}

impl From<u16> for U256 {
    /// The identifier that stands for `value`.
    fn from(value: u16) -> (out: U256)
        ensures
            out.to_nat() == value,
    {
        from_u128(value as u128)
    }
}

impl FromSpecImpl<u16> for U256 {
    open spec fn obeys_from_spec() -> bool {
        true
    }

    open spec fn from_spec(value: u16) -> U256 {
        U256::of_nat(value as nat)
    }
}

impl TryFrom<U256> for u16 {
    type Error = ();

    /// The number an identifier stands for, when it fits.
    fn try_from(value: U256) -> (r: Result<u16, ()>)
        ensures
            value.to_nat() <= u16::MAX ==> r == Ok::<u16, ()>(value.to_nat() as u16),
            value.to_nat() > u16::MAX ==> r is Err,
    {
        proof {
            lemma_pow256_values();
        }
        match to_u128(&value, 2) {
            Some(v) => Ok(v as u16),
            None => Err(()),
        }
    }
}

impl TryFromSpecImpl<U256> for u16 {
    open spec fn obeys_try_from_spec() -> bool {
        true
    }

    open spec fn try_from_spec(value: U256) -> Result<u16, ()> {
        if value.to_nat() <= u16::MAX {
            Ok(value.to_nat() as u16)
        } else {
            Err(())
        }
    }
}

impl From<u32> for U256 {
    /// The identifier that stands for `value`.
    fn from(value: u32) -> (out: U256)
        ensures
            out.to_nat() == value,
    {
        from_u128(value as u128)
    }
}

impl FromSpecImpl<u32> for U256 {
    open spec fn obeys_from_spec() -> bool {
        true
    }

    open spec fn from_spec(value: u32) -> U256 {
        U256::of_nat(value as nat)
    }
}

impl TryFrom<U256> for u32 {
    type Error = ArithmeticError<()>;

    /// The number an identifier stands for, when it fits.
    fn try_from(value: U256) -> (r: Result<u32, ArithmeticError<()>>)
        ensures
            value.to_nat() <= u32::MAX ==> r == Ok::<u32, ArithmeticError<()>>(value.to_nat() as u32),
            value.to_nat() > u32::MAX ==> r is Err,
    {
        proof {
            lemma_pow256_values();
        }
        match to_u128(&value, 4) {
            Some(v) => Ok(v as u32),
            None => Err(ArithmeticError::Overflow(())),
        }
    }
}

impl TryFromSpecImpl<U256> for u32 {
    open spec fn obeys_try_from_spec() -> bool {
        true
    }

    open spec fn try_from_spec(value: U256) -> Result<u32, ArithmeticError<()>> {
        if value.to_nat() <= u32::MAX {
            Ok(value.to_nat() as u32)
        } else {
            Err(ArithmeticError::Overflow(()))
        }
    }
}

impl From<u64> for U256 {
    /// The identifier that stands for `value`.
    fn from(value: u64) -> (out: U256)
        ensures
            out.to_nat() == value,
    {
        from_u128(value as u128)
    }
}

impl FromSpecImpl<u64> for U256 {
    open spec fn obeys_from_spec() -> bool {
        true
    }

    open spec fn from_spec(value: u64) -> U256 {
        U256::of_nat(value as nat)
    }
}

impl TryFrom<U256> for u64 {
    type Error = ArithmeticError<()>;

    /// The number an identifier stands for, when it fits.
    fn try_from(value: U256) -> (r: Result<u64, ArithmeticError<()>>)
        ensures
            value.to_nat() <= u64::MAX ==> r == Ok::<u64, ArithmeticError<()>>(value.to_nat() as u64),
            value.to_nat() > u64::MAX ==> r is Err,
    {
        proof {
            lemma_pow256_values();
        }
        match to_u128(&value, 8) {
            Some(v) => Ok(v as u64),
            None => Err(ArithmeticError::Overflow(())),
        }
    }
}

impl TryFromSpecImpl<U256> for u64 {
    open spec fn obeys_try_from_spec() -> bool {
        true
    }

    open spec fn try_from_spec(value: U256) -> Result<u64, ArithmeticError<()>> {
        if value.to_nat() <= u64::MAX {
            Ok(value.to_nat() as u64)
        } else {
            Err(ArithmeticError::Overflow(()))
        }
    }
}

impl From<u128> for U256 {
    /// The identifier that stands for `value`.
    fn from(value: u128) -> (out: U256)
        ensures
            out.to_nat() == value,
    {
        from_u128(value)
    }
}

impl FromSpecImpl<u128> for U256 {
    open spec fn obeys_from_spec() -> bool {
        true
    }

    open spec fn from_spec(value: u128) -> U256 {
        U256::of_nat(value as nat)
    }
}

impl TryFrom<U256> for u128 {
    type Error = ArithmeticError<()>;

    /// The number an identifier stands for, when it fits.
    fn try_from(value: U256) -> (r: Result<u128, ArithmeticError<()>>)
        ensures
            value.to_nat() <= u128::MAX ==> r == Ok::<u128, ArithmeticError<()>>(value.to_nat() as u128),
            value.to_nat() > u128::MAX ==> r is Err,
    {
        proof {
            lemma_pow256_values();
        }
        match to_u128(&value, 16) {
            Some(v) => Ok(v as u128),
            None => Err(ArithmeticError::Overflow(())),
        }
    }
}

impl TryFromSpecImpl<U256> for u128 {
    open spec fn obeys_try_from_spec() -> bool {
        true
    }

    open spec fn try_from_spec(value: U256) -> Result<u128, ArithmeticError<()>> {
        if value.to_nat() <= u128::MAX {
            Ok(value.to_nat() as u128)
        } else {
            Err(ArithmeticError::Overflow(()))
        }
    }
}

impl U256 {
    /// The bytes of an identifier, most significant first.
    pub fn as_bytes(&self) -> (bytes: &[u8; 32])
        ensures
            bytes@ == self@,
    {
        &self.0
    }
}

impl AsRef<[u8]> for U256 {
    /// The bytes of an identifier, most significant first.
    fn as_ref(&self) -> (bytes: &[u8])
        ensures
            ({
                let slice: &[u8] = bytes;
                slice@ == self@
            }),
    {
        self.as_bytes().as_slice()
    }
}

impl AsRef<[u8; 32]> for U256 {
    /// The bytes of an identifier, most significant first.
    fn as_ref(&self) -> (bytes: &[u8; 32])
        ensures
            ({
                let array: &[u8; 32] = bytes;
                array@ == self@
            }),
    {
        self.as_bytes()
    }
}

/// The number that `width` bytes spell from index `start` on, read big-endian.
pub open spec fn word_value(bytes: Seq<u8>, start: int, width: nat) -> nat {
    be_value(bytes.subrange(start, start + width), width)
}

/// The word that `width` bytes spell from index `start` on.
fn read_word(a: &U256, start: usize, width: usize) -> (word: u128)
    requires
        1 <= width <= 16,
        start + width <= 32,
    ensures
        word == word_value(a@, start as int, width as nat),
        word < pow256(width as nat),
{
    let ghost part = a@.subrange(start as int, start + width);
    let mut acc: u128 = 0;
    let mut n: usize = 0;
    while n < width
        invariant
            n <= width <= 16,
            start + width <= 32,
            part == a@.subrange(start as int, start + width),
            acc == be_value(part, n as nat),
            acc < pow256(n as nat),
        decreases width - n,
    {
        proof {
            lemma_pow256_values();
            lemma_pow256_monotonic((n + 1) as nat, 16);
            assert(pow256((n + 1) as nat) == 256 * pow256(n as nat));
            assert(part[n as int] == a@[start + n]);
        }
        acc = acc * 256 + a.0[start + n] as u128;
        n += 1;
    }
    acc
}

/// Writes `word` on `width` bytes from index `start` on, most significant first.
fn write_word(out: &mut [u8; 32], start: usize, width: usize, word: u128)
    requires
        1 <= width <= 16,
        start + width <= 32,
        word < pow256(width as nat),
    ensures
        word_value(final(out)@, start as int, width as nat) == word,
        forall|i: int| 0 <= i < start || start + width <= i < 32 ==> final(out)@[i] == old(out)@[i],
{
    let mut rest: u128 = word;
    let mut n: usize = 0;
    proof {
        assert(rest * pow256(0) == word) by (nonlinear_arith)
            requires
                rest == word,
                pow256(0) == 1,
        ;
    }
    // the bytes are written from the least significant one up
    while n < width
        invariant
            n <= width <= 16,
            start + width <= 32,
            forall|i: int| 0 <= i < start || start + width <= i < 32 ==> out@[i] == old(out)@[i],
            tail_value(out@, (start + width) as int, n as nat) + rest * pow256(n as nat) == word,
        decreases width - n,
    {
        let idx = start + width - 1 - n;
        let ghost prev = out@;
        let ghost before = rest as int;
        out[idx] = (rest % 256) as u8;
        rest = rest / 256;
        proof {
            lemma_tail_value_ext(prev, out@, (start + width) as int, n as nat);
            let p = pow256(n as nat) as int;
            let lo = (before % 256) as int;
            let hi = rest as int;
            assert(pow256((n + 1) as nat) == 256 * p);
            assert(lo * p + hi * (256 * p) == before * p) by (nonlinear_arith)
                requires
                    before == 256 * hi + lo,
            ;
        }
        n += 1;
    }
    proof {
        let p = pow256(width as nat) as int;
        let r = rest as int;
        lemma_pow256_positive(width as nat);
        assert(r == 0) by (nonlinear_arith)
            requires
                r * p <= word,
                word < p,
                r >= 0,
        ;
        assert(rest * pow256(width as nat) == 0) by (nonlinear_arith)
            requires
                rest == 0,
        ;
        lemma_tail_is_word(out@, start as int, width as nat, 0);
        let head = be_value(out@.subrange(start as int, start + width), 0);
        assert(head * pow256(width as nat) == 0) by (nonlinear_arith)
            requires
                head == 0,
        ;
    }
}

/// The number that the `n` bytes before index `end` spell, read big-endian.
pub open spec fn tail_value(bytes: Seq<u8>, end: int, n: nat) -> nat
    decreases n,
{
    if n == 0 {
        0
    } else {
        bytes[end - n] as nat * pow256((n - 1) as nat) + tail_value(bytes, end, (n - 1) as nat)
    }
}

/// Sequences that agree on the `n` bytes before `end` spell the same there.
proof fn lemma_tail_value_ext(a: Seq<u8>, b: Seq<u8>, end: int, n: nat)
    requires
        forall|i: int| end - n <= i < end ==> a[i] == b[i],
    ensures
        tail_value(a, end, n) == tail_value(b, end, n),
    decreases n,
{
    if n > 0 {
        lemma_tail_value_ext(a, b, end, (n - 1) as nat);
    }
}

/// The first `k` bytes of a word, weighted, and its last `width - k` bytes
/// make the word.
proof fn lemma_tail_is_word(bytes: Seq<u8>, start: int, width: nat, k: nat)
    requires
        0 <= start,
        start + width <= bytes.len(),
        k <= width,
    ensures
        be_value(bytes.subrange(start, start + width), k) * pow256((width - k) as nat)
            + tail_value(bytes, start + width, (width - k) as nat) == word_value(
            bytes,
            start,
            width,
        ),
    decreases width - k,
{
    let part = bytes.subrange(start, start + width);
    if k < width {
        lemma_tail_is_word(bytes, start, width, k + 1);
        let hi = be_value(part, k);
        let b = part[k as int] as nat;
        let p = pow256((width - k - 1) as nat);
        assert(part[k as int] == bytes[start + k]);
        assert(be_value(part, k + 1) == hi * 256 + b);
        assert(pow256((width - k) as nat) == 256 * p);
        assert(tail_value(bytes, start + width, (width - k) as nat) == b * p + tail_value(
            bytes,
            start + width,
            (width - k - 1) as nat,
        ));
        assert((hi * 256 + b) * p == hi * (256 * p) + b * p) by (nonlinear_arith);
        assert(hi * pow256((width - k) as nat) == hi * (256 * p));
    } else {
        assert(be_value(part, width) * pow256(0) == be_value(part, width)) by (nonlinear_arith)
            requires
                pow256(0) == 1,
        ;
    }
}

impl From<U256> for [u16; 16] {
    /// The 16 big-endian words of an identifier, most significant first.
    fn from(value: U256) -> (out: [u16; 16])
        ensures
            forall|i: int| 0 <= i < 16 ==> out@[i] == word_value(value@, 2 * i, 2),
    {
        let mut out = [0u16; 16];
        let mut i: usize = 0;
        while i < 16
            invariant
                i <= 16,
                forall|j: int| 0 <= j < i ==> out@[j] == word_value(value@, 2 * j, 2),
            decreases 16 - i,
        {
            let word = read_word(&value, 2 * i, 2);
            proof {
                lemma_pow256_values();
            }
            out[i] = word as u16;
            i += 1;
        }
        out
    }
}

impl FromSpecImpl<U256> for [u16; 16] {
    open spec fn obeys_from_spec() -> bool {
        false
    }

    open spec fn from_spec(value: U256) -> [u16; 16] {
        arbitrary()
    }
}

impl From<[u16; 16]> for U256 {
    /// The identifier made of 16 big-endian words, most significant first.
    fn from(value: [u16; 16]) -> (out: U256)
        ensures
            forall|i: int| 0 <= i < 16 ==> word_value(out@, 2 * i, 2) == value@[i],
    {
        let mut out = [0u8; 32];
        let mut i: usize = 0;
        while i < 16
            invariant
                i <= 16,
                forall|j: int| 0 <= j < i ==> word_value(out@, 2 * j, 2) == value@[j],
            decreases 16 - i,
        {
            let ghost before = out@;
            proof {
                lemma_pow256_values();
            }
            write_word(&mut out, 2 * i, 2, value[i] as u128);
            proof {
                assert forall|j: int| 0 <= j < i implies word_value(out@, 2 * j, 2)
                    == value@[j] by {
                    assert(out@.subrange(2 * j, 2 * j + 2) =~= before.subrange(
                        2 * j,
                        2 * j + 2,
                    ));
                }
            }
            i += 1;
        }
        U256(out)
    }
}

impl FromSpecImpl<[u16; 16]> for U256 {
    open spec fn obeys_from_spec() -> bool {
        false
    }

    open spec fn from_spec(value: [u16; 16]) -> U256 {
        arbitrary()
    }
}

impl From<U256> for [u32; 8] {
    /// The 8 big-endian words of an identifier, most significant first.
    fn from(value: U256) -> (out: [u32; 8])
        ensures
            forall|i: int| 0 <= i < 8 ==> out@[i] == word_value(value@, 4 * i, 4),
    {
        let mut out = [0u32; 8];
        let mut i: usize = 0;
        while i < 8
            invariant
                i <= 8,
                forall|j: int| 0 <= j < i ==> out@[j] == word_value(value@, 4 * j, 4),
            decreases 8 - i,
        {
            let word = read_word(&value, 4 * i, 4);
            proof {
                lemma_pow256_values();
            }
            out[i] = word as u32;
            i += 1;
        }
        out
    }
}

impl FromSpecImpl<U256> for [u32; 8] {
    open spec fn obeys_from_spec() -> bool {
        false
    }

    open spec fn from_spec(value: U256) -> [u32; 8] {
        arbitrary()
    }
}

impl From<[u32; 8]> for U256 {
    /// The identifier made of 8 big-endian words, most significant first.
    fn from(value: [u32; 8]) -> (out: U256)
        ensures
            forall|i: int| 0 <= i < 8 ==> word_value(out@, 4 * i, 4) == value@[i],
    {
        let mut out = [0u8; 32];
        let mut i: usize = 0;
        while i < 8
            invariant
                i <= 8,
                forall|j: int| 0 <= j < i ==> word_value(out@, 4 * j, 4) == value@[j],
            decreases 8 - i,
        {
            let ghost before = out@;
            proof {
                lemma_pow256_values();
            }
            write_word(&mut out, 4 * i, 4, value[i] as u128);
            proof {
                assert forall|j: int| 0 <= j < i implies word_value(out@, 4 * j, 4)
                    == value@[j] by {
                    assert(out@.subrange(4 * j, 4 * j + 4) =~= before.subrange(
                        4 * j,
                        4 * j + 4,
                    ));
                }
            }
            i += 1;
        }
        U256(out)
    }
}

impl FromSpecImpl<[u32; 8]> for U256 {
    open spec fn obeys_from_spec() -> bool {
        false
    }

    open spec fn from_spec(value: [u32; 8]) -> U256 {
        arbitrary()
    }
}

impl From<U256> for [u64; 4] {
    /// The 4 big-endian words of an identifier, most significant first.
    fn from(value: U256) -> (out: [u64; 4])
        ensures
            forall|i: int| 0 <= i < 4 ==> out@[i] == word_value(value@, 8 * i, 8),
    {
        let mut out = [0u64; 4];
        let mut i: usize = 0;
        while i < 4
            invariant
                i <= 4,
                forall|j: int| 0 <= j < i ==> out@[j] == word_value(value@, 8 * j, 8),
            decreases 4 - i,
        {
            let word = read_word(&value, 8 * i, 8);
            proof {
                lemma_pow256_values();
            }
            out[i] = word as u64;
            i += 1;
        }
        out
    }
}

impl FromSpecImpl<U256> for [u64; 4] {
    open spec fn obeys_from_spec() -> bool {
        false
    }

    open spec fn from_spec(value: U256) -> [u64; 4] {
        arbitrary()
    }
}

impl From<[u64; 4]> for U256 {
    /// The identifier made of 4 big-endian words, most significant first.
    fn from(value: [u64; 4]) -> (out: U256)
        ensures
            forall|i: int| 0 <= i < 4 ==> word_value(out@, 8 * i, 8) == value@[i],
    {
        let mut out = [0u8; 32];
        let mut i: usize = 0;
        while i < 4
            invariant
                i <= 4,
                forall|j: int| 0 <= j < i ==> word_value(out@, 8 * j, 8) == value@[j],
            decreases 4 - i,
        {
            let ghost before = out@;
            proof {
                lemma_pow256_values();
            }
            write_word(&mut out, 8 * i, 8, value[i] as u128);
            proof {
                assert forall|j: int| 0 <= j < i implies word_value(out@, 8 * j, 8)
                    == value@[j] by {
                    assert(out@.subrange(8 * j, 8 * j + 8) =~= before.subrange(
                        8 * j,
                        8 * j + 8,
                    ));
                }
            }
            i += 1;
        }
        U256(out)
    }
}

impl FromSpecImpl<[u64; 4]> for U256 {
    open spec fn obeys_from_spec() -> bool {
        false
    }

    open spec fn from_spec(value: [u64; 4]) -> U256 {
        arbitrary()
    }
}

impl From<U256> for [u128; 2] {
    /// The 2 big-endian words of an identifier, most significant first.
    fn from(value: U256) -> (out: [u128; 2])
        ensures
            forall|i: int| 0 <= i < 2 ==> out@[i] == word_value(value@, 16 * i, 16),
    {
        let mut out = [0u128; 2];
        let mut i: usize = 0;
        while i < 2
            invariant
                i <= 2,
                forall|j: int| 0 <= j < i ==> out@[j] == word_value(value@, 16 * j, 16),
            decreases 2 - i,
        {
            let word = read_word(&value, 16 * i, 16);
            proof {
                lemma_pow256_values();
            }
            out[i] = word as u128;
            i += 1;
        }
        out
    }
}

impl FromSpecImpl<U256> for [u128; 2] {
    open spec fn obeys_from_spec() -> bool {
        false
    }

    open spec fn from_spec(value: U256) -> [u128; 2] {
        arbitrary()
    }
}

impl From<[u128; 2]> for U256 {
    /// The identifier made of 2 big-endian words, most significant first.
    fn from(value: [u128; 2]) -> (out: U256)
        ensures
            forall|i: int| 0 <= i < 2 ==> word_value(out@, 16 * i, 16) == value@[i],
    {
        let mut out = [0u8; 32];
        let mut i: usize = 0;
        while i < 2
            invariant
                i <= 2,
                forall|j: int| 0 <= j < i ==> word_value(out@, 16 * j, 16) == value@[j],
            decreases 2 - i,
        {
            let ghost before = out@;
            proof {
                lemma_pow256_values();
            }
            write_word(&mut out, 16 * i, 16, value[i] as u128);
            proof {
                assert forall|j: int| 0 <= j < i implies word_value(out@, 16 * j, 16)
                    == value@[j] by {
                    assert(out@.subrange(16 * j, 16 * j + 16) =~= before.subrange(
                        16 * j,
                        16 * j + 16,
                    ));
                }
            }
            i += 1;
        }
        U256(out)
    }
}

impl FromSpecImpl<[u128; 2]> for U256 {
    open spec fn obeys_from_spec() -> bool {
        false
    }

    open spec fn from_spec(value: [u128; 2]) -> U256 {
        arbitrary()
    }
}

} // verus!
