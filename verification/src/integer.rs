//! A variable-length integer: the smallest wire form for the magnitudes that
//! actually occur, with the sign carried out of band.

use vstd::prelude::*;

use crate::ser_glue::{Deserable, DeserMachine, DesiredInput, FsmResult, Serable};

verus! {

/// Whether a number is signed, and if so which side of zero it lies on.
/// The sign never travels on the wire: encoding returns it as extra output and
/// decoding demands it as extra input.
#[derive(Copy, Clone, Eq, PartialEq, Structural, Debug, Hash)]
pub enum SignedState {
    Unsigned,
    SignedPositive,
    SignedNegative,
}

/// The number of bytes of the widest integer the codec carries (128 bits).
pub const INTEGER_MAX_SIZE: usize = 16;

/// The largest value that travels as a bare single byte; larger values get a
/// header byte `ONE_BYTE_MAX_SIZE + k` where `k` counts the payload bytes.
pub const ONE_BYTE_MAX_SIZE: u8 = 239;

impl SignedState {
    /// The byte tag used when a sign must be spelled out in bytes elsewhere.
    pub fn as_byte(self) -> (r: u8)
        ensures
            r == self.spec_byte(),
    {
        match self {
            SignedState::Unsigned => 0,
            SignedState::SignedPositive => 1,
            SignedState::SignedNegative => 2,
        }
    }

    /// The tag each sign maps to.
    pub open spec fn spec_byte(self) -> u8 {
        match self {
            SignedState::Unsigned => 0,
            SignedState::SignedPositive => 1,
            SignedState::SignedNegative => 2,
        }
    }

    /// Reads a sign back from its byte tag; exactly the tags 0, 1 and 2 are accepted.
    pub fn try_from_byte(value: u8) -> (r: Result<SignedState, IntegerReadError>)
        ensures
            value == 0 ==> r == Ok::<_, IntegerReadError>(SignedState::Unsigned),
            value == 1 ==> r == Ok::<_, IntegerReadError>(SignedState::SignedPositive),
            value == 2 ==> r == Ok::<_, IntegerReadError>(SignedState::SignedNegative),
            value > 2 ==> r == Err::<SignedState, _>(
                IntegerReadError::InvalidSignedStateDiscriminant(value),
            ),
    {
        match value {
            0 => Ok(SignedState::Unsigned),
            1 => Ok(SignedState::SignedPositive),
            2 => Ok(SignedState::SignedNegative),
            _ => Err(IntegerReadError::InvalidSignedStateDiscriminant(value)),
        }
    }
}

/// Error type for everything that can go wrong reading an integer back.
#[derive(Debug, Clone, PartialEq, Eq, Structural)]
pub enum IntegerReadError {
    /// A sign tag byte that is none of the three known tags.
    InvalidSignedStateDiscriminant(u8),
    /// The driver ran out of input before the integer was complete.
    NotEnoughBytes,
    /// The stored byte count exceeds the width of the requested target type.
    TooBigToFit,
    /// A negative value was requested as an unsigned target.
    SignError,
}

// ---------------------------------------------------------------------------
// Little-endian arithmetic over byte strings.
// ---------------------------------------------------------------------------

/// 256 raised to the `k`-th power: the weight of the `k`-th little-endian byte.
pub open spec fn pow256(k: nat) -> nat
    decreases k,
{
    if k == 0 {
        1
    } else {
        256 * pow256((k - 1) as nat)
    }
}

/// The value of a byte string read as a little-endian unsigned number.
pub open spec fn le_value(s: Seq<u8>) -> nat
    decreases s.len(),
{
    if s.len() == 0 {
        0
    } else {
        s[0] as nat + 256 * le_value(s.drop_first())
    }
}

/// The shortest little-endian byte string holding `n`: no trailing zero bytes,
/// and empty exactly for zero.
pub open spec fn le_bytes(n: nat) -> Seq<u8>
    decreases n,
{
    if n == 0 {
        seq![]
    } else {
        seq![(n % 256) as u8] + le_bytes(n / 256)
    }
}

pub proof fn lemma_pow256_positive(k: nat)
    ensures
        pow256(k) >= 1,
    decreases k,
{
    if k > 0 {
        lemma_pow256_positive((k - 1) as nat);
    }
}

pub proof fn lemma_pow256_monotone(j: nat, k: nat)
    requires
        j <= k,
    ensures
        pow256(j) <= pow256(k),
    decreases k,
{
    if j < k {
        lemma_pow256_monotone(j, (k - 1) as nat);
        lemma_pow256_positive((k - 1) as nat);
    }
}

/// Concatenation splits a little-endian value into a low and a weighted high part.
pub proof fn lemma_le_value_concat(a: Seq<u8>, b: Seq<u8>)
    ensures
        le_value(a + b) == le_value(a) + pow256(a.len()) * le_value(b),
    decreases a.len(),
{
    if a.len() == 0 {
        assert(a + b =~= b);
        assert(pow256(a.len()) == 1);
        assert(le_value(a) == 0);
        assert(1 * le_value(b) == le_value(b)) by (nonlinear_arith);
        assert(le_value(a + b) == le_value(a) + pow256(a.len()) * le_value(b));
    } else {
        assert((a + b).drop_first() =~= a.drop_first() + b);
        lemma_le_value_concat(a.drop_first(), b);
        assert(le_value(a + b) == a[0] + 256 * (le_value(a.drop_first()) + pow256(
            a.drop_first().len(),
        ) * le_value(b)));
        assert(256 * (le_value(a.drop_first()) + pow256((a.len() - 1) as nat) * le_value(b)) == 256
            * le_value(a.drop_first()) + 256 * (pow256((a.len() - 1) as nat) * le_value(b)))
            by (nonlinear_arith);
        assert(256 * (pow256((a.len() - 1) as nat) * le_value(b)) == (256 * pow256(
            (a.len() - 1) as nat,
        )) * le_value(b)) by (nonlinear_arith);
        assert(pow256(a.len()) == 256 * pow256((a.len() - 1) as nat));
        assert(le_value(a) == a[0] + 256 * le_value(a.drop_first()));
        assert((a + b)[0] == a[0]);
        assert(le_value(a + b) == a[0] + 256 * le_value(a.drop_first() + b));
        assert(le_value(a + b) == a[0] + 256 * le_value(a.drop_first()) + 256 * (pow256(
            (a.len() - 1) as nat,
        ) * le_value(b)));
        assert(le_value(a + b) == le_value(a) + pow256(a.len()) * le_value(b));
    }
}

/// A byte string of length `k` holds a value below `pow256(k)`.
pub proof fn lemma_le_value_bound(s: Seq<u8>)
    ensures
        le_value(s) < pow256(s.len()),
    decreases s.len(),
{
    if s.len() > 0 {
        lemma_le_value_bound(s.drop_first());
    }
}

/// Two byte strings of one length with one value are the same string.
pub proof fn lemma_le_value_injective(a: Seq<u8>, b: Seq<u8>)
    requires
        a.len() == b.len(),
        le_value(a) == le_value(b),
    ensures
        a =~= b,
    decreases a.len(),
{
    if a.len() > 0 {
        lemma_le_value_bound(a.drop_first());
        lemma_le_value_bound(b.drop_first());
        assert(a[0] == le_value(a) % 256 && le_value(a.drop_first()) == le_value(a) / 256)
            by (nonlinear_arith)
        requires
            le_value(a) == a[0] as nat + 256 * le_value(a.drop_first()),
            a[0] < 256,
        ;
        assert(b[0] == le_value(b) % 256 && le_value(b.drop_first()) == le_value(b) / 256)
            by (nonlinear_arith)
        requires
            le_value(b) == b[0] as nat + 256 * le_value(b.drop_first()),
            b[0] < 256,
        ;
        lemma_le_value_injective(a.drop_first(), b.drop_first());
        assert(a =~= seq![a[0]] + a.drop_first());
        assert(b =~= seq![b[0]] + b.drop_first());
    }
}

/// `le_bytes` really does name its value, is trimmed, and is as short as the
/// value demands.
pub proof fn lemma_le_bytes_props(n: nat)
    ensures
        le_value(le_bytes(n)) == n,
        le_bytes(n).len() > 0 ==> le_bytes(n).last() != 0,
        n < pow256(le_bytes(n).len()),
        n > 0 ==> pow256((le_bytes(n).len() - 1) as nat) <= n,
    decreases n,
{
    if n > 0 {
        assert(n / 256 < n) by (nonlinear_arith)
            requires n > 0,
        ;
        lemma_le_bytes_props(n / 256);
        let tail = le_bytes(n / 256);
        let whole = seq![(n % 256) as u8] + tail;
        assert(whole.drop_first() =~= tail);
        assert(le_value(whole) == (n % 256) + 256 * (n / 256));
        assert((n % 256) + 256 * (n / 256) == n) by (nonlinear_arith);
        if tail.len() > 0 {
            assert(whole.last() == tail.last());
        } else {
            assert(n < 256);
            assert(whole.last() == n % 256);
        }
        // length bounds
        if n < 256 {
            assert(n / 256 == 0) by (nonlinear_arith)
                requires n < 256,
            ;
            assert(whole.len() == 1);
            assert(pow256(1) == 256);
        } else {
            assert(n / 256 > 0) by (nonlinear_arith)
                requires n >= 256,
            ;
            assert(n / 256 < pow256(tail.len()));
            assert(n <= 256 * (n / 256) + 255) by (nonlinear_arith);
            assert(256 * (n / 256) <= 256 * (pow256(tail.len()) - 1)) by (nonlinear_arith)
                requires n / 256 < pow256(tail.len()),
            ;
            assert(pow256(whole.len()) == 256 * pow256(tail.len()));
            assert(pow256((tail.len() - 1) as nat) <= n / 256);
            assert(256 * pow256((tail.len() - 1) as nat) <= 256 * (n / 256)) by (nonlinear_arith)
                requires pow256((tail.len() - 1) as nat) <= n / 256,
            ;
            assert(256 * (n / 256) <= n) by (nonlinear_arith);
        }
    }
}

/// A fixed-width little-endian rendering: exactly `k` bytes, low byte first.
pub open spec fn le_bytes_fixed(n: nat, k: nat) -> Seq<u8>
    decreases k,
{
    if k == 0 {
        seq![]
    } else {
        seq![(n % 256) as u8] + le_bytes_fixed(n / 256, (k - 1) as nat)
    }
}

pub proof fn lemma_le_bytes_fixed_props(n: nat, k: nat)
    requires
        n < pow256(k),
    ensures
        le_bytes_fixed(n, k).len() == k,
        le_value(le_bytes_fixed(n, k)) == n,
    decreases k,
{
    if k > 0 {
        assert(n / 256 < pow256((k - 1) as nat)) by (nonlinear_arith)
            requires n < pow256(k), pow256(k) == 256 * pow256((k - 1) as nat),
        ;
        lemma_le_bytes_fixed_props(n / 256, (k - 1) as nat);
        let whole = seq![(n % 256) as u8] + le_bytes_fixed(n / 256, (k - 1) as nat);
        assert(whole.drop_first() =~= le_bytes_fixed(n / 256, (k - 1) as nat));
        assert((n % 256) + 256 * (n / 256) == n) by (nonlinear_arith);
    }
}

/// A run of one repeated byte, as used for sign extension.
pub open spec fn fill_seq(m: nat, fill: u8) -> Seq<u8> {
    Seq::new(m, |i| fill)
}

pub proof fn lemma_fill_seq_value(m: nat, fill: u8)
    requires
        fill == 0 || fill == 255,
    ensures
        fill == 0 ==> le_value(fill_seq(m, fill)) == 0,
        fill == 255 ==> le_value(fill_seq(m, fill)) == pow256(m) - 1,
    decreases m,
{
    lemma_pow256_positive(m);
    if m > 0 {
        assert(fill_seq(m, fill).drop_first() =~= fill_seq((m - 1) as nat, fill));
        lemma_fill_seq_value((m - 1) as nat, fill);
        lemma_pow256_positive((m - 1) as nat);
    }
}

/// Sign-extends a short byte string to the full 16 bytes with `0xFF` and reads
/// the result as an unsigned little-endian number.
pub open spec fn ext16(c: Seq<u8>) -> int {
    le_value(c) + pow256(c.len()) * (pow256((16 - c.len()) as nat) - 1)
}

/// Two's-complement reading of a byte string of at most 16 bytes under
/// `0xFF` sign extension: what the stored bytes of a negative number denote.
pub open spec fn tc16(c: Seq<u8>) -> int {
    if ext16(c) >= 128 * pow256(15) {
        ext16(c) - pow256(16)
    } else {
        ext16(c) as int
    }
}

pub proof fn lemma_ext16_bound(c: Seq<u8>)
    requires
        c.len() <= 16,
    ensures
        ext16(c) < pow256(16),
        ext16(c) == le_value(c + fill_seq((16 - c.len()) as nat, 255)),
{
    lemma_le_value_bound(c);
    lemma_le_value_concat(c, fill_seq((16 - c.len()) as nat, 255));
    lemma_fill_seq_value((16 - c.len()) as nat, 255);
    lemma_pow256_monotone(c.len(), 16);
    lemma_pow256_positive((16 - c.len()) as nat);
    lemma_pow256_split(c.len(), (16 - c.len()) as nat);
    assert(le_value(c) + pow256(c.len()) * (pow256((16 - c.len()) as nat) - 1) < pow256(16))
        by (nonlinear_arith)
    requires
        le_value(c) < pow256(c.len()),
        pow256(16) == pow256(c.len()) * pow256((16 - c.len()) as nat),
        pow256((16 - c.len()) as nat) >= 1,
    ;
}

/// `pow256` turns addition of exponents into multiplication.
pub proof fn lemma_pow256_split(j: nat, k: nat)
    ensures
        pow256((j + k) as nat) == pow256(j) * pow256(k),
    decreases j,
{
    if j == 0 {
        assert(1 * pow256(k) == pow256(k)) by (nonlinear_arith);
    } else {
        lemma_pow256_split((j - 1) as nat, k);
        assert(((j + k) as nat - 1) as nat == ((j - 1) + k) as nat);
        assert(pow256((j + k) as nat) == 256 * pow256(((j - 1) + k) as nat));
        assert(256 * (pow256((j - 1) as nat) * pow256(k)) == (256 * pow256((j - 1) as nat))
            * pow256(k)) by (nonlinear_arith);
        assert(pow256(j) == 256 * pow256((j - 1) as nat));
    }
}

/// Dropping a trailing sign-extension byte does not change the denoted value.
pub proof fn lemma_tc16_drop_last(c: Seq<u8>)
    requires
        2 <= c.len() <= 16,
        c.last() == 255,
    ensures
        ext16(c.drop_last()) == ext16(c),
        tc16(c.drop_last()) == tc16(c),
{
    let d = c.drop_last();
    let l = d.len();
    assert(c =~= d + seq![255u8]);
    lemma_le_value_concat(d, seq![255u8]);
    assert(seq![255u8].drop_first() =~= Seq::<u8>::empty());
    assert(le_value(Seq::<u8>::empty()) == 0);
    assert(le_value(seq![255u8]) == 255);
    lemma_pow256_split(l, (16 - c.len()) as nat);
    assert(pow256(c.len()) == 256 * pow256(l));
    assert(le_value(d) + pow256(l) * 255 + (256 * pow256(l)) * (pow256((16 - c.len()) as nat) - 1)
        == le_value(d) + pow256(l) * (256 * pow256((16 - c.len()) as nat) - 1)) by (nonlinear_arith);
    assert(256 * pow256((16 - c.len()) as nat) == pow256((16 - l) as nat));
}

/// Trims trailing `0xFF` sign-extension bytes, always keeping at least one byte.
pub open spec fn trim_ff(s: Seq<u8>) -> Seq<u8>
    decreases s.len(),
{
    if s.len() > 1 && s.last() == 255 {
        trim_ff(s.drop_last())
    } else {
        s
    }
}

pub proof fn lemma_trim_ff_value(s: Seq<u8>)
    requires
        1 <= s.len() <= 16,
    ensures
        1 <= trim_ff(s).len() <= s.len(),
        tc16(trim_ff(s)) == tc16(s),
        ext16(trim_ff(s)) == ext16(s),
    decreases s.len(),
{
    if s.len() > 1 && s.last() == 255 {
        lemma_tc16_drop_last(s);
        lemma_trim_ff_value(s.drop_last());
    }
}

/// The complement of every byte: how a negative number's magnitude becomes its
/// two's-complement bytes.
pub open spec fn compl_bytes(s: Seq<u8>) -> Seq<u8> {
    s.map_values(|b: u8| (255 - b) as u8)
}

pub proof fn lemma_compl_bytes_value(s: Seq<u8>)
    ensures
        compl_bytes(s).len() == s.len(),
        le_value(compl_bytes(s)) == pow256(s.len()) - 1 - le_value(s),
    decreases s.len(),
{
    lemma_le_value_bound(s);
    if s.len() > 0 {
        lemma_compl_bytes_value(s.drop_first());
        assert(compl_bytes(s).drop_first() =~= compl_bytes(s.drop_first()));
        assert(compl_bytes(s)[0] == 255 - s[0]);
        assert(256 * (pow256((s.len() - 1) as nat) - 1 - le_value(s.drop_first())) == 256 * pow256(
            (s.len() - 1) as nat,
        ) - 256 - 256 * le_value(s.drop_first())) by (nonlinear_arith);
    }
}

/// The stored bytes of a negative number: complement the magnitude bytes of
/// `-n - 1` across the full 16-byte width, then trim the sign extension.
pub open spec fn neg_bytes(n: int) -> Seq<u8> {
    trim_ff(compl_bytes(le_bytes_fixed((-n - 1) as nat, 16)))
}

// ---------------------------------------------------------------------------
// The integer value itself.
// ---------------------------------------------------------------------------

/// An integer stored as its significant little-endian bytes plus a sign tag,
/// so that small magnitudes take few bytes on the wire.
#[derive(Debug)]
pub struct Integer {
    signed_state: SignedState,
    content: Vec<u8>,
}

impl Clone for Integer {
    /// A clone keeps the sign and the stored bytes.
    fn clone(&self) -> (r: Self) {
        proof {
            use_type_invariant(self);
        }
        let r = Integer { signed_state: self.signed_state, content: self.content.clone() };
        proof {
            assert(r.bytes() =~= self.bytes());
        }
        r
    }
}

impl Integer {
    /// The sign tag of this value.
    pub closed spec fn sign(self) -> SignedState {
        self.signed_state
    }

    /// The stored significant bytes, low byte first.
    pub closed spec fn bytes(self) -> Seq<u8> {
        self.content@
    }

    /// Every integer value keeps at most the full 16-byte width.
    #[verifier::type_invariant]
    pub open spec fn wf(self) -> bool {
        self.bytes().len() <= 16
    }

    /// The number this value denotes: the stored bytes read little-endian,
    /// sign-extended with `0xFF` over the full width when the tag is negative.
    pub open spec fn int_value(self) -> int {
        if self.sign() is SignedNegative {
            tc16(self.bytes())
        } else {
            le_value(self.bytes()) as int
        }
    }

    /// Two integers are the same number exactly when their sign class agrees
    /// (`Unsigned` and `SignedPositive` are one class) and they denote one value.
    pub open spec fn sem_eq(self, other: Integer) -> bool {
        (self.sign() is SignedNegative <==> other.sign() is SignedNegative)
            && self.int_value() == other.int_value()
    }

    /// Whether the number is negative.
    pub fn is_negative(&self) -> (r: bool)
        ensures
            r == (self.sign() is SignedNegative),
    {
        matches!(self.signed_state, SignedState::SignedNegative)
    }

    /// Whether the number is zero or positive.
    pub fn is_positive(&self) -> (r: bool)
        ensures
            r == !(self.sign() is SignedNegative),
    {
        !matches!(self.signed_state, SignedState::SignedNegative)
    }
}

/// Builds the trimmed little-endian bytes of an unsigned value.
fn le_bytes_of(n: u128) -> (r: Vec<u8>)
    ensures
        r@ == le_bytes(n as nat),
        r@.len() <= 16,
{
    let mut v: Vec<u8> = Vec::new();
    let mut cur: u128 = n;
    proof {
        assert(le_bytes(n as nat) =~= v@ + le_bytes(n as nat));
    }
    while cur > 0
        invariant
            le_bytes(n as nat) == v@ + le_bytes(cur as nat),
        decreases cur,
    {
        let b: u8 = (cur % 256) as u8;
        let next: u128 = cur / 256;
        proof {
            assert(next < cur) by (nonlinear_arith)
                requires cur > 0, next == cur / 256,
            ;
            assert(le_bytes(cur as nat) == seq![b] + le_bytes(next as nat));
            assert(v@ + le_bytes(cur as nat) =~= (v@ + seq![b]) + le_bytes(next as nat));
        }
        v.push(b);
        cur = next;
    }
    proof {
        assert(le_bytes(0nat) =~= Seq::<u8>::empty());
        assert(v@ =~= le_bytes(n as nat));
        lemma_le_bytes_props(n as nat);
        lemma_pow256_16();
        if le_bytes(n as nat).len() > 16 {
            lemma_pow256_monotone(17, le_bytes(n as nat).len());
            lemma_pow256_monotone(16, (le_bytes(n as nat).len() - 1) as nat);
        }
    }
    v
}

/// `pow256(16)` written out, and the fact that every `u128` sits below it.
pub proof fn lemma_pow256_16()
    ensures
        pow256(16) == 0x1_0000_0000_0000_0000_0000_0000_0000_0000,
        pow256(8) == 0x1_0000_0000_0000_0000,
        pow256(4) == 0x1_0000_0000,
        pow256(2) == 0x1_0000,
        pow256(1) == 0x100,
{
    reveal_with_fuel(pow256, 17);
}

impl Integer {
    /// Builds an unsigned integer value: the trimmed bytes of `n`.
    pub fn from_u128(n: u128) -> (r: Integer)
        ensures
            r.sign() == SignedState::Unsigned,
            r.bytes() == le_bytes(n as nat),
            r.int_value() == n as int,
    {
        let content = le_bytes_of(n);
        proof {
            lemma_le_bytes_props(n as nat);
        }
        Integer { signed_state: SignedState::Unsigned, content }
    }

    /// Builds a signed integer value: trimmed magnitude bytes for `n >= 0`,
    /// trimmed two's-complement bytes for `n < 0`.
    pub fn from_i128(n: i128) -> (r: Integer)
        ensures
            r.sign() == (if n < 0 {
                SignedState::SignedNegative
            } else {
                SignedState::SignedPositive
            }),
            n >= 0 ==> r.bytes() == le_bytes(n as nat),
            n < 0 ==> r.bytes() == neg_bytes(n as int),
            r.int_value() == n as int,
    {
        if n >= 0 {
            let content = le_bytes_of(n as u128);
            proof {
                lemma_le_bytes_props(n as nat);
            }
            Integer { signed_state: SignedState::SignedPositive, content }
        } else {
            let m: u128 = (-(n + 1)) as u128;
            let mut v: Vec<u8> = Vec::new();
            let mut cur: u128 = m;
            let mut i: usize = 0;
            proof {
                assert(compl_bytes(le_bytes_fixed(m as nat, 0)) =~= Seq::<u8>::empty());
            }
            while i < 16
                invariant
                    i <= 16,
                    v@ == compl_bytes(le_bytes_fixed(m as nat, i as nat)),
                    v@.len() == i,
                    cur as nat == shift_down(m as nat, i as nat),
                decreases 16 - i,
        {
                let b: u8 = 255 - (cur % 256) as u8;
                proof {
                    lemma_le_bytes_fixed_step(m as nat, i as nat);
                    assert(v@ + seq![b] =~= compl_bytes(le_bytes_fixed(m as nat, (i + 1) as nat)));
                }
                v.push(b);
                cur = cur / 256;
                i += 1;
            }
            // trim the sign-extension bytes
            while v.len() > 1 && v[v.len() - 1] == 255
                invariant
                    v@.len() >= 1,
                    trim_ff(v@) == trim_ff(compl_bytes(le_bytes_fixed(m as nat, 16))),
                decreases v@.len(),
            {
                proof {
                    assert(trim_ff(v@) == trim_ff(v@.drop_last()));
                }
                v.pop();
                proof {
                }
            }
            proof {
                assert(trim_ff(v@) == v@);
                lemma_pow256_16();
                lemma_le_bytes_fixed_props(m as nat, 16);
                lemma_compl_bytes_value(le_bytes_fixed(m as nat, 16));
                lemma_trim_ff_value(compl_bytes(le_bytes_fixed(m as nat, 16)));
                let c0 = compl_bytes(le_bytes_fixed(m as nat, 16));
                assert(ext16(c0) == le_value(c0) + pow256(16) * (pow256(0) - 1));
                assert(pow256(16) * (pow256(0) - 1) == 0) by (nonlinear_arith)
                    requires pow256(0) == 1,
                ;
                assert(ext16(c0) == pow256(16) - 1 - m);
                assert(128 * pow256(15) * 2 == pow256(16)) by {
                    lemma_pow256_16();
                    reveal_with_fuel(pow256, 17);
                }
                assert(ext16(c0) >= 128 * pow256(15));
                assert(tc16(c0) == n);
            }
            Integer { signed_state: SignedState::SignedNegative, content: v }
        }
    }
}

/// The stored bytes padded with the sign-extension byte to the full width.
pub open spec fn pad16(c: Seq<u8>, fill: u8) -> Seq<u8> {
    c + fill_seq((16 - c.len()) as nat, fill)
}

/// Under one sign class, two integers denote one number exactly when their
/// sign-extended 16-byte forms coincide.
pub proof fn lemma_sem_eq_pad(a: Integer, b: Integer, fill: u8)
    requires
        a.wf(),
        b.wf(),
        (a.sign() is SignedNegative) == (b.sign() is SignedNegative),
        fill == (if a.sign() is SignedNegative { 255u8 } else { 0u8 }),
    ensures
        a.sem_eq(b) <==> pad16(a.bytes(), fill) == pad16(b.bytes(), fill),
{
    let ca = a.bytes();
    let cb = b.bytes();
    let pa = pad16(ca, fill);
    let pb = pad16(cb, fill);
    assert(pa.len() == 16 && pb.len() == 16);
    if a.sign() is SignedNegative {
        lemma_ext16_bound(ca);
        lemma_ext16_bound(cb);
        assert(le_value(pa) == ext16(ca));
        assert(le_value(pb) == ext16(cb));
        lemma_pow256_16();
        assert(128 * pow256(15) * 2 == pow256(16)) by {
            reveal_with_fuel(pow256, 17);
        }
        if a.sem_eq(b) {
            assert(tc16(ca) == tc16(cb));
            assert(ext16(ca) == ext16(cb));
            lemma_le_value_injective(pa, pb);
        } else {
            if pa == pb {
                assert(ext16(ca) == ext16(cb));
            }
        }
    } else {
        lemma_le_value_concat(ca, fill_seq((16 - ca.len()) as nat, 0));
        lemma_le_value_concat(cb, fill_seq((16 - cb.len()) as nat, 0));
        lemma_fill_seq_value((16 - ca.len()) as nat, 0);
        lemma_fill_seq_value((16 - cb.len()) as nat, 0);
        assert(pow256(ca.len()) * 0 == 0) by (nonlinear_arith);
        assert(pow256(cb.len()) * 0 == 0) by (nonlinear_arith);
        assert(le_value(pa) == le_value(ca));
        assert(le_value(pb) == le_value(cb));
        if a.sem_eq(b) {
            lemma_le_value_injective(pa, pb);
        }
    }
}

impl PartialEq for Integer {
    /// Compares the denoted numbers: `Unsigned` and `SignedPositive` are one
    /// class, a negative value only ever equals another negative value.
    fn eq(&self, other: &Integer) -> (r: bool)
        ensures
            r == self.sem_eq(*other),
    {
        proof {
            use_type_invariant(self);
            use_type_invariant(other);
        }
        let self_neg = matches!(self.signed_state, SignedState::SignedNegative);
        let other_neg = matches!(other.signed_state, SignedState::SignedNegative);
        if self_neg != other_neg {
            return false;
        }
        let fill: u8 = if self_neg {
            255
        } else {
            0
        };
        proof {
            lemma_sem_eq_pad(*self, *other, fill);
        }
        let mut i: usize = 0;
        while i < 16
            invariant
                i <= 16,
                self.wf(),
                other.wf(),
                (self.sign() is SignedNegative) == (other.sign() is SignedNegative),
                fill == (if self.sign() is SignedNegative { 255u8 } else { 0u8 }),
                self.sem_eq(*other) <==> pad16(self.bytes(), fill) == pad16(other.bytes(), fill),
                forall|j: int|
                    0 <= j < i ==> pad16(self.bytes(), fill)[j] == pad16(other.bytes(), fill)[j],
            decreases 16 - i,
        {
            let av: u8 = if i < self.content.len() {
                self.content[i]
            } else {
                fill
            };
            let bv: u8 = if i < other.content.len() {
                other.content[i]
            } else {
                fill
            };
            proof {
                assert(av == pad16(self.bytes(), fill)[i as int]);
                assert(bv == pad16(other.bytes(), fill)[i as int]);
            }
            if av != bv {
                proof {
                    assert(pad16(self.bytes(), fill) != pad16(other.bytes(), fill));
                }
                return false;
            }
            i += 1;
        }
        proof {
            assert(pad16(self.bytes(), fill) =~= pad16(other.bytes(), fill));
        }
        true
    }
}

impl Eq for Integer {

}

impl vstd::std_specs::cmp::PartialEqSpecImpl for Integer {
    open spec fn obeys_eq_spec() -> bool {
        true
    }

    open spec fn eq_spec(&self, other: &Integer) -> bool {
        self.sem_eq(*other)
    }
}

// ---------------------------------------------------------------------------
// Conversions back to machine integers.
// ---------------------------------------------------------------------------

/// Reads a stored byte string back as one unsigned number.
fn le_value_of(v: &Vec<u8>) -> (r: u128)
    requires
        v@.len() <= 16,
    ensures
        r as nat == le_value(v@),
{
    let ghost n = v@.len() as int;
    let mut acc: u128 = 0;
    let mut i: usize = v.len();
    proof {
        assert(v@.subrange(n, n) =~= Seq::<u8>::empty());
    }
    while i > 0
        invariant
            i <= v@.len() <= 16,
            acc as nat == le_value(v@.subrange(i as int, v@.len() as int)),
        decreases i,
    {
        i = i - 1;
        proof {
            let tail = v@.subrange(i as int + 1, v@.len() as int);
            let whole = v@.subrange(i as int, v@.len() as int);
            assert(whole[0] == v@[i as int]);
            assert(whole.drop_first() =~= tail);
            lemma_le_value_bound(tail);
            lemma_pow256_monotone(tail.len(), 15);
            lemma_pow256_16();
            assert(256 * le_value(tail) <= 256 * (pow256(15) - 1)) by (nonlinear_arith)
                requires le_value(tail) <= pow256(15) - 1,
            ;
        }
        acc = acc * 256 + (v[i] as u128);
    }
    proof {
        assert(v@.subrange(0, n) =~= v@);
    }
    acc
}

/// `vstd`'s generic power at base 256 is this module's `pow256`.
pub proof fn lemma_pow_256(k: nat)
    ensures
        vstd::arithmetic::power::pow(256, k) == pow256(k),
    decreases k,
{
    reveal(vstd::arithmetic::power::pow);
    if k > 0 {
        lemma_pow_256((k - 1) as nat);
        assert(vstd::arithmetic::power::pow(256, k) == 256 * vstd::arithmetic::power::pow(
            256,
            (k - 1) as nat,
        ));
        assert(pow256(k) == 256 * pow256((k - 1) as nat));
    }
}

impl Integer {
    /// Converts to `u32`: the stored bytes must not outnumber the four-byte
    /// width, and the sign must not be negative.
    pub fn try_to_u32(&self) -> (r: Result<u32, IntegerReadError>)
        ensures
            self.bytes().len() > 4 ==> r == Err::<u32, IntegerReadError>(
                IntegerReadError::TooBigToFit,
            ),
            self.bytes().len() <= 4 && self.sign() is SignedNegative ==> r == Err::<
                u32,
                IntegerReadError,
            >(IntegerReadError::SignError),
            self.bytes().len() <= 4 && !(self.sign() is SignedNegative) ==> (r matches Ok(v)
                && v as int == self.int_value()),
    {
        proof {
            use_type_invariant(self);
        }
        if self.content.len() > 4 {
            return Err(IntegerReadError::TooBigToFit);
        }
        if matches!(self.signed_state, SignedState::SignedNegative) {
            return Err(IntegerReadError::SignError);
        }
        let wide = le_value_of(&self.content);
        proof {
            lemma_le_value_bound(self.bytes());
            lemma_pow256_monotone(self.bytes().len(), 4);
            lemma_pow256_16();
        }
        Ok(wide as u32)
    }

    /// Converts to `u64` under the eight-byte width.
    pub fn try_to_u64(&self) -> (r: Result<u64, IntegerReadError>)
        ensures
            self.bytes().len() > 8 ==> r == Err::<u64, IntegerReadError>(
                IntegerReadError::TooBigToFit,
            ),
            self.bytes().len() <= 8 && self.sign() is SignedNegative ==> r == Err::<
                u64,
                IntegerReadError,
            >(IntegerReadError::SignError),
            self.bytes().len() <= 8 && !(self.sign() is SignedNegative) ==> (r matches Ok(v)
                && v as int == self.int_value()),
    {
        proof {
            use_type_invariant(self);
        }
        if self.content.len() > 8 {
            return Err(IntegerReadError::TooBigToFit);
        }
        if matches!(self.signed_state, SignedState::SignedNegative) {
            return Err(IntegerReadError::SignError);
        }
        let wide = le_value_of(&self.content);
        proof {
            lemma_le_value_bound(self.bytes());
            lemma_pow256_monotone(self.bytes().len(), 8);
            lemma_pow256_16();
        }
        Ok(wide as u64)
    }

    /// Converts to `u128`: only the sign can stand in the way.
    pub fn try_to_u128(&self) -> (r: Result<u128, IntegerReadError>)
        ensures
            self.sign() is SignedNegative ==> r == Err::<u128, IntegerReadError>(
                IntegerReadError::SignError,
            ),
            !(self.sign() is SignedNegative) ==> (r matches Ok(v) && v as int == self.int_value()),
    {
        proof {
            use_type_invariant(self);
        }
        if matches!(self.signed_state, SignedState::SignedNegative) {
            return Err(IntegerReadError::SignError);
        }
        let wide = le_value_of(&self.content);
        Ok(wide)
    }

    /// Converts to `usize` under the platform's word width.
    pub fn try_to_usize(&self) -> (r: Result<usize, IntegerReadError>)
        ensures
            self.bytes().len() > vstd::layout::size_of::<usize>() ==> r == Err::<
                usize,
                IntegerReadError,
            >(IntegerReadError::TooBigToFit),
            self.bytes().len() <= vstd::layout::size_of::<usize>() && self.sign()
                is SignedNegative ==> r == Err::<usize, IntegerReadError>(
                IntegerReadError::SignError,
            ),
            self.bytes().len() <= vstd::layout::size_of::<usize>() && !(self.sign()
                is SignedNegative) ==> (r matches Ok(v) && v as int == self.int_value()),
    {
        proof {
            use_type_invariant(self);
        }
        let width = core::mem::size_of::<usize>();
        if self.content.len() > width {
            return Err(IntegerReadError::TooBigToFit);
        }
        if matches!(self.signed_state, SignedState::SignedNegative) {
            return Err(IntegerReadError::SignError);
        }
        let wide = le_value_of(&self.content);
        proof {
            lemma_le_value_bound(self.bytes());
            lemma_pow256_monotone(self.bytes().len(), vstd::layout::size_of::<usize>() as nat);
            vstd::layout::unsigned_int_max_values();
            lemma_pow_256(vstd::layout::size_of::<usize>() as nat);
        }
        Ok(wide as usize)
    }

    /// Converts to `i128`: always possible, reading the full 16-byte
    /// two's-complement form under the value's own sign extension.
    pub fn try_to_i128(&self) -> (r: Result<i128, IntegerReadError>)
        ensures
            r matches Ok(v) && v as int == (if self.sign() is SignedNegative {
                self.int_value()
            } else {
                if le_value(self.bytes()) >= 128 * pow256(15) {
                    le_value(self.bytes()) - pow256(16)
                } else {
                    self.int_value()
                }
            }),
    {
        proof {
            use_type_invariant(self);
            lemma_pow256_16();
            assert(128 * pow256(15) * 2 == pow256(16)) by {
                reveal_with_fuel(pow256, 17);
            }
            lemma_le_value_bound(self.bytes());
        }
        let wide = le_value_of(&self.content);
        let ext: u128 = if matches!(self.signed_state, SignedState::SignedNegative) {
            let len = self.content.len();
            if len == 0 {
                proof {
                    assert(self.bytes() =~= Seq::<u8>::empty());
                    assert(le_value(self.bytes()) == 0);
                    assert(pow256(0) == 1);
                    assert(1 * (pow256(16) - 1) == pow256(16) - 1) by (nonlinear_arith);
                    assert(u128::MAX as int == ext16(self.bytes()));
                }
                u128::MAX
            } else if len == 16 {
                proof {
                    assert(pow256(0) == 1);
                    assert(pow256(16) * (pow256(0) - 1) == 0) by (nonlinear_arith)
                        requires pow256(0) == 1,
                    ;
                    assert(wide as int == ext16(self.bytes()));
                }
                wide
            } else {
                let low = pow256_exec(len);
                let high = pow256_exec(16 - len);
                proof {
                    lemma_pow256_split(len as nat, (16 - len) as nat);
                    lemma_pow256_positive((16 - len) as nat);
                    lemma_pow256_positive(len as nat);
                    assert(le_value(self.bytes()) + pow256(len as nat) * (pow256(
                        (16 - len) as nat,
                    ) - 1) < pow256(16)) by (nonlinear_arith)
                        requires
                            le_value(self.bytes()) < pow256(len as nat),
                            pow256(16) == pow256(len as nat) * pow256((16 - len) as nat),
                            pow256((16 - len) as nat) >= 1,
                    ;
                    assert(pow256(len as nat) * (pow256((16 - len) as nat) - 1) >= 0)
                        by (nonlinear_arith)
                        requires
                            pow256((16 - len) as nat) >= 1,
                            pow256(len as nat) >= 1,
                    ;
                }
                let r = wide + low * (high - 1);
                proof {
                    assert(r as int == ext16(self.bytes()));
                }
                r
            }
        } else {
            wide
        };
        proof {
            if self.sign() is SignedNegative {
                assert(ext as int == ext16(self.bytes()));
                lemma_ext16_bound(self.bytes());
            }
        }
        if ext >= 0x8000_0000_0000_0000_0000_0000_0000_0000u128 {
            let flipped = u128::MAX - ext;
            let out: i128 = -(flipped as i128) - 1;
            Ok(out)
        } else {
            Ok(ext as i128)
        }
    }
}

/// Sign-extends a short byte string with `0xFF` to width `w` and reads the
/// result as an unsigned little-endian number.
pub open spec fn extw(c: Seq<u8>, w: nat) -> int {
    le_value(c) + pow256(c.len()) * (pow256((w - c.len()) as nat) - 1)
}

/// Two's-complement reading of a byte string at width `w` under `0xFF` sign
/// extension: what the stored bytes of a negative number denote at a
/// narrower target type.
pub open spec fn tcw(c: Seq<u8>, w: nat) -> int {
    if extw(c, w) >= pow256(w) / 2 {
        extw(c, w) - pow256(w)
    } else {
        extw(c, w)
    }
}

pub proof fn lemma_extw_bound(c: Seq<u8>, w: nat)
    requires
        c.len() <= w,
    ensures
        0 <= extw(c, w) < pow256(w),
        w >= 1 ==> 2 * (pow256(w) / 2) == pow256(w),
    decreases w,
{
    lemma_le_value_bound(c);
    lemma_pow256_positive((w - c.len()) as nat);
    lemma_pow256_positive(c.len());
    lemma_pow256_split(c.len(), (w - c.len()) as nat);
    assert(le_value(c) + pow256(c.len()) * (pow256((w - c.len()) as nat) - 1) < pow256(w))
        by (nonlinear_arith)
    requires
        le_value(c) < pow256(c.len()),
        pow256(w) == pow256(c.len()) * pow256((w - c.len()) as nat),
        pow256((w - c.len()) as nat) >= 1,
    ;
    assert(pow256(c.len()) * (pow256((w - c.len()) as nat) - 1) >= 0) by (nonlinear_arith)
        requires
            pow256((w - c.len()) as nat) >= 1,
            pow256(c.len()) >= 1,
    ;
    if w > 0 {
        assert(pow256(w) == 256 * pow256((w - 1) as nat));
        assert(pow256(w) / 2 == 128 * pow256((w - 1) as nat)) by (nonlinear_arith)
            requires pow256(w) == 256 * pow256((w - 1) as nat),
        ;
        assert(2 * (128 * pow256((w - 1) as nat)) == 256 * pow256((w - 1) as nat))
            by (nonlinear_arith);
    }
}

impl Integer {
    /// Reads the stored bytes as a two's-complement number at width `w`,
    /// sign-extending with `0xFF` exactly as the wider conversions do.
    fn tcw_of(&self, w: usize) -> (r: i128)
        requires
            1 <= w <= 8,
            self.bytes().len() <= w,
        ensures
            r as int == tcw(self.bytes(), w as nat),
    {
        proof {
            use_type_invariant(self);
            lemma_extw_bound(self.bytes(), w as nat);
            lemma_pow256_monotone(w as nat, 15);
            lemma_pow256_16();
            lemma_le_value_bound(self.bytes());
        }
        let wide = le_value_of(&self.content);
        let len = self.content.len();
        let ext: u128 = if len == w {
            proof {
                assert(pow256(0) == 1);
                assert(pow256(len as nat) * (pow256(0) - 1) == 0) by (nonlinear_arith)
                    requires pow256(0) == 1,
                ;
            }
            wide
        } else {
            let low = pow256_exec(len);
            let high = pow256_exec(w - len);
            proof {
                lemma_pow256_positive((w - len) as nat);
                lemma_pow256_positive(len as nat);
            }
            wide + low * (high - 1)
        };
        let powv = pow256_exec(w);
        let half = powv / 2;
        if ext >= half {
            let mag = powv - ext;
            -(mag as i128)
        } else {
            ext as i128
        }
    }

    /// Converts to `u8`: the stored bytes must not outnumber the one-byte
    /// width, and the sign must not be negative.
    pub fn try_to_u8(&self) -> (r: Result<u8, IntegerReadError>)
        ensures
            self.bytes().len() > 1 ==> r == Err::<u8, IntegerReadError>(
                IntegerReadError::TooBigToFit,
            ),
            self.bytes().len() <= 1 && self.sign() is SignedNegative ==> r == Err::<
                u8,
                IntegerReadError,
            >(IntegerReadError::SignError),
            self.bytes().len() <= 1 && !(self.sign() is SignedNegative) ==> (r matches Ok(v)
                && v as int == self.int_value()),
    {
        proof {
            use_type_invariant(self);
        }
        if self.content.len() > 1 {
            return Err(IntegerReadError::TooBigToFit);
        }
        if matches!(self.signed_state, SignedState::SignedNegative) {
            return Err(IntegerReadError::SignError);
        }
        let wide = le_value_of(&self.content);
        proof {
            lemma_le_value_bound(self.bytes());
            lemma_pow256_monotone(self.bytes().len(), 1);
            lemma_pow256_16();
        }
        Ok(wide as u8)
    }

    /// Converts to `u16` under the two-byte width.
    pub fn try_to_u16(&self) -> (r: Result<u16, IntegerReadError>)
        ensures
            self.bytes().len() > 2 ==> r == Err::<u16, IntegerReadError>(
                IntegerReadError::TooBigToFit,
            ),
            self.bytes().len() <= 2 && self.sign() is SignedNegative ==> r == Err::<
                u16,
                IntegerReadError,
            >(IntegerReadError::SignError),
            self.bytes().len() <= 2 && !(self.sign() is SignedNegative) ==> (r matches Ok(v)
                && v as int == self.int_value()),
    {
        proof {
            use_type_invariant(self);
        }
        if self.content.len() > 2 {
            return Err(IntegerReadError::TooBigToFit);
        }
        if matches!(self.signed_state, SignedState::SignedNegative) {
            return Err(IntegerReadError::SignError);
        }
        let wide = le_value_of(&self.content);
        proof {
            lemma_le_value_bound(self.bytes());
            lemma_pow256_monotone(self.bytes().len(), 2);
            lemma_pow256_16();
        }
        Ok(wide as u16)
    }

    /// Converts to `i8`: the stored bytes are read as a one-byte
    /// two's-complement number under the value's own sign extension.
    pub fn try_to_i8(&self) -> (r: Result<i8, IntegerReadError>)
        ensures
            self.bytes().len() > 1 ==> r == Err::<i8, IntegerReadError>(
                IntegerReadError::TooBigToFit,
            ),
            self.bytes().len() <= 1 ==> (r matches Ok(v) && v as int == (
            if self.sign() is SignedNegative {
                tcw(self.bytes(), 1)
            } else {
                if le_value(self.bytes()) >= pow256(1) / 2 {
                    le_value(self.bytes()) - pow256(1)
                } else {
                    self.int_value()
                }
            })),
    {
        proof {
            use_type_invariant(self);
        }
        if self.content.len() > 1 {
            return Err(IntegerReadError::TooBigToFit);
        }
        proof {
            lemma_narrow_nonneg(self.bytes(), 1);
            lemma_extw_bound(self.bytes(), 1);
            lemma_pow256_16();
        }
        if matches!(self.signed_state, SignedState::SignedNegative) {
            Ok(self.tcw_of(1) as i8)
        } else {
            Ok(self.tcw_of_nonneg(1) as i8)
        }
    }

    /// Converts to `i16` under the two-byte width.
    pub fn try_to_i16(&self) -> (r: Result<i16, IntegerReadError>)
        ensures
            self.bytes().len() > 2 ==> r == Err::<i16, IntegerReadError>(
                IntegerReadError::TooBigToFit,
            ),
            self.bytes().len() <= 2 ==> (r matches Ok(v) && v as int == (
            if self.sign() is SignedNegative {
                tcw(self.bytes(), 2)
            } else {
                if le_value(self.bytes()) >= pow256(2) / 2 {
                    le_value(self.bytes()) - pow256(2)
                } else {
                    self.int_value()
                }
            })),
    {
        proof {
            use_type_invariant(self);
        }
        if self.content.len() > 2 {
            return Err(IntegerReadError::TooBigToFit);
        }
        proof {
            lemma_narrow_nonneg(self.bytes(), 2);
            lemma_extw_bound(self.bytes(), 2);
            lemma_pow256_16();
        }
        if matches!(self.signed_state, SignedState::SignedNegative) {
            Ok(self.tcw_of(2) as i16)
        } else {
            Ok(self.tcw_of_nonneg(2) as i16)
        }
    }

    /// Converts to `i32` under the four-byte width.
    pub fn try_to_i32(&self) -> (r: Result<i32, IntegerReadError>)
        ensures
            self.bytes().len() > 4 ==> r == Err::<i32, IntegerReadError>(
                IntegerReadError::TooBigToFit,
            ),
            self.bytes().len() <= 4 ==> (r matches Ok(v) && v as int == (
            if self.sign() is SignedNegative {
                tcw(self.bytes(), 4)
            } else {
                if le_value(self.bytes()) >= pow256(4) / 2 {
                    le_value(self.bytes()) - pow256(4)
                } else {
                    self.int_value()
                }
            })),
    {
        proof {
            use_type_invariant(self);
        }
        if self.content.len() > 4 {
            return Err(IntegerReadError::TooBigToFit);
        }
        proof {
            lemma_narrow_nonneg(self.bytes(), 4);
            lemma_extw_bound(self.bytes(), 4);
            lemma_pow256_16();
        }
        if matches!(self.signed_state, SignedState::SignedNegative) {
            Ok(self.tcw_of(4) as i32)
        } else {
            Ok(self.tcw_of_nonneg(4) as i32)
        }
    }

    /// Converts to `i64` under the eight-byte width.
    pub fn try_to_i64(&self) -> (r: Result<i64, IntegerReadError>)
        ensures
            self.bytes().len() > 8 ==> r == Err::<i64, IntegerReadError>(
                IntegerReadError::TooBigToFit,
            ),
            self.bytes().len() <= 8 ==> (r matches Ok(v) && v as int == (
            if self.sign() is SignedNegative {
                tcw(self.bytes(), 8)
            } else {
                if le_value(self.bytes()) >= pow256(8) / 2 {
                    le_value(self.bytes()) - pow256(8)
                } else {
                    self.int_value()
                }
            })),
    {
        proof {
            use_type_invariant(self);
        }
        if self.content.len() > 8 {
            return Err(IntegerReadError::TooBigToFit);
        }
        proof {
            lemma_narrow_nonneg(self.bytes(), 8);
            lemma_extw_bound(self.bytes(), 8);
            lemma_pow256_16();
        }
        if matches!(self.signed_state, SignedState::SignedNegative) {
            Ok(self.tcw_of(8) as i64)
        } else {
            Ok(self.tcw_of_nonneg(8) as i64)
        }
    }

    /// Reads the stored bytes of a non-negative value as a two's-complement
    /// number at width `w`: the zero extension wraps at the signed boundary.
    fn tcw_of_nonneg(&self, w: usize) -> (r: i128)
        requires
            1 <= w <= 8,
            self.bytes().len() <= w,
        ensures
            r as int == (if le_value(self.bytes()) >= pow256(w as nat) / 2 {
                le_value(self.bytes()) - pow256(w as nat)
            } else {
                le_value(self.bytes()) as int
            }),
    {
        proof {
            use_type_invariant(self);
            lemma_le_value_bound(self.bytes());
            lemma_pow256_monotone(self.bytes().len(), w as nat);
            lemma_pow256_monotone(w as nat, 15);
            lemma_pow256_16();
            lemma_extw_bound(self.bytes(), w as nat);
        }
        let wide = le_value_of(&self.content);
        let powv = pow256_exec(w);
        let half = powv / 2;
        if wide >= half {
            let mag = powv - wide;
            -(mag as i128)
        } else {
            wide as i128
        }
    }
}

impl Integer {
    /// Converts to `isize` under the platform's word width.
    pub fn try_to_isize(&self) -> (r: Result<isize, IntegerReadError>)
        ensures
            self.bytes().len() > vstd::layout::size_of::<usize>() ==> r == Err::<
                isize,
                IntegerReadError,
            >(IntegerReadError::TooBigToFit),
            self.bytes().len() <= vstd::layout::size_of::<usize>() ==> (r matches Ok(v)
                && v as int == (if self.sign() is SignedNegative {
                tcw(self.bytes(), vstd::layout::size_of::<usize>() as nat)
            } else {
                if le_value(self.bytes()) >= pow256(vstd::layout::size_of::<usize>() as nat) / 2 {
                    le_value(self.bytes()) - pow256(vstd::layout::size_of::<usize>() as nat)
                } else {
                    self.int_value()
                }
            })),
    {
        proof {
            use_type_invariant(self);
        }
        let w = core::mem::size_of::<usize>();
        proof {
            lemma_usize_width();
            assert(w == 4 || w == 8);
        }
        if self.content.len() > w {
            return Err(IntegerReadError::TooBigToFit);
        }
        proof {
            lemma_narrow_nonneg(self.bytes(), w as nat);
            lemma_extw_bound(self.bytes(), w as nat);
            lemma_pow256_16();
            assert(isize::MAX as int == pow256(w as nat) / 2 - 1);
            assert(isize::MIN as int == -(pow256(w as nat) / 2));
        }
        if matches!(self.signed_state, SignedState::SignedNegative) {
            Ok(self.tcw_of(w) as isize)
        } else {
            Ok(self.tcw_of_nonneg(w) as isize)
        }
    }
}

/// Narrowing a non-negative value never needs the sign extension.
pub proof fn lemma_narrow_nonneg(c: Seq<u8>, w: nat)
    requires
        c.len() <= w,
    ensures
        le_value(c) < pow256(w),
{
    lemma_le_value_bound(c);
    lemma_pow256_monotone(c.len(), w);
}

/// Computes `pow256(k)` for widths strictly below the full 16.
fn pow256_exec(k: usize) -> (r: u128)
    requires
        k <= 15,
    ensures
        r as nat == pow256(k as nat),
{
    let mut r: u128 = 1;
    let mut i: usize = 0;
    while i < k
        invariant
            i <= k <= 15,
            r as nat == pow256(i as nat),
        decreases k - i,
    {
        proof {
            lemma_pow256_monotone((i + 1) as nat, 15);
            lemma_pow256_16();
        }
        r = r * 256;
        i += 1;
    }
    r
}

/// The platform word is four or eight bytes wide, and `usize::MAX` is the
/// largest value those bytes can hold.
pub proof fn lemma_usize_width()
    ensures
        vstd::layout::size_of::<usize>() == 4 || vstd::layout::size_of::<usize>() == 8,
        usize::MAX as nat == pow256(vstd::layout::size_of::<usize>() as nat) - 1,
{
    broadcast use vstd::layout::layout_of_primitives;

    vstd::layout::unsigned_int_max_values();
    lemma_pow_256(vstd::layout::size_of::<usize>() as nat);
    assert(usize::BITS == 32 || usize::BITS == 64);
}

impl Integer {
    /// Builds an unsigned integer value from a `u8`.
    pub fn from_u8(n: u8) -> (r: Integer)
        ensures
            r.sign() == SignedState::Unsigned,
            r.bytes() == le_bytes(n as nat),
            r.int_value() == n as int,
    {
        Self::from_u128(n as u128)
    }

    /// Builds an unsigned integer value from a `u16`.
    pub fn from_u16(n: u16) -> (r: Integer)
        ensures
            r.sign() == SignedState::Unsigned,
            r.bytes() == le_bytes(n as nat),
            r.int_value() == n as int,
    {
        Self::from_u128(n as u128)
    }

    /// Builds an unsigned integer value from a `u32`.
    pub fn from_u32(n: u32) -> (r: Integer)
        ensures
            r.sign() == SignedState::Unsigned,
            r.bytes() == le_bytes(n as nat),
            r.int_value() == n as int,
    {
        Self::from_u128(n as u128)
    }

    /// Builds an unsigned integer value from a `u64`.
    pub fn from_u64(n: u64) -> (r: Integer)
        ensures
            r.sign() == SignedState::Unsigned,
            r.bytes() == le_bytes(n as nat),
            r.int_value() == n as int,
    {
        Self::from_u128(n as u128)
    }

    /// Builds an unsigned integer value from a `usize`.
    pub fn from_usize(n: usize) -> (r: Integer)
        ensures
            r.sign() == SignedState::Unsigned,
            r.bytes() == le_bytes(n as nat),
            r.int_value() == n as int,
    {
        Self::from_u128(n as u128)
    }

    /// Builds a signed integer value from an `i8`.
    pub fn from_i8(n: i8) -> (r: Integer)
        ensures
            r.sign() == (if n < 0 {
                SignedState::SignedNegative
            } else {
                SignedState::SignedPositive
            }),
            n >= 0 ==> r.bytes() == le_bytes(n as nat),
            n < 0 ==> r.bytes() == neg_bytes(n as int),
            r.int_value() == n as int,
    {
        Self::from_i128(n as i128)
    }

    /// Builds a signed integer value from an `i16`.
    pub fn from_i16(n: i16) -> (r: Integer)
        ensures
            r.sign() == (if n < 0 {
                SignedState::SignedNegative
            } else {
                SignedState::SignedPositive
            }),
            n >= 0 ==> r.bytes() == le_bytes(n as nat),
            n < 0 ==> r.bytes() == neg_bytes(n as int),
            r.int_value() == n as int,
    {
        Self::from_i128(n as i128)
    }

    /// Builds a signed integer value from an `i32`.
    pub fn from_i32(n: i32) -> (r: Integer)
        ensures
            r.sign() == (if n < 0 {
                SignedState::SignedNegative
            } else {
                SignedState::SignedPositive
            }),
            n >= 0 ==> r.bytes() == le_bytes(n as nat),
            n < 0 ==> r.bytes() == neg_bytes(n as int),
            r.int_value() == n as int,
    {
        Self::from_i128(n as i128)
    }

    /// Builds a signed integer value from an `i64`.
    pub fn from_i64(n: i64) -> (r: Integer)
        ensures
            r.sign() == (if n < 0 {
                SignedState::SignedNegative
            } else {
                SignedState::SignedPositive
            }),
            n >= 0 ==> r.bytes() == le_bytes(n as nat),
            n < 0 ==> r.bytes() == neg_bytes(n as int),
            r.int_value() == n as int,
    {
        Self::from_i128(n as i128)
    }

    /// Builds a signed integer value from an `isize`.
    pub fn from_isize(n: isize) -> (r: Integer)
        ensures
            r.sign() == (if n < 0 {
                SignedState::SignedNegative
            } else {
                SignedState::SignedPositive
            }),
            n >= 0 ==> r.bytes() == le_bytes(n as nat),
            n < 0 ==> r.bytes() == neg_bytes(n as int),
            r.int_value() == n as int,
    {
        Self::from_i128(n as i128)
    }
}

// ---------------------------------------------------------------------------
// The wire encoding.
// ---------------------------------------------------------------------------

/// The wire bytes of an integer with stored bytes `c`: a bare
/// byte when one byte at most 239 suffices, else a header `239 + k` followed
/// by the `k` stored bytes.
pub open spec fn spec_ser_int(c: Seq<u8>) -> Seq<u8> {
    if c.len() == 0 {
        seq![0u8]
    } else if c.len() == 1 && c[0] <= 239 {
        seq![c[0]]
    } else {
        seq![(239 + c.len()) as u8] + c
    }
}

/// The canonical unsigned wire form of a number.
pub open spec fn spec_vli_unsigned(n: nat) -> Seq<u8> {
    if n <= 239 {
        seq![n as u8]
    } else {
        seq![(239 + le_bytes(n).len()) as u8] + le_bytes(n)
    }
}

/// Laws of the unsigned encoding: the canonical stored bytes of `n` really
/// produce `spec_vli_unsigned(n)` on the wire; a number up to 239 is its own
/// single wire byte; a larger number gets the header `239 + k` where `k` is
/// the least byte count that can hold it.
pub proof fn lemma_vli_unsigned_canon(n: nat)
    requires
        n < pow256(16),
    ensures
        spec_ser_int(le_bytes(n)) == spec_vli_unsigned(n),
        n <= 239 ==> spec_vli_unsigned(n) == seq![n as u8],
        n > 239 ==> spec_vli_unsigned(n) == seq![(239 + le_bytes(n).len()) as u8] + le_bytes(n),
        n > 239 ==> n < pow256(le_bytes(n).len()) && pow256((le_bytes(n).len() - 1) as nat) <= n,
        1 <= spec_vli_unsigned(n).len(),
        n <= 239 <==> spec_vli_unsigned(n).len() == 1,
        n > 239 ==> spec_vli_unsigned(n).len() == 1 + le_bytes(n).len() && 1 <= le_bytes(n).len()
            <= 16,
        n > 239 ==> 240 <= spec_vli_unsigned(n)[0] <= 255,
{
    lemma_le_bytes_props(n);
    lemma_pow256_16();
    let c = le_bytes(n);
    if n == 0 {
        assert(c =~= Seq::<u8>::empty());
        assert(spec_ser_int(c) =~= seq![0u8]);
    } else if n <= 239 {
        assert(pow256(1) == 256);
        if c.len() >= 2 {
            lemma_pow256_monotone(1, (c.len() - 1) as nat);
        }
        assert(c.len() == 1);
        assert(le_value(c) == c[0] as nat + 256 * le_value(c.drop_first()));
        assert(le_value(c.drop_first()) == 0 && c[0] == n);
        assert(spec_ser_int(c) =~= seq![n as u8]);
    } else {
        if c.len() > 16 {
            lemma_pow256_monotone(16, (c.len() - 1) as nat);
        }
        if c.len() == 1 {
            assert(le_value(c) == c[0] as nat + 256 * le_value(c.drop_first()));
            assert(c[0] > 239);
        }
        assert(spec_ser_int(c) =~= seq![(239 + c.len()) as u8] + c);
    }
}

/// Laws of the signed encoding: zero is the single wire byte `0x00`, and
/// minus one stores the single significant byte `0xFF`, which the header rule
/// (a bare byte must be at most 239) puts on the wire as `0xF0 0xFF`.
pub proof fn lemma_signed_small_encodings()
    ensures
        neg_bytes(-1) == seq![255u8],
        spec_ser_int(neg_bytes(-1)) == seq![240u8, 255u8],
        le_bytes(0) == Seq::<u8>::empty(),
        spec_ser_int(le_bytes(0)) == seq![0u8],
{
    assert(le_bytes(0nat) =~= Seq::<u8>::empty());
    assert(spec_ser_int(le_bytes(0)) =~= seq![0u8]);
    lemma_pow256_positive(16);
    lemma_le_bytes_fixed_props(0, 16);
    lemma_fill_seq_value(16, 0);
    lemma_le_bytes_fixed_zero(16);
    assert(compl_bytes(fill_seq(16, 0)) =~= fill_seq(16, 255));
    lemma_trim_ff_fill(16);
    assert(neg_bytes(-1) == trim_ff(compl_bytes(le_bytes_fixed(0, 16))));
    assert(spec_ser_int(seq![255u8]) =~= seq![240u8, 255u8]);
}

/// Zero renders as a run of zero bytes at any fixed width.
pub proof fn lemma_le_bytes_fixed_zero(k: nat)
    ensures
        le_bytes_fixed(0, k) =~= fill_seq(k, 0),
    decreases k,
{
    if k > 0 {
        lemma_le_bytes_fixed_zero((k - 1) as nat);
        assert(le_bytes_fixed(0, k) =~= seq![0u8] + le_bytes_fixed(0, (k - 1) as nat));
    }
}

/// Trimming a pure run of sign bytes leaves exactly one.
pub proof fn lemma_trim_ff_fill(k: nat)
    requires
        k >= 1,
    ensures
        trim_ff(fill_seq(k, 255)) == seq![255u8],
    decreases k,
{
    if k == 1 {
        assert(fill_seq(1, 255) =~= seq![255u8]);
        assert(trim_ff(seq![255u8]) == seq![255u8]);
    } else {
        assert(fill_seq(k, 255).last() == 255);
        assert(fill_seq(k, 255).drop_last() =~= fill_seq((k - 1) as nat, 255));
        lemma_trim_ff_fill((k - 1) as nat);
    }
}

impl Serable for Integer {
    type ExtraOutput = SignedState;

    open spec fn spec_ser(&self) -> Seq<u8> {
        spec_ser_int(self.bytes())
    }

    open spec fn spec_extra_ok(&self, extra: SignedState) -> bool {
        extra == self.sign()
    }

    /// Appends the wire form: the sign is returned, never written.
    fn ser_into(&self, into: &mut Vec<u8>) -> (r: SignedState) {
        proof {
            use_type_invariant(self);
            assert(self.spec_extra_ok(self.signed_state));
        }
        if self.content.len() == 0 {
            into.push(0);
            proof {
                assert(final(into)@ =~= old(into)@ + self.spec_ser());
            }
            return self.signed_state;
        }
        if self.content.len() == 1 {
            let b = self.content[0];
            if b <= ONE_BYTE_MAX_SIZE {
                into.push(b);
                proof {
                    assert(final(into)@ =~= old(into)@ + self.spec_ser());
                }
                return self.signed_state;
            }
        }
        let header: u8 = ONE_BYTE_MAX_SIZE + (self.content.len() as u8);
        into.push(header);
        into.extend_from_slice(self.content.as_slice());
        proof {
            assert(final(into)@ =~= old(into)@ + self.spec_ser());
        }
        self.signed_state
    }
}

// ---------------------------------------------------------------------------
// The pull-driven decoder.
// ---------------------------------------------------------------------------

/// The bytes an integer decoder stores at completion when the wire carried
/// the canonical form of stored bytes `c`: the header form keeps its payload
/// bytes, the single-byte form keeps one byte unless it is an unsigned zero.
pub open spec fn spec_dec_content(sign: SignedState, c: Seq<u8>) -> Seq<u8> {
    let enc = spec_ser_int(c);
    if enc.len() == 1 {
        if sign is SignedNegative || enc[0] != 0 {
            seq![enc[0]]
        } else {
            Seq::empty()
        }
    } else {
        c
    }
}

/// What comes out of the decoder denotes the value that went in.
pub proof fn lemma_spec_dec_content(sign: SignedState, c: Seq<u8>)
    requires
        c.len() <= 16,
    ensures
        spec_dec_content(sign, c).len() <= c.len() || spec_dec_content(sign, c).len() <= 1,
        spec_dec_content(sign, c).len() <= 16,
        le_value(spec_dec_content(sign, c)) == le_value(c),
        sign is SignedNegative && c.len() >= 1 ==> spec_dec_content(sign, c) == c,
{
    let enc = spec_ser_int(c);
    let d = spec_dec_content(sign, c);
    assert(le_value(Seq::<u8>::empty()) == 0);
    if enc.len() == 1 {
        if c.len() == 0 {
            assert(enc[0] == 0);
            if sign is SignedNegative {
                assert(d =~= seq![0u8]);
                assert(d.drop_first() =~= Seq::<u8>::empty());
            }
        } else {
            assert(c.len() == 1 && c[0] <= 239);
            assert(enc[0] == c[0]);
            if sign is SignedNegative || enc[0] != 0 {
                assert(d =~= c);
            } else {
                assert(c[0] == 0);
                assert(c.drop_first() =~= Seq::<u8>::empty());
                assert(le_value(c) == 0);
            }
        }
    }
}

/// The pull-driven decoder for one integer. The sign arrives first as extra
/// input, then one byte decides between the single-byte form and a header,
/// then the payload bytes stream in.
#[derive(Debug)]
pub enum IntegerDeserialiser {
    /// Nothing has arrived: the machine waits for the sign.
    Start,
    /// The sign arrived; the machine waits for the first wire byte.
    GotSignedState { state: SignedState },
    /// The first wire byte arrived and has not been examined yet.
    GotSignedStateAndFirstByte { state: SignedState, first_byte: u8 },
    /// A header announced `needed` payload bytes; `space` holds those pulled so far.
    GotLenAndSomeBytes { state: SignedState, needed: usize, space: Vec<u8> },
    /// All announced payload bytes are in.
    GotAllBytes(SignedState, Vec<u8>),
}

impl Deserable for Integer {
    type Deserer = IntegerDeserialiser;
}

impl IntegerDeserialiser {
    /// Structural soundness of a reachable machine state.
    pub open spec fn inv(&self) -> bool {
        match self {
            IntegerDeserialiser::GotLenAndSomeBytes { needed, space, .. } => space@.len()
                <= *needed && 1 <= *needed <= 16,
            IntegerDeserialiser::GotAllBytes(_, bytes) => bytes@.len() <= 16,
            _ => true,
        }
    }

    /// How many pure processing steps can still happen before the machine
    /// asks for bytes again or completes.
    pub open spec fn rank(&self) -> nat {
        match self {
            IntegerDeserialiser::GotSignedStateAndFirstByte { .. } => 3,
            IntegerDeserialiser::GotLenAndSomeBytes { needed, space, .. } => 2,
            IntegerDeserialiser::GotAllBytes(..) => 1,
            _ => 0,
        }
    }

    /// Whether the machine was seeded with the unsigned sign (or is still
    /// waiting for one): such a machine can only hand out unsigned values.
    pub open spec fn is_unsigned(&self) -> bool {
        match self {
            IntegerDeserialiser::Start => true,
            IntegerDeserialiser::GotSignedState { state } => *state is Unsigned,
            IntegerDeserialiser::GotSignedStateAndFirstByte { state, .. } => *state is Unsigned,
            IntegerDeserialiser::GotLenAndSomeBytes { state, .. } => *state is Unsigned,
            IntegerDeserialiser::GotAllBytes(state, _) => *state is Unsigned,
        }
    }

    /// The unsigned number the bytes pulled so far already spell out; used
    /// by machines that read a count to bound their remaining work.
    pub open spec fn buffered_value(&self) -> nat {
        match self {
            IntegerDeserialiser::GotSignedStateAndFirstByte { first_byte, .. } => if *first_byte
                <= 239 {
                *first_byte as nat
            } else {
                0
            },
            IntegerDeserialiser::GotLenAndSomeBytes { space, .. } => le_value(space@),
            IntegerDeserialiser::GotAllBytes(_, bytes) => le_value(bytes@),
            _ => 0,
        }
    }

    /// What the machine asks of the driver in each state.
    pub open spec fn spec_wants(&self) -> DesiredInput {
        match self {
            IntegerDeserialiser::Start => DesiredInput::Extra,
            IntegerDeserialiser::GotSignedState { .. } => DesiredInput::Byte,
            IntegerDeserialiser::GotSignedStateAndFirstByte { .. } => DesiredInput::ProcessMe,
            IntegerDeserialiser::GotLenAndSomeBytes { needed, space, .. } => if space@.len()
                < *needed {
                DesiredInput::Bytes((*needed - space@.len()) as usize)
            } else {
                DesiredInput::ProcessMe
            },
            IntegerDeserialiser::GotAllBytes(..) => DesiredInput::ProcessMe,
        }
    }

    /// The machine has consumed the first `p` wire bytes of the canonical
    /// encoding of an integer with sign `sign` and stored bytes `c`.
    pub open spec fn following(&self, sign: SignedState, c: Seq<u8>, p: int) -> bool {
        let enc = spec_ser_int(c);
        &&& c.len() <= 16
        &&& 0 <= p <= enc.len()
        &&& match self {
            IntegerDeserialiser::Start => false,
            IntegerDeserialiser::GotSignedState { state } => state == sign && p == 0,
            IntegerDeserialiser::GotSignedStateAndFirstByte { state, first_byte } => {
                &&& state == sign
                &&& p == 1
                &&& *first_byte == enc[0]
            },
            IntegerDeserialiser::GotLenAndSomeBytes { state, needed, space } => {
                &&& state == sign
                &&& enc.len() >= 2
                &&& enc[0] > 239
                &&& *needed == enc.len() - 1
                &&& space@ == enc.subrange(1, p)
                &&& p == 1 + space@.len()
                &&& space@.len() <= *needed
            },
            IntegerDeserialiser::GotAllBytes(state, bytes) => {
                &&& state == sign
                &&& enc.len() >= 2
                &&& enc[0] > 239
                &&& bytes@ == enc.subrange(1, p)
                &&& p == enc.len()
            },
        }
    }

    /// While the machine follows an encoding: it never asks for the extra
    /// again, it asks for bytes only strictly inside the encoding and never
    /// for more than remain, and at the end it asks to be processed.
    pub proof fn lemma_following_wants(&self, sign: SignedState, c: Seq<u8>, p: int)
        requires
            self.following(sign, c, p),
        ensures
            !(self.spec_wants() is Extra),
            self.spec_wants() is Byte ==> self.byte_capacity() == 1,
            self.spec_wants() matches DesiredInput::Bytes(k) ==> k == self.byte_capacity(),
            self.byte_capacity() <= spec_ser_int(c).len() - p,
            (self.spec_wants() is Byte || self.spec_wants() is Bytes) ==> self.byte_capacity() > 0
                && p < spec_ser_int(c).len(),
            p == spec_ser_int(c).len() ==> self.spec_wants() is ProcessMe,
            self.inv(),
    {
        let enc = spec_ser_int(c);
        match self {
            IntegerDeserialiser::GotLenAndSomeBytes { state, needed, space } => {
                assert(space@.len() == enc.subrange(1, p).len());
            },
            _ => {},
        }
    }
}

impl DeserMachine for IntegerDeserialiser {
    type ExtraInput = SignedState;

    type Output = Integer;

    type Error = IntegerReadError;

    open spec fn byte_capacity(&self) -> nat {
        match self.spec_wants() {
            DesiredInput::Byte => 1,
            DesiredInput::Bytes(k) => k as nat,
            _ => 0,
        }
    }

    fn new() -> (r: Self)
        ensures
            r == IntegerDeserialiser::Start,
    {
        IntegerDeserialiser::Start
    }

    fn new_with_starting_input(state: SignedState) -> (r: Self)
        ensures
            r == (IntegerDeserialiser::GotSignedState { state }),
    {
        IntegerDeserialiser::GotSignedState { state }
    }

    fn wants_read(&self) -> (r: DesiredInput)
        ensures
            r == self.spec_wants(),
    {
        match self {
            IntegerDeserialiser::Start => DesiredInput::Extra,
            IntegerDeserialiser::GotSignedState { .. } => DesiredInput::Byte,
            IntegerDeserialiser::GotSignedStateAndFirstByte { .. } => DesiredInput::ProcessMe,
            IntegerDeserialiser::GotLenAndSomeBytes { needed, space, .. } => {
                if space.len() < *needed {
                    DesiredInput::Bytes(*needed - space.len())
                } else {
                    DesiredInput::ProcessMe
                }
            },
            IntegerDeserialiser::GotAllBytes(..) => DesiredInput::ProcessMe,
        }
    }

    fn give_starting_input(&mut self, state: SignedState)
        ensures
            *final(self) == (if *old(self) is Start {
                IntegerDeserialiser::GotSignedState { state }
            } else {
                *old(self)
            }),
    {
        if matches!(self, IntegerDeserialiser::Start) {
            *self = IntegerDeserialiser::GotSignedState { state };
        }
    }

    fn finish_bytes_for_writing(&mut self, bytes: &[u8])
        ensures
            old(self).inv() ==> final(self).inv(),
            bytes@.len() == 0 ==> *final(self) == *old(self),
            (*final(self) is Start) == (*old(self) is Start),
            *old(self) is Start || *old(self) is GotSignedStateAndFirstByte || *old(self)
                is GotAllBytes ==> *final(self) == *old(self),
            *old(self) matches IntegerDeserialiser::GotSignedState { state } ==> (if bytes@.len()
                == 1 {
                *final(self) == (IntegerDeserialiser::GotSignedStateAndFirstByte {
                    state,
                    first_byte: bytes@[0],
                })
            } else {
                *final(self) == *old(self)
            }),
            *old(self) matches IntegerDeserialiser::GotLenAndSomeBytes { state, needed, space }
                ==> (*final(self) matches IntegerDeserialiser::GotLenAndSomeBytes {
                state: s2,
                needed: n2,
                space: sp2,
            } && s2 == state && n2 == needed && sp2@ == space@ + bytes@),
            final(self).is_unsigned() == old(self).is_unsigned(),
            forall|sign: SignedState, c: Seq<u8>, p: int|
                #[trigger] old(self).following(sign, c, p) && bytes@.len() > 0 && p + bytes@.len()
                    <= spec_ser_int(c).len() && bytes@ == spec_ser_int(c).subrange(
                    p,
                    p + bytes@.len(),
                ) ==> final(self).following(sign, c, p + bytes@.len()),
    {
        let mut tmp = IntegerDeserialiser::Start;
        core::mem::swap(self, &mut tmp);
        let next = match tmp {
            IntegerDeserialiser::GotSignedState { state } => {
                if bytes.len() == 1 {
                    IntegerDeserialiser::GotSignedStateAndFirstByte {
                        state,
                        first_byte: bytes[0],
                    }
                } else {
                    IntegerDeserialiser::GotSignedState { state }
                }
            },
            IntegerDeserialiser::GotLenAndSomeBytes { state, needed, mut space } => {
                let ghost old_space = space@;
                if bytes.len() == 0 {
                    *self = IntegerDeserialiser::GotLenAndSomeBytes { state, needed, space };
                    return ;
                }
                let mut i: usize = 0;
                while i < bytes.len()
                    invariant
                        i <= bytes@.len(),
                        space@ == old_space + bytes@.subrange(0, i as int),
                    decreases bytes@.len() - i,
                {
                    proof {
                        assert(old_space + bytes@.subrange(0, i + 1) =~= (old_space
                            + bytes@.subrange(0, i as int)) + seq![bytes@[i as int]]);
                    }
                    space.push(bytes[i]);
                    i += 1;
                }
                proof {
                    assert(bytes@.subrange(0, bytes@.len() as int) =~= bytes@);
                }
                IntegerDeserialiser::GotLenAndSomeBytes { state, needed, space }
            },
            other => other,
        };
        *self = next;
        proof {
            assert forall|sign: SignedState, c: Seq<u8>, p: int|
                #[trigger] old(self).following(sign, c, p) && bytes@.len() > 0 && p + bytes@.len()
                    <= spec_ser_int(c).len() && bytes@ == spec_ser_int(c).subrange(
                    p,
                    p + bytes@.len(),
                ) implies next.following(sign, c, p + bytes@.len()) by {
                let enc = spec_ser_int(c);
                old(self).lemma_following_wants(sign, c, p);
                match *old(self) {
                    IntegerDeserialiser::GotSignedState { state } => {
                        assert(bytes@.len() == 1);
                        assert(bytes@[0] == enc[p]);
                    },
                    IntegerDeserialiser::GotLenAndSomeBytes { state, needed, space } => {
                        assert(next->space@ =~= enc.subrange(1, p + bytes@.len()));
                    },
                    _ => {},
                }
            }
        }
    }

    fn process(self) -> (r: Result<FsmResult<Self, Integer>, IntegerReadError>)
        ensures
            self.inv() ==> (r matches Ok(f) && (f matches FsmResult::Continue(m2) ==> m2.inv() && (
            self.spec_wants() is ProcessMe ==> m2.rank() < self.rank() && m2.buffered_value()
                <= self.buffered_value()))),
            r matches Ok(FsmResult::Continue(m2)) ==> ((m2 is Start) == (self is Start))
                && m2.is_unsigned() == self.is_unsigned(),
            r matches Ok(FsmResult::Done(v)) ==> le_value(v.bytes()) <= self.buffered_value(),
            r matches Err(e) ==> e == IntegerReadError::TooBigToFit,
            r matches Ok(FsmResult::Done(_)) ==> (self is GotSignedStateAndFirstByte || self
                is GotAllBytes),
            self matches IntegerDeserialiser::GotSignedStateAndFirstByte { state, first_byte }
                ==> (first_byte > 239 ==> r matches Ok(FsmResult::Continue(_))),
            self matches IntegerDeserialiser::GotSignedStateAndFirstByte { state, first_byte }
                ==> (first_byte <= 239 ==> (r matches Ok(FsmResult::Done(v)) && v.sign() == state
                && v.bytes() == (if state is SignedNegative || first_byte != 0 {
                seq![first_byte]
            } else {
                Seq::<u8>::empty()
            }))),
            self matches IntegerDeserialiser::GotAllBytes(state, b) ==> (b@.len() <= 16 ==> (
            r matches Ok(FsmResult::Done(v)) && v.sign() == state && v.bytes() == b@)),
            self matches IntegerDeserialiser::GotAllBytes(state, b) ==> (b@.len() > 16 ==> r
                == Err::<FsmResult<Self, Integer>, IntegerReadError>(
                IntegerReadError::TooBigToFit,
            )),
            forall|sign: SignedState, c: Seq<u8>, p: int|
                #[trigger] self.following(sign, c, p) && self.spec_wants() is ProcessMe ==> match r {
                    Ok(FsmResult::Continue(m2)) => m2.following(sign, c, p) && m2.rank()
                        < self.rank(),
                    Ok(FsmResult::Done(v)) => p == spec_ser_int(c).len() && v.sign() == sign
                        && v.bytes() == spec_dec_content(sign, c),
                    Err(_) => false,
                },
    {
        match self {
            IntegerDeserialiser::GotSignedStateAndFirstByte { state, first_byte } => {
                if first_byte <= ONE_BYTE_MAX_SIZE {
                    let mut content: Vec<u8> = Vec::new();
                    if matches!(state, SignedState::SignedNegative) || first_byte != 0 {
                        content.push(first_byte);
                    }
                    let out = Integer { signed_state: state, content };
                    proof {
                        assert(le_value(Seq::<u8>::empty()) == 0);
                        if out.bytes().len() == 1 {
                            assert(out.bytes().drop_first() =~= Seq::<u8>::empty());
                            assert(le_value(out.bytes()) == first_byte);
                        }
                        assert forall|sign: SignedState, c: Seq<u8>, p: int|
                            #[trigger] self.following(sign, c, p) && self.spec_wants()
                                is ProcessMe implies p == spec_ser_int(c).len() && out.sign()
                            == sign && out.bytes() == spec_dec_content(sign, c) by {
                            let enc = spec_ser_int(c);
                            assert(enc[0] == first_byte);
                            assert(enc.len() == 1);
                            if sign is SignedNegative || first_byte != 0 {
                                assert(out.bytes() =~= spec_dec_content(sign, c));
                            } else {
                                assert(out.bytes() =~= spec_dec_content(sign, c));
                            }
                        }
                    }
                    Ok(FsmResult::Done(out))
                } else {
                    let needed = (first_byte - ONE_BYTE_MAX_SIZE) as usize;
                    let m2 = IntegerDeserialiser::GotLenAndSomeBytes {
                        state,
                        needed,
                        space: Vec::new(),
                    };
                    proof {
                        assert forall|sign: SignedState, c: Seq<u8>, p: int|
                            #[trigger] self.following(sign, c, p) && self.spec_wants()
                                is ProcessMe implies m2.following(sign, c, p) && m2.rank()
                            < self.rank() by {
                            let enc = spec_ser_int(c);
                            assert(enc[0] == first_byte);
                            assert(enc =~= seq![(239 + c.len()) as u8] + c);
                            assert(m2->space@ =~= enc.subrange(1, 1));
                        }
                    }
                    Ok(FsmResult::Continue(m2))
                }
            },
            IntegerDeserialiser::GotLenAndSomeBytes { state, needed, space } => {
                if space.len() >= needed {
                    if space.len() > 16 {
                        return Err(IntegerReadError::TooBigToFit);
                    }
                    let m2 = IntegerDeserialiser::GotAllBytes(state, space);
                    proof {
                        assert forall|sign: SignedState, c: Seq<u8>, p: int|
                            #[trigger] self.following(sign, c, p) && self.spec_wants()
                                is ProcessMe implies m2.following(sign, c, p) && m2.rank()
                            < self.rank() by {
                        }
                    }
                    Ok(FsmResult::Continue(m2))
                } else {
                    Ok(
                        FsmResult::Continue(
                            IntegerDeserialiser::GotLenAndSomeBytes { state, needed, space },
                        ),
                    )
                }
            },
            IntegerDeserialiser::GotAllBytes(state, bytes) => {
                if bytes.len() > 16 {
                    return Err(IntegerReadError::TooBigToFit);
                }
                let out = Integer { signed_state: state, content: bytes };
                proof {
                    assert forall|sign: SignedState, c: Seq<u8>, p: int|
                        #[trigger] self.following(sign, c, p) && self.spec_wants()
                            is ProcessMe implies p == spec_ser_int(c).len() && out.sign() == sign
                        && out.bytes() == spec_dec_content(sign, c) by {
                        let enc = spec_ser_int(c);
                        assert(out.bytes() =~= enc.subrange(1, enc.len() as int));
                        assert(enc =~= seq![(239 + c.len()) as u8] + c);
                        assert(out.bytes() =~= c);
                    }
                }
                Ok(FsmResult::Done(out))
            },
            waiting => Ok(FsmResult::Continue(waiting)),
        }
    }
}

/// `n` with its low `i` bytes shifted away.
pub open spec fn shift_down(n: nat, i: nat) -> nat
    decreases i,
{
    if i == 0 {
        n
    } else {
        shift_down(n, (i - 1) as nat) / 256
    }
}

/// One step of the fixed-width rendering: the next byte is the next base-256
/// digit of what is left after shifting.
pub proof fn lemma_le_bytes_fixed_step(n: nat, i: nat)
    ensures
        le_bytes_fixed(n, (i + 1) as nat) =~= le_bytes_fixed(n, i) + seq![
            (shift_down(n, i) % 256) as u8,
        ],
        shift_down(n, (i + 1) as nat) == shift_down(n, i) / 256,
    decreases i,
{
    if i == 0 {
        assert(le_bytes_fixed(n, 1) =~= seq![(n % 256) as u8] + le_bytes_fixed(n / 256, 0));
    } else {
        lemma_le_bytes_fixed_step(n / 256, (i - 1) as nat);
        lemma_shift_down_div(n, (i - 1) as nat);
        assert(le_bytes_fixed(n, (i + 1) as nat) =~= seq![(n % 256) as u8] + le_bytes_fixed(
            n / 256,
            i,
        ));
        assert(le_bytes_fixed(n, i) =~= seq![(n % 256) as u8] + le_bytes_fixed(
            n / 256,
            (i - 1) as nat,
        ));
    }
}

/// Shifting then dividing is dividing then shifting.
pub proof fn lemma_shift_down_div(n: nat, i: nat)
    ensures
        shift_down(n / 256, i) == shift_down(n, (i + 1) as nat),
    decreases i,
{
    if i == 0 {
        assert(shift_down(n / 256, 0) == n / 256);
        assert(shift_down(n, 1) == shift_down(n, 0) / 256);
    } else {
        lemma_shift_down_div(n, (i - 1) as nat);
        assert(shift_down(n / 256, i) == shift_down(n / 256, (i - 1) as nat) / 256);
        assert(shift_down(n, (i + 1) as nat) == shift_down(n, i) / 256);
    }
}

} // verus!
