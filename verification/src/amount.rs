//! Fixed-point claim amounts.
//!
//! A CSV amount is a human-readable (UI) decimal number. The canonical claim
//! record stores integer base units: `floor(ui_amount * 10^decimals)`. To keep
//! that conversion exact, a UI amount is held as its decimal digits (an
//! integer part and a sequence of fraction digits) and the scaling is done in
//! 64-bit integer arithmetic with explicit overflow checks.

use vstd::prelude::*;

use crate::error::MerkleTreeError;

verus! {

/// The largest `decimals` for which `10^decimals` fits in a `u64`.
pub const MAX_DECIMALS: u32 = 19;

/// `10^k` as a mathematical integer.
pub open spec fn pow10(k: nat) -> nat
    decreases k,
{
    if k == 0 {
        1
    } else {
        10 * pow10((k - 1) as nat)
    }
}

/// The value of the first `k` fraction digits read as a `k`-digit integer,
/// i.e. `floor(0.d0 d1 d2 ... * 10^k)`. Digits past the end of the sequence
/// count as zero; digits past `k` are truncated (floor semantics).
pub open spec fn frac_scaled(frac: Seq<u8>, k: nat) -> nat
    decreases k,
{
    if k == 0 {
        0
    } else if frac.len() == 0 {
        0
    } else {
        (frac[0] * pow10((k - 1) as nat) + frac_scaled(frac.skip(1), (k - 1) as nat)) as nat
    }
}

/// Mathematical view of a [`UiAmount`].
pub struct UiAmountView {
    pub int_part: u64,
    pub frac: Seq<u8>,
}

impl UiAmountView {
    /// Every fraction digit is an actual decimal digit.
    pub open spec fn wf(self) -> bool {
        forall|i: int| 0 <= i < self.frac.len() ==> self.frac[i] <= 9
    }

    /// `floor(value * 10^decimals)` as a mathematical integer.
    pub open spec fn base_units(self, decimals: nat) -> nat {
        (self.int_part * pow10(decimals) + frac_scaled(self.frac, decimals)) as nat
    }

    /// The amount is exactly zero.
    pub open spec fn is_zero(self) -> bool {
        self.int_part == 0 && forall|i: int| 0 <= i < self.frac.len() ==> self.frac[i] == 0
    }
}

/// A non-negative UI amount as exact decimal digits: `int_part.frac[0]frac[1]...`
#[derive(Debug)]
pub struct UiAmount {
    /// The digits before the decimal point, as an integer.
    pub int_part: u64,
    /// The digits after the decimal point, most significant first; each is 0..=9.
    pub frac: Vec<u8>,
}

impl View for UiAmount {
    type V = UiAmountView;

    open spec fn view(&self) -> UiAmountView {
        UiAmountView { int_part: self.int_part, frac: self.frac@ }
    }
}

impl Clone for UiAmount {
    fn clone(&self) -> (r: Self)
        ensures
            r@ == self@,
    {
        UiAmount { int_part: self.int_part, frac: clone_digits(&self.frac) }
    }
}

/// Copies a digit vector; spelled out so the view equality is verified.
fn clone_digits(v: &Vec<u8>) -> (r: Vec<u8>)
    ensures
        r@ == v@,
{
    let mut r: Vec<u8> = Vec::new();
    let mut i: usize = 0;
    while i < v.len()
        invariant
            i <= v.len(),
            r@ == v@.take(i as int),
        decreases v.len() - i,
    {
        r.push(v[i]);
        assert(v@.take(i + 1) == v@.take(i as int).push(v@[i as int]));
        i = i + 1;
    }
    assert(v@.take(v@.len() as int) == v@);
    r
}

impl UiAmount {
    /// The amount `0`.
    pub fn zero() -> (r: Self)
        ensures
            r@.wf(),
            r@.is_zero(),
            r@ == (UiAmountView { int_part: 0u64, frac: Seq::<u8>::empty() }),
    {
        UiAmount { int_part: 0, frac: Vec::new() }
    }

    /// The amount is exactly zero.
    pub fn is_zero(&self) -> (r: bool)
        ensures
            r == self@.is_zero(),
    {
        if self.int_part != 0 {
            return false;
        }
        let mut i: usize = 0;
        while i < self.frac.len()
            invariant
                i <= self.frac.len(),
                self.int_part == 0,
                forall|j: int| 0 <= j < i ==> self.frac@[j] == 0,
            decreases self.frac.len() - i,
        {
            if self.frac[i] != 0 {
                assert(self@.frac[i as int] != 0);
                return false;
            }
            i = i + 1;
        }
        true
    }

    /// Every stored fraction digit is a decimal digit.
    pub fn check_wf(&self) -> (r: bool)
        ensures
            r == self@.wf(),
    {
        let mut i: usize = 0;
        while i < self.frac.len()
            invariant
                i <= self.frac.len(),
                forall|j: int| 0 <= j < i ==> self.frac@[j] <= 9,
            decreases self.frac.len() - i,
        {
            if self.frac[i] > 9 {
                assert(self@.frac[i as int] > 9);
                return false;
            }
            i = i + 1;
        }
        true
    }
}

/// `pow10` grows by a factor of ten per step, so it is strictly monotonic.
proof fn lemma_pow10_mono(a: nat, b: nat)
    requires
        a <= b,
    ensures
        pow10(a) <= pow10(b),
        pow10(a) >= 1,
    decreases b,
{
    if a < b {
        lemma_pow10_mono(a, (b - 1) as nat);
    } else if b > 0 {
        lemma_pow10_mono((a - 1) as nat, (b - 1) as nat);
    }
}

/// The value of `k` fraction digits is below `10^k`.
proof fn lemma_frac_scaled_bound(frac: Seq<u8>, k: nat)
    requires
        forall|i: int| 0 <= i < frac.len() ==> frac[i] <= 9,
    ensures
        frac_scaled(frac, k) < pow10(k),
    decreases k,
{
    lemma_pow10_mono(0, k);
    if k > 0 && frac.len() > 0 {
        lemma_frac_scaled_bound(frac.skip(1), (k - 1) as nat);
        assert(frac[0] <= 9);
        assert(frac[0] * pow10((k - 1) as nat) <= 9 * pow10((k - 1) as nat))
            by (nonlinear_arith)
            requires
                frac[0] <= 9,
                pow10((k - 1) as nat) >= 0,
        ;
    }
}

/// Reading one more digit multiplies the running value by ten and adds the
/// next digit (zero past the end of the sequence).
proof fn lemma_frac_scaled_step(frac: Seq<u8>, k: nat)
    ensures
        frac_scaled(frac, k + 1) == frac_scaled(frac, k) * 10 + (if k < frac.len() {
            frac[k as int] as nat
        } else {
            0
        }),
    decreases k,
{
    let d: nat = if k < frac.len() {
        frac[k as int] as nat
    } else {
        0
    };
    if frac.len() == 0 {
        assert(frac_scaled(frac, k + 1) == 0);
        assert(frac_scaled(frac, k) == 0);
    } else if k == 0 {
        assert(frac_scaled(frac, 1) == frac[0] * pow10(0) + frac_scaled(frac.skip(1), 0));
        assert(frac[0] * 1 == frac[0]) by (nonlinear_arith);
    } else {
        lemma_frac_scaled_step(frac.skip(1), (k - 1) as nat);
        assert(frac.skip(1).len() == frac.len() - 1);
        assert(frac_scaled(frac, k + 1) == frac[0] * pow10(k) + frac_scaled(frac.skip(1), k));
        assert(frac_scaled(frac, k) == frac[0] * pow10((k - 1) as nat) + frac_scaled(
            frac.skip(1),
            (k - 1) as nat,
        ));
        assert(frac[0] * pow10(k) == (frac[0] * pow10((k - 1) as nat)) * 10) by (nonlinear_arith)
            requires
                k >= 1,
                pow10(k) == 10 * pow10((k - 1) as nat),
        ;
        if k < frac.len() {
            assert(frac.skip(1)[k - 1] == frac[k as int]);
        }
    }
}

/// `10^decimals` as a `u64`, or `None` when `decimals` exceeds [`MAX_DECIMALS`].
fn pow10_u64(decimals: u32) -> (r: Option<u64>)
    ensures
        decimals <= MAX_DECIMALS ==> (r matches Some(p) && p == pow10(decimals as nat)),
        decimals > MAX_DECIMALS ==> r is None,
{
    if decimals > MAX_DECIMALS {
        return None;
    }
    proof {
        reveal_with_fuel(pow10, 21);
        lemma_pow10_mono(decimals as nat, 19);
        assert(pow10(19) == 10000000000000000000);
    }
    let mut p: u64 = 1;
    let mut i: u32 = 0;
    while i < decimals
        invariant
            i <= decimals <= MAX_DECIMALS,
            p == pow10(i as nat),
        decreases decimals - i,
    {
        proof {
            lemma_pow10_mono((i + 1) as nat, 19);
            reveal_with_fuel(pow10, 21);
            assert(pow10(19) == 10000000000000000000);
        }
        p = p * 10;
        i = i + 1;
    }
    Some(p)
}

/// `floor(0.frac * 10^decimals)` as a `u64`.
fn frac_base_units(frac: &Vec<u8>, decimals: u32) -> (r: u64)
    requires
        decimals <= MAX_DECIMALS,
        forall|i: int| 0 <= i < frac@.len() ==> frac@[i] <= 9,
    ensures
        r == frac_scaled(frac@, decimals as nat),
{
    proof {
        reveal_with_fuel(pow10, 21);
        assert(pow10(19) == 10000000000000000000);
    }
    let mut acc: u64 = 0;
    let mut k: u32 = 0;
    while k < decimals
        invariant
            k <= decimals <= MAX_DECIMALS,
            acc == frac_scaled(frac@, k as nat),
            forall|i: int| 0 <= i < frac@.len() ==> frac@[i] <= 9,
        decreases decimals - k,
    {
        let digit: u8 = if (k as usize) < frac.len() {
            frac[k as usize]
        } else {
            0
        };
        proof {
            lemma_frac_scaled_bound(frac@, k as nat);
            lemma_pow10_mono(k as nat, 18);
            reveal_with_fuel(pow10, 21);
            assert(pow10(18) == 1000000000000000000);
            lemma_frac_scaled_step(frac@, k as nat);
        }
        acc = acc * 10 + (digit as u64);
        k = k + 1;
    }
    acc
}

/// Converts a UI amount to integer base units: `floor(ui_amount * 10^decimals)`.
///
/// Returns `ArithmeticError` when `10^decimals` does not fit in a `u64`
/// (`decimals > 19`) or when the scaled amount overflows the `u64` domain.
pub fn ui_amount_to_token_amount(amount: &UiAmount, decimals: u32) -> (r: Result<
    u64,
    MerkleTreeError,
>)
    requires
        amount@.wf(),
    ensures
        r is Ok <==> (decimals <= MAX_DECIMALS && amount@.base_units(decimals as nat) <= u64::MAX),
        r matches Ok(v) ==> v == amount@.base_units(decimals as nat),
        r matches Err(e) ==> e == MerkleTreeError::ArithmeticError,
{
    let pow: u64 = match pow10_u64(decimals) {
        Some(p) => p,
        None => {
            return Err(MerkleTreeError::ArithmeticError);
        },
    };
    let scaled_int: u64 = match amount.int_part.checked_mul(pow) {
        Some(v) => v,
        None => {
            return Err(MerkleTreeError::ArithmeticError);
        },
    };
    assert(forall|i: int| 0 <= i < amount.frac@.len() ==> amount.frac@[i] <= 9) by {
        assert(amount@.wf());
        assert(forall|i: int| 0 <= i < amount@.frac.len() ==> amount@.frac[i] <= 9);
    }
    let scaled_frac: u64 = frac_base_units(&amount.frac, decimals);
    match scaled_int.checked_add(scaled_frac) {
        Some(v) => Ok(v),
        None => Err(MerkleTreeError::ArithmeticError),
    }
}

} // verus!
