//! Attribute kinds, fixed-point arithmetic and the dense attribute vector.
//!
//! Every attribute value is a signed fixed-point number: the integer `v`
//! stands for `v / SCALE`. Arithmetic that would leave the `i64` range
//! reports `EvalError::OutOfRange` instead of wrapping.
use vstd::prelude::*;

verus! {

/// One fixed-point unit: the integer `SCALE` stands for the value 1.
pub const SCALE: i64 = 1_000_000;

/// Number of attribute kinds, and so the length of every attribute vector.
pub const N_ATTRIBUTES: usize = 29;

/// Why an evaluation could not produce a score.
#[derive(Clone, Copy, Debug, PartialEq, Eq, Structural)]
pub enum EvalError {
    /// A path names an affix that the combination does not list for that slot.
    AffixNotFound,
    /// A value left the range of the fixed-point representation.
    OutOfRange,
    /// The input needs a scoring path that is not implemented (a positive
    /// secondary power coefficient).
    Unsupported,
    /// The inputs of a run disagree with each other.
    InvalidInput,
}

/// The closed set of attribute kinds.
#[derive(Clone, Copy, Debug, PartialEq, Eq, Structural)]
pub enum Attribute {
    Power,
    Precision,
    Toughness,
    Vitality,
    Ferocity,
    ConditionDamage,
    Expertise,
    Concentration,
    HealingPower,
    Armor,
    Health,
    MaxHealth,
    CriticalChance,
    CriticalDamage,
    BoonDuration,
    CloneCriticalChance,
    PhantasmCriticalChance,
    EffectivePower,
    NonCritEffectivePower,
    PowerCoefficient,
    NonCritPowerCoefficient,
    Power2Coefficient,
    Power2DPS,
    SiphonBaseCoefficient,
    SiphonDPS,
    StrikeDamage,
    SiphonDamage,
    FlatDPS,
    Damage,
}

impl Attribute {
    /// The slot of this kind in an attribute vector.
    pub open spec fn idx(self) -> int {
        match self {
            Attribute::Power => 0,
            Attribute::Precision => 1,
            Attribute::Toughness => 2,
            Attribute::Vitality => 3,
            Attribute::Ferocity => 4,
            Attribute::ConditionDamage => 5,
            Attribute::Expertise => 6,
            Attribute::Concentration => 7,
            Attribute::HealingPower => 8,
            Attribute::Armor => 9,
            Attribute::Health => 10,
            Attribute::MaxHealth => 11,
            Attribute::CriticalChance => 12,
            Attribute::CriticalDamage => 13,
            Attribute::BoonDuration => 14,
            Attribute::CloneCriticalChance => 15,
            Attribute::PhantasmCriticalChance => 16,
            Attribute::EffectivePower => 17,
            Attribute::NonCritEffectivePower => 18,
            Attribute::PowerCoefficient => 19,
            Attribute::NonCritPowerCoefficient => 20,
            Attribute::Power2Coefficient => 21,
            Attribute::Power2DPS => 22,
            Attribute::SiphonBaseCoefficient => 23,
            Attribute::SiphonDPS => 24,
            Attribute::StrikeDamage => 25,
            Attribute::SiphonDamage => 26,
            Attribute::FlatDPS => 27,
            Attribute::Damage => 28,
        }
    }

    pub fn index(self) -> (r: usize)
        ensures
            r == self.idx(),
            r < N_ATTRIBUTES,
    {
        match self {
            Attribute::Power => 0,
            Attribute::Precision => 1,
            Attribute::Toughness => 2,
            Attribute::Vitality => 3,
            Attribute::Ferocity => 4,
            Attribute::ConditionDamage => 5,
            Attribute::Expertise => 6,
            Attribute::Concentration => 7,
            Attribute::HealingPower => 8,
            Attribute::Armor => 9,
            Attribute::Health => 10,
            Attribute::MaxHealth => 11,
            Attribute::CriticalChance => 12,
            Attribute::CriticalDamage => 13,
            Attribute::BoonDuration => 14,
            Attribute::CloneCriticalChance => 15,
            Attribute::PhantasmCriticalChance => 16,
            Attribute::EffectivePower => 17,
            Attribute::NonCritEffectivePower => 18,
            Attribute::PowerCoefficient => 19,
            Attribute::NonCritPowerCoefficient => 20,
            Attribute::Power2Coefficient => 21,
            Attribute::Power2DPS => 22,
            Attribute::SiphonBaseCoefficient => 23,
            Attribute::SiphonDPS => 24,
            Attribute::StrikeDamage => 25,
            Attribute::SiphonDamage => 26,
            Attribute::FlatDPS => 27,
            Attribute::Damage => 28,
        }
    }

    /// Point-style attributes are shown as whole numbers, so converted
    /// contributions to them are rounded.
    pub open spec fn spec_is_point_key(self) -> bool {
        match self {
            Attribute::Power | Attribute::Precision | Attribute::Toughness | Attribute::Vitality
            | Attribute::Ferocity | Attribute::ConditionDamage | Attribute::Expertise
            | Attribute::Concentration | Attribute::HealingPower | Attribute::Armor => true,
            _ => false,
        }
    }

    pub fn is_point_key(self) -> (r: bool)
        ensures
            r == self.spec_is_point_key(),
    {
        match self {
            Attribute::Power | Attribute::Precision | Attribute::Toughness | Attribute::Vitality
            | Attribute::Ferocity | Attribute::ConditionDamage | Attribute::Expertise
            | Attribute::Concentration | Attribute::HealingPower | Attribute::Armor => true,
            _ => false,
        }
    }
}

/// `x` as a fixed-point value, or `OutOfRange` when it does not fit.
pub open spec fn fit(x: int) -> Result<i64, EvalError> {
    if i64::MIN <= x <= i64::MAX {
        Ok(x as i64)
    } else {
        Err(EvalError::OutOfRange)
    }
}

/// Fixed-point sum.
pub open spec fn spec_fx_add(a: i64, b: i64) -> Result<i64, EvalError> {
    fit(a + b)
}

/// Fixed-point difference.
pub open spec fn spec_fx_sub(a: i64, b: i64) -> Result<i64, EvalError> {
    fit(a - b)
}

/// Fixed-point product, rounded down to the nearest unit of the representation.
pub open spec fn spec_fx_mul(a: i64, b: i64) -> Result<i64, EvalError> {
    fit((a * b) / (SCALE as int))
}

/// `a` divided by the positive integer `d`, rounded down.
pub open spec fn spec_fx_div(a: i64, d: i64) -> Result<i64, EvalError> {
    fit(a / d)
}

/// The multiple of `SCALE` nearest to `x`; a tie goes to the even whole number.
pub open spec fn round_half_even(x: int) -> int {
    let q = x / (SCALE as int);
    let r = x % (SCALE as int);
    if 2 * r < SCALE {
        q * SCALE
    } else if 2 * r > SCALE {
        (q + 1) * SCALE
    } else if q % 2 == 0 {
        q * SCALE
    } else {
        (q + 1) * SCALE
    }
}

/// Rounds a fixed-point value to a whole number, half to even.
pub open spec fn spec_fx_round(x: i64) -> Result<i64, EvalError> {
    fit(round_half_even(x as int))
}

/// `x` held to the fixed-point interval [0, 1].
pub open spec fn spec_clamp_unit(x: i64) -> i64 {
    if x < 0 {
        0
    } else if x > SCALE {
        SCALE
    } else {
        x
    }
}

pub fn fx_add(a: i64, b: i64) -> (r: Result<i64, EvalError>)
    ensures
        r == spec_fx_add(a, b),
{
    match a.checked_add(b) {
        Some(x) => Ok(x),
        None => Err(EvalError::OutOfRange),
    }
}

pub fn fx_sub(a: i64, b: i64) -> (r: Result<i64, EvalError>)
    ensures
        r == spec_fx_sub(a, b),
{
    match a.checked_sub(b) {
        Some(x) => Ok(x),
        None => Err(EvalError::OutOfRange),
    }
}

pub fn fx_mul(a: i64, b: i64) -> (r: Result<i64, EvalError>)
    ensures
        r == spec_fx_mul(a, b),
{
    proof {
        assert(-0x8000_0000_0000_0000 <= a <= 0x7fff_ffff_ffff_ffff);
        assert(-0x8000_0000_0000_0000 <= b <= 0x7fff_ffff_ffff_ffff);
        assert(-0x4000_0000_0000_0000_0000_0000_0000_0000 <= (a as int) * (b as int)
            <= 0x4000_0000_0000_0000_0000_0000_0000_0000) by (nonlinear_arith)
            requires
                -0x8000_0000_0000_0000 <= a <= 0x7fff_ffff_ffff_ffff,
                -0x8000_0000_0000_0000 <= b <= 0x7fff_ffff_ffff_ffff,
        ;
    }
    let p: i128 = (a as i128) * (b as i128);
    let q: i128 = match p.checked_div_euclid(SCALE as i128) {
        Some(q) => q,
        None => {
            return Err(EvalError::OutOfRange);
        },
    };
    if q < i64::MIN as i128 || q > i64::MAX as i128 {
        Err(EvalError::OutOfRange)
    } else {
        Ok(q as i64)
    }
}

pub fn fx_div(a: i64, d: i64) -> (r: Result<i64, EvalError>)
    requires
        d > 0,
    ensures
        r == spec_fx_div(a, d),
{
    match a.checked_div_euclid(d) {
        Some(x) => Ok(x),
        None => Err(EvalError::OutOfRange),
    }
}

pub fn fx_round(x: i64) -> (r: Result<i64, EvalError>)
    ensures
        r == spec_fx_round(x),
{
    let s: i128 = SCALE as i128;
    let xw: i128 = x as i128;
    let q: i128 = match xw.checked_div_euclid(s) {
        Some(q) => q,
        None => {
            return Err(EvalError::OutOfRange);
        },
    };
    let rem: i128 = match xw.checked_rem_euclid(s) {
        Some(m) => m,
        None => {
            return Err(EvalError::OutOfRange);
        },
    };
    let whole: i128 = if 2 * rem < s {
        q * s
    } else if 2 * rem > s {
        (q + 1) * s
    } else if q % 2 == 0 {
        q * s
    } else {
        (q + 1) * s
    };
    if whole < i64::MIN as i128 || whole > i64::MAX as i128 {
        Err(EvalError::OutOfRange)
    } else {
        Ok(whole as i64)
    }
}

pub fn clamp_unit(x: i64) -> (r: i64)
    ensures
        r == spec_clamp_unit(x),
{
    if x < 0 {
        0
    } else if x > SCALE {
        SCALE
    } else {
        x
    }
}

/// A dense vector with one fixed-point value per attribute kind.
pub struct AttributeVector {
    values: Vec<i64>,
}

/// `v` with `d` added to the entry of kind `k`.
pub open spec fn add_at(v: Seq<i64>, k: Attribute, d: i64) -> Result<Seq<i64>, EvalError> {
    match fit(v[k.idx()] + d) {
        Ok(x) => Ok(v.update(k.idx(), x)),
        Err(e) => Err(e),
    }
}

/// `v` with the deltas `ds` added one after the other, first to last.
pub open spec fn add_all(v: Seq<i64>, ds: Seq<(Attribute, i64)>) -> Result<Seq<i64>, EvalError>
    decreases ds.len(),
{
    if ds.len() == 0 {
        Ok(v)
    } else {
        match add_all(v, ds.drop_last()) {
            Ok(w) => add_at(w, ds.last().0, ds.last().1),
            Err(e) => Err(e),
        }
    }
}

/// Once a prefix of the deltas fails, the whole sequence fails the same way.
pub proof fn lemma_add_all_err_prefix(v: Seq<i64>, ds: Seq<(Attribute, i64)>, i: int)
    requires
        0 <= i <= ds.len(),
        add_all(v, ds.take(i)) is Err,
    ensures
        add_all(v, ds) == add_all(v, ds.take(i)),
    decreases ds.len(),
{
    if i == ds.len() {
        assert(ds.take(i) == ds);
    } else {
        assert(ds.drop_last().take(i) == ds.take(i));
        lemma_add_all_err_prefix(v, ds.drop_last(), i);
    }
}

/// The total of the deltas in `ds` for the kind at slot `k`.
pub open spec fn delta_sum(ds: Seq<(Attribute, i64)>, k: int) -> int
    decreases ds.len(),
{
    if ds.len() == 0 {
        0
    } else {
        delta_sum(ds.drop_last(), k) + if ds.last().0.idx() == k {
            ds.last().1 as int
        } else {
            0
        }
    }
}

proof fn lemma_delta_sum_concat(a: Seq<(Attribute, i64)>, b: Seq<(Attribute, i64)>, k: int)
    ensures
        delta_sum(a + b, k) == delta_sum(a, k) + delta_sum(b, k),
    decreases b.len(),
{
    if b.len() == 0 {
        assert(a + b == a);
    } else {
        assert((a + b).drop_last() == a + b.drop_last());
        lemma_delta_sum_concat(a, b.drop_last(), k);
    }
}

/// When adding the deltas in turn succeeds, each entry is its old value
/// plus the total of the deltas for its kind.
pub proof fn lemma_add_all_sum(v: Seq<i64>, ds: Seq<(Attribute, i64)>)
    requires
        v.len() == N_ATTRIBUTES,
        add_all(v, ds) is Ok,
    ensures
        add_all(v, ds)->Ok_0.len() == N_ATTRIBUTES,
        forall|k: int|
            0 <= k < N_ATTRIBUTES ==> add_all(v, ds)->Ok_0[k] == v[k] + delta_sum(ds, k),
    decreases ds.len(),
{
    if ds.len() > 0 {
        lemma_add_all_sum(v, ds.drop_last());
    }
}

proof fn lemma_delta_sum_permutation(d1: Seq<(Attribute, i64)>, d2: Seq<(Attribute, i64)>, k: int)
    requires
        d1.to_multiset() == d2.to_multiset(),
    ensures
        delta_sum(d1, k) == delta_sum(d2, k),
    decreases d1.len(),
{
    broadcast use vstd::seq_lib::group_to_multiset_ensures;
    broadcast use vstd::multiset::group_multiset_axioms;

    if d1.len() == 0 {
        assert(d1.to_multiset().len() == d1.len());
        assert(d2.to_multiset().len() == d2.len());
        assert(d2.len() == 0);
    } else {
        let x = d1.last();
        let front = d1.drop_last();
        assert(d1 == front.push(x));
        assert(d1.to_multiset() == front.to_multiset().insert(x));
        assert(d2.to_multiset().count(x) > 0);
        assert(d2.contains(x));
        let j = choose|j: int| 0 <= j < d2.len() && d2[j] == x;
        let rest = d2.remove(j);
        assert(rest.to_multiset() == d2.to_multiset().remove(x));
        assert(rest.to_multiset() =~= front.to_multiset());
        lemma_delta_sum_permutation(front, rest, k);
        let a = d2.take(j);
        let b = d2.skip(j + 1);
        assert(d2 == a + seq![x] + b);
        assert(rest == a + b);
        lemma_delta_sum_concat(a + seq![x], b, k);
        lemma_delta_sum_concat(a, seq![x], k);
        lemma_delta_sum_concat(a, b, k);
        assert(seq![x].drop_last() == Seq::<(Attribute, i64)>::empty());
        reveal_with_fuel(delta_sum, 2);
    }
}

/// Adding deltas is pure summation: any two orders of the same deltas give
/// the same vector whenever both stay in range.
pub proof fn lemma_add_any_order(v: Seq<i64>, d1: Seq<(Attribute, i64)>, d2: Seq<(Attribute, i64)>)
    requires
        v.len() == N_ATTRIBUTES,
        d1.to_multiset() == d2.to_multiset(),
        add_all(v, d1) is Ok,
        add_all(v, d2) is Ok,
    ensures
        add_all(v, d1) == add_all(v, d2),
{
    lemma_add_all_sum(v, d1);
    lemma_add_all_sum(v, d2);
    assert forall|k: int| 0 <= k < N_ATTRIBUTES implies delta_sum(d1, k) == delta_sum(d2, k) by {
        lemma_delta_sum_permutation(d1, d2, k);
    }
    assert(add_all(v, d1)->Ok_0 =~= add_all(v, d2)->Ok_0);
}

/// The vector whose every entry is zero.
pub open spec fn zeros() -> Seq<i64> {
    Seq::new(N_ATTRIBUTES as nat, |i: int| 0i64)
}

impl View for AttributeVector {
    type V = Seq<i64>;

    closed spec fn view(&self) -> Seq<i64> {
        self.values@
    }
}

impl AttributeVector {
    /// Every attribute vector has one entry per kind.
    pub closed spec fn wf(&self) -> bool {
        self.values@.len() == N_ATTRIBUTES
    }

    pub proof fn lemma_len(&self)
        requires
            self.wf(),
        ensures
            self@.len() == N_ATTRIBUTES,
    {
    }

    pub fn new() -> (r: Self)
        ensures
            r.wf(),
            r@ == zeros(),
    {
        let mut values: Vec<i64> = Vec::new();
        let mut i: usize = 0;
        while i < N_ATTRIBUTES
            invariant
                i <= N_ATTRIBUTES,
                values@ == Seq::new(i as nat, |j: int| 0i64),
            decreases N_ATTRIBUTES - i,
        {
            values.push(0);
            i = i + 1;
        }
        AttributeVector { values }
    }

    pub fn get(&self, kind: Attribute) -> (r: i64)
        requires
            self.wf(),
        ensures
            r == self@[kind.idx()],
    {
        self.values[kind.index()]
    }

    pub fn set(&mut self, kind: Attribute, value: i64)
        requires
            old(self).wf(),
        ensures
            final(self).wf(),
            final(self)@ == old(self)@.update(kind.idx(), value),
    {
        let i = kind.index();
        self.values.set(i, value);
    }

    /// Adds `delta` to the entry of `kind`; on `OutOfRange` the vector is unchanged.
    pub fn add(&mut self, kind: Attribute, delta: i64) -> (r: Result<(), EvalError>)
        requires
            old(self).wf(),
        ensures
            final(self).wf(),
            match add_at(old(self)@, kind, delta) {
                Ok(w) => r is Ok && final(self)@ == w,
                Err(e) => r == Err::<(), EvalError>(e) && final(self)@ == old(self)@,
            },
    {
        let i = kind.index();
        let x = fx_add(self.values[i], delta)?;
        self.values.set(i, x);
        Ok(())
    }

    /// Adds each delta in turn; stops at the first `OutOfRange`.
    pub fn add_each(&mut self, deltas: &Vec<(Attribute, i64)>) -> (r: Result<(), EvalError>)
        requires
            old(self).wf(),
        ensures
            final(self).wf(),
            match add_all(old(self)@, deltas@) {
                Ok(w) => r is Ok && final(self)@ == w,
                Err(e) => r == Err::<(), EvalError>(e),
            },
    {
        let mut i: usize = 0;
        while i < deltas.len()
            invariant
                self.wf(),
                i <= deltas@.len(),
                add_all(old(self)@, deltas@.take(i as int)) == Ok::<Seq<i64>, EvalError>(self@),
            decreases deltas@.len() - i,
        {
            let (kind, delta) = deltas[i];
            assert(deltas@.take(i + 1).drop_last() == deltas@.take(i as int));
            let step = self.add(kind, delta);
            if step.is_err() {
                proof {
                    lemma_add_all_err_prefix(old(self)@, deltas@, i + 1);
                }
                return step;
            }
            i = i + 1;
        }
        assert(deltas@.take(i as int) == deltas@);
        Ok(())
    }

    /// Resets every entry to zero.
    pub fn clear(&mut self)
        requires
            old(self).wf(),
        ensures
            final(self).wf(),
            final(self)@ == zeros(),
    {
        let mut i: usize = 0;
        while i < N_ATTRIBUTES
            invariant
                self.wf(),
                i <= N_ATTRIBUTES,
                forall|j: int| 0 <= j < i ==> self.values@[j] == 0,
            decreases N_ATTRIBUTES - i,
        {
            self.values.set(i, 0);
            assert(forall|j: int| 0 <= j < i ==> self.values@[j] == 0);
            i = i + 1;
        }
        assert(self@ == zeros());
    }

    pub fn clone(&self) -> (r: Self)
        requires
            self.wf(),
        ensures
            r.wf(),
            r@ == self@,
    {
        AttributeVector { values: self.values.clone() }
    }
}

} // verus!
