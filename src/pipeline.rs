//! The attribute pipeline: gear and base merge, derived stats, damage score.
use vstd::prelude::*;

use crate::attributes::{
    add_all, add_at, clamp_unit, fx_add, fx_div, fx_mul, fx_round, fx_sub, spec_clamp_unit,
    spec_fx_add, spec_fx_div, spec_fx_mul, spec_fx_round, spec_fx_sub, Attribute,
    AttributeVector, EvalError, SCALE,
};
use crate::attributes::zeros;
use crate::gear::{empty_gear, Affix, Character, Combination, Conversion, Modifiers, Share, MAX_SLOTS};

verus! {

/// Precision at which the critical chance from precision is zero.
pub const PRECISION_BASE: i64 = 1000 * SCALE;

/// Health gained per point of vitality.
pub const HEALTH_PER_VITALITY: i64 = 10 * SCALE;

/// Precision per percent of critical chance, times 100.
pub const PRECISION_PER_CHANCE: i64 = 2100;

/// Ferocity (or concentration) per percent of critical damage (or boon duration), times 100.
pub const POINTS_PER_PERCENT: i64 = 1500;

/// The reference armor value that damage is measured against.
pub const REFERENCE_ARMOR: i64 = 2597;

/// Whether a converted contribution to `target` is rounded.
pub open spec fn rounds(target: Attribute, no_rounding: bool) -> bool {
    target.spec_is_point_key() && !no_rounding
}

/// `percent` of `x`, rounded to a whole number when `round` holds.
pub open spec fn contribution(x: i64, percent: i64, round: bool) -> Result<i64, EvalError> {
    match spec_fx_mul(x, percent) {
        Ok(p) => if round {
            spec_fx_round(p)
        } else {
            Ok(p)
        },
        Err(e) => Err(e),
    }
}

/// Adds to `target` the share of each source, read from `base`.
pub open spec fn convert_shares(
    v: Seq<i64>,
    base: Seq<i64>,
    target: Attribute,
    shares: Seq<Share>,
    no_rounding: bool,
) -> Result<Seq<i64>, EvalError>
    decreases shares.len(),
{
    if shares.len() == 0 {
        Ok(v)
    } else {
        match convert_shares(v, base, target, shares.drop_last(), no_rounding) {
            Ok(w) => {
                let sh = shares.last();
                match contribution(base[sh.source.idx()], sh.percent, rounds(target, no_rounding)) {
                    Ok(c) => add_at(w, target, c),
                    Err(e) => Err(e),
                }
            },
            Err(e) => Err(e),
        }
    }
}

/// Applies the conversion rules in order, every source read from `base`.
pub open spec fn apply_convert(
    v: Seq<i64>,
    base: Seq<i64>,
    rules: Seq<Conversion>,
    no_rounding: bool,
) -> Result<Seq<i64>, EvalError>
    decreases rules.len(),
{
    if rules.len() == 0 {
        Ok(v)
    } else {
        match apply_convert(v, base, rules.drop_last(), no_rounding) {
            Ok(w) => convert_shares(w, base, rules.last().target, rules.last().sources@, no_rounding),
            Err(e) => Err(e),
        }
    }
}

/// Critical chances are held to [0, 1] before they are converted.
pub open spec fn is_clamped_source(a: Attribute) -> bool {
    a == Attribute::CriticalChance || a == Attribute::CloneCriticalChance || a
        == Attribute::PhantasmCriticalChance
}

/// The value of `source` that a conversion after buffs reads from `v`.
pub open spec fn after_source(v: Seq<i64>, source: Attribute) -> i64 {
    if is_clamped_source(source) {
        spec_clamp_unit(v[source.idx()])
    } else {
        v[source.idx()]
    }
}

/// Overwrites `target` with the share of each source in turn, read from `v`.
pub open spec fn overwrite_shares(
    v: Seq<i64>,
    target: Attribute,
    shares: Seq<Share>,
    no_rounding: bool,
) -> Result<Seq<i64>, EvalError>
    decreases shares.len(),
{
    if shares.len() == 0 {
        Ok(v)
    } else {
        match overwrite_shares(v, target, shares.drop_last(), no_rounding) {
            Ok(w) => {
                let sh = shares.last();
                match contribution(
                    after_source(w, sh.source),
                    sh.percent,
                    rounds(target, no_rounding),
                ) {
                    Ok(c) => Ok(w.update(target.idx(), c)),
                    Err(e) => Err(e),
                }
            },
            Err(e) => Err(e),
        }
    }
}

/// Applies the conversion rules after buffs in order.
pub open spec fn apply_after_buffs(v: Seq<i64>, rules: Seq<Conversion>, no_rounding: bool) -> Result<
    Seq<i64>,
    EvalError,
>
    decreases rules.len(),
{
    if rules.len() == 0 {
        Ok(v)
    } else {
        match apply_after_buffs(v, rules.drop_last(), no_rounding) {
            Ok(w) => overwrite_shares(w, rules.last().target, rules.last().sources@, no_rounding),
            Err(e) => Err(e),
        }
    }
}

/// `critical_chance += (precision - 1000) / 2100`.
pub open spec fn derive_crit_chance(v: Seq<i64>) -> Result<Seq<i64>, EvalError> {
    match spec_fx_sub(v[Attribute::Precision.idx()], PRECISION_BASE) {
        Ok(d) => match spec_fx_div(d, PRECISION_PER_CHANCE) {
            Ok(c) => add_at(v, Attribute::CriticalChance, c),
            Err(e) => Err(e),
        },
        Err(e) => Err(e),
    }
}

/// `target += source / 1500`.
pub open spec fn derive_ratio(v: Seq<i64>, source: Attribute, target: Attribute) -> Result<
    Seq<i64>,
    EvalError,
> {
    match spec_fx_div(v[source.idx()], POINTS_PER_PERCENT) {
        Ok(c) => add_at(v, target, c),
        Err(e) => Err(e),
    }
}

/// `health = round((health + 10 vitality) (1 + max_health))`.
pub open spec fn derive_health(v: Seq<i64>) -> Result<Seq<i64>, EvalError> {
    match spec_fx_mul(v[Attribute::Vitality.idx()], HEALTH_PER_VITALITY) {
        Ok(vit) => match spec_fx_add(v[Attribute::Health.idx()], vit) {
            Ok(sum) => match spec_fx_add(SCALE, v[Attribute::MaxHealth.idx()]) {
                Ok(factor) => match spec_fx_mul(sum, factor) {
                    Ok(h) => match spec_fx_round(h) {
                        Ok(r) => Ok(v.update(Attribute::Health.idx(), r)),
                        Err(e) => Err(e),
                    },
                    Err(e) => Err(e),
                },
                Err(e) => Err(e),
            },
            Err(e) => Err(e),
        },
        Err(e) => Err(e),
    }
}

/// The fixed formulas, in order: critical chance, critical damage, boon
/// duration, health.
pub open spec fn derive_stats(v: Seq<i64>) -> Result<Seq<i64>, EvalError> {
    match derive_crit_chance(v) {
        Ok(v1) => match derive_ratio(v1, Attribute::Ferocity, Attribute::CriticalDamage) {
            Ok(v2) => match derive_ratio(v2, Attribute::Concentration, Attribute::BoonDuration) {
                Ok(v3) => derive_health(v3),
                Err(e) => Err(e),
            },
            Err(e) => Err(e),
        },
        Err(e) => Err(e),
    }
}

/// The derived attributes of a character whose base attributes are `base`.
pub open spec fn stats(base: Seq<i64>, mods: &Modifiers, no_rounding: bool) -> Result<
    Seq<i64>,
    EvalError,
> {
    match apply_convert(base, base, mods.convert@, no_rounding) {
        Ok(v1) => match add_all(v1, mods.buff@) {
            Ok(v2) => match derive_stats(v2) {
                Ok(v3) => apply_after_buffs(v3, mods.convert_after_buffs@, no_rounding),
                Err(e) => Err(e),
            },
            Err(e) => Err(e),
        },
        Err(e) => Err(e),
    }
}

/// Conversions read the base attributes before any buff applies. With one
/// conversion of `percent` of `source` into `target`, a buff to `source`,
/// no conversion after buffs and no rounding, the target gains exactly
/// `percent` of the unbuffed source; applying the buff first would have
/// converted `source + bonus` instead.
pub proof fn lemma_convert_precedes_buff(
    base: Seq<i64>,
    mods: &Modifiers,
    target: Attribute,
    source: Attribute,
    percent: i64,
    bonus: i64,
)
    requires
        base.len() == crate::attributes::N_ATTRIBUTES,
        mods.convert@.len() == 1,
        mods.convert@[0].target == target,
        mods.convert@[0].sources@ == seq![Share { source, percent }],
        mods.buff@ == seq![(source, bonus)],
        mods.convert_after_buffs@.len() == 0,
        target != source,
        target != Attribute::CriticalChance,
        target != Attribute::CriticalDamage,
        target != Attribute::BoonDuration,
        target != Attribute::Health,
        stats(base, mods, true) is Ok,
    ensures
        stats(base, mods, true)->Ok_0[target.idx()] == base[target.idx()] + (base[source.idx()]
            * percent) / (SCALE as int),
{
    let shares = mods.convert@[0].sources@;
    assert(shares.drop_last().len() == 0);
    assert(mods.convert@.drop_last().len() == 0);
    assert(mods.buff@.drop_last().len() == 0);
    assert(apply_convert(base, base, mods.convert@.drop_last(), true) == Ok::<Seq<i64>, EvalError>(base));
    assert(convert_shares(base, base, target, shares.drop_last(), true) == Ok::<Seq<i64>, EvalError>(base));
    assert(shares.last() == Share { source, percent });
    assert(0 <= target.idx() < 29 && 0 <= source.idx() < 29);
    assert(mods.convert@.last() == mods.convert@[0]);
    let v1 = apply_convert(base, base, mods.convert@, true)->Ok_0;
    assert(add_all(v1, mods.buff@.drop_last()) == Ok::<Seq<i64>, EvalError>(v1));
    assert(mods.buff@.last() == (source, bonus));
    assert(target.idx() != source.idx());
    let v2 = add_all(v1, mods.buff@)->Ok_0;
    assert(target.idx() != Attribute::CriticalChance.idx());
    assert(target.idx() != Attribute::CriticalDamage.idx());
    assert(target.idx() != Attribute::BoonDuration.idx());
    assert(target.idx() != Attribute::Health.idx());
    let v3 = derive_stats(v2)->Ok_0;
    assert(v1[target.idx()] == base[target.idx()] + (base[source.idx()] * percent) / (SCALE as int));
    assert(v2[target.idx()] == v1[target.idx()]);
    assert(v3[target.idx()] == v2[target.idx()]);
}

fn convert_rule(
    attributes: &mut AttributeVector,
    base: &AttributeVector,
    rule: &Conversion,
    no_rounding: bool,
) -> (r: Result<(), EvalError>)
    requires
        old(attributes).wf(),
        base.wf(),
    ensures
        final(attributes).wf(),
        match convert_shares(old(attributes)@, base@, rule.target, rule.sources@, no_rounding) {
            Ok(w) => r is Ok && final(attributes)@ == w,
            Err(e) => r == Err::<(), EvalError>(e),
        },
{
    let round = rule.target.is_point_key() && !no_rounding;
    let mut i: usize = 0;
    while i < rule.sources.len()
        invariant
            attributes.wf(),
            base.wf(),
            round == rounds(rule.target, no_rounding),
            i <= rule.sources@.len(),
            convert_shares(old(attributes)@, base@, rule.target, rule.sources@.take(i as int), no_rounding)
                == Ok::<Seq<i64>, EvalError>(attributes@),
        decreases rule.sources@.len() - i,
    {
        let share = rule.sources[i];
        proof {
            assert(rule.sources@.take(i + 1).drop_last() == rule.sources@.take(i as int));
            lemma_convert_shares_err_prefix(old(attributes)@, base@, rule.target, rule.sources@, no_rounding, i + 1);
        }
        let mut c = fx_mul(base.get(share.source), share.percent)?;
        if round {
            c = fx_round(c)?;
        }
        attributes.add(rule.target, c)?;
        i = i + 1;
    }
    assert(rule.sources@.take(i as int) == rule.sources@);
    Ok(())
}

proof fn lemma_convert_shares_err_prefix(
    v: Seq<i64>,
    base: Seq<i64>,
    target: Attribute,
    shares: Seq<Share>,
    no_rounding: bool,
    i: int,
)
    requires
        0 <= i <= shares.len(),
    ensures
        convert_shares(v, base, target, shares.take(i), no_rounding) is Err ==> convert_shares(
            v,
            base,
            target,
            shares,
            no_rounding,
        ) == convert_shares(v, base, target, shares.take(i), no_rounding),
    decreases shares.len(),
{
    if i == shares.len() {
        assert(shares.take(i) == shares);
    } else {
        assert(shares.drop_last().take(i) == shares.take(i));
        lemma_convert_shares_err_prefix(v, base, target, shares.drop_last(), no_rounding, i);
    }
}

proof fn lemma_apply_convert_err_prefix(
    v: Seq<i64>,
    base: Seq<i64>,
    rules: Seq<Conversion>,
    no_rounding: bool,
    i: int,
)
    requires
        0 <= i <= rules.len(),
    ensures
        apply_convert(v, base, rules.take(i), no_rounding) is Err ==> apply_convert(
            v,
            base,
            rules,
            no_rounding,
        ) == apply_convert(v, base, rules.take(i), no_rounding),
    decreases rules.len(),
{
    if i == rules.len() {
        assert(rules.take(i) == rules);
    } else {
        assert(rules.drop_last().take(i) == rules.take(i));
        lemma_apply_convert_err_prefix(v, base, rules.drop_last(), no_rounding, i);
    }
}

proof fn lemma_overwrite_err_prefix(
    v: Seq<i64>,
    target: Attribute,
    shares: Seq<Share>,
    no_rounding: bool,
    i: int,
)
    requires
        0 <= i <= shares.len(),
    ensures
        overwrite_shares(v, target, shares.take(i), no_rounding) is Err ==> overwrite_shares(
            v,
            target,
            shares,
            no_rounding,
        ) == overwrite_shares(v, target, shares.take(i), no_rounding),
    decreases shares.len(),
{
    if i == shares.len() {
        assert(shares.take(i) == shares);
    } else {
        assert(shares.drop_last().take(i) == shares.take(i));
        lemma_overwrite_err_prefix(v, target, shares.drop_last(), no_rounding, i);
    }
}

proof fn lemma_after_buffs_err_prefix(
    v: Seq<i64>,
    rules: Seq<Conversion>,
    no_rounding: bool,
    i: int,
)
    requires
        0 <= i <= rules.len(),
    ensures
        apply_after_buffs(v, rules.take(i), no_rounding) is Err ==> apply_after_buffs(
            v,
            rules,
            no_rounding,
        ) == apply_after_buffs(v, rules.take(i), no_rounding),
    decreases rules.len(),
{
    if i == rules.len() {
        assert(rules.take(i) == rules);
    } else {
        assert(rules.drop_last().take(i) == rules.take(i));
        lemma_after_buffs_err_prefix(v, rules.drop_last(), no_rounding, i);
    }
}

fn overwrite_rule(attributes: &mut AttributeVector, rule: &Conversion, no_rounding: bool) -> (r:
    Result<(), EvalError>)
    requires
        old(attributes).wf(),
    ensures
        final(attributes).wf(),
        match overwrite_shares(old(attributes)@, rule.target, rule.sources@, no_rounding) {
            Ok(w) => r is Ok && final(attributes)@ == w,
            Err(e) => r == Err::<(), EvalError>(e),
        },
{
    let round = rule.target.is_point_key() && !no_rounding;
    let mut i: usize = 0;
    while i < rule.sources.len()
        invariant
            attributes.wf(),
            round == rounds(rule.target, no_rounding),
            i <= rule.sources@.len(),
            overwrite_shares(old(attributes)@, rule.target, rule.sources@.take(i as int), no_rounding)
                == Ok::<Seq<i64>, EvalError>(attributes@),
        decreases rule.sources@.len() - i,
    {
        let share = rule.sources[i];
        proof {
            assert(rule.sources@.take(i + 1).drop_last() == rule.sources@.take(i as int));
            lemma_overwrite_err_prefix(old(attributes)@, rule.target, rule.sources@, no_rounding, i + 1);
        }
        let raw = attributes.get(share.source);
        let x = match share.source {
            Attribute::CriticalChance | Attribute::CloneCriticalChance
            | Attribute::PhantasmCriticalChance => clamp_unit(raw),
            _ => raw,
        };
        let mut c = fx_mul(x, share.percent)?;
        if round {
            c = fx_round(c)?;
        }
        attributes.set(rule.target, c);
        i = i + 1;
    }
    assert(rule.sources@.take(i as int) == rule.sources@);
    Ok(())
}

fn derive_formulas(attributes: &mut AttributeVector) -> (r: Result<(), EvalError>)
    requires
        old(attributes).wf(),
    ensures
        final(attributes).wf(),
        match derive_stats(old(attributes)@) {
            Ok(w) => r is Ok && final(attributes)@ == w,
            Err(e) => r == Err::<(), EvalError>(e),
        },
{
    let d = fx_sub(attributes.get(Attribute::Precision), PRECISION_BASE)?;
    let chance = fx_div(d, PRECISION_PER_CHANCE)?;
    attributes.add(Attribute::CriticalChance, chance)?;
    let crit_damage = fx_div(attributes.get(Attribute::Ferocity), POINTS_PER_PERCENT)?;
    attributes.add(Attribute::CriticalDamage, crit_damage)?;
    let boon = fx_div(attributes.get(Attribute::Concentration), POINTS_PER_PERCENT)?;
    attributes.add(Attribute::BoonDuration, boon)?;
    let vit = fx_mul(attributes.get(Attribute::Vitality), HEALTH_PER_VITALITY)?;
    let sum = fx_add(attributes.get(Attribute::Health), vit)?;
    let factor = fx_add(SCALE, attributes.get(Attribute::MaxHealth))?;
    let h = fx_mul(sum, factor)?;
    let health = fx_round(h)?;
    attributes.set(Attribute::Health, health);
    Ok(())
}

/// Derives the attributes of `character` from its base attributes under the
/// modifiers of `settings`: conversions from the base, then buffs, then the
/// fixed formulas, then conversions after buffs. With `no_rounding` the
/// conversions are not rounded; health always is.
pub fn calc_stats(character: &mut Character, settings: &Combination, no_rounding: bool) -> (r:
    Result<(), EvalError>)
    requires
        old(character).wf(),
    ensures
        final(character).wf(),
        final(character).base_attributes@ == old(character).base_attributes@,
        final(character).gear@ == old(character).gear@,
        match stats(old(character).base_attributes@, &settings.modifiers, no_rounding) {
            Ok(w) => r is Ok && final(character).attributes@ == w,
            Err(e) => r == Err::<(), EvalError>(e),
        },
{
    character.attributes = character.base_attributes.clone();
    let base = &character.base_attributes;
    let mods = &settings.modifiers;
    let ghost b = base@;
    let mut i: usize = 0;
    while i < mods.convert.len()
        invariant
            character.wf(),
            character.base_attributes@ == old(character).base_attributes@,
            character.gear@ == old(character).gear@,
            base.wf(),
            base@ == b,
            b == old(character).base_attributes@,
            *mods == settings.modifiers,
            i <= mods.convert@.len(),
            apply_convert(b, b, mods.convert@.take(i as int), no_rounding) == Ok::<
                Seq<i64>,
                EvalError,
            >(character.attributes@),
        decreases mods.convert@.len() - i,
    {
        proof {
            assert(mods.convert@.take(i + 1).drop_last() == mods.convert@.take(i as int));
            assert(mods.convert@.take(i + 1).last() == mods.convert@[i as int]);
            lemma_apply_convert_err_prefix(b, b, mods.convert@, no_rounding, i + 1);
        }
        convert_rule(&mut character.attributes, base, &mods.convert[i], no_rounding)?;
        i = i + 1;
    }
    assert(mods.convert@.take(i as int) == mods.convert@);
    character.attributes.add_each(&mods.buff)?;
    derive_formulas(&mut character.attributes)?;
    let ghost v3 = character.attributes@;
    let mut k: usize = 0;
    while k < mods.convert_after_buffs.len()
        invariant
            character.wf(),
            character.base_attributes@ == old(character).base_attributes@,
            character.gear@ == old(character).gear@,
            k <= mods.convert_after_buffs@.len(),
            *mods == settings.modifiers,
            stats(old(character).base_attributes@, mods, no_rounding) == apply_after_buffs(
                v3,
                mods.convert_after_buffs@,
                no_rounding,
            ),
            apply_after_buffs(v3, mods.convert_after_buffs@.take(k as int), no_rounding) == Ok::<
                Seq<i64>,
                EvalError,
            >(character.attributes@),
        decreases mods.convert_after_buffs@.len() - k,
    {
        proof {
            assert(mods.convert_after_buffs@.take(k + 1).drop_last()
                == mods.convert_after_buffs@.take(k as int));
            assert(mods.convert_after_buffs@.take(k + 1).last() == mods.convert_after_buffs@[k as int]);
            lemma_after_buffs_err_prefix(v3, mods.convert_after_buffs@, no_rounding, k + 1);
        }
        overwrite_rule(&mut character.attributes, &mods.convert_after_buffs[k], no_rounding)?;
        k = k + 1;
    }
    assert(mods.convert_after_buffs@.take(k as int) == mods.convert_after_buffs@);
    Ok(())
}

/// The damage multiplier of `kind`: the first listed for it, else 1.
pub open spec fn multiplier(list: Seq<(Attribute, i64)>, kind: Attribute) -> i64
    decreases list.len(),
{
    if list.len() == 0 {
        SCALE
    } else if list[0].0 == kind {
        list[0].1
    } else {
        multiplier(list.drop_first(), kind)
    }
}

impl Modifiers {
    pub fn get_dmg_multiplier(&self, kind: Attribute) -> (r: i64)
        ensures
            r == multiplier(self.damage_multipliers@, kind),
    {
        let list = &self.damage_multipliers;
        let mut i: usize = 0;
        assert(list@.skip(0) == list@);
        while i < list.len()
            invariant
                i <= list@.len(),
                list == &self.damage_multipliers,
                multiplier(list@.skip(i as int), kind) == multiplier(list@, kind),
            decreases list@.len() - i,
        {
            assert(list@.skip(i as int).drop_first() == list@.skip(i + 1));
            assert(list@.skip(i as int)[0] == list@[i as int]);
            if list[i].0 == kind {
                return list[i].1;
            }
            i = i + 1;
        }
        SCALE
    }
}

/// `power * (1 + chance * (crit_damage * m_strike - 1)) * m_strike`, the
/// chance held to [0, 1].
pub open spec fn effective_power(v: Seq<i64>, mods: &Modifiers) -> Result<i64, EvalError> {
    let m = mods.damage_multipliers@;
    match spec_fx_mul(v[Attribute::CriticalDamage.idx()], multiplier(m, Attribute::StrikeDamage)) {
        Ok(cd) => match spec_fx_sub(cd, SCALE) {
            Ok(g) => match spec_fx_mul(spec_clamp_unit(v[Attribute::CriticalChance.idx()]), g) {
                Ok(t) => match spec_fx_add(SCALE, t) {
                    Ok(f) => match spec_fx_mul(v[Attribute::Power.idx()], f) {
                        Ok(p) => spec_fx_mul(p, multiplier(m, Attribute::StrikeDamage)),
                        Err(e) => Err(e),
                    },
                    Err(e) => Err(e),
                },
                Err(e) => Err(e),
            },
            Err(e) => Err(e),
        },
        Err(e) => Err(e),
    }
}

/// `(coefficient / 2597) * power + (non_crit_coefficient / 2597) * non_crit_power`.
pub open spec fn power_damage(coefficient: i64, power: i64, non_crit_coefficient: i64, non_crit_power: i64) -> Result<i64, EvalError> {
    match spec_fx_mul(coefficient, power) {
        Ok(a) => match spec_fx_div(a, REFERENCE_ARMOR) {
            Ok(a2) => match spec_fx_mul(non_crit_coefficient, non_crit_power) {
                Ok(b) => match spec_fx_div(b, REFERENCE_ARMOR) {
                    Ok(b2) => spec_fx_add(a2, b2),
                    Err(e) => Err(e),
                },
                Err(e) => Err(e),
            },
            Err(e) => Err(e),
        },
        Err(e) => Err(e),
    }
}

/// The attributes after the power stage, and the power damage score. A
/// positive secondary power coefficient is `Unsupported` before anything is
/// computed.
pub open spec fn power(v: Seq<i64>, mods: &Modifiers) -> Result<(Seq<i64>, i64), EvalError> {
    let m = mods.damage_multipliers@;
    if v[Attribute::Power2Coefficient.idx()] > 0 {
        Err(EvalError::Unsupported)
    } else {
        match effective_power(v, mods) {
            Ok(ep) => match spec_fx_mul(v[Attribute::Power.idx()], multiplier(m, Attribute::StrikeDamage)) {
                Ok(nce) => match power_damage(v[Attribute::PowerCoefficient.idx()], ep, v[Attribute::NonCritPowerCoefficient.idx()], nce) {
                    Ok(pd) => match spec_fx_mul(v[Attribute::SiphonBaseCoefficient.idx()], multiplier(m, Attribute::SiphonDamage)) {
                        Ok(sd) => match spec_fx_mul(sd, ep) {
                            Ok(sdps) => match spec_fx_add(pd, sd) {
                                Ok(score) => Ok((
                                    v.update(Attribute::EffectivePower.idx(), ep)
                                        .update(Attribute::NonCritEffectivePower.idx(), nce)
                                        .update(Attribute::Power2DPS.idx(), 0)
                                        .update(Attribute::SiphonDPS.idx(), sdps),
                                    score,
                                )),
                                Err(e) => Err(e),
                            },
                            Err(e) => Err(e),
                        },
                        Err(e) => Err(e),
                    },
                    Err(e) => Err(e),
                },
                Err(e) => Err(e),
            },
            Err(e) => Err(e),
        }
    }
}

/// Computes the power damage score of `character` from its derived
/// attributes, and records effective power, non-critical effective power,
/// the secondary power damage (zero) and the siphon damage per second. A
/// positive secondary power coefficient is `Unsupported`. On an error the
/// character is unchanged.
pub fn calc_power(character: &mut Character, settings: &Combination) -> (r: Result<i64, EvalError>)
    requires
        old(character).wf(),
    ensures
        final(character).wf(),
        final(character).base_attributes@ == old(character).base_attributes@,
        final(character).gear@ == old(character).gear@,
        match power(old(character).attributes@, &settings.modifiers) {
            Ok((w, score)) => r == Ok::<i64, EvalError>(score) && final(character).attributes@ == w,
            Err(e) => r == Err::<i64, EvalError>(e) && final(character).attributes@ == old(
                character,
            ).attributes@,
        },
{
    let attributes = &mut character.attributes;
    let mods = &settings.modifiers;
    if attributes.get(Attribute::Power2Coefficient) > 0 {
        return Err(EvalError::Unsupported);
    }
    let strike = mods.get_dmg_multiplier(Attribute::StrikeDamage);
    let crit_dmg = fx_mul(attributes.get(Attribute::CriticalDamage), strike)?;
    let crit_chance = clamp_unit(attributes.get(Attribute::CriticalChance));
    let gain = fx_sub(crit_dmg, SCALE)?;
    let t = fx_mul(crit_chance, gain)?;
    let f = fx_add(SCALE, t)?;
    let p = fx_mul(attributes.get(Attribute::Power), f)?;
    let effective = fx_mul(p, strike)?;
    let non_crit = fx_mul(attributes.get(Attribute::Power), strike)?;
    let a = fx_mul(attributes.get(Attribute::PowerCoefficient), effective)?;
    let a2 = fx_div(a, REFERENCE_ARMOR)?;
    let b = fx_mul(attributes.get(Attribute::NonCritPowerCoefficient), non_crit)?;
    let b2 = fx_div(b, REFERENCE_ARMOR)?;
    let power_damage = fx_add(a2, b2)?;
    let siphon_damage = fx_mul(attributes.get(Attribute::SiphonBaseCoefficient), mods.get_dmg_multiplier(Attribute::SiphonDamage))?;
    let siphon_dps = fx_mul(siphon_damage, effective)?;
    let score = fx_add(power_damage, siphon_damage)?;
    attributes.set(Attribute::EffectivePower, effective);
    attributes.set(Attribute::NonCritEffectivePower, non_crit);
    attributes.set(Attribute::Power2DPS, 0);
    attributes.set(Attribute::SiphonDPS, siphon_dps);
    Ok(score)
}

/// The derived attributes of a character with base attributes `base`, with
/// the damage score recorded: power damage plus flat damage per second.
pub open spec fn score(base: Seq<i64>, mods: &Modifiers, no_rounding: bool) -> Result<Seq<i64>, EvalError> {
    match stats(base, mods, no_rounding) {
        Ok(v) => match power(v, mods) {
            Ok((w, pd)) => match spec_fx_add(pd, w[Attribute::FlatDPS.idx()]) {
                Ok(d) => Ok(w.update(Attribute::Damage.idx(), d)),
                Err(e) => Err(e),
            },
            Err(e) => Err(e),
        },
        Err(e) => Err(e),
    }
}

/// Derives every attribute of `character` from its base attributes and
/// records its damage score.
pub fn update_attributes(character: &mut Character, settings: &Combination, no_rounding: bool) -> (r: Result<(), EvalError>)
    requires
        old(character).wf(),
    ensures
        final(character).wf(),
        final(character).base_attributes@ == old(character).base_attributes@,
        final(character).gear@ == old(character).gear@,
        match score(old(character).base_attributes@, &settings.modifiers, no_rounding) {
            Ok(w) => r is Ok && final(character).attributes@ == w,
            Err(e) => r == Err::<(), EvalError>(e),
        },
{
    calc_stats(character, settings, no_rounding)?;
    let power_damage_score = calc_power(character, settings)?;
    let damage = fx_add(power_damage_score, character.attributes.get(Attribute::FlatDPS))?;
    character.attributes.set(Attribute::Damage, damage);
    Ok(())
}

/// The first position of `a` in `opts`, or -1 when it is not there.
pub open spec fn position_of(opts: Seq<Affix>, a: Affix) -> int
    decreases opts.len(),
{
    if opts.len() == 0 {
        -1
    } else {
        let p = position_of(opts.drop_last(), a);
        if p >= 0 {
            p
        } else if opts.last() == a {
            opts.len() - 1
        } else {
            -1
        }
    }
}

proof fn lemma_position_prefix(opts: Seq<Affix>, a: Affix, i: int)
    requires
        0 <= i <= opts.len(),
        position_of(opts.take(i), a) >= 0,
    ensures
        position_of(opts, a) == position_of(opts.take(i), a),
    decreases opts.len(),
{
    if i == opts.len() {
        assert(opts.take(i) == opts);
    } else {
        assert(opts.drop_last().take(i) == opts.take(i));
        lemma_position_prefix(opts.drop_last(), a, i);
    }
}

/// Finds the first option of `opts` with the number of `a`.
fn find_affix(opts: &Vec<Affix>, a: Affix) -> (r: Option<usize>)
    ensures
        match r {
            Some(j) => j as int == position_of(opts@, a) && j < opts@.len(),
            None => position_of(opts@, a) == -1,
        },
{
    let mut i: usize = 0;
    while i < opts.len()
        invariant
            i <= opts@.len(),
            position_of(opts@.take(i as int), a) == -1,
        decreases opts@.len() - i,
    {
        assert(opts@.take(i + 1).drop_last() == opts@.take(i as int));
        if opts[i].to_number() == a.to_number() {
            proof {
                lemma_position_prefix(opts@, a, i + 1);
            }
            return Some(i);
        }
        i = i + 1;
    }
    assert(opts@.take(i as int) == opts@);
    None
}

/// The base attributes of the assignment `path`: the scenario's base
/// attributes, then the deltas of the chosen option of each slot in turn.
pub open spec fn gear_base(c: &Combination, path: Seq<Affix>) -> Result<Seq<i64>, EvalError>
    decreases path.len(),
{
    if path.len() == 0 {
        add_all(zeros(), c.base_attributes@)
    } else {
        match gear_base(c, path.drop_last()) {
            Ok(w) => {
                let slot = path.len() - 1;
                let p = position_of(c.affixes_array@[slot]@, path.last());
                if p < 0 {
                    Err(EvalError::AffixNotFound)
                } else {
                    add_all(w, c.affix_stats_array@[slot]@[p]@)
                }
            },
            Err(e) => Err(e),
        }
    }
}

/// The derived attributes, damage score included, of the assignment `path`.
pub open spec fn evaluate(c: &Combination, path: Seq<Affix>) -> Result<Seq<i64>, EvalError> {
    match gear_base(c, path) {
        Ok(b) => score(b, &c.modifiers, false),
        Err(e) => Err(e),
    }
}

/// The gear array of a character equipped with `path`, the other slots empty.
pub open spec fn equipped(path: Seq<Affix>) -> Seq<Affix> {
    Seq::new(MAX_SLOTS as nat, |i: int| if i < path.len() { path[i] } else { Affix { id: 0 } })
}

proof fn lemma_gear_base_err_prefix(c: &Combination, path: Seq<Affix>, i: int)
    requires
        0 <= i <= path.len(),
    ensures
        gear_base(c, path.take(i)) is Err ==> gear_base(c, path) == gear_base(c, path.take(i)),
    decreases path.len(),
{
    if i == path.len() {
        assert(path.take(i) == path);
    } else {
        assert(path.drop_last().take(i) == path.take(i));
        lemma_gear_base_err_prefix(c, path.drop_last(), i);
    }
}

/// Resets `character`, equips it with the assignment `subtree` and derives
/// its attributes and damage score under `settings`. A slot whose affix is
/// not among that slot's options is `AffixNotFound`.
pub fn test_character(character: &mut Character, settings: &Combination, subtree: &[Affix]) -> (r: Result<(), EvalError>)
    requires
        old(character).wf(),
        settings.wf(),
        subtree@.len() <= settings.affixes_array@.len(),
        subtree@.len() <= MAX_SLOTS,
    ensures
        final(character).wf(),
        match evaluate(settings, subtree@) {
            Ok(w) => r is Ok && final(character).attributes@ == w && final(character).gear@
                == equipped(subtree@) && final(character).base_attributes@ == gear_base(
                settings,
                subtree@,
            )->Ok_0,
            Err(e) => r == Err::<(), EvalError>(e),
        },
{
    character.clear();
    proof {
        assert(subtree@.take(0) == Seq::<Affix>::empty());
        lemma_gear_base_err_prefix(settings, subtree@, 0);
        assert(character.gear@ =~= equipped(subtree@.take(0)));
    }
    character.base_attributes.add_each(&settings.base_attributes)?;
    let mut i: usize = 0;
    while i < subtree.len()
        invariant
            character.wf(),
            settings.wf(),
            subtree@.len() <= settings.affixes_array@.len(),
            subtree@.len() <= MAX_SLOTS,
            i <= subtree@.len(),
            gear_base(settings, subtree@.take(i as int)) == Ok::<Seq<i64>, EvalError>(character.base_attributes@),
            character.gear@ == equipped(subtree@.take(i as int)),
        decreases subtree@.len() - i,
    {
        let affix = subtree[i];
        proof {
            let t = subtree@.take(i + 1);
            assert(t.drop_last() == subtree@.take(i as int));
            assert(t.last() == affix);
            lemma_gear_base_err_prefix(settings, subtree@, i + 1);
        }
        let options = &settings.affixes_array[i];
        let found = find_affix(options, affix);
        let index_in_affix_array = match found {
            Some(j) => j,
            None => {
                return Err(EvalError::AffixNotFound);
            },
        };
        assert(settings.affixes_array@[i as int]@.len() == settings.affix_stats_array@[i as int]@.len());
        let attributes_to_add = &settings.affix_stats_array[i][index_in_affix_array];
        character.base_attributes.add_each(attributes_to_add)?;
        character.gear.set(i, affix);
        proof {
            assert(character.gear@ =~= equipped(subtree@.take(i + 1)));
        }
        i = i + 1;
    }
    assert(subtree@.take(i as int) == subtree@);
    update_attributes(character, settings, false)
}

} // verus!
