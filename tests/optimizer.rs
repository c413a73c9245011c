use gear_optimizer::attributes::{fx_round, Attribute, AttributeVector, EvalError, SCALE};
use gear_optimizer::enumerate::descend_subtree_dfs;
use gear_optimizer::gear::{Affix, Character, Combination, Conversion, Modifiers, Share};
use gear_optimizer::optimizer::start;
use gear_optimizer::pipeline::{calc_power, calc_stats, test_character, update_attributes};
use gear_optimizer::results::ResultSet;

fn a(id: u32) -> Affix {
    Affix { id }
}

fn no_modifiers() -> Modifiers {
    Modifiers {
        convert: Vec::new(),
        buff: Vec::new(),
        convert_after_buffs: Vec::new(),
        damage_multipliers: Vec::new(),
    }
}

fn combination(options: Vec<Vec<Affix>>, stats: Vec<Vec<Vec<(Attribute, i64)>>>) -> Combination {
    let slots = options.len();
    Combination {
        base_attributes: Vec::new(),
        affixes_array: options,
        affix_stats_array: stats,
        modifiers: no_modifiers(),
        rankby: Attribute::Damage,
        max_results: 2,
        slots,
    }
}

fn walk(options: &Vec<Vec<Affix>>, prefix: Vec<Affix>, depth: usize) -> Vec<Vec<Affix>> {
    let mut path = prefix.clone();
    let mut found = Vec::new();
    descend_subtree_dfs(options, &mut path, depth, &mut found);
    assert_eq!(path, prefix);
    found
}

fn gear_ids(r: &ResultSet, i: usize) -> Vec<u32> {
    r.gear_at(i).iter().map(|g| g.id).collect()
}

#[test]
fn dfs_visits_every_leaf_in_order() {
    let options = vec![vec![a(1), a(2)], vec![a(3), a(4), a(5)]];
    let found = walk(&options, Vec::new(), 2);
    assert_eq!(found.len(), 6);
    assert_eq!(
        found,
        vec![
            vec![a(1), a(3)],
            vec![a(1), a(4)],
            vec![a(1), a(5)],
            vec![a(2), a(3)],
            vec![a(2), a(4)],
            vec![a(2), a(5)],
        ]
    );
}

#[test]
fn dfs_from_a_prefix() {
    let options = vec![vec![a(1), a(2)], vec![a(3), a(4), a(5)]];
    let found = walk(&options, vec![a(2)], 2);
    assert_eq!(found, vec![vec![a(2), a(3)], vec![a(2), a(4)], vec![a(2), a(5)]]);
}

#[test]
fn dfs_full_path_is_one_leaf() {
    let options = vec![vec![a(1), a(2)], vec![a(3)]];
    let found = walk(&options, vec![a(2), a(3)], 2);
    assert_eq!(found, vec![vec![a(2), a(3)]]);
}

#[test]
fn dfs_empty_slot_has_no_leaves() {
    let options = vec![vec![a(1), a(2)], Vec::new(), vec![a(3)]];
    assert_eq!(walk(&options, Vec::new(), 3).len(), 0);
    assert_eq!(walk(&options, Vec::new(), 1).len(), 2);
}

#[test]
fn attribute_vector_get_set_add_clear() {
    let mut v = AttributeVector::new();
    assert_eq!(v.get(Attribute::Power), 0);
    v.set(Attribute::Power, 5 * SCALE);
    assert_eq!(v.add(Attribute::Power, 2 * SCALE), Ok(()));
    assert_eq!(v.get(Attribute::Power), 7 * SCALE);
    let copy = v.clone();
    v.clear();
    assert_eq!(v.get(Attribute::Power), 0);
    assert_eq!(copy.get(Attribute::Power), 7 * SCALE);
}

#[test]
fn attribute_add_order_does_not_matter() {
    let deltas = vec![
        (Attribute::Power, 100 * SCALE),
        (Attribute::Precision, 30 * SCALE),
        (Attribute::Power, -40 * SCALE),
        (Attribute::Ferocity, 7),
    ];
    let mut reversed = deltas.clone();
    reversed.reverse();
    let mut v1 = AttributeVector::new();
    let mut v2 = AttributeVector::new();
    assert_eq!(v1.add_each(&deltas), Ok(()));
    assert_eq!(v2.add_each(&reversed), Ok(()));
    for kind in [Attribute::Power, Attribute::Precision, Attribute::Ferocity, Attribute::Damage] {
        assert_eq!(v1.get(kind), v2.get(kind));
    }
    assert_eq!(v1.get(Attribute::Power), 60 * SCALE);
}

#[test]
fn attribute_add_out_of_range() {
    let mut v = AttributeVector::new();
    v.set(Attribute::Power, i64::MAX);
    assert_eq!(v.add(Attribute::Power, 1), Err(EvalError::OutOfRange));
    assert_eq!(v.get(Attribute::Power), i64::MAX);
}

#[test]
fn rounding_is_half_to_even() {
    assert_eq!(fx_round(SCALE * 5 / 2), Ok(2 * SCALE));
    assert_eq!(fx_round(SCALE * 7 / 2), Ok(4 * SCALE));
    assert_eq!(fx_round(SCALE * 26 / 10), Ok(3 * SCALE));
    assert_eq!(fx_round(-SCALE * 5 / 2), Ok(-2 * SCALE));
    assert_eq!(fx_round(SCALE * 24 / 10), Ok(2 * SCALE));
}

#[test]
fn health_formula() {
    let settings = combination(Vec::new(), Vec::new());
    let mut c = Character::new();
    c.base_attributes.set(Attribute::Vitality, 100 * SCALE);
    assert_eq!(calc_stats(&mut c, &settings, false), Ok(()));
    assert_eq!(c.attributes.get(Attribute::Health), 1000 * SCALE);

    let mut c = Character::new();
    c.base_attributes.set(Attribute::Health, 1000 * SCALE);
    c.base_attributes.set(Attribute::MaxHealth, SCALE / 2);
    assert_eq!(calc_stats(&mut c, &settings, false), Ok(()));
    assert_eq!(c.attributes.get(Attribute::Health), 1500 * SCALE);

    // 0.25 vitality gives 2.5 health, rounded to the even 2; 0.35 gives 3.5, rounded to 4.
    let mut c = Character::new();
    c.base_attributes.set(Attribute::Vitality, SCALE / 4);
    assert_eq!(calc_stats(&mut c, &settings, true), Ok(()));
    assert_eq!(c.attributes.get(Attribute::Health), 2 * SCALE);
    let mut c = Character::new();
    c.base_attributes.set(Attribute::Vitality, SCALE * 35 / 100);
    assert_eq!(calc_stats(&mut c, &settings, true), Ok(()));
    assert_eq!(c.attributes.get(Attribute::Health), 4 * SCALE);
}

#[test]
fn derived_stat_formulas() {
    let settings = combination(Vec::new(), Vec::new());
    let mut c = Character::new();
    c.base_attributes.set(Attribute::Precision, 2050 * SCALE);
    c.base_attributes.set(Attribute::Ferocity, 150 * SCALE);
    c.base_attributes.set(Attribute::Concentration, 300 * SCALE);
    c.base_attributes.set(Attribute::CriticalDamage, SCALE * 3 / 2);
    assert_eq!(calc_stats(&mut c, &settings, false), Ok(()));
    assert_eq!(c.attributes.get(Attribute::CriticalChance), SCALE / 2);
    assert_eq!(c.attributes.get(Attribute::CriticalDamage), SCALE * 16 / 10);
    assert_eq!(c.attributes.get(Attribute::BoonDuration), SCALE / 5);
    assert_eq!(c.base_attributes.get(Attribute::CriticalChance), 0);
}

#[test]
fn convert_reads_base_before_buffs() {
    let mut settings = combination(Vec::new(), Vec::new());
    settings.modifiers.convert.push(Conversion {
        target: Attribute::Power,
        sources: vec![Share { source: Attribute::Precision, percent: SCALE / 10 }],
    });
    settings.modifiers.buff.push((Attribute::Precision, 100 * SCALE));
    let mut c = Character::new();
    c.base_attributes.set(Attribute::Precision, 1000 * SCALE);
    assert_eq!(calc_stats(&mut c, &settings, false), Ok(()));
    // The buff to precision comes after the conversion: power gets 10% of 1000, not of 1100.
    assert_eq!(c.attributes.get(Attribute::Power), 100 * SCALE);
    assert_eq!(c.attributes.get(Attribute::Precision), 1100 * SCALE);
}

#[test]
fn convert_rounds_point_keys_unless_asked_not_to() {
    let mut settings = combination(Vec::new(), Vec::new());
    settings.modifiers.convert.push(Conversion {
        target: Attribute::Power,
        sources: vec![Share { source: Attribute::Vitality, percent: SCALE / 10 }],
    });
    settings.modifiers.convert.push(Conversion {
        target: Attribute::FlatDPS,
        sources: vec![Share { source: Attribute::Vitality, percent: SCALE / 10 }],
    });
    let mut c = Character::new();
    c.base_attributes.set(Attribute::Vitality, 25 * SCALE);
    assert_eq!(calc_stats(&mut c, &settings, false), Ok(()));
    assert_eq!(c.attributes.get(Attribute::Power), 2 * SCALE);
    assert_eq!(c.attributes.get(Attribute::FlatDPS), SCALE * 25 / 10);
    assert_eq!(calc_stats(&mut c, &settings, true), Ok(()));
    assert_eq!(c.attributes.get(Attribute::Power), SCALE * 25 / 10);
}

#[test]
fn convert_after_buffs_clamps_critical_chance_and_overwrites() {
    let mut settings = combination(Vec::new(), Vec::new());
    settings.modifiers.convert_after_buffs.push(Conversion {
        target: Attribute::FlatDPS,
        sources: vec![Share { source: Attribute::CriticalChance, percent: 2 * SCALE }],
    });
    settings.modifiers.convert_after_buffs.push(Conversion {
        target: Attribute::EffectivePower,
        sources: vec![Share { source: Attribute::Toughness, percent: 2 * SCALE }],
    });
    let mut c = Character::new();
    c.base_attributes.set(Attribute::Precision, 1000 * SCALE);
    c.base_attributes.set(Attribute::CriticalChance, 3 * SCALE);
    c.base_attributes.set(Attribute::FlatDPS, 50 * SCALE);
    c.base_attributes.set(Attribute::Toughness, 3 * SCALE);
    c.base_attributes.set(Attribute::EffectivePower, 9 * SCALE);
    assert_eq!(calc_stats(&mut c, &settings, false), Ok(()));
    assert_eq!(c.attributes.get(Attribute::FlatDPS), 2 * SCALE);
    assert_eq!(c.attributes.get(Attribute::EffectivePower), 6 * SCALE);
}

#[test]
fn power_damage_at_reference_values() {
    let settings = combination(Vec::new(), Vec::new());
    let mut c = Character::new();
    c.attributes.set(Attribute::Power, 1000 * SCALE);
    c.attributes.set(Attribute::Precision, 1000 * SCALE);
    c.attributes.set(Attribute::PowerCoefficient, 2597 * SCALE);
    assert_eq!(calc_power(&mut c, &settings), Ok(1000 * SCALE));
    assert_eq!(c.attributes.get(Attribute::EffectivePower), 1000 * SCALE);
    assert_eq!(c.attributes.get(Attribute::NonCritEffectivePower), 1000 * SCALE);
    assert_eq!(c.attributes.get(Attribute::SiphonDPS), 0);
}

#[test]
fn power_damage_with_crits_and_multipliers() {
    let mut settings = combination(Vec::new(), Vec::new());
    settings.modifiers.damage_multipliers.push((Attribute::StrikeDamage, 2 * SCALE));
    settings.modifiers.damage_multipliers.push((Attribute::SiphonDamage, 3 * SCALE));
    let mut c = Character::new();
    c.attributes.set(Attribute::Power, 1000 * SCALE);
    c.attributes.set(Attribute::CriticalChance, 2 * SCALE);
    c.attributes.set(Attribute::CriticalDamage, 2 * SCALE);
    c.attributes.set(Attribute::NonCritPowerCoefficient, 2597 * SCALE);
    c.attributes.set(Attribute::SiphonBaseCoefficient, SCALE);
    // chance clamps to 1: effective power = 1000 * (1 + (2 * 2 - 1)) * 2 = 8000
    assert_eq!(calc_power(&mut c, &settings), Ok(2000 * SCALE + 3 * SCALE));
    assert_eq!(c.attributes.get(Attribute::EffectivePower), 8000 * SCALE);
    assert_eq!(c.attributes.get(Attribute::NonCritEffectivePower), 2000 * SCALE);
    assert_eq!(c.attributes.get(Attribute::SiphonDPS), 24000 * SCALE);
}

#[test]
fn critical_damage_scales_with_the_strike_multiplier_only() {
    let mut settings = combination(Vec::new(), Vec::new());
    settings.modifiers.damage_multipliers.push((Attribute::CriticalDamage, 2 * SCALE));
    let mut c = Character::new();
    c.attributes.set(Attribute::Power, 1000 * SCALE);
    c.attributes.set(Attribute::CriticalChance, SCALE);
    c.attributes.set(Attribute::CriticalDamage, 2 * SCALE);
    assert_eq!(calc_power(&mut c, &settings), Ok(0));
    assert_eq!(c.attributes.get(Attribute::EffectivePower), 2000 * SCALE);
}

#[test]
fn secondary_power_is_reported_before_any_overflow() {
    let settings = combination(Vec::new(), Vec::new());
    let mut c = Character::new();
    c.attributes.set(Attribute::Power2Coefficient, SCALE);
    c.attributes.set(Attribute::Power, i64::MAX);
    c.attributes.set(Attribute::CriticalDamage, i64::MAX);
    assert_eq!(calc_power(&mut c, &settings), Err(EvalError::Unsupported));
    assert_eq!(c.attributes.get(Attribute::EffectivePower), 0);
}

#[test]
fn power_overflow_leaves_the_character_unchanged() {
    let settings = combination(Vec::new(), Vec::new());
    let mut c = Character::new();
    c.attributes.set(Attribute::Power, i64::MAX);
    c.attributes.set(Attribute::EffectivePower, 7);
    c.attributes.set(Attribute::CriticalDamage, 3 * SCALE);
    c.attributes.set(Attribute::CriticalChance, SCALE);
    assert_eq!(calc_power(&mut c, &settings), Err(EvalError::OutOfRange));
    assert_eq!(c.attributes.get(Attribute::EffectivePower), 7);
}

#[test]
fn secondary_power_is_unsupported() {
    let settings = combination(Vec::new(), Vec::new());
    let mut c = Character::new();
    c.attributes.set(Attribute::Power2Coefficient, SCALE);
    assert_eq!(calc_power(&mut c, &settings), Err(EvalError::Unsupported));
}

#[test]
fn damage_adds_flat_dps() {
    let settings = combination(Vec::new(), Vec::new());
    let mut c = Character::new();
    c.base_attributes.set(Attribute::Power, 1000 * SCALE);
    c.base_attributes.set(Attribute::Precision, 1000 * SCALE);
    c.base_attributes.set(Attribute::PowerCoefficient, 2597 * SCALE);
    c.base_attributes.set(Attribute::FlatDPS, 5 * SCALE);
    assert_eq!(update_attributes(&mut c, &settings, false), Ok(()));
    assert_eq!(c.attributes.get(Attribute::Damage), 1005 * SCALE);
}

#[test]
fn gear_contributes_its_deltas() {
    let settings = combination(
        vec![vec![a(1), a(2)], vec![a(3)]],
        vec![
            vec![vec![(Attribute::Power, 10 * SCALE)], vec![(Attribute::Power, 20 * SCALE)]],
            vec![vec![(Attribute::Power, 5 * SCALE), (Attribute::FlatDPS, SCALE)]],
        ],
    );
    let mut c = Character::new();
    assert_eq!(test_character(&mut c, &settings, &[a(2), a(3)]), Ok(()));
    assert_eq!(c.base_attributes.get(Attribute::Power), 25 * SCALE);
    assert_eq!(c.attributes.get(Attribute::Damage), SCALE);
    assert_eq!(c.gear[0], a(2));
    assert_eq!(c.gear[1], a(3));
    assert_eq!(c.gear[2], Affix::none());
}

#[test]
fn path_longer_than_active_slots_is_evaluated() {
    let mut settings = combination(
        vec![vec![a(1)], vec![a(2)]],
        vec![vec![vec![(Attribute::FlatDPS, SCALE)]], vec![vec![(Attribute::FlatDPS, SCALE)]]],
    );
    settings.slots = 1;
    let mut c = Character::new();
    assert_eq!(test_character(&mut c, &settings, &[a(1), a(2)]), Ok(()));
    assert_eq!(c.base_attributes.get(Attribute::FlatDPS), 2 * SCALE);
    assert_eq!(c.attributes.get(Attribute::Damage), 2 * SCALE);
}

#[test]
fn unknown_affix_is_reported() {
    let settings = combination(vec![vec![a(1), a(2)]], vec![vec![Vec::new(), Vec::new()]]);
    let mut c = Character::new();
    assert_eq!(test_character(&mut c, &settings, &[a(7)]), Err(EvalError::AffixNotFound));
}

fn scored(score: i64, id: u32) -> Character {
    let mut c = Character::new();
    c.attributes.set(Attribute::Damage, score);
    c.gear[0] = a(id);
    c
}

#[test]
fn collector_keeps_the_best() {
    let mut r = ResultSet::new(Attribute::Damage, 2);
    for (score, id) in [(5, 1), (3, 2), (7, 3), (1, 4), (6, 5)] {
        r.insert(&scored(score, id));
        assert!(r.len() <= 2);
    }
    assert_eq!(r.len(), 2);
    assert_eq!(r.score_at(0), 7);
    assert_eq!(r.score_at(1), 6);
    assert_eq!(r.gear_at(0)[0], a(3));
    assert_eq!(r.attributes_at(1).get(Attribute::Damage), 6);
    let entries = r.into_entries();
    assert_eq!(entries.len(), 2);
    assert_eq!(entries[0].attributes.get(Attribute::Damage), 7);
    assert_eq!(entries[1].gear[0], a(5));
}

#[test]
fn collector_ties_keep_first_seen() {
    let mut r = ResultSet::new(Attribute::Damage, 2);
    for id in 1..5 {
        r.insert(&scored(4, id));
    }
    assert_eq!(gear_ids(&r, 0)[0], 1);
    assert_eq!(gear_ids(&r, 1)[0], 2);
}

#[test]
fn collector_copies_the_character() {
    let mut r = ResultSet::new(Attribute::Damage, 1);
    let mut c = scored(9, 1);
    r.insert(&c);
    c.attributes.set(Attribute::Damage, 0);
    c.gear[0] = a(2);
    assert_eq!(r.score_at(0), 9);
    assert_eq!(r.gear_at(0)[0], a(1));
}

#[test]
fn collector_of_capacity_zero_stays_empty() {
    let mut r = ResultSet::new(Attribute::Damage, 0);
    r.insert(&scored(9, 1));
    assert_eq!(r.len(), 0);
}

fn two_by_two() -> Combination {
    combination(
        vec![vec![a(1), a(2)], vec![a(3), a(4)]],
        vec![vec![Vec::new(), Vec::new()], vec![Vec::new(), Vec::new()]],
    )
}

#[test]
fn end_to_end_chunks_agree_with_one_run() {
    let combos = vec![two_by_two()];
    let whole = start(&vec![Vec::new()], &combos).unwrap().0;
    assert_eq!(whole.len(), 2);
    assert_eq!(whole.score_at(0), 0);
    assert_eq!(gear_ids(&whole, 0)[..2], [1, 3]);
    assert_eq!(gear_ids(&whole, 1)[..2], [1, 4]);

    let left = start(&vec![vec![a(1)]], &combos).unwrap().0;
    let right = start(&vec![vec![a(2)]], &combos).unwrap().0;
    // Merging the two chunks' results by the same bounded rule gives the unchunked result.
    let mut merged = ResultSet::new(Attribute::Damage, 2);
    for part in [&left, &right] {
        for i in 0..part.len() {
            let mut c = Character::new();
            for (slot, g) in part.gear_at(i).iter().enumerate() {
                c.gear[slot] = *g;
            }
            c.attributes = part.attributes_at(i).clone();
            merged.insert(&c);
        }
    }
    for i in 0..2 {
        assert_eq!(gear_ids(&merged, i), gear_ids(&whole, i));
    }
    let both = start(&vec![vec![a(1)], vec![a(2)]], &combos).unwrap().0;
    for i in 0..2 {
        assert_eq!(gear_ids(&both, i), gear_ids(&whole, i));
    }
}

#[test]
fn end_to_end_ranks_by_damage() {
    let mut combo = combination(
        vec![vec![a(1), a(2)], vec![a(3), a(4)]],
        vec![
            vec![vec![(Attribute::FlatDPS, SCALE)], vec![(Attribute::FlatDPS, 3 * SCALE)]],
            vec![vec![(Attribute::FlatDPS, 2 * SCALE)], Vec::new()],
        ],
    );
    combo.base_attributes.push((Attribute::Precision, 1000 * SCALE));
    let r = start(&vec![Vec::new()], &vec![combo]).unwrap().0;
    assert_eq!(r.len(), 2);
    assert_eq!(gear_ids(&r, 0)[..2], [2, 3]);
    assert_eq!(r.score_at(0), 5 * SCALE);
    // [1, 3] and [2, 4] both score 3; the first one reached stays.
    assert_eq!(gear_ids(&r, 1)[..2], [1, 3]);
    assert_eq!(r.score_at(1), 3 * SCALE);
}

#[test]
fn start_counts_evaluations() {
    let combos = vec![two_by_two(), two_by_two(), two_by_two()];
    let (r, count) = start(&vec![Vec::new()], &combos).unwrap();
    assert_eq!(count, 12);
    assert_eq!(r.len(), 2);
    let (_, count) = start(&vec![vec![a(1)], vec![a(2), a(4)]], &combos).unwrap();
    assert_eq!(count, 9);
    let (_, count) = start(&Vec::new(), &combos).unwrap();
    assert_eq!(count, 0);
}

#[test]
fn start_accepts_combinations_with_other_slot_counts() {
    let mut other = two_by_two();
    other.slots = 1;
    let (r, count) = start(&vec![Vec::new()], &vec![two_by_two(), other]).unwrap();
    assert_eq!(count, 8);
    assert_eq!(r.len(), 2);
    let mut short = combination(vec![vec![a(1), a(2)]], vec![vec![Vec::new(), Vec::new()]]);
    short.rankby = Attribute::Damage;
    assert_eq!(
        start(&vec![Vec::new()], &vec![two_by_two(), short]).err(),
        Some(EvalError::InvalidInput)
    );
}

#[test]
fn start_rejects_inconsistent_input() {
    assert_eq!(start(&vec![Vec::new()], &Vec::new()).err(), Some(EvalError::InvalidInput));
    let mut other = two_by_two();
    other.rankby = Attribute::Power;
    assert_eq!(
        start(&vec![Vec::new()], &vec![two_by_two(), other]).err(),
        Some(EvalError::InvalidInput)
    );
    let mut bad = two_by_two();
    bad.affix_stats_array[1].pop();
    assert_eq!(start(&vec![Vec::new()], &vec![bad]).err(), Some(EvalError::InvalidInput));
    assert_eq!(
        start(&vec![vec![a(1), a(3), a(3)]], &vec![two_by_two()]).err(),
        Some(EvalError::InvalidInput)
    );
}

#[test]
fn start_reports_an_unknown_affix_in_a_chunk() {
    assert_eq!(
        start(&vec![vec![a(9)]], &vec![two_by_two()]).err(),
        Some(EvalError::AffixNotFound)
    );
}
