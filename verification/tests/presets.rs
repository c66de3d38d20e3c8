use sbann::preset::{default_probe_ladder, resolve_search_preset, PresetError, SearchPreset, TargetRecall};

fn target(x: f64) -> Result<SearchPreset, PresetError> {
    SearchPreset::from_target(x.to_bits())
}

#[test]
fn preset_aliases_and_target_bands() {
    assert_eq!(SearchPreset::parse("loose").unwrap(), SearchPreset::Fast);
    assert_eq!(SearchPreset::parse("default").unwrap(), SearchPreset::Balanced);
    assert_eq!(SearchPreset::parse("high").unwrap(), SearchPreset::Accurate);
    assert_eq!(target(0.90).unwrap(), SearchPreset::Fast);
    assert_eq!(target(0.95).unwrap(), SearchPreset::Balanced);
    assert_eq!(target(0.99).unwrap(), SearchPreset::Accurate);
    assert!(target(1.01).is_err());
}

#[test]
fn explicit_preset_precedes_target() {
    let (preset, source) = resolve_search_preset(Some("fast"), TargetRecall::Bits(0.99f64.to_bits())).unwrap();
    assert_eq!(preset, SearchPreset::Fast);
    assert_eq!(source, "SBANN_PRESET");
}

#[test]
fn balanced_is_the_default() {
    let (preset, source) = resolve_search_preset(None, TargetRecall::Unset).unwrap();
    assert_eq!(preset, SearchPreset::Balanced);
    assert_eq!(source, "default");
}

#[test]
fn probe_ladders_track_dimension_and_cell_count() {
    assert_eq!(default_probe_ladder(SearchPreset::Balanced, 96, 65_536, 10_000_000), vec![4, 8, 16, 32]);
    assert_eq!(default_probe_ladder(SearchPreset::Balanced, 200, 4_096, 10_000_000), vec![1, 3, 6, 12]);
    assert_eq!(default_probe_ladder(SearchPreset::Fast, 200, 16_384, 10_000_000), vec![4, 8, 16, 32]);
    assert_eq!(default_probe_ladder(SearchPreset::Balanced, 1024, 65_536, 10_000_000), vec![32, 64, 128, 256]);
    assert_eq!(default_probe_ladder(SearchPreset::Balanced, 1024, 65_536, 35_000_000), vec![9, 19, 38, 76]);
}

#[test]
fn containment_width_and_scale_aware_floor() {
    assert_eq!(SearchPreset::Fast.cascade_k(96), 16);
    assert_eq!(SearchPreset::Balanced.cascade_k(96), 20);
    assert_eq!(SearchPreset::Balanced.cascade_k(1024), 20);
    assert_eq!(SearchPreset::Accurate.cascade_k(1024), 48);
    assert_eq!(SearchPreset::Balanced.survivor_floor(10_000_000, 96), 450);
    assert_eq!(SearchPreset::Balanced.survivor_floor(35_000_000, 1024), 500);
}

#[test]
fn target_is_used_without_a_preset() {
    let (preset, source) = resolve_search_preset(None, TargetRecall::Bits(0.99f64.to_bits())).unwrap();
    assert_eq!(preset, SearchPreset::Accurate);
    assert_eq!(source, "SBANN_TARGET_RECALL");
}

#[test]
fn bad_presets_are_named() {
    assert_eq!(SearchPreset::parse("fastest"), Err(PresetError::UnknownName));
    assert_eq!(resolve_search_preset(None, TargetRecall::NotANumber), Err(PresetError::TargetNotANumber));
    assert_eq!(target(0.0), Ok(SearchPreset::Fast));
    assert_eq!(target(-0.0), Ok(SearchPreset::Fast));
    assert_eq!(target(-0.5), Err(PresetError::TargetOutOfRange));
    assert_eq!(target(f64::NAN), Err(PresetError::TargetOutOfRange));
    assert_eq!(target(f64::INFINITY), Err(PresetError::TargetOutOfRange));
    assert_eq!(target(1.0), Ok(SearchPreset::Accurate));
    assert_eq!(target(f64::MIN_POSITIVE), Ok(SearchPreset::Fast));
}

#[test]
fn target_bands_end_where_they_say() {
    let up = |x: f64| f64::from_bits(x.to_bits() + 1);
    assert_eq!(target(0.91), Ok(SearchPreset::Fast));
    assert_eq!(target(up(0.91)), Ok(SearchPreset::Balanced));
    assert_eq!(target(0.96), Ok(SearchPreset::Balanced));
    assert_eq!(target(up(0.96)), Ok(SearchPreset::Accurate));
}

#[test]
fn presets_name_their_knobs() {
    assert_eq!(SearchPreset::Fast.name(), "fast");
    assert_eq!(SearchPreset::Balanced.name(), "balanced");
    assert_eq!(SearchPreset::Accurate.name(), "accurate");
    assert_eq!(SearchPreset::Fast.graph_hops(), 1);
    assert_eq!(SearchPreset::Balanced.graph_hops(), 2);
    assert_eq!(SearchPreset::Accurate.graph_hops(), 3);
    assert_eq!(SearchPreset::Fast.graph_m(), 16);
    assert_eq!(SearchPreset::Balanced.graph_m(), 24);
    assert_eq!(SearchPreset::Accurate.graph_m(), 48);
}

/// The floor scales with the square root of the row count, as double precision computes it.
#[test]
fn floors_match_double_precision() {
    for preset in [SearchPreset::Fast, SearchPreset::Balanced, SearchPreset::Accurate] {
        for d in [64usize, 96, 128, 129, 256, 257, 512, 513, 768, 1024] {
            for n in [0usize, 1, 1_000, 2_500_000, 2_500_001, 3_141_593, 6_700_417, 9_999_999, 10_000_000, 35_000_000, 1_000_000_000] {
                let scale = (n as f64 / 10_000_000.0).sqrt().clamp(0.5, 1.0);
                let want = ((preset.survivor_floor_10m(d) as f64 * scale).round() as usize).max(128);
                assert_eq!(preset.survivor_floor(n, d), want, "n={n} d={d}");
            }
        }
    }
}

/// The ladder is centred as double precision computes it.
#[test]
fn ladders_match_double_precision() {
    for preset in [SearchPreset::Fast, SearchPreset::Balanced, SearchPreset::Accurate] {
        for d in [96usize, 200, 400, 1024] {
            for cells in [0usize, 1, 3, 100, 4_096, 4_097, 65_536, 1_000_003, 12_345_678_901_234, usize::MAX] {
                for rows in [0usize, 1, 9_999_999, 10_000_001, 13_333_337, 35_000_000, 1_000_000_007, usize::MAX] {
                    let row_scale = (10_000_000.0 / rows.max(1) as f64).min(1.0);
                    let raw = ((preset.reference_probes(d) as f64 * cells as f64 / 65_536.0) * row_scale).ceil() as usize;
                    let most = cells.max(1);
                    let center = raw.clamp(1, most);
                    let mut want = vec![(center / 2).max(1)];
                    for p in [center, center.saturating_mul(2).min(most), center.saturating_mul(4).min(most)] {
                        if *want.last().unwrap() != p {
                            want.push(p);
                        }
                    }
                    assert_eq!(default_probe_ladder(preset, d, cells, rows), want, "d={d} cells={cells} rows={rows}");
                }
            }
        }
    }
}

#[test]
fn ladders_rise_and_start_at_one_or_more() {
    for preset in [SearchPreset::Fast, SearchPreset::Balanced, SearchPreset::Accurate] {
        for cells in [1usize, 2, 7, 100, 4_096, 65_536] {
            for rows in [1usize, 1_000, 10_000_000] {
                let ladder = default_probe_ladder(preset, 96, cells, rows);
                assert!(!ladder.is_empty());
                assert!(ladder[0] >= 1);
                for w in ladder.windows(2) {
                    assert!(w[0] < w[1]);
                }
                assert!(*ladder.last().unwrap() <= cells);
            }
        }
    }
}
