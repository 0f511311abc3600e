use bmrc::levels::{config_for_level, estimated_memory_bytes, table_size};

#[test]
fn all_levels_valid() {
    for level in 1..=10u8 {
        let cfg = config_for_level(level);
        assert_eq!(cfg.level, level);
        assert!(!cfg.orders.is_empty());
        assert!(cfg.hash_bits >= 16);
        assert!(cfg.mixer_contexts >= 1);
    }
}

#[test]
fn memory_grows_with_level() {
    let mut prev = 0;
    for level in 1..=10u8 {
        let mem = estimated_memory_bytes(level);
        assert!(mem >= prev, "memory should not shrink as level increases");
        prev = mem;
    }
}

#[test]
fn out_of_range_clamped() {
    assert_eq!(config_for_level(0).level, 1);
    assert_eq!(config_for_level(255).level, 10);
}

#[test]
fn memory_of_levels() {
    assert_eq!(estimated_memory_bytes(1), 262_144);
    assert_eq!(estimated_memory_bytes(4), 3_686_912);
    assert_eq!(estimated_memory_bytes(10), 125_862_912);
    assert_eq!(estimated_memory_bytes(0), estimated_memory_bytes(1));
    assert_eq!(estimated_memory_bytes(200), estimated_memory_bytes(10));
}

#[test]
fn level_table() {
    let c = config_for_level(6);
    assert_eq!(c.orders, vec![0, 1, 2, 3, 4, 5, 6, 8]);
    assert_eq!(c.hash_bits, 20);
    assert!(c.match_model);
    assert_eq!(c.match_min, 4);
    assert_eq!(c.apm_stages, 1);
    assert_eq!(c.mixer_contexts, 4);
    assert_eq!(config_for_level(1).orders, vec![1, 2]);
    assert!(!config_for_level(2).match_model);
    assert_eq!(table_size(16), 65_536);
}

#[test]
fn higher_levels_never_shrink() {
    for level in 1..10u8 {
        let a = config_for_level(level);
        let b = config_for_level(level + 1);
        assert!(a.orders.len() <= b.orders.len());
        assert!(a.hash_bits <= b.hash_bits);
        assert!(a.apm_stages <= b.apm_stages);
        assert!(a.mixer_contexts <= b.mixer_contexts);
    }
    assert_eq!(config_for_level(1).orders.len(), 2);
    assert_eq!(config_for_level(10).orders.len(), 13);
}

#[test]
fn higher_levels_keep_lower_orders() {
    for a in 1..=10u8 {
        for b in a..=10u8 {
            let ca = config_for_level(a);
            let cb = config_for_level(b);
            for o in ca.orders.iter() {
                assert!(cb.orders.contains(o), "order {o} of level {a} missing at {b}");
            }
            assert!(ca.match_hash_bits <= cb.match_hash_bits);
            assert!(!ca.match_model || cb.match_model);
        }
    }
}
