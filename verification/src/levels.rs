//! Compression level settings.
//!
//! BMRC supports compression levels from 1 to 10. Lower levels are faster
//! and usually compress less; higher levels use more memory and CPU time
//! and often produce smaller output. Each level chooses which models the
//! predictor runs and how they are configured.

use vstd::prelude::*;
use vstd::arithmetic::power2::{pow2, lemma2_to64};
use vstd::bits::lemma_usize_shl_is_mul;

verus! {

/// The model configuration for one compression level.
#[derive(Clone, Debug)]
pub struct LevelConfig {
    /// The level, in `1..=10`.
    pub level: u8,
    /// Context orders (in bytes) of the context models.
    pub orders: Vec<usize>,
    /// log2 of the number of counters in each context-model table.
    pub hash_bits: u32,
    /// Whether the long-range match model runs.
    pub match_model: bool,
    /// Minimum match length (in bytes) the match model looks up.
    pub match_min: usize,
    /// log2 of the number of entries of the match model's table.
    pub match_hash_bits: u32,
    /// Number of SSE (APM) refinement stages, `0..=2`.
    pub apm_stages: u8,
    /// Number of mixer weight sets.
    pub mixer_contexts: usize,
    /// Mixer learning rate, in units of 2^-16.
    pub learning_rate: u32,
    /// Adaptation shift of the context-model counters.
    pub update_rate: i32,
}

/// `level` limited to `1..=10`.
pub open spec fn clamp_level(level: u8) -> u8 {
    if level < 1 {
        1
    } else if level > 10 {
        10
    } else {
        level
    }
}

/// The context orders of a level in `1..=10`.
pub open spec fn orders_for(level: u8) -> Seq<usize> {
    if level <= 1 {
        seq![1usize, 2]
    } else if level == 2 {
        seq![0usize, 1, 2, 3]
    } else if level == 3 {
        seq![0usize, 1, 2, 3, 4]
    } else if level == 4 {
        seq![0usize, 1, 2, 3, 4, 6]
    } else if level == 5 {
        seq![0usize, 1, 2, 3, 4, 5, 6]
    } else if level == 6 {
        seq![0usize, 1, 2, 3, 4, 5, 6, 8]
    } else if level == 7 {
        seq![0usize, 1, 2, 3, 4, 5, 6, 8, 10]
    } else if level == 8 {
        seq![0usize, 1, 2, 3, 4, 5, 6, 8, 10, 12]
    } else if level == 9 {
        seq![0usize, 1, 2, 3, 4, 5, 6, 7, 8, 10, 12, 16]
    } else {
        seq![0usize, 1, 2, 3, 4, 5, 6, 7, 8, 10, 12, 16, 24]
    }
}

/// log2 of the context-table size of a level.
pub open spec fn hash_bits_for(level: u8) -> u32 {
    if level <= 1 { 16 }
    else if level == 2 { 17 }
    else if level <= 4 { 18 }
    else if level == 5 { 19 }
    else if level == 6 { 20 }
    else if level <= 8 { 21 }
    else { 22 }
}

/// Whether a level runs the match model.
pub open spec fn match_model_for(level: u8) -> bool {
    level >= 3
}

/// The minimum match length of a level.
pub open spec fn match_min_for(level: u8) -> usize {
    if level <= 2 { 4 }
    else if level == 3 { 6 }
    else if level <= 5 { 5 }
    else if level <= 8 { 4 }
    else { 3 }
}

/// log2 of the match-table size of a level.
pub open spec fn match_hash_bits_for(level: u8) -> u32 {
    if level <= 3 { 16 }
    else if level == 4 { 17 }
    else if level <= 6 { 18 }
    else if level == 7 { 19 }
    else if level == 8 { 20 }
    else if level == 9 { 21 }
    else { 22 }
}

/// The number of SSE stages of a level.
pub open spec fn apm_stages_for(level: u8) -> u8 {
    if level <= 3 { 0 }
    else if level <= 6 { 1 }
    else { 2 }
}

/// The number of mixer weight sets of a level.
pub open spec fn mixer_contexts_for(level: u8) -> usize {
    if level <= 2 { 1 }
    else if level <= 4 { 2 }
    else if level <= 6 { 4 }
    else if level <= 8 { 8 }
    else { 16 }
}

/// The mixer learning rate of a level, in units of 2^-16.
pub open spec fn learning_rate_for(level: u8) -> u32 {
    if level <= 1 { 98 }
    else if level == 2 { 111 }
    else if level <= 4 { 131 }
    else if level == 5 { 144 }
    else if level <= 7 { 164 }
    else if level <= 9 { 197 }
    else { 229 }
}

/// The counter adaptation shift of a level.
pub open spec fn update_rate_for(level: u8) -> i32 {
    if level <= 4 { 5 }
    else if level <= 8 { 4 }
    else { 3 }
}

/// `cfg` is exactly the configuration of `level` (in `1..=10`).
pub open spec fn is_config_for(cfg: LevelConfig, level: u8) -> bool {
    &&& cfg.level == level
    &&& cfg.orders@ == orders_for(level)
    &&& cfg.hash_bits == hash_bits_for(level)
    &&& cfg.match_model == match_model_for(level)
    &&& cfg.match_min == match_min_for(level)
    &&& cfg.match_hash_bits == match_hash_bits_for(level)
    &&& cfg.apm_stages == apm_stages_for(level)
    &&& cfg.mixer_contexts == mixer_contexts_for(level)
    &&& cfg.learning_rate == learning_rate_for(level)
    &&& cfg.update_rate == update_rate_for(level)
}

/// Returns the configuration for `level`, clamped to `1..=10`.
pub fn config_for_level(level: u8) -> (cfg: LevelConfig)
    ensures
        is_config_for(cfg, clamp_level(level)),
{
    let level = if level < 1 { 1 } else if level > 10 { 10 } else { level };
    match level {
        1 => LevelConfig {
            level,
            orders: vec![1, 2],
            hash_bits: 16,
            match_model: false,
            match_min: 4,
            match_hash_bits: 16,
            apm_stages: 0,
            mixer_contexts: 1,
            learning_rate: 98,
            update_rate: 5,
        },
        2 => LevelConfig {
            level,
            orders: vec![0, 1, 2, 3],
            hash_bits: 17,
            match_model: false,
            match_min: 4,
            match_hash_bits: 16,
            apm_stages: 0,
            mixer_contexts: 1,
            learning_rate: 111,
            update_rate: 5,
        },
        3 => LevelConfig {
            level,
            orders: vec![0, 1, 2, 3, 4],
            hash_bits: 18,
            match_model: true,
            match_min: 6,
            match_hash_bits: 16,
            apm_stages: 0,
            mixer_contexts: 2,
            learning_rate: 131,
            update_rate: 5,
        },
        4 => LevelConfig {
            level,
            orders: vec![0, 1, 2, 3, 4, 6],
            hash_bits: 18,
            match_model: true,
            match_min: 5,
            match_hash_bits: 17,
            apm_stages: 1,
            mixer_contexts: 2,
            learning_rate: 131,
            update_rate: 5,
        },
        5 => LevelConfig {
            level,
            orders: vec![0, 1, 2, 3, 4, 5, 6],
            hash_bits: 19,
            match_model: true,
            match_min: 5,
            match_hash_bits: 18,
            apm_stages: 1,
            mixer_contexts: 4,
            learning_rate: 144,
            update_rate: 4,
        },
        6 => LevelConfig {
            level,
            orders: vec![0, 1, 2, 3, 4, 5, 6, 8],
            hash_bits: 20,
            match_model: true,
            match_min: 4,
            match_hash_bits: 18,
            apm_stages: 1,
            mixer_contexts: 4,
            learning_rate: 164,
            update_rate: 4,
        },
        7 => LevelConfig {
            level,
            orders: vec![0, 1, 2, 3, 4, 5, 6, 8, 10],
            hash_bits: 21,
            match_model: true,
            match_min: 4,
            match_hash_bits: 19,
            apm_stages: 2,
            mixer_contexts: 8,
            learning_rate: 164,
            update_rate: 4,
        },
        8 => LevelConfig {
            level,
            orders: vec![0, 1, 2, 3, 4, 5, 6, 8, 10, 12],
            hash_bits: 21,
            match_model: true,
            match_min: 4,
            match_hash_bits: 20,
            apm_stages: 2,
            mixer_contexts: 8,
            learning_rate: 197,
            update_rate: 4,
        },
        9 => LevelConfig {
            level,
            orders: vec![0, 1, 2, 3, 4, 5, 6, 7, 8, 10, 12, 16],
            hash_bits: 22,
            match_model: true,
            match_min: 3,
            match_hash_bits: 21,
            apm_stages: 2,
            mixer_contexts: 16,
            learning_rate: 197,
            update_rate: 3,
        },
        _ => LevelConfig {
            level,
            orders: vec![0, 1, 2, 3, 4, 5, 6, 7, 8, 10, 12, 16, 24],
            hash_bits: 22,
            match_model: true,
            match_min: 3,
            match_hash_bits: 22,
            apm_stages: 2,
            mixer_contexts: 16,
            learning_rate: 229,
            update_rate: 3,
        },
    }
}

/// The approximate model memory, in bytes, of a level in `1..=10`:
/// 2 bytes per context-model counter, 4 bytes per match-table entry and
/// `256 * 33 * 2` bytes per SSE stage.
pub open spec fn memory_for(level: u8) -> int {
    pow2(hash_bits_for(level) as nat) * 2 * orders_for(level).len()
        + (if match_model_for(level) { pow2(match_hash_bits_for(level) as nat) * 4 } else { 0 })
        + (apm_stages_for(level) as int) * 16896
}

/// `1 << bits` for the table sizes the levels use.
pub fn table_size(bits: u32) -> (n: usize)
    requires
        bits <= 22,
    ensures
        n == pow2(bits as nat),
{
    proof {
        lemma2_to64();
        if bits < 22 {
            vstd::arithmetic::power2::lemma_pow2_strictly_increases(bits as nat, 22);
        }
        lemma_usize_shl_is_mul(1, bits as usize);
    }
    1usize << (bits as usize)
}

/// The memory of each level, with the sizes it is made of.
proof fn lemma_memory_values(l: u8)
    requires
        1 <= l <= 10,
    ensures
        pow2(hash_bits_for(l) as nat) <= 0x40_0000,
        pow2(match_hash_bits_for(l) as nat) <= 0x40_0000,
        orders_for(l).len() <= 13,
        memory_for(l) == (if l == 1 { 262144int } else if l == 2 { 1048576 } else if l == 3 {
            2883584
        } else if l == 4 { 3686912 } else if l == 5 { 8405504 } else if l == 6 { 17842688 } else if l
            == 7 { 39879680 } else if l == 8 { 46171136 } else if l == 9 { 109085696 } else {
            125862912
        }),
{
    lemma2_to64();
    if l == 1 {
        assert(orders_for(l).len() == 2);
    } else if l == 2 {
        assert(orders_for(l).len() == 4);
    } else if l == 3 {
        assert(orders_for(l).len() == 5);
    } else if l == 4 {
        assert(orders_for(l).len() == 6);
    } else if l == 5 {
        assert(orders_for(l).len() == 7);
    } else if l == 6 {
        assert(orders_for(l).len() == 8);
    } else if l == 7 {
        assert(orders_for(l).len() == 9);
    } else if l == 8 {
        assert(orders_for(l).len() == 10);
    } else if l == 9 {
        assert(orders_for(l).len() == 12);
    } else {
        assert(orders_for(l).len() == 13);
    }
}

/// Returns the approximate memory usage for `level` in bytes.
pub fn estimated_memory_bytes(level: u8) -> (total: usize)
    ensures
        total == memory_for(clamp_level(level)),
{
    let cfg = config_for_level(level);
    proof {
        lemma_memory_values(clamp_level(level));
    }
    let table_bytes = table_size(cfg.hash_bits) * 2;
    assert(table_bytes * cfg.orders@.len() <= 0x80_0000 * 13) by (nonlinear_arith)
        requires table_bytes <= 0x80_0000, cfg.orders@.len() <= 13;
    let n_orders = cfg.orders.len();
    let mut total = table_bytes * n_orders;
    assert(total == table_bytes * cfg.orders@.len());
    if cfg.match_model {
        total += table_size(cfg.match_hash_bits) * 4;
    }
    if cfg.apm_stages >= 1 {
        total += 256 * 33 * 2;
    }
    if cfg.apm_stages >= 2 {
        total += 256 * 33 * 2;
    }
    total
}

/// Higher levels never need less model memory than lower ones.
pub proof fn lemma_memory_grows_with_level(a: u8, b: u8)
    requires
        a <= b,
    ensures
        memory_for(clamp_level(a)) <= memory_for(clamp_level(b)),
{
    lemma_memory_values(clamp_level(a));
    lemma_memory_values(clamp_level(b));
}

/// Every level, after clamping, is one of `1..=10` and uses at least one
/// context model, hash tables of at least 2^16 slots and at least one
/// mixer weight set.
pub proof fn lemma_configs_valid(level: u8)
    ensures
        1 <= clamp_level(level) <= 10,
        orders_for(clamp_level(level)).len() >= 1,
        hash_bits_for(clamp_level(level)) >= 16,
        mixer_contexts_for(clamp_level(level)) >= 1,
{
}

/// Every context order of level `l` is also an order of level `l + 1`.
proof fn lemma_orders_step(l: u8)
    requires
        1 <= l < 10,
    ensures
        forall|i: int|
            0 <= i < orders_for(l).len() ==> #[trigger] orders_for((l + 1) as u8).contains(orders_for(l)[i]),
{
    assert forall|i: int| 0 <= i < orders_for(l).len() implies #[trigger] orders_for((l + 1) as u8).contains(
        orders_for(l)[i],
    ) by {
        if l == 1 {
            assert(orders_for(2)[1] == orders_for(1)[0]);
            assert(orders_for(2)[2] == orders_for(1)[1]);
        } else if l == 2 {
            assert(orders_for(3)[0] == orders_for(2)[0]);
            assert(orders_for(3)[1] == orders_for(2)[1]);
            assert(orders_for(3)[2] == orders_for(2)[2]);
            assert(orders_for(3)[3] == orders_for(2)[3]);
        } else if l == 3 {
            assert(orders_for(4)[0] == orders_for(3)[0]);
            assert(orders_for(4)[1] == orders_for(3)[1]);
            assert(orders_for(4)[2] == orders_for(3)[2]);
            assert(orders_for(4)[3] == orders_for(3)[3]);
            assert(orders_for(4)[4] == orders_for(3)[4]);
        } else if l == 4 {
            assert(orders_for(5)[0] == orders_for(4)[0]);
            assert(orders_for(5)[1] == orders_for(4)[1]);
            assert(orders_for(5)[2] == orders_for(4)[2]);
            assert(orders_for(5)[3] == orders_for(4)[3]);
            assert(orders_for(5)[4] == orders_for(4)[4]);
            assert(orders_for(5)[6] == orders_for(4)[5]);
        } else if l == 5 {
            assert(orders_for(6)[0] == orders_for(5)[0]);
            assert(orders_for(6)[1] == orders_for(5)[1]);
            assert(orders_for(6)[2] == orders_for(5)[2]);
            assert(orders_for(6)[3] == orders_for(5)[3]);
            assert(orders_for(6)[4] == orders_for(5)[4]);
            assert(orders_for(6)[5] == orders_for(5)[5]);
            assert(orders_for(6)[6] == orders_for(5)[6]);
        } else if l == 6 {
            assert(orders_for(7)[0] == orders_for(6)[0]);
            assert(orders_for(7)[1] == orders_for(6)[1]);
            assert(orders_for(7)[2] == orders_for(6)[2]);
            assert(orders_for(7)[3] == orders_for(6)[3]);
            assert(orders_for(7)[4] == orders_for(6)[4]);
            assert(orders_for(7)[5] == orders_for(6)[5]);
            assert(orders_for(7)[6] == orders_for(6)[6]);
            assert(orders_for(7)[7] == orders_for(6)[7]);
        } else if l == 7 {
            assert(orders_for(8)[0] == orders_for(7)[0]);
            assert(orders_for(8)[1] == orders_for(7)[1]);
            assert(orders_for(8)[2] == orders_for(7)[2]);
            assert(orders_for(8)[3] == orders_for(7)[3]);
            assert(orders_for(8)[4] == orders_for(7)[4]);
            assert(orders_for(8)[5] == orders_for(7)[5]);
            assert(orders_for(8)[6] == orders_for(7)[6]);
            assert(orders_for(8)[7] == orders_for(7)[7]);
            assert(orders_for(8)[8] == orders_for(7)[8]);
        } else if l == 8 {
            assert(orders_for(9)[0] == orders_for(8)[0]);
            assert(orders_for(9)[1] == orders_for(8)[1]);
            assert(orders_for(9)[2] == orders_for(8)[2]);
            assert(orders_for(9)[3] == orders_for(8)[3]);
            assert(orders_for(9)[4] == orders_for(8)[4]);
            assert(orders_for(9)[5] == orders_for(8)[5]);
            assert(orders_for(9)[6] == orders_for(8)[6]);
            assert(orders_for(9)[8] == orders_for(8)[7]);
            assert(orders_for(9)[9] == orders_for(8)[8]);
            assert(orders_for(9)[10] == orders_for(8)[9]);
        } else if l == 9 {
            assert(orders_for(10)[0] == orders_for(9)[0]);
            assert(orders_for(10)[1] == orders_for(9)[1]);
            assert(orders_for(10)[2] == orders_for(9)[2]);
            assert(orders_for(10)[3] == orders_for(9)[3]);
            assert(orders_for(10)[4] == orders_for(9)[4]);
            assert(orders_for(10)[5] == orders_for(9)[5]);
            assert(orders_for(10)[6] == orders_for(9)[6]);
            assert(orders_for(10)[7] == orders_for(9)[7]);
            assert(orders_for(10)[8] == orders_for(9)[8]);
            assert(orders_for(10)[9] == orders_for(9)[9]);
            assert(orders_for(10)[10] == orders_for(9)[10]);
            assert(orders_for(10)[11] == orders_for(9)[11]);
        }
    }
}

/// Every context order of level `a` is also an order of level `b`, for
/// `a <= b` in `1..=10`.
proof fn lemma_orders_contained(a: u8, b: u8)
    requires
        1 <= a <= b <= 10,
    ensures
        forall|i: int| 0 <= i < orders_for(a).len() ==> #[trigger] orders_for(b).contains(orders_for(a)[i]),
    decreases b - a,
{
    if a < b {
        lemma_orders_contained(a, (b - 1) as u8);
        lemma_orders_step((b - 1) as u8);
        assert forall|i: int| 0 <= i < orders_for(a).len() implies #[trigger] orders_for(b).contains(
            orders_for(a)[i],
        ) by {
            let x = orders_for(a)[i];
            assert(orders_for((b - 1) as u8).contains(x));
            let prev = orders_for((b - 1) as u8);
            let j = choose|j: int| 0 <= j < prev.len() && #[trigger] prev[j] == x;
            assert(orders_for(b).contains(prev[j]));
        }
    } else {
        assert forall|i: int| 0 <= i < orders_for(a).len() implies #[trigger] orders_for(b).contains(
            orders_for(a)[i],
        ) by {
            assert(orders_for(b)[i] == orders_for(a)[i]);
        }
    }
}

/// A higher level keeps every context order of a lower one (so it never
/// has fewer), and never has smaller hash tables, fewer SSE stages, fewer
/// mixer weight sets, a smaller match table, or the match model off where
/// the lower level has it on.
pub proof fn lemma_levels_grow(a: u8, b: u8)
    requires
        a <= b,
    ensures
        forall|i: int|
            0 <= i < orders_for(clamp_level(a)).len() ==> #[trigger] orders_for(clamp_level(b)).contains(
                orders_for(clamp_level(a))[i],
            ),
        orders_for(clamp_level(a)).len() <= orders_for(clamp_level(b)).len(),
        hash_bits_for(clamp_level(a)) <= hash_bits_for(clamp_level(b)),
        apm_stages_for(clamp_level(a)) <= apm_stages_for(clamp_level(b)),
        mixer_contexts_for(clamp_level(a)) <= mixer_contexts_for(clamp_level(b)),
        match_hash_bits_for(clamp_level(a)) <= match_hash_bits_for(clamp_level(b)),
        match_model_for(clamp_level(a)) ==> match_model_for(clamp_level(b)),
{
    lemma_orders_contained(clamp_level(a), clamp_level(b));
}

/// The context orders of every level strictly increase (no order appears
/// twice), there are between 2 and 13 of them, none is longer than 24
/// bytes, and level 10 uses all 13, from 0 up to 24 bytes.
pub proof fn lemma_orders_shape(level: u8)
    ensures
        ({
            let l = if level < 1 { 1u8 } else if level > 10 { 10u8 } else { level };
            let o = orders_for(l);
            &&& 2 <= o.len() <= 13
            &&& forall|i: int, j: int| 0 <= i < j < o.len() ==> #[trigger] o[i] < #[trigger] o[j]
            &&& forall|i: int| 0 <= i < o.len() ==> #[trigger] o[i] <= 24
        }),
        orders_for(10).len() == 13,
        orders_for(10)[0] == 0,
        orders_for(10)[12] == 24,
{
    let l = clamp_level(level);
    let o = orders_for(l);
    assert forall|i: int, j: int| 0 <= i < j < o.len() implies #[trigger] o[i] < #[trigger] o[j] by {
        assert forall|k: int| 0 <= k < o.len() - 1 implies #[trigger] o[k] < o[k + 1] by {}
        lemma_increasing_steps(o, i, j);
    }
}

proof fn lemma_increasing_steps(o: Seq<usize>, i: int, j: int)
    requires
        0 <= i < j < o.len(),
        forall|k: int| 0 <= k < o.len() - 1 ==> #[trigger] o[k] < o[k + 1],
    ensures
        o[i] < o[j],
    decreases j - i,
{
    if i + 1 < j {
        lemma_increasing_steps(o, i + 1, j);
        assert(o[i] < o[i + 1]);
    }
}

} // verus!
