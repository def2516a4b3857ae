//! Weighted optimal-string-alignment distance and bounded typo generation.
//!
//! Costs are fixed-point: a `u64` counting thousandths of a cost unit, so a
//! plain edit costs 1000.  A metric bundles a cost policy, the keyboard
//! layout the policy reads, and the alphabet used during generation.

use vstd::prelude::*;
use vstd::hash_set::StringHashSet;
use vstd::string::StrSliceExecFns;
use vstd::string::StringExecFns;

use crate::key_layout::KeyIndex;
use crate::key_layout::KeyLayout;
use crate::key_layout::capped_delta;
use crate::key_layout::spec_capped_delta;
use crate::key_layout::scaled_root_3;
use crate::math::sqrt_floor;
use crate::math::lemma_sqrt_floor_monotone;
use crate::math::lemma_sqrt_floor_upper;

verus! {

/// Which cost policy a metric follows.
#[derive(Clone, Copy, PartialEq, Eq, Structural, Debug)]
pub enum CostPolicy {
    /// Every operation costs one unit; substituting or transposing equal
    /// characters is free.
    Uniform,
    /// Costs follow the desktop keyboard geometry.
    Desktop,
    /// Costs follow the mobile keyboard geometry: a key's shift variants lie
    /// closer together.
    Mobile,
}

/// A bundle of cost policy, keyboard layout and generation alphabet.
pub struct Metric {
    /// The cost policy.
    pub policy: CostPolicy,
    /// The layout whose geometry the layout-aware policies read.
    pub layout: KeyLayout,
    /// The candidate characters considered during generation.
    pub alphabet: Vec<char>,
}

/// The smaller of two mathematical integers.
pub open spec fn spec_min(x: int, y: int) -> int {
    if x <= y {
        x
    } else {
        y
    }
}

/// The scaled pairwise layout distance between two characters: the euclidean
/// key distance with shift levels weighted by the policy, and a flat unit
/// fallback when either character is not on the layout.  Deltas are capped at
/// a million key units so the arithmetic stays in 64 bits.
pub open spec fn spec_geom(km: Map<char, KeyIndex>, a: char, b: char, mobile: bool) -> int {
    if km.contains_key(a) && km.contains_key(b) {
        let pa = km[a];
        let pb = km[b];
        let dr = spec_capped_delta(pa.0 as int, pb.0 as int);
        let dc = spec_capped_delta(pa.1 as int, pb.1 as int);
        let ds = spec_capped_delta(pa.2 as int, pb.2 as int);
        if pa.2 < 2 && pb.2 < 2 {
            if mobile && dr == 0 && dc == 0 {
                sqrt_floor(((ds * ds) * 500000) as nat) as int
            } else {
                sqrt_floor(((4 * (dr * dr) + 4 * (dc * dc) + 9 * (ds * ds)) * 100000) as nat) as int
            }
        } else {
            sqrt_floor((((dr * dr) + (dc * dc)) * 500000) as nat) as int + 2000 * ds
        }
    } else {
        1000
    }
}

/// The pairwise layout distance is non-negative and at most 3.4 cost units.
pub proof fn lemma_geom_range(km: Map<char, KeyIndex>, a: char, b: char, mobile: bool)
    ensures
        0 <= spec_geom(km, a, b, mobile) <= 3400000000,
{
    if km.contains_key(a) && km.contains_key(b) {
        let pa = km[a];
        let pb = km[b];
        let dr = spec_capped_delta(pa.0 as int, pb.0 as int);
        let dc = spec_capped_delta(pa.1 as int, pb.1 as int);
        let ds = spec_capped_delta(pa.2 as int, pb.2 as int);
        assert(0 <= dr <= 1000000 && 0 <= dc <= 1000000 && 0 <= ds <= 1000000);
        if pa.2 < 2 && pb.2 < 2 {
            if mobile && dr == 0 && dc == 0 {
                let x = (ds * ds) * 500000;
                assert(0 <= x && x < 1310000000 * 1310000000) by (nonlinear_arith)
                    requires
                        0 <= ds <= 1000000,
                        x == (ds * ds) * 500000,
                ;
                lemma_sqrt_floor_upper(x as nat, 1310000000nat);
            } else {
                let x = (4 * (dr * dr) + 4 * (dc * dc) + 9 * (ds * ds)) * 100000;
                assert(0 <= x && x < 1310000000 * 1310000000) by (nonlinear_arith)
                    requires
                        0 <= dr <= 1000000,
                        0 <= dc <= 1000000,
                        0 <= ds <= 1000000,
                        x == (4 * (dr * dr) + 4 * (dc * dc) + 9 * (ds * ds)) * 100000,
                ;
                lemma_sqrt_floor_upper(x as nat, 1310000000nat);
            }
        } else {
            let x = ((dr * dr) + (dc * dc)) * 500000;
            assert(0 <= x && x < 1100000000 * 1100000000) by (nonlinear_arith)
                requires
                    0 <= dr <= 1000000,
                    0 <= dc <= 1000000,
                    x == ((dr * dr) + (dc * dc)) * 500000,
            ;
            lemma_sqrt_floor_upper(x as nat, 1100000000nat);
            assert(0 <= 2000 * ds <= 2000000000);
        }
    }
}

/// The weighted squared key distance the easy-shift geometry takes the
/// square root of: row and column deltas weigh alike, a shift delta half
/// again as much.
pub open spec fn weighted_key_gap(pa: KeyIndex, pb: KeyIndex) -> int {
    let dr = spec_capped_delta(pa.0 as int, pb.0 as int);
    let dc = spec_capped_delta(pa.1 as int, pb.1 as int);
    let ds = spec_capped_delta(pa.2 as int, pb.2 as int);
    4 * (dr * dr) + 4 * (dc * dc) + 9 * (ds * ds)
}

/// Layout sensitivity of the desktop geometry: of two candidate characters
/// on easy shift levels, the one on the nearer key never costs more to
/// substitute.
pub proof fn lemma_nearer_key_cheaper(km: Map<char, KeyIndex>, a: char, b1: char, b2: char)
    requires
        km.contains_key(a),
        km.contains_key(b1),
        km.contains_key(b2),
        km[a].2 < 2,
        km[b1].2 < 2,
        km[b2].2 < 2,
        weighted_key_gap(km[a], km[b1]) <= weighted_key_gap(km[a], km[b2]),
    ensures
        spec_geom(km, b1, a, false) <= spec_geom(km, b2, a, false),
{
    let g1 = weighted_key_gap(km[b1], km[a]);
    let g2 = weighted_key_gap(km[b2], km[a]);
    assert(g1 == weighted_key_gap(km[a], km[b1]) && g2 == weighted_key_gap(km[a], km[b2]));
    assert(g1 >= 0 && g2 >= 0 && g1 * 100000 <= g2 * 100000) by (nonlinear_arith)
        requires
            g1 <= g2,
            g1 == weighted_key_gap(km[b1], km[a]),
            g2 == weighted_key_gap(km[b2], km[a]),
            weighted_key_gap(km[b1], km[a]) >= 0,
            weighted_key_gap(km[b2], km[a]) >= 0,
    ;
    assert(weighted_key_gap(km[b1], km[a]) >= 0 && weighted_key_gap(km[b2], km[a]) >= 0)
        by (nonlinear_arith);
    lemma_sqrt_floor_monotone((g1 * 100000) as nat, (g2 * 100000) as nat);
}

/// For a character the layout holds, the distance to itself is zero.
pub proof fn lemma_geom_self(km: Map<char, KeyIndex>, c: char, mobile: bool)
    requires
        km.contains_key(c),
    ensures
        spec_geom(km, c, c, mobile) == 0,
{
    let p = km[c];
    let z = spec_capped_delta(p.0 as int, p.0 as int);
    assert(z == 0);
    assert((0int * 0int) * 500000 == 0 && (4 * (0int * 0int) + 4 * (0int * 0int) + 9 * (0int
        * 0int)) * 100000 == 0 && ((0int * 0int) + (0int * 0int)) * 500000 == 0 && 2000 * 0int
        == 0) by (nonlinear_arith);
    assert(sqrt_floor(0nat) == 0);
}

/// Deletion cost: one unit under every policy.
pub open spec fn spec_deletion_cost(m: Metric, s: Seq<char>, i: int, c: char) -> int {
    1000
}

/// Substitution cost: free for equal characters under the uniform policy and
/// one unit otherwise; the pairwise layout distance under the layout-aware
/// policies.
pub open spec fn spec_substitution_cost(m: Metric, s: Seq<char>, i: int, swap: char, cur: char) -> int {
    match m.policy {
        CostPolicy::Uniform => if swap == cur {
            0
        } else {
            1000
        },
        CostPolicy::Desktop => spec_geom(m.layout.key_map(), swap, cur, false),
        CostPolicy::Mobile => spec_geom(m.layout.key_map(), swap, cur, true),
    }
}

/// Transposition cost: free for equal characters; otherwise one unit under
/// the uniform policy and six tenths under the layout-aware policies.
pub open spec fn spec_transposition_cost(m: Metric, s: Seq<char>, i: int, cur: char, prev: char) -> int {
    match m.policy {
        CostPolicy::Uniform => if cur == prev {
            0
        } else {
            1000
        },
        _ => if cur == prev {
            0
        } else {
            600
        },
    }
}

/// Insertion cost at position `i` of context `s`: one unit under the uniform
/// policy; under the layout-aware policies the lesser layout distance from
/// the inserted character to its successor `s[i]` (a flat unit when there is
/// none) or to its predecessor `prev`, plus a fixed four-tenths keystroke
/// penalty.
pub open spec fn spec_insertion_cost(m: Metric, s: Seq<char>, i: int, insert: char, prev: char) -> int {
    match m.policy {
        CostPolicy::Uniform => 1000,
        CostPolicy::Desktop => spec_min(
            if 0 <= i < s.len() {
                spec_geom(m.layout.key_map(), insert, s[i], false)
            } else {
                1000
            },
            spec_geom(m.layout.key_map(), insert, prev, false),
        ) + 400,
        CostPolicy::Mobile => spec_min(
            if 0 <= i < s.len() {
                spec_geom(m.layout.key_map(), insert, s[i], true)
            } else {
                1000
            },
            spec_geom(m.layout.key_map(), insert, prev, true),
        ) + 400,
    }
}

/// Substitution cost lies between zero and 3.4 units.
pub proof fn lemma_sub_cost_range(m: Metric, s: Seq<char>, i: int, swap: char, cur: char)
    ensures
        0 <= spec_substitution_cost(m, s, i, swap, cur) <= 3400000000,
{
    match m.policy {
        CostPolicy::Uniform => {},
        CostPolicy::Desktop => {
            lemma_geom_range(m.layout.key_map(), swap, cur, false);
        },
        CostPolicy::Mobile => {
            lemma_geom_range(m.layout.key_map(), swap, cur, true);
        },
    }
}

/// Insertion cost lies between four tenths and a little over 3.4 units.
pub proof fn lemma_ins_cost_range(m: Metric, s: Seq<char>, i: int, insert: char, prev: char)
    ensures
        400 <= spec_insertion_cost(m, s, i, insert, prev) <= 3400000400,
{
    match m.policy {
        CostPolicy::Uniform => {},
        CostPolicy::Desktop => {
            if 0 <= i < s.len() {
                lemma_geom_range(m.layout.key_map(), insert, s[i], false);
            }
            lemma_geom_range(m.layout.key_map(), insert, prev, false);
        },
        CostPolicy::Mobile => {
            if 0 <= i < s.len() {
                lemma_geom_range(m.layout.key_map(), insert, s[i], true);
            }
            lemma_geom_range(m.layout.key_map(), insert, prev, true);
        },
    }
}

impl Metric {
    /// Cost of deleting `c`, the character before position `i` of `s`.
    pub fn deletion_cost(&self, s: &Vec<char>, i: usize, c: char) -> (r: u64)
        ensures
            r as int == spec_deletion_cost(*self, s@, i as int, c),
            r == 1000,
    {
        1000
    }

    /// Cost of substituting `swap` for `cur` at position `i` of `s`.
    pub fn substitution_cost(&self, s: &Vec<char>, i: usize, swap: char, cur: char) -> (r: u64)
        ensures
            r as int == spec_substitution_cost(*self, s@, i as int, swap, cur),
            r <= 3400000000,
    {
        proof {
            lemma_sub_cost_range(*self, s@, i as int, swap, cur);
        }
        match self.policy {
            CostPolicy::Uniform => if swap == cur {
                0
            } else {
                1000
            },
            CostPolicy::Desktop => geom(&self.layout, swap, cur, false),
            CostPolicy::Mobile => geom(&self.layout, swap, cur, true),
        }
    }

    /// Cost of transposing `cur` and `prev`, the characters before position
    /// `i` of `s`.
    pub fn transposition_cost(&self, s: &Vec<char>, i: usize, cur: char, prev: char) -> (r: u64)
        ensures
            r as int == spec_transposition_cost(*self, s@, i as int, cur, prev),
            r <= 1000,
    {
        match self.policy {
            CostPolicy::Uniform => if cur == prev {
                0
            } else {
                1000
            },
            _ => if cur == prev {
                0
            } else {
                600
            },
        }
    }

    /// Cost of inserting `insert` at position `i` of `s`, after `prev`.
    pub fn insertion_cost(&self, s: &Vec<char>, i: usize, insert: char, prev: char) -> (r: u64)
        ensures
            r as int == spec_insertion_cost(*self, s@, i as int, insert, prev),
            400 <= r <= 3400000400,
    {
        proof {
            lemma_ins_cost_range(*self, s@, i as int, insert, prev);
        }
        match self.policy {
            CostPolicy::Uniform => 1000,
            CostPolicy::Desktop => {
                let next_cost = if i < s.len() {
                    geom(&self.layout, insert, s[i], false)
                } else {
                    1000
                };
                let prev_cost = geom(&self.layout, insert, prev, false);
                let least = if next_cost <= prev_cost {
                    next_cost
                } else {
                    prev_cost
                };
                least + 400
            },
            CostPolicy::Mobile => {
                let next_cost = if i < s.len() {
                    geom(&self.layout, insert, s[i], true)
                } else {
                    1000
                };
                let prev_cost = geom(&self.layout, insert, prev, true);
                let least = if next_cost <= prev_cost {
                    next_cost
                } else {
                    prev_cost
                };
                least + 400
            },
        }
    }
}

/// The scaled pairwise layout distance, computed exactly as `spec_geom`
/// states it.
pub fn geom(layout: &KeyLayout, a: char, b: char, mobile: bool) -> (r: u64)
    ensures
        r as int == spec_geom(layout.key_map(), a, b, mobile),
        r <= 3400000000,
{
    proof {
        lemma_geom_range(layout.key_map(), a, b, mobile);
    }
    let pa = layout.get_pos(a);
    let pb = layout.get_pos(b);
    match (pa, pb) {
        (Some(pa), Some(pb)) => {
            let dr = capped_delta(pa.0, pb.0);
            let dc = capped_delta(pa.1, pb.1);
            let ds = capped_delta(pa.2, pb.2);
            if pa.2 < 2 && pb.2 < 2 {
                if mobile && dr == 0 && dc == 0 {
                    let r = scaled_root_3(ds, 0, 0, 500000);
                    proof {
                        assert(((ds as int * ds as int + 0 * 0 + 0 * 0)) * 500000 == ((ds as int
                            * ds as int)) * 500000) by (nonlinear_arith);
                    }
                    r
                } else {
                    let r = scaled_root_3(2 * dr, 2 * dc, 3 * ds, 100000);
                    proof {
                        assert(((2 * dr as int) * (2 * dr as int) + (2 * dc as int) * (2 * dc as int)
                            + (3 * ds as int) * (3 * ds as int)) * 100000 == (4 * (dr as int
                            * dr as int) + 4 * (dc as int * dc as int) + 9 * (ds as int
                            * ds as int)) * 100000) by (nonlinear_arith);
                    }
                    r
                }
            } else {
                let root = scaled_root_3(dr, dc, 0, 500000);
                proof {
                    assert(((dr as int * dr as int + dc as int * dc as int + 0 * 0)) * 500000 == ((
                    dr as int * dr as int) + (dc as int * dc as int)) * 500000) by (nonlinear_arith);
                    assert(((dr as int * dr as int) + (dc as int * dc as int)) * 500000 < 1100000000
                        * 1100000000) by (nonlinear_arith)
                        requires
                            0 <= dr as int <= 1000000,
                            0 <= dc as int <= 1000000,
                    ;
                    lemma_sqrt_floor_upper(
                        (((dr as int * dr as int) + (dc as int * dc as int)) * 500000) as nat,
                        1100000000nat,
                    );
                }
                root + 2000 * ds
            }
        },
        _ => 1000,
    }
}

/// The weighted optimal-string-alignment recurrence between prefixes
/// `a[..i]` and `b[..j]`: the least accumulated cost over deletions,
/// insertions, substitutions and adjacent transpositions, where transposed
/// prefixes take no further edit.
pub open spec fn spec_osa(a: Seq<char>, b: Seq<char>, m: Metric, i: nat, j: nat) -> int
    decreases i + j,
{
    if i == 0 && j == 0 {
        0
    } else if j == 0 {
        spec_osa(a, b, m, (i - 1) as nat, 0) + 1000
    } else if i == 0 {
        spec_osa(a, b, m, 0, (j - 1) as nat) + 1000
    } else {
        let del = spec_osa(a, b, m, (i - 1) as nat, j) + spec_deletion_cost(
            m,
            b,
            j - 1,
            b[j - 1],
        );
        let ins = spec_osa(a, b, m, i, (j - 1) as nat) + spec_insertion_cost(
            m,
            b,
            j - 1,
            a[i - 1],
            b[j - 1],
        );
        let sub = spec_osa(a, b, m, (i - 1) as nat, (j - 1) as nat) + spec_substitution_cost(
            m,
            b,
            j - 1,
            a[i - 1],
            b[j - 1],
        );
        let best = spec_min(spec_min(del, ins), sub);
        if i >= 2 && j >= 2 && a[i - 1] == b[j - 2] && a[i - 2] == b[j - 1] {
            spec_min(
                best,
                spec_osa(a, b, m, (i - 2) as nat, (j - 2) as nat) + spec_transposition_cost(
                    m,
                    b,
                    j - 1,
                    b[j - 1],
                    b[j - 2],
                ),
            )
        } else {
            best
        }
    }
}

/// The recurrence value is non-negative and grows at most linearly in the
/// prefix lengths, at 3.5 units per step.
pub proof fn lemma_osa_range(a: Seq<char>, b: Seq<char>, m: Metric, i: nat, j: nat)
    ensures
        0 <= spec_osa(a, b, m, i, j) <= (i + j) * 3500000000,
    decreases i + j,
{
    if i == 0 && j == 0 {
        assert((i + j) * 3500000000 == 0) by (nonlinear_arith)
            requires
                i + j == 0,
        ;
    } else if j == 0 {
        lemma_osa_range(a, b, m, (i - 1) as nat, 0);
        assert(((i - 1) + 0) * 3500000000 + 1000 <= (i + 0) * 3500000000) by (nonlinear_arith)
            requires
                i >= 1,
        ;
    } else if i == 0 {
        lemma_osa_range(a, b, m, 0, (j - 1) as nat);
        assert((0 + (j - 1)) * 3500000000 + 1000 <= (0 + j) * 3500000000) by (nonlinear_arith)
            requires
                j >= 1,
        ;
    } else {
        lemma_osa_range(a, b, m, (i - 1) as nat, j);
        lemma_osa_range(a, b, m, i, (j - 1) as nat);
        lemma_osa_range(a, b, m, (i - 1) as nat, (j - 1) as nat);
        lemma_sub_cost_range(m, b, j - 1, a[i - 1], b[j - 1]);
        lemma_ins_cost_range(m, b, j - 1, a[i - 1], b[j - 1]);
        assert((i + j - 1) * 3500000000 + 1000 <= (i + j) * 3500000000 && (i + j - 1) * 3500000000
            + 3400000400 <= (i + j) * 3500000000 && (i + j - 2) * 3500000000 + 3400000000 <= (i + j)
            * 3500000000 && (i + j - 2) * 3500000000 >= 0 ==> (i + j - 2) * 3500000000 <= (i + j)
            * 3500000000) by (nonlinear_arith)
            requires
                i >= 1,
                j >= 1,
        ;
        if i >= 2 && j >= 2 && a[i - 1] == b[j - 2] && a[i - 2] == b[j - 1] {
            lemma_osa_range(a, b, m, (i - 2) as nat, (j - 2) as nat);
            assert((i + j - 4) * 3500000000 + 1000 <= (i + j) * 3500000000) by (nonlinear_arith)
                requires
                    i >= 2,
                    j >= 2,
            ;
        }
    }
}

/// The recurrence value fits comfortably in 64 bits for strings of at most a
/// million characters.
pub proof fn lemma_osa_cell_bound(a: Seq<char>, b: Seq<char>, m: Metric, i: nat, j: nat)
    requires
        i <= 1000000,
        j <= 1000000,
    ensures
        0 <= spec_osa(a, b, m, i, j) <= 7000000000000000,
{
    lemma_osa_range(a, b, m, i, j);
    assert((i + j) * 3500000000 <= 7000000000000000) by (nonlinear_arith)
        requires
            i + j <= 2000000,
    ;
}

/// A metric under which substituting a character of `s` for itself is free:
/// the uniform policy, or a layout-aware policy whose layout holds every
/// character of `s`.  A layout-aware metric charges the flat fallback even
/// for a character substituted by itself when the layout does not hold it.
pub open spec fn identity_metric_ok(m: Metric, s: Seq<char>) -> bool {
    m.policy == CostPolicy::Uniform || forall|p: int|
        0 <= p < s.len() ==> m.layout.key_map().contains_key(s[p])
}

/// The distance from a string to itself is zero, under any metric that
/// charges nothing for substituting a character of the string by itself.
pub proof fn lemma_distance_identity(s: Seq<char>, m: Metric, i: nat)
    requires
        identity_metric_ok(m, s),
        i <= s.len(),
    ensures
        spec_osa(s, s, m, i, i) == 0,
    decreases i,
{
    if i > 0 {
        lemma_distance_identity(s, m, (i - 1) as nat);
        lemma_osa_range(s, s, m, (i - 1) as nat, i);
        lemma_osa_range(s, s, m, i, (i - 1) as nat);
        lemma_ins_cost_range(m, s, i - 1, s[i - 1], s[i - 1]);
        if i >= 2 {
            lemma_osa_range(s, s, m, (i - 2) as nat, (i - 2) as nat);
        }
        match m.policy {
            CostPolicy::Uniform => {},
            CostPolicy::Desktop => {
                lemma_geom_self(m.layout.key_map(), s[i - 1], false);
            },
            CostPolicy::Mobile => {
                lemma_geom_self(m.layout.key_map(), s[i - 1], true);
            },
        }
        assert(spec_substitution_cost(m, s, i - 1, s[i - 1], s[i - 1]) == 0);
    }
}

/// The distance between any two strings under any metric is non-negative.
pub proof fn lemma_distance_nonneg(a: Seq<char>, b: Seq<char>, m: Metric)
    ensures
        spec_osa(a, b, m, a.len(), b.len()) >= 0,
{
    lemma_osa_range(a, b, m, a.len(), b.len());
}

/// The smallest element of a non-empty slice, as a reference.
pub fn partial_min(vals: &[u64]) -> (r: &u64)
    requires
        vals@.len() > 0,
    ensures
        forall|k: int| 0 <= k < vals@.len() ==> *r <= vals@[k],
        exists|k: int| 0 <= k < vals@.len() && *r == vals@[k],
{
    let mut best: usize = 0;
    let mut k: usize = 1;
    while k < vals.len()
        invariant
            0 <= best < k <= vals@.len(),
            forall|p: int| 0 <= p < k ==> vals@[best as int] <= vals@[p],
        decreases vals@.len() - k,
    {
        if vals[k] < vals[best] {
            best = k;
        }
        k = k + 1;
    }
    &vals[best]
}

/// The largest element of a non-empty slice.
pub fn partial_max(vals: &[u64]) -> (r: u64)
    requires
        vals@.len() > 0,
    ensures
        forall|k: int| 0 <= k < vals@.len() ==> vals@[k] <= r,
        exists|k: int| 0 <= k < vals@.len() && r == vals@[k],
{
    let mut best: usize = 0;
    let mut k: usize = 1;
    while k < vals.len()
        invariant
            0 <= best < k <= vals@.len(),
            forall|p: int| 0 <= p < k ==> vals@[p] <= vals@[best as int],
        decreases vals@.len() - k,
    {
        if vals[k] > vals[best] {
            best = k;
        }
        k = k + 1;
    }
    vals[best]
}

/// The characters of a string slice, in order.
pub fn str_chars(s: &str) -> (r: Vec<char>)
    ensures
        r@ == s@,
{
    let n = s.unicode_len();
    let mut r: Vec<char> = Vec::new();
    let mut k: usize = 0;
    proof {
        assert(s@.take(0int) =~= Seq::<char>::empty());
    }
    while k < n
        invariant
            k <= n == s@.len(),
            r@ == s@.take(k as int),
        decreases n - k,
    {
        let c = s.get_char(k);
        r.push(c);
        proof {
            assert(s@.take(k + 1int) =~= s@.take(k as int).push(s@[k as int]));
        }
        k = k + 1;
    }
    proof {
        assert(s@.take(n as int) =~= s@);
    }
    r
}

/// Relies on `String::push`: appends the character to the string.
#[verifier::external_body]
fn push_char(s: &mut String, c: char)
    ensures
        final(s)@ == old(s)@.push(c),
{
    s.push(c)
}

/// A string holding exactly the given characters, in order.
pub fn chars_to_string(v: &Vec<char>) -> (r: String)
    ensures
        r@ == v@,
{
    let mut r = String::new();
    let mut k: usize = 0;
    proof {
        assert(v@.take(0int) =~= Seq::<char>::empty());
    }
    while k < v.len()
        invariant
            k <= v@.len(),
            r@ == v@.take(k as int),
        decreases v@.len() - k,
    {
        push_char(&mut r, v[k]);
        proof {
            assert(v@.take(k + 1int) =~= v@.take(k as int).push(v@[k as int]));
        }
        k = k + 1;
    }
    proof {
        assert(v@.take(v@.len() as int) =~= v@);
    }
    r
}

/// The weighted optimal-string-alignment distance between `a` and `b` under
/// `metric`: the value of the recurrence at the full lengths.  The length
/// bound keeps every intermediate cost within 64 bits.
pub fn distance(a: &str, b: &str, metric: &Metric) -> (r: u64)
    requires
        a@.len() <= 1000000,
        b@.len() <= 1000000,
    ensures
        r as int == spec_osa(a@, b@, *metric, a@.len(), b@.len()),
{
    let av = str_chars(a);
    let bv = str_chars(b);
    let m = av.len();
    let n = bv.len();
    let mut d: Vec<Vec<u64>> = Vec::new();

    let mut row0: Vec<u64> = Vec::new();
    row0.push(0);
    let mut j: usize = 1;
    while j <= n
        invariant
            1 <= j <= n + 1,
            n == b@.len() <= 1000000,
            row0@.len() == j,
            forall|c: int| 0 <= c < j ==> row0@[c] as int == spec_osa(a@, b@, *metric, 0, c as nat),
        decreases n + 1 - j,
    {
        proof {
            lemma_osa_cell_bound(a@, b@, *metric, 0, (j - 1) as nat);
        }
        let prev = row0[j - 1];
        row0.push(prev + 1000);
        j = j + 1;
    }
    d.push(row0);

    let mut i: usize = 1;
    while i <= m
        invariant
            1 <= i <= m + 1,
            m == a@.len() <= 1000000,
            n == b@.len() <= 1000000,
            av@ == a@,
            bv@ == b@,
            d@.len() == i,
            forall|r2: int| 0 <= r2 < i ==> d@[r2].len() == n + 1,
            forall|r2: int, c: int|
                0 <= r2 < i && 0 <= c <= n ==> #[trigger] d@[r2]@[c] as int == spec_osa(
                    a@,
                    b@,
                    *metric,
                    r2 as nat,
                    c as nat,
                ),
        decreases m + 1 - i,
    {
        let mut row: Vec<u64> = Vec::new();
        proof {
            lemma_osa_cell_bound(a@, b@, *metric, (i - 1) as nat, 0);
        }
        let first = d[i - 1][0] + 1000;
        row.push(first);
        let mut j: usize = 1;
        while j <= n
            invariant
                1 <= i <= m,
                1 <= j <= n + 1,
                m == a@.len() <= 1000000,
                n == b@.len() <= 1000000,
                av@ == a@,
                bv@ == b@,
                d@.len() == i,
                forall|r2: int| 0 <= r2 < i ==> d@[r2].len() == n + 1,
                forall|r2: int, c: int|
                    0 <= r2 < i && 0 <= c <= n ==> #[trigger] d@[r2]@[c] as int == spec_osa(
                        a@,
                        b@,
                        *metric,
                        r2 as nat,
                        c as nat,
                    ),
                row@.len() == j,
                forall|c: int|
                    0 <= c < j ==> #[trigger] row@[c] as int == spec_osa(
                        a@,
                        b@,
                        *metric,
                        i as nat,
                        c as nat,
                    ),
            decreases n + 1 - j,
        {
            let ai = av[i - 1];
            let bj = bv[j - 1];
            proof {
                lemma_osa_cell_bound(a@, b@, *metric, (i - 1) as nat, j as nat);
                lemma_osa_cell_bound(a@, b@, *metric, i as nat, (j - 1) as nat);
                lemma_osa_cell_bound(a@, b@, *metric, (i - 1) as nat, (j - 1) as nat);
            }
            let del = d[i - 1][j] + metric.deletion_cost(&bv, j - 1, bj);
            let ins = row[j - 1] + metric.insertion_cost(&bv, j - 1, ai, bj);
            let sub = d[i - 1][j - 1] + metric.substitution_cost(&bv, j - 1, ai, bj);
            let mut best = if del <= ins {
                del
            } else {
                ins
            };
            if sub < best {
                best = sub;
            }
            if i >= 2 && j >= 2 && ai == bv[j - 2] && av[i - 2] == bj {
                proof {
                    lemma_osa_cell_bound(a@, b@, *metric, (i - 2) as nat, (j - 2) as nat);
                }
                let tr = d[i - 2][j - 2] + metric.transposition_cost(&bv, j - 1, bj, bv[j - 2]);
                if tr < best {
                    best = tr;
                }
            }
            row.push(best);
            j = j + 1;
        }
        d.push(row);
        i = i + 1;
    }
    d[m][n]
}

/// The recurrence reads a metric only through its policy and, for the
/// layout-aware policies, through its layout's character index.
pub proof fn lemma_osa_congruent(a: Seq<char>, b: Seq<char>, m1: Metric, m2: Metric, i: nat, j: nat)
    requires
        m1.policy == m2.policy,
        m1.policy == CostPolicy::Uniform || m1.layout.key_map() == m2.layout.key_map(),
    ensures
        spec_osa(a, b, m1, i, j) == spec_osa(a, b, m2, i, j),
    decreases i + j,
{
    if i == 0 && j == 0 {
    } else if j == 0 {
        lemma_osa_congruent(a, b, m1, m2, (i - 1) as nat, 0);
    } else if i == 0 {
        lemma_osa_congruent(a, b, m1, m2, 0, (j - 1) as nat);
    } else {
        lemma_osa_congruent(a, b, m1, m2, (i - 1) as nat, j);
        lemma_osa_congruent(a, b, m1, m2, i, (j - 1) as nat);
        lemma_osa_congruent(a, b, m1, m2, (i - 1) as nat, (j - 1) as nat);
        if i >= 2 && j >= 2 && a[i - 1] == b[j - 2] && a[i - 2] == b[j - 1] {
            lemma_osa_congruent(a, b, m1, m2, (i - 2) as nat, (j - 2) as nat);
        }
    }
}

/// A generated candidate: a word and its accumulated, inflated cost.
#[derive(PartialEq, Debug)]
pub struct DistanceCost {
    /// The accumulated search cost, in thousandths.
    pub cost: u64,
    /// The candidate word.
    pub word: String,
}

/// The word after deleting the character before boundary `i`.
pub open spec fn del_word(w: Seq<char>, i: int) -> Seq<char> {
    w.remove(i - 1)
}

/// The word after swapping the two characters before boundary `i`.
pub open spec fn trans_word(w: Seq<char>, i: int) -> Seq<char> {
    w.update(i - 2, w[i - 1]).update(i - 1, w[i - 2])
}

/// The word after inserting `c` at boundary `i`.
pub open spec fn ins_word(w: Seq<char>, i: int, c: char) -> Seq<char> {
    w.insert(i, c)
}

/// The word after replacing the character before boundary `i` with `c`.
pub open spec fn sub_word(w: Seq<char>, i: int, c: char) -> Seq<char> {
    w.update(i - 1, c)
}

/// The character before boundary `i`, or the null sentinel at the front.
pub open spec fn prev_char(w: Seq<char>, i: int) -> char {
    if i > 0 {
        w[i - 1]
    } else {
        '\0'
    }
}

/// One single-character edit of `w` under metric `m`: `w2` arises from `w`
/// by a deletion, an adjacent transposition, or an insertion or substitution
/// of an alphabet character, and `mc` is the marginal cost the metric
/// assigns to that edit.
pub open spec fn spec_edit_step(m: Metric, w: Seq<char>, w2: Seq<char>, mc: int) -> bool {
    (exists|i: int|
        1 <= i <= w.len() && w2 == #[trigger] del_word(w, i) && mc == spec_deletion_cost(
            m,
            w,
            i,
            w[i - 1],
        )) || (exists|i: int|
        2 <= i <= w.len() && w2 == #[trigger] trans_word(w, i) && mc == spec_transposition_cost(
            m,
            w,
            i,
            w[i - 1],
            w[i - 2],
        )) || (exists|i: int, c: char|
        0 <= i <= w.len() && m.alphabet@.contains(c) && w2 == #[trigger] ins_word(w, i, c) && mc
            == spec_insertion_cost(m, w, i, c, prev_char(w, i))) || (exists|i: int, c: char|
        1 <= i <= w.len() && m.alphabet@.contains(c) && w2 == #[trigger] sub_word(w, i, c) && mc
            == spec_substitution_cost(m, w, i, c, w[i - 1]))
}

/// The words obtained by appending one of the first `k` characters of `cs`
/// to a word of `ws`.
pub open spec fn extend_all(ws: Set<Seq<char>>, cs: Seq<char>, k: nat) -> Set<Seq<char>>
    decreases k,
{
    if k == 0 {
        Set::empty()
    } else {
        extend_all(ws, cs, (k - 1) as nat) + ws.map(|w: Seq<char>| w.push(cs[k - 1]))
    }
}

/// Every word of length at most `l` over the characters of `cs`.
pub open spec fn words_up_to(cs: Seq<char>, l: nat) -> Set<Seq<char>>
    decreases l,
{
    if l == 0 {
        Set::empty().insert(Seq::empty())
    } else {
        words_up_to(cs, (l - 1) as nat) + extend_all(words_up_to(cs, (l - 1) as nat), cs, cs.len())
    }
}

proof fn lemma_extend_all_finite(ws: Set<Seq<char>>, cs: Seq<char>, k: nat)
    requires
        ws.finite(),
    ensures
        extend_all(ws, cs, k).finite(),
    decreases k,
{
    broadcast use vstd::set::group_set_axioms;

    if k > 0 {
        lemma_extend_all_finite(ws, cs, (k - 1) as nat);
        ws.lemma_map_finite(|w: Seq<char>| w.push(cs[k - 1]));
    }
}

/// The bounded word universe is a finite set.
pub proof fn lemma_words_up_to_finite(cs: Seq<char>, l: nat)
    ensures
        words_up_to(cs, l).finite(),
    decreases l,
{
    broadcast use vstd::set::group_set_axioms;

    if l > 0 {
        lemma_words_up_to_finite(cs, (l - 1) as nat);
        lemma_extend_all_finite(words_up_to(cs, (l - 1) as nat), cs, cs.len());
    }
}

proof fn lemma_extend_all_contains(ws: Set<Seq<char>>, cs: Seq<char>, k0: int, k: nat, w: Seq<char>)
    requires
        0 <= k0 < k <= cs.len(),
        ws.contains(w),
    ensures
        extend_all(ws, cs, k).contains(w.push(cs[k0])),
    decreases k,
{
    broadcast use vstd::set::group_set_axioms;

    if k0 == k - 1 {
        let f = |x: Seq<char>| x.push(cs[k - 1]);
        assert(ws.map(f).contains(f(w)));
    } else {
        lemma_extend_all_contains(ws, cs, k0, (k - 1) as nat, w);
    }
}

/// Any word of bounded length whose characters all occur in `cs` lies in the
/// bounded word universe.
pub proof fn lemma_words_up_to_contains(cs: Seq<char>, l: nat, w: Seq<char>)
    requires
        w.len() <= l,
        forall|p: int| 0 <= p < w.len() ==> cs.contains(#[trigger] w[p]),
    ensures
        words_up_to(cs, l).contains(w),
    decreases l,
{
    broadcast use vstd::set::group_set_axioms;

    if w.len() == 0 {
        assert(w =~= Seq::<char>::empty());
        if l > 0 {
            lemma_words_up_to_contains(cs, (l - 1) as nat, w);
        }
    } else {
        if w.len() <= l - 1 {
            lemma_words_up_to_contains(cs, (l - 1) as nat, w);
        } else {
            let w0 = w.drop_last();
            assert(forall|p: int| 0 <= p < w0.len() ==> w0[p] == w[p]);
            lemma_words_up_to_contains(cs, (l - 1) as nat, w0);
            let last = w.last();
            assert(cs.contains(w[w.len() - 1]));
            let k0 = choose|k0: int| 0 <= k0 < cs.len() && cs[k0] == last;
            lemma_extend_all_contains(words_up_to(cs, (l - 1) as nat), cs, k0, cs.len(), w0);
            assert(w0.push(cs[k0]) =~= w);
        }
    }
}

proof fn lemma_expansion_covers(
    m: Metric,
    w: Seq<char>,
    base: int,
    max_cost: int,
    visited: Set<Seq<char>>,
)
    requires
        forall|b: int|
            1 <= b <= w.len() && base + spec_deletion_cost(m, w, b, w[b - 1]) <= max_cost
                ==> visited.contains(#[trigger] del_word(w, b)),
        forall|b: int|
            2 <= b <= w.len() && base + spec_transposition_cost(m, w, b, w[b - 1], w[b - 2])
                <= max_cost ==> visited.contains(#[trigger] trans_word(w, b)),
        forall|b: int, c: char|
            0 <= b <= w.len() && m.alphabet@.contains(c) && base + spec_insertion_cost(
                m,
                w,
                b,
                c,
                prev_char(w, b),
            ) <= max_cost ==> visited.contains(#[trigger] ins_word(w, b, c)),
        forall|b: int, c: char|
            1 <= b <= w.len() && m.alphabet@.contains(c) && base + spec_substitution_cost(
                m,
                w,
                b,
                c,
                w[b - 1],
            ) <= max_cost ==> visited.contains(#[trigger] sub_word(w, b, c)),
    ensures
        forall|w2: Seq<char>, mc: int|
            #[trigger] spec_edit_step(m, w, w2, mc) && base + mc <= max_cost ==> visited.contains(
                w2,
            ),
{
    assert forall|w2: Seq<char>, mc: int|
        #[trigger] spec_edit_step(m, w, w2, mc) && base + mc <= max_cost implies visited.contains(
        w2,
    ) by {
        if exists|b: int|
            1 <= b <= w.len() && w2 == #[trigger] del_word(w, b) && mc == spec_deletion_cost(
                m,
                w,
                b,
                w[b - 1],
            ) {
            let b = choose|b: int|
                1 <= b <= w.len() && w2 == #[trigger] del_word(w, b) && mc == spec_deletion_cost(
                    m,
                    w,
                    b,
                    w[b - 1],
                );
            assert(visited.contains(del_word(w, b)));
        } else if exists|b: int|
            2 <= b <= w.len() && w2 == #[trigger] trans_word(w, b) && mc == spec_transposition_cost(
                m,
                w,
                b,
                w[b - 1],
                w[b - 2],
            ) {
            let b = choose|b: int|
                2 <= b <= w.len() && w2 == #[trigger] trans_word(w, b) && mc
                    == spec_transposition_cost(m, w, b, w[b - 1], w[b - 2]);
            assert(visited.contains(trans_word(w, b)));
        } else if exists|b: int, c: char|
            0 <= b <= w.len() && m.alphabet@.contains(c) && w2 == #[trigger] ins_word(w, b, c)
                && mc == spec_insertion_cost(m, w, b, c, prev_char(w, b)) {
            let (b, c) = choose|b: int, c: char|
                0 <= b <= w.len() && m.alphabet@.contains(c) && w2 == #[trigger] ins_word(w, b, c)
                    && mc == spec_insertion_cost(m, w, b, c, prev_char(w, b));
            assert(visited.contains(ins_word(w, b, c)));
        } else {
            let (b, c) = choose|b: int, c: char|
                1 <= b <= w.len() && m.alphabet@.contains(c) && w2 == #[trigger] sub_word(w, b, c)
                    && mc == spec_substitution_cost(m, w, b, c, w[b - 1]);
            assert(visited.contains(sub_word(w, b, c)));
        }
    }
}

/// The provenance of one frontier entry: it is the seed at cost zero, or it
/// arises from a listed result by a single edit, its cost that parent's
/// inflated cost plus the edit's marginal cost.
pub open spec fn rooted_entry(
    e: DistanceCost,
    results: Seq<DistanceCost>,
    m: Metric,
    aview: Seq<char>,
) -> bool {
    (e.cost == 0 && e.word@ == aview) || (exists|l: int, mc: int|
        0 <= l < results.len() && #[trigger] spec_edit_step(m, results[l].word@, e.word@, mc)
            && e.cost == inflated(results[l].cost as int) + mc)
}

/// As `rooted_entry`, but the parent may also be the word under expansion.
pub open spec fn linked_entry(
    e: DistanceCost,
    results: Seq<DistanceCost>,
    m: Metric,
    aview: Seq<char>,
    w: Seq<char>,
    curcost: u64,
) -> bool {
    rooted_entry(e, results, m, aview) || (exists|mc: int|
        #[trigger] spec_edit_step(m, w, e.word@, mc) && e.cost == inflated(curcost as int) + mc)
}

/// Result `k` arises from an earlier result by a single edit, its cost that
/// parent's inflated cost plus the edit's marginal cost.
pub open spec fn result_has_parent(results: Seq<DistanceCost>, k: int, m: Metric) -> bool {
    exists|l: int, mc: int|
        0 <= l < k && #[trigger] spec_edit_step(m, results[l].word@, results[k].word@, mc)
            && results[k].cost == inflated(results[l].cost as int) + mc
}

/// Every listed result after the first arises from an earlier result by a
/// single edit, with its cost the parent's inflated cost plus the edit's
/// marginal cost.
pub open spec fn results_linked(results: Seq<DistanceCost>, m: Metric) -> bool {
    forall|k: int| 1 <= k < results.len() ==> #[trigger] result_has_parent(results, k, m)
}

proof fn lemma_entry_relink(
    e: DistanceCost,
    rpre: Seq<DistanceCost>,
    results: Seq<DistanceCost>,
    m: Metric,
    aview: Seq<char>,
    w: Seq<char>,
    curcost: u64,
)
    requires
        linked_entry(e, rpre, m, aview, w, curcost),
        results == rpre.push(results.last()),
        results.last().word@ == w,
        results.last().cost == curcost,
    ensures
        rooted_entry(e, results, m, aview),
{
    assert(forall|l: int| 0 <= l < rpre.len() ==> #[trigger] results[l] == rpre[l]);
    if e.cost == 0 && e.word@ == aview {
    } else if exists|l: int, mc: int|
        0 <= l < rpre.len() && #[trigger] spec_edit_step(m, rpre[l].word@, e.word@, mc) && e.cost
            == inflated(rpre[l].cost as int) + mc {
        let (l, mc) = choose|l: int, mc: int|
            0 <= l < rpre.len() && #[trigger] spec_edit_step(m, rpre[l].word@, e.word@, mc)
                && e.cost == inflated(rpre[l].cost as int) + mc;
        assert(spec_edit_step(m, results[l].word@, e.word@, mc) && e.cost == inflated(
            results[l].cost as int,
        ) + mc);
    } else {
        let mc = choose|mc: int|
            #[trigger] spec_edit_step(m, w, e.word@, mc) && e.cost == inflated(curcost as int)
                + mc;
        let l = rpre.len() as int;
        assert(spec_edit_step(m, results[l].word@, e.word@, mc) && e.cost == inflated(
            results[l].cost as int,
        ) + mc);
    }
}

proof fn lemma_results_relink(
    rpre: Seq<DistanceCost>,
    results: Seq<DistanceCost>,
    m: Metric,
    aview: Seq<char>,
)
    requires
        results == rpre.push(results.last()),
        results_linked(rpre, m),
        rooted_entry(results.last(), rpre, m, aview),
        rpre.len() >= 1 ==> results.last().word@ != aview,
    ensures
        results_linked(results, m),
{
    assert(forall|l: int| 0 <= l < rpre.len() ==> #[trigger] results[l] == rpre[l]);
    assert forall|k: int| 1 <= k < results.len() implies #[trigger] result_has_parent(
        results,
        k,
        m,
    ) by {
        if k < rpre.len() {
            assert(result_has_parent(rpre, k, m));
            let (l, mc) = choose|l: int, mc: int|
                0 <= l < k && #[trigger] spec_edit_step(m, rpre[l].word@, rpre[k].word@, mc)
                    && rpre[k].cost == inflated(rpre[l].cost as int) + mc;
            assert(spec_edit_step(m, results[l].word@, results[k].word@, mc) && results[k].cost
                == inflated(results[l].cost as int) + mc);
        } else {
            assert(!(results.last().cost == 0 && results.last().word@ == aview));
            let (l, mc) = choose|l: int, mc: int|
                0 <= l < rpre.len() && #[trigger] spec_edit_step(
                    m,
                    rpre[l].word@,
                    results.last().word@,
                    mc,
                ) && results.last().cost == inflated(rpre[l].cost as int) + mc;
            assert(spec_edit_step(m, results[l].word@, results[k].word@, mc) && results[k].cost
                == inflated(results[l].cost as int) + mc);
        }
    }
}

/// The index of a cheapest entry of a non-empty frontier.
fn min_cost_index(q: &Vec<DistanceCost>) -> (idx: usize)
    requires
        q@.len() > 0,
    ensures
        idx < q@.len(),
        forall|k: int| 0 <= k < q@.len() ==> q@[idx as int].cost <= q@[k].cost,
{
    let mut best: usize = 0;
    let mut k: usize = 1;
    while k < q.len()
        invariant
            0 <= best < k <= q@.len(),
            forall|p: int| 0 <= p < k ==> q@[best as int].cost <= q@[p].cost,
        decreases q@.len() - k,
    {
        if q[k].cost < q[best].cost {
            best = k;
        }
        k = k + 1;
    }
    best
}

/// The growth-inflated cost of a parent before a marginal edit cost is
/// added: the accumulated cost times 1.4.
pub open spec fn inflated(c: int) -> int {
    c * 7 / 5
}

/// Inflation never lowers a cost.
pub proof fn lemma_inflated_ge(c: int)
    requires
        c >= 0,
    ensures
        inflated(c) >= c,
        inflated(c) <= 2 * c,
{
    assert(c * 7 / 5 >= c && c * 7 / 5 <= 2 * c) by (nonlinear_arith)
        requires
            c >= 0,
    ;
}

/// Every string reachable from `a` within the cost ceiling, explored
/// cheapest first.
///
/// The frontier is a priority queue ordered by ascending cost; a popped
/// entry is appended to the results and its single-edit neighbours are
/// enqueued when they are new and their inflated cost stays within the
/// ceiling.  The visited set admits each word once, so the results hold no
/// duplicate and the search ends.  The ceiling bound keeps the inflation
/// arithmetic within 64 bits.
#[verifier::rlimit(100)]
#[verifier::spinoff_prover]
pub fn generate(a: &str, max_cost: u64, metric: &Metric) -> (results: Vec<DistanceCost>)
    requires
        a@.len() <= 1000000,
        max_cost <= 1000000000000,
    ensures
        results@.len() >= 1,
        results@[0].cost == 0 && results@[0].word@ == a@,
        forall|k: int| 0 <= k < results@.len() ==> #[trigger] results@[k].cost <= max_cost,
        forall|k: int, l: int|
            0 <= k < l < results@.len() ==> results@[k].cost <= results@[l].cost,
        forall|k: int, l: int|
            0 <= k < l < results@.len() ==> results@[k].word@ != results@[l].word@,
        forall|w2: Seq<char>, mc: int|
            #[trigger] spec_edit_step(*metric, a@, w2, mc) && 0 <= mc <= max_cost ==> exists|
                k: int,
            |
                0 <= k < results@.len() && results@[k].word@ == w2,
        results_linked(results@, *metric),
{
    let ghost m = *metric;
    let ghost cs = a@ + metric.alphabet@;
    let ghost lmax = (a@.len() + max_cost) as nat;
    let ghost wuniverse = words_up_to(cs, lmax);
    proof {
        lemma_words_up_to_finite(cs, lmax);
    }

    let seed = String::from_str(a);
    let seed2 = String::from_str(a);
    let mut queue: Vec<DistanceCost> = Vec::new();
    queue.push(DistanceCost { cost: 0, word: seed });
    let mut visited = StringHashSet::new();
    visited.insert(seed2);
    let mut results: Vec<DistanceCost> = Vec::new();
    proof {
        assert(forall|p: int| 0 <= p < a@.len() ==> cs.contains(#[trigger] a@[p])) by {
            assert(forall|p: int| 0 <= p < a@.len() ==> cs[p] == #[trigger] a@[p]);
        }
        lemma_words_up_to_contains(cs, lmax, a@);
        assert forall|x: Seq<char>| #[trigger] visited@.contains(x) implies ((exists|k: int|
            0 <= k < results@.len() && #[trigger] results@[k].word@ == x) || (exists|k: int|
            0 <= k < queue@.len() && #[trigger] queue@[k].word@ == x)) by {
            assert(queue@[0].word@ == a@);
        }
    }

    while queue.len() > 0
        invariant
            a@.len() <= 1000000,
            max_cost <= 1000000000000,
            m == *metric,
            cs == a@ + m.alphabet@,
            lmax == (a@.len() + max_cost) as nat,
            wuniverse == words_up_to(cs, lmax),
            wuniverse.finite(),
            visited@.finite(),
            forall|w: Seq<char>| visited@.contains(w) ==> wuniverse.contains(w),
            forall|k: int| 0 <= k < queue@.len() ==> #[trigger] queue@[k].cost <= max_cost,
            forall|k: int|
                0 <= k < queue@.len() ==> 400 * #[trigger] queue@[k].word@.len() <= 400 * a@.len()
                    + queue@[k].cost,
            forall|k: int, p: int|
                0 <= k < queue@.len() && 0 <= p < queue@[k].word@.len() ==> cs.contains(
                    #[trigger] queue@[k].word@[p],
                ),
            forall|w: Seq<char>|
                #[trigger] visited@.contains(w) <==> ((exists|k: int|
                    0 <= k < results@.len() && #[trigger] results@[k].word@ == w) || (exists|k: int|
                    0 <= k < queue@.len() && #[trigger] queue@[k].word@ == w)),
            forall|k: int, l: int|
                0 <= k < l < results@.len() ==> results@[k].word@ != results@[l].word@,
            forall|k: int, l: int|
                0 <= k < l < queue@.len() ==> queue@[k].word@ != queue@[l].word@,
            forall|k: int, l: int|
                0 <= k < results@.len() && 0 <= l < queue@.len() ==> results@[k].word@
                    != queue@[l].word@,
            forall|k: int| 0 <= k < results@.len() ==> #[trigger] results@[k].cost <= max_cost,
            forall|k: int, l: int|
                0 <= k < l < results@.len() ==> results@[k].cost <= results@[l].cost,
            forall|k: int, l: int|
                0 <= k < results@.len() && 0 <= l < queue@.len() ==> results@[k].cost
                    <= queue@[l].cost,
            results@.len() == 0 ==> queue@.len() == 1 && queue@[0].cost == 0 && queue@[0].word@
                == a@,
            results@.len() >= 1 ==> results@[0].cost == 0 && results@[0].word@ == a@,
            results@.len() >= 1 ==> forall|w2: Seq<char>, mc: int|
                #[trigger] spec_edit_step(m, a@, w2, mc) && 0 <= mc <= max_cost
                    ==> visited@.contains(w2),
            forall|qk: int|
                0 <= qk < queue@.len() ==> rooted_entry(#[trigger] queue@[qk], results@, m, a@),
            results_linked(results@, m),
        decreases wuniverse.len() - visited@.len(), queue@.len(),
    {
        let ghost v0 = visited@;
        let ghost q0len = queue@.len();
        let ghost qold = queue@;
        proof {
            vstd::set_lib::lemma_len_subset(visited@, wuniverse);
        }

        let idx = min_cost_index(&queue);
        let cur = queue.swap_remove(idx);
        proof {
            assert(forall|k: int|
                0 <= k < queue@.len() ==> queue@[k] == (if k == idx {
                    qold[qold.len() - 1]
                } else {
                    qold[k]
                }));
        }
        proof {
            // The search would stop at the first entry past the ceiling, but
            // entries are only ever enqueued within it, so none can surface.
            assert(cur.cost <= max_cost);
        }

        let cur_chars = str_chars(cur.word.as_str());
        let ghost w = cur_chars@;
        let len = cur_chars.len();
        let base = cur.cost * 7 / 5;
        proof {
            lemma_inflated_ge(cur.cost as int);
            assert(400 * w.len() <= 400 * a@.len() + cur.cost);
            assert(len < 3000000000);
            assert(w == cur.word@);
            assert(forall|p: int| 0 <= p < w.len() ==> cs.contains(#[trigger] w[p]));
            assert forall|x: Seq<char>| #[trigger] visited@.contains(x) implies ((exists|k: int|
                0 <= k < results@.len() && #[trigger] results@[k].word@ == x) || (exists|k: int|
                0 <= k < queue@.len() && #[trigger] queue@[k].word@ == x) || x == w) by {
                if exists|l: int| 0 <= l < qold.len() && qold[l].word@ == x {
                    let l = choose|l: int| 0 <= l < qold.len() && #[trigger] qold[l].word@ == x;
                    if l == idx {
                        assert(x == w);
                    } else if l == qold.len() - 1 {
                        assert(queue@[idx as int].word@ == x);
                    } else {
                        assert(queue@[l].word@ == x);
                    }
                }
            }
            assert forall|k: int| 0 <= k < queue@.len() implies #[trigger] queue@[k].word@ != w by {
                if k == idx {
                    assert(queue@[k] == qold[qold.len() - 1]);
                }
            }
            assert(rooted_entry(cur, results@, m, a@));
            if results@.len() >= 1 {
                assert(results@[0].word@ == a@);
                assert(cur.word@ != a@);
            }
            assert forall|qk: int| 0 <= qk < queue@.len() implies linked_entry(
                #[trigger] queue@[qk],
                results@,
                m,
                a@,
                w,
                cur.cost,
            ) by {
                if qk == idx {
                    assert(rooted_entry(qold[qold.len() - 1], results@, m, a@));
                } else {
                    assert(rooted_entry(qold[qk], results@, m, a@));
                }
            }
        }

        let mut i: usize = 0;
        while i <= len
            invariant
                i <= len + 1,
                a@.len() <= 1000000,
                max_cost <= 1000000000000,
                m == *metric,
                cs == a@ + m.alphabet@,
                lmax == (a@.len() + max_cost) as nat,
                wuniverse == words_up_to(cs, lmax),
                wuniverse.finite(),
                w == cur.word@,
                cur_chars@ == w,
                len == w.len(),
                cur.cost <= max_cost,
                base == cur.cost as int * 7 / 5,
                cur.cost <= base <= 2 * cur.cost,
                400 * w.len() <= 400 * a@.len() + cur.cost,
                forall|p: int| 0 <= p < w.len() ==> cs.contains(#[trigger] w[p]),
                visited@.finite(),
                forall|x: Seq<char>| v0.contains(x) ==> visited@.contains(x),
                forall|x: Seq<char>| visited@.contains(x) ==> wuniverse.contains(x),
                forall|k: int| 0 <= k < queue@.len() ==> #[trigger] queue@[k].cost <= max_cost,
                forall|k: int|
                    0 <= k < queue@.len() ==> 400 * #[trigger] queue@[k].word@.len() <= 400
                        * a@.len() + queue@[k].cost,
                forall|k: int, p: int|
                    0 <= k < queue@.len() && 0 <= p < queue@[k].word@.len() ==> cs.contains(
                        #[trigger] queue@[k].word@[p],
                    ),
                forall|x: Seq<char>|
                    #[trigger] visited@.contains(x) <==> ((exists|k: int|
                        0 <= k < results@.len() && #[trigger] results@[k].word@ == x) || (exists|
                        k: int,
                    |
                        0 <= k < queue@.len() && #[trigger] queue@[k].word@ == x) || x == w),
                forall|k: int, l: int|
                    0 <= k < l < queue@.len() ==> queue@[k].word@ != queue@[l].word@,
                forall|k: int, l: int|
                    0 <= k < results@.len() && 0 <= l < queue@.len() ==> results@[k].word@
                        != queue@[l].word@,
                forall|k: int| 0 <= k < queue@.len() ==> cur.cost <= #[trigger] queue@[k].cost,
                forall|k: int| 0 <= k < queue@.len() ==> #[trigger] queue@[k].word@ != w,
                forall|qk: int|
                    0 <= qk < queue@.len() ==> linked_entry(
                        #[trigger] queue@[qk],
                        results@,
                        m,
                        a@,
                        w,
                        cur.cost,
                    ),
                queue@.len() - (q0len - 1) == visited@.len() - v0.len(),
                visited@.len() >= v0.len(),
                forall|b: int|
                    1 <= b < i && base + spec_deletion_cost(m, w, b, w[b - 1]) <= max_cost
                        ==> visited@.contains(#[trigger] del_word(w, b)),
                forall|b: int|
                    2 <= b < i && base + spec_transposition_cost(m, w, b, w[b - 1], w[b - 2])
                        <= max_cost ==> visited@.contains(#[trigger] trans_word(w, b)),
                forall|b: int, c: char|
                    0 <= b < i && m.alphabet@.contains(c) && base + spec_insertion_cost(
                        m,
                        w,
                        b,
                        c,
                        prev_char(w, b),
                    ) <= max_cost ==> visited@.contains(#[trigger] ins_word(w, b, c)),
                forall|b: int, c: char|
                    1 <= b < i && m.alphabet@.contains(c) && base + spec_substitution_cost(
                        m,
                        w,
                        b,
                        c,
                        w[b - 1],
                    ) <= max_cost ==> visited@.contains(#[trigger] sub_word(w, b, c)),
            decreases len + 1 - i,
        {
            if i >= 1 {
                // deletion of the character before boundary i
                let mut wv = cur_chars.clone();
                let removed = wv.remove(i - 1);
                let marg = metric.deletion_cost(&cur_chars, i, removed);
                let tentative = base + marg;
                let s2 = chars_to_string(&wv);
                proof {
                    assert(wv@ == del_word(w, i as int));
                }
                if tentative <= max_cost && !visited.contains(s2.as_str()) {
                    proof {
                        assert(forall|p: int|
                            0 <= p < wv@.len() ==> cs.contains(#[trigger] wv@[p])) by {
                            assert(forall|p: int|
                                0 <= p < wv@.len() ==> wv@[p] == w[if p < i - 1 {
                                    p
                                } else {
                                    p + 1
                                }]);
                        }
                        lemma_words_up_to_contains(cs, lmax, wv@);
                    }
                    let ghost vpre = visited@;
                    let ghost qpre = queue@;
                    let s2b = s2.clone();
                    visited.insert(s2);
                    queue.push(DistanceCost { cost: tentative, word: s2b });
                    proof {
                        assert(queue@[queue@.len() - 1].word@ == wv@);
                        assert(spec_edit_step(m, w, queue@[queue@.len() - 1].word@,
                            marg as int));
                        assert(base as int == inflated(cur.cost as int));
                        assert(linked_entry(queue@[queue@.len() - 1], results@, m, a@, w,
                            cur.cost));
                        assert forall|x: Seq<char>| #[trigger] visited@.contains(x) implies ((
                        exists|k: int|
                            0 <= k < results@.len() && #[trigger] results@[k].word@ == x) || (
                        exists|k: int|
                            0 <= k < queue@.len() && #[trigger] queue@[k].word@ == x) || x == w) by {
                            if x == wv@ {
                                assert(queue@[queue@.len() - 1].word@ == x);
                            } else {
                                assert(vpre.contains(x));
                                if exists|k: int| 0 <= k < qpre.len() && qpre[k].word@ == x {
                                    let k = choose|k: int|
                                        0 <= k < qpre.len() && #[trigger] qpre[k].word@ == x;
                                    assert(queue@[k].word@ == x);
                                }
                            }
                        }
                    }
                }
                proof {
                    assert(base + spec_deletion_cost(m, w, i as int, w[i - 1]) <= max_cost
                        ==> visited@.contains(del_word(w, i as int)));
                }
            }
            if i >= 2 {
                // transposition of the two characters before boundary i
                let mut wv = cur_chars.clone();
                let prevc = wv.remove(i - 2);
                let curc = wv.remove(i - 2);
                wv.insert(i - 2, prevc);
                wv.insert(i - 2, curc);
                let marg = metric.transposition_cost(&cur_chars, i, curc, prevc);
                let tentative = base + marg;
                let s2 = chars_to_string(&wv);
                proof {
                    assert(wv@ =~= trans_word(w, i as int));
                }
                if tentative <= max_cost && !visited.contains(s2.as_str()) {
                    proof {
                        assert(forall|p: int|
                            0 <= p < wv@.len() ==> cs.contains(#[trigger] wv@[p])) by {
                            assert(forall|p: int|
                                0 <= p < wv@.len() ==> wv@[p] == w[if p == i - 2 {
                                    i - 1
                                } else if p == i - 1 {
                                    i - 2
                                } else {
                                    p
                                }]);
                        }
                        lemma_words_up_to_contains(cs, lmax, wv@);
                    }
                    let ghost vpre = visited@;
                    let ghost qpre = queue@;
                    let s2b = s2.clone();
                    visited.insert(s2);
                    queue.push(DistanceCost { cost: tentative, word: s2b });
                    proof {
                        assert(queue@[queue@.len() - 1].word@ == wv@);
                        assert(spec_edit_step(m, w, queue@[queue@.len() - 1].word@,
                            marg as int));
                        assert(base as int == inflated(cur.cost as int));
                        assert(linked_entry(queue@[queue@.len() - 1], results@, m, a@, w,
                            cur.cost));
                        assert forall|x: Seq<char>| #[trigger] visited@.contains(x) implies ((
                        exists|k: int|
                            0 <= k < results@.len() && #[trigger] results@[k].word@ == x) || (
                        exists|k: int|
                            0 <= k < queue@.len() && #[trigger] queue@[k].word@ == x) || x == w) by {
                            if x == wv@ {
                                assert(queue@[queue@.len() - 1].word@ == x);
                            } else {
                                assert(vpre.contains(x));
                                if exists|k: int| 0 <= k < qpre.len() && qpre[k].word@ == x {
                                    let k = choose|k: int|
                                        0 <= k < qpre.len() && #[trigger] qpre[k].word@ == x;
                                    assert(queue@[k].word@ == x);
                                }
                            }
                        }
                    }
                }
                proof {
                    assert(base + spec_transposition_cost(m, w, i as int, w[i - 1], w[i - 2])
                        <= max_cost ==> visited@.contains(trans_word(w, i as int)));
                }
            }
            let mut al: usize = 0;
            while al < metric.alphabet.len()
                invariant
                    i <= len,
                    al <= metric.alphabet@.len(),
                a@.len() <= 1000000,
                    max_cost <= 1000000000000,
                    m == *metric,
                    cs == a@ + m.alphabet@,
                    lmax == (a@.len() + max_cost) as nat,
                    wuniverse == words_up_to(cs, lmax),
                    wuniverse.finite(),
                    w == cur.word@,
                    cur_chars@ == w,
                    len == w.len(),
                    cur.cost <= max_cost,
                    base == cur.cost as int * 7 / 5,
                    cur.cost <= base <= 2 * cur.cost,
                    400 * w.len() <= 400 * a@.len() + cur.cost,
                    forall|p: int| 0 <= p < w.len() ==> cs.contains(#[trigger] w[p]),
                    visited@.finite(),
                    forall|x: Seq<char>| v0.contains(x) ==> visited@.contains(x),
                    forall|x: Seq<char>| visited@.contains(x) ==> wuniverse.contains(x),
                    forall|k: int| 0 <= k < queue@.len() ==> #[trigger] queue@[k].cost <= max_cost,
                    forall|k: int|
                        0 <= k < queue@.len() ==> 400 * #[trigger] queue@[k].word@.len() <= 400
                            * a@.len() + queue@[k].cost,
                    forall|k: int, p: int|
                        0 <= k < queue@.len() && 0 <= p < queue@[k].word@.len() ==> cs.contains(
                            #[trigger] queue@[k].word@[p],
                        ),
                    forall|x: Seq<char>|
                        #[trigger] visited@.contains(x) <==> ((exists|k: int|
                            0 <= k < results@.len() && #[trigger] results@[k].word@ == x) || (
                        exists|k: int|
                            0 <= k < queue@.len() && #[trigger] queue@[k].word@ == x) || x == w),
                    forall|k: int, l: int|
                        0 <= k < l < queue@.len() ==> queue@[k].word@ != queue@[l].word@,
                    forall|k: int, l: int|
                        0 <= k < results@.len() && 0 <= l < queue@.len() ==> results@[k].word@
                            != queue@[l].word@,
                    forall|k: int| 0 <= k < queue@.len() ==> cur.cost <= #[trigger] queue@[k].cost,
                    forall|k: int| 0 <= k < queue@.len() ==> #[trigger] queue@[k].word@ != w,
                    forall|qk: int|
                        0 <= qk < queue@.len() ==> linked_entry(
                            #[trigger] queue@[qk],
                            results@,
                            m,
                            a@,
                            w,
                            cur.cost,
                        ),
                    queue@.len() - (q0len - 1) == visited@.len() - v0.len(),
                    visited@.len() >= v0.len(),
                    forall|b: int|
                        1 <= b <= i && base + spec_deletion_cost(m, w, b, w[b - 1]) <= max_cost
                            ==> visited@.contains(#[trigger] del_word(w, b)),
                    forall|b: int|
                        2 <= b <= i && base + spec_transposition_cost(m, w, b, w[b - 1], w[b - 2])
                            <= max_cost ==> visited@.contains(#[trigger] trans_word(w, b)),
                    forall|b: int, c: char|
                        0 <= b < i && m.alphabet@.contains(c) && base + spec_insertion_cost(
                            m,
                            w,
                            b,
                            c,
                            prev_char(w, b),
                        ) <= max_cost ==> visited@.contains(#[trigger] ins_word(w, b, c)),
                    forall|b: int, c: char|
                        1 <= b < i && m.alphabet@.contains(c) && base + spec_substitution_cost(
                            m,
                            w,
                            b,
                            c,
                            w[b - 1],
                        ) <= max_cost ==> visited@.contains(#[trigger] sub_word(w, b, c)),
                    forall|l2: int|
                        0 <= l2 < al && base + spec_insertion_cost(
                            m,
                            w,
                            i as int,
                            m.alphabet@[l2],
                            prev_char(w, i as int),
                        ) <= max_cost ==> visited@.contains(
                            #[trigger] ins_word(w, i as int, m.alphabet@[l2]),
                        ),
                    forall|l2: int|
                        0 <= l2 < al && i >= 1 && base + spec_substitution_cost(
                            m,
                            w,
                            i as int,
                            m.alphabet@[l2],
                            w[i - 1],
                        ) <= max_cost ==> visited@.contains(
                            #[trigger] sub_word(w, i as int, m.alphabet@[l2]),
                        ),
                decreases metric.alphabet@.len() - al,
            {
                let c = metric.alphabet[al];
                proof {
                    assert(cs[a@.len() + al] == c);
                    assert(cs.contains(c));
                }

                // insertion of c at boundary i
                let mut wv = cur_chars.clone();
                wv.insert(i, c);
                let prev = if i >= 1 {
                    cur_chars[i - 1]
                } else {
                    '\0'
                };
                let marg = metric.insertion_cost(&cur_chars, i, c, prev);
                let tentative = base + marg;
                let s2 = chars_to_string(&wv);
                proof {
                    assert(wv@ == ins_word(w, i as int, c));
                    assert(prev == prev_char(w, i as int));
                }
                if tentative <= max_cost && !visited.contains(s2.as_str()) {
                    proof {
                        w.insert_ensures(i as int, c);
                        assert(forall|p: int|
                            0 <= p < wv@.len() ==> cs.contains(#[trigger] wv@[p])) by {
                            assert(forall|p: int| 0 <= p < i ==> wv@[p] == w[p]);
                            assert(forall|p: int| i < p < wv@.len() ==> wv@[p] == w[p - 1]);
                            assert(wv@[i as int] == c);
                        }
                        lemma_words_up_to_contains(cs, lmax, wv@);
                    }
                    let ghost vpre = visited@;
                    let ghost qpre = queue@;
                    let s2b = s2.clone();
                    visited.insert(s2);
                    queue.push(DistanceCost { cost: tentative, word: s2b });
                    proof {
                        assert(queue@[queue@.len() - 1].word@ == wv@);
                        assert(spec_edit_step(m, w, queue@[queue@.len() - 1].word@,
                            marg as int));
                        assert(base as int == inflated(cur.cost as int));
                        assert(linked_entry(queue@[queue@.len() - 1], results@, m, a@, w,
                            cur.cost));
                        assert forall|x: Seq<char>| #[trigger] visited@.contains(x) implies ((
                        exists|k: int|
                            0 <= k < results@.len() && #[trigger] results@[k].word@ == x) || (
                        exists|k: int|
                            0 <= k < queue@.len() && #[trigger] queue@[k].word@ == x) || x == w) by {
                            if x == wv@ {
                                assert(queue@[queue@.len() - 1].word@ == x);
                            } else {
                                assert(vpre.contains(x));
                                if exists|k: int| 0 <= k < qpre.len() && qpre[k].word@ == x {
                                    let k = choose|k: int|
                                        0 <= k < qpre.len() && #[trigger] qpre[k].word@ == x;
                                    assert(queue@[k].word@ == x);
                                }
                            }
                        }
                    }
                }
                proof {
                    assert(base + spec_insertion_cost(m, w, i as int, c, prev_char(w, i as int))
                        <= max_cost ==> visited@.contains(ins_word(w, i as int, c)));
                }

                // substitution of c for the character before boundary i
                if i >= 1 {
                    let mut wv = cur_chars.clone();
                    let cc = wv.remove(i - 1);
                    wv.insert(i - 1, c);
                    let marg = metric.substitution_cost(&cur_chars, i, c, cc);
                    let tentative = base + marg;
                    let s2 = chars_to_string(&wv);
                    proof {
                        assert(wv@ =~= sub_word(w, i as int, c));
                    }
                    if tentative <= max_cost && !visited.contains(s2.as_str()) {
                        proof {
                            assert(forall|p: int|
                                0 <= p < wv@.len() ==> cs.contains(#[trigger] wv@[p])) by {
                                assert(forall|p: int|
                                    0 <= p < wv@.len() && p != i - 1 ==> wv@[p] == w[p]);
                                assert(wv@[i - 1] == c);
                            }
                            lemma_words_up_to_contains(cs, lmax, wv@);
                        }
                        let ghost vpre = visited@;
                        let ghost qpre = queue@;
                        let s2b = s2.clone();
                        visited.insert(s2);
                        queue.push(DistanceCost { cost: tentative, word: s2b });
                        proof {
                            assert(queue@[queue@.len() - 1].word@ == wv@);
                            assert(spec_edit_step(m, w, queue@[queue@.len() - 1].word@,
                                marg as int));
                            assert(base as int == inflated(cur.cost as int));
                            assert(linked_entry(queue@[queue@.len() - 1], results@, m, a@, w,
                                cur.cost));
                            assert forall|x: Seq<char>| #[trigger] visited@.contains(x) implies ((
                            exists|k: int|
                                0 <= k < results@.len() && #[trigger] results@[k].word@ == x) || (
                            exists|k: int|
                                0 <= k < queue@.len() && #[trigger] queue@[k].word@ == x) || x == w) by {
                                if x == wv@ {
                                    assert(queue@[queue@.len() - 1].word@ == x);
                                } else {
                                    assert(vpre.contains(x));
                                    if exists|k: int| 0 <= k < qpre.len() && qpre[k].word@ == x {
                                        let k = choose|k: int|
                                            0 <= k < qpre.len() && #[trigger] qpre[k].word@ == x;
                                        assert(queue@[k].word@ == x);
                                    }
                                }
                            }
                        }
                    }
                    proof {
                        assert(base + spec_substitution_cost(m, w, i as int, c, w[i - 1])
                            <= max_cost ==> visited@.contains(sub_word(w, i as int, c)));
                    }
                }
                al = al + 1;
            }
            proof {
                assert forall|c: char|
                    m.alphabet@.contains(c) && base + spec_insertion_cost(
                        m,
                        w,
                        i as int,
                        c,
                        prev_char(w, i as int),
                    ) <= max_cost implies visited@.contains(ins_word(w, i as int, c)) by {
                    let l2 = choose|l2: int|
                        0 <= l2 < m.alphabet@.len() && m.alphabet@[l2] == c;
                    assert(visited@.contains(ins_word(w, i as int, m.alphabet@[l2])));
                }
                if i >= 1 {
                    assert forall|c: char|
                        m.alphabet@.contains(c) && base + spec_substitution_cost(
                            m,
                            w,
                            i as int,
                            c,
                            w[i - 1],
                        ) <= max_cost implies visited@.contains(sub_word(w, i as int, c)) by {
                        let l2 = choose|l2: int|
                            0 <= l2 < m.alphabet@.len() && m.alphabet@[l2] == c;
                        assert(visited@.contains(sub_word(w, i as int, m.alphabet@[l2])));
                    }
                }
            }
            i = i + 1;
        }

        proof {
            lemma_expansion_covers(m, w, base as int, max_cost as int, visited@);
        }
        let ghost rpre = results@;
        proof {
            assert(results_linked(rpre, m));
        }
        results.push(cur);
        proof {
            assert(results@ == rpre.push(results@.last()));
            assert(results@.last().word@ == w);
            assert forall|qk: int| 0 <= qk < queue@.len() implies rooted_entry(
                #[trigger] queue@[qk],
                results@,
                m,
                a@,
            ) by {
                lemma_entry_relink(queue@[qk], rpre, results@, m, a@, w, results@.last().cost);
            }
            assert(rooted_entry(results@.last(), rpre, m, a@));
            lemma_results_relink(rpre, results@, m, a@);
            vstd::set_lib::lemma_len_subset(visited@, wuniverse);
            assert(results@[results@.len() - 1].word@ == w);
            assert forall|x: Seq<char>| #[trigger] visited@.contains(x) implies ((exists|k: int|
                0 <= k < results@.len() && #[trigger] results@[k].word@ == x) || (exists|k: int|
                0 <= k < queue@.len() && #[trigger] queue@[k].word@ == x)) by {
                if x == w {
                    assert(results@[results@.len() - 1].word@ == x);
                } else if exists|k: int| 0 <= k < rpre.len() && rpre[k].word@ == x {
                    let k = choose|k: int| 0 <= k < rpre.len() && #[trigger] rpre[k].word@ == x;
                    assert(results@[k].word@ == x);
                }
            }
        }
    }
    proof {
        assert(queue@.len() == 0);
        assert(results@.len() >= 1);
        assert forall|w2: Seq<char>, mc: int|
            #[trigger] spec_edit_step(*metric, a@, w2, mc) && 0 <= mc <= max_cost implies exists|
            k: int,
        |
            0 <= k < results@.len() && results@[k].word@ == w2 by {
            assert(visited@.contains(w2));
        }
    }
    results
}

} // verus!
