//! Weighted typo distance and typo generation.
//!
//! A metric assigns every single-character edit a non-negative cost: a flat
//! unit under the uniform policy, or a cost derived from the physical
//! keyboard geometry, so that adjacent keys make cheap substitutions.  The
//! distance engine computes the weighted optimal-string-alignment distance
//! under a metric, and the generator enumerates every string reachable from
//! a seed within a cost ceiling, cheapest first.
//!
//! Costs are fixed-point `u64` values counting thousandths of a cost unit:
//! a plain edit costs 1000.

use vstd::prelude::*;

pub mod key_layout;
pub mod layouts;
pub mod math;
pub mod osa;

pub use key_layout::KeyIndex;
pub use key_layout::KeyLayout;
pub use osa::CostPolicy;
pub use osa::DistanceCost;
pub use osa::Metric;
pub use osa::distance;
pub use osa::generate;
pub use osa::partial_max;
pub use osa::partial_min;

use osa::lemma_osa_congruent;
use osa::spec_osa;

verus! {

/// The uniform metric: deletion and insertion cost one unit, substitution
/// and transposition cost nothing between equal characters and one unit
/// otherwise.  Its alphabet is every character of the standard desktop
/// table.
pub fn get_simple_metric() -> (r: Metric)
    ensures
        r.policy == CostPolicy::Uniform,
        r.layout.key_map() == layouts::qwertz_key_map(),
        r.alphabet@.no_duplicates(),
        forall|c: char| #[trigger] r.alphabet@.contains(c) <==> layouts::qwertz_key_map().contains_key(c),
{
    let layout = layouts::qwertz();
    let alphabet = layout.chars();
    Metric { policy: CostPolicy::Uniform, layout, alphabet }
}

/// The desktop keyboard-geometry metric over the given layout.  Its
/// alphabet is every character of that layout.
pub fn get_layout_metric(layout: KeyLayout) -> (r: Metric)
    ensures
        r.policy == CostPolicy::Desktop,
        r.layout == layout,
        r.alphabet@.no_duplicates(),
        forall|c: char| #[trigger] r.alphabet@.contains(c) <==> layout.key_map().contains_key(c),
{
    let alphabet = layout.chars();
    Metric { policy: CostPolicy::Desktop, layout, alphabet }
}

/// The mobile keyboard-geometry metric over the given layout: like the
/// desktop metric, but a key's shift variants lie closer together.
pub fn get_layout_metric_mobile(layout: KeyLayout) -> (r: Metric)
    ensures
        r.policy == CostPolicy::Mobile,
        r.layout == layout,
        r.alphabet@.no_duplicates(),
        forall|c: char| #[trigger] r.alphabet@.contains(c) <==> layout.key_map().contains_key(c),
{
    let alphabet = layout.chars();
    Metric { policy: CostPolicy::Mobile, layout, alphabet }
}

/// The optimal-string-alignment distance under the uniform metric:
/// deletions and insertions cost one unit; substitutions and transpositions
/// cost one unit between distinct characters.
pub fn osa_distance_simple(a: &str, b: &str) -> (r: u64)
    requires
        a@.len() <= 1000000,
        b@.len() <= 1000000,
    ensures
        forall|m: Metric|
            m.policy == CostPolicy::Uniform ==> r as int == spec_osa(
                a@,
                b@,
                m,
                a@.len(),
                b@.len(),
            ),
{
    let met = get_simple_metric();
    let r = osa::distance(a, b, &met);
    proof {
        assert forall|m: Metric| m.policy == CostPolicy::Uniform implies r as int == spec_osa(
            a@,
            b@,
            m,
            a@.len(),
            b@.len(),
        ) by {
            lemma_osa_congruent(a@, b@, met, m, a@.len(), b@.len());
        }
    }
    r
}

/// The optimal-string-alignment distance under the desktop
/// keyboard-geometry metric of the given layout.
pub fn osa_distance_layout(a: &str, b: &str, layout: KeyLayout) -> (r: u64)
    requires
        a@.len() <= 1000000,
        b@.len() <= 1000000,
    ensures
        forall|m: Metric|
            m.policy == CostPolicy::Desktop && m.layout.key_map() == layout.key_map() ==> r as int
                == spec_osa(a@, b@, m, a@.len(), b@.len()),
{
    let ghost km = layout.key_map();
    let met = get_layout_metric(layout);
    let r = osa::distance(a, b, &met);
    proof {
        assert forall|m: Metric|
            m.policy == CostPolicy::Desktop && m.layout.key_map() == km implies r as int
            == spec_osa(a@, b@, m, a@.len(), b@.len()) by {
            lemma_osa_congruent(a@, b@, met, m, a@.len(), b@.len());
        }
    }
    r
}

/// Every string within `max_cost` of `a` under the uniform metric, cheapest
/// first: the seed comes first at cost zero, no word repeats, and every
/// listed cost stays within the ceiling.
pub fn generate_simple(a: &str, max_cost: u64) -> (results: Vec<DistanceCost>)
    requires
        a@.len() <= 1000000,
        max_cost <= 1000000000000,
    ensures
        results@.len() >= 1,
        results@[0].cost == 0 && results@[0].word@ == a@,
        forall|k: int| 0 <= k < results@.len() ==> #[trigger] results@[k].cost <= max_cost,
        forall|k: int, l: int|
            0 <= k < l < results@.len() ==> results@[k].cost <= results@[l].cost,
        forall|k: int, l: int|
            0 <= k < l < results@.len() ==> results@[k].word@ != results@[l].word@,
        exists|m: Metric|
            m.policy == CostPolicy::Uniform && m.layout.key_map() == layouts::qwertz_key_map() && (
            forall|c: char|
                #[trigger] m.alphabet@.contains(c) <==> layouts::qwertz_key_map().contains_key(c))
                && osa::results_linked(results@, m) && (forall|
                w2: Seq<char>,
                mc: int,
            |
                #[trigger] osa::spec_edit_step(m, a@, w2, mc) && 0 <= mc <= max_cost ==> exists|
                    k: int,
                |
                    0 <= k < results@.len() && results@[k].word@ == w2),
{
    let met = get_simple_metric();
    let results = osa::generate(a, max_cost, &met);
    proof {
        assert(met.policy == CostPolicy::Uniform && met.layout.key_map()
            == layouts::qwertz_key_map() && (forall|c: char|
            #[trigger] met.alphabet@.contains(c) <==> layouts::qwertz_key_map().contains_key(c))
            && osa::results_linked(results@, met) && (forall|
            w2: Seq<char>,
            mc: int,
        |
            #[trigger] osa::spec_edit_step(met, a@, w2, mc) && 0 <= mc <= max_cost ==> exists|
                k: int,
            |
                0 <= k < results@.len() && results@[k].word@ == w2));
    }
    results
}

/// Every string within `max_cost` of `a` under the desktop
/// keyboard-geometry metric of the given layout, cheapest first.
pub fn generate_layout(a: &str, max_cost: u64, layout: KeyLayout) -> (results: Vec<DistanceCost>)
    requires
        a@.len() <= 1000000,
        max_cost <= 1000000000000,
    ensures
        results@.len() >= 1,
        results@[0].cost == 0 && results@[0].word@ == a@,
        forall|k: int| 0 <= k < results@.len() ==> #[trigger] results@[k].cost <= max_cost,
        forall|k: int, l: int|
            0 <= k < l < results@.len() ==> results@[k].cost <= results@[l].cost,
        forall|k: int, l: int|
            0 <= k < l < results@.len() ==> results@[k].word@ != results@[l].word@,
        exists|m: Metric|
            m.policy == CostPolicy::Desktop && m.layout.key_map() == layout.key_map() && (forall|
                c: char,
            |
                #[trigger] m.alphabet@.contains(c) <==> layout.key_map().contains_key(c))
                && osa::results_linked(results@, m) && (forall|w2: Seq<char>, mc: int|
                #[trigger] osa::spec_edit_step(m, a@, w2, mc) && 0 <= mc <= max_cost ==> exists|
                    k: int,
                |
                    0 <= k < results@.len() && results@[k].word@ == w2),
{
    let ghost km = layout.key_map();
    let met = get_layout_metric(layout);
    let results = osa::generate(a, max_cost, &met);
    proof {
        assert(met.policy == CostPolicy::Desktop && met.layout.key_map() == km && (forall|c: char|
            #[trigger] met.alphabet@.contains(c) <==> km.contains_key(c))
            && osa::results_linked(results@, met) && (forall|w2: Seq<char>, mc: int|
            #[trigger] osa::spec_edit_step(met, a@, w2, mc) && 0 <= mc <= max_cost ==> exists|
                k: int,
            |
                0 <= k < results@.len() && results@[k].word@ == w2));
    }
    results
}

} // verus!
