use typodist::CostPolicy;
use typodist::KeyLayout;
use typodist::Metric;
use typodist::distance;
use typodist::generate;
use typodist::generate_layout;
use typodist::generate_simple;
use typodist::get_layout_metric;
use typodist::get_layout_metric_mobile;
use typodist::get_simple_metric;
use typodist::layouts::qwertz;
use typodist::layouts::qwertz_anysoft_extra;
use typodist::osa_distance_layout;
use typodist::osa_distance_simple;
use typodist::partial_max;
use typodist::partial_min;

#[test]
fn qwertz_pos() {
    assert_eq!(qwertz().get_pos('^'), Some((0, 0, 0)));
}

#[test]
fn qwertz_dist() {
    let layout = qwertz();
    assert!(layout.dist('t', 'z').unwrap() == 1000);
    assert!(layout.dist('t', 'g').unwrap() == 1000);
    assert!(layout.dist('t', 'h').unwrap() > 1000);
    assert!(layout.dist('t', 'h').unwrap() < 2000);
    assert!(layout.dist('w', 'm').unwrap() > 5000);
    assert!(layout.dist('w', 'm').unwrap() < 7000);
}

#[test]
fn no_distance() {
    assert!(osa_distance_simple("matthias", "matthias") == 0);
}

#[test]
fn basic_distance() {
    assert!(osa_distance_simple("matthias", "mstthias") > 0);
    assert!(osa_distance_simple("matthias", "matthiass") > 0);
    assert!(osa_distance_simple("matthias", "mmatthias") > 0);
    assert!(osa_distance_simple("matthias", "amtthias") > 0);
    assert!(osa_distance_simple("matthias", "mathias") > 0);
}

#[test]
fn miss_type_distance() {
    let a_typo = osa_distance_layout("matthias", "mstthias", qwertz());
    let a_typo_middle = osa_distance_layout("matthias", "metthias", qwertz());
    let a_typo_large = osa_distance_layout("matthias", "mntthias", qwertz());
    let _i_repeat = osa_distance_layout("matthias", "matthiias", qwertz());
    let _ia_swap = osa_distance_layout("matthias", "matthais", qwertz());
    println!("{} {} {}", a_typo, a_typo_middle, a_typo_large);
    assert!(a_typo < a_typo_middle);
    assert!(a_typo < a_typo_large);
    assert!(a_typo_middle < a_typo_large);
}

#[test]
fn test_generate() {
    let _typos = generate_layout("matthias", 1500, qwertz());
}

#[test]
fn simple_distance_exact_values() {
    assert_eq!(osa_distance_simple("matthias", "mathias"), 1000);
    assert_eq!(osa_distance_simple("matthias", "mstthias"), 1000);
    assert_eq!(osa_distance_simple("matthias", "matthiass"), 1000);
    assert_eq!(osa_distance_simple("matthias", "mmatthias"), 1000);
    assert_eq!(osa_distance_simple("matthias", "amtthias"), 1000);
}

#[test]
fn layout_distance_exact_values() {
    // 'a' sits one column from 's', farther from 'e', farthest from 'n'.
    assert_eq!(osa_distance_layout("matthias", "mstthias", qwertz()), 632);
    assert_eq!(osa_distance_layout("matthias", "metthias", qwertz()), 1414);
    // deleting the 'a' and inserting an 'n' beside the adjacent 'm' key
    // undercuts the direct cross-keyboard substitution
    assert_eq!(osa_distance_layout("matthias", "mntthias", qwertz()), 2032);
    // adjacent transposition costs six tenths of a unit
    assert_eq!(osa_distance_layout("matthias", "matthais", qwertz()), 600);
    // doubling a character costs only the flat insertion penalty
    assert_eq!(osa_distance_layout("matthias", "matthiias", qwertz()), 400);
}

#[test]
fn layout_identity_within_layout() {
    assert_eq!(osa_distance_layout("matthias", "matthias", qwertz()), 0);
    assert_eq!(osa_distance_layout("qwertz", "qwertz", qwertz_anysoft_extra()), 0);
}

#[test]
fn absent_character_fallback() {
    // a character off the layout has no position and costs the flat fallback
    assert_eq!(qwertz().get_pos('\u{263a}'), None);
    assert_eq!(qwertz().dist('a', '\u{263a}'), None);
    assert_eq!(osa_distance_layout("a", "\u{263a}", qwertz()), 1000);
    // even a character substituted by itself, when the layout lacks it
    assert_eq!(osa_distance_layout("\u{263a}", "\u{263a}", qwertz()), 1000);
}

#[test]
fn mobile_shift_special_case() {
    let desktop = get_layout_metric(qwertz());
    let mobile = get_layout_metric_mobile(qwertz());
    // same key, different shift level: the mobile geometry is closer
    assert_eq!(distance("a", "A", &desktop), 948);
    assert_eq!(distance("a", "A", &mobile), 707);
}

#[test]
fn uniform_metric_direct() {
    let metric = get_simple_metric();
    assert_eq!(distance("abc", "abc", &metric), 0);
    assert_eq!(distance("abc", "abd", &metric), 1000);
    assert_eq!(distance("", "ab", &metric), 2000);
}

#[test]
fn generate_seed_first_and_bounded() {
    let results = generate_simple("ab", 1500);
    assert!(results.len() >= 1);
    assert_eq!(results[0].cost, 0);
    assert_eq!(results[0].word, "ab");
    for r in &results {
        assert!(r.cost <= 1500);
    }
}

#[test]
fn generate_sorted_by_cost() {
    let results = generate_simple("ab", 1500);
    for pair in results.windows(2) {
        assert!(pair[0].cost <= pair[1].cost);
    }
}

#[test]
fn generate_no_duplicate_words() {
    let results = generate_layout("ab", 1400, qwertz());
    for (k, r) in results.iter().enumerate() {
        for s in results.iter().skip(k + 1) {
            assert!(r.word != s.word);
        }
    }
}

#[test]
fn generate_single_edits_present() {
    let results = generate_simple("ab", 1500);
    let words: Vec<&str> = results.iter().map(|r| r.word.as_str()).collect();
    // deletions, the adjacent swap, an insertion and a substitution all cost
    // one unit under the uniform metric and stay within the ceiling
    assert!(words.contains(&"a"));
    assert!(words.contains(&"b"));
    assert!(words.contains(&"ba"));
    assert!(words.contains(&"aab"));
    assert!(words.contains(&"qb"));
    for r in &results {
        if r.word != "ab" {
            assert_eq!(r.cost, 1000);
        }
    }
}

#[test]
fn generate_terminates_on_edges() {
    // an empty seed with a zero ceiling: only the seed itself comes back
    let results = generate_simple("", 0);
    assert_eq!(results.len(), 1);
    assert_eq!(results[0].word, "");
    // a ceiling below every edit cost keeps any neighbour out
    let results = generate_simple("a", 0);
    assert_eq!(results.len(), 1);
    assert_eq!(results[0].word, "a");
}

#[test]
fn generate_cost_inflation_two_edits() {
    let metric = Metric {
        policy: CostPolicy::Uniform,
        layout: qwertz(),
        alphabet: vec!['a', 'b'],
    };
    let results = generate("ab", 2500, &metric);
    // one deletion costs a unit; the second edit costs the parent's cost
    // inflated by 1.4 plus another unit: 1000 * 1.4 + 1000
    assert!(results.iter().any(|r| r.word == "a" && r.cost == 1000));
    assert!(results.iter().any(|r| r.word == "" && r.cost == 2400));
    assert!(results.iter().any(|r| r.word == "ba" && r.cost == 1000));
}

#[test]
fn chars_indexed_enumerates_in_scan_order() {
    let matrix = vec![vec![vec!['x', 'y'], vec!['z']], vec![vec!['w']]];
    let pairs = KeyLayout::chars_indexed(&matrix);
    assert_eq!(
        pairs,
        vec![('x', (0, 0, 0)), ('y', (0, 0, 1)), ('z', (0, 1, 0)), ('w', (1, 0, 0))]
    );
}

#[test]
fn duplicate_character_last_occurrence_wins() {
    let layout = KeyLayout::new(vec![vec![vec!['x'], vec!['x', 'y']]]);
    assert_eq!(layout.get_pos('x'), Some((0, 1, 0)));
    assert_eq!(layout.get_pos('y'), Some((0, 1, 1)));
}

#[test]
fn layout_chars_deduplicated() {
    let layout = KeyLayout::new(vec![vec![vec!['x'], vec!['x', 'y']]]);
    let mut chars = layout.chars();
    chars.sort();
    assert_eq!(chars, vec!['x', 'y']);
}

#[test]
fn partial_min_max_pick_extremes() {
    assert_eq!(*partial_min(&[3, 1, 2]), 1);
    assert_eq!(*partial_min(&[5]), 5);
    assert_eq!(partial_max(&[3, 1, 2]), 3);
    assert_eq!(partial_max(&[5]), 5);
}
