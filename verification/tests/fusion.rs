use zvec_bindings::fusion::{index_items, score_items, select_top_n, ScoredItem};
use zvec_bindings::name_map::NameMap;
use zvec_bindings::rerank::{RrfReRanker, WeightedReRanker};
use zvec_bindings::score_key::{score_bits, score_key};
use zvec_bindings::types::{MetricType, Normalization};

fn key_of(score: f64) -> i64 {
    score_key(score.to_bits())
}

fn score_of(key: i64) -> f64 {
    f64::from_bits(score_bits(key))
}

fn named(lists: Vec<(&str, Vec<(&str, f32)>)>) -> NameMap<Vec<(String, f32)>> {
    let mut set = NameMap::new();
    for (name, list) in lists {
        let list = list.into_iter().map(|(id, score)| (id.to_string(), score)).collect();
        set = set.with_value(name.to_string(), list);
    }
    set
}

fn item(id: &str, key: i64) -> ScoredItem {
    ScoredItem { id: id.to_string(), key }
}

fn rrf_fuse(ranker: &RrfReRanker, set: &NameMap<Vec<(String, f32)>>) -> Vec<(String, f32)> {
    let lists = set.values();
    let index = index_items(lists);
    let mut sums = vec![0.0f64; index.ids.len()];
    for (l, list) in lists.iter().enumerate() {
        for rank in 0..list.len() {
            sums[index.slots[l][rank]] += 1.0 / (ranker.rank_divisor(rank) as f64);
        }
    }
    let keys: Vec<i64> = sums.iter().map(|sum| key_of(*sum)).collect();
    let items = score_items(&index.ids, &keys).unwrap();
    ranker
        .rerank(items)
        .into_iter()
        .map(|item| (item.id, score_of(item.key) as f32))
        .collect()
}

fn normalize(rule: Normalization, raw: f32) -> f64 {
    let raw = raw as f64;
    match rule {
        Normalization::ArctanDistance => 1.0 - 2.0 * raw.atan() / std::f64::consts::PI,
        Normalization::ArctanSimilarity => 0.5 + raw.atan() / std::f64::consts::PI,
        Normalization::HalfComplement => 1.0 - raw / 2.0,
        Normalization::Identity => raw,
    }
}

fn weighted_fuse(
    ranker: &WeightedReRanker<f64>,
    set: &NameMap<Vec<(String, f32)>>,
) -> Vec<(String, f32)> {
    let lists = set.values();
    let index = index_items(lists);
    let rule = ranker.normalization();
    let mut sums = vec![0.0f64; index.ids.len()];
    for (l, list) in lists.iter().enumerate() {
        let weight = set
            .name_at(l)
            .and_then(|name| ranker.weight(name))
            .copied()
            .unwrap_or(1.0);
        for (rank, (_, raw)) in list.iter().enumerate() {
            sums[index.slots[l][rank]] += normalize(rule, *raw) * weight;
        }
    }
    let keys: Vec<i64> = sums.iter().map(|sum| key_of(*sum)).collect();
    let items = score_items(&index.ids, &keys).unwrap();
    ranker
        .rerank(items)
        .into_iter()
        .map(|item| (item.id, score_of(item.key) as f32))
        .collect()
}

fn ids_of(fused: &[(String, f32)]) -> Vec<&str> {
    fused.iter().map(|(id, _)| id.as_str()).collect()
}

#[test]
fn keys_order_as_scores_do() {
    let scores = [
        f64::NEG_INFINITY,
        f64::MIN,
        -2.5,
        -f64::MIN_POSITIVE,
        -0.0,
        0.0,
        f64::MIN_POSITIVE,
        1e-300,
        0.5,
        1.0,
        f64::MAX,
        f64::INFINITY,
        f64::NAN,
    ];
    for pair in scores.windows(2) {
        assert!(key_of(pair[0]) < key_of(pair[1]));
        assert_eq!(pair[0].total_cmp(&pair[1]), key_of(pair[0]).cmp(&key_of(pair[1])));
    }
    for score in scores {
        assert_eq!(score_of(key_of(score)).to_bits(), score.to_bits());
    }
}

#[test]
fn score_key_of_given_patterns() {
    assert_eq!(score_key(0), 0);
    assert_eq!(score_key(1), 1);
    assert_eq!(score_key(0x3FF0_0000_0000_0000), 0x3FF0_0000_0000_0000);
    assert_eq!(score_key(0x7FFF_FFFF_FFFF_FFFF), i64::MAX);
    assert_eq!(score_key(0x8000_0000_0000_0000), -1);
    assert_eq!(score_key(0x8000_0000_0000_0001), -2);
    assert_eq!(score_key(u64::MAX), i64::MIN);
}

#[test]
fn score_bits_of_given_keys() {
    assert_eq!(score_bits(0), 0);
    assert_eq!(score_bits(i64::MAX), 0x7FFF_FFFF_FFFF_FFFF);
    assert_eq!(score_bits(-1), 0x8000_0000_0000_0000);
    assert_eq!(score_bits(-2), 0x8000_0000_0000_0001);
    assert_eq!(score_bits(i64::MIN), u64::MAX);
    for key in [i64::MIN, -77, -1, 0, 1, 1 << 40, i64::MAX] {
        assert_eq!(score_key(score_bits(key)), key);
    }
}

#[test]
fn rrf_new_has_rank_constant_sixty() {
    let ranker = RrfReRanker::new(10);
    assert_eq!(ranker.topn(), 10);
    assert_eq!(ranker.rank_constant(), 60);
}

#[test]
fn rrf_with_rank_constant_keeps_topn() {
    let ranker = RrfReRanker::new(7).with_rank_constant(-3);
    assert_eq!(ranker.topn(), 7);
    assert_eq!(ranker.rank_constant(), -3);
}

#[test]
fn rrf_rank_divisor_is_constant_plus_rank_plus_one() {
    assert_eq!(RrfReRanker::new(1).rank_divisor(0), 61);
    assert_eq!(RrfReRanker::new(1).rank_divisor(5), 66);
    assert_eq!(RrfReRanker::new(1).with_rank_constant(10).rank_divisor(5), 16);
    assert_eq!(RrfReRanker::new(1).with_rank_constant(-1).rank_divisor(0), 0);
    assert_eq!(RrfReRanker::new(1).with_rank_constant(i32::MIN).rank_divisor(0), -2147483647);
    assert_eq!(
        RrfReRanker::new(1).with_rank_constant(i32::MAX).rank_divisor(usize::MAX),
        i32::MAX as i128 + usize::MAX as i128 + 1
    );
}

#[test]
fn rrf_single_item_at_rank_zero_scores_reciprocal_of_constant_plus_one() {
    let set = named(vec![("v1", vec![("only", 0.3)])]);
    let fused = rrf_fuse(&RrfReRanker::new(5), &set);
    assert_eq!(fused, vec![("only".to_string(), (1.0f64 / 61.0) as f32)]);
}

#[test]
fn rrf_two_lists_in_opposite_order_tie() {
    let set = named(vec![
        ("v1", vec![("a", 0.9), ("b", 0.1)]),
        ("v2", vec![("b", 0.7), ("a", 0.2)]),
    ]);
    let fused = rrf_fuse(&RrfReRanker::new(2).with_rank_constant(60), &set);
    let expected = (1.0f64 / 61.0 + 1.0 / 62.0) as f32;
    assert_eq!(fused.len(), 2);
    assert_eq!(fused, vec![("a".to_string(), expected), ("b".to_string(), expected)]);
}

#[test]
fn rrf_single_list_keeps_its_order() {
    let set = named(vec![("v1", vec![("q", 0.1), ("m", 0.9), ("z", 0.5), ("a", 0.7)])]);
    let all = rrf_fuse(&RrfReRanker::new(10), &set);
    assert_eq!(ids_of(&all), vec!["q", "m", "z", "a"]);
    let cut = rrf_fuse(&RrfReRanker::new(3), &set);
    assert_eq!(ids_of(&cut), vec!["q", "m", "z"]);
    assert_eq!(cut[0].1, (1.0f64 / 61.0) as f32);
    assert_eq!(cut[1].1, (1.0f64 / 62.0) as f32);
    assert_eq!(cut[2].1, (1.0f64 / 63.0) as f32);
}

#[test]
fn rrf_rank_zero_beats_rank_five() {
    let set = named(vec![(
        "l",
        vec![("x", 0.0), ("b", 0.0), ("c", 0.0), ("d", 0.0), ("e", 0.0), ("y", 0.0)],
    )]);
    let fused = rrf_fuse(&RrfReRanker::new(6), &set);
    let x = fused.iter().find(|(id, _)| id == "x").unwrap().1;
    let y = fused.iter().find(|(id, _)| id == "y").unwrap().1;
    assert!(x > y);
    assert_eq!(x, (1.0f64 / 61.0) as f32);
    assert_eq!(y, (1.0f64 / 66.0) as f32);
}

#[test]
fn rrf_ignores_the_order_in_which_lists_are_given() {
    let one = named(vec![
        ("A", vec![("a", 0.9), ("b", 0.8), ("c", 0.7)]),
        ("B", vec![("c", 0.9), ("d", 0.8), ("a", 0.7)]),
    ]);
    let other = named(vec![
        ("B", vec![("c", 0.9), ("d", 0.8), ("a", 0.7)]),
        ("A", vec![("a", 0.9), ("b", 0.8), ("c", 0.7)]),
    ]);
    let ranker = RrfReRanker::new(10);
    assert_eq!(rrf_fuse(&ranker, &one), rrf_fuse(&ranker, &other));
}

#[test]
fn rrf_item_in_more_lists_scores_higher() {
    let set = named(vec![
        ("v1", vec![("both", 0.0), ("one", 0.0)]),
        ("v2", vec![("other", 0.0), ("both", 0.0)]),
    ]);
    let fused = rrf_fuse(&RrfReRanker::new(3), &set);
    assert_eq!(fused[0].0, "both");
    assert_eq!(fused[0].1, (1.0f64 / 61.0 + 1.0 / 62.0) as f32);
    assert_eq!(ids_of(&fused[1..]), vec!["other", "one"]);
}

#[test]
fn rrf_repeated_item_sums_its_ranks() {
    let set = named(vec![("v1", vec![("a", 0.0), ("b", 0.0), ("a", 0.0)])]);
    let fused = rrf_fuse(&RrfReRanker::new(5), &set);
    assert_eq!(fused.len(), 2);
    assert_eq!(fused[0], ("a".to_string(), (1.0f64 / 61.0 + 1.0 / 63.0) as f32));
    assert_eq!(fused[1], ("b".to_string(), (1.0f64 / 62.0) as f32));
}

#[test]
fn fusing_nothing_gives_nothing() {
    let empty = named(vec![]);
    assert!(rrf_fuse(&RrfReRanker::new(5), &empty).is_empty());
    let hollow = named(vec![("v1", vec![]), ("v2", vec![])]);
    assert!(rrf_fuse(&RrfReRanker::new(5), &hollow).is_empty());
    let ranker: WeightedReRanker<f64> = WeightedReRanker::new(5, MetricType::L2);
    assert!(weighted_fuse(&ranker, &empty).is_empty());
}

#[test]
fn topn_zero_gives_nothing() {
    let set = named(vec![("v1", vec![("a", 0.1), ("b", 0.2)])]);
    assert!(rrf_fuse(&RrfReRanker::new(0), &set).is_empty());
    let ranker: WeightedReRanker<f64> = WeightedReRanker::new(0, MetricType::Cosine);
    assert!(weighted_fuse(&ranker, &set).is_empty());
}

#[test]
fn fused_length_is_topn_or_the_number_of_distinct_items() {
    let set = named(vec![
        ("v1", vec![("a", 0.1), ("b", 0.2), ("c", 0.3)]),
        ("v2", vec![("b", 0.1), ("d", 0.2)]),
        ("v3", vec![]),
    ]);
    for topn in 0..7usize {
        let expected = if topn < 4 { topn } else { 4 };
        assert_eq!(rrf_fuse(&RrfReRanker::new(topn), &set).len(), expected);
        let ranker: WeightedReRanker<f64> = WeightedReRanker::new(topn, MetricType::Ip);
        assert_eq!(weighted_fuse(&ranker, &set).len(), expected);
    }
}

#[test]
fn weighted_cosine_with_weight_two() {
    let ranker = WeightedReRanker::new(1, MetricType::Cosine).with_weight("v1".to_string(), 2.0);
    let set = named(vec![("v1", vec![("x", 0.2)])]);
    let fused = weighted_fuse(&ranker, &set);
    assert_eq!(fused, vec![("x".to_string(), 1.8f32)]);
}

#[test]
fn weighted_disjoint_lists_with_default_weights() {
    let ranker: WeightedReRanker<f64> = WeightedReRanker::new(5, MetricType::Cosine);
    let set = named(vec![("v1", vec![("x", 0.1)]), ("v2", vec![("y", 0.1)])]);
    let fused = weighted_fuse(&ranker, &set);
    assert_eq!(fused.len(), 2);
    assert_eq!(fused, vec![("x".to_string(), 0.95f32), ("y".to_string(), 0.95f32)]);
}

#[test]
fn weighted_list_of_weight_zero_adds_nothing() {
    let list_a = vec![("a", 0.2), ("b", 0.6), ("c", 1.4)];
    let list_b = vec![("b", 0.1), ("a", 1.9), ("z", 0.3)];
    let ranker = WeightedReRanker::new(10, MetricType::Cosine).with_weight("B".to_string(), 0.0);
    let both = weighted_fuse(&ranker, &named(vec![("A", list_a.clone()), ("B", list_b)]));
    let alone = weighted_fuse(&ranker, &named(vec![("A", list_a)]));
    for (id, score) in &alone {
        let with_b = both.iter().find(|(other, _)| other == id).unwrap();
        assert_eq!(with_b.1, *score);
    }
    let z = both.iter().find(|(id, _)| id == "z").unwrap();
    assert_eq!(z.1, 0.0);
}

#[test]
fn weighted_ignores_the_order_in_which_lists_are_given() {
    let ranker = WeightedReRanker::new(10, MetricType::L2)
        .with_weight("A".to_string(), 0.3)
        .with_weight("B".to_string(), 1.7);
    let one = named(vec![
        ("A", vec![("a", 0.9), ("b", 0.8)]),
        ("B", vec![("b", 0.4), ("c", 0.1)]),
        ("C", vec![("a", 2.5), ("c", 0.6)]),
    ]);
    let other = named(vec![
        ("C", vec![("a", 2.5), ("c", 0.6)]),
        ("B", vec![("b", 0.4), ("c", 0.1)]),
        ("A", vec![("a", 0.9), ("b", 0.8)]),
    ]);
    assert_eq!(weighted_fuse(&ranker, &one), weighted_fuse(&ranker, &other));
}

#[test]
fn weighted_sums_the_contributions_of_an_item() {
    let ranker = WeightedReRanker::new(3, MetricType::Cosine).with_weight("v2".to_string(), 0.5);
    let set = named(vec![("v1", vec![("x", 0.5)]), ("v2", vec![("x", 1.0), ("y", 0.0)])]);
    let fused = weighted_fuse(&ranker, &set);
    let x = (1.0 - 0.5f32 as f64 / 2.0) * 1.0 + (1.0 - 1.0f32 as f64 / 2.0) * 0.5;
    let y = (1.0 - 0.0f32 as f64 / 2.0) * 0.5;
    assert_eq!(fused, vec![("x".to_string(), x as f32), ("y".to_string(), y as f32)]);
}

#[test]
fn weighted_negative_weight_inverts_a_list() {
    let ranker = WeightedReRanker::new(2, MetricType::Undefined).with_weight("v".to_string(), -1.0);
    let set = named(vec![("v", vec![("high", 3.0), ("low", 1.0)])]);
    let fused = weighted_fuse(&ranker, &set);
    assert_eq!(fused, vec![("low".to_string(), -1.0f32), ("high".to_string(), -3.0f32)]);
}

#[test]
fn weighted_l2_and_ip_use_the_arctangent() {
    let set = named(vec![("v", vec![("x", 1.0)])]);
    let l2: WeightedReRanker<f64> = WeightedReRanker::new(1, MetricType::L2);
    let ip: WeightedReRanker<f64> = WeightedReRanker::new(1, MetricType::Ip);
    let at = 1.0f64.atan();
    assert_eq!(weighted_fuse(&l2, &set)[0].1, (1.0 - 2.0 * at / std::f64::consts::PI) as f32);
    assert_eq!(weighted_fuse(&ip, &set)[0].1, (0.5 + at / std::f64::consts::PI) as f32);
    assert_eq!(weighted_fuse(&l2, &set)[0].1, 0.5f32);
    assert_eq!(weighted_fuse(&ip, &set)[0].1, 0.75f32);
}

#[test]
fn weighted_new_sets_no_weight() {
    let ranker: WeightedReRanker<f64> = WeightedReRanker::new(4, MetricType::Ip);
    assert_eq!(ranker.topn(), 4);
    assert_eq!(ranker.metric(), MetricType::Ip);
    assert_eq!(ranker.weight("any"), None);
}

#[test]
fn weighted_with_weight_sets_and_replaces() {
    let ranker = WeightedReRanker::new(4, MetricType::Ip)
        .with_weight("title".to_string(), 2.0f64)
        .with_weight("body".to_string(), 0.5)
        .with_weight("title".to_string(), 3.0);
    assert_eq!(ranker.weight("title"), Some(&3.0));
    assert_eq!(ranker.weight("body"), Some(&0.5));
    assert_eq!(ranker.weight("other"), None);
    assert_eq!(ranker.topn(), 4);
    assert_eq!(ranker.metric(), MetricType::Ip);
}

#[test]
fn weighted_with_weights_replaces_all() {
    let weights = NameMap::new().with_value("b".to_string(), 7u32).with_value("a".to_string(), 9);
    let ranker = WeightedReRanker::new(1, MetricType::L2)
        .with_weight("old".to_string(), 1u32)
        .with_weights(weights);
    assert_eq!(ranker.weight("old"), None);
    assert_eq!(ranker.weight("a"), Some(&9));
    assert_eq!(ranker.weight("b"), Some(&7));
}

#[test]
fn metric_chooses_the_normalization() {
    assert_eq!(MetricType::L2.normalization(), Normalization::ArctanDistance);
    assert_eq!(MetricType::Ip.normalization(), Normalization::ArctanSimilarity);
    assert_eq!(MetricType::Cosine.normalization(), Normalization::HalfComplement);
    assert_eq!(MetricType::Undefined.normalization(), Normalization::Identity);
    assert_eq!(MetricType::MipsL2.normalization(), Normalization::Identity);
    let ranker: WeightedReRanker<f64> = WeightedReRanker::new(1, MetricType::Cosine);
    assert_eq!(ranker.normalization(), Normalization::HalfComplement);
}

#[test]
fn index_items_gives_each_distinct_item_one_slot() {
    let lists = vec![
        vec![("b".to_string(), 1u8), ("a".to_string(), 2)],
        vec![],
        vec![("a".to_string(), 3), ("c".to_string(), 4), ("b".to_string(), 5), ("c".to_string(), 6)],
    ];
    let index = index_items(&lists);
    assert_eq!(index.ids, vec!["b".to_string(), "a".to_string(), "c".to_string()]);
    assert_eq!(index.slots, vec![vec![0, 1], vec![], vec![1, 2, 0, 2]]);
}

#[test]
fn index_items_of_no_lists_is_empty() {
    let lists: Vec<Vec<(String, f32)>> = Vec::new();
    let index = index_items(&lists);
    assert!(index.ids.is_empty());
    assert!(index.slots.is_empty());
}

#[test]
fn score_items_pairs_by_index() {
    let ids = vec!["x".to_string(), "y".to_string()];
    let items = score_items(&ids, &vec![5, -5]).unwrap();
    assert_eq!(items.len(), 2);
    assert_eq!((items[0].id.as_str(), items[0].key), ("x", 5));
    assert_eq!((items[1].id.as_str(), items[1].key), ("y", -5));
    assert!(score_items(&ids, &vec![1]).is_none());
    assert!(score_items(&ids, &vec![1, 2, 3]).is_none());
    assert_eq!(score_items(&Vec::new(), &Vec::new()).unwrap().len(), 0);
}

#[test]
fn select_top_n_orders_by_descending_key() {
    let top = select_top_n(vec![item("a", 1), item("b", 30), item("c", -4), item("d", 7)], 3);
    let got: Vec<(&str, i64)> = top.iter().map(|i| (i.id.as_str(), i.key)).collect();
    assert_eq!(got, vec![("b", 30), ("d", 7), ("a", 1)]);
}

#[test]
fn select_top_n_breaks_ties_by_ascending_id() {
    let top = select_top_n(vec![item("m", 2), item("z", 9), item("b", 2), item("ab", 2)], 10);
    let got: Vec<&str> = top.iter().map(|i| i.id.as_str()).collect();
    assert_eq!(got, vec!["z", "ab", "b", "m"]);
}

#[test]
fn select_top_n_ignores_the_order_of_its_input() {
    let one = select_top_n(vec![item("a", 3), item("b", 3), item("c", 8), item("d", 1)], 3);
    let other = select_top_n(vec![item("d", 1), item("c", 8), item("b", 3), item("a", 3)], 3);
    let one: Vec<(String, i64)> = one.into_iter().map(|i| (i.id, i.key)).collect();
    let other: Vec<(String, i64)> = other.into_iter().map(|i| (i.id, i.key)).collect();
    assert_eq!(one, other);
    assert_eq!(one, vec![("c".to_string(), 8), ("a".to_string(), 3), ("b".to_string(), 3)]);
}

#[test]
fn select_top_n_keeps_all_when_topn_is_larger() {
    assert_eq!(select_top_n(vec![item("a", 1), item("b", 2)], usize::MAX).len(), 2);
    assert_eq!(select_top_n(Vec::new(), 3).len(), 0);
    assert_eq!(select_top_n(vec![item("a", 1)], 0).len(), 0);
    let extremes = select_top_n(vec![item("lo", i64::MIN), item("hi", i64::MAX)], 2);
    assert_eq!(extremes[0].id, "hi");
    assert_eq!(extremes[1].id, "lo");
}
