use hnsw::distance::{Distance, DistanceFunction, VectorModel};
use hnsw::hnsw::Hnsw;
use hnsw::level::Level;
use hnsw::node::{GraphNode, GraphNodeIdx, Node, NodeIdx, MAX_NEIGHBOURS};
use hnsw::rand::{LCGRng, MODULUS};
use hnsw::store::{Graph, NodeStore};

/// Euclidean distance on components that are the bit patterns of `f32`
/// values; the distance is the bit pattern of the `f32` result.
#[derive(Debug, PartialEq)]
struct Euclidean;

impl<const DIM: usize> DistanceFunction<DIM> for Euclidean {
    fn spec_distance(_x: VectorModel, _y: VectorModel) -> Distance {
        unreachable!()
    }

    fn distance(x: &Vec<u32>, y: &Vec<u32>) -> Distance {
        let sum: f32 = x
            .iter()
            .zip(y.iter())
            .map(|(a, b)| (f32::from_bits(*a) - f32::from_bits(*b)).powi(2))
            .sum();
        let root = sum.sqrt();
        if root == 0.0 {
            0
        } else {
            root.to_bits()
        }
    }
}

/// The absolute difference of the first components, as plain integers.
#[derive(Debug, PartialEq)]
struct OnALine;

impl DistanceFunction<1> for OnALine {
    fn spec_distance(_x: VectorModel, _y: VectorModel) -> Distance {
        unreachable!()
    }

    fn distance(x: &Vec<u32>, y: &Vec<u32>) -> Distance {
        x[0].abs_diff(y[0])
    }
}

fn encode(vector: &[f32]) -> Vec<u32> {
    vector.iter().map(|c| c.to_bits()).collect()
}

fn decode(vector: &[u32]) -> Vec<f32> {
    vector.iter().map(|c| f32::from_bits(*c)).collect()
}

/// The cutoffs that the decay `lambda` gives: for each depth the number of
/// draws whose uniform value is at most the cumulative probability.
fn cutoffs_for<const N: usize>(lambda: f64) -> [u64; N] {
    let mut weights = [0.0f64; N];
    for (i, w) in weights.iter_mut().enumerate() {
        *w = lambda.exp() * (-lambda * i as f64).exp();
    }
    let total: f64 = weights.iter().sum();
    let mut cutoffs = [0u64; N];
    let mut cumulative = 0.0;
    for i in 0..N {
        cumulative += weights[i] / total;
        let (mut lo, mut hi) = (0u64, MODULUS);
        while lo < hi {
            let mid = (lo + hi) / 2;
            if mid as f64 / MODULUS as f64 <= cumulative {
                lo = mid + 1;
            } else {
                hi = mid;
            }
        }
        cutoffs[i] = lo;
    }
    cutoffs
}

fn line_store(points: &[u32]) -> NodeStore {
    let mut store = NodeStore::new();
    for (i, p) in points.iter().enumerate() {
        store.push(Node { idx: NodeIdx::new(i), vec: vec![*p] });
    }
    store
}

fn line_level(nodes: &[(usize, &[(usize, u32)])]) -> Level<1, OnALine> {
    let mut level = Level::<1, OnALine>::default();
    for (node, neighbours) in nodes {
        let entries = neighbours.iter().map(|(i, d)| (GraphNodeIdx::new(*i), *d)).collect();
        level.graph.push(GraphNode::new(NodeIdx::new(*node), entries, None, None));
    }
    level
}

fn neighbours_of<const DIM: usize, DF: DistanceFunction<DIM>>(
    level: &Level<DIM, DF>,
    idx: usize,
) -> Vec<(usize, u32)> {
    level
        .graph
        .get(GraphNodeIdx::new(idx))
        .neighbour_list()
        .iter()
        .map(|e| (e.0.index(), e.1))
        .collect()
}

#[test]
fn generator_follows_the_recurrence() {
    let mut rng = LCGRng::new(42);
    assert_eq!(rng.next_draw(), 705894);
    assert_eq!(rng.next_draw(), 1126542223);
    assert_eq!(rng.next_draw(), 1579310009);
    assert_eq!(rng.seed(), 1579310009);
}

#[test]
fn generator_wraps_a_large_seed() {
    let mut rng = LCGRng::new(u64::MAX);
    let expected = 16807u64.wrapping_mul(u64::MAX) % MODULUS;
    assert_eq!(rng.next_draw(), expected);
    assert_eq!(expected, 2147466844);
}

#[test]
fn generator_stays_at_zero() {
    let mut rng = LCGRng::new(0);
    assert_eq!(rng.next_draw(), 0);
    assert_eq!(rng.next_draw(), 0);
}

#[test]
fn same_seed_same_draws() {
    let mut a = LCGRng::new(7);
    let mut b = LCGRng::new(7);
    for _ in 0..100 {
        let draw = a.next_draw();
        assert_eq!(draw, b.next_draw());
        assert!(draw < MODULUS);
    }
}

#[test]
fn depth_is_the_first_cutoff_above_the_draw() {
    let mut index = Hnsw::<1, OnALine, 3>::new(42, [705894, 705895, MODULUS]);
    assert_eq!(index.gen_level(), 1);
    let mut index = Hnsw::<1, OnALine, 3>::new(42, [705895, 705896, MODULUS]);
    assert_eq!(index.gen_level(), 0);
    let mut index = Hnsw::<1, OnALine, 3>::new(42, [0, 0, MODULUS]);
    assert_eq!(index.gen_level(), 2);
}

#[test]
fn depth_falls_back_to_the_last_layer() {
    let mut index = Hnsw::<1, OnALine, 4>::new(42, [0, 0, 0, 0]);
    assert_eq!(index.gen_level(), 3);
    assert_eq!(index.rng.seed(), 705894);
}

#[test]
fn cutoffs_of_the_default_decay() {
    let cutoffs = cutoffs_for::<5>(0.5);
    assert_eq!(cutoffs[4], MODULUS);
    for i in 1..5 {
        assert!(cutoffs[i - 1] <= cutoffs[i]);
        assert!(cutoffs[i] - cutoffs[i - 1] <= cutoffs[0]);
    }
    assert!((cutoffs[0] as f64 / MODULUS as f64 - 0.42865552877716695).abs() < 1e-9);
}

#[test]
fn graph_node_keeps_its_entries() {
    let entries = vec![(GraphNodeIdx::new(1), 7), (GraphNodeIdx::new(4), 9)];
    let node = GraphNode::new(NodeIdx::new(3), entries.clone(), None, Some(GraphNodeIdx::new(2)));
    assert_eq!(node.neighbour_list(), entries);
    assert_eq!(node.node_idx, NodeIdx::new(3));
    assert_eq!(node.child, Some(GraphNodeIdx::new(2)));
    assert_eq!(node.parent, None);
}

#[test]
fn stores_hand_out_positions_in_order() {
    let mut store = NodeStore::new();
    assert_eq!(store.len(), 0);
    assert_eq!(store.push(Node { idx: NodeIdx::new(0), vec: vec![5] }), NodeIdx::new(0));
    assert_eq!(store.push(Node { idx: NodeIdx::new(1), vec: vec![6] }), NodeIdx::new(1));
    assert_eq!(store.len(), 2);
    assert_eq!(store.get(NodeIdx::new(1)).vec, vec![6]);
    let level = line_level(&[(0, &[]), (1, &[(0, 1)])]);
    assert_eq!(level.len(), 2);
    assert_eq!(level.graph.len(), 2);
    assert_eq!(level.graph.get(GraphNodeIdx::new(1)).node_idx, NodeIdx::new(1));
}

#[test]
fn insert_neighbour_keeps_the_order() {
    let mut level = line_level(&[(0, &[(1, 3), (2, 5), (3, 7)]), (1, &[]), (2, &[]), (3, &[]), (4, &[])]);
    level.insert_neighbour(GraphNodeIdx::new(0), (GraphNodeIdx::new(4), 6));
    assert_eq!(neighbours_of(&level, 0), vec![(1, 3), (2, 5), (4, 6), (3, 7)]);
}

#[test]
fn insert_neighbour_at_the_front_and_at_the_end() {
    let mut level = line_level(&[(0, &[(1, 3), (2, 5)]), (1, &[]), (2, &[]), (3, &[]), (4, &[])]);
    level.insert_neighbour(GraphNodeIdx::new(0), (GraphNodeIdx::new(3), 1));
    assert_eq!(neighbours_of(&level, 0), vec![(3, 1), (1, 3), (2, 5)]);
    level.insert_neighbour(GraphNodeIdx::new(0), (GraphNodeIdx::new(4), 9));
    assert_eq!(neighbours_of(&level, 0), vec![(3, 1), (1, 3), (2, 5), (4, 9)]);
    level.insert_neighbour(GraphNodeIdx::new(1), (GraphNodeIdx::new(0), 3));
    assert_eq!(neighbours_of(&level, 1), vec![(0, 3)]);
}

#[test]
fn insert_neighbour_puts_an_equally_far_entry_behind() {
    let mut level = line_level(&[(0, &[(1, 3), (2, 5), (3, 7)]), (1, &[]), (2, &[]), (3, &[]), (4, &[])]);
    level.insert_neighbour(GraphNodeIdx::new(0), (GraphNodeIdx::new(4), 5));
    assert_eq!(neighbours_of(&level, 0), vec![(1, 3), (2, 5), (4, 5), (3, 7)]);
}

#[test]
fn insert_neighbour_drops_the_farthest_of_a_full_list() {
    let full: Vec<(usize, u32)> = (1..=MAX_NEIGHBOURS).map(|i| (i, 10 * i as u32)).collect();
    let mut nodes: Vec<(usize, &[(usize, u32)])> = vec![(0, &full)];
    for i in 1..=MAX_NEIGHBOURS + 2 {
        nodes.push((i, &[]));
    }
    let mut level = line_level(&nodes);
    level.insert_neighbour(GraphNodeIdx::new(0), (GraphNodeIdx::new(21), 15));
    let list = neighbours_of(&level, 0);
    assert_eq!(list.len(), MAX_NEIGHBOURS);
    assert_eq!(list[0], (1, 10));
    assert_eq!(list[1], (21, 15));
    assert_eq!(list[2], (2, 20));
    assert_eq!(list[19], (19, 190));
    level.insert_neighbour(GraphNodeIdx::new(0), (GraphNodeIdx::new(22), 1000));
    assert_eq!(neighbours_of(&level, 0), list);
}

#[test]
fn make_edges_double_sided_adds_the_way_back() {
    let mut level = line_level(&[(0, &[(1, 4)]), (1, &[(0, 4)]), (2, &[(0, 2), (1, 6)])]);
    level.make_edges_double_sided(
        GraphNodeIdx::new(2),
        vec![(GraphNodeIdx::new(0), 2), (GraphNodeIdx::new(1), 6)],
    );
    assert_eq!(neighbours_of(&level, 0), vec![(2, 2), (1, 4)]);
    assert_eq!(neighbours_of(&level, 1), vec![(0, 4), (2, 6)]);
    assert_eq!(neighbours_of(&level, 2), vec![(0, 2), (1, 6)]);
}

#[test]
fn search_of_an_empty_layer_finds_nothing() {
    let level = Level::<1, OnALine>::default();
    let store = line_store(&[3]);
    assert_eq!(level.nearest_neighbour_search(&vec![3], &store), vec![]);
}

#[test]
fn search_moves_to_the_first_nearer_neighbour() {
    // Points on a line: 0 at 100, 1 at 60, 2 at 10, 3 at 55.
    let store = line_store(&[100, 60, 10, 55]);
    // From 0 the list names 1 before 2: the search moves to 1 although 2 is
    // nearer to the query, and from 1 nothing is nearer than 1.
    let level = line_level(&[
        (0, &[(1, 40), (2, 90)]),
        (1, &[(0, 40), (3, 5)]),
        (2, &[(0, 90)]),
        (3, &[(1, 5)]),
    ]);
    let found = level.nearest_neighbour_search(&vec![59], &store);
    assert_eq!(found, vec![(GraphNodeIdx::new(1), 1), (GraphNodeIdx::new(3), 4), (GraphNodeIdx::new(0), 41)]);
    let found = level.nearest_neighbour_search(&vec![0], &store);
    assert_eq!(found, vec![(GraphNodeIdx::new(3), 55), (GraphNodeIdx::new(1), 60)]);
    let found = level.nearest_neighbour_search_starting_from(&vec![0], &store, GraphNodeIdx::new(2));
    assert_eq!(found, vec![(GraphNodeIdx::new(2), 10), (GraphNodeIdx::new(0), 100)]);
}

#[test]
fn search_keeps_equally_far_entries_in_the_order_met() {
    let store = line_store(&[50, 40, 60, 45]);
    let level = line_level(&[(0, &[(2, 10), (1, 10), (3, 5)]), (1, &[]), (2, &[]), (3, &[])]);
    let found = level.nearest_neighbour_search(&vec![50], &store);
    assert_eq!(
        found,
        vec![
            (GraphNodeIdx::new(0), 0),
            (GraphNodeIdx::new(3), 5),
            (GraphNodeIdx::new(2), 10),
            (GraphNodeIdx::new(1), 10)
        ]
    );
}

#[test]
fn search_returns_distances_to_the_query_not_cached_ones() {
    let store = line_store(&[50, 70]);
    let level = line_level(&[(0, &[(1, 999)]), (1, &[(0, 999)])]);
    let found = level.nearest_neighbour_search(&vec![50], &store);
    assert_eq!(found, vec![(GraphNodeIdx::new(0), 0), (GraphNodeIdx::new(1), 20)]);
}

#[test]
fn empty_index_answers_with_nothing() {
    let index = Hnsw::<2, Euclidean, 5>::new(42, cutoffs_for::<5>(0.5));
    assert!(index.nearest_neighbour_search(&encode(&[0.0, 0.0])).is_empty());
    assert_eq!(index.nodes.len(), 0);
    assert_eq!(index.levels.len(), 5);
    assert!(index.levels.iter().all(|level| level.len() == 0));
}

#[test]
fn first_vector_gets_position_zero_and_no_neighbours() {
    // Every draw chooses depth 2.
    let mut index = Hnsw::<2, Euclidean, 3>::new(42, [0, 0, MODULUS]);
    index.insert(encode(&[1.0, 2.0]));
    assert_eq!(index.nodes.len(), 1);
    let node = index.nodes.get(NodeIdx::new(0));
    assert_eq!(node.idx, NodeIdx::new(0));
    assert_eq!(decode(&node.vec), vec![1.0, 2.0]);
    assert_eq!(index.levels[0].len(), 1);
    assert_eq!(index.levels[1].len(), 1);
    assert_eq!(index.levels[2].len(), 0);
    let bottom = index.levels[0].graph.get(GraphNodeIdx::new(0));
    assert_eq!(bottom.node_idx, NodeIdx::new(0));
    assert!(bottom.neighbour_list().is_empty());
    assert_eq!(bottom.child, None);
    assert_eq!(bottom.parent, Some(GraphNodeIdx::new(0)));
    let top = index.levels[1].graph.get(GraphNodeIdx::new(0));
    assert_eq!(top.node_idx, NodeIdx::new(0));
    assert!(top.neighbour_list().is_empty());
    assert_eq!(top.child, Some(GraphNodeIdx::new(0)));
    assert_eq!(top.parent, None);
}

#[test]
fn a_vector_of_depth_zero_joins_no_layer() {
    let mut index = Hnsw::<2, Euclidean, 5>::new(42, cutoffs_for::<5>(0.5));
    index.insert(encode(&[0.0, 0.0]));
    assert_eq!(index.rng.seed(), 705894);
    assert_eq!(index.nodes.len(), 1);
    assert!(index.levels.iter().all(|level| level.len() == 0));
    assert!(index.nearest_neighbour_search(&encode(&[0.0, 0.0])).is_empty());
}

#[test]
fn three_vectors_with_seed_42() {
    let mut index = Hnsw::<2, Euclidean, 5>::new(42, cutoffs_for::<5>(0.5));
    index.insert(encode(&[0.0, 0.0]));
    index.insert(encode(&[10.0, 10.0]));
    index.insert(encode(&[0.1, 0.1]));
    // The three draws choose the depths 0, 1 and 2: the first vector joins
    // no layer and no search can reach it.
    assert_eq!(index.rng.seed(), 1579310009);
    assert_eq!(index.levels[0].len(), 2);
    assert_eq!(index.levels[1].len(), 1);
    assert_eq!(index.levels[2].len(), 0);
    let far = 1096811245;
    assert_eq!(f32::from_bits(far), 14.000714);
    assert_eq!(neighbours_of(&index.levels[0], 0), vec![(1, far)]);
    assert_eq!(neighbours_of(&index.levels[0], 1), vec![(0, far)]);
    assert_eq!(index.levels[0].graph.get(GraphNodeIdx::new(1)).parent, Some(GraphNodeIdx::new(0)));
    assert_eq!(index.levels[1].graph.get(GraphNodeIdx::new(0)).child, Some(GraphNodeIdx::new(1)));
    let found = index.nearest_neighbour_search(&encode(&[0.0, 0.0]));
    assert_eq!(found.len(), 2);
    assert_eq!(decode(&found[0].0.vec), vec![0.1, 0.1]);
    assert_eq!(f32::from_bits(found[0].1), 0.14142136);
    assert_eq!(decode(&found[1].0.vec), vec![10.0, 10.0]);
    assert_eq!(f32::from_bits(found[1].1), 14.142136);
}

#[test]
fn a_vector_in_layer_zero_is_found_at_distance_zero() {
    // Every draw chooses depth 1: every vector joins layer 0.
    let mut index = Hnsw::<2, Euclidean, 2>::new(42, [0, MODULUS]);
    index.insert(encode(&[0.0, 0.0]));
    index.insert(encode(&[10.0, 10.0]));
    index.insert(encode(&[0.1, 0.1]));
    let found = index.nearest_neighbour_search(&encode(&[0.0, 0.0]));
    assert_eq!(decode(&found[0].0.vec), vec![0.0, 0.0]);
    assert_eq!(found[0].1, 0);
    assert_eq!(found[0].0.idx, NodeIdx::new(0));
    let found = index.nearest_neighbour_search(&encode(&[0.1, 0.1]));
    assert_eq!(found[0].0.idx, NodeIdx::new(2));
    assert_eq!(found[0].1, 0);
}

fn scattered(count: usize) -> Vec<Vec<u32>> {
    let mut rng = LCGRng::new(2024);
    (0..count)
        .map(|_| {
            let x = rng.next_draw() as f32 / MODULUS as f32;
            let y = rng.next_draw() as f32 / MODULUS as f32;
            encode(&[x, y])
        })
        .collect()
}

fn lists_of<const DIM: usize, DF: DistanceFunction<DIM>, const N: usize>(
    index: &Hnsw<DIM, DF, N>,
) -> Vec<Vec<Vec<(usize, u32)>>> {
    index
        .levels
        .iter()
        .map(|level| (0..level.len()).map(|i| neighbours_of(level, i)).collect())
        .collect()
}

#[test]
fn same_inserts_give_the_same_index() {
    let mut a = Hnsw::<2, Euclidean, 5>::new(7, cutoffs_for::<5>(0.5));
    let mut b = Hnsw::<2, Euclidean, 5>::new(7, cutoffs_for::<5>(0.5));
    for vector in scattered(300) {
        a.insert(vector.clone());
        b.insert(vector);
    }
    assert_eq!(a.rng.seed(), b.rng.seed());
    assert_eq!(lists_of(&a), lists_of(&b));
    for query in scattered(20) {
        let found_a: Vec<(usize, u32)> =
            a.nearest_neighbour_search(&query).iter().map(|hit| (hit.0.idx.index(), hit.1)).collect();
        let found_b: Vec<(usize, u32)> =
            b.nearest_neighbour_search(&query).iter().map(|hit| (hit.0.idx.index(), hit.1)).collect();
        assert_eq!(found_a, found_b);
        assert!(!found_a.is_empty());
    }
}

#[test]
fn lists_stay_bounded_ascending_and_without_repeats() {
    let mut index = Hnsw::<2, Euclidean, 4>::new(11, cutoffs_for::<4>(0.5));
    for vector in scattered(400) {
        index.insert(vector);
        for (l, level) in lists_of(&index).iter().enumerate() {
            for (i, list) in level.iter().enumerate() {
                assert!(list.len() <= MAX_NEIGHBOURS);
                assert!(list.windows(2).all(|w| w[0].1 <= w[1].1));
                assert!(list.iter().all(|e| e.0 != i && e.0 < level.len()));
                let mut seen: Vec<usize> = list.iter().map(|e| e.0).collect();
                seen.sort();
                seen.dedup();
                assert_eq!(seen.len(), list.len(), "layer {l} node {i}");
            }
        }
    }
    assert!(lists_of(&index)[0].iter().any(|list| list.len() == MAX_NEIGHBOURS));
}

#[test]
fn edges_go_both_ways_while_no_list_is_full() {
    let mut index = Hnsw::<2, Euclidean, 3>::new(5, cutoffs_for::<3>(0.5));
    for vector in scattered(20) {
        index.insert(vector);
        for level in lists_of(&index) {
            for (a, list) in level.iter().enumerate() {
                assert!(list.len() < MAX_NEIGHBOURS);
                for (b, d) in list {
                    assert!(level[*b].contains(&(a, *d)));
                }
            }
        }
    }
    assert!(index.levels[0].len() > 5);
}

#[test]
fn links_form_a_chain() {
    let mut index = Hnsw::<2, Euclidean, 5>::new(3, cutoffs_for::<5>(0.5));
    for vector in scattered(200) {
        index.insert(vector);
    }
    assert_eq!(index.levels[4].len(), 0);
    assert!(index.levels[2].len() > 0);
    for l in 0..5 {
        let level = &index.levels[l];
        for i in 0..level.len() {
            let node = level.graph.get(GraphNodeIdx::new(i));
            match node.child {
                None => assert_eq!(l, 0),
                Some(child) => {
                    let below = index.levels[l - 1].graph.get(child);
                    assert_eq!(below.node_idx, node.node_idx);
                    assert_eq!(below.parent, Some(GraphNodeIdx::new(i)));
                }
            }
            if let Some(parent) = node.parent {
                let above = index.levels[l + 1].graph.get(parent);
                assert_eq!(above.child, Some(GraphNodeIdx::new(i)));
            }
        }
    }
}

#[test]
fn answers_come_nearest_first() {
    let mut index = Hnsw::<2, Euclidean, 5>::new(42, cutoffs_for::<5>(0.5));
    for vector in scattered(500) {
        index.insert(vector);
    }
    for query in scattered(30) {
        let found = index.nearest_neighbour_search(&query);
        assert!(!found.is_empty());
        assert!(found.len() <= MAX_NEIGHBOURS + 1);
        assert!(found.windows(2).all(|w| w[0].1 <= w[1].1));
        for hit in &found {
            assert_eq!(<Euclidean as DistanceFunction<2>>::distance(&hit.0.vec, &query), hit.1);
        }
    }
}

#[test]
fn index_node_indexes_a_stored_vector() {
    let mut index = Hnsw::<1, OnALine, 2>::new(42, [0, MODULUS]);
    index.insert(vec![10]);
    index.insert(vec![30]);
    index.nodes.push(Node { idx: NodeIdx::new(2), vec: vec![12] });
    assert_eq!(index.levels[0].len(), 2);
    index.index_node(NodeIdx::new(2));
    assert_eq!(index.levels[0].len(), 3);
    assert_eq!(neighbours_of(&index.levels[0], 2), vec![(0, 2), (1, 18)]);
    assert_eq!(neighbours_of(&index.levels[0], 0), vec![(2, 2), (1, 20)]);
    assert_eq!(neighbours_of(&index.levels[0], 1), vec![(2, 18), (0, 20)]);
    let found = index.nearest_neighbour_search(&vec![13]);
    assert_eq!(found[0].0.idx, NodeIdx::new(2));
    assert_eq!(found[0].1, 1);
}

/// The index that the parts of `index` make: every stored vector and every
/// graph node copied, one by one.
fn rebuilt<const DIM: usize, DF: DistanceFunction<DIM>, const N: usize>(
    index: &Hnsw<DIM, DF, N>,
) -> Hnsw<DIM, DF, N> {
    let mut nodes = NodeStore::new();
    for i in 0..index.nodes.len() {
        nodes.push(index.nodes.get(NodeIdx::new(i)).clone());
    }
    let mut levels = Vec::new();
    for level in &index.levels {
        let mut graph = Graph::new();
        for i in 0..level.len() {
            let node = level.graph.get(GraphNodeIdx::new(i));
            graph.push(GraphNode::new(node.node_idx, node.neighbour_list(), node.parent, node.child));
        }
        levels.push(Level::from_graph(graph));
    }
    Hnsw { nodes, levels, rng: LCGRng::new(index.rng.seed()), level_cutoffs: index.level_cutoffs }
}

fn answers<const DIM: usize, DF: DistanceFunction<DIM>, const N: usize>(
    index: &Hnsw<DIM, DF, N>,
    query: &Vec<u32>,
) -> Vec<(usize, Vec<u32>, u32)> {
    index
        .nearest_neighbour_search(query)
        .iter()
        .map(|hit| (hit.0.idx.index(), hit.0.vec.clone(), hit.1))
        .collect()
}

#[test]
fn rebuilt_index_gives_the_same_answers() {
    let mut index = Hnsw::<2, Euclidean, 5>::new(42, cutoffs_for::<5>(0.5));
    for vector in scattered(1000) {
        index.insert(vector);
    }
    let mut copy = rebuilt(&index);
    assert!(copy.is_well_formed());
    assert_eq!(copy, index);
    let queries = scattered(1050);
    for query in &queries[1000..] {
        assert_eq!(answers(&index, query), answers(&copy, query));
    }
    // The copy goes on as the first does.
    for vector in &queries[..50] {
        index.insert(vector.clone());
        copy.insert(vector.clone());
    }
    assert_eq!(copy, index);
    assert_eq!(index.nodes.len(), 1050);
}

#[test]
fn a_built_index_is_well_formed() {
    let mut index = Hnsw::<2, Euclidean, 4>::new(9, cutoffs_for::<4>(0.5));
    assert!(index.is_well_formed());
    for vector in scattered(150) {
        index.insert(vector);
        assert!(index.is_well_formed());
    }
    for l in 0..4 {
        assert!(index.levels[l].is_well_formed(150));
        assert!(index.levels[l].len() == 0 || !index.levels[l].is_well_formed(1));
    }
}

fn line_index(levels: Vec<Level<1, OnALine>>, points: &[u32]) -> Hnsw<1, OnALine, 2> {
    Hnsw { nodes: line_store(points), levels, rng: LCGRng::new(1), level_cutoffs: [0, MODULUS] }
}

fn one_layer(nodes: &[(usize, &[(usize, u32)])]) -> Vec<Level<1, OnALine>> {
    vec![line_level(nodes), Level::default()]
}

#[test]
fn a_sound_index_made_by_hand_is_well_formed() {
    let index = line_index(one_layer(&[(0, &[(1, 5)]), (1, &[(0, 5)])]), &[10, 15]);
    assert!(index.is_well_formed());
    let found = index.nearest_neighbour_search(&vec![14]);
    assert_eq!(found[0].0.idx, NodeIdx::new(1));
    assert_eq!(found[0].1, 1);
}

#[test]
fn a_neighbour_outside_the_layer_is_not_well_formed() {
    let index = line_index(one_layer(&[(0, &[(2, 5)]), (1, &[])]), &[10, 15]);
    assert!(!index.is_well_formed());
}

#[test]
fn a_graph_node_without_a_stored_vector_is_not_well_formed() {
    let index = line_index(one_layer(&[(0, &[]), (2, &[])]), &[10, 15]);
    assert!(!index.is_well_formed());
}

#[test]
fn a_list_out_of_order_is_not_well_formed() {
    let index = line_index(one_layer(&[(0, &[(1, 9), (2, 5)]), (1, &[]), (2, &[])]), &[1, 2, 3]);
    assert!(!index.is_well_formed());
}

#[test]
fn a_repeated_neighbour_is_not_well_formed() {
    let index = line_index(one_layer(&[(0, &[(1, 5), (1, 9)]), (1, &[])]), &[10, 15]);
    assert!(!index.is_well_formed());
}

#[test]
fn a_graph_node_in_its_own_list_is_not_well_formed() {
    let index = line_index(one_layer(&[(0, &[(0, 0)]), (1, &[])]), &[10, 15]);
    assert!(!index.is_well_formed());
}

#[test]
fn a_vector_of_the_wrong_length_is_not_well_formed() {
    let mut index = line_index(one_layer(&[(0, &[])]), &[10]);
    index.nodes.push(Node { idx: NodeIdx::new(1), vec: vec![1, 2] });
    assert!(!index.is_well_formed());
}

#[test]
fn a_node_that_misstates_its_position_is_not_well_formed() {
    let mut index = line_index(one_layer(&[(0, &[])]), &[10]);
    index.nodes.push(Node { idx: NodeIdx::new(5), vec: vec![1] });
    assert!(!index.is_well_formed());
}

#[test]
fn a_wrong_number_of_layers_is_not_well_formed() {
    let index = line_index(vec![line_level(&[(0, &[])])], &[10]);
    assert!(!index.is_well_formed());
}

#[test]
fn broken_links_are_not_well_formed() {
    let linked = |child_of_top: Option<usize>, parent_of_bottom: Option<usize>, top_node: usize| {
        let mut bottom = Level::<1, OnALine>::default();
        bottom.graph.push(GraphNode::new(
            NodeIdx::new(0),
            vec![],
            parent_of_bottom.map(GraphNodeIdx::new),
            None,
        ));
        bottom.graph.push(GraphNode::new(NodeIdx::new(1), vec![], None, None));
        let mut top = Level::<1, OnALine>::default();
        top.graph.push(GraphNode::new(
            NodeIdx::new(top_node),
            vec![],
            None,
            child_of_top.map(GraphNodeIdx::new),
        ));
        line_index(vec![bottom, top], &[10, 15])
    };
    assert!(linked(Some(0), Some(0), 0).is_well_formed());
    // No link down from the upper layer.
    assert!(!linked(None, Some(0), 0).is_well_formed());
    // No link back up.
    assert!(!linked(Some(0), None, 0).is_well_formed());
    // The link down goes to the graph node of another vector.
    assert!(!linked(Some(0), Some(0), 1).is_well_formed());
    // The link down leaves the layer.
    assert!(!linked(Some(7), Some(0), 0).is_well_formed());
    // The link up leaves the layer.
    assert!(!linked(Some(0), Some(3), 0).is_well_formed());
    // A link down from layer 0.
    let mut index = linked(Some(0), Some(0), 0);
    index.levels[0].graph.push(GraphNode::new(NodeIdx::new(1), vec![], None, Some(GraphNodeIdx::new(0))));
    assert!(!index.is_well_formed());
}

#[test]
fn lists_are_strictly_ascending_where_no_two_are_equally_far() {
    // Points 1, 2, 4, 8, ... on a line: no two distances are equal.
    let mut index = Hnsw::<1, OnALine, 2>::new(42, [0, MODULUS]);
    for i in 0..18 {
        index.insert(vec![1 << i]);
    }
    for list in &lists_of(&index)[0] {
        assert!(list.windows(2).all(|w| w[0].1 < w[1].1));
    }
    assert_eq!(index.levels[0].len(), 18);
}

#[test]
fn equally_far_neighbours_stand_side_by_side() {
    let mut index = Hnsw::<1, OnALine, 2>::new(42, [0, MODULUS]);
    index.insert(vec![10]);
    index.insert(vec![7]);
    index.insert(vec![13]);
    assert_eq!(neighbours_of(&index.levels[0], 0), vec![(1, 3), (2, 3)]);
}

/// Every way between two different points leads through the point 0: the
/// distance is the sum of the two components.
#[derive(Debug, PartialEq)]
struct Spokes;

impl DistanceFunction<1> for Spokes {
    fn spec_distance(_x: VectorModel, _y: VectorModel) -> Distance {
        unreachable!()
    }

    fn distance(x: &Vec<u32>, y: &Vec<u32>) -> Distance {
        if x == y {
            0
        } else {
            x[0] + y[0]
        }
    }
}

#[test]
fn an_edge_can_lose_its_way_back_when_a_list_is_full() {
    // The hub at 0 is the entry point, and no search ever leaves it. Each
    // new point is nearer to the hub than those before.
    let mut index = Hnsw::<1, Spokes, 2>::new(42, [0, MODULUS]);
    index.insert(vec![0]);
    for i in 0..MAX_NEIGHBOURS as u32 {
        index.insert(vec![100 - i]);
    }
    let hub = neighbours_of(&index.levels[0], 0);
    assert_eq!(hub.len(), MAX_NEIGHBOURS);
    assert_eq!(hub[MAX_NEIGHBOURS - 1], (1, 100));
    assert_eq!(neighbours_of(&index.levels[0], 1)[0], (0, 100));
    // One point more: the hub drops its farthest neighbour, which keeps the
    // hub in its own list.
    index.insert(vec![80]);
    let hub = neighbours_of(&index.levels[0], 0);
    assert_eq!(hub.len(), MAX_NEIGHBOURS);
    assert_eq!(hub[0], (21, 80));
    assert!(hub.iter().all(|e| e.0 != 1));
    assert_eq!(neighbours_of(&index.levels[0], 1)[0], (0, 100));
    // The new graph node keeps the nearest 20 of the 21 that the search
    // found, and all 21 got it as a neighbour.
    let newest = neighbours_of(&index.levels[0], 21);
    assert_eq!(newest.len(), MAX_NEIGHBOURS);
    assert_eq!(newest[0], (0, 80));
    assert!(newest.iter().all(|e| e.0 != 1));
    assert!(neighbours_of(&index.levels[0], 1).contains(&(21, 180)));
    assert!(index.is_well_formed());
}
