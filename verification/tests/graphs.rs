use sbann::descent::KnnGraph;
use sbann::graph::{rerank_cascade_graph, GraphAdj, GraphPolicy, UnionRows};
use sbann::ibin::I8Bin;
use sbann::ivf::{build_ivf, build_pq_index, copy_rows, occupancy, pivot_rows};
use sbann::knn::{draw, first_row, rank_row, reverse, similarity, Edge};
use sbann::layout::bucket;
use sbann::order::{keep_smallest, place_into, sort_ascending};
use sbann::prune::{factor_of, prune_graph, prune_row, prune_two_way, stretch, Factor};
use sbann::refine::{cascade_prune, top_by_key, top_distinct_by_key};
use sbann::rerank::{dedup_pool_by_orig, offer, rerank_contig, rerank_survivors, topk_dedup, NO_POINT};
use sbann::router::Router;
use sbann::simd;
use sbann::table::IdTable;
use sbann::training::{even_children, flat_sample_size, level_counts, pair_cells, route_blocks, sample_size, step_down};

fn rows(n: usize, d: usize, salt: u64) -> Vec<i8> {
    let mut s = salt;
    (0..n * d)
        .map(|_| {
            s = s.wrapping_mul(6364136223846793005).wrapping_add(1442695040888963407);
            (((s >> 40) % 201) as i32 - 100) as i8
        })
        .collect()
}

#[test]
fn pools_are_ordered() {
    let mut v = vec![(3, 1u32), (1, 9), (3, 0), (-5, 2)];
    sort_ascending(&mut v);
    assert_eq!(v, vec![(-5, 2), (1, 9), (3, 0), (3, 1)]);
    place_into(&mut v, (1, 3));
    assert_eq!(v[1], (1, 3));
    keep_smallest(&mut v, 2);
    assert_eq!(v, vec![(-5, 2), (1, 3)]);
    keep_smallest(&mut v, 9);
    assert_eq!(v.len(), 2);
}

#[test]
fn id_tables_hold_their_keys() {
    let mut t = IdTable::with_cells(8);
    for k in [5u32, 13, 21, 0] {
        assert!(t.add_new(k, k + 1));
    }
    assert!(!t.add_new(13, 99));
    assert_eq!(t.get(13), Some(14));
    assert_eq!(t.get(29), None);
}

#[test]
fn reranking_is_exact_and_distinct() {
    let d = 4;
    let raw = rows(20, d, 3);
    let slot_orig: Vec<u32> = (0..20).map(|s| if s == 7 { NO_POINT } else { s / 2 }).collect();
    let q = rows(1, d, 4);
    let pool: Vec<(i32, u32)> = (0..20).map(|s| (0, s)).collect();
    let by_orig = rerank_contig(&raw, d, &slot_orig, &q, &pool, 10, true, false);
    let mut want: Vec<(i32, u32)> = (0..10).map(|o| (simd::l2_i8(&q, &raw[o as usize * d..o as usize * d + d]), o)).collect();
    want.sort();
    assert_eq!(by_orig, want.iter().map(|e| e.1).collect::<Vec<u32>>());
    let ids: Vec<(i32, u32)> = (0..20).map(|i| (0, i)).collect();
    let near = rerank_survivors(&raw, d, &q, &ids, 3);
    assert_eq!(near.len(), 3);
    let mut dup = vec![(9, 0u32), (4, 1), (6, 2), (5, 3)];
    dedup_pool_by_orig(&mut dup, &slot_orig);
    let mut left = dup.clone();
    left.sort();
    assert_eq!(left, vec![(4, 1), (5, 3)]);
    assert_eq!(topk_dedup(vec![(4, 7), (1, 3), (1, 3), (2, 7), (9, 1)], 2), vec![3, 7]);
    let mut h = Vec::new();
    for c in [(5, 1u32), (3, 2), (5, 1), (4, 3), (9, 4)] {
        offer(&mut h, 2, c);
    }
    assert_eq!(h, vec![(3, 2), (4, 3)]);
}

#[test]
fn float_keys_rank_like_floats() {
    let keys = [2.0f32, -1.0, 0.5, -1.0, 2.0];
    let scored: Vec<(u32, u32)> = keys.iter().enumerate().map(|(i, x)| (x.to_bits(), (i % 4) as u32)).collect();
    assert_eq!(top_by_key(&scored, 3), vec![1, 3, 2]);
    assert_eq!(top_distinct_by_key(&scored, 4), vec![1, 3, 2, 0]);
    let d = 2;
    let raw = [1i8, 0, 5, 0, 3, 0, 4, 0];
    let slot_orig = [0u32, 1, 2, 3];
    let pool: Vec<(i32, u32)> = (0..4).map(|s| (0, s)).collect();
    let kept = cascade_prune(&raw, d, false, &slot_orig, &[1, 0], pool, 0, 2);
    assert_eq!(kept.iter().map(|e| e.1).collect::<Vec<u32>>(), vec![1, 3]);
}

#[test]
fn graphs_widen_the_pool() {
    let d = 2;
    let data: Vec<i8> = (0..10).flat_map(|i| [i as i8 * 10, 1]).collect();
    let adj: Vec<u32> = (0..10u32).map(|i| (i + 1) % 10).collect();
    let mut bytes = Vec::new();
    sbann::bytes::push_words(&mut bytes, &adj);
    let graph = GraphAdj::load(&bytes, 10, 1);
    assert_eq!(graph.neighbours(9), &[0]);
    let src = UnionRows { rows: &data, raw: &[], raw_by_orig: false, d };
    let slot_orig: Vec<u32> = (0..10).collect();
    let policy = GraphPolicy { kedge: 1, m: 4, hops: 3, bestfirst: true };
    let pool = vec![(0, 5u32)];
    let got = rerank_cascade_graph(&src, 10, &slot_orig, &[1, 0], &pool, &graph, policy, 0);
    assert_eq!(got.iter().map(|e| e.1).collect::<Vec<u32>>(), vec![8, 7, 6, 5]);
    let shallow = GraphPolicy { hops: 2, ..policy };
    let fewer = rerank_cascade_graph(&src, 10, &slot_orig, &[1, 0], &pool, &graph, shallow, 0);
    assert!(fewer.iter().all(|e| got.contains(e)));
    assert!(fewer.len() < got.len());
    let cut = rerank_cascade_graph(&src, 10, &slot_orig, &[1, 0], &pool, &graph, policy, 2);
    assert_eq!(cut, vec![(-80, 8), (-70, 7)]);
}

#[test]
fn descent_finds_the_neighbours() {
    let (n, d, k) = (120usize, 4usize, 8usize);
    let data = rows(n, d, 11);
    let ds = I8Bin { nb: n, d, data: &data };
    let mut g = KnnGraph::start(&ds, true, k, &Vec::new(), 0, 0, 1);
    let mut last = u64::MAX;
    for r in 0..12u64 {
        let (next, updates) = g.round(&ds, true, 24, r, 1);
        g = next;
        if updates == 0 {
            last = 0;
            break;
        }
        last = updates;
    }
    assert!(last < (n * k) as u64);
    let flat = g.flat();
    assert_eq!(flat.len(), n * k);
    let mut hits = 0;
    for v in 0..n {
        let mut all: Vec<(i32, u32)> = (0..n).filter(|&w| w != v).map(|w| (simd::l2_i8(ds.row(v), ds.row(w)), w as u32)).collect();
        all.sort();
        let row = &flat[v * k..v * k + k];
        assert!(!row.contains(&(v as u32)));
        hits += row.iter().filter(|w| all[..k].iter().any(|e| e.1 == **w)).count();
        let sims: Vec<i32> = row.iter().map(|&w| similarity(true, ds.row(v), ds.row(w as usize))).collect();
        assert!(sims.windows(2).all(|s| s[0] >= s[1]));
    }
    assert!(hits * 100 >= n * k * 90, "{hits}");
    let row = first_row(&[3, 3, 999], 5, 10, 4);
    assert_eq!(row[0], 3);
    assert_eq!(row.len(), 4);
    assert_ne!(draw(1), draw(2));
}

fn pruned_by_floats(ds: &I8Bin<'_>, v: usize, ids: &[u32], alpha: f64, r: usize) -> Vec<u32> {
    let mut cand: Vec<(i64, u32)> = Vec::new();
    for &w in ids {
        if w as usize != v && w != u32::MAX && !cand.iter().any(|c| c.1 == w) {
            cand.push((simd::l2_i8(ds.row(v), ds.row(w as usize)) as i64, w));
        }
    }
    cand.sort();
    let f = alpha * alpha;
    let mut keep: Vec<u32> = Vec::new();
    for &(dv, w) in &cand {
        if keep.len() >= r {
            break;
        }
        if !keep.iter().any(|&p| f * simd::l2_i8(ds.row(p as usize), ds.row(w as usize)) as f64 <= dv as f64) {
            keep.push(w);
        }
    }
    for &(_, w) in &cand {
        if keep.len() >= r {
            break;
        }
        if !keep.contains(&w) {
            keep.push(w);
        }
    }
    while keep.len() < r {
        let last = keep.last().copied().unwrap_or(v as u32);
        keep.push(last);
    }
    keep
}

#[test]
fn pruning_matches_double_precision() {
    let (n, d) = (60usize, 3usize);
    let data = rows(n, d, 21);
    let ds = I8Bin { nb: n, d, data: &data };
    for alpha in [1.0f64, 1.1, 1.2, 1.7, 30.0, 67108864.0, 1e12, 1e160, 1e300, f64::MAX, f64::INFINITY] {
        let f = stretch(alpha.to_bits(), true).unwrap();
        for v in 0..n {
            let ids: Vec<u32> = (0..n as u32).filter(|w| (w * 7 + v as u32) % 3 != 0).collect();
            assert_eq!(prune_row(&ds, true, f, v, &ids, 6), pruned_by_floats(&ds, v, &ids, alpha, 6), "alpha={alpha} v={v}");
        }
    }
    assert!(stretch(0.9f64.to_bits(), true).is_none());
    assert!(stretch(f64::NAN.to_bits(), true).is_none());
    assert!(stretch(f64::NEG_INFINITY.to_bits(), true).is_none());
    assert_eq!(stretch(1e160f64.to_bits(), true), Some(Factor::Infinite));
    assert!(matches!(stretch(1e160f64.to_bits(), false), Some(Factor::Finite { .. })));
    let f = stretch(1.2f64.to_bits(), true).unwrap();
    let wide: Vec<u32> = (0..n).flat_map(|v| (1..=10u32).map(move |j| (v as u32 + j) % n as u32)).collect();
    let first = prune_graph(&ds, true, f, &wide, 10, 4);
    assert_eq!(first.len(), n * 4);
    let second = prune_two_way(&ds, true, f, &first, 4, 64);
    assert_eq!(second.len(), n * 4);
    assert!(second.iter().all(|&w| (w as usize) < n));
}

#[test]
fn trees_nest_and_sample() {
    assert_eq!(level_counts(&vec![4, 10, 3]), vec![4, 8, 8]);
    assert_eq!(level_counts(&vec![0]), vec![1]);
    assert_eq!(flat_sample_size(10, 4), 10);
    assert_eq!(flat_sample_size(1_000_000, 4), 200_000);
    assert_eq!(sample_size(50, &vec![4, 8]), 50);
    assert_eq!(even_children(3, 2), vec![0, 2, 4, 6]);
    let cell = vec![1u32, 0, 1];
    let groups = bucket(&cell, 1, 2);
    assert_eq!(step_down(&cell, &groups, &vec![2, 0, 1], 2, 3), vec![3, 2, 4]);
    assert_eq!(pair_cells(&vec![1, 0], &vec![2, 3], 2, 4), vec![6, 3]);
    let codes: Vec<u8> = (0..64).map(|i| (i % 16) as u8).collect();
    let blocks = route_blocks(&codes, 16, 4);
    assert_eq!(blocks.len(), 32);
    assert_eq!(blocks[1], codes[4] | (codes[5] << 4));
    assert_eq!(blocks[16 + 3], codes[14] | (codes[15] << 4));
}

#[test]
fn inverted_files_search_their_cells() {
    let (n, d) = (200usize, 4usize);
    let data = rows(n, d, 31);
    let ds = I8Bin { nb: n, d, data: &data };
    let ivf = build_ivf(&ds, 8, 2);
    assert_eq!(ivf.cells.ids.len(), 2 * n);
    let counts = ivf.cell_counts();
    assert_eq!(counts.iter().map(|&c| c as usize).sum::<usize>(), 2 * n);
    let (full, most) = occupancy(&counts);
    assert!(full <= 8 && most as usize >= 2 * n / 8);
    let pivots = pivot_rows(8, n);
    assert_eq!(ivf.router.pivots, copy_rows(&ds, &pivots));
    let q = rows(1, d, 32);
    let got = ivf.search(&ds, &q, &q, 8, 10);
    let mut all: Vec<(i32, u32)> = (0..n).map(|i| (simd::l2_i8(&q, ds.row(i)), i as u32)).collect();
    all.sort();
    assert_eq!(got, all.iter().take(10).map(|e| e.1).collect::<Vec<u32>>());
    let m = 4;
    let codes: Vec<u8> = (0..n * m).map(|i| ((data[i] as i32 + 128) / 16) as u8).collect();
    let idx = build_pq_index(&ivf, &codes, m, n);
    let lut: Vec<i8> = (0..m * 16).map(|j| (((j % 16) as i32 * 16 - 120 - q[j / 16] as i32).abs() / 4).min(127) as i8).collect();
    let cells = ivf.router.probe(&q, &q, 8);
    assert_eq!(idx.search(8, &lut, &ds, &q, &cells, 0, 10), got);
    assert_eq!(idx.search(8, &lut, &ds, &q, &cells, 40, 3).len(), 3);
}

#[test]
fn edges_are_ranked_and_reversed() {
    let (n, d) = (12usize, 3usize);
    let data = rows(n, d, 51);
    let ds = I8Bin { nb: n, d, data: &data };
    let ids: Vec<u32> = (1..n as u32).collect();
    let row = rank_row(&ds, true, 0, &ids, 1);
    let mut want: Vec<(i32, u32)> = ids.iter().map(|&w| (simd::l2_i8(ds.row(0), ds.row(w as usize)), w)).collect();
    want.sort();
    assert_eq!(row.len(), n - 1);
    for (e, w) in row.iter().zip(&want) {
        assert_eq!(simd::l2_i8(ds.row(0), ds.row(e.id as usize)), w.0);
        assert_eq!(e.sim, similarity(true, ds.row(0), ds.row(e.id as usize)));
    }
    let graph: Vec<Vec<Edge>> = (0..n as u32).map(|v| vec![Edge { sim: 0, id: (v + 1) % n as u32, fresh: 0 }, Edge { sim: 0, id: 0, fresh: 0 }]).collect();
    let back = reverse(&graph, 100, 9);
    for v in 1..n {
        assert_eq!(back.lists[v], vec![v as u32 - 1]);
    }
    assert_eq!(back.lists[0].len(), n + 1);
    assert_eq!(reverse(&graph, 3, 9).lists[0].len(), 3);
}

#[test]
fn factors_are_spelled_by_doubles() {
    for x in [1.0f64, 1.5, 1.2, 67108864.0, 1e9, 1e15, 1e200, f64::MAX] {
        match factor_of(x.to_bits()) {
            Some(Factor::Finite { m, e }) => assert_eq!(m as f64 * 2f64.powi(-e), x),
            other => panic!("{x}: {other:?}"),
        }
    }
    assert_eq!(factor_of(f64::INFINITY.to_bits()), Some(Factor::Infinite));
    assert!(factor_of(0.99f64.to_bits()).is_none());
    assert!(factor_of((-1.5f64).to_bits()).is_none());
    assert!(factor_of(f64::NAN.to_bits()).is_none());
}

#[test]
fn coincident_points_survive_an_infinite_factor() {
    let data = vec![0i8, 0, 3, 4, 3, 4, -9, 9];
    let ds = I8Bin { nb: 4, d: 2, data: &data };
    let unit = stretch(1.0f64.to_bits(), true).unwrap();
    let all = vec![1u32, 2, 3];
    assert_eq!(prune_row(&ds, true, unit, 0, &all, 2), vec![1, 3]);
    assert_eq!(prune_row(&ds, true, Factor::Infinite, 0, &all, 2), vec![1, 2]);
}

#[test]
fn copies_crowd_no_other_point_out() {
    let mut cand = vec![(1, 7u32); 6];
    cand.push((2, 8));
    assert_eq!(topk_dedup(cand.clone(), 2), vec![7, 8]);
    assert_eq!(topk_dedup(cand.clone(), 9), vec![7, 8]);
    assert_eq!(topk_dedup(cand, 0), Vec::<u32>::new());
    assert_eq!(topk_dedup(Vec::new(), 0), Vec::<u32>::new());
}

#[test]
fn a_second_reduction_changes_nothing() {
    let slot_orig: Vec<u32> = (0..60).map(|i| (i * 7 % 11) as u32).collect();
    let mut pool: Vec<(i32, u32)> = (0..60).map(|i| ((i * 31 % 17) as i32, i as u32)).collect();
    dedup_pool_by_orig(&mut pool, &slot_orig);
    let mut ids: Vec<u32> = pool.iter().map(|e| slot_orig[e.1 as usize]).collect();
    ids.sort();
    assert_eq!(ids, (0..11).collect::<Vec<u32>>());
    let once = pool.clone();
    dedup_pool_by_orig(&mut pool, &slot_orig);
    assert_eq!(pool, once);
}
