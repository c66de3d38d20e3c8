use sbann::batch::{fill_route, probe_batch};
use sbann::compress::{scan_table, Compressor, QueryCtx, ScalarI8};
use sbann::floatrank::{best_by_score, GraphStep, NarrowKnobs};
use sbann::graph::{GraphAdj, GraphPolicy};
use sbann::hier::{HierRouter, RouteKnobs};
use sbann::ibin::I8Bin;
use sbann::image::RouterImage;
use sbann::index::{Index, ScanKnobs};
use sbann::layout::bucket;
use sbann::pq::{pack_rows, Pq};
use sbann::rerank::NO_POINT;
use sbann::router::{FlatIvf, Router};
use sbann::simd;
use sbann::spill::{second_cell, spill};

const D: usize = 8;
const N: usize = 300;
const CELLS: usize = 6;

fn rows(n: usize, salt: u64) -> Vec<i8> {
    let mut s = salt;
    (0..n * D)
        .map(|_| {
            s = s.wrapping_mul(6364136223846793005).wrapping_add(1442695040888963407);
            (((s >> 40) % 201) as i32 - 100) as i8
        })
        .collect()
}

fn view(data: &[i8]) -> I8Bin<'_> {
    I8Bin { nb: data.len() / D, d: D, data }
}

/// One code per coordinate: its upper four bits. The table holds coarse distances to the middle of
/// each code.
struct Nibbles;

impl Compressor for Nibbles {
    fn block_bytes(&self) -> usize {
        D / 2 * 16
    }

    fn needs_raw_rows(&self) -> bool {
        false
    }

    fn dimension(&self) -> usize {
        D
    }

    fn encode_block(&self, rows: &Vec<&[i8]>, cell_cent: &[i8], out: &mut Vec<u8>) {
        let codes = rows
            .iter()
            .map(|r| {
                (0..D)
                    .map(|k| {
                        let c = if cell_cent.is_empty() { 0 } else { cell_cent[k] as i32 };
                        ((r[k] as i32 - c + 256) / 32).clamp(0, 15) as u8
                    })
                    .collect()
            })
            .collect();
        pack_rows(codes, D, out);
    }

    fn prepare_query(&self, q: &[i8]) -> QueryCtx {
        let mut lut = Vec::new();
        for k in 0..D {
            for c in 0..16i32 {
                let mid = c * 32 - 240;
                lut.push(((q[k] as i32 - mid).abs() / 4).min(127) as i8);
            }
        }
        QueryCtx::Pq8 { lut, scale: 0 }
    }

    fn scan_block(&self, block: &[u8], ctx: &QueryCtx, _q: &[i8], _rows16: &Vec<&[i8]>, out16: &mut [i32; 16]) {
        scan_table(block, D, ctx, out16);
    }

    fn residual_offset(&self, _ctx: &QueryCtx, dot: i32) -> Option<i32> {
        Some(dot / 100)
    }
}

fn router(data: &[i8]) -> FlatIvf {
    FlatIvf { d: D, c: CELLS, pivots: data[..CELLS * D].to_vec() }
}

fn assign<R: Router>(r: &R, ds: &I8Bin<'_>, a0: usize) -> Vec<u32> {
    let mut all = Vec::new();
    for i in 0..ds.nb {
        let mut out = Vec::new();
        r.assign(ds.row(i), ds.row(i), a0, &mut out);
        assert_eq!(out.len(), a0);
        all.extend(out);
    }
    all
}

fn knobs() -> ScanKnobs {
    ScanKnobs { fused: false, sort_cells: false, dedup_a0: 2, pool_dedup: false, use512: false, residq: false, ip: false }
}

fn build<C: Compressor>(data: &[i8], comp: C, a0: usize, raw_dedup: bool, use512: bool) -> Index<FlatIvf, C> {
    let ds = view(data);
    let r = router(data);
    let a = assign(&r, &ds, a0);
    Index::build(r, comp, &ds, &a, a0, Vec::new(), None, raw_dedup, use512)
}

fn brute(data: &[i8], q: &[i8], k: usize, ip: bool, skip: &[u32]) -> Vec<u32> {
    let ds = view(data);
    let mut all: Vec<(i32, u32)> = (0..ds.nb)
        .filter(|i| !skip.contains(&(*i as u32)))
        .map(|i| (if ip { simd::negdot_i8(q, ds.row(i)) } else { simd::l2_i8(q, ds.row(i)) }, i as u32))
        .collect();
    all.sort();
    all.iter().take(k).map(|e| e.1).collect()
}

#[test]
fn exhaustive_search_is_brute_force() {
    let data = rows(N, 1);
    let ds = view(&data);
    let queries = rows(20, 2);
    for a0 in [1, 2] {
        let exact = build(&data, ScalarI8::new(D), a0, false, false);
        let coded = build(&data, Nibbles, a0, true, false);
        for ip in [false, true] {
            for i in 0..20 {
                let q = &queries[i * D..i * D + D];
                let kn = ScanKnobs { ip, ..knobs() };
                let want = brute(&data, q, 10, ip, &[]);
                assert_eq!(exact.search(&ds, q, q, CELLS, 0, 10, kn), want);
                assert_eq!(coded.search(&ds, q, q, CELLS, 0, 10, kn), want);
            }
        }
        let q = &queries[..D];
        assert_eq!(coded.search(&ds, q, q, CELLS, 0, N + 50, knobs()), brute(&data, q, N + 50, false, &[]));
        assert!(coded.search(&ds, q, q, CELLS, 0, 0, knobs()).is_empty());
    }
}

#[test]
fn an_exact_scan_keeps_the_nearest_under_any_cap() {
    let data = rows(N, 3);
    let ds = view(&data);
    let ix = build(&data, ScalarI8::new(D), 1, false, false);
    let q = rows(1, 4);
    for t in [1usize, 5, 10, 64] {
        let got = ix.search(&ds, &q, &q, CELLS, t, 10, knobs());
        assert_eq!(got, brute(&data, &q, t.min(10), false, &[]));
    }
}

#[test]
fn speed_settings_change_no_answer() {
    let data = rows(N, 5);
    let ds = view(&data);
    let queries = rows(12, 6);
    let plain = build(&data, Nibbles, 1, false, false);
    let dedup = build(&data, Nibbles, 1, true, false);
    let wide = build(&data, Nibbles, 1, false, true);
    assert!(!wide.blocks_il.is_empty());
    assert_eq!(dedup.raw, data);
    for i in 0..12 {
        let q = &queries[i * D..i * D + D];
        for p in [1, 3, CELLS] {
            for t in [7usize, 40, 200] {
                let want = plain.search(&ds, q, q, p, t, 10, knobs());
                assert_eq!(plain.search(&ds, q, q, p, t, 10, ScanKnobs { fused: true, ..knobs() }), want);
                assert_eq!(plain.search(&ds, q, q, p, t, 10, ScanKnobs { sort_cells: true, ..knobs() }), want);
                assert_eq!(dedup.search(&ds, q, q, p, t, 10, knobs()), want);
                assert_eq!(wide.search(&ds, q, q, p, t, 10, ScanKnobs { use512: true, ..knobs() }), want);
            }
        }
    }
}

#[test]
fn copies_of_a_point_are_answered_once() {
    let data = rows(N, 7);
    let ds = view(&data);
    let ix = build(&data, Nibbles, 2, false, false);
    let queries = rows(10, 8);
    for i in 0..10 {
        let q = &queries[i * D..i * D + D];
        let mut got = ix.search(&ds, q, q, CELLS, 40, 10, knobs());
        assert_eq!(got.len(), 10);
        got.sort();
        got.dedup();
        assert_eq!(got.len(), 10);
        let ds_only = ix.search_ds(&ds, q, q, CELLS, 0, 10);
        assert_eq!(ds_only, brute(&data, q, 10, false, &[]));
    }
}

#[test]
fn batches_answer_like_single_queries() {
    let data = rows(N, 9);
    let ds = view(&data);
    let ix = build(&data, Nibbles, 1, false, false);
    let queries = rows(9, 10);
    let all = ix.search_batch(&ds, &queries, &queries, 9, 3, 50, 10, knobs());
    let cells: Vec<Vec<u32>> = (0..9).map(|i| ix.router.probe(&queries[i * D..i * D + D], &queries[i * D..i * D + D], 3)).collect();
    let ctxs: Vec<QueryCtx> = (0..9).map(|i| ix.prepare_query_pub(&queries[i * D..i * D + D])).collect();
    let pools = ix.batch_pools(&ds, &queries, &cells, &ctxs, 50, false);
    let flat = probe_batch(&ix.router, &queries, &queries, 9, D, 3);
    let wide = probe_batch(&ix.router, &queries, &queries, 9, D, CELLS + 2);
    for i in 0..9 {
        let q = &queries[i * D..i * D + D];
        assert_eq!(all[i], ix.search(&ds, q, q, 3, 50, 10, knobs()));
        assert_eq!(pools[i], ix.scan_pool_fused(&ds, q, &cells[i], &ctxs[i], 50, false));
        assert_eq!(&flat[i * 3..i * 3 + 3], &cells[i][..]);
        let row = &wide[i * (CELLS + 2)..(i + 1) * (CELLS + 2)];
        assert_eq!(&row[CELLS..], &[0, 0]);
        let mut seen = row[..CELLS].to_vec();
        seen.sort();
        assert_eq!(seen, (0..CELLS as u32).collect::<Vec<u32>>());
    }
}

#[test]
fn a_second_ranking_narrows_the_rerank() {
    let data = rows(N, 11);
    let ds = view(&data);
    let ix = build(&data, Nibbles, 1, false, false);
    let q = rows(1, 12);
    let cells: Vec<u32> = (0..CELLS as u32).collect();
    assert_eq!(ix.scan_rerank_resid(&ds, &q, &cells, 0, 0, 10, false, false), brute(&data, &q, 10, false, &[]));
    let ctx = ix.prepare_query_pub(&q);
    let pool = ix.resid_pool(&ds, &q, &cells, &ctx, 60, false);
    assert_eq!(pool.len(), 60);
    let shallow = ix.scan_rerank_resid(&ds, &q, &cells, 60, 5, 10, false, false);
    assert_eq!(shallow.len(), 5);
    let keys: Vec<u32> = pool.iter().map(|&(_, s)| (simd::l2_i8(&q, ds.row(ix.slot_orig[s as usize] as usize)) as f32).to_bits()).collect();
    let refined = ix.rerank_refined(&q, &pool, Some(&keys), 5, 5, false);
    let mut best: Vec<(i32, u32)> = pool.iter().map(|&(_, s)| ix.slot_orig[s as usize]).map(|o| (simd::l2_i8(&q, ds.row(o as usize)), o)).collect();
    best.sort();
    assert_eq!(refined, best.iter().take(5).map(|e| e.1).collect::<Vec<u32>>());
}

#[test]
fn residual_cells_shift_their_scores() {
    let data = rows(N, 13);
    let ds = view(&data);
    let r = router(&data);
    let a = assign(&r, &ds, 1);
    let cents = sbann::layout::cell_centroids(&ds, &a, 1, CELLS);
    let ix = Index::build(r, Nibbles, &ds, &a, 1, cents.clone(), None, false, false);
    let q = rows(1, 14);
    let ctx = ix.prepare_query_pub(&q);
    let cells: Vec<u32> = (0..CELLS as u32).collect();
    let shifted = ix.scan_pool(&ds, &q, &cells, &ctx, false);
    let plain = ix.resid_pool(&ds, &q, &cells, &ctx, 0, false);
    assert_eq!(shifted.len(), N);
    for (s, p) in shifted.iter().zip(plain.iter()) {
        assert_eq!(s.1, p.1);
        let cell = a[ix.slot_orig[s.1 as usize] as usize] as usize;
        assert_eq!(s.0, p.0 - simd::dot_i8_avx2(&q, &cents[cell * D..cell * D + D]) / 100);
    }
}

#[test]
fn adaptive_search_stops_and_counts_cells() {
    let data = rows(N, 15);
    let ds = view(&data);
    let ix = build(&data, ScalarI8::new(D), 1, false, false);
    let q = rows(1, 16);
    let (ids, used) = ix.search_adaptive(&ds, &q, &q, CELLS, 0, 10, 1, 100);
    assert_eq!(used, CELLS);
    assert_eq!(ids, brute(&data, &q, 10, false, &[]));
    let (_, few) = ix.search_adaptive(&ds, &q, &q, CELLS, 0, 1, 1, 1);
    assert!(few >= 1 && few <= CELLS);
    let cells = ix.router.probe_ranked(&q, CELLS);
    assert_eq!(ix.cell_cand_count(&cells), ix.slot_orig.iter().filter(|&&o| o != NO_POINT).count());
    assert_eq!(ix.cell_cand_count(&cells), N);
    let mut less = build(&data, ScalarI8::new(D), 1, false, false);
    assert!(less.delete(3) && less.delete(4));
    assert_eq!(less.cell_cand_count(&cells), N - 2);
    assert_eq!(less.cell_cand_count(&[]), 0);
}

#[test]
fn every_point_has_its_slots_after_a_build() {
    let data = rows(N, 71);
    for a0 in [1, 2, 3] {
        let ix = build(&data, Nibbles, a0, false, false);
        for o in 0..N as u32 {
            assert_eq!(ix.slot_orig.iter().filter(|&&s| s == o).count(), a0);
        }
        assert_eq!(ix.cell_bstart[0], 0);
        assert_eq!(ix.slot_orig.len(), 16 * ix.cell_bstart[CELLS] as usize);
        for c in 0..CELLS {
            let (a, b) = (ix.cell_bstart[c] as usize, ix.cell_bstart[c + 1] as usize);
            assert!(a <= b);
            let slots = &ix.slot_orig[16 * a..16 * b];
            let n = slots.iter().filter(|&&o| o != NO_POINT).count();
            assert!(slots.len() - n < 16);
            assert!(slots[..n].windows(2).all(|w| w[0] <= w[1] && w[1] != NO_POINT));
        }
    }
}

#[test]
fn a_deletion_takes_every_copy() {
    let data = rows(N, 73);
    let init = view(&data);
    let q = init.row(7);
    let mut ix = build(&data, Nibbles, 2, false, false);
    ix.insert(init.row(7), init.row(7), 7, 1);
    ix.insert(init.row(7), init.row(7), 900, 1);
    ix.insert(init.row(8), init.row(8), 900, 2);
    ix.finalize_inserts();
    assert!(ix.search_stream(&init, q, q, CELLS, 0, 2, knobs()).contains(&900));
    assert!(ix.delete(900));
    assert!(!ix.delete(900));
    assert!(ix.delete(7));
    assert!(!ix.delete(7));
    assert_eq!(ix.ins_count, 0);
    assert!(!ix.slot_orig.contains(&7));
    let left = ix.search_stream(&init, q, q, CELLS, 0, N, knobs());
    assert_eq!(left, brute(&data, q, N, false, &[7]));
    assert!(!ix.delete(NO_POINT));
}

#[test]
fn streams_answer_in_order_of_distance() {
    let data = rows(N, 75);
    let first = &data[..200 * D];
    let init = view(first);
    let whole = view(&data);
    let mut ix = build(first, Nibbles, 1, false, false);
    for j in 200..N {
        ix.insert(whole.row(j), whole.row(j), j as u32, 1);
    }
    ix.finalize_inserts();
    let queries = rows(6, 76);
    for i in 0..6 {
        let q = &queries[i * D..i * D + D];
        for p in [1, 2, 3] {
            let got = ix.search_stream(&init, q, q, p, 0, 20, knobs());
            let far: Vec<(i32, u32)> = got.iter().map(|&o| (simd::l2_i8(q, whole.row(o as usize)), o)).collect();
            assert!(!far.is_empty());
            assert!(far.windows(2).all(|w| w[0] < w[1]));
        }
        assert_eq!(ix.search_stream(&init, q, q, CELLS, 0, 0, knobs()), Vec::<u32>::new());
    }
}

#[test]
fn a_clean_cut_gives_the_same_distances_from_the_base_rows() {
    let data = rows(N, 77);
    let ds = view(&data);
    let ix = build(&data, ScalarI8::new(D), 1, false, false);
    let queries = rows(8, 78);
    let far = |q: &[i8], ids: &[u32]| ids.iter().map(|&o| simd::l2_i8(q, ds.row(o as usize))).collect::<Vec<i32>>();
    for i in 0..8 {
        let q = &queries[i * D..i * D + D];
        let mut all = far(q, &(0..N as u32).collect::<Vec<u32>>());
        all.sort();
        for t in [20, 21, 22, 23] {
            if all[t - 1] < all[t] {
                assert_eq!(far(q, &ix.search_ds(&ds, q, q, CELLS, t, 10)), far(q, &ix.search(&ds, q, q, CELLS, t, 10, knobs())));
            }
        }
    }
}

#[test]
fn stream_follows_inserts_and_deletions() {
    let data = rows(N, 17);
    let first = &data[..200 * D];
    let init = view(first);
    let whole = view(&data);
    let mut ix = build(first, Nibbles, 1, false, false);
    let queries = rows(8, 18);
    for j in 200..N {
        ix.insert(whole.row(j), whole.row(j), j as u32, 1);
    }
    ix.finalize_inserts();
    assert_eq!(ix.ins_count, 100);
    for i in 0..8 {
        let q = &queries[i * D..i * D + D];
        assert_eq!(ix.search_stream(&init, q, q, CELLS, 0, 10, knobs()), brute(&data, q, 10, false, &[]));
    }
    let mut gone: Vec<u32> = Vec::new();
    for id in (0..N as u32).step_by(7) {
        assert!(ix.delete(id));
        gone.push(id);
    }
    assert!(!ix.delete(0));
    assert!(!ix.delete(5_000));
    for i in 0..8 {
        let q = &queries[i * D..i * D + D];
        assert_eq!(ix.search_stream(&init, q, q, CELLS, 0, 10, knobs()), brute(&data, q, 10, false, &gone));
    }
    ix.insert(whole.row(7), whole.row(7), 7, 1);
    ix.finalize_inserts();
    let near = whole.row(7);
    assert_eq!(ix.search_stream(&init, near, near, CELLS, 0, 1, knobs()), vec![7]);
}

fn tree(data: &[i8], vnni: bool, beam: usize) -> HierRouter {
    let ds = view(data);
    let knobs = RouteKnobs { sdim: 0, sdim0: 0, vnni, beam0: 0, adc_keep: 0 };
    HierRouter::train(&ds, 24, 4, beam, vec![0u32; D], knobs)
}

#[test]
fn descents_route_to_the_nearest_cells() {
    let data = rows(N, 19);
    let full = tree(&data, true, 4);
    let same = tree(&data, false, 4);
    let narrow = tree(&data, true, 1);
    assert_eq!(full.n_cells(), 24);
    let queries = rows(10, 20);
    for i in 0..10 {
        let q = &queries[i * D..i * D + D];
        let got = full.probe(q, q, 5);
        assert_eq!(got, same.probe(q, q, 5));
        let mut all: Vec<(i32, u32)> = (0..24u32).map(|c| (simd::l2_i8(q, &full.cent[1][c as usize * D..(c as usize + 1) * D]), c)).collect();
        all.sort();
        assert_eq!(got, all.iter().take(5).map(|e| e.1).collect::<Vec<u32>>());
        let mut few = narrow.probe(q, q, 24);
        let n = few.len();
        few.sort();
        few.dedup();
        assert_eq!(few.len(), n);
        assert!(n <= 24);
        let cands = full.spill_candidates(q, None, None, 3);
        assert_eq!(cands[0].1, all[0].1);
        assert_eq!(cands.len(), 24);
    }
}

#[test]
fn spilling_keeps_the_nearest_cell_first() {
    let cands = vec![(5, 9u32), (7, 2), (8, 4), (9, 1)];
    let losses: Vec<u32> = [3.0f32, -1.0, 2.0].iter().map(|x| x.to_bits()).collect();
    assert_eq!(spill(&cands, &losses, 1), vec![9]);
    assert_eq!(spill(&cands, &losses, 3), vec![9, 4, 1]);
    assert_eq!(spill(&cands, &losses, 9), vec![9, 4, 1, 2]);
    assert!(spill(&Vec::new(), &Vec::new(), 2).is_empty());
    let bits = |v: &[f32]| v.iter().map(|x| x.to_bits()).collect::<Vec<u32>>();
    assert_eq!(second_cell(&bits(&[1.0, 5.0, -2.0, -2.0]), 0), 2);
    assert_eq!(second_cell(&bits(&[1.0, 0.0, -0.0]), 0), 1);
    assert_eq!(second_cell(&bits(&[1.0, f32::NAN, f32::INFINITY]), 0), 0);
    assert_eq!(second_cell(&bits(&[1.0, f32::NEG_INFINITY]), 0), 1);
    assert_eq!(second_cell(&bits(&[1.0]), 0), 0);
}

#[test]
fn assignments_are_listed_from_the_index() {
    let data = rows(N, 21);
    let ds = view(&data);
    let ix = build(&data, Nibbles, 1, false, false);
    let a = assign(&ix.router, &ds, 1);
    let pairs = ix.dump_assignments();
    assert_eq!(pairs.len(), 2 * N);
    for p in pairs.chunks(2) {
        assert_eq!(a[p[0] as usize], p[1]);
    }
    let sizes = ix.cell_occupancy();
    for c in 0..CELLS {
        assert_eq!(sizes[c] as usize, a.iter().filter(|&&x| x as usize == c).count());
    }
    assert_eq!(ix.slot_orig.iter().filter(|&&o| o != NO_POINT).count(), N);
}

fn float_answer(data: &[i8], q: &[i8], ids: &Vec<u32>, k: usize) -> Vec<u32> {
    let ds = view(data);
    let keys = ids.iter().map(|&o| (simd::negdot_i8(q, ds.row(o as usize)) as f32).to_bits()).collect();
    best_by_score(ids, &keys, k)
}

#[test]
fn float_stages_narrow_the_survivors() {
    let data = rows(N, 31);
    let ds = view(&data);
    let queries = rows(12, 32);
    let ix = build(&data, Nibbles, 1, true, false);
    let kn = ScanKnobs { fused: true, ..knobs() };
    let none = NarrowKnobs { cascade: false, cdim: 0, kk: 0 };
    let some = NarrowKnobs { cascade: true, cdim: 0, kk: 12 };
    for i in 0..12 {
        let q = &queries[i * D..i * D + D];
        // all survivors of all cells hold the best points
        let all = ix.search_frr(&ds, q, q, CELLS, N, kn, None, none);
        assert_eq!(all.len(), N);
        assert_eq!(float_answer(&data, q, &all, 10), brute(&data, q, 10, true, &[]));
        // the int8 stage ranks exactly here, so twelve points are enough
        let few = ix.search_frr(&ds, q, q, CELLS, N, kn, None, some);
        assert_eq!(few.len(), 12);
        assert_eq!(float_answer(&data, q, &few, 10), brute(&data, q, 10, true, &[]));
        // fewer survivors: a part of them
        let part = ix.search_frr(&ds, q, q, 2, 20, kn, None, none);
        assert_eq!(part.len(), 20);
        assert!(part.iter().all(|o| all.contains(o)));
    }
}

#[test]
fn float_batches_read_the_same_points() {
    let data = rows(N, 41);
    let ds = view(&data);
    let queries = rows(9, 42);
    let ix = build(&data, Nibbles, 1, false, false);
    let adj = GraphAdj { k: 2, adj: (0..N as u32).flat_map(|i| [(i + 1) % N as u32, (i + 7) % N as u32]).collect() };
    let policy = GraphPolicy { kedge: 2, m: 3, hops: 2, bestfirst: false };
    let step = GraphStep { adj: &adj, policy };
    for graph in [None, Some(step)] {
        for cascade in [false, true] {
            let how = NarrowKnobs { cascade, cdim: 0, kk: 15 };
            let batch = ix.search_batch_frr(&ds, &queries, &queries, 9, 3, 25, graph, how, false);
            assert_eq!(batch.len(), 9);
            for sort_cells in [false, true] {
                let kn = ScanKnobs { fused: true, sort_cells, ..knobs() };
                for i in 0..9 {
                    let q = &queries[i * D..i * D + D];
                    assert_eq!(batch[i], ix.search_frr(&ds, q, q, 3, 25, kn, graph, how));
                }
            }
        }
    }
    // the graph reaches points that the scan did not
    let q = &queries[..D];
    let kn = ScanKnobs { fused: true, ..knobs() };
    let how = NarrowKnobs { cascade: true, cdim: 0, kk: 0 };
    let plain = ix.search_frr(&ds, q, q, 1, 5, kn, None, how);
    let wide = ix.search_frr(&ds, q, q, 1, 5, kn, Some(step), how);
    assert!(plain.iter().all(|o| wide.contains(o)));
    assert!(wide.len() > plain.len());
    // without candidates that are collected while scanning it is not followed
    let unfused = ScanKnobs { fused: false, ..knobs() };
    let mut a = ix.search_frr(&ds, q, q, 1, 5, unfused, Some(step), how);
    let mut b = plain.clone();
    a.sort();
    b.sort();
    assert_eq!(a, b);
}

#[test]
fn scores_choose_distinct_points() {
    let bits = |v: [f32; 5]| v.iter().map(|x| x.to_bits()).collect::<Vec<u32>>();
    assert_eq!(best_by_score(&vec![4, 9, 4, 2, 7], &bits([1.5, -2.0, 1.5, 0.0, 3.0]), 3), vec![9, 2, 4]);
    assert_eq!(best_by_score(&vec![4, 4, 4, 4, 7], &bits([1.0, 1.0, 1.0, 1.0, 0.5]), 2), vec![7, 4]);
    assert_eq!(best_by_score(&Vec::new(), &Vec::new(), 3), Vec::<u32>::new());
    assert_eq!(best_by_score(&vec![4, 9], &bits([1.0, 2.0, 0.0, 0.0, 0.0])[..2].to_vec(), 0), Vec::<u32>::new());
    let mut ids = vec![4u32; 9];
    ids.push(7);
    let keys: Vec<u32> = (0..10).map(|i| if i < 9 { 1.0f32.to_bits() } else { 2.0f32.to_bits() }).collect();
    assert_eq!(best_by_score(&ids, &keys, 2), vec![4, 7]);
}

#[test]
fn trees_describe_their_cells() {
    let d = 2;
    let cent = vec![vec![1i8, 2, 3, 4], vec![5, 6, 7, 8, -1, -2, 9, 10]];
    let knobs = RouteKnobs { sdim: 0, sdim0: 0, vnni: false, beam0: 0, adc_keep: 0 };
    let t = HierRouter::grow(d, vec![0, 0], &vec![2, 4], cent, vec![1], None, Vec::new(), Vec::new(), knobs);
    assert_eq!((0..4).map(|c| t.cell_parent(c)).collect::<Vec<_>>(), vec![Some(0), Some(0), Some(1), Some(1)]);
    assert_eq!(t.cell_centroid(2), &[-1i8, -2]);
    let mut want = b"RCM1".to_vec();
    for w in [4u32, 2] {
        want.extend(w.to_le_bytes());
    }
    for (p, h, c) in [(0u32, 3u32, [5u8, 6]), (0, 0, [7, 8]), (1, 9, [255, 254]), (1, 1, [9, 10])] {
        want.extend(p.to_le_bytes());
        want.extend(h.to_le_bytes());
        want.extend(c);
    }
    assert_eq!(t.meta_bytes(&vec![3, 0, 9, 1]), Some(want));
    let mut holes = t;
    holes.child[0] = vec![1, 2, 4];
    assert_eq!(holes.cell_parent(0), None);
    assert_eq!(holes.cell_parent(1), Some(0));
    assert_eq!(holes.cell_parent(3), Some(1));
    assert_eq!(holes.meta_bytes(&vec![0, 0, 0, 0]), None);
}

#[test]
fn an_untouched_stream_is_a_search() {
    let data = rows(N, 40);
    let ds = view(&data);
    let ix = build(&data, Nibbles, 1, false, false);
    let queries = rows(10, 41);
    for i in 0..10 {
        let q = &queries[i * D..i * D + D];
        for (p, t) in [(1, 0), (2, 30), (CELLS, 50)] {
            let want = ix.search(&ds, q, q, p, t, 10, knobs());
            assert_eq!(ix.search_stream(&ds, q, q, p, t, 10, knobs()), want);
            let cells = ix.router.probe(q, q, p);
            assert_eq!(ix.scan_rerank(&ds, q, &cells, t, 10, knobs()), want);
        }
    }
}

#[test]
fn a_patient_search_scans_every_cell() {
    let data = rows(N, 42);
    let ds = view(&data);
    let ix = build(&data, Nibbles, 1, false, false);
    let queries = rows(10, 43);
    for i in 0..10 {
        let q = &queries[i * D..i * D + D];
        for t in [0, 40] {
            let (ids, used) = ix.search_adaptive(&ds, q, q, 4, t, 10, 1, CELLS + 1);
            assert_eq!(used, 4);
            assert_eq!(ids, ix.search_ds(&ds, q, q, 4, t, 10));
        }
    }
}

#[test]
fn appended_points_are_scanned_in_their_cells() {
    let data = rows(N, 44);
    let whole = view(&data);
    let mut ix = build(&data[..200 * D], Nibbles, 1, false, false);
    for j in 200..N {
        ix.insert(whole.row(j), whole.row(j), j as u32, 1);
    }
    ix.finalize_inserts();
    let q = rows(1, 45);
    let ctx = ix.comp.prepare_query(&q);
    let every: Vec<u32> = (0..CELLS as u32).collect();
    let pool = ix.scan_ins_pool(&q, &every, &ctx);
    let mut seen: Vec<u32> = pool.iter().map(|e| ix.ins_orig[e.1 as usize]).collect();
    seen.sort();
    assert_eq!(seen, (200..N as u32).collect::<Vec<u32>>());
    let home = ix.router.probe(whole.row(250), whole.row(250), 1);
    let near = ix.scan_ins_pool(&q, &home, &ctx);
    assert!(near.iter().any(|e| ix.ins_orig[e.1 as usize] == 250));
    assert!(near.len() < pool.len());
}

#[test]
fn checksums_add_the_first_scores() {
    let data = rows(N, 46);
    let ds = view(&data);
    let plain = build(&data, Nibbles, 1, false, false);
    let q = rows(1, 47);
    let ctx = plain.comp.prepare_query(&q);
    let every: Vec<u32> = (0..CELLS as u32).collect();
    let mut want = 0i64;
    for b in 0..plain.slot_orig.len() / 16 {
        let mut out = [0i32; 16];
        scan_table(&plain.blocks[b * plain.bb..(b + 1) * plain.bb], D, &ctx, &mut out);
        want += out[0] as i64;
    }
    assert_eq!(plain.scan_kernel_bench(&ds, &q, &every, &ctx, false), want);
}

#[test]
fn chosen_coarse_cells_steer_the_descent() {
    let data = rows(N, 48);
    let r = tree(&data, true, 4);
    let q = rows(1, 49);
    let all = r.gather_fine(&q, None, None);
    assert_eq!(all.len(), 24);
    assert_eq!(r.route_fine(&q, None, None, 6), r.probe(&q, &q, 6));
    let one = vec![2u32];
    let part = r.gather_fine(&q, Some(&one), None);
    let (from, to) = (r.child[0][2], r.child[0][3]);
    let mut ids: Vec<u32> = part.iter().map(|e| e.1).collect();
    ids.sort();
    assert_eq!(ids, (from..to).collect::<Vec<u32>>());
    for e in &part {
        let c = e.1 as usize;
        assert_eq!(e.0, simd::l2_i8(&q, &r.cent[1][c * D..c * D + D]));
    }
}

#[test]
fn ties_change_no_distance() {
    let few = rows(40, 60);
    let data: Vec<i8> = (0..N).flat_map(|i| few[i % 40 * D..i % 40 * D + D].to_vec()).collect();
    let ds = view(&data);
    let queries = rows(6, 61);
    for a0 in [1, 2] {
        let ix = build(&data, Nibbles, a0, true, false);
        for i in 0..6 {
            let q = &queries[i * D..i * D + D];
            let far = |ids: &Vec<u32>| ids.iter().map(|&o| simd::l2_i8(q, ds.row(o as usize))).collect::<Vec<i32>>();
            let want = far(&ix.search(&ds, q, q, 4, 0, 10, knobs()));
            assert_eq!(want.len(), 10);
            assert_eq!(far(&ix.search_ds(&ds, q, q, 4, 0, 10)), want);
            assert_eq!(far(&ix.search_ds(&ds, q, q, 4, 10_000, 10)), want);
            for kn in [
                ScanKnobs { sort_cells: true, ..knobs() },
                ScanKnobs { pool_dedup: true, ..knobs() },
                ScanKnobs { fused: true, dedup_a0: 9, ..knobs() },
            ] {
                assert_eq!(far(&ix.search(&ds, q, q, 4, 10_000, 10, kn)), want);
            }
        }
    }
}

#[test]
fn cell_zero_stands_in_for_cells_that_a_batch_does_not_reach() {
    let data = rows(N, 81);
    let ds = view(&data);
    let r = tree(&data, true, 1);
    let a = assign(&r, &ds, 1);
    let ix = Index::build(r, Nibbles, &ds, &a, 1, Vec::new(), None, false, false);
    let queries = rows(9, 82);
    let mut short = 0;
    for p in [1, 24, 40] {
        let all = ix.search_batch(&ds, &queries, &queries, 9, p, 0, N, knobs());
        for i in 0..9 {
            let q = &queries[i * D..i * D + D];
            let cells = ix.router.probe(q, q, p);
            let route = fill_route(&cells, p.min(24));
            assert_eq!(route.len(), p.min(24));
            assert_eq!(&route[..cells.len()], &cells[..]);
            assert!(route[cells.len()..].iter().all(|&c| c == 0));
            assert_eq!(all[i], ix.scan_rerank(&ds, q, &route, 0, N, knobs()));
            if cells.len() < route.len() {
                short += 1;
                assert!((0..N as u32).filter(|&o| a[o as usize] == 0).all(|o| all[i].contains(&o)));
            } else {
                assert_eq!(all[i], ix.search(&ds, q, q, p, 0, N, knobs()));
            }
        }
    }
    assert!(short > 0);
}

fn coded_tree(kf: usize) -> HierRouter {
    let d = 4;
    let knobs = RouteKnobs { sdim: 0, sdim0: 0, vnni: false, beam0: 0, adc_keep: 0 };
    let pq = Pq { d, dpb: 2, m: 2, cent: vec![0u32; 64], eta: 0 };
    let codes: Vec<u8> = (0..kf * 2).map(|i| (i * 5 % 16) as u8).collect();
    let cent = vec![vec![1i8; 2 * d], (0..kf * d).map(|i| (i % 90) as i8).collect()];
    HierRouter::grow(d, vec![0; d], &vec![2, kf], cent, vec![2], Some(pq), codes, Vec::new(), knobs)
}

fn stored(t: HierRouter) -> RouterImage {
    RouterImage {
        d: t.d,
        kf: t.kf,
        levels: t.levels,
        soar: t.soar,
        mu: t.mu,
        cent: t.cent,
        child: t.child,
        beam: t.beam,
        radc: t.radc,
        rcodes: t.rcodes,
        rblocks: t.rblocks,
        cent_f16: t.cent_f16,
    }
}

#[test]
fn codes_of_broken_blocks_are_kept_and_scored() {
    let lut: Vec<i8> = (0..32).map(|i| (i * 3 % 50) as i8).collect();
    for kf in [18, 34, 32, 64] {
        let t = coded_tree(kf);
        assert_eq!(t.child[1], Vec::<u32>::new());
        assert_eq!(t.rblocks.len(), kf / 16 * 16);
        if kf % 16 != 0 {
            assert!(t.rblocks.iter().all(|&b| b == 0));
        } else {
            assert_eq!(t.rblocks[17], t.rcodes[34] | (t.rcodes[35] << 4));
        }
        let want: Vec<(i32, u32)> = (0..kf).map(|c| (lut[t.rcodes[2 * c] as usize] as i32 + lut[16 + t.rcodes[2 * c + 1] as usize] as i32, c as u32)).collect();
        let sorted = |mut v: Vec<(i32, u32)>| {
            v.sort();
            v
        };
        assert_eq!(sorted(t.gather_fine(&[0, 0, 0, 0], None, Some(&lut))), sorted(want.clone()));
        let knobs = t.knobs;
        let img = stored(t);
        let zeros = img.rblocks.clone();
        match HierRouter::assemble(img, Vec::new(), knobs) {
            Ok(back) => {
                assert_eq!(back.rblocks, zeros);
                assert_eq!(sorted(back.gather_fine(&[0, 0, 0, 0], None, Some(&lut))), sorted(want));
            }
            Err(_) => panic!("{kf} cells"),
        }
    }
    let t = coded_tree(32);
    let knobs = t.knobs;
    let mut img = stored(t);
    img.rblocks[3] ^= 1;
    assert!(HierRouter::assemble(img, Vec::new(), knobs).is_err());
    let plain = tree(&rows(N, 83), true, 2);
    assert!(plain.rcodes.is_empty() && plain.rblocks.is_empty() && plain.cent_f16.is_empty());
    assert_eq!(plain.cadj.len(), 2);
    assert!(plain.child[1].is_empty());
}

#[test]
fn buckets_give_their_points_with_distances() {
    let data = rows(6, 84);
    let ds = view(&data);
    let groups = bucket(&vec![1, 0, 1, 2, 0, 1], 1, 3);
    let q = rows(1, 85);
    let far = |o: u32| (simd::l2_i8(&q, ds.row(o as usize)), o);
    assert_eq!(groups.candidates(&ds, &q, &vec![1, 0]), vec![far(0), far(2), far(5), far(1), far(4)]);
    assert_eq!(groups.candidates(&ds, &q, &Vec::new()), Vec::<(i32, u32)>::new());
}
