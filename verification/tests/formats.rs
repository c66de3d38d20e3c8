use sbann::archive::{load_image, CompImage};
use sbann::bitcode::{pack_bits, push_lane, read_lane, unpack_bits};
use sbann::bytes::{push_u32, push_u64, push_words, read_u32, read_u64, read_words};
use sbann::compress::ScalarI8;
use sbann::dump::route_bytes;
use sbann::fbin::FBin;
use sbann::hier::{HierRouter, RouteKnobs};
use sbann::ibin::{BinError, I8Bin};
use sbann::image::LoadError;
use sbann::index::{Index, ScanKnobs};
use sbann::persist::{Pr, Sw, MAGIC, VERSION};
use sbann::pq::{Pq, ResidPq};
use sbann::report::{agreement, count_hits, live_hits, live_truth, read_gt, recall_hits, result_bytes, self_neighbours, Truth};
use sbann::router::Router;
use sbann::sidecar::{coordinate_ranges, read_codes, read_halves, read_seeds, write_codes, write_halves, HalfError};
use sbann::trace::{read_trace, replay, TraceError};

fn vector_file(nb: u32, d: u32, rows: &[i8]) -> Vec<u8> {
    let mut out = Vec::new();
    push_u32(&mut out, nb);
    push_u32(&mut out, d);
    out.extend(rows.iter().map(|&v| v as u8));
    out
}

#[test]
fn words_are_little_endian() {
    let mut out = Vec::new();
    push_u32(&mut out, 0x0102_0304);
    push_u64(&mut out, 0x0a0b_0c0d_0102_0304);
    assert_eq!(&out[..4], &[4, 3, 2, 1]);
    assert_eq!(read_u32(&out, 0), 0x0102_0304);
    assert_eq!(read_u64(&out, 4), 0x0a0b_0c0d_0102_0304);
    let mut words = Vec::new();
    push_words(&mut words, &[7, 1 << 31, u32::MAX]);
    assert_eq!(read_words(&words, 3), vec![7, 1 << 31, u32::MAX]);
}

#[test]
fn vector_files_open() {
    let rows = [1i8, -1, 127, -128, 5, -6];
    let file = vector_file(3, 2, &rows);
    let all = I8Bin::open(&file).unwrap();
    assert_eq!((all.nb, all.d), (3, 2));
    assert_eq!(all.row(1), &[127, -128]);
    assert_eq!(all.make_resident(), rows.to_vec());
    let part = I8Bin::open_range(&file, 1, 2).unwrap();
    assert_eq!(part.nb, 2);
    assert_eq!(part.row(0), all.row(1));
    assert_eq!(part.row(1), all.row(2));
    let mut padded = file[..8].to_vec();
    padded.extend([9u8; 24]);
    padded.extend(&file[8..]);
    let late = I8Bin::open_with_data_offset(&padded, 32).unwrap();
    assert_eq!(late.row(2), &[5, -6]);
}

#[test]
fn bad_vector_files_are_named() {
    let file = vector_file(3, 2, &[0i8; 6]);
    assert_eq!(I8Bin::open(&file[..7]).err(), Some(BinError::TooSmall));
    assert_eq!(I8Bin::open(&file[..13]).err(), Some(BinError::Truncated));
    assert_eq!(I8Bin::open_with_data_offset(&file, 4).err(), Some(BinError::OffsetInHeader));
    assert_eq!(I8Bin::open_range(&file, 2, 2).err(), Some(BinError::RangeBeyondFile));
    assert_eq!(FBin::open(&file[..3], 0).err(), Some(BinError::TooSmall));
    assert_eq!(FBin::open(&file, 0).err(), Some(BinError::Truncated));
}

#[test]
fn float_files_give_bits() {
    let mut file = Vec::new();
    push_u32(&mut file, 3);
    push_u32(&mut file, 2);
    for x in [1.0f32, -2.5, 0.0, 3.25, 9.0, 10.0] {
        push_u32(&mut file, x.to_bits());
    }
    let f = FBin::open(&file, 2).unwrap();
    assert_eq!((f.nb, f.d), (2, 2));
    let row: Vec<f32> = f.row(1).iter().map(|&b| f32::from_bits(b)).collect();
    assert_eq!(row, vec![0.0, 3.25]);
    assert_eq!(FBin::open(&file, 0).unwrap().nb, 3);
}

#[test]
fn streams_give_back_what_was_written() {
    let mut w = Sw::new();
    w.u8(200);
    w.u32(70_000);
    w.u64(1 << 40);
    w.usize(12);
    w.f32_bits(1.5f32.to_bits());
    w.u8s(&[1, 2, 3]);
    w.i8s(&[-128, -1, 0, 127]);
    w.u32s(&[u32::MAX, 4]);
    w.i32s(&[i32::MIN, -7, 7]);
    w.usizes(&[5, 6]);
    w.f32s(&[0.25f32.to_bits(), (-3.0f32).to_bits()]);
    let mut r = Pr::new(&w.w);
    assert_eq!(r.u8(), 200);
    assert_eq!(r.u32(), 70_000);
    assert_eq!(r.u64(), 1 << 40);
    assert_eq!(r.usize(), 12);
    assert_eq!(f32::from_bits(r.f32_bits()), 1.5);
    assert_eq!(r.u8_vec(), vec![1, 2, 3]);
    assert_eq!(r.i8_vec(), vec![-128, -1, 0, 127]);
    assert_eq!(r.u32_vec(), vec![u32::MAX, 4]);
    assert_eq!(r.i32_vec(), vec![i32::MIN, -7, 7]);
    assert_eq!(r.usize_vec(), vec![5, 6]);
    assert_eq!(r.f32_vec(), vec![0.25f32.to_bits(), (-3.0f32).to_bits()]);
    assert_eq!(r.pos, w.w.len());
}

#[test]
fn signed_bytes_are_stored_in_two_s_complement() {
    let mut w = Sw::new();
    w.i8s(&[-1, -128, 127]);
    assert_eq!(&w.w[8..], &[255, 128, 127]);
    let mut r = Pr::new(&w.w);
    assert_eq!(r.i8_vec(), vec![-1, -128, 127]);
}

fn small_index() -> (Vec<i8>, Index<HierRouter, ScalarI8>) {
    let d = 4;
    let rows: Vec<i8> = (0..40 * d).map(|i| ((i * 31) % 200) as u8 as i8).collect();
    let ds = I8Bin { nb: 40, d, data: &rows };
    let knobs = RouteKnobs { sdim: 0, sdim0: 0, vnni: true, beam0: 0, adc_keep: 0 };
    let router = HierRouter::train(&ds, 5, 2, 2, vec![0.5f32.to_bits(); d], knobs);
    let mut assign = Vec::new();
    for i in 0..40 {
        let mut out = Vec::new();
        router.assign(ds.row(i), ds.row(i), 1, &mut out);
        assign.extend(out);
    }
    let ix = Index::build(router, ScalarI8::new(d), &ds, &assign, 1, Vec::new(), None, false, false);
    (rows, ix)
}

fn codebook() -> Pq {
    Pq { d: 4, dpb: 2, m: 2, eta: 4.0f32.to_bits(), cent: (0..64).map(|i| (i as f32).to_bits()).collect() }
}

#[test]
fn images_come_back() {
    let (rows, ix) = small_index();
    let comp = CompImage::Apq4 { d: 4, dpb: 2, eta: 4.0f32.to_bits(), pq: codebook() };
    let bytes = ix.save_image(&comp);
    assert_eq!(&bytes[..8], &MAGIC[..]);
    assert_eq!(read_u32(&bytes, 8), VERSION);
    let img = match load_image(&bytes) {
        Ok(v) => v,
        Err(e) => panic!("{e:?}"),
    };
    assert_eq!((img.d, img.bb, img.a0, img.by_orig), (4, ix.bb, 1, false));
    assert_eq!(img.arrays.cell_bstart, ix.cell_bstart);
    assert_eq!(img.arrays.slot_orig, ix.slot_orig);
    assert_eq!(img.arrays.raw, ix.raw);
    assert_eq!(img.arrays.blocks, ix.blocks);
    assert!(img.resid.is_none());
    assert_eq!(img.router.cent, ix.router.cent);
    assert_eq!(img.router.child[0], ix.router.child[0]);
    assert_eq!(img.router.mu, ix.router.mu);
    match img.comp {
        CompImage::Apq4 { d, dpb, eta, pq } => {
            assert_eq!((d, dpb, f32::from_bits(eta), pq.m), (4, 2, 4.0, 2));
            assert_eq!(pq.cent, codebook().cent);
        }
        CompImage::Pq4 { .. } => panic!("wrong kind"),
    }
    let knobs = ix.router.knobs;
    let router = match HierRouter::assemble(img.router, Vec::new(), knobs) {
        Ok(r) => r,
        Err(_) => panic!("unsound"),
    };
    assert_eq!(router.cadj, ix.router.cadj);
    let back = match Index::revive(img.d, img.bb, img.a0, img.by_orig, img.arrays, img.resid, router, ScalarI8::new(4)) {
        Ok(v) => v,
        Err(_) => panic!("unsound"),
    };
    assert_eq!(back.n_main, 40);
    assert!(back.check_main());
    let ds = I8Bin { nb: 40, d: 4, data: &rows };
    assert!(back.rows_fit(&ds));
    let short = I8Bin { nb: 39, d: 4, data: &rows[..39 * 4] };
    assert!(!back.rows_fit(&short));
    let knobs = ScanKnobs { fused: false, sort_cells: false, dedup_a0: 1, pool_dedup: false, use512: false, residq: false, ip: false };
    for i in 0..40 {
        let q = ds.row(i);
        assert_eq!(back.router.probe(q, q, 2), ix.router.probe(q, q, 2));
        assert_eq!(back.search(&ds, q, q, 2, 7, 5, knobs), ix.search(&ds, q, q, 2, 7, 5, knobs));
    }
}

#[test]
fn bad_images_are_named() {
    let (_, ix) = small_index();
    let bytes = ix.save_image(&CompImage::Pq4 { pq: codebook() });
    assert!(matches!(load_image(&bytes[..5]), Err(LoadError::BadMagic)));
    let mut other = bytes.clone();
    other[0] ^= 1;
    assert!(matches!(load_image(&other), Err(LoadError::BadMagic)));
    let mut newer = bytes.clone();
    newer[8] = 9;
    assert!(matches!(load_image(&newer), Err(LoadError::BadVersion(9))));
    for cut in [13usize, 40, bytes.len() / 2, bytes.len() - 1] {
        assert!(matches!(load_image(&bytes[..cut]), Err(LoadError::Truncated)), "{cut}");
    }
    assert!(load_image(&bytes).is_ok());
    let same = ix.save_image(&CompImage::Apq4 { d: 4, dpb: 2, eta: 0, pq: codebook() });
    let tag = (0..bytes.len().min(same.len())).find(|&i| bytes[i] != same[i]).unwrap();
    let mut coded = bytes.clone();
    coded[tag] = 77;
    assert!(matches!(load_image(&coded), Err(LoadError::UnknownCodebook(77))));
    let unknown = (0..tag).rev().find(|&i| {
        let mut other = bytes.clone();
        other[i] = 78;
        matches!(load_image(&other), Err(LoadError::UnknownRouter(78)))
    });
    assert!(unknown.is_some());
    let mut broken = load_image(&bytes).ok().unwrap();
    broken.router.child[0][1] = 4_000;
    assert!(HierRouter::assemble(broken.router, Vec::new(), ix.router.knobs).is_err());
}

#[test]
fn second_codes_are_stored_by_slot() {
    let d = 2;
    let rows: Vec<i8> = (0..20 * d).map(|i| i as i8).collect();
    let ds = I8Bin { nb: 20, d, data: &rows };
    let knobs = RouteKnobs { sdim: 0, sdim0: 0, vnni: false, beam0: 0, adc_keep: 0 };
    let router = HierRouter::train(&ds, 3, 1, 1, vec![0; d], knobs);
    let mut assign = Vec::new();
    for i in 0..20 {
        let mut out = Vec::new();
        router.assign(ds.row(i), ds.row(i), 1, &mut out);
        assign.extend(out);
    }
    let rpq = ResidPq { d, dpb: 1, m: 2, cent: vec![0; 512] };
    let codes: Vec<u8> = (0..40).collect();
    let ix = Index::build(router, ScalarI8::new(d), &ds, &assign, 1, Vec::new(), Some((rpq, codes)), false, false);
    for (s, &o) in ix.slot_orig.iter().enumerate() {
        if o != u32::MAX {
            assert_eq!(&ix.resid_codes[2 * s..2 * s + 2], &[2 * o as u8, 2 * o as u8 + 1]);
        }
    }
}

#[test]
fn sidecars_come_back() {
    let v: Vec<u16> = vec![1, 2, 0x3c00, 0xffff];
    let file = write_halves(2, 2, &v);
    assert_eq!(&file[..8], b"SBF16\0\0\0");
    assert_eq!(read_halves(&file, 2, 2), Ok(Some(v)));
    assert_eq!(read_halves(&file, 2, 3), Ok(None));
    assert_eq!(read_halves(&file[..4], 2, 2), Err(HalfError::Truncated));
    let mut bad = file.clone();
    bad[1] = b'x';
    assert_eq!(read_halves(&bad, 2, 2), Err(HalfError::BadMagic));
    let words = vec![1.0f32.to_bits(), 2.0f32.to_bits()];
    let codes = vec![9u8, 8, 7];
    let side = write_codes(2, 0, 3, &words, &codes);
    assert_eq!(read_codes(&side, 2, 3, 2, 3), Some((words, codes)));
    assert_eq!(read_codes(&side, 2, 4, 2, 3), None);
    assert_eq!(read_codes(&side, 1, 3, 2, 3), None);
    assert_eq!(read_codes(&side, 2, 3, 2, 2), None);
}

#[test]
fn coordinate_ranges_clip_outliers() {
    let mut rows: Vec<i8> = Vec::new();
    for i in 0..1000 {
        rows.push((i % 50) as i8);
        rows.push(if i == 0 { -128 } else if i == 1 { 127 } else { 3 });
    }
    let ds = I8Bin { nb: 1000, d: 2, data: &rows };
    let r = coordinate_ranges(&ds);
    assert_eq!(r[0], (0, 49));
    assert_eq!(r[1].0, 3);
    assert_eq!(r[1].1, 4);
}

#[test]
fn seeds_reach_as_far_as_the_table() {
    let mut file = Vec::new();
    push_words(&mut file, &[2, 3, 10, 11, 12, 20, 21, 22]);
    let t = read_seeds(&file).unwrap();
    assert_eq!(t.of(0, 2), Some(&[10u32, 11][..]));
    assert_eq!(t.of(1, 9), Some(&[20u32, 21, 22][..]));
    assert_eq!(t.of(1, 0), Some(&[20u32][..]));
    assert_eq!(t.of(2, 1), None);
    assert!(read_seeds(&file[..20]).is_none());
}

#[test]
fn truth_and_recall() {
    let mut file = Vec::new();
    let k = 12u32;
    push_words(&mut file, &[2, k]);
    for q in 0..2u32 {
        let ids: Vec<u32> = (0..k).map(|j| q * 100 + j).collect();
        push_words(&mut file, &ids);
    }
    let truth = read_gt(&file).unwrap();
    assert_eq!((truth.nq, truth.k), (2, 12));
    assert_eq!(read_gt(&file[..file.len() - 1]).err(), Some(BinError::Truncated));
    assert_eq!(read_gt(&file[..2]).err(), Some(BinError::TooSmall));
    let res = vec![vec![0, 1, 2, 11, 50], vec![100, 109, 110]];
    assert_eq!(recall_hits(&res, &truth, 2), 3 + 2);
    assert_eq!(count_hits(&vec![1, 1, 9], &[1, 2]), 2);
    let mut live = vec![true; 200];
    live[0] = false;
    live[1] = false;
    assert_eq!(live_hits(&res[0], &truth, 0, &live), (2, 10));
    assert_eq!(live_truth(&truth, 0, &live), (2..12).collect::<Vec<u32>>());
    live[5] = false;
    assert_eq!(live_truth(&truth, 0, &live), vec![2, 3, 4, 6, 7, 8, 9, 10, 11]);
    let _: &Truth = &truth;
}

#[test]
fn agreement_counts_sets_and_lists() {
    let a = vec![vec![1, 2, 3], vec![4, 5, 6], vec![7, 8, 9]];
    let b = vec![vec![1, 2, 3], vec![6, 5, 4], vec![7, 8, 1]];
    assert_eq!(agreement(&a, &b, 3), (2, 1));
}

#[test]
fn results_are_written_ten_to_a_query() {
    let res = vec![vec![5, 6], (0..20).collect::<Vec<u32>>()];
    let bytes = result_bytes(&res, 2);
    let words = read_words(&bytes, bytes.len() / 4);
    assert_eq!(words.len(), 21);
    assert_eq!(&words[..4], &[2, 5, 6, u32::MAX]);
    assert_eq!(&words[11..], &(0..10).collect::<Vec<u32>>()[..]);
    let route = route_bytes(2, 3, &vec![1, 2, 3, 4, 5, 6]);
    assert_eq!(read_words(&route, 8), vec![2, 3, 1, 2, 3, 4, 5, 6]);
}

#[test]
fn neighbour_rows_leave_the_point_out() {
    assert_eq!(self_neighbours(&vec![4, 7, 9, 2], 7, 2), vec![4, 9]);
    assert_eq!(self_neighbours(&vec![7, 9], 7, 3), vec![9, 9, 9]);
    assert_eq!(self_neighbours(&vec![7], 7, 2), vec![7, 7]);
}

fn trace_of(records: &[(u32, &[u32])]) -> Vec<u8> {
    let mut out = b"GUN1".to_vec();
    push_u32(&mut out, records.len() as u32);
    for (pool, ids) in records {
        push_u32(&mut out, *pool);
        push_u32(&mut out, ids.len() as u32);
        push_words(&mut out, ids);
    }
    out
}

#[test]
fn traces_replay() {
    let bytes = trace_of(&[(1, &[9, 3, 0]), (0, &[2])]);
    assert_eq!(read_trace(&bytes, 2, 10, None, false), Ok(vec![vec![3, 0], vec![2]]));
    assert_eq!(read_trace(&bytes, 2, 10, None, true), Ok(vec![vec![0, 3], vec![2]]));
    let rank: Vec<u32> = (0..10).map(|i| 9 - i).collect();
    assert_eq!(read_trace(&bytes, 2, 10, Some(&rank), false), Ok(vec![vec![6, 9], vec![7]]));
    assert_eq!(read_trace(&bytes, 1, 10, None, false), Err(TraceError::TooManyQueries));
    assert_eq!(read_trace(&bytes, 2, 3, None, false), Err(TraceError::IdOutOfRange));
    assert_eq!(read_trace(&bytes[..bytes.len() - 1], 2, 10, None, false), Err(TraceError::Truncated));
    assert_eq!(read_trace(b"GUN2\0\0\0\0", 2, 10, None, false), Err(TraceError::NotATrace));
    let mut long = bytes.clone();
    long.push(0);
    assert_eq!(read_trace(&long, 2, 10, None, false), Err(TraceError::Trailing));
    let rows: Vec<i8> = (0..20).map(|i| i as i8 - 10).collect();
    let ds = I8Bin { nb: 10, d: 2, data: &rows };
    let qs = I8Bin { nb: 2, d: 2, data: &rows[..4] };
    let want: i64 = [(0usize, 3usize), (0, 0), (1, 2)]
        .iter()
        .map(|&(q, o)| -(0..2).map(|k| qs.row(q)[k] as i64 * ds.row(o)[k] as i64).sum::<i64>())
        .sum();
    assert_eq!(replay(&ds, &qs, &vec![vec![3, 0], vec![2]]), want);
}

#[test]
fn bit_codes_come_back() {
    let codes: Vec<u32> = vec![1, 0, 1, 1, 0, 0, 1, 0, 1];
    let one = pack_bits(&codes, 1);
    assert_eq!(one, vec![0b0100_1101, 1]);
    assert_eq!(unpack_bits(&one, 1, 9), codes);
    let wide: Vec<u32> = vec![5, 2, 7, 0, 3];
    let three = pack_bits(&wide, 3);
    assert_eq!(three.len(), 2);
    assert_eq!(three[0], 5 | (2 << 3) | ((7 & 3) << 6));
    assert_eq!(unpack_bits(&three, 3, 5), wide);
    let full: Vec<u32> = vec![u32::MAX, 0, 12345];
    assert_eq!(unpack_bits(&pack_bits(&full, 32), 32, 3), full);
    let mut block = Vec::new();
    push_lane(&mut block, &[1, 2], 1.5f32.to_bits(), 2.5f32.to_bits());
    push_lane(&mut block, &[3, 4], 7, 8);
    assert_eq!(read_lane(&block, 2, 0), (vec![1, 2], 1.5f32.to_bits(), 2.5f32.to_bits()));
    assert_eq!(read_lane(&block, 2, 1), (vec![3, 4], 7, 8));
}
