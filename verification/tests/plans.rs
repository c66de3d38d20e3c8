use sbann::entry::{directory, nearest_entries};
use sbann::graph::GraphPolicy;
use sbann::ibin::I8Bin;
use sbann::plan::{
    all_choices, beams_for, byte_scan, chunk_for, chunks, env_on, graph_policy, graph_width, parse_rows, search_plan, survivors_for, walk_ladder,
    walk_plan, PlanError, Sweep,
};
use sbann::preset::SearchPreset;
use sbann::scatter::{pair_blocks, spin, visit_order};
use sbann::text::{chars_of, parse_first, parse_list, parse_usize, split, trim};

fn chars(s: &str) -> Vec<char> {
    chars_of(s)
}

#[test]
fn texts_are_cut_like_words() {
    assert_eq!(trim(&chars("  a b\t\n")), chars("a b"));
    assert_eq!(parse_usize(&chars("42")), Some(42));
    assert_eq!(parse_usize(&chars("+7")), Some(7));
    assert_eq!(parse_usize(&chars("")), None);
    assert_eq!(parse_usize(&chars("+")), None);
    assert_eq!(parse_usize(&chars("-1")), None);
    assert_eq!(parse_usize(&chars("1_0")), None);
    assert_eq!(parse_usize(&chars("18446744073709551615")), Some(usize::MAX));
    assert_eq!(parse_usize(&chars("18446744073709551616")), None);
    assert_eq!(split(&chars("a,,b"), ','), vec![chars("a"), chars(""), chars("b")]);
    assert_eq!(parse_list(&chars(" 4, x,8 ,2"), ',', 3), vec![4, 8]);
}

#[test]
fn the_head_of_a_list_is_read_as_it_stands() {
    assert_eq!(parse_first(&chars("64,8"), ','), Some(64));
    assert_eq!(parse_first(&chars("7"), ','), Some(7));
    assert_eq!(parse_first(&chars(" 64,8"), ','), None);
    assert_eq!(parse_first(&chars("x,8"), ','), None);
    assert_eq!(parse_first(&chars(",8"), ','), None);
    assert_eq!(parse_first(&chars(""), ','), None);
}

#[test]
fn switches_are_off_only_at_zero() {
    assert!(env_on(None, true));
    assert!(!env_on(None, false));
    assert!(!env_on(Some(&chars("0")), true));
    assert!(env_on(Some(&chars("1")), false));
    assert!(env_on(Some(&chars("no")), false));
}

#[test]
fn search_plans_are_read_row_by_row() {
    let p = search_plan(&chars("a:1:2:3:4:5:6:7:1:9:10; ;b:2:2:3:4:5:6:7:0:9:10")).unwrap();
    assert_eq!(p.len(), 2);
    assert_eq!(p[0].label, chars("a"));
    assert_eq!((p[0].p, p[0].tm, p[0].floor, p[0].k, p[0].m, p[0].kedge, p[0].hops), (1, 2, 3, 4, 5, 6, 7));
    assert!(p[0].bestfirst);
    assert!(!p[1].bestfirst);
    assert_eq!((p[1].portal_keep, p[1].sq4_int8k), (9, 10));
    assert_eq!(search_plan(&chars(" ; ")).err(), Some(PlanError::Empty));
    assert!(matches!(search_plan(&chars("a:1:2")), Err(PlanError::FieldCount(_))));
    assert!(matches!(search_plan(&chars("a:1:2:3:4:5:6:7:1:9:x")), Err(PlanError::BadField(_, _))));
}

#[test]
fn rows_hold_a_label_and_numbers() {
    let r = parse_rows(&chars("x:3:4;y:5:6"), 3).unwrap();
    assert_eq!(r.len(), 2);
    assert_eq!((r[0].label.clone(), r[0].numbers.clone()), (chars("x"), vec![3, 4]));
    assert_eq!(r[1].numbers, vec![5, 6]);
    assert_eq!(parse_rows(&chars(""), 3).err(), Some(PlanError::Empty));
    assert!(matches!(parse_rows(&chars("x:3"), 3), Err(PlanError::FieldCount(_))));
    assert!(matches!(parse_rows(&chars("x:3:-4"), 3), Err(PlanError::BadField(_, _))));
    assert!(matches!(parse_rows(&chars("x: 3:4"), 3), Err(PlanError::BadField(_, _))));
}

#[test]
fn walk_plans_and_ladders() {
    let w = walk_plan(&chars("deep:64:3:8")).unwrap();
    assert_eq!((w[0].l, w[0].rounds, w[0].frontier), (64, 3, 8));
    let l = walk_ladder(&chars("5,10,40"), 2, 7).unwrap();
    assert_eq!(l.iter().map(|p| (p.l, p.rounds, p.frontier)).collect::<Vec<_>>(), vec![(10, 2, 7), (40, 2, 7)]);
    assert_eq!(walk_ladder(&chars("5"), 0, 0).err(), Some(PlanError::Empty));
}

#[test]
fn sweeps_take_every_choice() {
    assert_eq!(all_choices(&vec![vec![1, 2], vec![3, 4]]), vec![vec![1, 3], vec![1, 4], vec![2, 3], vec![2, 4]]);
    let s = Sweep { portal_keep: vec![0], m: vec![8], kedge: vec![40], floor: vec![100], p: vec![1, 2], tm: vec![30], k: vec![10, 20] };
    let pts = s.points(Some(32), 2, true, 5).unwrap();
    assert_eq!(pts.iter().map(|x| (x.p, x.k)).collect::<Vec<_>>(), vec![(1, 10), (1, 20), (2, 10), (2, 20)]);
    assert!(pts.iter().all(|x| x.kedge == 32 && x.hops == 2 && x.bestfirst && x.sq4_int8k == 5));
    let none = Sweep { portal_keep: vec![], m: vec![8], kedge: vec![40], floor: vec![100], p: vec![1], tm: vec![30], k: vec![10] };
    assert_eq!(none.points(None, 1, false, 0).err(), Some(PlanError::Empty));
}

#[test]
fn chunks_cover_the_queries() {
    assert_eq!(chunks(10, 4), vec![(0, 4), (4, 8), (8, 10)]);
    assert!(chunks(0, 4).is_empty());
    assert_eq!(chunk_for(10_000, 4), 625);
    assert_eq!(chunk_for(100, 64), 125);
    assert_eq!(chunk_for(1_000_000, 1), 1000);
    assert_eq!(survivors_for(10, 30, 500), 500);
    assert_eq!(survivors_for(100, 30, 500), 3000);
}

#[test]
fn graph_knobs_default_to_the_preset() {
    let p = graph_policy(SearchPreset::Balanced, false, 64, None, None, None, None);
    assert_eq!(p, GraphPolicy { kedge: 32, m: 24, hops: 2, bestfirst: true });
    let q = graph_policy(SearchPreset::Fast, true, 16, Some(3), None, None, None);
    assert_eq!(q, GraphPolicy { kedge: 16, m: 3, hops: 1, bestfirst: false });
    assert_eq!(graph_width(4 * 32 * 10, 10), Some(32));
    assert_eq!(graph_width(4 * 32 * 10 + 4, 10), None);
    assert!(byte_scan(1024, false, true));
    assert!(!byte_scan(1040, false, true));
    assert!(byte_scan(1040, true, true));
    assert!(!byte_scan(16, true, false));
    assert_eq!(beams_for(4, 20, Vec::new()), vec![20, 40, 80]);
    assert_eq!(beams_for(3, 20, vec![7, 9]), vec![7, 9]);
    assert_eq!(beams_for(3, 4, vec![1]), vec![16, 16]);
}

#[test]
fn directories_are_spread_and_ranked() {
    assert_eq!(directory(4, 10), vec![0, 2, 5, 7]);
    assert_eq!(directory(3, 2), vec![0, 0, 1]);
    let rows: Vec<i8> = (0..20).map(|i| i as i8).collect();
    let ds = I8Bin { nb: 10, d: 2, data: &rows };
    assert_eq!(nearest_entries(&ds, &[1, 1], &directory(4, 10), 2), vec![7, 5]);
    assert_eq!(nearest_entries(&ds, &[-1, -1], &directory(4, 10), 0), vec![0]);
}

#[test]
fn shuffles_visit_every_block_once() {
    let mut st = 0x1234_5678u64;
    let order = visit_order(50, true, &mut st);
    assert_ne!(order, (0..50).collect::<Vec<usize>>());
    let mut spun = 0x1234_5678u64;
    for _ in 0..49 {
        spin(&mut spun);
    }
    assert_eq!(st, spun);
    let mut sorted = order.clone();
    sorted.sort();
    assert_eq!(sorted, (0..50).collect::<Vec<usize>>());
    let mut kept = 7u64;
    assert_eq!(visit_order(3, false, &mut kept), vec![0, 1, 2]);
    assert_eq!(kept, 7);
    let mut x = 1u64;
    let mut y = 1u64;
    y ^= y << 13;
    y ^= y >> 7;
    y ^= y << 17;
    assert_eq!(spin(&mut x), y);
    let blocks: Vec<u8> = (0..128).collect();
    let wide = pair_blocks(&blocks, 2, 2);
    assert_eq!(wide.len(), 128);
    assert_eq!(&wide[..16], &blocks[..16]);
    assert_eq!(&wide[16..32], &blocks[32..48]);
    assert_eq!(&wide[32..48], &blocks[16..32]);
    assert_eq!(&wide[64..80], &blocks[64..80]);
}
