use sbann::half::{f16_to_f32, f32_to_f16};
use sbann::pq;
use sbann::simd;

fn bytes(n: usize, mul: usize) -> Vec<i8> {
    (0..n).map(|j| ((j * mul % 255) as i16 - 127) as i8).collect()
}

#[test]
fn batch_argmax_matches_scalar() {
    let qe: Vec<i8> = (0..64).map(|j| ((j * 37 % 255) as i16 - 127) as i8).collect();
    let qo: Vec<i8> = (0..64).map(|j| ((j * 71 % 255) as i16 - 127) as i8).collect();
    let rows = 11;
    let codes: Vec<u8> = (0..rows * 64)
        .map(|j| {
            let lo = (j * 5 + 3) % 16;
            let hi = (j * 11 + j / 64) % 16;
            (lo | (hi << 4)) as u8
        })
        .collect();
    let expected = (0..rows)
        .max_by_key(|&row| {
            (0..64)
                .map(|j| {
                    let code = codes[row * 64 + j];
                    (code & 15) as i32 * qe[j] as i32 + (code >> 4) as i32 * qo[j] as i32
                })
                .sum::<i32>()
        })
        .unwrap();
    let actual = simd::argmax_sq4p64_vnni(&qe, &qo, &codes);
    assert_eq!(actual, expected);
    let mut batch = Vec::new();
    simd::score_sq4p64_vnni(&qe, &qo, &codes, &mut batch);
    let scalar: Vec<i32> = (0..rows)
        .map(|row| {
            (0..64)
                .map(|j| {
                    let code = codes[row * 64 + j];
                    (code & 15) as i32 * qe[j] as i32 + (code >> 4) as i32 * qo[j] as i32
                })
                .sum()
        })
        .collect();
    assert_eq!(batch, scalar);
}

#[test]
fn distances_and_products_by_hand() {
    let x = [3i8, -128, 127, 0];
    let c = [-3i8, 127, -128, 5];
    assert_eq!(simd::l2_i8(&x, &c), 36 + 255 * 255 + 255 * 255 + 25);
    assert_eq!(simd::l2_i8_scalar(&x, &c), simd::l2_i8_avx2(&x, &c));
    assert_eq!(simd::dot_i8_avx2(&x, &c), -9 - 2 * 128 * 127);
    assert_eq!(simd::dot_i8_vnni(&x, &c), simd::dot_i8_avx2(&x, &c));
    assert_eq!(simd::negdot_i8(&x, &c), 9 + 2 * 128 * 127);
    assert_eq!(simd::sqnorm_i8(&x), 9 + 128 * 128 + 127 * 127);
    assert_eq!(simd::cadj_i8(&c), 9 + 127 * 127 + 128 * 128 + 25 + 256 * (-3 + 127 - 128 + 5));
    assert_eq!(simd::l2_i8(&x, &x), 0);
}

#[test]
fn block_kernels_agree_with_single_rows() {
    let (n, d) = (7usize, 24usize);
    let q = bytes(d, 53);
    let block = bytes(n * d, 29);
    let want: Vec<i32> = (0..n).map(|j| simd::l2_i8(&q, &block[j * d..j * d + d])).collect();
    let mut out = vec![-1i32; n + 1];
    simd::l2_i8_block(&q, &block, n, d, d, &mut out);
    assert_eq!(&out[..n], &want[..]);
    assert_eq!(out[n], -1);
    let adj: Vec<i32> = (0..n).map(|j| simd::cadj_i8(&block[j * d..j * d + d])).collect();
    let mut norm = vec![0i32; n];
    simd::l2_i8_block_norm(&q, &block, &adj, n, d, simd::sqnorm_i8(&q), &mut norm);
    assert_eq!(norm, want);
    let mut wide = vec![0i32; n];
    simd::l2_i8_block_vnni(&q, &block, &adj, n, d, simd::sqnorm_i8(&q), &mut wide);
    assert_eq!(wide, want);
    let mut pairs = vec![0i32; n];
    simd::l2_i8_block_avx2(&q, &block, n, d, d, &mut pairs);
    assert_eq!(pairs, want);
    let prefix: Vec<i32> = (0..n).map(|j| simd::l2_i8(&q[..5], &block[j * d..j * d + 5])).collect();
    let mut part = vec![0i32; n];
    simd::l2_i8_block(&q, &block, n, d, 5, &mut part);
    assert_eq!(part, prefix);
}

#[test]
fn nibble_products_and_hamming() {
    let qe = [2i8, -3];
    let qo = [5i8, 7];
    let codes = [0x41u8, 0xf0];
    assert_eq!(simd::dot_sq4_vnni(&qe, &qo, &codes), 2 * 1 + 5 * 4 + 7 * 15);
    assert_eq!(simd::hamming_u8(&[0xff, 0x0f], &[0x00, 0xf0]), 16);
    assert_eq!(simd::hamming_u8(&[1, 2, 3], &[1, 2, 3]), 0);
}

#[test]
fn nearest_pivots() {
    let pivots = [0i8, 0, 10, 0, 0, 10, 10, 10];
    assert_eq!(simd::assign_nearest(&[9, 1], &pivots, 2), (1, 2));
    let mut out = [9u32; 3];
    simd::assign_topk(&[9, 9], &pivots, 2, 3, &mut out);
    assert_eq!(out[0], 3);
    assert_eq!(&out[1..], &[1, 2]);
}

#[test]
fn self_tests_pass() {
    for d in [0usize, 1, 96, 200] {
        assert!(simd::selftest(d));
        assert!(simd::selftest_dot(d));
        assert!(simd::selftest_l2_norm(d));
    }
    for m in [0usize, 2, 48, 50, 512] {
        assert!(pq::selftest(m));
        assert!(pq::selftest_i16(m));
        assert!(pq::selftest_i8_fast(m));
        assert!(pq::selftest_i8_fast_avx512(m));
        assert!(pq::selftest_i16_avx512(m));
    }
}

#[test]
fn packed_codes_are_scored() {
    let m = 4;
    let codes: Vec<Vec<u8>> = (0..3).map(|i| (0..m).map(|s| ((i * 5 + s * 3) % 16) as u8).collect()).collect();
    let mut block = Vec::new();
    pq::pack_rows(codes.clone(), m, &mut block);
    assert_eq!(block.len(), m / 2 * 16);
    assert_eq!(block[0], codes[0][0] | (codes[0][1] << 4));
    assert_eq!(block[16 + 2], codes[2][2] | (codes[2][3] << 4));
    assert_eq!(block[3], 0);
    let lut: Vec<i8> = (0..m * 16).map(|j| (j % 100) as i8).collect();
    let mut out = [0i32; 16];
    pq::block_adc_i8_scalar(&block, m, &lut, &mut out);
    for (i, code) in codes.iter().enumerate() {
        let want: i32 = (0..m).map(|s| lut[s * 16 + code[s] as usize] as i32).sum();
        assert_eq!(out[i], want);
    }
    let wide: Vec<i16> = lut.iter().map(|&v| v as i16 * 200).collect();
    let mut sums = [0i32; 16];
    pq::block_adc_i16(&block, m, &wide, &mut sums);
    for i in 0..16 {
        assert_eq!(sums[i], out[i] * 200);
    }
}

#[test]
fn saturating_scores_stop_at_the_byte_range() {
    let block = vec![0u8; 32];
    let lut = vec![100i8; 64];
    let acc = pq::block_adc_scalar(&block, 4, &lut);
    assert_eq!(acc, [127i32; 16]);
    let mut out = [0i8; 16];
    pq::block_adc_sse(&block, 4, &lut, &mut out);
    assert_eq!(out, [127i8; 16]);
    let mut exact = [0i32; 16];
    pq::block_adc_i8_i16acc(&block, 4, &lut, &mut exact);
    assert_eq!(exact, [400i32; 16]);
}

#[test]
fn halves_convert_exactly() {
    for h in 0..=0xffffu32 {
        let h = h as u16;
        let x = f32::from_bits(f16_to_f32(h));
        let sign = if h & 0x8000 != 0 { -1.0f64 } else { 1.0 };
        let exp = (h >> 10) & 31;
        let mant = (h & 1023) as f64;
        if exp == 31 {
            assert_eq!(x.is_nan(), h & 1023 != 0);
            assert_eq!(x.is_infinite(), h & 1023 == 0);
        } else {
            let want = if exp == 0 { mant * (-24f64).exp2() } else { (1024.0 + mant) * (exp as f64 - 25.0).exp2() };
            assert_eq!(x as f64, sign * want);
            assert_eq!(f32_to_f16(x.to_bits()), h);
        }
    }
    assert_eq!(f16_to_f32(0x3c00), 1.0f32.to_bits());
    assert_eq!(f16_to_f32(0x0200), (2f32.powi(-15)).to_bits());
}

#[test]
fn singles_round_to_the_nearest_half() {
    let half = |x: f32| f32_to_f16(x.to_bits());
    assert_eq!(half(1.0), 0x3c00);
    assert_eq!(half(-2.0), 0xc000);
    assert_eq!(half(1.0 + 2f32.powi(-11)), 0x3c00);
    assert_eq!(half(1.0 + 3.0 * 2f32.powi(-11)), 0x3c02);
    assert_eq!(half(65504.0), 0x7bff);
    assert_eq!(half(65520.0), 0x7c00);
    assert_eq!(half(f32::INFINITY), 0x7c00);
    assert_eq!(half(f32::NAN) & 0x7fff, 0x7c00);
    assert_eq!(half(2f32.powi(-25)), 0);
    assert_eq!(half(f32::from_bits(2f32.powi(-25).to_bits() + 1)), 1);
    assert_eq!(half(-0.0), 0x8000);
    assert_eq!(half(2f32.powi(-30)), 0);
}

#[test]
fn interleaving_keeps_the_groups() {
    let m = 4;
    let blocks: Vec<Vec<u8>> = (0..4).map(|b| (0..32).map(|i| (b * 40 + i) as u8).collect()).collect();
    let mut out = vec![0xeeu8; 130];
    pq::interleave4(&blocks[0], &blocks[1], &blocks[2], &blocks[3], m, &mut out);
    for g in 0..2 {
        for b in 0..4 {
            for i in 0..16 {
                assert_eq!(out[g * 64 + b * 16 + i], blocks[b][g * 16 + i]);
            }
        }
    }
    assert_eq!(&out[128..], &[0xee, 0xee]);
}

#[test]
fn wide_kernels_score_every_block() {
    let m = 4;
    let blocks: Vec<Vec<u8>> = (0..4usize)
        .map(|b| {
            let codes: Vec<Vec<u8>> = (0..16).map(|i| (0..m).map(|s| ((b * 7 + i * 3 + s * 5) % 16) as u8).collect()).collect();
            let mut block = Vec::new();
            pq::pack_block(&codes, m, &mut block);
            let mut rows = Vec::new();
            pq::pack_rows(codes, m, &mut rows);
            assert_eq!(block, rows);
            block
        })
        .collect();
    let lut: Vec<i8> = (0..m * 16).map(|j| (j * 3 % 128) as i8).collect();
    let wide: Vec<i16> = lut.iter().map(|&v| v as i16 * 100).collect();
    let want: Vec<i32> = blocks
        .iter()
        .flat_map(|b| {
            let mut out = [0i32; 16];
            pq::block_adc_i8_scalar(b, m, &lut, &mut out);
            out
        })
        .collect();
    let mut four = [0i32; 64];
    pq::block_adc_i8_i16acc_avx512([&blocks[0], &blocks[1], &blocks[2], &blocks[3]], m, &lut, &mut four);
    assert_eq!(&four[..], &want[..]);
    let mut woven = vec![0u8; 128];
    pq::interleave4(&blocks[0], &blocks[1], &blocks[2], &blocks[3], m, &mut woven);
    let mut group = [0i32; 64];
    pq::block_adc_i8_i16acc_avx512_il(&woven, m, &lut, &mut group);
    assert_eq!(&group[..], &want[..]);
    let mut two = [0i32; 32];
    pq::block_adc_i16_avx512_x2(&blocks[0], &blocks[1], m, &wide, &mut two);
    let mut one = [0i32; 16];
    pq::block_adc_i16_avx2(&blocks[1], m, &wide, &mut one);
    for i in 0..16 {
        assert_eq!(two[i], want[i] * 100);
        assert_eq!(two[16 + i], want[16 + i] * 100);
        assert_eq!(one[i], two[16 + i]);
    }
}
