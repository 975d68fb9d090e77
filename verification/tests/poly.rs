use newhope::ntt::{Ntt, ReverseBits};
use newhope::poly::{CoefficientRich, Involution, Poly, PolyState};
use newhope::hash::h;
use newhope::sizes::{Base1024, Base512, PolySize};
use newhope::tables::{
    gammas_bitrev_table, gammas_inv_table, omegas_inv_bitrev_table,
};
use newhope::Coefficient;
use sha3::digest::{ExtendableOutput, Update, XofReader};

const NORMAL: PolyState = PolyState { bit_order: false, size: false, domain: false };
const UNIFORM: PolyState = PolyState { bit_order: false, size: true, domain: false };

fn seed() -> [u8; 32] {
    let mut s = [0u8; 32];
    for i in 0..32 {
        s[i] = i as u8;
    }
    s
}

fn residues<N: PolySize>(p: &Poly<N>, count: usize) -> Vec<u16> {
    (0..count).map(|i| p.coefficient(i)).collect()
}

fn power(base: u64, exponent: u64) -> u64 {
    let mut r = 1u64;
    let mut b = base % 12289;
    let mut e = exponent;
    while e > 0 {
        if e & 1 == 1 {
            r = r * b % 12289;
        }
        b = b * b % 12289;
        e >>= 1;
    }
    r
}

fn reverse(i: usize, bits: u32) -> usize {
    let mut r = 0;
    for k in 0..bits {
        r |= ((i >> k) & 1) << (bits - 1 - k);
    }
    r
}

fn counting<N: PolySize>() -> Poly<N> {
    let c = (0..N::length()).map(|i| Coefficient::new((i * 7 % 12289) as u16)).collect();
    Poly::new(c, NORMAL)
}

#[test]
fn poly_ntt() {
    let seed: [u8; 32] = rand::random();
    let poly = Poly::<Base1024>::random(&seed, UNIFORM);
    let poly_new = poly.clone().ntt().reverse_bits().inv_ntt().reverse_bits();
    assert_eq!(poly, poly_new);
}

#[test]
fn ntt_round_trip_512() {
    let seed: [u8; 32] = rand::random();
    let poly = Poly::<Base512>::random(&seed, UNIFORM);
    let poly_new = poly.clone().ntt().reverse_bits().inv_ntt().reverse_bits();
    assert_eq!(poly, poly_new);
}

#[test]
fn ntt_matches_recorded_vector() {
    let poly = Poly::<Base1024>::random(&seed(), UNIFORM);
    assert_eq!(residues(&poly.ntt(), 16), vec![11498, 8093, 8931, 6487, 723, 10573, 1697, 6321, 3334, 3392, 7727, 2283, 9880, 4485, 4253, 858]);
    let poly = Poly::<Base512>::random(&seed(), UNIFORM);
    assert_eq!(residues(&poly.ntt(), 16), vec![2764, 12260, 6748, 8759, 6841, 2192, 1502, 841, 3508, 10789, 4587, 4757, 3510, 3315, 10085, 2810]);
}

#[test]
fn ntt_multiplies_polynomials() {
    // (1 + X) (1 + X) = 1 + 2 X + X^2 modulo X^1024 + 1
    let mut c = vec![Coefficient::new(0); 1024];
    c[0] = Coefficient::new(1);
    c[1] = Coefficient::new(1);
    let a = Poly::<Base1024>::new(c, NORMAL).reverse_bits().ntt();
    let product = a.mul(&a).reverse_bits().inv_ntt();
    assert_eq!(residues(&product, 4), vec![1, 2, 1, 0]);
    assert!((4..1024).all(|i| product.coefficient(i) == 0));
}

#[test]
fn ntt_reduces_modulo_x_to_the_n_plus_one() {
    // X^511 * X = X^512 = -1 for the length 512
    let mut c = vec![Coefficient::new(0); 512];
    c[511] = Coefficient::new(1);
    let a = Poly::<Base512>::new(c, NORMAL).reverse_bits().ntt();
    let mut c = vec![Coefficient::new(0); 512];
    c[1] = Coefficient::new(1);
    let b = Poly::<Base512>::new(c, NORMAL).reverse_bits().ntt();
    let product = a.mul(&b).reverse_bits().inv_ntt();
    assert_eq!(product.coefficient(0), 12288);
    assert!((1..512).all(|i| product.coefficient(i) == 0));
}

#[test]
fn marks_follow_the_transforms() {
    let p = counting::<Base512>();
    let t = p.clone().ntt();
    assert_eq!(t.state(), PolyState { bit_order: true, size: false, domain: true });
    let r = t.reverse_bits();
    assert_eq!(r.state(), PolyState { bit_order: false, size: false, domain: true });
    let back = r.inv_ntt();
    assert_eq!(back.state(), PolyState { bit_order: true, size: false, domain: false });
    assert_eq!(NORMAL.sum(UNIFORM), UNIFORM);
    assert_eq!(NORMAL.product(UNIFORM), NORMAL);
    assert_eq!(UNIFORM.reversed().reversed(), UNIFORM);
    assert_eq!(UNIFORM.transformed().transformed(), UNIFORM);
}

#[test]
fn reverse_bits_permutes_and_is_its_own_inverse() {
    let p = counting::<Base1024>();
    let r = p.clone().reverse_bits();
    assert_eq!(r.coefficient(1), p.coefficient(512));
    assert_eq!(r.coefficient(2), p.coefficient(256));
    assert_eq!(r.coefficient(1023), p.coefficient(1023));
    assert_eq!(r.coefficient(3), p.coefficient(768));
    assert_eq!(r.reverse_bits(), p);
    let p = counting::<Base512>();
    let r = p.clone().reverse_bits();
    assert_eq!(r.coefficient(1), p.coefficient(256));
    assert_eq!(r.reverse_bits(), p);
}

#[test]
fn tables_hold_the_powers_of_the_roots() {
    for (n, gamma, bits) in [(512usize, 10968u64, 9u32), (1024, 7, 10)] {
        let radix = 4075u64;
        let gammas = gammas_bitrev_table(n);
        let gammas_inv = gammas_inv_table(n);
        let omegas_inv = omegas_inv_bitrev_table(n);
        assert_eq!(gammas.len(), n);
        assert_eq!(gammas_inv.len(), n);
        assert_eq!(omegas_inv.len(), n / 2);
        assert_eq!(power(gamma, n as u64), 12288);
        let gamma_inverse = power(gamma, 12287);
        let omega_inverse = gamma_inverse * gamma_inverse % 12289;
        let n_inverse = power(n as u64, 12287);
        for i in 0..n {
            assert_eq!(gammas[i] as u64, power(gamma, reverse(i, bits) as u64) * radix % 12289);
            assert_eq!(
                gammas_inv[i] as u64,
                power(gamma_inverse, i as u64) * n_inverse % 12289 * radix % 12289
            );
        }
        for i in 0..n / 2 {
            assert_eq!(
                omegas_inv[i] as u64,
                power(omega_inverse, reverse(i, bits - 1) as u64) * radix % 12289
            );
        }
    }
    assert_eq!(&gammas_bitrev_table(1024)[..8], &[4075, 6974, 7373, 7965, 3262, 5079, 522, 2169]);
    assert_eq!(&gammas_inv_table(1024)[..8], &[256, 10570, 1510, 7238, 1034, 7170, 6291, 7921]);
    assert_eq!(
        &omegas_inv_bitrev_table(1024)[..8],
        &[4075, 5315, 4324, 4916, 10120, 11767, 7210, 9027]
    );
}

#[test]
fn pack_follows_the_layout() {
    let mut c = vec![Coefficient::new(0); 512];
    c[0] = Coefficient::new(0x1234);
    c[1] = Coefficient::new(0x0abc);
    c[2] = Coefficient::new(0x2fff);
    c[3] = Coefficient::new(12289 + 0x0001);
    let bytes = Poly::<Base512>::new(c, NORMAL).pack();
    assert_eq!(bytes.len(), 896);
    let t = [0x1234u16, 0x0abc, 0x2fff, 0x0001];
    let expected = [
        (t[0] & 0xff) as u8,
        ((t[0] >> 8) | (t[1] << 6)) as u8,
        (t[1] >> 2) as u8,
        ((t[1] >> 10) | (t[2] << 4)) as u8,
        (t[2] >> 4) as u8,
        ((t[2] >> 12) | (t[3] << 2)) as u8,
        (t[3] >> 6) as u8,
    ];
    assert_eq!(&bytes[..7], &expected);
    assert_eq!(&bytes[..7], &[0x34, 0x12, 0xaf, 0xf2, 0xff, 0x06, 0x00]);
    assert!(bytes[7..].iter().all(|b| *b == 0));
}

#[test]
fn unpack_inverts_pack() {
    let seed: [u8; 32] = rand::random();
    let p = Poly::<Base1024>::random(&seed, UNIFORM);
    let bytes = p.pack();
    assert_eq!(bytes.len(), 1792);
    let q = Poly::<Base1024>::unpack(&bytes, UNIFORM).unwrap();
    assert_eq!(p, q);
    assert_eq!(q.state(), UNIFORM);
    assert_eq!(q.pack(), bytes);
}

#[test]
fn unpack_rejects_words_that_are_no_residues() {
    let mut bytes = vec![0u8; 896];
    assert!(Poly::<Base512>::unpack(&bytes, NORMAL).is_ok());
    // the first word becomes 12289 = 0x3001
    bytes[0] = 0x01;
    bytes[1] = 0x30;
    assert!(Poly::<Base512>::unpack(&bytes, NORMAL).is_err());
    bytes[0] = 0x00;
    assert_eq!(Poly::<Base512>::unpack(&bytes, NORMAL).unwrap().coefficient(0), 12288);
    // the last word becomes 0x3fff
    bytes[894] = 0xfc;
    bytes[895] = 0xff;
    assert!(Poly::<Base512>::unpack(&bytes, NORMAL).is_err());
}

#[test]
fn unpack_rejects_other_lengths() {
    assert!(Poly::<Base512>::unpack(&vec![0u8; 895], NORMAL).is_err());
    assert!(Poly::<Base512>::unpack(&vec![0u8; 1792], NORMAL).is_err());
    assert!(Poly::<Base1024>::unpack(&vec![0u8; 896], NORMAL).is_err());
    assert!(Poly::<Base1024>::unpack(&[], NORMAL).is_err());
}

#[test]
fn compress_follows_the_layout() {
    let values = [0u16, 1536, 3072, 4608, 6145, 7681, 9217, 10753];
    let mut c = vec![Coefficient::new(0); 512];
    for j in 0..8 {
        c[j] = Coefficient::new(values[j]);
    }
    let bytes = Poly::<Base512>::new(c, NORMAL).compress();
    assert_eq!(bytes.len(), 192);
    // the three-bit values 0 to 7 in three bytes
    assert_eq!(&bytes[..3], &[0x88, 0xc6, 0xfa]);
    assert!(bytes[3..].iter().all(|b| *b == 0));
    let back = Poly::<Base512>::decompress(&bytes, NORMAL);
    assert_eq!(residues(&back, 8), values.to_vec());
    assert_eq!(back.compress(), bytes);
}

#[test]
fn compression_is_lossy() {
    let p = counting::<Base1024>();
    let back = Poly::<Base1024>::decompress(&p.compress(), NORMAL);
    assert_ne!(p, back);
    assert_eq!(back.coefficient(1), 0);
    assert_eq!(back.coefficient(200), 1536);
}

#[test]
fn arithmetic_is_coefficient_by_coefficient() {
    let p = counting::<Base512>();
    let q = Poly::<Base512>::new(vec![Coefficient::new(12000); 512], NORMAL);
    let sum = p.add(&q);
    let difference = p.sub(&q);
    let product = p.mul(&q);
    for i in [0usize, 1, 2, 100, 511] {
        let a = (i * 7 % 12289) as u32;
        assert_eq!(sum.coefficient(i) as u32, (a + 12000) % 12289);
        assert_eq!(difference.coefficient(i) as u32, (a + 12289 - 12000) % 12289);
        assert_eq!(product.coefficient(i) as u32, a * 12000 % 12289);
    }
}

#[test]
fn message_encoding_round_trip() {
    let message: [u8; 32] = rand::random();
    let p = Poly::<Base1024>::from_message(&message, NORMAL);
    for i in 0..1024 {
        let l = i % 256;
        let bit = (message[l / 8] >> (l % 8)) & 1;
        assert_eq!(p.coefficient(i), if bit == 1 { 6144 } else { 0 });
    }
    assert_eq!(p.to_message_negate(), message);
    let p = Poly::<Base512>::from_message(&message, NORMAL);
    assert_eq!(p.to_message_negate(), message);
}

#[test]
fn to_message_negate_uses_the_threshold() {
    // bit 0 is carried by the coefficients 0 and 256; the sum of their
    // distances from 6144 must stay below 2 * 3072
    let mut c = vec![Coefficient::new(0); 512];
    c[0] = Coefficient::new(6144);
    c[256] = Coefficient::new(0);
    let m = Poly::<Base512>::new(c.clone(), NORMAL).to_message_negate();
    assert_eq!(m[0] & 1, 0);
    c[256] = Coefficient::new(1);
    let m = Poly::<Base512>::new(c, NORMAL).to_message_negate();
    assert_eq!(m[0], 1);
    assert!(m[1..].iter().all(|b| *b == 0));
}

#[test]
fn uniform_sampler_matches_recorded_vector() {
    let p = Poly::<Base1024>::random(&seed(), UNIFORM);
    let expected: Vec<u16> = vec![14431, 60659, 5032, 41125, 11993, 54430, 37406, 44306, 14488, 2998, 37114, 50286, 46919, 34662, 53283, 8586].iter().map(|v: &u32| (*v % 12289) as u16).collect();
    assert_eq!(residues(&p, 16), expected);
    assert!(Poly::<Base1024>::expands(&seed()));
    assert_eq!(Poly::<Base1024>::try_random(&seed(), UNIFORM), Some(p));
}

#[test]
fn uniform_sampler_is_deterministic() {
    let seed: [u8; 32] = rand::random();
    let a = Poly::<Base1024>::random(&seed, UNIFORM);
    let b = Poly::<Base1024>::random(&seed, UNIFORM);
    assert_eq!(a, b);
    let short = Poly::<Base512>::random(&seed, UNIFORM);
    assert_eq!(residues(&short, 512), residues(&a, 512));
}

#[test]
fn noise_sampler_matches_recorded_vector() {
    let noise = PolyState { bit_order: true, size: false, domain: false };
    let p = Poly::<Base1024>::random_small(&seed(), 5, noise);
    let expected: Vec<u16> = vec![12290, 12289, 12290, 12289, 12288, 12288, 12288, 12291, 12290, 12290, 12287, 12289, 12289, 12290, 12287, 12285].iter().map(|v: &u32| (*v % 12289) as u16).collect();
    assert_eq!(residues(&p, 16), expected);
    assert_eq!(p.state(), noise);
    for i in 0..1024 {
        let r = p.coefficient(i);
        assert!(r <= 8 || r >= 12289 - 8);
    }
}

#[test]
fn involution_switches_back() {
    assert_eq!(true.op(), false);
    assert_eq!(false.op(), true);
    assert_eq!(true.op().op(), true);
}

#[test]
fn rich_coefficients_follow_the_marks() {
    let a = CoefficientRich::new(12000, UNIFORM);
    let b = CoefficientRich::new(500, NORMAL);
    assert_eq!(a.add(b).0.data(), 211);
    assert_eq!(a.add(b).1, UNIFORM);
    assert_eq!(a.sub(b).0.data(), 11500);
    assert_eq!(a.sub(b).1, UNIFORM);
    assert_eq!(a.mul(b).0.freeze(), (12000 * 500 % 12289) as i16);
    assert_eq!(a.mul(b).1, NORMAL);
    assert_eq!(CoefficientRich::new(65536 + 7, NORMAL).0.data(), 7);
}

#[test]
fn functors_apply_index_by_index() {
    let p = counting::<Base512>();
    let q = Poly::<Base512>::new(vec![Coefficient::new(12000); 512], NORMAL);
    let sum = Poly::functor_2(&p, &q, NORMAL, |x, y| x.add(y));
    assert_eq!(sum, p.add(&q));
    assert_eq!(sum.state(), NORMAL);
    let mixed = Poly::functor_3(&p, &q, &p, NORMAL, |x, y, z| x.add(y.mul(z)));
    assert_eq!(mixed, p.add(&q.mul(&p)));
    assert_eq!(mixed.coefficient(3), ((21 + 12000 * 21) % 12289) as u16);
}

#[test]
fn poly_smallest() {
    let seed: [u8; 32] = rand::random();
    let poly = Poly::<Base1024>::random(&seed, UNIFORM);
    let dump = poly.smallest();
    let poly_new = Poly::<Base1024>::from_smallest(dump.as_ref(), UNIFORM);
    assert_eq!(poly, poly_new);
    assert!(dump.len() <= 1739);
}

#[test]
fn smallest_reads_the_residues_as_digits() {
    let zero = Poly::<Base512>::new(vec![Coefficient::new(0); 512], NORMAL);
    assert_eq!(zero.smallest(), vec![0]);
    let mut c = vec![Coefficient::new(0); 512];
    c[511] = Coefficient::new(5);
    assert_eq!(Poly::<Base512>::new(c.clone(), NORMAL).smallest(), vec![5]);
    // q + 1 = 0x3002
    c[511] = Coefficient::new(12289 + 1);
    c[510] = Coefficient::new(1);
    assert_eq!(Poly::<Base512>::new(c.clone(), NORMAL).smallest(), vec![0x02, 0x30]);
    // 2 q^2 + q + 1 = 302051332 = 0x1200f004
    c[509] = Coefficient::new(2);
    assert_eq!(Poly::<Base512>::new(c, NORMAL).smallest(), vec![0x04, 0xf0, 0x00, 0x12]);
    let p = Poly::<Base512>::from_smallest(&[0x04, 0xf0, 0x00, 0x12, 0, 0], NORMAL);
    assert_eq!(residues(&p, 512)[509..].to_vec(), vec![2, 1, 1]);
    assert!((0..509).all(|i| p.coefficient(i) == 0));
    assert_eq!(p.state(), NORMAL);
    assert_eq!(Poly::<Base512>::from_smallest(&[], NORMAL), zero);
}

fn table_digest(table: &[u16]) -> String {
    let bytes: Vec<u8> = table.iter().flat_map(|v| v.to_le_bytes()).collect();
    h(&bytes, 32).iter().map(|b| format!("{:02x}", b)).collect()
}

#[test]
fn tables_match_the_recorded_values() {
    assert_eq!(table_digest(&gammas_bitrev_table(512)), "aec9a128fac042e08308a85aaeb6c401a9090d637208199a11260df138168499");
    assert_eq!(table_digest(&gammas_inv_table(512)), "611a04b165cf50f3b73bfc679d8a8aeadf6cd2dad0dd2a66c2bfa6bca8d51d51");
    assert_eq!(table_digest(&omegas_inv_bitrev_table(512)), "824066f2e23cc1c6c2084020fa79b2f84bbd61b56737eb19c626feb534a8fd72");
    assert_eq!(table_digest(&gammas_bitrev_table(1024)), "7f971a0517ee8d1c0bc4d5af76d1d78676ca8ef3010d01505f4017af9c494415");
    assert_eq!(table_digest(&gammas_inv_table(1024)), "ee2dd8db14a7fc9ed234eb713f8d951ce084e030c8251f5ca8b1345d8137fae9");
    assert_eq!(table_digest(&omegas_inv_bitrev_table(1024)), "5b69807c1b5663302ed67eaba63af76b641275ce80f7cb14877203b3cbe1b935");
    assert_eq!(&gammas_bitrev_table(512)[..8], &[4075, 5315, 7965, 7373, 522, 10120, 9027, 5079]);
    assert_eq!(&gammas_inv_table(512)[..8], &[512, 3944, 4267, 5411, 9615, 5900, 3205, 6063]);
    assert_eq!(
        &omegas_inv_bitrev_table(512)[..8],
        &[4075, 6974, 4916, 4324, 7210, 3262, 2169, 11767]
    );
}

fn unreduced<N: PolySize>() -> Poly<N> {
    let c = (0..N::length()).map(|i| Coefficient::new((20000 + 3 * i) as u16)).collect();
    Poly::new(c, NORMAL)
}

#[test]
fn new_and_clone_keep_the_stored_values() {
    let p = unreduced::<Base512>();
    let q = p.clone();
    for i in 0..512 {
        assert_eq!(p.data(i), (20000 + 3 * i) as u16);
        assert_eq!(q.data(i), p.data(i));
        assert_eq!(p.coefficient(i), p.data(i) % 12289);
    }
}

#[test]
fn from_message_stores_half_of_q_or_zero() {
    let p = Poly::<Base1024>::from_message(&[0xff; 32], NORMAL);
    assert!((0..1024).all(|i| p.data(i) == 6144));
    let mut m = [0u8; 32];
    m[1] = 0x04;
    let p = Poly::<Base512>::from_message(&m, NORMAL);
    for i in 0..512 {
        assert_eq!(p.data(i), if i % 256 == 10 { 6144 } else { 0 });
    }
}

#[test]
fn unpack_stores_the_words() {
    let mut v = vec![0u8; 1792];
    v[1791] = 0xc0;
    let p = Poly::<Base1024>::unpack(&v, NORMAL).unwrap();
    assert_eq!(p.data(1023), 12288);
    assert!((0..1023).all(|i| p.data(i) == 0));
    v[1790] = 0x04;
    assert!(Poly::<Base1024>::unpack(&v, NORMAL).is_err());
    let p = counting::<Base512>();
    let q = Poly::<Base512>::unpack(&p.pack(), NORMAL).unwrap();
    assert!((0..512).all(|i| q.data(i) == p.data(i)));
}

#[test]
fn decompress_stores_residues_near_the_input() {
    let p = unreduced::<Base1024>();
    let d = Poly::<Base1024>::decompress(&p.compress(), NORMAL);
    for i in 0..1024 {
        let x = d.data(i) as i32;
        assert!(x < 12289);
        let apart = (x - p.coefficient(i) as i32).rem_euclid(12289);
        assert!(apart.min(12289 - apart) <= 768);
    }
}

#[test]
fn reverse_bits_moves_the_stored_values() {
    let p = unreduced::<Base1024>();
    let r = p.clone().reverse_bits();
    assert!((0..1024).all(|i| r.data(i) == p.data(reverse(i, 10))));
    let back = r.reverse_bits();
    assert!((0..1024).all(|i| back.data(i) == p.data(i)));
    let p = unreduced::<Base512>();
    let r = p.clone().reverse_bits();
    assert!((0..512).all(|i| r.data(i) == p.data(reverse(i, 9))));
}

fn accepted_words(seed: &[u8; 32], block: u8) -> Vec<u16> {
    let mut xof = sha3::Shake128::default();
    xof.update(seed);
    xof.update(&[block]);
    let mut reader = xof.finalize_xof();
    let mut words = Vec::new();
    while words.len() < 64 {
        let mut pair = [0u8; 2];
        reader.read(&mut pair);
        let word = u16::from_le_bytes(pair);
        if word < 61445 {
            words.push(word);
        }
    }
    words
}

#[test]
fn uniform_sampler_stores_the_accepted_words() {
    let seed = seed();
    let p = Poly::<Base1024>::random(&seed, UNIFORM);
    let again = Poly::<Base1024>::random(&seed, UNIFORM);
    let half = Poly::<Base512>::random(&seed, UNIFORM);
    let mut above_q = false;
    for block in 0..16 {
        let words = accepted_words(&seed, block as u8);
        for j in 0..64 {
            let i = 64 * block + j;
            assert_eq!(p.data(i), words[j]);
            assert_eq!(again.data(i), words[j]);
            assert!(p.data(i) < 61445);
            above_q |= p.data(i) >= 12289;
            if i < 512 {
                assert_eq!(half.data(i), words[j]);
            }
        }
    }
    assert!(above_q);
}

#[test]
fn noise_sampler_stores_q_plus_a_small_number() {
    let p = Poly::<Base512>::random_small(&seed(), 1, NORMAL);
    for i in 0..512 {
        assert!(p.data(i) >= 12289 - 8 && p.data(i) <= 12289 + 8);
        assert_eq!(p.coefficient(i), p.data(i) % 12289);
    }
    let buffer = h(&[&seed()[..], &[1u8, 3u8][..]].concat(), 128);
    for j in 0..64 {
        let expected = 12289 + buffer[2 * j].count_ones() - buffer[2 * j + 1].count_ones();
        assert_eq!(p.data(192 + j) as u32, expected);
    }
}

#[test]
fn arithmetic_stores_what_the_coefficients_store() {
    let a = unreduced::<Base512>();
    let b = counting::<Base512>();
    let sum = a.add(&b);
    let difference = a.sub(&b);
    let product = a.mul(&b);
    for i in 0..512 {
        let x = Coefficient::new(a.data(i));
        let y = Coefficient::new(b.data(i));
        assert_eq!(sum.data(i) as u32, x.add(&y).data());
        assert_eq!(difference.data(i) as u32, x.sub(&y).data());
        assert_eq!(product.data(i) as u32, x.mul(&y).data());
        assert!(sum.data(i) < 12289 && difference.data(i) < 12289);
    }
}

#[test]
fn from_smallest_stores_residues() {
    let p = unreduced::<Base512>();
    let q = Poly::<Base512>::from_smallest(&p.smallest(), NORMAL);
    assert!((0..512).all(|i| q.data(i) == p.coefficient(i)));
}
