use newhope::coefficient::{Coefficient, MONTGOMERY_LIMIT};

#[test]
fn freeze_gives_the_residue() {
    assert_eq!(Coefficient::new(0).freeze(), 0);
    assert_eq!(Coefficient::new(12288).freeze(), 12288);
    assert_eq!(Coefficient::new(12289).freeze(), 0);
    assert_eq!(Coefficient::new(12290).freeze(), 1);
    assert_eq!(Coefficient::new(65535).freeze(), 4090);
}

#[test]
fn new_keeps_the_representative() {
    assert_eq!(Coefficient::new(40000).data(), 40000);
    assert_eq!(Coefficient::new(0).data(), 0);
}

#[test]
fn valid_new_accepts_residues_only() {
    assert_eq!(Coefficient::valid_new(12288).map(|c| c.data()), Ok(12288));
    assert_eq!(Coefficient::valid_new(0).map(|c| c.data()), Ok(0));
    assert!(Coefficient::valid_new(12289).is_err());
    assert!(Coefficient::valid_new(65535).is_err());
}

#[test]
fn try_new_accepts_below_five_q() {
    assert_eq!(Coefficient::try_new(61444).map(|c| c.data()), Some(61444));
    assert!(Coefficient::try_new(61445).is_none());
    assert!(Coefficient::try_new(65535).is_none());
    assert_eq!(Coefficient::try_new(0).map(|c| c.data()), Some(0));
}

#[test]
fn small_embeds_signed_numbers() {
    assert_eq!(Coefficient::small(0).data(), 12289);
    assert_eq!(Coefficient::small(8).data(), 12297);
    assert_eq!(Coefficient::small(-8).data(), 12281);
    assert_eq!(Coefficient::small(-8).freeze(), 12281);
    assert_eq!(Coefficient::small(3).freeze(), 3);
}

#[test]
fn flip_abs_measures_the_distance_from_the_middle() {
    assert_eq!(Coefficient::new(6144).flip_abs(), 0);
    assert_eq!(Coefficient::new(0).flip_abs(), 6144);
    assert_eq!(Coefficient::new(12288).flip_abs(), 6144);
    assert_eq!(Coefficient::new(6000).flip_abs(), 144);
    assert_eq!(Coefficient::new(12289 + 7000).flip_abs(), 856);
}

#[test]
fn montgomery_reduce_divides_by_the_radix() {
    assert_eq!(Coefficient::montgomery_reduce(0).data(), 0);
    assert_eq!(Coefficient::montgomery_reduce(1).data(), 576);
    assert_eq!(Coefficient::montgomery_reduce(12289).data(), 12289);
    assert_eq!(Coefficient::montgomery_reduce(262144).data(), 1);
    assert_eq!(Coefficient::montgomery_reduce(208794510).data(), 2866);
    assert_eq!(Coefficient::montgomery_reduce(1073491969).data(), 16384);
    assert_eq!(Coefficient::montgomery_reduce(123456789).data(), 890);
    assert!(Coefficient::montgomery_reduce(MONTGOMERY_LIMIT).data() <= 2 * 12289);
}

#[test]
fn montgomery_reduce_of_the_radix_is_one() {
    assert_eq!(Coefficient::montgomery_reduce(1 << 18).freeze(), 1);
    assert_eq!(Coefficient::montgomery_reduce(4075).freeze(), 1);
    assert_eq!(Coefficient::montgomery_reduce(1).freeze(), 576);
}

#[test]
fn compress_quantises_to_three_bits() {
    assert_eq!(Coefficient::new(0).compress(), 0);
    assert_eq!(Coefficient::new(768).compress(), 0);
    assert_eq!(Coefficient::new(769).compress(), 1);
    assert_eq!(Coefficient::new(6144).compress(), 4);
    assert_eq!(Coefficient::new(11520).compress(), 7);
    assert_eq!(Coefficient::new(11521).compress(), 0);
    assert_eq!(Coefficient::new(12288).compress(), 0);
}

#[test]
fn decompress_gives_the_middle_of_the_step() {
    assert_eq!(Coefficient::decompress(0).data(), 0);
    assert_eq!(Coefficient::decompress(1).data(), 1536);
    assert_eq!(Coefficient::decompress(4).data(), 6145);
    assert_eq!(Coefficient::decompress(7).data(), 10753);
    assert_eq!(Coefficient::decompress(255).data(), ((255u32 * 12289 + 4) >> 3) % 65536);
}

#[test]
fn decompress_then_compress_is_the_identity_on_three_bits() {
    for t in 0..8u8 {
        assert_eq!(Coefficient::decompress(t).compress(), t);
    }
}

#[test]
fn middle_and_quarter() {
    assert_eq!(Coefficient::middle().data(), 6144);
    assert_eq!(Coefficient::quarter().data(), 3072);
}

#[test]
fn add_sub_mul_are_modular() {
    let a = Coefficient::new(12000);
    let b = Coefficient::new(500);
    assert_eq!(a.add(&b).data(), 211);
    assert_eq!(a.sub(&b).data(), 11500);
    assert_eq!(b.sub(&a).data(), 789);
    assert_eq!(a.mul(&b).freeze(), (12000 * 500 % 12289) as i16);
    let big = Coefficient::new(65535);
    assert_eq!(big.add(&big).data(), (2 * 65535) % 12289);
    assert_eq!(Coefficient::new(0).sub(&big).data(), 12289 - 4090);
    assert_eq!(big.mul(&big).freeze(), (4090 * 4090 % 12289) as i16);
}

#[test]
fn equality_is_equality_of_residues() {
    assert_eq!(Coefficient::new(1), Coefficient::new(12290));
    assert_ne!(Coefficient::new(1), Coefficient::new(2));
    assert_eq!(Coefficient::default(), Coefficient::new(12289));
}
