use newhope::cca::{
    ct_eq, ct_select, ct_zeroise, Cca, CipherTextCca, PublicKeyCca, SecretKeyCca,
};
use newhope::cpa::{CipherTextCpa, Cpa, PublicKeyCpa, SecretKeyCpa};
use newhope::hash::{append, block32, h};
use newhope::kem::Kem;
use newhope::message::Message;
use newhope::ntt::{Ntt, ReverseBits};
use newhope::pke::{Codable, Parameter, Pke, PublicKey, SecretKey};
use newhope::poly::{Poly, PolyState};
use newhope::sample::{absorb, accept_candidates, binomial_block, count_bits};
use newhope::sizes::{
    Base1024, Base512, Ccakem, Cpakem, NewHopeBaseSize, NewHopeSize,
};

fn hex(bytes: &[u8]) -> String {
    bytes.iter().map(|b| format!("{:02x}", b)).collect()
}

fn digest(bytes: &[u8]) -> String {
    hex(&h(bytes, 32))
}

fn pair_seed() -> [u8; 64] {
    let mut seed = [0u8; 64];
    seed[0] = 2;
    seed
}

fn first_byte(b: u8) -> Message {
    let mut seed = [0u8; 32];
    seed[0] = b;
    Message(seed)
}

#[test]
fn pke() {
    let pke = Parameter::<Base1024>::new(&rand::random());
    let (pk_a, sk_a) = pke.generate(&rand::random());
    let plain_a: [u8; 32] = rand::random();
    let (pk_b, ct) = pke.encrypt(&rand::random(), &pk_a, &plain_a);
    let plain_b = Parameter::<Base1024>::decrypt(&pk_b, &sk_a, &ct);
    assert_eq!(plain_a, plain_b);
}

#[test]
fn pke_512() {
    let pke = Parameter::<Base512>::new(&rand::random());
    let (pk_a, sk_a) = pke.generate(&rand::random());
    let plain_a: [u8; 32] = rand::random();
    let (pk_b, ct) = pke.encrypt(&rand::random(), &pk_a, &plain_a);
    assert_eq!(ct.len(), 192);
    let plain_b = Parameter::<Base512>::decrypt(&pk_b, &sk_a, &ct);
    assert_eq!(plain_a, plain_b);
}

#[test]
fn pke_with_fixed_seeds() {
    let aa = [0xaau8; 32];
    let pke = Parameter::<Base1024>::new(&aa);
    let (pk_a, sk_a) = pke.generate(&aa);
    let (pk_b, ct) = pke.encrypt(&aa, &pk_a, &aa);
    assert_eq!(digest(&ct), "6cbf7b9ccdd3d6df3ae2267f4403b2a7808409d28c84c0647f528a870f5de518");
    assert_eq!(pk_a.encode(), pk_b.encode());
    assert_eq!(Parameter::<Base1024>::decrypt(&pk_b, &sk_a, &ct), aa);
}

#[test]
fn cpa() {
    let seed = Message(rand::random());
    let (pk, sk) = Cpa::<Base1024>::generate_pair(&seed);
    let (ct, key_b) = Cpa::<Base1024>::encapsulate(&pk, &Message(rand::random()));
    let key_a = Cpa::<Base1024>::decapsulate(&sk, &ct);
    assert_eq!(key_a, key_b);
}

#[test]
fn cca() {
    let seed: [u8; 64] = core::array::from_fn(|_| rand::random());
    let (pk, sk) = Cca::<Base1024>::generate_pair(&seed);
    let (ct, key_b) = Cca::<Base1024>::encapsulate(&pk, &Message(rand::random()));
    let key_a = Cca::<Base1024>::decapsulate(&sk, &ct);
    assert_eq!(key_a, key_b);
}

#[test]
fn pure() {
    let (pk_a, sk_a) = PublicKeyCpa::<Base1024>::generate(Message(rand::random()));
    let (ct, key_b) = pk_a.encapsulate(Message(rand::random()));
    let key_a = sk_a.decapsulate(&ct);
    assert_eq!(key_a, key_b);
}

#[test]
fn cpakem512() {
    let (pk_a, sk_a) = Cpa::<Base512>::generate_pair(&Message(rand::random()));
    let (ct, key_b) = Cpa::<Base512>::encapsulate(&pk_a, &Message(rand::random()));
    let key_a = Cpa::<Base512>::decapsulate(&sk_a, &ct);
    assert_eq!(key_a, key_b);
}

#[test]
fn cpakem1024() {
    let (pk_a, sk_a) = Cpa::<Base1024>::generate_pair(&Message(rand::random()));
    let (ct, key_b) = Cpa::<Base1024>::encapsulate(&pk_a, &Message(rand::random()));
    let key_a = Cpa::<Base1024>::decapsulate(&sk_a, &ct);
    assert_eq!(key_a, key_b);
}

#[test]
fn ccakem512() {
    let seed: [u8; 64] = core::array::from_fn(|_| rand::random());
    let (pk_a, sk_a) = Cca::<Base512>::generate_pair(&seed);
    let (ct, key_b) = Cca::<Base512>::encapsulate(&pk_a, &Message(rand::random()));
    let key_a = Cca::<Base512>::decapsulate(&sk_a, &ct);
    assert_eq!(key_a, key_b);
}

#[test]
fn ccakem1024() {
    let seed: [u8; 64] = core::array::from_fn(|_| rand::random());
    let (pk_a, sk_a) = Cca::<Base1024>::generate_pair(&seed);
    let (ct, key_b) = Cca::<Base1024>::encapsulate(&pk_a, &Message(rand::random()));
    let key_a = Cca::<Base1024>::decapsulate(&sk_a, &ct);
    assert_eq!(key_a, key_b);
}

#[test]
fn cpa_with_fixed_seeds() {
    let (pk, sk) = Cpa::<Base1024>::generate_pair(&Message([0u8; 32]));
    let (ct, key_b) = Cpa::<Base1024>::encapsulate(&pk, &first_byte(1));
    let key_a = Cpa::<Base1024>::decapsulate(&sk, &ct);
    assert_eq!(key_a, key_b);
    assert_eq!(hex(&key_b.0), "bb77ef54c3ea381114ef75a7c1b2b8326f14ba8716e1aea65c4bbc1281a60521");
    assert_eq!(digest(&pk.encode()), "81245151fe27bd87fab53e9dbe9461c4e03be71799a1172df9a71512ebed0338");
    assert_eq!(digest(&sk.encode()), "c613b242144df2fcf7034580e29e6f8f6756761f572caceafab773661e314d91");
    assert_eq!(digest(&ct.encode()), "f31a0c186e6d3cb861c5896f1526632aaeb2a9edf118d7caf147b59163cba950");
    assert_eq!(pk.encode().len(), 1824);
    assert_eq!(sk.encode().len(), 1792);
    assert_eq!(ct.encode().len(), 2176);
}

#[test]
fn cpa_512_with_fixed_seeds() {
    let (pk, sk) = Cpa::<Base512>::generate_pair(&Message([0u8; 32]));
    let (ct, key_b) = Cpa::<Base512>::encapsulate(&pk, &first_byte(1));
    assert_eq!(Cpa::<Base512>::decapsulate(&sk, &ct), key_b);
    assert_eq!(digest(&pk.encode()), "e767e753958bb1167c18a6d591eab6662243d49cb46439a8b51923bd5f07b004");
    assert_eq!(digest(&sk.encode()), "d41acfcce3f346ad7ad0015edc2dda02308167ec8b2bd5e20391bc55b490e5d3");
    assert_eq!(digest(&ct.encode()), "51c27468423628ee82a60bb49ad8554ebde9d6c512595599c9551f5d721bf308");
    assert_eq!(pk.encode().len(), 928);
    assert_eq!(sk.encode().len(), 896);
    assert_eq!(ct.encode().len(), 1088);
}

#[test]
fn cca_with_fixed_seeds() {
    let (pk, sk) = Cca::<Base1024>::generate_pair(&pair_seed());
    let (ct, key_b) = Cca::<Base1024>::encapsulate(&pk, &first_byte(3));
    let key_a = Cca::<Base1024>::decapsulate(&sk, &ct);
    assert_eq!(key_a, key_b);
    assert_eq!(hex(&key_b.0), "cd3f2c50877a2437da0b1c4b2daf063500c9b47ca995a437f7c9184cea04e8cf");
    assert_eq!(digest(&pk.encode()), "81245151fe27bd87fab53e9dbe9461c4e03be71799a1172df9a71512ebed0338");
    assert_eq!(digest(&sk.encode()), "959d3043852652702b58caae2da25e4c7270bdb65aa15174cd495693f1ced102");
    assert_eq!(digest(&ct.encode()), "b4ddfd911f7c6fe3e17799084bee97a91be8644dcbc6c505ae5c71bfcb19441d");
    assert_eq!(pk.encode().len(), 1824);
    assert_eq!(sk.encode().len(), 3680);
    assert_eq!(ct.encode().len(), 2208);
}

#[test]
fn cca_512_with_fixed_seeds() {
    let (pk, sk) = Cca::<Base512>::generate_pair(&pair_seed());
    let (ct, key_b) = Cca::<Base512>::encapsulate(&pk, &first_byte(3));
    assert_eq!(Cca::<Base512>::decapsulate(&sk, &ct), key_b);
    assert_eq!(hex(&key_b.0), "22e752241b7ab5ee30b11220f09cf7b12b79686843d7fa26592b5f7b5510bc1f");
    assert_eq!(digest(&sk.encode()), "eb743be10baff726e8794069ce56f53945e658e72cddc82ac1561b7837a70a2a");
    assert_eq!(digest(&ct.encode()), "e2c999b2db5f1a7c636e3d910fa671530bb4deafd4899842f3893e435a17dbe0");
    assert_eq!(pk.encode().len(), 928);
    assert_eq!(sk.encode().len(), 1888);
    assert_eq!(ct.encode().len(), 1120);
}

#[test]
fn cca_rejects_a_changed_ciphertext() {
    let (pk, sk) = Cca::<Base1024>::generate_pair(&pair_seed());
    let (ct, key_b) = Cca::<Base1024>::encapsulate(&pk, &first_byte(3));
    let mut bytes = ct.encode();
    let last = bytes.len() - 1;
    bytes[last] ^= 0xff;
    let changed = CipherTextCca::<Base1024>::decode(&bytes).unwrap();
    let key_a = Cca::<Base1024>::decapsulate(&sk, &changed);
    assert_ne!(key_a, key_b);
    assert_eq!(hex(&key_a.0), "1bcee9ffd7f9cfb9402d58161057d86d444355cf9914d2306225e0a52a84d90d");
    // the secret comes from the seed for rejected ciphertexts, the first half
    // of the pair seed, and the hash of the changed ciphertext
    let mut input = pair_seed()[..32].to_vec();
    input.extend_from_slice(&h(&bytes, 32));
    assert_eq!(key_a.0.to_vec(), h(&input, 32));
    // and it is the same every time
    assert_eq!(Cca::<Base1024>::decapsulate(&sk, &changed), key_a);
}

#[test]
fn cca_rejection_looks_random() {
    let seed: [u8; 64] = core::array::from_fn(|_| rand::random());
    let (pk, sk) = Cca::<Base512>::generate_pair(&seed);
    let (ct, key_b) = Cca::<Base512>::encapsulate(&pk, &Message(rand::random()));
    let mut bytes = ct.encode();
    bytes[900] ^= 0x01;
    let changed = CipherTextCca::<Base512>::decode(&bytes).unwrap();
    let key_a = Cca::<Base512>::decapsulate(&sk, &changed);
    let distance: u32 = (0..32).map(|i| (key_a.0[i] ^ key_b.0[i]).count_ones()).sum();
    assert!(distance > 64 && distance < 192);
}

#[test]
fn try_generate_pair_gives_the_same_keys() {
    let seed = Message(rand::random());
    let (pk, sk) = Cpa::<Base512>::generate_pair(&seed);
    let (try_pk, try_sk) = Cpa::<Base512>::try_generate_pair(&seed).unwrap();
    assert_eq!(pk.encode(), try_pk.encode());
    assert_eq!(sk.encode(), try_sk.encode());
    let seed: [u8; 64] = core::array::from_fn(|_| rand::random());
    let (pk, sk) = Cca::<Base512>::generate_pair(&seed);
    let (try_pk, try_sk) = Cca::<Base512>::try_generate_pair(&seed).unwrap();
    assert_eq!(pk.encode(), try_pk.encode());
    assert_eq!(sk.encode(), try_sk.encode());
    let (pk, _) = PublicKeyCpa::<Base1024>::try_generate(Message([7u8; 32])).unwrap();
    assert_eq!(pk.encode(), PublicKeyCpa::<Base1024>::generate(Message([7u8; 32])).0.encode());
    assert!(Parameter::<Base512>::try_new(&[9u8; 32]).is_some());
}

#[test]
fn keys_and_ciphertexts_decode_to_themselves() {
    let (pk, sk) = Cpa::<Base512>::generate_pair(&Message(rand::random()));
    let (ct, key) = Cpa::<Base512>::encapsulate(&pk, &Message(rand::random()));
    let pk2 = PublicKeyCpa::<Base512>::decode(&pk.encode()).unwrap();
    let sk2 = SecretKeyCpa::<Base512>::decode(&sk.encode()).unwrap();
    let ct2 = CipherTextCpa::<Base512>::decode(&ct.encode()).unwrap();
    assert_eq!(pk2.encode(), pk.encode());
    assert_eq!(sk2.encode(), sk.encode());
    assert_eq!(ct2.encode(), ct.encode());
    assert_eq!(Cpa::<Base512>::decapsulate(&sk2, &ct2), key);
    assert_eq!(Cpa::<Base512>::encapsulate(&pk2, &first_byte(9)).1, Cpa::<Base512>::encapsulate(&pk, &first_byte(9)).1);

    let seed: [u8; 64] = core::array::from_fn(|_| rand::random());
    let (pk, sk) = Cca::<Base1024>::generate_pair(&seed);
    let (ct, key) = Cca::<Base1024>::encapsulate(&pk, &Message(rand::random()));
    let pk2 = PublicKeyCca::<Base1024>::decode(&pk.encode()).unwrap();
    let sk2 = SecretKeyCca::<Base1024>::decode(&sk.encode()).unwrap();
    let ct2 = CipherTextCca::<Base1024>::decode(&ct.encode()).unwrap();
    assert_eq!(pk2.encode(), pk.encode());
    assert_eq!(sk2.encode(), sk.encode());
    assert_eq!(ct2.encode(), ct.encode());
    assert_eq!(Cca::<Base1024>::decapsulate(&sk2, &ct2), key);
    assert_eq!(Cca::<Base1024>::encapsulate(&pk2, &first_byte(9)).1, Cca::<Base1024>::encapsulate(&pk, &first_byte(9)).1);

    let pke = Parameter::<Base512>::new(&rand::random());
    let (pk, sk) = pke.generate(&rand::random());
    assert_eq!(PublicKey::<Base512>::decode(&pk.encode()).unwrap().encode(), pk.encode());
    assert_eq!(SecretKey::<Base512>::decode(&sk.encode()).unwrap().encode(), sk.encode());
}

#[test]
fn decode_rejects_malformed_bytes() {
    let (pk, sk) = Cca::<Base512>::generate_pair(&pair_seed());
    let (ct, _) = Cca::<Base512>::encapsulate(&pk, &first_byte(3));
    let mut bytes = pk.encode();
    bytes[0] = 0xff;
    bytes[1] = 0xff;
    assert!(PublicKeyCca::<Base512>::decode(&bytes).is_err());
    assert!(PublicKeyCpa::<Base512>::decode(&bytes).is_err());
    assert!(PublicKey::<Base512>::decode(&bytes[..896]).is_err());
    assert!(PublicKeyCca::<Base512>::decode(&pk.encode()[1..]).is_err());
    let mut bytes = sk.encode();
    bytes[896] = 0xff;
    bytes[897] = 0xff;
    assert!(SecretKeyCca::<Base512>::decode(&bytes).is_err());
    let mut bytes = sk.encode();
    bytes[0] = 0xff;
    bytes[1] = 0xff;
    assert!(SecretKeyCca::<Base512>::decode(&bytes).is_err());
    assert!(SecretKey::<Base512>::decode(&bytes[..896]).is_err());
    assert!(SecretKeyCpa::<Base512>::decode(&bytes[..896]).is_err());
    let mut bytes = ct.encode();
    bytes[0] = 0xff;
    bytes[1] = 0xff;
    assert!(CipherTextCca::<Base512>::decode(&bytes).is_err());
    assert!(CipherTextCpa::<Base512>::decode(&bytes[..1088]).is_err());
    assert!(CipherTextCca::<Base512>::decode(&ct.encode()[..1119]).is_err());
}

#[test]
fn sizes_are_those_of_the_encodings() {
    assert_eq!(<Base512 as NewHopeBaseSize>::size(), 512);
    assert_eq!(<Base1024 as NewHopeBaseSize>::size(), 1024);
    assert_eq!(<Base512 as NewHopeBaseSize>::sym(), 32);
    assert_eq!(<Base512 as NewHopeBaseSize>::poly(), 896);
    assert_eq!(<Base1024 as NewHopeBaseSize>::poly(), 1792);
    assert_eq!(<Base512 as NewHopeBaseSize>::poly_compressed(), 192);
    assert_eq!(<Base1024 as NewHopeBaseSize>::poly_compressed(), 384);
    assert_eq!(Cpakem::<Base512>::public_key(), 928);
    assert_eq!(Cpakem::<Base512>::secret_key(), 896);
    assert_eq!(Cpakem::<Base512>::cipher_text(), 1088);
    assert_eq!(Cpakem::<Base1024>::public_key(), 1824);
    assert_eq!(Cpakem::<Base1024>::secret_key(), 1792);
    assert_eq!(Cpakem::<Base1024>::cipher_text(), 2176);
    assert_eq!(Ccakem::<Base512>::public_key(), 928);
    assert_eq!(Ccakem::<Base512>::secret_key(), 1888);
    assert_eq!(Ccakem::<Base512>::cipher_text(), 1120);
    assert_eq!(Ccakem::<Base1024>::public_key(), 1824);
    assert_eq!(Ccakem::<Base1024>::secret_key(), 3680);
    assert_eq!(Ccakem::<Base1024>::cipher_text(), 2208);
    assert_eq!(Ccakem::<Base1024>::shared_secret(), 32);
    assert_eq!(Cpakem::<Base1024>::shared_secret(), 32);
    assert_eq!(PublicKey::<Base512>::size(), 896);
    assert_eq!(SecretKey::<Base1024>::size(), 1792);
    assert_eq!(PublicKeyCpa::<Base512>::size(), 928);
    assert_eq!(SecretKeyCpa::<Base512>::size(), 896);
    assert_eq!(CipherTextCpa::<Base1024>::size(), 2176);
    assert_eq!(PublicKeyCca::<Base1024>::size(), 1824);
    assert_eq!(SecretKeyCca::<Base1024>::size(), 3680);
    assert_eq!(CipherTextCca::<Base512>::size(), 1120);
    assert_eq!(Message::SIZE, 32);
}

#[test]
fn hash_is_shake256() {
    assert_eq!(hex(&h(&[], 32)), "46b9dd2b0ba88d13233b3feb743eeb243fcd52ea62b81b82b50c27646ed5762f");
    assert_eq!(hex(&h(b"abc", 64)), "483366601360a8771c6863080cc4114d8db44530f8f1e1ee4f94ea37e78b5739d5a15bef186a5386c75744c0527e1faa9f8726e462a12a4feb06bd8801e751e4");
    assert_eq!(h(b"abc", 0).len(), 0);
    assert_eq!(&h(b"abc", 64)[..32], &h(b"abc", 32)[..]);
}

#[test]
fn message_expand_and_hash() {
    let seed = Message([5u8; 32]);
    let mut input = vec![1u8];
    input.extend_from_slice(&[5u8; 32]);
    let expected = h(&input, 64);
    let (first, second) = seed.expand(1);
    assert_eq!(first.0.to_vec(), expected[..32].to_vec());
    assert_eq!(second.0.to_vec(), expected[32..].to_vec());
    assert_ne!(seed.expand(2).0, first);
    assert_eq!(seed.hash().0.to_vec(), h(&[5u8; 32], 32));
}

#[test]
fn block32_and_append() {
    let bytes: Vec<u8> = (0..100).collect();
    let block = block32(&bytes, 10);
    assert_eq!(block.to_vec(), (10..42).collect::<Vec<u8>>());
    let mut v = vec![1u8, 2];
    append(&mut v, &[3, 4, 5]);
    assert_eq!(v, vec![1, 2, 3, 4, 5]);
    append(&mut v, &[]);
    assert_eq!(v, vec![1, 2, 3, 4, 5]);
}

#[test]
fn ct_eq_and_ct_select() {
    assert_eq!(ct_eq(&[1, 2, 3], &[1, 2, 3]), 0);
    assert_eq!(ct_eq(&[1, 2, 3], &[1, 2, 4]), 0xff);
    assert_eq!(ct_eq(&[0x80, 2, 3], &[0, 2, 3]), 0xff);
    assert_eq!(ct_eq(&[], &[]), 0);
    let mut r = [1u8; 32];
    let x = [2u8; 32];
    ct_select(&mut r, &x, 0);
    assert_eq!(r, [1u8; 32]);
    ct_select(&mut r, &x, 0xff);
    assert_eq!(r, [2u8; 32]);
    ct_zeroise(&mut r);
    assert_eq!(r, [0u8; 32]);
}

#[test]
fn absorb_pads_for_shake128() {
    let mut seed = [0u8; 32];
    for i in 0..32 {
        seed[i] = i as u8 + 1;
    }
    let state = absorb(&seed, 9);
    assert_eq!(state[0], 0x0807060504030201);
    assert_eq!(state[3], 0x201f1e1d1c1b1a19);
    assert_eq!(state[4], 0x1f09);
    assert_eq!(state[20], 0x8000000000000000);
    for k in (5..20).chain(21..25) {
        assert_eq!(state[k], 0);
    }
}

#[test]
fn accept_candidates_rejects_from_five_q_on() {
    let mut state = [0u64; 25];
    // candidates 0 to 3: 61444 accepted, 61445 rejected, 0xffff rejected, 7 accepted
    state[0] = 61444 | (61445 << 16) | (0xffff << 32) | (7 << 48);
    let mut values = Vec::new();
    accept_candidates(&state, &mut values);
    assert_eq!(values.len(), 64);
    assert_eq!(&values[..3], &[61444, 7, 0]);
    // only 64 values are taken, though 82 candidates are acceptable
    let mut values = vec![1u16; 60];
    accept_candidates(&state, &mut values);
    assert_eq!(values.len(), 64);
    assert_eq!(&values[60..], &[61444, 7, 0, 0]);
    // a block without enough acceptable candidates leaves the count below 64
    let state = [u64::MAX; 25];
    let mut values = vec![1u16; 3];
    accept_candidates(&state, &mut values);
    assert_eq!(values, vec![1, 1, 1]);
}

#[test]
fn binomial_block_takes_the_difference_of_bit_counts() {
    assert_eq!(count_bits(0), 0);
    assert_eq!(count_bits(0xff), 8);
    assert_eq!(count_bits(0xa5), 4);
    assert_eq!(count_bits(0x80), 1);
    let mut buffer = [0u8; 128];
    buffer[0] = 0xff;
    buffer[3] = 0xff;
    buffer[4] = 0x0f;
    buffer[5] = 0x01;
    let block = binomial_block(&buffer);
    assert_eq!(block.len(), 64);
    assert_eq!(block[0].data(), 12289 + 8);
    assert_eq!(block[1].data(), 12289 - 8);
    assert_eq!(block[2].data(), 12289 + 3);
    assert_eq!(block[3].data(), 12289);
}

#[test]
fn error_of_decryption_stays_within_the_budget() {
    let pke = Parameter::<Base1024>::new(&[0xaau8; 32]);
    let (pk_a, sk_a) = pke.generate(&[1u8; 32]);
    let plain = [0x5au8; 32];
    let (pk_b, ct) = pke.encrypt(&[2u8; 32], &pk_a, &plain);
    let key = PolyState { bit_order: false, size: false, domain: true };
    let pk = Poly::<Base1024>::unpack(&pk_b.encode(), key).unwrap();
    let sk = Poly::<Base1024>::unpack(&sk_a.encode(), key).unwrap();
    let shared = pk.mul(&sk).reverse_bits().inv_ntt();
    let received = Poly::<Base1024>::decompress(&ct, shared.state());
    let message = Poly::<Base1024>::from_message(&plain, shared.state());
    // what decryption is left with besides the message
    let left = shared.sub(&received).add(&message);
    let mut farthest = 0;
    for i in 0..1024 {
        let r = left.coefficient(i) % 12289;
        let distance = if r <= 6144 { r } else { 12289 - r };
        farthest = farthest.max(distance);
    }
    assert!(farthest > 0 && farthest <= 3070);
    assert_eq!(Parameter::<Base1024>::decrypt(&pk_b, &sk_a, &ct), plain);
}
