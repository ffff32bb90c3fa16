use image_encryption::cipher::byte;
use image_encryption::cipher::chain_decrypt;
use image_encryption::cipher::chain_encrypt;
use image_encryption::decrypt_image;
use image_encryption::encrypt_image;
use image_encryption::perm::apply_permutation;
use image_encryption::perm::invert_permutation;
use image_encryption::stream::generate;
use image_encryption::transform_image;
use image_encryption::Image;
use image_encryption::Mode;

fn make_image(width: u32, height: u32, channel_count: u8, pixels: Vec<u8>) -> Image {
    Image { width, height, channel_count, pixels }
}

#[test]
fn byte_extracts_little_endian_lanes() {
    let w: u32 = 0x0403_0201;
    assert_eq!(byte(w, 0), 1);
    assert_eq!(byte(w, 1), 2);
    assert_eq!(byte(w, 2), 3);
    assert_eq!(byte(w, 3), 4);
}

#[test]
fn chain_cipher_exact_values_one_channel() {
    let p = vec![10u8, 20];
    let ks = vec![2u32, 3];
    let c = chain_encrypt(&p, 1, 1, &ks);
    assert_eq!(c, vec![9, 30]);
    let back = chain_decrypt(&c, 1, 1, &ks);
    assert_eq!(back, vec![10, 20]);
}

#[test]
fn chain_cipher_exact_values_two_channels() {
    let p = vec![1u8, 2, 3, 4];
    let ks = vec![0x0102u32, 0x0304];
    let c = chain_encrypt(&p, 2, 5, &ks);
    assert_eq!(c, vec![6, 3, 1, 4]);
    let back = chain_decrypt(&c, 2, 5, &ks);
    assert_eq!(back, vec![1, 2, 3, 4]);
}

#[test]
fn apply_permutation_gathers_whole_pixels() {
    let pixels = vec![1u8, 2, 3, 4, 5, 6];
    let p = vec![2usize, 0, 1];
    let out = apply_permutation(&pixels, 2, &p);
    assert_eq!(out, vec![5, 6, 1, 2, 3, 4]);
}

#[test]
fn invert_permutation_exact() {
    let p = vec![2usize, 0, 1];
    let inv = invert_permutation(&p);
    assert_eq!(inv, vec![1, 2, 0]);
}

#[test]
fn generated_permutation_is_bijective() {
    let (_, _, p) = generate(5, 10);
    let inv = invert_permutation(&p);
    assert_eq!(p.len(), 10);
    assert_eq!(inv.len(), 10);
    for i in 0..10 {
        assert_eq!(inv[p[i]], i);
        assert_eq!(p[inv[i]], i);
    }
    let mut sorted = p.clone();
    sorted.sort();
    assert_eq!(sorted, (0..10).collect::<Vec<usize>>());
}

#[test]
fn generate_is_deterministic() {
    let (i1, ks1, p1) = generate(9, 5);
    let (i2, ks2, p2) = generate(9, 5);
    assert_eq!(i1, i2);
    assert_eq!(ks1, ks2);
    assert_eq!(p1, p2);
    assert_eq!(ks1.len(), 5);
}

#[test]
fn generated_permutation_moves_pixels() {
    let identity = (0..16).collect::<Vec<usize>>();
    let mut moved = false;
    for key in [1u64, 2, 3] {
        let (_, _, p) = generate(key, 16);
        if p != identity {
            moved = true;
        }
    }
    assert!(moved);
}

#[test]
fn round_trip_rgb() {
    let pixels: Vec<u8> = (0..18).collect();
    let mut img = make_image(3, 2, 3, pixels.clone());
    encrypt_image(&mut img, 7);
    assert_ne!(img.pixels, pixels);
    decrypt_image(&mut img, 7);
    assert_eq!(img.pixels, pixels);
    assert_eq!(img.width, 3);
    assert_eq!(img.height, 2);
    assert_eq!(img.channel_count, 3);
}

#[test]
fn encryption_is_deterministic() {
    let pixels: Vec<u8> = (50..62).collect();
    let mut a = make_image(2, 2, 3, pixels.clone());
    let mut b = make_image(2, 2, 3, pixels);
    encrypt_image(&mut a, 1234);
    encrypt_image(&mut b, 1234);
    assert_eq!(a.pixels, b.pixels);
}

#[test]
fn different_keys_give_different_ciphertext() {
    let pixels: Vec<u8> = (0..24).collect();
    let mut a = make_image(2, 3, 4, pixels.clone());
    let mut b = make_image(2, 3, 4, pixels);
    encrypt_image(&mut a, 1);
    encrypt_image(&mut b, 2);
    assert_ne!(a.pixels, b.pixels);
}

#[test]
fn single_pixel_round_trip() {
    let mut img = make_image(1, 1, 3, vec![11, 22, 33]);
    encrypt_image(&mut img, 99);
    decrypt_image(&mut img, 99);
    assert_eq!(img.pixels, vec![11, 22, 33]);
}

#[test]
fn empty_image_is_a_noop_both_ways() {
    let mut img = make_image(0, 0, 1, Vec::new());
    encrypt_image(&mut img, 3);
    assert_eq!(img.pixels, Vec::<u8>::new());
    decrypt_image(&mut img, 3);
    assert_eq!(img.pixels, Vec::<u8>::new());

    let mut flat = make_image(5, 0, 4, Vec::new());
    encrypt_image(&mut flat, 8);
    assert_eq!(flat.pixels, Vec::<u8>::new());
    decrypt_image(&mut flat, 8);
    assert_eq!(flat.pixels, Vec::<u8>::new());
}

#[test]
fn grayscale_round_trip() {
    let pixels: Vec<u8> = vec![0, 255, 128, 64, 32, 16];
    let mut img = make_image(6, 1, 1, pixels.clone());
    encrypt_image(&mut img, 77);
    decrypt_image(&mut img, 77);
    assert_eq!(img.pixels, pixels);
}

#[test]
fn four_channel_round_trip() {
    let pixels: Vec<u8> = (100..116).collect();
    let mut img = make_image(2, 2, 4, pixels.clone());
    encrypt_image(&mut img, 2024);
    decrypt_image(&mut img, 2024);
    assert_eq!(img.pixels, pixels);
}

#[test]
fn concrete_two_pixel_grayscale_scenario() {
    let mut img = make_image(2, 1, 1, vec![10, 20]);
    encrypt_image(&mut img, 42);
    let cipher = img.pixels.clone();
    assert_ne!(cipher, vec![10, 20]);
    decrypt_image(&mut img, 42);
    assert_eq!(img.pixels, vec![10, 20]);

    let mut again = make_image(2, 1, 1, vec![10, 20]);
    encrypt_image(&mut again, 42);
    assert_eq!(again.pixels, cipher);
}

#[test]
fn transform_dispatches_on_mode() {
    let pixels: Vec<u8> = (1..13).collect();
    let mut by_mode = make_image(4, 1, 3, pixels.clone());
    let mut direct = make_image(4, 1, 3, pixels.clone());
    transform_image(&mut by_mode, Mode::Enc, 55);
    encrypt_image(&mut direct, 55);
    assert_eq!(by_mode.pixels, direct.pixels);
    transform_image(&mut by_mode, Mode::Dec, 55);
    assert_eq!(by_mode.pixels, pixels);
}
