use sha1_cracker::sha1::Sha1;
use sha1_cracker::sha1::Sha1Error;

fn digest_of(input: &[u8]) -> String {
    let mut hasher = Sha1::new();
    hasher.update(input).unwrap();
    hasher.finalize().unwrap()
}

#[test]
fn empty_input_digest() {
    assert_eq!(digest_of(b""), "da39a3ee5e6b4b0d3255bfef95601890afd80709");
}

#[test]
fn abc_digest() {
    let digest = digest_of(b"abc");
    assert!(digest.starts_with("a9993e364706816aba3e25717850c26c9cd0d89"));
    assert_eq!(digest, "a9993e364706816aba3e25717850c26c9cd0d89d");
}

#[test]
fn quick_brown_fox_digest() {
    assert_eq!(
        digest_of(b"The quick brown fox jumps over the lazy dog"),
        "2fd4e1c67a2d28fced849ee1bb76e7391b93eb12"
    );
}

#[test]
fn quick_brown_cog_digest() {
    assert_eq!(
        digest_of(b"The quick brown fox jumps over the lazy cog"),
        "de9f2c7fd25e1b3afad3e85a0bd17d9b100db4b3"
    );
}

#[test]
fn two_block_standard_vector() {
    // 56 bytes: the 0x80 marker leaves no room for the length field, so a
    // second, zero-filled block is compressed.
    assert_eq!(
        digest_of(b"abcdbcdecdefdefgefghfghighijhijkijkljklmklmnlmnomnopnopq"),
        "84983e441c3bd26ebaae4aa1f95129e5e54670f1"
    );
}

#[test]
fn million_a_digest() {
    // One million bytes: an exact multiple of 64, so every block boundary is
    // hit and finalization starts from an empty pending buffer.
    let input = vec![b'a'; 1_000_000];
    assert_eq!(digest_of(&input), "34aa973cd4c4daa4f61eeb2bdbad27316534016f");
}

#[test]
fn block_multiple_lengths_finalize() {
    for &n in &[64usize, 128, 192] {
        let input = vec![b'x'; n];
        let whole = digest_of(&input);
        // The same bytes absorbed in 64-byte pieces give the same digest.
        let mut hasher = Sha1::new();
        for chunk in input.chunks(64) {
            hasher.update(chunk).unwrap();
        }
        assert_eq!(hasher.finalize().unwrap(), whole);
        assert_eq!(whole.len(), 40);
    }
}

#[test]
fn streaming_partitions_agree() {
    let message = b"The quick brown fox jumps over the lazy dog";
    let whole = digest_of(message);
    for cut in 0..=message.len() {
        let mut hasher = Sha1::new();
        hasher.update(&message[..cut]).unwrap();
        hasher.update(&message[cut..]).unwrap();
        assert_eq!(hasher.finalize().unwrap(), whole);
    }
    let mut hasher = Sha1::new();
    for byte in message.iter() {
        hasher.update(&[*byte]).unwrap();
    }
    assert_eq!(hasher.finalize().unwrap(), whole);
    let mut hasher = Sha1::new();
    hasher.update(b"").unwrap();
    hasher.update(message).unwrap();
    hasher.update(b"").unwrap();
    assert_eq!(hasher.finalize().unwrap(), whole);
}

#[test]
fn digest_shape_is_forty_lowercase_hex() {
    let inputs: Vec<Vec<u8>> = vec![
        b"".to_vec(),
        b"a".to_vec(),
        b"abc".to_vec(),
        vec![0u8; 55],
        vec![0xffu8; 56],
        vec![7u8; 63],
        vec![1u8; 64],
        vec![2u8; 65],
    ];
    for input in inputs {
        let digest = digest_of(&input);
        assert_eq!(digest.len(), 40);
        assert!(digest.chars().all(|c| c.is_ascii_hexdigit() && !c.is_ascii_uppercase()));
    }
}

#[test]
fn padding_boundary_lengths_agree_with_streaming() {
    // Lengths around the 56-byte padding boundary, each absorbed whole and in
    // two pieces.
    for n in 53..=68usize {
        let input = vec![b'q'; n];
        let whole = digest_of(&input);
        let mut hasher = Sha1::new();
        hasher.update(&input[..n / 2]).unwrap();
        hasher.update(&input[n / 2..]).unwrap();
        assert_eq!(hasher.finalize().unwrap(), whole);
    }
}

#[test]
fn finalize_twice_fails() {
    let mut hasher = Sha1::new();
    hasher.update(b"abc").unwrap();
    let first = hasher.finalize();
    assert_eq!(first.unwrap(), "a9993e364706816aba3e25717850c26c9cd0d89d");
    let second = hasher.finalize();
    assert_eq!(second, Err(Sha1Error::AlreadyFinalized));
}

#[test]
fn update_after_finalize_fails() {
    let mut hasher = Sha1::new();
    hasher.update(b"abc").unwrap();
    hasher.finalize().unwrap();
    assert_eq!(hasher.update(b"more"), Err(Sha1Error::AlreadyFinalized));
}
