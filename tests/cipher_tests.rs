use cryfs_blockstore::cipher::{
    allocate_space_for_ciphertext, Cipher, CipherAlgorithm, CipherError, EncryptionKey,
};
use cryfs_blockstore::data::Data;
use rand::rngs::StdRng;
use rand::{RngCore, SeedableRng};

const ALGORITHMS: [CipherAlgorithm; 3] = [
    CipherAlgorithm::XChaCha20Poly1305,
    CipherAlgorithm::Aes128Gcm,
    CipherAlgorithm::Aes256Gcm,
];

const SOME_PLAINTEXT: &str = "0ffc9a43e15ccfbef1b0880167df335677c9005948eeadb31f89b06b90a364ad03c6b0859652dca960f8fa60c75747c4f0a67f50f5b85b800468559ea1a816173c0abaf5df8f02978a54b250bc57c7c6a55d4d245014722c0b1764718a6d5ca654976370";

fn key(num_bytes: usize, seed: u64) -> EncryptionKey {
    let mut rng = StdRng::seed_from_u64(seed);
    EncryptionKey::new(num_bytes, move |key_data: &mut [u8]| {
        rng.fill_bytes(key_data);
        Ok::<(), ()>(())
    })
    .unwrap()
}

fn cipher(alg: CipherAlgorithm, seed: u64) -> Cipher {
    Cipher::new(alg, key(alg.key_size(), seed)).unwrap()
}

fn some_plaintext() -> Vec<u8> {
    hex::decode(SOME_PLAINTEXT).unwrap()
}

#[test]
fn given_emptydata_when_encrypted_then_canbedecrypted() {
    for alg in ALGORITHMS {
        let enc_cipher = cipher(alg, 1);
        let dec_cipher = cipher(alg, 1);
        let plaintext = allocate_space_for_ciphertext(alg, &[]);
        let ciphertext = enc_cipher.encrypt(plaintext.clone()).unwrap();
        let decrypted_plaintext = dec_cipher.decrypt(ciphertext).unwrap();
        assert_eq!(plaintext.as_slice(), decrypted_plaintext.as_slice());
    }
}

#[test]
fn given_somedata_when_encrypted_then_canbedecrypted() {
    for alg in ALGORITHMS {
        let enc_cipher = cipher(alg, 1);
        let dec_cipher = cipher(alg, 1);
        let plaintext = allocate_space_for_ciphertext(alg, &some_plaintext());
        let ciphertext = enc_cipher.encrypt(plaintext.clone()).unwrap();
        let decrypted_plaintext = dec_cipher.decrypt(ciphertext).unwrap();
        assert_eq!(plaintext.as_slice(), decrypted_plaintext.as_slice());
    }
}

#[test]
fn given_invalidciphertext_then_doesntdecrypt() {
    for alg in ALGORITHMS {
        let enc_cipher = cipher(alg, 1);
        let dec_cipher = cipher(alg, 1);
        let plaintext = allocate_space_for_ciphertext(alg, &some_plaintext());
        let mut ciphertext = enc_cipher.encrypt(plaintext.clone()).unwrap();
        let flipped = ciphertext.get(20) ^ 1;
        ciphertext.set(20, flipped);
        let decrypted_plaintext = dec_cipher.decrypt(ciphertext);
        assert!(decrypted_plaintext.is_err());
    }
}

#[test]
fn cipher_tests_given_toosmallciphertext_then_doesntdecrypt() {
    for alg in ALGORITHMS {
        let enc_cipher = cipher(alg, 1);
        let dec_cipher = cipher(alg, 1);
        let plaintext = allocate_space_for_ciphertext(alg, &some_plaintext());
        let ciphertext = enc_cipher.encrypt(plaintext.clone()).unwrap();
        let ciphertext = &ciphertext.as_slice()[..(ciphertext.len() - 1)];
        let decrypted_plaintext = dec_cipher.decrypt(Data::from_vec(ciphertext.to_vec()));
        assert!(decrypted_plaintext.is_err());

        let cipher = cipher(alg, 1);
        let ciphertext = vec![0xab, 0xcd];
        let decrypted_plaintext = cipher.decrypt(Data::from_vec(ciphertext));
        assert!(decrypted_plaintext.is_err());
    }
}

#[test]
fn given_differentkey_then_doesntdecrypt() {
    for alg in ALGORITHMS {
        let enc_cipher = cipher(alg, 1);
        let dec_cipher = cipher(alg, 2);
        let plaintext = allocate_space_for_ciphertext(alg, &some_plaintext());
        let ciphertext = enc_cipher.encrypt(plaintext.clone()).unwrap();
        let decrypted_plaintext = dec_cipher.decrypt(ciphertext);
        assert!(decrypted_plaintext.is_err());
    }
}

#[test]
fn given_emptydata_then_sizecalculationsarecorrect() {
    for alg in ALGORITHMS {
        let cipher = cipher(alg, 1);
        let plaintext = allocate_space_for_ciphertext(alg, &[]);
        let ciphertext = cipher.encrypt(plaintext.clone()).unwrap();
        assert_eq!(
            plaintext.len(),
            ciphertext.len()
                - alg.ciphertext_overhead_prefix()
                - alg.ciphertext_overhead_suffix()
        );
        assert_eq!(
            ciphertext.len(),
            plaintext.len() + alg.ciphertext_overhead_prefix() + alg.ciphertext_overhead_suffix()
        );
    }
}

#[test]
fn given_somedata_then_sizecalculationsarecorrect() {
    for alg in ALGORITHMS {
        let cipher = cipher(alg, 1);
        let plaintext = allocate_space_for_ciphertext(alg, &some_plaintext());
        let ciphertext = cipher.encrypt(plaintext.clone()).unwrap();
        assert_eq!(
            plaintext.len(),
            ciphertext.len()
                - alg.ciphertext_overhead_prefix()
                - alg.ciphertext_overhead_suffix()
        );
        assert_eq!(
            ciphertext.len(),
            plaintext.len() + alg.ciphertext_overhead_prefix() + alg.ciphertext_overhead_suffix()
        );
    }
}

#[test]
fn given_zerosizeciphertext_then_doesntdecrypt() {
    for alg in ALGORITHMS {
        let cipher = cipher(alg, 1);
        let ciphertext = vec![];
        let decrypted_plaintext = cipher.decrypt(Data::from_vec(ciphertext));
        assert_eq!(decrypted_plaintext.err(), Some(CipherError::IntegrityViolation));
    }
}

#[test]
fn test_encryption_is_indeterministic() {
    for alg in ALGORITHMS {
        let cipher = cipher(alg, 1);
        let plaintext = allocate_space_for_ciphertext(alg, &some_plaintext());
        let ciphertext1 = cipher.encrypt(plaintext.clone()).unwrap();
        let ciphertext2 = cipher.encrypt(plaintext.clone()).unwrap();
        assert_ne!(ciphertext1.as_slice(), ciphertext2.as_slice());
    }
}

#[test]
fn cipher_tests_test_backward_compatibility() {
    let cipher = cipher(CipherAlgorithm::XChaCha20Poly1305, 1);
    let ciphertext = hex::decode("f75cbc1dfb19c7686a90deb76123d628b6ff74a38cdb3a899c9c1d4dc4558bfee4d9e9af7b289436999fe779b47b1a6b95b30f").unwrap();
    assert_eq!(
        b"Hello World",
        cipher.decrypt(Data::from_vec(ciphertext)).unwrap().as_slice()
    );

    let cipher = self::cipher(CipherAlgorithm::Aes128Gcm, 1);
    let ciphertext = hex::decode(
        "3d15d00e18d0bb55a5b7d37614e3621bef03f3758390b98be8d7b0e7a51b4fc07b5af9dc3e19bf",
    )
    .unwrap();
    assert_eq!(
        b"Hello World",
        cipher.decrypt(Data::from_vec(ciphertext)).unwrap().as_slice()
    );
}

#[test]
fn test_backward_compatibility_software() {
    let cipher = cipher(CipherAlgorithm::Aes256Gcm, 1);
    let ciphertext = hex::decode(
        "b42e5713993597c702dd8f691402b3f43c65462fb478aca9791d53ea90bdc70e390064be2b94c5",
    )
    .unwrap();
    assert_eq!(
        b"Hello World",
        cipher.decrypt(Data::from_vec(ciphertext)).unwrap().as_slice()
    );
}

#[test]
fn test_backward_compatibility_hardware() {
    let cipher = cipher(CipherAlgorithm::Aes256Gcm, 1);
    let ciphertext = hex::decode(
        "b42e5713993597c702dd8f691402b3f43c65462fb478aca9791d53ea90bdc70e390064be2b94c5",
    )
    .unwrap();
    assert_eq!(
        b"Hello World",
        cipher.decrypt(Data::from_vec(ciphertext)).unwrap().as_slice()
    );
}

#[test]
fn wrong_key_size_is_rejected() {
    let r = Cipher::new(CipherAlgorithm::Aes128Gcm, key(32, 1));
    assert_eq!(
        r.err(),
        Some(CipherError::KeySizeMismatch { expected: 16, got: 32 })
    );
}

#[test]
fn overheads_per_algorithm() {
    assert_eq!(CipherAlgorithm::XChaCha20Poly1305.ciphertext_overhead_prefix(), 24);
    assert_eq!(CipherAlgorithm::Aes128Gcm.ciphertext_overhead_prefix(), 12);
    assert_eq!(CipherAlgorithm::Aes256Gcm.ciphertext_overhead_prefix(), 12);
    for alg in ALGORITHMS {
        assert_eq!(alg.ciphertext_overhead_suffix(), 16);
    }
    assert_eq!(CipherAlgorithm::Aes128Gcm.key_size(), 16);
    assert_eq!(CipherAlgorithm::Aes256Gcm.key_size(), 32);
}

#[test]
fn encryption_reuses_reservations_and_starts_with_nonce() {
    for alg in ALGORITHMS {
        let cipher = cipher(alg, 1);
        let plaintext = allocate_space_for_ciphertext(alg, b"Hello World");
        let ciphertext = cipher.encrypt(plaintext).unwrap();
        assert_eq!(ciphertext.available_prefix_bytes(), 0);
        assert_eq!(ciphertext.available_suffix_bytes(), 0);
        assert_eq!(ciphertext.len(), 11 + alg.ciphertext_overhead_prefix() + 16);
        // the ciphertext body differs from the plaintext
        let body = &ciphertext.as_slice()[alg.ciphertext_overhead_prefix()..][..11];
        assert_ne!(body, b"Hello World");
    }
}

#[test]
fn encryption_without_reservations_allocates() {
    for alg in ALGORITHMS {
        let cipher = cipher(alg, 3);
        let ciphertext = cipher.encrypt(Data::from_vec(b"abc".to_vec())).unwrap();
        assert_eq!(ciphertext.len(), 3 + alg.ciphertext_overhead_prefix() + 16);
        let plaintext = cipher.decrypt(ciphertext).unwrap();
        assert_eq!(plaintext.as_slice(), b"abc");
        // decryption leaves the overhead as reservations
        assert_eq!(plaintext.available_prefix_bytes(), alg.ciphertext_overhead_prefix());
        assert_eq!(plaintext.available_suffix_bytes(), 16);
    }
}

#[test]
fn every_truncation_is_rejected() {
    let alg = CipherAlgorithm::Aes128Gcm;
    let cipher = cipher(alg, 1);
    let ciphertext = cipher
        .encrypt(allocate_space_for_ciphertext(alg, b"Hello World"))
        .unwrap();
    for n in 0..ciphertext.len() {
        let truncated = ciphertext.as_slice()[..n].to_vec();
        assert!(cipher.decrypt(Data::from_vec(truncated)).is_err());
    }
}

#[test]
fn every_bit_flip_is_rejected() {
    let alg = CipherAlgorithm::XChaCha20Poly1305;
    let cipher = cipher(alg, 1);
    let ciphertext = cipher
        .encrypt(allocate_space_for_ciphertext(alg, b"Hello World"))
        .unwrap();
    for i in 0..ciphertext.len() {
        for bit in 0..8 {
            let mut c = ciphertext.clone();
            c.set(i, c.get(i) ^ (1 << bit));
            assert_eq!(
                cipher.decrypt(c).err(),
                Some(CipherError::IntegrityViolation)
            );
        }
    }
}

#[test]
fn two_encryptions_differ_and_both_decrypt() {
    for alg in ALGORITHMS {
        let cipher = cipher(alg, 1);
        let p = some_plaintext();
        let c1 = cipher.encrypt(allocate_space_for_ciphertext(alg, &p)).unwrap();
        let c2 = cipher.encrypt(allocate_space_for_ciphertext(alg, &p)).unwrap();
        assert_ne!(c1.as_slice(), c2.as_slice());
        assert_eq!(cipher.decrypt(c1).unwrap().as_slice(), &p[..]);
        assert_eq!(cipher.decrypt(c2).unwrap().as_slice(), &p[..]);
    }
}

#[test]
fn plaintext_limits_per_algorithm() {
    assert_eq!(
        CipherAlgorithm::XChaCha20Poly1305.max_plaintext_len(),
        64 * (u32::MAX as u64 - 1)
    );
    assert_eq!(CipherAlgorithm::Aes128Gcm.max_plaintext_len(), 1u64 << 36);
    assert_eq!(CipherAlgorithm::Aes256Gcm.max_plaintext_len(), 1u64 << 36);
}

#[test]
fn key_holds_what_fill_wrote_and_fill_errors_pass_through() {
    let k = EncryptionKey::new(4, |b: &mut [u8]| {
        b.copy_from_slice(&[1, 2, 3, 4]);
        Ok::<(), u8>(())
    })
    .unwrap();
    assert_eq!(k.as_bytes(), &[1, 2, 3, 4][..]);
    let e = EncryptionKey::new(4, |_: &mut [u8]| Err::<(), u8>(7));
    assert_eq!(e.err(), Some(7));
}

#[test]
fn allocated_plaintext_has_exact_zeroed_reservations() {
    let d = allocate_space_for_ciphertext(CipherAlgorithm::XChaCha20Poly1305, b"ab");
    assert_eq!(d.as_slice(), b"ab");
    assert_eq!(d.available_prefix_bytes(), 24);
    assert_eq!(d.available_suffix_bytes(), 16);
}
