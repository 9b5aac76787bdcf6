use aes_gcm::aead::{Aead, KeyInit};
use aes_gcm::{Aes256Gcm, Nonce};
use hkdf::Hkdf;
use kokonachat::crypto::cipher::{
    ed_pub_to_x25519, open, seal, seal_with, CipherError, KDF_INFO_PREFIX, KDF_SALT,
};
use kokonachat::crypto::id::{decode, encode, short, short_from_hex, show_id, IdError};
use kokonachat::crypto::keys::{Identity, KeyError};
use sha2::Sha256;
use x25519_dalek::{PublicKey as XPub, StaticSecret};

fn xpub(sk: &[u8; 32]) -> [u8; 32] {
    XPub::from(&StaticSecret::from(*sk)).to_bytes()
}

#[test]
fn seal_open_roundtrip() {
    let a_sk = [1u8; 32];
    let b_sk = [2u8; 32];
    let a_pub: [u8; 32] = xpub(&a_sk);
    let b_pub: [u8; 32] = xpub(&b_sk);

    let msg = b"hello kokona";
    let sealed = seal(&a_sk, &b_pub, &a_pub, &b_pub, msg).ok().unwrap();
    let pt = open(&sealed, &b_sk, &a_pub, &a_pub, &b_pub).unwrap();
    assert_eq!(pt, msg);
}

#[test]
fn tamper_fails() {
    let a_sk = [1u8; 32];
    let b_sk = [2u8; 32];
    let a_pub: [u8; 32] = xpub(&a_sk);
    let b_pub: [u8; 32] = xpub(&b_sk);

    let mut sealed = seal(&a_sk, &b_pub, &a_pub, &b_pub, b"hi").ok().unwrap();
    sealed.ciphertext[0] ^= 0xff;
    assert!(open(&sealed, &b_sk, &a_pub, &a_pub, &b_pub).is_err());
    assert_eq!(
        open(&sealed, &b_sk, &a_pub, &a_pub, &b_pub).err(),
        Some(CipherError::Decrypt)
    );
}

#[test]
fn someone_else_cannot_open() {
    let a_sk = [1u8; 32];
    let b_sk = [2u8; 32];
    let c_sk = [3u8; 32];
    let a_pub = xpub(&a_sk);
    let b_pub = xpub(&b_sk);
    let sealed = seal(&a_sk, &b_pub, &a_pub, &b_pub, b"secret").ok().unwrap();
    assert!(open(&sealed, &c_sk, &a_pub, &a_pub, &b_pub).is_err());
    assert!(open(&sealed, &b_sk, &a_pub, &b_pub, &a_pub).is_err(), "IDs are part of the key");
}

#[test]
fn sealing_is_what_the_primitives_give() {
    let eph = [7u8; 32];
    let nonce = [9u8; 12];
    let a_sk = [1u8; 32];
    let b_sk = [2u8; 32];
    let b_pub = xpub(&b_sk);
    let a_id = [0xaa; 32];
    let b_id = [0xbb; 32];
    let sealed = seal_with(&eph, &nonce, &a_sk, &b_pub, &a_id, &b_id, b"text").ok().unwrap();

    assert_eq!(sealed.eph_pub, xpub(&eph));
    assert_eq!(sealed.nonce, nonce);
    let s1 = StaticSecret::from(eph).diffie_hellman(&XPub::from(b_pub));
    let s2 = StaticSecret::from(a_sk).diffie_hellman(&XPub::from(b_pub));
    let mut ikm = s1.as_bytes().to_vec();
    ikm.extend_from_slice(s2.as_bytes());
    let mut info = b"KokonaChat/1.0/".to_vec();
    info.extend_from_slice(&a_id);
    info.extend_from_slice(&b_id);
    let mut key = [0u8; 32];
    Hkdf::<Sha256>::new(Some(b"KokonaChat-v1-static-salt"), &ikm)
        .expand(&info, &mut key)
        .unwrap();
    let want = Aes256Gcm::new_from_slice(&key)
        .unwrap()
        .encrypt(Nonce::from_slice(&nonce), &b"text"[..])
        .unwrap();
    assert_eq!(sealed.ciphertext, want);
    assert_eq!(sealed.ciphertext.len(), 4 + 16);
    assert_eq!(&KDF_SALT, b"KokonaChat-v1-static-salt");
    assert_eq!(&KDF_INFO_PREFIX, b"KokonaChat/1.0/");
}

#[test]
fn two_seals_differ() {
    let a_sk = [1u8; 32];
    let b_pub = xpub(&[2u8; 32]);
    let x = seal(&a_sk, &b_pub, &[1; 32], &[2; 32], b"same").ok().unwrap();
    let y = seal(&a_sk, &b_pub, &[1; 32], &[2; 32], b"same").ok().unwrap();
    assert_ne!(x.eph_pub, y.eph_pub);
    assert_ne!(x.nonce, y.nonce);
    assert_ne!(x.ciphertext, y.ciphertext);
}

#[test]
fn roundtrip() {
    let pk = [7u8; 32];
    let s = encode(pk);
    assert_eq!(s.len(), 64);
    assert_eq!(decode(&s).unwrap(), pk);
}

#[test]
fn ids_are_lower_case_hex() {
    let mut pk = [0u8; 32];
    pk[0] = 0xde;
    pk[1] = 0xad;
    pk[31] = 0x0f;
    let s = encode(pk);
    assert!(s.starts_with("dead00"));
    assert!(s.ends_with("000f"));
    assert_eq!(short(&pk), "dead00000000");
    assert_eq!(decode(&s.to_uppercase()).unwrap(), pk);
    let padded = format!("  {s}\n");
    assert_eq!(decode(&padded).unwrap(), pk);
}

#[test]
fn bad_ids_are_refused() {
    assert_eq!(decode("abc"), Err(IdError::Length(3)));
    let zs = "z".repeat(64);
    assert_eq!(decode(&zs), Err(IdError::Hex));
    assert_eq!(
        IdError::Length(3).message(),
        "用户 ID 应为 64 位 hex（公钥），收到 3 位"
    );
    assert_eq!(IdError::Hex.message(), "用户 ID 不是合法的 hex");
}

#[test]
fn short_ids() {
    assert_eq!(short_from_hex("0123456789abcdef"), "0123456789ab");
    assert_eq!(short_from_hex("0123"), "0123");
    assert_eq!(show_id("0123456789abcdef"), "0123456789ab");
    assert_eq!(show_id("心夏心夏心夏"), "心夏心夏");
    assert_eq!(show_id("a心夏心夏心夏"), "a心夏心夏心夏");
}

#[test]
fn x25519_pub_matches_id_conversion() {
    for seed_byte in 0u8..8 {
        let mut seed = [0u8; 32];
        seed[0] = 0xA5;
        seed[1] = seed_byte;
        let id = Identity::from_seed(seed);
        let from_id = ed_pub_to_x25519(&id.ed_pub).unwrap();
        let actual = xpub(&id.x25519_sk);
        assert_eq!(from_id, actual, "seed[1]={seed_byte}");
    }
}

#[test]
fn identity_of_a_known_seed() {
    let id = Identity::from_seed_hex(
        "9d61b19deffd5a60ba844af492ec2cc44449c5697b326919703bac031cae7f60",
    )
    .ok()
    .unwrap();
    assert_eq!(
        id.user_id(),
        "d75a980182b10ab7d54bfed3c964073a0ee172f3daa62325af021a68f707511a"
    );
    assert_eq!(
        id.seed_hex(),
        "9d61b19deffd5a60ba844af492ec2cc44449c5697b326919703bac031cae7f60"
    );
    let sk = ed25519_dalek::SigningKey::from_bytes(&id.seed);
    assert_eq!(xpub(&id.x25519_sk), xpub(&sk.to_scalar_bytes()));
}

#[test]
fn key_files() {
    let seed = [5u8; 32];
    let id = Identity::from_key_file(&seed).ok().unwrap();
    assert_eq!(id.seed, seed);
    assert_eq!(id.ed_pub, Identity::from_seed(seed).ed_pub);
    assert_eq!(Identity::from_key_file(&[1, 2, 3]).err(), Some(KeyError::Length));
    assert_eq!(Identity::from_seed_hex("0102").err(), Some(KeyError::Length));
    assert_eq!(Identity::from_seed_hex("xy").err(), Some(KeyError::Hex));
}

#[test]
fn generated_identities_differ() {
    let a = Identity::generate();
    let b = Identity::generate();
    assert_ne!(a.seed, b.seed);
    assert_ne!(a.ed_pub, b.ed_pub);
    assert_ne!(a.ed_pub, a.seed);
    assert_ne!(a.x25519_sk, a.seed);
}

#[test]
fn ids_off_the_curve_have_no_key() {
    let mut found = false;
    for b in 0u8..16 {
        let mut id = [0u8; 32];
        id[0] = b;
        let known = curve25519_dalek::edwards::CompressedEdwardsY(id).decompress();
        assert_eq!(ed_pub_to_x25519(&id).is_some(), known.is_some());
        found = found || known.is_none();
    }
    assert!(found);
}
