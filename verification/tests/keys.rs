use wg_device::keys::{derive_public, same_public_key};

fn unhex(text: &str) -> [u8; 32] {
    let bytes = text.as_bytes();
    let mut out = [0u8; 32];
    for i in 0..32 {
        let hi = (bytes[2 * i] as char).to_digit(16).unwrap() as u8;
        let lo = (bytes[2 * i + 1] as char).to_digit(16).unwrap() as u8;
        out[i] = hi * 16 + lo;
    }
    out
}

#[test]
fn public_key_of_a_known_private_key() {
    let private = unhex("77076d0a7318a57d3c16c17251b26645df4c2f87ebc0992ab177fba51db92c2a");
    let public = unhex("8520f0098930a754748b7ddcb43ef75a0dbf3a0d26381af4eba4a98eaa9b4e6a");
    assert_eq!(derive_public(&private), public);
}

#[test]
fn public_key_of_another_known_private_key() {
    let private = unhex("5dab087e624a8a4b79e17f8b83800ee66f3bb1292618b6fd1c2f8b27ff88e0eb");
    let public = unhex("de9edb7d7b7dc1b4d35b61c2ece435373f8343c85b78674dadfc7e146f882b4f");
    assert_eq!(derive_public(&private), public);
}

#[test]
fn public_key_differs_from_the_private_key() {
    let private = [7u8; 32];
    assert_ne!(derive_public(&private), private);
    assert_eq!(derive_public(&private), derive_public(&private));
}

#[test]
fn public_keys_are_compared_as_points() {
    let mut a = [0u8; 32];
    a[0] = 9;
    let mut b = a;
    b[31] = 0x80;
    let mut c = a;
    c[0] = 10;
    assert!(same_public_key(&a, &a));
    assert!(same_public_key(&a, &b));
    assert!(same_public_key(&b, &a));
    assert!(!same_public_key(&a, &c));
    assert!(!same_public_key(&b, &c));
}
