use windowflow::crypto::{generate_hex_key, hash_window_title, is_valid_db_key, title_hash_from_digest};
use windowflow::digits::{decimal_i64, decimal_u64, hex_lower};

#[test]
fn test_hash_window_title() {
    let title = "Test Window Title";
    let hash1 = hash_window_title(title);
    let hash2 = hash_window_title(title);
    assert_eq!(hash1, hash2);
    assert_eq!(hash1.len(), 16);
}

#[test]
fn title_hash_is_sha256_prefix() {
    assert_eq!(hash_window_title(""), "e3b0c44298fc1c14");
    assert_eq!(hash_window_title("abc"), "ba7816bf8f01cfea");
    assert_eq!(title_hash_from_digest(&[0, 1, 2, 0xab, 0xcd, 0xef, 0x10, 0xff, 9]), "000102abcdef10ff");
}

#[test]
fn test_generate_hex_key_format() {
    let k = generate_hex_key().expect("OS RNG failed");
    assert_eq!(k.len(), 64);
    assert!(k.chars().all(|c| c.is_ascii_hexdigit()));
}

#[test]
fn test_generate_hex_key_unique() {
    assert_ne!(generate_hex_key().unwrap(), generate_hex_key().unwrap());
}

#[test]
fn generated_key_passes_key_check() {
    let k = generate_hex_key().unwrap();
    assert!(is_valid_db_key(&k));
}

#[test]
fn key_check_needs_64_hex_digits() {
    assert!(is_valid_db_key(&"aB0".repeat(21).chars().chain("f".chars()).collect::<String>()));
    assert!(!is_valid_db_key(&"a".repeat(63)));
    assert!(!is_valid_db_key(&"a".repeat(65)));
    assert!(!is_valid_db_key(&format!("{}g", "a".repeat(63))));
    assert!(!is_valid_db_key(""));
}

#[test]
fn numbers_as_text() {
    assert_eq!(decimal_u64(0), "0");
    assert_eq!(decimal_u64(u64::MAX), "18446744073709551615");
    assert_eq!(decimal_i64(-42), "-42");
    assert_eq!(decimal_i64(i64::MIN), "-9223372036854775808");
    assert_eq!(hex_lower(&[0x0f, 0xa0]), "0fa0");
}
