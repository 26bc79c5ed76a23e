use config_center::types::{Auth, AuthConfig};
use config_center::util::{
    calculate_hash, compress_data, decompress_data, decrypt_value, encrypt_value, format_timestamp, generate_uuid,
    get_current_timestamp, is_valid_key,
};

#[test]
fn test_key_validation() {
    assert!(is_valid_key("valid.key"));
    assert!(is_valid_key("valid-key"));
    assert!(is_valid_key("valid_key"));
    assert!(is_valid_key("valid"));
    assert!(!is_valid_key("invalid.key."));
    assert!(!is_valid_key(".invalid"));
    assert!(!is_valid_key("invalid@key"));
}

#[test]
fn key_validation_edges() {
    assert!(!is_valid_key(""));
    assert!(!is_valid_key("a.b.c"));
    assert!(!is_valid_key("a..b"));
    assert!(!is_valid_key("."));
    assert!(is_valid_key("a.b"));
    assert!(is_valid_key("ünïcode"));
}

#[test]
fn test_uuid_generation() {
    let uuid = generate_uuid();
    assert!(!uuid.is_empty());
    assert_eq!(uuid.len(), 36);
    assert_ne!(uuid, generate_uuid());
}

#[test]
fn test_timestamp() {
    let timestamp = get_current_timestamp();
    assert!(timestamp > 0);
    assert!(!format_timestamp(timestamp).is_empty());
}

#[test]
fn format_timestamp_exact() {
    assert_eq!(format_timestamp(0), "1970-01-01 00:00:00");
    assert_eq!(format_timestamp(86_400 + 3_661), "1970-01-02 01:01:01");
    assert_eq!(format_timestamp(u64::MAX), "1970-01-01 00:00:00");
}

#[test]
fn test_compression() {
    let data = b"test data";
    let compressed = compress_data(data).unwrap();
    assert_ne!(compressed, data.to_vec());
    let decompressed = decompress_data(&compressed).unwrap();
    assert_eq!(data.to_vec(), decompressed);
}

#[test]
fn decompress_rejects_garbage() {
    assert!(decompress_data(b"not gzip at all").is_err());
}

#[test]
fn test_encryption() {
    let key = b"0123456789abcdef0123456789abcdef"; // 32 bytes
    let value = "test value";
    let encrypted = encrypt_value(value, key).unwrap();
    assert_ne!(encrypted, value);
    let decrypted = decrypt_value(&encrypted, key).unwrap();
    assert_eq!(value, decrypted);
}

#[test]
fn encryption_refuses_short_key() {
    assert!(encrypt_value("v", b"short").is_err());
    assert!(decrypt_value("AAAA", b"short").is_err());
}

#[test]
fn decryption_with_wrong_key_fails() {
    let encrypted = encrypt_value("secret", b"0123456789abcdef0123456789abcdef").unwrap();
    assert!(decrypt_value(&encrypted, b"fedcba9876543210fedcba9876543210").is_err());
}

#[test]
fn test_hash() {
    let data = b"test data";
    let hash = calculate_hash(data);
    assert_eq!(hash.len(), 64);
}

#[test]
fn hash_exact_value() {
    assert_eq!(
        calculate_hash(b"abc"),
        "ba7816bf8f01cfea414140de5dae2223b00361a396177a9cb410ff61f20015ad"
    );
}

fn auth_config() -> AuthConfig {
    AuthConfig {
        jwt_secret: "test_secret".to_string(),
        token_expiration: 3600,
        password_hash_cost: 10,
        rbac_model: "config/rbac_model.conf".to_string(),
    }
}

#[test]
fn test_password_hashing() {
    let config = auth_config();
    let auth = Auth::new(&config).unwrap();
    let password = "test_password";

    let hash = auth.hash_password(password).unwrap();
    assert!(auth.verify_password(password, &hash).unwrap());
    assert!(!auth.verify_password("wrong_password", &hash).unwrap());
}

#[test]
fn password_hashing_refuses_bad_cost() {
    let mut config = auth_config();
    config.password_hash_cost = 2;
    let auth = Auth::new(&config).unwrap();
    assert!(auth.hash_password("p").is_err());
    assert!(auth.verify_password("p", "not a hash").is_err());
}

#[test]
fn auth_keeps_settings() {
    let config = auth_config();
    let auth = Auth::new(&config).unwrap();
    assert_eq!(auth.settings().jwt_secret, "test_secret");
    assert_eq!(auth.settings().token_expiration, 3600);
}
