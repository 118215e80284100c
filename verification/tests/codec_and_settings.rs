// Tests of the codec pipeline (encryption round trip and its failure modes)
// and of the settings store (path resolution, load adoption, defaults).

use encrypt_save::codec::{decode_save, encode_save, SaveError};
use encrypt_save::save::{join_path, CurrentSave, SaveConfig, SaveGame};
use encrypt_save::setting::{apply_setting_load, config_path_with, save_setting_conf};

#[test]
fn encode_then_decode_round_trips() {
    for plain in [b"".to_vec(), b"x".to_vec(), (0u8..=255).collect::<Vec<u8>>()] {
        let cipher = encode_save(&plain).expect("encoding must succeed");
        let back = decode_save(&cipher).expect("decoding what was encoded must succeed");
        assert_eq!(back, plain);
    }
}

#[test]
fn encoding_actually_transforms_the_bytes() {
    let plain = b"a secret game state".to_vec();
    let cipher = encode_save(&plain).unwrap();
    assert_ne!(cipher, plain);
    // two encodings of the same state differ (fresh salt and nonce) yet both
    // decode to the same plaintext
    let cipher2 = encode_save(&plain).unwrap();
    assert_ne!(cipher, cipher2);
    assert_eq!(decode_save(&cipher2).unwrap(), plain);
}

#[test]
fn tampered_ciphertext_is_rejected() {
    let plain = b"state".to_vec();
    let mut cipher = encode_save(&plain).unwrap();
    let last = cipher.len() - 1;
    cipher[last] ^= 0xff;
    assert_eq!(decode_save(&cipher), Err(SaveError::Decryption));
    assert_eq!(decode_save(&vec![0u8; 7]), Err(SaveError::Decryption));
}

#[test]
fn missing_file_image_reports_io_error() {
    let mut cfg = SaveConfig::new(b"saves".to_vec());
    let mut cur = CurrentSave::new();
    cfg.save(&mut cur, &SaveGame(0), &b"one".to_vec()).unwrap();
    let r = cfg.apply_load(&mut cur, 1, None);
    assert_eq!(r, Err(SaveError::Io));
    assert_eq!(cur.0, 1);
}

#[test]
fn join_path_resolves_like_a_directory_join() {
    assert_eq!(
        join_path(&b"saves".to_vec(), &b"slot.dat".to_vec()),
        b"saves/slot.dat".to_vec()
    );
    assert_eq!(join_path(&Vec::new(), &b"slot.dat".to_vec()), b"slot.dat".to_vec());
}

#[test]
fn settings_file_name_and_path_fallbacks() {
    assert_eq!(save_setting_conf(), b"save_setting.conf".to_vec());
    let under = config_path_with(Some(b"/home/u/.local/share".to_vec()), &save_setting_conf());
    assert_eq!(under, b"/home/u/.local/share/save_setting.conf".to_vec());
    // no discoverable data directory: the bare file name
    let bare = config_path_with(None, &save_setting_conf());
    assert_eq!(bare, b"save_setting.conf".to_vec());
}

#[test]
fn platform_config_path_ends_with_the_file_name() {
    let conf = save_setting_conf();
    let path = encrypt_save::setting::config_path(&conf);
    assert!(path.len() >= conf.len());
    assert!(path.ends_with(&conf[..]));
    if path.len() > conf.len() {
        assert_eq!(path[path.len() - conf.len() - 1], b'/');
    }
}

#[test]
fn failed_settings_load_keeps_the_default_record() {
    let mut cfg = SaveConfig::default();
    let announced = apply_setting_load(&mut cfg, None);
    assert!(announced.is_none());
    assert_eq!(cfg.entries().len(), 0);
    assert_eq!(cfg.save_dir().len(), 0);
    assert_eq!(cfg.last_saved(), 0);
}

#[test]
fn successful_settings_load_replaces_the_record() {
    let mut cfg = SaveConfig::default();
    let parsed = SaveConfig::new(b"elsewhere".to_vec());
    let announced = apply_setting_load(&mut cfg, Some(parsed));
    assert!(announced.is_some());
    assert_eq!(cfg.save_dir(), &b"elsewhere".to_vec());
}
