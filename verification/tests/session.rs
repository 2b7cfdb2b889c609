use grammers_session::Session;
use textscan::base64::{b64decode, b64encode};
use textscan::session::{
    decrypt_session, derive_keystream, encrypt_session, restore_session, seal, stored_session,
    unseal,
};

#[test]
fn base64_known_values() {
    assert_eq!(b64encode(b""), "");
    assert_eq!(b64encode(b"f"), "Zg==");
    assert_eq!(b64encode(b"fo"), "Zm8=");
    assert_eq!(b64encode(b"foo"), "Zm9v");
    assert_eq!(b64encode(b"foobar"), "Zm9vYmFy");
    assert_eq!(b64encode(&[0xfb, 0xff, 0xbf]), "+/+/");
    assert_eq!(b64decode("Zm9vYg=="), b"foob");
    assert_eq!(b64decode("+/+/"), vec![0xfb, 0xff, 0xbf]);
}

#[test]
fn base64_reads_leniently() {
    assert_eq!(b64decode("Z=m9v"), b"foo");
    assert_eq!(b64decode("Zm9vA"), b"foo");
    assert_eq!(b64decode("!!!!"), vec![0, 0, 0]);
    assert_eq!(b64decode("A"), Vec::<u8>::new());
    assert_eq!(b64decode("é="), vec![0]);
}

#[test]
fn base64_gives_back_what_it_wrote() {
    let mut data: Vec<u8> = Vec::new();
    for i in 0..=255u8 {
        assert_eq!(b64decode(&b64encode(&data)), data);
        data.push(i.wrapping_mul(37));
    }
}

#[test]
fn keystream_known_values() {
    assert_eq!(
        derive_keystream("key", 40),
        vec![
            44, 207, 94, 158, 165, 85, 152, 191, 104, 121, 202, 11, 152, 14, 55, 68, 181, 176, 82,
            104, 144, 157, 204, 253, 11, 128, 165, 146, 7, 36, 208, 59, 95, 190, 105, 74, 94, 112,
            204, 180
        ]
    );
    assert_eq!(derive_keystream("", 3), vec![0, 0, 0]);
    assert_eq!(derive_keystream("key", 0), Vec::<u8>::new());
}

#[test]
fn encryption_known_values() {
    assert_eq!(encrypt_session("aGVsbG8=", "key"), "TYgI7ccSoII=");
    assert_eq!(encrypt_session("aGVsbG8=", "ключ"), "Ujx0SAiz2JA=");
    assert_eq!(
        encrypt_session(&"x".repeat(70), "k"),
        "VCRJTdClpFCbLUamT++ViReO/DSfKIwX5tElKDkcquEnMY3Wdh4E/hKeZFmeGPU0pcN+zb7YtPm4bmbPaEj0uLKBtncWxA=="
    );
}

#[test]
fn empty_key_keeps_the_text() {
    assert_eq!(encrypt_session("aGVsbG8=", ""), "aGVsbG8=");
    assert_eq!(decrypt_session("anything", "").as_deref(), Some("anything"));
}

#[test]
fn decryption_gives_back_the_text() {
    for raw in ["", "aGVsbG8=", "любой текст", "\u{1f600}"] {
        for key in ["", "k", "key", "ключ", "a key that is longer than one block of the stream"] {
            assert_eq!(decrypt_session(&encrypt_session(raw, key), key).as_deref(), Some(raw));
        }
    }
}

#[test]
fn decryption_fails_where_no_text_comes_out() {
    assert_eq!(decrypt_session(&encrypt_session("aGVsbG8=", "key"), "other"), None);
}

#[test]
fn sealed_bytes_come_back() {
    let data: Vec<u8> = (0..=255u8).collect();
    for key in ["", "key"] {
        assert_eq!(unseal(&seal(&data, key), key), Some(data.clone()));
    }
    assert_eq!(seal(b"hello", "key"), "TYgI7ccSoII=");
    assert_eq!(unseal(&seal(&data, "key"), "other"), None);
}

#[test]
fn stored_sessions_are_restored() {
    let session = Session::new();
    session.set_user(42, 2, false);
    session.insert_dc(2, "149.154.167.51:443".parse().unwrap(), [7u8; 256]);
    for key in ["", "key"] {
        let stored = stored_session(&session, key);
        assert_eq!(stored, seal(&session.save(), key));
        let restored = restore_session(&stored, key).unwrap().into_session();
        assert!(restored.signed_in());
        assert_eq!(restored.save(), session.save());
        assert_eq!(restored.dc_auth_key(2), Some([7u8; 256]));
    }
    let empty = restore_session(&stored_session(&Session::new(), "k"), "k").unwrap();
    assert!(!empty.into_session().signed_in());
}

#[test]
fn what_is_no_session_is_not_restored() {
    assert!(restore_session("", "").is_none());
    assert!(restore_session("AAAAAAAA", "").is_none());
    let stored = stored_session(&Session::new(), "key");
    assert!(restore_session(&stored, "other").is_none());
}
