use report_bot::ids::{percent_encode, valid_exe, valid_id, MAX_EXE_LEN, MAX_ID_LEN};

#[test]
fn an_id_is_a_store_s_own_token_and_nothing_else() {
    assert!(valid_id("1091500"));
    assert!(valid_id("Pub.Title"));
    assert!(valid_id("a-b_c"));
    for bad in ["", "1;drop", "a b", "../x", "c:\\x", "[x](y)", "a\u{202E}b"] {
        assert!(!valid_id(bad), "{bad:?}");
    }
    assert!(valid_id(&"a".repeat(MAX_ID_LEN)));
    assert!(!valid_id(&"a".repeat(MAX_ID_LEN + 1)));
}

#[test]
fn an_executable_is_a_file_name_never_a_path() {
    assert!(valid_exe("Cyberpunk2077.exe"));
    assert!(valid_exe("My Game.exe"));
    for bad in [
        "", ".", "..", "a/b.exe", "a\\b.exe", "c:x.exe", "a\"b.exe", "a|b", "a\nb",
    ] {
        assert!(!valid_exe(bad), "{bad:?}");
    }
    assert!(!valid_exe(&"a".repeat(MAX_EXE_LEN + 1)));
}

#[test]
fn only_the_unreserved_set_travels_as_itself() {
    assert_eq!(percent_encode("steam:42"), "steam%3A42");
    assert_eq!(percent_encode("a b&c=d"), "a%20b%26c%3Dd");
    assert_eq!(percent_encode("é"), "%C3%A9");
    assert_eq!(percent_encode("A-z_0.9~"), "A-z_0.9~");
}

#[test]
fn an_executable_length_counts_bytes_not_characters() {
    assert!(valid_exe(&"a".repeat(MAX_EXE_LEN)));
    // 64 two-byte characters fill the limit exactly; one more byte is over it.
    assert!(valid_exe(&"é".repeat(MAX_EXE_LEN / 2)));
    assert!(!valid_exe(&format!("{}a", "é".repeat(MAX_EXE_LEN / 2))));
    assert!(valid_exe("..."));
}

#[test]
fn percent_encoding_of_nothing_is_nothing() {
    assert_eq!(percent_encode(""), "");
    assert_eq!(percent_encode("/"), "%2F");
    assert_eq!(percent_encode("\u{7f}"), "%7F");
}

#[test]
fn what_travels_holds_only_unreserved_characters_and_percent_signs() {
    let encoded = percent_encode("steam:42/../é?x=1#a b");
    assert_eq!(encoded, "steam%3A42%2F..%2F%C3%A9%3Fx%3D1%23a%20b");
    assert!(encoded
        .chars()
        .all(|c| c.is_ascii_alphanumeric() || "-._~%".contains(c)));
}

#[test]
fn percent_decoding_gives_back_the_text() {
    fn decode(t: &str) -> Vec<u8> {
        let b = t.as_bytes();
        let mut out = Vec::new();
        let mut i = 0;
        while i < b.len() {
            if b[i] == b'%' && i + 2 < b.len() {
                let hex = std::str::from_utf8(&b[i + 1..i + 3]).unwrap();
                out.push(u8::from_str_radix(hex, 16).unwrap());
                i += 3;
            } else {
                out.push(b[i]);
                i += 1;
            }
        }
        out
    }
    for text in ["steam:42", "a b&c=d", "é/ü?", "A-z_0.9~", "%41"] {
        assert_eq!(decode(&percent_encode(text)), text.as_bytes(), "{text:?}");
    }
    assert_eq!(percent_encode("Abc-9"), "Abc-9");
    assert_ne!(percent_encode("Abc 9"), "Abc 9");
}
