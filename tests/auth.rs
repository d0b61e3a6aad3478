use bilge::auth::{enc_string, scramble};

#[test]
fn key_of_a_short_serial() {
    assert_eq!(enc_string(String::from("AB-C")), "XTrCglg=");
}

#[test]
fn key_of_a_windows_style_serial() {
    assert_eq!(
        enc_string(String::from("00330-80000-00000-AAOEM")),
        "WXR5Q1peek1ZdHlAWXR5QFl0eUBdOn5kXjttRw=="
    );
}

#[test]
fn scramble_drops_dashes_and_shifts() {
    assert_eq!(scramble(&String::from("a-b")), "kl");
    assert_eq!(scramble(&String::from("")), "");
    // Ten code points above U+D7FF is a surrogate: the character stays.
    assert_eq!(scramble(&String::from("\u{D7FF}-z")), "\u{D7FF}\u{84}");
}
