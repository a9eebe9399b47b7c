use langs_in_rust::pyjson::escape_fragment;

#[test]
fn fragment_escapes_non_ascii() {
    assert_eq!(escape_fragment("⭐️ friendly"), r"\u2b50\ufe0f friendly");
}

#[test]
fn fragment_escapes_astral_characters_as_surrogate_pairs() {
    assert_eq!(escape_fragment("💎 gem"), r"\ud83d\udc8e gem");
}

#[test]
fn fragment_keeps_ascii() {
    assert_eq!(escape_fragment("plain text 123 ~"), "plain text 123 ~");
    assert_eq!(escape_fragment(""), "");
}

#[test]
fn fragment_escapes_latin_and_edges() {
    assert_eq!(escape_fragment("é"), r"\u00e9");
    assert_eq!(escape_fragment("~\u{7f}\u{80}"), r"~\u007f\u0080");
    assert_eq!(escape_fragment("\u{ffff}\u{10000}"), r"\uffff\ud800\udc00");
    assert_eq!(escape_fragment("\u{10ffff}"), r"\udbff\udfff");
}
