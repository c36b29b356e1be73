use uma_helper::text::normalize_text;

#[test]
fn normalize_speed_training() {
    assert_eq!(normalize_text("Speed Training!!"), "speed training");
    assert_eq!(normalize_text("speed training"), "speed training");
}

#[test]
fn normalize_collapses_and_trims_whitespace() {
    assert_eq!(normalize_text("  Hello \t\n  World  "), "hello world");
    assert_eq!(normalize_text("a\u{00A0}b"), "a b");
}

#[test]
fn normalize_drops_punctuation_and_symbols() {
    assert_eq!(normalize_text("It's a (Big) Day: 100%!"), "its a big day 100");
    assert_eq!(normalize_text("Don't—stop"), "dontstop");
}

#[test]
fn normalize_punctuation_only_is_empty() {
    assert_eq!(normalize_text(""), "");
    assert_eq!(normalize_text("!!! ... ???"), "");
    assert_eq!(normalize_text("   "), "");
}

#[test]
fn normalize_keeps_letters_beyond_ascii() {
    assert_eq!(normalize_text("Ünïcödé  TÉST"), "ünïcödé tést");
}

#[test]
fn normalize_is_idempotent_on_examples() {
    for s in [
        "Speed Training!!",
        "  a  b  ",
        "It's a (Big) Day: 100%!",
        "Ünïcödé  TÉST",
        "",
        "...",
        "MiXeD\tCase\nLines",
    ] {
        let once = normalize_text(s);
        assert_eq!(normalize_text(&once), once);
    }
}
