use rusty_wc::resolve_modes;

#[test]
fn test_no_flags_turns_all_plain_counters_on() {
    let m = resolve_modes(false, false, false, false);
    assert!(m.lines && m.words && m.characters);
    assert!(!m.frequency);
}

#[test]
fn test_frequency_flag_is_exclusive() {
    let m = resolve_modes(true, true, true, true);
    assert!(!m.lines && !m.words && !m.characters);
    assert!(m.frequency);
}

#[test]
fn test_explicit_flags_pass_through() {
    let m = resolve_modes(true, false, true, false);
    assert!(m.lines && !m.words && m.characters && !m.frequency);
}
