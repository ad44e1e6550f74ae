use superdupervoxels::state::AppState;
use superdupervoxels::text::{append_decimal, trim};
use superdupervoxels::ui::{world_name_to_create, MenuState};

#[test]
fn world_names_are_trimmed() {
    assert_eq!(world_name_to_create("  my world \n"), Some("my world".to_string()));
    assert_eq!(world_name_to_create(" \t "), None);
    assert_eq!(world_name_to_create(""), None);
    assert_eq!(world_name_to_create("\u{3000}x\u{a0}"), Some("x".to_string()));
    let mut m = MenuState::default();
    assert_eq!(m.world_to_create(), None);
    m.new_world_name = " w ".to_string();
    assert_eq!(m.world_to_create(), Some("w".to_string()));
}

#[test]
fn trim_matches_std() {
    for s in ["", "a", "  a b  ", "\u{2028}\u{85}q\u{200b}", "\u{1680}\u{2000}\u{200a}x\u{202f}\u{205f}"] {
        assert_eq!(trim(s), s.trim());
    }
}

#[test]
fn decimals() {
    for n in [0, 7, 10, -1, 1234, i32::MAX, i32::MIN] {
        let mut s = String::from("n=");
        append_decimal(&mut s, n);
        assert_eq!(s, format!("n={}", n));
    }
}

#[test]
fn game_starts_loading() {
    assert_eq!(AppState::default(), AppState::Loading);
}

#[test]
fn trimming_twice_changes_nothing() {
    let once = trim("  \u{3000} a  b \t");
    assert_eq!(once, "a  b");
    assert_eq!(trim(&once), once);
}
