//! Colours taken from the terminal.

use sling::theme::{parse, Theme};

const GHOSTTY: &str = r#"
# a comment
font-size 		= 17
background = #010409
foreground = #e6edf3
palette = 0=#484f58
palette = 2=#3fb950
palette = 4=#58a6ff
palette = 8=#6e7681
palette = 10=#56d364
palette = 11=#e3b341
palette = 12=#79c0ff
"#;

#[test]
fn takes_the_terminal_colours() {
    let t = parse(GHOSTTY);
    assert_eq!(t.background, "#010409");
    assert_eq!(t.foreground, "#e6edf3");
}

#[test]
fn prefers_the_bright_variant_of_each_colour() {
    let t = parse(GHOSTTY);
    assert_eq!(t.accent, "#79c0ff", "bright blue over normal blue");
    assert_eq!(t.ok, "#56d364", "bright green over normal green");
    assert_eq!(t.dim, "#6e7681", "bright black is the legible grey");
}

#[test]
fn falls_back_to_the_normal_shade_when_there_is_no_bright_one() {
    let t = parse("palette = 4=#58a6ff\npalette = 2=#3fb950\n");
    assert_eq!(t.accent, "#58a6ff");
    assert_eq!(t.ok, "#3fb950");
}

#[test]
fn keeps_its_defaults_when_there_is_nothing_to_read() {
    assert_eq!(parse(""), Theme::default());
    assert_eq!(parse("nonsense without an equals sign"), Theme::default());
}

#[test]
fn tolerates_a_colour_written_without_its_hash() {
    assert_eq!(parse("background = 010409").background, "#010409");
}

#[test]
fn the_fallback_is_ghosttys_own() {
    let t = Theme::default();
    assert_eq!(
        (t.background.as_str(), t.foreground.as_str(), t.accent.as_str()),
        ("#11111b", "#cdd6f4", "#89b4fa")
    );
    assert_eq!((t.ok.as_str(), t.warn.as_str(), t.dim.as_str()), ("#a6e3a1", "#fab387", "#6c7086"));
}

#[test]
fn quotes_and_out_of_range_slots_are_handled() {
    let t = parse("foreground = \"#abcdef\"\npalette = 16=#000000\npalette = +3=#123456\n# background = #ffffff\n");
    assert_eq!(t.foreground, "#abcdef");
    assert_eq!(t.warn, "#123456");
    assert_eq!(t.background, "#11111b");
    assert_eq!(t.dim, "#6c7086");
}

#[test]
fn a_later_line_wins() {
    let t = parse("background = #111111\r\nbackground = #222222\r\n");
    assert_eq!(t.background, "#222222");
}
