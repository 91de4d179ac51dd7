use still_core::naming::{render_track_filename, sanitize_filename};

#[test]
fn renders_default_template() {
    assert_eq!(
        render_track_filename("{n} - {title}", 3, 12, "Intro", "concert"),
        "03 - Intro"
    );
}

#[test]
fn pads_to_total_width() {
    assert_eq!(
        render_track_filename("{n} - {title}", 7, 120, "Solo", "x"),
        "007 - Solo"
    );
}

#[test]
fn supports_source_and_french_alias() {
    assert_eq!(
        render_track_filename("{source} {n} {titre}", 1, 5, "A", "live"),
        "live 01 A"
    );
}

#[test]
fn sanitizes_invalid_characters() {
    assert_eq!(
        render_track_filename("{n} - {title}", 1, 1, "AC/DC: Live?", "x"),
        "01 - AC_DC_ Live_"
    );
}

#[test]
fn empty_result_falls_back() {
    assert_eq!(sanitize_filename("   ..."), "Untitled");
}

#[test]
fn sanitize_keeps_inner_spaces_and_strips_controls() {
    assert_eq!(sanitize_filename(" a\tb. . "), "a_b");
    assert_eq!(sanitize_filename("x<y>z|w"), "x_y_z_w");
}

#[test]
fn replaces_every_occurrence_of_a_token() {
    assert_eq!(
        render_track_filename("{n}-{n} {title}{title}", 2, 9, "T", "s"),
        "02-02 TT"
    );
}
