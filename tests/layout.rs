use sgf_renderer::layout::{compute_layout, star_points, Theme, CANVAS_SIDE};
use sgf_renderer::types::BoardSize;

fn size(w: usize, h: usize) -> BoardSize {
    BoardSize { width: w, height: h }
}

#[test]
fn standard_board_layout() {
    let l = compute_layout(size(19, 19), CANVAS_SIDE);
    assert_eq!((l.pitch, l.margin_x, l.margin_y), (38, 58, 58));
    assert_eq!(l.point(0, 0), (58, 58));
    assert_eq!(l.point(18, 18), (742, 742));
    assert_eq!(l.stone_radius(), 19);
}

#[test]
fn small_board_layout() {
    let l = compute_layout(size(2, 2), 800);
    assert_eq!((l.pitch, l.margin_x, l.margin_y), (200, 300, 300));
}

#[test]
fn rectangular_board_layout() {
    let l = compute_layout(size(15, 10), 800);
    assert_eq!((l.pitch, l.margin_x, l.margin_y), (46, 78, 193));
    assert_eq!(l.point(14, 9), (78 + 14 * 46, 193 + 9 * 46));
}

#[test]
fn odd_canvas_leaves_one_pixel() {
    let l = compute_layout(size(19, 19), 801);
    assert_eq!((l.pitch, l.margin_x), (38, 58));
    assert_eq!(801 - l.margin_x - 18 * l.pitch, l.margin_x + 1);
}

#[test]
fn every_layout_is_centred() {
    for canvas in [0u32, 7, 100, 640, 800, 801, 1024] {
        for w in 2..=25usize {
            for h in 2..=25usize {
                let l = compute_layout(size(w, h), canvas);
                let sx = l.pitch * (w as u32 - 1);
                let sy = l.pitch * (h as u32 - 1);
                assert!(2 * l.margin_x + sx <= canvas);
                assert!(2 * l.margin_y + sy <= canvas);
                assert_eq!(canvas - l.margin_x - sx, l.margin_x + canvas % 2);
                assert_eq!(canvas - l.margin_y - sy, l.margin_y + canvas % 2);
                assert_eq!(l.pitch % 2, 0);
            }
        }
    }
}

#[test]
fn star_points_only_on_standard_board() {
    let pts = star_points(size(19, 19));
    assert_eq!(pts.len(), 9);
    assert!(pts.contains(&(3, 3)) && pts.contains(&(9, 9)) && pts.contains(&(15, 15)) && pts.contains(&(3, 15)));
    assert!(star_points(size(13, 13)).is_empty());
    assert!(star_points(size(19, 13)).is_empty());
}

#[test]
fn themes_by_name() {
    assert_eq!(Theme::from_name(b"dark"), Some(Theme::Dark));
    assert_eq!(Theme::from_name(b"light"), Some(Theme::Light));
    assert_eq!(Theme::from_name(b"paper"), Some(Theme::Paper));
    assert_eq!(Theme::from_name(b"plain"), Some(Theme::Plain));
    assert_eq!(Theme::from_name(b"Dark"), None);
    assert_eq!(Theme::from_name(b""), None);
    assert!(Theme::Dark.uses_images() && Theme::Light.uses_images());
    assert!(!Theme::Paper.uses_images() && !Theme::Plain.uses_images());
}
