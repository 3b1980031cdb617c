use browser_picker::ui::{
    center_offset, hit_test, in_rect, menu_key, menu_layout, rect, rgb, truncate, MenuKey, Rect,
};

#[test]
fn rgb_packs_channels() {
    assert_eq!(rgb(0x1b, 0x1b, 0x1b), 0x001b1b1b);
    assert_eq!(rgb(0xf3, 0xa2, 0x00), 0x0000a2f3);
    assert_eq!(rgb(0, 0, 0), 0);
    assert_eq!(rgb(255, 255, 255), 0x00ffffff);
}

#[test]
fn truncate_keeps_short_text() {
    assert_eq!(truncate("hello", 5), "hello");
    assert_eq!(truncate("", 0), "");
}

#[test]
fn truncate_marks_a_cut() {
    assert_eq!(truncate("hello world", 5), "hell…");
    assert_eq!(truncate("héllo wörld", 3), "hé…");
    assert_eq!(truncate("abc", 1), "…");
    assert_eq!(truncate("abc", 0), "…");
}

#[test]
fn truncate_long_url() {
    let url = "https://example.com/a/very/long/path/that/goes/on/and/on/forever/and/ever";
    let t = truncate(url, 52);
    assert_eq!(t.chars().count(), 52);
    assert!(t.ends_with('…'));
    assert!(url.starts_with(&t[..t.len() - '…'.len_utf8()]));
}

#[test]
fn in_rect_includes_edges() {
    let r = rect(10, 20, 30, 40);
    assert_eq!(r, Rect { left: 10, top: 20, right: 30, bottom: 40 });
    assert!(in_rect(&r, 10, 20));
    assert!(in_rect(&r, 30, 40));
    assert!(!in_rect(&r, 31, 40));
    assert!(!in_rect(&r, 9, 25));
}

#[test]
fn menu_layout_of_picker() {
    let l = menu_layout(true, true, 0, 3, true);
    // items start at 16 + 30 + 24 + 6 = 76; 3 rows of 46 with 2 gaps of 8.
    assert_eq!(l.items.len(), 3);
    assert_eq!(l.items[0], Rect { left: 16, top: 76, right: 364, bottom: 122 });
    assert_eq!(l.items[2], Rect { left: 16, top: 184, right: 364, bottom: 230 });
    assert_eq!(l.client_height, 76 + 154 + 10 + 24 + 16);
}

#[test]
fn menu_layout_with_info_and_no_items() {
    let l = menu_layout(false, false, 2, 0, false);
    assert!(l.items.is_empty());
    assert_eq!(l.client_height, 16 + 46 + 6 + 10 + 16);
}

#[test]
fn hit_test_finds_first_row() {
    let l = menu_layout(true, true, 0, 3, true);
    assert_eq!(hit_test(&l.items, 20, 80), Some(0));
    assert_eq!(hit_test(&l.items, 20, 130), Some(1));
    assert_eq!(hit_test(&l.items, 20, 126), None);
    assert_eq!(hit_test(&l.items, 5, 80), None);
    let overlapping = vec![rect(0, 0, 10, 10), rect(0, 0, 10, 10)];
    assert_eq!(hit_test(&overlapping, 5, 5), Some(0));
}

#[test]
fn menu_keys() {
    assert_eq!(menu_key(0x1B, Some(1), 3), MenuKey::Close);
    assert_eq!(menu_key(0x0D, Some(1), 3), MenuKey::Choose(1));
    assert_eq!(menu_key(0x0D, None, 3), MenuKey::Ignore);
    assert_eq!(menu_key(0x31, None, 3), MenuKey::Choose(0));
    assert_eq!(menu_key(0x33, None, 3), MenuKey::Choose(2));
    assert_eq!(menu_key(0x34, None, 3), MenuKey::Ignore);
    assert_eq!(menu_key(0x62, None, 3), MenuKey::Choose(1));
    assert_eq!(menu_key(0x30, None, 3), MenuKey::Ignore);
    assert_eq!(menu_key(0x41, None, 3), MenuKey::Ignore);
}

#[test]
fn center_offset_is_never_negative() {
    assert_eq!(center_offset(1920, 400), 760);
    assert_eq!(center_offset(1921, 400), 760);
    assert_eq!(center_offset(300, 400), 0);
}

#[test]
fn menu_layout_beyond_a_million_rows() {
    let l = menu_layout(true, false, 2, 1_000_001, false);
    let top = 16 + 30 + 2 * 19 + 8 + 6;
    assert_eq!(l.items.len(), 1_000_001);
    assert_eq!(l.client_height, top + 1_000_001 * 46 + 1_000_000 * 8 + 10 + 16);
    assert_eq!(l.items[1_000_000].top, top + 1_000_000 * 54);
}
