use browser_picker::browsers::Browser;
use browser_picker::letters::LetterMap;
use browser_picker::settings::{
    is_favorite, letter_glyph, move_down, move_up, registers, run_action_outcome,
    settings_hit_test, settings_layout, toggle_favorite, Effect, Region, RowRects, SettingsState,
};
use browser_picker::ui::Rect;

fn browser(name: &str, exe: &str) -> Browser {
    Browser {
        key: name.to_string(),
        name: name.to_string(),
        command: String::new(),
        exe: exe.to_string(),
        icon: String::new(),
    }
}

fn state() -> SettingsState {
    SettingsState {
        browsers: vec![browser("A", "A.exe"), browser("B", "B.exe"), browser("C", "C.exe")],
        favorite: None,
        configured: LetterMap::new(),
        capturing: None,
    }
}

fn order(s: &SettingsState) -> Vec<String> {
    s.browsers.iter().map(|b| b.name.clone()).collect()
}

#[test]
fn settings_layout_rows_and_actions() {
    let l = settings_layout(2);
    assert_eq!(l.rows.len(), 2);
    assert_eq!(
        l.rows[0],
        RowRects {
            letter: Rect { left: 346, top: 83, right: 376, bottom: 113 },
            star: Rect { left: 382, top: 83, right: 412, bottom: 113 },
            up: Rect { left: 418, top: 83, right: 448, bottom: 113 },
            down: Rect { left: 454, top: 83, right: 484, bottom: 113 },
        }
    );
    assert_eq!(l.rows[1].down, Rect { left: 454, top: 129, right: 484, bottom: 159 });
    assert_eq!(l.actions.len(), 3);
    // rows take 2 * 40 + 6 = 86, then 16: actions start at 78 + 86 + 16 = 180.
    assert_eq!(l.actions[0], Rect { left: 16, top: 180, right: 484, bottom: 220 });
    assert_eq!(l.actions[2], Rect { left: 16, top: 272, right: 484, bottom: 312 });
    assert_eq!(l.client_height, 180 + 132 + 10 + 22 + 16);
}

#[test]
fn settings_layout_without_browsers() {
    let l = settings_layout(0);
    assert!(l.rows.is_empty());
    assert_eq!(l.actions[0].top, 78);
}

#[test]
fn settings_hit_test_regions() {
    let l = settings_layout(2);
    assert_eq!(settings_hit_test(&l.rows, &l.actions, 350, 90), Some(Region::Letter(0)));
    assert_eq!(settings_hit_test(&l.rows, &l.actions, 400, 130), Some(Region::Star(1)));
    assert_eq!(settings_hit_test(&l.rows, &l.actions, 420, 90), Some(Region::Up(0)));
    assert_eq!(settings_hit_test(&l.rows, &l.actions, 460, 150), Some(Region::Down(1)));
    assert_eq!(settings_hit_test(&l.rows, &l.actions, 100, 230), Some(Region::Action(1)));
    assert_eq!(settings_hit_test(&l.rows, &l.actions, 100, 90), None);
}

#[test]
fn move_up_and_down() {
    let mut v = vec![1, 2, 3];
    assert!(move_up(&mut v, 2));
    assert_eq!(v, vec![1, 3, 2]);
    assert!(!move_up(&mut v, 0));
    assert!(!move_up(&mut v, 3));
    assert!(move_down(&mut v, 0));
    assert_eq!(v, vec![3, 1, 2]);
    assert!(!move_down(&mut v, 2));
    assert_eq!(v, vec![3, 1, 2]);
}

#[test]
fn toggle_favorite_sets_and_clears() {
    let f = toggle_favorite(None, "a.exe".to_string());
    assert_eq!(f, Some("a.exe".to_string()));
    let f = toggle_favorite(f, "b.exe".to_string());
    assert_eq!(f, Some("b.exe".to_string()));
    let f = toggle_favorite(f, "b.exe".to_string());
    assert_eq!(f, None);
}

#[test]
fn favorite_and_glyphs() {
    let b = browser("A", "C:\\A.exe");
    assert!(is_favorite(&Some("c:\\a.exe".to_string()), &b));
    assert!(!is_favorite(&None, &b));
    assert_eq!(letter_glyph(true, Some('A')), '?');
    assert_eq!(letter_glyph(false, Some('A')), 'A');
    assert_eq!(letter_glyph(false, None), '·');
}

#[test]
fn click_star_up_down_and_actions() {
    let mut s = state();
    assert_eq!(s.on_click(Some(Region::Star(1))), Effect::Save);
    assert_eq!(s.favorite, Some("b.exe".to_string()));
    assert_eq!(s.on_click(Some(Region::Star(1))), Effect::Save);
    assert_eq!(s.favorite, None);
    assert_eq!(s.on_click(Some(Region::Up(1))), Effect::Swapped(0, 1));
    assert_eq!(order(&s), vec!["B", "A", "C"]);
    assert_eq!(s.on_click(Some(Region::Up(0))), Effect::Redraw);
    assert_eq!(s.on_click(Some(Region::Down(1))), Effect::Swapped(1, 2));
    assert_eq!(order(&s), vec!["B", "C", "A"]);
    assert_eq!(s.on_click(Some(Region::Down(2))), Effect::Redraw);
    assert_eq!(s.on_click(Some(Region::Action(2))), Effect::RunAction(2));
    assert_eq!(s.on_click(None), Effect::Redraw);
}

#[test]
fn capture_and_assign_letter() {
    let mut s = state();
    assert_eq!(s.on_click(Some(Region::Letter(0))), Effect::Redraw);
    assert_eq!(s.capturing, Some(0));
    assert_eq!(s.on_key(0x31), Effect::Nothing);
    assert_eq!(s.capturing, Some(0));
    assert_eq!(s.on_key(0x51), Effect::Save);
    assert_eq!(s.capturing, None);
    assert_eq!(s.configured.get(&"a.exe".to_string()), Some('Q'));
    s.on_click(Some(Region::Letter(1)));
    assert_eq!(s.on_key(0x51), Effect::Save);
    assert_eq!(s.configured.get(&"a.exe".to_string()), None);
    assert_eq!(s.configured.get(&"b.exe".to_string()), Some('Q'));
    s.on_click(Some(Region::Letter(1)));
    assert_eq!(s.on_key(0x2E), Effect::Save);
    assert_eq!(s.configured.get(&"b.exe".to_string()), None);
}

#[test]
fn letter_box_click_toggles_capture_and_escape() {
    let mut s = state();
    s.on_click(Some(Region::Letter(2)));
    assert_eq!(s.capturing, Some(2));
    s.on_click(Some(Region::Letter(2)));
    assert_eq!(s.capturing, None);
    s.on_click(Some(Region::Letter(2)));
    assert_eq!(s.on_key(0x1B), Effect::Redraw);
    assert_eq!(s.capturing, None);
    assert_eq!(s.on_key(0x1B), Effect::Close);
    assert_eq!(s.on_key(0x41), Effect::Nothing);
}

#[test]
fn move_up_then_down_restores() {
    let mut v = vec!['a', 'b', 'c', 'd'];
    assert!(move_up(&mut v, 2));
    assert!(move_down(&mut v, 1));
    assert_eq!(v, vec!['a', 'b', 'c', 'd']);
}

#[test]
fn letters_stay_distinct_through_events() {
    let mut s = state();
    for (row, key) in [(0usize, 0x41), (1, 0x42), (2, 0x41), (0, 0x42), (1, 0x43)] {
        s.on_click(Some(Region::Letter(row)));
        assert_eq!(s.on_key(key), Effect::Save);
        let got: Vec<char> = ["a.exe", "b.exe", "c.exe"]
            .iter()
            .filter_map(|id| s.configured.get(&id.to_string()))
            .collect();
        for i in 0..got.len() {
            for j in (i + 1)..got.len() {
                assert_ne!(got[i], got[j]);
            }
        }
    }
    assert_eq!(s.configured.get(&"a.exe".to_string()), Some('B'));
    assert_eq!(s.configured.get(&"b.exe".to_string()), Some('C'));
    assert_eq!(s.configured.get(&"c.exe".to_string()), Some('A'));
}

#[test]
fn settings_layout_beyond_a_million_rows() {
    let l = settings_layout(1_000_001);
    assert_eq!(l.rows.len(), 1_000_001);
    assert_eq!(l.client_height, 78 + 1_000_001 * 40 + 1_000_000 * 6 + 16 + 3 * 40 + 2 * 6 + 10 + 22 + 16);
    assert_eq!(l.rows[1_000_000].down.top, 78 + 1_000_000 * 46 + 5);
}

#[test]
fn action_outcomes() {
    assert!(registers(0) && registers(1) && !registers(2));
    let ok: Result<(), String> = Ok(());
    let err: Result<(), String> = Err("access denied".to_string());
    assert_eq!(
        run_action_outcome(0, &ok),
        (Some(true), "Opened Default Apps \u{2014} set Browser Picker for HTTP and HTTPS.".to_string(), true)
    );
    assert_eq!(run_action_outcome(0, &err), (None, "Register failed: access denied".to_string(), false));
    assert_eq!(run_action_outcome(1, &ok), (Some(true), "Registered.".to_string(), false));
    assert_eq!(run_action_outcome(1, &err), (None, "Failed: access denied".to_string(), false));
    assert_eq!(run_action_outcome(2, &err), (Some(false), "Unregistered.".to_string(), false));
}
