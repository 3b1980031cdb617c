use browser_picker::browsers::Browser;
use browser_picker::config::{apply, effective_letters, settings_from_values, settings_values, Settings};
use browser_picker::letters::{parse_letters, serialize_letters, LetterMap};

fn browser(name: &str, exe: &str) -> Browser {
    Browser {
        key: name.to_string(),
        name: name.to_string(),
        command: String::new(),
        exe: exe.to_string(),
        icon: String::new(),
    }
}

fn letter(m: &LetterMap, id: &str) -> Option<char> {
    m.get(&id.to_string())
}

#[test]
fn parse_letters_reads_pairs_and_upper_cases() {
    let m = parse_letters("c:\\chrome.exe=G|c:\\firefox.exe=f");
    assert_eq!(letter(&m, "c:\\chrome.exe"), Some('G'));
    assert_eq!(letter(&m, "c:\\firefox.exe"), Some('F'));
    assert_eq!(letter(&m, "c:\\edge.exe"), None);
}

#[test]
fn parse_letters_skips_malformed_pieces() {
    let m = parse_letters("||noequals|x.exe=|y.exe=1|z.exe=Qrest|");
    assert_eq!(letter(&m, "noequals"), None);
    assert_eq!(letter(&m, "x.exe"), None);
    assert_eq!(letter(&m, "y.exe"), None);
    assert_eq!(letter(&m, "z.exe"), Some('Q'));
}

#[test]
fn parse_letters_splits_at_last_equals_and_later_wins() {
    let m = parse_letters("a=b=C|d.exe=X|d.exe=Y");
    assert_eq!(letter(&m, "a=b"), Some('C'));
    assert_eq!(letter(&m, "a"), None);
    assert_eq!(letter(&m, "d.exe"), Some('Y'));
}

#[test]
fn serialize_letters_then_parse_gives_back_the_map() {
    let mut m = LetterMap::new();
    m.insert("c:\\chrome.exe".to_string(), 'G');
    m.insert("c:\\a=b.exe".to_string(), 'B');
    m.insert("c:\\chrome.exe".to_string(), 'C');
    let text = serialize_letters(&m);
    assert_eq!(text, "c:\\chrome.exe=C|c:\\a=b.exe=B");
    let back = parse_letters(&text);
    assert_eq!(letter(&back, "c:\\chrome.exe"), Some('C'));
    assert_eq!(letter(&back, "c:\\a=b.exe"), Some('B'));
    assert_eq!(serialize_letters(&back), text);
}

#[test]
fn letter_map_remove_and_assign() {
    let mut m = LetterMap::new();
    m.insert("a".to_string(), 'A');
    m.insert("b".to_string(), 'B');
    m.assign_letter("c".to_string(), 'A');
    assert_eq!(letter(&m, "a"), None);
    assert_eq!(letter(&m, "c"), Some('A'));
    assert_eq!(letter(&m, "b"), Some('B'));
    m.remove(&"b".to_string());
    assert_eq!(letter(&m, "b"), None);
    m.remove(&"zzz".to_string());
    assert_eq!(letter(&m, "c"), Some('A'));
}

#[test]
fn settings_from_values_reads_stored_values() {
    let s = settings_from_values(
        Some("c:\\b.exe||c:\\a.exe|".to_string()),
        Some("c:\\a.exe".to_string()),
        Some("c:\\a.exe=k".to_string()),
    );
    assert_eq!(s.order, vec!["c:\\b.exe".to_string(), "c:\\a.exe".to_string()]);
    assert_eq!(s.favorite, Some("c:\\a.exe".to_string()));
    assert_eq!(letter(&s.letters, "c:\\a.exe"), Some('K'));
}

#[test]
fn settings_from_missing_values_are_empty() {
    let s = settings_from_values(None, Some(String::new()), None);
    assert!(s.order.is_empty());
    assert_eq!(s.favorite, None);
    assert_eq!(serialize_letters(&s.letters), "");
    let e = Settings::empty();
    assert!(e.order.is_empty() && e.favorite.is_none());
}

#[test]
fn settings_values_then_from_values_round_trip() {
    let order = vec!["c:\\x.exe".to_string(), "c:\\y.exe".to_string()];
    let favorite = Some("c:\\y.exe".to_string());
    let mut letters = LetterMap::new();
    letters.insert("c:\\x.exe".to_string(), 'X');
    let (o, f, l) = settings_values(&order, &favorite, &letters);
    assert_eq!(o, "c:\\x.exe|c:\\y.exe");
    assert_eq!(f, "c:\\y.exe");
    assert_eq!(l, "c:\\x.exe=X");
    let s = settings_from_values(Some(o), Some(f), Some(l));
    assert_eq!(s.order, order);
    assert_eq!(s.favorite, favorite);
    assert_eq!(letter(&s.letters, "c:\\x.exe"), Some('X'));
    let (_, f2, _) = settings_values(&order, &None, &letters);
    assert_eq!(f2, "");
    assert_eq!(settings_from_values(None, Some(f2), None).favorite, None);
}

#[test]
fn apply_orders_by_saved_order_and_finds_favorite() {
    let list = vec![
        browser("Alpha", "C:\\A.exe"),
        browser("Beta", "C:\\B.exe"),
        browser("Gamma", "C:\\G.exe"),
        browser("Delta", "C:\\D.exe"),
    ];
    let s = settings_from_values(
        Some("c:\\g.exe|c:\\a.exe|c:\\g.exe".to_string()),
        Some("c:\\b.exe".to_string()),
        None,
    );
    let (out, fav) = apply(list, &s);
    let names: Vec<&str> = out.iter().map(|b| b.name.as_str()).collect();
    assert_eq!(names, vec!["Gamma", "Alpha", "Beta", "Delta"]);
    assert_eq!(fav, Some(2));
}

#[test]
fn apply_without_order_keeps_list_and_missing_favorite_is_none() {
    let list = vec![browser("B", "b.exe"), browser("A", "a.exe")];
    let s = settings_from_values(None, Some("nothere.exe".to_string()), None);
    let (out, fav) = apply(list, &s);
    assert_eq!(out[0].name, "B");
    assert_eq!(out[1].name, "A");
    assert_eq!(fav, None);
}

#[test]
fn effective_letters_configured_wins_and_first_come() {
    let list = vec![
        browser("Firefox", "C:\\ff.exe"),
        browser("Floorp", "C:\\floorp.exe"),
        browser("Chrome", "C:\\chrome.exe"),
        browser("123", "C:\\num.exe"),
        browser("Edge", "C:\\edge.exe"),
    ];
    let mut conf = LetterMap::new();
    conf.insert("c:\\chrome.exe".to_string(), 'F');
    conf.insert("c:\\edge.exe".to_string(), 'F');
    let out = effective_letters(&list, &conf);
    assert_eq!(out, vec![None, None, Some('F'), None, Some('E')]);
}

#[test]
fn effective_letters_two_names_with_same_letter() {
    let list = vec![browser("brave", "b1.exe"), browser("Beta", "b2.exe"), browser("-x", "x.exe")];
    let conf = LetterMap::new();
    let out = effective_letters(&list, &conf);
    assert_eq!(out, vec![Some('B'), None, Some('X')]);
}

#[test]
fn effective_letters_ignores_non_letter_configuration() {
    let list = vec![browser("Opera", "o.exe")];
    let mut conf = LetterMap::new();
    conf.insert("o.exe".to_string(), '7');
    assert_eq!(effective_letters(&list, &conf), vec![Some('O')]);
}

#[test]
fn default_settings_are_empty() {
    let s = Settings::default();
    assert!(s.order.is_empty());
    assert_eq!(s.favorite, None);
    assert_eq!(serialize_letters(&s.letters), "");
}

#[test]
fn serialize_empty_and_single_letter_map() {
    assert_eq!(serialize_letters(&LetterMap::new()), "");
    let mut m = LetterMap::new();
    m.insert("a.exe".to_string(), 'B');
    assert_eq!(serialize_letters(&m), "a.exe=B");
}

#[test]
fn serialize_lists_each_id_once() {
    let mut m = LetterMap::new();
    m.insert("a.exe".to_string(), 'B');
    m.insert("c:\\x.exe".to_string(), 'X');
    m.insert("a.exe".to_string(), 'C');
    let text = serialize_letters(&m);
    let mut pieces: Vec<&str> = text.split('|').collect();
    pieces.sort();
    assert_eq!(pieces, vec!["a.exe=C", "c:\\x.exe=X"]);
}

#[test]
fn letter_map_reads_back_what_was_written() {
    let mut m = LetterMap::new();
    m.insert("c:\\chrome.exe".to_string(), 'G');
    m.insert("c:\\a=b.exe".to_string(), 'F');
    m.insert("c:\\edge.exe".to_string(), 'E');
    m.remove(&"c:\\edge.exe".to_string());
    let back = parse_letters(&serialize_letters(&m));
    for id in ["c:\\chrome.exe", "c:\\a=b.exe", "c:\\edge.exe"] {
        assert_eq!(letter(&back, id), letter(&m, id));
    }
    assert_eq!(serialize_letters(&back), serialize_letters(&m));
}

#[test]
fn stored_order_drops_empty_ids() {
    let order = vec!["a.exe".to_string(), String::new(), "b.exe".to_string()];
    let (o, f, _) = settings_values(&order, &Some(String::new()), &LetterMap::new());
    assert_eq!(o, "a.exe||b.exe");
    let s = settings_from_values(Some(o), Some(f), None);
    assert_eq!(s.order, vec!["a.exe".to_string(), "b.exe".to_string()]);
    assert_eq!(s.favorite, None);
    let (o2, _, _) = settings_values(&Vec::new(), &None, &LetterMap::new());
    assert!(settings_from_values(Some(o2), None, None).order.is_empty());
}
