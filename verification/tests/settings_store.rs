use tumbleweed::settings::{
    load_last_folder, load_mdns_enabled, load_theme, save_last_folder, save_mdns_enabled,
    save_theme, str_lt, theme_from_label, theme_label, theme_of, theme_value, Settings, Theme,
};

#[test]
fn set_get_and_text_in_key_order() {
    let mut s = Settings::new();
    s.set("theme", "dark");
    s.set("last_folder", "C:\\Users");
    s.set("mdns_enabled", "0");
    s.set("theme", "light");
    assert_eq!(s.get("theme").as_deref(), Some("light"));
    assert_eq!(s.get("nope"), None);
    assert_eq!(s.to_text(), "last_folder=C:\\Users\nmdns_enabled=0\ntheme=light\n");
}

#[test]
fn parsing_trims_and_later_lines_win() {
    let s = Settings::parse(" a = 1 \r\nno equals here\nb=x=y\na=2\n=empty key\n");
    assert_eq!(s.get("a").as_deref(), Some("2"));
    assert_eq!(s.get("b").as_deref(), Some("x=y"));
    assert_eq!(s.get("").as_deref(), Some("empty key"));
    assert_eq!(s.to_text(), "=empty key\na=2\nb=x=y\n");
}

#[test]
fn written_settings_read_back() {
    let mut s = Settings::new();
    s.set("k1", "v 1");
    s.set("Z", "");
    let back = Settings::parse(&s.to_text());
    assert_eq!(back.get("k1").as_deref(), Some("v 1"));
    assert_eq!(back.get("Z").as_deref(), Some(""));
    assert_eq!(back.to_text(), s.to_text());
}

#[test]
fn theme_persistence() {
    let mut s = Settings::new();
    assert_eq!(load_theme(&s), Theme::System);
    for t in [Theme::Light, Theme::Dark, Theme::System] {
        save_theme(&mut s, t);
        assert_eq!(load_theme(&s), t);
    }
    assert_eq!(theme_value(Theme::Dark), "dark");
    assert_eq!(theme_of(Some("purple")), Theme::System);
    assert_eq!(theme_of(None), Theme::System);
    assert_eq!(s.get("theme").as_deref(), Some("system"));
}

#[test]
fn mdns_switch_defaults_on() {
    let mut s = Settings::new();
    assert!(load_mdns_enabled(&s));
    save_mdns_enabled(&mut s, false);
    assert!(!load_mdns_enabled(&s));
    assert_eq!(s.get("mdns_enabled").as_deref(), Some("0"));
    save_mdns_enabled(&mut s, true);
    assert!(load_mdns_enabled(&s));
    let odd = Settings::parse("mdns_enabled=no\n");
    assert!(load_mdns_enabled(&odd));
}

#[test]
fn theme_labels() {
    assert_eq!(theme_label(Theme::Light), "Light");
    assert_eq!(theme_label(Theme::System), "System");
    for t in [Theme::Light, Theme::Dark, Theme::System] {
        assert_eq!(theme_from_label(theme_label(t)), t);
    }
    assert_eq!(theme_from_label("light"), Theme::System);
}

#[test]
fn last_folder() {
    let mut s = Settings::new();
    assert_eq!(load_last_folder(&s), None);
    save_last_folder(&mut s, "D:\\Music");
    assert_eq!(load_last_folder(&s).as_deref(), Some("D:\\Music"));
}

#[test]
fn string_order() {
    let v = |s: &str| s.chars().collect::<Vec<char>>();
    assert!(str_lt(&v("a"), &v("b")));
    assert!(str_lt(&v("a"), &v("ab")));
    assert!(!str_lt(&v("b"), &v("ab")));
    assert!(str_lt(&v("Z"), &v("a")));
    assert!(!str_lt(&v("x"), &v("x")));
}

#[test]
fn a_set_value_reads_back_from_the_file() {
    let mut s = Settings::new();
    s.set("theme", "dark");
    s.set("last_folder", "C:\\Users");
    s.set("theme", "light");
    let back = Settings::parse(&s.to_text());
    assert_eq!(back.get("theme").as_deref(), Some("light"));
    assert_eq!(back.get("last_folder").as_deref(), Some("C:\\Users"));
    assert_eq!(back.get("mdns_enabled"), None);
}
