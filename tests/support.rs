use eu4data::{
    clear_events, decode_windows_1252, get_next_valid_tag, get_tag_for_num, Config, ConfigError,
    Eu4Table, TAG_LIMIT,
};

#[test]
fn tag_numbers() {
    assert_eq!(get_tag_for_num(0), "AAA");
    assert_eq!(get_tag_for_num(1), "AAB");
    assert_eq!(get_tag_for_num(26), "ABA");
    assert_eq!(get_tag_for_num(676), "BAA");
    assert_eq!(get_tag_for_num(17575), "ZZZ");
    assert_eq!(get_tag_for_num(TAG_LIMIT - 1), "\u{7f}ZZ");
}

#[test]
fn next_tag_skips_used_and_reserved() {
    let tags = Eu4Table::parse("AAA=\"countries/a.txt\" AAB=\"countries/b.txt\"").unwrap();
    let mut n: u32 = 0;
    assert_eq!(get_next_valid_tag(&mut n, &tags), Some("AAC".to_string()));
    assert_eq!(n, 3);
    let mut n: u32 = 543;
    assert_eq!(get_tag_for_num(543), "AUX");
    assert_eq!(get_next_valid_tag(&mut n, &tags), Some("AUY".to_string()));
    assert_eq!(n, 545);
    let mut n: u32 = TAG_LIMIT;
    assert_eq!(get_next_valid_tag(&mut n, &tags), None);
    assert_eq!(n, TAG_LIMIT);
}

#[test]
fn clear_events_drops_dated_entries() {
    let mut t = Eu4Table::parse("owner=SWE 1444.11.11={owner=DAN} culture=swedish loose 1500.1.1={a=b}").unwrap();
    clear_events(&mut t);
    assert_eq!(t.serialize(), "owner = SWE\nculture = swedish\nloose\n");
}

#[test]
fn decode_codepage_bytes() {
    assert_eq!(decode_windows_1252(&[0x41, 0x80, 0xE9, 0x9F, 0x81]), "A\u{20ac}\u{e9}\u{178}\u{81}");
    assert_eq!(decode_windows_1252(&[]), "");
}

#[test]
fn parse_codepage_file() {
    let t = Eu4Table::parse_windows_1252(b"name=\"J\xf6nk\xf6ping\" k=\xe9t\xe9").unwrap();
    assert_eq!(t.values[0].value.as_str(), Ok("J\u{f6}nk\u{f6}ping"));
    assert_eq!(t.values[1].value.as_str(), Ok("\u{e9}t\u{e9}"));
}

#[test]
fn config_from_toml() {
    let c = Config::from_toml("mod_name = \"shattered\"\ntarget_path = \"out/mod\"\ngame_path = \"/games/eu4\"\n").unwrap();
    assert_eq!(c.mod_name, "shattered");
    assert_eq!(c.target_path, "out/mod");
    assert_eq!(c.game_path, "/games/eu4");
}

#[test]
fn config_errors() {
    assert_eq!(Config::from_toml("mod_name = ").err(), Some(ConfigError::Syntax));
    assert_eq!(
        Config::from_toml("mod_name = \"m\"\ntarget_path = \"t\"\n").err(),
        Some(ConfigError::MissingGamePath)
    );
    assert_eq!(
        Config::from_toml("mod_name = 3\ntarget_path = \"t\"\ngame_path = \"g\"\n").err(),
        Some(ConfigError::MissingModName)
    );
    assert_eq!(
        Config::from_settings(Some("m".to_string()), None, None).err(),
        Some(ConfigError::MissingTargetPath)
    );
}
