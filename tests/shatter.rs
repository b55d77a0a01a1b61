use eu4data::{split_province, Eu4Table, FileTable, ShatterError};

fn file(name: &str, text: &str) -> FileTable {
    FileTable { file_name: name.to_string(), data: Eu4Table::parse(text).unwrap() }
}

fn world() -> (Eu4Table, Vec<FileTable>, Vec<FileTable>) {
    let tags = Eu4Table::parse("SWE = \"countries/Sweden.txt\" DAN = \"countries/Denmark.txt\"").unwrap();
    let countries = vec![
        file("Denmark.txt", "graphical_culture = westerngfx color = { 1 2 3 }"),
        file("Sweden.txt", "graphical_culture = westerngfx color = { 4 5 6 } 1600.1.1 = { a = b }"),
    ];
    let histories = vec![
        file("DAN - Denmark.txt", "capital = 12 elector = yes"),
        file("SWE - Sweden.txt", "capital = 1 government = monarchy elector = yes 1444.1.1 = { x = y }"),
    ];
    (tags, countries, histories)
}

#[test]
fn province_becomes_country() {
    let (mut tags, countries, histories) = world();
    let mut province = file("1 - Stockholm.txt", "owner = SWE controller = SWE culture = swedish religion = catholic");
    let mut n: u32 = 0;
    let c = split_province(&mut province, &mut tags, &countries, &histories, &mut n, (10, 200, 3))
        .unwrap()
        .unwrap();
    assert_eq!(c.tag, "AAA");
    assert_eq!(n, 1);
    assert_eq!(c.name, "Stockholm");
    assert_eq!(c.country.file_name, "Stockholm.txt");
    assert_eq!(c.country.data.serialize(), "graphical_culture = westerngfx\ncolor = {\n10\n200\n3\n}\n");
    assert_eq!(c.history.file_name, "AAA - Stockholm.txt");
    assert_eq!(
        c.history.data.serialize(),
        "capital = 1\ngovernment = monarchy\nelector = yes\nculture = swedish\nreligion = catholic\n"
    );
    assert_eq!(
        tags.serialize(),
        "SWE = countries/Sweden.txt\nDAN = countries/Denmark.txt\nAAA = countries/Stockholm.txt\n"
    );
    assert_eq!(
        province.data.serialize(),
        "owner = AAA\ncontroller = AAA\nculture = swedish\nreligion = catholic\nadd_core = AAA\n"
    );
}

#[test]
fn elector_kept_only_for_capital() {
    let (mut tags, countries, histories) = world();
    let mut province = file("25 - Uppland.txt", "owner = SWE culture = swedish religion = catholic");
    let mut n: u32 = 0;
    let c = split_province(&mut province, &mut tags, &countries, &histories, &mut n, (0, 0, 0))
        .unwrap()
        .unwrap();
    assert_eq!(c.history.data.get("elector").unwrap().as_str(), Ok("no"));
}

#[test]
fn province_without_owner_is_skipped() {
    let (mut tags, countries, histories) = world();
    let mut province = file("2 - Wasteland.txt", "culture = none");
    let mut n: u32 = 5;
    let r = split_province(&mut province, &mut tags, &countries, &histories, &mut n, (0, 0, 0));
    assert!(matches!(r, Ok(None)));
    assert_eq!(n, 5);
    assert_eq!(province.data.serialize(), "culture = none\n");
}

#[test]
fn shatter_errors() {
    let (mut tags, countries, histories) = world();
    let mut n: u32 = 0;
    let cases = [
        ("1 - A.txt", "owner = { x }", ShatterError::OwnerNotText),
        ("1 - A.txt", "owner = NOR", ShatterError::UnknownOwner),
        ("Stockholm", "owner = SWE culture = c religion = r", ShatterError::BadFileName),
        ("1 - A.txt", "owner = SWE religion = r", ShatterError::MissingCulture),
        ("1 - A.txt", "owner = SWE culture = c", ShatterError::MissingReligion),
    ];
    for (name, text, expected) in cases.iter() {
        let mut province = file(name, text);
        let before = province.data.serialize();
        let r = split_province(&mut province, &mut tags, &countries, &histories, &mut n, (0, 0, 0));
        assert_eq!(r.err(), Some(*expected));
        assert_eq!(province.data.serialize(), before);
    }
    assert_eq!(n, 0);

    let mut tags2 = Eu4Table::parse("SWE = \"countries/Nowhere.txt\"").unwrap();
    let mut province = file("1 - A.txt", "owner = SWE culture = c religion = r");
    let r = split_province(&mut province, &mut tags2, &countries, &histories, &mut n, (0, 0, 0));
    assert_eq!(r.err(), Some(ShatterError::NoCountryFile));

    let mut tags3 = Eu4Table::parse("NOR = \"countries/Sweden.txt\"").unwrap();
    let mut province = file("1 - A.txt", "owner = NOR culture = c religion = r");
    let r = split_province(&mut province, &mut tags3, &countries, &histories, &mut n, (0, 0, 0));
    assert_eq!(r.err(), Some(ShatterError::NoCountryHistory));

    let histories2 = vec![file("SWE - Sweden.txt", "elector = yes")];
    let mut province = file("1 - A.txt", "owner = SWE culture = c religion = r");
    let r = split_province(&mut province, &mut tags, &countries, &histories2, &mut n, (0, 0, 0));
    assert_eq!(r.err(), Some(ShatterError::MissingCapital));

    let mut n: u32 = eu4data::TAG_LIMIT;
    let mut province = file("1 - A.txt", "owner = SWE culture = c religion = r");
    let r = split_province(&mut province, &mut tags, &countries, &histories, &mut n, (0, 0, 0));
    assert_eq!(r.err(), Some(ShatterError::NoFreeTag));
}

#[test]
fn province_name_parts() {
    assert_eq!(
        eu4data::province_id_and_name("123 - Stockholm.txt"),
        Some(("123".to_string(), "Stockholm".to_string()))
    );
    assert_eq!(
        eu4data::province_id_and_name("..7-Gotland"),
        Some(("7".to_string(), "Gotland".to_string()))
    );
    assert_eq!(eu4data::province_id_and_name("Stockholm"), None);
    assert_eq!(eu4data::province_id_and_name(""), None);
}

#[test]
fn localisation_for_new_country() {
    assert_eq!(
        eu4data::localisation_lines("AAA", "Stockholm"),
        "\n AAA: \"Stockholm\"\n AAA_ADJ: \"Stockholm\""
    );
}
