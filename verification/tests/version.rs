use eldenring::version::{product_name, version_string, GameVersion, LANG_ID_EN, LANG_ID_JP};

fn table(entries: &[(&str, &str)]) -> Vec<(String, String)> {
    entries.iter().map(|(k, v)| (k.to_string(), v.to_string())).collect()
}

#[test]
fn from_metadata_worldwide() {
    assert_eq!(GameVersion::from_metadata("ELDEN RING™", LANG_ID_EN, "2.7.0.0"), Some(GameVersion::Ww270));
}

#[test]
fn from_metadata_japanese() {
    assert_eq!(GameVersion::from_metadata("ELDEN RING", LANG_ID_JP, "2.7.0.1"), Some(GameVersion::Jp2701));
}

#[test]
fn from_metadata_unknown() {
    assert_eq!(GameVersion::from_metadata("ELDEN RING", LANG_ID_EN, "2.7.0.0"), None);
    assert_eq!(GameVersion::from_metadata("ELDEN RING™", LANG_ID_JP, "2.7.0.0"), None);
    assert_eq!(GameVersion::from_metadata("ELDEN RING™", LANG_ID_EN, "2.7.0.1"), None);
    assert_eq!(GameVersion::from_metadata("ELDEN RING™", 0x0409, "2.7.0.0"), None);
    assert_eq!(GameVersion::from_metadata("", 0, ""), None);
}

#[test]
fn version_string_writes_decimal() {
    assert_eq!(version_string((2, 7, 0, 0)), "2.7.0.0");
    assert_eq!(version_string((10, 255, 65535, 9)), "10.255.65535.9");
    assert_eq!(version_string((0, 0, 0, 0)), "0.0.0.0");
    assert_eq!(version_string((1000, 100, 20, 3)), "1000.100.20.3");
}

#[test]
fn product_name_takes_the_last_entry() {
    assert_eq!(product_name(&table(&[])), None);
    assert_eq!(product_name(&table(&[("CompanyName", "FromSoftware")])), None);
    assert_eq!(
        product_name(&table(&[("ProductName", "A"), ("FileVersion", "1"), ("ProductName", "B")])),
        Some("B".to_string())
    );
    assert_eq!(product_name(&table(&[("productname", "A")])), None);
}

#[test]
fn from_version_data_masks_the_language() {
    let t = table(&[("CompanyName", "FromSoftware Inc."), ("ProductName", "ELDEN RING™")]);
    assert_eq!(GameVersion::from_version_data((2, 7, 0, 0), 0x0409, &t), Some(GameVersion::Ww270));
    assert_eq!(GameVersion::from_version_data((2, 7, 0, 0), 0x0809, &t), Some(GameVersion::Ww270));
    assert_eq!(GameVersion::from_version_data((2, 7, 0, 0), 0x0411, &t), None);
    assert_eq!(GameVersion::from_version_data((2, 7, 0, 1), 0x0409, &t), None);
}

#[test]
fn from_version_data_japanese() {
    let t = table(&[("ProductName", "ELDEN RING")]);
    assert_eq!(GameVersion::from_version_data((2, 7, 0, 1), 0x0411, &t), Some(GameVersion::Jp2701));
    assert_eq!(GameVersion::from_version_data((2, 7, 0, 10), 0x0411, &t), None);
}

#[test]
fn from_version_data_needs_a_product_name() {
    let t = table(&[("FileDescription", "ELDEN RING")]);
    assert_eq!(GameVersion::from_version_data((2, 7, 0, 1), 0x0411, &t), None);
}

#[test]
fn from_resource_data_uses_the_first_language() {
    let t = table(&[("ProductName", "ELDEN RING™")]);
    assert_eq!(
        GameVersion::from_resource_data(Some((2, 7, 0, 0)), &vec![(0x0409, 0x04B0), (0x0411, 0x04B0)], &t),
        Some(GameVersion::Ww270)
    );
    assert_eq!(
        GameVersion::from_resource_data(Some((2, 7, 0, 0)), &vec![(0x0411, 0x04B0), (0x0409, 0x04B0)], &t),
        None
    );
}

#[test]
fn from_resource_data_needs_a_version_and_a_language() {
    let t = table(&[("ProductName", "ELDEN RING™")]);
    assert_eq!(GameVersion::from_resource_data(None, &vec![(0x0409, 0x04B0)], &t), None);
    assert_eq!(GameVersion::from_resource_data(Some((2, 7, 0, 0)), &vec![], &t), None);
}

#[test]
fn first_language_picks_the_first_translation() {
    let t = vec![(0x0409, 0x04B0), (0x0411, 0x04E4)];
    assert_eq!(GameVersion::first_language(Some((2, 7, 0, 0)), &t), Some((0x0409, 0x04B0)));
    assert_eq!(GameVersion::first_language(None, &t), None);
    assert_eq!(GameVersion::first_language(Some((2, 7, 0, 0)), &vec![]), None);
}
