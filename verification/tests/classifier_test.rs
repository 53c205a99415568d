use whichlicense_classification::classification::{
    ClassificationEntry, Classifier, LicenseClassification,
};

#[test]
fn it_loads_from_memory() {
    let mut classifier = Classifier::new();

    classifier.add(
        "test",
        ClassificationEntry {
            classification: LicenseClassification::Unknown,
            spdx_license_key: None,
        },
    );

    let raw = classifier.to_memory();

    let mut classifier2 = Classifier::new();
    classifier2.load_from_memory(&raw);
    assert!(classifier2.data.len() > 0);
    assert!(classifier2.data.get("test").is_some());

    let classifier_inline = Classifier::from_memory(&raw);
    assert!(classifier_inline.data.len() > 0);
    assert!(classifier_inline.data.get("test").is_some());
}

#[test]
fn it_classifies() {
    let mut classifier = Classifier::new();

    classifier.add(
        "test",
        ClassificationEntry {
            classification: LicenseClassification::Unknown,
            spdx_license_key: None,
        },
    );

    let res = classifier.classify("test");
    assert_eq!(res, LicenseClassification::Unknown);
}

#[test]
fn it_classifies_all() {
    let mut classifier = Classifier::new();

    classifier.add(
        "test",
        ClassificationEntry {
            classification: LicenseClassification::Open,
            spdx_license_key: None,
        },
    );

    classifier.add(
        "test2",
        ClassificationEntry {
            classification: LicenseClassification::Viral,
            spdx_license_key: None,
        },
    );

    let res = classifier.classify_all(&vec!["test", "test2"]);

    assert!(res.len() == 2);
    assert!(res.get(0).is_some());
    assert!(res.get(1).is_some());
    assert_eq!(res.get(0).unwrap(), &LicenseClassification::Open);
    assert_eq!(res.get(1).unwrap(), &LicenseClassification::Viral);
}

#[test]
fn it_gets_from_key() {
    let mut classifier = Classifier::new();

    classifier.add(
        "test",
        ClassificationEntry {
            classification: LicenseClassification::Open,
            spdx_license_key: None,
        },
    );

    let res = classifier.get("test");

    assert!(res.is_some());
    assert_eq!(res.unwrap().classification, LicenseClassification::Open);
}

#[test]
fn it_gets_all_from_keys() {
    let mut classifier = Classifier::new();

    classifier.add(
        "test",
        ClassificationEntry {
            classification: LicenseClassification::Open,
            spdx_license_key: None,
        },
    );

    classifier.add(
        "test2",
        ClassificationEntry {
            classification: LicenseClassification::Viral,
            spdx_license_key: None,
        },
    );

    let res = classifier.get_all(&vec!["test", "test2"]);

    assert!(res.len() == 2);
    assert!(res.get(0).is_some());
    assert!(res.get(1).is_some());
    assert_eq!(
        res.get(0).unwrap().unwrap().classification,
        LicenseClassification::Open
    );
    assert_eq!(
        res.get(1).unwrap().unwrap().classification,
        LicenseClassification::Viral
    );
}

#[test]
fn it_classifies_all_with_missing_keys() {
    let mut classifier = Classifier::new();

    classifier.add(
        "a",
        ClassificationEntry {
            classification: LicenseClassification::Open,
            spdx_license_key: None,
        },
    );

    let res = classifier.classify_all(&vec!["a", "b"]);

    assert_eq!(res.len(), 2);
    assert_eq!(res[0], LicenseClassification::Open);
    assert_eq!(res[1], LicenseClassification::Unknown);
}

#[test]
fn it_round_trips_a_classifier_through_memory() {
    let mut classifier = Classifier::new();

    classifier.add(
        "permissive-license",
        ClassificationEntry {
            classification: LicenseClassification::Open,
            spdx_license_key: Some("MIT".to_string()),
        },
    );
    classifier.add(
        "odd-license",
        ClassificationEntry {
            classification: LicenseClassification::Special("named exception \u{00e9}\u{4e16}".to_string()),
            spdx_license_key: None,
        },
    );
    classifier.add(
        "viral-license",
        ClassificationEntry {
            classification: LicenseClassification::Viral,
            spdx_license_key: Some("GPL-3.0".to_string()),
        },
    );

    let raw = classifier.to_memory();
    let restored = Classifier::from_memory(&raw);

    assert_eq!(restored.data.len(), 3);
    let entry = restored.data.get("permissive-license").unwrap();
    assert_eq!(entry.classification, LicenseClassification::Open);
    assert_eq!(entry.spdx_license_key, Some("MIT".to_string()));
    let entry = restored.data.get("odd-license").unwrap();
    assert_eq!(
        entry.classification,
        LicenseClassification::Special("named exception \u{00e9}\u{4e16}".to_string())
    );
    assert_eq!(entry.spdx_license_key, None);
    let entry = restored.data.get("viral-license").unwrap();
    assert_eq!(entry.classification, LicenseClassification::Viral);
    assert_eq!(entry.spdx_license_key, Some("GPL-3.0".to_string()));
}

#[test]
fn it_rejects_malformed_classifier_buffers() {
    // Too short for even the record count.
    assert!(Classifier::try_from_memory(&[1, 2, 3]).is_none());

    // A valid encoding with trailing bytes is refused whole.
    let mut classifier = Classifier::new();
    classifier.add(
        "test",
        ClassificationEntry {
            classification: LicenseClassification::Open,
            spdx_license_key: None,
        },
    );
    let mut raw = classifier.to_memory();
    raw.push(0);
    assert!(Classifier::try_from_memory(&raw).is_none());

    // A truncated encoding is refused.
    let raw = classifier.to_memory();
    assert!(Classifier::try_from_memory(&raw[..raw.len() - 1]).is_none());

    // The untouched encoding is accepted.
    let raw = classifier.to_memory();
    assert!(Classifier::try_from_memory(&raw).is_some());
}
