use whichlicense_classification::classification::{
    spdx_category_to_license_classification, LicenseClassification,
};
use whichlicense_classification::compatibility::{
    CompatibilityEntry, CompatibilityIndex, CompatibilityStatus, CompliancyStatus, LicenseEntry,
};
use whichlicense_classification::dict::Dict;
use whichlicense_classification::ingest::{parse_verdict, split_record};

fn entry(name: &str, status: CompatibilityStatus, explanation: &str) -> CompatibilityEntry {
    CompatibilityEntry {
        name: name.to_owned(),
        compatible: status,
        explanation: explanation.to_owned(),
    }
}

#[test]
fn it_saves_and_loads_an_index_through_memory() {
    let mut index = CompatibilityIndex::new();

    let mut compatibility = Dict::new();
    compatibility.insert(
        "compatible_1",
        entry("compatible_1", CompatibilityStatus::Compatible, "fine"),
    );
    compatibility.insert(
        "incompatible_1",
        entry("incompatible_1", CompatibilityStatus::Incompatible, "viral terms"),
    );
    index.add(
        "host_license",
        LicenseEntry {
            name: "host_license".to_owned(),
            compatibility,
            spdx_license_key: Some("MIT".to_owned()),
        },
    );

    let raw = index.to_memory();

    let restored = CompatibilityIndex::from_memory(&raw);
    assert!(restored.data.len() > 0);
    assert!(restored.get("host_license").is_some());
    let host = restored.get("host_license").unwrap();
    assert_eq!(host.name, "host_license");
    assert_eq!(host.spdx_license_key, Some("MIT".to_owned()));
    assert_eq!(
        host.compatibility.get("compatible_1"),
        Some(&entry("compatible_1", CompatibilityStatus::Compatible, "fine"))
    );
    assert_eq!(
        host.compatibility.get("incompatible_1"),
        Some(&entry(
            "incompatible_1",
            CompatibilityStatus::Incompatible,
            "viral terms"
        ))
    );

    let mut replaced = CompatibilityIndex::new();
    replaced.add(
        "stale",
        LicenseEntry {
            name: "stale".to_owned(),
            compatibility: Dict::new(),
            spdx_license_key: None,
        },
    );
    replaced.load_from_memory(&raw);
    // Loading replaces the whole contents: the old key is gone.
    assert!(replaced.get("stale").is_none());
    assert!(replaced.get("host_license").is_some());
    assert_eq!(replaced.data.len(), 1);
}

#[test]
fn it_round_trips_an_empty_index() {
    let index = CompatibilityIndex::new();
    let raw = index.to_memory();
    let restored = CompatibilityIndex::from_memory(&raw);
    assert!(restored.data.is_empty());
}

#[test]
fn it_rejects_malformed_index_buffers() {
    assert!(CompatibilityIndex::try_from_memory(&[]).is_none());
    assert!(CompatibilityIndex::try_from_memory(&[9, 0, 0, 0, 0, 0, 0, 0]).is_none());

    let index = make_mit_index();
    let mut raw = index.to_memory();
    raw.push(7);
    assert!(CompatibilityIndex::try_from_memory(&raw).is_none());

    let raw = index.to_memory();
    assert!(CompatibilityIndex::try_from_memory(&raw[..raw.len() - 1]).is_none());
    assert!(CompatibilityIndex::try_from_memory(&raw).is_some());
}

fn make_mit_index() -> CompatibilityIndex {
    let mut index = CompatibilityIndex::new();
    let mut compatibility = Dict::new();
    compatibility.insert(
        "GPL-3.0",
        entry("GPL-3.0", CompatibilityStatus::Incompatible, "copyleft"),
    );
    compatibility.insert(
        "Apache-2.0",
        entry("Apache-2.0", CompatibilityStatus::Compatible, "permissive"),
    );
    index.add(
        "MIT",
        LicenseEntry {
            name: "MIT".to_owned(),
            compatibility,
            spdx_license_key: Some("MIT".to_owned()),
        },
    );
    index
}

#[test]
fn it_reports_the_incompatible_relation_for_mit() {
    let index = make_mit_index();

    let res = index.check_compliancy("MIT", &vec!["Apache-2.0", "GPL-3.0"]);

    assert_eq!(
        res,
        CompliancyStatus::NonCompliant(vec![entry(
            "GPL-3.0",
            CompatibilityStatus::Incompatible,
            "copyleft"
        )])
    );
}

#[test]
fn it_synthesizes_unknown_entries_for_unlisted_keys() {
    let index = make_mit_index();

    let res = index.check_compliancy("MIT", &vec!["Apache-2.0", "BSL-1.1"]);

    assert_eq!(res, CompliancyStatus::Unknown(vec!["BSL-1.1".to_string()]));

    let placeholder = CompatibilityEntry::new_unknown("BSL-1.1");
    assert_eq!(placeholder.name, "BSL-1.1");
    assert_eq!(placeholder.compatible, CompatibilityStatus::Unknown);
    assert_eq!(
        placeholder.explanation,
        "No compliancy data found for BSL-1.1"
    );
}

#[test]
fn it_is_compliant_on_an_empty_subordinate_list() {
    let index = make_mit_index();
    assert_eq!(
        index.check_compliancy("MIT", &vec![]),
        CompliancyStatus::Compliant
    );
}

#[test]
fn it_checks_compatibility_between_entries() {
    let index = make_mit_index();
    let host = index.get("MIT").unwrap();

    let gpl = LicenseEntry {
        name: "GPL-3.0".to_owned(),
        compatibility: Dict::new(),
        spdx_license_key: None,
    };
    let zlib = LicenseEntry {
        name: "Zlib".to_owned(),
        compatibility: Dict::new(),
        spdx_license_key: None,
    };

    assert_eq!(
        host.check_compatibility(&gpl),
        CompatibilityStatus::Incompatible
    );
    assert_eq!(host.check_compatibility(&zlib), CompatibilityStatus::Unknown);
}

#[test]
fn it_gets_all_relations_of_an_entry() {
    let index = make_mit_index();
    let host = index.get("MIT").unwrap();

    let res = host.get_all(&vec!["GPL-3.0", "missing", "Apache-2.0"]);

    assert_eq!(res.len(), 3);
    assert_eq!(
        res[0],
        Some(&entry("GPL-3.0", CompatibilityStatus::Incompatible, "copyleft"))
    );
    assert_eq!(res[1], None);
    assert_eq!(
        res[2],
        Some(&entry("Apache-2.0", CompatibilityStatus::Compatible, "permissive"))
    );
}

#[test]
fn it_gets_all_entries_of_an_index() {
    let index = make_mit_index();

    let res = index.get_all(&vec!["MIT", "missing", "MIT"]);

    assert_eq!(res.len(), 3);
    assert!(res[0].is_some());
    assert!(res[1].is_none());
    assert!(res[2].is_some());
    assert_eq!(res[0].unwrap().name, "MIT");
}

#[test]
fn it_overwrites_entries_on_repeated_add() {
    let mut index = CompatibilityIndex::new();
    index.add(
        "key",
        LicenseEntry {
            name: "first".to_owned(),
            compatibility: Dict::new(),
            spdx_license_key: None,
        },
    );
    index.add(
        "key",
        LicenseEntry {
            name: "second".to_owned(),
            compatibility: Dict::new(),
            spdx_license_key: None,
        },
    );

    assert_eq!(index.data.len(), 1);
    assert_eq!(index.get("key").unwrap().name, "second");
}

#[test]
fn it_buckets_known_categories_into_pillars() {
    assert_eq!(
        spdx_category_to_license_classification("Permissive"),
        LicenseClassification::Open
    );
    assert_eq!(
        spdx_category_to_license_classification("Public Domain"),
        LicenseClassification::Open
    );
    assert_eq!(
        spdx_category_to_license_classification("Copyleft Limited"),
        LicenseClassification::Viral
    );
    assert_eq!(
        spdx_category_to_license_classification("Network Copyleft"),
        LicenseClassification::Affero
    );
    assert_eq!(
        spdx_category_to_license_classification("Commercial"),
        LicenseClassification::Commercial
    );
    assert_eq!(
        spdx_category_to_license_classification("Proprietary Free"),
        LicenseClassification::Commercial
    );
    assert_eq!(
        spdx_category_to_license_classification("Free Restricted"),
        LicenseClassification::Special("Free Restricted".to_string())
    );
    assert_eq!(
        spdx_category_to_license_classification("Source-available"),
        LicenseClassification::Special("Source-available".to_string())
    );
}

#[test]
fn it_buckets_ambiguous_categories_into_unknown() {
    assert_eq!(
        spdx_category_to_license_classification("Copyleft"),
        LicenseClassification::Unknown
    );
    assert_eq!(
        spdx_category_to_license_classification("CLA"),
        LicenseClassification::Unknown
    );
    assert_eq!(
        spdx_category_to_license_classification("Patent License"),
        LicenseClassification::Unknown
    );
    assert_eq!(
        spdx_category_to_license_classification(""),
        LicenseClassification::Unknown
    );
}

#[test]
fn it_splits_ingestion_records() {
    assert_eq!(
        split_record("MIT[:::]GPL-3.0[:::]No", "[:::]"),
        Some(("MIT".to_string(), "GPL-3.0".to_string(), "No".to_string()))
    );
    // A fourth field bounds the third; anything further is ignored.
    assert_eq!(
        split_record("a[:::]b[:::]c[:::]d", "[:::]"),
        Some(("a".to_string(), "b".to_string(), "c".to_string()))
    );
    // Empty fields are kept as empty strings.
    assert_eq!(
        split_record("[:::][:::]", "[:::]"),
        Some(("".to_string(), "".to_string(), "".to_string()))
    );
    // Fewer than two separators is not a record.
    assert_eq!(split_record("MIT[:::]GPL-3.0", "[:::]"), None);
    assert_eq!(split_record("MIT", "[:::]"), None);
}

#[test]
fn it_parses_ingestion_verdicts() {
    assert_eq!(parse_verdict("Yes"), CompatibilityStatus::Compatible);
    assert_eq!(parse_verdict("No"), CompatibilityStatus::Incompatible);
    assert_eq!(parse_verdict("maybe"), CompatibilityStatus::Unknown);
    assert_eq!(parse_verdict(""), CompatibilityStatus::Unknown);
}
