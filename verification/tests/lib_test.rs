use whichlicense_classification::compatibility::{
    CompatibilityEntry, CompatibilityIndex, CompatibilityStatus, CompliancyStatus, LicenseEntry,
};
use whichlicense_classification::dict::Dict;

fn relation(name: &str, status: CompatibilityStatus) -> CompatibilityEntry {
    CompatibilityEntry {
        name: name.to_owned(),
        compatible: status,
        explanation: name.to_owned(),
    }
}

fn make_test_data() -> CompatibilityIndex {
    let mut index = CompatibilityIndex::new();

    let mut compatibility = Dict::new();
    compatibility.insert(
        "compatible_1",
        relation("compatible_1", CompatibilityStatus::Compatible),
    );
    compatibility.insert(
        "compatible_2",
        relation("compatible_2", CompatibilityStatus::Compatible),
    );
    compatibility.insert(
        "incompatible_1",
        relation("incompatible_1", CompatibilityStatus::Incompatible),
    );
    compatibility.insert(
        "incompatible_2",
        relation("incompatible_2", CompatibilityStatus::Incompatible),
    );
    compatibility.insert(
        "unknown_1",
        relation("unknown_1", CompatibilityStatus::Unknown),
    );
    compatibility.insert(
        "unknown_2",
        relation("unknown_2", CompatibilityStatus::Unknown),
    );

    index.add(
        "host_license",
        LicenseEntry {
            name: "host_license".to_owned(),
            compatibility,
            spdx_license_key: None,
        },
    );

    index
}

#[test]
fn it_adds_new_values() {
    let mut index = CompatibilityIndex::new();

    assert!(index.data.is_empty());

    let mut compatibility = Dict::new();
    compatibility.insert("test", relation("test", CompatibilityStatus::Compatible));

    index.add(
        "test",
        LicenseEntry {
            name: "other".to_owned(),
            compatibility,
            spdx_license_key: None,
        },
    );

    assert_eq!(index.data.len(), 1);
}

#[test]
fn it_is_compliant_on_all_compatible() {
    let index = make_test_data();

    let res = index.check_compliancy("host_license", &vec!["compatible_1", "compatible_2"]);

    assert_eq!(res, CompliancyStatus::Compliant);
}

#[test]
fn it_is_incompliant_on_one_incompatible() {
    let index = make_test_data();

    let res = index.check_compliancy(
        "host_license",
        &vec!["compatible_1", "compatible_2", "incompatible_1"],
    );

    assert_eq!(
        res,
        CompliancyStatus::NonCompliant(vec![relation(
            "incompatible_1",
            CompatibilityStatus::Incompatible
        )])
    );
}

#[test]
fn it_is_incompliant_on_multiple_incompatible() {
    let index = make_test_data();

    let res = index.check_compliancy(
        "host_license",
        &vec![
            "compatible_1",
            "compatible_2",
            "incompatible_1",
            "incompatible_2",
        ],
    );

    assert_eq!(
        res,
        CompliancyStatus::NonCompliant(vec![
            relation("incompatible_1", CompatibilityStatus::Incompatible),
            relation("incompatible_2", CompatibilityStatus::Incompatible),
        ])
    );
}

#[test]
fn it_is_incompliant_on_all_incompatible() {
    let index = make_test_data();

    let res = index.check_compliancy("host_license", &vec!["incompatible_1", "incompatible_2"]);

    assert_eq!(
        res,
        CompliancyStatus::NonCompliant(vec![
            relation("incompatible_1", CompatibilityStatus::Incompatible),
            relation("incompatible_2", CompatibilityStatus::Incompatible),
        ])
    );
}

#[test]
fn it_is_unknown_on_all_unknown() {
    let index = make_test_data();

    let res = index.check_compliancy("host_license", &vec!["unknown_1", "unknown_2"]);

    assert_eq!(
        res,
        CompliancyStatus::Unknown(vec!["unknown_1".to_string(), "unknown_2".to_string()])
    );
}

#[test]
fn it_is_unknown_on_any_unknown() {
    let index = make_test_data();

    let res = index.check_compliancy(
        "host_license",
        &vec!["compatible_1", "compatible_2", "unknown_1", "unknown_2"],
    );

    assert_eq!(
        res,
        CompliancyStatus::Unknown(vec!["unknown_1".to_string(), "unknown_2".to_string()])
    );
}

#[test]
fn it_prioritizes_unknown() {
    let index = make_test_data();

    let res = index.check_compliancy(
        "host_license",
        &vec![
            "compatible_1",
            "compatible_2",
            "incompatible_1",
            "incompatible_2",
            "unknown_1",
            "unknown_2",
        ],
    );

    assert_eq!(
        res,
        CompliancyStatus::Unknown(vec!["unknown_1".to_string(), "unknown_2".to_string()])
    );
}

#[test]
fn it_provides_unknown_leading_on_unknown_leading() {
    let index = make_test_data();

    let res = index.check_compliancy("some_random_license", &vec!["compatible_1", "compatible_2"]);

    assert_eq!(res, CompliancyStatus::UnknownLeading);
}
