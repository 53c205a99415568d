use whichlicense_classification::classification::{
    compliancy_check_custom, CompliancyMatrix, CompliancyStatus, LicenseClassification,
};

fn make_match_arms() -> CompliancyMatrix {
    let mut matrix = CompliancyMatrix::new();
    matrix.set(LicenseClassification::Open, LicenseClassification::Open, true);
    matrix.set(LicenseClassification::Open, LicenseClassification::Affero, false);
    matrix.set(LicenseClassification::Open, LicenseClassification::Viral, false);
    matrix.set(LicenseClassification::Open, LicenseClassification::Commercial, false);
    matrix.set(LicenseClassification::Viral, LicenseClassification::Viral, true);
    matrix.set(LicenseClassification::Viral, LicenseClassification::Open, true);
    matrix.set(LicenseClassification::Viral, LicenseClassification::Affero, false);
    matrix.set(LicenseClassification::Viral, LicenseClassification::Commercial, false);
    matrix.set(LicenseClassification::Affero, LicenseClassification::Open, true);
    matrix.set(LicenseClassification::Affero, LicenseClassification::Viral, true);
    matrix.set(LicenseClassification::Affero, LicenseClassification::Affero, true);
    matrix.set(LicenseClassification::Affero, LicenseClassification::Commercial, false);
    matrix.set(LicenseClassification::Commercial, LicenseClassification::Commercial, false);
    matrix.set(LicenseClassification::Commercial, LicenseClassification::Open, true);
    matrix.set(LicenseClassification::Commercial, LicenseClassification::Affero, true);
    matrix.set(LicenseClassification::Commercial, LicenseClassification::Viral, true);
    matrix
}

#[test]
fn custom_compliancy_test_it_is_compliant_on_same_pillar() {
    assert_eq!(
        compliancy_check_custom(
            &LicenseClassification::Open,
            &vec![LicenseClassification::Open],
            &make_match_arms()
        ),
        CompliancyStatus::Compliant
    );

    assert_eq!(
        compliancy_check_custom(
            &LicenseClassification::Viral,
            &vec![LicenseClassification::Viral],
            &make_match_arms()
        ),
        CompliancyStatus::Compliant
    );

    assert_eq!(
        compliancy_check_custom(
            &LicenseClassification::Affero,
            &vec![LicenseClassification::Affero],
            &make_match_arms()
        ),
        CompliancyStatus::Compliant
    );
}

#[test]
fn custom_compliancy_test_it_fails_on_commercial_pair() {
    assert_eq!(
        compliancy_check_custom(
            &LicenseClassification::Commercial,
            &vec![LicenseClassification::Commercial],
            &make_match_arms()
        ),
        CompliancyStatus::NonCompliant(vec![LicenseClassification::Commercial])
    );

    assert_eq!(
        compliancy_check_custom(
            &LicenseClassification::Commercial,
            &vec![
                LicenseClassification::Open,
                LicenseClassification::Commercial
            ],
            &make_match_arms()
        ),
        CompliancyStatus::NonCompliant(vec![LicenseClassification::Commercial])
    );
}

#[test]
fn custom_compliancy_test_it_is_compliant_when_lower_pillars_used() {
    assert_eq!(
        compliancy_check_custom(
            &LicenseClassification::Affero,
            &vec![LicenseClassification::Open, LicenseClassification::Viral],
            &make_match_arms()
        ),
        CompliancyStatus::Compliant
    );

    assert_eq!(
        compliancy_check_custom(
            &LicenseClassification::Commercial,
            &vec![
                LicenseClassification::Open,
                LicenseClassification::Viral,
                LicenseClassification::Affero
            ],
            &make_match_arms()
        ),
        CompliancyStatus::Compliant
    );
}

#[test]
fn custom_compliancy_test_it_is_not_compliant_when_higher_pillars_used() {
    assert_eq!(
        compliancy_check_custom(
            &LicenseClassification::Open,
            &vec![LicenseClassification::Affero],
            &make_match_arms()
        ),
        CompliancyStatus::NonCompliant(vec![LicenseClassification::Affero])
    );

    assert_eq!(
        compliancy_check_custom(
            &LicenseClassification::Open,
            &vec![LicenseClassification::Commercial],
            &make_match_arms()
        ),
        CompliancyStatus::NonCompliant(vec![LicenseClassification::Commercial])
    );

    assert_eq!(
        compliancy_check_custom(
            &LicenseClassification::Open,
            &vec![LicenseClassification::Viral],
            &make_match_arms()
        ),
        CompliancyStatus::NonCompliant(vec![LicenseClassification::Viral])
    );

    assert_eq!(
        compliancy_check_custom(
            &LicenseClassification::Viral,
            &vec![LicenseClassification::Commercial],
            &make_match_arms()
        ),
        CompliancyStatus::NonCompliant(vec![LicenseClassification::Commercial])
    );

    assert_eq!(
        compliancy_check_custom(
            &LicenseClassification::Viral,
            &vec![LicenseClassification::Affero],
            &make_match_arms()
        ),
        CompliancyStatus::NonCompliant(vec![LicenseClassification::Affero])
    );

    assert_eq!(
        compliancy_check_custom(
            &LicenseClassification::Affero,
            &vec![LicenseClassification::Commercial],
            &make_match_arms()
        ),
        CompliancyStatus::NonCompliant(vec![LicenseClassification::Commercial])
    );
}

#[test]
fn custom_compliancy_test_it_always_fails_on_unknown() {
    assert_eq!(
        compliancy_check_custom(
            &LicenseClassification::Unknown,
            &vec![LicenseClassification::Open],
            &make_match_arms()
        ),
        CompliancyStatus::NonCompliant(vec![LicenseClassification::Open])
    );

    assert_eq!(
        compliancy_check_custom(
            &LicenseClassification::Unknown,
            &vec![LicenseClassification::Viral],
            &make_match_arms()
        ),
        CompliancyStatus::NonCompliant(vec![LicenseClassification::Viral])
    );

    assert_eq!(
        compliancy_check_custom(
            &LicenseClassification::Unknown,
            &vec![LicenseClassification::Affero],
            &make_match_arms()
        ),
        CompliancyStatus::NonCompliant(vec![LicenseClassification::Affero])
    );

    assert_eq!(
        compliancy_check_custom(
            &LicenseClassification::Unknown,
            &vec![LicenseClassification::Commercial],
            &make_match_arms()
        ),
        CompliancyStatus::NonCompliant(vec![LicenseClassification::Commercial])
    );

    assert_eq!(
        compliancy_check_custom(
            &LicenseClassification::Unknown,
            &vec![LicenseClassification::Unknown],
            &make_match_arms()
        ),
        CompliancyStatus::NonCompliant(vec![LicenseClassification::Unknown])
    );

    assert_eq!(
        compliancy_check_custom(
            &LicenseClassification::Open,
            &vec![LicenseClassification::Unknown],
            &make_match_arms()
        ),
        CompliancyStatus::NonCompliant(vec![LicenseClassification::Unknown])
    );

    assert_eq!(
        compliancy_check_custom(
            &LicenseClassification::Viral,
            &vec![LicenseClassification::Unknown],
            &make_match_arms()
        ),
        CompliancyStatus::NonCompliant(vec![LicenseClassification::Unknown])
    );

    assert_eq!(
        compliancy_check_custom(
            &LicenseClassification::Affero,
            &vec![LicenseClassification::Unknown],
            &make_match_arms()
        ),
        CompliancyStatus::NonCompliant(vec![LicenseClassification::Unknown])
    );

    assert_eq!(
        compliancy_check_custom(
            &LicenseClassification::Commercial,
            &vec![LicenseClassification::Unknown],
            &make_match_arms()
        ),
        CompliancyStatus::NonCompliant(vec![LicenseClassification::Unknown])
    );

    assert_eq!(
        compliancy_check_custom(
            &LicenseClassification::Unknown,
            &vec![
                LicenseClassification::Open,
                LicenseClassification::Viral,
                LicenseClassification::Affero,
                LicenseClassification::Commercial,
                LicenseClassification::Unknown
            ],
            &make_match_arms()
        ),
        CompliancyStatus::NonCompliant(vec![
            LicenseClassification::Open,
            LicenseClassification::Viral,
            LicenseClassification::Affero,
            LicenseClassification::Commercial,
            LicenseClassification::Unknown
        ])
    );
}

#[test]
fn custom_compliancy_test_it_always_fails_on_special() {
    assert_eq!(
        compliancy_check_custom(
            &LicenseClassification::Special("".to_string()),
            &vec![LicenseClassification::Open],
            &make_match_arms()
        ),
        CompliancyStatus::NonCompliant(vec![LicenseClassification::Open])
    );

    assert_eq!(
        compliancy_check_custom(
            &LicenseClassification::Special("".to_string()),
            &vec![LicenseClassification::Viral],
            &make_match_arms()
        ),
        CompliancyStatus::NonCompliant(vec![LicenseClassification::Viral])
    );

    assert_eq!(
        compliancy_check_custom(
            &LicenseClassification::Special("".to_string()),
            &vec![LicenseClassification::Affero],
            &make_match_arms()
        ),
        CompliancyStatus::NonCompliant(vec![LicenseClassification::Affero])
    );

    assert_eq!(
        compliancy_check_custom(
            &LicenseClassification::Special("".to_string()),
            &vec![LicenseClassification::Commercial],
            &make_match_arms()
        ),
        CompliancyStatus::NonCompliant(vec![LicenseClassification::Commercial])
    );

    assert_eq!(
        compliancy_check_custom(
            &LicenseClassification::Special("".to_string()),
            &vec![LicenseClassification::Unknown],
            &make_match_arms()
        ),
        CompliancyStatus::NonCompliant(vec![LicenseClassification::Unknown])
    );

    assert_eq!(
        compliancy_check_custom(
            &LicenseClassification::Open,
            &vec![LicenseClassification::Special("".to_string())],
            &make_match_arms()
        ),
        CompliancyStatus::NonCompliant(vec![LicenseClassification::Special("".to_string())])
    );

    assert_eq!(
        compliancy_check_custom(
            &LicenseClassification::Viral,
            &vec![LicenseClassification::Special("".to_string())],
            &make_match_arms()
        ),
        CompliancyStatus::NonCompliant(vec![LicenseClassification::Special("".to_string())])
    );

    assert_eq!(
        compliancy_check_custom(
            &LicenseClassification::Affero,
            &vec![LicenseClassification::Special("".to_string())],
            &make_match_arms()
        ),
        CompliancyStatus::NonCompliant(vec![LicenseClassification::Special("".to_string())])
    );

    assert_eq!(
        compliancy_check_custom(
            &LicenseClassification::Commercial,
            &vec![LicenseClassification::Special("".to_string())],
            &make_match_arms()
        ),
        CompliancyStatus::NonCompliant(vec![LicenseClassification::Special("".to_string())])
    );

    assert_eq!(
        compliancy_check_custom(
            &LicenseClassification::Unknown,
            &vec![LicenseClassification::Special("".to_string())],
            &make_match_arms()
        ),
        CompliancyStatus::NonCompliant(vec![LicenseClassification::Special("".to_string())])
    );

    assert_eq!(
        compliancy_check_custom(
            &LicenseClassification::Special("".to_string()),
            &vec![
                LicenseClassification::Open,
                LicenseClassification::Viral,
                LicenseClassification::Affero,
                LicenseClassification::Commercial,
                LicenseClassification::Unknown
            ],
            &make_match_arms()
        ),
        CompliancyStatus::NonCompliant(vec![
            LicenseClassification::Open,
            LicenseClassification::Viral,
            LicenseClassification::Affero,
            LicenseClassification::Commercial,
            LicenseClassification::Unknown
        ])
    );
}

#[test]
fn custom_compliancy_test_it_returns_failed_classifications_in_non_compliant() {
    assert_eq!(
        compliancy_check_custom(
            &LicenseClassification::Open,
            &vec![
                LicenseClassification::Open,
                LicenseClassification::Viral, // incompliant starts here
                LicenseClassification::Affero,
                LicenseClassification::Commercial,
                LicenseClassification::Unknown
            ],
            &make_match_arms()
        ),
        CompliancyStatus::NonCompliant(vec![
            LicenseClassification::Viral,
            LicenseClassification::Affero,
            LicenseClassification::Commercial,
            LicenseClassification::Unknown
        ])
    );

    assert_eq!(
        compliancy_check_custom(
            &LicenseClassification::Affero,
            &vec![
                LicenseClassification::Open,
                LicenseClassification::Viral,
                LicenseClassification::Affero,
                LicenseClassification::Commercial, // incompliant starts here
                LicenseClassification::Unknown
            ],
            &make_match_arms()
        ),
        CompliancyStatus::NonCompliant(vec![
            LicenseClassification::Commercial,
            LicenseClassification::Unknown
        ])
    );

    assert_eq!(
        compliancy_check_custom(
            &LicenseClassification::Viral,
            &vec![
                LicenseClassification::Open,
                LicenseClassification::Viral,
                LicenseClassification::Affero, // incompliant starts here
                LicenseClassification::Commercial,
                LicenseClassification::Unknown
            ],
            &make_match_arms()
        ),
        CompliancyStatus::NonCompliant(vec![
            LicenseClassification::Affero,
            LicenseClassification::Commercial,
            LicenseClassification::Unknown
        ])
    );

    assert_eq!(
        compliancy_check_custom(
            &LicenseClassification::Commercial,
            &vec![
                LicenseClassification::Open,
                LicenseClassification::Viral,
                LicenseClassification::Affero,
                LicenseClassification::Commercial, // incompliant starts here
                LicenseClassification::Unknown
            ],
            &make_match_arms()
        ),
        CompliancyStatus::NonCompliant(vec![
            LicenseClassification::Commercial,
            LicenseClassification::Unknown
        ])
    );

    assert_eq!(
        compliancy_check_custom(
            &LicenseClassification::Unknown,
            &vec![
                // everything is incompliant when unknown is used
                LicenseClassification::Open,
                LicenseClassification::Viral,
                LicenseClassification::Affero,
                LicenseClassification::Commercial,
                LicenseClassification::Unknown
            ],
            &make_match_arms()
        ),
        CompliancyStatus::NonCompliant(vec![
            LicenseClassification::Open,
            LicenseClassification::Viral,
            LicenseClassification::Affero,
            LicenseClassification::Commercial,
            LicenseClassification::Unknown
        ])
    );
}
