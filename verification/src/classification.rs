//! The pillar model: each license is bucketed into a coarse category and
//! two categories are compared through a compatibility matrix.
//!
//! The fixed matrix ranks the four ordered pillars
//! `Open < Viral < Affero < Commercial`; a host absorbs any pillar at or
//! below its own rank, except that two `Commercial` works are not
//! compatible by default.  `Special` on either side always fails, and a
//! pair involving `Unknown` resolves to the caller's policy flag.

use vstd::prelude::*;

use crate::dict::{assoc_map, lemma_assoc_map_contains, lemma_assoc_map_last_match, Dict};
use crate::text::str_eq;

verus! {

/// The coarse license categories ("pillars").
#[derive(Debug, PartialEq, Eq)]
pub enum LicenseClassification {
    Open,
    Viral,
    Affero,
    Commercial,
    /// A named exception that always requires human review.
    Special(String),
    Unknown,
}

/// Abstract value of a pillar: the `Special` payload abstracted to its
/// characters.
pub enum ClassificationView {
    Open,
    Viral,
    Affero,
    Commercial,
    Special(Seq<char>),
    Unknown,
}

impl View for LicenseClassification {
    type V = ClassificationView;

    open spec fn view(&self) -> ClassificationView {
        match self {
            LicenseClassification::Open => ClassificationView::Open,
            LicenseClassification::Viral => ClassificationView::Viral,
            LicenseClassification::Affero => ClassificationView::Affero,
            LicenseClassification::Commercial => ClassificationView::Commercial,
            LicenseClassification::Special(text) => ClassificationView::Special(text@),
            LicenseClassification::Unknown => ClassificationView::Unknown,
        }
    }
}

impl DeepView for LicenseClassification {
    type V = ClassificationView;

    open spec fn deep_view(&self) -> ClassificationView {
        self.view()
    }
}

impl Clone for LicenseClassification {
    fn clone(&self) -> (r: Self)
        ensures
            r == *self,
    {
        match self {
            LicenseClassification::Open => LicenseClassification::Open,
            LicenseClassification::Viral => LicenseClassification::Viral,
            LicenseClassification::Affero => LicenseClassification::Affero,
            LicenseClassification::Commercial => LicenseClassification::Commercial,
            LicenseClassification::Special(text) => LicenseClassification::Special(text.clone()),
            LicenseClassification::Unknown => LicenseClassification::Unknown,
        }
    }
}

impl LicenseClassification {
    /// Structural equality, decided in executable code.
    pub fn equals(&self, other: &Self) -> (r: bool)
        ensures
            r == (self@ == other@),
    {
        match (self, other) {
            (LicenseClassification::Open, LicenseClassification::Open) => true,
            (LicenseClassification::Viral, LicenseClassification::Viral) => true,
            (LicenseClassification::Affero, LicenseClassification::Affero) => true,
            (LicenseClassification::Commercial, LicenseClassification::Commercial) => true,
            (LicenseClassification::Special(a), LicenseClassification::Special(b)) => str_eq(
                a.as_str(),
                b.as_str(),
            ),
            (LicenseClassification::Unknown, LicenseClassification::Unknown) => true,
            _ => false,
        }
    }
}

/// Rank of a pillar in the total order used by the fixed matrix.  Only
/// the four ordered pillars take part in rank comparisons; `Special` and
/// `Unknown` are decided before any rank is consulted.
pub open spec fn pillar_rank(c: ClassificationView) -> int {
    match c {
        ClassificationView::Open => 0,
        ClassificationView::Viral => 1,
        ClassificationView::Affero => 2,
        ClassificationView::Commercial => 3,
        ClassificationView::Special(_) => 4,
        ClassificationView::Unknown => 4,
    }
}

/// The fixed compatibility matrix: may a host of pillar `host` depend on
/// a work of pillar `dep`?  `Special` on either side always fails; then a
/// pair involving `Unknown` resolves to `unknown_is_compliant`; then a
/// host absorbs any pillar at or below its own rank, except the
/// `Commercial` self-pair.
pub open spec fn pillar_compliant(
    host: ClassificationView,
    dep: ClassificationView,
    unknown_is_compliant: bool,
) -> bool {
    if host is Special || dep is Special {
        false
    } else if host is Unknown || dep is Unknown {
        unknown_is_compliant
    } else if host is Commercial && dep is Commercial {
        false
    } else {
        pillar_rank(dep) <= pillar_rank(host)
    }
}

/// Executable decision mirroring [`pillar_compliant`].
fn pillar_allows(
    host: &LicenseClassification,
    dep: &LicenseClassification,
    unknown_is_compliant: bool,
) -> (r: bool)
    ensures
        r == pillar_compliant(host@, dep@, unknown_is_compliant),
{
    match (host, dep) {
        (LicenseClassification::Special(_), _) => false,
        (_, LicenseClassification::Special(_)) => false,
        (LicenseClassification::Unknown, _) => unknown_is_compliant,
        (_, LicenseClassification::Unknown) => unknown_is_compliant,
        (LicenseClassification::Commercial, LicenseClassification::Commercial) => false,
        _ => rank_of(dep) <= rank_of(host),
    }
}

/// Executable pillar rank.
fn rank_of(c: &LicenseClassification) -> (r: u8)
    ensures
        r as int == pillar_rank(c@),
{
    match c {
        LicenseClassification::Open => 0,
        LicenseClassification::Viral => 1,
        LicenseClassification::Affero => 2,
        LicenseClassification::Commercial => 3,
        LicenseClassification::Special(_) => 4,
        LicenseClassification::Unknown => 4,
    }
}

/// Verdict of a pillar-model compliance check.
#[derive(Debug, PartialEq, Eq)]
pub enum CompliancyStatus {
    Compliant,
    /// The host fails against the listed pillars, in input order.
    NonCompliant(Vec<LicenseClassification>),
}

/// The subsequence of `found` that the fixed matrix rejects against
/// `host`, in input order.
pub open spec fn offending(
    host: ClassificationView,
    found: Seq<ClassificationView>,
    unknown_is_compliant: bool,
) -> Seq<ClassificationView> {
    found.filter(|d: ClassificationView| !pillar_compliant(host, d, unknown_is_compliant))
}

/// Checks every entry of `found` against `host` through the fixed
/// matrix and collects every entry that fails, preserving input order.
pub fn compliancy_check(
    host: &LicenseClassification,
    found: &Vec<LicenseClassification>,
    unknown_is_compliant: bool,
) -> (r: CompliancyStatus)
    ensures
        ({
            let off = offending(host@, found.deep_view(), unknown_is_compliant);
            match r {
                CompliancyStatus::Compliant => off.len() == 0,
                CompliancyStatus::NonCompliant(v) => v.deep_view() == off && off.len() > 0,
            }
        }),
{
    let ghost all = found.deep_view();
    let mut fails: Vec<LicenseClassification> = Vec::new();
    let n = found.len();
    let mut i: usize = 0;
    while i < n
        invariant
            n == found.len(),
            i <= n,
            all == found.deep_view(),
            fails.deep_view() == offending(host@, all.take(i as int), unknown_is_compliant),
        decreases n - i,
    {
        let ghost prefix = all.take(i as int);
        if !pillar_allows(host, &found[i], unknown_is_compliant) {
            fails.push(found[i].clone());
        }
        proof {
            assert(all.take(i + 1) =~= prefix.push(all[i as int]));
            prefix.lemma_filter_push(
                all[i as int],
                |d: ClassificationView| !pillar_compliant(host@, d, unknown_is_compliant),
            );
            assert(fails.deep_view() =~= offending(
                host@,
                all.take(i + 1),
                unknown_is_compliant,
            ));
        }
        i += 1;
    }
    proof {
        assert(all.take(n as int) =~= all);
    }
    if fails.is_empty() {
        CompliancyStatus::Compliant
    } else {
        CompliancyStatus::NonCompliant(fails)
    }
}

/// A caller-supplied compatibility matrix: an ordered pair of pillars
/// mapped to a verdict.  Pairs absent from the matrix fail closed.
pub struct CompliancyMatrix {
    rows: Vec<(LicenseClassification, LicenseClassification, bool)>,
}

impl View for CompliancyMatrix {
    type V = Map<(ClassificationView, ClassificationView), bool>;

    open spec fn view(&self) -> Map<(ClassificationView, ClassificationView), bool> {
        assoc_map(self.row_seq())
    }
}

impl CompliancyMatrix {
    /// The recorded rows, newest last; a later row for a pair overrides
    /// an earlier one.
    pub closed spec fn row_seq(self) -> Seq<((ClassificationView, ClassificationView), bool)> {
        self.rows@.map_values(
            |r: (LicenseClassification, LicenseClassification, bool)| ((r.0@, r.1@), r.2),
        )
    }

    /// An empty matrix, which fails every pair.
    pub fn new() -> (m: Self)
        ensures
            m@ == Map::<(ClassificationView, ClassificationView), bool>::empty(),
    {
        let m = CompliancyMatrix { rows: Vec::new() };
        proof {
            assert(m.row_seq() =~= Seq::<
                ((ClassificationView, ClassificationView), bool),
            >::empty());
        }
        m
    }

    /// Records the verdict for the ordered pair `(host, dep)`,
    /// overriding any earlier verdict for it.
    pub fn set(&mut self, host: LicenseClassification, dep: LicenseClassification, compliant: bool)
        ensures
            final(self)@ == old(self)@.insert((host@, dep@), compliant),
    {
        let ghost old_rows = self.row_seq();
        let ghost key = (host@, dep@);
        self.rows.push((host, dep, compliant));
        proof {
            assert(self.row_seq() =~= old_rows.push((key, compliant)));
            assert(self.row_seq().drop_last() =~= old_rows);
        }
    }

    /// Looks up the ordered pair `(host, dep)`; a missing pair is not
    /// compliant.
    pub fn allows(&self, host: &LicenseClassification, dep: &LicenseClassification) -> (r: bool)
        ensures
            r == matrix_allows(self@, host@, dep@),
    {
        let n = self.rows.len();
        let mut i: usize = n;
        while i > 0
            invariant
                n == self.rows@.len(),
                i <= n,
                forall|j: int| i <= j < n ==> self.row_seq()[j].0 != (host@, dep@),
            decreases i,
        {
            i -= 1;
            let row = &self.rows[i];
            if row.0.equals(host) && row.1.equals(dep) {
                proof {
                    lemma_assoc_map_last_match(self.row_seq(), i as int);
                }
                return row.2;
            }
        }
        proof {
            lemma_assoc_map_contains(self.row_seq(), (host@, dep@));
        }
        false
    }
}

/// Lookup with a fail-closed default: a pair absent from the matrix is
/// not compliant.
pub open spec fn matrix_allows(
    m: Map<(ClassificationView, ClassificationView), bool>,
    host: ClassificationView,
    dep: ClassificationView,
) -> bool {
    m.contains_key((host, dep)) && m[(host, dep)]
}

/// The subsequence of `found` that the caller's matrix rejects against
/// `host`, in input order.
pub open spec fn offending_custom(
    host: ClassificationView,
    found: Seq<ClassificationView>,
    m: Map<(ClassificationView, ClassificationView), bool>,
) -> Seq<ClassificationView> {
    found.filter(|d: ClassificationView| !matrix_allows(m, host, d))
}

/// Checks every entry of `found` against `host` through a
/// caller-supplied matrix and collects every entry that fails,
/// preserving input order.  Pairs absent from the matrix fail.
pub fn compliancy_check_custom(
    host: &LicenseClassification,
    found: &Vec<LicenseClassification>,
    matrix: &CompliancyMatrix,
) -> (r: CompliancyStatus)
    ensures
        ({
            let off = offending_custom(host@, found.deep_view(), matrix@);
            match r {
                CompliancyStatus::Compliant => off.len() == 0,
                CompliancyStatus::NonCompliant(v) => v.deep_view() == off && off.len() > 0,
            }
        }),
{
    let ghost all = found.deep_view();
    let mut fails: Vec<LicenseClassification> = Vec::new();
    let n = found.len();
    let mut i: usize = 0;
    while i < n
        invariant
            n == found.len(),
            i <= n,
            all == found.deep_view(),
            fails.deep_view() == offending_custom(host@, all.take(i as int), matrix@),
        decreases n - i,
    {
        let ghost prefix = all.take(i as int);
        if !matrix.allows(host, &found[i]) {
            fails.push(found[i].clone());
        }
        proof {
            assert(all.take(i + 1) =~= prefix.push(all[i as int]));
            prefix.lemma_filter_push(
                all[i as int],
                |d: ClassificationView| !matrix_allows(matrix@, host@, d),
            );
            assert(fails.deep_view() =~= offending_custom(host@, all.take(i + 1), matrix@));
        }
        i += 1;
    }
    proof {
        assert(all.take(n as int) =~= all);
    }
    if fails.is_empty() {
        CompliancyStatus::Compliant
    } else {
        CompliancyStatus::NonCompliant(fails)
    }
}

/// One classified license: its pillar and, when known, the SPDX key it
/// was derived from.
#[derive(Debug, PartialEq, Eq)]
pub struct ClassificationEntry {
    pub classification: LicenseClassification,
    pub spdx_license_key: Option<String>,
}

/// Abstract value of a [`ClassificationEntry`].
pub struct ClassificationEntryView {
    pub classification: ClassificationView,
    pub spdx_license_key: Option<Seq<char>>,
}

impl View for ClassificationEntry {
    type V = ClassificationEntryView;

    open spec fn view(&self) -> ClassificationEntryView {
        ClassificationEntryView {
            classification: self.classification@,
            spdx_license_key: self.spdx_license_key.deep_view(),
        }
    }
}

impl DeepView for ClassificationEntry {
    type V = ClassificationEntryView;

    open spec fn deep_view(&self) -> ClassificationEntryView {
        self.view()
    }
}

impl Clone for ClassificationEntry {
    fn clone(&self) -> (r: Self)
        ensures
            r == *self,
    {
        ClassificationEntry {
            classification: self.classification.clone(),
            spdx_license_key: match &self.spdx_license_key {
                Some(key) => Some(key.clone()),
                None => None,
            },
        }
    }
}

/// Classification looked up in a store is total: an absent key means
/// `Unknown`, never a missing result.
pub open spec fn classification_of(
    m: Map<Seq<char>, ClassificationEntryView>,
    key: Seq<char>,
) -> ClassificationView {
    if m.contains_key(key) {
        m[key].classification
    } else {
        ClassificationView::Unknown
    }
}

/// One total classification per key, in order.
pub open spec fn classification_of_all(
    m: Map<Seq<char>, ClassificationEntryView>,
    keys: Seq<Seq<char>>,
) -> Seq<ClassificationView> {
    keys.map_values(|k: Seq<char>| classification_of(m, k))
}

/// The store of the pillar model: license identifier to classification.
pub struct Classifier {
    pub data: Dict<ClassificationEntry>,
}

impl View for Classifier {
    type V = Map<Seq<char>, ClassificationEntryView>;

    open spec fn view(&self) -> Map<Seq<char>, ClassificationEntryView> {
        self.data@
    }
}

impl Classifier {
    /// An empty store.
    pub fn new() -> (c: Self)
        ensures
            c@ == Map::<Seq<char>, ClassificationEntryView>::empty(),
    {
        Classifier { data: Dict::new() }
    }

    /// Stores `entry` under `key`, overwriting any earlier entry for it.
    pub fn add(&mut self, key: &str, entry: ClassificationEntry)
        ensures
            final(self)@ == old(self)@.insert(key@, entry@),
    {
        self.data.insert(key, entry);
    }

    /// The entry stored under `key`, if any.
    pub fn get(&self, key: &str) -> (r: Option<&ClassificationEntry>)
        ensures
            match r {
                Some(e) => self@.contains_key(key@) && e@ == self@[key@],
                None => !self@.contains_key(key@),
            },
    {
        self.data.get(key)
    }

    /// One lookup per input key, in input order.
    pub fn get_all(&self, keys: &Vec<&str>) -> (r: Vec<Option<&ClassificationEntry>>)
        ensures
            r@.len() == keys@.len(),
            forall|i: int|
                0 <= i < keys@.len() ==> match #[trigger] r@[i] {
                    Some(e) => self@.contains_key(keys@[i]@) && e@ == self@[keys@[i]@],
                    None => !self@.contains_key(keys@[i]@),
                },
    {
        let n = keys.len();
        let mut out: Vec<Option<&ClassificationEntry>> = Vec::new();
        let mut i: usize = 0;
        while i < n
            invariant
                n == keys@.len(),
                i <= n,
                out@.len() == i,
                forall|j: int|
                    0 <= j < i ==> match #[trigger] out@[j] {
                        Some(e) => self@.contains_key(keys@[j]@) && e@ == self@[keys@[j]@],
                        None => !self@.contains_key(keys@[j]@),
                    },
            decreases n - i,
        {
            out.push(self.get(keys[i]));
            i += 1;
        }
        out
    }

    /// The pillar stored under `key`; `Unknown` when the key is absent,
    /// so that a classification is always available.
    pub fn classify(&self, key: &str) -> (r: LicenseClassification)
        ensures
            r@ == classification_of(self@, key@),
    {
        match self.data.get(key) {
            Some(entry) => entry.classification.clone(),
            None => LicenseClassification::Unknown,
        }
    }

    /// One classification per input key, in input order.
    pub fn classify_all(&self, keys: &Vec<&str>) -> (r: Vec<LicenseClassification>)
        ensures
            r.deep_view() == classification_of_all(self@, keys.deep_view()),
    {
        let ghost all = keys.deep_view();
        let n = keys.len();
        let mut out: Vec<LicenseClassification> = Vec::new();
        let mut i: usize = 0;
        while i < n
            invariant
                n == keys@.len(),
                all == keys.deep_view(),
                i <= n,
                out@.len() == i,
                out.deep_view() =~= classification_of_all(self@, all.take(i as int)),
            decreases n - i,
        {
            out.push(self.classify(keys[i]));
            proof {
                assert(all.take(i + 1) =~= all.take(i as int).push(all[i as int]));
                assert(out.deep_view()[i as int] == classification_of(self@, all[i as int]));
                assert forall|j: int| 0 <= j < i implies out.deep_view()[j]
                    == classification_of_all(self@, all.take(i + 1))[j] by {
                    assert(out.deep_view()[j] == classification_of_all(
                        self@,
                        all.take(i as int),
                    )[j]);
                }
                assert(out.deep_view() =~= classification_of_all(self@, all.take(i + 1)));
            }
            i += 1;
        }
        proof {
            assert(all.take(n as int) =~= all);
        }
        out
    }
}

/// Buckets a category string from the external license taxonomy into a
/// pillar.  Unrecognized or legally ambiguous categories (for example
/// "Copyleft", "CLA" or "Patent License") land in `Unknown`: ambiguous
/// legal categories require human review rather than silent
/// misclassification.
pub open spec fn category_pillar(category: Seq<char>) -> ClassificationView {
    if category == "Permissive"@ || category == "Public Domain"@ {
        ClassificationView::Open
    } else if category == "Copyleft Limited"@ {
        ClassificationView::Viral
    } else if category == "Network Copyleft"@ {
        ClassificationView::Affero
    } else if category == "Commercial"@ || category == "Proprietary Free"@ {
        ClassificationView::Commercial
    } else if category == "Free Restricted"@ || category == "Source-available"@ {
        ClassificationView::Special(category)
    } else {
        ClassificationView::Unknown
    }
}

/// Maps a category string of the external taxonomy to its pillar, as
/// [`category_pillar`] prescribes.
pub fn spdx_category_to_license_classification(category: &str) -> (r: LicenseClassification)
    ensures
        r@ == category_pillar(category@),
{
    if str_eq(category, "Permissive") || str_eq(category, "Public Domain") {
        LicenseClassification::Open
    } else if str_eq(category, "Copyleft Limited") {
        LicenseClassification::Viral
    } else if str_eq(category, "Network Copyleft") {
        LicenseClassification::Affero
    } else if str_eq(category, "Commercial") || str_eq(category, "Proprietary Free") {
        LicenseClassification::Commercial
    } else if str_eq(category, "Free Restricted") || str_eq(category, "Source-available") {
        LicenseClassification::Special(category.to_owned())
    } else {
        LicenseClassification::Unknown
    }
}

/// A batch of one dependency fails exactly when the fixed matrix
/// rejects the pair: the offending list is empty or that one pillar.
pub proof fn lemma_offending_singleton(
    host: ClassificationView,
    dep: ClassificationView,
    unknown_is_compliant: bool,
)
    ensures
        pillar_compliant(host, dep, unknown_is_compliant) ==> offending(
            host,
            seq![dep],
            unknown_is_compliant,
        ) == Seq::<ClassificationView>::empty(),
        !pillar_compliant(host, dep, unknown_is_compliant) ==> offending(
            host,
            seq![dep],
            unknown_is_compliant,
        ) == seq![dep],
{
    reveal(Seq::filter);
    let pred = |d: ClassificationView| !pillar_compliant(host, d, unknown_is_compliant);
    assert(seq![dep].drop_last() =~= Seq::<ClassificationView>::empty());
    assert(Seq::<ClassificationView>::empty().filter(pred) =~= Seq::<
        ClassificationView,
    >::empty());
    if !pillar_compliant(host, dep, unknown_is_compliant) {
        assert(Seq::<ClassificationView>::empty().push(dep) =~= seq![dep]);
    }
}

/// Reflexivity on the diagonal of the fixed matrix: every ordered pillar
/// tolerates itself, except `Commercial`, whose self-pair is disallowed.
pub proof fn lemma_pillar_reflexive(p: ClassificationView)
    requires
        p is Open || p is Viral || p is Affero || p is Commercial,
    ensures
        pillar_compliant(p, p, false) == !(p is Commercial),
{
}

/// `Unknown` on either side of a pair resolves to the policy flag,
/// independent of pillar order; the one exception is a `Special` pillar
/// on the other side, which fails even when the flag would approve.
pub proof fn lemma_unknown_policy(
    p: ClassificationView,
    q: ClassificationView,
    unknown_is_compliant: bool,
)
    requires
        p is Unknown || q is Unknown,
        !((p is Special || q is Special) && unknown_is_compliant),
    ensures
        pillar_compliant(p, q, unknown_is_compliant) == unknown_is_compliant,
{
}

/// `Special` on either side of a pair is never compliant, whatever the
/// policy flag says.
pub proof fn lemma_special_never_compliant(
    p: ClassificationView,
    q: ClassificationView,
    unknown_is_compliant: bool,
)
    requires
        p is Special || q is Special,
    ensures
        !pillar_compliant(p, q, unknown_is_compliant),
{
}

} // verus!
