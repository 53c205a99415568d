//! The data-driven model: each license carries an explicit, named
//! relation to every license it has been evaluated against, and a batch
//! of subordinate licenses is reduced to one verdict against a host.
//!
//! The reduction reports missing data before known incompatibilities:
//! unresolved relations are a stronger signal than a recorded failure.

use vstd::prelude::*;

use crate::dict::Dict;

verus! {

/// Directed verdict of one license against another.
#[derive(Debug, Clone, Copy, PartialEq, Eq, Structural)]
pub enum CompatibilityStatus {
    Compatible,
    Incompatible,
    Unknown,
}

/// One directed relation: the owning license against the license named
/// `name`.
#[derive(Debug, PartialEq, Eq)]
pub struct CompatibilityEntry {
    pub name: String,
    pub compatible: CompatibilityStatus,
    pub explanation: String,
}

/// Abstract value of a [`CompatibilityEntry`].
pub struct CompatibilityEntryView {
    pub name: Seq<char>,
    pub compatible: CompatibilityStatus,
    pub explanation: Seq<char>,
}

impl View for CompatibilityEntry {
    type V = CompatibilityEntryView;

    open spec fn view(&self) -> CompatibilityEntryView {
        CompatibilityEntryView {
            name: self.name@,
            compatible: self.compatible,
            explanation: self.explanation@,
        }
    }
}

impl DeepView for CompatibilityEntry {
    type V = CompatibilityEntryView;

    open spec fn deep_view(&self) -> CompatibilityEntryView {
        self.view()
    }
}

impl Clone for CompatibilityEntry {
    fn clone(&self) -> (r: Self)
        ensures
            r == *self,
    {
        CompatibilityEntry {
            name: self.name.clone(),
            compatible: self.compatible,
            explanation: self.explanation.clone(),
        }
    }
}

/// The relation synthesized for a key without recorded data: status
/// `Unknown`, with an explanation naming the key.
pub open spec fn unknown_entry(key: Seq<char>) -> CompatibilityEntryView {
    CompatibilityEntryView {
        name: key,
        compatible: CompatibilityStatus::Unknown,
        explanation: "No compliancy data found for "@ + key,
    }
}

impl CompatibilityEntry {
    /// The placeholder recorded when no relation is known for `key`.
    pub fn new_unknown(key: &str) -> (r: CompatibilityEntry)
        ensures
            r@ == unknown_entry(key@),
    {
        let mut explanation = String::from_str("No compliancy data found for ");
        explanation.append(key);
        CompatibilityEntry {
            name: key.to_owned(),
            compatible: CompatibilityStatus::Unknown,
            explanation,
        }
    }
}

/// One license of the index: its own name, its recorded relations keyed
/// by the other license's identifier, and, when known, its SPDX key.
#[derive(Debug)]
pub struct LicenseEntry {
    pub name: String,
    pub compatibility: Dict<CompatibilityEntry>,
    pub spdx_license_key: Option<String>,
}

/// Abstract value of a [`LicenseEntry`].
pub struct LicenseEntryView {
    pub name: Seq<char>,
    pub compatibility: Map<Seq<char>, CompatibilityEntryView>,
    pub spdx_license_key: Option<Seq<char>>,
}

impl View for LicenseEntry {
    type V = LicenseEntryView;

    open spec fn view(&self) -> LicenseEntryView {
        LicenseEntryView {
            name: self.name@,
            compatibility: self.compatibility@,
            spdx_license_key: self.spdx_license_key.deep_view(),
        }
    }
}

impl DeepView for LicenseEntry {
    type V = LicenseEntryView;

    open spec fn deep_view(&self) -> LicenseEntryView {
        self.view()
    }
}

/// The recorded status of `host` against the license named `name`;
/// `Unknown` when no relation is recorded.
pub open spec fn status_against(host: LicenseEntryView, name: Seq<char>) -> CompatibilityStatus {
    if host.compatibility.contains_key(name) {
        host.compatibility[name].compatible
    } else {
        CompatibilityStatus::Unknown
    }
}

impl LicenseEntry {
    /// Purely data-driven lookup: the recorded status against `other`,
    /// with no fallback matrix; an unrecorded pair is `Unknown`.
    pub fn check_compatibility(&self, other: &LicenseEntry) -> (r: CompatibilityStatus)
        ensures
            r == status_against(self@, other.name@),
    {
        match self.compatibility.get(other.name.as_str()) {
            Some(entry) => entry.compatible,
            None => CompatibilityStatus::Unknown,
        }
    }

    /// One lookup per input key, in input order.
    pub fn get_all(&self, keys: &Vec<&str>) -> (r: Vec<Option<&CompatibilityEntry>>)
        ensures
            r@.len() == keys@.len(),
            forall|i: int|
                0 <= i < keys@.len() ==> match #[trigger] r@[i] {
                    Some(e) => self@.compatibility.contains_key(keys@[i]@) && e@
                        == self@.compatibility[keys@[i]@],
                    None => !self@.compatibility.contains_key(keys@[i]@),
                },
    {
        let n = keys.len();
        let mut out: Vec<Option<&CompatibilityEntry>> = Vec::new();
        let mut i: usize = 0;
        while i < n
            invariant
                n == keys@.len(),
                i <= n,
                out@.len() == i,
                forall|j: int|
                    0 <= j < i ==> match #[trigger] out@[j] {
                        Some(e) => self@.compatibility.contains_key(keys@[j]@) && e@
                            == self@.compatibility[keys@[j]@],
                        None => !self@.compatibility.contains_key(keys@[j]@),
                    },
            decreases n - i,
        {
            out.push(self.compatibility.get(keys[i]));
            i += 1;
        }
        out
    }
}

/// Verdict of an index-model compliance check.
#[derive(Debug, PartialEq, Eq)]
pub enum CompliancyStatus {
    Compliant,
    /// The host is incompatible with the listed relations, in input
    /// order.
    NonCompliant(Vec<CompatibilityEntry>),
    /// The host license itself is not known to the index.
    UnknownLeading,
    /// No relation is recorded for the listed subordinate keys, in input
    /// order.
    Unknown(Vec<String>),
}

/// The relation consulted for a subordinate key: the host's record for
/// it, or the synthesized placeholder when none is recorded.
pub open spec fn resolved_entry(host: LicenseEntryView, key: Seq<char>) -> CompatibilityEntryView {
    if host.compatibility.contains_key(key) {
        host.compatibility[key]
    } else {
        unknown_entry(key)
    }
}

/// One resolved relation per subordinate key, in input order.
pub open spec fn resolved_entries(host: LicenseEntryView, keys: Seq<Seq<char>>) -> Seq<
    CompatibilityEntryView,
> {
    keys.map_values(|k: Seq<char>| resolved_entry(host, k))
}

/// The resolved relations with status `Unknown`, in order.
pub open spec fn unknown_part(entries: Seq<CompatibilityEntryView>) -> Seq<
    CompatibilityEntryView,
> {
    entries.filter(|e: CompatibilityEntryView| e.compatible is Unknown)
}

/// The resolved relations with status `Incompatible`, in order.
pub open spec fn incompatible_part(entries: Seq<CompatibilityEntryView>) -> Seq<
    CompatibilityEntryView,
> {
    entries.filter(|e: CompatibilityEntryView| e.compatible is Incompatible)
}

/// The names of the given relations, in order.
pub open spec fn names_of(entries: Seq<CompatibilityEntryView>) -> Seq<Seq<char>> {
    entries.map_values(|e: CompatibilityEntryView| e.name)
}

/// The store of the index model: license identifier to license record.
pub struct CompatibilityIndex {
    pub data: Dict<LicenseEntry>,
}

impl View for CompatibilityIndex {
    type V = Map<Seq<char>, LicenseEntryView>;

    open spec fn view(&self) -> Map<Seq<char>, LicenseEntryView> {
        self.data@
    }
}

impl CompatibilityIndex {
    /// An empty index.
    pub fn new() -> (c: Self)
        ensures
            c@ == Map::<Seq<char>, LicenseEntryView>::empty(),
    {
        CompatibilityIndex { data: Dict::new() }
    }

    /// Stores `classification` under `key`, overwriting any earlier
    /// record for it.
    pub fn add(&mut self, key: &str, classification: LicenseEntry)
        ensures
            final(self)@ == old(self)@.insert(key@, classification@),
    {
        self.data.insert(key, classification);
    }

    /// The record stored under `key`, if any.
    pub fn get(&self, key: &str) -> (r: Option<&LicenseEntry>)
        ensures
            match r {
                Some(e) => self@.contains_key(key@) && e@ == self@[key@],
                None => !self@.contains_key(key@),
            },
    {
        self.data.get(key)
    }

    /// One lookup per input key, in input order.
    pub fn get_all(&self, keys: &Vec<&str>) -> (r: Vec<Option<&LicenseEntry>>)
        ensures
            r@.len() == keys@.len(),
            forall|i: int|
                0 <= i < keys@.len() ==> match #[trigger] r@[i] {
                    Some(e) => self@.contains_key(keys@[i]@) && e@ == self@[keys@[i]@],
                    None => !self@.contains_key(keys@[i]@),
                },
    {
        let n = keys.len();
        let mut out: Vec<Option<&LicenseEntry>> = Vec::new();
        let mut i: usize = 0;
        while i < n
            invariant
                n == keys@.len(),
                i <= n,
                out@.len() == i,
                forall|j: int|
                    0 <= j < i ==> match #[trigger] out@[j] {
                        Some(e) => self@.contains_key(keys@[j]@) && e@ == self@[keys@[j]@],
                        None => !self@.contains_key(keys@[j]@),
                    },
            decreases n - i,
        {
            out.push(self.get(keys[i]));
            i += 1;
        }
        out
    }

    /// Reduces the subordinate licenses to one verdict against the host,
    /// in this decision order: an unregistered host is `UnknownLeading`;
    /// any resolved relation with status `Unknown` wins over everything
    /// else and yields `Unknown` with those keys; otherwise any
    /// `Incompatible` relation yields `NonCompliant` with those
    /// relations; otherwise the batch is `Compliant`.  Reported lists
    /// preserve input order.
    pub fn check_compliancy(&self, leading_license: &str, subordinate_licenses: &Vec<&str>) -> (r:
        CompliancyStatus)
        ensures
            ({
                let resolved = resolved_entries(
                    self@[leading_license@],
                    subordinate_licenses.deep_view(),
                );
                match r {
                    CompliancyStatus::UnknownLeading => !self@.contains_key(leading_license@),
                    CompliancyStatus::Unknown(keys) => self@.contains_key(leading_license@)
                        && unknown_part(resolved).len() > 0 && keys.deep_view() == names_of(
                        unknown_part(resolved),
                    ),
                    CompliancyStatus::NonCompliant(entries) => self@.contains_key(leading_license@)
                        && unknown_part(resolved).len() == 0 && incompatible_part(resolved).len()
                        > 0 && entries.deep_view() == incompatible_part(resolved),
                    CompliancyStatus::Compliant => self@.contains_key(leading_license@)
                        && unknown_part(resolved).len() == 0 && incompatible_part(resolved).len()
                        == 0,
                }
            }),
    {
        let host = match self.data.get(leading_license) {
            Some(h) => h,
            None => {
                return CompliancyStatus::UnknownLeading;
            },
        };
        let ghost hostv = self@[leading_license@];
        let ghost all = subordinate_licenses.deep_view();

        let n = subordinate_licenses.len();
        let mut resolved: Vec<CompatibilityEntry> = Vec::new();
        let mut i: usize = 0;
        while i < n
            invariant
                host@ == hostv,
                n == subordinate_licenses@.len(),
                all == subordinate_licenses.deep_view(),
                i <= n,
                resolved@.len() == i,
                resolved.deep_view() =~= resolved_entries(hostv, all.take(i as int)),
            decreases n - i,
        {
            let key = subordinate_licenses[i];
            match host.compatibility.get(key) {
                Some(entry) => resolved.push(entry.clone()),
                None => resolved.push(CompatibilityEntry::new_unknown(key)),
            }
            proof {
                assert(all.take(i + 1) =~= all.take(i as int).push(all[i as int]));
                assert(resolved.deep_view()[i as int] == resolved_entry(hostv, all[i as int]));
                assert forall|j: int| 0 <= j < i implies resolved.deep_view()[j]
                    == resolved_entries(hostv, all.take(i + 1))[j] by {
                    assert(resolved.deep_view()[j] == resolved_entries(
                        hostv,
                        all.take(i as int),
                    )[j]);
                }
                assert(resolved.deep_view() =~= resolved_entries(hostv, all.take(i + 1)));
            }
            i += 1;
        }
        proof {
            assert(all.take(n as int) =~= all);
        }
        let ghost rseq = resolved.deep_view();

        let mut unknown_keys: Vec<String> = Vec::new();
        let mut j: usize = 0;
        while j < n
            invariant
                n == resolved@.len(),
                rseq == resolved.deep_view(),
                j <= n,
                unknown_keys.deep_view() =~= names_of(unknown_part(rseq.take(j as int))),
            decreases n - j,
        {
            let ghost prefix = rseq.take(j as int);
            let ghost uk_pre = unknown_keys.deep_view();
            if matches!(resolved[j].compatible, CompatibilityStatus::Unknown) {
                unknown_keys.push(resolved[j].name.clone());
            }
            proof {
                assert(resolved@[j as int]@ == rseq[j as int]);
                assert(rseq.take(j + 1) =~= prefix.push(rseq[j as int]));
                prefix.lemma_filter_push(
                    rseq[j as int],
                    |e: CompatibilityEntryView| e.compatible is Unknown,
                );
                if rseq[j as int].compatible is Unknown {
                    assert(unknown_part(rseq.take(j + 1)) == unknown_part(prefix).push(
                        rseq[j as int],
                    ));
                    assert(unknown_keys@.len() == uk_pre.len() + 1);
                    assert forall|t: int| 0 <= t < uk_pre.len() implies unknown_keys.deep_view()[t]
                        == uk_pre[t] by {}
                    assert(unknown_keys.deep_view()[uk_pre.len() as int] == rseq[j as int].name);
                }
                assert forall|t: int|
                    0 <= t < unknown_keys.deep_view().len() implies unknown_keys.deep_view()[t]
                    == names_of(unknown_part(rseq.take(j + 1)))[t] by {
                    if t < uk_pre.len() {
                        assert(uk_pre[t] == names_of(unknown_part(prefix))[t]);
                        assert(names_of(unknown_part(prefix))[t] == unknown_part(prefix)[t].name);
                        if rseq[j as int].compatible is Unknown {
                            assert(unknown_part(rseq.take(j + 1))[t] == unknown_part(prefix)[t]);
                        }
                    }
                }
                assert(unknown_keys.deep_view().len() == names_of(
                    unknown_part(rseq.take(j + 1)),
                ).len());
                assert(unknown_keys.deep_view() =~= names_of(unknown_part(rseq.take(j + 1))));
            }
            j += 1;
        }
        proof {
            assert(rseq.take(n as int) =~= rseq);
        }
        if !unknown_keys.is_empty() {
            proof {
                assert(names_of(unknown_part(rseq)).len() > 0);
            }
            return CompliancyStatus::Unknown(unknown_keys);
        }

        let mut incompatible: Vec<CompatibilityEntry> = Vec::new();
        let mut j: usize = 0;
        while j < n
            invariant
                n == resolved@.len(),
                rseq == resolved.deep_view(),
                j <= n,
                incompatible.deep_view() =~= incompatible_part(rseq.take(j as int)),
            decreases n - j,
        {
            let ghost prefix = rseq.take(j as int);
            let ghost inc_pre = incompatible.deep_view();
            if matches!(resolved[j].compatible, CompatibilityStatus::Incompatible) {
                incompatible.push(resolved[j].clone());
            }
            proof {
                assert(resolved@[j as int]@ == rseq[j as int]);
                assert(rseq.take(j + 1) =~= prefix.push(rseq[j as int]));
                prefix.lemma_filter_push(
                    rseq[j as int],
                    |e: CompatibilityEntryView| e.compatible is Incompatible,
                );
                if rseq[j as int].compatible is Incompatible {
                    assert(incompatible_part(rseq.take(j + 1)) == incompatible_part(prefix).push(
                        rseq[j as int],
                    ));
                    assert(incompatible@.len() == inc_pre.len() + 1);
                    assert forall|t: int| 0 <= t < inc_pre.len() implies incompatible.deep_view()[t]
                        == inc_pre[t] by {}
                    assert(incompatible.deep_view()[inc_pre.len() as int] == rseq[j as int]);
                }
                assert forall|t: int|
                    0 <= t < incompatible.deep_view().len() implies incompatible.deep_view()[t]
                    == incompatible_part(rseq.take(j + 1))[t] by {
                    if t < inc_pre.len() {
                        assert(inc_pre[t] == incompatible_part(prefix)[t]);
                        if rseq[j as int].compatible is Incompatible {
                            assert(incompatible_part(rseq.take(j + 1))[t] == incompatible_part(
                                prefix,
                            )[t]);
                        }
                    }
                }
                assert(incompatible.deep_view().len() == incompatible_part(rseq.take(j + 1)).len());
                assert(incompatible.deep_view() =~= incompatible_part(rseq.take(j + 1)));
            }
            j += 1;
        }
        proof {
            assert(rseq.take(n as int) =~= rseq);
        }
        if !incompatible.is_empty() {
            CompliancyStatus::NonCompliant(incompatible)
        } else {
            CompliancyStatus::Compliant
        }
    }
}

} // verus!
