//! Persistence for the two stores: each container is encoded whole into
//! a byte buffer and decoded whole from one, replacing the container's
//! contents.  Decoding what was encoded gives back the same contents.

use vstd::prelude::*;

use crate::codec::{
    dec_seq, dec_str, dec_u64, elem_roundtrip, enc_seq, enc_str, enc_u64, lemma_dec_seq_of_enc,
    lemma_dec_seq_split, lemma_dec_str_of_enc, lemma_dec_u64_of_enc, lemma_enc_seq_push,
    read_string, read_u64, write_str, write_u64,
};
use crate::classification::{
    ClassificationEntry, ClassificationEntryView, ClassificationView, Classifier,
    LicenseClassification,
};
use crate::compatibility::{
    CompatibilityEntry, CompatibilityEntryView, CompatibilityIndex, CompatibilityStatus,
    LicenseEntry, LicenseEntryView,
};
use crate::dict::{assoc_map, Dict};

verus! {

/// Equality of a buffer segment with a concatenation passes to the two
/// parts.
pub proof fn lemma_subrange_parts(b: Seq<u8>, p: int, x: Seq<u8>, y: Seq<u8>)
    requires
        0 <= p,
        p + x.len() + y.len() <= b.len(),
        b.subrange(p, p + x.len() + y.len()) == x + y,
    ensures
        b.subrange(p, p + x.len()) == x,
        b.subrange(p + x.len(), p + x.len() + y.len()) == y,
{
    let whole = x + y;
    assert forall|i: int| 0 <= i < x.len() implies #[trigger] b.subrange(p, p + x.len())[i]
        == x[i] by {
        assert(b.subrange(p, p + whole.len())[i] == b[p + i]);
        assert(whole[i] == x[i]);
    }
    assert(b.subrange(p, p + x.len()) =~= x);
    assert forall|i: int| 0 <= i < y.len() implies #[trigger] b.subrange(
        p + x.len(),
        p + x.len() + y.len(),
    )[i] == y[i] by {
        assert(b.subrange(p, p + whole.len())[x.len() + i] == b[p + x.len() + i]);
        assert(whole[x.len() + i] == y[i]);
    }
    assert(b.subrange(p + x.len(), p + x.len() + y.len()) =~= y);
}

/// The one-byte code of a pairwise status.
pub open spec fn enc_status(st: CompatibilityStatus) -> Seq<u8> {
    match st {
        CompatibilityStatus::Compatible => seq![0u8],
        CompatibilityStatus::Incompatible => seq![1u8],
        CompatibilityStatus::Unknown => seq![2u8],
    }
}

/// Reads a status byte at `p`.
pub open spec fn dec_status(b: Seq<u8>, p: int) -> Option<(CompatibilityStatus, int)> {
    if 0 <= p && p + 1 <= b.len() {
        if b[p] == 0 {
            Some((CompatibilityStatus::Compatible, p + 1))
        } else if b[p] == 1 {
            Some((CompatibilityStatus::Incompatible, p + 1))
        } else if b[p] == 2 {
            Some((CompatibilityStatus::Unknown, p + 1))
        } else {
            None
        }
    } else {
        None
    }
}

/// Reading back an encoded status yields the status.
pub proof fn lemma_dec_status_of_enc(b: Seq<u8>, p: int, st: CompatibilityStatus)
    requires
        0 <= p,
        p + 1 <= b.len(),
        b.subrange(p, p + 1) == enc_status(st),
    ensures
        dec_status(b, p) == Some((st, p + 1)),
{
    assert(b[p] == enc_status(st)[0]) by {
        assert(b.subrange(p, p + 1)[0] == b[p]);
    }
}

/// An optional string: a presence byte, then the string if present.
pub open spec fn enc_opt_str(o: Option<Seq<char>>) -> Seq<u8> {
    match o {
        None => seq![0u8],
        Some(s) => seq![1u8] + enc_str(s),
    }
}

/// Reads an optional string at `p`.
pub open spec fn dec_opt_str(b: Seq<u8>, p: int) -> Option<(Option<Seq<char>>, int)> {
    if 0 <= p && p + 1 <= b.len() {
        if b[p] == 0 {
            Some((None, p + 1))
        } else if b[p] == 1 {
            match dec_str(b, p + 1) {
                None => None,
                Some((s, q)) => Some((Some(s), q)),
            }
        } else {
            None
        }
    } else {
        None
    }
}

/// Reading back an encoded optional string yields it.
pub proof fn lemma_dec_opt_str_of_enc(b: Seq<u8>, p: int, o: Option<Seq<char>>)
    requires
        o matches Some(s) ==> s.len() <= u64::MAX,
        0 <= p,
        p + enc_opt_str(o).len() <= b.len(),
        b.subrange(p, p + enc_opt_str(o).len()) == enc_opt_str(o),
    ensures
        dec_opt_str(b, p) == Some((o, p + enc_opt_str(o).len())),
{
    match o {
        None => {
            assert(b[p] == enc_opt_str(o)[0]) by {
                assert(b.subrange(p, p + 1)[0] == b[p]);
            }
        },
        Some(s) => {
            lemma_subrange_parts(b, p, seq![1u8], enc_str(s));
            assert(b[p] == 1) by {
                assert(b.subrange(p, p + 1)[0] == b[p]);
            }
            lemma_dec_str_of_enc(b, p + 1, s);
        },
    }
}

/// The encoding of one directed relation: name, status, explanation.
pub open spec fn enc_centry(e: CompatibilityEntryView) -> Seq<u8> {
    enc_str(e.name) + enc_status(e.compatible) + enc_str(e.explanation)
}

/// Reads one directed relation at `p`.
pub open spec fn dec_centry(b: Seq<u8>, p: int) -> Option<(CompatibilityEntryView, int)> {
    match dec_str(b, p) {
        None => None,
        Some((name, p1)) => match dec_status(b, p1) {
            None => None,
            Some((st, p2)) => match dec_str(b, p2) {
                None => None,
                Some((expl, p3)) => Some(
                    (CompatibilityEntryView { name, compatible: st, explanation: expl }, p3),
                ),
            },
        },
    }
}

/// Whether a relation's strings fit the length prefix.
pub open spec fn centry_bounded(e: CompatibilityEntryView) -> bool {
    e.name.len() <= u64::MAX && e.explanation.len() <= u64::MAX
}

/// Reading back an encoded relation yields the relation.
pub proof fn lemma_dec_centry_of_enc(b: Seq<u8>, p: int, e: CompatibilityEntryView)
    requires
        centry_bounded(e),
        0 <= p,
        p + enc_centry(e).len() <= b.len(),
        b.subrange(p, p + enc_centry(e).len()) == enc_centry(e),
    ensures
        dec_centry(b, p) == Some((e, p + enc_centry(e).len())),
{
    let x1 = enc_str(e.name);
    let x2 = enc_status(e.compatible);
    let x3 = enc_str(e.explanation);
    assert(enc_centry(e) == x1 + x2 + x3);
    assert(x1 + x2 + x3 =~= x1 + (x2 + x3));
    lemma_subrange_parts(b, p, x1, x2 + x3);
    lemma_subrange_parts(b, p + x1.len(), x2, x3);
    lemma_dec_str_of_enc(b, p, e.name);
    lemma_dec_status_of_enc(b, p + x1.len(), e.compatible);
    lemma_dec_str_of_enc(b, p + x1.len() + x2.len(), e.explanation);
}

/// The encoding of one keyed relation record.
pub open spec fn enc_cpair(pr: (Seq<char>, CompatibilityEntryView)) -> Seq<u8> {
    enc_str(pr.0) + enc_centry(pr.1)
}

/// Reads one keyed relation record at `p`.
pub open spec fn dec_cpair(b: Seq<u8>, p: int) -> Option<((Seq<char>, CompatibilityEntryView), int)> {
    match dec_str(b, p) {
        None => None,
        Some((key, p1)) => match dec_centry(b, p1) {
            None => None,
            Some((e, p2)) => Some(((key, e), p2)),
        },
    }
}

/// Whether a keyed relation record fits the length prefixes.
pub open spec fn cpair_bounded(pr: (Seq<char>, CompatibilityEntryView)) -> bool {
    pr.0.len() <= u64::MAX && centry_bounded(pr.1)
}

/// Reading back an encoded keyed relation yields it.
pub proof fn lemma_dec_cpair_of_enc(b: Seq<u8>, p: int, pr: (Seq<char>, CompatibilityEntryView))
    requires
        cpair_bounded(pr),
        0 <= p,
        p + enc_cpair(pr).len() <= b.len(),
        b.subrange(p, p + enc_cpair(pr).len()) == enc_cpair(pr),
    ensures
        dec_cpair(b, p) == Some((pr, p + enc_cpair(pr).len())),
{
    lemma_subrange_parts(b, p, enc_str(pr.0), enc_centry(pr.1));
    lemma_dec_str_of_enc(b, p, pr.0);
    lemma_dec_centry_of_enc(b, p + enc_str(pr.0).len(), pr.1);
}

/// The keyed-relation coders as function values.
pub open spec fn enc_cpair_f() -> spec_fn((Seq<char>, CompatibilityEntryView)) -> Seq<u8> {
    |pr: (Seq<char>, CompatibilityEntryView)| enc_cpair(pr)
}

/// The keyed-relation decoder as a function value.
pub open spec fn dec_cpair_f() -> spec_fn(Seq<u8>, int) -> Option<
    ((Seq<char>, CompatibilityEntryView), int),
> {
    |b: Seq<u8>, p: int| dec_cpair(b, p)
}

/// The stored shape of one license of the index: its relations keep
/// their storage order.
pub struct LicenseRecord {
    pub name: Seq<char>,
    pub relations: Seq<(Seq<char>, CompatibilityEntryView)>,
    pub spdx_license_key: Option<Seq<char>>,
}

/// The abstract license entry a stored record stands for.
pub open spec fn record_view(r: LicenseRecord) -> LicenseEntryView {
    LicenseEntryView {
        name: r.name,
        compatibility: assoc_map(r.relations),
        spdx_license_key: r.spdx_license_key,
    }
}

/// The encoding of one license record: name, relation count, relations,
/// optional SPDX key.
pub open spec fn enc_lentry(r: LicenseRecord) -> Seq<u8> {
    enc_str(r.name) + enc_u64(r.relations.len() as u64) + enc_seq(r.relations, enc_cpair_f())
        + enc_opt_str(r.spdx_license_key)
}

/// Reads one license record at `p`.
pub open spec fn dec_lentry(b: Seq<u8>, p: int) -> Option<(LicenseRecord, int)> {
    match dec_str(b, p) {
        None => None,
        Some((name, p1)) => match dec_u64(b, p1) {
            None => None,
            Some((n, p2)) => match dec_seq(b, p2, n as nat, dec_cpair_f()) {
                None => None,
                Some((relations, p3)) => match dec_opt_str(b, p3) {
                    None => None,
                    Some((spdx, p4)) => Some(
                        (LicenseRecord { name, relations, spdx_license_key: spdx }, p4),
                    ),
                },
            },
        },
    }
}

/// Whether a license record fits the length prefixes.
pub open spec fn lrec_bounded(r: LicenseRecord) -> bool {
    &&& r.name.len() <= u64::MAX
    &&& r.relations.len() <= u64::MAX
    &&& (forall|i: int| 0 <= i < r.relations.len() ==> cpair_bounded(#[trigger] r.relations[i]))
    &&& (r.spdx_license_key matches Some(s) ==> s.len() <= u64::MAX)
}

/// Reading back an encoded license record yields it.
pub proof fn lemma_dec_lentry_of_enc(b: Seq<u8>, p: int, r: LicenseRecord)
    requires
        lrec_bounded(r),
        0 <= p,
        p + enc_lentry(r).len() <= b.len(),
        b.subrange(p, p + enc_lentry(r).len()) == enc_lentry(r),
    ensures
        dec_lentry(b, p) == Some((r, p + enc_lentry(r).len())),
{
    let x1 = enc_str(r.name);
    let x2 = enc_u64(r.relations.len() as u64);
    let x3 = enc_seq(r.relations, enc_cpair_f());
    let x4 = enc_opt_str(r.spdx_license_key);
    assert(enc_lentry(r) == x1 + x2 + x3 + x4);
    assert(x1 + x2 + x3 + x4 =~= x1 + (x2 + (x3 + x4)));
    lemma_subrange_parts(b, p, x1, x2 + (x3 + x4));
    lemma_subrange_parts(b, p + x1.len(), x2, x3 + x4);
    lemma_subrange_parts(b, p + x1.len() + x2.len(), x3, x4);
    lemma_dec_str_of_enc(b, p, r.name);
    lemma_dec_u64_of_enc(b, p + x1.len(), r.relations.len() as u64);
    assert forall|i: int| 0 <= i < r.relations.len() implies elem_roundtrip(
        enc_cpair_f(),
        dec_cpair_f(),
        #[trigger] r.relations[i],
    ) by {
        let pr = r.relations[i];
        assert forall|b2: Seq<u8>, p2: int|
            0 <= p2 && p2 + enc_cpair_f()(pr).len() <= b2.len() && b2.subrange(
                p2,
                p2 + enc_cpair_f()(pr).len(),
            ) == enc_cpair_f()(pr) implies #[trigger] dec_cpair_f()(b2, p2) == Some(
            (pr, p2 + enc_cpair_f()(pr).len()),
        ) by {
            lemma_dec_cpair_of_enc(b2, p2, pr);
        }
    }
    lemma_dec_seq_of_enc(b, p + x1.len() + x2.len(), r.relations, enc_cpair_f(), dec_cpair_f());
    assert((r.relations.len() as u64) as nat == r.relations.len());
    lemma_dec_opt_str_of_enc(b, p + x1.len() + x2.len() + x3.len(), r.spdx_license_key);
}

/// The encoding of one keyed license record.
pub open spec fn enc_lpair(pr: (Seq<char>, LicenseRecord)) -> Seq<u8> {
    enc_str(pr.0) + enc_lentry(pr.1)
}

/// Reads one keyed license record at `p`.
pub open spec fn dec_lpair(b: Seq<u8>, p: int) -> Option<((Seq<char>, LicenseRecord), int)> {
    match dec_str(b, p) {
        None => None,
        Some((key, p1)) => match dec_lentry(b, p1) {
            None => None,
            Some((r, p2)) => Some(((key, r), p2)),
        },
    }
}

/// Whether a keyed license record fits the length prefixes.
pub open spec fn lpair_bounded(pr: (Seq<char>, LicenseRecord)) -> bool {
    pr.0.len() <= u64::MAX && lrec_bounded(pr.1)
}

/// Reading back an encoded keyed license record yields it.
pub proof fn lemma_dec_lpair_of_enc(b: Seq<u8>, p: int, pr: (Seq<char>, LicenseRecord))
    requires
        lpair_bounded(pr),
        0 <= p,
        p + enc_lpair(pr).len() <= b.len(),
        b.subrange(p, p + enc_lpair(pr).len()) == enc_lpair(pr),
    ensures
        dec_lpair(b, p) == Some((pr, p + enc_lpair(pr).len())),
{
    lemma_subrange_parts(b, p, enc_str(pr.0), enc_lentry(pr.1));
    lemma_dec_str_of_enc(b, p, pr.0);
    lemma_dec_lentry_of_enc(b, p + enc_str(pr.0).len(), pr.1);
}

/// The keyed-license coders as function values.
pub open spec fn enc_lpair_f() -> spec_fn((Seq<char>, LicenseRecord)) -> Seq<u8> {
    |pr: (Seq<char>, LicenseRecord)| enc_lpair(pr)
}

/// The keyed-license decoder as a function value.
pub open spec fn dec_lpair_f() -> spec_fn(Seq<u8>, int) -> Option<((Seq<char>, LicenseRecord), int)> {
    |b: Seq<u8>, p: int| dec_lpair(b, p)
}

/// The encoding of a whole index: record count, then the records.
pub open spec fn enc_index(pairs: Seq<(Seq<char>, LicenseRecord)>) -> Seq<u8> {
    enc_u64(pairs.len() as u64) + enc_seq(pairs, enc_lpair_f())
}

/// Reads a whole index from a buffer.  Strict: trailing bytes fail.
pub open spec fn dec_index(b: Seq<u8>) -> Option<Seq<(Seq<char>, LicenseRecord)>> {
    match dec_u64(b, 0) {
        None => None,
        Some((n, p)) => match dec_seq(b, p, n as nat, dec_lpair_f()) {
            None => None,
            Some((pairs, q)) => if q == b.len() {
                Some(pairs)
            } else {
                None
            },
        },
    }
}

/// Whether every record of an index fits the length prefixes.
pub open spec fn index_bounded(pairs: Seq<(Seq<char>, LicenseRecord)>) -> bool {
    pairs.len() <= u64::MAX && (forall|i: int|
        0 <= i < pairs.len() ==> lpair_bounded(#[trigger] pairs[i]))
}

/// The index contents a stored record sequence stands for: a later
/// record for a key overrides an earlier one.
pub open spec fn index_pairs_view(pairs: Seq<(Seq<char>, LicenseRecord)>) -> Map<
    Seq<char>,
    LicenseEntryView,
>
    decreases pairs.len(),
{
    if pairs.len() == 0 {
        Map::empty()
    } else {
        index_pairs_view(pairs.drop_last()).insert(
            pairs.last().0,
            record_view(pairs.last().1),
        )
    }
}

/// A record sequence stands for the same map as the association
/// sequence of the entries the records stand for.
pub proof fn lemma_index_view_assoc(
    recs: Seq<(Seq<char>, LicenseRecord)>,
    kv: Seq<(Seq<char>, LicenseEntryView)>,
)
    requires
        recs.len() == kv.len(),
        forall|j: int|
            0 <= j < recs.len() ==> (#[trigger] recs[j].0, record_view(recs[j].1)) == kv[j],
    ensures
        index_pairs_view(recs) == assoc_map(kv),
    decreases recs.len(),
{
    if recs.len() > 0 {
        assert(forall|j: int|
            0 <= j < recs.len() - 1 ==> recs.drop_last()[j] == recs[j] && kv.drop_last()[j]
                == kv[j]);
        lemma_index_view_assoc(recs.drop_last(), kv.drop_last());
        assert((recs[recs.len() - 1].0, record_view(recs[recs.len() - 1].1)) == kv[kv.len() - 1]);
    }
}

/// Decoding an encoded index yields exactly the records that were
/// encoded: the binary round trip loses nothing.
#[verifier::rlimit(50)]
pub proof fn lemma_dec_index_of_enc(pairs: Seq<(Seq<char>, LicenseRecord)>)
    requires
        index_bounded(pairs),
    ensures
        dec_index(enc_index(pairs)) == Some(pairs),
{
    let b = enc_index(pairs);
    let head = enc_u64(pairs.len() as u64);
    let body = enc_seq(pairs, enc_lpair_f());
    assert(b.subrange(0, b.len() as int) =~= b);
    lemma_subrange_parts(b, 0, head, body);
    lemma_dec_u64_of_enc(b, 0, pairs.len() as u64);
    assert forall|i: int| 0 <= i < pairs.len() implies elem_roundtrip(
        enc_lpair_f(),
        dec_lpair_f(),
        #[trigger] pairs[i],
    ) by {
        let pr = pairs[i];
        assert forall|b2: Seq<u8>, p2: int|
            0 <= p2 && p2 + enc_lpair_f()(pr).len() <= b2.len() && b2.subrange(
                p2,
                p2 + enc_lpair_f()(pr).len(),
            ) == enc_lpair_f()(pr) implies #[trigger] dec_lpair_f()(b2, p2) == Some(
            (pr, p2 + enc_lpair_f()(pr).len()),
        ) by {
            lemma_dec_lpair_of_enc(b2, p2, pr);
        }
    }
    lemma_dec_seq_of_enc(b, 8, pairs, enc_lpair_f(), dec_lpair_f());
    assert((pairs.len() as u64) as nat == pairs.len());
}

/// Appends the status byte.
fn write_status(out: &mut Vec<u8>, st: CompatibilityStatus)
    ensures
        final(out)@ == old(out)@ + enc_status(st),
{
    let code: u8 = match st {
        CompatibilityStatus::Compatible => 0,
        CompatibilityStatus::Incompatible => 1,
        CompatibilityStatus::Unknown => 2,
    };
    out.push(code);
    proof {
        assert(out@ =~= old(out)@ + enc_status(st));
    }
}

/// Reads a status byte at `pos`, as [`dec_status`] prescribes.
fn read_status(raw: &[u8], pos: usize) -> (r: Option<(CompatibilityStatus, usize)>)
    requires
        pos <= raw@.len(),
    ensures
        r is None <==> dec_status(raw@, pos as int) is None,
        r matches Some((st, q)) ==> dec_status(raw@, pos as int) == Some((st, q as int)) && q
            <= raw@.len(),
{
    if raw.len() - pos < 1 {
        return None;
    }
    let code = raw[pos];
    if code == 0 {
        Some((CompatibilityStatus::Compatible, pos + 1))
    } else if code == 1 {
        Some((CompatibilityStatus::Incompatible, pos + 1))
    } else if code == 2 {
        Some((CompatibilityStatus::Unknown, pos + 1))
    } else {
        None
    }
}

/// Appends the encoding of an optional string.
fn write_opt_str(out: &mut Vec<u8>, o: &Option<String>)
    ensures
        final(out)@ == old(out)@ + enc_opt_str(o.deep_view()),
        o.deep_view() matches Some(s) ==> s.len() <= u64::MAX,
{
    match o {
        None => {
            out.push(0);
            proof {
                assert(out@ =~= old(out)@ + enc_opt_str(o.deep_view()));
            }
        },
        Some(s) => {
            out.push(1);
            let ghost mid = out@;
            write_str(out, s.as_str());
            proof {
                assert(mid =~= old(out)@ + seq![1u8]);
                assert(out@ =~= old(out)@ + enc_opt_str(o.deep_view()));
            }
        },
    }
}

/// Reads an optional string at `pos`, as [`dec_opt_str`] prescribes.
fn read_opt_str(raw: &[u8], pos: usize) -> (r: Option<(Option<String>, usize)>)
    requires
        pos <= raw@.len(),
    ensures
        r is None <==> dec_opt_str(raw@, pos as int) is None,
        r matches Some((o, q)) ==> dec_opt_str(raw@, pos as int) == Some((o.deep_view(), q as int))
            && q <= raw@.len(),
{
    if raw.len() - pos < 1 {
        return None;
    }
    let tag = raw[pos];
    if tag == 0 {
        Some((None, pos + 1))
    } else if tag == 1 {
        match read_string(raw, pos + 1) {
            None => None,
            Some((s, q)) => Some((Some(s), q)),
        }
    } else {
        None
    }
}

/// Appends the encoding of one directed relation.
fn write_centry(out: &mut Vec<u8>, e: &CompatibilityEntry)
    ensures
        final(out)@ == old(out)@ + enc_centry(e@),
        centry_bounded(e@),
{
    write_str(out, e.name.as_str());
    write_status(out, e.compatible);
    write_str(out, e.explanation.as_str());
    proof {
        assert(out@ =~= old(out)@ + enc_centry(e@));
    }
}

/// Reads one directed relation at `pos`, as [`dec_centry`] prescribes.
fn read_centry(raw: &[u8], pos: usize) -> (r: Option<(CompatibilityEntry, usize)>)
    requires
        pos <= raw@.len(),
    ensures
        r is None <==> dec_centry(raw@, pos as int) is None,
        r matches Some((e, q)) ==> dec_centry(raw@, pos as int) == Some((e@, q as int)) && q
            <= raw@.len(),
{
    let (name, p1) = match read_string(raw, pos) {
        Some(v) => v,
        None => {
            return None;
        },
    };
    let (st, p2) = match read_status(raw, p1) {
        Some(v) => v,
        None => {
            return None;
        },
    };
    let (explanation, p3) = match read_string(raw, p2) {
        Some(v) => v,
        None => {
            return None;
        },
    };
    Some((CompatibilityEntry { name, compatible: st, explanation }, p3))
}

/// The stored record of a license entry: its relations in storage
/// order.
pub open spec fn license_record(e: LicenseEntry) -> LicenseRecord {
    LicenseRecord {
        name: e.name@,
        relations: e.compatibility.kv_seq(),
        spdx_license_key: e.spdx_license_key.deep_view(),
    }
}

/// Appends the encoding of one license record.
fn write_lentry(out: &mut Vec<u8>, e: &LicenseEntry)
    ensures
        final(out)@ == old(out)@ + enc_lentry(license_record(*e)),
        lrec_bounded(license_record(*e)),
{
    let ghost rec = license_record(*e);
    write_str(out, e.name.as_str());
    let n = e.compatibility.len();
    write_u64(out, n as u64);
    let ghost base = out@;
    let mut i: usize = 0;
    while i < n
        invariant
            n == e.compatibility.kv_seq().len(),
            rec == license_record(*e),
            i <= n,
            out@ == base + enc_seq(rec.relations.take(i as int), enc_cpair_f()),
            forall|j: int| 0 <= j < i ==> cpair_bounded(#[trigger] rec.relations[j]),
        decreases n - i,
    {
        let pair = e.compatibility.pair_at(i);
        write_str(out, pair.0.as_str());
        write_centry(out, &pair.1);
        proof {
            assert((pair.0@, pair.1@) == rec.relations[i as int]);
            assert(enc_cpair_f()(rec.relations[i as int]) == enc_str(pair.0@) + enc_centry(
                pair.1@,
            ));
            lemma_enc_seq_push(
                rec.relations.take(i as int),
                rec.relations[i as int],
                enc_cpair_f(),
            );
            assert(rec.relations.take(i + 1) =~= rec.relations.take(i as int).push(
                rec.relations[i as int],
            ));
            assert(out@ =~= base + enc_seq(rec.relations.take(i + 1), enc_cpair_f()));
            assert(cpair_bounded(rec.relations[i as int]));
        }
        i += 1;
    }
    write_opt_str(out, &e.spdx_license_key);
    proof {
        assert(rec.relations.take(n as int) =~= rec.relations);
        assert(out@ =~= old(out)@ + enc_lentry(rec));
        assert(rec.relations.len() <= u64::MAX);
    }
}

/// Reads one license record at `pos` and assembles the entry it stands
/// for, as [`dec_lentry`] prescribes.
fn read_lentry(raw: &[u8], pos: usize) -> (r: Option<(LicenseEntry, usize)>)
    requires
        pos <= raw@.len(),
    ensures
        r is None <==> dec_lentry(raw@, pos as int) is None,
        r matches Some((e, q)) ==> dec_lentry(raw@, pos as int) matches Some((rec, qq)) && qq
            == q as int && q <= raw@.len() && e@ == record_view(rec),
{
    let (name, p1) = match read_string(raw, pos) {
        Some(v) => v,
        None => {
            return None;
        },
    };
    let (count, p2) = match read_u64(raw, p1) {
        Some(v) => v,
        None => {
            return None;
        },
    };
    let mut relations: Dict<CompatibilityEntry> = Dict::new();
    let ghost mut rels: Seq<(Seq<char>, CompatibilityEntryView)> = Seq::empty();
    let mut cur: usize = p2;
    let mut i: u64 = 0;
    while i < count
        invariant
            pos <= raw@.len(),
            cur <= raw@.len(),
            i <= count,
            dec_str(raw@, pos as int) == Some((name@, p1 as int)),
            dec_u64(raw@, p1 as int) == Some((count, p2 as int)),
            dec_seq(raw@, p2 as int, i as nat, dec_cpair_f()) == Some((rels, cur as int)),
            relations@ == assoc_map(rels),
        decreases count - i,
    {
        let (key, q1) = match read_string(raw, cur) {
            Some(v) => v,
            None => {
                proof {
                    assert(dec_cpair_f()(raw@, cur as int) is None);
                    lemma_dec_seq_split(raw@, p2 as int, i as nat, count as nat, dec_cpair_f());
                }
                return None;
            },
        };
        let (entry, q2) = match read_centry(raw, q1) {
            Some(v) => v,
            None => {
                proof {
                    assert(dec_cpair_f()(raw@, cur as int) is None);
                    lemma_dec_seq_split(raw@, p2 as int, i as nat, count as nat, dec_cpair_f());
                }
                return None;
            },
        };
        relations.insert(key.as_str(), entry);
        proof {
            let pr = (key@, entry@);
            assert(dec_cpair_f()(raw@, cur as int) == Some((pr, q2 as int)));
            lemma_dec_seq_split(raw@, p2 as int, i as nat, (i + 1) as nat, dec_cpair_f());
            assert(dec_seq(raw@, cur as int, 1, dec_cpair_f()) == Some((seq![pr], q2 as int)))
                by {
                assert(dec_seq(raw@, q2 as int, 0, dec_cpair_f()) == Some(
                    (Seq::<(Seq<char>, CompatibilityEntryView)>::empty(), q2 as int),
                ));
                assert(seq![pr] + Seq::<(Seq<char>, CompatibilityEntryView)>::empty()
                    =~= seq![pr]);
            }
            assert(rels + seq![pr] =~= rels.push(pr));
            assert(rels.push(pr).drop_last() =~= rels);
            rels = rels.push(pr);
        }
        cur = q2;
        i += 1;
    }
    let (spdx, p4) = match read_opt_str(raw, cur) {
        Some(v) => v,
        None => {
            return None;
        },
    };
    let entry = LicenseEntry { name, compatibility: relations, spdx_license_key: spdx };
    proof {
        assert((count as u64) as nat == count as nat);
        assert(dec_lentry(raw@, pos as int) matches Some((rec, qq)) && qq == p4 as int && entry@
            == record_view(rec));
    }
    Some((entry, p4))
}

impl CompatibilityIndex {
    /// Encodes the whole index into a byte buffer; decoding the buffer
    /// yields records that stand for exactly this index's contents.
    pub fn to_memory(&self) -> (r: Vec<u8>)
        ensures
            dec_index(r@) matches Some(pairs) && index_pairs_view(pairs) == self@,
    {
        let mut out: Vec<u8> = Vec::new();
        let n = self.data.len();
        write_u64(&mut out, n as u64);
        let ghost head = out@;
        let ghost mut recs: Seq<(Seq<char>, LicenseRecord)> = Seq::empty();
        let mut i: usize = 0;
        while i < n
            invariant
                n == self.data.kv_seq().len(),
                i <= n,
                recs.len() == i,
                head == enc_u64(n as u64),
                out@ == head + enc_seq(recs, enc_lpair_f()),
                forall|j: int| 0 <= j < i ==> lpair_bounded(#[trigger] recs[j]),
                forall|j: int|
                    0 <= j < i ==> (#[trigger] recs[j].0, record_view(recs[j].1))
                        == self.data.kv_seq()[j],
            decreases n - i,
        {
            let pair = self.data.pair_at(i);
            let ghost rec = (pair.0@, license_record(pair.1));
            write_str(&mut out, pair.0.as_str());
            write_lentry(&mut out, &pair.1);
            proof {
                assert(enc_lpair_f()(rec) == enc_str(pair.0@) + enc_lentry(license_record(
                    pair.1,
                )));
                lemma_enc_seq_push(recs, rec, enc_lpair_f());
                assert(out@ =~= head + enc_seq(recs.push(rec), enc_lpair_f()));
                assert(record_view(license_record(pair.1)) == pair.1@);
                recs = recs.push(rec);
            }
            i += 1;
        }
        proof {
            assert(out@ =~= enc_index(recs));
            lemma_dec_index_of_enc(recs);
            lemma_index_view_assoc(recs, self.data.kv_seq());
        }
        out
    }

    /// Decodes a whole index from a byte buffer: `Some` exactly when
    /// the buffer is one well-formed index encoding with nothing
    /// trailing, and then the result holds exactly the decoded records.
    pub fn try_from_memory(raw: &[u8]) -> (r: Option<CompatibilityIndex>)
        ensures
            r is Some <==> dec_index(raw@) is Some,
            r matches Some(c) ==> dec_index(raw@) matches Some(pairs) && c@ == index_pairs_view(
                pairs,
            ),
    {
        let (count, start) = match read_u64(raw, 0) {
            Some(v) => v,
            None => {
                return None;
            },
        };
        let mut index = CompatibilityIndex::new();
        let ghost mut recs: Seq<(Seq<char>, LicenseRecord)> = Seq::empty();
        let mut cur: usize = start;
        let mut i: u64 = 0;
        while i < count
            invariant
                cur <= raw@.len(),
                i <= count,
                dec_u64(raw@, 0) == Some((count, start as int)),
                dec_seq(raw@, start as int, i as nat, dec_lpair_f()) == Some((recs, cur as int)),
                index@ == index_pairs_view(recs),
            decreases count - i,
        {
            let (key, q1) = match read_string(raw, cur) {
                Some(v) => v,
                None => {
                    proof {
                        assert(dec_lpair_f()(raw@, cur as int) is None);
                        lemma_dec_seq_split(
                            raw@,
                            start as int,
                            i as nat,
                            count as nat,
                            dec_lpair_f(),
                        );
                    }
                    return None;
                },
            };
            let (entry, q2) = match read_lentry(raw, q1) {
                Some(v) => v,
                None => {
                    proof {
                        assert(dec_lpair_f()(raw@, cur as int) is None);
                        lemma_dec_seq_split(
                            raw@,
                            start as int,
                            i as nat,
                            count as nat,
                            dec_lpair_f(),
                        );
                    }
                    return None;
                },
            };
            proof {
                let (rec, qq) = choose|rec: LicenseRecord, qq: int|
                    dec_lentry(raw@, q1 as int) == Some((rec, qq));
                let pr = (key@, rec);
                assert(dec_lpair_f()(raw@, cur as int) == Some((pr, q2 as int)));
                lemma_dec_seq_split(raw@, start as int, i as nat, (i + 1) as nat, dec_lpair_f());
                assert(dec_seq(raw@, q2 as int, 0, dec_lpair_f()) == Some(
                    (Seq::<(Seq<char>, LicenseRecord)>::empty(), q2 as int),
                ));
                assert(seq![pr] + Seq::<(Seq<char>, LicenseRecord)>::empty() =~= seq![pr]);
                assert(dec_seq(raw@, cur as int, 1, dec_lpair_f()) == Some((seq![pr], q2 as int)));
                assert(recs + seq![pr] =~= recs.push(pr));
                assert(recs.push(pr).drop_last() =~= recs);
                assert(index_pairs_view(recs.push(pr)) == index_pairs_view(recs).insert(
                    pr.0,
                    record_view(pr.1),
                ));
                assert(entry@ == record_view(pr.1));
                recs = recs.push(pr);
            }
            index.add(key.as_str(), entry);
            cur = q2;
            i += 1;
        }
        if cur != raw.len() {
            return None;
        }
        proof {
            assert((count as u64) as nat == count as nat);
        }
        Some(index)
    }

    /// Rebuilds an index from a byte buffer that holds a well-formed
    /// encoding.
    pub fn from_memory(raw: &[u8]) -> (r: CompatibilityIndex)
        requires
            dec_index(raw@) is Some,
        ensures
            dec_index(raw@) matches Some(pairs) && r@ == index_pairs_view(pairs),
    {
        match CompatibilityIndex::try_from_memory(raw) {
            Some(index) => index,
            None => {
                proof {
                    assert(false);
                }
                CompatibilityIndex::new()
            },
        }
    }

    /// Replaces this index's entire contents with what the buffer
    /// holds; nothing of the old contents survives.
    pub fn load_from_memory(&mut self, raw: &[u8])
        requires
            dec_index(raw@) is Some,
        ensures
            dec_index(raw@) matches Some(pairs) && final(self)@ == index_pairs_view(pairs),
    {
        *self = CompatibilityIndex::from_memory(raw);
    }
}

/// The encoding of a pillar: a tag byte, and for `Special` its text.
pub open spec fn enc_class(c: ClassificationView) -> Seq<u8> {
    match c {
        ClassificationView::Open => seq![0u8],
        ClassificationView::Viral => seq![1u8],
        ClassificationView::Affero => seq![2u8],
        ClassificationView::Commercial => seq![3u8],
        ClassificationView::Special(t) => seq![4u8] + enc_str(t),
        ClassificationView::Unknown => seq![5u8],
    }
}

/// Reads a pillar at `p`.
pub open spec fn dec_class(b: Seq<u8>, p: int) -> Option<(ClassificationView, int)> {
    if 0 <= p && p + 1 <= b.len() {
        if b[p] == 0 {
            Some((ClassificationView::Open, p + 1))
        } else if b[p] == 1 {
            Some((ClassificationView::Viral, p + 1))
        } else if b[p] == 2 {
            Some((ClassificationView::Affero, p + 1))
        } else if b[p] == 3 {
            Some((ClassificationView::Commercial, p + 1))
        } else if b[p] == 4 {
            match dec_str(b, p + 1) {
                None => None,
                Some((t, q)) => Some((ClassificationView::Special(t), q)),
            }
        } else if b[p] == 5 {
            Some((ClassificationView::Unknown, p + 1))
        } else {
            None
        }
    } else {
        None
    }
}

/// Whether a pillar's text fits the length prefix.
pub open spec fn class_bounded(c: ClassificationView) -> bool {
    c matches ClassificationView::Special(t) ==> t.len() <= u64::MAX
}

/// Reading back an encoded pillar yields the pillar.
pub proof fn lemma_dec_class_of_enc(b: Seq<u8>, p: int, c: ClassificationView)
    requires
        class_bounded(c),
        0 <= p,
        p + enc_class(c).len() <= b.len(),
        b.subrange(p, p + enc_class(c).len()) == enc_class(c),
    ensures
        dec_class(b, p) == Some((c, p + enc_class(c).len())),
{
    match c {
        ClassificationView::Special(t) => {
            lemma_subrange_parts(b, p, seq![4u8], enc_str(t));
            assert(b[p] == 4) by {
                assert(b.subrange(p, p + 1)[0] == b[p]);
            }
            lemma_dec_str_of_enc(b, p + 1, t);
        },
        _ => {
            assert(b[p] == enc_class(c)[0]) by {
                assert(b.subrange(p, p + enc_class(c).len())[0] == b[p]);
            }
        },
    }
}

/// The encoding of one classification entry: pillar, then optional SPDX
/// key.
pub open spec fn enc_class_entry(e: ClassificationEntryView) -> Seq<u8> {
    enc_class(e.classification) + enc_opt_str(e.spdx_license_key)
}

/// Reads one classification entry at `p`.
pub open spec fn dec_class_entry(b: Seq<u8>, p: int) -> Option<(ClassificationEntryView, int)> {
    match dec_class(b, p) {
        None => None,
        Some((c, p1)) => match dec_opt_str(b, p1) {
            None => None,
            Some((spdx, p2)) => Some(
                (ClassificationEntryView { classification: c, spdx_license_key: spdx }, p2),
            ),
        },
    }
}

/// Whether a classification entry fits the length prefixes.
pub open spec fn class_entry_bounded(e: ClassificationEntryView) -> bool {
    class_bounded(e.classification) && (e.spdx_license_key matches Some(s) ==> s.len()
        <= u64::MAX)
}

/// Reading back an encoded classification entry yields it.
pub proof fn lemma_dec_class_entry_of_enc(b: Seq<u8>, p: int, e: ClassificationEntryView)
    requires
        class_entry_bounded(e),
        0 <= p,
        p + enc_class_entry(e).len() <= b.len(),
        b.subrange(p, p + enc_class_entry(e).len()) == enc_class_entry(e),
    ensures
        dec_class_entry(b, p) == Some((e, p + enc_class_entry(e).len())),
{
    lemma_subrange_parts(b, p, enc_class(e.classification), enc_opt_str(e.spdx_license_key));
    lemma_dec_class_of_enc(b, p, e.classification);
    lemma_dec_opt_str_of_enc(b, p + enc_class(e.classification).len(), e.spdx_license_key);
}

/// The encoding of one keyed classification entry.
pub open spec fn enc_epair(pr: (Seq<char>, ClassificationEntryView)) -> Seq<u8> {
    enc_str(pr.0) + enc_class_entry(pr.1)
}

/// Reads one keyed classification entry at `p`.
pub open spec fn dec_epair(b: Seq<u8>, p: int) -> Option<
    ((Seq<char>, ClassificationEntryView), int),
> {
    match dec_str(b, p) {
        None => None,
        Some((key, p1)) => match dec_class_entry(b, p1) {
            None => None,
            Some((e, p2)) => Some(((key, e), p2)),
        },
    }
}

/// Whether a keyed classification entry fits the length prefixes.
pub open spec fn epair_bounded(pr: (Seq<char>, ClassificationEntryView)) -> bool {
    pr.0.len() <= u64::MAX && class_entry_bounded(pr.1)
}

/// Reading back an encoded keyed classification entry yields it.
pub proof fn lemma_dec_epair_of_enc(b: Seq<u8>, p: int, pr: (Seq<char>, ClassificationEntryView))
    requires
        epair_bounded(pr),
        0 <= p,
        p + enc_epair(pr).len() <= b.len(),
        b.subrange(p, p + enc_epair(pr).len()) == enc_epair(pr),
    ensures
        dec_epair(b, p) == Some((pr, p + enc_epair(pr).len())),
{
    lemma_subrange_parts(b, p, enc_str(pr.0), enc_class_entry(pr.1));
    lemma_dec_str_of_enc(b, p, pr.0);
    lemma_dec_class_entry_of_enc(b, p + enc_str(pr.0).len(), pr.1);
}

/// The keyed classification coders as function values.
pub open spec fn enc_epair_f() -> spec_fn((Seq<char>, ClassificationEntryView)) -> Seq<u8> {
    |pr: (Seq<char>, ClassificationEntryView)| enc_epair(pr)
}

/// The keyed classification decoder as a function value.
pub open spec fn dec_epair_f() -> spec_fn(Seq<u8>, int) -> Option<
    ((Seq<char>, ClassificationEntryView), int),
> {
    |b: Seq<u8>, p: int| dec_epair(b, p)
}

/// The encoding of a whole classifier: record count, then the records.
pub open spec fn enc_classifier(pairs: Seq<(Seq<char>, ClassificationEntryView)>) -> Seq<u8> {
    enc_u64(pairs.len() as u64) + enc_seq(pairs, enc_epair_f())
}

/// Reads a whole classifier from a buffer.  Strict: trailing bytes
/// fail.
pub open spec fn dec_classifier(b: Seq<u8>) -> Option<Seq<(Seq<char>, ClassificationEntryView)>> {
    match dec_u64(b, 0) {
        None => None,
        Some((n, p)) => match dec_seq(b, p, n as nat, dec_epair_f()) {
            None => None,
            Some((pairs, q)) => if q == b.len() {
                Some(pairs)
            } else {
                None
            },
        },
    }
}

/// Whether every record of a classifier fits the length prefixes.
pub open spec fn classifier_bounded(pairs: Seq<(Seq<char>, ClassificationEntryView)>) -> bool {
    pairs.len() <= u64::MAX && (forall|i: int|
        0 <= i < pairs.len() ==> epair_bounded(#[trigger] pairs[i]))
}

/// Decoding an encoded classifier yields exactly the records that were
/// encoded: the binary round trip loses nothing.
#[verifier::rlimit(50)]
pub proof fn lemma_dec_classifier_of_enc(pairs: Seq<(Seq<char>, ClassificationEntryView)>)
    requires
        classifier_bounded(pairs),
    ensures
        dec_classifier(enc_classifier(pairs)) == Some(pairs),
{
    let b = enc_classifier(pairs);
    let head = enc_u64(pairs.len() as u64);
    let body = enc_seq(pairs, enc_epair_f());
    assert(b.subrange(0, b.len() as int) =~= b);
    lemma_subrange_parts(b, 0, head, body);
    lemma_dec_u64_of_enc(b, 0, pairs.len() as u64);
    assert forall|i: int| 0 <= i < pairs.len() implies elem_roundtrip(
        enc_epair_f(),
        dec_epair_f(),
        #[trigger] pairs[i],
    ) by {
        let pr = pairs[i];
        assert forall|b2: Seq<u8>, p2: int|
            0 <= p2 && p2 + enc_epair_f()(pr).len() <= b2.len() && b2.subrange(
                p2,
                p2 + enc_epair_f()(pr).len(),
            ) == enc_epair_f()(pr) implies #[trigger] dec_epair_f()(b2, p2) == Some(
            (pr, p2 + enc_epair_f()(pr).len()),
        ) by {
            lemma_dec_epair_of_enc(b2, p2, pr);
        }
    }
    lemma_dec_seq_of_enc(b, 8, pairs, enc_epair_f(), dec_epair_f());
    assert((pairs.len() as u64) as nat == pairs.len());
}

/// Appends the encoding of a pillar.
fn write_class(out: &mut Vec<u8>, c: &LicenseClassification)
    ensures
        final(out)@ == old(out)@ + enc_class(c@),
        class_bounded(c@),
{
    match c {
        LicenseClassification::Open => {
            out.push(0);
        },
        LicenseClassification::Viral => {
            out.push(1);
        },
        LicenseClassification::Affero => {
            out.push(2);
        },
        LicenseClassification::Commercial => {
            out.push(3);
        },
        LicenseClassification::Special(text) => {
            out.push(4);
            write_str(out, text.as_str());
        },
        LicenseClassification::Unknown => {
            out.push(5);
        },
    }
    proof {
        assert(out@ =~= old(out)@ + enc_class(c@));
    }
}

/// Reads a pillar at `pos`, as [`dec_class`] prescribes.
fn read_class(raw: &[u8], pos: usize) -> (r: Option<(LicenseClassification, usize)>)
    requires
        pos <= raw@.len(),
    ensures
        r is None <==> dec_class(raw@, pos as int) is None,
        r matches Some((c, q)) ==> dec_class(raw@, pos as int) == Some((c@, q as int)) && q
            <= raw@.len(),
{
    if raw.len() - pos < 1 {
        return None;
    }
    let tag = raw[pos];
    if tag == 0 {
        Some((LicenseClassification::Open, pos + 1))
    } else if tag == 1 {
        Some((LicenseClassification::Viral, pos + 1))
    } else if tag == 2 {
        Some((LicenseClassification::Affero, pos + 1))
    } else if tag == 3 {
        Some((LicenseClassification::Commercial, pos + 1))
    } else if tag == 4 {
        match read_string(raw, pos + 1) {
            None => None,
            Some((t, q)) => Some((LicenseClassification::Special(t), q)),
        }
    } else if tag == 5 {
        Some((LicenseClassification::Unknown, pos + 1))
    } else {
        None
    }
}

/// Appends the encoding of one classification entry.
fn write_class_entry(out: &mut Vec<u8>, e: &ClassificationEntry)
    ensures
        final(out)@ == old(out)@ + enc_class_entry(e@),
        class_entry_bounded(e@),
{
    write_class(out, &e.classification);
    write_opt_str(out, &e.spdx_license_key);
    proof {
        assert(out@ =~= old(out)@ + enc_class_entry(e@));
    }
}

/// Reads one classification entry at `pos`, as [`dec_class_entry`]
/// prescribes.
fn read_class_entry(raw: &[u8], pos: usize) -> (r: Option<(ClassificationEntry, usize)>)
    requires
        pos <= raw@.len(),
    ensures
        r is None <==> dec_class_entry(raw@, pos as int) is None,
        r matches Some((e, q)) ==> dec_class_entry(raw@, pos as int) == Some((e@, q as int)) && q
            <= raw@.len(),
{
    let (classification, p1) = match read_class(raw, pos) {
        Some(v) => v,
        None => {
            return None;
        },
    };
    let (spdx, p2) = match read_opt_str(raw, p1) {
        Some(v) => v,
        None => {
            return None;
        },
    };
    Some((ClassificationEntry { classification, spdx_license_key: spdx }, p2))
}

impl Classifier {
    /// Encodes the whole classifier into a byte buffer; decoding the
    /// buffer yields exactly this classifier's contents.
    pub fn to_memory(&self) -> (r: Vec<u8>)
        ensures
            dec_classifier(r@) matches Some(pairs) && assoc_map(pairs) == self@,
    {
        let mut out: Vec<u8> = Vec::new();
        let n = self.data.len();
        write_u64(&mut out, n as u64);
        let ghost head = out@;
        let mut i: usize = 0;
        while i < n
            invariant
                n == self.data.kv_seq().len(),
                i <= n,
                head == enc_u64(n as u64),
                out@ == head + enc_seq(self.data.kv_seq().take(i as int), enc_epair_f()),
                forall|j: int|
                    0 <= j < i ==> epair_bounded(#[trigger] self.data.kv_seq()[j]),
            decreases n - i,
        {
            let ghost kv = self.data.kv_seq();
            let pair = self.data.pair_at(i);
            write_str(&mut out, pair.0.as_str());
            write_class_entry(&mut out, &pair.1);
            proof {
                assert((pair.0@, pair.1@) == kv[i as int]);
                assert(enc_epair_f()(kv[i as int]) == enc_str(pair.0@) + enc_class_entry(
                    pair.1@,
                ));
                lemma_enc_seq_push(kv.take(i as int), kv[i as int], enc_epair_f());
                assert(kv.take(i + 1) =~= kv.take(i as int).push(kv[i as int]));
                assert(out@ =~= head + enc_seq(kv.take(i + 1), enc_epair_f()));
            }
            i += 1;
        }
        proof {
            assert(self.data.kv_seq().take(n as int) =~= self.data.kv_seq());
            assert(out@ =~= enc_classifier(self.data.kv_seq()));
            lemma_dec_classifier_of_enc(self.data.kv_seq());
        }
        out
    }

    /// Decodes a whole classifier from a byte buffer: `Some` exactly
    /// when the buffer is one well-formed classifier encoding with
    /// nothing trailing, and then the result holds exactly the decoded
    /// records.
    pub fn try_from_memory(raw: &[u8]) -> (r: Option<Classifier>)
        ensures
            r is Some <==> dec_classifier(raw@) is Some,
            r matches Some(c) ==> dec_classifier(raw@) matches Some(pairs) && c@ == assoc_map(
                pairs,
            ),
    {
        let (count, start) = match read_u64(raw, 0) {
            Some(v) => v,
            None => {
                return None;
            },
        };
        let mut classifier = Classifier::new();
        let ghost mut recs: Seq<(Seq<char>, ClassificationEntryView)> = Seq::empty();
        let mut cur: usize = start;
        let mut i: u64 = 0;
        while i < count
            invariant
                cur <= raw@.len(),
                i <= count,
                dec_u64(raw@, 0) == Some((count, start as int)),
                dec_seq(raw@, start as int, i as nat, dec_epair_f()) == Some((recs, cur as int)),
                classifier@ == assoc_map(recs),
            decreases count - i,
        {
            let (key, q1) = match read_string(raw, cur) {
                Some(v) => v,
                None => {
                    proof {
                        assert(dec_epair_f()(raw@, cur as int) is None);
                        lemma_dec_seq_split(
                            raw@,
                            start as int,
                            i as nat,
                            count as nat,
                            dec_epair_f(),
                        );
                    }
                    return None;
                },
            };
            let (entry, q2) = match read_class_entry(raw, q1) {
                Some(v) => v,
                None => {
                    proof {
                        assert(dec_epair_f()(raw@, cur as int) is None);
                        lemma_dec_seq_split(
                            raw@,
                            start as int,
                            i as nat,
                            count as nat,
                            dec_epair_f(),
                        );
                    }
                    return None;
                },
            };
            proof {
                let pr = (key@, entry@);
                assert(dec_epair_f()(raw@, cur as int) == Some((pr, q2 as int)));
                lemma_dec_seq_split(raw@, start as int, i as nat, (i + 1) as nat, dec_epair_f());
                assert(dec_seq(raw@, q2 as int, 0, dec_epair_f()) == Some(
                    (Seq::<(Seq<char>, ClassificationEntryView)>::empty(), q2 as int),
                ));
                assert(seq![pr] + Seq::<(Seq<char>, ClassificationEntryView)>::empty()
                    =~= seq![pr]);
                assert(dec_seq(raw@, cur as int, 1, dec_epair_f()) == Some((seq![pr], q2 as int)));
                assert(recs + seq![pr] =~= recs.push(pr));
                assert(recs.push(pr).drop_last() =~= recs);
                recs = recs.push(pr);
            }
            classifier.add(key.as_str(), entry);
            cur = q2;
            i += 1;
        }
        if cur != raw.len() {
            return None;
        }
        proof {
            assert((count as u64) as nat == count as nat);
        }
        Some(classifier)
    }

    /// Rebuilds a classifier from a byte buffer that holds a
    /// well-formed encoding.
    pub fn from_memory(raw: &[u8]) -> (r: Classifier)
        requires
            dec_classifier(raw@) is Some,
        ensures
            dec_classifier(raw@) matches Some(pairs) && r@ == assoc_map(pairs),
    {
        match Classifier::try_from_memory(raw) {
            Some(classifier) => classifier,
            None => {
                proof {
                    assert(false);
                }
                Classifier::new()
            },
        }
    }

    /// Replaces this classifier's entire contents with what the buffer
    /// holds; nothing of the old contents survives.
    pub fn load_from_memory(&mut self, raw: &[u8])
        requires
            dec_classifier(raw@) is Some,
        ensures
            dec_classifier(raw@) matches Some(pairs) && final(self)@ == assoc_map(pairs),
    {
        *self = Classifier::from_memory(raw);
    }
}

} // verus!
