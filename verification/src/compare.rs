//! Comparison of a source localization table against a translated one.
//!
//! Every key of the source table must exist in the translation; a key that
//! does not is a fatal `MissingKeyError` that ends the comparison at once.
//! A key whose placeholder counts differ yields a non-fatal `Finding`, and
//! the comparison goes on. Keys that only the translation has are ignored.

use crate::table::LocalizationTable;
use vstd::prelude::*;

verus! {

/// A non-fatal comparison result: the key exists in both tables, but its
/// value's placeholder count differs between source and translation.
#[derive(Debug)]
pub struct Finding {
    pub key: String,
    pub source_count: usize,
    pub translated_count: usize,
}

/// The fatal comparison outcome: a key of the source table is absent from
/// the translated table.
#[derive(Debug)]
pub struct MissingKeyError {
    pub key: String,
}

/// The finding correctly reports a placeholder-count mismatch between the
/// two tables.
pub open spec fn finding_valid(
    s: Map<Seq<char>, nat>,
    t: Map<Seq<char>, nat>,
    f: Finding,
) -> bool {
    &&& s.contains_key(f.key@)
    &&& t.contains_key(f.key@)
    &&& s[f.key@] == f.source_count as nat
    &&& t[f.key@] == f.translated_count as nat
    &&& f.source_count != f.translated_count
}

/// The key exists in both tables with different placeholder counts.
pub open spec fn counts_mismatched(
    s: Map<Seq<char>, nat>,
    t: Map<Seq<char>, nat>,
    k: Seq<char>,
) -> bool {
    &&& s.contains_key(k)
    &&& t.contains_key(k)
    &&& s[k] != t[k]
}

/// Every mismatched key of the two tables appears among the findings.
pub open spec fn findings_complete(
    s: Map<Seq<char>, nat>,
    t: Map<Seq<char>, nat>,
    fs: Seq<Finding>,
) -> bool {
    forall|k: Seq<char>|
        counts_mismatched(s, t, k) ==> exists|i: int| 0 <= i < fs.len() && (#[trigger] fs[i]).key@
            == k
}

/// No key appears in two findings.
pub open spec fn findings_unique(fs: Seq<Finding>) -> bool {
    forall|i: int, j: int|
        0 <= i < j < fs.len() ==> (#[trigger] fs[i]).key@ != (#[trigger] fs[j]).key@
}

/// Checks every source key against the translated table. Fails with the
/// fatal `MissingKeyError` exactly when some source key is absent from the
/// translation; otherwise returns one finding per key whose placeholder
/// counts differ. The order of the findings is unspecified.
pub fn compare(source: &LocalizationTable, translated: &LocalizationTable) -> (r: Result<
    Vec<Finding>,
    MissingKeyError,
>)
    requires
        source.wf(),
        translated.wf(),
    ensures
        r is Ok <==> source@.dom().subset_of(translated@.dom()),
        r matches Ok(fs) ==> {
            &&& forall|i: int| 0 <= i < fs@.len() ==> finding_valid(source@, translated@, #[trigger] fs@[i])
            &&& findings_complete(source@, translated@, fs@)
            &&& findings_unique(fs@)
        },
        r matches Err(e) ==> source@.contains_key(e.key@) && !translated@.contains_key(e.key@),
{
    let ks = source.keys();
    let mut findings: Vec<Finding> = Vec::new();
    let mut idx: usize = 0;
    while idx < ks.len()
        invariant
            source.wf(),
            translated.wf(),
            idx <= ks@.len(),
            forall|i: int| 0 <= i < ks@.len() ==> source@.contains_key((#[trigger] ks@[i])@),
            forall|k: Seq<char>|
                source@.contains_key(k) ==> exists|i: int|
                    0 <= i < ks@.len() && (#[trigger] ks@[i])@ == k,
            forall|i: int, j: int|
                0 <= i < j < ks@.len() ==> (#[trigger] ks@[i])@ != (#[trigger] ks@[j])@,
            forall|j: int| 0 <= j < idx ==> translated@.contains_key((#[trigger] ks@[j])@),
            forall|i: int|
                0 <= i < findings@.len() ==> finding_valid(
                    source@,
                    translated@,
                    #[trigger] findings@[i],
                ),
            forall|i: int|
                0 <= i < findings@.len() ==> exists|j: int|
                    0 <= j < idx && (#[trigger] findings@[i]).key@ == ks@[j]@,
            forall|j: int|
                0 <= j < idx && counts_mismatched(source@, translated@, (#[trigger] ks@[j])@)
                    ==> exists|i: int| 0 <= i < findings@.len() && (#[trigger] findings@[i]).key@
                    == ks@[j]@,
            findings_unique(findings@),
        decreases ks@.len() - idx,
    {
        let key = &ks[idx];
        let c1 = match source.get(key) {
            Some(c) => c,
            None => {
                proof {
                    assert(false);
                }
                0
            },
        };
        match translated.get(key) {
            None => {
                return Err(MissingKeyError { key: key.clone() });
            },
            Some(c2) => {
                if c1 != c2 {
                    let ghost old_findings = findings@;
                    findings.push(
                        Finding { key: key.clone(), source_count: c1, translated_count: c2 },
                    );
                    proof {
                        assert(findings@.last().key@ == ks@[idx as int]@);
                        assert(forall|i: int|
                            0 <= i < old_findings.len() ==> findings@[i] == #[trigger] old_findings[
                                i
                            ]);
                        assert(findings_unique(findings@)) by {
                            assert forall|i: int, j: int| 0 <= i < j < findings@.len() implies (
                            #[trigger] findings@[i]).key@ != (#[trigger] findings@[j]).key@ by {
                                if j == findings@.len() - 1 {
                                    let w = choose|w: int|
                                        0 <= w < idx && (#[trigger] findings@[i]).key@ == ks@[w]@;
                                    assert(ks@[w]@ != ks@[idx as int]@);
                                }
                            }
                        }
                    }
                }
            },
        }
        idx += 1;
    }
    proof {
        assert(source@.dom().subset_of(translated@.dom())) by {
            assert forall|k: Seq<char>| source@.dom().contains(k) implies translated@.dom()
                .contains(k) by {
                assert(source@.contains_key(k));
                let i = choose|i: int| 0 <= i < ks@.len() && (#[trigger] ks@[i])@ == k;
                assert(translated@.contains_key(ks@[i]@));
            }
        }
        assert(findings_complete(source@, translated@, findings@)) by {
            assert forall|k: Seq<char>| counts_mismatched(source@, translated@, k) implies exists|
                i: int,
            | 0 <= i < findings@.len() && (#[trigger] findings@[i]).key@ == k by {
                let j = choose|j: int| 0 <= j < ks@.len() && (#[trigger] ks@[j])@ == k;
                assert(counts_mismatched(source@, translated@, ks@[j]@));
            }
        }
    }
    Ok(findings)
}

/// Law: when source and translation bind the same keys and agree on every
/// key's placeholder count, a comparison that meets `compare`'s guarantee
/// has no findings at all.
pub proof fn lemma_identical_tables_yield_no_findings(
    s: Map<Seq<char>, nat>,
    t: Map<Seq<char>, nat>,
    fs: Seq<Finding>,
)
    requires
        s.dom() == t.dom(),
        forall|k: Seq<char>| s.contains_key(k) ==> s[k] == t[k],
        forall|i: int| 0 <= i < fs.len() ==> finding_valid(s, t, #[trigger] fs[i]),
    ensures
        fs.len() == 0,
{
    if fs.len() > 0 {
        assert(finding_valid(s, t, fs[0]));
        assert(s[fs[0].key@] == t[fs[0].key@]);
        assert(false);
    }
}

/// Law: a key bound by both tables with different counts is reported by
/// exactly one finding, and that finding carries the two counts; the other
/// keys are still processed (the comparison does not stop at a mismatch).
pub proof fn lemma_mismatch_reported_exactly_once(
    s: Map<Seq<char>, nat>,
    t: Map<Seq<char>, nat>,
    fs: Seq<Finding>,
    k: Seq<char>,
)
    requires
        forall|i: int| 0 <= i < fs.len() ==> finding_valid(s, t, #[trigger] fs[i]),
        findings_complete(s, t, fs),
        findings_unique(fs),
        counts_mismatched(s, t, k),
    ensures
        exists|i: int|
            0 <= i < fs.len() && (#[trigger] fs[i]).key@ == k && fs[i].source_count as nat == s[k]
                && fs[i].translated_count as nat == t[k],
        forall|i: int, j: int|
            0 <= i < fs.len() && 0 <= j < fs.len() && (#[trigger] fs[i]).key@ == k && (
            #[trigger] fs[j]).key@ == k ==> i == j,
{
    let i = choose|i: int| 0 <= i < fs.len() && (#[trigger] fs[i]).key@ == k;
    assert(finding_valid(s, t, fs[i]));
}

/// Law: a source key absent from the translation makes the source's key set
/// no subset of the translation's, so by `compare`'s contract the comparison
/// fails with a `MissingKeyError` instead of returning findings.
pub proof fn lemma_missing_key_is_fatal(s: Map<Seq<char>, nat>, t: Map<Seq<char>, nat>, k: Seq<char>)
    requires
        s.contains_key(k),
        !t.contains_key(k),
    ensures
        !s.dom().subset_of(t.dom()),
{
    assert(s.dom().contains(k));
}

} // verus!
