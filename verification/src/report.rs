//! Match scoring, filtering and aggregation: turns the raw match set of one
//! file into scored records, keeps those at or above the minimum score, and
//! accumulates them in an append-only report buffer that is drained exactly
//! once.

use vstd::prelude::*;
use vstd::seq_lib::lemma_multiset_commutative;
use vstd::string::StringExecFns;
use crate::text::{empty_string, i64_of_dec, parse_i64, str_eq, str_starts_with, to_chars};

verus! {

/// One metadata value attached to a matching rule, as the scoring rules read
/// it: an integer, a text, or anything else (ignored by every scoring rule).
pub enum MetaValue {
    Integer(i64),
    Text(String),
    Other,
}

/// The mathematical shape of one accepted match record.
pub struct RecordModel {
    pub image_path: Seq<char>,
    pub sha256: Seq<char>,
    pub signature: Seq<char>,
    pub description: Seq<char>,
    pub reference: Seq<char>,
    pub score: int,
}

/// One accepted, scored rule match for one file.
pub struct MatchRecord {
    pub image_path: String,
    pub sha256: String,
    pub signature: String,
    pub description: String,
    pub reference: String,
    pub score: i64,
}

impl View for MatchRecord {
    type V = RecordModel;

    open spec fn view(&self) -> RecordModel {
        RecordModel {
            image_path: self.image_path@,
            sha256: self.sha256@,
            signature: self.signature@,
            description: self.description@,
            reference: self.reference@,
            score: self.score as int,
        }
    }
}

/// A key that carries a score.
pub open spec fn is_score_key(k: Seq<char>) -> bool {
    k == "score"@ || k == "severity"@
}

/// The score read from a textual value: an unparsable text falls back to the
/// baseline.
pub open spec fn score_text_value(s: Seq<char>) -> int {
    match i64_of_dec(s) {
        Some(v) => v,
        None => 50,
    }
}

/// The score after reading the metadata pairs in order: the baseline 50
/// until a score-carrying key appears; the last such key wins.
pub open spec fn score_after(ms: Seq<(String, MetaValue)>) -> int
    decreases ms.len(),
{
    if ms.len() == 0 {
        50
    } else {
        let prev = score_after(ms.drop_last());
        let k = ms.last().0;
        match ms.last().1 {
            MetaValue::Integer(x) => if is_score_key(k@) {
                x as int
            } else {
                prev
            },
            MetaValue::Text(s) => if is_score_key(k@) {
                score_text_value(s@)
            } else {
                prev
            },
            MetaValue::Other => prev,
        }
    }
}

/// A `context` key whose textual value marks the match as contextual.
pub open spec fn is_context_yes(k: Seq<char>, v: MetaValue) -> bool {
    k == "context"@ && match v {
        MetaValue::Text(s) => s@ == "yes"@ || s@ == "true"@ || s@ == "1"@,
        _ => false,
    }
}

pub open spec fn has_context_marker(ms: Seq<(String, MetaValue)>) -> bool {
    exists|i: int| 0 <= i < ms.len() && is_context_yes((#[trigger] ms[i]).0@, ms[i].1)
}

/// The final score of a match: 0 whenever a context marker is present,
/// regardless of any score metadata; otherwise the last score read.
pub open spec fn final_score(ms: Seq<(String, MetaValue)>) -> int {
    if has_context_marker(ms) {
        0
    } else {
        score_after(ms)
    }
}

/// A key that supplies the description.
pub open spec fn is_desc_key(k: Seq<char>) -> bool {
    "desc"@.len() <= k.len() && k.subrange(0, "desc"@.len() as int) == "desc"@
}

/// A key that supplies the reference.
pub open spec fn is_ref_key(k: Seq<char>) -> bool {
    k == "reference"@ || ("report"@.len() <= k.len() && k.subrange(0, "report"@.len() as int)
        == "report"@)
}

/// The description after reading the pairs in order: the last textual value
/// under a description key wins; absent, it stays empty.
pub open spec fn desc_after(ms: Seq<(String, MetaValue)>) -> Seq<char>
    decreases ms.len(),
{
    if ms.len() == 0 {
        Seq::empty()
    } else {
        let prev = desc_after(ms.drop_last());
        match ms.last().1 {
            MetaValue::Text(s) => if is_desc_key(ms.last().0@) {
                s@
            } else {
                prev
            },
            _ => prev,
        }
    }
}

/// The reference after reading the pairs in order: the last textual value
/// under a reference key wins; absent, it stays empty.
pub open spec fn ref_after(ms: Seq<(String, MetaValue)>) -> Seq<char>
    decreases ms.len(),
{
    if ms.len() == 0 {
        Seq::empty()
    } else {
        let prev = ref_after(ms.drop_last());
        match ms.last().1 {
            MetaValue::Text(s) => if is_ref_key(ms.last().0@) {
                s@
            } else {
                prev
            },
            _ => prev,
        }
    }
}

/// The record derived for one matching rule.
pub open spec fn record_model(
    path: Seq<char>,
    hash: Seq<char>,
    ident: Seq<char>,
    ms: Seq<(String, MetaValue)>,
) -> RecordModel {
    RecordModel {
        image_path: path,
        sha256: hash,
        signature: ident,
        description: desc_after(ms),
        reference: ref_after(ms),
        score: final_score(ms),
    }
}

/// Builds the scored record for one matching rule from its metadata.
#[verifier::loop_isolation(false)]
pub fn build_match_record(
    image_path: &str,
    sha256: &str,
    signature: &str,
    metadata: &Vec<(String, MetaValue)>,
) -> (r: MatchRecord)
    ensures
        r@ == record_model(image_path@, sha256@, signature@, metadata@),
{
    let ghost ms = metadata@;
    let mut score: i64 = 50;
    let mut description = empty_string();
    let mut reference = empty_string();
    let mut found_context = false;
    let mut i: usize = 0;
    proof {
        assert(ms.take(0) =~= Seq::<(String, MetaValue)>::empty());
        assert(!has_context_marker(ms.take(0)));
    }
    while i < metadata.len()
        invariant
            i <= ms.len(),
            score as int == score_after(ms.take(i as int)),
            description@ == desc_after(ms.take(i as int)),
            reference@ == ref_after(ms.take(i as int)),
            found_context == has_context_marker(ms.take(i as int)),
        decreases ms.len() - i,
    {
        let ghost pre = ms.take(i as int);
        let ghost cur = ms.take(i as int + 1);
        proof {
            assert(cur.drop_last() =~= pre);
            assert(cur.last() == ms[i as int]);
        }
        let pair = &metadata[i];
        let ks = pair.0.as_str();
        if str_eq(ks, "score") || str_eq(ks, "severity") {
            match &pair.1 {
                MetaValue::Integer(x) => {
                    score = *x;
                },
                MetaValue::Text(s) => {
                    let sc = to_chars(s.as_str());
                    proof {
                        assert(sc@.subrange(0, sc@.len() as int) =~= s@);
                    }
                    match parse_i64(&sc, 0, sc.len()) {
                        Some(x) => {
                            score = x;
                        },
                        None => {
                            score = 50;
                        },
                    }
                },
                MetaValue::Other => {},
            }
        }
        if str_starts_with(ks, "desc") {
            match &pair.1 {
                MetaValue::Text(s) => {
                    description = s.clone();
                },
                _ => {},
            }
        }
        if str_eq(ks, "reference") || str_starts_with(ks, "report") {
            match &pair.1 {
                MetaValue::Text(s) => {
                    reference = s.clone();
                },
                _ => {},
            }
        }
        let mut marker_here = false;
        if str_eq(ks, "context") {
            match &pair.1 {
                MetaValue::Text(s) => {
                    let sv = s.as_str();
                    if str_eq(sv, "yes") || str_eq(sv, "true") || str_eq(sv, "1") {
                        marker_here = true;
                        found_context = true;
                    }
                },
                _ => {},
            }
        }
        proof {
            if marker_here {
                assert(is_context_yes(cur[i as int].0@, cur[i as int].1));
                assert(has_context_marker(cur));
            } else {
                assert(!is_context_yes(ms[i as int].0@, ms[i as int].1));
                if has_context_marker(cur) {
                    let j = choose|j: int|
                        0 <= j < cur.len() && is_context_yes((#[trigger] cur[j]).0@, cur[j].1);
                    if j < i {
                        assert(pre[j] == cur[j]);
                        assert(has_context_marker(pre));
                    }
                }
                if has_context_marker(pre) {
                    let j = choose|j: int|
                        0 <= j < pre.len() && is_context_yes((#[trigger] pre[j]).0@, pre[j].1);
                    assert(cur[j] == pre[j]);
                    assert(has_context_marker(cur));
                }
            }
        }
        i = i + 1;
    }
    proof {
        assert(ms.take(ms.len() as int) =~= ms);
    }
    let final_val: i64 = if found_context {
        0
    } else {
        score
    };
    MatchRecord {
        image_path: image_path.to_owned(),
        sha256: sha256.to_owned(),
        signature: signature.to_owned(),
        description,
        reference,
        score: final_val,
    }
}

/// Names what `sha256::digest` returns for a byte sequence.
pub uninterp spec fn sha256_hex_of(bytes: Seq<u8>) -> Seq<char>;

/// Relies on sha256::digest: the lowercase hexadecimal form of the SHA-256
/// digest of the bytes, 64 characters long and a function of the bytes
/// alone.
#[verifier::external_body]
fn sha256_hex(bytes: &Vec<u8>) -> (r: String)
    ensures
        r@ == sha256_hex_of(bytes@),
        r@.len() == 64,
{
    sha256::digest(bytes)
}

/// The records retained for one file: one per matching rule, derived from
/// the rule's identifier and metadata, kept only when the final score
/// reaches `min` (the threshold is inclusive).
pub open spec fn records_for_file(
    path: Seq<char>,
    hash: Seq<char>,
    rules: Seq<(String, Vec<(String, MetaValue)>)>,
    min: int,
) -> Seq<RecordModel>
    decreases rules.len(),
{
    if rules.len() == 0 {
        Seq::empty()
    } else {
        let pre = records_for_file(path, hash, rules.drop_last(), min);
        let m = record_model(path, hash, rules.last().0@, rules.last().1@);
        if m.score >= min {
            pre.push(m)
        } else {
            pre
        }
    }
}

/// The shared report buffer: append-only while a run scans, drained exactly
/// once at the end.
pub struct JsonOutputHandler {
    output_buffer: Vec<MatchRecord>,
}

impl View for JsonOutputHandler {
    type V = Seq<RecordModel>;

    closed spec fn view(&self) -> Seq<RecordModel> {
        self.output_buffer@.map_values(|r: MatchRecord| r@)
    }
}

impl JsonOutputHandler {
    /// An empty report buffer.
    pub fn new() -> (r: Self)
        ensures
            r@ == Seq::<RecordModel>::empty(),
    {
        let r = JsonOutputHandler { output_buffer: Vec::new() };
        proof {
            assert(r@ =~= Seq::<RecordModel>::empty());
        }
        r
    }

    /// Scores the matching rules of one file, hashes its content, and
    /// appends exactly the records whose final score reaches
    /// `minimum_score`, in rule order, after everything already buffered.
    #[verifier::loop_isolation(false)]
    pub fn on_file_scanned(
        &mut self,
        image_path: &str,
        content: &Vec<u8>,
        scan_results: &Vec<(String, Vec<(String, MetaValue)>)>,
        minimum_score: u32,
    )
        ensures
            final(self)@ == old(self)@ + records_for_file(
                image_path@,
                sha256_hex_of(content@),
                scan_results@,
                minimum_score as int,
            ),
    {
        let ghost rules = scan_results@;
        let ghost min = minimum_score as int;
        let hash = sha256_hex(content);
        let mut i: usize = 0;
        proof {
            assert(rules.take(0) =~= Seq::<(String, Vec<(String, MetaValue)>)>::empty());
            assert(old(self)@ + records_for_file(image_path@, hash@, rules.take(0), min) =~= old(
                self,
            )@);
        }
        while i < scan_results.len()
            invariant
                i <= rules.len(),
                hash@ == sha256_hex_of(content@),
                self@ == old(self)@ + records_for_file(image_path@, hash@, rules.take(i as int), min),
            decreases rules.len() - i,
        {
            let ghost pre = rules.take(i as int);
            let ghost cur = rules.take(i as int + 1);
            proof {
                assert(cur.drop_last() =~= pre);
                assert(cur.last() == rules[i as int]);
            }
            let entry = &scan_results[i];
            let rec = build_match_record(image_path, hash.as_str(), entry.0.as_str(), &entry.1);
            if rec.score >= minimum_score as i64 {
                let ghost before = self.output_buffer@;
                self.output_buffer.push(rec);
                proof {
                    assert(self.output_buffer@.map_values(|r: MatchRecord| r@) =~= before.map_values(
                        |r: MatchRecord| r@,
                    ).push(record_model(image_path@, hash@, rules[i as int].0@, rules[i as int].1@)));
                    assert(self@ =~= old(self)@ + records_for_file(image_path@, hash@, cur, min));
                }
            } else {
                proof {
                    assert(record_model(image_path@, hash@, rules[i as int].0@, rules[i as int].1@).score
                        < min);
                    assert(records_for_file(image_path@, hash@, cur, min) == records_for_file(
                        image_path@,
                        hash@,
                        pre,
                        min,
                    ));
                }
            }
            i = i + 1;
        }
        proof {
            assert(rules.take(rules.len() as int) =~= rules);
        }
    }

    /// Drains the buffer exactly once: hands back everything accumulated, in
    /// append order, and leaves the buffer empty.
    pub fn on_done(&mut self) -> (r: Vec<MatchRecord>)
        ensures
            r@.map_values(|m: MatchRecord| m@) == old(self)@,
            final(self)@ == Seq::<RecordModel>::empty(),
    {
        let mut out: Vec<MatchRecord> = Vec::new();
        core::mem::swap(&mut out, &mut self.output_buffer);
        proof {
            assert(self@ =~= Seq::<RecordModel>::empty());
        }
        out
    }
}

/// The text of a file-level error report: the surface error alone when it
/// already is its own root cause, else the surface error with the root
/// cause appended, so both are visible.
pub fn error_detail(error: &str, root_cause: &str) -> (r: String)
    ensures
        error@ == root_cause@ ==> r@ == error@,
        error@ != root_cause@ ==> r@ == error@ + ": "@ + root_cause@,
{
    if str_eq(error, root_cause) {
        error.to_owned()
    } else {
        let mut s = error.to_owned();
        s.append(": ");
        s.append(root_cause);
        s
    }
}

/// One file as the aggregation saw it: its path, its content, and the rules
/// that matched it.
pub struct ScannedFile {
    pub path: Seq<char>,
    pub content: Seq<u8>,
    pub rules: Seq<(String, Vec<(String, MetaValue)>)>,
}

/// The whole report of a run that scanned `files` in order.
pub open spec fn report_of(files: Seq<ScannedFile>, min: int) -> Seq<RecordModel>
    decreases files.len(),
{
    if files.len() == 0 {
        Seq::empty()
    } else {
        report_of(files.drop_last(), min) + records_for_file(
            files.last().path,
            sha256_hex_of(files.last().content),
            files.last().rules,
            min,
        )
    }
}

/// Each file contributes its own records and nothing else: the report of two
/// batches laid end to end is the two reports laid end to end. In
/// particular, dropping one unreadable file from a run removes only that
/// file's entries and leaves every other file's records intact.
pub proof fn lemma_report_append(xs: Seq<ScannedFile>, ys: Seq<ScannedFile>, min: int)
    ensures
        report_of(xs + ys, min) == report_of(xs, min) + report_of(ys, min),
    decreases ys.len(),
{
    if ys.len() == 0 {
        assert(xs + ys =~= xs);
        assert(report_of(xs, min) + report_of(ys, min) =~= report_of(xs, min));
    } else {
        assert((xs + ys).drop_last() =~= xs + ys.drop_last());
        lemma_report_append(xs, ys.drop_last(), min);
        assert((xs + ys).last() == ys.last());
        let tail = records_for_file(
            ys.last().path,
            sha256_hex_of(ys.last().content),
            ys.last().rules,
            min,
        );
        assert(report_of(xs, min) + report_of(ys.drop_last(), min) + tail =~= report_of(xs, min) + (
        report_of(ys.drop_last(), min) + tail));
    }
}

/// The report's content does not depend on which batch came first: two runs
/// over the same files, interleaved as two batches in either order, carry
/// the same records (as a multiset; record order may differ).
pub proof fn lemma_report_order_content(xs: Seq<ScannedFile>, ys: Seq<ScannedFile>, min: int)
    ensures
        report_of(xs + ys, min).to_multiset() == report_of(ys + xs, min).to_multiset(),
{
    lemma_report_append(xs, ys, min);
    lemma_report_append(ys, xs, min);
    lemma_multiset_commutative(report_of(xs, min), report_of(ys, min));
    lemma_multiset_commutative(report_of(ys, min), report_of(xs, min));
    assert(report_of(xs, min).to_multiset().add(report_of(ys, min).to_multiset()) =~= report_of(
        ys,
        min,
    ).to_multiset().add(report_of(xs, min).to_multiset()));
}

} // verus!
