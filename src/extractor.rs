//! The extractor side: probe identities, and the choice of one report per
//! `(block, extractor)` when an extractor reported a block more than once.
use vstd::prelude::*;
use crate::model::{BlockExtractorRow, BlockNumber, ExtractorId, Millis};

verus! {

/// The code under which an extractor reports.
pub open spec fn code_of(id: ExtractorId) -> Seq<char> {
    match id {
        ExtractorId::ZMevUS => seq!['U', 'S'],
        ExtractorId::ZMevEU => seq!['E', 'U'],
        ExtractorId::ZMevAS => seq!['A', 'S'],
    }
}

/// The extractor that reports under `code`, if any: the set is closed.
pub open spec fn extractor_of(code: Seq<char>) -> Option<ExtractorId> {
    if code == code_of(ExtractorId::ZMevUS) {
        Some(ExtractorId::ZMevUS)
    } else if code == code_of(ExtractorId::ZMevEU) {
        Some(ExtractorId::ZMevEU)
    } else if code == code_of(ExtractorId::ZMevAS) {
        Some(ExtractorId::ZMevAS)
    } else {
        None
    }
}

impl ExtractorId {
    /// The extractor's code.
    pub fn code(&self) -> (r: String)
        ensures
            r@ == code_of(*self),
    {
        match self {
            ExtractorId::ZMevUS => {
                proof { reveal_strlit("US"); }
                "US".to_owned()
            },
            ExtractorId::ZMevEU => {
                proof { reveal_strlit("EU"); }
                "EU".to_owned()
            },
            ExtractorId::ZMevAS => {
                proof { reveal_strlit("AS"); }
                "AS".to_owned()
            },
        }
    }

    /// Reads an extractor code; an unknown code is `None`, never a guess.
    pub fn from_code(code: &str) -> (r: Option<ExtractorId>)
        ensures
            r == extractor_of(code@),
    {
        let c = code.to_owned();
        if c == ExtractorId::ZMevUS.code() {
            Some(ExtractorId::ZMevUS)
        } else if c == ExtractorId::ZMevEU.code() {
            Some(ExtractorId::ZMevEU)
        } else if c == ExtractorId::ZMevAS.code() {
            Some(ExtractorId::ZMevAS)
        } else {
            None
        }
    }
}

/// Reading an extractor's code gives the extractor back.
pub proof fn lemma_code_round_trip(id: ExtractorId)
    ensures
        extractor_of(code_of(id)) == Some(id),
{
    assert(code_of(ExtractorId::ZMevUS) != code_of(ExtractorId::ZMevEU)) by {
        assert(code_of(ExtractorId::ZMevUS)[0] != code_of(ExtractorId::ZMevEU)[0]);
    }
    assert(code_of(ExtractorId::ZMevUS) != code_of(ExtractorId::ZMevAS)) by {
        assert(code_of(ExtractorId::ZMevUS)[0] != code_of(ExtractorId::ZMevAS)[0]);
    }
    assert(code_of(ExtractorId::ZMevEU) != code_of(ExtractorId::ZMevAS)) by {
        assert(code_of(ExtractorId::ZMevEU)[0] != code_of(ExtractorId::ZMevAS)[0]);
    }
}

/// One report of an extractor's observations for a block, as stored: an
/// extractor may report a block again later, and the latest report counts.
#[derive(Clone, Debug)]
pub struct ObservationReport {
    pub block_number: BlockNumber,
    pub extractor: ExtractorId,
    pub reported_at: Millis,
    pub tx_data: Vec<(Millis, i64)>,
}

/// Report `i` is the one that counts for its `(block, extractor)`: every other
/// report for the pair is older, or as old and later in the sequence.
pub open spec fn is_latest(s: Seq<ObservationReport>, i: int) -> bool {
    forall|j: int|
        0 <= j < s.len() && j != i && (#[trigger] s[j]).block_number == s[i].block_number
            && s[j].extractor == s[i].extractor ==> s[j].reported_at < s[i].reported_at || (
        s[j].reported_at == s[i].reported_at && i < j)
}

/// The positions among the first `n` whose reports count, in order.
pub open spec fn latest_positions(s: Seq<ObservationReport>, n: int) -> Seq<int>
    decreases n,
{
    if n <= 0 {
        Seq::empty()
    } else {
        let p = latest_positions(s, n - 1);
        if is_latest(s, n - 1) {
            p.push(n - 1)
        } else {
            p
        }
    }
}

/// `out` holds, in order, the reports of `s` that count.
pub open spec fn is_latest_selection(s: Seq<ObservationReport>, out: Seq<BlockExtractorRow>) -> bool {
    let pos = latest_positions(s, s.len() as int);
    &&& out.len() == pos.len()
    &&& forall|p: int|
        0 <= p < out.len() ==> {
            &&& (#[trigger] out[p]).block_number == s[pos[p]].block_number
            &&& out[p].extractor == s[pos[p]].extractor
            &&& out[p].tx_data@ == s[pos[p]].tx_data@
        }
}

/// Reports `i` and `j` are for the same block and extractor.
pub open spec fn same_pair(s: Seq<ObservationReport>, i: int, j: int) -> bool {
    s[i].block_number == s[j].block_number && s[i].extractor == s[j].extractor
}

proof fn lemma_positions(s: Seq<ObservationReport>, n: int)
    requires
        0 <= n <= s.len(),
    ensures
        forall|p: int|
            0 <= p < latest_positions(s, n).len() ==> 0 <= #[trigger] latest_positions(s, n)[p] < n
                && is_latest(s, latest_positions(s, n)[p]),
        forall|p: int, q: int|
            0 <= p < q < latest_positions(s, n).len() ==> #[trigger] latest_positions(s, n)[p]
                < #[trigger] latest_positions(s, n)[q],
        forall|m: int|
            0 <= m < n && is_latest(s, m) ==> exists|p: int|
                0 <= p < latest_positions(s, n).len() && #[trigger] latest_positions(s, n)[p] == m,
    decreases n,
{
    if n > 0 {
        lemma_positions(s, n - 1);
        let prev = latest_positions(s, n - 1);
        assert forall|m: int| 0 <= m < n && is_latest(s, m) implies exists|p: int|
            0 <= p < latest_positions(s, n).len() && #[trigger] latest_positions(s, n)[p] == m by {
            if m < n - 1 {
                let p = choose|p: int| 0 <= p < prev.len() && #[trigger] prev[p] == m;
                assert(latest_positions(s, n)[p] == m);
            } else {
                assert(latest_positions(s, n)[prev.len() as int] == m);
            }
        }
    }
}

/// Among the first `n` reports for the pair of report `i`, one that no other beats.
proof fn lemma_best_exists(s: Seq<ObservationReport>, i: int, n: int) -> (m: int)
    requires
        0 <= i < n <= s.len(),
    ensures
        0 <= m < n,
        same_pair(s, m, i),
        forall|j: int|
            0 <= j < n && j != m && #[trigger] same_pair(s, j, i) ==> s[j].reported_at < s[m].reported_at
                || (s[j].reported_at == s[m].reported_at && m < j),
    decreases n,
{
    if n - 1 == i && forall|j: int| 0 <= j < n - 1 ==> !#[trigger] same_pair(s, j, i) {
        i
    } else {
        let k = if n - 1 == i {
            choose|j: int| 0 <= j < n - 1 && #[trigger] same_pair(s, j, i)
        } else {
            i
        };
        let m0 = lemma_best_exists(s, k, n - 1);
        let last = n - 1;
        let m = if same_pair(s, last, i) && (s[last].reported_at > s[m0].reported_at) {
            last
        } else {
            m0
        };
        assert forall|j: int|
            0 <= j < n && j != m && #[trigger] same_pair(s, j, i) implies s[j].reported_at
            < s[m].reported_at || (s[j].reported_at == s[m].reported_at && m < j) by {
            if j < n - 1 {
                assert(same_pair(s, j, k));
            }
        }
        m
    }
}

/// Some report that counts is for the pair of report `i`, and at least as recent.
pub open spec fn pair_kept(s: Seq<ObservationReport>, i: int) -> bool {
    let pos = latest_positions(s, s.len() as int);
    exists|p: int|
        0 <= p < pos.len() && same_pair(s, #[trigger] pos[p], i) && s[i].reported_at
            <= s[pos[p]].reported_at
}

/// The reports that count name each reported `(block, extractor)` exactly
/// once, and each is at least as recent as every other report for its pair.
pub proof fn lemma_one_latest_per_pair(s: Seq<ObservationReport>)
    ensures
        forall|p: int, q: int|
            0 <= p < latest_positions(s, s.len() as int).len() && 0 <= q < latest_positions(
                s,
                s.len() as int,
            ).len() && p != q ==> !same_pair(
                s,
                #[trigger] latest_positions(s, s.len() as int)[p],
                #[trigger] latest_positions(s, s.len() as int)[q],
            ),
        forall|i: int| 0 <= i < s.len() ==> #[trigger] pair_kept(s, i),
{
    let n = s.len() as int;
    let pos = latest_positions(s, n);
    lemma_positions(s, n);
    assert forall|p: int, q: int| 0 <= p < pos.len() && 0 <= q < pos.len() && p != q implies !same_pair(
        s,
        #[trigger] pos[p],
        #[trigger] pos[q],
    ) by {
        if p < q {
            assert(pos[p] < pos[q]);
        } else {
            assert(pos[q] < pos[p]);
        }
        if same_pair(s, pos[p], pos[q]) {
            assert(is_latest(s, pos[p]) && is_latest(s, pos[q]));
            assert(s[pos[q]].block_number == s[pos[p]].block_number);
        }
    }
    assert forall|i: int| 0 <= i < n implies #[trigger] pair_kept(s, i) by {
        let m = lemma_best_exists(s, i, n);
        assert forall|j: int|
            0 <= j < s.len() && j != m && (#[trigger] s[j]).block_number == s[m].block_number
                && s[j].extractor == s[m].extractor implies s[j].reported_at < s[m].reported_at || (
            s[j].reported_at == s[m].reported_at && m < j) by {
            assert(same_pair(s, j, i));
        }
        assert(is_latest(s, m));
        let p = choose|p: int| 0 <= p < pos.len() && #[trigger] pos[p] == m;
        if i != m {
            assert(same_pair(s, i, i));
        }
        assert(same_pair(s, pos[p], i));
    }
}

fn report_counts(reports: &Vec<ObservationReport>, i: usize) -> (r: bool)
    requires
        i < reports@.len(),
    ensures
        r == is_latest(reports@, i as int),
{
    let mine = &reports[i];
    let mut j: usize = 0;
    while j < reports.len()
        invariant
            i < reports@.len(),
            j <= reports@.len(),
            *mine == reports@[i as int],
            forall|k: int|
                0 <= k < j && k != i && (#[trigger] reports@[k]).block_number == mine.block_number
                    && reports@[k].extractor == mine.extractor ==> reports@[k].reported_at
                    < mine.reported_at || (reports@[k].reported_at == mine.reported_at && i < k),
        decreases reports@.len() - j,
    {
        let other = &reports[j];
        if j != i && other.block_number == mine.block_number && other.extractor == mine.extractor {
            if other.reported_at > mine.reported_at || (other.reported_at == mine.reported_at && j
                < i) {
                return false;
            }
        }
        j = j + 1;
    }
    true
}

fn copy_data(v: &Vec<(Millis, i64)>) -> (r: Vec<(Millis, i64)>)
    ensures
        r@ == v@,
{
    let mut r: Vec<(Millis, i64)> = Vec::new();
    let mut i: usize = 0;
    while i < v.len()
        invariant
            i <= v@.len(),
            r@ == v@.subrange(0, i as int),
        decreases v@.len() - i,
    {
        r.push(v[i]);
        i = i + 1;
        assert(r@ =~= v@.subrange(0, i as int));
    }
    r
}

/// Keeps, for each `(block, extractor)`, only its most recent report (the first
/// of equally recent ones), in the order of the reports kept.
pub fn latest_reports(reports: &Vec<ObservationReport>) -> (out: Vec<BlockExtractorRow>)
    ensures
        is_latest_selection(reports@, out@),
{
    let mut out: Vec<BlockExtractorRow> = Vec::new();
    let mut i: usize = 0;
    while i < reports.len()
        invariant
            i <= reports@.len(),
            out@.len() == latest_positions(reports@, i as int).len(),
            forall|p: int|
                0 <= p < out@.len() ==> {
                    let q = latest_positions(reports@, i as int)[p];
                    &&& (#[trigger] out@[p]).block_number == reports@[q].block_number
                    &&& out@[p].extractor == reports@[q].extractor
                    &&& out@[p].tx_data@ == reports@[q].tx_data@
                },
        decreases reports@.len() - i,
    {
        if report_counts(reports, i) {
            let r = &reports[i];
            out.push(
                BlockExtractorRow {
                    block_number: r.block_number,
                    extractor: r.extractor,
                    tx_data: copy_data(&r.tx_data),
                },
            );
        }
        i = i + 1;
    }
    out
}

} // verus!
