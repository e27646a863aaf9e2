//! Block counts per builder, from relay deliveries counted per builder key and
//! the mapping of keys to the builders that own them.
use vstd::prelude::*;

verus! {

/// A builder and the number of delivered blocks it built.
#[derive(Clone, Debug)]
pub struct Builder {
    pub extra_data: Option<String>,
    pub builder_id: String,
    pub block_count: i64,
}

#[derive(Clone, Debug)]
pub struct BuildersBody {
    pub builders: Vec<Builder>,
}

/// How many delivered blocks one builder key built.
#[derive(Clone, Debug)]
pub struct PubkeyBlockCount {
    pub pubkey: String,
    pub block_count: i64,
}

/// A builder key and the builder that owns it.
#[derive(Clone, Debug)]
pub struct BuilderIdMapping {
    pub builder_id: String,
    pub pubkey: String,
}

/// The block count of key `pk`: that of its first entry, or 0 without one.
pub open spec fn count_for(counts: Seq<PubkeyBlockCount>, pk: Seq<char>) -> int
    decreases counts.len(),
{
    if counts.len() == 0 {
        0
    } else if counts[0].pubkey@ == pk {
        counts[0].block_count as int
    } else {
        count_for(counts.drop_first(), pk)
    }
}

/// Each builder's total over the keys that `ids` gives it.
pub open spec fn builder_totals(counts: Seq<PubkeyBlockCount>, ids: Seq<BuilderIdMapping>) -> Map<
    Seq<char>,
    int,
>
    decreases ids.len(),
{
    if ids.len() == 0 {
        Map::empty()
    } else {
        let m = builder_totals(counts, ids.drop_last());
        let k = ids.last().builder_id@;
        m.insert(k, (if m.contains_key(k) { m[k] } else { 0 }) + count_for(counts, ids.last().pubkey@))
    }
}

/// Every running total fits in an `i64`.
pub open spec fn totals_fit(counts: Seq<PubkeyBlockCount>, ids: Seq<BuilderIdMapping>) -> bool {
    forall|n: int, k: Seq<char>|
        0 <= n <= ids.len() && #[trigger] builder_totals(counts, ids.subrange(0, n)).contains_key(k)
            ==> i64::MIN <= builder_totals(counts, ids.subrange(0, n))[k] <= i64::MAX
}

fn count_of(counts: &Vec<PubkeyBlockCount>, pk: &String) -> (r: i64)
    ensures
        r == count_for(counts@, pk@),
{
    let n = counts.len();
    let mut i: usize = 0;
    assert(counts@.subrange(0, n as int) =~= counts@);
    while i < n
        invariant
            n == counts@.len(),
            i <= n,
            count_for(counts@, pk@) == count_for(counts@.subrange(i as int, n as int), pk@),
        decreases n - i,
    {
        let ghost rest = counts@.subrange(i as int, n as int);
        assert(rest.drop_first() =~= counts@.subrange(i + 1, n as int));
        if counts[i].pubkey == *pk {
            return counts[i].block_count;
        }
        i = i + 1;
    }
    0
}

fn find_builder(out: &Vec<Builder>, id: &String) -> (p: usize)
    ensures
        p <= out@.len(),
        p < out@.len() ==> out@[p as int].builder_id@ == id@,
        forall|q: int| 0 <= q < p ==> (#[trigger] out@[q]).builder_id@ != id@,
{
    let mut p: usize = 0;
    while p < out.len()
        invariant
            p <= out@.len(),
            forall|q: int| 0 <= q < p ==> (#[trigger] out@[q]).builder_id@ != id@,
        decreases out@.len() - p,
    {
        if out[p].builder_id == *id {
            return p;
        }
        p = p + 1;
    }
    p
}

/// One entry per builder that `ids` names, with the sum of the block counts
/// of the keys that it owns (a key without a count adds 0). Every entry carries
/// empty extra data.
pub fn aggregate_builders(counts: &Vec<PubkeyBlockCount>, ids: &Vec<BuilderIdMapping>) -> (out: Vec<
    Builder,
>)
    requires
        totals_fit(counts@, ids@),
    ensures
        forall|p: int, q: int|
            0 <= p < out@.len() && 0 <= q < out@.len() && p != q ==> (#[trigger] out@[p]).builder_id@
                != (#[trigger] out@[q]).builder_id@,
        forall|p: int|
            0 <= p < out@.len() ==> {
                &&& builder_totals(counts@, ids@).contains_key((#[trigger] out@[p]).builder_id@)
                &&& out@[p].block_count == builder_totals(counts@, ids@)[out@[p].builder_id@]
                &&& out@[p].extra_data matches Some(e) && e@ == Seq::<char>::empty()
            },
        forall|k: Seq<char>|
            builder_totals(counts@, ids@).contains_key(k) ==> exists|p: int|
                0 <= p < out@.len() && (#[trigger] out@[p]).builder_id@ == k,
{
    let mut out: Vec<Builder> = Vec::new();
    let mut i: usize = 0;
    while i < ids.len()
        invariant
            i <= ids@.len(),
            totals_fit(counts@, ids@),
            forall|p: int, q: int|
                0 <= p < out@.len() && 0 <= q < out@.len() && p != q ==> (#[trigger] out@[p]).builder_id@
                    != (#[trigger] out@[q]).builder_id@,
            forall|p: int|
                0 <= p < out@.len() ==> {
                    &&& builder_totals(counts@, ids@.subrange(0, i as int)).contains_key(
                        (#[trigger] out@[p]).builder_id@,
                    )
                    &&& out@[p].block_count == builder_totals(counts@, ids@.subrange(0, i as int))[out@[p].builder_id@]
                    &&& out@[p].extra_data matches Some(e) && e@ == Seq::<char>::empty()
                },
            forall|k: Seq<char>|
                builder_totals(counts@, ids@.subrange(0, i as int)).contains_key(k) ==> exists|p: int|
                    0 <= p < out@.len() && (#[trigger] out@[p]).builder_id@ == k,
        decreases ids@.len() - i,
    {
        let ghost prev = builder_totals(counts@, ids@.subrange(0, i as int));
        let ghost next = builder_totals(counts@, ids@.subrange(0, i + 1));
        let ghost k = ids@[i as int].builder_id@;
        assert(ids@.subrange(0, i + 1).drop_last() =~= ids@.subrange(0, i as int));
        let c = count_of(counts, &ids[i].pubkey);
        assert(next == prev.insert(k, (if prev.contains_key(k) { prev[k] } else { 0 }) + c));
        assert(next.contains_key(k));
        assert(i64::MIN <= next[k] <= i64::MAX);
        let p = find_builder(&out, &ids[i].builder_id);
        proof { reveal_strlit(""); }
        let ghost before = out@;
        if p < out.len() {
            assert(prev.contains_key(k));
            let total = out[p].block_count + c;
            let b = Builder {
                extra_data: Some("".to_owned()),
                builder_id: ids[i].builder_id.clone(),
                block_count: total,
            };
            out.set(p, b);
            proof {
                assert forall|q: int| 0 <= q < out@.len() && q != p implies (#[trigger] out@[q]).builder_id@ != k by {
                    assert(before[q].builder_id@ != before[p as int].builder_id@);
                }
                assert forall|kk: Seq<char>| next.contains_key(kk) implies exists|q: int|
                    0 <= q < out@.len() && (#[trigger] out@[q]).builder_id@ == kk by {
                    if kk != k {
                        let q = choose|q: int| 0 <= q < before.len() && (#[trigger] before[q]).builder_id@ == kk;
                        assert(out@[q].builder_id@ == kk);
                    } else {
                        assert(out@[p as int].builder_id@ == kk);
                    }
                }
            }
        } else {
            proof {
                if prev.contains_key(k) {
                    let q = choose|q: int| 0 <= q < out@.len() && (#[trigger] out@[q]).builder_id@ == k;
                    assert(false);
                }
            }
            let b = Builder {
                extra_data: Some("".to_owned()),
                builder_id: ids[i].builder_id.clone(),
                block_count: c,
            };
            out.push(b);
            proof {
                assert forall|kk: Seq<char>| next.contains_key(kk) implies exists|q: int|
                    0 <= q < out@.len() && (#[trigger] out@[q]).builder_id@ == kk by {
                    if kk != k {
                        let q = choose|q: int| 0 <= q < before.len() && (#[trigger] before[q]).builder_id@ == kk;
                        assert(out@[q].builder_id@ == kk);
                    } else {
                        assert(out@[before.len() as int].builder_id@ == kk);
                    }
                }
            }
        }
        i = i + 1;
    }
    assert(ids@.subrange(0, i as int) =~= ids@);
    out
}

} // verus!
