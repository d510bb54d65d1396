//! How often each label occurs in a replayed log, most frequent first.
use vstd::prelude::*;
use crate::codec::models;
use crate::format::RecordModel;
use crate::record::Record;
use crate::stats::{durations_of, group_by_id, grouped, present, Group};

verus! {

/// How many records carry one label.
pub struct LabelCount {
    pub id: String,
    pub count: usize,
}

pub open spec fn by_descending_count(cs: Seq<LabelCount>) -> bool {
    forall|a: int, b: int| 0 <= a < b < cs.len() ==> #[trigger] cs[a].count >= #[trigger] cs[b].count
}

pub open spec fn distinct_labels(cs: Seq<LabelCount>) -> bool {
    forall|a: int, b: int| 0 <= a < b < cs.len() ==> #[trigger] cs[a].id@ != #[trigger] cs[b].id@
}

/// Whether `counts` holds every label present in `ms` once, each with the
/// number of its records, by descending count.
pub open spec fn counted(cs: Seq<LabelCount>, ms: Seq<RecordModel>) -> bool {
    &&& forall|a: int| 0 <= a < cs.len() ==> counts_label(ms, #[trigger] cs[a])
    &&& distinct_labels(cs)
    &&& forall|k: int| 0 <= k < ms.len() ==> listed(cs, #[trigger] ms[k].id)
    &&& by_descending_count(cs)
}

/// Whether `e` names a present label with the number of its records.
pub open spec fn counts_label(ms: Seq<RecordModel>, e: LabelCount) -> bool {
    present(ms, e.id@) && e.count == durations_of(ms, e.id@).len()
}

/// Whether some entry carries the label `id`.
pub open spec fn listed(cs: Seq<LabelCount>, id: Seq<char>) -> bool {
    exists|a: int| 0 <= a < cs.len() && cs[a].id@ == id
}

/// Every entry is the label and size of one of the first `i` groups.
#[verifier::opaque]
pub open spec fn drawn_from(cs: Seq<LabelCount>, gs: Seq<Group>, i: int) -> bool {
    forall|a: int|
        0 <= a < cs.len() ==> exists|b: int|
            0 <= b < i && gs[b].id@ == (#[trigger] cs[a]).id@ && cs[a].count == gs[b].ys@.len()
}

/// Each of the first `i` groups has an entry.
#[verifier::opaque]
pub open spec fn covers(cs: Seq<LabelCount>, gs: Seq<Group>, i: int) -> bool {
    forall|b: int| 0 <= b < i ==> exists|a: int| 0 <= a < cs.len() && cs[a].id@ == (#[trigger] gs[b]).id@
}

proof fn lemma_insert_drawn(cs: Seq<LabelCount>, p: int, e: LabelCount, gs: Seq<Group>, i: int)
    requires
        0 <= i < gs.len(),
        0 <= p <= cs.len(),
        drawn_from(cs, gs, i),
        e.id@ == gs[i].id@,
        e.count == gs[i].ys@.len(),
    ensures
        drawn_from(cs.insert(p, e), gs, i + 1),
{
    reveal(drawn_from);
    let n = cs.insert(p, e);
    assert forall|a: int| 0 <= a < n.len() implies exists|b: int|
        0 <= b < i + 1 && gs[b].id@ == (#[trigger] n[a]).id@ && n[a].count == gs[b].ys@.len() by {
        if a < p {
            assert(n[a] == cs[a]);
            let b = choose|b: int| 0 <= b < i && gs[b].id@ == (#[trigger] cs[a]).id@ && cs[a].count == gs[b].ys@.len();
        } else if a > p {
            assert(n[a] == cs[a - 1]);
            let b = choose|b: int| 0 <= b < i && gs[b].id@ == (#[trigger] cs[a - 1]).id@ && cs[a - 1].count == gs[b].ys@.len();
        } else {
            assert(n[a] == e);
        }
    }
}

proof fn lemma_insert_covers(cs: Seq<LabelCount>, p: int, e: LabelCount, gs: Seq<Group>, i: int)
    requires
        0 <= i < gs.len(),
        0 <= p <= cs.len(),
        covers(cs, gs, i),
        e.id@ == gs[i].id@,
    ensures
        covers(cs.insert(p, e), gs, i + 1),
{
    reveal(covers);
    let n = cs.insert(p, e);
    assert forall|b: int| 0 <= b < i + 1 implies exists|a: int|
        0 <= a < n.len() && n[a].id@ == (#[trigger] gs[b]).id@ by {
        if b == i {
            assert(n[p] == e);
        } else {
            let a = choose|a: int| 0 <= a < cs.len() && cs[a].id@ == gs[b].id@;
            if a < p {
                assert(n[a] == cs[a]);
            } else {
                assert(n[a + 1] == cs[a]);
            }
        }
    }
}

proof fn lemma_insert_distinct(cs: Seq<LabelCount>, p: int, e: LabelCount, gs: Seq<Group>, i: int)
    requires
        0 <= i < gs.len(),
        0 <= p <= cs.len(),
        drawn_from(cs, gs, i),
        distinct_labels(cs),
        forall|b: int| 0 <= b < i ==> (#[trigger] gs[b]).id@ != gs[i].id@,
        e.id@ == gs[i].id@,
    ensures
        distinct_labels(cs.insert(p, e)),
{
    reveal(drawn_from);
    let n = cs.insert(p, e);
    assert forall|a: int| 0 <= a < cs.len() implies (#[trigger] cs[a]).id@ != e.id@ by {
        let b = choose|b: int| 0 <= b < i && gs[b].id@ == cs[a].id@ && cs[a].count == gs[b].ys@.len();
        assert(gs[b].id@ != gs[i].id@);
    }
    assert forall|a: int, b: int| 0 <= a < b < n.len() implies #[trigger] n[a].id@
        != #[trigger] n[b].id@ by {
        if b < p {
            assert(n[a] == cs[a] && n[b] == cs[b]);
        } else if a < p && b == p {
            assert(n[a] == cs[a]);
        } else if a < p {
            assert(n[a] == cs[a] && n[b] == cs[b - 1]);
        } else if a == p {
            assert(n[b] == cs[b - 1]);
        } else {
            assert(n[a] == cs[a - 1] && n[b] == cs[b - 1]);
        }
    }
}

proof fn lemma_insert_sorted(cs: Seq<LabelCount>, p: int, e: LabelCount)
    requires
        0 <= p <= cs.len(),
        by_descending_count(cs),
        forall|a: int| 0 <= a < p ==> #[trigger] cs[a].count >= e.count,
        p < cs.len() ==> cs[p].count < e.count,
    ensures
        by_descending_count(cs.insert(p, e)),
{
    let n = cs.insert(p, e);
    assert forall|a: int, b: int| 0 <= a < b < n.len() implies #[trigger] n[a].count
        >= #[trigger] n[b].count by {
        if b < p {
            assert(n[a] == cs[a] && n[b] == cs[b]);
        } else if a < p && b == p {
            assert(n[a] == cs[a]);
        } else if a < p {
            assert(n[a] == cs[a] && n[b] == cs[b - 1]);
            assert(cs[a].count >= e.count);
            if b - 1 > p {
                assert(cs[p].count >= cs[b - 1].count);
            }
        } else if a == p {
            assert(n[b] == cs[b - 1]);
            if b - 1 > p {
                assert(cs[p].count >= cs[b - 1].count);
            }
        } else {
            assert(n[a] == cs[a - 1] && n[b] == cs[b - 1]);
        }
    }
}

proof fn lemma_counts_complete(cs: Seq<LabelCount>, gs: Seq<Group>, ms: Seq<RecordModel>)
    requires
        grouped(gs, ms, None),
        drawn_from(cs, gs, gs.len() as int),
        covers(cs, gs, gs.len() as int),
        distinct_labels(cs),
        by_descending_count(cs),
    ensures
        counted(cs, ms),
{
    reveal(drawn_from);
    reveal(covers);
    assert forall|a: int| 0 <= a < cs.len() implies counts_label(ms, #[trigger] cs[a]) by {
        let b = choose|b: int|
            0 <= b < gs.len() && gs[b].id@ == (#[trigger] cs[a]).id@ && cs[a].count == gs[b].ys@.len();
        assert(gs[b].ys@ == durations_of(ms, gs[b].id@));
        assert(present(ms, gs[b].id@));
    }
    assert forall|k: int| 0 <= k < ms.len() implies listed(cs, #[trigger] ms[k].id) by {
        assert(crate::stats::admitted(None, ms[k].id));
        let b = choose|b: int| 0 <= b < gs.len() && gs[b].id@ == ms[k].id;
        let a = choose|a: int| 0 <= a < cs.len() && cs[a].id@ == (#[trigger] gs[b]).id@;
        assert(cs[a].id@ == ms[k].id);
    }
}

/// The number of records of each label, by descending count; labels with
/// equal counts stand in order of first appearance.
pub fn label_counts(records: &Vec<Record>) -> (counts: Vec<LabelCount>)
    ensures
        counted(counts@, models(records@)),
{
    let groups = group_by_id(records, &None);
    let ghost ms = models(records@);
    let mut counts: Vec<LabelCount> = Vec::new();
    proof {
        reveal(drawn_from);
        reveal(covers);
    }
    let mut i: usize = 0;
    while i < groups.len()
        invariant
            i <= groups@.len(),
            ms == models(records@),
            grouped(groups@, ms, None),
            drawn_from(counts@, groups@, i as int),
            covers(counts@, groups@, i as int),
            distinct_labels(counts@),
            by_descending_count(counts@),
        decreases groups@.len() - i,
    {
        let c = groups[i].ys.len();
        let mut p: usize = 0;
        while p < counts.len() && counts[p].count >= c
            invariant
                p <= counts@.len(),
                forall|a: int| 0 <= a < p ==> #[trigger] counts@[a].count >= c,
            ensures
                p <= counts@.len(),
                forall|a: int| 0 <= a < p ==> #[trigger] counts@[a].count >= c,
                p < counts@.len() ==> counts@[p as int].count < c,
            decreases counts@.len() - p,
        {
            p = p + 1;
        }
        let e = LabelCount { id: groups[i].id.clone(), count: c };
        let ghost old_counts = counts@;
        proof {
            assert forall|b: int| 0 <= b < i implies (#[trigger] groups@[b]).id@ != groups@[i as int].id@ by {
            }
            lemma_insert_drawn(old_counts, p as int, e, groups@, i as int);
            lemma_insert_covers(old_counts, p as int, e, groups@, i as int);
            lemma_insert_distinct(old_counts, p as int, e, groups@, i as int);
            lemma_insert_sorted(old_counts, p as int, e);
        }
        counts.insert(p, e);
        i = i + 1;
    }
    proof {
        lemma_counts_complete(counts@, groups@, ms);
    }
    counts
}

} // verus!
