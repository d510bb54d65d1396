//! Grouping replayed records by label, and the numbers shown for each group.
use vstd::prelude::*;
use crate::codec::models;
use crate::format::RecordModel;
use crate::record::Record;

verus! {

/// Whether the allow-list admits `id`; no list admits every label.
pub open spec fn admitted(allow: Option<Seq<Seq<char>>>, id: Seq<char>) -> bool {
    match allow {
        None => true,
        Some(list) => list.contains(id),
    }
}

/// The durations of the records labelled `id`, in arrival order.
pub open spec fn durations_of(ms: Seq<RecordModel>, id: Seq<char>) -> Seq<u64>
    decreases ms.len(),
{
    if ms.len() == 0 {
        seq![]
    } else {
        let last = ms.last();
        durations_of(ms.drop_last(), id) + if last.id == id {
            seq![last.y]
        } else {
            seq![]
        }
    }
}

/// Whether some record is labelled `id`.
pub open spec fn present(ms: Seq<RecordModel>, id: Seq<char>) -> bool {
    exists|k: int| 0 <= k < ms.len() && ms[k].id == id
}

pub open spec fn allow_view(allow: &Option<Vec<String>>) -> Option<Seq<Seq<char>>> {
    match allow {
        None => None,
        Some(list) => Some(list@.map_values(|s: String| s@)),
    }
}

/// The durations of one label, in arrival order.
pub struct Group {
    pub id: String,
    pub ys: Vec<u64>,
}

/// Whether `groups` holds exactly one group for each label that is present
/// in `ms` and admitted, each with that label's durations in arrival order.
pub open spec fn grouped(
    groups: Seq<Group>,
    ms: Seq<RecordModel>,
    allow: Option<Seq<Seq<char>>>,
) -> bool {
    &&& forall|i: int|
        0 <= i < groups.len() ==> {
            &&& groups[i].ys@ == durations_of(ms, groups[i].id@)
            &&& present(ms, groups[i].id@)
            &&& admitted(allow, groups[i].id@)
        }
    &&& forall|i: int, j: int|
        0 <= i < j < groups.len() ==> groups[i].id@ != groups[j].id@
    &&& forall|k: int|
        0 <= k < ms.len() && admitted(allow, #[trigger] ms[k].id) ==> exists|i: int|
            0 <= i < groups.len() && groups[i].id@ == ms[k].id
}

pub open spec fn labels(groups: Seq<Group>) -> Seq<Seq<char>> {
    groups.map_values(|g: Group| g.id@)
}

/// Whether the labels stand in order of first appearance: before any record
/// of a later label, some record of each earlier label has come.
pub open spec fn in_first_appearance_order(ids: Seq<Seq<char>>, ms: Seq<RecordModel>) -> bool {
    forall|i: int, j: int, k: int|
        #![trigger ids[i], ids[j], ms[k]]
        0 <= i < j < ids.len() && 0 <= k < ms.len() && ms[k].id == ids[j] ==> seen_before(
            ms,
            k,
            ids[i],
        )
}

/// Whether some record before position `k` is labelled `id`.
pub open spec fn seen_before(ms: Seq<RecordModel>, k: int, id: Seq<char>) -> bool {
    exists|k2: int| 0 <= k2 < k && ms[k2].id == id
}

proof fn lemma_order_push_record(ids: Seq<Seq<char>>, ms: Seq<RecordModel>, m: RecordModel)
    requires
        in_first_appearance_order(ids, ms),
        forall|i: int| 0 <= i < ids.len() ==> present(ms, #[trigger] ids[i]),
    ensures
        in_first_appearance_order(ids, ms.push(m)),
{
    let after = ms.push(m);
    assert forall|i: int, j: int, k: int|
        #![trigger ids[i], ids[j], after[k]]
        0 <= i < j < ids.len() && 0 <= k < after.len() && after[k].id == ids[j] implies seen_before(
            after,
            k,
            ids[i],
        ) by {
        if k < ms.len() {
            assert(ms[k] == after[k]);
            let k2 = choose|k2: int| 0 <= k2 < k && ms[k2].id == ids[i];
            assert(after[k2] == ms[k2]);
        } else {
            assert(present(ms, ids[i]));
            let k2 = choose|k2: int| 0 <= k2 < ms.len() && ms[k2].id == ids[i];
            assert(after[k2] == ms[k2]);
        }
    }
    assert(in_first_appearance_order(ids, after));
}

proof fn lemma_order_push_label(ids: Seq<Seq<char>>, ms: Seq<RecordModel>, m: RecordModel)
    requires
        in_first_appearance_order(ids, ms),
        forall|i: int| 0 <= i < ids.len() ==> present(ms, #[trigger] ids[i]),
        !present(ms, m.id),
    ensures
        in_first_appearance_order(ids.push(m.id), ms.push(m)),
{
    lemma_order_push_record(ids, ms, m);
    let after = ms.push(m);
    let ids2 = ids.push(m.id);
    assert forall|i: int, j: int, k: int|
        #![trigger ids2[i], ids2[j], after[k]]
        0 <= i < j < ids2.len() && 0 <= k < after.len() && after[k].id == ids2[j] implies seen_before(
            after,
            k,
            ids2[i],
        ) by {
        assert(ids2[i] == ids[i]);
        if j < ids.len() {
            assert(ids2[j] == ids[j]);
        } else {
            if k < ms.len() {
                assert(ms[k] == after[k]);
            }
            assert(k == ms.len());
            assert(present(ms, ids[i]));
            let k2 = choose|k2: int| 0 <= k2 < ms.len() && ms[k2].id == ids[i];
            assert(after[k2] == ms[k2]);
        }
    }
    assert(in_first_appearance_order(ids2, after));
}

/// The labels of a grouping are exactly the labels that are present and that
/// the allow-list admits; with no list, every present label.
pub proof fn lemma_groups_are_admitted_labels(
    groups: Seq<Group>,
    ms: Seq<RecordModel>,
    allow: Option<Seq<Seq<char>>>,
    id: Seq<char>,
)
    requires
        grouped(groups, ms, allow),
    ensures
        (exists|i: int| 0 <= i < groups.len() && groups[i].id@ == id) <==> (present(ms, id)
            && admitted(allow, id)),
        allow is None ==> ((exists|i: int| 0 <= i < groups.len() && groups[i].id@ == id)
            <==> present(ms, id)),
{
    if present(ms, id) && admitted(allow, id) {
        let k = choose|k: int| 0 <= k < ms.len() && ms[k].id == id;
        assert(admitted(allow, ms[k].id));
    }
}

/// Whether the allow-list admits `id`.
pub fn is_admitted(allow: &Option<Vec<String>>, id: &String) -> (r: bool)
    ensures
        r == admitted(allow_view(allow), id@),
{
    if let Some(list) = allow {
        let ghost names = list@.map_values(|s: String| s@);
        let mut k: usize = 0;
        while k < list.len()
            invariant
                k <= list@.len(),
                names == list@.map_values(|s: String| s@),
                allow_view(allow) == Some(names),
                forall|j: int| 0 <= j < k ==> names[j] != id@,
            decreases list@.len() - k,
        {
            if list[k] == *id {
                assert(names[k as int] == id@);
                assert(names.contains(id@));
                return true;
            }
            k = k + 1;
        }
        assert(!names.contains(id@)) by {
            if names.contains(id@) {
                let j = choose|j: int| 0 <= j < names.len() && names[j] == id@;
                assert(names[j] != id@);
            }
        }
        false
    } else {
        true
    }
}

proof fn lemma_durations_push(ms: Seq<RecordModel>, m: RecordModel, id: Seq<char>)
    ensures
        durations_of(ms.push(m), id) == durations_of(ms, id) + if m.id == id {
            seq![m.y]
        } else {
            seq![]
        },
{
    assert(ms.push(m).drop_last() =~= ms);
}

proof fn lemma_durations_absent(ms: Seq<RecordModel>, id: Seq<char>)
    requires
        !present(ms, id),
    ensures
        durations_of(ms, id) == Seq::<u64>::empty(),
    decreases ms.len(),
{
    if ms.len() > 0 {
        assert(!present(ms.drop_last(), id)) by {
            if present(ms.drop_last(), id) {
                let k = choose|k: int| 0 <= k < ms.drop_last().len() && ms.drop_last()[k].id == id;
                assert(ms[k].id == id);
            }
        }
        lemma_durations_absent(ms.drop_last(), id);
        assert(ms.last() == ms[ms.len() - 1]);
    }
}

/// Groups records by label, keeping only labels that the allow-list admits
/// (every label where there is no list). Groups stand in order of first
/// appearance; each holds its label's durations in arrival order.
#[verifier::rlimit(60)]
pub fn group_by_id(records: &Vec<Record>, allow: &Option<Vec<String>>) -> (groups: Vec<Group>)
    ensures
        grouped(groups@, models(records@), allow_view(allow)),
        in_first_appearance_order(labels(groups@), models(records@)),
        forall|i: int| 0 <= i < groups@.len() ==> groups@[i].ys@.len() > 0,
{
    let ghost ms = models(records@);
    let ghost av = allow_view(allow);
    let mut groups: Vec<Group> = Vec::new();
    let mut j: usize = 0;
    while j < records.len()
        invariant
            j <= records@.len(),
            ms == models(records@),
            av == allow_view(allow),
            grouped(groups@, ms.take(j as int), av),
            in_first_appearance_order(labels(groups@), ms.take(j as int)),
            forall|i: int| 0 <= i < groups@.len() ==> groups@[i].ys@.len() > 0,
        decreases records@.len() - j,
    {
        let ghost before = ms.take(j as int);
        let ghost after = ms.take(j + 1);
        let ghost m = ms[j as int];
        let ghost ids = labels(groups@);
        proof {
            assert(after =~= before.push(m));
            assert forall|i: int| 0 <= i < ids.len() implies present(before, #[trigger] ids[i]) by {
                assert(ids[i] == groups@[i].id@);
            }
            assert forall|i: int| 0 <= i < groups@.len() && groups@[i].id@ != m.id implies
                durations_of(after, groups@[i].id@) == durations_of(before, groups@[i].id@) by {
                lemma_durations_push(before, m, groups@[i].id@);
                assert(durations_of(before, groups@[i].id@) + Seq::<u64>::empty()
                    =~= durations_of(before, groups@[i].id@));
            }
            assert forall|id: Seq<char>| present(before, id) implies present(after, id) by {
                let k = choose|k: int| 0 <= k < before.len() && before[k].id == id;
                assert(after[k] == before[k]);
            }
            assert(present(after, m.id)) by {
                assert(after[j as int] == m);
            }
        }
        let r = &records[j];
        let mut g: usize = 0;
        while g < groups.len()
            invariant
                g <= groups@.len(),
                forall|i: int| 0 <= i < g ==> groups@[i].id@ != m.id,
                r@ == m,
            ensures
                g <= groups@.len(),
                forall|i: int| 0 <= i < g ==> groups@[i].id@ != m.id,
                g < groups@.len() ==> groups@[g as int].id@ == m.id,
            decreases groups@.len() - g,
        {
            if groups[g].id == r.id {
                break;
            }
            g = g + 1;
        }
        if g < groups.len() {
            let ghost old_groups = groups@;
            proof {
                lemma_durations_push(before, m, m.id);
            }
            let mut grp = groups.remove(g);
            grp.ys.push(r.y);
            groups.insert(g, grp);
            proof {
                assert(labels(groups@) =~= ids) by {
                    assert forall|i: int| 0 <= i < groups@.len() implies groups@[i].id@
                        == old_groups[i].id@ by {
                        if i != g {
                            assert(groups@[i] == old_groups[i]);
                        }
                    }
                }
                lemma_order_push_record(ids, before, m);
                assert(groups@[g as int].id@ == m.id);
                assert(groups@[g as int].ys@ =~= old_groups[g as int].ys@ + seq![m.y]);
                assert forall|i: int| 0 <= i < groups@.len() && i != g implies groups@[i]
                    == old_groups[i] by {
                    assert(groups@[i] == old_groups[i]);
                }
                assert forall|k: int|
                    0 <= k < after.len() && admitted(av, #[trigger] after[k].id) implies exists|
                    i: int,
                |
                    0 <= i < groups@.len() && groups@[i].id@ == after[k].id by {
                    if k < before.len() {
                        assert(before[k] == after[k]);
                        let i = choose|i: int|
                            0 <= i < old_groups.len() && old_groups[i].id@ == before[k].id;
                        assert(groups@[i].id@ == old_groups[i].id@);
                    } else {
                        assert(groups@[g as int].id@ == after[k].id);
                    }
                }
            }
        } else if is_admitted(allow, &r.id) {
            let ghost old_groups = groups@;
            proof {
                lemma_durations_absent(before, m.id);
                lemma_durations_push(before, m, m.id);
                assert(Seq::<u64>::empty() + seq![m.y] =~= seq![m.y]);
            }
            let mut ys: Vec<u64> = Vec::new();
            ys.push(r.y);
            groups.push(Group { id: r.id.clone(), ys });
            proof {
                assert(!present(before, m.id)) by {
                    if present(before, m.id) {
                        let k = choose|k: int| 0 <= k < before.len() && before[k].id == m.id;
                        assert(admitted(av, before[k].id));
                        let i = choose|i: int|
                            0 <= i < old_groups.len() && old_groups[i].id@ == before[k].id;
                        assert(old_groups[i].id@ != m.id);
                    }
                }
                lemma_order_push_label(ids, before, m);
                assert(labels(groups@) =~= ids.push(m.id));
                assert forall|k: int|
                    0 <= k < after.len() && admitted(av, #[trigger] after[k].id) implies exists|
                    i: int,
                |
                    0 <= i < groups@.len() && groups@[i].id@ == after[k].id by {
                    if k < before.len() {
                        assert(before[k] == after[k]);
                        let i = choose|i: int|
                            0 <= i < old_groups.len() && old_groups[i].id@ == before[k].id;
                        assert(groups@[i] == old_groups[i]);
                    } else {
                        assert(groups@[old_groups.len() as int].id@ == after[k].id);
                    }
                }
            }
        } else {
            proof {
                lemma_order_push_record(ids, before, m);
                assert forall|k: int|
                    0 <= k < after.len() && admitted(av, #[trigger] after[k].id) implies exists|
                    i: int,
                |
                    0 <= i < groups@.len() && groups@[i].id@ == after[k].id by {
                    assert(k < before.len());
                    assert(before[k] == after[k]);
                }
            }
        }
        j = j + 1;
    }
    proof {
        assert(ms.take(records@.len() as int) =~= ms);
    }
    groups
}

pub open spec fn total(ys: Seq<u64>) -> int
    decreases ys.len(),
{
    if ys.len() == 0 {
        0
    } else {
        total(ys.drop_last()) + ys.last()
    }
}

/// The arithmetic mean of the durations, rounded down.
pub fn mean(ys: &Vec<u64>) -> (r: u64)
    requires
        ys@.len() > 0,
    ensures
        r == total(ys@) / (ys@.len() as int),
{
    let mut sum: u128 = 0;
    let mut i: usize = 0;
    while i < ys.len()
        invariant
            i <= ys@.len(),
            sum == total(ys@.take(i as int)),
            sum <= i * 0xffff_ffff_ffff_ffffu128,
        decreases ys@.len() - i,
    {
        proof {
            assert(ys@.take(i + 1).drop_last() =~= ys@.take(i as int));
            assert(i * 0xffff_ffff_ffff_ffffu128 + 0xffff_ffff_ffff_ffffu128 == (i + 1)
                * 0xffff_ffff_ffff_ffffu128) by (nonlinear_arith);
            assert(i < 0x1_0000_0000_0000_0000u128);
            assert((i + 1) * 0xffff_ffff_ffff_ffffu128 <= 0x1_0000_0000_0000_0000u128
                * 0xffff_ffff_ffff_ffffu128) by (nonlinear_arith)
                requires
                    i < 0x1_0000_0000_0000_0000u128,
            ;
        }
        sum = sum + ys[i] as u128;
        i = i + 1;
    }
    proof {
        assert(ys@.take(ys@.len() as int) =~= ys@);
        assert(sum <= ys@.len() * 0xffff_ffff_ffff_ffffu128);
        let s = sum as int;
        let l = ys@.len() as int;
        assert(s / l <= 0xffff_ffff_ffff_ffff) by (nonlinear_arith)
            requires
                0 <= s <= l * 0xffff_ffff_ffff_ffff,
                l > 0,
        ;
    }
    (sum / (ys.len() as u128)) as u64
}

/// The smallest and the largest of the durations.
pub fn min_max(ys: &Vec<u64>) -> (r: (u64, u64))
    requires
        ys@.len() > 0,
    ensures
        ys@.contains(r.0),
        ys@.contains(r.1),
        forall|i: int| 0 <= i < ys@.len() ==> r.0 <= #[trigger] ys@[i] <= r.1,
{
    let mut lo: u64 = ys[0];
    let mut hi: u64 = ys[0];
    let mut i: usize = 1;
    while i < ys.len()
        invariant
            1 <= i <= ys@.len(),
            ys@.contains(lo),
            ys@.contains(hi),
            forall|k: int| 0 <= k < i ==> lo <= #[trigger] ys@[k] <= hi,
        decreases ys@.len() - i,
    {
        if ys[i] < lo {
            lo = ys[i];
        }
        if ys[i] > hi {
            hi = ys[i];
        }
        i = i + 1;
    }
    (lo, hi)
}

/// A duration in nanoseconds, shown in the unit that its order of magnitude
/// calls for.
pub struct Time(pub u64);

/// The divisor of the display unit for `v` nanoseconds.
pub open spec fn divisor_for(v: u64) -> u64 {
    if v >= 1_000_000_000 {
        1_000_000_000
    } else if v >= 1_000_000 {
        1_000_000
    } else if v >= 1_000 {
        1_000
    } else {
        1
    }
}

/// The name of the display unit for `v` nanoseconds.
pub open spec fn unit_for(v: u64) -> Seq<char> {
    if v >= 1_000_000_000 {
        "sec"@
    } else if v >= 1_000_000 {
        "millis"@
    } else if v >= 1_000 {
        "micros"@
    } else {
        "nanos"@
    }
}

impl Time {
    /// The display unit of this duration and its divisor in nanoseconds:
    /// seconds from 10^9, milliseconds from 10^6, microseconds from 10^3,
    /// nanoseconds below.
    pub fn get_div_and_postfix(&self) -> (r: (&'static str, u64))
        ensures
            r.0@ == unit_for(self.0),
            r.1 == divisor_for(self.0),
    {
        if self.0 >= 1_000_000_000 {
            ("sec", 1_000_000_000)
        } else if self.0 >= 1_000_000 {
            ("millis", 1_000_000)
        } else if self.0 >= 1_000 {
            ("micros", 1_000)
        } else {
            ("nanos", 1)
        }
    }

    /// The duration in its display unit, rounded down.
    pub fn scaled(&self) -> (r: u64)
        ensures
            r == self.0 / divisor_for(self.0),
    {
        let (_, div) = self.get_div_and_postfix();
        self.0 / div
    }
}

/// Every duration of a group divided by the one divisor that the group's
/// mean selects, so that a group's values share one unit.
pub fn scale_all(ys: &Vec<u64>, div: u64) -> (r: Vec<u64>)
    requires
        div > 0,
    ensures
        r@.len() == ys@.len(),
        forall|i: int| 0 <= i < ys@.len() ==> r@[i] == ys@[i] / div,
{
    let mut r: Vec<u64> = Vec::new();
    let mut i: usize = 0;
    while i < ys.len()
        invariant
            i <= ys@.len(),
            r@.len() == i,
            div > 0,
            forall|k: int| 0 <= k < i ==> r@[k] == ys@[k] / div,
        decreases ys@.len() - i,
    {
        r.push(ys[i] / div);
        i = i + 1;
    }
    r
}

} // verus!
