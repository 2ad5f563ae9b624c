//! Alphabetical order: of the satellites in the list, and of the groups of telemetry
//! fields.
use vstd::prelude::*;
use crate::model::TelemetryField;
use crate::words::chars_of;

verus! {

/// One text stands before another in dictionary order, by the numbers of their
/// characters.
pub open spec fn before(a: Seq<char>, b: Seq<char>) -> bool
    decreases a.len(),
{
    if b.len() == 0 {
        false
    } else if a.len() == 0 {
        true
    } else if a[0] == b[0] {
        before(a.drop_first(), b.drop_first())
    } else {
        a[0] < b[0]
    }
}

/// Of two texts, one stands before the other, or they are the same.
pub proof fn law_order_is_total(a: Seq<char>, b: Seq<char>)
    ensures
        before(a, b) || before(b, a) || a == b,
        !(before(a, b) && before(b, a)),
        a == b ==> !before(a, b),
    decreases a.len(),
{
    if a.len() > 0 && b.len() > 0 {
        if a[0] == b[0] {
            law_order_is_total(a.drop_first(), b.drop_first());
            if a.drop_first() == b.drop_first() {
                assert(a =~= seq![a[0]] + a.drop_first());
                assert(b =~= seq![b[0]] + b.drop_first());
            }
        }
    } else if a.len() == 0 && b.len() == 0 {
        assert(a =~= b);
    }
}

/// The order is transitive.
pub proof fn law_order_is_transitive(a: Seq<char>, b: Seq<char>, c: Seq<char>)
    requires
        before(a, b),
        before(b, c),
    ensures
        before(a, c),
    decreases a.len(),
{
    if a.len() > 0 && a[0] == b[0] && b[0] == c[0] {
        law_order_is_transitive(a.drop_first(), b.drop_first(), c.drop_first());
    }
}

fn stands_before(a: &[char], b: &[char]) -> (r: bool)
    ensures
        r == before(a@, b@),
{
    let mut i: usize = 0;
    assert(a@.skip(0) =~= a@);
    assert(b@.skip(0) =~= b@);
    while i < a.len() && i < b.len()
        invariant
            i <= a@.len(),
            i <= b@.len(),
            before(a@, b@) == before(a@.skip(i as int), b@.skip(i as int)),
        decreases a@.len() - i,
    {
        if a[i] != b[i] {
            return a[i] < b[i];
        }
        assert(a@.skip(i as int).drop_first() =~= a@.skip(i + 1));
        assert(b@.skip(i as int).drop_first() =~= b@.skip(i + 1));
        i = i + 1;
    }
    i < b.len()
}

/// One name stands before another in the list; equal ones keep their places.
pub open spec fn goes_first(names: Seq<String>, i: int, j: int) -> bool {
    before(names[i]@, names[j]@) || (names[i]@ == names[j]@ && i < j)
}

/// The positions of the names in dictionary order: every position once, equal names
/// in their given order.
pub open spec fn is_order(names: Seq<String>, order: Seq<usize>, n: int) -> bool {
    &&& order.len() == n
    &&& forall|k: int| 0 <= k < n ==> #[trigger] order[k] < n
    &&& forall|i: int| 0 <= i < n ==> #[trigger] order.contains(i as usize)
    &&& forall|a: int, b: int|
        0 <= a < b < n ==> #[trigger] goes_first(names, order[a] as int, order[b] as int)
}

fn place_of(names: &Vec<String>, order: &Vec<usize>, name: &Vec<char>) -> (k: usize)
    requires
        is_order(names@, order@, order@.len() as int),
        order@.len() < names@.len(),
    ensures
        k <= order@.len(),
        forall|j: int| 0 <= j < k ==> !before(name@, #[trigger] names@[order@[j] as int]@),
        k < order@.len() ==> before(name@, names@[order@[k as int] as int]@),
{
    let mut k: usize = 0;
    while k < order.len()
        invariant
            k <= order@.len(),
            order@.len() < names@.len(),
            is_order(names@, order@, order@.len() as int),
            forall|j: int| 0 <= j < k ==> !before(name@, #[trigger] names@[order@[j] as int]@),
        decreases order@.len() - k,
    {
        let other = chars_of(names[order[k]].as_str());
        if stands_before(name.as_slice(), other.as_slice()) {
            return k;
        }
        k = k + 1;
    }
    k
}

proof fn lemma_inserted(names: Seq<String>, order: Seq<usize>, m: usize, k: int)
    requires
        is_order(names, order, m as int),
        m < names.len(),
        0 <= k <= m,
        forall|j: int| 0 <= j < k ==> !before(names[m as int]@, #[trigger] names[order[j] as int]@),
        k < m ==> before(names[m as int]@, names[order[k] as int]@),
    ensures
        is_order(names, order.insert(k, m), m + 1),
{
    let new = order.insert(k, m);
    let name = names[m as int]@;
    assert forall|j: int| 0 <= j < m + 1 implies #[trigger] new[j] < m + 1 by {
        if j < k {
            assert(new[j] == order[j]);
        } else if j > k {
            assert(new[j] == order[j - 1]);
        }
    }
    assert forall|i: int| 0 <= i < m + 1 implies #[trigger] new.contains(i as usize) by {
        if i == m {
            assert(new[k] == m);
        } else {
            assert(order.contains(i as usize));
            let j = choose|j: int| 0 <= j < order.len() && order[j] == i as usize;
            if j < k {
                assert(new[j] == i as usize);
            } else {
                assert(new[j + 1] == i as usize);
            }
        }
    }
    assert forall|a: int, b: int| 0 <= a < b < m + 1 implies #[trigger] goes_first(
        names,
        new[a] as int,
        new[b] as int,
    ) by {
        if b < k {
            assert(goes_first(names, order[a] as int, order[b] as int));
        } else if a > k {
            assert(goes_first(names, order[a - 1] as int, order[b - 1] as int));
        } else if b == k {
            let other = names[order[a] as int]@;
            assert(!before(name, other));
            law_order_is_total(name, other);
        } else if a == k {
            let other = names[order[b - 1] as int]@;
            let first = names[order[k] as int]@;
            if b - 1 > k {
                assert(goes_first(names, order[k] as int, order[b - 1] as int));
                if before(first, other) {
                    law_order_is_transitive(name, first, other);
                }
            }
        } else {
            assert(goes_first(names, order[a] as int, order[b - 1] as int));
        }
    }
}

/// The positions of the names in dictionary order. Equal names keep their order.
pub fn name_order(names: &Vec<String>) -> (order: Vec<usize>)
    ensures
        is_order(names@, order@, names@.len() as int),
{
    let mut order: Vec<usize> = Vec::new();
    let mut m: usize = 0;
    while m < names.len()
        invariant
            m <= names@.len(),
            is_order(names@, order@, m as int),
        decreases names@.len() - m,
    {
        let name = chars_of(names[m].as_str());
        let k: usize = place_of(names, &order, &name);
        proof {
            lemma_inserted(names@, order@, m, k as int);
        }
        order.insert(k, m);
        m = m + 1;
    }
    order
}

/// Telemetry fields of one group.
#[derive(Debug)]
pub struct FieldGroup {
    /// Name of the group.
    pub name: String,
    /// Positions of its fields.
    pub fields: Vec<usize>,
}

/// The positions of the first `n` fields that belong to a group.
pub open spec fn positions(fields: Seq<TelemetryField>, name: Seq<char>, n: nat) -> Seq<usize>
    decreases n,
{
    if n == 0 {
        Seq::empty()
    } else if fields[n - 1].group@ == name {
        positions(fields, name, (n - 1) as nat).push((n - 1) as usize)
    } else {
        positions(fields, name, (n - 1) as nat)
    }
}

/// Some group has this name.
pub open spec fn has_group(groups: Seq<FieldGroup>, name: Seq<char>) -> bool {
    exists|g: int| 0 <= g < groups.len() && #[trigger] groups[g].name@ == name
}

/// The groups of the first `n` fields: in dictionary order, each with the positions of
/// its fields, none of them empty, and every field in one.
pub open spec fn is_grouping(fields: Seq<TelemetryField>, groups: Seq<FieldGroup>, n: nat) -> bool {
    &&& forall|a: int, b: int|
        0 <= a < b < groups.len() ==> #[trigger] before(groups[a].name@, groups[b].name@)
    &&& forall|g: int|
        #![trigger groups[g]]
        0 <= g < groups.len() ==> groups[g].fields@ == positions(fields, groups[g].name@, n)
            && groups[g].fields@.len() > 0
    &&& forall|i: int| 0 <= i < n ==> has_group(groups, #[trigger] fields[i].group@)
}

/// The position of the group with this name, or of the first one behind it.
fn group_place(groups: &Vec<FieldGroup>, name: &Vec<char>) -> (res: (usize, bool))
    requires
        forall|a: int, b: int|
            0 <= a < b < groups@.len() ==> #[trigger] before(groups@[a].name@, groups@[b].name@),
    ensures
        res.0 <= groups@.len(),
        forall|j: int| 0 <= j < res.0 ==> before(#[trigger] groups@[j].name@, name@),
        res.1 ==> res.0 < groups@.len() && groups@[res.0 as int].name@ == name@,
        !res.1 && res.0 < groups@.len() ==> before(name@, groups@[res.0 as int].name@),
{
    let mut k: usize = 0;
    while k < groups.len()
        invariant
            k <= groups@.len(),
            forall|j: int| 0 <= j < k ==> before(#[trigger] groups@[j].name@, name@),
        decreases groups@.len() - k,
    {
        let other = chars_of(groups[k].name.as_str());
        proof {
            law_order_is_total(name@, other@);
        }
        if !stands_before(other.as_slice(), name.as_slice()) {
            return (k, !stands_before(name.as_slice(), other.as_slice()));
        }
        k = k + 1;
    }
    (k, false)
}

proof fn lemma_no_positions(fields: Seq<TelemetryField>, name: Seq<char>, n: nat)
    requires
        forall|i: int| 0 <= i < n ==> (#[trigger] fields[i]).group@ != name,
    ensures
        positions(fields, name, n).len() == 0,
    decreases n,
{
    if n > 0 {
        lemma_no_positions(fields, name, (n - 1) as nat);
    }
}

/// The groups of telemetry fields, in dictionary order of their names, with their
/// fields in the order in which they were read.
pub fn group_fields(fields: &Vec<TelemetryField>) -> (groups: Vec<FieldGroup>)
    ensures
        is_grouping(fields@, groups@, fields@.len()),
{
    let mut groups: Vec<FieldGroup> = Vec::new();
    let mut i: usize = 0;
    while i < fields.len()
        invariant
            i <= fields@.len(),
            is_grouping(fields@, groups@, i as nat),
        decreases fields@.len() - i,
    {
        let name = chars_of(fields[i].group.as_str());
        let (k, found) = group_place(&groups, &name);
        let ghost old_groups = groups@;
        if found {
            let mut group = groups.remove(k);
            group.fields.push(i);
            groups.insert(k, group);
            proof {
                let all = groups@;
                assert(all.len() == old_groups.len());
                assert forall|g: int| 0 <= g < all.len() implies #[trigger] all[g].name@
                    == old_groups[g].name@ by {}
                assert forall|g: int| #![trigger all[g]] 0 <= g < all.len() implies all[g].fields@
                    == positions(fields@, all[g].name@, (i + 1) as nat) && all[g].fields@.len()
                    > 0 by {
                    assert(old_groups[g].fields@ == positions(
                        fields@,
                        old_groups[g].name@,
                        i as nat,
                    ));
                    if g == k {
                        assert(all[g].fields@ =~= old_groups[g].fields@.push(i));
                    } else {
                        assert(all[g] == old_groups[g]);
                        if g < k {
                            assert(before(old_groups[g].name@, old_groups[k as int].name@));
                        } else {
                            assert(before(old_groups[k as int].name@, old_groups[g].name@));
                        }
                        law_order_is_total(old_groups[g].name@, name@);
                        law_order_is_total(name@, old_groups[g].name@);
                    }
                }
                assert forall|j: int| 0 <= j < i + 1 implies has_group(
                    all,
                    #[trigger] fields@[j].group@,
                ) by {
                    if j < i {
                        assert(has_group(old_groups, fields@[j].group@));
                        let g = choose|g: int|
                            0 <= g < old_groups.len() && #[trigger] old_groups[g].name@
                                == fields@[j].group@;
                        assert(all[g].name@ == fields@[j].group@);
                    } else {
                        assert(all[k as int].name@ == fields@[j].group@);
                    }
                }
                assert forall|a: int, b: int| 0 <= a < b < all.len() implies #[trigger] before(
                    all[a].name@,
                    all[b].name@,
                ) by {
                    assert(before(old_groups[a].name@, old_groups[b].name@));
                }
            }
        } else {
            let mut list: Vec<usize> = Vec::new();
            list.push(i);
            let group = FieldGroup { name: fields[i].group.clone(), fields: list };
            groups.insert(k, group);
            proof {
                let all = groups@;
                assert(all =~= old_groups.insert(k as int, all[k as int]));
                assert(all[k as int].name@ == name@);
                assert forall|g: int|
                    0 <= g < old_groups.len() implies (#[trigger] old_groups[g]).name@ != name@ by {
                    law_order_is_total(old_groups[g].name@, name@);
                    law_order_is_total(name@, old_groups[g].name@);
                    if g > k {
                        assert(before(old_groups[k as int].name@, old_groups[g].name@));
                        law_order_is_transitive(
                            name@,
                            old_groups[k as int].name@,
                            old_groups[g].name@,
                        );
                    }
                }
                assert forall|j: int| 0 <= j < i implies (#[trigger] fields@[j]).group@
                    != name@ by {
                    assert(has_group(old_groups, fields@[j].group@));
                }
                lemma_no_positions(fields@, name@, i as nat);
                assert forall|g: int| #![trigger all[g]] 0 <= g < all.len() implies all[g].fields@
                    == positions(fields@, all[g].name@, (i + 1) as nat) && all[g].fields@.len()
                    > 0 by {
                    if g < k {
                        assert(all[g] == old_groups[g]);
                    } else if g > k {
                        assert(all[g] == old_groups[g - 1]);
                    } else {
                        assert(all[g].fields@ =~= positions(fields@, name@, (i + 1) as nat));
                    }
                }
                assert forall|j: int| 0 <= j < i + 1 implies has_group(
                    all,
                    #[trigger] fields@[j].group@,
                ) by {
                    if j < i {
                        assert(has_group(old_groups, fields@[j].group@));
                        let g = choose|g: int|
                            0 <= g < old_groups.len() && #[trigger] old_groups[g].name@
                                == fields@[j].group@;
                        if g < k {
                            assert(all[g] == old_groups[g]);
                            assert(all[g].name@ == fields@[j].group@);
                        } else {
                            assert(all[g + 1] == old_groups[g]);
                            assert(all[g + 1].name@ == fields@[j].group@);
                        }
                    } else {
                        assert(all[k as int].name@ == fields@[j].group@);
                    }
                }
                assert forall|a: int, b: int| 0 <= a < b < all.len() implies #[trigger] before(
                    all[a].name@,
                    all[b].name@,
                ) by {
                    if b < k {
                        assert(before(old_groups[a].name@, old_groups[b].name@));
                    } else if a > k {
                        assert(before(old_groups[a - 1].name@, old_groups[b - 1].name@));
                    } else if b == k {
                        assert(before(old_groups[a].name@, name@));
                    } else if a == k {
                        if b - 1 > k {
                            assert(before(old_groups[k as int].name@, old_groups[b - 1].name@));
                            law_order_is_transitive(
                                name@,
                                old_groups[k as int].name@,
                                old_groups[b - 1].name@,
                            );
                        }
                    } else {
                        assert(before(old_groups[a].name@, old_groups[b - 1].name@));
                    }
                }
            }
        }
        i = i + 1;
    }
    groups
}

} // verus!
