//! Talkgroups cross-connected into one channel.
//!
//! A patch is a group of talkgroups. Two groups that share a member are one
//! channel, and so is anything reached through a chain of such groups: what a
//! talkgroup is joined to is its connected component.

use vstd::prelude::*;

verus! {

/// Both talkgroups are in one patch group.
pub open spec fn neighbours(patches: Seq<Seq<u32>>, a: u32, b: u32) -> bool {
    exists|i: int| 0 <= i < patches.len() && #[trigger] patches[i].contains(a) && patches[i].contains(b)
}

/// A walk in which every step stays inside one patch group.
pub open spec fn is_walk(patches: Seq<Seq<u32>>, walk: Seq<u32>) -> bool {
    &&& walk.len() > 0
    &&& forall|i: int|
        #![trigger walk[i]]
        0 <= i < walk.len() - 1 ==> neighbours(patches, walk[i], walk[i + 1])
}

/// Some walk leads from one talkgroup to the other.
pub open spec fn connected(patches: Seq<Seq<u32>>, a: u32, b: u32) -> bool {
    exists|walk: Seq<u32>| #[trigger]
        is_walk(patches, walk) && walk.first() == a && walk.last() == b
}

/// `out` followed by those of `group` that it lacks, in the group's order.
pub open spec fn with_members(out: Seq<u32>, group: Seq<u32>) -> Seq<u32>
    decreases group.len(),
{
    if group.len() == 0 {
        out
    } else {
        let rest = with_members(out, group.drop_last());
        if rest.contains(group.last()) {
            rest
        } else {
            rest.push(group.last())
        }
    }
}

pub open spec fn touches(out: Seq<u32>, group: Seq<u32>) -> bool {
    exists|t: u32| out.contains(t) && #[trigger] group.contains(t)
}

/// One pass over the patch table, taking in every group that touches what has
/// been collected by then.
pub open spec fn sweep(out: Seq<u32>, patches: Seq<Seq<u32>>) -> Seq<u32>
    decreases patches.len(),
{
    if patches.len() == 0 {
        out
    } else {
        let rest = sweep(out, patches.drop_last());
        if touches(rest, patches.last()) {
            with_members(rest, patches.last())
        } else {
            rest
        }
    }
}

pub open spec fn passes(patches: Seq<Seq<u32>>, tg: u32, n: nat) -> Seq<u32>
    decreases n,
{
    if n == 0 {
        seq![tg]
    } else {
        sweep(passes(patches, tg, (n - 1) as nat), patches)
    }
}

/// Everything joined to a talkgroup, itself first, in the order in which
/// repeated passes over the table come upon it. As many passes as the table has
/// entries always suffice.
pub open spec fn joined_of(patches: Seq<Seq<u32>>, tg: u32) -> Seq<u32> {
    passes(patches, tg, patches.flatten().len())
}

pub proof fn lemma_with_members(out: Seq<u32>, group: Seq<u32>)
    ensures
        out.is_prefix_of(with_members(out, group)),
        out.no_duplicates() ==> with_members(out, group).no_duplicates(),
        forall|t: u32| #[trigger]
            with_members(out, group).contains(t) <==> out.contains(t) || group.contains(t),
    decreases group.len(),
{
    if group.len() > 0 {
        let rest = with_members(out, group.drop_last());
        lemma_with_members(out, group.drop_last());
        let whole = with_members(out, group);
        assert forall|t: u32| #[trigger] whole.contains(t) <==> out.contains(t) || group.contains(
            t,
        ) by {
            assert(group =~= group.drop_last().push(group.last()));
            if group.contains(t) && t != group.last() {
                let i = choose|i: int| 0 <= i < group.len() && group[i] == t;
                assert(group.drop_last()[i] == t);
            }
            if group.drop_last().contains(t) {
                let i = choose|i: int| 0 <= i < group.drop_last().len() && group.drop_last()[i] == t;
                assert(group[i] == t);
            }
            assert(group[group.len() - 1] == group.last());
            if rest.contains(t) {
                let i = choose|i: int| 0 <= i < rest.len() && rest[i] == t;
                assert(whole[i] == t);
            }
            if t == group.last() && !rest.contains(t) {
                assert(whole[rest.len() as int] == t);
            }
        }
    }
}

/// What a pass keeps, adds, and leaves closed.
proof fn lemma_sweep(out: Seq<u32>, patches: Seq<Seq<u32>>)
    ensures
        out.is_prefix_of(sweep(out, patches)),
        out.no_duplicates() ==> sweep(out, patches).no_duplicates(),
        forall|t: u32| out.contains(t) ==> #[trigger] sweep(out, patches).contains(t),
        forall|t: u32| #[trigger]
            sweep(out, patches).contains(t) ==> out.contains(t) || exists|a: u32, i: int|
                0 <= i < patches.len() && #[trigger] sweep(out, patches.take(i)).contains(a)
                    && #[trigger] patches[i].contains(a) && patches[i].contains(t),
        forall|i: int, a: u32, t: u32|
            #![trigger patches[i].contains(a), patches[i].contains(t)]
            0 <= i < patches.len() && out.contains(a) && patches[i].contains(a)
                && patches[i].contains(t) ==> sweep(out, patches).contains(t),
    decreases patches.len(),
{
    let whole = sweep(out, patches);
    if patches.len() == 0 {
        assert(whole == out);
    } else {
        let init = patches.drop_last();
        let last = patches.last();
        let rest = sweep(out, init);
        lemma_sweep(out, init);
        lemma_with_members(rest, last);
        assert(init == patches.take(patches.len() - 1));
        assert forall|t: u32| rest.contains(t) implies #[trigger] whole.contains(t) by {
        }
        assert forall|t: u32| #[trigger] whole.contains(t) && !out.contains(t) implies exists|
            a: u32,
            i: int,
        |
            0 <= i < patches.len() && #[trigger] sweep(out, patches.take(i)).contains(a)
                && #[trigger] patches[i].contains(a) && patches[i].contains(t) by {
            if rest.contains(t) {
                let (a, i) = choose|a: u32, i: int|
                    0 <= i < init.len() && #[trigger] sweep(out, init.take(i)).contains(a)
                        && #[trigger] init[i].contains(a) && init[i].contains(t);
                assert(init.take(i) =~= patches.take(i));
                assert(sweep(out, patches.take(i)).contains(a) && patches[i].contains(a));
            } else {
                let a = choose|a: u32| rest.contains(a) && #[trigger] last.contains(a);
                let i = patches.len() - 1;
                assert(sweep(out, patches.take(i)).contains(a) && patches[i].contains(a));
            }
        }
        assert forall|i: int, a: u32, t: u32|
            #![trigger patches[i].contains(a), patches[i].contains(t)]
            0 <= i < patches.len() && out.contains(a) && patches[i].contains(a)
                && patches[i].contains(t) implies whole.contains(t) by {
            if i < init.len() {
                assert(init[i].contains(a) && init[i].contains(t));
                assert(rest.contains(t));
            } else {
                assert(rest.contains(a));
                assert(last.contains(a));
                assert(touches(rest, last));
            }
        }
    }
}

proof fn lemma_walk_step(patches: Seq<Seq<u32>>, a: u32, b: u32, c: u32)
    requires
        connected(patches, a, b),
        neighbours(patches, b, c),
    ensures
        connected(patches, a, c),
{
    let walk = choose|walk: Seq<u32>| #[trigger]
        is_walk(patches, walk) && walk.first() == a && walk.last() == b;
    let longer = walk.push(c);
    assert forall|i: int| #![trigger longer[i]] 0 <= i < longer.len() - 1 implies neighbours(
        patches,
        longer[i],
        longer[i + 1],
    ) by {
        if i < walk.len() - 1 {
            assert(longer[i] == walk[i] && longer[i + 1] == walk[i + 1]);
        } else {
            assert(longer[i] == b && longer[i + 1] == c);
        }
    }
    assert(is_walk(patches, longer));
}

proof fn lemma_sweep_connected(patches: Seq<Seq<u32>>, tg: u32, out: Seq<u32>, n: int)
    requires
        0 <= n <= patches.len(),
        forall|t: u32| #[trigger] out.contains(t) ==> connected(patches, tg, t),
    ensures
        forall|t: u32| #[trigger]
            sweep(out, patches.take(n)).contains(t) ==> connected(patches, tg, t),
    decreases n,
{
    let whole = sweep(out, patches.take(n));
    if n > 0 {
        lemma_sweep_connected(patches, tg, out, n - 1);
        let rest = sweep(out, patches.take(n - 1));
        let group = patches[n - 1];
        assert(patches.take(n).drop_last() =~= patches.take(n - 1));
        assert(patches.take(n).last() == group);
        lemma_with_members(rest, group);
        assert forall|t: u32| #[trigger] whole.contains(t) implies connected(patches, tg, t) by {
            if !rest.contains(t) {
                let a = choose|a: u32| rest.contains(a) && #[trigger] group.contains(a);
                assert(patches[n - 1].contains(a) && patches[n - 1].contains(t));
                assert(neighbours(patches, a, t));
                lemma_walk_step(patches, tg, a, t);
            }
        }
    }
}

/// The shape of any number of passes: the talkgroup first, nothing twice, and
/// nothing that is not connected to it.
proof fn lemma_passes(patches: Seq<Seq<u32>>, tg: u32, n: nat)
    ensures
        passes(patches, tg, n).len() > 0,
        passes(patches, tg, n)[0] == tg,
        passes(patches, tg, n).no_duplicates(),
        forall|t: u32| #[trigger]
            passes(patches, tg, n).contains(t) ==> connected(patches, tg, t),
    decreases n,
{
    if n == 0 {
        let walk = seq![tg];
        assert(is_walk(patches, walk));
        assert(walk.first() == tg && walk.last() == tg);
    } else {
        let before = passes(patches, tg, (n - 1) as nat);
        lemma_passes(patches, tg, (n - 1) as nat);
        lemma_sweep(before, patches);
        lemma_sweep_connected(patches, tg, before, patches.len() as int);
        assert(patches.take(patches.len() as int) =~= patches);
    }
}

proof fn lemma_flatten_contains(patches: Seq<Seq<u32>>, i: int, t: u32)
    requires
        0 <= i < patches.len(),
        patches[i].contains(t),
    ensures
        patches.flatten().contains(t),
    decreases patches.len(),
{
    let first = patches.first();
    let rest = patches.drop_first().flatten();
    assert(patches.flatten() == first + rest);
    if i == 0 {
        let j = choose|j: int| 0 <= j < first.len() && first[j] == t;
        assert((first + rest)[j] == t);
    } else {
        lemma_flatten_contains(patches.drop_first(), i - 1, t);
        let j = choose|j: int| 0 <= j < rest.len() && rest[j] == t;
        assert((first + rest)[first.len() + j] == t);
    }
}

/// Passes cannot collect more than the talkgroup and what the table names.
proof fn lemma_passes_bounded(patches: Seq<Seq<u32>>, tg: u32, n: nat)
    ensures
        passes(patches, tg, n).len() <= 1 + patches.flatten().len(),
    decreases n,
{
    let out = passes(patches, tg, n);
    let all = seq![tg] + patches.flatten();
    lemma_passes(patches, tg, n);
    assert forall|t: u32| #[trigger] out.to_set().contains(t) implies all.to_set().contains(t) by {
        if t == tg {
            assert(all[0] == t);
        } else {
            let walk = choose|walk: Seq<u32>| #[trigger]
                is_walk(patches, walk) && walk.first() == tg && walk.last() == t;
            assert(walk.len() > 1);
            let k = walk.len() - 2;
            assert(neighbours(patches, walk[k], walk[k + 1]));
            let i = choose|i: int|
                0 <= i < patches.len() && #[trigger] patches[i].contains(walk[k])
                    && patches[i].contains(walk[k + 1]);
            lemma_flatten_contains(patches, i, t);
            let j = choose|j: int| 0 <= j < patches.flatten().len() && patches.flatten()[j] == t;
            assert(all[1 + j] == t);
        }
    }
    out.unique_seq_to_set();
    all.lemma_cardinality_of_set();
    vstd::set_lib::lemma_len_subset(out.to_set(), all.to_set());
}

/// Once a pass adds nothing, no later pass does.
proof fn lemma_passes_settle(patches: Seq<Seq<u32>>, tg: u32, n: nat, m: nat)
    requires
        n <= m,
        passes(patches, tg, n + 1) == passes(patches, tg, n),
    ensures
        passes(patches, tg, m) == passes(patches, tg, n),
    decreases m,
{
    if m > n {
        lemma_passes_settle(patches, tg, n, (m - 1) as nat);
    }
}

/// Until passes settle, each adds something.
proof fn lemma_passes_grow(patches: Seq<Seq<u32>>, tg: u32, n: nat)
    ensures
        passes(patches, tg, n).len() >= 1 + n || passes(patches, tg, n + 1) == passes(
            patches,
            tg,
            n,
        ),
    decreases n,
{
    if n > 0 {
        let prev = (n - 1) as nat;
        lemma_passes_grow(patches, tg, prev);
        lemma_sweep(passes(patches, tg, prev), patches);
        lemma_sweep(passes(patches, tg, n), patches);
        if passes(patches, tg, n) != passes(patches, tg, prev) {
            assert(passes(patches, tg, n).len() > passes(patches, tg, prev).len()) by {
                if passes(patches, tg, n).len() == passes(patches, tg, prev).len() {
                    assert(passes(patches, tg, n) =~= passes(patches, tg, prev));
                }
            }
        } else {
            lemma_passes_settle(patches, tg, prev, n + 1);
        }
    }
}

proof fn lemma_joined_settled(patches: Seq<Seq<u32>>, tg: u32)
    ensures
        sweep(joined_of(patches, tg), patches) == joined_of(patches, tg),
{
    let n = patches.flatten().len();
    lemma_passes_grow(patches, tg, n);
    lemma_passes_bounded(patches, tg, n);
    lemma_passes_bounded(patches, tg, n + 1);
    lemma_sweep(passes(patches, tg, n), patches);
    if passes(patches, tg, n + 1) != passes(patches, tg, n) {
        assert(passes(patches, tg, n).len() == 1 + n);
        assert(passes(patches, tg, n + 1) =~= passes(patches, tg, n));
    }
}

/// What a talkgroup is joined to is its connected component: the talkgroup
/// comes first, nothing comes twice, and something is there exactly when some
/// chain of patch groups leads to it.
pub proof fn joined_is_the_connected_component(patches: Seq<Seq<u32>>, tg: u32)
    ensures
        joined_of(patches, tg).len() > 0,
        joined_of(patches, tg)[0] == tg,
        joined_of(patches, tg).no_duplicates(),
        forall|t: u32| #[trigger]
            joined_of(patches, tg).contains(t) <==> connected(patches, tg, t),
{
    let all = joined_of(patches, tg);
    lemma_passes(patches, tg, patches.flatten().len());
    lemma_joined_settled(patches, tg);
    lemma_sweep(all, patches);
    assert forall|t: u32| connected(patches, tg, t) implies #[trigger] all.contains(t) by {
        let walk = choose|walk: Seq<u32>| #[trigger]
            is_walk(patches, walk) && walk.first() == tg && walk.last() == t;
        lemma_walk_stays(patches, tg, walk, walk.len() - 1);
    }
}

proof fn lemma_walk_stays(patches: Seq<Seq<u32>>, tg: u32, walk: Seq<u32>, n: int)
    requires
        is_walk(patches, walk),
        walk.first() == tg,
        0 <= n < walk.len(),
    ensures
        joined_of(patches, tg).contains(walk[n]),
    decreases n,
{
    let all = joined_of(patches, tg);
    lemma_passes(patches, tg, patches.flatten().len());
    if n == 0 {
        assert(all[0] == tg);
    } else {
        lemma_walk_stays(patches, tg, walk, n - 1);
        lemma_joined_settled(patches, tg);
        lemma_sweep(all, patches);
        let (a, b) = (walk[n - 1], walk[n]);
        assert(neighbours(patches, a, b));
        let i = choose|i: int|
            0 <= i < patches.len() && #[trigger] patches[i].contains(a) && patches[i].contains(b);
        assert(patches[i].contains(a) && patches[i].contains(b));
    }
}

proof fn lemma_connected_reversed(patches: Seq<Seq<u32>>, a: u32, b: u32)
    requires
        connected(patches, a, b),
    ensures
        connected(patches, b, a),
{
    let walk = choose|walk: Seq<u32>| #[trigger]
        is_walk(patches, walk) && walk.first() == a && walk.last() == b;
    let back = walk.reverse();
    assert forall|i: int| #![trigger back[i]] 0 <= i < back.len() - 1 implies neighbours(
        patches,
        back[i],
        back[i + 1],
    ) by {
        let j = walk.len() - 2 - i;
        assert(neighbours(patches, walk[j], walk[j + 1]));
        assert(back[i] == walk[j + 1] && back[i + 1] == walk[j]);
        let g = choose|g: int|
            0 <= g < patches.len() && #[trigger] patches[g].contains(walk[j])
                && patches[g].contains(walk[j + 1]);
        assert(patches[g].contains(back[i]) && patches[g].contains(back[i + 1]));
    }
    assert(is_walk(patches, back));
    assert(back.first() == b && back.last() == a);
}

proof fn lemma_connected_through(patches: Seq<Seq<u32>>, a: u32, b: u32, c: u32)
    requires
        connected(patches, a, b),
        connected(patches, b, c),
    ensures
        connected(patches, a, c),
{
    let walk = choose|walk: Seq<u32>| #[trigger]
        is_walk(patches, walk) && walk.first() == b && walk.last() == c;
    lemma_walk_extends(patches, a, b, walk, walk.len() - 1);
}

proof fn lemma_walk_extends(patches: Seq<Seq<u32>>, a: u32, b: u32, walk: Seq<u32>, n: int)
    requires
        connected(patches, a, b),
        is_walk(patches, walk),
        walk.first() == b,
        0 <= n < walk.len(),
    ensures
        connected(patches, a, walk[n]),
    decreases n,
{
    if n > 0 {
        lemma_walk_extends(patches, a, b, walk, n - 1);
        assert(neighbours(patches, walk[n - 1], walk[n]));
        lemma_walk_step(patches, a, walk[n - 1], walk[n]);
    }
}

/// Being joined is mutual: if one talkgroup is joined to another, that one is
/// joined to it.
pub proof fn being_joined_is_mutual(patches: Seq<Seq<u32>>, a: u32, b: u32)
    ensures
        joined_of(patches, a).contains(b) <==> joined_of(patches, b).contains(a),
{
    joined_is_the_connected_component(patches, a);
    joined_is_the_connected_component(patches, b);
    if connected(patches, a, b) {
        lemma_connected_reversed(patches, a, b);
    }
    if connected(patches, b, a) {
        lemma_connected_reversed(patches, b, a);
    }
}

/// A patch is transitive: patching one to two and two to three joins one to
/// three.
pub proof fn being_joined_is_transitive(patches: Seq<Seq<u32>>, a: u32, b: u32, c: u32)
    requires
        joined_of(patches, a).contains(b),
        joined_of(patches, b).contains(c),
    ensures
        joined_of(patches, a).contains(c),
{
    joined_is_the_connected_component(patches, a);
    joined_is_the_connected_component(patches, b);
    lemma_connected_through(patches, a, b, c);
}

/// A patch is one channel whichever member is asked about: joined talkgroups
/// are joined to exactly the same talkgroups.
pub proof fn joined_talkgroups_are_one_channel(patches: Seq<Seq<u32>>, a: u32, b: u32)
    requires
        joined_of(patches, a).contains(b),
    ensures
        joined_of(patches, a).to_set() == joined_of(patches, b).to_set(),
{
    being_joined_is_mutual(patches, a, b);
    assert forall|t: u32| joined_of(patches, a).contains(t) <==> joined_of(patches, b).contains(
        t,
    ) by {
        if joined_of(patches, a).contains(t) {
            being_joined_is_transitive(patches, b, a, t);
        }
        if joined_of(patches, b).contains(t) {
            being_joined_is_transitive(patches, a, b, t);
        }
    }
    assert(joined_of(patches, a).to_set() =~= joined_of(patches, b).to_set());
}

/// Without a patch a talkgroup is joined to itself alone.
pub proof fn unpatched_talkgroups_stand_alone(tg: u32)
    ensures
        joined_of(Seq::empty(), tg) == seq![tg],
{
    let none = Seq::<Seq<u32>>::empty();
    assert(none.flatten().len() == 0);
}

fn contains(list: &Vec<u32>, t: u32) -> (b: bool)
    ensures
        b == list@.contains(t),
{
    let mut i: usize = 0;
    while i < list.len()
        invariant
            i <= list.len(),
            forall|j: int| 0 <= j < i ==> list@[j] != t,
        decreases list.len() - i,
    {
        if list[i] == t {
            return true;
        }
        i += 1;
    }
    false
}

fn any_in(group: &Vec<u32>, out: &Vec<u32>) -> (b: bool)
    ensures
        b == touches(out@, group@),
{
    let mut i: usize = 0;
    while i < group.len()
        invariant
            i <= group.len(),
            forall|j: int| 0 <= j < i ==> !out@.contains(#[trigger] group@[j]),
        decreases group.len() - i,
    {
        if contains(out, group[i]) {
            assert(group@.contains(group@[i as int]));
            return true;
        }
        i += 1;
    }
    false
}

/// Adds to a list those of a group that it lacks, in the group's order.
pub fn add_members(out: &mut Vec<u32>, group: &Vec<u32>)
    ensures
        final(out)@ == with_members(old(out)@, group@),
{
    let mut i: usize = 0;
    while i < group.len()
        invariant
            i <= group.len(),
            out@ == with_members(old(out)@, group@.take(i as int)),
        decreases group.len() - i,
    {
        assert(group@.take(i as int + 1).drop_last() =~= group@.take(i as int));
        if !contains(out, group[i]) {
            out.push(group[i]);
        }
        i += 1;
    }
    assert(group@.take(i as int) =~= group@);
}

/// The groups of a patch table, as sequences.
pub open spec fn groups_of(patches: Vec<Vec<u32>>) -> Seq<Seq<u32>> {
    patches@.map_values(|g: Vec<u32>| g@)
}

/// Every talkgroup joined to this one, including itself.
pub fn joined(patches: &Vec<Vec<u32>>, tg: u32) -> (out: Vec<u32>)
    ensures
        out@ == joined_of(groups_of(*patches), tg),
{
    let ghost table = groups_of(*patches);
    let mut out: Vec<u32> = vec![tg];
    let mut grew = true;
    let ghost mut n: nat = 0;
    proof {
        lemma_passes(table, tg, 0);
        assert(out@ =~= seq![tg]);
    }

    while grew
        invariant
            table == groups_of(*patches),
            out@ == passes(table, tg, n),
            grew ==> out@.len() >= 1 + n,
            !grew ==> n > 0 && passes(table, tg, n) == passes(table, tg, (n - 1) as nat),
            !grew ==> n - 1 <= table.flatten().len(),
        decreases 2 + table.flatten().len() - n + (if grew {
            1int
        } else {
            0int
        }),
    {
        proof {
            lemma_passes_bounded(table, tg, n);
        }
        grew = false;
        let ghost before = out@;
        let mut i: usize = 0;
        while i < patches.len()
            invariant
                table == groups_of(*patches),
                i <= patches.len(),
                out@ == sweep(before, table.take(i as int)),
                before.is_prefix_of(out@),
                grew <==> out@.len() > before.len(),
            decreases patches.len() - i,
        {
            let group = &patches[i];
            let ghost upto = out@;
            proof {
                assert(table.take(i as int + 1).drop_last() =~= table.take(i as int));
                assert(table.take(i as int + 1).last() == group@);
                lemma_with_members(upto, group@);
            }
            if any_in(group, &out) {
                let mut j: usize = 0;
                while j < group.len()
                    invariant
                        j <= group.len(),
                        out@ == with_members(upto, group@.take(j as int)),
                        before.is_prefix_of(upto),
                        upto.is_prefix_of(out@),
                        grew <==> out@.len() > before.len(),
                    decreases group.len() - j,
                {
                    proof {
                        assert(group@.take(j as int + 1).drop_last() =~= group@.take(j as int));
                        assert(group@.take(j as int + 1).last() == group@[j as int]);
                    }
                    if !contains(&out, group[j]) {
                        out.push(group[j]);
                        grew = true;
                    }
                    j += 1;
                }
                assert(group@.take(group.len() as int) =~= group@);
            }
            i += 1;
        }
        proof {
            assert(table.take(patches.len() as int) =~= table);
            n = n + 1;
            if !grew {
                assert(out@ =~= before);
            }
        }
    }
    proof {
        let settled = (n - 1) as nat;
        lemma_passes_settle(table, tg, settled, table.flatten().len());
    }
    out
}

} // verus!
