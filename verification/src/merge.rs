//! Merging the consecutive entries of a histogram that share a distance.
use vstd::prelude::*;

verus! {

/// The entries that a group stands for: its distance with each of its items.
pub open spec fn group_entries<W>(g: (usize, Vec<W>)) -> Seq<(usize, W)> {
    Seq::new(g.1@.len(), |i: int| (g.0, g.1@[i]))
}

/// The entries of the groups, group after group.
pub open spec fn flatten<W>(gs: Seq<(usize, Vec<W>)>) -> Seq<(usize, W)>
    decreases gs.len(),
{
    if gs.len() == 0 {
        Seq::empty()
    } else {
        flatten(gs.drop_last()) + group_entries(gs.last())
    }
}

/// `gs` groups the entries `s`: read in order, the groups give back `s`;
/// no group is empty; and no two neighbouring groups share a distance.
pub open spec fn is_grouping<W>(s: Seq<(usize, W)>, gs: Seq<(usize, Vec<W>)>) -> bool {
    &&& flatten(gs) == s
    &&& forall|i: int| 0 <= i < gs.len() ==> (#[trigger] gs[i]).1@.len() > 0
    &&& forall|i: int| 0 <= i < gs.len() - 1 ==> (#[trigger] gs[i]).0 != gs[i + 1].0
}

/// The distances of `s` never decrease.
pub open spec fn sorted_by_distance<W>(s: Seq<(usize, W)>) -> bool {
    forall|i: int, j: int| 0 <= i <= j < s.len() ==> (#[trigger] s[i]).0 <= (#[trigger] s[j]).0
}

/// Groups the consecutive entries of `items` that share a distance, in order:
/// each group holds the items of one run, and the caller combines them.
pub fn merge_overlapped<W>(items: Vec<(usize, W)>) -> (r: Vec<(usize, Vec<W>)>)
    ensures
        is_grouping(items@, r@),
{
    let ghost s = items@;
    let n = items.len();
    let mut items = items;
    let mut rev: Vec<(usize, W)> = Vec::new();
    while items.len() > 0
        invariant
            items@.len() + rev@.len() == n == s.len(),
            forall|j: int| 0 <= j < items@.len() ==> #[trigger] items@[j] == s[j],
            forall|j: int| 0 <= j < rev@.len() ==> #[trigger] rev@[j] == s[n - 1 - j],
        decreases items@.len(),
    {
        let x = items.pop().unwrap();
        rev.push(x);
    }
    let mut done: Vec<(usize, Vec<W>)> = Vec::new();
    if n == 0 {
        assert(flatten(done@) =~= s);
        return done;
    }
    let first = rev.pop().unwrap();
    let mut key: usize = first.0;
    let mut cur: Vec<W> = Vec::new();
    cur.push(first.1);
    let mut i: usize = 1;
    assert(flatten(done@.push((key, cur))) =~= s.take(1)) by {
        assert(done@.push((key, cur)).drop_last() =~= done@);
        assert(first == s[0]);
        assert(group_entries((key, cur)) =~= seq![s[0]]);
        assert(flatten(done@) =~= Seq::<(usize, W)>::empty());
        assert(flatten(done@.push((key, cur))) == flatten(done@) + group_entries((key, cur)));
        assert(s.take(1) =~= seq![s[0]]);
    }
    while i < n
        invariant
            1 <= i <= n == s.len(),
            rev@.len() == n - i,
            forall|j: int| 0 <= j < rev@.len() ==> #[trigger] rev@[j] == s[n - 1 - j],
            flatten(done@.push((key, cur))) == s.take(i as int),
            cur@.len() > 0,
            forall|j: int| 0 <= j < done@.len() ==> (#[trigger] done@[j]).1@.len() > 0,
            forall|j: int| 0 <= j < done@.len() - 1 ==> (#[trigger] done@[j]).0 != done@[j + 1].0,
            done@.len() > 0 ==> done@.last().0 != key,
        decreases n - i,
    {
        let x = rev.pop().unwrap();
        assert(x == s[i as int]);
        let ghost old_done = done@;
        let ghost old_cur = cur;
        if x.0 == key {
            cur.push(x.1);
            proof {
                assert(old_done.push((key, cur)).drop_last() =~= old_done);
                assert(old_done.push((key, old_cur)).drop_last() =~= old_done);
                assert(group_entries((key, cur)) =~= group_entries((key, old_cur)).push(x));
                assert(s.take(i + 1) =~= s.take(i as int).push(s[i as int]));
            }
        } else {
            let finished = (key, cur);
            done.push(finished);
            key = x.0;
            cur = Vec::new();
            cur.push(x.1);
            proof {
                assert(done@.push((key, cur)).drop_last() =~= done@);
                assert(done@.drop_last() =~= old_done);
                assert(group_entries((key, cur)) =~= seq![x]);
                assert(s.take(i + 1) =~= s.take(i as int).push(s[i as int]));
            }
        }
        i = i + 1;
    }
    done.push((key, cur));
    assert(s.take(n as int) =~= s);
    done
}


proof fn lemma_flatten_append<W>(a: Seq<(usize, Vec<W>)>, b: Seq<(usize, Vec<W>)>)
    ensures
        flatten(a + b) == flatten(a) + flatten(b),
    decreases b.len(),
{
    if b.len() == 0 {
        assert(a + b =~= a);
        assert(flatten(a) + flatten(b) =~= flatten(a));
    } else {
        lemma_flatten_append(a, b.drop_last());
        assert((a + b).drop_last() =~= a + b.drop_last());
        assert((a + b).last() == b.last());
        assert(flatten(a) + flatten(b) =~= flatten(a) + flatten(b.drop_last()) + group_entries(
            b.last(),
        ));
    }
}

proof fn lemma_adjacent_groups<W>(s: Seq<(usize, W)>, gs: Seq<(usize, Vec<W>)>, i: int)
    requires
        is_grouping(s, gs),
        sorted_by_distance(s),
        0 <= i < gs.len() - 1,
    ensures
        gs[i].0 < gs[i + 1].0,
{
    let front = gs.take(i + 1);
    let back = gs.skip(i + 1);
    assert(front + back =~= gs);
    lemma_flatten_append(front, back);
    assert(front.drop_last() =~= gs.take(i));
    assert(front.last() == gs[i]);
    let f = flatten(front);
    let e = group_entries(gs[i]);
    assert(f == flatten(gs.take(i)) + e);
    assert(gs[i].1@.len() > 0);
    let a = f.len() - 1;
    assert(f[a] == e[e.len() - 1]);
    assert(s[a] == f[a]);
    // the first entry after `front` belongs to group `i + 1`
    let b2 = back.take(1);
    assert(b2 + back.skip(1) =~= back);
    lemma_flatten_append(b2, back.skip(1));
    assert(b2.drop_last() =~= Seq::<(usize, Vec<W>)>::empty());
    assert(flatten(b2.drop_last()) =~= Seq::<(usize, W)>::empty());
    assert(b2.last() == gs[i + 1]);
    assert(flatten(b2) =~= group_entries(gs[i + 1]));
    assert(gs[i + 1].1@.len() > 0);
    assert(flatten(back)[0] == group_entries(gs[i + 1])[0]);
    assert(s[a + 1] == flatten(back)[0]);
    assert(s[a].0 <= s[a + 1].0);
}

/// Merging entries whose distances never decrease leaves groups whose
/// distances strictly increase: no distance occurs twice.
pub proof fn lemma_sorted_groups_increase<W>(s: Seq<(usize, W)>, gs: Seq<(usize, Vec<W>)>)
    requires
        is_grouping(s, gs),
        sorted_by_distance(s),
    ensures
        forall|i: int, j: int| 0 <= i < j < gs.len() ==> (#[trigger] gs[i]).0 < (#[trigger] gs[j]).0,
{
    assert forall|i: int, j: int| 0 <= i < j < gs.len() implies (#[trigger] gs[i]).0 < (
    #[trigger] gs[j]).0 by {
        lemma_groups_chain(s, gs, i, j);
    }
}

proof fn lemma_groups_chain<W>(s: Seq<(usize, W)>, gs: Seq<(usize, Vec<W>)>, i: int, j: int)
    requires
        is_grouping(s, gs),
        sorted_by_distance(s),
        0 <= i < j < gs.len(),
    ensures
        gs[i].0 < gs[j].0,
    decreases j - i,
{
    lemma_adjacent_groups(s, gs, j - 1);
    if i < j - 1 {
        lemma_groups_chain(s, gs, i, j - 1);
    }
}


proof fn lemma_flatten_singletons<W>(gs: Seq<(usize, Vec<W>)>)
    requires
        forall|i: int| 0 <= i < gs.len() ==> (#[trigger] gs[i]).1@.len() == 1,
    ensures
        flatten(gs).len() == gs.len(),
        forall|i: int| 0 <= i < gs.len() ==> #[trigger] flatten(gs)[i] == (gs[i].0, gs[i].1@[0]),
    decreases gs.len(),
{
    if gs.len() > 0 {
        let front = gs.drop_last();
        assert forall|i: int| 0 <= i < front.len() implies (#[trigger] front[i]).1@.len() == 1 by {
            assert(front[i] == gs[i]);
        }
        lemma_flatten_singletons(front);
        assert(gs.last() == gs[gs.len() - 1]);
        assert(group_entries(gs.last()).len() == 1);
        assert forall|i: int| 0 <= i < gs.len() implies #[trigger] flatten(gs)[i] == (
            gs[i].0,
            gs[i].1@[0],
        ) by {
            if i < gs.len() - 1 {
                assert(front[i] == gs[i]);
                assert(flatten(gs)[i] == flatten(front)[i]);
            } else {
                assert(flatten(gs)[i] == group_entries(gs.last())[0]);
            }
        }
    }
}

/// Merging entries whose neighbouring distances already differ merges
/// nothing: every group holds exactly the one entry at its position. So
/// merging what a merge gave back changes nothing but the wrapping.
pub proof fn lemma_merge_of_distinct_neighbours<W>(s: Seq<(usize, W)>, gs: Seq<(usize, Vec<W>)>)
    requires
        is_grouping(s, gs),
        forall|i: int| 0 <= i < s.len() - 1 ==> (#[trigger] s[i]).0 != s[i + 1].0,
    ensures
        gs.len() == s.len(),
        forall|i: int| 0 <= i < gs.len() ==> (#[trigger] gs[i]).0 == s[i].0 && gs[i].1@ == seq![s[i].1],
{
    assert forall|i: int| 0 <= i < gs.len() implies (#[trigger] gs[i]).1@.len() == 1 by {
        if gs[i].1@.len() >= 2 {
            let front = gs.take(i);
            let back = gs.skip(i);
            assert(front + back =~= gs);
            lemma_flatten_append(front, back);
            let b1 = back.take(1);
            assert(b1 + back.skip(1) =~= back);
            lemma_flatten_append(b1, back.skip(1));
            assert(b1.drop_last() =~= Seq::<(usize, Vec<W>)>::empty());
            assert(flatten(b1.drop_last()) =~= Seq::<(usize, W)>::empty());
            assert(b1.last() == gs[i]);
            assert(flatten(b1) =~= group_entries(gs[i]));
            let a = flatten(front).len() as int;
            let e = group_entries(gs[i]);
            assert(s[a] == e[0]);
            assert(s[a + 1] == e[1]);
        }
    }
    lemma_flatten_singletons(gs);
    assert forall|i: int| 0 <= i < gs.len() implies (#[trigger] gs[i]).0 == s[i].0 && gs[i].1@ == seq![
        s[i].1,
    ] by {
        assert(flatten(gs)[i] == (gs[i].0, gs[i].1@[0]));
        assert(gs[i].1@ =~= seq![gs[i].1@[0]]);
    }
}

} // verus!
