//! Lists of handles: the two edits that child lists undergo, and what the
//! edits keep.

use crate::node_id::NodeId;
use vstd::prelude::*;

verus! {

/// `s` with every occurrence of `c` taken out.
pub open spec fn without(s: Seq<NodeId>, c: NodeId) -> Seq<NodeId>
    decreases s.len(),
{
    if s.len() == 0 {
        s
    } else if s.last() == c {
        without(s.drop_last(), c)
    } else {
        without(s.drop_last(), c).push(s.last())
    }
}

/// `s` with its first occurrence of `from` replaced by `to`.
pub open spec fn replaced(s: Seq<NodeId>, from: NodeId, to: NodeId) -> Seq<NodeId> {
    if s.contains(from) {
        s.update(s.index_of_first(from).unwrap(), to)
    } else {
        s
    }
}

/// `s` with the first occurrences of `a` and of `b` exchanged.
pub open spec fn exchanged(s: Seq<NodeId>, a: NodeId, b: NodeId) -> Seq<NodeId> {
    if s.contains(a) && s.contains(b) {
        s.update(s.index_of_first(a).unwrap(), b).update(s.index_of_first(b).unwrap(), a)
    } else {
        s
    }
}

/// The handle that stands for `x` after `a` and `b` exchanged their names.
pub open spec fn other(a: NodeId, b: NodeId, x: NodeId) -> NodeId {
    if x == a {
        b
    } else if x == b {
        a
    } else {
        x
    }
}

/// `other`, on a link that may be absent.
pub open spec fn other_link(a: NodeId, b: NodeId, link: Option<NodeId>) -> Option<NodeId> {
    match link {
        Some(x) => Some(other(a, b, x)),
        None => None,
    }
}

/// `s` with `a` written for every `b` and `b` for every `a`.
pub open spec fn renamed(s: Seq<NodeId>, a: NodeId, b: NodeId) -> Seq<NodeId> {
    Seq::new(s.len(), |i: int| other(a, b, s[i]))
}

/// What `without` keeps: exactly the entries other than `c`.
pub broadcast proof fn lemma_without_contains(s: Seq<NodeId>, c: NodeId, x: NodeId)
    ensures
        #[trigger] without(s, c).contains(x) <==> (s.contains(x) && x != c),
    decreases s.len(),
{
    if s.len() == 0 {
    } else {
        let init = s.drop_last();
        lemma_without_contains(init, c, x);
        if s.contains(x) {
            let i = choose|i: int| 0 <= i < s.len() && s[i] == x;
            if i < s.len() - 1 {
                assert(init[i] == x);
            }
        }
        if init.contains(x) {
            let i = choose|i: int| 0 <= i < init.len() && init[i] == x;
            assert(s[i] == x);
        }
        if s.last() != c {
            let w = without(init, c);
            assert(w.push(s.last())[w.len() as int] == s.last());
            if w.contains(x) {
                let i = choose|i: int| 0 <= i < w.len() && w[i] == x;
                assert(w.push(s.last())[i] == x);
            }
        }
        assert(s[s.len() - 1] == s.last());
    }
}

/// `without` never lengthens a list.
pub proof fn lemma_without_len(s: Seq<NodeId>, c: NodeId)
    ensures
        without(s, c).len() <= s.len(),
        !s.contains(c) ==> without(s, c) == s,
        s.contains(c) ==> without(s, c).len() < s.len(),
    decreases s.len(),
{
    if s.len() > 0 {
        let init = s.drop_last();
        lemma_without_len(init, c);
        if !s.contains(c) {
            assert(s[s.len() - 1] != c);
            assert forall|i: int| 0 <= i < init.len() implies init[i] != c by {
                assert(s[i] == init[i]);
            }
            assert(without(init, c).push(s.last()) =~= s);
        } else if s.last() != c {
            let i = choose|i: int| 0 <= i < s.len() && s[i] == c;
            assert(init[i] == c);
        }
    }
}

/// A list without repetitions stays so when a handle is taken out.
pub broadcast proof fn lemma_without_no_duplicates(s: Seq<NodeId>, c: NodeId)
    requires
        s.no_duplicates(),
    ensures
        #[trigger] without(s, c).no_duplicates(),
    decreases s.len(),
{
    if s.len() > 0 {
        let init = s.drop_last();
        assert forall|i: int, j: int| 0 <= i < init.len() && 0 <= j < init.len() && i != j implies init[i] != init[j] by {
            assert(init[i] == s[i] && init[j] == s[j]);
        }
        lemma_without_no_duplicates(init, c);
        if s.last() != c {
            let w = without(init, c);
            assert forall|i: int| 0 <= i < w.len() implies w[i] != s.last() by {
                assert(w.contains(w[i]));
                lemma_without_contains(init, c, w[i]);
                let j = choose|j: int| 0 <= j < init.len() && init[j] == w[i];
                assert(s[j] == init[j]);
            }
        }
    }
}

/// Taking a handle out of two lists put together is taking it out of each.
pub proof fn lemma_without_add(a: Seq<NodeId>, b: Seq<NodeId>, c: NodeId)
    ensures
        without(a + b, c) == without(a, c) + without(b, c),
    decreases b.len(),
{
    if b.len() == 0 {
        assert(a + b =~= a);
        assert(without(a, c) + without(b, c) =~= without(a, c));
    } else {
        lemma_without_add(a, b.drop_last(), c);
        assert((a + b).drop_last() =~= a + b.drop_last());
        assert((a + b).last() == b.last());
        if b.last() != c {
            assert((without(a, c) + without(b.drop_last(), c)).push(b.last()) =~= without(a, c)
                + without(b.drop_last(), c).push(b.last()));
        }
    }
}

/// What a list holds after a handle was appended.
pub broadcast proof fn lemma_push_contains(s: Seq<NodeId>, c: NodeId, x: NodeId)
    ensures
        #[trigger] s.push(c).contains(x) <==> (s.contains(x) || x == c),
{
    let t = s.push(c);
    assert(t[s.len() as int] == c);
    if s.contains(x) {
        let i = choose|i: int| 0 <= i < s.len() && s[i] == x;
        assert(t[i] == x);
    }
    if t.contains(x) {
        let i = choose|i: int| 0 <= i < t.len() && t[i] == x;
        if i < s.len() {
            assert(s[i] == x);
        }
    }
}

/// What two lists put together hold.
pub proof fn lemma_add_contains(a: Seq<NodeId>, b: Seq<NodeId>, x: NodeId)
    ensures
        (a + b).contains(x) <==> a.contains(x) || b.contains(x),
{
    let t = a + b;
    if t.contains(x) {
        let i = choose|i: int| 0 <= i < t.len() && t[i] == x;
        if i < a.len() {
            assert(a[i] == x);
        } else {
            assert(b[i - a.len()] == x);
        }
    }
    if a.contains(x) {
        let i = choose|i: int| 0 <= i < a.len() && a[i] == x;
        assert(t[i] == x);
    }
    if b.contains(x) {
        let i = choose|i: int| 0 <= i < b.len() && b[i] == x;
        assert(t[a.len() + i] == x);
    }
}

/// Appending a handle that the list lacks keeps it free of repetitions.
pub broadcast proof fn lemma_push_no_duplicates(s: Seq<NodeId>, c: NodeId)
    requires
        s.no_duplicates(),
        !s.contains(c),
    ensures
        #[trigger] s.push(c).no_duplicates(),
{
    let t = s.push(c);
    assert forall|i: int, j: int| 0 <= i < t.len() && 0 <= j < t.len() && i != j implies t[i]
        != t[j] by {
        if i < s.len() {
            assert(s.contains(s[i]));
        }
        if j < s.len() {
            assert(s.contains(s[j]));
        }
    }
}

/// What a list holds after one of its entries was replaced.
pub broadcast proof fn lemma_replaced_contains(s: Seq<NodeId>, from: NodeId, to: NodeId, x: NodeId)
    requires
        s.no_duplicates(),
        s.contains(from),
    ensures
        #[trigger] replaced(s, from, to).contains(x) <==> (x == to || (s.contains(x) && x
            != from)),
{
    s.index_of_first_ensures(from);
    let at = s.index_of_first(from).unwrap();
    let t = replaced(s, from, to);
    assert(t[at] == to);
    if s.contains(x) && x != from {
        let i = choose|i: int| 0 <= i < s.len() && s[i] == x;
        assert(t[i] == x);
    }
    if t.contains(x) && x != to {
        let i = choose|i: int| 0 <= i < t.len() && t[i] == x;
        assert(s[i] == x);
    }
}

/// Replacing an entry by a handle that the list lacks keeps it free of
/// repetitions.
pub broadcast proof fn lemma_replaced_no_duplicates(s: Seq<NodeId>, from: NodeId, to: NodeId)
    requires
        s.no_duplicates(),
        s.contains(from),
        !s.contains(to) || to == from,
    ensures
        #[trigger] replaced(s, from, to).no_duplicates(),
{
    s.index_of_first_ensures(from);
    let at = s.index_of_first(from).unwrap();
    let t = replaced(s, from, to);
    assert forall|i: int, j: int| 0 <= i < t.len() && 0 <= j < t.len() && i != j implies t[i]
        != t[j] by {
        assert(s.contains(s[i]));
        assert(s.contains(s[j]));
    }
}

/// Exchanging two entries changes neither what a list holds nor whether
/// it repeats an entry.
pub broadcast proof fn lemma_exchanged(s: Seq<NodeId>, a: NodeId, b: NodeId)
    requires
        s.no_duplicates(),
    ensures
        (#[trigger] exchanged(s, a, b)).no_duplicates(),
        forall|x: NodeId| exchanged(s, a, b).contains(x) <==> s.contains(x),
        exchanged(s, a, b).len() == s.len(),
{
    let t = exchanged(s, a, b);
    if s.contains(a) && s.contains(b) {
        s.index_of_first_ensures(a);
        s.index_of_first_ensures(b);
        let ia = s.index_of_first(a).unwrap();
        let ib = s.index_of_first(b).unwrap();
        assert(t[ia] == b);
        assert(t[ib] == a);
        assert forall|i: int, j: int| 0 <= i < t.len() && 0 <= j < t.len() && i != j implies t[i]
            != t[j] by {
            assert(s.contains(s[i]));
            assert(s.contains(s[j]));
        }
        assert forall|x: NodeId| t.contains(x) <==> s.contains(x) by {
            if t.contains(x) {
                let i = choose|i: int| 0 <= i < t.len() && t[i] == x;
                if i != ia && i != ib {
                    assert(s[i] == x);
                }
            }
            if s.contains(x) {
                let i = choose|i: int| 0 <= i < s.len() && s[i] == x;
                if i != ia && i != ib {
                    assert(t[i] == x);
                }
            }
        }
    }
}

/// What a renamed list holds, and that renaming adds no repetition.
pub proof fn lemma_renamed(s: Seq<NodeId>, a: NodeId, b: NodeId)
    ensures
        forall|x: NodeId| #[trigger] renamed(s, a, b).contains(x) <==> s.contains(other(a, b, x)),
        s.no_duplicates() ==> renamed(s, a, b).no_duplicates(),
{
    let t = renamed(s, a, b);
    assert forall|x: NodeId| #[trigger] t.contains(x) <==> s.contains(other(a, b, x)) by {
        if t.contains(x) {
            let i = choose|i: int| 0 <= i < t.len() && t[i] == x;
            assert(s[i] == other(a, b, x));
        }
        if s.contains(other(a, b, x)) {
            let i = choose|i: int| 0 <= i < s.len() && s[i] == other(a, b, x);
            assert(t[i] == x);
        }
    }
}

/// Renaming a list without repetitions is one of the edits: an exchange
/// of two entries, a replacement of one, or nothing.
pub proof fn lemma_renamed_as_edit(s: Seq<NodeId>, a: NodeId, b: NodeId)
    requires
        s.no_duplicates(),
        a != b,
    ensures
        renamed(s, a, b) == if s.contains(a) && s.contains(b) {
            exchanged(s, a, b)
        } else if s.contains(a) {
            replaced(s, a, b)
        } else if s.contains(b) {
            replaced(s, b, a)
        } else {
            s
        },
{
    let t = renamed(s, a, b);
    s.index_of_first_ensures(a);
    s.index_of_first_ensures(b);
    if s.contains(a) && s.contains(b) {
        let e = exchanged(s, a, b);
        assert forall|i: int| 0 <= i < s.len() implies t[i] == e[i] by {
            assert(s.contains(s[i]));
        }
        assert(t =~= e);
    } else if s.contains(a) {
        let e = replaced(s, a, b);
        assert forall|i: int| 0 <= i < s.len() implies t[i] == e[i] by {
            assert(s.contains(s[i]));
        }
        assert(t =~= e);
    } else if s.contains(b) {
        let e = replaced(s, b, a);
        assert forall|i: int| 0 <= i < s.len() implies t[i] == e[i] by {
            assert(s.contains(s[i]));
        }
        assert(t =~= e);
    } else {
        assert forall|i: int| 0 <= i < s.len() implies t[i] == s[i] by {
            assert(s.contains(s[i]));
        }
        assert(t =~= s);
    }
}

/// The facts about edited handle lists that proofs about links lean on.
pub broadcast group group_handles {
    lemma_without_contains,
    lemma_without_no_duplicates,
    lemma_push_contains,
    lemma_push_no_duplicates,
    lemma_replaced_contains,
    lemma_replaced_no_duplicates,
    lemma_exchanged,
}

/// Two lists with the same entries, each as often in one as in the other,
/// hold the same handles, are equally long, and repeat an entry both or
/// neither.
pub proof fn lemma_same_entries(a: Seq<NodeId>, b: Seq<NodeId>)
    requires
        a.to_multiset() == b.to_multiset(),
    ensures
        a.len() == b.len(),
        forall|x: NodeId| a.contains(x) <==> b.contains(x),
        a.no_duplicates() ==> b.no_duplicates(),
{
    a.to_multiset_ensures();
    b.to_multiset_ensures();
    assert forall|x: NodeId| a.contains(x) <==> b.contains(x) by {
        vstd::seq_lib::to_multiset_contains(a, x);
        vstd::seq_lib::to_multiset_contains(b, x);
    }
    if a.no_duplicates() {
        a.lemma_multiset_has_no_duplicates();
        b.lemma_multiset_has_no_duplicates_conv();
    }
}

/// Exchanges the entries at `i` and `j`.
pub fn swap_entries(v: &mut Vec<NodeId>, i: usize, j: usize)
    requires
        i < old(v)@.len(),
        j < old(v)@.len(),
    ensures
        final(v)@ == old(v)@.update(i as int, old(v)@[j as int]).update(
            j as int,
            old(v)@[i as int],
        ),
        final(v)@.len() == old(v)@.len(),
        final(v)@.to_multiset() == old(v)@.to_multiset(),
        forall|k: int| 0 <= k < final(v)@.len() ==> old(v)@.contains(#[trigger] final(v)@[k]),
{
    let a = v[i];
    let b = v[j];
    v[i] = b;
    v[j] = a;
    proof {
        let s = old(v)@;
        let t = s.update(i as int, s[j as int]);
        vstd::seq_lib::to_multiset_update(s, i as int, s[j as int]);
        vstd::seq_lib::to_multiset_update(t, j as int, s[i as int]);
        s.to_multiset_ensures();
        t.to_multiset_ensures();
        assert(v@.to_multiset() =~= s.to_multiset());
        assert forall|k: int| 0 <= k < v@.len() implies s.contains(#[trigger] v@[k]) by {
            if k == i {
                assert(s[j as int] == v@[k]);
            } else if k == j {
                assert(s[i as int] == v@[k]);
            } else {
                assert(s[k] == v@[k]);
            }
        }
    }
}

/// The position of the first occurrence of `id` in `v`, if it occurs.
pub fn position(v: &Vec<NodeId>, id: &NodeId) -> (r: Option<usize>)
    ensures
        match r {
            Some(i) => i < v@.len() && v@[i as int] == *id && forall|j: int|
                0 <= j < i ==> v@[j] != *id,
            None => !v@.contains(*id),
        },
        r.is_some() == v@.contains(*id),
        r matches Some(i) ==> v@.index_of_first(*id) == Some(i as int),
{
    let mut i: usize = 0;
    while i < v.len()
        invariant
            i <= v@.len(),
            forall|j: int| 0 <= j < i ==> v@[j] != *id,
        decreases v@.len() - i,
    {
        if v[i] == *id {
            proof {
                v@.index_of_first_ensures(*id);
            }
            return Some(i);
        }
        i += 1;
    }
    None
}

/// Takes every occurrence of `id` out of `v`.
pub fn remove_all(v: &mut Vec<NodeId>, id: &NodeId)
    ensures
        final(v)@ == without(old(v)@, *id),
{
    let mut kept: Vec<NodeId> = Vec::new();
    let mut i: usize = 0;
    while i < v.len()
        invariant
            i <= v@.len(),
            kept@ == without(v@.take(i as int), *id),
        decreases v@.len() - i,
    {
        proof {
            assert(v@.take(i + 1).drop_last() =~= v@.take(i as int));
        }
        if !(v[i] == *id) {
            kept.push(v[i]);
        }
        i += 1;
    }
    proof {
        assert(v@.take(i as int) =~= v@);
    }
    *v = kept;
}

} // verus!
