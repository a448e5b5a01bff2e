//! The blocklist proper: membership up to ASCII case, sorted insertion,
//! and the decision of what a run must do to the persisted list.

use vstd::prelude::*;

use crate::order::{
    eq_ignore_ascii_case, lemma_lex_le_total, lemma_lex_le_trans, lex_le, name_eq_ic, name_le,
};

verus! {

/// A name is listed when some entry equals it up to ASCII case.
pub open spec fn contains_ic(list: Seq<Seq<char>>, name: Seq<char>) -> bool {
    exists|i: int| 0 <= i < list.len() && #[trigger] name_eq_ic(list[i], name)
}

/// The list is sorted by `lex_le`.
pub open spec fn sorted_names(list: Seq<Seq<char>>) -> bool {
    forall|i: int, j: int| 0 <= i < j < list.len() ==> #[trigger] lex_le(list[i], list[j])
}

/// Whether `name` is already on `list`, compared ignoring ASCII case.
pub fn contains_ignore_case(list: &Vec<String>, name: &str) -> (r: bool)
    ensures
        r == contains_ic(list.deep_view(), name@),
{
    let n = list.len();
    let mut i: usize = 0;
    while i < n
        invariant
            n == list@.len(),
            i <= n,
            forall|j: int| 0 <= j < i ==> !(#[trigger] name_eq_ic(list.deep_view()[j], name@)),
        decreases n - i,
    {
        if eq_ignore_ascii_case(list[i].as_str(), name) {
            assert(name_eq_ic(list.deep_view()[i as int], name@));
            return true;
        }
        i += 1;
    }
    false
}

/// First index at which `name` may be inserted while keeping the order:
/// every entry before it is `lex_le` the name, and the entry at it (if any)
/// is not.
fn insertion_point(list: &Vec<String>, name: &str) -> (idx: usize)
    ensures
        idx <= list@.len(),
        forall|j: int| 0 <= j < idx ==> #[trigger] lex_le(list.deep_view()[j], name@),
        idx < list@.len() ==> !lex_le(list.deep_view()[idx as int], name@),
{
    let n = list.len();
    let mut i: usize = 0;
    while i < n
        invariant
            n == list@.len(),
            i <= n,
            forall|j: int| 0 <= j < i ==> #[trigger] lex_le(list.deep_view()[j], name@),
        decreases n - i,
    {
        if !name_le(list[i].as_str(), name) {
            return i;
        }
        i += 1;
    }
    i
}

/// Inserts `name` into the sorted `list`, keeping it sorted; the entries
/// afterwards are exactly the old entries plus `name`.
pub fn insert_in_order(list: &mut Vec<String>, name: String)
    requires
        sorted_names(old(list).deep_view()),
    ensures
        sorted_names(final(list).deep_view()),
        final(list).deep_view().to_multiset() == old(list).deep_view().to_multiset().insert(
            name@,
        ),
{
    broadcast use vstd::seq_lib::to_multiset_insert;

    let ghost before = old(list).deep_view();
    let idx = insertion_point(list, name.as_str());
    proof {
        if (idx as int) < before.len() {
            lemma_lex_le_total(before[idx as int], name@);
        }
    }
    list.insert(idx, name);
    proof {
        let after = list.deep_view();
        assert(after =~= before.insert(idx as int, name@));
        assert forall|i: int, j: int|
            0 <= i < j < after.len() implies #[trigger] lex_le(after[i], after[j]) by {
            if j < idx {
                assert(lex_le(before[i], before[j]));
            } else if j == idx {
                assert(lex_le(before[i], name@));
            } else if i == idx {
                assert(lex_le(name@, before[idx as int]));
                if j - 1 > idx {
                    lemma_lex_le_trans(name@, before[idx as int], before[j - 1]);
                }
            } else if i < idx {
                assert(lex_le(before[i], before[j - 1]));
            } else {
                assert(lex_le(before[i - 1], before[j - 1]));
            }
        }
        assert(before.insert(idx as int, name@).to_multiset() == before.to_multiset().insert(
            name@,
        ));
    }
}

/// Sorts the entries by `lex_le`; the result holds exactly the given
/// entries.
pub fn sort_names(list: Vec<String>) -> (r: Vec<String>)
    ensures
        sorted_names(r.deep_view()),
        r.deep_view().to_multiset() == list.deep_view().to_multiset(),
{
    let n = list.len();
    let mut out: Vec<String> = Vec::new();
    proof {
        assert(out.deep_view() =~= Seq::<Seq<char>>::empty());
        assert(list.deep_view().subrange(0, 0) =~= Seq::<Seq<char>>::empty());
    }
    let mut i: usize = 0;
    while i < n
        invariant
            n == list@.len(),
            i <= n,
            sorted_names(out.deep_view()),
            out.deep_view().to_multiset() == list.deep_view().subrange(0, i as int).to_multiset(),
        decreases n - i,
    {
        let ghost prev = out.deep_view();
        let ghost entry = list.deep_view()[i as int];
        let s = list[i].clone();
        proof {
            assert(s@ == entry);
        }
        insert_in_order(&mut out, s);
        proof {
            assert(out.deep_view().to_multiset() == prev.to_multiset().insert(entry));
            assert(list.deep_view().subrange(0, i as int + 1) =~= list.deep_view().subrange(
                0,
                i as int,
            ).push(entry));
            vstd::seq_lib::to_multiset_build(list.deep_view().subrange(0, i as int), entry);
        }
        i += 1;
    }
    proof {
        assert(list.deep_view().subrange(0, n as int) =~= list.deep_view());
    }
    out
}

/// No two entries of the list are equal up to ASCII case: the invariant
/// of the persisted blocklist.
pub open spec fn no_ci_duplicates(list: Seq<Seq<char>>) -> bool {
    forall|i: int, j: int|
        0 <= i < j < list.len() ==> !(#[trigger] name_eq_ic(list[i], list[j]))
}

/// A value sitting at two distinct indices is counted at least twice.
proof fn lemma_count_at_least_two(s: Seq<Seq<char>>, i: int, j: int)
    requires
        0 <= i < j < s.len(),
        s[i] == s[j],
    ensures
        s.to_multiset().count(s[i]) >= 2,
{
    broadcast use vstd::multiset::group_multiset_axioms;

    vstd::seq_lib::to_multiset_remove(s, i);
    assert(s.remove(i)[j - 1] == s[j]);
    assert(s.remove(i).contains(s[i]));
    vstd::seq_lib::to_multiset_contains(s.remove(i), s[i]);
}

/// A value counted at least twice sits at two distinct indices.
proof fn lemma_two_indices(s: Seq<Seq<char>>, v: Seq<char>) -> (r: (int, int))
    requires
        s.to_multiset().count(v) >= 2,
    ensures
        0 <= r.0 < s.len(),
        0 <= r.1 < s.len(),
        r.0 != r.1,
        s[r.0] == v,
        s[r.1] == v,
{
    broadcast use vstd::multiset::group_multiset_axioms;

    vstd::seq_lib::to_multiset_contains(s, v);
    assert(s.contains(v));
    let k = choose|k: int| 0 <= k < s.len() && s[k] == v;
    vstd::seq_lib::to_multiset_remove(s, k);
    vstd::seq_lib::to_multiset_contains(s.remove(k), v);
    assert(s.remove(k).to_multiset().count(v) >= 1);
    assert(s.remove(k).contains(v));
    let m = choose|m: int| 0 <= m < s.remove(k).len() && s.remove(k)[m] == v;
    let m2: int = if m < k {
        m
    } else {
        m + 1
    };
    assert(s[m2] == v);
    (k, m2)
}

/// Two lists with the same entries: if one is free of case-insensitive
/// duplicates, so is the other. Sorting in particular keeps the
/// blocklist invariant.
pub proof fn lemma_same_entries_keep_invariant(a: Seq<Seq<char>>, b: Seq<Seq<char>>)
    requires
        a.to_multiset() == b.to_multiset(),
        no_ci_duplicates(a),
    ensures
        no_ci_duplicates(b),
{
    assert forall|i: int, j: int|
        0 <= i < j < b.len() implies !(#[trigger] name_eq_ic(b[i], b[j])) by {
        if name_eq_ic(b[i], b[j]) {
            if b[i] == b[j] {
                lemma_count_at_least_two(b, i, j);
                let (k, m) = lemma_two_indices(a, b[i]);
                crate::order::lemma_name_eq_ic_refl(b[i]);
                if k < m {
                    assert(name_eq_ic(a[k], a[m]));
                } else {
                    assert(name_eq_ic(a[m], a[k]));
                }
                assert(false);
            } else {
                vstd::seq_lib::to_multiset_contains(b, b[i]);
                vstd::seq_lib::to_multiset_contains(b, b[j]);
                vstd::seq_lib::to_multiset_contains(a, b[i]);
                vstd::seq_lib::to_multiset_contains(a, b[j]);
                assert(a.contains(b[i]));
                assert(a.contains(b[j]));
                let k = choose|k: int| 0 <= k < a.len() && a[k] == b[i];
                let m = choose|m: int| 0 <= m < a.len() && a[m] == b[j];
                crate::order::lemma_name_eq_ic_sym(b[i], b[j]);
                if k < m {
                    assert(name_eq_ic(a[k], a[m]));
                } else {
                    assert(name_eq_ic(a[m], a[k]));
                }
                assert(false);
            }
        }
    }
}

/// A list whose entries form the multiset of the one name `name` is the
/// one-entry list `[name]`: the first write after an absent value holds
/// exactly the supplied name.
pub proof fn lemma_only_entry(v: Seq<Seq<char>>, name: Seq<char>)
    requires
        v.to_multiset() == Seq::<Seq<char>>::empty().push(name).to_multiset(),
    ensures
        v =~= seq![name],
{
    let single = Seq::<Seq<char>>::empty().push(name);
    vstd::seq_lib::to_multiset_len(v);
    vstd::seq_lib::to_multiset_len(single);
    assert(v.len() == 1);
    vstd::seq_lib::to_multiset_contains(v, v[0]);
    vstd::seq_lib::to_multiset_contains(single, v[0]);
    assert(v.contains(v[0]));
    assert(single.contains(v[0]));
    assert(v[0] == name);
}

/// What a run must do to the persisted blocklist.
pub enum BlocklistUpdate {
    /// The name is already listed (up to ASCII case): nothing is written,
    /// the run ends successfully.
    AlreadyListed,
    /// The value to write back: the old entries plus the new name, sorted.
    Updated(Vec<String>),
}

/// The value read from the registry, or a fresh empty list where the
/// value was absent (first run).
pub fn list_or_empty(stored: Option<Vec<String>>) -> (r: Vec<String>)
    ensures
        stored matches Some(l) ==> r == l,
        stored is None ==> r@.len() == 0,
{
    match stored {
        Some(l) => l,
        None => Vec::new(),
    }
}

/// Decides a run over the current list and the requested name: a
/// case-insensitive duplicate leaves the list alone; otherwise the updated
/// list holds exactly the old entries plus the name, sorted. An absent
/// (empty) list yields exactly the one supplied name.
pub fn plan_update(current: Vec<String>, name: String) -> (r: BlocklistUpdate)
    ensures
        contains_ic(current.deep_view(), name@) ==> (r is AlreadyListed),
        !contains_ic(current.deep_view(), name@) ==> (r matches BlocklistUpdate::Updated(v)
            && sorted_names(v.deep_view()) && v.deep_view().to_multiset()
            == current.deep_view().push(name@).to_multiset()),
        current.deep_view().len() == 0 ==> (r matches BlocklistUpdate::Updated(v)
            && v.deep_view() =~= seq![name@]),
        no_ci_duplicates(current.deep_view()) && !contains_ic(current.deep_view(), name@) ==> (
        r matches BlocklistUpdate::Updated(v) && no_ci_duplicates(v.deep_view())),
{
    if contains_ignore_case(&current, name.as_str()) {
        BlocklistUpdate::AlreadyListed
    } else {
        let ghost before = current.deep_view();
        let ghost added = name@;
        let mut list = current;
        list.push(name);
        proof {
            assert(list.deep_view() =~= before.push(added));
        }
        let sorted = sort_names(list);
        proof {
            if before.len() == 0 {
                assert(before =~= Seq::<Seq<char>>::empty());
                lemma_only_entry(sorted.deep_view(), added);
            }
            if no_ci_duplicates(before) {
                assert forall|i: int, j: int|
                    0 <= i < j < before.push(added).len() implies !(#[trigger] name_eq_ic(
                    before.push(added)[i],
                    before.push(added)[j],
                )) by {
                    if j == before.len() {
                        assert(!name_eq_ic(before[i], added));
                    } else {
                        assert(!name_eq_ic(before[i], before[j]));
                    }
                }
                lemma_same_entries_keep_invariant(before.push(added), sorted.deep_view());
            }
        }
        BlocklistUpdate::Updated(sorted)
    }
}

} // verus!
