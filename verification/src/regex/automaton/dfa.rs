//! Determinization by subset construction, and matching.
//!
//! The worklist maps each reachable set of NFA node identities to one DFA
//! node, keyed by the set's sorted identity list so a re-derived subset
//! reuses the existing node. The loop terminates because each processed
//! entry was memoized once and there are at most `pow2(n)` distinct subsets
//! of `n` identities — shown by encoding each sorted, duplicate-free key as
//! the natural number whose binary digits are the set's members.

use vstd::prelude::*;
use vstd::arithmetic::power2::{
    lemma_pow2_pos, lemma_pow2_strictly_increases, lemma_pow2_unfold, pow2,
};
use vstd::set_lib::{lemma_int_range, lemma_len_subset, set_int_range};

use super::{spec_alphabet, Automaton};
use super::nfa::{spec_build, spec_nfa_fold, NFA};
use super::state::{
    all_lt, falses, spec_follow, sv_delta, sv_delta_matching, sv_insert_ord, Edge, Graph,
    State, StateV,
};
use super::state::symbols::{Class, Symbol};
use crate::regex::transform::{spec_parse, spec_parse_err, ThompsonOp};

verus! {

/// Every pair of positions holds different values.
pub open spec fn distinct(s: Seq<usize>) -> bool {
    forall|i: int, j: int| 0 <= i < j < s.len() ==> s[i] != s[j]
}

/// Strictly increasing.
pub open spec fn strictly_sorted(s: Seq<usize>) -> bool {
    forall|i: int, j: int| 0 <= i < j < s.len() ==> s[i] < s[j]
}

/// The insertion position of `x` in `s`: the first index holding a value
/// greater than `x`, or the length.
pub open spec fn sorted_pos(s: Seq<usize>, x: usize) -> int
    decreases s.len(),
{
    if s.len() == 0 {
        0
    } else if x < s.first() {
        0
    } else {
        1 + sorted_pos(s.drop_first(), x)
    }
}

proof fn lemma_sorted_pos_bounds(s: Seq<usize>, x: usize)
    ensures
        0 <= sorted_pos(s, x) <= s.len(),
    decreases s.len(),
{
    if s.len() > 0 && !(x < s.first()) {
        lemma_sorted_pos_bounds(s.drop_first(), x);
    }
}

proof fn lemma_sorted_pos_split(s: Seq<usize>, x: usize)
    requires
        strictly_sorted(s),
    ensures
        forall|k: int| 0 <= k < sorted_pos(s, x) ==> s[k] <= x,
        forall|k: int| sorted_pos(s, x) <= k < s.len() ==> x < s[k],
    decreases s.len(),
{
    lemma_sorted_pos_bounds(s, x);
    if s.len() > 0 {
        assert forall|i: int, j: int|
            0 <= i < j < s.drop_first().len() implies s.drop_first()[i] < s.drop_first()[j] by {
            assert(s.drop_first()[i] == s[i + 1]);
            assert(s.drop_first()[j] == s[j + 1]);
        }
        lemma_sorted_pos_split(s.drop_first(), x);
        if !(x < s.first()) {
            assert forall|k: int| 0 <= k < sorted_pos(s, x) implies s[k] <= x by {
                if k > 0 {
                    assert(s.drop_first()[k - 1] == s[k]);
                }
            }
        }
        lemma_sorted_pos_bounds(s.drop_first(), x);
        assert forall|k: int| sorted_pos(s, x) <= k < s.len() implies x < s[k] by {
            if x < s.first() {
                assert(x < s[0]);
                if k > 0 {
                    assert(s[0] < s[k]);
                }
            } else {
                assert(sorted_pos(s, x) == 1 + sorted_pos(s.drop_first(), x));
                assert(k >= 1);
                assert(s.drop_first()[k - 1] == s[k]);
            }
        }
    }
}

/// `x` inserted at its sorted position in `s`.
pub open spec fn sorted_insert(s: Seq<usize>, x: usize) -> Seq<usize> {
    s.insert(sorted_pos(s, x), x)
}

/// `s` sorted by repeated sorted insertion, processing left to right.
pub open spec fn sort_ids(s: Seq<usize>) -> Seq<usize>
    decreases s.len(),
{
    if s.len() == 0 {
        Seq::empty()
    } else {
        sorted_insert(sort_ids(s.drop_last()), s.last())
    }
}

proof fn lemma_sorted_insert_props(s: Seq<usize>, x: usize)
    requires
        strictly_sorted(s),
        !s.contains(x),
    ensures
        strictly_sorted(sorted_insert(s, x)),
        sorted_insert(s, x).len() == s.len() + 1,
        forall|y: usize| sorted_insert(s, x).contains(y) <==> (s.contains(y) || y == x),
{
    let pos = sorted_pos(s, x);
    lemma_sorted_pos_bounds(s, x);
    lemma_sorted_pos_split(s, x);
    let r = sorted_insert(s, x);
    s.insert_ensures(pos, x);
    assert forall|i: int, j: int| 0 <= i < j < r.len() implies r[i] < r[j] by {
        if i < pos {
            assert(r[i] == s[i]);
        } else if i == pos {
            assert(r[i] == x);
        } else {
            assert(r[i] == s[i - 1]);
        }
        if j < pos {
            assert(r[j] == s[j]);
        } else if j == pos {
            assert(r[j] == x);
        } else {
            assert(r[j] == s[j - 1]);
        }
        if i < pos && j == pos {
            assert(s[i] <= x);
            assert(s[i] != x) by {
                assert(s.contains(x) <==> exists|k: int| 0 <= k < s.len() && s[k] == x);
            }
        }
        if i == pos && j > pos {
            assert(x < s[j - 1]);
        }
    }
    assert forall|y: usize| r.contains(y) <==> (s.contains(y) || y == x) by {
        if r.contains(y) {
            let k = choose|k: int| 0 <= k < r.len() && r[k] == y;
            if k < pos {
                assert(s[k] == y);
            } else if k == pos {
                assert(y == x);
            } else {
                assert(s[k - 1] == y);
            }
        }
        if s.contains(y) {
            let k = choose|k: int| 0 <= k < s.len() && s[k] == y;
            if k < pos {
                assert(r[k] == y);
            } else {
                assert(r[k + 1] == y);
            }
        }
        if y == x {
            assert(r[pos] == x);
        }
    }
}

pub proof fn lemma_sort_ids_props(s: Seq<usize>)
    requires
        distinct(s),
    ensures
        strictly_sorted(sort_ids(s)),
        sort_ids(s).len() == s.len(),
        forall|y: usize| sort_ids(s).contains(y) <==> s.contains(y),
    decreases s.len(),
{
    if s.len() > 0 {
        let rest = s.drop_last();
        lemma_sort_ids_props(rest);
        assert(!sort_ids(rest).contains(s.last())) by {
            if rest.contains(s.last()) {
                let k = choose|k: int| 0 <= k < rest.len() && rest[k] == s.last();
                assert(s[k] == s[s.len() - 1]);
                assert(false);
            }
        }
        lemma_sorted_insert_props(sort_ids(rest), s.last());
        assert(sort_ids(s) == sorted_insert(sort_ids(rest), s.last()));
        assert forall|y: usize| sort_ids(s).contains(y) implies s.contains(y) by {
            if y == s.last() {
                assert(s[s.len() - 1] == y);
            } else {
                assert(sort_ids(rest).contains(y));
                assert(rest.contains(y));
                let k = choose|k: int| 0 <= k < rest.len() && rest[k] == y;
                assert(rest[k] == s[k]);
                assert(s[k] == y);
            }
        }
        assert forall|y: usize| s.contains(y) implies sort_ids(s).contains(y) by {
            let k = choose|k: int| 0 <= k < s.len() && s[k] == y;
            if k < s.len() - 1 {
                assert(rest[k] == y);
                assert(rest.contains(y));
                assert(sort_ids(rest).contains(y));
            } else {
                assert(y == s.last());
            }
        }
    }
}

/// The natural number whose binary digits are the members of `s`.
pub open spec fn seq_mask(s: Seq<usize>) -> nat
    decreases s.len(),
{
    if s.len() == 0 {
        0
    } else {
        seq_mask(s.drop_last()) + pow2(s.last() as nat)
    }
}

/// A strictly sorted sequence with members below `m` encodes below `pow2(m)`.
proof fn lemma_mask_bound(s: Seq<usize>, m: nat)
    requires
        strictly_sorted(s),
        forall|k: int| 0 <= k < s.len() ==> s[k] < m,
    ensures
        seq_mask(s) < pow2(m),
    decreases s.len(),
{
    lemma_pow2_pos(m);
    if s.len() > 0 {
        let last = s.last() as nat;
        assert forall|k: int| 0 <= k < s.drop_last().len() implies s.drop_last()[k] < last by {
            assert(s[k] < s[s.len() - 1]);
        }
        lemma_mask_bound(s.drop_last(), last);
        lemma_pow2_unfold((last + 1) as nat);
        if last + 1 < m {
            lemma_pow2_strictly_increases((last + 1) as nat, m);
        }
    }
}

proof fn lemma_strictly_sorted_drop_last(s: Seq<usize>)
    requires
        strictly_sorted(s),
        s.len() > 0,
    ensures
        strictly_sorted(s.drop_last()),
{
    assert forall|i: int, j: int|
        0 <= i < j < s.drop_last().len() implies s.drop_last()[i] < s.drop_last()[j] by {
        assert(s.drop_last()[i] == s[i]);
        assert(s.drop_last()[j] == s[j]);
    }
}

/// Distinct strictly sorted sequences encode to distinct numbers.
proof fn lemma_mask_injective(a: Seq<usize>, b: Seq<usize>)
    requires
        strictly_sorted(a),
        strictly_sorted(b),
        a != b,
    ensures
        seq_mask(a) != seq_mask(b),
    decreases a.len() + b.len(),
{
    if a.len() == 0 {
        assert(b.len() > 0) by {
            if b.len() == 0 {
                assert(a =~= b);
            }
        }
        lemma_pow2_pos(b.last() as nat);
        lemma_strictly_sorted_drop_last(b);
        lemma_mask_bound(b.drop_last(), b.last() as nat);
        assert(seq_mask(b) >= pow2(b.last() as nat));
    } else if b.len() == 0 {
        lemma_pow2_pos(a.last() as nat);
        assert(seq_mask(a) >= pow2(a.last() as nat));
    } else if a.last() < b.last() {
        lemma_mask_bound(a, (a.last() + 1) as nat);
        lemma_pow2_pos(a.last() as nat);
        if ((a.last() + 1) as nat) < (b.last() as nat) {
            lemma_pow2_strictly_increases((a.last() + 1) as nat, b.last() as nat);
        }
        lemma_strictly_sorted_drop_last(b);
        lemma_mask_bound(b.drop_last(), b.last() as nat);
        assert(seq_mask(b) >= pow2(b.last() as nat));
    } else if b.last() < a.last() {
        lemma_mask_bound(b, (b.last() + 1) as nat);
        lemma_pow2_pos(b.last() as nat);
        if ((b.last() + 1) as nat) < (a.last() as nat) {
            lemma_pow2_strictly_increases((b.last() + 1) as nat, a.last() as nat);
        }
        lemma_strictly_sorted_drop_last(a);
        lemma_mask_bound(a.drop_last(), a.last() as nat);
        assert(seq_mask(a) >= pow2(a.last() as nat));
    } else {
        assert(a.drop_last() != b.drop_last()) by {
            if a.drop_last() == b.drop_last() {
                assert(a.len() == b.len());
                assert forall|i: int| 0 <= i < a.len() implies a[i] == b[i] by {
                    if i < a.len() - 1 {
                        assert(a.drop_last()[i] == a[i]);
                        assert(b.drop_last()[i] == b[i]);
                    }
                }
                assert(a =~= b);
            }
        }
        lemma_strictly_sorted_drop_last(a);
        lemma_strictly_sorted_drop_last(b);
        lemma_mask_injective(a.drop_last(), b.drop_last());
    }
}

/// The memo of subset construction: each key is the sorted identity list of
/// a reachable NFA subset, mapped to the DFA node standing for it.
pub open spec fn memo_keys_ok(memo: Seq<(Seq<usize>, usize)>, n: int) -> bool {
    &&& forall|i: int|
        0 <= i < memo.len() ==> strictly_sorted((#[trigger] memo[i]).0) && all_lt(memo[i].0, n)
    &&& forall|i: int, j: int| 0 <= i < j < memo.len() ==> memo[i].0 != memo[j].0
}

/// The set of the memo keys' encodings.
spec fn mask_set(memo: Seq<(Seq<usize>, usize)>) -> Set<int>
    decreases memo.len(),
{
    if memo.len() == 0 {
        Set::empty()
    } else {
        mask_set(memo.drop_last()).insert(seq_mask(memo.last().0) as int)
    }
}

proof fn lemma_mask_set_props(memo: Seq<(Seq<usize>, usize)>, n: int)
    requires
        memo_keys_ok(memo, n),
        n >= 0,
    ensures
        mask_set(memo).finite(),
        mask_set(memo).len() == memo.len(),
        mask_set(memo).subset_of(set_int_range(0, pow2(n as nat) as int)),
    decreases memo.len(),
{
    if memo.len() == 0 {
        assert(mask_set(memo) =~= Set::<int>::empty());
        assert(mask_set(memo).subset_of(set_int_range(0, pow2(n as nat) as int)));
    } else {
        let rest = memo.drop_last();
        lemma_mask_set_props(rest, n);
        let m = seq_mask(memo.last().0) as int;
        assert(!mask_set(rest).contains(m)) by {
            lemma_mask_set_members(rest);
            if mask_set(rest).contains(m) {
                let i = choose|i: int|
                    0 <= i < rest.len() && seq_mask(rest[i].0) as int == m;
                assert(memo[i].0 != memo[memo.len() - 1].0);
                lemma_mask_injective(memo[i].0, memo[memo.len() - 1].0);
            }
        }
        assert(0 <= m < pow2(n as nat) as int) by {
            lemma_mask_bound(memo.last().0, n as nat);
        }
    }
}

proof fn lemma_mask_set_members(memo: Seq<(Seq<usize>, usize)>)
    ensures
        forall|m: int|
            mask_set(memo).contains(m) ==> exists|i: int|
                0 <= i < memo.len() && seq_mask((#[trigger] memo[i]).0) as int == m,
    decreases memo.len(),
{
    if memo.len() > 0 {
        lemma_mask_set_members(memo.drop_last());
        assert forall|m: int| mask_set(memo).contains(m) implies exists|i: int|
            0 <= i < memo.len() && seq_mask((#[trigger] memo[i]).0) as int == m by {
            if m == seq_mask(memo.last().0) as int {
                assert(seq_mask(memo[memo.len() - 1].0) as int == m);
            } else {
                assert(mask_set(memo.drop_last()).contains(m));
                let i = choose|i: int|
                    0 <= i < memo.drop_last().len() && seq_mask(
                        (#[trigger] memo.drop_last()[i]).0,
                    ) as int == m;
                assert(seq_mask(memo[i].0) as int == m);
            }
        }
    }
}

/// A memo with pairwise distinct, strictly sorted keys over `n` identities
/// has at most `pow2(n)` entries.
pub proof fn lemma_memo_card(memo: Seq<(Seq<usize>, usize)>, n: int)
    requires
        memo_keys_ok(memo, n),
        n >= 0,
    ensures
        memo.len() <= pow2(n as nat),
{
    lemma_mask_set_props(memo, n);
    lemma_int_range(0, pow2(n as nat) as int);
    lemma_len_subset(mask_set(memo), set_int_range(0, pow2(n as nat) as int));
}

/// Appends to `acc` every element of `xs` not already present, in order.
pub open spec fn dedup_append(acc: Seq<usize>, xs: Seq<usize>) -> Seq<usize>
    decreases xs.len(),
{
    if xs.len() == 0 {
        acc
    } else {
        let a1 = dedup_append(acc, xs.drop_last());
        if a1.contains(xs.last()) {
            a1
        } else {
            a1.push(xs.last())
        }
    }
}

/// Folds the epsilon closures of the nodes of `ts` into `acc`, deduplicated
/// by identity, in order.
pub open spec fn spec_closure_fold(nodes: Seq<StateV>, ts: Seq<usize>, acc: Seq<usize>) -> Seq<
    usize,
>
    decreases ts.len(),
{
    if ts.len() == 0 {
        acc
    } else {
        dedup_append(
            spec_closure_fold(nodes, ts.drop_last(), acc),
            spec_follow(nodes, seq![ts.last()], falses(nodes.len()), Seq::empty()),
        )
    }
}

/// The successor subset of `set` on the concrete character `c`: for every
/// represented NFA node, the targets of its edges containing `c`, each
/// followed through its epsilon closure, deduplicated by identity.
pub open spec fn spec_delta_states_from(
    nodes: Seq<StateV>,
    c: char,
    set: Seq<usize>,
    acc: Seq<usize>,
) -> Seq<usize>
    decreases set.len(),
{
    if set.len() == 0 {
        acc
    } else {
        spec_closure_fold(
            nodes,
            sv_delta_matching(nodes[set.last() as int].edges(), c),
            spec_delta_states_from(nodes, c, set.drop_last(), acc),
        )
    }
}

pub open spec fn spec_delta_states(nodes: Seq<StateV>, c: char, set: Seq<usize>) -> Seq<usize> {
    spec_delta_states_from(nodes, c, set, Seq::empty())
}

/// The successor subset of `set` for a character outside the alphabet: only
/// class edges apply.
pub open spec fn spec_class_states_from(
    nodes: Seq<StateV>,
    set: Seq<usize>,
    acc: Seq<usize>,
) -> Seq<usize>
    decreases set.len(),
{
    if set.len() == 0 {
        acc
    } else {
        spec_closure_fold(
            nodes,
            sv_delta(nodes[set.last() as int].edges(), Symbol::CharClass(Class::All)),
            spec_class_states_from(nodes, set.drop_last(), acc),
        )
    }
}

pub open spec fn spec_class_states(nodes: Seq<StateV>, set: Seq<usize>) -> Seq<usize> {
    spec_class_states_from(nodes, set, Seq::empty())
}

/// The first memo entry whose key is `key`, if any.
pub open spec fn memo_find(memo: Seq<(Seq<usize>, usize)>, key: Seq<usize>) -> Option<usize>
    decreases memo.len(),
{
    if memo.len() == 0 {
        None
    } else if memo.first().0 == key {
        Some(memo.first().1)
    } else {
        memo_find(memo.drop_first(), key)
    }
}

pub proof fn lemma_memo_find_none(memo: Seq<(Seq<usize>, usize)>, key: Seq<usize>)
    ensures
        memo_find(memo, key) is None <==> forall|i: int|
            0 <= i < memo.len() ==> (#[trigger] memo[i]).0 != key,
    decreases memo.len(),
{
    if memo.len() > 0 {
        lemma_memo_find_none(memo.drop_first(), key);
        if memo_find(memo, key) is None {
            assert forall|i: int| 0 <= i < memo.len() implies (#[trigger] memo[i]).0 != key by {
                if i > 0 {
                    assert(memo.drop_first()[i - 1] == memo[i]);
                }
            }
        } else {
            if memo.first().0 != key {
                let i = choose|i: int|
                    0 <= i < memo.drop_first().len() && (#[trigger] memo.drop_first()[i]).0
                        == key;
                assert(memo[i + 1].0 == key);
            }
        }
    }
}

/// The ghost image of the memo vector.
pub open spec fn mview(m: Seq<(Vec<usize>, usize)>) -> Seq<(Seq<usize>, usize)> {
    m.map_values(|e: (Vec<usize>, usize)| (e.0@, e.1))
}

/// The ghost image of the worklist vector.
pub open spec fn qview(q: Seq<(usize, Vec<usize>)>) -> Seq<(usize, Seq<usize>)> {
    q.map_values(|e: (usize, Vec<usize>)| (e.0, e.1@))
}

/// Whether `v` holds the identity `x`.
fn contains_usize(v: &Vec<usize>, x: usize) -> (r: bool)
    ensures
        r == v@.contains(x),
{
    let mut i: usize = 0;
    while i < v.len()
        invariant
            i <= v@.len(),
            forall|k: int| 0 <= k < i ==> v@[k] != x,
        decreases v@.len() - i,
    {
        if v[i] == x {
            return true;
        }
        i += 1;
    }
    false
}

/// An element-wise copy of an identity list.
fn copy_ids(src: &Vec<usize>) -> (r: Vec<usize>)
    ensures
        r@ == src@,
{
    let mut r: Vec<usize> = Vec::new();
    let mut i: usize = 0;
    while i < src.len()
        invariant
            i <= src@.len(),
            r@ =~= src@.take(i as int),
        decreases src@.len() - i,
    {
        r.push(src[i]);
        i += 1;
        proof {
            assert(r@ =~= src@.take(i as int));
        }
    }
    proof {
        assert(src@.take(src@.len() as int) =~= src@);
    }
    r
}

/// Element-wise equality of two identity lists.
fn eq_ids(a: &Vec<usize>, b: &Vec<usize>) -> (r: bool)
    ensures
        r == (a@ == b@),
{
    if a.len() != b.len() {
        proof {
            assert(a@ != b@);
        }
        return false;
    }
    let mut i: usize = 0;
    while i < a.len()
        invariant
            i <= a@.len(),
            a@.len() == b@.len(),
            forall|k: int| 0 <= k < i ==> a@[k] == b@[k],
        decreases a@.len() - i,
    {
        if a[i] != b[i] {
            proof {
                assert(a@ != b@);
            }
            return false;
        }
        i += 1;
    }
    proof {
        assert(a@ =~= b@);
    }
    true
}

/// The identity list sorted increasing, by insertion sort.
fn sort_ids_exec(src: &Vec<usize>) -> (r: Vec<usize>)
    ensures
        r@ == sort_ids(src@),
{
    let mut r: Vec<usize> = Vec::new();
    let mut i: usize = 0;
    proof {
        assert(src@.take(0) =~= Seq::<usize>::empty());
    }
    while i < src.len()
        invariant
            i <= src@.len(),
            r@ == sort_ids(src@.take(i as int)),
        decreases src@.len() - i,
    {
        let x = src[i];
        let ghost cur = r@;
        proof {
            assert(cur.skip(0) =~= cur);
        }
        let mut j: usize = 0;
        while j < r.len() && r[j] <= x
            invariant
                j <= r@.len(),
                r@ == cur,
                sorted_pos(cur, x) == j + sorted_pos(cur.skip(j as int), x),
                forall|k: int| 0 <= k < j ==> cur[k] <= x,
            decreases r@.len() - j,
        {
            proof {
                assert(cur.skip(j as int).first() == cur[j as int]);
                assert(cur.skip(j as int).drop_first() =~= cur.skip(j as int + 1));
            }
            j += 1;
        }
        proof {
            if j < r@.len() {
                assert(cur.skip(j as int).first() == cur[j as int]);
                assert(sorted_pos(cur.skip(j as int), x) == 0);
            } else {
                assert(cur.skip(j as int) =~= Seq::<usize>::empty());
            }
            assert(sorted_pos(cur, x) == j as int);
            assert(src@.take(i as int + 1).drop_last() =~= src@.take(i as int));
            assert(src@.take(i as int + 1).last() == src@[i as int]);
        }
        r.insert(j, x);
        i += 1;
    }
    proof {
        assert(src@.take(src@.len() as int) =~= src@);
    }
    r
}

/// The identity list with duplicates removed, keeping first occurrences.
fn dedup_ids(src: &Vec<usize>) -> (r: Vec<usize>)
    ensures
        r@ == dedup_append(Seq::empty(), src@),
        distinct(r@),
        forall|k: int| 0 <= k < r@.len() ==> src@.contains(#[trigger] r@[k]),
{
    let mut r: Vec<usize> = Vec::new();
    let mut i: usize = 0;
    proof {
        assert(src@.take(0) =~= Seq::<usize>::empty());
    }
    while i < src.len()
        invariant
            i <= src@.len(),
            r@ == dedup_append(Seq::empty(), src@.take(i as int)),
            distinct(r@),
            forall|k: int| 0 <= k < r@.len() ==> src@.take(i as int).contains(#[trigger] r@[k]),
        decreases src@.len() - i,
    {
        let x = src[i];
        proof {
            assert(src@.take(i as int + 1).drop_last() =~= src@.take(i as int));
            assert(src@.take(i as int + 1).last() == src@[i as int]);
        }
        if !contains_usize(&r, x) {
            r.push(x);
        }
        i += 1;
        proof {
            assert(src@.take(i as int)[i - 1] == src@[i - 1]);
            assert forall|k: int| 0 <= k < r@.len() implies src@.take(i as int).contains(
                #[trigger] r@[k],
            ) by {
                if k < r@.len() - 1 || r@[k] != src@[i - 1] {
                    if src@.take(i as int - 1).contains(r@[k]) {
                        let m = choose|m: int|
                            0 <= m < i - 1 && #[trigger] src@.take(i as int - 1)[m] == r@[k];
                        assert(src@.take(i as int)[m] == r@[k]);
                    }
                }
            }
        }
    }
    proof {
        assert(src@.take(src@.len() as int) =~= src@);
    }
    r
}

proof fn lemma_distinct_push(s: Seq<usize>, x: usize)
    requires
        distinct(s),
        !s.contains(x),
    ensures
        distinct(s.push(x)),
{
    assert forall|a: int, b: int|
        0 <= a < b < s.push(x).len() implies s.push(x)[a] != s.push(x)[b] by {
        if b == s.len() {
            if s.push(x)[a] == x {
                assert(s[a] == x);
                assert(s.contains(x));
            }
        }
    }
}

proof fn lemma_all_lt_from_membership(a: Seq<usize>, b: Seq<usize>, n: int)
    requires
        all_lt(b, n),
        forall|y: usize| a.contains(y) ==> b.contains(y),
    ensures
        all_lt(a, n),
{
    assert forall|k: int| 0 <= k < a.len() implies a[k] < n by {
        assert(a.contains(a[k]));
        assert(b.contains(a[k]));
    }
}

proof fn lemma_memo_find_some(memo: Seq<(Seq<usize>, usize)>, key: Seq<usize>)
    requires
        memo_find(memo, key) is Some,
    ensures
        exists|i: int|
            0 <= i < memo.len() && (#[trigger] memo[i]).1 == memo_find(memo, key)->0,
    decreases memo.len(),
{
    if memo.first().0 == key {
        assert(memo[0].1 == memo_find(memo, key)->0);
    } else {
        lemma_memo_find_some(memo.drop_first(), key);
        let i = choose|i: int|
            0 <= i < memo.drop_first().len() && (#[trigger] memo.drop_first()[i]).1 == memo_find(
                memo.drop_first(),
                key,
            )->0;
        assert(memo[i + 1].1 == memo_find(memo, key)->0);
    }
}

/// Folds the epsilon closures of `ts` into `out`, deduplicated by identity.
fn closure_fold_exec(g: &Graph, ts: &Vec<usize>, out: Vec<usize>) -> (r: Vec<usize>)
    requires
        g.wf(),
        all_lt(ts@, g@.len() as int),
        distinct(out@),
        all_lt(out@, g@.len() as int),
    ensures
        r@ == spec_closure_fold(g@, ts@, out@),
        distinct(r@),
        all_lt(r@, g@.len() as int),
{
    let mut out = out;
    let ghost base = out@;
    let mut j: usize = 0;
    proof {
        assert(ts@.take(0) =~= Seq::<usize>::empty());
    }
    while j < ts.len()
        invariant
            g.wf(),
            j <= ts@.len(),
            all_lt(ts@, g@.len() as int),
            out@ == spec_closure_fold(g@, ts@.take(j as int), base),
            distinct(out@),
            all_lt(out@, g@.len() as int),
        decreases ts@.len() - j,
    {
        let t = ts[j];
        let cl = State::follow_epsilon(g, t);
        let ghost base2 = out@;
        let mut k: usize = 0;
        proof {
            assert(cl@.take(0) =~= Seq::<usize>::empty());
        }
        while k < cl.len()
            invariant
                k <= cl@.len(),
                all_lt(cl@, g@.len() as int),
                out@ == dedup_append(base2, cl@.take(k as int)),
                distinct(out@),
                all_lt(out@, g@.len() as int),
            decreases cl@.len() - k,
        {
            let q = cl[k];
            proof {
                assert(cl@.take(k as int + 1).drop_last() =~= cl@.take(k as int));
                assert(cl@.take(k as int + 1).last() == cl@[k as int]);
            }
            if !contains_usize(&out, q) {
                proof {
                    lemma_distinct_push(out@, q);
                }
                out.push(q);
            }
            k += 1;
        }
        proof {
            assert(cl@.take(cl@.len() as int) =~= cl@);
            assert(ts@.take(j as int + 1).drop_last() =~= ts@.take(j as int));
            assert(ts@.take(j as int + 1).last() == ts@[j as int]);
        }
        j += 1;
    }
    proof {
        assert(ts@.take(ts@.len() as int) =~= ts@);
    }
    out
}

/// The successor subset of `nfa_states` on the concrete character `c`.
fn delta_states(g: &Graph, c: char, nfa_states: &Vec<usize>) -> (r: Vec<usize>)
    requires
        g.wf(),
        all_lt(nfa_states@, g@.len() as int),
    ensures
        r@ == spec_delta_states(g@, c, nfa_states@),
        distinct(r@),
        all_lt(r@, g@.len() as int),
{
    let mut out: Vec<usize> = Vec::new();
    let mut i: usize = 0;
    proof {
        assert(nfa_states@.take(0) =~= Seq::<usize>::empty());
    }
    while i < nfa_states.len()
        invariant
            g.wf(),
            i <= nfa_states@.len(),
            all_lt(nfa_states@, g@.len() as int),
            out@ == spec_delta_states_from(g@, c, nfa_states@.take(i as int), Seq::empty()),
            distinct(out@),
            all_lt(out@, g@.len() as int),
        decreases nfa_states@.len() - i,
    {
        let s = nfa_states[i];
        proof {
            assert(g@[s as int].wf(s as int, g@.len() as int));
            super::state::lemma_sv_delta_matching_bounds(
                g@[s as int].edges(),
                c,
                g@.len() as int,
            );
        }
        let ts = g.nodes[s].delta_matching(c);
        out = closure_fold_exec(g, &ts, out);
        i += 1;
        proof {
            assert(nfa_states@.take(i as int).drop_last() =~= nfa_states@.take(i as int - 1));
            assert(nfa_states@.take(i as int).last() == nfa_states@[i - 1]);
        }
    }
    proof {
        assert(nfa_states@.take(nfa_states@.len() as int) =~= nfa_states@);
    }
    out
}

/// The successor subset of `nfa_states` for characters outside the alphabet:
/// only class edges apply.
fn class_states(g: &Graph, nfa_states: &Vec<usize>) -> (r: Vec<usize>)
    requires
        g.wf(),
        all_lt(nfa_states@, g@.len() as int),
    ensures
        r@ == spec_class_states(g@, nfa_states@),
        distinct(r@),
        all_lt(r@, g@.len() as int),
{
    let mut out: Vec<usize> = Vec::new();
    let mut i: usize = 0;
    proof {
        assert(nfa_states@.take(0) =~= Seq::<usize>::empty());
    }
    while i < nfa_states.len()
        invariant
            g.wf(),
            i <= nfa_states@.len(),
            all_lt(nfa_states@, g@.len() as int),
            out@ == spec_class_states_from(g@, nfa_states@.take(i as int), Seq::empty()),
            distinct(out@),
            all_lt(out@, g@.len() as int),
        decreases nfa_states@.len() - i,
    {
        let s = nfa_states[i];
        proof {
            assert(g@[s as int].wf(s as int, g@.len() as int));
            super::state::lemma_sv_delta_bounds(
                g@[s as int].edges(),
                Symbol::CharClass(Class::All),
                g@.len() as int,
            );
        }
        let ts = g.nodes[s].delta(Symbol::new_all_char());
        out = closure_fold_exec(g, &ts, out);
        i += 1;
        proof {
            assert(nfa_states@.take(i as int).drop_last() =~= nfa_states@.take(i as int - 1));
            assert(nfa_states@.take(i as int).last() == nfa_states@[i - 1]);
        }
    }
    proof {
        assert(nfa_states@.take(nfa_states@.len() as int) =~= nfa_states@);
    }
    out
}

/// The first memoized DFA node for `key`, if any.
fn memo_lookup(memo: &Vec<(Vec<usize>, usize)>, key: &Vec<usize>) -> (r: Option<usize>)
    ensures
        r == memo_find(mview(memo@), key@),
{
    let ghost mv = mview(memo@);
    let mut i: usize = 0;
    proof {
        assert(mv.skip(0) =~= mv);
    }
    while i < memo.len()
        invariant
            i <= memo@.len(),
            mv == mview(memo@),
            memo_find(mv, key@) == memo_find(mv.skip(i as int), key@),
        decreases memo@.len() - i,
    {
        proof {
            assert(mv.skip(i as int).first() == mv[i as int]);
            assert(mv.skip(i as int).drop_first() =~= mv.skip(i as int + 1));
        }
        if eq_ids(&memo[i].0, key) {
            return Some(memo[i].1);
        }
        i += 1;
    }
    proof {
        assert(mv.skip(memo@.len() as int) =~= Seq::<(Seq<usize>, usize)>::empty());
    }
    None
}

/// One transition of subset construction: wires `dnode` on `sym` to the DFA
/// node of the successor subset `ds`, memoizing and enqueueing a fresh node
/// when the subset is new. An empty subset adds nothing.
pub open spec fn spec_gen_one(
    sym: Symbol,
    ds: Seq<usize>,
    dnode: usize,
    dnodes: Seq<StateV>,
    queue: Seq<(usize, Seq<usize>)>,
    memo: Seq<(Seq<usize>, usize)>,
) -> (Seq<StateV>, Seq<(usize, Seq<usize>)>, Seq<(Seq<usize>, usize)>) {
    if ds.len() == 0 {
        (dnodes, queue, memo)
    } else {
        let key = sort_ids(ds);
        match memo_find(memo, key) {
            Some(t) => (
                dnodes.update(dnode as int, sv_insert_ord(dnodes[dnode as int], sym, t)),
                queue,
                memo,
            ),
            None => {
                let nn = dnodes.len() as usize;
                let d1 = dnodes.push(StateV::Accept(nn));
                (
                    d1.update(dnode as int, sv_insert_ord(d1[dnode as int], sym, nn)),
                    queue.push((nn, ds)),
                    memo.push((key, nn)),
                )
            },
        }
    }
}

/// The transitions of one worklist entry for every alphabet character, in
/// alphabet order.
pub open spec fn spec_gen_chars(
    nfa_nodes: Seq<StateV>,
    alphabet: Seq<char>,
    set: Seq<usize>,
    dnode: usize,
    dnodes: Seq<StateV>,
    queue: Seq<(usize, Seq<usize>)>,
    memo: Seq<(Seq<usize>, usize)>,
) -> (Seq<StateV>, Seq<(usize, Seq<usize>)>, Seq<(Seq<usize>, usize)>)
    decreases alphabet.len(),
{
    if alphabet.len() == 0 {
        (dnodes, queue, memo)
    } else {
        let prev = spec_gen_chars(
            nfa_nodes,
            alphabet.drop_last(),
            set,
            dnode,
            dnodes,
            queue,
            memo,
        );
        spec_gen_one(
            Symbol::Alphabet(alphabet.last()),
            spec_delta_states(nfa_nodes, alphabet.last(), set),
            dnode,
            prev.0,
            prev.1,
            prev.2,
        )
    }
}

/// The worklist of subset construction, from entry `qi` on: each entry is
/// checked against the success identity, given its transitions for every
/// alphabet character and for the character class, and the queue grows by
/// one entry per newly memoized subset. It terminates because the memo's
/// distinct subset keys number at most `pow2(n)`.
pub open spec fn spec_worklist(
    nfa_nodes: Seq<StateV>,
    alphabet: Seq<char>,
    success_id: usize,
    dnodes: Seq<StateV>,
    queue: Seq<(usize, Seq<usize>)>,
    qi: int,
    memo: Seq<(Seq<usize>, usize)>,
    succ: Seq<usize>,
) -> (Seq<StateV>, Seq<usize>)
    decreases pow2(nfa_nodes.len()) + 1 - qi,
        when 0 <= qi && queue.len() <= memo.len() && memo_keys_ok(
            memo,
            nfa_nodes.len() as int,
        )
{
    if qi >= queue.len() {
        (dnodes, succ)
    } else {
        let entry = queue[qi];
        let succ1 = if entry.1.contains(success_id) {
            succ.push(entry.0)
        } else {
            succ
        };
        let g1 = spec_gen_chars(nfa_nodes, alphabet, entry.1, entry.0, dnodes, queue, memo);
        let g2 = spec_gen_one(
            Symbol::CharClass(Class::All),
            spec_class_states(nfa_nodes, entry.1),
            entry.0,
            g1.0,
            g1.1,
            g1.2,
        );
        proof {
            lemma_memo_card(memo, nfa_nodes.len() as int);
        }
        spec_worklist(nfa_nodes, alphabet, success_id, g2.0, g2.1, qi + 1, g2.2, succ1)
    }
}

/// Attaches one epsilon edge to `end` at every accepting DFA node, in the
/// order the worklist found them.
pub open spec fn spec_attach(dnodes: Seq<StateV>, succ: Seq<usize>, end: usize) -> Seq<StateV>
    decreases succ.len(),
{
    if succ.len() == 0 {
        dnodes
    } else {
        let prev = spec_attach(dnodes, succ.drop_last(), end);
        prev.update(
            succ.last() as int,
            sv_insert_ord(prev[succ.last() as int], Symbol::Epsilon, end),
        )
    }
}

/// The whole pipeline at the specification level: parse, Thompson fold,
/// alphabet extraction, subset construction from the start set's epsilon
/// closure, and the shared final accept node at index one, reached from
/// every accepting state. The start node is index zero.
pub open spec fn spec_construct(s: Seq<char>) -> Option<(Seq<StateV>, Automaton)> {
    match spec_parse(s) {
        None => None,
        Some(ops) => {
            let built = spec_build(ops);
            let nfa_nodes = built.0;
            let aut = built.1;
            let alphabet = spec_alphabet(nfa_nodes, aut.start_state);
            let start_set = dedup_append(
                Seq::empty(),
                spec_follow(
                    nfa_nodes,
                    seq![aut.start_state],
                    falses(nfa_nodes.len()),
                    Seq::empty(),
                ),
            );
            let dnodes0 = seq![StateV::Accept(0usize), StateV::Accept(1usize)];
            let queue0 = seq![(0usize, start_set)];
            let memo0 = seq![(sort_ids(start_set), 0usize)];
            let r = spec_worklist(
                nfa_nodes,
                alphabet,
                aut.end_state,
                dnodes0,
                queue0,
                0,
                memo0,
                Seq::empty(),
            );
            Some(
                (
                    spec_attach(r.0, r.1, 1usize),
                    Automaton { start_state: 0usize, end_state: 1usize },
                ),
            )
        },
    }
}

/// The bookkeeping the worklist loop maintains besides the pinned state.
pub open spec fn worklist_wf(
    dnodes: Seq<StateV>,
    queue: Seq<(usize, Seq<usize>)>,
    memo: Seq<(Seq<usize>, usize)>,
    n: int,
) -> bool {
    &&& queue.len() == memo.len()
    &&& memo_keys_ok(memo, n)
    &&& forall|k: int|
        0 <= k < queue.len() ==> (#[trigger] queue[k]).0 < dnodes.len() && distinct(queue[k].1)
            && all_lt(queue[k].1, n)
    &&& forall|k: int| 0 <= k < memo.len() ==> (#[trigger] memo[k]).1 < dnodes.len()
}

/// One transition step of the worklist body: the executable counterpart of
/// [`spec_gen_one`].
fn gen_step(
    dg: &mut Graph,
    queue: &mut Vec<(usize, Vec<usize>)>,
    memo: &mut Vec<(Vec<usize>, usize)>,
    sym: Symbol,
    ds: Vec<usize>,
    dnode: usize,
    Ghost(n): Ghost<int>,
)
    requires
        old(dg).wf(),
        dnode < old(dg)@.len(),
        distinct(ds@),
        all_lt(ds@, n),
        worklist_wf(old(dg)@, qview(old(queue)@), mview(old(memo)@), n),
    ensures
        final(dg).wf(),
        old(dg)@.len() <= final(dg)@.len(),
        old(queue)@.len() <= final(queue)@.len(),
        (final(dg)@, qview(final(queue)@), mview(final(memo)@)) == spec_gen_one(
            sym,
            ds@,
            dnode,
            old(dg)@,
            qview(old(queue)@),
            mview(old(memo)@),
        ),
        worklist_wf(final(dg)@, qview(final(queue)@), mview(final(memo)@), n),
{
    if ds.len() == 0 {
        return ;
    }
    let key = sort_ids_exec(&ds);
    proof {
        lemma_sort_ids_props(ds@);
        lemma_all_lt_from_membership(key@, ds@, n);
    }
    match memo_lookup(memo, &key) {
        Some(t) => {
            proof {
                lemma_memo_find_some(mview(memo@), key@);
            }
            State::insert_transition_ord(dg, dnode, sym, t);
        },
        None => {
            proof {
                lemma_memo_find_none(mview(memo@), key@);
            }
            let ghost q_pre = qview(queue@);
            let ghost m_pre = mview(memo@);
            let nn = State::new_accept_ref(dg);
            memo.push((key, nn));
            queue.push((nn, ds));
            State::insert_transition_ord(dg, dnode, sym, nn);
            proof {
                assert(qview(queue@) =~= q_pre.push((nn, ds@)));
                assert(mview(memo@) =~= m_pre.push((key@, nn)));
                assert forall|i: int, j: int|
                    0 <= i < j < mview(memo@).len() implies mview(memo@)[i].0 != mview(
                    memo@,
                )[j].0 by {
                    if j < m_pre.len() {
                        assert(m_pre[i].0 != m_pre[j].0);
                    } else {
                        assert(m_pre[i].0 != key@);
                    }
                }
            }
        },
    }
}

/// A deterministic finite automaton: one graph whose start is deterministic
/// by construction and whose end is a single shared accepting node that
/// every accepting state reaches by an epsilon edge.
#[derive(Debug)]
pub struct DFA {
    pub graph: Graph,
    pub automaton: Automaton,
}

impl DFA {
    pub open spec fn wf(self) -> bool {
        &&& self.graph.wf()
        &&& self.automaton.wf(self.graph@.len() as int)
    }

    /// The transitions of one worklist entry: for every alphabet character,
    /// and then for the character class, wires `dfa_state` to the DFA node
    /// standing for the successor subset, memoizing the subset and
    /// enqueueing a fresh node when it was not seen before.
    fn generate_transitions(
        g: &Graph,
        dg: &mut Graph,
        queue: &mut Vec<(usize, Vec<usize>)>,
        memo: &mut Vec<(Vec<usize>, usize)>,
        dfa_state: usize,
        nfa_states: &Vec<usize>,
        alphabet: &Vec<char>,
    )
        requires
            g.wf(),
            old(dg).wf(),
            dfa_state < old(dg)@.len(),
            distinct(nfa_states@),
            all_lt(nfa_states@, g@.len() as int),
            worklist_wf(old(dg)@, qview(old(queue)@), mview(old(memo)@), g@.len() as int),
        ensures
            final(dg).wf(),
            old(dg)@.len() <= final(dg)@.len(),
            old(queue)@.len() <= final(queue)@.len(),
            worklist_wf(
                final(dg)@,
                qview(final(queue)@),
                mview(final(memo)@),
                g@.len() as int,
            ),
            ({
                let g1 = spec_gen_chars(
                    g@,
                    alphabet@,
                    nfa_states@,
                    dfa_state,
                    old(dg)@,
                    qview(old(queue)@),
                    mview(old(memo)@),
                );
                (final(dg)@, qview(final(queue)@), mview(final(memo)@)) == spec_gen_one(
                    Symbol::CharClass(Class::All),
                    spec_class_states(g@, nfa_states@),
                    dfa_state,
                    g1.0,
                    g1.1,
                    g1.2,
                )
            }),
    {
        let ghost n = g@.len() as int;
        let ghost d_pre = dg@;
        let ghost q_pre = qview(queue@);
        let ghost m_pre = mview(memo@);
        let ghost set = nfa_states@;
        let mut ai: usize = 0;
        proof {
            assert(alphabet@.take(0) =~= Seq::<char>::empty());
        }
        while ai < alphabet.len()
            invariant
                g.wf(),
                n == g@.len() as int,
                dg.wf(),
                d_pre.len() <= dg@.len(),
                q_pre.len() <= qview(queue@).len(),
                ai <= alphabet@.len(),
                dfa_state < dg@.len(),
                distinct(set),
                all_lt(set, n),
                nfa_states@ == set,
                worklist_wf(dg@, qview(queue@), mview(memo@), n),
                (dg@, qview(queue@), mview(memo@)) == spec_gen_chars(
                    g@,
                    alphabet@.take(ai as int),
                    set,
                    dfa_state,
                    d_pre,
                    q_pre,
                    m_pre,
                ),
            decreases alphabet@.len() - ai,
        {
            let c = alphabet[ai];
            let ds = delta_states(g, c, nfa_states);
            gen_step(dg, queue, memo, Symbol::new_alphabet(c), ds, dfa_state, Ghost(n));
            ai += 1;
            proof {
                assert(alphabet@.take(ai as int).drop_last() =~= alphabet@.take(
                    ai as int - 1,
                ));
                assert(alphabet@.take(ai as int).last() == alphabet@[ai - 1]);
            }
        }
        proof {
            assert(alphabet@.take(alphabet@.len() as int) =~= alphabet@);
        }
        let cs = class_states(g, nfa_states);
        gen_step(dg, queue, memo, Symbol::new_all_char(), cs, dfa_state, Ghost(n));
    }

    /// Compiles `re`: parser, then Thompson construction, then subset
    /// construction. Fails exactly when the pattern is malformed, carrying
    /// the parser's own failure report; the resulting automaton is pinned to
    /// [`spec_construct`], so compiling is a mathematical function of the
    /// pattern.
    pub fn construct_dfa(re: &str) -> (r: Result<DFA, String>)
        ensures
            r is Ok <==> spec_construct(re@) is Some,
            r matches Ok(d) ==> (d.graph@, d.automaton) == spec_construct(re@)->0 && d.wf(),
            r matches Err(m) ==> m@ == spec_parse_err(re@),
    {
        let nfa = match NFA::construct_nfa(re) {
            Err(e) => {
                return Err(e);
            },
            Ok(n) => n,
        };
        let ghost ng = nfa.graph@;
        let ghost n = ng.len() as int;
        proof {
            assert(ng[nfa.automaton.end_state as int].wf(nfa.automaton.end_state as int, n));
        }
        let nfa_success_id = nfa.graph.nodes[nfa.automaton.end_state].get_id();
        let alphabet = nfa.automaton.get_alphabet(&nfa.graph);
        let start_raw = State::follow_epsilon(&nfa.graph, nfa.automaton.start_state);
        let start_set = dedup_ids(&start_raw);
        proof {
            lemma_all_lt_from_membership(start_set@, start_raw@, n);
        }
        let mut dg = Graph::new();
        let start = State::new_accept_ref(&mut dg);
        let end = State::new_accept_ref(&mut dg);
        let mut queue: Vec<(usize, Vec<usize>)> = Vec::new();
        let mut memo: Vec<(Vec<usize>, usize)> = Vec::new();
        let mut success: Vec<usize> = Vec::new();
        let key0 = sort_ids_exec(&start_set);
        proof {
            lemma_sort_ids_props(start_set@);
            lemma_all_lt_from_membership(key0@, start_set@, n);
        }
        memo.push((key0, start));
        queue.push((start, start_set));
        let ghost dnodes0 = dg@;
        let ghost queue0 = qview(queue@);
        let ghost memo0 = mview(memo@);
        let ghost total = spec_worklist(
            ng,
            alphabet@,
            nfa_success_id,
            dnodes0,
            queue0,
            0,
            memo0,
            Seq::empty(),
        );
        proof {
            assert(dnodes0 =~= seq![StateV::Accept(0usize), StateV::Accept(1usize)]);
            assert(queue0 =~= seq![(0usize, start_set@)]);
            assert(memo0 =~= seq![(sort_ids(start_set@), 0usize)]);
        }
        let mut qi: usize = 0;
        while qi < queue.len()
            invariant
                nfa.graph.wf(),
                ng == nfa.graph@,
                n == ng.len() as int,
                dg.wf(),
                qi <= queue@.len(),
                2 <= dg@.len(),
                end == 1,
                worklist_wf(dg@, qview(queue@), mview(memo@), n),
                all_lt(success@, dg@.len() as int),
                spec_worklist(
                    ng,
                    alphabet@,
                    nfa_success_id,
                    dg@,
                    qview(queue@),
                    qi as int,
                    mview(memo@),
                    success@,
                ) == total,
            decreases pow2(ng.len()) + 1 - qi,
        {
            let ghost d_pre = dg@;
            let ghost q_pre = qview(queue@);
            let ghost m_pre = mview(memo@);
            let ghost s_pre = success@;
            let dnode = queue[qi].0;
            let nfa_set = copy_ids(&queue[qi].1);
            proof {
                assert(q_pre[qi as int] == (dnode, nfa_set@));
            }
            if contains_usize(&nfa_set, nfa_success_id) {
                success.push(dnode);
            }
            DFA::generate_transitions(
                &nfa.graph,
                &mut dg,
                &mut queue,
                &mut memo,
                dnode,
                &nfa_set,
                &alphabet,
            );
            qi += 1;
            proof {
                lemma_memo_card(mview(memo@), n);
                assert(spec_worklist(
                    ng,
                    alphabet@,
                    nfa_success_id,
                    dg@,
                    qview(queue@),
                    qi as int,
                    mview(memo@),
                    success@,
                ) == spec_worklist(
                    ng,
                    alphabet@,
                    nfa_success_id,
                    d_pre,
                    q_pre,
                    qi as int - 1,
                    m_pre,
                    s_pre,
                ));
            }
        }
        let ghost dn_after = dg@;
        let mut si: usize = 0;
        proof {
            assert(success@.take(0) =~= Seq::<usize>::empty());
        }
        while si < success.len()
            invariant
                dg.wf(),
                si <= success@.len(),
                dg@.len() == dn_after.len(),
                end < dg@.len(),
                all_lt(success@, dg@.len() as int),
                dg@ == spec_attach(dn_after, success@.take(si as int), end),
            decreases success@.len() - si,
        {
            State::insert_transition_ord(&mut dg, success[si], Symbol::new_epsilon(), end);
            si += 1;
            proof {
                assert(success@.take(si as int).drop_last() =~= success@.take(si as int - 1));
                assert(success@.take(si as int).last() == success@[si - 1]);
            }
        }
        proof {
            assert(success@.take(success@.len() as int) =~= success@);
        }
        Ok(DFA { graph: dg, automaton: Automaton { start_state: start, end_state: end } })
    }

    /// Walks the automaton one input character at a time: the exact edge for
    /// the character if present, else a class edge that covers it, else the
    /// input is rejected. After the input is consumed, the automaton accepts
    /// exactly when the final node's epsilon closure holds an accepting node.
    pub fn match_input(&self, input: &str) -> (r: bool)
        requires
            self.wf(),
        ensures
            r == spec_accepted(self.graph@, self.automaton.start_state, input@),
    {
        let chars = crate::regex::transform::chars_of(input);
        let mut cur = self.automaton.start_state;
        let mut i: usize = 0;
        proof {
            assert(input@.skip(0) =~= input@);
        }
        while i < chars.len()
            invariant
                self.wf(),
                i <= chars@.len(),
                chars@ == input@,
                cur < self.graph@.len(),
                spec_walk(self.graph@, cur, input@.skip(i as int)) == spec_walk(
                    self.graph@,
                    self.automaton.start_state,
                    input@,
                ),
            decreases chars@.len() - i,
        {
            let c = chars[i];
            proof {
                assert(input@.skip(i as int).first() == input@[i as int]);
                assert(input@.skip(i as int).drop_first() =~= input@.skip(i as int + 1));
                assert(self.graph@[cur as int].wf(cur as int, self.graph@.len() as int));
                super::state::lemma_sv_delta_bounds(
                    self.graph@[cur as int].edges(),
                    Symbol::Alphabet(c),
                    self.graph@.len() as int,
                );
                super::state::lemma_sv_delta_bounds(
                    self.graph@[cur as int].edges(),
                    Symbol::CharClass(Class::All),
                    self.graph@.len() as int,
                );
            }
            let ts = self.graph.nodes[cur].delta(Symbol::new_alphabet(c));
            if ts.len() > 0 {
                cur = ts[0];
            } else {
                let cs = self.graph.nodes[cur].delta(Symbol::new_all_char());
                if cs.len() > 0 {
                    cur = cs[0];
                } else {
                    return false;
                }
            }
            i += 1;
        }
        proof {
            assert(input@.skip(input@.len() as int) =~= Seq::<char>::empty());
        }
        let closure = State::follow_epsilon(&self.graph, cur);
        let ghost cl = closure@;
        let mut k: usize = 0;
        while k < closure.len()
            invariant
                self.wf(),
                k <= cl.len(),
                closure@ == cl,
                cur < self.graph@.len(),
                all_lt(cl, self.graph@.len() as int),
                cl == spec_follow(
                    self.graph@,
                    seq![cur],
                    falses(self.graph@.len()),
                    Seq::empty(),
                ),
                spec_walk(self.graph@, self.automaton.start_state, input@) == Some(cur),
                forall|m: int|
                    0 <= m < k ==> !self.graph@[#[trigger] cl[m] as int].is_accept(),
            decreases cl.len() - k,
        {
            let node = closure[k];
            let is_acc = matches!(&self.graph.nodes[node], State::Accept(_));
            if is_acc {
                proof {
                    assert(self.graph@[(#[trigger] cl[k as int]) as int].is_accept());
                    assert(closure_has_accept(self.graph@, cur));
                }
                return true;
            }
            k += 1;
        }
        proof {
            assert(!closure_has_accept(self.graph@, cur));
        }
        false
    }

    /// Structural equality of two deterministic automata, identities
    /// disregarded.
    pub fn same_structure(&self, other: &DFA) -> (r: bool)
        requires
            self.wf(),
            other.wf(),
        ensures
            r == super::spec_same_structure(
                self.graph@,
                self.automaton,
                other.graph@,
                other.automaton,
            ),
    {
        self.automaton.same_structure(&self.graph, &other.automaton, &other.graph)
    }
}

/// The node reached from `cur` by one input character: the first edge
/// labeled exactly with the character, else the first class edge covering
/// it, else none and the input is rejected.
pub open spec fn spec_step_char(nodes: Seq<StateV>, cur: usize, c: char) -> Option<usize> {
    let ts = sv_delta(nodes[cur as int].edges(), Symbol::Alphabet(c));
    if ts.len() > 0 {
        Some(ts[0])
    } else {
        let cs = sv_delta(nodes[cur as int].edges(), Symbol::CharClass(Class::All));
        if cs.len() > 0 {
            Some(cs[0])
        } else {
            None
        }
    }
}

/// The node reached after consuming the whole input, if no character was
/// rejected.
pub open spec fn spec_walk(nodes: Seq<StateV>, cur: usize, input: Seq<char>) -> Option<usize>
    decreases input.len(),
{
    if input.len() == 0 {
        Some(cur)
    } else {
        match spec_step_char(nodes, cur, input.first()) {
            None => None,
            Some(nx) => spec_walk(nodes, nx, input.drop_first()),
        }
    }
}

/// Whether the epsilon closure of `node` holds an accepting node.
pub open spec fn closure_has_accept(nodes: Seq<StateV>, node: usize) -> bool {
    let cl = spec_follow(nodes, seq![node], falses(nodes.len()), Seq::empty());
    exists|k: int| 0 <= k < cl.len() && nodes[(#[trigger] cl[k]) as int].is_accept()
}

/// Whether the automaton with the given graph and start node accepts the
/// whole input.
pub open spec fn spec_accepted(nodes: Seq<StateV>, start: usize, input: Seq<char>) -> bool {
    match spec_walk(nodes, start, input) {
        None => false,
        Some(e) => closure_has_accept(nodes, e),
    }
}

/// Law: compiling a pattern is deterministic. Two compiled automata of the
/// same pattern have identical mathematical views, so they accept exactly
/// the same set of inputs, whatever their internal node identities came out
/// as.
pub proof fn lemma_construct_deterministic(
    p: Seq<char>,
    d1: (Seq<StateV>, Automaton),
    d2: (Seq<StateV>, Automaton),
    input: Seq<char>,
)
    requires
        spec_construct(p) == Some(d1),
        spec_construct(p) == Some(d2),
    ensures
        d1 == d2,
        spec_accepted(d1.0, d1.1.start_state, input) == spec_accepted(
            d2.0,
            d2.1.start_state,
            input,
        ),
{
}

/// The wildcard pattern of the law below.
spec fn wild_pattern() -> Seq<char> {
    seq!['a', '.', 'c']
}

/// Its postfix operator sequence.
spec fn wild_ops() -> Seq<ThompsonOp> {
    seq![
        ThompsonOp::Primary('a'),
        ThompsonOp::All,
        ThompsonOp::Concat,
        ThompsonOp::Primary('c'),
        ThompsonOp::Concat,
    ]
}

/// Its NFA graph.
spec fn wild_nfa() -> Seq<StateV> {
    seq![
        StateV::Transition(seq![(Symbol::Epsilon, Some(3usize))], 0usize),
        StateV::Transition(seq![(Symbol::Alphabet('a'), Some(0usize))], 1usize),
        StateV::Transition(seq![(Symbol::Epsilon, Some(5usize))], 2usize),
        StateV::Transition(seq![(Symbol::CharClass(Class::All), Some(2usize))], 3usize),
        StateV::Accept(4usize),
        StateV::Transition(seq![(Symbol::Alphabet('c'), Some(4usize))], 5usize),
    ]
}

/// The DFA nodes after each processed worklist entry.
spec fn wild_d1() -> Seq<StateV> {
    seq![
        StateV::Transition(seq![(Symbol::Alphabet('a'), Some(2usize))], 0usize),
        StateV::Accept(1usize),
        StateV::Accept(2usize),
    ]
}

spec fn wild_d2() -> Seq<StateV> {
    seq![
        StateV::Transition(seq![(Symbol::Alphabet('a'), Some(2usize))], 0usize),
        StateV::Accept(1usize),
        StateV::Transition(
            seq![
                (Symbol::Alphabet('a'), Some(3usize)),
                (Symbol::Alphabet('c'), Some(3usize)),
                (Symbol::CharClass(Class::All), Some(3usize)),
            ],
            2usize,
        ),
        StateV::Accept(3usize),
    ]
}

spec fn wild_d3() -> Seq<StateV> {
    seq![
        StateV::Transition(seq![(Symbol::Alphabet('a'), Some(2usize))], 0usize),
        StateV::Accept(1usize),
        StateV::Transition(
            seq![
                (Symbol::Alphabet('a'), Some(3usize)),
                (Symbol::Alphabet('c'), Some(3usize)),
                (Symbol::CharClass(Class::All), Some(3usize)),
            ],
            2usize,
        ),
        StateV::Transition(seq![(Symbol::Alphabet('c'), Some(4usize))], 3usize),
        StateV::Accept(4usize),
    ]
}

/// Its finished DFA graph.
spec fn wild_dfa() -> Seq<StateV> {
    seq![
        StateV::Transition(seq![(Symbol::Alphabet('a'), Some(2usize))], 0usize),
        StateV::Accept(1usize),
        StateV::Transition(
            seq![
                (Symbol::Alphabet('a'), Some(3usize)),
                (Symbol::Alphabet('c'), Some(3usize)),
                (Symbol::CharClass(Class::All), Some(3usize)),
            ],
            2usize,
        ),
        StateV::Transition(seq![(Symbol::Alphabet('c'), Some(4usize))], 3usize),
        StateV::Transition(seq![(Symbol::Epsilon, Some(1usize))], 4usize),
    ]
}

#[verifier::rlimit(100)]
proof fn lemma_wild_parse()
    ensures
        spec_parse(wild_pattern()) == Some(wild_ops()),
{
    reveal_with_fuel(crate::regex::transform::sp_or, 8);
    reveal_with_fuel(crate::regex::transform::sp_concat, 8);
    reveal_with_fuel(crate::regex::transform::sp_concat_rest, 8);
    reveal_with_fuel(crate::regex::transform::sp_asterisk, 8);
    reveal_with_fuel(crate::regex::transform::sp_primary, 8);
    assert(spec_parse(wild_pattern()) =~~= Some(wild_ops()));
}

#[verifier::rlimit(100)]
proof fn lemma_wild_build()
    ensures
        spec_build(wild_ops()) == (
            wild_nfa(),
            Automaton { start_state: 1usize, end_state: 4usize },
        ),
{
    reveal_with_fuel(spec_nfa_fold, 7);
    assert(spec_build(wild_ops()).0 =~~= wild_nfa());
    assert(spec_build(wild_ops()).1 == Automaton { start_state: 1usize, end_state: 4usize });
}

#[verifier::rlimit(100)]
proof fn lemma_wild_alphabet()
    ensures
        spec_alphabet(wild_nfa(), 1usize) == seq!['a', 'c'],
{
    reveal_with_fuel(super::state::spec_dfs, 8);
    reveal_with_fuel(super::state::rev_targets, 4);
    reveal_with_fuel(super::alpha_insert, 4);
    reveal_with_fuel(super::spec_alphabet_from, 8);
    assert(falses(6) =~= seq![false, false, false, false, false, false]);
    assert(super::state::spec_dfs(wild_nfa(), seq![1usize], falses(6), Seq::empty()) =~~= seq![
        1usize,
        0usize,
        3usize,
        2usize,
        5usize,
        4usize,
    ]);
    assert(spec_alphabet(wild_nfa(), 1usize) =~~= seq!['a', 'c']);
}

#[verifier::rlimit(100)]
proof fn lemma_wild_start_set()
    ensures
        dedup_append(
            Seq::empty(),
            spec_follow(wild_nfa(), seq![1usize], falses(6), Seq::empty()),
        ) == seq![1usize],
{
    reveal_with_fuel(super::state::spec_follow, 4);
    reveal_with_fuel(super::state::sv_delta, 4);
    reveal_with_fuel(dedup_append, 3);
    assert(spec_follow(wild_nfa(), seq![1usize], falses(6), Seq::empty()) =~~= seq![1usize]);
    assert(dedup_append(Seq::empty(), seq![1usize]) =~~= seq![1usize]);
}

/// The closure-successor sets the worklist derives, one lemma per source
/// subset and symbol kind.
#[verifier::rlimit(100)]
proof fn lemma_wild_delta_sets()
    ensures
        spec_delta_states(wild_nfa(), 'a', seq![1usize]) == seq![3usize],
        spec_delta_states(wild_nfa(), 'c', seq![1usize]) == Seq::<usize>::empty(),
        spec_class_states(wild_nfa(), seq![1usize]) == Seq::<usize>::empty(),
        spec_delta_states(wild_nfa(), 'a', seq![3usize]) == seq![5usize],
        spec_delta_states(wild_nfa(), 'c', seq![3usize]) == seq![5usize],
        spec_class_states(wild_nfa(), seq![3usize]) == seq![5usize],
        spec_delta_states(wild_nfa(), 'a', seq![5usize]) == Seq::<usize>::empty(),
        spec_delta_states(wild_nfa(), 'c', seq![5usize]) == seq![4usize],
        spec_class_states(wild_nfa(), seq![5usize]) == Seq::<usize>::empty(),
        spec_delta_states(wild_nfa(), 'a', seq![4usize]) == Seq::<usize>::empty(),
        spec_delta_states(wild_nfa(), 'c', seq![4usize]) == Seq::<usize>::empty(),
        spec_class_states(wild_nfa(), seq![4usize]) == Seq::<usize>::empty(),
{
    reveal_with_fuel(super::state::spec_follow, 4);
    reveal_with_fuel(super::state::sv_delta, 4);
    reveal_with_fuel(super::state::sv_delta_matching, 4);
    reveal_with_fuel(super::state::bfs_enqueue, 3);
    reveal_with_fuel(dedup_append, 3);
    reveal_with_fuel(spec_closure_fold, 3);
    reveal_with_fuel(spec_delta_states_from, 3);
    reveal_with_fuel(spec_class_states_from, 3);
    let ng = wild_nfa();
    assert(falses(6) =~= seq![false, false, false, false, false, false]);
    assert(sv_delta_matching(ng[1].edges(), 'a') =~~= seq![0usize]);
    assert(spec_follow(ng, seq![0usize], falses(6), Seq::empty()) =~~= seq![3usize]);
    assert(spec_delta_states(ng, 'a', seq![1usize]) =~~= seq![3usize]);
    assert(sv_delta_matching(ng[1].edges(), 'c') =~~= Seq::<usize>::empty());
    assert(spec_delta_states(ng, 'c', seq![1usize]) =~~= Seq::<usize>::empty());
    assert(sv_delta(ng[1].edges(), Symbol::CharClass(Class::All)) =~~= Seq::<usize>::empty());
    assert(spec_class_states(ng, seq![1usize]) =~~= Seq::<usize>::empty());
    assert(sv_delta_matching(ng[3].edges(), 'a') =~~= seq![2usize]);
    assert(sv_delta_matching(ng[3].edges(), 'c') =~~= seq![2usize]);
    assert(sv_delta(ng[3].edges(), Symbol::CharClass(Class::All)) =~~= seq![2usize]);
    assert(spec_follow(ng, seq![2usize], falses(6), Seq::empty()) =~~= seq![5usize]);
    assert(spec_delta_states(ng, 'a', seq![3usize]) =~~= seq![5usize]);
    assert(spec_delta_states(ng, 'c', seq![3usize]) =~~= seq![5usize]);
    assert(spec_class_states(ng, seq![3usize]) =~~= seq![5usize]);
    assert(sv_delta_matching(ng[5].edges(), 'a') =~~= Seq::<usize>::empty());
    assert(spec_delta_states(ng, 'a', seq![5usize]) =~~= Seq::<usize>::empty());
    assert(sv_delta_matching(ng[5].edges(), 'c') =~~= seq![4usize]);
    assert(spec_follow(ng, seq![4usize], falses(6), Seq::empty()) =~~= seq![4usize]);
    assert(spec_delta_states(ng, 'c', seq![5usize]) =~~= seq![4usize]);
    assert(sv_delta(ng[5].edges(), Symbol::CharClass(Class::All)) =~~= Seq::<usize>::empty());
    assert(spec_class_states(ng, seq![5usize]) =~~= Seq::<usize>::empty());
    assert(ng[4].edges() =~~= Seq::<Edge>::empty());
    assert(spec_delta_states(ng, 'a', seq![4usize]) =~~= Seq::<usize>::empty());
    assert(spec_delta_states(ng, 'c', seq![4usize]) =~~= Seq::<usize>::empty());
    assert(spec_class_states(ng, seq![4usize]) =~~= Seq::<usize>::empty());
}

/// The worklist states between entries.
spec fn wild_d0() -> Seq<StateV> {
    seq![StateV::Accept(0usize), StateV::Accept(1usize)]
}

spec fn wild_q0() -> Seq<(usize, Seq<usize>)> {
    seq![(0usize, seq![1usize])]
}

spec fn wild_m0() -> Seq<(Seq<usize>, usize)> {
    seq![(seq![1usize], 0usize)]
}

spec fn wild_q1() -> Seq<(usize, Seq<usize>)> {
    seq![(0usize, seq![1usize]), (2usize, seq![3usize])]
}

spec fn wild_m1() -> Seq<(Seq<usize>, usize)> {
    seq![(seq![1usize], 0usize), (seq![3usize], 2usize)]
}

spec fn wild_q2() -> Seq<(usize, Seq<usize>)> {
    seq![(0usize, seq![1usize]), (2usize, seq![3usize]), (3usize, seq![5usize])]
}

spec fn wild_m2() -> Seq<(Seq<usize>, usize)> {
    seq![(seq![1usize], 0usize), (seq![3usize], 2usize), (seq![5usize], 3usize)]
}

spec fn wild_q3() -> Seq<(usize, Seq<usize>)> {
    seq![
        (0usize, seq![1usize]),
        (2usize, seq![3usize]),
        (3usize, seq![5usize]),
        (4usize, seq![4usize]),
    ]
}

spec fn wild_m3() -> Seq<(Seq<usize>, usize)> {
    seq![
        (seq![1usize], 0usize),
        (seq![3usize], 2usize),
        (seq![5usize], 3usize),
        (seq![4usize], 4usize),
    ]
}

#[verifier::rlimit(100)]
proof fn lemma_wild_step0()
    ensures
        spec_worklist(
            wild_nfa(),
            seq!['a', 'c'],
            4usize,
            wild_d0(),
            wild_q0(),
            0,
            wild_m0(),
            Seq::empty(),
        ) == spec_worklist(
            wild_nfa(),
            seq!['a', 'c'],
            4usize,
            wild_d1(),
            wild_q1(),
            1,
            wild_m1(),
            Seq::empty(),
        ),
{
    let ng = wild_nfa();
    let al = seq!['a', 'c'];
    lemma_wild_delta_sets();
    reveal_with_fuel(spec_gen_chars, 4);
    reveal_with_fuel(sort_ids, 3);
    reveal_with_fuel(sorted_pos, 3);
    reveal_with_fuel(memo_find, 5);
    assert(al.drop_last() =~= seq!['a']);
    assert(seq!['a'].drop_last() =~= Seq::<char>::empty());
    assert(sort_ids(seq![3usize]) =~~= seq![3usize]);
    assert(seq![1usize] != seq![3usize]) by {
        assert(seq![1usize][0] != seq![3usize][0]);
    }
    assert(memo_find(wild_m0(), seq![3usize]) is None);
    assert(spec_gen_chars(ng, al, seq![1usize], 0usize, wild_d0(), wild_q0(), wild_m0()) =~~= (
        wild_d1(),
        wild_q1(),
        wild_m1(),
    ));
    assert(!wild_q0()[0].1.contains(4usize));
    assert(memo_keys_ok(wild_m0(), 6));
    assert(spec_worklist(ng, al, 4usize, wild_d0(), wild_q0(), 0, wild_m0(), Seq::empty())
        == spec_worklist(ng, al, 4usize, wild_d1(), wild_q1(), 1, wild_m1(), Seq::empty()));
}

#[verifier::rlimit(100)]
proof fn lemma_wild_step1()
    ensures
        spec_worklist(
            wild_nfa(),
            seq!['a', 'c'],
            4usize,
            wild_d1(),
            wild_q1(),
            1,
            wild_m1(),
            Seq::empty(),
        ) == spec_worklist(
            wild_nfa(),
            seq!['a', 'c'],
            4usize,
            wild_d2(),
            wild_q2(),
            2,
            wild_m2(),
            Seq::empty(),
        ),
{
    let ng = wild_nfa();
    let al = seq!['a', 'c'];
    lemma_wild_delta_sets();
    reveal_with_fuel(spec_gen_chars, 4);
    reveal_with_fuel(sort_ids, 3);
    reveal_with_fuel(sorted_pos, 3);
    reveal_with_fuel(memo_find, 5);
    reveal_with_fuel(super::state::insert_pos, 4);
    assert(al.drop_last() =~= seq!['a']);
    assert(seq!['a'].drop_last() =~= Seq::<char>::empty());
    assert(sort_ids(seq![5usize]) =~~= seq![5usize]);
    assert(seq![1usize] != seq![5usize]) by {
        assert(seq![1usize][0] != seq![5usize][0]);
    }
    assert(seq![3usize] != seq![5usize]) by {
        assert(seq![3usize][0] != seq![5usize][0]);
    }
    assert(memo_find(wild_m1(), seq![5usize]) is None);
    assert(memo_find(wild_m2(), seq![5usize]) == Some(3usize));
    assert(spec_gen_chars(ng, al, seq![3usize], 2usize, wild_d1(), wild_q1(), wild_m1()) =~~= (
        seq![
            StateV::Transition(seq![(Symbol::Alphabet('a'), Some(2usize))], 0usize),
            StateV::Accept(1usize),
            StateV::Transition(
                seq![(Symbol::Alphabet('a'), Some(3usize)), (Symbol::Alphabet('c'), Some(3usize))],
                2usize,
            ),
            StateV::Accept(3usize),
        ],
        wild_q2(),
        wild_m2(),
    ));
    let g1 = spec_gen_chars(ng, al, seq![3usize], 2usize, wild_d1(), wild_q1(), wild_m1());
    let g2 = spec_gen_one(
        Symbol::CharClass(Class::All),
        spec_class_states(ng, seq![3usize]),
        2usize,
        g1.0,
        g1.1,
        g1.2,
    );
    assert(g2 =~~= (wild_d2(), wild_q2(), wild_m2()));
    assert(!wild_q1()[1].1.contains(4usize));
    assert(memo_keys_ok(wild_m1(), 6));
    assert(spec_worklist(ng, al, 4usize, wild_d1(), wild_q1(), 1, wild_m1(), Seq::empty())
        == spec_worklist(ng, al, 4usize, wild_d2(), wild_q2(), 2, wild_m2(), Seq::empty()));
}

#[verifier::rlimit(100)]
proof fn lemma_wild_step2()
    ensures
        spec_worklist(
            wild_nfa(),
            seq!['a', 'c'],
            4usize,
            wild_d2(),
            wild_q2(),
            2,
            wild_m2(),
            Seq::empty(),
        ) == spec_worklist(
            wild_nfa(),
            seq!['a', 'c'],
            4usize,
            wild_d3(),
            wild_q3(),
            3,
            wild_m3(),
            Seq::empty(),
        ),
{
    let ng = wild_nfa();
    let al = seq!['a', 'c'];
    lemma_wild_delta_sets();
    reveal_with_fuel(spec_gen_chars, 4);
    reveal_with_fuel(sort_ids, 3);
    reveal_with_fuel(sorted_pos, 3);
    reveal_with_fuel(memo_find, 5);
    assert(al.drop_last() =~= seq!['a']);
    assert(seq!['a'].drop_last() =~= Seq::<char>::empty());
    assert(sort_ids(seq![4usize]) =~~= seq![4usize]);
    assert(seq![1usize] != seq![4usize]) by {
        assert(seq![1usize][0] != seq![4usize][0]);
    }
    assert(seq![3usize] != seq![4usize]) by {
        assert(seq![3usize][0] != seq![4usize][0]);
    }
    assert(seq![5usize] != seq![4usize]) by {
        assert(seq![5usize][0] != seq![4usize][0]);
    }
    assert(memo_find(wild_m2(), seq![4usize]) is None);
    assert(spec_gen_chars(ng, al, seq![5usize], 3usize, wild_d2(), wild_q2(), wild_m2()) =~~= (
        wild_d3(),
        wild_q3(),
        wild_m3(),
    ));
    assert(!wild_q2()[2].1.contains(4usize));
    assert(memo_keys_ok(wild_m2(), 6));
    assert(spec_worklist(ng, al, 4usize, wild_d2(), wild_q2(), 2, wild_m2(), Seq::empty())
        == spec_worklist(ng, al, 4usize, wild_d3(), wild_q3(), 3, wild_m3(), Seq::empty()));
}

#[verifier::rlimit(100)]
proof fn lemma_wild_step3()
    ensures
        spec_worklist(
            wild_nfa(),
            seq!['a', 'c'],
            4usize,
            wild_d3(),
            wild_q3(),
            3,
            wild_m3(),
            Seq::empty(),
        ) == (wild_d3(), seq![4usize]),
{
    let ng = wild_nfa();
    let al = seq!['a', 'c'];
    lemma_wild_delta_sets();
    reveal_with_fuel(spec_worklist, 3);
    reveal_with_fuel(spec_gen_chars, 4);
    assert(al.drop_last() =~= seq!['a']);
    assert(seq!['a'].drop_last() =~= Seq::<char>::empty());
    assert(wild_q3()[3].1.contains(4usize)) by {
        assert(wild_q3()[3].1[0] == 4usize);
    }
    assert(spec_gen_chars(ng, al, seq![4usize], 4usize, wild_d3(), wild_q3(), wild_m3()) =~~= (
        wild_d3(),
        wild_q3(),
        wild_m3(),
    ));
    assert(memo_keys_ok(wild_m3(), 6));
    assert(Seq::<usize>::empty().push(4usize) =~= seq![4usize]);
    assert(spec_worklist(ng, al, 4usize, wild_d3(), wild_q3(), 3, wild_m3(), Seq::empty())
        == (wild_d3(), seq![4usize]));
}

#[verifier::rlimit(100)]
proof fn lemma_wild_construct()
    ensures
        spec_construct(wild_pattern()) == Some(
            (wild_dfa(), Automaton { start_state: 0usize, end_state: 1usize }),
        ),
{
    lemma_wild_parse();
    lemma_wild_build();
    lemma_wild_alphabet();
    lemma_wild_start_set();
    lemma_wild_step0();
    lemma_wild_step1();
    lemma_wild_step2();
    lemma_wild_step3();
    reveal_with_fuel(sort_ids, 3);
    reveal_with_fuel(sorted_pos, 3);
    reveal_with_fuel(spec_attach, 3);
    reveal_with_fuel(super::state::insert_pos, 3);
    assert(sort_ids(seq![1usize]) =~~= seq![1usize]);
    let start_set = dedup_append(
        Seq::empty(),
        spec_follow(wild_nfa(), seq![1usize], falses(wild_nfa().len()), Seq::empty()),
    );
    assert(start_set == seq![1usize]);
    assert(seq![StateV::Accept(0usize), StateV::Accept(1usize)] =~~= wild_d0());
    assert(seq![(0usize, start_set)] =~~= wild_q0());
    assert(seq![(sort_ids(start_set), 0usize)] =~~= wild_m0());
    assert(spec_attach(wild_d3(), seq![4usize], 1usize) =~~= wild_dfa());
}

#[verifier::rlimit(100)]
proof fn lemma_wild_walk(x: char)
    ensures
        spec_accepted(wild_dfa(), 0usize, seq!['a', x, 'c']),
        !spec_accepted(wild_dfa(), 0usize, seq!['a', 'c']),
{
    let d = wild_dfa();
    reveal_with_fuel(spec_walk, 5);
    reveal_with_fuel(super::state::sv_delta, 5);
    reveal_with_fuel(super::state::spec_follow, 4);
    reveal_with_fuel(super::state::bfs_enqueue, 3);
    let input = seq!['a', x, 'c'];
    assert(input.drop_first() =~= seq![x, 'c']);
    assert(seq![x, 'c'].drop_first() =~= seq!['c']);
    assert(seq!['c'].drop_first() =~= Seq::<char>::empty());
    assert(sv_delta(d[0].edges(), Symbol::Alphabet('a')) =~~= seq![2usize]);
    assert(spec_step_char(d, 0usize, 'a') == Some(2usize));
    // Whatever x is, the second step lands on node 3: by an exact edge when
    // x is `a` or `c`, else by the class edge.
    if x == 'a' || x == 'c' {
        assert(sv_delta(d[2].edges(), Symbol::Alphabet(x)) =~~= seq![3usize]);
    } else {
        assert(sv_delta(d[2].edges(), Symbol::Alphabet(x)) =~~= Seq::<usize>::empty());
        assert(sv_delta(d[2].edges(), Symbol::CharClass(Class::All)) =~~= seq![3usize]);
    }
    assert(spec_step_char(d, 2usize, x) == Some(3usize));
    assert(sv_delta(d[3].edges(), Symbol::Alphabet('c')) =~~= seq![4usize]);
    assert(spec_step_char(d, 3usize, 'c') == Some(4usize));
    assert(spec_walk(d, 0usize, input) == Some(4usize));
    assert(falses(5) =~= seq![false, false, false, false, false]);
    let cl = spec_follow(d, seq![4usize], falses(d.len()), Seq::empty());
    assert(cl =~~= seq![1usize]);
    assert(cl[0] == 1usize);
    assert(d[1].is_accept());
    assert(closure_has_accept(d, 4usize));
    // Without a character for the wildcard the walk ends at node 3, whose
    // epsilon closure holds no accepting node.
    assert(seq!['a', 'c'].drop_first() =~= seq!['c']);
    assert(spec_step_char(d, 2usize, 'c') == Some(3usize));
    assert(spec_walk(d, 0usize, seq!['a', 'c']) == Some(3usize));
    let cl3 = spec_follow(d, seq![3usize], falses(d.len()), Seq::empty());
    assert(cl3 =~~= seq![3usize]);
    assert(cl3[0] == 3usize);
    assert(!d[3].is_accept());
    assert(!closure_has_accept(d, 3usize));
}

/// Law: the wildcard requires exactly one character. The pattern `a.c`
/// compiles, and the compiled automaton accepts `a`, then any single
/// character in place of the dot, whatever it is, then `c` — and rejects
/// plain `ac`, where no character stands for the dot.
pub proof fn lemma_wildcard_single_char(x: char)
    ensures
        spec_construct(seq!['a', '.', 'c']) is Some,
        spec_accepted(
            (spec_construct(seq!['a', '.', 'c'])->0).0,
            (spec_construct(seq!['a', '.', 'c'])->0).1.start_state,
            seq!['a', x, 'c'],
        ),
        !spec_accepted(
            (spec_construct(seq!['a', '.', 'c'])->0).0,
            (spec_construct(seq!['a', '.', 'c'])->0).1.start_state,
            seq!['a', 'c'],
        ),
{
    lemma_wild_construct();
    lemma_wild_walk(x);
}

} // verus!
