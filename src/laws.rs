//! Properties of the shared model that hold for every strategy, and a driver
//! that replays a script of operations against any of them.
use vstd::prelude::*;
use crate::entries::{
    add_entry, count_less, has_key, lemma_add_entry_bounds, lemma_add_entry_sorted,
    lemma_count_less_bound, lemma_count_less_split, lemma_count_less_unique, lemma_has_key,
    select_key, sorted_keys, value_of,
};
use crate::keys::{lemma_trichotomy, KeyBounds};
use crate::symbol_table::SymbolTable;

verus! {

/// `rank` undoes `select`: the key of rank `k` has exactly `k` keys before it.
pub proof fn lemma_rank_select<K: KeyBounds, V>(s: Seq<(K, V)>, k: int)
    requires
        sorted_keys(s),
        0 <= k < s.len(),
    ensures
        select_key(s, k) == Some(s[k].0),
        count_less(s, s[k].0) == k,
{
    assert forall|i: int| 0 <= i < k implies (#[trigger] s[i].0).precedes(s[k].0) by {}
    assert forall|i: int| k <= i < s.len() implies !(#[trigger] s[i].0).precedes(s[k].0) by {
        lemma_trichotomy(s[k].0, s[i].0);
        if k < i {
            assert(s[k].0.precedes(s[i].0));
        }
    }
    lemma_count_less_unique(s, s[k].0, k);
}

/// Adding a key that is already stored changes its value and nothing else:
/// the size, every rank and every selected key stay as they were.
pub proof fn lemma_update_not_insert<K: KeyBounds, V>(s: Seq<(K, V)>, k: K, v: V)
    requires
        sorted_keys(s),
        has_key(s, k),
    ensures
        add_entry(s, k, v).len() == s.len(),
        forall|q: K| count_less(#[trigger] add_entry(s, k, v), q) == count_less(s, q),
        forall|i: int| select_key(#[trigger] add_entry(s, k, v), i) == select_key(s, i),
        value_of(add_entry(s, k, v), k) == Some(v),
{
    let t = add_entry(s, k, v);
    let c = count_less(s, k) as int;
    lemma_add_entry_sorted(s, k, v);
    assert forall|i: int| 0 <= i < s.len() implies #[trigger] t[i].0 == s[i].0 by {}
    assert forall|q: K| count_less(#[trigger] add_entry(s, k, v), q) == count_less(s, q) by {
        lemma_count_less_split(s, q);
        let r = count_less(s, q) as int;
        assert forall|i: int| 0 <= i < r implies (#[trigger] t[i].0).precedes(q) by {
            assert(t[i].0 == s[i].0);
        }
        assert forall|i: int| r <= i < t.len() implies !(#[trigger] t[i].0).precedes(q) by {
            assert(t[i].0 == s[i].0);
        }
        lemma_count_less_unique(t, q, r);
    }
    assert forall|i: int| select_key(#[trigger] add_entry(s, k, v), i) == select_key(s, i) by {
        if 0 <= i < s.len() {
            assert(t[i].0 == s[i].0);
        }
    }
    assert(count_less(t, k) == c);
}

/// The size never decreases: it grows by one exactly when the key is new.
pub proof fn lemma_size_grows<K: KeyBounds, V>(s: Seq<(K, V)>, k: K, v: V)
    requires
        sorted_keys(s),
    ensures
        has_key(s, k) ==> add_entry(s, k, v).len() == s.len(),
        !has_key(s, k) ==> add_entry(s, k, v).len() == s.len() + 1,
        has_key(add_entry(s, k, v), k),
{
    lemma_add_entry_bounds(s, k, v, k);
    lemma_add_entry_sorted(s, k, v);
    lemma_count_less_bound(s, k);
    let t = add_entry(s, k, v);
    let c = count_less(s, k) as int;
    assert(t[c].0 == k);
    lemma_has_key(t, k);
}

/// One call of the shared contract.
#[derive(PartialEq, Eq, Clone, Copy, Debug)]
pub enum Op<K, V> {
    Add(K, V),
    Value(K),
    Rank(K),
    Select(usize),
}

/// What a call returned.
#[derive(PartialEq, Eq, Clone, Copy, Debug)]
pub enum Answer<K, V> {
    Added,
    Value(Option<V>),
    Rank(usize),
    Select(Option<K>),
}

/// The entries after one call.
pub open spec fn step<K: KeyBounds, V>(s: Seq<(K, V)>, op: Op<K, V>) -> Seq<(K, V)> {
    match op {
        Op::Add(k, v) => add_entry(s, k, v),
        _ => s,
    }
}

/// The answer to one call.
pub open spec fn answer<K: KeyBounds, V>(s: Seq<(K, V)>, op: Op<K, V>) -> Answer<K, V> {
    match op {
        Op::Add(_, _) => Answer::Added,
        Op::Value(k) => Answer::Value(value_of(s, k)),
        Op::Rank(k) => Answer::Rank(count_less(s, k) as usize),
        Op::Select(i) => Answer::Select(select_key(s, i as int)),
    }
}

/// The entries after a script of calls.
pub open spec fn run_entries<K: KeyBounds, V>(s: Seq<(K, V)>, ops: Seq<Op<K, V>>) -> Seq<(K, V)>
    decreases ops.len(),
{
    if ops.len() == 0 {
        s
    } else {
        step(run_entries(s, ops.drop_last()), ops.last())
    }
}

/// The answers to a script of calls.
pub open spec fn run_answers<K: KeyBounds, V>(s: Seq<(K, V)>, ops: Seq<Op<K, V>>) -> Seq<Answer<K, V>>
    decreases ops.len(),
{
    if ops.len() == 0 {
        Seq::empty()
    } else {
        run_answers(s, ops.drop_last()).push(answer(run_entries(s, ops.drop_last()), ops.last()))
    }
}

/// Replays `ops` against `table`. The answers are those of the model alone,
/// so every strategy, given the same script from the same contents, answers
/// exactly alike.
pub fn replay<K: KeyBounds + Copy, V: Copy, T: SymbolTable<K, V>>(
    table: &mut T,
    ops: &Vec<Op<K, V>>,
) -> (r: Vec<Answer<K, V>>)
    requires
        old(table).wf(),
        old(table).entries().len() + ops@.len() < usize::MAX,
    ensures
        final(table).wf(),
        final(table).entries() == run_entries(old(table).entries(), ops@),
        r@ == run_answers(old(table).entries(), ops@),
{
    let ghost start = table.entries();
    let mut answers: Vec<Answer<K, V>> = Vec::new();
    let mut i: usize = 0;
    while i < ops.len()
        invariant
            0 <= i <= ops@.len(),
            table.wf(),
            start.len() + ops@.len() < usize::MAX,
            table.entries() == run_entries(start, ops@.take(i as int)),
            table.entries().len() <= start.len() + i,
            answers@ == run_answers(start, ops@.take(i as int)),
        decreases ops@.len() - i,
    {
        let ghost before = table.entries();
        proof {
            table.lemma_entries_sorted();
            assert(ops@.take(i + 1).drop_last() =~= ops@.take(i as int));
        }
        let a = match ops[i] {
            Op::Add(k, v) => {
                proof {
                    lemma_add_entry_bounds(before, k, v, k);
                }
                table.add(k, v);
                Answer::Added
            },
            Op::Value(k) => match table.value(&k) {
                Some(v) => Answer::Value(Some(*v)),
                None => Answer::Value(None),
            },
            Op::Rank(k) => Answer::Rank(table.rank(&k)),
            Op::Select(k) => match table.select(k) {
                Some(x) => Answer::Select(Some(*x)),
                None => Answer::Select(None),
            },
        };
        answers.push(a);
        i = i + 1;
    }
    proof {
        assert(ops@.take(ops@.len() as int) =~= ops@);
    }
    answers
}

} // verus!
