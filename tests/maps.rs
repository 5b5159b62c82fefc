use symbol_tables::{replay, Answer, Op, PrioritySource, SymbolTable, A23, ABB, ARN, TR, VO};

fn five() -> (VO<u64, u64>, ABB<u64, u64>, TR<u64, u64>, ARN<u64, u64>, A23<u64, u64>) {
    (VO::new(), ABB::new(), TR::new(), ARN::new(), A23::new())
}

fn small_scenario<T: SymbolTable<u64, u64>>(mut st: T) {
    for (k, v) in [5u64, 3, 8, 1, 4].iter().zip([50u64, 30, 80, 10, 40].iter()) {
        st.add(*k, *v);
    }
    assert_eq!(st.rank(&4), 2);
    assert_eq!(st.select(0), Some(&1));
    assert_eq!(st.select(4), Some(&8));
    assert_eq!(st.select(5), None);
    assert_eq!(st.value(&8).map(|v| *v), Some(80));
    assert_eq!(st.value(&9).map(|v| *v), None);
}

#[test]
fn five_keys_scenario() {
    let (a, b, c, d, e) = five();
    small_scenario(a);
    small_scenario(b);
    small_scenario(c);
    small_scenario(d);
    small_scenario(e);
}

fn readd_scenario<T: SymbolTable<u64, u64>>(mut st: T) {
    st.add(5, 50);
    let before = st.rank(&5);
    st.add(5, 500);
    assert_eq!(st.value(&5).map(|v| *v), Some(500));
    assert_eq!(st.rank(&5), before);
    assert_eq!(st.select(0), Some(&5));
    assert_eq!(st.select(1), None);
}

#[test]
fn same_key_twice_keeps_last_value() {
    let (a, b, c, d, e) = five();
    readd_scenario(a);
    readd_scenario(b);
    readd_scenario(c);
    readd_scenario(d);
    readd_scenario(e);
}

fn empty_scenario<T: SymbolTable<u64, u64>>(mut st: T) {
    assert_eq!(st.rank(&0), 0);
    assert_eq!(st.rank(&u64::MAX), 0);
    assert_eq!(st.select(0), None);
    assert!(st.value(&7).is_none());
}

#[test]
fn empty_map_answers() {
    let (a, b, c, d, e) = five();
    empty_scenario(a);
    empty_scenario(b);
    empty_scenario(c);
    empty_scenario(d);
    empty_scenario(e);
}

fn counting<T: SymbolTable<u64, u64>>(mut st: T) {
    for w in [3u64, 1, 3, 2, 3, 1] {
        match st.value(&w) {
            Some(c) => *c += 1,
            None => st.add(w, 1),
        }
    }
    assert_eq!(st.value(&1).map(|v| *v), Some(2));
    assert_eq!(st.value(&2).map(|v| *v), Some(1));
    assert_eq!(st.value(&3).map(|v| *v), Some(3));
    assert_eq!(st.rank(&3), 2);
    assert_eq!(st.rank(&4), 3);
}

#[test]
fn value_handle_updates_in_place() {
    let (a, b, c, d, e) = five();
    counting(a);
    counting(b);
    counting(c);
    counting(d);
    counting(e);
}

fn rank_select_inverse<T: SymbolTable<u64, u64>>(mut st: T) {
    let mut x: u64 = 7;
    for _ in 0..300 {
        x = (x * 1103515245 + 12345) % 2147483648;
        st.add(x % 1000, x);
    }
    let mut k = 0usize;
    while let Some(key) = st.select(k) {
        let key = *key;
        assert_eq!(st.rank(&key), k);
        k += 1;
    }
    assert!(k > 0 && k <= 300);
    for q in 0..1000u64 {
        let r = st.rank(&q);
        if r < k {
            assert!(*st.select(r).unwrap() >= q);
        }
        if r > 0 {
            assert!(*st.select(r - 1).unwrap() < q);
        }
    }
}

#[test]
fn rank_of_selected_key_is_its_position() {
    let (a, b, c, d, e) = five();
    rank_select_inverse(a);
    rank_select_inverse(b);
    rank_select_inverse(c);
    rank_select_inverse(d);
    rank_select_inverse(e);
}

fn size_of<T: SymbolTable<u64, u64>>(st: &T) -> usize {
    let mut k = 0usize;
    while st.select(k).is_some() {
        k += 1;
    }
    k
}

fn update_and_growth<T: SymbolTable<u64, u64>>(mut st: T) {
    for k in [10u64, 20, 30, 40] {
        st.add(k, k);
    }
    let ranks: Vec<usize> = (0..50u64).map(|q| st.rank(&q)).collect();
    let keys: Vec<Option<u64>> = (0..6usize).map(|i| st.select(i).copied()).collect();
    st.add(30, 999);
    assert_eq!(size_of(&st), 4);
    assert_eq!((0..50u64).map(|q| st.rank(&q)).collect::<Vec<_>>(), ranks);
    assert_eq!((0..6usize).map(|i| st.select(i).copied()).collect::<Vec<_>>(), keys);
    assert_eq!(st.value(&30).map(|v| *v), Some(999));
    st.add(25, 1);
    assert_eq!(size_of(&st), 5);
    assert_eq!(st.select(2), Some(&25));
}

#[test]
fn readding_changes_only_the_value_and_new_keys_grow_size() {
    let (a, b, c, d, e) = five();
    update_and_growth(a);
    update_and_growth(b);
    update_and_growth(c);
    update_and_growth(d);
    update_and_growth(e);
}

fn script(seed: u64, n: usize) -> Vec<Op<u64, u64>> {
    let mut x = seed;
    let mut ops = Vec::new();
    for _ in 0..n {
        x = (x * 6364136223846793005u64.wrapping_add(0)).wrapping_add(1442695040888963407);
        let k = (x >> 33) % 200;
        ops.push(match (x >> 20) % 4 {
            0 => Op::Add(k, x >> 40),
            1 => Op::Value(k),
            2 => Op::Rank(k),
            _ => Op::Select(((x >> 40) % 220) as usize),
        });
    }
    ops
}

#[test]
fn all_strategies_answer_alike() {
    for seed in 1..6u64 {
        let ops = script(seed, 2000);
        let expected = replay(&mut VO::new(), &ops);
        assert_eq!(replay(&mut ABB::new(), &ops), expected);
        assert_eq!(replay(&mut TR::new(), &ops), expected);
        assert_eq!(replay(&mut TR::with_seed(seed), &ops), expected);
        assert_eq!(replay(&mut ARN::new(), &ops), expected);
        assert_eq!(replay(&mut A23::new(), &ops), expected);
    }
}

#[test]
fn replay_reports_each_answer() {
    let ops = vec![
        Op::Add(5, 50),
        Op::Add(3, 30),
        Op::Value(3),
        Op::Value(4),
        Op::Rank(4),
        Op::Select(1),
        Op::Select(2),
    ];
    let expected = vec![
        Answer::Added,
        Answer::Added,
        Answer::Value(Some(30)),
        Answer::Value(None),
        Answer::Rank(1),
        Answer::Select(Some(5)),
        Answer::Select(None),
    ];
    assert_eq!(replay(&mut ARN::<u64, u64>::new(), &ops), expected);
    assert_eq!(replay(&mut A23::<u64, u64>::new(), &ops), expected);
}

fn log2_ceil(n: usize) -> usize {
    let mut h = 0;
    while (1usize << h) < n {
        h += 1;
    }
    h
}

#[test]
fn balanced_trees_stay_low_on_sorted_input() {
    let mut rb: ARN<u64, u64> = ARN::new();
    let mut t23: A23<u64, u64> = A23::new();
    let n = 4095usize;
    for k in 0..n as u64 {
        rb.add(k, k);
        t23.add(k, k);
    }
    let bound = log2_ceil(n + 1);
    assert!(rb.levels() <= 2 * bound);
    assert!(t23.levels() <= bound);
    assert_eq!(t23.levels(), 12);
    assert_eq!(size_of(&rb), n);
    assert_eq!(size_of(&t23), n);
}

#[test]
fn balanced_trees_stay_low_on_mixed_input() {
    let mut rb: ARN<u64, u64> = ARN::new();
    let mut t23: A23<u64, u64> = A23::new();
    let mut x: u64 = 11;
    for _ in 0..3000 {
        x = (x * 1103515245 + 12345) % 2147483648;
        rb.add(x, 0);
        t23.add(x, 0);
    }
    let n = size_of(&rb);
    assert_eq!(n, size_of(&t23));
    assert!(rb.levels() <= 2 * log2_ceil(n + 1));
    assert!(t23.levels() <= log2_ceil(n + 1));
}

#[test]
fn unbalanced_tree_degrades_on_sorted_input() {
    let mut t: ABB<u64, u64> = ABB::new();
    for k in 0..500u64 {
        t.add(k, k);
    }
    assert_eq!(t.levels(), 500);
    let mut u: ABB<u64, u64> = ABB::new();
    for k in [4u64, 2, 6, 1, 3, 5, 7] {
        u.add(k, k);
    }
    assert_eq!(u.levels(), 3);
}

#[test]
fn empty_trees_have_no_levels() {
    assert_eq!(ABB::<u64, u64>::new().levels(), 0);
    assert_eq!(ARN::<u64, u64>::new().levels(), 0);
    assert_eq!(A23::<u64, u64>::new().levels(), 0);
    let mut t: A23<u64, u64> = A23::new();
    t.add(1, 1);
    t.add(2, 2);
    assert_eq!(t.levels(), 1);
    t.add(3, 3);
    assert_eq!(t.levels(), 2);
}

#[test]
fn priority_sequence_is_deterministic() {
    let mut p = PrioritySource::new(0);
    assert_eq!(p.peek(), 12345);
    assert_eq!(p.draw(), 12345);
    assert_eq!(p.draw(), (12345u64 * 1103515245 + 12345) % 2147483648);
    let mut q = PrioritySource::new(2147483648);
    assert_eq!(q.draw(), 12345);
}

#[test]
fn keys_at_the_extremes() {
    let (mut a, mut b, mut c, mut d, mut e) = five();
    for k in [u64::MAX, 0, u64::MAX - 1, 1] {
        a.add(k, k);
        b.add(k, k);
        c.add(k, k);
        d.add(k, k);
        e.add(k, k);
    }
    assert_eq!(a.rank(&u64::MAX), 3);
    assert_eq!(b.rank(&u64::MAX), 3);
    assert_eq!(c.rank(&u64::MAX), 3);
    assert_eq!(d.rank(&u64::MAX), 3);
    assert_eq!(e.rank(&u64::MAX), 3);
    assert_eq!(e.select(3), Some(&u64::MAX));
    assert_eq!(d.select(0), Some(&0));
    assert_eq!(a.rank(&0), 0);
}

fn signed_keys<T: SymbolTable<i64, String>>(mut st: T) {
    for k in [-5i64, 7, 0, -100, 42] {
        st.add(k, format!("v{}", k));
    }
    assert_eq!(st.rank(&0), 2);
    assert_eq!(st.rank(&-1000), 0);
    assert_eq!(st.select(0), Some(&-100));
    assert_eq!(st.select(4), Some(&42));
    st.add(0, String::from("zero"));
    assert_eq!(st.value(&0).map(|v| v.clone()), Some(String::from("zero")));
    assert_eq!(st.value(&-5).map(|v| v.clone()), Some(String::from("v-5")));
    if let Some(v) = st.value(&7) {
        v.push('!');
    }
    assert_eq!(st.value(&7).map(|v| v.clone()), Some(String::from("v7!")));
    assert!(st.value(&1).is_none());
}

#[test]
fn signed_keys_and_owned_values() {
    signed_keys(VO::<i64, String>::new());
    signed_keys(ABB::<i64, String>::new());
    signed_keys(TR::<i64, String>::new());
    signed_keys(ARN::<i64, String>::new());
    signed_keys(A23::<i64, String>::new());
}

#[test]
fn replay_with_signed_keys_agrees_across_strategies() {
    let mut ops: Vec<Op<i64, i32>> = Vec::new();
    let mut x: i64 = 3;
    for i in 0..600 {
        x = (x * 48271) % 2147483647;
        let k = (x % 101) - 50;
        ops.push(match i % 4 {
            0 => Op::Add(k, i),
            1 => Op::Value(k),
            2 => Op::Rank(k),
            _ => Op::Select((x % 60) as usize),
        });
    }
    let expected = replay(&mut VO::<i64, i32>::new(), &ops);
    assert_eq!(replay(&mut ABB::<i64, i32>::new(), &ops), expected);
    assert_eq!(replay(&mut TR::<i64, i32>::new(), &ops), expected);
    assert_eq!(replay(&mut ARN::<i64, i32>::new(), &ops), expected);
    assert_eq!(replay(&mut A23::<i64, i32>::new(), &ops), expected);
    assert_eq!(expected[0], Answer::Added);
}

#[test]
fn increasing_keys_make_a_chain_in_the_unbalanced_tree() {
    let mut t: ABB<i64, i64> = ABB::new();
    for k in 1..=5i64 {
        t.add(k, k);
    }
    assert_eq!(t.levels(), 5);
    t.add(3, 30);
    assert_eq!(t.levels(), 5);
    assert_eq!(t.value(&3).map(|v| *v), Some(30));
}
