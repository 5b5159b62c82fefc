use symbol_tables::pilha::Pilha;
use symbol_tables::table::{dim, idx, next_empty, ok, Table};

#[test]
fn stack_push_pop_back() {
    let mut s: Pilha<u32> = Pilha::new();
    assert!(s.empty());
    assert_eq!(s.size(), 0);
    for i in 0..10 {
        s.push(i);
    }
    assert_eq!(s.size(), 10);
    assert!(!s.empty());
    assert_eq!(*s.back(), 9);
    *s.back() = 90;
    assert_eq!(*s.back(), 90);
    s.pop();
    assert_eq!(*s.back(), 8);
    assert_eq!(s.iter().iter().copied().collect::<Vec<_>>(), vec![0, 1, 2, 3, 4, 5, 6, 7, 8]);
    while !s.empty() {
        s.pop();
    }
    assert_eq!(s.size(), 0);
    assert!(s.iter().is_empty());
}

fn board(rows: &[&str]) -> Table {
    rows.iter().map(|r| r.chars().collect()).collect()
}

#[test]
fn board_dimensions_and_bounds() {
    let t = board(&["~ ~", "   "]);
    assert_eq!(dim(&t), (2, 3));
    assert!(ok(0, 0, &t));
    assert!(ok(1, 2, &t));
    assert!(!ok(2, 0, &t));
    assert!(!ok(0, 3, &t));
    assert!(!ok(-1, 0, &t));
    assert!(!ok(0, -1, &t));
    assert_eq!(idx(7), 7usize);
}

#[test]
fn next_empty_scans_row_by_row() {
    let t = board(&["~ ~", "~~~", "~~ "]);
    assert_eq!(next_empty(0, 0, &t), (0, 1));
    assert_eq!(next_empty(0, 1, &t), (0, 1));
    assert_eq!(next_empty(0, 2, &t), (2, 2));
    assert_eq!(next_empty(1, 0, &t), (2, 2));
}
