use merge_iter::key_order::{compare_keys, keys_equal};
use merge_iter::{MergeIterator, StorageIterator};
use std::cell::Cell;
use std::cmp::Ordering;
use std::rc::Rc;

/// An in-memory sorted source that counts the advances made on all sources
/// sharing `calls`, and fails the advance whose number is `fail_at`.
struct Source {
    items: Vec<(Vec<u8>, Vec<u8>)>,
    pos: usize,
    calls: Rc<Cell<usize>>,
    fail_at: Option<usize>,
}

impl StorageIterator for Source {
    fn key(&self) -> &[u8] {
        if self.pos < self.items.len() {
            &self.items[self.pos].0
        } else {
            &[]
        }
    }

    fn value(&self) -> &[u8] {
        if self.pos < self.items.len() {
            &self.items[self.pos].1
        } else {
            &[]
        }
    }

    fn is_valid(&self) -> bool {
        self.pos < self.items.len()
    }

    fn next(&mut self) -> anyhow::Result<()> {
        let n = self.calls.get() + 1;
        self.calls.set(n);
        if self.fail_at == Some(n) {
            return Err(anyhow::Error::msg("injected failure"));
        }
        self.pos += 1;
        Ok(())
    }
}

fn source(items: &[(u8, &str)], calls: &Rc<Cell<usize>>, fail_at: Option<usize>) -> Box<Source> {
    Box::new(Source {
        items: items.iter().map(|(k, v)| (vec![*k], v.as_bytes().to_vec())).collect(),
        pos: 0,
        calls: calls.clone(),
        fail_at,
    })
}

fn drain<I: StorageIterator>(m: &mut I) -> Vec<(Vec<u8>, Vec<u8>)> {
    let mut out = Vec::new();
    while m.is_valid() {
        out.push((m.key().to_vec(), m.value().to_vec()));
        m.next().unwrap();
    }
    out
}

fn pairs(items: &[(u8, &str)]) -> Vec<(Vec<u8>, Vec<u8>)> {
    items.iter().map(|(k, v)| (vec![*k], v.as_bytes().to_vec())).collect()
}

#[test]
fn no_sources_is_exhausted_at_once() {
    let mut m: MergeIterator<Source> = MergeIterator::create(Vec::new());
    assert!(!m.is_valid());
    assert!(m.key().is_empty());
    assert!(m.value().is_empty());
    assert!(m.next().is_ok());
    assert!(!m.is_valid());
}

#[test]
fn only_empty_sources_is_exhausted_at_once() {
    let calls = Rc::new(Cell::new(0));
    let mut m = MergeIterator::create(vec![source(&[], &calls, None), source(&[], &calls, None)]);
    assert!(!m.is_valid());
    assert!(m.next().is_ok());
    assert_eq!(calls.get(), 0);
}

#[test]
fn scenario_smaller_index_wins() {
    let calls = Rc::new(Cell::new(0));
    let mut m = MergeIterator::create(vec![
        source(&[(1, "a"), (3, "c")], &calls, None),
        source(&[(1, "b"), (2, "x")], &calls, None),
    ]);
    assert_eq!(drain(&mut m), pairs(&[(1, "a"), (2, "x"), (3, "c")]));
}

#[test]
fn disjoint_sources_give_sorted_union() {
    let calls = Rc::new(Cell::new(0));
    let mut m = MergeIterator::create(vec![
        source(&[(2, "b"), (7, "g")], &calls, None),
        source(&[(1, "a"), (5, "e"), (9, "i")], &calls, None),
        source(&[(3, "c")], &calls, None),
    ]);
    assert_eq!(
        drain(&mut m),
        pairs(&[(1, "a"), (2, "b"), (3, "c"), (5, "e"), (7, "g"), (9, "i")])
    );
}

#[test]
fn equal_keys_surface_once_from_smallest_index() {
    let calls = Rc::new(Cell::new(0));
    let mut m = MergeIterator::create(vec![
        source(&[(4, "p")], &calls, None),
        source(&[(2, "q"), (4, "r")], &calls, None),
        source(&[(2, "s"), (4, "t"), (6, "u")], &calls, None),
    ]);
    assert_eq!(drain(&mut m), pairs(&[(2, "q"), (4, "p"), (6, "u")]));
}

#[test]
fn invalid_sources_are_skipped_but_keep_their_index() {
    let calls = Rc::new(Cell::new(0));
    let mut m = MergeIterator::create(vec![
        source(&[], &calls, None),
        source(&[(1, "late")], &calls, None),
        source(&[(1, "later")], &calls, None),
    ]);
    assert_eq!(drain(&mut m), pairs(&[(1, "late")]));
}

#[test]
fn accessors_repeat_without_next() {
    let calls = Rc::new(Cell::new(0));
    let m = MergeIterator::create(vec![
        source(&[(3, "c")], &calls, None),
        source(&[(1, "a")], &calls, None),
    ]);
    for _ in 0..3 {
        assert!(m.is_valid());
        assert_eq!(m.key(), &[1u8][..]);
        assert_eq!(m.value(), b"a");
    }
    assert_eq!(calls.get(), 0);
}

#[test]
fn exhaustion_is_terminal() {
    let calls = Rc::new(Cell::new(0));
    let mut m = MergeIterator::create(vec![source(&[(1, "a")], &calls, None)]);
    assert!(m.is_valid());
    m.next().unwrap();
    assert!(!m.is_valid());
    for _ in 0..3 {
        assert!(m.next().is_ok());
        assert!(!m.is_valid());
        assert!(m.key().is_empty());
        assert!(m.value().is_empty());
    }
    assert_eq!(calls.get(), 1);
}

#[test]
fn failure_of_a_duplicate_is_reported_once() {
    // The first advance made is the one that drains source 1 past key 1.
    let calls = Rc::new(Cell::new(0));
    let mut m = MergeIterator::create(vec![
        source(&[(1, "a"), (3, "c")], &calls, None),
        source(&[(1, "b"), (2, "x")], &calls, Some(1)),
    ]);
    let mut seen = vec![(m.key().to_vec(), m.value().to_vec())];
    assert!(m.next().is_err());
    assert!(m.is_valid());
    assert_eq!(m.key(), &[1u8][..]);
    assert_eq!(m.value(), b"a");
    m.next().unwrap();
    seen.extend(drain(&mut m));
    assert_eq!(seen, pairs(&[(1, "a"), (3, "c")]));
}

#[test]
fn failure_of_the_current_source_is_reported() {
    // Advances: 1 drains source 1 past key 1, 2 moves source 0 past key 1,
    // 3 moves source 1 past key 2, which fails.
    let calls = Rc::new(Cell::new(0));
    let mut m = MergeIterator::create(vec![
        source(&[(1, "a"), (3, "c")], &calls, None),
        source(&[(1, "b"), (2, "x")], &calls, Some(3)),
    ]);
    let mut seen = Vec::new();
    seen.push((m.key().to_vec(), m.value().to_vec()));
    m.next().unwrap();
    seen.push((m.key().to_vec(), m.value().to_vec()));
    let r = m.next();
    assert_eq!(r.unwrap_err().to_string(), "injected failure");
    assert_eq!(seen, pairs(&[(1, "a"), (2, "x")]));
    assert_eq!(m.key(), &[2u8][..]);
    assert_eq!(calls.get(), 3);
}

#[test]
fn merges_nest() {
    let calls = Rc::new(Cell::new(0));
    let inner0 = MergeIterator::create(vec![
        source(&[(1, "a"), (4, "d")], &calls, None),
        source(&[(2, "b")], &calls, None),
    ]);
    let inner1 = MergeIterator::create(vec![source(&[(1, "z"), (3, "c")], &calls, None)]);
    let mut outer = MergeIterator::create(vec![Box::new(inner0), Box::new(inner1)]);
    assert_eq!(drain(&mut outer), pairs(&[(1, "a"), (2, "b"), (3, "c"), (4, "d")]));
}

#[test]
fn keys_order_byte_by_byte() {
    assert_eq!(compare_keys(b"a", b"ab"), Ordering::Less);
    assert_eq!(compare_keys(b"ab", b"b"), Ordering::Less);
    assert_eq!(compare_keys(b"b", b"ab"), Ordering::Greater);
    assert_eq!(compare_keys(b"", b""), Ordering::Equal);
    assert_eq!(compare_keys(&[0x10, 0xff], &[0x10, 0xff]), Ordering::Equal);
    assert!(keys_equal(b"key", b"key"));
    assert!(!keys_equal(b"key", b"kez"));
}

#[test]
fn multi_byte_keys_merge_in_byte_order() {
    let calls = Rc::new(Cell::new(0));
    let mk = |items: &[(&str, &str)]| {
        Box::new(Source {
            items: items.iter().map(|(k, v)| (k.as_bytes().to_vec(), v.as_bytes().to_vec())).collect(),
            pos: 0,
            calls: calls.clone(),
            fail_at: None,
        })
    };
    let mut m = MergeIterator::create(vec![mk(&[("a", "1"), ("b", "2")]), mk(&[("ab", "3"), ("b", "4")])]);
    let got: Vec<(Vec<u8>, Vec<u8>)> = drain(&mut m);
    let want: Vec<(Vec<u8>, Vec<u8>)> = vec![
        (b"a".to_vec(), b"1".to_vec()),
        (b"ab".to_vec(), b"3".to_vec()),
        (b"b".to_vec(), b"2".to_vec()),
    ];
    assert_eq!(got, want);
}
