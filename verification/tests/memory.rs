//! The cache pool and the slot table.

use blend::error::FtError;
use blend::kv::{KvPool, SimpleKvPool, PAGE_TOKENS};
use blend::seq::SeqId;
use blend::slot::{Handle, SlotTable};

#[test]
fn alloc_extend_free_roundtrip() {
    let mut pool = SimpleKvPool::new(4);
    let mut e = pool.allocate(SeqId(1), 20).unwrap(); // 2 pages
    assert_eq!(e.pages.len(), 2);
    assert_eq!(pool.stats().used_pages, 2);
    pool.extend(&mut e, 30).unwrap(); // 50 tokens, 4 pages
    assert_eq!(e.pages.len(), 4);
    assert!(pool.allocate(SeqId(2), 1).is_err()); // full
    pool.free(e);
    assert_eq!(pool.stats().used_pages, 0);
}

#[test]
fn page_size_is_16() {
    assert_eq!(PAGE_TOKENS, 16);
}

#[test]
fn pages_come_from_the_end_of_the_free_list() {
    let mut pool = SimpleKvPool::new(5);
    let a = pool.allocate(SeqId(1), 33).unwrap();
    assert_eq!(a.pages, vec![2, 1, 0]);
    assert_eq!(a.num_tokens, 33);
    assert_eq!(a.seq, SeqId(1));
    let b = pool.allocate(SeqId(2), 16).unwrap();
    assert_eq!(b.pages, vec![3]);
    let empty = pool.allocate(SeqId(3), 0).unwrap();
    assert_eq!(empty.pages, Vec::<u32>::new());
}

#[test]
fn refused_allocation_says_what_is_missing() {
    let mut pool = SimpleKvPool::new(2);
    match pool.allocate(SeqId(1), 33) {
        Err(e) => assert_eq!(e.message(), "out of memory: kv pool: need 3 pages, 2 free of 2"),
        Ok(_) => panic!("must be refused"),
    }
    assert_eq!(pool.stats().used_pages, 0);
}

#[test]
fn failed_extension_keeps_the_pages_it_got() {
    let mut pool = SimpleKvPool::new(3);
    let mut e = pool.allocate(SeqId(1), 16).unwrap();
    match pool.extend(&mut e, 64) {
        Err(FtError::Oom(m)) => assert_eq!(m, "kv pool: need 1 pages, 0 free of 3"),
        _ => panic!("must be refused"),
    }
    assert_eq!(e.pages, vec![0, 1, 2]);
    assert_eq!(e.num_tokens, 16);
    assert_eq!(pool.stats().used_pages, 3);
}

#[test]
fn freed_pages_are_handed_out_again() {
    let mut pool = SimpleKvPool::new(2);
    let a = pool.allocate(SeqId(1), 32).unwrap();
    assert_eq!(a.pages, vec![1, 0]);
    pool.free(a);
    let b = pool.allocate(SeqId(2), 32).unwrap();
    assert_eq!(b.pages, vec![1, 0]);
}

#[test]
fn unknown_prompt_matches_nothing() {
    let pool = SimpleKvPool::new(2);
    assert_eq!(pool.match_prefix(&[1, 2, 3]), None);
    assert_eq!(pool.match_prefix(&[]), None);
}

#[test]
fn insert_get_remove() {
    let mut t: SlotTable<String> = SlotTable::with_capacity(2);
    let h1 = t.insert("a".into()).unwrap();
    let h2 = t.insert("b".into()).unwrap();
    assert_eq!(t.len(), 2);
    assert_eq!(t.get(h1).unwrap(), "a");
    assert_eq!(t.remove(h2).unwrap(), "b");
    assert_eq!(t.len(), 1);
}

#[test]
fn stale_handle_detected_after_reuse() {
    let mut t: SlotTable<u64> = SlotTable::with_capacity(1);
    let h1 = t.insert(42).unwrap();
    assert_eq!(t.remove(h1).unwrap(), 42);
    let h2 = t.insert(7).unwrap();
    assert_eq!(h2.index, h1.index);
    assert_ne!(h2.gen, h1.gen);
    assert!(matches!(t.get(h1), Err(FtError::StaleHandle { .. })));
    assert!(matches!(t.get_mut(h1), Err(FtError::StaleHandle { .. })));
    assert_eq!(*t.get(h2).unwrap(), 7);
}

#[test]
fn oom_when_full() {
    let mut t: SlotTable<u8> = SlotTable::with_capacity(1);
    t.insert(1).unwrap();
    assert!(matches!(t.insert(2), Err(FtError::Oom(_))));
}

#[test]
fn full_table_names_its_capacity() {
    let mut t: SlotTable<u8> = SlotTable::with_capacity(0);
    assert!(t.is_empty());
    assert_eq!(t.remaining(), 0);
    match t.insert(2) {
        Err(e) => assert_eq!(e.message(), "out of memory: slot table full (0)"),
        Ok(_) => panic!("must be refused"),
    }
}

#[test]
fn stale_errors_carry_both_generations() {
    let mut t: SlotTable<u8> = SlotTable::with_capacity(2);
    let h = t.insert(9).unwrap();
    assert_eq!(h, Handle { index: 0, gen: 1 });
    t.remove(h).unwrap();
    match t.remove(h) {
        Err(e) => assert_eq!(e.message(), "stale handle (gen 1, current 1)"),
        Ok(_) => panic!("must be stale"),
    }
    match t.get(Handle { index: 7, gen: 3 }) {
        Err(e) => assert_eq!(e.message(), "stale handle (gen 3, current 0)"),
        Ok(_) => panic!("must be stale"),
    }
}

#[test]
fn values_are_changed_through_their_handle() {
    let mut t: SlotTable<u8> = SlotTable::with_capacity(2);
    let a = t.insert(1).unwrap();
    let b = t.insert(2).unwrap();
    *t.get_mut(a).unwrap() = 10;
    assert_eq!(*t.get(a).unwrap(), 10);
    assert_eq!(*t.get(b).unwrap(), 2);
    assert_eq!((t.capacity(), t.remaining(), t.len()), (2, 0, 2));
}

#[test]
fn stale_handle_stays_stale() {
    let mut t: SlotTable<u64> = SlotTable::with_capacity(2);
    let old = t.insert(1).unwrap();
    t.remove(old).unwrap();
    for n in 0..1000 {
        let h = t.insert(n).unwrap();
        *t.get_mut(h).unwrap() += 1;
        assert!(t.get(old).is_err());
        assert_eq!(t.remove(h).unwrap(), n + 1);
        assert!(t.get(old).is_err());
    }
}
