use s3fifo::fifo_cache::CacheMetadata;
use s3fifo::fifo_cache::FIFOCache;
use s3fifo::fifo_cache::FREQ_MAX;
use std::ops::Deref;

#[test]
fn insert() {
    let mut cache: FIFOCache<isize, isize> = FIFOCache::new(5);
    cache.insert(0, 0);
    cache.insert(1, 1);

    let rb_results = cache.keys();
    assert_eq!(rb_results, vec![0, 1]);

    assert_eq!(cache.entry_count(), 2);

    let cache_obj = cache.peek(&0);
    if let Some(cache_obj) = cache_obj {
        assert_eq!(cache_obj.deref(), &0);
    } else {
        panic!("cache_obj should exist");
    }

    let cache_obj = cache.peek(&1);
    if let Some(cache_obj) = cache_obj {
        assert_eq!(cache_obj.deref(), &1);
    } else {
        panic!("cache_obj should exist");
    }
}

#[test]
fn find() {
    let mut cache: FIFOCache<isize, isize> = FIFOCache::new(5);
    cache.insert(0, 0);
    cache.insert(1, 1);
    let value = cache.find(&0).unwrap().deref();
    assert_eq!(value, &0);

    let value = cache.find(&1).unwrap().deref();
    assert_eq!(value, &1);

    let result = cache.find(&2);
    assert!(result.is_none());
}

#[test]
fn full_cache() {
    let mut cache: FIFOCache<isize, isize> = FIFOCache::new(3);
    cache.insert(0, 0);
    cache.insert(1, 1);
    cache.insert(2, 2);

    assert!(cache.is_full());
}

#[test]
fn correct_size() {
    let capacity = 100;
    let mut cache: FIFOCache<usize, usize> = FIFOCache::new(capacity);

    for i in 0..capacity {
        cache.insert(i, i);
        assert_eq!(cache.len(), i + 1);
        assert_eq!(cache.len(), cache.entry_count());
    }
}

#[test]
fn correct_evict() {
    let capacity = 100;
    let mut cache: FIFOCache<usize, usize> = FIFOCache::new(capacity);

    for i in 0..capacity {
        cache.insert(i, i);
    }

    for i in 0..capacity {
        let value = cache.evict();
        assert!(!value.is_none(), "value should be present.");

        if let Some((key, obj)) = value {
            assert_eq!(key, i);
            assert_eq!(*obj, i);
        }
    }
}

#[test]
fn metadata_counter_saturates_at_both_ends() {
    let mut meta = CacheMetadata::default();
    assert_eq!(meta.get_freq(), 0);
    meta.desc_freq();
    assert_eq!(meta.get_freq(), 0);
    meta.inc_freq();
    assert_eq!(meta.get_freq(), 1);
    meta.inc_freq();
    meta.inc_freq();
    assert_eq!(meta.get_freq(), 3);
    meta.inc_freq();
    assert_eq!(meta.get_freq(), FREQ_MAX);
    meta.desc_freq();
    assert_eq!(meta.get_freq(), 2);
}

#[test]
fn find_counts_hits_up_to_the_maximum() {
    let mut cache: FIFOCache<u32, u32> = FIFOCache::new(2);
    cache.insert(7, 70);
    assert_eq!(cache.peek(&7).unwrap().get_freq(), 0);
    for n in 1..6usize {
        let freq = cache.find(&7).unwrap().get_freq();
        assert_eq!(freq, std::cmp::min(n, 3));
    }
    assert_eq!(cache.peek(&7).unwrap().get_freq(), 3);
    assert!(cache.find(&8).is_none());
    assert_eq!(cache.len(), 1);
}

#[test]
fn peek_and_contains_do_not_count() {
    let mut cache: FIFOCache<u32, u32> = FIFOCache::new(2);
    cache.insert(7, 70);
    assert!(cache.contains(&7));
    assert!(!cache.contains(&8));
    assert_eq!(*cache.peek(&7).unwrap().get_value(), 70);
    assert!(cache.peek(&8).is_none());
    assert_eq!(cache.peek(&7).unwrap().get_freq(), 0);
}

#[test]
fn find_mut_counts_and_lends_the_entry() {
    let mut cache: FIFOCache<u32, String> = FIFOCache::new(2);
    cache.insert(1, String::from("one"));
    if let Some(obj) = cache.find_mut(&1) {
        assert_eq!(obj.get_freq(), 1);
        obj.set_value(String::from("uno"));
    } else {
        panic!("the key was inserted");
    }
    assert!(cache.find_mut(&2).is_none());
    let obj = cache.peek(&1).unwrap();
    assert_eq!(obj.get_value(), "uno");
    assert_eq!(obj.get_value_copy(), String::from("uno"));
    assert_eq!(obj.get_freq(), 1);
    assert_eq!(obj.get_meta().get_freq(), 1);
    assert_eq!(obj.get_meta_copy().get_freq(), 1);
    assert_eq!(cache.keys(), vec![1]);
}

#[test]
fn update_replaces_the_value_only() {
    let mut cache: FIFOCache<u32, u32> = FIFOCache::new(3);
    cache.insert(1, 10);
    cache.insert(2, 20);
    cache.find(&1);
    cache.update(1, 11);
    cache.update(3, 30);
    assert_eq!(*cache.peek(&1).unwrap().get_value(), 11);
    assert_eq!(cache.peek(&1).unwrap().get_freq(), 1);
    assert!(!cache.contains(&3));
    assert_eq!(cache.keys(), vec![1, 2]);
    assert_eq!(cache.len(), 2);
    assert_eq!(cache.entry_count(), 2);
}

#[test]
fn insert_with_meta_keeps_the_counter() {
    let mut meta = CacheMetadata::default();
    meta.inc_freq();
    meta.inc_freq();
    let mut cache: FIFOCache<u32, u32> = FIFOCache::new(3);
    cache.insert_with_meta(5, 50, meta);
    assert_eq!(cache.peek(&5).unwrap().get_freq(), 2);
    let (key, obj) = cache.evict().unwrap();
    assert_eq!(key, 5);
    assert_eq!(obj.get_freq(), 2);
    assert_eq!(obj.into_value(), 50);
    assert!(cache.empty());
}

#[test]
fn evict_on_empty_cache_gives_nothing() {
    let mut cache: FIFOCache<u32, u32> = FIFOCache::new(3);
    assert!(cache.empty());
    assert!(cache.evict().is_none());
    assert_eq!(cache.len(), 0);
    assert_eq!(cache.capacity(), 3);
}

#[test]
fn full_cache_evicts_the_oldest_key() {
    let mut cache: FIFOCache<u32, u32> = FIFOCache::new(3);
    cache.insert(30, 3);
    cache.insert(10, 1);
    cache.insert(20, 2);
    assert!(cache.is_full());
    let (key, obj) = cache.evict().unwrap();
    assert_eq!(key, 30);
    assert_eq!(*obj.get_value(), 3);
    assert!(!cache.is_full());
    assert!(!cache.contains(&30));
    assert_eq!(cache.keys(), vec![10, 20]);
    assert_eq!(cache.len(), cache.entry_count());
}

#[test]
fn insert_into_full_cache_overwrites_the_ring_only() {
    let mut cache: FIFOCache<u32, u32> = FIFOCache::new(2);
    cache.insert(1, 10);
    cache.insert(2, 20);
    cache.insert(3, 30);
    assert_eq!(cache.keys(), vec![2, 3]);
    assert_eq!(cache.len(), 2);
    assert_eq!(cache.entry_count(), 3);
    assert!(cache.contains(&1));
}

#[test]
fn operations_that_respect_fullness_keep_ring_and_table_in_step() {
    let mut cache: FIFOCache<u32, u32> = FIFOCache::new(4);
    let mut next = 0;
    for round in 0..50u32 {
        if cache.is_full() || round % 3 == 2 {
            cache.evict();
        } else {
            cache.insert(next, next * 2);
            next += 1;
        }
        cache.find(&(round / 2));
        cache.update(round / 3, round);
        assert_eq!(cache.len(), cache.entry_count());
        for key in cache.keys() {
            assert!(cache.contains(&key));
        }
    }
}
