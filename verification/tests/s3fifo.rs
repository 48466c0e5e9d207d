use s3fifo::s3fifo::S3FIFO;

fn small_share(cache_size: usize, small_cache_ratio: f64) -> usize {
    assert!(small_cache_ratio > 0.0 && small_cache_ratio < 1.0);
    ((cache_size as f64) * small_cache_ratio) as usize
}

#[test]
fn init() {
    let small_cache_capacity_ratio = 0.1;
    let cache: S3FIFO<isize, isize> =
        S3FIFO::new(100, small_share(100, small_cache_capacity_ratio));

    assert_eq!(cache.cache_size(), 100);
    assert_eq!(small_cache_capacity_ratio, 0.1);
    assert_eq!(cache.small_cache_capacity(), 10);
    assert_eq!(cache.size(), 0);
}

#[test]
fn empty_get() {
    let mut cache: S3FIFO<isize, isize> = S3FIFO::new(100, small_share(100, 0.1));
    let result = cache.get(&1);
    assert!(result.is_none());
    assert_eq!(cache.size(), 0);
}

#[test]
fn put_value() {
    let mut cache: S3FIFO<isize, isize> = S3FIFO::new(100, small_share(100, 0.1));
    cache.put(0, 0);

    assert_eq!(cache.size(), 1);
    assert_eq!(cache.small_len(), 1);
    assert_eq!(cache.main_len(), 0);
    assert_eq!(cache.ghost_len(), 0);

    cache.put(1, 1);
    assert_eq!(cache.size(), 2);
    assert_eq!(cache.small_len(), 2);
    assert_eq!(cache.main_len(), 0);
    assert_eq!(cache.ghost_len(), 0);
}

#[test]
fn dup_put() {
    let mut cache: S3FIFO<isize, isize> = S3FIFO::new(100, small_share(100, 0.1));
    cache.put(0, 0);

    assert_eq!(cache.size(), 1);
    assert_eq!(cache.small_len(), 1);
    assert_eq!(cache.main_len(), 0);
    assert_eq!(cache.ghost_len(), 0);

    cache.put(0, 1);
    assert_eq!(cache.size(), 1);
    assert_eq!(cache.small_len(), 1);
    assert_eq!(cache.main_len(), 0);
    assert_eq!(cache.ghost_len(), 0);
}

#[test]
fn simple_put_get() {
    let mut cache: S3FIFO<isize, isize> = S3FIFO::new(100, small_share(100, 0.1));
    cache.put(0, 0);
    let result = cache.get(&0);
    assert_eq!(result, Some(&0));
}

#[test]
fn multiple_put_get() {
    let mut cache: S3FIFO<isize, isize> = S3FIFO::new(100, small_share(100, 0.1));
    for i in 0..50 {
        cache.put(i, i);
        let result = cache.get(&i);
        assert_eq!(result, Some(&i));
    }
}

#[test]
fn half_and_half_of_two() {
    let cache: S3FIFO<u32, u32> = S3FIFO::new(2, small_share(2, 0.5));
    assert_eq!(cache.small_cache_capacity(), 1);
    assert_eq!(cache.main_cache_capacity(), 1);
    assert_eq!(cache.ghost_cache_capacity(), 1);
    assert_eq!(cache.cache_size(), 2);
    assert!(!cache.is_full());
}

#[test]
fn share_of_the_small_queue_is_rounded_down() {
    let cache: S3FIFO<u32, u32> = S3FIFO::new_with_ratio(2, 1, 2);
    assert_eq!(cache.small_cache_capacity(), 1);
    assert_eq!(cache.main_cache_capacity(), 1);
    assert_eq!(cache.ghost_cache_capacity(), 1);
    let cache: S3FIFO<u32, u32> = S3FIFO::new_with_ratio(100, 1, 10);
    assert_eq!(cache.small_cache_capacity(), 10);
    assert_eq!(cache.main_cache_capacity(), 90);
    let cache: S3FIFO<u32, u32> = S3FIFO::new_with_ratio(7, 2, 3);
    assert_eq!(cache.small_cache_capacity(), 4);
    assert_eq!(cache.main_cache_capacity(), 3);
    assert_eq!(cache.ghost_cache_capacity(), 3);
    assert_eq!(cache.cache_size(), 7);
    let cache: S3FIFO<u32, u32> = S3FIFO::new_with_ratio(9, 999, 1000);
    assert_eq!(cache.small_cache_capacity(), 8);
    assert_eq!(cache.main_cache_capacity(), 1);
}

#[test]
fn default_ratio_gives_a_tenth_to_the_small_queue() {
    let cache: S3FIFO<u32, u32> = S3FIFO::new_with_default_ratio(100);
    assert_eq!(cache.cache_size(), 100);
    assert_eq!(cache.small_cache_capacity(), 10);
    assert_eq!(cache.main_cache_capacity(), 90);
    assert_eq!(cache.ghost_cache_capacity(), 90);
    assert_eq!(cache.size(), 0);
    let cache: S3FIFO<u32, u32> = S3FIFO::new_with_default_ratio(19);
    assert_eq!(cache.small_cache_capacity(), 1);
    assert_eq!(cache.main_cache_capacity(), 18);
}

#[test]
fn basic_put_and_get() {
    let mut cache: S3FIFO<usize, usize> = S3FIFO::new(100, small_share(100, 0.1));
    cache.put(0, 100);
    cache.put(1, 101);
    assert_eq!(cache.get(&0), Some(&100));
    assert_eq!(cache.get(&1), Some(&101));
    assert!(cache.get(&100).is_none());
    assert_eq!(cache.small_keys().len(), 2);
    assert_eq!(cache.main_keys().len(), 0);
    assert_eq!(cache.ghost_keys().len(), 0);
    assert_eq!(cache.size(), 2);
}

#[test]
fn duplicate_put_overwrites_in_place() {
    let mut cache: S3FIFO<usize, usize> = S3FIFO::new(100, small_share(100, 0.1));
    cache.put(0, 0);
    cache.put(0, 1);
    assert_eq!(cache.size(), 1);
    assert_eq!(cache.small_keys().len(), 1);
    assert_eq!(cache.get(&0), Some(&1));
}

#[test]
fn repeated_put_moves_nothing() {
    let mut cache: S3FIFO<u32, u32> = S3FIFO::new(4, 2);
    cache.put(1, 0);
    cache.put(2, 0);
    let small = cache.small_keys();
    let main = cache.main_keys();
    for value in 1..10 {
        cache.put(1, value);
        assert_eq!(cache.small_keys(), small);
        assert_eq!(cache.main_keys(), main);
        assert_eq!(cache.size(), 2);
        assert_eq!(cache.get_copy(&1), Some(value));
    }
}

#[test]
fn get_copy_hands_out_an_owned_value() {
    let mut cache: S3FIFO<u32, String> = S3FIFO::new(4, 2);
    cache.put(1, String::from("one"));
    let copy = cache.get_copy(&1);
    cache.put(1, String::from("uno"));
    assert_eq!(copy, Some(String::from("one")));
    assert_eq!(cache.get_copy(&1), Some(String::from("uno")));
    assert_eq!(cache.get_copy(&2), None);
}

#[test]
fn small_queue_gives_up_its_oldest_key_to_the_ghost_queue() {
    let mut cache: S3FIFO<u32, u32> = S3FIFO::new(2, small_share(2, 0.5));
    cache.put(1, 1);
    cache.put(2, 2);
    assert_eq!(cache.small_keys(), vec![2]);
    assert_eq!(cache.ghost_keys(), vec![1]);
    assert_eq!(cache.main_keys(), Vec::<u32>::new());
    assert_eq!(cache.size(), 1);
    cache.put(3, 3);
    assert_eq!(cache.small_keys(), vec![3]);
    assert_eq!(cache.main_keys(), Vec::<u32>::new());
    assert_eq!(cache.ghost_keys(), vec![2]);
    assert!(cache.size() <= 2);
    assert_eq!(cache.size(), 1);
    assert_eq!(cache.get(&3), Some(&3));
    assert_eq!(cache.get(&1), None);
    assert_eq!(cache.get(&2), None);
}

#[test]
fn key_hit_twice_in_small_queue_moves_to_main_queue() {
    let mut cache: S3FIFO<u32, u32> = S3FIFO::new(2, small_share(2, 0.5));
    cache.put(1, 1);
    cache.get(&1);
    cache.get(&1);
    cache.put(2, 2);
    assert_eq!(cache.main_keys(), vec![1]);
    assert_eq!(cache.small_keys(), vec![2]);
    assert_eq!(cache.ghost_keys(), Vec::<u32>::new());
    assert_eq!(cache.size(), 2);
    assert!(cache.is_full());
    assert_eq!(cache.get(&1), Some(&1));
}

#[test]
fn key_hit_once_in_small_queue_is_not_promoted() {
    let mut cache: S3FIFO<u32, u32> = S3FIFO::new(2, small_share(2, 0.5));
    cache.put(1, 1);
    cache.get(&1);
    cache.put(2, 2);
    assert_eq!(cache.main_keys(), Vec::<u32>::new());
    assert_eq!(cache.small_keys(), vec![2]);
    assert_eq!(cache.ghost_keys(), vec![1]);
    assert_eq!(cache.get(&1), None);
}

#[test]
fn put_does_not_count_as_a_hit() {
    let mut cache: S3FIFO<u32, u32> = S3FIFO::new(2, small_share(2, 0.5));
    cache.put(1, 1);
    cache.put(1, 2);
    cache.put(1, 3);
    cache.put(2, 2);
    assert_eq!(cache.main_keys(), Vec::<u32>::new());
    assert_eq!(cache.ghost_keys(), vec![1]);
}

#[test]
fn full_cache_evicts_from_both_queues() {
    let mut cache: S3FIFO<u32, u32> = S3FIFO::new(2, small_share(2, 0.5));
    cache.put(1, 1);
    cache.get(&1);
    cache.get(&1);
    cache.put(2, 2);
    assert!(cache.is_full());
    cache.put(3, 3);
    assert_eq!(cache.small_keys(), vec![3]);
    assert_eq!(cache.main_keys(), Vec::<u32>::new());
    assert_eq!(cache.ghost_keys(), vec![2]);
    assert_eq!(cache.size(), 1);
    assert_eq!(cache.get(&3), Some(&3));
}

#[test]
fn key_remembered_by_ghost_queue_is_admitted_to_main_queue() {
    let mut cache: S3FIFO<u32, u32> = S3FIFO::new(2, small_share(2, 0.5));
    cache.put(1, 1);
    cache.put(2, 2);
    assert_eq!(cache.ghost_keys(), vec![1]);
    cache.put(1, 99);
    assert_eq!(cache.get(&1), Some(&99));
    assert_eq!(cache.main_keys(), vec![1]);
    assert_eq!(cache.small_keys(), vec![2]);
    assert_eq!(cache.ghost_keys(), vec![1]);
    assert_eq!(cache.size(), 2);
}

#[test]
fn main_queue_entry_survives_one_lap_for_each_hit() {
    let mut cache: S3FIFO<u32, u32> = S3FIFO::new(3, 1);
    cache.put(1, 1);
    cache.put(2, 2);
    cache.put(3, 3);
    assert_eq!(cache.ghost_keys(), vec![1, 2]);
    cache.put(1, 10);
    cache.put(2, 20);
    assert_eq!(cache.main_keys(), vec![1, 2]);
    assert_eq!(cache.small_keys(), vec![3]);
    assert!(cache.is_full());
    cache.get(&1);
    cache.get(&2);
    cache.put(4, 4);
    assert_eq!(cache.main_keys(), vec![2]);
    assert_eq!(cache.small_keys(), vec![4]);
    assert_eq!(cache.ghost_keys(), vec![2, 3]);
    assert_eq!(cache.size(), 2);
    assert_eq!(cache.get(&1), None);
    assert_eq!(cache.get(&2), Some(&20));
}

#[test]
fn main_queue_drops_the_first_entry_without_hits() {
    let mut cache: S3FIFO<u32, u32> = S3FIFO::new(3, 1);
    cache.put(1, 1);
    cache.put(2, 2);
    cache.put(3, 3);
    cache.put(1, 10);
    cache.put(2, 20);
    cache.get(&1);
    cache.put(4, 4);
    assert_eq!(cache.main_keys(), vec![1]);
    assert_eq!(cache.get(&2), None);
    assert_eq!(cache.get(&1), Some(&10));
    assert_eq!(cache.size(), 2);
}

#[test]
fn counter_saturates_after_three_hits() {
    let mut cache: S3FIFO<u32, u32> = S3FIFO::new(3, 1);
    cache.put(1, 1);
    cache.put(2, 2);
    cache.put(1, 10);
    assert_eq!(cache.main_keys(), vec![1]);
    cache.put(3, 3);
    cache.put(2, 20);
    assert_eq!(cache.main_keys(), vec![1, 2]);
    for _ in 0..10 {
        cache.get(&1);
    }
    cache.get(&2);
    // Key 1 holds three laps, key 2 one: key 1 takes two laps before key 2 is
    // found with none left and dropped.
    cache.put(4, 4);
    assert_eq!(cache.main_keys(), vec![1]);
    cache.put(3, 30);
    assert_eq!(cache.main_keys(), vec![1, 3]);
    // Key 1 takes its third lap, and key 3 is dropped.
    cache.put(5, 5);
    assert_eq!(cache.main_keys(), vec![1]);
    cache.put(4, 40);
    assert_eq!(cache.main_keys(), vec![1, 4]);
    // The three laps of key 1 are used up: it is the oldest and is dropped.
    cache.put(6, 6);
    assert_eq!(cache.main_keys(), vec![4]);
    assert_eq!(cache.get(&1), None);
}

#[test]
fn live_entries_never_exceed_the_capacity() {
    let mut cache: S3FIFO<u32, u32> = S3FIFO::new(10, 3);
    let mut seed: u32 = 12345;
    for _ in 0..2000 {
        seed = seed.wrapping_mul(1103515245).wrapping_add(12345);
        let key = (seed >> 16) % 25;
        if (seed >> 8) % 3 == 0 {
            cache.get(&key);
        } else {
            cache.put(key, seed);
            assert_eq!(cache.get(&key), Some(&seed));
        }
        let small = cache.small_keys();
        let main = cache.main_keys();
        let ghost = cache.ghost_keys();
        assert_eq!(cache.size(), small.len() + main.len());
        assert!(small.len() <= cache.small_cache_capacity());
        assert!(main.len() <= cache.main_cache_capacity());
        assert!(ghost.len() <= cache.ghost_cache_capacity());
        assert!(cache.size() <= cache.cache_size());
        assert_eq!(cache.is_full(), cache.size() == cache.cache_size());
        for key in small.iter() {
            assert!(!main.contains(key));
            assert!(!ghost.contains(key));
        }
    }
}
