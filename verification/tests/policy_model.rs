use s3fifo::s3fifo::S3FIFO;
use std::collections::VecDeque;

/// A plain restatement of the policy on queues of (key, value, counter).
struct Model {
    small: VecDeque<(u32, u32, usize)>,
    main: VecDeque<(u32, u32, usize)>,
    ghost: VecDeque<u32>,
    small_capacity: usize,
    main_capacity: usize,
}

impl Model {
    fn new(cache_size: usize, small_capacity: usize) -> Model {
        Model {
            small: VecDeque::new(),
            main: VecDeque::new(),
            ghost: VecDeque::new(),
            small_capacity,
            main_capacity: cache_size - small_capacity,
        }
    }

    fn get(&mut self, key: u32) -> Option<u32> {
        for queue in [&mut self.small, &mut self.main] {
            for entry in queue.iter_mut() {
                if entry.0 == key {
                    entry.2 = std::cmp::min(entry.2 + 1, 3);
                    return Some(entry.1);
                }
            }
        }
        None
    }

    fn evict_main(&mut self) {
        while let Some((key, value, freq)) = self.main.pop_front() {
            if freq > 0 {
                self.main.push_back((key, value, freq - 1));
            } else {
                return;
            }
        }
    }

    fn evict_small(&mut self) {
        while let Some((key, value, freq)) = self.small.pop_front() {
            if freq > 1 {
                if self.main.len() == self.main_capacity {
                    self.evict_main();
                }
                self.main.push_back((key, value, 0));
            } else {
                if self.ghost.len() == self.main_capacity {
                    self.ghost.pop_front();
                }
                self.ghost.push_back(key);
                return;
            }
        }
    }

    fn put(&mut self, key: u32, value: u32) {
        for queue in [&mut self.small, &mut self.main] {
            for entry in queue.iter_mut() {
                if entry.0 == key {
                    entry.1 = value;
                    return;
                }
            }
        }
        if self.small.len() + self.main.len() == self.small_capacity + self.main_capacity {
            self.evict_small();
            if self.main.len() == self.main_capacity {
                self.evict_main();
            }
        }
        if self.ghost.contains(&key) {
            if self.main.len() == self.main_capacity {
                self.evict_main();
            }
            self.main.push_back((key, value, 0));
        } else {
            if self.small.len() == self.small_capacity {
                self.evict_small();
            }
            self.small.push_back((key, value, 0));
        }
    }
}

fn keys(queue: &VecDeque<(u32, u32, usize)>) -> Vec<u32> {
    queue.iter().map(|entry| entry.0).collect()
}

#[test]
fn cache_follows_the_policy_on_mixed_workloads() {
    let shapes: [(usize, usize); 5] = [(2, 1), (3, 1), (4, 2), (10, 1), (12, 5)];
    for (cache_size, small_capacity) in shapes {
        let mut cache: S3FIFO<u32, u32> = S3FIFO::new(cache_size, small_capacity);
        let mut model = Model::new(cache_size, small_capacity);
        let mut seed: u32 = 88172645;
        for _ in 0..3000 {
            seed ^= seed << 13;
            seed ^= seed >> 17;
            seed ^= seed << 5;
            let key = (seed >> 8) % (2 * cache_size as u32 + 3);
            if seed % 5 < 3 {
                assert_eq!(cache.get_copy(&key), model.get(key));
            } else {
                cache.put(key, seed);
                model.put(key, seed);
            }
            assert_eq!(cache.small_keys(), keys(&model.small));
            assert_eq!(cache.main_keys(), keys(&model.main));
            assert_eq!(cache.ghost_keys(), Vec::from(model.ghost.clone()));
            assert_eq!(cache.size(), model.small.len() + model.main.len());
        }
    }
}
