use joader::sampler::sampler_tree::SamplerTree;
use rand::Rng;
use std::collections::{HashMap, HashSet};
use std::iter::FromIterator;
use std::time::Instant;

#[test]
fn sampler_tree_test_bm_mask() {
    let mut mask = HashSet::new();
    mask.insert(1);
    mask.insert(2);
    mask.insert(3);
    sample_mask(8, &mask);
}

fn sample_mask(tasks: u64, mask: &HashSet<u64>) {
    let mut sampler = SamplerTree::new();
    let mut rng = rand::thread_rng();
    let mut vec_keys = Vec::<HashSet<u32>>::new();
    let mut map: HashMap<u64, HashSet<u32>> = HashMap::new();

    for id in 0..tasks {
        let size = rng.gen_range(100000..1000000);
        let keys = (0..size).into_iter().collect::<Vec<u32>>();
        vec_keys.push(HashSet::from_iter(keys.iter().cloned()));
        sampler.insert(keys, id);
        map.insert(id, HashSet::new());
    }

    let mut time;
    loop {
        let now = Instant::now();
        sampler.clear_loader();
        let res = sampler.sample(mask);
        time = now.elapsed().as_secs_f32();
        if res.is_empty() {
            break;
        }
        for (x, tasks) in &res {
            for task in tasks {
                map.get_mut(task).unwrap().insert(*x);
            }
        }
    }

    println!("time cost in one turn: {}", time);
    for (task, set) in &map {
        if mask.contains(task) {
            assert_eq!(&HashSet::new(), set);
        } else {
            let keys = &vec_keys[(*task) as usize];
            assert_eq!(
                keys,
                set,
                "task {} with len {}",
                *task,
                vec_keys[(*task) as usize].len()
            );
        }
    }

    let mut time;
    loop {
        let now = Instant::now();
        sampler.clear_loader();
        let res = sampler.sample(&HashSet::new());
        time = now.elapsed().as_secs_f32();
        if res.is_empty() {
            break;
        }
        for (x, tasks) in &res {
            for task in tasks {
                map.get_mut(task).unwrap().insert(*x);
            }
        }
    }
    println!("time cost in one turn: {}", time);
    for (task, set) in &map {
        let keys = &vec_keys[(*task) as usize];
        assert_eq!(keys, set);
    }
}

#[test]
fn sampler_tree_test_bm_sampler() {
    sample(16);
}

fn sample(tasks: u64) {
    let mut sampler = SamplerTree::new();
    let mut rng = rand::thread_rng();
    let mut vec_keys = Vec::<HashSet<u32>>::new();
    let mut map: HashMap<u64, HashSet<u32>> = HashMap::new();

    for id in 0..tasks {
        let size = rng.gen_range(100000..1000000);
        let keys = (0..size).into_iter().collect::<Vec<u32>>();
        vec_keys.push(HashSet::from_iter(keys.iter().cloned()));
        sampler.insert(keys, id);
        map.insert(id, HashSet::new());
    }

    let mut time;
    loop {
        let now = Instant::now();
        sampler.clear_loader();
        let res = sampler.sample(&HashSet::new());
        time = now.elapsed().as_secs_f32();
        if res.is_empty() {
            break;
        }
        for (x, tasks) in &res {
            for task in tasks {
                map.get_mut(task).unwrap().insert(*x);
            }
        }
    }
    println!("time cost in one turn: {}", time);
    for (task, set) in &map {
        let keys = &vec_keys[(*task) as usize];
        assert_eq!(keys, set);
    }
}

#[test]
fn sampler_tree_test_insert() {
    insert(16);
}

fn insert(tasks: u32) {
    let mut sampler = SamplerTree::new();
    let mut rng = rand::thread_rng();
    let mut vec_keys = Vec::<Vec<u32>>::new();

    for _i in 0..tasks {
        let size = rng.gen_range(500000..2000000);
        let keys = (0..size).into_iter().collect();
        vec_keys.push(keys);
    }

    let vec_tasks: Vec<u64> = Vec::new();
    for (idx, keys) in vec_keys.iter().enumerate() {
        let now = Instant::now();
        sampler.insert(keys.clone(), idx as u64);
        println!(
            "inserting {:} elements costs {:}",
            keys.len(),
            now.elapsed().as_secs_f32()
        );
    }

    for task in vec_tasks {
        let mut values = sampler.get_task_values(task);
        values.sort();
        let mut keys = vec_keys[task as usize].clone();
        keys.sort();
        assert!(values.eq(&keys));
    }
}

#[test]
fn sampler_tree_test_delete_sampler() {
    let mut sampler = SamplerTree::new();
    let mut vec_keys = Vec::<HashSet<u32>>::new();
    let mut map: HashMap<u64, HashSet<u32>> = HashMap::new();
    let tasks_sizes = [2, 4, 8, 16, 32, 64, 128, 256, 512, 1024, 2048, 4096];
    let delete_id = [0, 3, 5];
    for id in 0..tasks_sizes.len() {
        let size = tasks_sizes[id as usize];
        let keys = (0..size).into_iter().collect::<Vec<u32>>();
        vec_keys.push(HashSet::from_iter(keys.iter().cloned()));
        sampler.insert(keys, id as u64);
        if !delete_id.contains(&id) {
            map.insert(id as u64, HashSet::new());
        }
    }

    for id in delete_id {
        sampler.delete(id as u64);
    }

    let mut time;
    loop {
        let now = Instant::now();
        let res = sampler.sample(&HashSet::new());
        time = now.elapsed().as_secs_f32();
        if res.is_empty() {
            break;
        }
        for (x, tasks) in &res {
            for task in tasks {
                map.get_mut(task).unwrap().insert(*x);
            }
        }
    }
    println!("time cost in one turn: {}", time);
    for (task, set) in &map {
        let keys = &vec_keys[(*task) as usize];
        assert_eq!(keys, set);
    }
}

fn drain(sampler: &mut SamplerTree, mask: &HashSet<u64>, turns: usize) -> HashMap<u64, Vec<u32>> {
    let mut seen: HashMap<u64, Vec<u32>> = HashMap::new();
    for _ in 0..turns {
        let res = sampler.sample(mask);
        let mut given: HashSet<u64> = HashSet::new();
        for (x, jobs) in &res {
            assert!(!jobs.is_empty());
            for job in jobs {
                assert!(given.insert(*job), "job {} was given two values in a turn", job);
                seen.entry(*job).or_default().push(*x);
            }
        }
    }
    seen
}

#[test]
fn every_job_sees_each_of_its_indices_once() {
    let mut sampler = SamplerTree::new();
    sampler.insert((0..300).collect(), 1);
    sampler.insert((100..150).collect(), 2);
    sampler.insert((200..1000).step_by(3).collect(), 3);
    sampler.insert(vec![5, 7, 100_000, 4_000_000_000], 4);
    let mut seen = drain(&mut sampler, &HashSet::new(), 300);
    assert!(sampler.is_empty());
    assert!(sampler.sample(&HashSet::new()).is_empty());
    for (job, want) in [
        (1u64, (0..300).collect::<Vec<u32>>()),
        (2, (100..150).collect()),
        (3, (200..1000).step_by(3).collect()),
        (4, vec![5, 7, 100_000, 4_000_000_000]),
    ] {
        let mut got = seen.remove(&job).unwrap();
        got.sort();
        assert_eq!(got, want, "job {}", job);
    }
}

#[test]
fn every_unmasked_job_is_given_one_value_a_turn() {
    let mut sampler = SamplerTree::new();
    sampler.insert((0..64).collect(), 10);
    sampler.insert((0..64).collect(), 11);
    sampler.insert((32..96).collect(), 12);
    let mut mask = HashSet::new();
    mask.insert(11);
    for turn in 0..64 {
        let res = sampler.sample(&mask);
        let jobs: HashSet<u64> = res.values().flatten().cloned().collect();
        assert_eq!(jobs, HashSet::from_iter([10u64, 12]), "turn {}", turn);
    }
    // The masked job has still all its values to see.
    let mut left = sampler.get_job_values(11);
    left.sort();
    assert_eq!(left, (0..64).collect::<Vec<u32>>());
    assert_eq!(sampler.get_job_values(10), Vec::<u32>::new());
    let seen = drain(&mut sampler, &HashSet::new(), 64);
    let mut got = seen[&11].clone();
    got.sort();
    assert_eq!(got, (0..64).collect::<Vec<u32>>());
    assert!(sampler.is_empty());
}

#[test]
fn two_jobs_with_the_same_indices_share_every_value() {
    let mut sampler = SamplerTree::new();
    sampler.insert((0..100).collect(), 1);
    sampler.insert((0..100).collect(), 2);
    let mut reads = 0;
    for _ in 0..100 {
        let res = sampler.sample(&HashSet::new());
        reads += res.len();
        for jobs in res.values() {
            assert_eq!(jobs.len(), 2);
        }
    }
    assert_eq!(reads, 100);
    assert!(sampler.is_empty());
}

#[test]
fn two_jobs_with_disjoint_indices_share_nothing() {
    let mut sampler = SamplerTree::new();
    sampler.insert((0..64).collect(), 1);
    sampler.insert((64..128).collect(), 2);
    let mut reads = 0;
    let mut seen: HashMap<u64, Vec<u32>> = HashMap::new();
    for _ in 0..64 {
        let res = sampler.sample(&HashSet::new());
        reads += res.len();
        for (x, jobs) in &res {
            assert_eq!(jobs.len(), 1);
            for job in jobs {
                seen.entry(*job).or_default().push(*x);
            }
        }
    }
    assert_eq!(reads, 128);
    let mut a = seen.remove(&1).unwrap();
    let mut b = seen.remove(&2).unwrap();
    a.sort();
    b.sort();
    assert_eq!(a, (0..64).collect::<Vec<u32>>());
    assert_eq!(b, (64..128).collect::<Vec<u32>>());
}

#[test]
fn a_job_without_indices_is_not_sampled() {
    let mut sampler = SamplerTree::new();
    sampler.insert(Vec::new(), 7);
    assert!(sampler.is_empty());
    assert!(sampler.sample(&HashSet::new()).is_empty());
    sampler.insert(vec![1, 2], 8);
    sampler.insert(Vec::new(), 9);
    let seen = drain(&mut sampler, &HashSet::new(), 5);
    assert_eq!(seen.len(), 1);
    let mut got = seen[&8].clone();
    got.sort();
    assert_eq!(got, vec![1, 2]);
}

#[test]
fn a_deleted_job_is_given_nothing_more() {
    let mut sampler = SamplerTree::new();
    for job in 1..=3u64 {
        sampler.insert((0..1000).collect(), job);
    }
    let mut first = drain(&mut sampler, &HashSet::new(), 200);
    assert_eq!(first[&2].len(), 200);
    sampler.delete(2);
    assert_eq!(sampler.get_job_values(2), Vec::<u32>::new());
    let second = drain(&mut sampler, &HashSet::new(), 800);
    assert!(!second.contains_key(&2));
    assert!(sampler.is_empty());
    for job in [1u64, 3] {
        let mut got = first.remove(&job).unwrap();
        got.extend(second[&job].iter().cloned());
        got.sort();
        assert_eq!(got, (0..1000).collect::<Vec<u32>>(), "job {}", job);
    }
}

#[test]
fn insert_of_a_known_job_starts_it_over() {
    let mut sampler = SamplerTree::new();
    sampler.insert((0..10).collect(), 1);
    sampler.insert((0..10).collect(), 2);
    drain(&mut sampler, &HashSet::new(), 4);
    sampler.insert(vec![50, 51], 1);
    let mut left = sampler.get_task_values(1);
    left.sort();
    assert_eq!(left, vec![50, 51]);
    assert_eq!(sampler.get_job_values(2).len(), 6);
    let cleared = sampler.clear_loader();
    assert!(cleared.is_empty());
}

#[test]
fn buffered_turns_give_what_has_waited_longest() {
    let mut sampler = SamplerTree::new();
    sampler.insert((0..20).collect(), 1);
    sampler.insert((10..30).collect(), 2);
    let mut mask = HashSet::new();
    mask.insert(2);
    // Job 2 is masked: it draws, and its values wait.
    let mut first: Vec<u32> = Vec::new();
    for _ in 0..5 {
        let res = sampler.sample_with_buffer(&mask);
        assert_eq!(res.len(), 1);
        for (x, jobs) in &res {
            assert_eq!(jobs, &HashSet::from_iter([1u64]));
            first.push(*x);
        }
    }
    assert_eq!(sampler.get_job_values(2).len(), 15);
    assert_eq!(sampler.get_job_values(1).len(), 15);
    // Unmasked, both are given a value a turn until all is given.
    let mut seen: HashMap<u64, Vec<u32>> = HashMap::new();
    seen.insert(1, first);
    let mut turns = 0;
    loop {
        let res = sampler.sample_with_buffer(&HashSet::new());
        if res.is_empty() {
            break;
        }
        turns += 1;
        for (x, jobs) in &res {
            for job in jobs {
                seen.entry(*job).or_default().push(*x);
            }
        }
    }
    assert_eq!(turns, 20);
    let mut a = seen.remove(&1).unwrap();
    let mut b = seen.remove(&2).unwrap();
    a.sort();
    b.sort();
    assert_eq!(a, (0..20).collect::<Vec<u32>>());
    assert_eq!(b, (10..30).collect::<Vec<u32>>());
}

#[test]
fn no_values_for_a_new_job_change_nothing() {
    let mut sampler = SamplerTree::new();
    sampler.insert((0..10).collect(), 1);
    sampler.insert((5..20).collect(), 2);
    let shown = format!("{:?}", sampler);
    sampler.insert(Vec::new(), 3);
    assert_eq!(sampler.get_job_values(3), Vec::<u32>::new());
    let mut one = sampler.get_job_values(1);
    one.sort();
    assert_eq!(one, (0..10).collect::<Vec<u32>>());
    assert_eq!(sampler.get_job_values(2).len(), 15);
    sampler.delete(3);
    sampler.delete(4);
    assert_eq!(sampler.get_job_values(2).len(), 15);
    // The job is given nothing.
    let res = sampler.sample(&HashSet::new());
    for jobs in res.values() {
        assert!(!jobs.contains(&3));
    }
    assert!(shown.contains("root"));
}

#[test]
fn what_waits_for_a_job_counts() {
    let mut sampler = SamplerTree::new();
    assert!(sampler.is_empty());
    sampler.insert(vec![1, 2], 1);
    assert!(!sampler.is_empty());
    let mut mask = HashSet::new();
    mask.insert(1);
    // The job is masked: what is drawn for it waits.
    assert!(sampler.sample_with_buffer(&mask).is_empty());
    assert!(!sampler.is_empty());
    let mut got: Vec<u32> = Vec::new();
    for _ in 0..2 {
        for (x, _) in sampler.sample_with_buffer(&HashSet::new()) {
            got.push(x);
        }
    }
    got.sort();
    assert_eq!(got, vec![1, 2]);
    assert!(sampler.is_empty());
}
