use joader::cache::cache::Cache;
use joader::cache::head::Head;
use joader::dataset::dummy::new_dummy;
use joader::dataset::{read_batch, Dataset, Lookup, Miss};
use joader::joader::joader::{BatchItem, Joader};
use joader::joader::joader_table::JoaderTable;
use joader::job::job::{Job, CAP};
use joader::proto::job::{expr, Condition, Expr};
use joader::service::common::CondError;
use std::collections::{HashMap, HashSet};

fn keys(n: usize) -> Vec<String> {
    (0..n).map(|i| i.to_string()).collect()
}

fn below(n: u32) -> Condition {
    Condition {
        exprs: vec![Expr {
            op: expr::Operation::Lt as i32,
            rhs: n.to_string(),
        }],
    }
}

fn at_least(n: u32) -> Condition {
    Condition {
        exprs: vec![Expr {
            op: expr::Operation::Geq as i32,
            rhs: n.to_string(),
        }],
    }
}

#[test]
fn job_counts_what_is_under_way() {
    let mut job = Job::new(7);
    assert_eq!(job.get_id(), 7);
    assert_eq!(job.capacity(), CAP);
    assert_eq!(job.capacity(), 1024);
    assert!(!job.is_full());
    assert!(job.can_push());
    job.add_pending();
    job.add_pending();
    assert_eq!(job.pending(), 2);
    job.push();
    assert_eq!((job.pending(), job.capacity()), (1, 1023));
    job.set_capacity(1);
    assert!(!job.can_push());
    job.set_capacity(0);
    assert!(job.is_full());
}

#[test]
fn add_job_counts_the_filtered_indices() {
    let mut joader = Joader::new(3, keys(128));
    assert_eq!(joader.get_id(), 3);
    assert_eq!(joader.len(), 128);
    assert!(joader.is_empty());
    assert_eq!(joader.add_job(Job::new(1), Some(&below(64))), Ok(64));
    assert_eq!(joader.add_job(Job::new(2), None), Ok(128));
    assert!(!joader.is_empty());
    assert!(joader.contains(1) && joader.contains(2) && !joader.contains(3));
    assert_eq!(joader.ref_count(0), 2);
    assert_eq!(joader.ref_count(63), 2);
    assert_eq!(joader.ref_count(64), 1);
    assert_eq!(joader.ref_count(127), 1);
    assert_eq!(joader.ref_count(128), 0);
    joader.del_job(2);
    assert_eq!(joader.ref_count(0), 1);
    assert_eq!(joader.ref_count(64), 0);
    assert!(!joader.contains(2));
}

#[test]
fn a_filter_that_cannot_be_evaluated_changes_nothing() {
    let mut table = keys(4);
    table.push("x".to_string());
    let mut joader = Joader::new(0, table);
    assert_eq!(
        joader.add_job(Job::new(1), Some(&below(2))),
        Err(CondError::NotNumeric)
    );
    assert!(!joader.contains(1));
    assert_eq!(joader.ref_count(0), 0);
    assert_eq!(joader.add_job(Job::new(1), None), Ok(5));
    let unknown = Condition {
        exprs: vec![Expr {
            op: 17,
            rhs: "1".to_string(),
        }],
    };
    let mut numbers = Joader::new(0, keys(4));
    assert_eq!(
        numbers.add_job(Job::new(1), Some(&unknown)),
        Err(CondError::UnknownOp)
    );
}

#[test]
fn an_empty_filter_result_gives_nothing() {
    let mut joader = Joader::new(0, keys(10));
    assert_eq!(joader.add_job(Job::new(1), Some(&at_least(10))), Ok(0));
    assert!(joader.contains(1));
    assert!(joader.next().is_empty());
    assert!(joader.is_empty());
    assert!(joader.next_batch(8).is_empty());
}

#[test]
fn single_job_on_the_dummy_dataset() {
    let len = 4096;
    let dataset = new_dummy(len, "dummy".to_string());
    assert_eq!(dataset.len(), 4096);
    assert_eq!(dataset.get_indices(), (0..4096).collect::<Vec<u32>>());
    let mut joader = Joader::new(dataset.get_id(), dataset.keys());
    assert_eq!(joader.add_job(Job::new(0), None), Ok(4096));
    let mut payloads: Vec<Vec<u8>> = Vec::new();
    for _ in 0..len {
        let list = joader.next();
        assert_eq!(list.len(), 1);
        let (index, jobs) = &list[0];
        assert_eq!(jobs, &vec![0u64]);
        let payload = dataset.read(*index);
        assert_eq!(payload.len(), 4);
        payloads.push(payload);
        joader.push(0);
        joader.set_capacity(0, CAP);
    }
    assert!(joader.next().is_empty());
    payloads.sort();
    let want: Vec<Vec<u8>> = (0..4096u32).map(|i| i.to_be_bytes().to_vec()).collect();
    assert_eq!(payloads, want);
}

#[test]
fn next_batch_gives_each_index_once_with_its_jobs() {
    let mut joader = Joader::new(0, keys(100));
    joader.add_job(Job::new(1), None).unwrap();
    joader.add_job(Job::new(2), None).unwrap();
    let mut reads = 0;
    let mut seen: HashMap<u64, Vec<u32>> = HashMap::new();
    loop {
        let batch = joader.next_batch(16);
        if batch.is_empty() {
            break;
        }
        let indices: HashSet<u32> = batch.iter().map(|b| b.index).collect();
        assert_eq!(indices.len(), batch.len());
        for item in &batch {
            reads += 1;
            assert_eq!(item.jobs.len(), 2);
            assert_eq!(item.ref_cnt, joader.ref_count(item.index));
            assert_eq!(item.ref_cnt, 0);
            for job in &item.jobs {
                seen.entry(*job).or_default().push(item.index);
                joader.push(*job);
            }
        }
        joader.set_capacity(1, CAP);
        joader.set_capacity(2, CAP);
    }
    assert_eq!(reads, 100);
    for job in [1u64, 2] {
        let mut got = seen.remove(&job).unwrap();
        got.sort();
        assert_eq!(got, (0..100).collect::<Vec<u32>>());
    }
}

#[test]
fn disjoint_filters_read_every_index_once() {
    let mut joader = Joader::new(0, keys(128));
    assert_eq!(joader.add_job(Job::new(1), Some(&below(64))), Ok(64));
    assert_eq!(joader.add_job(Job::new(2), Some(&at_least(64))), Ok(64));
    let mut reads = 0;
    for _ in 0..64 {
        let list = joader.next();
        reads += list.len();
        for (index, jobs) in &list {
            assert_eq!(jobs.len(), 1);
            assert_eq!(jobs[0] == 1, *index < 64);
            joader.push(jobs[0]);
        }
        joader.set_capacity(1, CAP);
        joader.set_capacity(2, CAP);
    }
    assert_eq!(reads, 128);
    assert!(joader.next().is_empty());
}

#[test]
fn a_job_whose_queue_is_full_is_skipped() {
    let mut joader = Joader::new(0, keys(50));
    joader.add_job(Job::new(1), None).unwrap();
    joader.add_job(Job::new(2), None).unwrap();
    // The queue of job 1 has 3 places left; it never takes a payload out.
    joader.set_capacity(1, 3);
    let mut given: HashMap<u64, usize> = HashMap::new();
    for _ in 0..50 {
        for (_, jobs) in joader.next() {
            for job in jobs {
                *given.entry(job).or_default() += 1;
                if job == 2 {
                    joader.push(2);
                    joader.set_capacity(2, CAP);
                }
            }
        }
    }
    assert_eq!(given[&2], 50);
    assert_eq!(given[&1], 3);
    // Once its queue drains, the slow job goes on where it was.
    for _ in 0..3 {
        joader.push(1);
    }
    joader.set_capacity(1, CAP);
    let mut more = 0;
    loop {
        let list = joader.next();
        if list.is_empty() {
            break;
        }
        for (_, jobs) in list {
            assert_eq!(jobs, vec![1u64]);
            more += 1;
            joader.push(1);
            joader.set_capacity(1, CAP);
        }
    }
    assert_eq!(more, 47);
}

#[test]
fn a_batch_promises_no_more_than_the_queue_has_places() {
    let mut joader = Joader::new(0, keys(50));
    joader.add_job(Job::new(1), None).unwrap();
    joader.set_capacity(1, 5);
    let batch = joader.next_batch(20);
    assert_eq!(batch.len(), 5);
    assert!(joader.next_batch(20).is_empty());
}

#[test]
fn joader_table_keeps_one_scheduler_for_each_dataset() {
    let mut table = JoaderTable::new("shm".to_string());
    assert!(table.is_empty());
    assert_eq!(table.get_shm_path(), "shm");
    let mut a = Joader::new(1, keys(10));
    a.add_job(Job::new(1), None).unwrap();
    table.add_joader(a);
    table.add_joader(Joader::new(2, keys(10)));
    assert!(table.contains_dataset(1) && table.contains_dataset(2));
    assert!(!table.contains_dataset(3));
    assert!(!table.is_empty());
    let batches = table.next(4);
    assert_eq!(batches.len(), 1);
    assert_eq!(batches[0].0, 1);
    assert_eq!(batches[0].1.len(), 4);
    let mut b = table.take(2).unwrap();
    assert!(!table.contains_dataset(2));
    b.add_job(Job::new(9), None).unwrap();
    table.add_joader(b);
    let batches = table.next(4);
    let ids: HashSet<u32> = batches.iter().map(|b| b.0).collect();
    assert_eq!(ids, HashSet::from_iter([1u32, 2]));
    table.del_joader(1);
    assert!(!table.contains_dataset(1));
    assert!(table.take(1).is_none());
    table.set_hash_key(3);
}

#[test]
fn read_batch_tells_hits_from_misses() {
    let mut region = vec![0u8; 400];
    let mut cache = Cache::new(400, "shm", 4);
    let id = joader::dataset::data_id(5, 11);
    let (_, slot) = cache.allocate(&mut region, 10, 0, id, 1).unwrap();
    let mut head = Head::new(slot * 20);
    head.readed(&mut region, 1);
    let batch = vec![
        BatchItem {
            index: 11,
            ref_cnt: 1,
            jobs: vec![1, 2, 3],
        },
        BatchItem {
            index: 12,
            ref_cnt: 70,
            jobs: vec![4],
        },
    ];
    let found = read_batch(&mut cache, &mut region, 5, &batch);
    assert_eq!(
        found,
        vec![
            Lookup::Hit { index: 11, slot },
            Lookup::Miss(Miss {
                index: 12,
                data_id: joader::dataset::data_id(5, 12),
                ref_cnt: 63,
                loader_cnt: 1,
            }),
        ]
    );
    // The slot that serves the read is armed for three readers again.
    assert_eq!(&region[12..20], &[0xffu8, 0xff, 0xff, 0, 0, 0, 0, 0][..]);
    assert!(!head.get_readed(&region));
}

#[test]
fn a_batch_gives_each_job_one_read_a_turn() {
    // Job 1 has 2 places, job 2 has 3 values, job 3 has room and values
    // enough: after 4 turns they are given 2, 3 and 4 reads.
    let mut joader = Joader::new(0, keys(40));
    joader.add_job(Job::new(1), Some(&below(20))).unwrap();
    joader.add_job(Job::new(2), Some(&at_least(37))).unwrap();
    joader.add_job(Job::new(3), Some(&below(30))).unwrap();
    joader.set_capacity(1, 2);
    let batch = joader.next_batch(100);
    // The batch ends when a turn gives nothing: job 3 is given all it had.
    let mut given: HashMap<u64, usize> = HashMap::new();
    for item in &batch {
        assert!(!item.jobs.is_empty());
        for job in &item.jobs {
            *given.entry(*job).or_default() += 1;
        }
    }
    assert_eq!(given[&1], 2);
    assert_eq!(given[&2], 3);
    assert_eq!(given[&3], 30);
    assert!(joader.next_batch(100).is_empty());

    // With nothing in the way, a batch of `n` takes no more than `n` turns.
    let mut joader = Joader::new(0, keys(40));
    joader.add_job(Job::new(1), Some(&below(20))).unwrap();
    joader.add_job(Job::new(2), Some(&at_least(20))).unwrap();
    let batch = joader.next_batch(4);
    let mut given: HashMap<u64, usize> = HashMap::new();
    for item in &batch {
        for job in &item.jobs {
            *given.entry(*job).or_default() += 1;
        }
    }
    // The jobs share nothing: each turn adds two reads, and two turns fill
    // the batch.
    assert_eq!(batch.len(), 4);
    assert_eq!(given[&1], 2);
    assert_eq!(given[&2], 2);
    assert!(joader.next_batch(0).is_empty());
}

#[test]
fn a_hit_arms_its_slot_and_no_other() {
    let mut region = vec![0u8; 400];
    let mut cache = Cache::new(400, "shm", 4);
    let (_, a) = cache
        .allocate(&mut region, 10, 0, joader::dataset::data_id(5, 1), 1)
        .unwrap();
    let (_, b) = cache
        .allocate(&mut region, 10, 0, joader::dataset::data_id(5, 2), 2)
        .unwrap();
    let (_, c) = cache
        .allocate(&mut region, 10, 0, joader::dataset::data_id(6, 1), 3)
        .unwrap();
    assert_eq!((a, b, c), (0, 1, 2));
    Head::new(0).readed(&mut region, 1);
    let before = region.clone();
    let batch = vec![
        BatchItem {
            index: 2,
            ref_cnt: 0,
            jobs: vec![1, 2, 3, 4, 5],
        },
        BatchItem {
            index: 1,
            ref_cnt: 0,
            jobs: vec![7],
        },
        BatchItem {
            index: 3,
            ref_cnt: 0,
            jobs: vec![1],
        },
    ];
    let found = read_batch(&mut cache, &mut region, 5, &batch);
    assert_eq!(found[0], Lookup::Hit { index: 2, slot: 1 });
    assert_eq!(found[1], Lookup::Hit { index: 1, slot: 0 });
    assert!(matches!(found[2], Lookup::Miss(_)));
    // Each slot that serves a read is armed for the jobs of its read.
    assert_eq!(&region[32..40], &[0xffu8, 0xff, 0xff, 0xff, 0xff, 0, 0, 0][..]);
    assert_eq!(&region[12..20], &[0xffu8, 0, 0, 0, 0, 0, 0, 0][..]);
    // The slot of the other dataset, and everything but the two masks, is
    // as it was.
    assert_eq!(&region[40..], &before[40..]);
    assert_eq!(&region[..12], &before[..12]);
    assert_eq!(&region[20..32], &before[20..32]);
    // Nothing is allocated for a hit.
    assert_eq!(cache.contains_data(joader::dataset::data_id(5, 3)), None);
}

#[test]
fn the_table_hands_out_the_scheduler_itself() {
    let mut table = JoaderTable::new("shm".to_string());
    let mut a = Joader::new(1, keys(10));
    a.add_job(Job::new(7), None).unwrap();
    table.add_joader(a);
    table.add_joader(Joader::new(2, keys(5)));
    // What is put in is what comes out: the scheduler with its job.
    let taken = table.take(1).unwrap();
    assert_eq!(taken.get_id(), 1);
    assert_eq!(taken.len(), 10);
    assert!(taken.contains(7));
    assert!(!table.contains_dataset(1));
    assert!(table.contains_dataset(2));
    assert!(table.take(1).is_none());
    table.add_joader(taken);
    // Putting another in for the same dataset takes the first out.
    table.add_joader(Joader::new(1, keys(3)));
    let second = table.take(1).unwrap();
    assert_eq!(second.len(), 3);
    assert!(!second.contains(7));
    assert!(table.take(1).is_none());
    // Deleting leaves the others as they are.
    let mut b = table.take(2).unwrap();
    b.add_job(Job::new(9), None).unwrap();
    table.add_joader(b);
    table.add_joader(second);
    table.del_joader(1);
    table.del_joader(3);
    let b = table.take(2).unwrap();
    assert!(b.contains(9));
    assert_eq!(b.len(), 5);
}
