use joader::cache::cache::Cache;
use joader::cache::data_block::Data;
use joader::cache::data_segment::DataSegment;
use joader::cache::head::{Head, HEAD_SIZE};
use joader::cache::head_segment::HeadSegment;

fn write(
    cache: &mut Cache,
    region: &mut [u8],
    len: usize,
    ref_cnt: usize,
    value: u8,
    data_id: u64,
) -> usize {
    let (off, idx) = cache.allocate(region, len, ref_cnt, data_id, 1).unwrap();
    let block_slice = &mut region[off as usize..off as usize + len];
    assert_eq!(len, block_slice.len());
    (0..len).fold((), |_, i| block_slice[i] = value);
    idx
}

fn read(idx: usize, region: &mut [u8], value: u8) -> Vec<u8> {
    let mut head = Head::new(idx * (Head::size() as usize));
    let (_, len, off) = head.get(region);
    let mut res = Vec::new();
    let data = &region[off as usize..off as usize + len as usize];
    data.iter().fold((), |_, x| {
        assert!(*x == value);
        res.push(*x)
    });

    head.readed(region, 1);
    res
}

#[test]
fn single_thread_test() {
    let head_num = 8;
    let len = head_num * HEAD_SIZE + 1024;
    let name = "DLCache".to_string();

    let mut region = vec![0u8; len as usize];
    let mut cache = Cache::new(len as usize, &name, head_num);

    let size_list = &[(20, 0), (27, 1), (60, 2), (20, 3)];
    let mut idx_list = vec![];
    for (idx, (size, ref_cnt)) in size_list.iter().enumerate() {
        let idx = write(&mut cache, &mut region, *size, *ref_cnt, 7, idx as u64);
        idx_list.push(idx);
    }
    for ((size, _), off) in size_list.iter().zip(idx_list.iter()) {
        let data = read(*off, &mut region, 7);
        assert_eq!(data.len(), *size);
    }

    // some data should be free
    let size_list = &[40, 38];
    let mut idx_list = vec![];
    for (idx, size) in size_list.iter().enumerate() {
        let idx = write(&mut cache, &mut region, *size, size % 2, 3, idx as u64);
        idx_list.push(idx);
    }
    for (size, off) in size_list.iter().zip(idx_list.iter()) {
        let data = read(*off, &mut region, 3);
        assert_eq!(data.len(), *size);
    }

    // some data should be free
    let size_list = &[127];
    let mut idx_list = vec![];
    for (idx, size) in size_list.iter().enumerate() {
        let idx = write(&mut cache, &mut region, *size, size % 3, 5, idx as u64);
        idx_list.push(idx);
    }
    for (size, off) in size_list.iter().zip(idx_list.iter()) {
        let data = read(*off, &mut region, 5);
        assert_eq!(data.len(), *size);
    }
    assert_eq!(cache.get_shm_path(), "DLCache");
}

#[test]
fn head_segment_test() {
    let mut bytes = vec![0u8; 1024 * 20];
    let mut hs = HeadSegment::new(1024);
    for i in 0..1024 {
        let (mut head, _) = hs.allocate(0).unwrap();
        head.set(&mut bytes, i, i as u64, 0);
    }
    for i in 0..1024 {
        let head: Head = Head::new(i * HEAD_SIZE as usize);
        let (readed, len, off) = head.get(&bytes);
        assert!(readed);
        assert_eq!(off, i as u64);
        assert_eq!(len, i as u32);
    }
}

#[test]
fn data_segment_test() {
    const LEN: usize = 1024;
    let mut ds = DataSegment::new(0, LEN as u64);
    assert_eq!(ds.allocate(1023), Some(Data::new(0, 1023 as u64)));
    assert!(ds.allocate(2) == None);

    ds.free(1, 17);
    assert_eq!(ds.allocate(17), Some(Data::new(1, 17)));
}

#[test]
fn descriptor_layout_is_big_endian() {
    let mut region = vec![0xaau8; 60];
    let mut head = Head::new(20);
    head.set(&mut region, 0x0102_0304, 0x1112_1314_1516_1718, 3);
    assert_eq!(&region[..20], &[0xaau8; 20][..]);
    assert_eq!(&region[40..], &[0xaau8; 20][..]);
    assert_eq!(
        &region[20..40],
        &[
            1, 2, 3, 4, 0x11, 0x12, 0x13, 0x14, 0x15, 0x16, 0x17, 0x18, 0xff, 0xff, 0xff, 0, 0, 0, 0,
            0
        ][..]
    );
    assert_eq!(head.get(&region), (false, 0x0102_0304, 0x1112_1314_1516_1718));
    assert_eq!(head.get_len(&region), 0x0102_0304);
    assert_eq!(head.get_off(&region), 0x1112_1314_1516_1718);
    assert_eq!(head.as_ptr(), 20);
}

#[test]
fn armed_mask_has_one_byte_for_each_reader() {
    for cnt in 0..=8usize {
        let mut region = vec![0x55u8; 20];
        let mut head = Head::new(0);
        head.set(&mut region, 1, 2, cnt);
        let unread = region[12..20].iter().filter(|b| **b != 0).count();
        assert_eq!(unread, cnt);
        assert_eq!(head.is_readed(&region), cnt == 0);
    }
}

#[test]
fn readers_drain_the_mask_byte_by_byte() {
    let mut region = vec![0u8; 20];
    let mut head = Head::new(0);
    head.set_unread(&mut region, 2);
    assert!(!head.get_readed(&region));
    head.readed(&mut region, 2);
    assert_eq!(&region[12..14], &[0xffu8, 0][..]);
    assert!(!head.get_readed(&region));
    head.readed(&mut region, 1);
    assert!(head.get_readed(&region));
}

#[test]
fn slot_states() {
    let mut head = Head::new(40);
    assert!(head.is_free());
    head.allocated();
    assert!(!head.is_free());
    head.set_free();
    assert!(head.is_free());
    assert_eq!(Head::size(), 20);
}

#[test]
fn head_segment_gives_up_the_lowest_level_first() {
    let mut region = vec![0u8; 4 * 20];
    let mut hs = HeadSegment::new(4);
    assert_eq!(hs.size(), 80);
    let (_, a) = hs.allocate(5).unwrap();
    let (_, b) = hs.allocate(2).unwrap();
    let (_, c) = hs.allocate(2).unwrap();
    let (_, d) = hs.allocate(9).unwrap();
    assert_eq!((a, b, c, d), (0, 1, 2, 3));
    assert!(hs.allocate(0).is_none());
    // Slot 1 still has a reader; the others have none.
    hs.mark_unreaded(&mut region, 1, 1);
    let freed = hs.free(&region).unwrap();
    assert_eq!(freed.iter().map(|f| f.1).collect::<Vec<_>>(), vec![2]);
    let freed = hs.free(&region).unwrap();
    assert_eq!(freed.iter().map(|f| f.1).collect::<Vec<_>>(), vec![0]);
    let freed = hs.free(&region).unwrap();
    assert_eq!(freed.iter().map(|f| f.1).collect::<Vec<_>>(), vec![3]);
    assert!(hs.free(&region).is_none());
    // The first free slot is taken again.
    assert_eq!(hs.allocate(1).unwrap().1, 0);
}

#[test]
fn allocate_arms_the_mask_and_caches_the_sample() {
    let mut region = vec![0u8; 200];
    let mut cache = Cache::new(200, "shm", 2);
    let (off, idx) = cache.allocate(&mut region, 30, 1, 77, 3).unwrap();
    assert_eq!((off, idx), (40, 0));
    let head = Head::new(0);
    assert_eq!(head.get(&region), (false, 30, 40));
    assert_eq!(region[12..20].iter().filter(|b| **b != 0).count(), 3);
    assert_eq!(cache.contains_data(77), Some(0));
    assert_eq!(cache.contains_data(78), None);
    cache.mark_unreaded(&mut region, 0, 8);
    assert_eq!(&region[12..20], &[0xffu8; 8][..]);
}

#[test]
fn exact_fit_of_the_data_segment() {
    let mut region = vec![0u8; 500];
    let mut cache = Cache::new(500, "shm", 8);
    let (off, idx) = cache.allocate(&mut region, 340, 0, 1, 1).unwrap();
    assert_eq!((off, idx), (160, 0));
    // Nothing is left, and the one slot in use still has a reader.
    assert_eq!(cache.allocate(&mut region, 1, 0, 2, 1), None);
    assert_eq!(cache.contains_data(1), Some(0));
}

#[test]
fn one_byte_too_many_is_refused_until_readers_go_on() {
    let mut region = vec![0u8; 500];
    let mut cache = Cache::new(500, "shm", 8);
    assert_eq!(cache.allocate(&mut region, 341, 0, 1, 1), None);
    let (_, idx) = cache.allocate(&mut region, 300, 0, 1, 1).unwrap();
    assert_eq!(cache.allocate(&mut region, 41, 0, 2, 1), None);
    let mut head = Head::new(idx * 20);
    head.readed(&mut region, 1);
    let (off, idx2) = cache.allocate(&mut region, 41, 0, 2, 1).unwrap();
    assert_eq!((off, idx2), (160, 0));
    assert_eq!(cache.contains_data(1), None);
    assert_eq!(cache.contains_data(2), Some(0));
}

#[test]
fn arena_eviction() {
    // 8 slots, 500 bytes in all: room for three payloads of 100 bytes.
    let mut region = vec![0u8; 500];
    let mut cache = Cache::new(500, "shm", 8);
    let mut slots = Vec::new();
    for i in 0..9u64 {
        let (off, idx) = cache.allocate(&mut region, 100, 0, i, 1).unwrap();
        assert!(off >= 160 && off + 100 <= 500);
        for b in &mut region[off as usize..off as usize + 100] {
            *b = i as u8;
        }
        let mut head = Head::new(idx * 20);
        assert_eq!(head.get(&region), (false, 100, off));
        head.readed(&mut region, 1);
        slots.push(idx);
        if i >= 5 {
            assert_eq!(cache.contains_data(0), None);
            assert_eq!(cache.contains_data(1), None);
            assert_eq!(cache.contains_data(2), None);
        }
    }
    assert_eq!(cache.contains_data(8), Some(slots[8]));
}

#[test]
fn data_extents() {
    let mut d = Data::new(100, 50);
    assert_eq!((d.off(), d.len()), (100, 50));
    let inner = d.allocate(110, 5);
    assert_eq!((inner.off(), inner.len()), (110, 5));
    assert_eq!(d.remain(50), None);
    assert_eq!(d.remain(20), Some(Data::new(120, 30)));
}

#[test]
fn slots_are_given_up_while_a_payload_is_set_aside() {
    // Two slots, and bytes enough: it is the slots that run out.
    let mut region = vec![0u8; 1000];
    let mut cache = Cache::new(1000, "shm", 2);
    let (_, a) = cache.allocate(&mut region, 10, 1, 100, 1).unwrap();
    let (_, b) = cache.allocate(&mut region, 10, 0, 200, 1).unwrap();
    assert_eq!((a, b), (0, 1));
    // Nothing is read: no slot is due, and the bytes set aside are free
    // again.
    assert_eq!(cache.allocate(&mut region, 940, 0, 300, 1), None);
    assert_eq!(cache.contains_data(100), Some(0));
    assert_eq!(cache.contains_data(200), Some(1));
    // The reader of the first is done: its slot is due, and is given up
    // for the next sample.
    Head::new(0).readed(&mut region, 1);
    let (off, c) = cache.allocate(&mut region, 20, 2, 300, 1).unwrap();
    assert_eq!(c, 0);
    assert_eq!(Head::new(0).get(&region), (false, 20, off));
    assert_eq!(cache.contains_data(100), None);
    assert_eq!(cache.contains_data(200), Some(1));
    assert_eq!(cache.contains_data(300), Some(0));
    // Both are read, on levels 2 and 0: the lower level goes first, and
    // alone.
    Head::new(0).readed(&mut region, 1);
    Head::new(20).readed(&mut region, 1);
    let (_, d) = cache.allocate(&mut region, 5, 1, 400, 1).unwrap();
    assert_eq!(d, 1);
    assert_eq!(cache.contains_data(200), None);
    assert_eq!(cache.contains_data(300), Some(0));
    assert_eq!(cache.contains_data(400), Some(1));
}

#[test]
fn a_sample_stands_in_one_slot() {
    let mut region = vec![0u8; 1000];
    let mut cache = Cache::new(1000, "shm", 2);
    let (_, a) = cache.allocate(&mut region, 10, 0, 100, 1).unwrap();
    // The same sample once more: it is cached in the later slot.
    let (_, b) = cache.allocate(&mut region, 10, 1, 100, 1).unwrap();
    assert_eq!((a, b), (0, 1));
    assert_eq!(cache.contains_data(100), Some(1));
    // The earlier slot is read and given up: the sample stays cached.
    Head::new(0).readed(&mut region, 1);
    let (_, c) = cache.allocate(&mut region, 10, 0, 300, 1).unwrap();
    assert_eq!(c, 0);
    assert_eq!(cache.contains_data(100), Some(1));
    assert_eq!(cache.contains_data(300), Some(0));
}

#[test]
fn what_is_not_due_stays_cached() {
    // Room for three payloads of 100 bytes, and slots enough.
    let mut region = vec![0u8; 500];
    let mut cache = Cache::new(500, "shm", 8);
    let (_, a) = cache.allocate(&mut region, 100, 0, 1, 1).unwrap();
    let (_, b) = cache.allocate(&mut region, 100, 1, 2, 1).unwrap();
    let (_, c) = cache.allocate(&mut region, 100, 0, 3, 1).unwrap();
    assert_eq!((a, b, c), (0, 1, 2));
    // Slots 0 and 1 are read; slot 2 is not. Of the read slots, slot 0 is
    // of the lower level: it alone is due.
    Head::new(0).readed(&mut region, 1);
    Head::new(20).readed(&mut region, 1);
    let (_, d) = cache.allocate(&mut region, 100, 0, 4, 1).unwrap();
    assert_eq!(d, 0);
    assert_eq!(cache.contains_data(1), None);
    assert_eq!(cache.contains_data(2), Some(1));
    assert_eq!(cache.contains_data(3), Some(2));
    assert_eq!(cache.contains_data(4), Some(0));
    // No extent has 200 bytes: slot 1 is due now and is given up, though
    // that is not enough.
    assert_eq!(cache.allocate(&mut region, 200, 0, 5, 1), None);
    assert_eq!(cache.contains_data(2), None);
    assert_eq!(cache.contains_data(3), Some(2));
    assert_eq!(cache.contains_data(4), Some(0));
    assert_eq!(cache.contains_data(5), None);
}
