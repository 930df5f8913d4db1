use appendvec::appendvec::AppendVec;
use appendvec::codec::{encode_header, read_le, Account, HEADER_SIZE};
use appendvec::slots::SlotVec;
use memmap::MmapMut;
use rand::{thread_rng, Rng};
use std::collections::HashSet;
use std::sync::Mutex;
use std::time::Instant;

fn log_of_size(size: usize) -> AppendVec {
    AppendVec::new(MmapMut::map_anon(size).unwrap())
}

fn test_account(ix: usize) -> Account {
    let data_len = ix % 256;
    Account {
        lamports: ix as u64,
        data: (0..data_len).into_iter().map(|_| data_len as u8).collect(),
    }
}

#[test]
fn test_append_vec() {
    let mut av = log_of_size(1024 * 1024);
    let val = Account {
        lamports: 5,
        data: vec![],
    };
    let index = av.append_account(&val).unwrap();
    assert_eq!(av.get_account(index).to_account(), val);
    let val1 = Account {
        lamports: 6,
        data: vec![],
    };
    let index1 = av.append_account(&val1).unwrap();
    assert_eq!(av.get_account(index).to_account(), val);
    assert_eq!(av.get_account(index1).to_account(), val1);
}

#[test]
fn test_append_vec_data() {
    let mut av = log_of_size(1024 * 1024);
    let val = Account {
        lamports: 5,
        data: vec![1, 2, 3],
    };
    let index = av.append_account(&val).unwrap();
    let account = av.get_account(index).to_account();
    assert_eq!(account, val);
    let val1 = Account {
        lamports: 6,
        data: vec![4, 5, 6],
    };
    let index1 = av.append_account(&val1).unwrap();
    assert_eq!(av.get_account(index).to_account(), val);
    assert_eq!(av.get_account(index1).to_account(), val1);
}

#[test]
fn test_grow_append_vec() {
    let mut av = log_of_size(1024 * 1024);

    let size = 1000;
    let mut indexes = vec![];
    let now = Instant::now();
    for ix in 0..size {
        let val = test_account(ix);
        let pos = av.append_account(&val).unwrap();
        assert_eq!(av.get_account(pos).to_account(), val);
        indexes.push(pos)
    }
    println!("append time: {} ms", now.elapsed().as_millis());

    let now = Instant::now();
    for _ in 0..size {
        let ix = thread_rng().gen_range(0..indexes.len());
        let val = test_account(ix);
        assert_eq!(av.get_account(indexes[ix]).to_account(), val);
    }
    println!("random read time: {} ms", now.elapsed().as_millis());

    let now = Instant::now();
    assert_eq!(indexes.len(), size);
    assert_eq!(indexes[0], 0);
    let accounts = av.accounts(indexes[0]);
    assert_eq!(accounts.len(), size);
    for (ix, v) in accounts.iter().enumerate() {
        let val = test_account(ix);
        assert_eq!(v.to_account(), val)
    }
    println!("sequential read time: {} ms", now.elapsed().as_millis());
}

#[test]
fn second_record_starts_at_next_boundary() {
    let mut av = log_of_size(4096);
    let first = Account { lamports: 5, data: vec![] };
    let second = Account { lamports: 6, data: vec![] };
    assert_eq!(av.append_account(&first), Some(0));
    assert_eq!(av.len(), 16);
    let off = av.append_account(&second).unwrap();
    assert_eq!(off, 16);
    assert_eq!(av.get_account(0).to_account(), first);
    assert_eq!(av.get_account(off).to_account(), second);
    assert_eq!(av.get_account(off).lamports, 6);
    assert!(av.get_account(off).data.is_empty());
}

#[test]
fn offsets_are_aligned_and_padding_follows_the_payload() {
    let mut av = log_of_size(4096);
    let a = Account { lamports: 1, data: vec![9, 9, 9] };
    let b = Account { lamports: 2, data: vec![7] };
    assert_eq!(av.append_account(&a), Some(0));
    assert_eq!(av.len(), 19);
    assert_eq!(av.append_account(&b), Some(24));
    assert_eq!(av.len(), 41);
    assert_eq!(av.append_account(&a), Some(48));
    for off in [0usize, 24, 48] {
        assert_eq!(off % 8, 0);
    }
}

#[test]
fn scan_yields_every_record_in_order() {
    let mut av = log_of_size(1024 * 1024);
    let mut offsets = vec![];
    for ix in 0..1000 {
        offsets.push(av.append_account(&test_account(ix)).unwrap());
    }
    let all = av.accounts(0);
    assert_eq!(all.len(), 1000);
    for (ix, v) in all.iter().enumerate() {
        assert_eq!(v.lamports, ix as u64);
        assert_eq!(v.to_account(), test_account(ix));
    }
    let tail = av.accounts(offsets[990]);
    assert_eq!(tail.len(), 10);
    assert_eq!(tail[0].to_account(), test_account(990));
}

#[test]
fn scan_of_empty_log_and_past_the_last_record() {
    let mut av = log_of_size(1024);
    assert!(av.accounts(0).is_empty());
    av.append_account(&Account { lamports: 3, data: vec![1] }).unwrap();
    assert_eq!(av.len(), 17);
    assert!(av.accounts(24).is_empty());
}

#[test]
fn a_record_ending_at_capacity_gets_no_room() {
    let mut av = log_of_size(32);
    assert_eq!(av.capacity(), 32);
    assert_eq!(av.append_account(&Account { lamports: 1, data: vec![] }), Some(0));
    let full = Account { lamports: 2, data: vec![] };
    assert!(!av.has_room(&full));
    assert_eq!(av.append_account(&full), None);
    assert_eq!(av.len(), 16);
    assert_eq!(av.accounts(0).len(), 1);

    let mut av = log_of_size(32);
    let just_fits = Account { lamports: 1, data: vec![0; 15] };
    assert!(av.has_room(&just_fits));
    assert_eq!(av.append_account(&just_fits), Some(0));
    assert_eq!(av.len(), 31);
}

#[test]
fn grow_then_append_succeeds_and_keeps_old_records() {
    let mut av = log_of_size(64);
    let a = Account { lamports: 10, data: vec![1, 2, 3, 4, 5, 6, 7, 8, 9, 10] };
    assert_eq!(av.append_account(&a), Some(0));
    let b = Account { lamports: 11, data: vec![42; 40] };
    assert_eq!(av.append_account(&b), None);
    assert_eq!(av.grow_target(&b, 256), Some(320));
    let target = av.grow_target(&b, 256).unwrap();
    assert!(av.grow(MmapMut::map_anon(target).unwrap()).is_ok());
    assert_eq!(av.capacity(), 320);
    assert_eq!(av.get_account(0).to_account(), a);
    let off = av.append_account(&b).unwrap();
    assert_eq!(off, 32);
    assert_eq!(av.get_account(off).to_account(), b);
    assert_eq!(av.grow_target(&b, 256), None);
}

#[test]
fn grow_refuses_a_mapping_that_is_not_larger() {
    let mut av = log_of_size(64);
    av.append_account(&Account { lamports: 1, data: vec![5] }).unwrap();
    let back = av.grow(MmapMut::map_anon(64).unwrap());
    assert!(back.is_err());
    assert_eq!(back.unwrap_err().len(), 64);
    assert_eq!(av.capacity(), 64);
    assert_eq!(av.accounts(0).len(), 1);
}

#[test]
fn grow_target_saturates() {
    let av = log_of_size(64);
    let big = Account { lamports: 0, data: vec![0; 100] };
    assert_eq!(av.grow_target(&big, usize::MAX), Some(usize::MAX));
}

#[test]
fn header_is_little_endian_lamports_then_length() {
    let a = Account { lamports: 0x0102_0304_0506_0708, data: vec![0; 3] };
    let h = encode_header(&a);
    assert_eq!(h.len(), HEADER_SIZE);
    assert_eq!(h[0..8], [8, 7, 6, 5, 4, 3, 2, 1]);
    assert_eq!(h[8..16], [3, 0, 0, 0, 0, 0, 0, 0]);
    assert_eq!(read_le(&h, 0), 0x0102_0304_0506_0708);
    assert_eq!(read_le(&h, 8), 3);
}

#[test]
fn two_interleaved_writers_never_share_offsets() {
    let log = Mutex::new(log_of_size(64 * 1024));
    let mut results: Vec<Vec<Option<usize>>> = vec![vec![], vec![]];
    for i in 0..10_000u64 {
        for t in 0..2u64 {
            let acc = Account { lamports: t * 100_000 + i, data: vec![] };
            let r = log.lock().unwrap().append_account(&acc);
            results[t as usize].push(r);
        }
    }
    let total: usize = results.iter().map(|r| r.len()).sum();
    assert_eq!(total, 20_000);
    let av = log.into_inner().unwrap();
    let mut seen = HashSet::new();
    let mut ok = 0usize;
    for (t, r) in results.iter().enumerate() {
        for (i, off) in r.iter().enumerate() {
            if let Some(off) = off {
                ok += 1;
                assert!(seen.insert(*off));
                assert_eq!(av.get_account(*off).lamports, t as u64 * 100_000 + i as u64);
            }
        }
    }
    assert!(ok < 20_000);
    assert_eq!(ok, (64 * 1024 - 1) / 16);
    assert_eq!(av.accounts(0).len(), ok);
}

#[test]
fn slots_are_stored_at_index_times_eight() {
    let mut sv = SlotVec::new(MmapMut::map_anon(64).unwrap());
    assert_eq!(sv.capacity(), 64);
    assert_eq!(sv.append(7), Some(0));
    assert_eq!(sv.append(u64::MAX), Some(1));
    assert_eq!(sv.append(0x0102_0304_0506_0708), Some(2));
    assert_eq!(sv.len(), 24);
    assert_eq!(sv.get(0), 7);
    assert_eq!(sv.get(1), u64::MAX);
    assert_eq!(sv.get(2), 0x0102_0304_0506_0708);
}

#[test]
fn slot_ending_at_capacity_gets_no_room_until_growth() {
    let mut sv = SlotVec::new(MmapMut::map_anon(16).unwrap());
    assert_eq!(sv.append(1), Some(0));
    assert_eq!(sv.append(2), None);
    assert_eq!(sv.len(), 8);
    assert!(sv.grow(MmapMut::map_anon(16).unwrap()).is_err());
    assert!(sv.grow(MmapMut::map_anon(48).unwrap()).is_ok());
    assert_eq!(sv.capacity(), 48);
    assert_eq!(sv.append(2), Some(1));
    assert_eq!(sv.get(0), 1);
    assert_eq!(sv.get(1), 2);
}

#[test]
fn two_interleaved_slot_writers_get_distinct_readable_slots() {
    let log = Mutex::new(SlotVec::new(MmapMut::map_anon(64 * 1024).unwrap()));
    let mut results: Vec<Vec<Option<usize>>> = vec![vec![], vec![]];
    for i in 0..10_000u64 {
        for t in 0..2u64 {
            let r = log.lock().unwrap().append(t * 100_000 + i);
            results[t as usize].push(r);
        }
    }
    let total: usize = results.iter().map(|r| r.len()).sum();
    assert_eq!(total, 20_000);
    let sv = log.into_inner().unwrap();
    let mut seen = HashSet::new();
    let mut ok = 0usize;
    for (t, r) in results.iter().enumerate() {
        for (i, slot) in r.iter().enumerate() {
            if let Some(slot) = slot {
                ok += 1;
                assert!(seen.insert(*slot));
                assert_eq!(sv.get(*slot), t as u64 * 100_000 + i as u64);
            }
        }
    }
    assert_eq!(ok, (64 * 1024 - 1) / 8);
    assert_eq!(sv.len(), 8 * ok);
}
