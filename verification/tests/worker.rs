use slatedb::cached_object_store::file_handles::{FileHandleCache, HandleEvent, HandleStep};
use slatedb::cached_object_store::pacing::{chunk_plan, PacingController, PauseChoice};
use slatedb::cached_object_store::storage_uring::{
    cpu_for_worker, is_cache_file, listed_cpus, setting_or, size_setting, worker_count,
    worker_for_hash, worker_for_location, FdCache,
};
use slatedb::cached_object_store::uring_worker::{
    aligned_len, file_fate, plan_read, Chunk, ChunkStep, Completion, FileFate, PacedEnd,
    PacedFailure, ReadPlan, UringWorker, WritePlan,
};
use slatedb::path::Path;

#[test]
fn direct_reads_are_aligned() {
    assert_eq!(
        plan_read(false, 5000, 100),
        ReadPlan {
            file_offset: 5000,
            submit_len: 100,
            head_pad: 0
        }
    );
    assert_eq!(
        plan_read(true, 5000, 100),
        ReadPlan {
            file_offset: 4096,
            submit_len: 4096,
            head_pad: 904
        }
    );
    assert_eq!(
        plan_read(true, 8191, 2),
        ReadPlan {
            file_offset: 4096,
            submit_len: 8192,
            head_pad: 4095
        }
    );
    assert_eq!(aligned_len(0), 0);
    assert_eq!(aligned_len(1), 4096);
    assert_eq!(aligned_len(4096), 4096);
}

#[test]
fn reads_are_answered_with_what_they_brought() {
    let mut worker = UringWorker::new(true, 0, 0, 1000);
    let plan = plan_read(true, 5000, 100);
    let id = worker.take_id();
    assert_eq!(id, 1);
    worker.read_submitted(id, plan, 100, 10);
    assert_eq!(
        worker.complete(id, 4096, 20),
        Completion::ReadDone {
            from: 904,
            take: 100
        }
    );
    // the same number again is not known
    assert_eq!(worker.complete(id, 4096, 20), Completion::Unknown);

    // a short read
    let id = worker.take_id();
    worker.read_submitted(id, plan, 100, 10);
    assert_eq!(
        worker.complete(id, 950, 20),
        Completion::ReadDone {
            from: 904,
            take: 46
        }
    );
    let id = worker.take_id();
    worker.read_submitted(id, plan, 100, 10);
    assert_eq!(
        worker.complete(id, 100, 20),
        Completion::ReadDone { from: 904, take: 0 }
    );
    let id = worker.take_id();
    worker.read_submitted(id, plan, 100, 10);
    assert_eq!(
        worker.complete(id, -5, 20),
        Completion::ReadFailed { errno: 5 }
    );
}

#[test]
fn whole_writes_end_with_a_rename_or_a_failure() {
    let mut worker = UringWorker::new(true, 0, 0, 0);
    assert_eq!(
        worker.plan_write(8192),
        WritePlan::Whole { direct_io: true }
    );
    assert_eq!(
        worker.plan_write(8193),
        WritePlan::Whole { direct_io: false }
    );
    let id = worker.take_id();
    worker.write_submitted(id, true, 8192);
    assert_eq!(
        worker.complete(id, 8192, 0),
        Completion::WriteDone { rename: true }
    );
    let id = worker.take_id();
    worker.write_submitted(id, false, 8192);
    assert_eq!(
        worker.complete(id, -28, 0),
        Completion::WriteFailed { errno: 28 }
    );
    let id = worker.take_id();
    worker.write_submitted(id, false, 0);
    assert_eq!(
        worker.complete(id, 0, 0),
        Completion::WriteDone { rename: false }
    );
    assert_eq!(file_fate(true, true), FileFate::Remove);
    assert_eq!(file_fate(false, true), FileFate::Rename);
    assert_eq!(file_fate(false, false), FileFate::Keep);
}

#[test]
fn a_whole_write_that_ends_early_is_no_success() {
    let mut worker = UringWorker::new(false, 0, 0, 0);
    for written in [0, 1, 4096, 8191] {
        let id = worker.take_id();
        worker.write_submitted(id, true, 8192);
        assert_eq!(
            worker.complete(id, written, 0),
            Completion::WriteShort {
                written: written as usize,
                expected: 8192,
            }
        );
    }
}

#[test]
fn a_paced_write_goes_out_chunk_by_chunk() {
    let mut worker = UringWorker::new(true, 4096, 50, 0);
    assert_eq!(
        worker.plan_write(10_000),
        WritePlan::Paced { direct_io: true }
    );
    assert_eq!(
        worker.plan_write(4096),
        WritePlan::Whole { direct_io: true }
    );
    assert!(worker.should_block(0));
    let id = worker.begin_paced(10_000, true, true, 100);
    assert!(!worker.should_block(0));
    assert_eq!(worker.submit_wait(0), None);
    let mut now = 100;
    let mut ranges = vec![];
    loop {
        assert_eq!(worker.due_chunks(now - 1), vec![]);
        let due = worker.due_chunks(now);
        assert_eq!(due, vec![(now, id)]);
        let chunk = match worker.next_chunk(id) {
            ChunkStep::Submit(chunk) => chunk,
            step => panic!("expected a chunk, got {:?}", step),
        };
        ranges.push((chunk.start, chunk.end, chunk.submit_len));
        worker.chunk_submitted(id, chunk);
        assert_eq!(worker.submit_wait(1), Some(1));
        assert_eq!(worker.idle_sleep_us(now), None);
        match worker.complete(chunk.user_data, chunk.submit_len as i32, now) {
            Completion::PacedNext { id: next, pause } => {
                assert_eq!(next, id);
                assert_eq!(pause, PauseChoice::Base);
                now += 50;
                worker.schedule_chunk(id, now);
                assert_eq!(worker.idle_sleep_us(now - 50), Some(50));
                assert_eq!(worker.idle_sleep_us(now), None);
            }
            Completion::PacedEnded { id: ended, end } => {
                assert_eq!(ended, id);
                // the last chunk was filled up, so the file is cut to its length
                assert_eq!(
                    end,
                    PacedEnd {
                        failed: None,
                        truncate_to: Some(10_000),
                        rename: true
                    }
                );
                break;
            }
            other => panic!("unexpected completion {:?}", other),
        }
    }
    assert_eq!(
        ranges,
        vec![(0, 4096, 4096), (4096, 8192, 4096), (8192, 10_000, 4096)]
    );
    assert!(worker.should_block(0));
    assert_eq!(worker.next_chunk(id), ChunkStep::Gone);
}

fn first_chunk(worker: &mut UringWorker, id: u64) -> Chunk {
    match worker.next_chunk(id) {
        ChunkStep::Submit(chunk) => chunk,
        step => panic!("expected a chunk, got {:?}", step),
    }
}

#[test]
fn a_paced_write_ends_with_its_first_failure() {
    // chunks off the alignment are written through the page cache
    let mut worker = UringWorker::new(true, 1000, 50, 0);
    assert_eq!(
        worker.plan_write(5000),
        WritePlan::Paced { direct_io: false }
    );
    let id = worker.begin_paced(5000, false, false, 0);
    worker.due_chunks(0);
    let chunk = first_chunk(&mut worker, id);
    assert_eq!((chunk.start, chunk.end, chunk.submit_len), (0, 1000, 1000));
    worker.chunk_submitted(id, chunk);
    assert_eq!(
        worker.complete(chunk.user_data, 999, 0),
        Completion::PacedEnded {
            id,
            end: PacedEnd {
                failed: Some(PacedFailure::ShortWrite {
                    written: 999,
                    expected: 1000
                }),
                truncate_to: None,
                rename: false
            }
        }
    );

    let id = worker.begin_paced(5000, false, true, 0);
    worker.due_chunks(0);
    let chunk = first_chunk(&mut worker, id);
    worker.chunk_submitted(id, chunk);
    assert_eq!(
        worker.complete(chunk.user_data, -28, 0),
        Completion::PacedEnded {
            id,
            end: PacedEnd {
                failed: Some(PacedFailure::Errno(28)),
                truncate_to: None,
                rename: true
            }
        }
    );

    // without memory for a chunk the write ends when its turn comes again
    let id = worker.begin_paced(5000, false, true, 0);
    worker.due_chunks(0);
    first_chunk(&mut worker, id);
    worker.chunk_without_buffer(id, 3);
    assert_eq!(worker.due_chunks(3), vec![(3, id)]);
    assert_eq!(
        worker.next_chunk(id),
        ChunkStep::End(PacedEnd {
            failed: Some(PacedFailure::NoBuffer),
            truncate_to: None,
            rename: true
        })
    );
    assert!(worker.should_block(0));
}

#[test]
fn a_worker_submits_in_batches() {
    let mut worker = UringWorker::new(false, 0, 0, 0);
    assert!(worker.may_take(63));
    assert!(!worker.may_take(64));
    assert_eq!(worker.submit_wait(0), None);
    assert_eq!(worker.submit_wait(3), Some(0));
    assert!(worker.should_block(0));
    assert!(!worker.should_block(1));
    let id = worker.take_id();
    worker.write_submitted(id, true, 8192);
    assert!(!worker.should_block(0));
    assert_eq!(worker.submit_wait(0), Some(1));
    assert_eq!(worker.idle_sleep_us(0), None);
}

#[test]
fn naps_are_short() {
    let mut worker = UringWorker::new(false, 10, 10, 0);
    let id = worker.begin_paced(100, false, true, 1_000_000);
    assert_eq!(worker.idle_sleep_us(0), Some(50_000));
    assert_eq!(worker.idle_sleep_us(999_000), Some(1_000));
    worker.due_chunks(1_000_000);
    // nothing is scheduled: look again soon
    assert_eq!(worker.idle_sleep_us(0), Some(1_000));
    worker.schedule_chunk(id, 5);
    assert_eq!(worker.idle_sleep_us(0), Some(5));
}

#[test]
fn writes_are_cut_into_chunks() {
    assert_eq!(chunk_plan(100, 0, 5), vec![(0, 100)]);
    assert_eq!(chunk_plan(100, 40, 0), vec![(0, 100)]);
    assert_eq!(chunk_plan(40, 40, 5), vec![(0, 40)]);
    assert_eq!(chunk_plan(0, 40, 5), vec![(0, 0)]);
    assert_eq!(
        chunk_plan(100, 40, 5),
        vec![(0, 40), (40, 80), (80, 100)]
    );
}

#[test]
fn the_pause_follows_the_latency_of_reads() {
    let mut controller = PacingController::new(200, 1000);
    assert_eq!(controller.base_pause_us(), 200);
    assert_eq!(controller.target_read_p99_us(), 1000);
    assert_eq!(controller.current_p99_us(), 0);
    assert_eq!(controller.next_pause(), PauseChoice::Base);
    for i in 0..31 {
        controller.record_read(2_000_000 + i, 500 + i);
    }
    assert_eq!(controller.next_pause(), PauseChoice::Base);
    controller.record_read(2_000_100, 9000);
    assert_eq!(controller.current_p99_us(), 9000);
    assert_eq!(
        controller.next_pause(),
        PauseChoice::Scaled { p99_us: 9000 }
    );
    // a second later the earlier reads are forgotten
    controller.record_read(3_000_090, 7);
    assert_eq!(controller.current_p99_us(), 9000);
    controller.record_read(3_000_101, 8);
    assert_eq!(controller.current_p99_us(), 8);
    assert_eq!(controller.next_pause(), PauseChoice::Base);
    // without a target there is nothing to follow
    let mut fixed = PacingController::new(200, 0);
    for _ in 0..100 {
        fixed.record_read(0, 50);
    }
    assert_eq!(fixed.current_p99_us(), 50);
    assert_eq!(fixed.next_pause(), PauseChoice::Base);
    let mut idle = PacingController::new(200, 1000);
    for _ in 0..100 {
        idle.record_read(0, 0);
    }
    assert_eq!(idle.next_pause(), PauseChoice::Base);
}

#[test]
fn the_percentile_leaves_the_slowest_reads_out() {
    let mut controller = PacingController::new(1, 1);
    for latency in (1..=200).rev() {
        controller.record_read(0, latency);
    }
    assert_eq!(controller.current_p99_us(), 199);
}

#[test]
fn a_location_has_one_worker() {
    let location = Path::from("compacted/a.sst");
    let worker = worker_for_location(&location, 4);
    assert!(worker < 4);
    assert_eq!(worker_for_location(&Path::from("compacted/a.sst"), 4), worker);
    assert_eq!(worker_for_location(&location, 1), 0);
    let mut used = [false; 4];
    for i in 0..200 {
        used[worker_for_location(&Path::from(&format!("sst-{i}")), 4)] = true;
    }
    assert_eq!(used, [true; 4]);
    assert_eq!(worker_for_hash(10, 4), 2);
    assert_eq!(worker_for_hash(10, 1), 0);
}

#[test]
fn settings_have_defaults() {
    assert_eq!(worker_count(None), 1);
    assert_eq!(worker_count(Some("0")), 1);
    assert_eq!(worker_count(Some("many")), 1);
    assert_eq!(worker_count(Some("8")), 8);
    assert_eq!(setting_or(None, 1_000), 1_000);
    assert_eq!(setting_or(Some("x"), 1_000), 1_000);
    assert_eq!(setting_or(Some("0"), 1_000), 0);
    assert_eq!(size_setting(None), 0);
    assert_eq!(size_setting(Some("")), 0);
    assert_eq!(size_setting(Some("8388608")), 8388608);
}

#[test]
fn workers_are_pinned_in_turn() {
    assert_eq!(listed_cpus("0,1,2,3"), vec![0, 1, 2, 3]);
    assert_eq!(listed_cpus(" 4 ,x,, 6"), vec![4, 6]);
    assert_eq!(listed_cpus(""), Vec::<usize>::new());
    assert_eq!(listed_cpus("7"), vec![7]);
    assert_eq!(
        listed_cpus("\u{a0}1\u{2003},\u{3000}2\u{85},\u{200b}3,\t4\n"),
        vec![1, 2, 4]
    );
    let cpus = vec![4, 6];
    assert_eq!(cpu_for_worker(&cpus, 0), Some(4));
    assert_eq!(cpu_for_worker(&cpus, 3), Some(6));
    assert_eq!(cpu_for_worker(&vec![], 3), None);
}

#[test]
fn kept_files_are_dropped_by_folder() {
    let mut kept = FdCache::new();
    kept.insert("/c/a/_head".to_string(), 1);
    kept.insert("/c/a/_part1kb-000000000".to_string(), 2);
    kept.insert("/c/ab/_head".to_string(), 3);
    kept.insert("/c/ab/_head".to_string(), 4);
    assert_eq!(kept.get("/c/ab/_head"), Some(4));
    let mut gone = kept.remove_under("/c/a");
    gone.sort();
    assert_eq!(gone, vec![1, 2]);
    assert_eq!(kept.get("/c/a/_head"), None);
    assert_eq!(kept.get("/c/ab/_head"), Some(4));
    assert_eq!(kept.remove("/c/ab/_head"), Some(4));
    assert_eq!(kept.remove("/c/ab/_head"), None);
    // a file that is kept twice comes out twice
    kept.insert("/c/d/_head".to_string(), 5);
    kept.insert("/c/d/e/_head".to_string(), 5);
    assert_eq!(kept.remove_under("/c/d"), vec![5, 5]);
    assert_eq!(kept.remove_under("/c/d"), Vec::<u64>::new());

    assert_eq!(kept.next_step("p", HandleEvent::Begin), HandleStep::Open);
    let opened = HandleEvent::Opened { handle: 9 };
    assert_eq!(kept.next_step("p", opened), HandleStep::Use { handle: 9 });
    assert_eq!(
        kept.next_step("p", HandleEvent::Begin),
        HandleStep::Check { handle: 9 }
    );
    let linked = HandleEvent::Checked {
        handle: 9,
        linked: true,
    };
    assert_eq!(kept.next_step("p", linked), HandleStep::Use { handle: 9 });
    let stale = HandleEvent::Checked {
        handle: 9,
        linked: false,
    };
    assert_eq!(kept.next_step("p", stale), HandleStep::Open);
    assert_eq!(kept.get("p"), None);
}

#[test]
fn handles_are_reused_until_they_are_stale() {
    let mut cache = FileHandleCache::new(1000);
    assert_eq!(cache.len(), 0);
    assert_eq!(cache.next_step("p", HandleEvent::Begin), HandleStep::Open);
    let opened = HandleEvent::Opened { handle: 5 };
    assert_eq!(cache.next_step("p", opened), HandleStep::Use { handle: 5 });
    // who opens the file a second time uses what came first
    let again = HandleEvent::Opened { handle: 6 };
    assert_eq!(cache.next_step("p", again), HandleStep::Use { handle: 5 });
    assert_eq!(cache.len(), 1);
    assert_eq!(
        cache.next_step("p", HandleEvent::Begin),
        HandleStep::Check { handle: 5 }
    );
    let linked = HandleEvent::Checked {
        handle: 5,
        linked: true,
    };
    assert_eq!(cache.next_step("p", linked), HandleStep::Use { handle: 5 });
    let stale = HandleEvent::Checked {
        handle: 5,
        linked: false,
    };
    assert_eq!(cache.next_step("p", stale), HandleStep::Open);
    assert_eq!(cache.len(), 0);
    cache.next_step("p", HandleEvent::Opened { handle: 7 });
    assert_eq!(cache.invalidate("p"), Some(7));
    assert_eq!(cache.invalidate("p"), None);
    assert_eq!(cache.next_step("p", HandleEvent::Begin), HandleStep::Open);
}

#[test]
fn heads_and_parts_are_cache_files() {
    assert!(is_cache_file("_head"));
    assert!(is_cache_file("_part1kb-000000000"));
    assert!(is_cache_file("_part"));
    assert!(!is_cache_file("_header"));
    assert!(!is_cache_file("_par"));
    assert!(!is_cache_file(""));
}
