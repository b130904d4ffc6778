use kernel_core::machine::Action;
use kernel_core::sync::rwlock::{ReadPhase, ReadWaiter, RwLock, WritePhase, WriteWaiter};

fn write_lock(lock: &mut RwLock, id: u32) {
    let mut w = WriteWaiter::new();
    for _ in 0..8 {
        if lock.write_lock(id, &mut w) == Action::Done {
            return;
        }
    }
    panic!("write_lock did not complete");
}

fn read_lock(lock: &mut RwLock, id: u32) {
    let mut r = ReadWaiter::new();
    for _ in 0..8 {
        if lock.read_lock(id, &mut r) == Action::Done {
            return;
        }
    }
    panic!("read_lock did not complete");
}

#[test]
fn writer_may_read_while_it_holds() {
    let mut rw = RwLock::new();
    write_lock(&mut rw, 7);
    assert!(rw.has_writer());
    assert_eq!(rw.owner_id(), 7);
    assert_eq!(rw.recursion_depth(), 1);
    read_lock(&mut rw, 7);
    assert_eq!(rw.reader_count(), 0);
    rw.read_unlock(7);
    assert_eq!(rw.reader_count(), 0);
    rw.write_unlock();
    assert!(!rw.has_writer());
    assert_eq!(rw.recursion_depth(), 0);
    assert_eq!(rw.owner_id(), 0);
    assert_eq!(rw.waiting_writer_count(), 0);
}

#[test]
fn uncontended_write_lock_takes_three_steps() {
    let mut rw = RwLock::new();
    let mut w = WriteWaiter::new();
    assert_eq!(rw.write_lock(3, &mut w), Action::Pause(0));
    assert_eq!(w.phase, WritePhase::Claiming);
    assert_eq!(rw.waiting_writer_count(), 1);
    assert!(!rw.has_writer());
    assert_eq!(rw.write_lock(3, &mut w), Action::Pause(0));
    assert_eq!(w.phase, WritePhase::Draining);
    assert!(rw.has_writer());
    assert_eq!(rw.owner_id(), 0);
    assert_eq!(rw.write_lock(3, &mut w), Action::Done);
    assert_eq!(rw.waiting_writer_count(), 0);
    assert_eq!(rw.owner_id(), 3);
    assert_eq!(rw.recursion_depth(), 1);
    assert_eq!(w, WriteWaiter::new());
}

#[test]
fn uncontended_read_lock_takes_three_steps() {
    let mut rw = RwLock::new();
    let mut r = ReadWaiter::new();
    assert_eq!(rw.read_lock(1, &mut r), Action::Pause(0));
    assert_eq!(r.phase, ReadPhase::Clear);
    assert_eq!(rw.reader_count(), 0);
    assert_eq!(rw.read_lock(1, &mut r), Action::Pause(0));
    assert_eq!(r.phase, ReadPhase::Entered);
    assert_eq!(rw.reader_count(), 1);
    assert_eq!(rw.read_lock(1, &mut r), Action::Done);
    assert_eq!(rw.reader_count(), 1);
    rw.read_unlock(1);
    assert_eq!(rw.reader_count(), 0);
}

#[test]
fn write_lock_nests() {
    let mut rw = RwLock::new();
    write_lock(&mut rw, 9);
    write_lock(&mut rw, 9);
    write_lock(&mut rw, 9);
    assert_eq!(rw.recursion_depth(), 3);
    rw.write_unlock();
    rw.write_unlock();
    assert!(rw.has_writer());
    assert_eq!(rw.owner_id(), 9);
    assert_eq!(rw.recursion_depth(), 1);
    rw.write_unlock();
    assert!(!rw.has_writer());
    assert_eq!(rw.owner_id(), 0);
}

#[test]
fn readers_back_off_while_a_writer_holds() {
    let mut rw = RwLock::new();
    write_lock(&mut rw, 1);
    let mut r = ReadWaiter::new();
    let expected = [1u32, 2, 4, 8, 16, 32, 64, 64];
    for &pauses in expected.iter() {
        assert_eq!(rw.read_lock(2, &mut r), Action::Pause(pauses));
        assert_eq!(r.phase, ReadPhase::Waiting);
    }
    assert_eq!(rw.reader_count(), 0);
    rw.write_unlock();
    read_lock(&mut rw, 2);
    assert_eq!(rw.reader_count(), 1);
}

#[test]
fn waiting_writer_holds_back_new_readers() {
    let mut rw = RwLock::new();
    read_lock(&mut rw, 1);
    let mut w = WriteWaiter::new();
    assert_eq!(rw.write_lock(2, &mut w), Action::Pause(0));
    assert_eq!(rw.waiting_writer_count(), 1);
    let mut r = ReadWaiter::new();
    assert_eq!(rw.read_lock(3, &mut r), Action::Pause(1));
    assert_eq!(rw.reader_count(), 1);
    assert_eq!(rw.write_lock(2, &mut w), Action::Pause(0));
    assert_eq!(rw.write_lock(2, &mut w), Action::Pause(1));
    assert_eq!(rw.write_lock(2, &mut w), Action::Pause(2));
    assert_eq!(rw.owner_id(), 0);
    rw.read_unlock(1);
    assert_eq!(rw.write_lock(2, &mut w), Action::Done);
    assert_eq!(rw.owner_id(), 2);
    assert_eq!(rw.read_lock(3, &mut r), Action::Pause(2));
    rw.write_unlock();
    read_lock(&mut rw, 3);
    assert_eq!(rw.reader_count(), 1);
}

#[test]
fn reader_that_loses_the_race_counts_itself_out() {
    let mut rw = RwLock::new();
    let mut r = ReadWaiter::new();
    assert_eq!(rw.read_lock(1, &mut r), Action::Pause(0));
    assert_eq!(rw.read_lock(1, &mut r), Action::Pause(0));
    assert_eq!(rw.reader_count(), 1);
    let mut w = WriteWaiter::new();
    assert_eq!(rw.write_lock(2, &mut w), Action::Pause(0));
    assert_eq!(rw.write_lock(2, &mut w), Action::Pause(0));
    assert!(rw.has_writer());
    assert_eq!(rw.write_lock(2, &mut w), Action::Pause(1));
    assert_eq!(rw.read_lock(1, &mut r), Action::Pause(0));
    assert_eq!(r, ReadWaiter { phase: ReadPhase::Waiting, backoff: 1 });
    assert_eq!(rw.reader_count(), 0);
    assert_eq!(rw.write_lock(2, &mut w), Action::Done);
    assert_eq!(rw.read_lock(1, &mut r), Action::Pause(1));
}

#[test]
fn spin_wait_doubles_the_backoff() {
    let rw = RwLock::new();
    let mut backoff = 1u32;
    let mut seen = Vec::new();
    for _ in 0..9 {
        seen.push(rw.spin_wait(&mut backoff));
    }
    assert_eq!(seen, vec![1, 2, 4, 8, 16, 32, 64, 64, 64]);
    let mut large = u32::MAX;
    assert_eq!(rw.spin_wait(&mut large), u32::MAX);
    assert_eq!(large, 64);
}
