use p2p_rtc::utils::{NullSmartPtr, SmartCell, SmartPtr, WaitStep, WaitTimer};

#[test]
fn smart_cell_get_after_set() {
    let mut c = SmartCell::new(3u32);
    assert_eq!(c.get(), 3);
    c.set(9);
    assert_eq!(c.get(), 9);
}

#[test]
fn smart_cell_cell_operations() {
    let mut a = SmartCell::new(1u32);
    let mut b = SmartCell::new(2u32);
    assert_eq!(a.replace(5), 1);
    a.swap(&mut b);
    assert_eq!((a.get(), b.get()), (2, 5));
    assert_eq!(b.take(), 5);
    assert_eq!(b.get(), 0);
    assert_eq!(a.into_inner(), 2);
}

#[test]
fn smart_ptr_set_and_borrow() {
    let mut p = SmartPtr::new(vec![1u8]);
    p.set(vec![2, 3]);
    assert_eq!(*p.borrow(), vec![2, 3]);
    p.borrow_mut().push(4);
    assert_eq!(*p.borrow(), vec![2, 3, 4]);
}

#[test]
fn null_smart_ptr_states() {
    let mut p: NullSmartPtr<u32> = NullSmartPtr::null();
    assert!(p.is_none());
    assert!(!p.is_some());
    assert!(p.borrow().is_none());
    assert_eq!(p.try_clone_inner(), None);
    p.set(5);
    assert!(p.is_some());
    assert_eq!(p.borrow().copied(), Some(5));
    if let Some(v) = p.borrow_mut() {
        *v = 6;
    }
    assert_eq!(p.try_clone_inner(), Some(6));
    assert_eq!(p.try_unwrap(), Ok(6));
    let empty: NullSmartPtr<u32> = NullSmartPtr::null();
    assert_eq!(empty.try_unwrap(), Err(()));
    assert_eq!(NullSmartPtr::new(1u8).try_unwrap(), Ok(1));
}

fn run_pending(tick: u32, timeout: u32) -> (u32, Vec<u32>) {
    let mut timer = WaitTimer::new(tick, timeout);
    let mut times = Vec::new();
    loop {
        times.push(timer.time());
        match timer.poll::<(), ()>(Ok(None)) {
            WaitStep::Pending => continue,
            WaitStep::TimedOut => return (times.len() as u32, times),
            _ => panic!("unexpected outcome"),
        }
    }
}

#[test]
fn wait_times_out_after_rounds() {
    let (checks, times) = run_pending(200, 2000);
    assert_eq!(checks, 10);
    assert_eq!(times, (0..10).map(|i| i * 200).collect::<Vec<u32>>());
    assert_eq!(run_pending(200, 2001).0, 11);
    assert_eq!(run_pending(100, 0).0, 1);
    assert_eq!(run_pending(0, 3).0, 3);
    assert_eq!(run_pending(500, 1).0, 1);
}

#[test]
fn wait_settles() {
    let mut timer = WaitTimer::new(100, 1000);
    assert!(matches!(timer.poll::<u8, ()>(Ok(None)), WaitStep::Pending));
    assert_eq!(timer.time(), 100);
    assert!(matches!(timer.poll::<u8, ()>(Ok(Some(4))), WaitStep::Ready(4)));
    assert!(matches!(timer.poll::<u8, &str>(Err("boom")), WaitStep::Failed("boom")));
    assert_eq!(timer.time(), 100);
}

#[test]
fn wait_clock_bounds() {
    let timer = WaitTimer::new(3_000_000_000, 4_000_000_000);
    assert!(timer.can_advance());
    let mut timer = WaitTimer::new(3_000_000_000, 4_000_000_000);
    assert!(matches!(timer.poll::<u8, ()>(Ok(Some(1))), WaitStep::Ready(1)));
    let mut timer = WaitTimer::new(3_000_000_000, 4_000_000_000);
    assert!(matches!(timer.poll::<u8, ()>(Ok(None)), WaitStep::Pending));
    assert_eq!(timer.time(), 3_000_000_000);
    assert!(!timer.can_advance());
    let timer = WaitTimer::new(0, u32::MAX);
    assert!(timer.can_advance());
}
