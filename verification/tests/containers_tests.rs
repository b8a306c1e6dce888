use reactors::linklist::MyLs;
use reactors::myrefcell::MyCell;
use reactors::myrefcell::MyUnsafeCell;
use reactors::myslice::MySlice;
use reactors::myslice::MySliceMut;
use reactors::myvec::MyVec;
use reactors::timer::Timer;
use reactors::timer::TimerHeap;
use reactors::waker::NeedRun;
use reactors::waker::Waker;

struct Wtf {
    x: u8,
    y: i32,
}

fn four() -> MyVec<Box<Wtf>> {
    let mut v = MyVec::<Box<Wtf>>::new();
    v.insert(0, Box::new(Wtf { x: 5, y: 6 }));
    v.insert(0, Box::new(Wtf { x: 7, y: 8 }));
    v.insert(1, Box::new(Wtf { x: 9, y: 10 }));
    v.insert(3, Box::new(Wtf { x: 100, y: 88 }));
    v
}

#[test]
fn test_my_vec() {
    let v = four();
    assert_eq!(v.len(), 4);

    let mut v = four();
    let e = v.remove(0);
    assert!(e.x == 7);
    assert!(e.y == 8);
    let e = v.remove(2);
    assert!(e.x == 100);
    assert!(e.y == 88);

    let v = four();
    let mut iter = v.into_iter();
    let e = iter.next().unwrap();
    assert!(e.x == 7);
    assert!(e.y == 8);
    let e = iter.next().unwrap();
    assert!(e.x == 9);
    assert!(e.y == 10);
    let e = iter.next_back().unwrap();
    assert!(e.x == 100);
    assert!(e.y == 88);
    let e = iter.next_back().unwrap();
    assert!(e.x == 5);
    assert!(e.y == 6);
    assert!(iter.next().is_none());
    assert!(iter.next_back().is_none());

    let mut v = four();
    let mut drain = v.drain();
    let e = drain.next().unwrap();
    assert!(e.x == 7);
    assert!(e.y == 8);
    let e = drain.next().unwrap();
    assert!(e.x == 9);
    assert!(e.y == 10);
    let e = drain.next_back().unwrap();
    assert!(e.x == 100);
    assert!(e.y == 88);
    let e = drain.next_back().unwrap();
    assert!(e.x == 5);
    assert!(e.y == 6);
    assert!(drain.next().is_none());
    assert!(drain.next_back().is_none());
    drop(drain);
    v.push(Box::new(Wtf { x: 100, y: 88 }));
    assert_eq!(v.len(), 1);
}

#[test]
fn my_vec_push_pop_in_stack_order() {
    let mut v = MyVec::new();
    assert_eq!(v.pop(), None::<i32>);
    v.push(1);
    v.push(2);
    v.push(3);
    assert_eq!(v.as_slice(), &[1, 2, 3]);
    assert_eq!(v.pop(), Some(3));
    assert_eq!(v.pop(), Some(2));
    assert_eq!(v.len(), 1);
    v.as_mut_slice()[0] = 9;
    assert_eq!(v.pop(), Some(9));
    assert_eq!(v.pop(), None);
}

#[test]
fn my_vec_size_hint_counts_what_is_left() {
    let mut v = MyVec::new();
    v.push(1);
    v.push(2);
    v.push(3);
    let mut iter = v.into_iter();
    assert_eq!(iter.size_hint(), (3, Some(3)));
    iter.next();
    iter.next_back();
    assert_eq!(iter.size_hint(), (1, Some(1)));
    let mut w = MyVec::new();
    w.push(7);
    let mut drain = w.drain();
    assert_eq!(drain.size_hint(), (1, Some(1)));
    assert_eq!(drain.next(), Some(7));
    assert_eq!(drain.size_hint(), (0, Some(0)));
    assert_eq!(w.len(), 0);
}

#[test]
fn test_ptr_myls() {
    let mut ls = MyLs::new();
    ls.push_front(Box::new(Wtf { x: 5, y: 1 }));
    ls.push_front(Box::new(Wtf { x: 6, y: 2 }));
    assert!(ls.peek_front().unwrap().x == 6);
    let popped = ls.pop_front().unwrap();
    assert!(popped.x == 6);
    assert!(popped.y == 2);
    assert!(ls.peek_front().unwrap().x == 5);
    assert_eq!(ls.len(), 1);
}

#[test]
fn my_ls_is_a_stack() {
    let mut ls = MyLs::new();
    assert_eq!(ls.len(), 0);
    assert_eq!(ls.pop_front(), None::<u32>);
    assert_eq!(ls.peek_front(), None);
    ls.push_front(1);
    ls.push_front(2);
    ls.push_front(3);
    assert_eq!(ls.len(), 3);
    assert_eq!(ls.peek_front(), Some(&3));
    assert_eq!(ls.pop_front(), Some(3));
    assert_eq!(ls.pop_front(), Some(2));
    assert_eq!(ls.pop_front(), Some(1));
    assert_eq!(ls.pop_front(), None);
    assert_eq!(ls.len(), 0);
}

#[test]
fn test_myslice() {
    let mut ls = MyVec::new();
    ls.push(1);
    ls.push(2);
    ls.push(3);

    let slice = MySlice::from(&ls);
    let copy_slice = slice;
    assert_eq!(slice.at(0), Some(&1));
    assert_eq!(copy_slice.at(0), Some(&1));
    assert_eq!(copy_slice.at(2), Some(&3));
    assert_eq!(copy_slice.at(3), None);
    let ref1 = slice.at(0).unwrap();
    let ref2 = slice.at(0).unwrap();
    assert_eq!((*ref1, *ref2), (1, 1));
    assert_eq!(slice.clone().at(1), Some(&2));
}

#[test]
fn my_slice_of_nothing_has_no_elements() {
    let ls: MyVec<u8> = MyVec::new();
    let slice = MySlice::from(&ls);
    assert_eq!(slice.at(0), None);
}

#[test]
fn test_mimic_mut() {
    let mut ls = MyVec::new();
    ls.push(1);
    ls.push(2);
    ls.push(3);
    assert!(ls.as_slice()[0] == 1);
    assert!(ls.as_slice()[1] == 2);
    assert!(ls.as_slice()[2] == 3);

    let mut slice_mut = MySliceMut::from(&mut ls);
    assert_eq!(slice_mut.len(), 3);
    let mut_ref1 = slice_mut.at(0).unwrap();
    *mut_ref1 = *mut_ref1 + 1;
    assert!(slice_mut.at(3).is_none());
    assert!(ls.as_slice()[0] == 2);
    assert_eq!(ls.as_slice(), &[2, 2, 3]);
}

#[test]
fn split_at() {
    let mut vec = MyVec::new();
    vec.push(1);
    vec.push(2);
    vec.push(3);
    vec.push(4);

    let mut slice = MySliceMut::from(&mut vec);
    let (mut fst, mut snd) = slice.split_at(2);
    assert_eq!(fst.len(), 2);
    assert_eq!(snd.len(), 2);
    assert_eq!(fst.at(0).map(|val| *val), Some(1));
    assert_eq!(snd.at(0).map(|val| *val), Some(3));

    let (mut fst_fst, mut fst_snd) = fst.split_at(1);
    let (mut snd_fst, mut snd_snd) = snd.split_at(1);
    assert_eq!(fst_fst.at(0).map(|val| *val), Some(1));
    assert_eq!(fst_snd.at(0).map(|val| *val), Some(2));
    assert_eq!(snd_fst.at(0).map(|val| *val), Some(3));
    assert_eq!(snd_snd.at(0).map(|val| *val), Some(4));
    assert!(fst_fst.at(1).is_none());
    *snd_snd.at(0).unwrap() = 40;
    assert_eq!(vec.as_slice(), &[1, 2, 3, 40]);
}

#[test]
fn split_at_zero_leaves_the_first_part_empty() {
    let mut vec = MyVec::new();
    vec.push(1);
    let mut slice = MySliceMut::from(&mut vec);
    let (fst, snd) = slice.split_at(0);
    assert_eq!(fst.len(), 0);
    assert_eq!(snd.len(), 1);
}

#[test]
fn test_my_chunks_mut() {
    let mut vec = MyVec::new();
    vec.push(1);
    vec.push(2);
    vec.push(3);
    vec.push(4);
    vec.push(5);

    let mut slice = MySliceMut::from(&mut vec);
    let mut chunks = slice.chunks_mut(3);
    let mut slice1 = chunks.next().unwrap();
    let mut slice2 = chunks.next().unwrap();
    assert!(chunks.next().is_none());
    assert!(chunks.next().is_none());

    assert_eq!(slice1.len(), 3);
    assert_eq!(slice1.at(0).map(|val| *val), Some(1));
    assert_eq!(slice1.at(1).map(|val| *val), Some(2));
    assert_eq!(slice1.at(2).map(|val| *val), Some(3));
    assert_eq!(slice2.len(), 2);
    assert_eq!(slice2.at(0).map(|val| *val), Some(4));
    assert_eq!(slice2.at(1).map(|val| *val), Some(5));
    *slice2.at(1).unwrap() = 50;
    assert_eq!(vec.as_slice(), &[1, 2, 3, 4, 50]);
}

#[test]
fn chunks_of_the_whole_length_are_one_chunk() {
    let mut vec = MyVec::new();
    vec.push(1);
    vec.push(2);
    let mut slice = MySliceMut::from(&mut vec);
    let mut chunks = slice.chunks_mut(2);
    assert_eq!(chunks.next().map(|c| c.len()), Some(2));
    assert!(chunks.next().is_none());
}

#[test]
fn chunks_of_one_hand_out_every_element() {
    let mut vec = MyVec::new();
    vec.push(7);
    vec.push(8);
    vec.push(9);
    let mut slice = MySliceMut::from(&mut vec);
    let mut chunks = slice.chunks_mut(1);
    let mut seen = Vec::new();
    while let Some(mut chunk) = chunks.next() {
        assert_eq!(chunk.len(), 1);
        seen.push(*chunk.at(0).unwrap());
    }
    assert_eq!(seen, vec![7, 8, 9]);
}

#[test]
fn empty_slice_has_length_zero() {
    let mut slice: MySliceMut<'_, u32> = MySliceMut::empty_slice();
    assert_eq!(slice.len(), 0);
    assert!(slice.at(0).is_none());
}

#[test]
fn unsafe_cell1() {
    let v1 = MyUnsafeCell::new(Wtf { x: 1, y: 1024 });
    assert_eq!(v1.get().y, 1024);
    let mut inner_obj = v1.into_inner();
    inner_obj.x = 5;
    inner_obj.y = 6;
    assert_eq!((inner_obj.x, inner_obj.y), (5, 6));
}

#[test]
fn my_cell_is_written_through_shared_references() {
    let cell = MyCell::new(5);
    let ref1 = &cell;
    let ref2 = &cell;
    assert_eq!(ref1.get(), 5);
    ref1.set(13);
    assert_eq!(ref2.get(), 13);
    assert_eq!(ref2.replace(21), 13);
    assert_eq!(ref1.update(|v| v + 1), 21);
    assert_eq!(cell.get(), 22);
    assert_eq!(cell.into_inner(), 22);
}

#[test]
fn timer_heap_hands_out_timers_by_deadline() {
    let mut heap = TimerHeap::new();
    assert!(heap.is_empty());
    assert!(heap.peek().is_none());
    assert!(heap.pop().is_none());
    heap.push(Timer { wakeup_duration: 5, waker: Waker::new(1) });
    heap.push(Timer { wakeup_duration: 1, waker: Waker::new(2) });
    heap.push(Timer { wakeup_duration: 3, waker: Waker::new(3) });
    assert_eq!(heap.len(), 3);
    assert!(!heap.is_empty());
    assert_eq!(heap.peek().map(|t| t.waker.task_id), Some(2));
    let order: Vec<u64> = std::iter::from_fn(|| heap.pop()).map(|t| t.wakeup_duration).collect();
    assert_eq!(order, vec![1, 3, 5]);
    assert!(heap.is_empty());
}

#[test]
fn timer_heap_keeps_registration_order_among_equal_deadlines() {
    let mut heap = TimerHeap::new();
    heap.push(Timer { wakeup_duration: 4, waker: Waker::new(1) });
    heap.push(Timer { wakeup_duration: 2, waker: Waker::new(2) });
    heap.push(Timer { wakeup_duration: 4, waker: Waker::new(3) });
    heap.push(Timer { wakeup_duration: 2, waker: Waker::new(4) });
    heap.push(Timer { wakeup_duration: 4, waker: Waker::new(5) });
    let order: Vec<usize> = std::iter::from_fn(|| heap.pop()).map(|t| t.waker.task_id).collect();
    assert_eq!(order, vec![2, 4, 1, 3, 5]);
}

#[test]
fn timers_compare_by_deadline_alone() {
    let early = Timer { wakeup_duration: 1, waker: Waker::new(9) };
    let late = Timer { wakeup_duration: 2, waker: Waker::new(1) };
    let also_late = Timer { wakeup_duration: 2, waker: Waker::new(5) };
    assert!(early < late);
    assert!(late > early);
    assert!(late == also_late);
    assert!(early != late);
    assert_eq!(early.partial_cmp(&late), Some(std::cmp::Ordering::Less));
    assert_eq!(late.partial_cmp(&early), Some(std::cmp::Ordering::Greater));
    assert_eq!(late.partial_cmp(&also_late), Some(std::cmp::Ordering::Equal));
    assert_eq!(Timer::cmp(&early, &late), std::cmp::Ordering::Less);
    assert_eq!(Timer::cmp(&late, &early), std::cmp::Ordering::Greater);
    assert_eq!(Timer::cmp(&late, &also_late), std::cmp::Ordering::Equal);
}

#[test]
fn waker_signal_names_its_task() {
    let waker = Waker::new(4);
    assert_eq!(waker.task_id(), 4);
    assert_eq!(waker.signal(), NeedRun { task_id: 4, waker });
    assert_eq!(waker.clone(), waker);
}
