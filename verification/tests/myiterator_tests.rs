use reactors::myiterator::MyChain;
use reactors::myiterator::MyFlatMap;
use reactors::myiterator::MyFlatten;
use reactors::myiterator::MyIterator;
use reactors::myiterator::MyMap;
use reactors::myvec::IntoIter;
use reactors::myvec::MyVec;

struct IteratorWrapper<I: IntoIterator> {
    inner: I::IntoIter,
}

fn wrap<I: IntoIterator>(other: I) -> IteratorWrapper<I> {
    IteratorWrapper { inner: IntoIterator::into_iter(other) }
}

impl<I: IntoIterator> MyIterator for IteratorWrapper<I> {
    type Item = I::Item;

    fn next(&mut self) -> Option<Self::Item> {
        self.inner.next()
    }
}

fn collect<I: MyIterator>(mut iter: I) -> Vec<I::Item> {
    let mut items = Vec::new();
    while let Some(item) = iter.next() {
        items.push(item);
    }
    items
}

fn my_vec(items: &[i32]) -> MyVec<i32> {
    let mut v = MyVec::new();
    for item in items {
        v.push(*item);
    }
    v
}

#[test]
fn iterator_wrapper() {
    let vec = vec![1, 2, 3, 4, 5];
    let wrapper = wrap(vec.iter());
    assert_eq!(collect(wrapper), vec![&1, &2, &3, &4, &5]);
}

#[test]
fn nth() {
    let vec = vec![1, 2, 3, 4, 5];
    let mut iter = wrap(vec.iter());
    assert_eq!(iter.nth(0), Some(&1));
    assert_eq!(iter.nth(0), Some(&2));
    assert_eq!(iter.nth(2), Some(&5));
    assert_eq!(iter.nth(0), None);
}

#[test]
fn nth_past_the_end_uses_up_the_iterator() {
    let mut iter = my_vec(&[1, 2, 3]).into_iter();
    assert_eq!(iter.nth(3), None);
    assert_eq!(IntoIter::next(&mut iter), None);
}

#[test]
fn chain() {
    let vec = vec![1, 2, 3, 4, 5];
    let iter1 = wrap(vec.iter());
    let iter2 = wrap(vec.iter());
    let mut chained_iter = MyChain::new(iter1, iter2);
    assert_eq!(chained_iter.nth(5), Some(&1));
    assert_eq!(collect(chained_iter), vec![&2, &3, &4, &5]);
}

#[test]
fn chain_of_two_vectors_reads_the_first_then_the_second() {
    let chained = MyChain::new(my_vec(&[1, 2]).into_iter(), my_vec(&[3]).into_iter());
    assert_eq!(collect(chained), vec![1, 2, 3]);
    let empty_first = MyChain::new(my_vec(&[]).into_iter(), my_vec(&[3]).into_iter());
    assert_eq!(collect(empty_first), vec![3]);
}

#[test]
fn map() {
    let vec = vec![1, 2, 3, 4, 5];
    let iter1 = wrap(vec.iter());
    let iter2 = wrap(vec.iter());
    let mapped_iter = MyChain::new(iter1, iter2).map(|val| Box::new(val));
    let boxed: Vec<i32> = collect(mapped_iter).into_iter().map(|b| **b).collect();
    assert_eq!(boxed, vec![1, 2, 3, 4, 5, 1, 2, 3, 4, 5]);

    let mut vec1 = vec![1, 2, 3, 4, 5, 6];
    let mut vec2 = vec![1, 2, 3, 4];
    {
        let iter1 = wrap(vec1.iter_mut());
        let iter2 = wrap(vec2.iter_mut());
        let mut mapped_iter = MyChain::new(iter1, iter2).map(|val| Box::new(val));
        while let Some(boxed_obj) = mapped_iter.next() {
            *(*boxed_obj) += 1;
        }
    }
    assert_eq!(vec1, vec![2, 3, 4, 5, 6, 7]);
    assert_eq!(vec2, vec![2, 3, 4, 5]);
}

#[test]
fn filter() {
    let mut vec = vec![1, 2, 3, 4, 5];
    {
        let iter = wrap(vec.iter_mut());
        let mut modified = iter.filter(|val| **val % 2 == 1).map(|val| {
            *val += 1;
            val
        });
        while let Some(item) = modified.next() {
            *item += 1;
        }
    }
    assert_eq!(vec, vec![3, 2, 5, 4, 7]);
}

#[test]
fn filter_keeps_order_and_drops_the_rest() {
    let kept = my_vec(&[1, 2, 3, 4, 5, 6]).into_iter().filter(|v| *v % 3 == 0);
    assert_eq!(collect(kept), vec![3, 6]);
    let none = my_vec(&[1, 2]).into_iter().filter(|_| false);
    assert_eq!(collect(none), Vec::<i32>::new());
}

#[test]
fn flatten() {
    let vec1 = vec![1, 2, 3, 4, 5];
    let vec2 = vec![2, 3, 4, 5, 6];
    let vec3 = vec![3, 4, 5, 6, 7];
    let vec_of_iters = vec![wrap(vec1.iter()), wrap(vec2.iter()), wrap(vec3.iter())];
    let iter = wrap(vec_of_iters);
    let flattened_iter = MyFlatten::new(iter);
    let items: Vec<i32> = collect(flattened_iter).into_iter().copied().collect();
    assert_eq!(items, vec![1, 2, 3, 4, 5, 2, 3, 4, 5, 6, 3, 4, 5, 6, 7]);
}

#[test]
fn flatten_skips_empty_iterators() {
    let empty: Vec<i32> = Vec::new();
    let some = vec![1, 2];
    let vec_of_iters = vec![
        wrap(empty.clone()),
        wrap(some.clone()),
        wrap(empty.clone()),
        wrap(empty.clone()),
        wrap(some),
        wrap(empty),
    ];
    assert_eq!(collect(MyFlatten::new(wrap(vec_of_iters))), vec![1, 2, 1, 2]);
    let nothing: Vec<IteratorWrapper<Vec<i32>>> = Vec::new();
    assert_eq!(collect(MyFlatten::new(wrap(nothing))), Vec::<i32>::new());
}

#[test]
fn flat_map() {
    let vec1 = vec![1, 2, 3, 4, 5];
    let vec2 = vec![2, 3, 4, 5, 6];
    let vec3 = vec![3, 4, 5, 6, 7];
    let vec_of_iters = vec![wrap(vec1.iter()), wrap(vec2.iter()), wrap(vec3.iter())];
    let iter = wrap(vec_of_iters);
    let flatmap_iter = MyFlatMap::new(iter, |my_iter: IteratorWrapper<std::slice::Iter<'_, i32>>| {
        my_iter.map(|val| *val + 1)
    });
    assert_eq!(collect(flatmap_iter), vec![2, 3, 4, 5, 6, 3, 4, 5, 6, 7, 4, 5, 6, 7, 8]);
}

#[test]
fn try_fold() {
    let vec1 = vec![1, 2, 3, 4, 5];
    let mut iter = wrap(vec1.iter());
    let res: Result<i32, ()> = iter.try_fold(0, |accum, item| Ok(accum + *item));
    assert_eq!(res, Ok(15));

    let vec2 = vec!["1", "2", "3", "4", "5"];
    let mut iter = wrap(vec2.iter());
    let res: Result<i32, ()> = iter.try_fold(0, |accum, item| {
        let int = (*item).parse::<i32>().map_err(|_| ())?;
        Ok(accum + int)
    });
    assert_eq!(res, Ok(15));

    let vec3 = vec!["1", "2", "nil", "4", "5"];
    let mut iter = wrap(vec3.iter());
    let res: Result<i32, ()> = iter.try_fold(0, |accum, item| {
        let int = (*item).parse::<i32>().map_err(|_| ())?;
        Ok(accum + int)
    });
    assert!(res.is_err());
    // folding stopped at "nil": what is behind it is still there
    assert_eq!(collect(iter), vec![&"4", &"5"]);
}

#[test]
fn fold() {
    let vec1 = vec![1, 2, 3, 4, 5];
    let mut iter = wrap(vec1.iter());
    let res = iter.fold(0, |accum, item| accum + *item);
    assert_eq!(res, 15);
    assert_eq!(iter.next(), None);
}

#[test]
fn fold_feeds_the_accumulator_from_left_to_right() {
    let mut iter = my_vec(&[1, 2, 3]).into_iter();
    let res = iter.fold(String::new(), |accum, item| format!("({accum}{item})"));
    assert_eq!(res, "(((1)2)3)");
}

#[test]
fn count() {
    let vec1 = vec![1, 2, 3, 4, 5];
    let mut iter = wrap(vec1.iter());
    assert_eq!(iter.count(), 5);
    assert_eq!(iter.count(), 0);

    let vec1 = Vec::<i32>::new();
    let mut iter = wrap(vec1.iter());
    assert_eq!(iter.count(), 0);
}

#[test]
fn last() {
    let vec1 = vec![1, 2, 3, 4, 5];
    let mut iter = wrap(vec1.iter());
    assert_eq!(iter.last(), Some(&5));
    assert_eq!(iter.last(), None);

    let vec1 = Vec::<i32>::new();
    let mut iter = wrap(vec1.iter());
    assert!(iter.last().is_none());
}

#[test]
fn for_each() {
    let vec1 = vec![1, 2, 3, 4, 5];
    let mut iter = wrap(vec1.iter());
    let seen = std::cell::RefCell::new(Vec::new());
    iter.for_each(|val| seen.borrow_mut().push(*val));
    assert_eq!(seen.into_inner(), vec![1, 2, 3, 4, 5]);
    assert_eq!(iter.next(), None);
}

#[test]
fn drained_elements_can_be_mapped() {
    let mut v = my_vec(&[1, 2, 3]);
    let doubled = MyMap::new(v.drain(), |x: i32| x * 2);
    assert_eq!(collect(doubled), vec![2, 4, 6]);
    assert_eq!(v.len(), 0);
}
