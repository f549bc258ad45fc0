use push_iter::combine;
use push_iter::combine::{enumerate, filter, flat_map, foldl, repeat, to_list};
use push_iter::source::Iterable;
use push_iter::stage::{Filtered, FlatMapped, Mapped};

fn append<T>(mut list: Vec<T>, item: T) -> Vec<T> {
    list.push(item);
    list
}

/// A producer that is a plain function: it calls the callback it is given
/// once for each of its elements.
struct Generator<G>(G);

impl<A, G: Fn(&mut dyn FnMut(A))> Iterable<A> for Generator<G> {
    fn iter<S, F: Fn(S, A) -> S>(&self, s0: S, blk: &F) -> S {
        let mut state = Some(s0);
        (self.0)(&mut |a: A| {
            let s = state.take().expect("the state is put back after each call");
            state = Some(blk(s, a));
        });
        state.expect("the state is put back after each call")
    }
}

#[test]
fn test_enumerate() {
    let v = vec![0usize, 1, 2];
    let calls = enumerate(&v, 0usize, &|n: usize, (i, j): (usize, usize)| {
        assert!(i == j);
        n + 1
    });
    assert_eq!(calls, 3);
}

#[test]
fn test_map_and_to_list() {
    let a = vec![0, 1, 2];
    let b = Mapped::new(&a, |i: i32| i * 2);
    let c = to_list(&b);
    assert!(c == vec![0, 2, 4]);
}

#[test]
fn test_flat_map_with_option() {
    fn if_even(i: i32) -> Option<i32> {
        if (i % 2) == 0 {
            Some(i)
        } else {
            None
        }
    }

    let a = vec![0, 1, 2];
    let b = FlatMapped::new(&a, if_even);
    let c = to_list(&b);
    assert!(c == vec![0, 2]);
}

#[test]
fn test_flat_map_with_list() {
    fn repeat(i: i32) -> Vec<i32> {
        let mut r = vec![];
        for _j in 0..i {
            r.push(i);
        }
        r
    }

    let a = vec![0, 1, 2, 3];
    let b = FlatMapped::new(&a, repeat);
    let c = to_list(&b);
    println!("c = {:?}", c);
    assert!(c == vec![1, 2, 2, 3, 3, 3]);
}

#[test]
fn test_repeat() {
    let c = repeat(5usize, Vec::new(), &|c: Vec<usize>, i: usize| append(c, i * 2));
    println!("c = {:?}", c);
    assert!(c == vec![0usize, 2, 4, 6, 8]);
}

#[test]
fn repeat_calls_in_increasing_order() {
    let seen = repeat(5usize, Vec::new(), &append::<usize>);
    assert_eq!(seen, vec![0usize, 1, 2, 3, 4]);
}

#[test]
fn repeat_zero_times_calls_nothing() {
    let calls = repeat(0usize, 7u32, &|n: u32, _i: usize| n + 1);
    assert_eq!(calls, 7);
}

#[test]
fn sequence_delivers_left_to_right() {
    let v = vec![3u8, 1, 2];
    let seen = v.iter(Vec::new(), &append::<u8>);
    assert_eq!(seen, vec![3u8, 1, 2]);
}

#[test]
fn empty_sequence_delivers_nothing() {
    let v: Vec<u8> = Vec::new();
    let calls = Iterable::iter(&v, 0u32, &|n: u32, _a: u8| n + 1);
    assert_eq!(calls, 0);
    assert_eq!(to_list(&v), Vec::<u8>::new());
}

#[test]
fn optional_value_delivers_once_or_never() {
    let present = Some(9i64);
    let absent: Option<i64> = None;
    assert_eq!(Iterable::iter(&present, 0u32, &|n: u32, _a: i64| n + 1), 1);
    assert_eq!(Iterable::iter(&absent, 0u32, &|n: u32, _a: i64| n + 1), 0);
    assert_eq!(to_list(&present), vec![9i64]);
    assert_eq!(to_list(&absent), Vec::<i64>::new());
}

#[test]
fn enumerate_pairs_each_element_with_its_position() {
    let v = vec!['a', 'b', 'c'];
    let pairs = enumerate(&v, Vec::new(), &append::<(usize, char)>);
    assert_eq!(pairs, vec![(0usize, 'a'), (1, 'b'), (2, 'c')]);
}

#[test]
fn filter_keeps_what_passes_in_order() {
    let v = vec![5, 8, 2, 7, 4];
    let kept = filter(&v, &|a: i32| a % 2 == 0, Vec::new(), &append::<i32>);
    assert_eq!(kept, vec![8, 2, 4]);
    let stage = Filtered::new(&v, |a: i32| a > 4);
    assert_eq!(to_list(&stage), vec![5, 8, 7]);
}

#[test]
fn filter_with_always_true_delivers_everything() {
    let v = vec![5, 8, 2];
    let direct = v.iter(Vec::new(), &append::<i32>);
    let kept = filter(&v, &|_a: i32| true, Vec::new(), &append::<i32>);
    assert_eq!(kept, direct);
    assert_eq!(kept, vec![5, 8, 2]);
}

#[test]
fn map_with_identity_is_direct_iteration() {
    let v = vec![5, 8, 2];
    let direct = v.iter(0i32, &|s: i32, a: i32| s * 10 + a);
    let mapped = combine::map(&v, &|a: i32| a, 0i32, &|s: i32, a: i32| s * 10 + a);
    assert_eq!(mapped, direct);
    assert_eq!(mapped, 582);
}

#[test]
fn map_hands_on_converted_elements() {
    let v = vec![1u32, 2, 3];
    let texts = combine::map(&v, &|a: u32| a + 100, Vec::new(), &append::<u32>);
    assert_eq!(texts, vec![101u32, 102, 103]);
}

#[test]
fn flat_map_concatenates_outer_then_inner() {
    let v = vec![1u8, 2, 3];
    let out = flat_map(&v, &|a: u8| vec![a, a + 10], Vec::new(), &append::<u8>);
    assert_eq!(out, vec![1u8, 11, 2, 12, 3, 13]);
}

#[test]
fn flat_map_over_options_is_filter_then_map() {
    let v = vec![0, 1, 2, 3, 4];
    let half = |a: i32| if a % 2 == 0 { Some(a / 2) } else { None };
    let one_pass = to_list(&FlatMapped::new(&v, half));
    let evens = Filtered::new(&v, |a: i32| a % 2 == 0);
    let two_passes = to_list(&Mapped::new(&evens, |a: i32| a / 2));
    assert_eq!(one_pass, two_passes);
    assert_eq!(one_pass, vec![0, 1, 2]);
}

#[test]
fn foldl_combines_from_the_left() {
    let v = vec![1i64, 2, 3];
    assert_eq!(foldl(&v, 100i64, &|b: i64, a: i64| b - a), 94);
    assert_eq!(foldl(&v, 0i64, &|b: i64, a: i64| b * 10 + a), 123);
    let empty: Vec<i64> = Vec::new();
    assert_eq!(foldl(&empty, 100i64, &|b: i64, a: i64| b - a), 100);
}

#[test]
fn to_list_round_trip() {
    let v = vec![4u16, 4, 9, 0];
    let once = to_list(&v);
    let twice = to_list(&once);
    assert_eq!(twice, once);
    assert_eq!(twice, v);
}

#[test]
fn stages_stack_and_can_be_traversed_again() {
    let v = vec![1u32, 2, 3, 4, 5, 6];
    let odd = Filtered::new(&v, |a: u32| a % 2 == 1);
    let squares = Mapped::new(&odd, |a: u32| a * a);
    assert_eq!(to_list(&squares), vec![1u32, 9, 25]);
    assert_eq!(to_list(&squares), vec![1u32, 9, 25]);
    assert_eq!(foldl(&squares, 0u32, &|b: u32, a: u32| b + a), 35);
}

#[test]
fn function_producer_hands_on_what_the_function_emits() {
    let countdown = Generator(|emit: &mut dyn FnMut(u8)| {
        emit(3);
        emit(2);
        emit(1);
    });
    assert_eq!(to_list(&countdown), vec![3u8, 2, 1]);
    let doubled = Mapped::new(&countdown, |a: u8| a * 2);
    assert_eq!(to_list(&doubled), vec![6u8, 4, 2]);
    assert_eq!(foldl(&doubled, 0u8, &|b: u8, a: u8| b + a), 12);
}

#[test]
fn enumerate_over_a_stage_counts_what_gets_through() {
    let v = vec![10u8, 11, 12, 13];
    let even = Filtered::new(&v, |a: u8| a % 2 == 0);
    let pairs = enumerate(&even, Vec::new(), &append::<(usize, u8)>);
    assert_eq!(pairs, vec![(0usize, 10u8), (1, 12)]);
}

#[test]
fn flat_map_drops_elements_that_expand_to_nothing() {
    let v = vec![2u8, 0, 1];
    let out = flat_map(&v, &|a: u8| vec![a; a as usize], Vec::new(), &append::<u8>);
    assert_eq!(out, vec![2u8, 2, 1]);
    let none: Vec<u8> = Vec::new();
    let out = flat_map(&none, &|a: u8| Some(a), Vec::new(), &append::<u8>);
    assert_eq!(out, Vec::<u8>::new());
}
