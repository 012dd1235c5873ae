use hephae::vec_belt::{Fragment, VecBelt};

#[test]
fn test_vec_belt() {
    let append = [0, 1, 2, 3, 4];
    let thread_count = 8;

    let mut vec = VecBelt::new(1);
    for i in 0..thread_count {
        vec.append(append.map(|num| num + i * append.len()));
    }

    vec.clear(|slice| {
        assert_eq!(slice.len(), append.len() * thread_count);
        for i in 0..thread_count {
            let slice = &slice[i * append.len()..(i + 1) * append.len()];
            assert_eq!(slice, append.map(|num| num + slice[0]));
        }
    })
}

#[test]
fn append_returns_start_index() {
    let mut belt = VecBelt::new(4);
    assert_eq!(belt.append(vec![1u32, 2, 3]), 0);
    assert_eq!(belt.append(&[4u32, 5][..]), 3);
    assert_eq!(belt.append([6u32; 0]), 5);
    assert_eq!(belt.append(Box::new([7u32, 8, 9]) as Box<[u32]>), 5);
    assert_eq!(belt.len(), 8);
    let all = belt.clear(|slice| slice.as_slice().to_vec());
    assert_eq!(all, vec![1, 2, 3, 4, 5, 7, 8, 9]);
    assert_eq!(belt.len(), 0);
}

#[test]
fn clear_then_reuse() {
    let mut belt = VecBelt::new(2);
    belt.append(vec![String::from("a"), String::from("b"), String::from("c")]);
    let first = belt.clear(|slice| slice.as_slice().to_vec());
    assert_eq!(first, vec!["a", "b", "c"]);
    belt.append(vec![String::from("d")]);
    let second = belt.clear(|slice| slice.as_slice().to_vec());
    assert_eq!(second, vec!["d"]);
}

#[test]
fn consume_iter_both_ends() {
    let mut belt = VecBelt::new(3);
    belt.append([1u8, 2, 3, 4, 5]);
    belt.clear(|slice| {
        let mut it = slice.into_iter();
        assert_eq!(it.slice_len(), 5);
        assert_eq!(it.size_hint(), (5, Some(5)));
        assert_eq!(it.next(), Some(1));
        assert_eq!(it.next_back(), Some(5));
        assert_eq!(it.next(), Some(2));
        assert_eq!(it.len(), 2);
        assert_eq!(it.next_back(), Some(4));
        assert_eq!(it.next(), Some(3));
        assert_eq!(it.next(), None);
        assert_eq!(it.next_back(), None);
    });
}

#[test]
fn fragment_layout_of_words() {
    let layout = Fragment::<u64>::layout(3).unwrap();
    assert_eq!(layout.align, std::mem::align_of::<usize>().max(8));
    let header = 2 * std::mem::size_of::<usize>();
    assert_eq!(layout.size, header + 3 * 8);
    assert!(Fragment::<u64>::layout(usize::MAX).is_err());
}

#[test]
fn append_mutable_slice() {
    let mut belt = VecBelt::new(2);
    let mut items = [3u16, 4, 5];
    assert_eq!(belt.append(&mut items[..]), 0);
    assert_eq!(belt.append(&mut items[1..]), 3);
    let all = belt.clear(|slice| slice.as_slice().to_vec());
    assert_eq!(all, vec![3, 4, 5, 4, 5]);
}

#[test]
fn appends_then_clear_hand_out_each_batch_at_its_index() {
    let mut belt = VecBelt::new(2);
    let batches: Vec<Vec<u32>> = vec![vec![1], vec![], vec![2, 3, 4], vec![5, 6]];
    let mut starts = Vec::new();
    for b in &batches {
        starts.push(belt.append(b.clone()));
    }
    assert_eq!(starts, vec![0, 1, 1, 4]);
    let all = belt.clear(|slice| slice.as_slice().to_vec());
    assert_eq!(all, vec![1, 2, 3, 4, 5, 6]);
    for (b, s) in batches.iter().zip(starts) {
        assert_eq!(&all[s..s + b.len()], &b[..]);
    }
    assert_eq!(belt.len(), 0);
}
