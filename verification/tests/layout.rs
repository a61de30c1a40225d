use axns::arc::{increment, layout, MAX_REFCOUNT};
use axns::{Layout, Namespace, NsError};
use std::alloc::Layout as StdLayout;

const MAX: usize = isize::MAX as usize;
const WORD: usize = std::mem::size_of::<usize>();

fn pair(l: Layout) -> (usize, usize) {
    (l.size(), l.align())
}

#[test]
fn from_size_align_takes_powers_of_two() {
    assert_eq!(Layout::from_size_align(8, 8).map(pair), Some((8, 8)));
    assert_eq!(Layout::from_size_align(0, 1).map(pair), Some((0, 1)));
    assert_eq!(Layout::from_size_align(5, 4096).map(pair), Some((5, 4096)));
    assert!(Layout::from_size_align(8, 0).is_none());
    assert!(Layout::from_size_align(8, 3).is_none());
    assert!(Layout::from_size_align(8, 6).is_none());
    assert!(Layout::from_size_align(8, 12).is_none());
}

#[test]
fn from_size_align_bounds_the_rounded_size() {
    assert!(Layout::from_size_align(MAX, 1).is_some());
    assert!(Layout::from_size_align(MAX + 1, 1).is_none());
    assert!(Layout::from_size_align(MAX, 2).is_none());
    assert!(Layout::from_size_align(MAX - 7, 8).is_some());
    assert!(Layout::from_size_align(MAX - 6, 8).is_none());
    assert!(Layout::from_size_align(0, MAX + 1).is_some());
    assert!(Layout::from_size_align(1, MAX + 1).is_none());
}

#[test]
fn from_size_align_agrees_with_std() {
    let sizes = [0, 1, 2, 7, 8, 9, 4095, 4096, MAX - 8, MAX - 7, MAX - 1, MAX, usize::MAX];
    let aligns = [0, 1, 2, 3, 4, 8, 16, 24, 4096, MAX, MAX + 1, usize::MAX];
    for size in sizes {
        for align in aligns {
            let ours = Layout::from_size_align(size, align).map(pair);
            let theirs = StdLayout::from_size_align(size, align).ok().map(|l| (l.size(), l.align()));
            assert_eq!(ours, theirs);
        }
    }
}

#[test]
fn new_is_the_layout_of_the_type() {
    assert_eq!(pair(Layout::new::<u8>()), (1, 1));
    assert_eq!(pair(Layout::new::<u64>()), (8, std::mem::align_of::<u64>()));
    assert_eq!(pair(Layout::new::<[u8; 3]>()), (3, 1));
    assert_eq!(pair(Layout::new::<()>()), (0, 1));
    assert_eq!(pair(Layout::new::<(u8, u32)>()), (8, 4));
}

#[test]
fn extend_pads_up_to_the_next_alignment() {
    let a = Layout::from_size_align(16, 8).unwrap();
    let (whole, offset) = a.extend(Layout::from_size_align(8, 8).unwrap()).unwrap();
    assert_eq!((pair(whole), offset), ((24, 8), 16));

    let (whole, offset) = a.extend(Layout::from_size_align(1, 1).unwrap()).unwrap();
    assert_eq!((pair(whole), offset), ((17, 8), 16));

    let b = Layout::from_size_align(1, 1).unwrap();
    let (whole, offset) = b.extend(Layout::from_size_align(4, 4).unwrap()).unwrap();
    assert_eq!((pair(whole), offset), ((8, 4), 4));

    let c = Layout::from_size_align(5, 1).unwrap();
    let (whole, offset) = c.extend(Layout::from_size_align(8, 16).unwrap()).unwrap();
    assert_eq!((pair(whole), offset), ((24, 16), 16));

    let d = Layout::from_size_align(17, 8).unwrap();
    let (whole, offset) = d.extend(Layout::from_size_align(0, 32).unwrap()).unwrap();
    assert_eq!((pair(whole), offset), ((32, 32), 32));
}

#[test]
fn extend_refuses_what_is_no_layout() {
    let a = Layout::from_size_align(16, 8).unwrap();
    assert!(a.extend(Layout::from_size_align(MAX - 31, 8).unwrap()).is_some());
    assert!(a.extend(Layout::from_size_align(MAX - 23, 8).unwrap()).is_some());
    assert!(a.extend(Layout::from_size_align(MAX - 15, 8).unwrap()).is_none());
    assert!(a.extend(Layout::from_size_align(MAX, 1).unwrap()).is_none());
    let b = Layout::from_size_align(1, 1).unwrap();
    assert!(b.extend(Layout::from_size_align(0, MAX + 1).unwrap()).is_none());
}

#[test]
fn extend_agrees_with_std() {
    let sizes = [0, 1, 3, 8, 12, 16, 17, 100, MAX - 40, MAX - 16, MAX - 8, MAX];
    let aligns = [1, 2, 4, 8, 16, 64, 4096];
    for s1 in sizes {
        for a1 in aligns {
            for s2 in sizes {
                for a2 in aligns {
                    let (Some(l1), Some(l2)) =
                        (Layout::from_size_align(s1, a1), Layout::from_size_align(s2, a2))
                    else {
                        continue;
                    };
                    let t1 = StdLayout::from_size_align(s1, a1).unwrap();
                    let t2 = StdLayout::from_size_align(s2, a2).unwrap();
                    let ours = l1.extend(l2).map(|(l, o)| (l.size(), l.align(), o));
                    let theirs = t1.extend(t2).ok().map(|(l, o)| (l.size(), l.align(), o));
                    assert_eq!(ours, theirs);
                }
            }
        }
    }
}

#[test]
fn array_multiplies_the_size() {
    assert_eq!(Layout::array::<u64>(3).map(pair), Some((24, std::mem::align_of::<u64>())));
    assert_eq!(Layout::array::<u8>(0).map(pair), Some((0, 1)));
    assert_eq!(Layout::array::<u8>(MAX).map(pair), Some((MAX, 1)));
    assert!(Layout::array::<u8>(MAX + 1).is_none());
    assert!(Layout::array::<u64>(MAX / 8 + 1).is_none());
    assert!(Layout::array::<u64>(usize::MAX).is_none());
    assert_eq!(Layout::array::<()>(usize::MAX).map(pair), Some((0, 1)));
}

#[test]
fn block_layout_puts_the_instance_behind_the_header() {
    let header = StdLayout::new::<[usize; 2]>();
    for size in [1usize, 2, 4, 8, 24, 100] {
        for align in [1usize, 2, 4, 8, 16, 64] {
            let body = Layout::from_size_align(size, align).unwrap();
            let (block, offset) = layout(body).unwrap();
            let (theirs, their_offset) =
                header.extend(StdLayout::from_size_align(size, align).unwrap()).unwrap();
            assert_eq!(pair(block), (theirs.size(), theirs.align()));
            assert_eq!(offset, their_offset);
            assert!(offset >= 2 * WORD);
            assert_eq!(offset % align, 0);
            assert!(offset - 2 * WORD < align);
        }
    }
}

#[test]
fn block_layout_of_a_word() {
    let body = Layout::new::<usize>();
    let (block, offset) = layout(body).unwrap();
    assert_eq!(offset, 2 * WORD);
    assert_eq!(block.size(), 3 * WORD);
    assert_eq!(block.align(), std::mem::align_of::<usize>());
}

#[test]
fn block_layout_refuses_a_body_that_leaves_no_room_for_the_header() {
    let slack = std::mem::align_of::<usize>() - 1;
    assert!(layout(Layout::from_size_align(MAX, 1).unwrap()).is_none());
    assert!(layout(Layout::from_size_align(MAX - 2 * WORD, 1).unwrap()).is_none());
    assert!(layout(Layout::from_size_align(MAX - 2 * WORD - slack + 1, 1).unwrap()).is_none());
    assert!(layout(Layout::from_size_align(MAX - 2 * WORD - slack, 1).unwrap()).is_some());
}

#[test]
fn slot_array_layout_is_one_word_per_slot() {
    for n in [0usize, 1, 2, 7, 1000] {
        let ours = Namespace::layout(n).map(pair);
        let theirs = StdLayout::array::<usize>(n).ok().map(|l| (l.size(), l.align()));
        assert_eq!(ours, theirs);
        assert_eq!(ours, Some((n * WORD, std::mem::align_of::<usize>())));
    }
    assert!(Namespace::layout(MAX / WORD).is_some());
    assert!(Namespace::layout(MAX / WORD + 1).is_none());
    assert!(Namespace::layout(usize::MAX).is_none());
}

#[test]
fn increment_counts_up_to_the_limit() {
    assert_eq!(MAX_REFCOUNT, MAX);
    assert_eq!(increment(1), Ok(2));
    assert_eq!(increment(41), Ok(42));
    assert_eq!(increment(MAX - 1), Ok(MAX));
    assert_eq!(increment(MAX), Ok(MAX + 1));
    assert_eq!(increment(MAX + 1), Err(NsError::CounterOverflow));
    assert_eq!(increment(usize::MAX), Err(NsError::CounterOverflow));
}
