use bubble_lib::iter::CircIter;
use queues::{CircularBuffer, IsQueue};

fn b(v: f32) -> u32 {
    v.to_bits()
}

#[test]
fn test_circ_iter() {
    let mut cbuf = CircularBuffer::<u32>::new(5);
    cbuf.add(b(1.)).unwrap();
    cbuf.add(b(2.)).unwrap();
    cbuf.add(b(3.)).unwrap();
    cbuf.add(b(4.)).unwrap();
    cbuf.add(b(5.)).unwrap();

    {
        let mut iter = CircIter {
            cbuf: &mut cbuf,
            take: 3,
            peek: 1,
        };

        assert_eq!(Some(b(1.)), iter.next());
        assert_eq!(Some(b(2.)), iter.next());
        assert_eq!(Some(b(3.)), iter.next());
        assert_eq!(Some(b(4.)), iter.next());
        assert_eq!(None, iter.next());
    }
    {
        let mut iter = CircIter {
            cbuf: &mut cbuf,
            take: 2,
            peek: 0,
        };

        assert_eq!(Some(b(4.)), iter.next());
        assert_eq!(Some(b(5.)), iter.next());
        assert_eq!(None, iter.next());
    }
}

#[test]
fn peeking_repeats_the_oldest_sample() {
    let mut cbuf = CircularBuffer::<u32>::new(3);
    cbuf.add(10).unwrap();
    cbuf.add(20).unwrap();
    let mut iter = CircIter { cbuf: &mut cbuf, take: 0, peek: 3 };
    assert_eq!(Some(10), iter.next());
    assert_eq!(Some(10), iter.next());
    assert_eq!(Some(10), iter.next());
    assert_eq!(None, iter.next());
    assert_eq!(iter.peek, 0);
    assert_eq!(cbuf.size(), 2);
}

#[test]
fn taking_from_a_buffer_with_a_default_refills_it() {
    let mut cbuf = CircularBuffer::with_default(3, 0u32);
    cbuf.add(7).unwrap();
    // [0, 0, 7]
    let mut iter = CircIter { cbuf: &mut cbuf, take: 3, peek: 1 };
    assert_eq!(Some(0), iter.next());
    assert_eq!(Some(0), iter.next());
    assert_eq!(Some(7), iter.next());
    assert_eq!(Some(0), iter.next());
    assert_eq!(None, iter.next());
    assert_eq!(cbuf.size(), 3);
}

#[test]
fn exhausted_reader_changes_nothing() {
    let mut cbuf = CircularBuffer::<u32>::new(2);
    let mut iter = CircIter { cbuf: &mut cbuf, take: 0, peek: 0 };
    assert_eq!(None, iter.next());
    assert_eq!(None, iter.next());
}
