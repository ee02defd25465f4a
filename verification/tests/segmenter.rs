use bubble_lib::segmenter::{SegmentError, Segmenter};

fn bits(values: &[f32]) -> Vec<u32> {
    values.iter().map(|v| v.to_bits()).collect()
}

fn push_all(seg: &mut Segmenter, values: &[f32]) {
    for v in values {
        seg.push(v.to_bits());
    }
}

#[test]
fn test_segmenter_3_2() {
    let mut seg = Segmenter::new(3, 2);

    push_all(
        &mut seg,
        &[1.0, 2.0, 3.0, 4.0, 5.0, 6.0, 7.0, 8.0, 9.0, 10.0, 11.0, 12.0],
    );

    assert_eq!(
        bits(&[1.0, 2.0, 3.0, 4.0, 5.0]),
        seg.pop_segment().expect("unexpected segment error")
    );
    assert_eq!(
        bits(&[4.0, 5.0, 6.0, 7.0, 8.0]),
        seg.pop_segment().expect("unexpected segment error")
    );
    assert_eq!(
        bits(&[7.0, 8.0, 9.0, 10.0, 11.0]),
        seg.pop_segment().expect("unexpected segment error")
    );

    seg.pop_segment()
        .expect_err("expected segment error but did not receive one");
}

#[test]
fn test_segmenter_4_4() {
    let mut seg = Segmenter::new(4, 4);

    push_all(
        &mut seg,
        &[1.0, 2.0, 3.0, 4.0, 5.0, 6.0, 7.0, 8.0, 9.0, 10.0, 11.0, 12.0],
    );

    assert_eq!(
        bits(&[1.0, 2.0, 3.0, 4.0, 5.0, 6.0, 7.0, 8.0]),
        seg.pop_segment().expect("unexpected segment error")
    );
    assert_eq!(
        bits(&[5.0, 6.0, 7.0, 8.0, 9.0, 10.0, 11.0, 12.0]),
        seg.pop_segment().expect("unexpected segment error")
    );

    seg.pop_segment()
        .expect_err("expected segment error but did not receive one");
}

#[test]
fn segment_short_of_its_overlap_is_a_peek_error_and_consumes_the_segment() {
    let mut seg = Segmenter::new(3, 2);
    push_all(&mut seg, &[1.0, 2.0, 3.0, 4.0]);
    assert_eq!(seg.pop_segment(), Err(SegmentError::PeekError()));
    // The three samples of the segment are gone; the fourth is still queued.
    push_all(&mut seg, &[5.0, 6.0, 7.0, 8.0]);
    assert_eq!(seg.pop_segment(), Ok(bits(&[4.0, 5.0, 6.0, 7.0, 8.0])));
}

#[test]
fn segment_short_of_its_own_samples_is_a_pop_error_and_empties_the_queue() {
    let mut seg = Segmenter::new(3, 2);
    push_all(&mut seg, &[1.0, 2.0]);
    assert_eq!(seg.pop_segment(), Err(SegmentError::PopError()));
    push_all(&mut seg, &[3.0, 4.0, 5.0, 6.0, 7.0]);
    assert_eq!(seg.pop_segment(), Ok(bits(&[3.0, 4.0, 5.0, 6.0, 7.0])));
}

#[test]
fn empty_segmenter_gives_pop_error() {
    let mut seg = Segmenter::new(1, 0);
    assert_eq!(seg.pop_segment(), Err(SegmentError::PopError()));
}

#[test]
fn consecutive_segments_share_the_overlap() {
    let mut seg = Segmenter::new(2, 3);
    let stream: Vec<u32> = (0..20).collect();
    for s in &stream {
        seg.push(*s);
    }
    let mut previous: Option<Vec<u32>> = None;
    let mut taken: Vec<u32> = Vec::new();
    while let Ok(segment) = seg.pop_segment() {
        assert_eq!(segment.len(), 5);
        if let Some(prev) = previous {
            assert_eq!(&prev[2..], &segment[..3]);
        }
        taken.extend_from_slice(&segment[..2]);
        previous = Some(segment);
    }
    // Segments are taken while 2 + 3 samples remain: 8 segments tile the first 16.
    assert_eq!(taken, stream[..16].to_vec());
}

#[test]
fn zero_length_segments_return_only_the_overlap() {
    let mut seg = Segmenter::new(0, 2);
    seg.push(7);
    seg.push(9);
    assert_eq!(seg.pop_segment(), Ok(vec![7, 9]));
    assert_eq!(seg.pop_segment(), Ok(vec![7, 9]));
}

#[test]
fn len_counts_the_queued_samples() {
    let mut seg = Segmenter::new(2, 1);
    assert_eq!(seg.len(), 0);
    push_all(&mut seg, &[1.0, 2.0, 3.0, 4.0]);
    assert_eq!(seg.len(), 4);
    seg.pop_segment().unwrap();
    assert_eq!(seg.len(), 2);
}
