use packet_pipeline::buffer::FramedRing;
use packet_pipeline::buffer::RingFrame;

fn collect(frame: &RingFrame<u32>, ring: &FramedRing<u32>) -> Vec<u32> {
    let mut out = Vec::new();
    let mut it = frame.iter(ring);
    while let Some(x) = it.next(ring) {
        out.push(*x);
    }
    out
}

#[test]
fn elements_iterate_in_insertion_order() {
    let mut ring: FramedRing<u32> = FramedRing::new();
    let f = ring.frame();
    for i in 0..100u32 {
        f.append(&mut ring, i * 3);
    }
    assert_eq!(f.inner().len(&ring), 100);
    let expected: Vec<u32> = (0..100u32).map(|i| i * 3).collect();
    assert_eq!(collect(f.inner(), &ring), expected);
    assert_eq!(f.inner().get(&ring, 0), Some(&0));
    assert_eq!(f.inner().get(&ring, 99), Some(&297));
    assert_eq!(f.inner().get(&ring, 100), None);
    assert_eq!(*f.inner().get_unchecked(&ring, 7), 21);
}

#[test]
fn ring_doubles_and_keeps_every_slot() {
    let mut ring: FramedRing<u32> = FramedRing::new();
    assert_eq!(ring.slots(), 1);
    let a = ring.frame();
    assert_eq!(ring.slots(), 2);
    a.append(&mut ring, 1);
    assert_eq!(ring.slots(), 4);
    a.append(&mut ring, 2);
    let (a, b) = a.next(&mut ring);
    assert_eq!(ring.slots(), 8);
    b.append(&mut ring, 3);
    b.append(&mut ring, 4);
    b.append(&mut ring, 5);
    b.append(&mut ring, 6);
    assert_eq!(ring.slots(), 16);
    assert_eq!(ring.base(), 0);
    assert_eq!(ring.head(), 8);
    assert_eq!(collect(&a, &ring), vec![1, 2]);
    assert_eq!(collect(b.inner(), &ring), vec![3, 4, 5, 6]);
}

#[test]
fn releasing_the_tail_rolls_the_head_back() {
    let mut ring: FramedRing<u32> = FramedRing::new();
    let a = ring.frame();
    a.append(&mut ring, 1);
    let (a, b) = a.next(&mut ring);
    b.append(&mut ring, 2);
    b.append(&mut ring, 3);
    assert_eq!(ring.head(), 5);
    b.release(&mut ring);
    assert_eq!(ring.head(), 2);
    assert_eq!(ring.base(), 0);
    assert_eq!(collect(&a, &ring), vec![1]);
    a.release(&mut ring);
    assert_eq!(ring.base(), ring.head());
}

#[test]
fn releasing_the_base_skips_frames_given_up_before() {
    let mut ring: FramedRing<u32> = FramedRing::new();
    let a = ring.frame();
    a.append(&mut ring, 1);
    let (a, b) = a.next(&mut ring);
    b.append(&mut ring, 2);
    let (b, c) = b.next(&mut ring);
    c.append(&mut ring, 3);
    let (c, d) = c.next(&mut ring);
    d.append(&mut ring, 4);
    // a: 0..2, b: 2..4, c: 4..6, d: 6..8
    b.release(&mut ring);
    assert_eq!((ring.base(), ring.head()), (0, 8));
    c.release(&mut ring);
    assert_eq!((ring.base(), ring.head()), (0, 8));
    a.release(&mut ring);
    assert_eq!((ring.base(), ring.head()), (6, 8));
    assert_eq!(collect(d.inner(), &ring), vec![4]);
    d.release(&mut ring);
    assert_eq!(ring.base(), ring.head());
}

#[test]
fn base_stops_at_the_first_frame_still_held() {
    let mut ring: FramedRing<u32> = FramedRing::new();
    let a = ring.frame();
    let (a, b) = a.next(&mut ring);
    b.append(&mut ring, 7);
    let (b, c) = b.next(&mut ring);
    a.release(&mut ring);
    assert_eq!((ring.base(), ring.head()), (1, 4));
    assert_eq!(collect(&b, &ring), vec![7]);
    c.release(&mut ring);
    assert_eq!((ring.base(), ring.head()), (1, 3));
    b.release(&mut ring);
    assert_eq!(ring.base(), ring.head());
}

#[test]
fn promote_only_the_last_frame() {
    let mut ring: FramedRing<u32> = FramedRing::new();
    let a = ring.frame();
    a.append(&mut ring, 1);
    let (a, b) = a.next(&mut ring);
    let a = match ring.try_promote(a) {
        Ok(_) => panic!("promoted a frame that is not the last"),
        Err(a) => a,
    };
    b.release(&mut ring);
    let a = match ring.try_promote(a) {
        Ok(a) => a,
        Err(_) => panic!("the last frame was not promoted"),
    };
    a.append(&mut ring, 2);
    assert_eq!(collect(a.inner(), &ring), vec![1, 2]);
    let (a, b) = a.next(&mut ring);
    b.release(&mut ring);
    let a = ring.promote(a);
    a.append(&mut ring, 3);
    assert_eq!(a.inner().len(&ring), 3);
}

#[test]
fn into_iter_hands_the_elements_out_and_gives_the_frame_up() {
    let mut ring: FramedRing<String> = FramedRing::new();
    let a = ring.frame();
    a.append(&mut ring, "x".to_string());
    a.append(&mut ring, "y".to_string());
    let (a, b) = a.next(&mut ring);
    let mut it = a.into_iter(&mut ring);
    assert_eq!(it.next(), Some("x".to_string()));
    assert_eq!(it.next(), Some("y".to_string()));
    assert_eq!(it.next(), None);
    assert_eq!((ring.base(), ring.head()), (3, 4));
    b.release(&mut ring);
    assert_eq!(ring.base(), ring.head());
}

#[test]
fn ring_wraps_around_without_growing() {
    let mut ring: FramedRing<u32> = FramedRing::new();
    let mut f = ring.frame();
    f.append(&mut ring, 0);
    f.append(&mut ring, 0);
    let slots = ring.slots();
    for round in 1..50u32 {
        let (old, new) = f.next(&mut ring);
        new.append(&mut ring, round);
        new.append(&mut ring, round + 1);
        old.release(&mut ring);
        assert_eq!(collect(new.inner(), &ring), vec![round, round + 1]);
        f = new;
    }
    assert!(ring.slots() <= slots * 2);
    assert!(ring.head() > ring.slots());
    f.release(&mut ring);
    assert_eq!(ring.base(), ring.head());
}
