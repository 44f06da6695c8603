use std::rc::Rc;
use vec_drain_where::VecDrainWhereExt;

#[test]
fn steps_classify_one_element_at_a_time() {
    let mut data = vec![0, 1, 2, 3, 4];
    let mask = [false, true, false, true, false];
    let mut drained = Vec::new();
    {
        let mut scan = data.e_drain_where(|_| false).unwrap();
        for (at, drain) in mask.iter().enumerate() {
            assert_eq!(scan.inspect().copied(), Some(at));
            if let Some(el) = scan.classify(*drain) {
                drained.push(el);
            }
        }
        assert!(scan.inspect().is_none());
        scan.drop();
    }
    assert_eq!(drained, vec![1, 3]);
    assert_eq!(data, vec![0, 2, 4]);
}

#[test]
fn classify_hands_out_only_what_is_drained() {
    let mut data = vec![7, 8];
    let mut scan = data.e_drain_where(|_| false).unwrap();
    assert_eq!(scan.inspect().copied(), Some(7));
    assert_eq!(scan.classify(false), None);
    assert_eq!(scan.inspect().copied(), Some(8));
    assert_eq!(scan.classify(true), Some(8));
    scan.drop();
    assert_eq!(data, vec![7]);
}

#[test]
fn classify_without_an_element_under_test_does_nothing() {
    let mut data = vec![1, 2, 3];
    let mut scan = data.e_drain_where(|_| false).unwrap();
    assert_eq!(scan.classify(true), None);
    assert_eq!(scan.classify(false), None);
    assert_eq!(scan.inspect().copied(), Some(1));
    assert_eq!(scan.classify(true), Some(1));
    assert_eq!(scan.classify(true), None);
    assert_eq!(scan.classify(false), None);
    scan.drop();
    assert_eq!(data, vec![2, 3]);
}

#[test]
fn element_under_test_can_be_changed_before_it_is_classified() {
    let mut data = vec![1, 2, 3];
    let mut scan = data.e_drain_where(|_| false).unwrap();
    *scan.inspect().unwrap() = 10;
    assert_eq!(scan.classify(false), None);
    *scan.inspect().unwrap() = 20;
    assert_eq!(scan.classify(true), Some(20));
    scan.drop();
    assert_eq!(data, vec![10, 3]);
}

#[test]
fn element_left_under_test_is_lost_when_the_scan_ends() {
    let mut data = vec![0, 1, 2];
    {
        let mut scan = data.e_drain_where(|_| false).unwrap();
        assert_eq!(scan.inspect().copied(), Some(0));
        assert_eq!(scan.classify(false), None);
        assert_eq!(scan.inspect().copied(), Some(1));
        scan.drop();
    }
    assert_eq!(data, vec![0, 2]);
}

#[test]
fn element_left_under_test_is_lost_when_the_scan_goes_on() {
    let mut data = vec![0, 1, 2, 3];
    let mut drained = Vec::new();
    {
        let mut scan = data.e_drain_where(|el| *el == 3).unwrap();
        assert_eq!(scan.inspect().copied(), Some(0));
        assert_eq!(scan.classify(false), None);
        assert_eq!(scan.inspect().copied(), Some(1));
        while let Some(el) = scan.next() {
            drained.push(el);
        }
        scan.drop();
    }
    assert_eq!(drained, vec![3]);
    assert_eq!(data, vec![0, 2]);
}

#[test]
fn inspecting_twice_gives_up_the_first_element() {
    let mut data = vec![0, 1, 2];
    let mut scan = data.e_drain_where(|_| false).unwrap();
    assert_eq!(scan.inspect().copied(), Some(0));
    assert_eq!(scan.inspect().copied(), Some(1));
    assert_eq!(scan.classify(false), None);
    scan.drop();
    assert_eq!(data, vec![1, 2]);
}

#[test]
fn element_left_under_test_at_the_end_stays_lost() {
    let mut data = vec![0, 1];
    let mut scan = data.e_drain_where(|_| false).unwrap();
    assert_eq!(scan.inspect().copied(), Some(0));
    assert_eq!(scan.classify(false), None);
    assert_eq!(scan.inspect().copied(), Some(1));
    assert_eq!(scan.next(), None);
    assert_eq!(scan.next(), None);
    assert!(scan.inspect().is_none());
    scan.drop();
    assert_eq!(data, vec![0]);
}

#[test]
fn abandoned_test_leaves_retained_before_and_all_after() {
    // answers before the abandoned test at index 4: retain, drain, retain, retain
    let answers = [false, true, false, false];
    let mut data: Vec<u32> = (0..8).collect();
    {
        let mut scan = data.e_drain_where(|_| false).unwrap();
        for drain in answers {
            assert!(scan.inspect().is_some());
            drop(scan.classify(drain));
        }
        assert_eq!(scan.inspect().copied(), Some(4));
        scan.drop();
    }
    assert_eq!(data.len(), 3 + (8 - 4 - 1));
    assert_eq!(data, vec![0, 2, 3, 5, 6, 7]);
}

#[test]
fn lost_element_is_never_dropped() {
    let token = Rc::new(());
    let mut data = vec![token.clone(), token.clone(), token.clone()];
    assert_eq!(Rc::strong_count(&token), 4);
    {
        let mut scan = data.e_drain_where(|_| false).unwrap();
        assert!(scan.inspect().is_some());
        assert!(scan.classify(false).is_none());
        assert!(scan.inspect().is_some());
        scan.drop();
    }
    assert_eq!(data.len(), 2);
    assert_eq!(Rc::strong_count(&token), 4);
    drop(data);
    assert_eq!(Rc::strong_count(&token), 2);
}

#[test]
fn drained_and_retained_elements_are_dropped_once() {
    let token = Rc::new(());
    let mut data = vec![token.clone(), token.clone(), token.clone(), token.clone()];
    let mut seen = 0;
    let drained = data
        .e_drain_where(|_| {
            seen += 1;
            seen % 2 == 0
        })
        .unwrap()
        .collect();
    assert_eq!(drained.len(), 2);
    assert_eq!(data.len(), 2);
    assert_eq!(Rc::strong_count(&token), 5);
    drop(drained);
    assert_eq!(Rc::strong_count(&token), 3);
    drop(data);
    assert_eq!(Rc::strong_count(&token), 1);
}

#[test]
fn abandoned_scan_drops_its_elements() {
    let token = Rc::new(());
    let mut data = vec![token.clone(), token.clone()];
    {
        let mut scan = data.e_drain_where(|_| true).unwrap();
        assert!(scan.next().is_some());
    }
    assert_eq!(data.len(), 0);
    assert_eq!(Rc::strong_count(&token), 1);
}
