use quickcheck::TestResult;
use std::cell::RefCell;
use std::rc::Rc;
use vec_drain_where::{VecDrainWhere, VecDrainWhereExt};

/// Ends the scan it holds when it goes out of scope, also while a panic unwinds.
struct EndOnExit<'a, Item, Pred>(Option<VecDrainWhere<'a, Item, Pred>>);

impl<'a, Item, Pred> Drop for EndOnExit<'a, Item, Pred> {
    fn drop(&mut self) {
        if let Some(scan) = self.0.take() {
            scan.drop();
        }
    }
}

fn panic_situations(mask: Vec<(bool, bool)>) -> TestResult {
    let data = Rc::new(RefCell::new((0..mask.len()).collect::<Vec<_>>()));
    let mut mask_iter = mask.clone().into_iter();
    let fail = Rc::new(RefCell::new(None));
    let mut expect_panic = false;
    let expected_len = mask.iter().fold(0, |sum, &(msk, pnk)| {
        if expect_panic {
            sum + 1
        } else if pnk {
            expect_panic = true;
            sum
        } else if msk {
            sum
        } else {
            sum + 1
        }
    });

    let shared_data = data.clone();
    let shared_fail = fail.clone();
    let res = TestResult::must_fail(move || {
        let mut data = shared_data.borrow_mut();
        let scan = data
            .e_drain_where(|_item| {
                let (mask, do_panic) = mask_iter.next().unwrap_or_else(|| {
                    *shared_fail.borrow_mut() =
                        Some(TestResult::error("unexpected no more masks"));
                    (false, false)
                });

                if do_panic {
                    panic!("-- yes panic --");
                }
                mask
            })
            .unwrap();
        let mut scan = EndOnExit(Some(scan));
        while let Some(el) = scan.0.as_mut().unwrap().next() {
            drop(el);
        }
    });

    if let Some(failure) = fail.borrow_mut().take() {
        return failure;
    }

    if expect_panic {
        if res.is_failure() {
            return TestResult::error(format!(
                "unexpectedly no panic? exp {}, len {}, ({:?})",
                expected_len,
                mask.len(),
                mask
            ));
        }
    } else {
        if !res.is_failure() {
            return TestResult::error(format!(
                "unexpectedly error? exp {}, len {}, ({:?})",
                expected_len,
                mask.len(),
                mask
            ));
        }
    }

    let data = data.borrow();
    if data.len() != expected_len {
        return TestResult::error(format!(
            "unexpected resulting len {}, exp {} ({:?} - {:?})",
            data.len(),
            expected_len,
            data,
            mask
        ));
    }

    TestResult::passed()
}

#[test]
fn qc_panic_test() {
    quickcheck::quickcheck(panic_situations as fn(Vec<(bool, bool)>) -> TestResult)
}

#[test]
fn fix_messed_up_test() {
    let res = panic_situations(vec![(true, false)]);
    assert!(!res.is_error(), "{:?}", res);
}
