use quickcheck::TestResult;
use vec_drain_where::VecDrainWhereExt;

fn cmp_with_mask(mask: Vec<bool>) -> TestResult {
    let mut data = (0..mask.len()).collect::<Vec<_>>();
    let data2 = data.clone();
    let new_len = mask.len() - mask.iter().fold(0, |s, i| if *i { s + 1 } else { s });
    let mut mask_iter = mask.clone().into_iter();
    let mut last_el: Option<usize> = None;

    let mut failed = None;
    let mut drained = Vec::new();
    {
        let mut scan = data
            .e_drain_where(|el| {
                if let Some(lel) = last_el {
                    if lel + 1 != *el {
                        failed = Some(TestResult::error(format!(
                            "unexpected element (exp {}, got {})",
                            lel + 1,
                            el
                        )));
                    }
                }
                last_el = Some(*el);

                if let Some(mask) = mask_iter.next() {
                    mask
                } else {
                    failed = Some(TestResult::error("called predicate to often"));
                    false
                }
            })
            .unwrap();
        while let Some(el) = scan.next() {
            drained.push(el);
        }
        scan.drop();
    }

    if let Some(f) = failed {
        return f;
    }

    if new_len != data.len() {
        return TestResult::error(format!(
            "rem count: {}, found count: {} - {:?} | {:?}",
            new_len,
            data.len(),
            data,
            mask
        ));
    }

    let expected = data2
        .iter()
        .zip(mask.iter())
        .filter(|&(_d, p)| *p)
        .map(|(d, _p)| *d)
        .collect::<Vec<_>>();

    if expected != drained {
        return TestResult::error("unexpected data");
    }

    let kept = data2
        .iter()
        .zip(mask.iter())
        .filter(|&(_d, p)| !*p)
        .map(|(d, _p)| *d)
        .collect::<Vec<_>>();

    if kept != data {
        return TestResult::error("unexpected remaining data");
    }
    TestResult::passed()
}

#[test]
fn qc_cmp_with_mask() {
    quickcheck::quickcheck(cmp_with_mask as fn(Vec<bool>) -> TestResult);
}

#[test]
fn fix_divide_byte_len_by_size_of() {
    let res = cmp_with_mask(vec![false]);
    assert!(!res.is_error(), "{:?}", res)
}

#[test]
fn fix_update_last_el_in_test() {
    let res = cmp_with_mask(vec![false, false, false]);
    assert!(!res.is_error(), "{:?}", res)
}
