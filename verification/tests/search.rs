//! The search for good codes.

use fec::search::bounds::{griesmer, heller};
use fec::search::enumerate::{candidate_count, PolyIterator};
use fec::search::reciprocal::reciprocal;
use fec::search::shortest::evaluate_free_distance;
use fec::search::spectrum::evaluate_a_dfree;
use fec::search::weight::is_catastrophic;

#[test]
fn dfree_matches_published_tables() {
    // compare against published/well-known tables
    // a_dfree generated locally (regression tested)
    let cases: &[(u32, u32, &[u16], u32, u64)] = &[
        // Larsen 1973 (d_free)
        (2, 3, &[0o5, 0o7], 5, 1),
        (2, 4, &[0o15, 0o17], 6, 1),
        (2, 5, &[0o23, 0o35], 7, 2),
        (2, 6, &[0o53, 0o75], 8, 1),
        (2, 7, &[0o133, 0o171], 10, 11),
        (2, 8, &[0o247, 0o371], 10, 1),
        (2, 9, &[0o561, 0o753], 12, 11),
        (2, 10, &[0o1167, 0o1545], 12, 2),
        (2, 11, &[0o2335, 0o3661], 14, 21),
        (2, 12, &[0o4335, 0o5723], 15, 16),
        (2, 13, &[0o10533, 0o17661], 16, 33),
        (2, 14, &[0o21675, 0o27123], 16, 4),
        (3, 3, &[0o5, 0o7, 0o7], 8, 2),
        (3, 4, &[0o13, 0o15, 0o17], 10, 3),
        (3, 5, &[0o25, 0o33, 0o37], 12, 5),
        (3, 6, &[0o47, 0o53, 0o75], 13, 1),
        (3, 7, &[0o133, 0o145, 0o175], 15, 3),
        (3, 8, &[0o225, 0o331, 0o367], 16, 1),
        (3, 9, &[0o557, 0o663, 0o711], 18, 5),
        (3, 10, &[0o1117, 0o7365, 0o1633], 20, 8),
        (3, 11, &[0o2353, 0o2671, 0o3175], 22, 14),
        (3, 12, &[0o4767, 0o5723, 0o6265], 24, 21),
        (3, 13, &[0o10533, 0o10675, 0o17661], 24, 10),
        (3, 14, &[0o21645, 0o35661, 0o37133], 26, 12),
        (4, 3, &[0o5, 0o7, 0o7, 0o7], 10, 1),
        (4, 4, &[0o13, 0o15, 0o15, 0o17], 13, 2),
        (4, 5, &[0o25, 0o27, 0o33, 0o37], 16, 4),
        (4, 6, &[0o53, 0o67, 0o71, 0o75], 18, 3),
        (4, 7, &[0o135, 0o135, 0o147, 0o163], 20, 10),
        (4, 8, &[0o235, 0o275, 0o313, 0o357], 22, 1),
        (4, 9, &[0o463, 0o535, 0o733, 0o745], 24, 2),
        (4, 10, &[0o1117, 0o1365, 0o1633, 0o1653], 27, 4),
        (4, 11, &[0o2327, 0o2353, 0o2671, 0o3175], 29, 5),
        (4, 12, &[0o4767, 0o5723, 0o6265, 0o7455], 32, 14),
        (4, 13, &[0o11145, 0o12477, 0o15573, 0o16727], 33, 5),
        (4, 14, &[0o21113, 0o23175, 0o35527, 0o35537], 36, 19),
        // Friedrichs 1996 (d_free)
        (2, 15, &[0o56721, 0o61713], 18, 33),
    ];
    for &(rate, order, polys, d_exp, a_exp) in cases {
        let d_free = evaluate_free_distance(rate, order, polys);
        let n_dfree = evaluate_a_dfree(rate, order, polys, d_free.unwrap());
        assert_eq!(d_free, Some(d_exp));
        assert_eq!(n_dfree, a_exp);
    }
}

#[test]
fn reciprocal_code_shares_spectrum() {
    const ORIG: [u16; 2] = [0o133, 0o171];
    const RECIP: [u16; 2] = [0o117, 0o155];
    let mut recip = vec![0; 2];
    reciprocal(&ORIG, 7, &mut recip);
    assert_eq!(recip, RECIP);
    let d1 = evaluate_free_distance(2, 7, &ORIG).unwrap();
    let d2 = evaluate_free_distance(2, 7, &RECIP).unwrap();
    assert_eq!(d1, d2);
    assert_eq!(evaluate_a_dfree(2, 7, &ORIG, d1), evaluate_a_dfree(2, 7, &RECIP, d2));
}

#[test]
fn catastrophic_codes_flagged() {
    assert!(is_catastrophic(&[0o4, 0o6]));
    assert!(evaluate_free_distance(2, 3, &[0o4, 0o6]).is_none());
    assert!(!is_catastrophic(&[0o5, 0o7]));
}

#[test]
fn unranking_matches_iteration() {
    for (rate, order) in [(2u32, 5u32), (2, 8), (3, 4), (4, 3), (6, 3)] {
        let total = candidate_count(rate, order);
        let mut seq = PolyIterator::from_index(rate, order, 0);
        let mut expected = vec![0u16; rate as usize];
        let mut jumped = vec![0u16; rate as usize];
        for index in 0..total {
            // run through every poly and make sure we can restart from any index
            assert!(seq.next(&mut expected));
            let mut it = PolyIterator::from_index(rate, order, index);
            assert!(it.next(&mut jumped));
            assert_eq!(jumped, expected, "index {index} at rate {rate} order {order}");
        }
        assert!(!seq.next(&mut expected));
    }
}

#[test]
fn test_heller_griesmer_bounds() {
    // Larsen 1973 gives us the min of {heller, griesmer}
    // we compute the other here locally (regression test)
    assert_eq!(heller(2, 3), 5);
    assert_eq!(griesmer(2, 3), 5);
    assert_eq!(heller(2, 4), 6);
    assert_eq!(griesmer(2, 4), 6);
    assert_eq!(heller(2, 5), 8);
    assert_eq!(griesmer(2, 5), 8);
    assert_eq!(heller(2, 6), 9);
    assert_eq!(griesmer(2, 6), 8);
    assert_eq!(heller(2, 7), 10);
    assert_eq!(griesmer(2, 7), 10);
    assert_eq!(heller(2, 8), 11);
    assert_eq!(griesmer(2, 8), 11);
    assert_eq!(heller(2, 9), 12);
    assert_eq!(griesmer(2, 9), 12);
    assert_eq!(heller(2, 10), 13);
    assert_eq!(griesmer(2, 10), 13);
    assert_eq!(heller(2, 11), 14);
    assert_eq!(griesmer(2, 11), 14);
    assert_eq!(heller(2, 12), 16);
    assert_eq!(griesmer(2, 12), 16);
    assert_eq!(heller(2, 13), 17);
    assert_eq!(griesmer(2, 13), 16);
    assert_eq!(heller(2, 14), 18);
    assert_eq!(griesmer(2, 14), 17);
    assert_eq!(heller(2, 15), 19);
    assert_eq!(griesmer(2, 15), 18);
    assert_eq!(heller(3, 3), 8);
    assert_eq!(griesmer(3, 3), 8);
    assert_eq!(heller(3, 4), 10);
    assert_eq!(griesmer(3, 4), 10);
    assert_eq!(heller(3, 5), 12);
    assert_eq!(griesmer(3, 5), 12);
    assert_eq!(heller(3, 6), 13);
    assert_eq!(griesmer(3, 6), 13);
    assert_eq!(heller(3, 7), 15);
    assert_eq!(griesmer(3, 7), 15);
    assert_eq!(heller(3, 8), 17);
    assert_eq!(griesmer(3, 8), 16);
    assert_eq!(heller(3, 9), 18);
    assert_eq!(griesmer(3, 9), 18);
    assert_eq!(heller(3, 10), 20);
    assert_eq!(griesmer(3, 10), 20);
    assert_eq!(heller(3, 11), 22);
    assert_eq!(griesmer(3, 11), 22);
    assert_eq!(heller(3, 12), 24);
    assert_eq!(griesmer(3, 12), 24);
    assert_eq!(heller(3, 13), 25);
    assert_eq!(griesmer(3, 13), 24);
    assert_eq!(heller(3, 14), 27);
    assert_eq!(griesmer(3, 14), 26);
    assert_eq!(heller(3, 15), 28);
    assert_eq!(griesmer(3, 15), 28);

    for rate in 2..=6 {
        for order in 3..=15 {
            assert!(heller(rate, order) >= griesmer(rate, order));
        }
    }
}
