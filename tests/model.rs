use dice_dist::dice::Dice;
use dice_dist::distribution::Distribution;
use dice_dist::posibility_space::PosibilitySpace;

fn sorted(d: &Distribution) -> Vec<(i32, u64)> {
    let mut v = d.0.clone();
    v.sort();
    v
}

fn sorted_space(s: &PosibilitySpace) -> Vec<(Vec<i32>, u64)> {
    let mut v = s.0.clone();
    v.sort();
    v
}

fn roll(faces: i32, count: u64) -> PosibilitySpace {
    PosibilitySpace::from_dice(Dice(faces)).multiply(count).unwrap()
}

#[test]
fn destribution_of_5d20kh3() {
    let d20: PosibilitySpace = PosibilitySpace::from_dice(Dice(20));
    let fived20kh3 = d20.multiply(5).unwrap().keep_highest(3).unwrap();
    let dist: Distribution = Distribution::from_space(&fived20kh3).unwrap();
    let expected = vec![
        (3, 1),
        (4, 5),
        (5, 15),
        (6, 41),
        (7, 90),
        (8, 170),
        (9, 301),
        (10, 495),
        (11, 765),
        (12, 1141),
        (13, 1640),
        (14, 2280),
        (15, 3101),
        (16, 4125),
        (17, 5375),
        (18, 6901),
        (19, 8730),
        (20, 10890),
        (21, 13441),
        (22, 16415),
        (23, 19840),
        (24, 23776),
        (25, 28220),
        (26, 33180),
        (27, 38656),
        (28, 44640),
        (29, 51055),
        (30, 57921),
        (31, 65125),
        (32, 72625),
        (33, 80321),
        (34, 88155),
        (35, 95940),
        (36, 103656),
        (37, 111080),
        (38, 118120),
        (39, 124576),
        (40, 130340),
        (41, 135115),
        (42, 138841),
        (43, 141195),
        (44, 142095),
        (45, 141361),
        (46, 139015),
        (47, 134890),
        (48, 129186),
        (49, 121820),
        (50, 113020),
        (51, 102866),
        (52, 91690),
        (53, 79575),
        (54, 67041),
        (55, 54255),
        (56, 41755),
        (57, 29881),
        (58, 19275),
        (59, 10270),
        (60, 3706),
    ];
    assert_eq!(sorted(&dist), expected);
}

#[test]
fn destribution_of_2d6kh() {
    let d6: PosibilitySpace = PosibilitySpace::from_dice(Dice(6));
    let two_d6kh = d6.multiply(2).unwrap().keep_highest(1).unwrap();
    let dist: Distribution = Distribution::from_space(&two_d6kh).unwrap();
    assert_eq!(
        sorted(&dist),
        vec![(1, 1), (2, 3), (3, 5), (4, 7), (5, 9), (6, 11)]
    );
}

#[test]
fn destribution_of_2d6() {
    let d6: PosibilitySpace = PosibilitySpace::from_dice(Dice(6));
    let two_d6 = d6.multiply(2).unwrap();
    let _dist: Distribution = Distribution::from_space(&two_d6).unwrap();
    // only the computation without overflow is asked for here
}

#[test]
fn destribution_of_3d6() {
    let d6: PosibilitySpace = PosibilitySpace::from_dice(Dice(6));
    let two_d6 = d6.multiply(3).unwrap();
    let dist: Distribution = Distribution::from_space(&two_d6).unwrap();
    assert_eq!(
        sorted(&dist),
        vec![
            (3, 1),
            (4, 3),
            (5, 6),
            (6, 10),
            (7, 15),
            (8, 21),
            (9, 25),
            (10, 27),
            (11, 27),
            (12, 25),
            (13, 21),
            (14, 15),
            (15, 10),
            (16, 6),
            (17, 3),
            (18, 1),
        ]
    );
}

#[test]
fn mass_of_24d6() {
    let d6: PosibilitySpace = PosibilitySpace::from_dice(Dice(6));
    let manyd6 = d6.multiply(24).unwrap();
    let dist: Distribution = Distribution::from_space(&manyd6).unwrap();
    let v = sorted(&dist);
    assert_eq!(v.len(), 121);
    assert_eq!(v[0], (24, 1));
    assert_eq!(v[120], (144, 1));
    let mass: u64 = v.iter().map(|e| e.1).sum();
    assert_eq!(mass, 6u64.pow(24));
}

#[test]
fn destribution_of_3d6_plus_2d8() {
    let d6: PosibilitySpace = PosibilitySpace::from_dice(Dice(6));
    let three_d6 = d6.multiply(3).unwrap();
    let d8: PosibilitySpace = PosibilitySpace::from_dice(Dice(8));
    let two_d8 = d8.multiply(2).unwrap();
    let dist: Distribution = Distribution::from_space(&three_d6.combine(&two_d8).unwrap()).unwrap();
    assert_eq!(
        sorted(&dist),
        vec![
            (5, 1),
            (6, 5),
            (7, 15),
            (8, 35),
            (9, 70),
            (10, 126),
            (11, 207),
            (12, 315),
            (13, 448),
            (14, 600),
            (15, 761),
            (16, 917),
            (17, 1053),
            (18, 1153),
            (19, 1206),
            (20, 1206),
            (21, 1153),
            (22, 1053),
            (23, 917),
            (24, 761),
            (25, 600),
            (26, 448),
            (27, 315),
            (28, 207),
            (29, 126),
            (30, 70),
            (31, 35),
            (32, 15),
            (33, 5),
            (34, 1),
        ]
    );
}

#[test]
fn mass_of_rolls_is_faces_to_the_count() {
    for (faces, count) in [(1, 1), (2, 5), (6, 3), (8, 2), (10, 4)] {
        let d = Distribution::from_space(&roll(faces, count)).unwrap();
        let mass: u64 = d.0.iter().map(|e| e.1).sum();
        assert_eq!(mass, (faces as u64).pow(count as u32));
    }
}

#[test]
fn multiply_by_zero_is_empty() {
    let s = PosibilitySpace::from_dice(Dice(6)).multiply(0).unwrap();
    assert!(s.0.is_empty());
}

#[test]
fn die_without_faces_is_empty() {
    assert!(PosibilitySpace::from_dice(Dice(0)).0.is_empty());
    assert!(PosibilitySpace::from_dice(Dice(-3)).0.is_empty());
}

#[test]
fn combine_with_empty_left_gives_right() {
    let d4 = PosibilitySpace::from_dice(Dice(4));
    let r = PosibilitySpace::empty().combine(&d4).unwrap();
    assert_eq!(sorted_space(&r), sorted_space(&d4));
}

#[test]
fn combine_sorts_joined_outcomes() {
    let d2 = PosibilitySpace::from_dice(Dice(2));
    let r = d2.combine(&d2).unwrap();
    assert_eq!(
        sorted_space(&r),
        vec![(vec![1, 1], 1), (vec![1, 2], 2), (vec![2, 2], 1)]
    );
}

#[test]
fn keep_highest_and_lowest_keep_mass_and_shorten() {
    let s = roll(6, 4);
    let mass: u64 = s.0.iter().map(|e| e.1).sum();
    for n in [0usize, 1, 2, 4, 7] {
        for kept in [s.keep_highest(n).unwrap(), s.keep_lowest(n).unwrap()] {
            let kept_mass: u64 = kept.0.iter().map(|e| e.1).sum();
            assert_eq!(kept_mass, mass);
            for (faces, _) in &kept.0 {
                assert_eq!(faces.len(), n.min(4));
            }
        }
    }
}

#[test]
fn keep_lowest_of_two_d6() {
    let s = roll(6, 2).keep_lowest(1).unwrap();
    let d = Distribution::from_space(&s).unwrap();
    assert_eq!(
        sorted(&d),
        vec![(1, 11), (2, 9), (3, 7), (4, 5), (5, 3), (6, 1)]
    );
}

#[test]
fn keep_highest_sorts_unsorted_outcomes() {
    let s = PosibilitySpace(vec![(vec![5, 1, 3], 2)]);
    let k = s.keep_highest(2).unwrap();
    assert_eq!(k.0, vec![(vec![3, 5], 2)]);
    let l = s.keep_lowest(2).unwrap();
    assert_eq!(l.0, vec![(vec![1, 3], 2)]);
}

#[test]
fn count_successes_counts_faces_above() {
    let s = roll(10, 2).count_successes(6).unwrap();
    assert_eq!(
        sorted_space(&s),
        vec![(vec![0], 36), (vec![1], 48), (vec![2], 16)]
    );
}

#[test]
fn convolution_commutes() {
    let a = Distribution::from_space(&roll(6, 3)).unwrap();
    let b = Distribution::from_space(&roll(8, 2)).unwrap();
    let ab = a.convolve_add(&b).unwrap();
    let ba = b.convolve_add(&a).unwrap();
    assert_eq!(sorted(&ab), sorted(&ba));
    assert_eq!(ab.0.len(), 30);
}

#[test]
fn convolve_sub_of_two_d2() {
    let a = Distribution::from_space(&roll(2, 1)).unwrap();
    let d = a.convolve_sub(&a).unwrap();
    assert_eq!(sorted(&d), vec![(-1, 1), (0, 2), (1, 1)]);
}

#[test]
fn convolve_with_empty_left_gives_right() {
    let a = Distribution(vec![(3, 2)]);
    let e = Distribution(vec![]);
    assert_eq!(e.convolve_add(&a).unwrap().0, vec![(3, 2)]);
    assert!(a.convolve_add(&e).unwrap().0.is_empty());
}

#[test]
fn convolution_overflow_is_reported() {
    let a = Distribution(vec![(i32::MAX, 1)]);
    assert!(a.convolve_add(&a).is_none());
    let b = Distribution(vec![(0, u64::MAX)]);
    let c = Distribution(vec![(0, 2)]);
    assert!(b.convolve_add(&c).is_none());
}

#[test]
fn from_space_sums_faces() {
    let s = PosibilitySpace(vec![(vec![1, 2], 3), (vec![3], 4), (vec![2, 2], 1)]);
    let d = Distribution::from_space(&s).unwrap();
    assert_eq!(sorted(&d), vec![(3, 7), (4, 1)]);
}
