use curated_pki::permille::Permille;

#[test]
fn half_of_an_even_amount_is_exact() {
    let half = Permille::from_percent(50);
    assert_eq!(half.parts(), 500);
    assert_eq!(half.of(100), 50);
    assert_eq!(half.of(1000), 500);
    assert_eq!(half.of(2), 1);
    assert_eq!(half.of(0), 0);
}

#[test]
fn an_exact_half_is_rounded_down() {
    let half = Permille::from_percent(50);
    assert_eq!(half.of(1), 0);
    assert_eq!(half.of(3), 1);
    assert_eq!(half.of(5), 2);
    let one = Permille::from_parts(1);
    assert_eq!(one.of(500), 0);
    assert_eq!(one.of(1500), 1);
}

#[test]
fn more_than_a_half_is_rounded_up_and_less_is_rounded_down() {
    assert_eq!(Permille::from_parts(333).of(10), 3);
    assert_eq!(Permille::from_parts(666).of(10), 7);
    let one = Permille::from_parts(1);
    assert_eq!(one.of(499), 0);
    assert_eq!(one.of(501), 1);
    assert_eq!(one.of(1499), 1);
    assert_eq!(one.of(1501), 2);
}

#[test]
fn the_whole_and_nothing() {
    assert_eq!(Permille::from_parts(1000).of(u64::MAX), u64::MAX);
    assert_eq!(Permille::from_parts(1000).of(12345), 12345);
    assert_eq!(Permille::from_parts(0).of(u64::MAX), 0);
}

#[test]
fn large_amounts_do_not_overflow() {
    assert_eq!(Permille::from_parts(500).of(u64::MAX), 9_223_372_036_854_775_807);
    assert_eq!(Permille::from_parts(999).of(u64::MAX), 18_428_297_329_635_842_063);
    assert_eq!(
        Permille::from_parts(250).of(4_000_000_000_000_000_000),
        1_000_000_000_000_000_000
    );
}

#[test]
fn fractions_above_one_count_as_one() {
    assert_eq!(Permille::from_parts(1001).parts(), 1000);
    assert_eq!(Permille::from_parts(u32::MAX).parts(), 1000);
    assert_eq!(Permille::from_percent(100).parts(), 1000);
    assert_eq!(Permille::from_percent(101).parts(), 1000);
    assert_eq!(Permille::from_percent(7).parts(), 70);
    assert_eq!(Permille::from_parts(2000).of(80), 80);
}
