use maze_exit::cost::{Cost, COST_CAP};
use maze_exit::position::Pos;

#[test]
fn position_constructors_and_queries() {
    let p = Pos::new(3, -2);
    assert_eq!(p.x, 3);
    assert_eq!(p.y, -2);
    assert!(p.is_diagonal());
    assert!(!p.is_straight());
    assert!(Pos::new(0, 5).is_straight());
    assert!(Pos::new(5, 0).is_straight());

    let q = Pos::from(70000, 2);
    assert!(q.is_err());
    let q = Pos::from(-40000, 2);
    assert!(q.is_err());
    let q = Pos::from(12, -7).unwrap();
    assert_eq!(q, Pos::new(12, -7));
}

#[test]
fn position_algebra() {
    let p = Pos::new(4, -3);
    assert_eq!(p.add(Pos::new(1, 1)), Pos::new(5, -2));
    assert_eq!(p.sub(Pos::new(1, 1)), Pos::new(3, -4));
    assert_eq!(p.neg(), Pos::new(-4, 3));
    assert_eq!(p.sign(), Pos::new(1, -1));
    assert_eq!(Pos::new(0, 0).sign(), Pos::new(0, 0));

    let c = p.components();
    assert_eq!(c[0], Pos::new(4, 0));
    assert_eq!(c[1], Pos::new(0, -3));

    let o = p.orthogonal();
    assert_eq!(o[0], Pos::new(-3, 4));
    assert_eq!(o[1], Pos::new(3, -4));
}

#[test]
fn position_steps() {
    let p = Pos::new(5, 5);
    assert_eq!(p.up(), Pos::new(5, 4));
    assert_eq!(p.down(), Pos::new(5, 6));
    assert_eq!(p.left(), Pos::new(4, 5));
    assert_eq!(p.right(), Pos::new(6, 5));
    assert_eq!(p.up_left(), Pos::new(4, 4));
    assert_eq!(p.up_right(), Pos::new(6, 4));
    assert_eq!(p.down_left(), Pos::new(4, 6));
    assert_eq!(p.down_right(), Pos::new(6, 6));
}

#[test]
fn cost_comparisons_are_exact() {
    // 5 * sqrt(2) = 7.071... lies strictly between 7 and 8.
    let d5 = Cost::diagonal(5);
    let s7 = Cost::straight(7);
    let s8 = Cost::straight(8);
    assert!(s7.lt(&d5));
    assert!(d5.lt(&s8));
    assert!(!d5.le(&s7));
    assert!(d5.le(&d5));

    // 2 * sqrt(2) = 2.828... is below 3.
    assert!(Cost::diagonal(2).lt(&Cost::straight(3)));

    // 408 / 169 is a convergent of sqrt(2): 169 * sqrt(2) = 239.0021...
    let d169 = Cost::diagonal(169);
    assert!(Cost::straight(239).lt(&d169));
    assert!(d169.lt(&Cost::straight(240)));
}

#[test]
fn cost_checked_add() {
    let a = Cost::straight(2);
    let b = Cost::diagonal(3);
    let s = a.checked_add(&b).unwrap();
    assert_eq!(s.straight_millis, 2000);
    assert_eq!(s.diag_millis, 3000);

    let top = Cost { straight_millis: COST_CAP, diag_millis: 0 };
    assert!(top.checked_add(&Cost::straight(1)).is_none());
    assert!(top.checked_add(&Cost::zero()).is_some());
}
