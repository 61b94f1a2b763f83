use sdfart::geometry::{Pt, Rect};
use sdfart::shapes::{parity_flips, Circle, Flower, Square};

#[test]
fn flower_keeps_its_petals() {
    assert_eq!(Flower::new(7).num_petals(), 7);
    assert_eq!(Flower::new(0).num_petals(), 0);
    assert_eq!(Flower::new(-3).num_petals(), -3);
}

#[test]
fn atoms_are_copyable() {
    let c = Circle {};
    let s = Square {};
    let c2 = c;
    let s2 = s;
    assert_eq!(format!("{:?} {:?}", c2, s2), "Circle Square");
}

#[test]
fn parity_flips_odd_cells() {
    assert!(!parity_flips(0));
    assert!(parity_flips(1));
    assert!(parity_flips(-1));
    assert!(!parity_flips(2));
    assert!(!parity_flips(-2));
    assert!(parity_flips(-3));
    assert!(parity_flips(i32::MAX));
    assert!(parity_flips(i32::MIN + 1));
}

#[test]
fn rect_holds_its_corners() {
    let vd = 2;
    let view = Rect { ll: Pt { x: -vd, y: -vd }, ur: Pt { x: vd, y: vd } };
    let copy = view;
    assert_eq!(copy.ll.x, -2);
    assert_eq!(copy.ur.y, 2);
}
