use discrete_geo::gcd::gcd;
use discrete_geo::rational::Rational;

#[test]
fn equal_rationals() {
    assert_eq!(Rational::new_rational(1,2),Rational::new_rational(2,4));
    assert_eq!(Rational::new_rational(2,5),Rational::new_rational(20,50));
    assert_eq!(Rational::new_rational(0,2),Rational::new_rational(0,3));
    assert_eq!(Rational::new_rational(1,2).neg(),Rational::new_signed_rational(2,4,true));
    assert_eq!(Rational::new_rational(1,2),Rational::new_signed_rational(2,4,false));
    assert_eq!(Rational::new_signed_rational(0,1,false),Rational::new_signed_rational(0,1,true));
    assert_eq!(Rational::new_rational(1,2),Rational::new_rational_from_integers(-1,-2));
    assert_eq!(Rational::new_rational(0,17),Rational::new_rational_from_integers(0,5));
    assert_eq!(Rational::new_rational(0,17),Rational::new_rational_from_integers(0,-2));
    assert_eq!(Rational::new_rational(1,3).neg(),Rational::new_rational_from_integers(-1,3));
    assert_eq!(Rational::new_rational_from_integers(1,-2),Rational::new_rational_from_integers(-1,2));
    assert_eq!(Rational::new_rational_from_integers(1,-2),Rational::new_rational_from_integers(-4,8));
    assert_eq!(Rational::new_rational_from_integers(2,3),Rational::new_rational_from_integers(-4,-6));
    assert_eq!(Rational::new_rational_from_unsigned_integers(1,2),Rational::new_rational_from_integers(4,8));
    assert_eq!(Rational::new_rational_from_unsigned_integer(0),Rational::new_rational_from_integers(0,1));
    assert_eq!(Rational::new_rational_from_unsigned_integer(7),Rational::new_rational_from_integers(14,2));
    assert_eq!(Rational::new_rational_from_integer(-1),Rational::new_rational_from_integers(-1,1));
    assert_eq!(Rational::new_rational_from_integer(-10),Rational::new_rational_from_integers(-30,3));
}

#[test]
fn floor_and_ceiling(){
    assert_eq!(Rational::new_rational(0,1).floor(),0);
    assert_eq!(Rational::new_rational(0,1).ceil(),0);
    assert_eq!(Rational::new_rational(1,1).floor(),1);
    assert_eq!(Rational::new_rational(1,1).ceil(),1);
    assert_eq!(Rational::new_signed_rational(1,1,true).floor(),-1);
    assert_eq!(Rational::new_signed_rational(1,1,true).ceil(),-1);
    assert_eq!(Rational::new_rational(1,2).floor(),0);
    assert_eq!(Rational::new_rational(1,2).ceil(),1);
    assert_eq!(Rational::new_signed_rational(1,2,true).floor(),-1);
    assert_eq!(Rational::new_signed_rational(1,2,true).ceil(),0);
    assert_eq!(Rational::new_rational(16,5).floor(),3);
    assert_eq!(Rational::new_rational(71,12).ceil(),6);
}

#[test]
fn floor_and_ceiling_rational(){
    assert_eq!(Rational::new_rational(1,2).rational_floor(2),Rational::new_rational(1,2));
    assert_eq!(Rational::new_rational(3,4).rational_floor(2),Rational::new_rational(1,2));
    assert_eq!(Rational::new_signed_rational(1,4,true).rational_floor(2),Rational::new_signed_rational(1,2,true));
    assert_eq!(Rational::new_rational(1,2).rational_ceil(2),Rational::new_rational(1,2));
    assert_eq!(Rational::new_rational(3,4).rational_ceil(2),Rational::new_rational(1,1));
    assert_eq!(Rational::new_signed_rational(1,4,true).rational_ceil(2),Rational::new_signed_rational(0,1,false));
}

#[test]
fn compare_rationals() {
    assert!(Rational::new_rational(1,3).lt(&Rational::new_rational(1,2)));
    assert!(Rational::new_rational(1,3).neg().lt(&Rational::new_rational(1,2)));
    assert!(Rational::new_rational(1,3).gt(&Rational::new_rational(1,2).neg()));
    assert!(Rational::new_rational(1,3).le(&Rational::new_rational(1,3)));
    assert!(!(Rational::new_rational(1,3).lt(&Rational::new_rational(1,3))));
}

#[test]
fn add_rational_to_rational(){
    let two = Rational::new_rational(2,1);
    let one = Rational::new_rational(1,1);
    let one_half = Rational::new_rational(1,2);
    let one_third = Rational::new_rational(1,3);
    let one_fourth = Rational::new_rational(1,4);
    let neg_two = Rational::new_rational_from_integers(-2,1);
    let neg_one = Rational::new_rational_from_integers(-1,1);
    let neg_one_half = Rational::new_rational_from_integers(-1,2);
    let neg_one_third = Rational::new_rational_from_integers(-1,3);
    let neg_one_fourth = Rational::new_rational_from_integers(-1,4);
    let neg_one_sixth = Rational::new_rational_from_integers(-1,6);
    let one_sixth = Rational::new_rational_from_integers(1,6);
    let zero = Rational::new_rational_from_integers(0,1);
    assert_eq!(zero.add(zero),zero);
    assert_eq!(zero.add(one),one);
    assert_eq!(one.add(zero),one);
    assert_eq!(zero.add(neg_one),neg_one);
    assert_eq!(neg_one.add(zero),neg_one);
    assert_eq!(one.add(neg_one),zero);
    assert_eq!(neg_one.add(one),zero);
    assert_eq!(one.add(one),two);
    assert_eq!(neg_one.add(neg_one),neg_two);
    assert_eq!(one_half.add(neg_one_half),zero);
    assert_eq!(neg_one_half.add(one_half),zero);
    assert_eq!(one_fourth.add(neg_one_half),neg_one_fourth);
    assert_eq!(neg_one_half.add(one_fourth),neg_one_fourth);
    assert_eq!(one_third.add(neg_one_third),zero);
    assert_eq!(neg_one_third.add(one_sixth),neg_one_sixth);
}

#[test]
fn add_isize_to_rational(){
    let two = Rational::new_rational(2,1);
    let three_halves = Rational::new_rational(3,2);
    let one = Rational::new_rational(1,1);
    let one_half = Rational::new_rational(1,2);
    let one_third = Rational::new_rational(1,3);
    let zero = Rational::new_rational_from_integers(0,1);
    let neg_one_half = Rational::new_rational_from_integers(-1,2);
    let neg_two_thirds = Rational::new_rational_from_integers(-2,3);
    let neg_one = Rational::new_rational_from_integers(-1,1);
    let neg_two = Rational::new_rational_from_integers(-2,1);
    assert_eq!(zero.add_isize(0),zero);
    assert_eq!(zero.add_isize(1),one);
    assert_eq!(zero.add_isize(-1),neg_one);
    assert_eq!(one.add_isize(0),one);
    assert_eq!(one.add_isize(1),two);
    assert_eq!(one.add_isize(-1),zero);
    assert_eq!(neg_one.add_isize(0),neg_one);
    assert_eq!(neg_one.add_isize(1),zero);
    assert_eq!(neg_one.add_isize(-1),neg_two);
    assert_eq!(neg_one_half.add_isize(1),one_half);
    assert_eq!(neg_one_half.add_isize(2),three_halves);
    assert_eq!(neg_one_half.add_isize(0),neg_one_half);
    assert_eq!(one_half.add_isize(0),one_half);
    assert_eq!(one_half.add_isize(1),three_halves);
    assert_eq!(one_half.add_isize(-1),neg_one_half);
    assert_eq!(three_halves.add_isize(-2),neg_one_half);
    assert_eq!(one_third.add_isize(-1),neg_two_thirds);
    assert_eq!(neg_two_thirds.add_isize(1),one_third);
}

#[test]
fn add_usize_to_rational(){
    let two = Rational::new_rational(2,1);
    let three_halves = Rational::new_rational(3,2);
    let one = Rational::new_rational(1,1);
    let one_half = Rational::new_rational(1,2);
    let one_third = Rational::new_rational(1,3);
    let zero = Rational::new_rational_from_integers(0,1);
    let neg_one_half = Rational::new_rational_from_integers(-1,2);
    let neg_two_thirds = Rational::new_rational_from_integers(-2,3);
    let neg_one = Rational::new_rational_from_integers(-1,1);
    assert_eq!(zero.add_usize(0),zero);
    assert_eq!(zero.add_usize(1),one);
    assert_eq!(one.add_usize(0),one);
    assert_eq!(one.add_usize(1),two);
    assert_eq!(neg_one.add_usize(0),neg_one);
    assert_eq!(neg_one.add_usize(1),zero);
    assert_eq!(neg_one_half.add_usize(1),one_half);
    assert_eq!(neg_one_half.add_usize(2),three_halves);
    assert_eq!(neg_one_half.add_usize(0),neg_one_half);
    assert_eq!(one_half.add_usize(0),one_half);
    assert_eq!(one_half.add_usize(1),three_halves);
    assert_eq!(neg_two_thirds.add_usize(1),one_third);
}

#[test]
fn sub_rational_from_rational(){
    let two = Rational::new_rational(2,1);
    let one = Rational::new_rational(1,1);
    let one_half = Rational::new_rational(1,2);
    let one_third = Rational::new_rational(1,3);
    let one_fourth = Rational::new_rational(1,4);
    let neg_two = Rational::new_rational_from_integers(-2,1);
    let neg_one = Rational::new_rational_from_integers(-1,1);
    let neg_one_half = Rational::new_rational_from_integers(-1,2);
    let neg_one_third = Rational::new_rational_from_integers(-1,3);
    let neg_one_fourth = Rational::new_rational_from_integers(-1,4);
    let neg_one_sixth = Rational::new_rational_from_integers(-1,6);
    let one_sixth = Rational::new_rational_from_integers(1,6);
    let zero = Rational::new_rational_from_integers(0,1);
    assert_eq!(zero.add(zero),zero);
    assert_eq!(zero.add(one),one);
    assert_eq!(one.add(zero),one);
    assert_eq!(zero.add(neg_one),neg_one);
    assert_eq!(neg_one.add(zero),neg_one);
    assert_eq!(one.add(neg_one),zero);
    assert_eq!(neg_one.add(one),zero);
    assert_eq!(one.add(one),two);
    assert_eq!(neg_one.add(neg_one),neg_two);
    assert_eq!(one_half.add(neg_one_half),zero);
    assert_eq!(neg_one_half.add(one_half),zero);
    assert_eq!(one_fourth.add(neg_one_half),neg_one_fourth);
    assert_eq!(neg_one_half.add(one_fourth),neg_one_fourth);
    assert_eq!(one_third.add(neg_one_third),zero);
    assert_eq!(neg_one_third.add(one_sixth),neg_one_sixth);
}

#[test]
fn sub_isize_from_rational(){
    let two = Rational::new_rational(2,1);
    let three_halves = Rational::new_rational(3,2);
    let one = Rational::new_rational(1,1);
    let one_half = Rational::new_rational(1,2);
    let one_third = Rational::new_rational(1,3);
    let zero = Rational::new_rational_from_integers(0,1);
    let neg_one_half = Rational::new_rational_from_integers(-1,2);
    let neg_two_thirds = Rational::new_rational_from_integers(-2,3);
    let neg_one = Rational::new_rational_from_integers(-1,1);
    let neg_two = Rational::new_rational_from_integers(-2,1);
    assert_eq!(zero.sub_isize(0),zero);
    assert_eq!(zero.sub_isize(-1),one);
    assert_eq!(zero.sub_isize(1),neg_one);
    assert_eq!(one.sub_isize(0),one);
    assert_eq!(one.sub_isize(-1),two);
    assert_eq!(one.sub_isize(1),zero);
    assert_eq!(neg_one.sub_isize(0),neg_one);
    assert_eq!(neg_one.sub_isize(-1),zero);
    assert_eq!(neg_one.sub_isize(1),neg_two);
    assert_eq!(neg_one_half.sub_isize(-1),one_half);
    assert_eq!(neg_one_half.sub_isize(-2),three_halves);
    assert_eq!(neg_one_half.sub_isize(0),neg_one_half);
    assert_eq!(one_half.sub_isize(0),one_half);
    assert_eq!(one_half.sub_isize(-1),three_halves);
    assert_eq!(one_half.sub_isize(1),neg_one_half);
    assert_eq!(three_halves.sub_isize(2),neg_one_half);
    assert_eq!(one_third.sub_isize(1),neg_two_thirds);
    assert_eq!(neg_two_thirds.sub_isize(-1),one_third);
}

#[test]
fn sub_usize_from_rational(){
    let one = Rational::new_rational(1,1);
    let one_half = Rational::new_rational(1,2);
    let one_third = Rational::new_rational(1,3);
    let zero = Rational::new_rational_from_integers(0,1);
    let neg_one_half = Rational::new_rational_from_integers(-1,2);
    let neg_two_thirds = Rational::new_rational_from_integers(-2,3);
    let neg_one = Rational::new_rational_from_integers(-1,1);
    let neg_two = Rational::new_rational_from_integers(-2,1);
    let neg_three_halves = Rational::new_rational_from_integers(-3,2);
    assert_eq!(zero.sub_usize(0),zero);
    assert_eq!(zero.sub_usize(1),neg_one);
    assert_eq!(one.sub_usize(0),one);
    assert_eq!(one.sub_usize(1),zero);
    assert_eq!(neg_one.sub_usize(0),neg_one);
    assert_eq!(neg_one.sub_usize(1),neg_two);
    assert_eq!(neg_one_half.sub_usize(1),neg_three_halves);
    assert_eq!(neg_one_half.sub_usize(0),neg_one_half);
    assert_eq!(one_half.sub_usize(0),one_half);
    assert_eq!(one_half.sub_usize(1),neg_one_half);
    assert_eq!(one_third.sub_usize(1),neg_two_thirds);
}

#[test]
fn mul_rational_to_rational(){
    let two = Rational::new_rational(2,1);
    let one = Rational::new_rational(1,1);
    let one_half = Rational::new_rational(1,2);
    let three_halves = Rational::new_rational(3,2);
    let one_third = Rational::new_rational(1,3);
    let two_thirds = Rational::new_rational(2,3);
    let one_fourth = Rational::new_rational(1,4);
    let neg_two = Rational::new_rational_from_integers(-2,1);
    let neg_one = Rational::new_rational_from_integers(-1,1);
    let neg_one_half = Rational::new_rational_from_integers(-1,2);
    let neg_one_fourth = Rational::new_rational_from_integers(-1,4);
    let one_sixth = Rational::new_rational_from_integers(1,6);
    let zero = Rational::new_rational_from_integers(0,1);
    assert_eq!(zero.mul(zero) , zero);
    assert_eq!(one.mul(zero) , zero);
    assert_eq!(zero.mul(one) , zero);
    assert_eq!(neg_one.mul(zero) , zero);
    assert_eq!(zero.mul(neg_one) , zero);
    assert_eq!(one.mul(one) , one);
    assert_eq!(one.mul(neg_one) , neg_one);
    assert_eq!(neg_one.mul(one) , neg_one);
    assert_eq!(neg_one.mul(neg_one) , one);
    assert_eq!(one_half.mul(one_half) , one_fourth);
    assert_eq!(neg_one_half.mul(neg_one_half) , one_fourth);
    assert_eq!(one_half.mul(neg_one_half) , neg_one_fourth);
    assert_eq!(neg_one_half.mul(one_half) , neg_one_fourth);
    assert_eq!(one_half.mul(two) , one);
    assert_eq!(two.mul(one_half) , one);
    assert_eq!(neg_one_half.mul(two) , neg_one);
    assert_eq!(two.mul(neg_one_half) , neg_one);
    assert_eq!(one_half.mul(neg_two) , neg_one);
    assert_eq!(neg_two.mul(one_half) , neg_one);
    assert_eq!(neg_one_half.mul(neg_two) , one);
    assert_eq!(neg_two.mul(neg_one_half) , one);
    assert_eq!(one_half.mul(one_third) , one_sixth);
    assert_eq!(three_halves.mul(two_thirds) , one);
    assert_eq!(two_thirds.mul(three_halves) , one);
}

#[test]
fn mul_isize_to_rational(){
    let one = Rational::new_rational(1,1);
    let one_half = Rational::new_rational(1,2);
    let three_halves = Rational::new_rational(3,2);
    let one_third = Rational::new_rational(1,3);
    let two_thirds = Rational::new_rational(2,3);
    let neg_one = Rational::new_rational_from_integers(-1,1);
    let neg_one_half = Rational::new_rational_from_integers(-1,2);
    let zero = Rational::new_rational_from_integers(0,1);
    assert_eq!(zero.mul_isize(0) , zero);
    assert_eq!(zero.mul_isize(1) , zero);
    assert_eq!(zero.mul_isize(-1) , zero);
    assert_eq!(one.mul_isize(1) , one);
    assert_eq!(one.mul_isize(0) , zero);
    assert_eq!(one.mul_isize(-1) , neg_one);
    assert_eq!(neg_one.mul_isize(1) , neg_one);
    assert_eq!(neg_one.mul_isize(0) , zero);
    assert_eq!(neg_one.mul_isize(-1) , one);
    assert_eq!(one_half.mul_isize(1) , one_half);
    assert_eq!(one_half.mul_isize(-1) , neg_one_half);
    assert_eq!(one_half.mul_isize(2) , one);
    assert_eq!(one_half.mul_isize(-2) , neg_one);
    assert_eq!(one_half.mul_isize(3) , three_halves);
    assert_eq!(one_third.mul_isize(2) , two_thirds);
    assert_eq!(one_third.mul_isize(3) , one);
    assert_eq!(one_third.mul_isize(-3) , neg_one);
}

#[test]
fn mul_usize_to_rational(){
    let one = Rational::new_rational(1,1);
    let one_half = Rational::new_rational(1,2);
    let three_halves = Rational::new_rational(3,2);
    let one_third = Rational::new_rational(1,3);
    let two_thirds = Rational::new_rational(2,3);
    let neg_one = Rational::new_rational_from_integers(-1,1);
    let zero = Rational::new_rational_from_integers(0,1);
    assert_eq!(zero.mul_isize(0) , zero);
    assert_eq!(zero.mul_isize(1) , zero);
    assert_eq!(one.mul_isize(1) , one);
    assert_eq!(one.mul_isize(0) , zero);
    assert_eq!(neg_one.mul_isize(1) , neg_one);
    assert_eq!(neg_one.mul_isize(0) , zero);
    assert_eq!(one_half.mul_isize(1) , one_half);
    assert_eq!(one_half.mul_isize(2) , one);
    assert_eq!(one_half.mul_isize(3) , three_halves);
    assert_eq!(one_third.mul_isize(2) , two_thirds);
    assert_eq!(one_third.mul_isize(3) , one);
}

#[test]
fn div_rational_into_rational() {
    let zero = Rational::new_rational(0,1);
    let one = Rational::new_rational(1,1);
    let two = Rational::new_rational(2,1);
    let neg_one = Rational::new_signed_rational(1,1,true);
    let neg_two = Rational::new_signed_rational(2,1,true);
    let one_half = Rational::new_rational(1,2);
    let neg_one_half = Rational::new_signed_rational(1,2,true);
    let one_third = Rational::new_rational(1,3);
    let three_halves = Rational::new_rational(3,2);
    let two_thirds = Rational::new_rational(2,3);
    let one_fourth = Rational::new_rational(1,4);
    let four_ninths = Rational::new_rational(4,9);
    assert_eq!(zero.div(one),zero);
    assert_eq!(zero.div(neg_one),zero);
    assert_eq!(zero.div(two_thirds),zero);
    assert_eq!(one.div(one),one);
    assert_eq!(one.div(neg_one),neg_one);
    assert_eq!(neg_one.div(one),neg_one);
    assert_eq!(neg_one.div(neg_one),one);
    assert_eq!(one.div(two),one_half);
    assert_eq!(one.div(one_half),two);
    assert_eq!(one.div(neg_two),neg_one_half);
    assert_eq!(one.div(neg_one_half),neg_two);
    assert_eq!(two.div(one),two);
    assert_eq!(neg_two.div(one),neg_two);
    assert_eq!(three_halves.div(one),three_halves);
    assert_eq!(one_half.div(one_third),three_halves);
    assert_eq!(one_third.div(one_half),two_thirds);
    assert_eq!(one_half.div(one_fourth),two);
    assert_eq!(neg_one_half.div(one_fourth),neg_two);
    assert_eq!(two_thirds.div(four_ninths),three_halves);
}

#[test]
fn operation_neg() {
    let one = Rational::new_rational(1,1);
    let neg_one = Rational::new_signed_rational(1,1,true);
    assert_eq!(one.neg(),neg_one);
    assert_eq!(one,neg_one.neg());
    assert_eq!(one.neg().neg(),one);
    assert_eq!(neg_one,neg_one.neg().neg());
}

#[test]
fn gcd_handles_zero_and_coprime_inputs() {
    assert_eq!(gcd(12, 0), 12);
    assert_eq!(gcd(0, 7), 7);
    assert_eq!(gcd(12, 18), 6);
    assert_eq!(gcd(35, 64), 1);
}

#[test]
fn construction_reduces_to_lowest_terms() {
    let r = Rational::new_rational_from_integers(6, -4);
    assert!(r.is_neg());
    assert_eq!(r.numerator(), 3);
    assert_eq!(r.denominator(), 2);
    let z = Rational::new_signed_rational(0, 9, true);
    assert!(!z.is_neg());
    assert_eq!(z.numerator(), 0);
    assert_eq!(z.denominator(), 1);
}

#[test]
fn scaling_numerator_and_denominator_keeps_the_value() {
    for k in 1..20usize {
        assert_eq!(Rational::new_rational(3 * k, 7 * k), Rational::new_rational(3, 7));
        assert_eq!(Rational::new_rational_from_integers(-5 * k as isize, 4 * k as isize), Rational::new_rational_from_integers(-5, 4));
    }
}

#[test]
fn zero_has_one_form() {
    for d in 1..20usize {
        let z = Rational::new_rational(0, d);
        assert_eq!(z, Rational::new_rational_from_integer(0));
        assert!(!z.is_neg());
    }
}

#[test]
fn floor_and_ceil_of_negation() {
    let values = [(7isize, 3isize), (-7, 3), (6, 3), (-6, 3), (1, 2), (-1, 2), (0, 5), (22, 7)];
    for (n, d) in values {
        let r = Rational::new_rational_from_integers(n, d);
        assert_eq!(r.neg().floor(), -r.ceil());
        assert_eq!(r.neg().ceil(), -r.floor());
    }
    assert_eq!(Rational::new_rational_from_integers(-7, 3).floor(), -3);
    assert_eq!(Rational::new_rational_from_integers(-7, 3).ceil(), -2);
    assert_eq!(Rational::new_rational_from_integers(-6, 3).floor(), -2);
    assert_eq!(Rational::new_rational_from_integers(-6, 3).ceil(), -2);
}

#[test]
fn rational_floor_scales_before_flooring() {
    let r = Rational::new_rational_from_integers(-5, 3);
    assert_eq!(r.rational_floor(2), Rational::new_rational_from_integers(-2, 1));
    assert_eq!(r.rational_ceil(2), Rational::new_rational_from_integers(-3, 2));
    assert_eq!(Rational::new_rational(5, 3).rational_floor(4), Rational::new_rational(3, 2));
    assert_eq!(Rational::new_rational(5, 3).rational_ceil(4), Rational::new_rational(7, 4));
}

#[test]
fn abs_and_ordering() {
    let r = Rational::new_rational_from_integers(-3, 4);
    assert_eq!(r.abs(), Rational::new_rational(3, 4));
    assert_eq!(r.cmp(&Rational::new_rational(1, 2)), std::cmp::Ordering::Less);
    assert_eq!(r.cmp(&Rational::new_rational_from_integers(6, -8)), std::cmp::Ordering::Equal);
    assert!(Rational::new_rational(2, 3).ge(&Rational::new_rational(4, 6)));
    assert!(Rational::new_rational_from_integers(-1, 3).gt(&Rational::new_rational_from_integers(-1, 2)));
}

#[test]
fn subtraction_and_division_by_rationals() {
    let a = Rational::new_rational(1, 2);
    let b = Rational::new_rational(1, 3);
    assert_eq!(a.sub(b), Rational::new_rational(1, 6));
    assert_eq!(b.sub(a), Rational::new_rational_from_integers(-1, 6));
    assert_eq!(a.div(b.neg()), Rational::new_rational_from_integers(-3, 2));
    assert_eq!(Rational::new_rational(0, 1).div(b), Rational::new_rational(0, 1));
}

#[test]
fn division_by_integers() {
    let three_halves = Rational::new_rational(3, 2);
    assert_eq!(three_halves.div_isize(3), Rational::new_rational(1, 2));
    assert_eq!(three_halves.div_isize(-6), Rational::new_rational_from_integers(-1, 4));
    assert_eq!(three_halves.div_usize(9), Rational::new_rational(1, 6));
    assert_eq!(Rational::new_rational_from_integers(-4, 5).div_usize(2), Rational::new_rational_from_integers(-2, 5));
}
