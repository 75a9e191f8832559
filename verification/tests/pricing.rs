use katas::pricing::{
    calculate_ps_add, calculate_total_price, Money, Price, PricingStrategy,
};

#[test]
fn check_money() {
    assert_eq!(Money::new(100).to_decimal_string(), "100");
    assert_eq!(Money::raw(199).to_decimal_string(), "1.99");
    assert_eq!(Money::raw(5).to_decimal_string(), "0.05");
    assert_eq!(calculate_ps_add(&[Money::new(2), Money::new(4)]), Money::new(6));
}

#[test]
fn check_add() {
    let m1 = Money::new(10);
    let m2 = Money::new(15);
    let strat = PricingStrategy::Add;
    let total = strat.calculate(&[m1, m2]);
    assert_eq!(total.to_decimal_string(), "25");
}

#[test]
fn check_nth() {
    let m1 = Money::new(10);
    let m2 = Money::new(10);
    let m3 = Money::new(10);
    let strat = PricingStrategy::Nth {
        count: 3,
        total: Money::new(20),
    };
    let total = strat.calculate(&[m1, m2, m3]);
    assert_eq!(total.to_decimal_string(), "20");

    let total = strat.calculate(&[m1; 3]);
    assert_eq!(total.to_decimal_string(), "20");
    let total = strat.calculate(&[m1; 4]);
    assert_eq!(total.to_decimal_string(), "30");
    let total = strat.calculate(&[m1; 5]);
    assert_eq!(total.to_decimal_string(), "40");
    let total = strat.calculate(&[m1; 6]);
    assert_eq!(total.to_decimal_string(), "40");
    let total = strat.calculate(&[m1; 7]);
    assert_eq!(total.to_decimal_string(), "50");
}

#[test]
fn check_onefree() {
    let m1 = Money::new(1);
    let m2 = Money::new(2);
    let m3 = Money::new(4);
    let strat = PricingStrategy::OneFree { count: 3 };
    let total = strat.calculate(&[m1, m2, m3]);
    assert_eq!(total.to_decimal_string(), "6");

    let total = strat.calculate(&[m1; 3]);
    assert_eq!(total.to_decimal_string(), "2");
    let total = strat.calculate(&[m1; 4]);
    assert_eq!(total.to_decimal_string(), "3");
    let total = strat.calculate(&[m1; 5]);
    assert_eq!(total.to_decimal_string(), "4");

    let m4 = Money::new(8);
    let total = strat.calculate(&[m4, m1, m2, m3]);
    assert_eq!(total.to_decimal_string(), "14");

    let total = strat.calculate(&[m4, m1, m2, m3, m2, m4]);
    assert_eq!(total.to_decimal_string(), "22");
    let total = strat.calculate(&[m4, m1, m2, m3, m2, m4, m3]);
    assert_eq!(total.to_decimal_string(), "26");
}

#[test]
fn check_total() {
    let p1 = Price::new(1);
    let p2 = Price::new(2);

    let total = calculate_total_price(&[p1, p2]);
    assert_eq!(total.to_decimal_string(), "3");

    let p3 = Price::new_nth(100, 2, 4);
    let p4 = Price::new_nth(200, 2, 4);

    let total = calculate_total_price(&[p1, p3, p2, p4]);
    assert_eq!(total.to_decimal_string(), "7");

    let p5 = Price::new_onefree(8, 2);
    let p6 = Price::new_onefree(16, 2);

    let total = calculate_total_price(&[p1, p3, p5, p2, p4, p6]);
    assert_eq!(total.to_decimal_string(), "23");
}
