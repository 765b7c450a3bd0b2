use numbers::calc::{Calc, CalcError};

#[test]
fn calc_values_for_display() {
    let worker = Calc::new(vec![6, 40]);
    assert_eq!(worker.values_for_display(), "6, 40")
}

#[test]
fn calc_values_pf() {
    let worker = Calc::new(vec![6, 40]);
    let mut res: Vec<Vec<u32>> = Vec::new();
    res.push(vec![2, 3]);
    res.push(vec![2, 2, 2, 5]);
    assert_eq!(worker.values_pf(), res);
}

#[test]
fn calc_command_pfz() {
    let worker = Calc::new(vec![6, 40]);
    assert_eq!(
        worker.command_pfz(),
        vec![" pfz(6) = [2, 3]".to_string(), " pfz(40) = [2, 2, 2, 5]".to_string()]
    );
}

#[test]
fn calc_command_ggt() {
    let worker = Calc::new(vec![8, 20]);
    assert!(worker.command_ggt().is_ok()); // -> 4
    assert_eq!(worker.command_ggt().unwrap(), " ggT(8, 20) = 4");
}

#[test]
fn calc_command_kgv() {
    let worker = Calc::new(vec![8, 12]);
    assert!(worker.command_kgv().is_ok()); // -> 24
    assert_eq!(worker.command_kgv().unwrap(), " kgV(8, 12) = 24");
}

#[test]
fn subcommand_pzf() {
    let lines = Calc::new(vec![40]).command_pfz();
    assert!(lines[0].contains("pfz(40) = [2, 2, 2, 5]"));
}

#[test]
fn subcommand_ggt() {
    let line = Calc::new(vec![8, 12]).command_ggt().unwrap();
    assert!(line.contains("ggT(8, 12) = 4"));
}

#[test]
fn subcommand_kgv() {
    let line = Calc::new(vec![6, 40]).command_kgv().unwrap();
    assert!(line.contains("kgV(6, 40) = 120"));
}

#[test]
fn gcd_examples() {
    assert_eq!(Calc::new(vec![8, 20]).gcd(), Ok(4));
    assert_eq!(Calc::new(vec![8, 12]).gcd(), Ok(4));
    assert_eq!(Calc::new(vec![12, 18, 30]).gcd(), Ok(6));
    assert_eq!(Calc::new(vec![360, 7676]).gcd(), Ok(4));
}

#[test]
fn gcd_coprime() {
    let worker = Calc::new(vec![9, 16]);
    assert_eq!(worker.gcd(), Ok(1));
    assert_eq!(worker.command_ggt().unwrap(), " ggT(9, 16) = teilerfremd");
    // a shared prime in some values only still gives one
    assert_eq!(Calc::new(vec![6, 10, 15]).gcd(), Ok(1));
}

#[test]
fn lcm_examples() {
    assert_eq!(Calc::new(vec![8, 12]).lcm(), Ok(24));
    assert_eq!(Calc::new(vec![6, 40]).lcm(), Ok(120));
    assert_eq!(Calc::new(vec![4, 6, 10]).lcm(), Ok(60));
    assert_eq!(Calc::new(vec![7, 7, 7]).lcm(), Ok(7));
}

#[test]
fn lcm_large_result() {
    let a = 4_294_967_291u32;
    let b = 4_294_967_279u32;
    assert_eq!(Calc::new(vec![a, b]).lcm(), Ok(a as u64 * b as u64));
    assert_eq!(
        Calc::new(vec![a, b]).command_kgv().unwrap(),
        format!(" kgV({}, {}) = {}", a, b, a as u64 * b as u64)
    );
}

#[test]
fn lcm_overflow() {
    let worker = Calc::new(vec![4_294_967_291, 4_294_967_279, 4_294_967_231]);
    assert_eq!(worker.lcm(), Err(CalcError::Overflow));
    assert_eq!(worker.command_kgv(), Err(CalcError::Overflow));
}

#[test]
fn empty_input_is_an_error() {
    let worker = Calc::new(vec![]);
    assert_eq!(worker.gcd(), Err(CalcError::NoValues));
    assert_eq!(worker.lcm(), Err(CalcError::NoValues));
    assert_eq!(worker.command_ggt(), Err(CalcError::NoValues));
    assert!(worker.command_pfz().is_empty());
}

#[test]
fn value_without_factorization_is_an_error() {
    let worker = Calc::new(vec![6, 1, 0]);
    assert_eq!(worker.gcd(), Err(CalcError::NoFactorization(1)));
    assert_eq!(worker.lcm(), Err(CalcError::NoFactorization(1)));
    assert_eq!(worker.command_kgv(), Err(CalcError::NoFactorization(1)));
    assert_eq!(Calc::new(vec![0]).gcd(), Err(CalcError::NoFactorization(0)));
}

#[test]
fn pfz_line_without_factorization() {
    assert_eq!(
        Calc::new(vec![1, 0, 7]).command_pfz(),
        vec![" pfz(1) = {}".to_string(), " pfz(0) = {}".to_string(), " pfz(7) = [7]".to_string()]
    );
}

#[test]
fn same_input_twice_same_output() {
    let worker = Calc::new(vec![12, 18, 30]);
    assert_eq!(worker.gcd(), worker.gcd());
    assert_eq!(worker.lcm(), worker.lcm());
    assert_eq!(worker.command_ggt(), worker.command_ggt());
    assert_eq!(worker.command_kgv(), worker.command_kgv());
    assert_eq!(worker.command_pfz(), worker.command_pfz());
}

#[test]
fn order_does_not_change_results() {
    let orders = [vec![8, 12, 30], vec![30, 8, 12], vec![12, 30, 8], vec![30, 12, 8]];
    for values in orders.iter() {
        let worker = Calc::new(values.clone());
        assert_eq!(worker.gcd(), Ok(2));
        assert_eq!(worker.lcm(), Ok(120));
    }
}

#[test]
fn single_value() {
    for n in [2u32, 12, 97, 360, 7676, u32::MAX] {
        assert_eq!(Calc::new(vec![n]).gcd(), Ok(n));
        assert_eq!(Calc::new(vec![n]).lcm(), Ok(n as u64));
    }
}

#[test]
fn display_single_and_many() {
    assert_eq!(Calc::new(vec![7]).values_for_display(), "7");
    assert_eq!(Calc::new(vec![]).values_for_display(), "");
    assert_eq!(Calc::new(vec![0, 10, 4_294_967_295]).values_for_display(), "0, 10, 4294967295");
}
