use katch2::desugar::{
    desugar, desugar_bit_range_assign, desugar_bit_range_test, desugar_with_env, DesugarEnv,
};
use katch2::expr::Expr;
use katch2::parser::parse_expressions;

#[test]
fn test_desugar_basic() {
    // Test that non-TestNegation expressions are unchanged
    assert_eq!(desugar(&Expr::Zero).unwrap(), Expr::zero());
    assert_eq!(desugar(&Expr::One).unwrap(), Expr::one());
    assert_eq!(desugar(&Expr::Test(0, true)).unwrap(), Expr::test(0, true));
}

#[test]
fn test_desugar_test_negation_basic() {
    // !0 = 1
    let expr = Expr::TestNegation(Expr::zero());
    assert_eq!(desugar(&expr).unwrap(), Expr::one());

    // !1 = 0
    let expr = Expr::TestNegation(Expr::one());
    assert_eq!(desugar(&expr).unwrap(), Expr::zero());

    // !(x0 == 1) = x0 == 0
    let expr = Expr::TestNegation(Expr::test(0, true));
    assert_eq!(desugar(&expr).unwrap(), Expr::test(0, false));

    // !(x0 == 0) = x0 == 1
    let expr = Expr::TestNegation(Expr::test(0, false));
    assert_eq!(desugar(&expr).unwrap(), Expr::test(0, true));
}

#[test]
fn test_desugar_demorgan() {
    // !(e1 + e2) = !e1 & !e2
    let e1 = Expr::test(0, true);
    let e2 = Expr::test(1, false);
    let expr = Expr::TestNegation(Expr::union(e1, e2));
    let expected = Expr::intersect(Expr::test(0, false), Expr::test(1, true));
    assert_eq!(desugar(&expr).unwrap(), expected);

    // !(e1 & e2) = !e1 + !e2
    let e1 = Expr::test(0, true);
    let e2 = Expr::test(1, false);
    let expr = Expr::TestNegation(Expr::intersect(e1, e2));
    let expected = Expr::union(Expr::test(0, false), Expr::test(1, true));
    assert_eq!(desugar(&expr).unwrap(), expected);
}

#[test]
fn test_desugar_invalid_test_negation() {
    // Test that TestNegation on non-test fragment gives error

    // !T is invalid
    let expr = Expr::TestNegation(Expr::top());
    assert!(desugar(&expr).is_err());

    // !(x0 := 1) is invalid
    let expr = Expr::TestNegation(Expr::assign(0, true));
    assert!(desugar(&expr).is_err());

    // !dup is invalid
    let expr = Expr::TestNegation(Expr::dup());
    assert!(desugar(&expr).is_err());

    // !(e*) is invalid
    let expr = Expr::TestNegation(Expr::star(Expr::zero()));
    assert!(desugar(&expr).is_err());
}

#[test]
fn test_desugar_double_negation() {
    // !!e = e
    let e = Expr::test(0, true);
    let expr = Expr::TestNegation(Expr::test_negation(e.clone()));
    assert_eq!(desugar(&expr).unwrap(), e);
}

#[test]
fn test_desugar_if_then_else() {
    // if (x0 == 1) then (x1 := 1) else (x1 := 0)
    // Should become: (x0 == 1 ; x1 := 1) + (x0 == 0 ; x1 := 0)
    let cond = Expr::test(0, true);
    let then_expr = Expr::assign(1, true);
    let else_expr = Expr::assign(1, false);
    let if_expr = Expr::if_then_else(cond.clone(), then_expr.clone(), else_expr.clone());

    let expected = Expr::union(
        Expr::sequence(Expr::test(0, true), Expr::assign(1, true)),
        Expr::sequence(Expr::test(0, false), Expr::assign(1, false)),
    );

    assert_eq!(desugar(&if_expr).unwrap(), expected);
}

#[test]
fn test_desugar_if_then_else_invalid_condition() {
    // if (x0 := 1) then 1 else 0 - invalid because condition is not test fragment
    let cond = Expr::assign(0, true);
    let if_expr = Expr::if_then_else(cond, Expr::one(), Expr::zero());

    assert!(desugar(&if_expr).is_err());
}

#[test]
fn test_desugar_let_simple() {
    // let a = (x0 == 1) in a + (x1 == 0)
    // Should become: (x0 == 1) + (x1 == 0)
    let def = Expr::test(0, true);
    let body = Expr::union(Expr::var("a".to_string()), Expr::test(1, false));
    let let_expr = Expr::let_in("a".to_string(), def.clone(), body);

    let expected = Expr::union(Expr::test(0, true), Expr::test(1, false));
    assert_eq!(desugar(&let_expr).unwrap(), expected);
}

#[test]
fn test_desugar_let_nested() {
    // let a = (x0 == 1) in let b = (x1 == 0) in a + b
    // Should become: (x0 == 1) + (x1 == 0)
    let a_def = Expr::test(0, true);
    let b_def = Expr::test(1, false);
    let inner_body = Expr::union(Expr::var("a".to_string()), Expr::var("b".to_string()));
    let inner_let = Expr::let_in("b".to_string(), b_def, inner_body);
    let outer_let = Expr::let_in("a".to_string(), a_def, inner_let);

    let expected = Expr::union(Expr::test(0, true), Expr::test(1, false));
    assert_eq!(desugar(&outer_let).unwrap(), expected);
}

#[test]
fn test_desugar_let_shadowing() {
    // let a = (x0 == 1) in let a = (x1 == 0) in a
    // Should become: (x1 == 0) (inner a shadows outer a)
    let outer_def = Expr::test(0, true);
    let inner_def = Expr::test(1, false);
    let body = Expr::var("a".to_string());
    let inner_let = Expr::let_in("a".to_string(), inner_def.clone(), body);
    let outer_let = Expr::let_in("a".to_string(), outer_def, inner_let);

    let expected = Expr::test(1, false);
    assert_eq!(desugar(&outer_let).unwrap(), expected);
}

#[test]
fn test_desugar_unbound_variable() {
    // Just a variable with no binding
    let var_expr = Expr::var("unbound".to_string());
    assert!(desugar(&var_expr).is_err());
}

#[test]
fn test_desugar_let_with_complex_expr() {
    // let p = (x0 == 1 ; x1 := 0) in p + p*
    let def = Expr::sequence(Expr::test(0, true), Expr::assign(1, false));
    let body = Expr::union(
        Expr::var("p".to_string()),
        Expr::star(Expr::var("p".to_string())),
    );
    let let_expr = Expr::let_in("p".to_string(), def.clone(), body);

    let expected = Expr::union(
        Expr::sequence(Expr::test(0, true), Expr::assign(1, false)),
        Expr::star(Expr::sequence(Expr::test(0, true), Expr::assign(1, false))),
    );
    assert_eq!(desugar(&let_expr).unwrap(), expected);
}

#[test]
fn test_bit_range_assign() {
    // x[0..3] := 5 (binary: 101)
    let expr = Expr::bit_range_assign(0, 3, vec![true, false, true]);
    let expected = Expr::sequence(
        Expr::assign(0, true),
        Expr::sequence(Expr::assign(1, false), Expr::assign(2, true)),
    );
    assert_eq!(desugar(&expr).unwrap(), expected);
}

#[test]
fn test_bit_range_test() {
    // x[2..5] == 6 (binary: 110)
    let expr = Expr::bit_range_test(2, 5, vec![false, true, true]);
    let expected = Expr::intersect(
        Expr::test(2, false),
        Expr::intersect(Expr::test(3, true), Expr::test(4, true)),
    );
    assert_eq!(desugar(&expr).unwrap(), expected);
}

#[test]
fn test_bit_range_empty() {
    // Empty ranges should desugar to 1
    let assign = Expr::bit_range_assign(5, 5, vec![]);
    assert_eq!(desugar(&assign).unwrap(), Expr::one());

    let test = Expr::bit_range_test(5, 5, vec![]);
    assert_eq!(desugar(&test).unwrap(), Expr::one());
}

#[test]
fn test_bit_range_single() {
    // Single bit ranges
    let assign = Expr::bit_range_assign(10, 11, vec![true]);
    assert_eq!(desugar(&assign).unwrap(), Expr::assign(10, true));

    let test = Expr::bit_range_test(10, 11, vec![false]);
    assert_eq!(desugar(&test).unwrap(), Expr::test(10, false));
}

#[test]
fn test_bit_range_alias() {
    // Test basic bit range alias: let ip = x[0..32] in ip := 192.168.1.1
    let ip_bits = vec![
        true, false, false, false, false, false, false, false, // 1
        true, false, false, false, false, false, false, false, // 1
        true, false, true, false, true, false, false, false, // 168
        true, true, false, false, false, false, false, false,
    ]; // 192

    let alias_expr = Expr::let_bit_range(
        "ip".to_string(),
        0,  // start
        32, // end
        Expr::var_assign("ip".to_string(), ip_bits.clone()),
    );

    let result = desugar(&alias_expr).unwrap();
    // Expected: sequence of individual assignments for bits 0-31
    let expected = desugar_bit_range_assign(0, 32, &ip_bits).unwrap();
    assert_eq!(result, expected);
}

#[test]
fn test_bit_range_alias_test() {
    // Test bit range alias test: let port = x[32..48] in port == 80
    let port_bits = vec![
        false, false, false, false, true, false, true, false, // 80 in little-endian
        false, false, false, false, false, false, false, false,
    ];

    let alias_expr = Expr::let_bit_range(
        "port".to_string(),
        32, // start
        48, // end
        Expr::var_test("port".to_string(), port_bits.clone()),
    );

    let result = desugar(&alias_expr).unwrap();
    // Expected: conjunction of individual tests for bits 32-47
    let expected = desugar_bit_range_test(32, 48, &port_bits).unwrap();
    assert_eq!(result, expected);
}

#[test]
fn test_nested_bit_range_aliases() {
    // Test nested bit range aliases:
    // let header = x[0..64] in
    //   let src = x[0..32] in
    //     let dst = x[32..64] in
    //       src := 10.0.0.1 ; dst := 10.0.0.2

    let src_bits = vec![
        true, false, false, false, false, false, false, false, // 1
        false, false, false, false, false, false, false, false, // 0
        false, false, false, false, false, false, false, false, // 0
        false, true, false, true, false, false, false, false,
    ]; // 10

    let dst_bits = vec![
        false, true, false, false, false, false, false, false, // 2
        false, false, false, false, false, false, false, false, // 0
        false, false, false, false, false, false, false, false, // 0
        false, true, false, true, false, false, false, false,
    ]; // 10

    let inner_body = Expr::sequence(
        Expr::var_assign("src".to_string(), src_bits.clone()),
        Expr::var_assign("dst".to_string(), dst_bits.clone()),
    );

    let expr = Expr::let_bit_range(
        "header".to_string(),
        0,
        64,
        Expr::let_bit_range(
            "src".to_string(),
            0,
            32,
            Expr::let_bit_range("dst".to_string(), 32, 64, inner_body),
        ),
    );

    let result = desugar(&expr).unwrap();
    // Expected: sequence of desugared bit range assignments
    let expected = Expr::sequence(
        desugar_bit_range_assign(0, 32, &src_bits).unwrap(),
        desugar_bit_range_assign(32, 64, &dst_bits).unwrap(),
    );
    assert_eq!(result, expected);
}

#[test]
fn test_mixed_let_and_alias() {
    // Test mixing regular let and bit range alias:
    // let config = (x0 := 1) in
    //   let ip = x[0..32] in
    //     config ; ip := 192.168.1.1

    let ip_bits = vec![
        true, false, false, false, false, false, false, false, // 1
        true, false, false, false, false, false, false, false, // 1
        true, false, true, false, true, false, false, false, // 168
        true, true, false, false, false, false, false, false,
    ]; // 192

    let config_expr = Expr::assign(0, true);

    let expr = Expr::let_in(
        "config".to_string(),
        config_expr.clone(),
        Expr::let_bit_range(
            "ip".to_string(),
            0,
            32,
            Expr::sequence(
                Expr::var("config".to_string()),
                Expr::var_assign("ip".to_string(), ip_bits.clone()),
            ),
        ),
    );

    let result = desugar(&expr).unwrap();
    // Expected: sequence with desugared bit range assignment
    let expected = Expr::sequence(
        Expr::assign(0, true),
        desugar_bit_range_assign(0, 32, &ip_bits).unwrap(),
    );
    assert_eq!(result, expected);
}

#[test]
fn test_alias_shadowing() {
    // Test that inner aliases can shadow outer ones:
    // let ip = x[0..32] in
    //   let ip = x[32..64] in
    //     ip := 10.0.0.1

    let ip_bits = vec![
        true, false, false, false, false, false, false, false, // 1
        false, false, false, false, false, false, false, false, // 0
        false, false, false, false, false, false, false, false, // 0
        false, true, false, true, false, false, false, false,
    ]; // 10

    let expr = Expr::let_bit_range(
        "ip".to_string(),
        0,
        32,
        Expr::let_bit_range(
            "ip".to_string(),
            32,
            64,
            Expr::var_assign("ip".to_string(), ip_bits.clone()),
        ),
    );

    let result = desugar(&expr).unwrap();
    // Expected: desugared bit range assignment for the inner binding
    let expected = desugar_bit_range_assign(32, 64, &ip_bits).unwrap(); // Uses the inner binding
    assert_eq!(result, expected);
}

#[test]
fn test_variable_shadowing_alias() {
    // Test that regular let can shadow bit range alias:
    // let ip = x[0..32] in
    //   let ip = (x1 := 1) in
    //     ip ; x2 := 1

    let expr = Expr::let_bit_range(
        "ip".to_string(),
        0,
        32,
        Expr::let_in(
            "ip".to_string(),
            Expr::assign(1, true),
            Expr::sequence(Expr::var("ip".to_string()), Expr::assign(2, true)),
        ),
    );

    let result = desugar(&expr).unwrap();
    let expected = Expr::sequence(
        Expr::assign(1, true), // Uses the regular let binding, not the alias
        Expr::assign(2, true),
    );
    assert_eq!(result, expected);
}

#[test]
fn test_complex_nested_aliases() {
    // Test a more complex scenario with multiple levels:
    // let packet = x[0..128] in
    //   let header = x[0..64] in
    //     let payload = x[64..128] in
    //       let src_ip = x[0..32] in
    //         let src_port = x[32..48] in
    //           src_ip == 10.0.0.1 & src_port == 80

    let ip_bits = vec![
        true, false, false, false, false, false, false, false, // 1
        false, false, false, false, false, false, false, false, // 0
        false, false, false, false, false, false, false, false, // 0
        false, true, false, true, false, false, false, false,
    ]; // 10

    let port_bits = vec![
        false, false, false, false, true, false, true, false, // 80
        false, false, false, false, false, false, false, false,
    ];

    let test_expr = Expr::intersect(
        Expr::var_test("src_ip".to_string(), ip_bits.clone()),
        Expr::var_test("src_port".to_string(), port_bits.clone()),
    );

    let expr = Expr::let_bit_range(
        "packet".to_string(),
        0,
        128,
        Expr::let_bit_range(
            "header".to_string(),
            0,
            64,
            Expr::let_bit_range(
                "payload".to_string(),
                64,
                128,
                Expr::let_bit_range(
                    "src_ip".to_string(),
                    0,
                    32,
                    Expr::let_bit_range("src_port".to_string(), 32, 48, test_expr),
                ),
            ),
        ),
    );

    let result = desugar(&expr).unwrap();
    // Expected: intersection of desugared bit range tests
    let expected = Expr::intersect(
        desugar_bit_range_test(0, 32, &ip_bits).unwrap(),
        desugar_bit_range_test(32, 48, &port_bits).unwrap(),
    );
    assert_eq!(result, expected);
}

#[test]
fn test_let_with_alias_in_definition() {
    // Test using an alias in a regular let definition:
    // let ip = x[0..32] in
    //   let is_local = (ip == 10.0.0.1) in
    //     is_local + (ip := 10.0.0.2)

    let ip1_bits = vec![
        true, false, false, false, false, false, false, false, // 1
        false, false, false, false, false, false, false, false, // 0
        false, false, false, false, false, false, false, false, // 0
        false, true, false, true, false, false, false, false,
    ]; // 10

    let ip2_bits = vec![
        false, true, false, false, false, false, false, false, // 2
        false, false, false, false, false, false, false, false, // 0
        false, false, false, false, false, false, false, false, // 0
        false, true, false, true, false, false, false, false,
    ]; // 10

    let expr = Expr::let_bit_range(
        "ip".to_string(),
        0,
        32,
        Expr::let_in(
            "is_local".to_string(),
            Expr::var_test("ip".to_string(), ip1_bits.clone()),
            Expr::union(
                Expr::var("is_local".to_string()),
                Expr::var_assign("ip".to_string(), ip2_bits.clone()),
            ),
        ),
    );

    let result = desugar(&expr).unwrap();
    // Expected: union of desugared operations
    let expected = Expr::union(
        desugar_bit_range_test(0, 32, &ip1_bits).unwrap(),
        desugar_bit_range_assign(0, 32, &ip2_bits).unwrap(),
    );
    assert_eq!(result, expected);
}

#[test]
fn test_multiple_aliases_same_range() {
    // Test multiple aliases pointing to the same range:
    // let src = x[0..32] in
    //   let source = x[0..32] in
    //     src == 10.0.0.1 ; source := 10.0.0.2

    let ip1_bits = vec![
        true, false, false, false, false, false, false, false, // 1
        false, false, false, false, false, false, false, false, // 0
        false, false, false, false, false, false, false, false, // 0
        false, true, false, true, false, false, false, false,
    ]; // 10

    let ip2_bits = vec![
        false, true, false, false, false, false, false, false, // 2
        false, false, false, false, false, false, false, false, // 0
        false, false, false, false, false, false, false, false, // 0
        false, true, false, true, false, false, false, false,
    ]; // 10

    let expr = Expr::let_bit_range(
        "src".to_string(),
        0,
        32,
        Expr::let_bit_range(
            "source".to_string(),
            0,
            32,
            Expr::sequence(
                Expr::var_test("src".to_string(), ip1_bits.clone()),
                Expr::var_assign("source".to_string(), ip2_bits.clone()),
            ),
        ),
    );

    let result = desugar(&expr).unwrap();
    // Expected: sequence of desugared operations
    let expected = Expr::sequence(
        desugar_bit_range_test(0, 32, &ip1_bits).unwrap(),
        desugar_bit_range_assign(0, 32, &ip2_bits).unwrap(),
    );
    assert_eq!(result, expected);
}

#[test]
fn test_end_to_end_alias_parsing_and_desugaring() {
    // Test that parsing and desugaring work together correctly
    // Parse: "let ip = &x[0..32] in ip == 192.168.1.1"

    let parsed = parse_expressions("let ip = &x[0..32] in ip ~ 192.168.1.1").unwrap();
    assert_eq!(parsed.len(), 1);
    let expr = &parsed[0];

    // Desugar the parsed expression
    let desugared = desugar(expr).unwrap();

    // Expected: desugared bit range test for x[0..32] == 192.168.1.1
    let ip_num = 0xC0A80101u32; // 192.168.1.1 in hex
    // Generate LSB-first order to match ip_to_bits
    let ip_bits: Vec<bool> = (0..32).map(|i| (ip_num >> i) & 1 == 1).collect();
    let expected = desugar_bit_range_test(0, 32, &ip_bits).unwrap();

    assert_eq!(desugared, expected);
}

#[test]
fn test_end_to_end_simple_byte_alias() {

    // Test: "let byte = &x[0..8] in byte ~ 181"  // 181 = 0b10110101
    let parsed = parse_expressions("let byte = &x[0..8] in byte ~ 181").unwrap();
    assert_eq!(parsed.len(), 1);

    let desugared = desugar(&parsed[0]).unwrap();

    // Expected: desugared bit range test for x[0..8] == 181 (0b10110101)
    let bits = vec![true, false, true, false, true, true, false, true]; // LSB first
    let expected = desugar_bit_range_test(0, 8, &bits).unwrap();

    assert_eq!(desugared, expected);
}

#[test]
fn test_end_to_end_nibble_operations() {

    // Test: "let nibble = &x[4..8] in nibble := 10"  // 10 = 0b1010
    let parsed = parse_expressions("let nibble = &x[4..8] in nibble := 10").unwrap();
    assert_eq!(parsed.len(), 1);

    let desugared = desugar(&parsed[0]).unwrap();

    // Expected: desugared bit range assignment for x[4..8] := 10 (0b1010)
    let bits = vec![false, true, false, true]; // LSB first
    let expected = desugar_bit_range_assign(4, 8, &bits).unwrap();

    assert_eq!(desugared, expected);
}

#[test]
fn test_end_to_end_nested_aliases() {

    // Test: "let word = &x[0..16] in let high = &x[8..16] in high ~ 0xFF"
    let parsed =
        parse_expressions("let word = &x[0..16] in let high = &x[8..16] in high ~ 0xFF")
            .unwrap();
    assert_eq!(parsed.len(), 1);

    let desugared = desugar(&parsed[0]).unwrap();

    // Expected: desugared bit range test for x[8..16] == 0xFF (high byte of word)
    let bits = vec![true; 8]; // All 1s for 0xFF
    let expected = desugar_bit_range_test(8, 16, &bits).unwrap();

    assert_eq!(desugared, expected);
}

#[test]
fn test_end_to_end_mixed_operations() {

    // Test: "let a = &x[0..4] in let b = &x[4..8] in (a ~ 0xF) & (b := 0x0)"
    let parsed =
        parse_expressions("let a = &x[0..4] in let b = &x[4..8] in (a ~ 0xF) & (b := 0x0)")
            .unwrap();
    assert_eq!(parsed.len(), 1);

    let desugared = desugar(&parsed[0]).unwrap();

    // Expected: desugared operations for (x[0..4] == 0xF) & (x[4..8] := 0x0)
    let test_bits = vec![true, true, true, true]; // 0xF
    let assign_bits = vec![false, false, false, false]; // 0x0
    let expected = Expr::intersect(
        desugar_bit_range_test(0, 4, &test_bits).unwrap(),
        desugar_bit_range_assign(4, 8, &assign_bits).unwrap(),
    );

    assert_eq!(desugared, expected);
}

#[test]
fn test_end_to_end_alias_in_sequence() {

    // Test: "let flag = &x[0..1] in flag ~ 1 ; flag := 0"
    let parsed = parse_expressions("let flag = &x[0..1] in flag ~ 1 ; flag := 0").unwrap();
    assert_eq!(parsed.len(), 1);

    let desugared = desugar(&parsed[0]).unwrap();

    // Expected: desugared sequence for (x[0..1] == 1) ; (x[0..1] := 0)
    let expected = Expr::sequence(
        desugar_bit_range_test(0, 1, &vec![true]).unwrap(),
        desugar_bit_range_assign(0, 1, &vec![false]).unwrap(),
    );

    assert_eq!(desugared, expected);
}

#[test]
fn test_end_to_end_alias_with_regular_let() {

    // Test: "let y = 1 in let bits = &x[0..3] in y ; bits ~ 5"  // 5 = 0b101
    let parsed = parse_expressions("let y = 1 in let bits = &x[0..3] in y ; bits ~ 5").unwrap();
    assert_eq!(parsed.len(), 1);

    let desugared = desugar(&parsed[0]).unwrap();

    // Expected: 1 ; desugared bit range test for x[0..3] == 5 (0b101)
    let bits = vec![true, false, true]; // LSB first
    let expected = Expr::sequence(Expr::one(), desugar_bit_range_test(0, 3, &bits).unwrap());

    assert_eq!(desugared, expected);
}

#[test]
fn test_end_to_end_complex_alias_expression() {

    // Test: "let ctrl = &x[0..8] in (ctrl ~ 0x80) + (ctrl ~ 0x81)"
    let parsed =
        parse_expressions("let ctrl = &x[0..8] in (ctrl ~ 0x80) + (ctrl ~ 0x81)").unwrap();
    assert_eq!(parsed.len(), 1);

    let desugared = desugar(&parsed[0]).unwrap();

    // Expected: desugared union for (x[0..8] == 0x80) + (x[0..8] == 0x81)
    let bits_80 = vec![false, false, false, false, false, false, false, true]; // 0x80 = 10000000
    let bits_81 = vec![true, false, false, false, false, false, false, true]; // 0x81 = 10000001
    let expected = Expr::union(
        desugar_bit_range_test(0, 8, &bits_80).unwrap(),
        desugar_bit_range_test(0, 8, &bits_81).unwrap(),
    );

    assert_eq!(desugared, expected);
}

#[test]
fn test_end_to_end_shadowing() {

    // Test: "let v = &x[0..4] in let v = &x[4..8] in v ~ 0xA"
    let parsed = parse_expressions("let v = &x[0..4] in let v = &x[4..8] in v ~ 0xA").unwrap();
    assert_eq!(parsed.len(), 1);

    let desugared = desugar(&parsed[0]).unwrap();

    // Expected: desugared bit range test for x[4..8] == 0xA (second binding shadows first)
    let bits = vec![false, true, false, true]; // 0xA = 1010
    let expected = desugar_bit_range_test(4, 8, &bits).unwrap();

    assert_eq!(desugared, expected);
}

#[test]
fn test_end_to_end_alias_overflow_assignment() {

    // Test: "let nibble = &x[0..4] in nibble := 16"  // 16 needs 5 bits, doesn't fit in 4
    let parsed = parse_expressions("let nibble = &x[0..4] in nibble := 16").unwrap();
    assert_eq!(parsed.len(), 1);

    let result = desugar(&parsed[0]);
    assert!(result.is_err());
    let err = result.unwrap_err();
    assert!(err.message.contains("Bit width mismatch"));
    assert!(
        err.message
            .contains("value has 5 bits but alias 'nibble' expects 4 bits")
    );
}

#[test]
fn test_end_to_end_alias_overflow_test() {

    // Test: "let byte = &x[0..8] in byte ~ 256"  // 256 needs 9 bits, doesn't fit in 8
    let parsed = parse_expressions("let byte = &x[0..8] in byte ~ 256").unwrap();
    assert_eq!(parsed.len(), 1);

    let result = desugar(&parsed[0]);
    assert!(result.is_err());
    let err = result.unwrap_err();
    assert!(err.message.contains("9 bits"));
}

#[test]
fn test_end_to_end_alias_exact_fit() {

    // Test: "let nibble = &x[0..4] in nibble := 15"  // 15 = max value for 4 bits
    let parsed = parse_expressions("let nibble = &x[0..4] in nibble := 15").unwrap();
    assert_eq!(parsed.len(), 1);

    let desugared = desugar(&parsed[0]).unwrap();

    // Expected: desugared bit range assignment for x[0..4] := 15 (0b1111)
    let bits = vec![true, true, true, true]; // All 1s
    let expected = desugar_bit_range_assign(0, 4, &bits).unwrap();

    assert_eq!(desugared, expected);
}

#[test]
fn test_end_to_end_binary_literal_exact_match() {

    // Test: Binary literal with exact bit width match
    let parsed = parse_expressions("let nibble = &x[0..4] in nibble := 0b1010").unwrap();
    assert_eq!(parsed.len(), 1);

    let desugared = desugar(&parsed[0]).unwrap();

    // Expected: desugared bit range assignment for x[0..4] := 0b1010
    let bits = vec![false, true, false, true]; // LSB first
    let expected = desugar_bit_range_assign(0, 4, &bits).unwrap();

    assert_eq!(desugared, expected);
}

#[test]
fn test_end_to_end_binary_literal_width_mismatch() {

    // Test: Binary literal with 8 bits assigned to 4-bit alias
    let parsed = parse_expressions("let nibble = &x[0..4] in nibble := 0b00001010").unwrap();
    assert_eq!(parsed.len(), 1);

    let result = desugar(&parsed[0]);
    assert!(result.is_err());
    let err = result.unwrap_err();
    assert!(err.message.contains("Bit width mismatch"));
    assert!(
        err.message
            .contains("value has 8 bits but alias 'nibble' expects 4 bits")
    );
}

#[test]
fn test_end_to_end_hex_literal_exact_match() {

    // Test: Hex literal with exact bit width match (1 hex digit = 4 bits)
    let parsed = parse_expressions("let nibble = &x[0..4] in nibble := 0xA").unwrap();
    assert_eq!(parsed.len(), 1);

    let desugared = desugar(&parsed[0]).unwrap();

    // Expected: desugared bit range assignment for x[0..4] := 0xA
    let bits = vec![false, true, false, true]; // LSB first
    let expected = desugar_bit_range_assign(0, 4, &bits).unwrap();

    assert_eq!(desugared, expected);
}

#[test]
fn test_end_to_end_hex_literal_width_mismatch() {

    // Test: Hex literal with 8 bits (2 hex digits) assigned to 4-bit alias
    let parsed = parse_expressions("let nibble = &x[0..4] in nibble := 0x0A").unwrap();
    assert_eq!(parsed.len(), 1);

    let result = desugar(&parsed[0]);
    assert!(result.is_err());
    let err = result.unwrap_err();
    assert!(err.message.contains("Bit width mismatch"));
    assert!(
        err.message
            .contains("value has 8 bits but alias 'nibble' expects 4 bits")
    );
}

#[test]
fn test_end_to_end_decimal_expansion() {

    // Test: Decimal literal expanded to fit alias width
    let parsed = parse_expressions("let byte = &x[0..8] in byte := 10").unwrap();
    assert_eq!(parsed.len(), 1);

    let desugared = desugar(&parsed[0]).unwrap();

    // Expected: desugared bit range assignment for x[0..8] := 10 (expanded from 4 bits to 8 bits)
    let bits = vec![false, true, false, true, false, false, false, false]; // 0b00001010
    let expected = desugar_bit_range_assign(0, 8, &bits).unwrap();

    assert_eq!(desugared, expected);
}

#[test]
fn test_end_to_end_literal_expansion_current_behavior() {

    // NOTE: Current implementation allows ALL literals to expand with leading zeros
    // This is a limitation because we don't track literal source in the AST

    // Binary literal CAN expand (ideally shouldn't, but current implementation allows it)
    let parsed = parse_expressions("let byte = &x[0..8] in byte := 0b1010").unwrap();
    let result = desugar(&parsed[0]);
    assert!(result.is_ok()); // Currently succeeds
    let desugared = result.unwrap();
    let expected_bits = vec![false, true, false, true, false, false, false, false];
    assert_eq!(
        desugared,
        desugar_bit_range_assign(0, 8, &expected_bits).unwrap()
    );

    // Hex literal CAN expand (ideally shouldn't, but current implementation allows it)
    let parsed = parse_expressions("let byte = &x[0..8] in byte := 0xA").unwrap();
    let result = desugar(&parsed[0]);
    assert!(result.is_ok()); // Currently succeeds

    // Decimal literal CAN expand (this is desired behavior)
    let parsed = parse_expressions("let byte = &x[0..8] in byte := 10").unwrap();
    let result = desugar(&parsed[0]);
    assert!(result.is_ok());
}

#[test]
fn test_end_to_end_literal_width_validation() {

    // Values that exceed the bit width are always rejected

    // Binary literal that doesn't fit
    let parsed = parse_expressions("let nibble = &x[0..4] in nibble := 0b10000").unwrap();
    let result = desugar(&parsed[0]);
    assert!(result.is_err());
    assert!(
        result
            .unwrap_err()
            .message
            .contains("value has 5 bits but alias 'nibble' expects 4 bits")
    );

    // Hex literal that doesn't fit
    let parsed = parse_expressions("let nibble = &x[0..4] in nibble := 0x10").unwrap();
    let result = desugar(&parsed[0]);
    assert!(result.is_err());
    assert!(
        result
            .unwrap_err()
            .message
            .contains("value has 8 bits but alias 'nibble' expects 4 bits")
    );

    // Decimal literal that doesn't fit
    let parsed = parse_expressions("let nibble = &x[0..4] in nibble := 16").unwrap();
    let result = desugar(&parsed[0]);
    assert!(result.is_err());
    assert!(
        result
            .unwrap_err()
            .message
            .contains("value has 5 bits but alias 'nibble' expects 4 bits")
    );
}

#[test]
fn test_large_range_without_efficient_bounds_would_fail() {
    // This test verifies that large ranges would fail without efficient bounds
    // by checking that we properly limit enumeration to 256 addresses

    // A range with exactly 256 addresses should work with enumeration
    let parsed = parse_expressions("x[0..32] ~ 10.0.0.0-10.0.0.255").unwrap();
    let result = desugar(&parsed[0]);
    assert!(result.is_ok(), "256 address range should work");

    // Note: We can't easily test that >256 would fail with enumeration
    // because we're always using efficient bounds now. But the limit is
    // there in the code as a safety measure.
}

#[test]
fn test_efficient_ip_range_matching() {
    // Test that IP range matching uses efficient bound tests
    // Range: 10.0.0.5 - 10.0.0.10
    let parsed = parse_expressions("x[0..32] ~ 10.0.0.5-10.0.0.10").unwrap();
    let result = desugar(&parsed[0]).unwrap();

    // The result should be an intersection of lower and upper bound tests
    // We can't easily test the exact structure, but we can verify:
    // 1. It compiles and runs
    // 2. It doesn't expand to a huge disjunction

    // Count the number of Union nodes in the expression
    fn count_unions(expr: &Expr) -> usize {
        match expr {
            Expr::Union(e1, e2) => 1 + count_unions(e1) + count_unions(e2),
            Expr::Intersect(e1, e2) => count_unions(e1) + count_unions(e2),
            Expr::Sequence(e1, e2) => count_unions(e1) + count_unions(e2),
            Expr::Star(e) => count_unions(e),
            Expr::TestNegation(e) => count_unions(e),
            _ => 0,
        }
    }

    // The efficient algorithm generates at most k terms where k is the number
    // of 1-bits in the bound. For the range 10.0.0.5-10.0.0.10:
    // Lower bound has ~28 0-bits, upper bound has ~4 1-bits
    // So we expect around 32 unions in total for both bounds
    let union_count = count_unions(&result);
    // If we had enumerated all 6 addresses, we'd have 5 unions
    // Our efficient algorithm uses more unions but handles arbitrarily large ranges
    assert!(
        union_count <= 64,
        "Too many unions: {}, expression might not be using efficient bounds",
        union_count
    );

    // Test with a power-of-2 aligned range for better efficiency
    // Range: 192.168.0.0 - 192.168.0.15 (16 addresses)
    let parsed = parse_expressions("x[0..32] ~ 192.168.0.0-192.168.0.15").unwrap();
    let result = desugar(&parsed[0]).unwrap();

    // The efficient algorithm uses O(bits) unions, not O(addresses)
    // So we expect around 32-64 unions maximum for any 32-bit range
    let union_count = count_unions(&result);
    println!("Union count for 192.168.0.0-192.168.0.15: {}", union_count);
    assert!(
        union_count <= 64,
        "Too many unions for aligned range: {}",
        union_count
    );

    // Test that we don't enumerate a large range
    // If we tried to enumerate 192.168.1.0-192.168.1.255, we'd fail with "too many"
    // But with efficient bounds, it should work
    let parsed = parse_expressions("x[0..32] ~ 192.168.1.0-192.168.1.255").unwrap();
    let result = desugar(&parsed[0]);
    assert!(result.is_ok(), "Should handle large ranges efficiently");
}


// ---- scopes with sugar ---------------------------------------------------------

#[test]
fn bound_expressions_are_negated_with_their_sugar() {
    let mut env = DesugarEnv::new();
    env.add_variable("n".to_string(), Expr::test_negation(Expr::test(0, true)));
    env.add_variable("r".to_string(), Expr::bit_range_test(0, 2, vec![true, false]));
    env.add_variable("t".to_string(), Expr::var_test("a".to_string(), vec![true]));
    let not = |x: &str| Expr::test_negation(Expr::var(x.to_string()));
    assert_eq!(
        desugar_with_env(&Expr::var("n".to_string()), &env).unwrap(),
        Expr::test_negation(Expr::test(0, true))
    );
    assert_eq!(desugar_with_env(&not("n"), &env).unwrap(), Expr::test(0, true));
    assert_eq!(
        desugar_with_env(&not("r"), &env).unwrap(),
        Expr::union(Expr::test(0, false), Expr::test(1, true))
    );
    assert_eq!(
        desugar_with_env(&not("t"), &env).unwrap_err().message,
        "Cannot negate test with variable 'a' - variables must be resolved before negation"
    );
    let choice = Expr::test_negation(Expr::xor(
        Expr::var("n".to_string()),
        Expr::difference(Expr::one(), Expr::var("n".to_string())),
    ));
    let neg = || Expr::test(0, false);
    assert_eq!(
        desugar_with_env(&choice, &env).unwrap(),
        Expr::union(
            Expr::intersect(
                Expr::test(0, true),
                Expr::union(Expr::zero(), neg()),
            ),
            Expr::intersect(neg(), Expr::difference(Expr::one(), neg())),
        )
    );
}
