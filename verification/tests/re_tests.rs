use std::collections::BTreeMap;
use std::sync::Arc;

use path_reduction::re::RegExp::{Epsilon, Literal, Var};
use path_reduction::re::{ParseErr, RegExp, Val};

fn arc(r: RegExp) -> Arc<RegExp> {
    Arc::new(r)
}

fn lit(c: i32) -> Arc<RegExp> {
    Arc::new(RegExp::literal(c))
}

// 1(21)*3, built from the variants
fn one_two_one_star_three() -> RegExp {
    RegExp::Concat(
        arc(RegExp::Literal(1)),
        arc(RegExp::Concat(
            arc(RegExp::Star(arc(RegExp::Concat(arc(RegExp::Literal(2)), arc(RegExp::Literal(1)))))),
            arc(RegExp::Literal(3)),
        )),
    )
}

// (12)*(13), built with the constructors
fn one_two_star_one_three() -> Arc<RegExp> {
    RegExp::concat(
        arc(RegExp::star(RegExp::concat(lit(1), lit(2)))),
        RegExp::concat(lit(1), lit(3)),
    )
}

#[test]
fn re_test1() {
    let re = one_two_one_star_three();
    let s = vec![1, 2, 1, 2, 1, 2, 1, 3];
    let (v, _) = re.parse_inf(&s, &BTreeMap::new()).unwrap();
    let k = 2;
    let reduced = v.reduce(k);
    assert!(reduced == vec![1, 2, 1, 2, 1, 3]);
}

#[test]
fn re_test1_() {
    let re = one_two_one_star_three();
    let s = vec![1, 2, 1, 2, 1, 2, 1, 3];
    let k = 2;
    let (v, _) = re
        .parse_k(&s, &BTreeMap::new(), &BTreeMap::new(), k)
        .unwrap();
    let reduced = v.into_vec();
    assert!(reduced == vec![1, 2, 1, 2, 1, 3]);
}

#[test]
fn re_test2() {
    let re = one_two_star_one_three();
    let s = vec![1, 2, 1, 2, 1, 2, 1, 3];
    let (v, _) = re.parse_inf(&s, &BTreeMap::new()).unwrap();
    let k = 2;
    let reduced = v.reduce(k);
    assert!(reduced == vec![1, 2, 1, 2, 1, 3]);
}

#[test]
fn re_test2_() {
    let re = one_two_star_one_three();
    let s = vec![1, 2, 1, 2, 1, 2, 1, 3];
    let k = 2;
    let (v, _) = re.parse_k(&s, &BTreeMap::new(), &BTreeMap::new(), k).unwrap();
    let reduced = v.into_vec();
    assert!(reduced == vec![1, 2, 1, 2, 1, 3]);
}

#[test]
fn re_test3() {
    let re = RegExp::alter(
        RegExp::concat(
            RegExp::concat(RegExp::concat(arc(Literal(9)), arc(Epsilon)), arc(Literal(11))),
            RegExp::concat(
                arc(Literal(13)),
                RegExp::concat(
                    arc(Epsilon),
                    RegExp::concat(
                        arc(Literal(15)),
                        RegExp::alter(
                            RegExp::concat(arc(Literal(16)), arc(Literal(27))),
                            RegExp::concat(
                                arc(Literal(17)),
                                RegExp::concat(
                                    arc(Literal(18)),
                                    RegExp::concat(
                                        arc(Literal(22)),
                                        RegExp::concat(
                                            arc(Var(0)),
                                            RegExp::concat(
                                                arc(Literal(24)),
                                                RegExp::concat(
                                                    arc(Epsilon),
                                                    RegExp::concat(arc(Literal(26)), arc(Literal(27))),
                                                ),
                                            ),
                                        ),
                                    ),
                                ),
                            ),
                        ),
                    ),
                ),
            ),
        ),
        RegExp::concat(
            RegExp::concat(
                RegExp::concat(RegExp::concat(arc(Literal(9)), arc(Epsilon)), arc(Literal(11))),
                arc(Literal(12)),
            ),
            arc(Literal(27)),
        ),
    );
    let re0 = RegExp::alter(
        RegExp::alter(
            RegExp::concat(
                RegExp::concat(arc(RegExp::Literal(0)), arc(RegExp::Literal(2))),
                arc(RegExp::Literal(8)),
            ),
            RegExp::concat(
                RegExp::concat(arc(RegExp::Literal(0)), arc(RegExp::Literal(1))),
                RegExp::concat(arc(RegExp::Literal(2)), arc(RegExp::Literal(8))),
            ),
        ),
        RegExp::concat(
            RegExp::alter(
                RegExp::concat(
                    RegExp::concat(arc(RegExp::Literal(0)), arc(RegExp::Literal(2))),
                    arc(RegExp::Literal(3)),
                ),
                RegExp::concat(
                    RegExp::concat(arc(RegExp::Literal(0)), arc(RegExp::Literal(1))),
                    RegExp::concat(arc(RegExp::Literal(2)), arc(RegExp::Literal(3))),
                ),
            ),
            RegExp::concat(arc(RegExp::Literal(7)), arc(RegExp::Literal(8))),
        ),
    );
    let path = vec![9, 11, 13, 15, 17, 18, 22, 0, 2, 3];
    let mut env = BTreeMap::new();
    env.insert(0, re0.copy());
    let res = re.parse_k(&path, &env, &BTreeMap::new(), 3);
    println!("{:?}", res);
}

#[test]
fn re_test4() {
    // f = 1(2|f)3
    let re = RegExp::Sequence(vec![
        lit(1),
        RegExp::alter(arc(RegExp::Literal(2)), arc(RegExp::Var(0))),
        lit(3),
    ]);
    let s = vec![1, 1, 1, 2, 3, 3, 3];
    let mut env = BTreeMap::new();
    env.insert(0, re.copy());
    let k = 1;
    let (v, _) = re.parse_k(&s, &env, &BTreeMap::new(), k).unwrap();
    let reduced = v.into_vec();
    assert!(reduced == vec![1, 1, 3, 3]);
}

#[test]
fn concat_drops_the_empty_side() {
    let r = RegExp::concat(arc(RegExp::Epsilon), lit(4));
    assert!(r.equals(&RegExp::Literal(4)));
    let r = RegExp::concat(lit(4), arc(RegExp::Epsilon));
    assert!(r.equals(&RegExp::Literal(4)));
    let r = RegExp::concat(lit(4), lit(5));
    assert!(r.equals(&RegExp::Concat(lit(4), lit(5))));
}

#[test]
fn alter_merges_equal_sides() {
    let r = RegExp::alter(lit(4), lit(4));
    assert!(r.equals(&RegExp::Literal(4)));
    let r = RegExp::alter(lit(4), lit(5));
    assert!(r.equals(&RegExp::Alter(lit(4), lit(5))));
    assert!(!r.equals(&RegExp::Alter(lit(5), lit(4))));
}

#[test]
fn alter_prefix_acc_moves_the_common_front() {
    // 1 2 3 | 1 2 4: the prefix 1 2 moves out
    let a = RegExp::concat(RegExp::concat(lit(1), lit(2)), lit(3));
    let b = RegExp::concat(RegExp::concat(lit(1), lit(2)), lit(4));
    let (p, x, y) = RegExp::alter_prefix_acc(arc(RegExp::Epsilon), a, b);
    assert!(p.equals(&RegExp::Concat(lit(1), lit(2))));
    assert!(x.equals(&RegExp::Literal(3)));
    assert!(y.equals(&RegExp::Literal(4)));
}

#[test]
fn alter_post_acc_moves_the_common_back() {
    // 3 1 2 | 4 1 2: the suffix 1 2 moves out
    let a = RegExp::concat(lit(3), RegExp::concat(lit(1), lit(2)));
    let b = RegExp::concat(lit(4), RegExp::concat(lit(1), lit(2)));
    let (x, y, p) = RegExp::alter_post_acc(a, b, arc(RegExp::Epsilon));
    assert!(x.equals(&RegExp::Literal(3)));
    assert!(y.equals(&RegExp::Literal(4)));
    assert!(p.equals(&RegExp::Concat(lit(1), lit(2))));
}

#[test]
fn first_block_of_expressions() {
    assert_eq!(RegExp::literal(7).first(), 7);
    assert_eq!(RegExp::Epsilon.first_opt(), None);
    let r = RegExp::concat(arc(RegExp::star(lit(3))), lit(5));
    assert_eq!(r.first(), 3);
    let r = RegExp::alter(lit(8), lit(9));
    assert_eq!(r.first_opt(), Some(8));
    assert_eq!(RegExp::Literals(vec![6, 2]).first(), 6);
    RegExp::Concat(lit(1), lit(2)).size();
}

#[test]
fn copy_is_equal() {
    let r = one_two_star_one_three();
    let c = r.copy();
    assert!(c.equals(&r));
    assert!(RegExp::var(3).equals(&RegExp::Var(3)));
    assert!(!RegExp::var(3).equals(&RegExp::Var(4)));
}

#[test]
fn parse_k_keeps_at_most_k_rounds() {
    // (12)* 3 with five rounds, k = 3
    let re = RegExp::Concat(arc(RegExp::star(RegExp::concat(lit(1), lit(2)))), lit(3));
    let s = vec![1, 2, 1, 2, 1, 2, 1, 2, 1, 2, 3, 9];
    let (v, rest) = re.parse_k(&s, &BTreeMap::new(), &BTreeMap::new(), 3).unwrap();
    assert_eq!(rest, &[9]);
    assert_eq!(v.into_vec(), vec![1, 2, 1, 2, 1, 2, 3]);
}

#[test]
fn parse_k_invalid_block() {
    let re = RegExp::Concat(lit(1), lit(2));
    let s = vec![1, 5];
    match re.parse_k(&s, &BTreeMap::new(), &BTreeMap::new(), 2) {
        Err(ParseErr::Invalid(m)) => assert_eq!(m, "expected 2 found 5"),
        other => panic!("unexpected {:?}", other),
    }
}

#[test]
fn parse_k_aborts_at_the_end_of_the_path() {
    let re = RegExp::Concat(lit(1), RegExp::concat(lit(2), lit(3)));
    let s = vec![1, 2];
    match re.parse_k(&s, &BTreeMap::new(), &BTreeMap::new(), 2) {
        Err(ParseErr::Abort(v)) => assert_eq!(v.into_vec(), vec![1, 2]),
        other => panic!("unexpected {:?}", other),
    }
}

#[test]
fn parse_k_enters_a_call_by_its_first_block() {
    // main = 1 2, f = 7 8; the path calls f between 1 and 2
    let main = RegExp::Concat(lit(1), lit(2));
    let mut env = BTreeMap::new();
    env.insert(10, RegExp::Concat(lit(7), lit(8)));
    let mut firsts = BTreeMap::new();
    firsts.insert(7, 10);
    let s = vec![1, 7, 8, 2];
    let (v, rest) = main.parse_k(&s, &env, &firsts, 2).unwrap();
    assert!(rest.is_empty());
    assert_eq!(v.into_vec(), vec![1, 7, 8, 2]);
}

#[test]
fn parse_inf_mismatch_is_none() {
    let re = RegExp::Concat(lit(1), lit(2));
    let s = vec![1, 3];
    assert!(re.parse_inf(&s, &BTreeMap::new()).is_none());
}

#[test]
fn val_reduce_and_into_vec() {
    let v = Val::Concat(
        Box::new(Val::Literal(1)),
        Box::new(Val::Star(vec![Val::Literal(2), Val::Literal(3), Val::Literal(4)])),
    );
    assert_eq!(v.reduce(2), vec![1, 2, 3]);
    let v = Val::Sequence(vec![Val::Literal(5), Val::Literals(vec![6, 7]), Val::Epsilon]);
    assert_eq!(v.into_vec(), vec![5, 6, 7]);
}

#[test]
fn parse_from_a_stack_at_the_bound_keeps_nothing() {
    let mut env = BTreeMap::new();
    env.insert(0, RegExp::Concat(lit(1), lit(2)));
    let re = RegExp::var(0);
    let s = vec![1, 2, 5];
    let mut stack = BTreeMap::new();
    stack.insert(0, 1usize);
    let mut matched = 0usize;
    let (v, rest) = re._parse_k(&s, &env, &BTreeMap::new(), 1, &mut stack, &mut matched).unwrap();
    assert_eq!(rest, &[5]);
    assert_eq!(v.into_vec(), Vec::<i32>::new());
    assert_eq!(stack.get(&0), Some(&1usize));
    assert_eq!(matched, 2);
    // a function entered for the first time is left on the stack at level 0
    let mut stack = BTreeMap::new();
    let mut matched = 0usize;
    let (v, _) = re._parse_k(&s, &env, &BTreeMap::new(), 1, &mut stack, &mut matched).unwrap();
    assert_eq!(v.into_vec(), vec![1, 2]);
    assert_eq!(stack.get(&0), Some(&0usize));
    assert_eq!(matched, 2);
}

#[test]
fn parse_from_a_stack_above_the_bound() {
    // a level above k is raised again on entry and put back afterwards
    let mut env = BTreeMap::new();
    env.insert(0, RegExp::Concat(lit(1), lit(2)));
    let re = RegExp::var(0);
    let s = vec![1, 2];
    let mut stack = BTreeMap::new();
    stack.insert(0, 5usize);
    let mut matched = 7usize;
    let (v, rest) = re._parse_k(&s, &env, &BTreeMap::new(), 1, &mut stack, &mut matched).unwrap();
    assert!(rest.is_empty());
    assert_eq!(v.into_vec(), vec![1, 2]);
    assert_eq!(stack.get(&0), Some(&5usize));
    assert_eq!(matched, 9);
}

#[test]
fn implicit_call_then_the_literal() {
    let mut env = BTreeMap::new();
    env.insert(0, RegExp::Concat(lit(7), lit(8)));
    let mut firsts = BTreeMap::new();
    firsts.insert(7, 0);
    let s = vec![7, 8, 5];
    let mut stack = BTreeMap::new();
    let mut matched = 0usize;
    let (v, rest) = RegExp::Literal(5)._parse_k(&s, &env, &firsts, 1, &mut stack, &mut matched).unwrap();
    assert!(rest.is_empty());
    assert!(matches!(&v, Val::Concat(a, b)
        if matches!(&**a, Val::Concat(x, y) if matches!(**x, Val::Literal(7)) && matches!(**y, Val::Literal(8)))
        && matches!(**b, Val::Literal(5))));
    assert_eq!(v.into_vec(), vec![7, 8, 5]);
    assert_eq!(matched, 3);
}

#[test]
fn failed_alternative_puts_the_count_back() {
    // (1 2 | 1 3) on 1 3: the first side matches 1, then fails on 3
    let re = RegExp::Alter(RegExp::concat(lit(1), lit(2)), RegExp::concat(lit(1), lit(3)));
    let s = vec![1, 3];
    let mut stack = BTreeMap::new();
    let mut matched = 0usize;
    let (v, _) = re._parse_k(&s, &BTreeMap::new(), &BTreeMap::new(), 1, &mut stack, &mut matched).unwrap();
    assert_eq!(v.into_vec(), vec![1, 3]);
    assert_eq!(matched, 2);
}

#[test]
fn failed_round_puts_the_count_back() {
    // (1 2)* on 1 2 1 3: the second round matches 1, then fails on 3
    let re = RegExp::star(RegExp::concat(lit(1), lit(2)));
    let s = vec![1, 2, 1, 3];
    let mut stack = BTreeMap::new();
    let mut matched = 0usize;
    let (v, rest) = re._parse_k(&s, &BTreeMap::new(), &BTreeMap::new(), 3, &mut stack, &mut matched).unwrap();
    assert_eq!(rest, &[1, 3]);
    assert_eq!(v.into_vec(), vec![1, 2]);
    assert_eq!(matched, 2);
}

#[test]
fn literal_list_without_calls_keeps_the_path_order() {
    // no block starts a function: the list is matched block by block
    let re = RegExp::Concat(arc(RegExp::Literals(vec![5, 2])), lit(7));
    let s = vec![5, 2, 7, 9];
    let (v, rest) = re.parse_k(&s, &BTreeMap::new(), &BTreeMap::new(), 2).unwrap();
    assert_eq!(rest, &[9]);
    assert_eq!(v.into_vec(), vec![5, 2, 7]);
    let s = vec![5, 3];
    match re.parse_k(&s, &BTreeMap::new(), &BTreeMap::new(), 2) {
        Err(ParseErr::Invalid(m)) => assert_eq!(m, "expected 2 found 3"),
        other => panic!("unexpected {:?}", other),
    }
}

#[test]
fn val_reduce_cuts_nested_rounds() {
    let v = Val::Star(vec![
        Val::Star(vec![Val::Literal(1), Val::Literal(1), Val::Literal(1)]),
        Val::Star(vec![Val::Literal(2)]),
        Val::Star(vec![Val::Literal(3)]),
    ]);
    assert_eq!(v.reduce(2), vec![1, 1, 2]);
}

#[test]
fn parse_inf_keeps_every_block() {
    let re = RegExp::Concat(arc(RegExp::star(RegExp::concat(lit(1), lit(2)))), lit(3));
    let s = vec![1, 2, 1, 2, 1, 2, 3, 4];
    let (v, rest) = re.parse_inf(&s, &BTreeMap::new()).unwrap();
    assert_eq!(rest, &[4]);
    assert_eq!(v.into_vec(), vec![1, 2, 1, 2, 1, 2, 3]);
}

#[test]
fn debug_lines_show_one_node_a_line() {
    let re = RegExp::Concat(
        arc(RegExp::Star(lit(-3))),
        arc(RegExp::Sequence(vec![arc(RegExp::Var(7)), arc(RegExp::Literals(vec![1, 22]))])),
    );
    let lines = re.debug_lines();
    let expected = vec![
        "Concat(", "Star(", "Literal(-3)", ")", ",", "Seq(", "Var(7)", ",", "Literals([1, 22])", ")", ")",
    ];
    assert_eq!(lines, expected);
    assert_eq!(RegExp::Epsilon.debug_lines(), vec!["Epsilon"]);
}

#[test]
fn mismatch_message_of_negative_blocks() {
    let re = RegExp::Literal(-3);
    let s = vec![12];
    match re.parse_k(&s, &BTreeMap::new(), &BTreeMap::new(), 1) {
        Err(ParseErr::Invalid(m)) => assert_eq!(m, "expected -3 found 12"),
        other => panic!("unexpected {:?}", other),
    }
}

#[test]
fn literal_leaves_the_stack_as_it_was() {
    let re = RegExp::Literal(4);
    let s = vec![4, 5];
    let mut stack = BTreeMap::new();
    stack.insert(9, 0);
    stack.insert(3, 2);
    let before = stack.clone();
    let mut matched = 0;
    let (_, rest) = re._parse_k(&s, &BTreeMap::new(), &BTreeMap::new(), 2, &mut stack, &mut matched).unwrap();
    assert_eq!(rest, &[5]);
    assert_eq!(stack, before);
    assert_eq!(matched, 1);
}

#[test]
fn alter_acc_remainders_are_empty_together() {
    let a = RegExp::concat(lit(1), lit(2));
    let b = RegExp::concat(lit(1), lit(2));
    let (p, x, y) = RegExp::alter_prefix_acc(arc(RegExp::Epsilon), a.clone(), b.clone());
    assert!(p.equals(&RegExp::Concat(lit(1), lit(2))));
    assert!(x.equals(&RegExp::Epsilon) && y.equals(&RegExp::Epsilon));
    let (x, y, q) = RegExp::alter_post_acc(a, b, arc(RegExp::Epsilon));
    assert!(q.equals(&RegExp::Concat(lit(1), lit(2))));
    assert!(x.equals(&RegExp::Epsilon) && y.equals(&RegExp::Epsilon));
}

#[test]
fn parse_k_within_the_bound_keeps_every_block() {
    let re = RegExp::Concat(arc(RegExp::star(RegExp::concat(lit(1), lit(2)))), lit(3));
    let s = vec![1, 2, 1, 2, 1, 2, 3, 9];
    let (v, rest) = re.parse_k(&s, &BTreeMap::new(), &BTreeMap::new(), 8).unwrap();
    assert_eq!(rest, &[9]);
    assert_eq!(v.into_vec(), vec![1, 2, 1, 2, 1, 2, 3]);
}
