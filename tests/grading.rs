use stats_grader::{
    check_modes, check_value, grade, is_ordered, lower_quartile, mean, median, mode, parse_modes,
    parse_responses, score_percent, sort, summarize, upper_quartile, Answers, Error, Rational,
};

fn num(s: &str) -> Rational {
    Rational::parse(s).unwrap()
}

fn frac(n: i64, d: i64) -> Rational {
    Rational::from_int(n).div(&Rational::from_int(d)).unwrap()
}

fn same(a: &Rational, b: &Rational) -> bool {
    a.equals(b)
}

const SCENARIO: &str = "1,2,2,3,3,3,4,4,4,4,5,5,5,5,5,6,6,6,6,7";

#[test]
fn parse_integer_and_decimal() {
    let a = num("12");
    assert_eq!((a.num, a.den), (12, 1));
    let b = num("-2.50");
    assert_eq!((b.num, b.den), (-5, 2));
    let c = num("+.25");
    assert_eq!((c.num, c.den), (1, 4));
    let d = num("7.");
    assert_eq!((d.num, d.den), (7, 1));
    let z = num("-0.0");
    assert_eq!((z.num, z.den), (0, 1));
}

#[test]
fn parse_rejects_malformed() {
    for s in ["", "-", ".", "1.2.3", "12a", "1/2", " 1", "--1", "1e5"] {
        assert_eq!(Rational::parse(s).unwrap_err(), Error::ParseError, "{}", s);
    }
}

#[test]
fn parse_rejects_overflow() {
    assert!(Rational::parse("9223372036854775807").is_ok());
    assert_eq!(Rational::parse("9223372036854775808").unwrap_err(), Error::ParseError);
    assert!(Rational::parse("0.000000000000000001").is_ok());
    assert_eq!(Rational::parse("0.0000000000000000001").unwrap_err(), Error::ParseError);
}

#[test]
fn parse_accepts_long_literals_whose_value_fits() {
    let h = Rational::parse("0.5000000000000000000").unwrap();
    assert_eq!((h.num, h.den), (1, 2));
    let one = Rational::parse("0000000000000000000000000000001.000000000000").unwrap();
    assert_eq!((one.num, one.den), (1, 1));
    let big = Rational::parse("9223372036854775807.0000000000").unwrap();
    assert_eq!((big.num, big.den), (i64::MAX, 1));
    let too_long = "0.5000000000000000000000000000000000000000";
    assert_eq!(Rational::parse(too_long).unwrap_err(), Error::ParseError);
}

#[test]
fn equality_ignores_representation() {
    assert!(same(&num("0.5"), &frac(1, 2)));
    assert!(same(&num("4"), &num("4.0")));
    assert!(same(&num("4.000"), &Rational::from_int(4)));
    assert!(!same(&num("4"), &num("4.01")));
    let unreduced = Rational { num: 2, den: 4 };
    assert!(same(&unreduced, &num("0.5")));
}

#[test]
fn arithmetic_is_exact_and_reduced() {
    let s = frac(1, 3).add(&frac(1, 6)).unwrap();
    assert_eq!((s.num, s.den), (1, 2));
    let d = frac(1, 3).sub(&frac(1, 2)).unwrap();
    assert_eq!((d.num, d.den), (-1, 6));
    let p = frac(2, 3).mul(&frac(9, 4)).unwrap();
    assert_eq!((p.num, p.den), (3, 2));
    let q = frac(2, 3).div(&frac(-4, 9)).unwrap();
    assert_eq!((q.num, q.den), (-3, 2));
}

#[test]
fn division_by_zero_is_an_error() {
    let r = Rational::from_int(3).div(&Rational::from_int(0));
    assert_eq!(r.unwrap_err(), Error::DivisionByZero);
}

#[test]
fn overflow_is_an_error() {
    let big = Rational::from_int(i64::MAX);
    assert_eq!(big.mul(&big).unwrap_err(), Error::Overflow);
    assert_eq!(big.add(&Rational::from_int(1)).unwrap_err(), Error::Overflow);
    let ok = big.sub(&Rational::from_int(1)).unwrap();
    assert_eq!((ok.num, ok.den), (i64::MAX - 1, 1));
}

#[test]
fn ordering_is_exact() {
    assert!(frac(1, 3).less_eq(&num("0.34")));
    assert!(!num("0.34").less_eq(&frac(1, 3)));
    assert!(num("-1").less_eq(&num("-1.0")));
}

#[test]
fn list_splits_on_all_delimiters() {
    let v = parse_responses(" 1,2;3\t4\n\n5 ,, ;6 ").unwrap();
    let want: Vec<i64> = vec![1, 2, 3, 4, 5, 6];
    assert_eq!(v.len(), want.len());
    for (x, w) in v.iter().zip(want) {
        assert!(same(x, &Rational::from_int(w)));
    }
    assert_eq!(parse_responses("").unwrap().len(), 0);
    assert_eq!(parse_responses(" ,;\u{3000}").unwrap().len(), 0);
    assert_eq!(parse_responses("1\u{a0}2").unwrap().len(), 2);
}

#[test]
fn list_rejects_any_bad_token() {
    assert_eq!(parse_responses("1, 2, x, 4").unwrap_err(), Error::InvalidResponses);
    assert_eq!(parse_modes("5, five").unwrap_err(), Error::InvalidResponses);
    assert_eq!(parse_modes("5 5").unwrap().len(), 2);
}

#[test]
fn order_check() {
    let v = parse_responses("1 2 2 3").unwrap();
    assert!(is_ordered(&v));
    let w = parse_responses("1 3 2").unwrap();
    assert!(!is_ordered(&w));
    assert!(is_ordered(&[]));
}

#[test]
fn sort_is_ascending() {
    let v = parse_responses("3 1.5 -2 1.50 0").unwrap();
    let s = sort(&v);
    let want = ["-2", "0", "1.5", "1.5", "3"];
    assert_eq!(s.len(), 5);
    for (x, w) in s.iter().zip(want) {
        assert!(same(x, &num(w)));
    }
}

#[test]
fn mean_and_median_of_small_lists() {
    let v = parse_responses("1 2 3 4").unwrap();
    assert!(same(&mean(&v).unwrap(), &frac(5, 2)));
    assert!(same(&median(&v).unwrap(), &frac(5, 2)));
    let w = parse_responses("1 2 10").unwrap();
    assert!(same(&median(&w).unwrap(), &num("2")));
    assert!(same(&mean(&w).unwrap(), &frac(13, 3)));
}

#[test]
fn quartiles_exclude_the_middle_for_odd_lengths() {
    let v = parse_responses("1 2 3 4 5 6 7").unwrap();
    assert!(same(&lower_quartile(&v).unwrap(), &num("2")));
    assert!(same(&upper_quartile(&v).unwrap(), &num("6")));
    let w = parse_responses("1 2 3 4 5 6 7 8").unwrap();
    assert!(same(&lower_quartile(&w).unwrap(), &num("2.5")));
    assert!(same(&upper_quartile(&w).unwrap(), &num("6.5")));
}

#[test]
fn scenario_summary() {
    let v = parse_responses(SCENARIO).unwrap();
    assert_eq!(v.len(), 20);
    assert!(is_ordered(&v));
    let m = summarize(&v).unwrap();
    assert!(same(&m.min, &num("1")));
    assert!(same(&m.max, &num("7")));
    assert!(same(&m.range, &num("6")));
    assert_eq!((m.mean.num, m.mean.den), (43, 10));
    assert!(same(&m.median, &num("4.5")));
    assert!(same(&m.q1, &num("3")));
    assert!(same(&m.q3, &num("5.5")));
    assert_eq!(m.modes.len(), 1);
    assert!(same(&m.modes[0], &num("5")));
}

#[test]
fn scenario_summary_from_shuffled_input() {
    let v = parse_responses("7 5 6 4 3 5 2 6 4 5 1 3 4 5 6 2 3 4 5 6").unwrap();
    assert!(!is_ordered(&v));
    let m = summarize(&v).unwrap();
    assert!(same(&m.median, &num("4.5")));
    assert!(same(&m.q1, &num("3")));
    assert!(same(&m.q3, &num("5.5")));
    assert!(same(&m.mean, &num("4.3")));
}

#[test]
fn mean_stays_between_min_and_max() {
    let v = parse_responses("-3 0.5 12 7 7 2.25").unwrap();
    let s = sort(&v);
    let m = mean(&s).unwrap();
    assert!(s[0].less_eq(&m));
    assert!(m.less_eq(&s[s.len() - 1]));
}

#[test]
fn quartiles_are_ordered() {
    let v = parse_responses("9 1 8 2 7 3 6 4 5 0 10 11 12 13 14 15 16 17 18 100 -4").unwrap();
    let m = summarize(&v).unwrap();
    assert!(m.min.less_eq(&m.q1));
    assert!(m.q1.less_eq(&m.median));
    assert!(m.median.less_eq(&m.q3));
    assert!(m.q3.less_eq(&m.max));
}

#[test]
fn every_value_twice_has_no_mode() {
    let v = parse_responses("1 1 2 2 3 3 4.5 4.5").unwrap();
    assert_eq!(mode(&v).len(), 0);
    let w = parse_responses("2 2 2").unwrap();
    assert_eq!(mode(&w).len(), 0);
}

#[test]
fn several_modes_form_a_set() {
    let v = parse_responses("3 1 3 2 1 0.5").unwrap();
    let m = mode(&v);
    assert_eq!(m.len(), 2);
    assert!(m.iter().any(|x| same(x, &num("3"))));
    assert!(m.iter().any(|x| same(x, &num("1"))));
}

#[test]
fn mean_of_nothing_is_division_by_zero() {
    assert_eq!(mean(&[]).unwrap_err(), Error::DivisionByZero);
}

#[test]
fn equal_values_in_other_forms_count_together() {
    let v = parse_responses("0.5 .50 +0.500 1 1").unwrap();
    let m = mode(&v);
    assert_eq!(m.len(), 1);
    assert!(same(&m[0], &frac(1, 2)));
}

#[test]
fn nineteen_responses_are_too_few() {
    let text = "1 2 3 4 5 6 7 8 9 10 11 12 13 14 15 16 17 18 19";
    let v = parse_responses(text).unwrap();
    assert_eq!(v.len(), 19);
    assert_eq!(summarize(&v).err(), Some(Error::TooFewResponses));
    let answers = Answers {
        mean: String::new(),
        range: String::new(),
        min: String::new(),
        q1: String::new(),
        median: String::new(),
        q3: String::new(),
        max: String::new(),
        modes: String::new(),
    };
    assert_eq!(grade(text, &answers).err(), Some(Error::TooFewResponses));
}

#[test]
fn twenty_responses_are_accepted() {
    let v = parse_responses("1 2 3 4 5 6 7 8 9 10 11 12 13 14 15 16 17 18 19 20").unwrap();
    let m = summarize(&v).unwrap();
    assert!(same(&m.median, &num("10.5")));
    assert_eq!(m.modes.len(), 0);
}

#[test]
fn scalar_answer_checks() {
    let nine_halves = frac(9, 2);
    assert!(!check_value("4", &nine_halves));
    assert!(check_value("4.5", &nine_halves));
    assert!(check_value("  4.50 \n", &nine_halves));
    assert!(!check_value("4,5", &nine_halves));
    assert!(!check_value("", &nine_halves));
}

#[test]
fn mode_answer_is_a_set() {
    let five = vec![num("5")];
    assert!(check_modes("5, 5, 5", &five));
    assert!(check_modes("5.0", &five));
    assert!(!check_modes("5, 6", &five));
    assert!(!check_modes("", &five));
    assert!(!check_modes("5, x", &five));
    let two = vec![num("1"), num("2")];
    assert!(check_modes("2;1", &two));
    assert!(!check_modes("2", &two));
    assert!(check_modes("", &[]));
    assert!(!check_modes("1", &[]));
}

#[test]
fn percent_rounds_to_nearest() {
    let want: [u32; 10] = [0, 11, 22, 33, 44, 56, 67, 78, 89, 100];
    for c in 0..10u32 {
        assert_eq!(score_percent(c), want[c as usize]);
    }
}

fn answers(vals: [&str; 8]) -> Answers {
    Answers {
        mean: vals[0].to_string(),
        range: vals[1].to_string(),
        min: vals[2].to_string(),
        q1: vals[3].to_string(),
        median: vals[4].to_string(),
        q3: vals[5].to_string(),
        max: vals[6].to_string(),
        modes: vals[7].to_string(),
    }
}

#[test]
fn grade_all_correct() {
    let a = answers(["4.3", "6", "1", "3", "4.5", "5.5", "7", "5, 5, 5"]);
    let g = grade(SCENARIO, &a).unwrap();
    assert!(g.ordered);
    assert!(g.mean && g.range && g.min && g.q1 && g.median && g.q3 && g.max && g.modes);
    assert_eq!(g.correct, 9);
    assert_eq!(g.percent, 100);
}

#[test]
fn grade_counts_each_field() {
    let a = answers(["4", "6", "1", "2.5", "4.5", "5.5", "seven", "5 6"]);
    let g = grade("7 1 2 2 3 3 3 4 4 4 4 5 5 5 5 5 6 6 6 6", &a).unwrap();
    assert!(!g.ordered);
    assert!(!g.mean && g.range && g.min && !g.q1 && g.median && g.q3 && !g.max && !g.modes);
    assert_eq!(g.correct, 5);
    assert_eq!(g.percent, 56);
}

#[test]
fn grade_rejects_bad_list() {
    let a = answers(["", "", "", "", "", "", "", ""]);
    assert_eq!(grade("1 2 three", &a).err(), Some(Error::InvalidResponses));
}

fn formatted(x: &Rational) -> Option<String> {
    x.format_decimal().map(|cs| cs.into_iter().collect())
}

#[test]
fn format_decimal_values() {
    assert_eq!(formatted(&frac(43, 10)).as_deref(), Some("4.3"));
    assert_eq!(formatted(&frac(-5, 2)).as_deref(), Some("-2.5"));
    assert_eq!(formatted(&Rational::from_int(7)).as_deref(), Some("7"));
    assert_eq!(formatted(&Rational::from_int(0)).as_deref(), Some("0"));
    assert_eq!(formatted(&frac(3, 100)).as_deref(), Some("0.03"));
    assert_eq!(formatted(&frac(1, 8)).as_deref(), Some("0.125"));
    assert_eq!(formatted(&frac(-1, 3)), None);
}

#[test]
fn format_then_parse_round_trips() {
    for x in [frac(43, 10), frac(-5, 2), frac(1, 8), frac(3, 100), Rational::from_int(-42)] {
        let text = formatted(&x).unwrap();
        let back = Rational::parse(&text).unwrap();
        assert_eq!((back.num, back.den), (x.num, x.den));
    }
    let max = Rational::from_int(i64::MAX);
    let back = Rational::parse(&formatted(&max).unwrap()).unwrap();
    assert!(same(&back, &max));
}

#[test]
fn grade_quartiles_of_twenty_one() {
    let a = answers(["11", "20", "1", "5.5", "11", "16.5", "21", ""]);
    let g = grade("1 2 3 4 5 6 7 8 9 10 11 12 13 14 15 16 17 18 19 20 21", &a).unwrap();
    assert!(g.q1 && g.median && g.q3 && g.mean && g.range && g.min && g.max);
    assert!(g.modes);
    assert_eq!(g.correct, 9);
    let inclusive = answers(["11", "20", "1", "6", "11", "16", "21", ""]);
    let h = grade("1 2 3 4 5 6 7 8 9 10 11 12 13 14 15 16 17 18 19 20 21", &inclusive).unwrap();
    assert!(!h.q1 && !h.q3);
    assert_eq!(h.correct, 7);
    assert_eq!(h.percent, 78);
}

#[test]
fn grade_scenario_with_plain_mode_answer() {
    let a = answers(["4.3", "6", "1", "3", "4.5", "5.5", "7", "5"]);
    let g = grade(SCENARIO, &a).unwrap();
    assert_eq!((g.correct, g.percent), (9, 100));
}

#[test]
fn format_decimal_of_halves() {
    assert_eq!(formatted(&frac(1, 2)).as_deref(), Some("0.5"));
    assert_eq!(formatted(&frac(1, 1024)), Some("0.0009765625".to_string()));
}
