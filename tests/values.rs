use investments::ieee::Binary64;
use investments::source_data::{
    decimal_point, get_month, month_start, split_fund_file_name, FileNameError, MonthError,
};
use investments::portfolio::{check_portfolio, joined_id, subtracted_id, EvaluationError};

fn b(x: f64) -> Binary64 {
    Binary64::from_bits(x.to_bits())
}

#[test]
fn nan_is_recognised() {
    assert!(b(f64::NAN).is_nan());
    assert!(b(-f64::NAN).is_nan());
    assert!(!b(f64::INFINITY).is_nan());
    assert!(!b(-0.0).is_nan());
    assert_eq!(b(2.5).to_bits(), 2.5f64.to_bits());
}

#[test]
fn order_follows_the_real_line() {
    let xs = [f64::NEG_INFINITY, -3.0, -1e-300, 0.0, 1e-300, 0.5, 2.0, f64::INFINITY];
    for i in 0..xs.len() {
        for j in 0..xs.len() {
            assert_eq!(b(xs[i]).rank_below(b(xs[j])), i < j);
        }
    }
    assert!(!b(-0.0).rank_below(b(0.0)));
    assert!(!b(0.0).rank_below(b(-0.0)));
    assert!(b(-0.0).key_eq(b(0.0)));
    assert!(!b(1.0).key_eq(b(f64::NAN)));
}

#[test]
fn month_numbers() {
    let names = ["Jan", "Fev", "Mar", "Abr", "Mai", "Jun", "Jul", "Ago", "Set", "Out", "Nov", "Dez"];
    for (i, name) in names.iter().enumerate() {
        assert_eq!(get_month(name).unwrap(), format!("{:02}", i + 1));
    }
    assert_eq!(get_month("Feb"), Err(MonthError::UnknownMonth));
    assert_eq!(get_month(""), Err(MonthError::UnknownMonth));
    assert_eq!(get_month("Janeiro"), Err(MonthError::UnknownMonth));
}

#[test]
fn excess_series_id() {
    assert_eq!(subtracted_id(&"fund".to_string(), &"_cdi".to_string()), "fund__cdi");
    assert_eq!(subtracted_id(&"a".to_string(), &"b".to_string()), "a_b");
}

#[test]
fn blended_series_id() {
    let ids = vec!["x".to_string(), "y".to_string(), "z".to_string()];
    assert_eq!(joined_id(&ids), "x_y_z");
    assert_eq!(joined_id(&vec!["only".to_string()]), "only");
    assert_eq!(joined_id(&Vec::new()), "");
}

#[test]
fn portfolio_checks() {
    assert_eq!(check_portfolio(&vec![4, 6], 10, &vec![12, 12], 12), Ok(()));
    assert_eq!(
        check_portfolio(&vec![4, 6], 10, &vec![12, 12, 12], 12),
        Err(EvaluationError::ArityMismatch)
    );
    assert_eq!(
        check_portfolio(&vec![4, 6], 10, &vec![12, 11], 12),
        Err(EvaluationError::LengthMismatch)
    );
    assert_eq!(
        check_portfolio(&vec![4, 6], 10, &vec![12, 12], 13),
        Err(EvaluationError::LengthMismatch)
    );
    assert_eq!(
        check_portfolio(&vec![4, 5], 10, &vec![12, 12], 12),
        Err(EvaluationError::InvalidSplit)
    );
    assert_eq!(
        check_portfolio(&vec![u64::MAX, 6], 10, &vec![12, 12], 12),
        Err(EvaluationError::InvalidSplit)
    );
    assert_eq!(check_portfolio(&vec![], 10, &vec![], 12), Err(EvaluationError::InvalidSplit));
}

#[test]
fn fund_file_name_parts() {
    let (id, year) = split_fund_file_name("00.017.024_0001-53_2021").unwrap();
    assert_eq!(id, "00.017.024/0001-53");
    assert_eq!(year, "2021");
    let (id, year) = split_fund_file_name("a_b_c_d").unwrap();
    assert_eq!(id, "a/b");
    assert_eq!(year, "c_d");
    assert_eq!(split_fund_file_name("only_one"), Err(FileNameError::MissingSeparator));
    assert_eq!(split_fund_file_name("none"), Err(FileNameError::MissingSeparator));
    assert_eq!(split_fund_file_name(""), Err(FileNameError::MissingSeparator));
}

#[test]
fn decimal_comma_becomes_point() {
    assert_eq!(decimal_point("0,45"), "0.45");
    assert_eq!(decimal_point("-1,2,3"), "-1.2.3");
    assert_eq!(decimal_point("12"), "12");
    assert_eq!(decimal_point(""), "");
}

#[test]
fn first_day_of_month_key() {
    assert_eq!(month_start("2021", "Mar").unwrap(), "2021-03-01");
    assert_eq!(month_start("1999", "Dez").unwrap(), "1999-12-01");
    assert_eq!(month_start("2021", "March"), Err(MonthError::UnknownMonth));
}
