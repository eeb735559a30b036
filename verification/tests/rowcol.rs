//! `row,col` argument parsing.

use sedlink::rowcol::{parse_row_col, RowColError};

#[test]
fn parses_plain_pairs() {
    assert_eq!(parse_row_col("135,66"), Ok((135, 66)));
    assert_eq!(parse_row_col("0,0"), Ok((0, 0)));
}

#[test]
fn trims_white_space_around_each_side() {
    assert_eq!(parse_row_col("  12 ,\t7 \n"), Ok((12, 7)));
    assert_eq!(parse_row_col("\u{3000}3,\u{a0}4"), Ok((3, 4)));
}

#[test]
fn accepts_a_leading_plus() {
    assert_eq!(parse_row_col("+5,+6"), Ok((5, 6)));
}

#[test]
fn splits_at_the_first_comma() {
    assert_eq!(parse_row_col("1,2,3"), Err(RowColError::InvalidDigit));
}

#[test]
fn refuses_text_without_comma() {
    assert_eq!(parse_row_col("135 66"), Err(RowColError::NotRowCol));
    assert_eq!(parse_row_col(""), Err(RowColError::NotRowCol));
}

#[test]
fn refuses_empty_sides() {
    assert_eq!(parse_row_col(",4"), Err(RowColError::Empty));
    assert_eq!(parse_row_col("4, "), Err(RowColError::Empty));
}

#[test]
fn refuses_signs_and_junk() {
    assert_eq!(parse_row_col("-1,4"), Err(RowColError::InvalidDigit));
    assert_eq!(parse_row_col("+,4"), Err(RowColError::InvalidDigit));
    assert_eq!(parse_row_col("1x,4"), Err(RowColError::InvalidDigit));
    assert_eq!(parse_row_col("1 2,4"), Err(RowColError::InvalidDigit));
}

#[test]
fn refuses_values_beyond_usize() {
    let big = format!("{}0,1", usize::MAX);
    assert_eq!(parse_row_col(&big), Err(RowColError::Overflow));
    let max = format!("{},1", usize::MAX);
    assert_eq!(parse_row_col(&max), Ok((usize::MAX, 1)));
}

#[test]
fn row_error_comes_before_column_error() {
    assert_eq!(parse_row_col("x,"), Err(RowColError::InvalidDigit));
    assert_eq!(parse_row_col(",x"), Err(RowColError::Empty));
}

#[test]
fn agrees_with_std_parsing() {
    for s in ["7,8", " 9 , 10 ", "+1,2", "01,002", "a,1", "1,b", "", ",", "3", "18446744073709551616,0"] {
        let expect = s.split_once(',').map(|(r, c)| (r.trim().parse::<usize>(), c.trim().parse::<usize>()));
        let got = parse_row_col(s);
        match expect {
            None => assert_eq!(got, Err(RowColError::NotRowCol)),
            Some((Ok(r), Ok(c))) => assert_eq!(got, Ok((r, c))),
            Some(_) => assert!(got.is_err(), "{s:?} should be refused"),
        }
    }
}

#[test]
fn written_pairs_parse_back() {
    let values = [0usize, 1, 9, 10, 135, 66, 1_000_000, usize::MAX];
    for &r in &values {
        for &c in &values {
            assert_eq!(parse_row_col(&format!("{r},{c}")), Ok((r, c)));
            assert_eq!(parse_row_col(&format!(" {r} , {c} ")), Ok((r, c)));
            assert_eq!(parse_row_col(&format!("\t{r}\t,\t{c}\n")), Ok((r, c)));
        }
    }
}
