use mandelbrot::parse::{parse_i32, parse_pair_i32, parse_pair_u32, parse_pair_usize, parse_u32,
    parse_usize, split_pair};

#[test]
fn test_parse_pair() {
    assert_eq!(parse_pair_i32("12x-34", 'x'), Some((12, -34)));
    assert_eq!(parse_pair_u32("12", ' '), None);
    let (a, b) = split_pair("12.2 6.46", ' ').unwrap();
    assert_eq!(a.parse::<f64>().unwrap(), 12.2);
    assert_eq!(b.parse::<f64>().unwrap(), 6.46);
    assert_eq!(split_pair("1.3.22.2", ','), None);
    let (a, b) = split_pair("3.14,6.28", ',').unwrap();
    assert_eq!(a.parse::<f64>().unwrap(), 3.14);
    assert_eq!(b.parse::<f64>().unwrap(), 6.28);
}

#[test]
fn test_parse_complex() {
    let (re, im) = split_pair("0.0,0.0", ',').unwrap();
    assert_eq!(re.parse::<f64>().unwrap(), 0.0);
    assert_eq!(im.parse::<f64>().unwrap(), 0.0);
    let (re, im) = split_pair("9.2,4.0", ',').unwrap();
    assert_eq!(re.parse::<f64>().unwrap(), 9.2);
    assert_eq!(im.parse::<f64>().unwrap(), 4.0);
    assert_eq!(split_pair("343.3", ','), None);
}

#[test]
fn test_parse_unsigned() {
    assert_eq!(parse_usize("0"), Some(0));
    assert_eq!(parse_usize("400"), Some(400));
    assert_eq!(parse_usize("+400"), Some(400));
    assert_eq!(parse_usize(""), None);
    assert_eq!(parse_usize("+"), None);
    assert_eq!(parse_usize("-4"), None);
    assert_eq!(parse_usize("4x"), None);
    assert_eq!(parse_usize("99999999999999999999999"), None);
    assert_eq!(parse_u32("4294967295"), Some(u32::MAX));
    assert_eq!(parse_u32("4294967296"), None);
}

#[test]
fn test_parse_signed() {
    assert_eq!(parse_i32("12"), Some(12));
    assert_eq!(parse_i32("+12"), Some(12));
    assert_eq!(parse_i32("-12"), Some(-12));
    assert_eq!(parse_i32("2147483647"), Some(i32::MAX));
    assert_eq!(parse_i32("2147483648"), None);
    assert_eq!(parse_i32("-2147483648"), Some(i32::MIN));
    assert_eq!(parse_i32("-2147483649"), None);
    assert_eq!(parse_i32("--1"), None);
    assert_eq!(parse_i32("-"), None);
    assert_eq!(parse_i32("1 2"), None);
}

#[test]
fn test_split_pair_edges() {
    let (a, b) = split_pair("x12", 'x').unwrap();
    assert_eq!(a, "");
    assert_eq!(b, "12");
    let (a, b) = split_pair("a,b,c", ',').unwrap();
    assert_eq!(a, "a");
    assert_eq!(b, "b,c");
    assert_eq!(parse_pair_i32("x12", 'x'), None);
    assert_eq!(parse_pair_u32("12x-34", 'x'), None);
    assert_eq!(parse_pair_usize("400x300", 'x'), Some((400, 300)));
    assert_eq!(parse_pair_usize("400x", 'x'), None);
}
