use rt_weekend::cli::{Cli, Dimensions, ParseDimensionsError};

#[test]
fn parse_width_and_height() {
    let d = Dimensions::parse("1920,1080").unwrap();
    assert_eq!(d, Dimensions { width: 1920, height: 1080 });
}

#[test]
fn parse_through_from_str() {
    let d: Dimensions = "640,480".parse().unwrap();
    assert_eq!(d, Dimensions { width: 640, height: 480 });
}

#[test]
fn parse_accepts_plus_sign() {
    let d = Dimensions::parse("+7,+0").unwrap();
    assert_eq!(d, Dimensions { width: 7, height: 0 });
}

#[test]
fn parse_without_comma_fails() {
    assert!(matches!(Dimensions::parse("1920x1080"), Err(ParseDimensionsError::MissingComma)));
    assert!(matches!(Dimensions::parse(""), Err(ParseDimensionsError::MissingComma)));
}

#[test]
fn parse_bad_number_fails() {
    assert!(matches!(Dimensions::parse("a,1"), Err(ParseDimensionsError::ParseIntError(_))));
    assert!(matches!(Dimensions::parse("1,"), Err(ParseDimensionsError::ParseIntError(_))));
    assert!(matches!(Dimensions::parse("1,2,3"), Err(ParseDimensionsError::ParseIntError(_))));
    assert!(matches!(Dimensions::parse(" 1,2"), Err(ParseDimensionsError::ParseIntError(_))));
    assert!(matches!(Dimensions::parse("-1,2"), Err(ParseDimensionsError::ParseIntError(_))));
    assert!(matches!(
        Dimensions::parse("1,99999999999999999999999"),
        Err(ParseDimensionsError::ParseIntError(_))
    ));
}

#[test]
fn dimensions_text() {
    assert_eq!(Dimensions { width: 1920, height: 1080 }.to_string(), "1920,1080");
    assert_eq!(Dimensions { width: 0, height: 7 }.to_string(), "0,7");
    assert_eq!(
        Dimensions { width: usize::MAX, height: 10 }.to_string(),
        format!("{},10", usize::MAX)
    );
}

#[test]
fn dimensions_round_trip() {
    for d in [
        Dimensions { width: 0, height: 0 },
        Dimensions { width: 1, height: 1080 },
        Dimensions { width: usize::MAX, height: 12345 },
    ] {
        assert_eq!(Dimensions::parse(&d.to_string()).unwrap(), d);
    }
}

#[test]
fn error_text() {
    assert_eq!(ParseDimensionsError::MissingComma.to_string(), "dimensions value is missing a comma");
    let e = Dimensions::parse("x,1").unwrap_err();
    assert_eq!(e.to_string(), "invalid digit found in string");
}

#[test]
fn error_from_parse_int_error() {
    let inner = "z".parse::<usize>().unwrap_err();
    assert!(matches!(ParseDimensionsError::from(inner), ParseDimensionsError::ParseIntError(_)));
}

#[test]
fn thread_count_given_or_physical() {
    let mut cli = Cli {
        dimensions: Dimensions { width: 4, height: 3 },
        num_threads: Some(3),
        rays_per_pixel: 10,
        recursion_depth: 50,
    };
    assert_eq!(cli.thread_count(), 3);
    cli.num_threads = None;
    assert!(cli.thread_count() >= 1);
}
