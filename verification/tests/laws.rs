use nom::branch::alt;
use nom::bytes::complete::tag;
use nom::character::complete::digit1;
use nom::error::Error;
use nom::IResult;
use nom_find::{find_all, find_many_till, find_next, Input};

fn digits(i: &str) -> IResult<&str, &str> {
    digit1(i)
}

fn comma(i: &str) -> IResult<&str, &str> {
    tag(",")(i)
}

fn stop(i: &str) -> IResult<&str, &str> {
    tag(";")(i)
}

fn never(i: &str) -> IResult<&str, &str> {
    nom::combinator::fail(i)
}

#[test]
fn results_repeat_on_the_same_input() {
    let src = "ab 12, 345,x;67";
    assert_eq!(find_next(digits, src), find_next(digits, src));
    assert_eq!(find_next(digits, src), Ok((", 345,x;67", "12")));
    assert_eq!(find_all(digits).parse(src), find_all(digits).parse(src));
    assert_eq!(find_all(digits).parse(src), Ok(("", vec!["12", "345", "67"])));
    assert_eq!(find_many_till(digits, stop, src), find_many_till(digits, stop, src));
    assert_eq!(find_many_till(digits, stop, src), Ok(("67", (vec!["12", "345"], ";"))));
    assert_eq!(find_many_till(digits, comma, "12"), find_many_till(digits, comma, "12"));
    assert!(find_many_till(digits, comma, "12").is_err());
}

#[test]
fn find_next_leaves_input_less_skipped_and_matched() {
    let src = "abc 123 def";
    let (rest, value) = find_next(digits, src).unwrap();
    // four units skipped, three consumed by the match
    assert_eq!(rest.input_len(), src.input_len() - 4 - value.input_len());
    assert_eq!(rest, &src[7..]);
    assert!(rest.input_len() <= src.input_len());
}

#[test]
fn find_all_leaves_nothing() {
    for src in ["", "1", "a", "12ab34", "żółw 7"] {
        let (rest, _) = find_all(digits).parse(src).unwrap();
        assert_eq!(rest.input_len(), 0);
    }
}

#[test]
fn find_all_never_fails() {
    for src in ["", "x", "no digits here", "1", "żółw"] {
        assert!(find_all(digits).parse(src).is_ok());
    }
    assert_eq!(find_all(never).parse("anything"), Ok(("", vec![])));
}

#[test]
fn find_many_till_leaves_input_less_steps_and_terminator() {
    let src = "1a22bb;tail";
    let (rest, (found, end)) = find_many_till(digits, stop, src).unwrap();
    assert_eq!(found, vec!["1", "22"]);
    // the steps moved over "1", "a", "22", "b", "b": six units; the terminator consumed one
    assert_eq!(rest.input_len(), src.input_len() - 6 - end.input_len());
    assert_eq!(rest, "tail");
}

#[test]
fn remainder_is_a_suffix_of_the_input() {
    let src = "xx ab yy ab zz";
    let (rest, _) = find_next(tag::<&str, &str, Error<&str>>("ab"), src).unwrap();
    assert!(src.ends_with(rest));
    let (rest, _) = find_many_till(alt((tag("x"), tag("y"))), tag::<&str, &str, Error<&str>>("ab"), src).unwrap();
    assert!(src.ends_with(rest));
    assert_eq!(rest, " yy ab zz");
}
