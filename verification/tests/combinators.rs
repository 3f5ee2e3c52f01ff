use nom::branch::alt;
use nom::bytes::complete::{tag, take_while};
use nom::error::{Error, ErrorKind};
use nom_find::{find_all, find_many_till, find_next};

#[test]
fn test_find_next() {
    let src = "foovrfs barand more";
    let (rest, res) = find_next(tag("bar"), src).unwrap();
    assert_eq!(res, "bar");
    assert_eq!(rest, "and more");
    assert!(find_next(tag("foo"), "haystack with no match").is_err());
}

#[test]
fn test_find_all() {
    let src = "needle fskjnfonwofinwfeneedlekfsdond;nsdf;ondsfneedlefsmfok";
    let (rest, found) = find_all(tag::<&str, &str, ()>("needle")).parse(src).unwrap();
    assert_eq!(found, vec!["needle", "needle", "needle"]);
    assert_eq!(rest, "");
}

#[test]
fn test_find_many_till() {
    let src = "abcdefsba bababaaaaabbbbbabababab";
    let (rest, (found, end)) =
        find_many_till(alt((tag("a"), tag("b"))), tag("baba"), src).unwrap();
    assert_eq!(found, vec!["a", "b", "b", "a"]);
    assert_eq!(end, "baba");
    assert_eq!(rest, "baaaaabbbbbabababab");
    assert!(find_many_till(tag("a"), tag("b"), "aaaaaaaacccccc").is_err());
}

#[test]
fn find_next_matches_at_the_front() {
    let (rest, res) = find_next(tag("bar"), "barbar").unwrap();
    assert_eq!(res, "bar");
    assert_eq!(rest, "bar");
}

#[test]
fn find_next_matches_at_the_very_end() {
    let (rest, res) = find_next(tag("bar"), "foo bar").unwrap();
    assert_eq!(res, "bar");
    assert_eq!(rest, "");
}

#[test]
fn find_next_fails_on_empty_input() {
    assert!(find_next(tag("bar"), "").is_err());
}

#[test]
fn find_next_does_not_try_the_empty_end() {
    // `take_while` succeeds on the empty string, but by then nothing is left to search.
    let r = find_next(take_while::<_, &str, Error<&str>>(|c| c == 'a'), "");
    assert!(r.is_err());
}

#[test]
fn find_next_failure_carries_the_exhausted_input() {
    let r = find_next(tag::<&str, &str, Error<&str>>("foo"), "haystack");
    assert_eq!(r, Err(nom::Err::Error(Error::new("", ErrorKind::Fail))));
}

#[test]
fn find_next_skips_whole_characters() {
    let (rest, res) = find_next(tag("bar"), "żółw 🦀 barand").unwrap();
    assert_eq!(res, "bar");
    assert_eq!(rest, "and");
    assert!(find_next(tag("bar"), "żółw 🦀").is_err());
}

#[test]
fn find_next_on_bytes() {
    let src: &[u8] = b"\x00\xff\x01needle\x02";
    let (rest, res) = find_next(tag(&b"needle"[..]), src).unwrap();
    assert_eq!(res, &b"needle"[..]);
    assert_eq!(rest, &b"\x02"[..]);
    assert!(find_next(tag(&b"nothing"[..]), src).is_err());
}

#[test]
fn find_next_takes_a_borrowed_parser() {
    let mut parser = tag::<&str, &str, Error<&str>>("ab");
    assert_eq!(find_next(&mut parser, "xxab1"), Ok(("1", "ab")));
    assert_eq!(find_next(&mut parser, "ab2"), Ok(("2", "ab")));
}

#[test]
fn find_all_with_no_match_is_empty() {
    let (rest, found) = find_all(tag::<&str, &str, ()>("needle")).parse("haystack").unwrap();
    assert_eq!(found, Vec::<&str>::new());
    assert_eq!(rest, "");
}

#[test]
fn find_all_on_empty_input() {
    let (rest, found) = find_all(tag::<&str, &str, ()>("needle")).parse("").unwrap();
    assert_eq!(found, Vec::<&str>::new());
    assert_eq!(rest, "");
}

#[test]
fn find_all_matches_do_not_overlap() {
    let (rest, found) = find_all(tag::<&str, &str, ()>("aa")).parse("aaaaa").unwrap();
    assert_eq!(found, vec!["aa", "aa"]);
    assert_eq!(rest, "");
}

#[test]
fn find_all_takes_adjacent_matches() {
    let (rest, found) = find_all(tag::<&str, &str, ()>("ab")).parse("ababxab").unwrap();
    assert_eq!(found, vec!["ab", "ab", "ab"]);
    assert_eq!(rest, "");
}

#[test]
fn find_all_moves_on_after_a_match_of_nothing() {
    let pat = take_while::<_, &str, ()>(|c| c == 'a');
    let (rest, found) = find_all(pat).parse("baab").unwrap();
    assert_eq!(found, vec!["", "aa", "", ""]);
    assert_eq!(rest, "");
}

#[test]
fn find_all_scanner_runs_again() {
    let mut scanner = find_all(tag::<&str, &str, ()>("x"));
    assert_eq!(scanner.parse("axbx"), Ok(("", vec!["x", "x"])));
    assert_eq!(scanner.parse("x"), Ok(("", vec!["x"])));
    assert_eq!(scanner.parse("abc"), Ok(("", vec![])));
}

#[test]
fn find_all_on_bytes_and_wide_characters() {
    let (rest, found) = find_all(tag::<_, &[u8], ()>(&b"\x01"[..])).parse(&b"\x01\x02\x01"[..]).unwrap();
    assert_eq!(found, vec![&b"\x01"[..], &b"\x01"[..]]);
    assert_eq!(rest, &b""[..]);
    let (rest, found) = find_all(tag::<&str, &str, ()>("ó")).parse("żółw gór").unwrap();
    assert_eq!(found, vec!["ó", "ó"]);
    assert_eq!(rest, "");
}

#[test]
fn find_many_till_terminator_at_the_front() {
    let (rest, (found, end)) = find_many_till(tag("a"), tag("b"), "baa").unwrap();
    assert_eq!(found, Vec::<&str>::new());
    assert_eq!(end, "b");
    assert_eq!(rest, "aa");
}

#[test]
fn find_many_till_tries_the_terminator_first() {
    // Both parsers match at the front: the terminator wins.
    let (rest, (found, end)) = find_many_till(tag("a"), tag("ab"), "aabc").unwrap();
    assert_eq!(found, vec!["a"]);
    assert_eq!(end, "ab");
    assert_eq!(rest, "c");
}

#[test]
fn find_many_till_fails_on_empty_input() {
    let r = find_many_till(tag::<&str, &str, Error<&str>>("a"), tag("b"), "");
    assert_eq!(r, Err(nom::Err::Error(Error::new("", ErrorKind::Eof))));
}

#[test]
fn find_many_till_terminator_may_match_nothing_at_the_end() {
    let end_of_input = take_while::<_, &str, Error<&str>>(|c| c == 'z');
    let (rest, (found, end)) = find_many_till(tag("a"), tag("b"), "ab").unwrap();
    assert_eq!((rest, found, end), ("", vec!["a"], "b"));
    let (rest, (found, end)) = find_many_till(tag("q"), end_of_input, "").unwrap();
    assert_eq!((rest, found, end), ("", Vec::<&str>::new(), ""));
}

#[test]
fn find_many_till_moves_on_after_a_filler_match_of_nothing() {
    let filler = take_while::<_, &str, Error<&str>>(|c| c == 'a');
    let (rest, (found, end)) = find_many_till(filler, tag("x"), "baax!").unwrap();
    assert_eq!(found, vec!["", "aa"]);
    assert_eq!(end, "x");
    assert_eq!(rest, "!");
    let filler = take_while::<_, &str, Error<&str>>(|c| c == 'a');
    assert!(find_many_till(filler, tag("x"), "baa").is_err());
}

#[test]
fn find_many_till_discards_whole_characters() {
    let (rest, (found, end)) = find_many_till(tag("ó"), tag("!"), "żółw gór!ó").unwrap();
    assert_eq!(found, vec!["ó", "ó"]);
    assert_eq!(end, "!");
    assert_eq!(rest, "ó");
}

#[test]
fn find_many_till_on_bytes() {
    let src: &[u8] = b"a-a--b-";
    let (rest, (found, end)) =
        find_many_till(tag(&b"a"[..]), tag(&b"b"[..]), src).unwrap();
    assert_eq!(found, vec![&b"a"[..], &b"a"[..]]);
    assert_eq!(end, &b"b"[..]);
    assert_eq!(rest, &b"-"[..]);
}

#[test]
fn find_next_tries_each_position_once() {
    let calls = std::cell::Cell::new(0usize);
    let counted = |i: &'static str| -> nom::IResult<&'static str, &'static str> {
        calls.set(calls.get() + 1);
        tag("bar")(i)
    };
    assert_eq!(find_next(counted, "foo bar"), Ok(("", "bar")));
    assert_eq!(calls.get(), 5);
    calls.set(0);
    let counted = |i: &'static str| -> nom::IResult<&'static str, &'static str> {
        calls.set(calls.get() + 1);
        tag("bar")(i)
    };
    assert!(find_next(counted, "abc").is_err());
    assert_eq!(calls.get(), 3);
}

#[test]
fn find_all_tries_the_end_of_the_input_too() {
    let calls = std::cell::Cell::new(0usize);
    let counted = |i: &'static str| -> nom::IResult<&'static str, &'static str, ()> {
        calls.set(calls.get() + 1);
        tag("xx")(i)
    };
    assert_eq!(find_all(counted).parse("axxbxx"), Ok(("", vec!["xx", "xx"])));
    // tried at "axxbxx", "xxbxx", "bxx", "xx" and at the empty end
    assert_eq!(calls.get(), 5);
}

#[test]
fn find_many_till_tries_the_filler_only_after_the_terminator_failed() {
    let filler_calls = std::cell::Cell::new(0usize);
    let terminator_calls = std::cell::Cell::new(0usize);
    let filler = |i: &'static str| -> nom::IResult<&'static str, &'static str> {
        filler_calls.set(filler_calls.get() + 1);
        tag("a")(i)
    };
    let terminator = |i: &'static str| -> nom::IResult<&'static str, &'static str> {
        terminator_calls.set(terminator_calls.get() + 1);
        tag("b")(i)
    };
    assert_eq!(find_many_till(filler, terminator, "a-ab"), Ok(("", (vec!["a", "a"], "b"))));
    assert_eq!(terminator_calls.get(), 4);
    assert_eq!(filler_calls.get(), 3);
}
