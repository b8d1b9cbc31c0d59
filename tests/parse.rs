use shortest_path::load::{parse_edge, parse_usize, split_words};

fn b(s: &str) -> Vec<u8> {
    s.as_bytes().to_vec()
}

#[test]
fn numbers_as_from_str_reads_them() {
    assert_eq!(parse_usize(&b("0")), Some(0));
    assert_eq!(parse_usize(&b("42")), Some(42));
    assert_eq!(parse_usize(&b("+7")), Some(7));
    assert_eq!(parse_usize(&b("007")), Some(7));
    assert_eq!(parse_usize(&b("")), None);
    assert_eq!(parse_usize(&b("+")), None);
    assert_eq!(parse_usize(&b("-1")), None);
    assert_eq!(parse_usize(&b(" 1")), None);
    assert_eq!(parse_usize(&b("1x")), None);
    assert_eq!(parse_usize(&b("++1")), None);
}

#[test]
fn numbers_at_the_limit() {
    let max = usize::MAX.to_string();
    assert_eq!(parse_usize(&b(&max)), Some(usize::MAX));
    let over = format!("{}0", max);
    assert_eq!(parse_usize(&b(&over)), None);
    for s in ["12", "+3", "18446744073709551616", "x", "99999999999999999999999"] {
        assert_eq!(parse_usize(&b(s)), s.parse::<usize>().ok());
    }
}

#[test]
fn words_split_at_white_space() {
    assert_eq!(split_words(&b("  1\t22  333 ")), vec![b("1"), b("22"), b("333")]);
    assert_eq!(split_words(&b("")), Vec::<Vec<u8>>::new());
    assert_eq!(split_words(&b(" \r\n")), Vec::<Vec<u8>>::new());
    assert_eq!(split_words(&b("ab")), vec![b("ab")]);
}

#[test]
fn edge_lines() {
    assert_eq!(parse_edge(&b("1 2 3")), Some((1, 2, 3)));
    assert_eq!(parse_edge(&b(" 10\t20   30 ")), Some((10, 20, 30)));
    assert_eq!(parse_edge(&b("1 2")), None);
    assert_eq!(parse_edge(&b("1 2 x")), None);
    assert_eq!(parse_edge(&b("")), None);
}
