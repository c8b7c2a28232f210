use ferric_sort::text::{parse_content, parse_line, render_content, render_integer};
use rand::Rng;

fn by_std(text: &str) -> Vec<i64> {
    text.lines().filter_map(|line| line.parse().ok()).collect()
}

fn text_of(content: &[i64]) -> String {
    let mut out = String::new();
    for num in content {
        out.push_str(&num.to_string());
        out.push('\n');
    }
    out
}

#[test]
fn line_with_plain_digits() {
    assert_eq!(parse_line(b"0"), Some(0));
    assert_eq!(parse_line(b"7"), Some(7));
    assert_eq!(parse_line(b"1234567890"), Some(1234567890));
    assert_eq!(parse_line(b"0042"), Some(42));
}

#[test]
fn line_with_a_sign() {
    assert_eq!(parse_line(b"+5"), Some(5));
    assert_eq!(parse_line(b"-5"), Some(-5));
    assert_eq!(parse_line(b"-0"), Some(0));
    assert_eq!(parse_line(b"+0"), Some(0));
    assert_eq!(parse_line(b"-007"), Some(-7));
}

#[test]
fn line_of_another_shape_holds_nothing() {
    assert_eq!(parse_line(b""), None);
    assert_eq!(parse_line(b"+"), None);
    assert_eq!(parse_line(b"-"), None);
    assert_eq!(parse_line(b"--5"), None);
    assert_eq!(parse_line(b"+-5"), None);
    assert_eq!(parse_line(b"5-"), None);
    assert_eq!(parse_line(b"12a"), None);
    assert_eq!(parse_line(b"a12"), None);
    assert_eq!(parse_line(b" 12"), None);
    assert_eq!(parse_line(b"12 "), None);
    assert_eq!(parse_line(b"1 2"), None);
    assert_eq!(parse_line(b"12\r"), None);
    assert_eq!(parse_line(b"1.5"), None);
    assert_eq!(parse_line(b"1e3"), None);
    assert_eq!(parse_line(b"0x10"), None);
    assert_eq!(parse_line(b"1_000"), None);
    assert_eq!(parse_line("١٢".as_bytes()), None);
}

#[test]
fn line_at_the_ends_of_the_range() {
    assert_eq!(parse_line(b"9223372036854775807"), Some(i64::MAX));
    assert_eq!(parse_line(b"+9223372036854775807"), Some(i64::MAX));
    assert_eq!(parse_line(b"-9223372036854775808"), Some(i64::MIN));
    assert_eq!(parse_line(b"-9223372036854775807"), Some(i64::MIN + 1));
    assert_eq!(parse_line(b"000000000000000000000000000000009223372036854775807"), Some(i64::MAX));
}

#[test]
fn line_beyond_the_range_holds_nothing() {
    assert_eq!(parse_line(b"9223372036854775808"), None);
    assert_eq!(parse_line(b"-9223372036854775809"), None);
    assert_eq!(parse_line(b"18446744073709551616"), None);
    assert_eq!(parse_line(b"99999999999999999999999999999999999999999999"), None);
    assert_eq!(parse_line(b"-99999999999999999999999999999999999999999999"), None);
    assert_eq!(parse_line(b"92233720368547758070"), None);
    assert_eq!(parse_line(b"9223372036854775808x"), None);
}

#[test]
fn content_one_integer_per_line() {
    assert_eq!(parse_content(b"2\n1\n4\n3\n5\n"), vec![2, 1, 4, 3, 5]);
    assert_eq!(parse_content(b"2\n1\n4\n3\n5"), vec![2, 1, 4, 3, 5]);
    assert_eq!(parse_content(b""), Vec::<i64>::new());
    assert_eq!(parse_content(b"\n"), Vec::<i64>::new());
    assert_eq!(parse_content(b"17"), vec![17]);
}

#[test]
fn content_passes_over_other_lines() {
    assert_eq!(parse_content(b"1\n\nabc\n2\n 3\n4 \n-\n+5\n"), vec![1, 2, 5]);
    assert_eq!(parse_content(b"\n\n\n"), Vec::<i64>::new());
    assert_eq!(parse_content(b"9223372036854775808\n9223372036854775807\n"), vec![i64::MAX]);
}

#[test]
fn content_with_carriage_returns() {
    assert_eq!(parse_content(b"1\r\n2\r\n3\r\n"), vec![1, 2, 3]);
    // One carriage return goes with the line feed, a second one does not.
    assert_eq!(parse_content(b"1\r\r\n2\n"), vec![2]);
    // A carriage return inside a line is part of the line.
    assert_eq!(parse_content(b"1\r2\n3\n"), vec![3]);
    // Without a line feed behind it the carriage return stays.
    assert_eq!(parse_content(b"1\n2\r"), vec![1]);
    assert_eq!(parse_content(b"\r\n\r\n7"), vec![7]);
    assert_eq!(parse_content(b"\r"), Vec::<i64>::new());
}

#[test]
fn content_reads_as_the_standard_library_does() {
    let samples = [
        "",
        "\n",
        "\r",
        "\r\n",
        "\n\r",
        "1",
        "1\n",
        "1\r",
        "1\r\n",
        "1\n\r",
        "1\r\r\n",
        "\r1\n",
        "1\n2",
        "1\n2\r",
        "1\n2\r\n",
        "1\n\n2",
        "+1\n-1\n+\n-\n",
        "--1\n++1\n+-1\n-+1\n",
        " 1\n1 \n\t1\n",
        "0\n00\n-0\n+0\n-00\n",
        "9223372036854775807\n9223372036854775808\n-9223372036854775808\n-9223372036854775809\n",
        "123456789012345678901234567890\n5\n",
        "00000000000000000000000000000000000000000000000012\n",
        "a\nb\nc",
        "1a\na1\n1\n",
        "1,2\n3;4\n5\n",
        "١٢\n12\n",
        "é\n3\n",
        "1\u{2028}2\n3\n",
        "1\u{0085}\n4\n",
        "1\u{000B}2\n5\n",
        "1\u{000C}\n6\n",
    ];
    for text in samples {
        assert_eq!(parse_content(text.as_bytes()), by_std(text), "text {:?}", text);
    }
}

#[test]
fn random_text_reads_as_the_standard_library_does() {
    let pieces = [
        "0", "1", "7", "9", "12", "-", "+", "\n", "\n", "\r", "\r\n", " ", "a", "922337203685477580",
        "8", "-3", "00",
    ];
    let mut rng = rand::thread_rng();
    for _ in 0..2000 {
        let mut text = String::new();
        let count = rng.gen_range(0..12);
        for _ in 0..count {
            text.push_str(pieces[rng.gen_range(0..pieces.len())]);
        }
        assert_eq!(parse_content(text.as_bytes()), by_std(&text), "text {:?}", text);
    }
}

#[test]
fn integer_in_decimal() {
    let mut out: Vec<u8> = Vec::new();
    render_integer(0, &mut out);
    assert_eq!(out, b"0".to_vec());
    render_integer(-1, &mut out);
    assert_eq!(out, b"0-1".to_vec());
    render_integer(1200, &mut out);
    assert_eq!(out, b"0-11200".to_vec());
}

#[test]
fn integer_at_the_ends_of_the_range() {
    let mut out: Vec<u8> = Vec::new();
    render_integer(i64::MAX, &mut out);
    assert_eq!(out, b"9223372036854775807".to_vec());
    let mut out: Vec<u8> = Vec::new();
    render_integer(i64::MIN, &mut out);
    assert_eq!(out, b"-9223372036854775808".to_vec());
}

#[test]
fn integer_writes_as_the_standard_library_does() {
    let mut rng = rand::thread_rng();
    let mut values: Vec<i64> = vec![0, 1, -1, 9, 10, -10, 99, 100, 101, i64::MAX, i64::MIN];
    for _ in 0..2000 {
        values.push(rng.gen());
        values.push(rng.gen_range(-1000..1000));
    }
    for value in values {
        let mut out: Vec<u8> = Vec::new();
        render_integer(value, &mut out);
        assert_eq!(out, value.to_string().into_bytes());
    }
}

#[test]
fn content_as_text() {
    assert_eq!(render_content(&[]), Vec::<u8>::new());
    assert_eq!(render_content(&[5]), b"5\n".to_vec());
    assert_eq!(render_content(&[1, 2, 3, 4, 5]), b"1\n2\n3\n4\n5\n".to_vec());
    assert_eq!(render_content(&[-10, 0, 10]), b"-10\n0\n10\n".to_vec());
    let content: Vec<i64> = vec![i64::MIN, -7, 0, 7, i64::MAX];
    assert_eq!(render_content(&content), text_of(&content).into_bytes());
}

#[test]
fn text_there_and_back() {
    let mut rng = rand::thread_rng();
    let mut content: Vec<i64> = vec![i64::MIN, i64::MAX, 0, -1, 1];
    for _ in 0..1000 {
        content.push(rng.gen());
    }
    let text = render_content(&content);
    assert_eq!(parse_content(&text), content);
}
