use ojcmp::Comparison::{AC, PE, WA};
use ojcmp::{compare_normalized, normal_compare, normal_compare_bytewise, Comparison, MemReader};

fn judge_with(std: &[u8], user: &[u8], capacity: usize) -> Comparison {
    let mut a = MemReader::from_slice(std, capacity);
    let mut b = MemReader::from_slice(user, capacity);
    let bulk = normal_compare(&mut a, &mut b);
    let mut a = MemReader::from_slice(std, capacity);
    let mut b = MemReader::from_slice(user, capacity);
    let single = normal_compare_bytewise(&mut a, &mut b);
    assert_eq!(bulk, single);
    bulk
}

fn judge(expected: Comparison, std: &[u8], user: &[u8]) {
    for capacity in [1usize, 2, 3, 7, 4096] {
        assert_eq!(judge_with(std, user, capacity), expected, "{:?} {:?}", std, user);
    }
    assert_eq!(compare_normalized(std, user), expected);
}

#[test]
fn test_normal_comparer() {
    judge(WA, b"1", b"2");
    judge(WA, b"1\r\n", b"2\n");
    judge(PE, b"1\r3\n", b"1\t3\n");
    judge(PE, b"1 3\n", b"1\t3\n");
    judge(PE, b"1 3\n", b"1         3\n");
    judge(PE, b"1 3\r\n", b"1         3\r\n");
    judge(PE, b"1 3\r\n", b"1         3\n");
    judge(PE, b"1 3\n", b"1         3\r\n");
    judge(PE, b"1\r3\t4\n", b"1\r3\r4\r\n");
    judge(AC, b"1 2\n3 4", b"1 2\r\n3 4\n");
    judge(AC, b"1 2 \n3 4", b"1 2 \r\n3 4 \n");
    judge(AC, b"\n", b"");
    judge(AC, b"", b"\n");
    judge(AC, b" \n", b" ");
    judge(AC, b"1\n", b"1");
    judge(AC, b"1 \n", b"1");
    judge(AC, b"1 \n", b"1\n");
    judge(AC, b"1\t\n", b"1\r\n");
    judge(AC, b"1\r\n", b"1\r");
    judge(AC, b"1 2  \n3 4", b"1 2    \t\n3 4");
    judge(AC, b"1 2 \r\n3 4", b"1 2                  \r\n3 4");
    judge(AC, b"1\r\n\r\n\r\n", b"1  ");
    judge(AC, b"1\r\n2\r\n", b"1 \n2 \n");
    judge(AC, b"1\r\n2\r\n", b"1 \n2\t\n");
    judge(AC, b"\t\n1", b"\r\n1");
    judge(WA, b"asd", b"qwe");
    judge(PE, b" asd", b"  asd");
    judge(WA, b" asd", b"\nasd");
    judge(PE, b" asd  \n", b"\tasd  \n");
    judge(WA, b" asd  2\n", b"\tasd  1\n");
    judge(AC, b"1\r", b"1\t");
    judge(WA, b"1\na", b"1\n");
    judge(WA, b"1\n", b"1\na");
    judge(WA, b"1a", b"1");
    judge(WA, b"1", b"1a");
    judge(WA, b"1a \nb", b"1  \nb");
    judge(WA, b"1\naa", b"1\n");
    judge(WA, b"1\n", b"1\naa");
    judge(WA, b"1 a", b"1 ");
    judge(WA, b"1 aa", b"1 ");
    judge(WA, b"1 ", b"1 a");
    judge(WA, b"1 ", b"1 aa");
    judge(AC, b"1\n\n3\n", b"1\r\n  \r\n3\t\n");
    judge(WA, b"1\n3\n", b"1\r\n  \r\n3\t\n");
}

#[test]
fn test_compare() {
    judge(WA, b"1", b"2");
    judge(WA, b"1\r\n", b"2\n");
    judge(PE, b"1\r3\n", b"1\t3\n");
    judge(PE, b"1 3\n", b"1\t3\n");
    judge(PE, b"1 3\n", b"1         3\n");
    judge(PE, b"1 3\r\n", b"1         3\r\n");
    judge(PE, b"1 3\r\n", b"1         3\n");
    judge(PE, b"1 3\n", b"1         3\r\n");
    judge(PE, b"1\r3\t4\n", b"1\r3\r4\r\n");
    judge(AC, b"1 2\n3 4", b"1 2\r\n3 4\n");
    judge(AC, b"1 2 \n3 4", b"1 2 \r\n3 4 \n");
    judge(AC, b"\n", b"");
    judge(AC, b"", b"\n");
    judge(AC, b" \n", b" ");
    judge(AC, b"1\n", b"1");
    judge(AC, b"1 \n", b"1");
    judge(AC, b"1 \n", b"1\n");
    judge(AC, b"1\t\n", b"1\r\n");
    judge(AC, b"1\r\n", b"1\r");
    judge(AC, b"1 2  \n3 4", b"1 2    \t\n3 4");
    judge(AC, b"1 2 \r\n3 4", b"1 2                  \r\n3 4");
    judge(AC, b"1\r\n\r\n\r\n", b"1  ");
    judge(AC, b"1\r\n2\r\n", b"1 \n2 \n");
    judge(AC, b"1\r\n2\r\n", b"1 \n2\t\n");
    judge(AC, b"\t\n1", b"\r\n1");
    judge(WA, b"asd", b"qwe");
    judge(PE, b" asd", b"  asd");
    judge(WA, b" asd", b"\nasd");
    judge(PE, b" asd  \n", b"\tasd  \n");
    judge(WA, b" asd  2\n", b"\tasd  1\n");
}

#[test]
fn normalized_scenarios() {
    judge(WA, b"1\r\n", b"2\n");
    judge(PE, b"1 3\n", b"1\t3\n");
    judge(AC, b"1 2\n3 4", b"1 2\r\n3 4\n");
    judge(AC, b"\n", b"");
    judge(WA, b"1\na", b"1\n");
}

#[test]
fn normalized_self_is_accepted() {
    let samples: [&[u8]; 6] = [b"", b"\n", b"  \t\r\n", b"1 2\n3 4", b"abc\r\n\r\n", b"\x00\xff\x0b"];
    for s in samples {
        judge(AC, s, s);
    }
    let big: Vec<u8> = (0..20000u32).map(|i| (i % 251) as u8).collect();
    judge(AC, &big, &big);
}

#[test]
fn normalized_both_orderings() {
    let pairs: [(&[u8], &[u8]); 6] = [
        (b"1\r\n", b"2\n"),
        (b"1 3\n", b"1\t3\n"),
        (b"1 2\n3 4", b"1 2\r\n3 4\n"),
        (b"\n", b""),
        (b"1\na", b"1\n"),
        (b" asd", b"\nasd"),
    ];
    for (a, b) in pairs {
        let there = compare_normalized(a, b);
        let back = compare_normalized(b, a);
        assert_eq!(there, back, "{:?} {:?}", a, b);
    }
    assert_eq!(compare_normalized(b"1\na", b"1\n"), WA);
    assert_eq!(compare_normalized(b"1\n", b"1\na"), WA);
    assert_eq!(compare_normalized(b"\n", b""), AC);
    assert_eq!(compare_normalized(b"", b"\n"), AC);
}

#[test]
fn normalized_vertical_tab_is_content() {
    judge(WA, b"1 2", b"1\x0b2");
    judge(PE, b"1 2", b"1\x0c2");
}

fn long_text(lines: usize) -> Vec<u8> {
    let mut v = Vec::new();
    for i in 0..lines {
        v.extend_from_slice(format!("{} {} {}\n", i, i * 7, i % 13).as_bytes());
    }
    v
}

#[test]
fn normalized_bulk_matches_bytewise() {
    let base = long_text(3000);
    let mut crlf = Vec::new();
    for &c in &base {
        if c == b'\n' {
            crlf.push(b'\r');
        }
        crlf.push(c);
    }
    let mut late_change = base.clone();
    let n = late_change.len();
    late_change[n - 5] = b'x';
    let mut late_gap = base.clone();
    let pos = late_gap.iter().rposition(|&c| c == b' ').unwrap();
    late_gap.insert(pos, b'\t');
    let mut shorter = base.clone();
    shorter.truncate(n - 3);
    let cases: [(&Vec<u8>, &Vec<u8>, Comparison); 5] = [
        (&base, &base, AC),
        (&base, &crlf, AC),
        (&base, &late_change, WA),
        (&base, &late_gap, PE),
        (&base, &shorter, WA),
    ];
    for (a, b, expected) in cases {
        for capacity in [1usize, 5, 64, 1000, 65536] {
            assert_eq!(judge_with(a, b, capacity), expected);
            assert_eq!(judge_with(b, a, capacity), expected);
        }
    }
}

#[test]
fn normalized_trailing_whitespace_only() {
    judge(AC, b"1", b"1 \t\r\n\n  ");
    judge(AC, b"1 \t\r\n\n  ", b"1");
    judge(WA, b"1", b"1 \t\r\n\nx");
    judge(AC, b"", b"");
    judge(AC, b"   ", b"");
    judge(WA, b"", b"x");
}
