use ttc::fields::FieldError;
use ttc::merge::merge_overlapped;
use ttc::num::{is_float_text, parse_usize, IntErrorKind};
use ttc::order::stable_order;
use ttc::pluss::{DumpedData, MissRatio};
use ttc::text::{chars_of, lines, split_char, trim};
use ttc::triple::DumppedData;

fn chars(s: &str) -> Vec<char> {
    s.chars().collect()
}

fn text(v: &[char]) -> String {
    v.iter().collect()
}

#[test]
fn pluss_basic_deserialize() {
    let data = r#"
        0 , 1.0
        1 , 0.02
        2 , 0.98
        "#
    .to_string();
    let t = MissRatio::new(&data).ok().unwrap();
    let got: Vec<(usize, String)> = t.data.iter().map(|x| (x.0, text(&x.1))).collect();
    assert_eq!(got, vec![(0, "1.0".to_string()), (1, "0.02".to_string()), (2, "0.98".to_string())]);

    let data = r#"
1, 1059850.0
2, 1456590.0
4, 2437730.0
8, 4409820.0
16, 2588550.0
32, 141462.0
        "#
    .to_string();
    let t = DumpedData::new(&data);
    let keys: Vec<usize> = t.data.iter().map(|x| x.0).collect();
    assert_eq!(keys, vec![1, 2, 4, 8, 16, 32]);
    assert_eq!(text(&t.data[3].1[0]), "4409820.0");
    assert!(t.rejected.is_empty());
}

#[test]
fn histogram_merges_and_sorts() {
    let t = DumpedData::new("4, 1.5\n1, 2\r\n4, 3e2\nnot a line\n2, x\n-1, 2\n");
    let keys: Vec<usize> = t.data.iter().map(|x| x.0).collect();
    assert_eq!(keys, vec![1, 4]);
    assert_eq!(text(&t.data[0].1[0]), "2");
    let mut fours: Vec<String> = t.data[1].1.iter().map(|c| text(c)).collect();
    fours.sort();
    assert_eq!(fours, vec!["1.5".to_string(), "3e2".to_string()]);
    assert_eq!(
        t.rejected,
        vec![(4, FieldError::Float), (5, FieldError::Int(IntErrorKind::InvalidDigit))]
    );
}

#[test]
fn miss_ratio_refuses_bad_lines() {
    let r = MissRatio::new("0, 1.0\n1, oops\n2\n");
    assert_eq!(r.err().unwrap(), vec![(1, FieldError::Float)]);
}

#[test]
fn triple_test() {
    let input = r#"
No share reuses
Start to dump reuse time
512,1.83501e+06,0.225013
256,260096,0.0318935
4,1.83501e+06,0.225013
2,2.09715e+06,0.257157
1,2.12787e+06,0.260924
Share reuses
Start to dump reuse time
32768,253952,1
        "#;
    let d = DumppedData::new(input).ok().unwrap();
    let local: Vec<(usize, String, String)> =
        d.local.iter().map(|t| (t.0, text(&t.1), text(&t.2))).collect();
    assert_eq!(
        local,
        vec![
            (1, "2.12787e+06".to_string(), "0.260924".to_string()),
            (2, "2.09715e+06".to_string(), "0.257157".to_string()),
            (4, "1.83501e+06".to_string(), "0.225013".to_string()),
            (256, "260096".to_string(), "0.0318935".to_string()),
            (512, "1.83501e+06".to_string(), "0.225013".to_string()),
        ]
    );
    assert_eq!(d.shared.len(), 1);
    assert_eq!((d.shared[0].0, text(&d.shared[0].1)), (32768, "253952".to_string()));
}

#[test]
fn triple_refuses_first_bad_line() {
    let e = DumppedData::new("Share\n1,2\n3,x,1\n").err().unwrap();
    assert_eq!(e, (1, FieldError::Missing));
    let e = DumppedData::new("1,2,z\nabc,1,1\n").err().unwrap();
    assert_eq!(e, (0, FieldError::Float));
}

#[test]
fn triple_sort_is_stable() {
    let d = DumppedData::new("2,1,a1\n1,1,1\n2,2,2\n2,3,3").err();
    assert_eq!(d, Some((0, FieldError::Float)));
    let d = DumppedData::new("2,1,1\n1,1,1\n2,2,2\n2,3,3").ok().unwrap();
    let order: Vec<(usize, String)> = d.local.iter().map(|t| (t.0, text(&t.1))).collect();
    assert_eq!(
        order,
        vec![
            (1, "1".to_string()),
            (2, "1".to_string()),
            (2, "2".to_string()),
            (2, "3".to_string()),
        ]
    );
}

#[test]
fn integers_read_as_std_does() {
    for s in ["0", "17", "+5", "", "+", "-", "-3", "1a", "007", "18446744073709551615",
        "18446744073709551616", "99999999999999999999x", "1 2"] {
        let std_result = s.parse::<usize>().map_err(|e| match e.kind() {
            std::num::IntErrorKind::Empty => IntErrorKind::Empty,
            std::num::IntErrorKind::InvalidDigit => IntErrorKind::InvalidDigit,
            _ => IntErrorKind::PosOverflow,
        });
        assert_eq!(parse_usize(&chars(s)), std_result, "{}", s);
    }
}

#[test]
fn floats_recognised_as_std_does() {
    for s in ["1", "1.", ".5", "1.5e3", "1E-2", "+3", "-0.0", "inf", "-Infinity", "NaN", "nAn",
        "1e", ".", "", "e5", "1.5.2", "1e+", "0x10", " 1", "infinit", "1_0", "+-1", "1e5.0"] {
        assert_eq!(is_float_text(&chars(s)), s.parse::<f64>().is_ok(), "{}", s);
    }
}

#[test]
fn lines_and_fields() {
    for s in ["", "a", "a\n", "a\r\nb", "\n\n", "x\r", "a\rb\n", "\r\n"] {
        let want: Vec<String> = s.lines().map(|l| l.to_string()).collect();
        let got: Vec<String> = lines(&chars(s)).iter().map(|l| text(l)).collect();
        assert_eq!(got, want, "{:?}", s);
    }
    for s in ["", ",", "a,b", ",a,,b,"] {
        let want: Vec<String> = s.split(',').map(|l| l.to_string()).collect();
        let got: Vec<String> = split_char(&chars(s), ',').iter().map(|l| text(l)).collect();
        assert_eq!(got, want);
    }
    for s in ["  a b \t", "\u{3000}x\u{a0}", "   ", ""] {
        assert_eq!(text(&trim(&chars(s))), s.trim());
    }
    assert_eq!(chars_of("héllo"), chars("héllo"));
}

#[test]
fn merge_groups_runs() {
    let g = merge_overlapped(vec![(1, 'a'), (1, 'b'), (2, 'c'), (1, 'd')]);
    assert_eq!(g, vec![(1, vec!['a', 'b']), (2, vec!['c']), (1, vec!['d'])]);
    assert_eq!(merge_overlapped::<u8>(vec![]), vec![]);
}

#[test]
fn stable_order_keeps_ties() {
    assert_eq!(stable_order(&vec![3, 1, 3, 2, 1]), vec![1, 4, 3, 0, 2]);
    assert_eq!(stable_order(&vec![]), Vec::<usize>::new());
}

#[test]
fn merging_merged_entries_changes_nothing() {
    let once = merge_overlapped(vec![(1, 'a'), (1, 'b'), (2, 'c'), (5, 'd'), (5, 'e')]);
    let flat: Vec<(usize, Vec<char>)> = once.clone();
    let twice = merge_overlapped(flat.clone());
    assert_eq!(twice.len(), flat.len());
    for (g, x) in twice.iter().zip(flat.iter()) {
        assert_eq!(g.0, x.0);
        assert_eq!(g.1, vec![x.1.clone()]);
    }
}
