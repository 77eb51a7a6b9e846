use rime_user_dict_sync::dictionary::{
    dictionary_union, header_end, is_heavier, merge_file, parse_weight, read_utf8, weight_columns,
    MergeAction,
};
use rime_user_dict_sync::error::SyncError;

fn numbers(a: &str, b: &str) -> Vec<Option<u64>> {
    weight_columns(a, b)
        .unwrap()
        .into_iter()
        .map(|column| column.and_then(|text| text.parse::<f64>().ok()).map(f64::to_bits))
        .collect()
}

#[test]
fn union_preserves_header_and_max_weight() {
    let a = "---\nname: test\n...\n甲\tjia\t10\n乙\tyi\t3\n";
    let b = "---\nname: test\n...\n甲\tjia\t20\n丙\tbing\t5\n";
    let merged = dictionary_union(a, b, &numbers(a, b)).unwrap();
    assert!(merged.starts_with("---\nname: test\n...\n"));
    assert!(merged.contains("甲\tjia\t20"));
    assert!(!merged.contains("甲\tjia\t10"));
    assert!(merged.contains("乙\tyi\t3"));
    assert!(merged.contains("丙\tbing\t5"));
    assert_eq!(merged, "---\nname: test\n...\n甲\tjia\t20\n乙\tyi\t3\n丙\tbing\t5\n");
}

#[test]
fn larger_weight_wins() {
    let line = "𤭢\tcei\t1000";
    let column = weight_columns(line, "").unwrap()[0].clone().unwrap();
    let number = column.parse::<f64>().ok().map(f64::to_bits);
    let (key, bits) = parse_weight(line, number).unwrap();
    assert_eq!(key, "𤭢\tcei");
    assert_eq!(f64::from_bits(bits), 1000.0);
}

fn union(a: &str, b: &str) -> Result<String, SyncError> {
    dictionary_union(a, b, &numbers(a, b))
}

#[test]
fn heavier_record_stays_in_its_place() {
    assert_eq!(union("𤭢\tcei\t800\nx\n", "𤭢\tcei\t1000\n").unwrap(), "𤭢\tcei\t1000\nx\n");
    assert_eq!(union("𤭢\tcei\t1000\n", "𤭢\tcei\t800\n").unwrap(), "𤭢\tcei\t1000\n");
    assert_eq!(union("a\tb\t1.0\n", "a\tb\t1\n").unwrap(), "a\tb\t1.0\n");
    assert_eq!(union("a\tb\t-5\n", "a\tb\t1e3\n").unwrap(), "a\tb\t1e3\n");
}

#[test]
fn only_finite_numbers_are_weights() {
    assert_eq!(
        union("无穷\tinf\n", "无穷\tinfinity\n").unwrap(),
        "无穷\tinf\n无穷\tinfinity\n"
    );
    assert_eq!(union("a\tb\tNaN\n", "a\tb\t9\n").unwrap(), "a\tb\tNaN\na\tb\t9\n");
    assert_eq!(union("a\t-inf\na\t1e400\n", "a\t1\na\t-inf\n").unwrap(), "a\t-inf\na\t1e400\na\t1\n");
    for weight in [f64::INFINITY, f64::NEG_INFINITY, f64::NAN] {
        assert_eq!(parse_weight("a\tx", Some(weight.to_bits())), None);
    }
    for weight in [f64::MAX, f64::MIN, -0.0] {
        let bits = weight.to_bits();
        assert_eq!(parse_weight("a\tx", Some(bits)), Some(("a".to_owned(), bits)));
    }
}

#[test]
fn merging_twice_changes_nothing() {
    let bytes = "甲\tjia\t20\n".as_bytes().to_vec();
    assert_eq!(read_utf8(&bytes, "d").unwrap().into_bytes(), bytes);
    for (a, b) in [
        ("---\nname: x\n...\n甲\tjia\t1\r\n乙\n", "乙\n甲\tjia\t3\n---\n"),
        ("\t5\nx", "\t9\n--- \t7\n"),
        ("--- \t1\n", "--- \t2\n"),
    ] {
        let once = union(a, b).unwrap();
        assert_eq!(union(&once, &once).unwrap(), once);
    }
}

#[test]
fn plain_lines_are_kept_once_and_in_order() {
    assert_eq!(union("x\ny\nx\n", "y\nz\n").unwrap(), "x\ny\nz\n");
    assert_eq!(union("", "").unwrap(), "");
    assert_eq!(union("a\tb\n", "a\tc\n").unwrap(), "a\tb\na\tc\n");
}

#[test]
fn union_is_stable() {
    let a = "---\nn: 1\n...\nx\na\tb\t3\n";
    let b = "y\na\tb\t5\n";
    let once = union(a, b).unwrap();
    assert_eq!(once, "---\nn: 1\n...\nx\na\tb\t5\ny\n");
    assert_eq!(union(&once, b).unwrap(), once);
    assert_eq!(union(&once, &once).unwrap(), once);
}

#[test]
fn header_without_an_end_is_refused() {
    for (a, b) in [("---\nname: x\n", ""), ("a\n", "---\n")] {
        assert_eq!(dictionary_union(a, b, &Vec::new()), Err(SyncError::HeaderEnd));
        assert_eq!(weight_columns(a, b), Err(SyncError::HeaderEnd));
    }
    let all = |text: &str| text.lines().map(str::to_owned).collect::<Vec<_>>();
    assert_eq!(header_end(&all("---\na\n...\nb")), Ok(3));
    assert_eq!(header_end(&all("a\nb")), Ok(0));
    assert_eq!(SyncError::HeaderEnd.message(), "词库文件头以 --- 开始但缺少 ...");
}

#[test]
fn only_utf8_text_is_read() {
    let read = |bytes: &[u8]| read_utf8(&bytes.to_vec(), "d.yaml");
    assert_eq!(read("\u{feff}词".as_bytes()), Ok("词".to_owned()));
    assert_eq!(read(b"a\0b"), Err(SyncError::BinaryDictionary("d.yaml".to_owned())));
    assert_eq!(read(b"\xff"), Err(SyncError::DictionaryUtf8("d.yaml".to_owned())));
    assert_eq!(
        SyncError::BinaryDictionary("d".to_owned()).message(),
        "词库目录含二进制文件: d"
    );
    assert_eq!(SyncError::DictionaryUtf8("d".to_owned()).message(), "词库文件不是 UTF-8: d");
}

#[test]
fn weights_compare_as_numbers() {
    let weights = [
        f64::MIN, -1e300, -2.5, -0.0, 0.0, f64::MIN_POSITIVE, 1.0, 1e300, f64::MAX,
    ];
    for a in weights {
        for b in weights {
            assert_eq!(is_heavier(a.to_bits(), b.to_bits()), a > b, "{a} {b}");
        }
    }
}

#[test]
fn files_on_one_side_are_copied() {
    assert_eq!(merge_file(false, false), MergeAction::Nothing);
    assert_eq!(merge_file(false, true), MergeAction::CopyToFirst);
    assert_eq!(merge_file(true, false), MergeAction::CopyToSecond);
    assert_eq!(merge_file(true, true), MergeAction::Union);
}
