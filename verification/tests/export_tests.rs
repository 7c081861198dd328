use utiman::export::{archive_files, balance_row, build_bundle, bundle_fits, crc32, field, series_row, Zip, README};

#[test]
fn crc32_matches_known_vector() {
    assert_eq!(crc32(b"123456789"), 0xCBF4_3926);
}

#[test]
fn field_escapes_only_when_needed() {
    assert_eq!(field("electric"), "electric");
    assert_eq!(field("a,b"), "\"a,b\"");
    assert_eq!(field("say \"hi\""), "\"say \"\"hi\"\"\"");
}

#[test]
fn balance_row_formats_date_money_and_escapes() {
    // The balance arrives written the way `{}` writes the float.
    let plain = balance_row("fpl", 0, &format!("{}", 42.5f64), Some("8/5/2026"));
    assert_eq!(plain, "fpl,1970-01-01,0,42.5,8/5/2026\n");
    let comma = balance_row("x", 0, &format!("{}", -3.0f64), Some("July 11, 2026"));
    assert_eq!(comma, "x,1970-01-01,0,-3,\"July 11, 2026\"\n");
}

#[test]
fn zip_has_signature_and_eocd() {
    let mut z = Zip::new();
    z.add("a.txt", b"hello");
    let bytes = z.finish();
    assert_eq!(&bytes[0..4], &0x0403_4b50u32.to_le_bytes());
    assert!(bytes.windows(4).any(|w| w == 0x0605_4b50u32.to_le_bytes()));
}

#[test]
fn crc32_of_empty_and_text() {
    assert_eq!(crc32(b""), 0);
    assert_eq!(crc32(b"hello"), 0x3610_a686);
}

#[test]
fn field_quotes_line_breaks() {
    assert_eq!(field("a\nb"), "\"a\nb\"");
    assert_eq!(field("a\rb"), "\"a\rb\"");
    assert_eq!(field(""), "");
}

#[test]
fn balance_row_without_due_date_and_later_day() {
    assert_eq!(balance_row("tojfl", 1_700_000_000, "84.21", None), "tojfl,2023-11-14,1700000000,84.21,\n");
}

#[test]
fn series_row_escapes_the_label() {
    assert_eq!(series_row("Jun 2026", "142.1"), "Jun 2026,142.1\n");
    assert_eq!(series_row("a,b", "1"), "\"a,b\",1\n");
}

#[test]
fn zip_layout_of_one_stored_file() {
    let mut z = Zip::new();
    z.add("a.txt", b"hello");
    let bytes = z.finish();
    // local header (30) + name (5) + data (5), central entry (46) + name (5), end record (22)
    assert_eq!(bytes.len(), 30 + 5 + 5 + 46 + 5 + 22);
    assert_eq!(&bytes[14..18], &crc32(b"hello").to_le_bytes());
    assert_eq!(&bytes[30..35], b"a.txt");
    assert_eq!(&bytes[35..40], b"hello");
    let end = &bytes[bytes.len() - 22..];
    assert_eq!(&end[0..4], &0x0605_4b50u32.to_le_bytes());
    assert_eq!(&end[10..12], &1u16.to_le_bytes());
    assert_eq!(&end[12..16], &51u32.to_le_bytes());
    assert_eq!(&end[16..20], &40u32.to_le_bytes());
}

#[test]
fn bundle_holds_readme_balances_and_series() {
    let series = vec![("fpl__usage".to_string(), "label,value\nJun 2026,1120\n".to_string())];
    let csv = "provider,date,unix_ts,balance,due_date\n";
    assert!(bundle_fits(csv, &series));
    let bytes = build_bundle(csv, &series);
    let mut z = Zip::new();
    z.add("README.txt", README.as_bytes());
    z.add("balances.csv", csv.as_bytes());
    z.add("series/fpl__usage.csv", series[0].1.as_bytes());
    assert_eq!(bytes, z.finish());
}

#[test]
fn archive_files_sorted_and_split() {
    let names: Vec<String> = ["tojfl__bills.jsonl", "notes.txt", "fpl__usage.jsonl", "stray.jsonl", "a__b__c.jsonl"]
        .iter()
        .map(|s| s.to_string())
        .collect();
    let got = archive_files(&names);
    let want: Vec<(String, String, String)> = [
        ("a__b__c", "a", "b__c"),
        ("fpl__usage", "fpl", "usage"),
        ("tojfl__bills", "tojfl", "bills"),
    ]
    .iter()
    .map(|(a, b, c)| (a.to_string(), b.to_string(), c.to_string()))
    .collect();
    assert_eq!(got, want);
}

fn read_u16(b: &[u8], i: usize) -> usize {
    b[i] as usize | (b[i + 1] as usize) << 8
}

fn read_u32(b: &[u8], i: usize) -> usize {
    read_u16(b, i) | read_u16(b, i + 2) << 16
}

#[test]
fn zip_reads_back_added_entries() {
    let mut z = Zip::new();
    z.add("a.txt", b"hello");
    z.add("dir/b.csv", b"x,y\n1,2\n");
    z.add("empty", b"");
    let bytes = z.finish();
    let end = bytes.len() - 22;
    assert_eq!(read_u32(&bytes, end), 0x0605_4b50);
    let count = read_u16(&bytes, end + 10);
    let mut pos = 0;
    let mut got: Vec<(Vec<u8>, Vec<u8>)> = Vec::new();
    for _ in 0..count {
        assert_eq!(read_u32(&bytes, pos), 0x0403_4b50);
        let name_len = read_u16(&bytes, pos + 26);
        let extra_len = read_u16(&bytes, pos + 28);
        let size = read_u32(&bytes, pos + 22);
        let data_at = pos + 30 + name_len + extra_len;
        got.push((bytes[pos + 30..pos + 30 + name_len].to_vec(), bytes[data_at..data_at + size].to_vec()));
        pos = data_at + size;
    }
    assert_eq!(
        got,
        vec![
            (b"a.txt".to_vec(), b"hello".to_vec()),
            (b"dir/b.csv".to_vec(), b"x,y\n1,2\n".to_vec()),
            (b"empty".to_vec(), b"".to_vec()),
        ]
    );
}
