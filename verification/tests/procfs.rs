use ocrop::procfs::{process_ids, smaps_rss_and_pss, stat_cpu_time_fields, status_name_and_threads, uptime_field};
use ocrop::text::{chars_of, parse_u64_range, trim_range};

fn std_status(content: &str) -> (String, u64) {
    let content = content.lines().collect::<Vec<_>>();
    let name = &content.get(0).unwrap_or(&"Name: Unknown")[6..];
    let threads = content
        .iter()
        .find(|x| x.starts_with("Threads:"))
        .and_then(|x| x[8..].trim().parse().ok())
        .unwrap_or(1);
    (name.to_string(), threads)
}

fn std_smaps(contents: &str) -> (u64, u64) {
    let contents = contents.lines().collect::<Vec<_>>();
    let rss = contents
        .iter()
        .find(|x| x.starts_with("Rss:"))
        .and_then(|x| x[4..].replace(" kB", "").trim().parse().ok())
        .unwrap_or(0);
    let pss = contents
        .iter()
        .find(|x| x.starts_with("Pss:"))
        .and_then(|x| x[4..].replace(" kB", "").trim().parse().ok())
        .unwrap_or(0);
    (rss, pss)
}

#[test]
fn status_of_a_real_process() {
    let content = "Name:\tbash\nUmask:\t0022\nState:\tS (sleeping)\nThreads:\t1\nSigQ:\t0/62811\n";
    assert_eq!(status_name_and_threads(content), ("bash".to_string(), 1));
    let content = "Name:\tfirefox\nThreads:\t  87  \n";
    assert_eq!(status_name_and_threads(content), ("firefox".to_string(), 87));
}

#[test]
fn status_defaults() {
    // no lines at all: the name is Unknown, one thread
    assert_eq!(status_name_and_threads(""), ("Unknown".to_string(), 1));
    // no Threads line, or one that does not parse
    assert_eq!(status_name_and_threads("Name:\tx\n"), ("x".to_string(), 1));
    assert_eq!(status_name_and_threads("Name:\tx\nThreads:\tmany\n"), ("x".to_string(), 1));
    // the first Threads line decides, even if it does not parse
    assert_eq!(status_name_and_threads("Name:\tx\nThreads: ?\nThreads: 4\n"), ("x".to_string(), 1));
}

#[test]
fn status_name_is_cut_at_byte_six() {
    // a two-byte character before the cut
    assert_eq!(status_name_and_threads("Näme:xyz"), ("xyz".to_string(), 1));
    assert_eq!(status_name_and_threads("Name:\t\u{1F600}z\r\n"), ("\u{1F600}z".to_string(), 1));
    assert_eq!(status_name_and_threads("Name:\t"), ("".to_string(), 1));
}

#[test]
fn status_matches_std() {
    let cases = [
        "Name:\tsh\nThreads:\t3",
        "Name:\tsh\r\nThreads:\t+3\r\n",
        "Name:\tsh\nThreads:\t-3\n",
        "Name:\tsh\nThreads:\t\u{a0}12\u{3000}\n",
        "Name:\tsh\nThreads:\t18446744073709551615\n",
        "Name:\tsh\nThreads:\t18446744073709551616\n",
        "Name:\tsh\n\nThreads:\t00\n",
        "Name:\tsh\rThreads:\t5\n",
        "Name:\tsh\nThreads:5\nThreads:6",
        "Name: a b c\n  Threads: 2\n",
    ];
    for c in cases {
        assert_eq!(status_name_and_threads(c), std_status(c), "{c:?}");
    }
}

#[test]
fn smaps_of_a_real_process() {
    let content = "55d0-7ffd ---p 00000000 00:00 0 [rollup]\nRss:                5120 kB\nPss:                1234 kB\nPss_Anon:            100 kB\n";
    assert_eq!(smaps_rss_and_pss(content), (5120, 1234));
}

#[test]
fn smaps_matches_std() {
    let cases = [
        "",
        "Rss: 1 kB\n",
        "Pss: 2 kB\nRss: 3 kB",
        "Rss: 1 kB kB\nPss: 1kB\n",
        "Rss:  kB 7 kB \nPss:\t8\n",
        "Rss: x\nRss: 9 kB\n",
        "Rss: 4 kB\r\nPss: 5 kB\r\n",
        "Rss: 4  kB\n",
        "Pss_Anon: 3 kB\nPss: 6 kB\n",
        "Rss: 99999999999999999999 kB\n",
    ];
    for c in cases {
        assert_eq!(smaps_rss_and_pss(c), std_smaps(c), "{c:?}");
    }
}

#[test]
fn stat_fields_are_words_13_14_and_21() {
    let content = "1234 (bash) S 1 1234 1234 34816 1234 4194304 1000 0 0 0 25 12 0 0 20 0 1 0 98765 10000 500 18446744073709551615\n";
    let (u, s, start) = stat_cpu_time_fields(content);
    let words: Vec<&str> = content.split_whitespace().collect();
    assert_eq!(u.as_deref(), Some(words[13]));
    assert_eq!(s.as_deref(), Some(words[14]));
    assert_eq!(start.as_deref(), Some(words[21]));
    assert_eq!((u.unwrap(), s.unwrap(), start.unwrap()), ("25".to_string(), "12".to_string(), "98765".to_string()));
}

#[test]
fn stat_fields_missing_in_short_file() {
    let content = "0 1 2 3 4 5 6 7 8 9 10 11 12 13 14 15";
    assert_eq!(
        stat_cpu_time_fields(content),
        (Some("13".to_string()), Some("14".to_string()), None)
    );
    assert_eq!(stat_cpu_time_fields("a b"), (None, None, None));
    let content = "0 1 2 3 4 5 6 7 8 9 10 11 12 13";
    assert_eq!(stat_cpu_time_fields(content), (Some("13".to_string()), None, None));
}

#[test]
fn uptime_is_first_word() {
    assert_eq!(uptime_field("12345.67 54321.00\n"), Some("12345.67".to_string()));
    assert_eq!(uptime_field("  \u{2003} 3.5"), Some("3.5".to_string()));
    assert_eq!(uptime_field(" \n\t"), None);
    assert_eq!(uptime_field(""), None);
}

#[test]
fn pids_are_the_numeric_names() {
    let names: Vec<String> =
        ["1", "self", "42", "+7", "sys", "", "007", "18446744073709551616", "12a"].iter().map(|s| s.to_string()).collect();
    assert_eq!(process_ids(&names), vec![1, 42, 7, 7]);
    let expected: Vec<u64> = names.iter().filter_map(|n| n.parse().ok()).collect();
    assert_eq!(process_ids(&names), expected);
}

#[test]
fn number_parsing_matches_std() {
    let cases = ["0", "+0", "+", "", "-1", "18446744073709551615", "18446744073709551616", "１", "12 ", " 12", "0x10", "99999999999999999999999"];
    for c in cases {
        let chars = chars_of(c);
        let expected: Option<u64> = c.parse().ok();
        assert_eq!(parse_u64_range(&chars, 0, chars.len()), expected, "{c:?}");
    }
}

#[test]
fn trimming_matches_std() {
    let cases = ["", "  ", " a ", "\u{85}a\u{2029}", "\u{200b}a", "a b", "\t\n\r\u{b}\u{c}x\u{1680}"];
    for c in cases {
        let chars = chars_of(c);
        let (a, b) = trim_range(&chars, 0, chars.len());
        let got: String = chars[a..b].iter().collect();
        assert_eq!(got, c.trim(), "{c:?}");
    }
}
