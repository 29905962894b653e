use vaultsync::text::{chars_of, decimal_string, parses_u32, split_lines, trim_chars};

fn s(v: &Vec<char>) -> String {
    v.iter().collect()
}

#[test]
fn trim_matches_std() {
    for t in ["", "  a b \t", "\u{3000}x\u{2028}", "\r\n", "abc"] {
        assert_eq!(s(&trim_chars(&chars_of(t))), t.trim());
    }
}

#[test]
fn lines_match_std() {
    for t in ["", "a", "a\n", "a\r\nb", "\n\n", "x\r", "a\r\r\nb\n"] {
        let ours: Vec<String> = split_lines(&chars_of(t)).iter().map(|l| s(l)).collect();
        let std: Vec<String> = t.lines().map(|l| l.to_string()).collect();
        assert_eq!(ours, std, "input {:?}", t);
    }
}

#[test]
fn u32_parsing_matches_std() {
    for t in ["0", "+1", "-1", "", "+", "4294967295", "4294967296", "007", "1a", "99999999999999999999"] {
        assert_eq!(parses_u32(&chars_of(t)), t.parse::<u32>().is_ok(), "input {:?}", t);
    }
}

#[test]
fn decimal_matches_std() {
    for n in [0u64, 7, 10, 1245620, u64::MAX] {
        assert_eq!(decimal_string(n), n.to_string());
    }
}
