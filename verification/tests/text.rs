use qchem_g16::text::{
    belongs, find_from, holds, is_whitespace, run_end, split_lines, split_whitespace,
    starts_with, strip_tag, to_chars, trim, trim_end, trim_start, Class,
};

fn chars(s: &str) -> Vec<char> {
    s.chars().collect()
}

fn string(s: &[char]) -> String {
    s.iter().collect()
}

const SAMPLES: [&str; 22] = [
    "",
    "\n",
    "\r",
    "\r\n",
    "a",
    "a\n",
    "a\r\n",
    "a\r",
    "a\n\nb",
    "a\r\r\n\rb\n",
    "\n\na\n\n",
    "  two  words \t",
    "\u{a0}x\u{2003}y\u{3000}",
    "\u{85}line\u{2028}sep\u{2029}",
    "  leading",
    "trailing \r\n",
    " \t \n ",
    "1.5 -2.5\t3e4\r\n4 5 6\n",
    "tab\tseparated\u{b}vertical\u{c}feed",
    "\u{200b}zero width is no space\u{feff}",
    "é ü\u{1680}ß",
    "x\u{180e}y",
];

#[test]
fn white_space_is_what_the_standard_library_says() {
    for code in 0..=0x10ffffu32 {
        if let Some(c) = char::from_u32(code) {
            assert_eq!(is_whitespace(c), c.is_whitespace(), "{:x}", code);
            assert_eq!(belongs(Class::Space, c), c.is_whitespace());
            assert_eq!(belongs(Class::Solid, c), !c.is_whitespace());
            assert_eq!(belongs(Class::Digit, c), c.is_ascii_digit());
            assert_eq!(belongs(Class::Inline, c), c != '\n');
        }
    }
}

#[test]
fn characters_of_a_string() {
    assert_eq!(to_chars("aé\u{1f600}\n"), vec!['a', 'é', '\u{1f600}', '\n']);
    assert!(to_chars("").is_empty());
}

#[test]
fn lines_are_what_the_standard_library_says() {
    for sample in SAMPLES {
        let text = chars(sample);
        let got: Vec<String> = split_lines(&text).into_iter().map(string).collect();
        let want: Vec<String> = sample.lines().map(|l| l.to_string()).collect();
        assert_eq!(got, want, "{:?}", sample);
    }
}

#[test]
fn tokens_are_what_the_standard_library_says() {
    for sample in SAMPLES {
        let text = chars(sample);
        let got: Vec<String> = split_whitespace(&text).into_iter().map(string).collect();
        let want: Vec<String> = sample.split_whitespace().map(|l| l.to_string()).collect();
        assert_eq!(got, want, "{:?}", sample);
    }
}

#[test]
fn trimming_is_what_the_standard_library_says() {
    for sample in SAMPLES {
        let text = chars(sample);
        assert_eq!(string(trim(&text)), sample.trim(), "{:?}", sample);
        assert_eq!(string(trim_start(&text)), sample.trim_start(), "{:?}", sample);
        assert_eq!(string(trim_end(&text)), sample.trim_end(), "{:?}", sample);
    }
}

#[test]
fn runs_end_where_the_class_ends() {
    let text = chars("  12ab  ");
    assert_eq!(run_end(&text, 0, Class::Space), 2);
    assert_eq!(run_end(&text, 2, Class::Digit), 4);
    assert_eq!(run_end(&text, 2, Class::Solid), 6);
    assert_eq!(run_end(&text, 2, Class::Space), 2);
    assert_eq!(run_end(&text, 6, Class::Space), 8);
    assert_eq!(run_end(&text, 8, Class::Space), 8);
    assert_eq!(run_end(&text, 0, Class::Inline), 8);
}

#[test]
fn prefixes_and_tags() {
    assert!(starts_with(&chars("Max gradient component"), &chars("Max gradient")));
    assert!(starts_with(&chars("abc"), &chars("")));
    assert!(starts_with(&chars("abc"), &chars("abc")));
    assert!(!starts_with(&chars("ab"), &chars("abc")));
    assert!(!starts_with(&chars("abd"), &chars("abc")));
    let line = chars(" \t tag = value ");
    assert_eq!(strip_tag(&line, &chars("tag =")).map(string), Some(" value ".to_string()));
    assert_eq!(strip_tag(&line, &chars("value")), None);
    assert_eq!(strip_tag(&chars("x tag ="), &chars("tag =")), None);
    assert_eq!(strip_tag(&line, &chars("")).map(string), Some("tag = value ".to_string()));
}

#[test]
fn holding_a_character() {
    assert!(holds(&chars("0.5"), '.'));
    assert!(holds(&chars("."), '.'));
    assert!(!holds(&chars("12"), '.'));
    assert!(!holds(&chars(""), '.'));
}

#[test]
fn patterns_are_found_where_the_standard_library_finds_them() {
    let cases = [
        ("$rem x $end", "$rem"),
        ("$rem x $end", "$end"),
        ("aaab", "aab"),
        ("abc", "abcd"),
        ("abc", ""),
        ("", ""),
        ("", "a"),
        ("é$rem", "$rem"),
        ("$re$rem$rem", "$rem"),
    ];
    for (text, pattern) in cases {
        let want = text.find(pattern).map(|at| text[..at].chars().count());
        assert_eq!(find_from(&chars(text), &chars(pattern), 0), want, "{:?} {:?}", text, pattern);
    }
    let text = chars("$end $rem $end");
    assert_eq!(find_from(&text, &chars("$end"), 0), Some(0));
    assert_eq!(find_from(&text, &chars("$end"), 1), Some(10));
    assert_eq!(find_from(&text, &chars("$end"), 10), Some(10));
    assert_eq!(find_from(&text, &chars("$end"), 11), None);
    assert_eq!(find_from(&text, &chars("$end"), 99), None);
    assert_eq!(find_from(&text, &chars(""), 14), Some(14));
    assert_eq!(find_from(&text, &chars(""), 15), None);
}
