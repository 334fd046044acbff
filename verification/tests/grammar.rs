use corg::chars::{
    append_chars, append_line, count_digest_chars, digest_char, find_char, find_last, has,
    matches_at, skip_spaces, slice, space, split_chars, split_lines, to_chars, to_text, trimmed,
};
use corg::markers::MarkerSet;
use regex::Regex;

fn chars(text: &str) -> Vec<char> {
    text.chars().collect()
}

fn text(chars: &[char]) -> String {
    chars.iter().collect()
}

fn default_set() -> MarkerSet {
    MarkerSet::new("[[[#!", "]]]", "[[[end]]]")
}

const SAMPLES: [&str; 28] = [
    "",
    "plain text",
    "[[[#!bash",
    "// [[[#!bash -c 'echo 1'  ",
    "[[[#![[[#!python3",
    "]]]",
    "  ]]] trailing",
    "[[[end]]]",
    "// [[[end]]]",
    "[[[end]]] (checksum: d41d8cd98f00b204e9800998ecf8427e) ",
    "<!-- [[[end]]] (checksum: abc123) -->",
    "[[[end]]](checksum: abc)tail",
    "[[[end]]] (checksum: ABC) tail",
    "[[[end]]] (checksum: ) tail",
    "[[[end]]] (checksum: abc tail",
    "[[[end]]] (checksum:abc) tail",
    "[[[end]]]   spaced   tail  ",
    "[[[end]]] [[[end]]] (checksum: 0f) x",
    "[[[end]]]\u{a0}\u{2003}(checksum: 9z)\u{3000}after",
    "[[[end]]]\u{200b}(checksum: 9z)",
    "[[[end]]]\t(checksum: 12)\t(checksum: 34)",
    "[[[#!\u{2003}sh\u{a0}",
    "[[[#!\u{feff}sh",
    "a.b*c",
    "axb*c",
    "x a.b*c (checksum: 77) y",
    "[[[#!cat\r",
    "carriage\rreturn [[[end]]] \r",
];

#[test]
fn white_space_is_the_unicode_set() {
    for code in 0u32..0x3100 {
        if let Some(c) = char::from_u32(code) {
            assert_eq!(space(c), c.is_whitespace(), "U+{code:04X}");
        }
    }
    assert!(!space('\u{feff}'));
    assert!(!space('\u{10ffff}'));
}

#[test]
fn trimming_agrees_with_std() {
    for sample in SAMPLES {
        assert_eq!(text(&trimmed(&chars(sample))), sample.trim(), "{sample:?}");
        let from = skip_spaces(&chars(sample), 0);
        assert_eq!(text(&chars(sample)[from..]), sample.trim_start(), "{sample:?}");
    }
    assert_eq!(text(&trimmed(&chars(" \t x y \u{3000}"))), "x y");
    assert_eq!(skip_spaces(&chars("ab  cd"), 2), 4);
}

#[test]
fn characters_round_trip() {
    for sample in SAMPLES {
        assert_eq!(to_chars(sample), chars(sample));
        assert_eq!(to_text(&chars(sample)), sample);
    }
    assert_eq!(to_text(&vec!['h', 'é', '\u{1f600}']), "hé\u{1f600}");
}

#[test]
fn last_occurrence_is_found() {
    assert_eq!(find_last(&chars("abcabc"), &chars("bc")), Some(4));
    assert_eq!(find_last(&chars("abcabc"), &chars("abc")), Some(3));
    assert_eq!(find_last(&chars("aaa"), &chars("aa")), Some(1));
    assert_eq!(find_last(&chars("abc"), &chars("abcd")), None);
    assert_eq!(find_last(&chars("abc"), &chars("x")), None);
    assert_eq!(find_last(&chars("abc"), &chars("")), Some(3));
    assert_eq!(find_last(&chars(""), &chars("")), Some(0));
    assert!(matches_at(&chars("abc"), &chars("bc"), 1));
    assert!(!matches_at(&chars("abc"), &chars("bc"), 2));
    assert!(!matches_at(&chars("abc"), &chars("bc"), 7));
    assert!(has(&chars("abc"), &chars("b")));
    assert!(!has(&chars("abc"), &chars("ca")));
    for sample in SAMPLES {
        for pattern in ["[[[", "]]]", " ", "c", ""] {
            let expected = sample.rfind(pattern).map(|at| sample[..at].chars().count());
            assert_eq!(find_last(&chars(sample), &chars(pattern)), expected);
        }
    }
}

#[test]
fn lines_are_cut_as_std_cuts_them() {
    let documents = [
        "",
        "\n",
        "\n\n",
        "a",
        "a\n",
        "a\nb",
        "a\r\nb\r\n",
        "a\r",
        "a\r\r\n",
        "\r\n",
        "\r",
        "foo\nbar\n\r\nbaz\r",
        "one\n\ntwo\n\n",
        "é\nü\n",
    ];
    for document in documents {
        let expected: Vec<Vec<char>> = document.lines().map(chars).collect();
        assert_eq!(split_lines(&chars(document)), expected, "{document:?}");
    }
    assert_eq!(split_lines(&chars("a\r\nb")), vec![chars("a"), chars("b")]);
    assert_eq!(split_lines(&chars("a\r")), vec![chars("a\r")]);
}

#[test]
fn pieces_between_single_spaces() {
    for sample in ["", " ", "a", "a b", "a  b", " a", "a ", "bash -c 'echo 1'"] {
        let expected: Vec<Vec<char>> = sample.split(' ').map(chars).collect();
        assert_eq!(split_chars(&chars(sample), ' '), expected, "{sample:?}");
    }
    assert_eq!(split_chars(&chars("a  b"), ' '), vec![chars("a"), chars(""), chars("b")]);
}

#[test]
fn start_of_block_is_the_trimmed_tail() {
    let set = default_set();
    assert_eq!(set.start_of_block(&chars("// [[[#!bash")), Some(chars("bash")));
    assert_eq!(set.start_of_block(&chars("[[[#!  python3 -u  ")), Some(chars("python3 -u")));
    assert_eq!(set.start_of_block(&chars("[[[#![[[#!sh")), Some(chars("sh")));
    assert_eq!(set.start_of_block(&chars("[[[#!")), Some(chars("")));
    assert_eq!(set.start_of_block(&chars("[[[#")), None);
    assert_eq!(set.start_of_block(&chars("")), None);
    assert!(set.is_start_of_block(&chars("x [[[#! y")));
    assert!(!set.is_start_of_block(&chars("x [[[# ! y")));
}

#[test]
fn end_of_block_is_a_substring() {
    let set = default_set();
    assert!(set.is_end_of_block(&chars("]]]")));
    assert!(set.is_end_of_block(&chars("// ]]] done")));
    assert!(set.is_end_of_block(&chars("[[[end]]]")));
    assert!(!set.is_end_of_block(&chars("]] ]")));
    assert!(!set.is_end_of_block(&chars("")));
}

#[test]
fn end_of_output_parts() {
    let set = default_set();
    let parts = set.end_of_output(&chars("<!-- [[[end]]] (checksum: abc123) -->")).unwrap();
    assert_eq!(parts.prefix, chars("<!-- "));
    assert_eq!(parts.marker, chars("[[[end]]]"));
    assert_eq!(parts.gap, chars(" "));
    assert_eq!(parts.checksum, Some(chars("abc123")));
    assert_eq!(parts.suffix, chars("-->"));

    let parts = set.end_of_output(&chars("<!-- [[[end]]] -->")).unwrap();
    assert_eq!(parts.prefix, chars("<!-- "));
    assert_eq!(parts.gap, chars(" "));
    assert_eq!(parts.checksum, None);
    assert_eq!(parts.suffix, chars("-->"));

    let parts = set.end_of_output(&chars("[[[end]]]   tail  ")).unwrap();
    assert_eq!(parts.prefix, chars(""));
    assert_eq!(parts.gap, chars("   "));
    assert_eq!(parts.checksum, None);
    assert_eq!(parts.suffix, chars("tail  "));

    let parts = set.end_of_output(&chars("[[[end]]]")).unwrap();
    assert_eq!(parts.gap, chars(""));
    assert_eq!(parts.suffix, chars(""));

    let parts = set.end_of_output(&chars("[[[end]]] (checksum: ABC) x")).unwrap();
    assert_eq!(parts.checksum, None);
    assert_eq!(parts.suffix, chars("(checksum: ABC) x"));

    let parts = set.end_of_output(&chars("a [[[end]]] b [[[end]]] c")).unwrap();
    assert_eq!(parts.prefix, chars("a [[[end]]] b "));
    assert_eq!(parts.suffix, chars("c"));

    assert!(set.end_of_output(&chars("[[[end]]")).is_none());
    assert!(set.end_of_output(&chars("")).is_none());
}

#[test]
fn markers_are_literal_text() {
    let set = MarkerSet::new("a.b*c", "(x|y)", "^$");
    assert!(set.is_start_of_block(&chars("see a.b*c here")));
    assert!(!set.is_start_of_block(&chars("see axbbbc here")));
    assert!(set.is_end_of_block(&chars("(x|y)")));
    assert!(!set.is_end_of_block(&chars("x")));
    assert!(set.end_of_output(&chars("-- ^$ --")).is_some());
    assert!(set.end_of_output(&chars("")).is_none());
}

fn agrees_with_patterns(start: &str, end_block: &str, end_output: &str) {
    let set = MarkerSet::new(start, end_block, end_output);
    let re_start = Regex::new(&format!("^.*{}(.*)$", regex::escape(start))).unwrap();
    let re_end = Regex::new(&format!("^.*{}.*$", regex::escape(end_block))).unwrap();
    let re_output = Regex::new(&format!(
        r"^(.*)({})\s*(?:\(checksum: ([a-z0-9]+)\))?\s*(.*?)$",
        regex::escape(end_output)
    ))
    .unwrap();
    for sample in SAMPLES {
        let line = chars(sample);
        let expected = re_start.captures(sample).map(|c| chars(c[1].trim()));
        assert_eq!(set.start_of_block(&line), expected, "start of {sample:?}");
        assert_eq!(set.is_start_of_block(&line), re_start.is_match(sample));
        assert_eq!(set.is_end_of_block(&line), re_end.is_match(sample), "end of {sample:?}");
        match (set.end_of_output(&line), re_output.captures(sample)) {
            (None, None) => {}
            (Some(parts), Some(capture)) => {
                assert_eq!(text(&parts.prefix), &capture[1], "prefix of {sample:?}");
                assert_eq!(text(&parts.marker), &capture[2], "marker of {sample:?}");
                assert_eq!(
                    parts.checksum.as_ref().map(|c| text(c)),
                    capture.get(3).map(|m| m.as_str().to_string()),
                    "checksum of {sample:?}"
                );
                assert_eq!(text(&parts.suffix), &capture[4], "suffix of {sample:?}");
                assert!(parts.gap.iter().all(|c| c.is_whitespace()), "gap of {sample:?}");
                if parts.checksum.is_none() {
                    let whole = [parts.prefix, parts.marker, parts.gap, parts.suffix].concat();
                    assert_eq!(text(&whole), sample, "parts of {sample:?}");
                }
            }
            (mine, theirs) => {
                panic!("{sample:?}: {:?} against {:?}", mine.is_some(), theirs.is_some())
            }
        }
    }
}

#[test]
fn classification_agrees_with_the_patterns() {
    agrees_with_patterns("[[[#!", "]]]", "[[[end]]]");
    agrees_with_patterns("a.b*c", "c", " ");
    agrees_with_patterns("<<", ">>", "(checksum:");
    agrees_with_patterns("é", "\u{2003}", "end");
}

#[test]
fn digest_characters_are_lower_case_letters_and_digits() {
    for code in 0u32..0x250 {
        if let Some(c) = char::from_u32(code) {
            let expected = c.is_ascii_lowercase() || c.is_ascii_digit();
            assert_eq!(digest_char(c), expected, "U+{code:04X}");
        }
    }
    assert_eq!(count_digest_chars(&chars("abc123)"), 0), 6);
    assert_eq!(count_digest_chars(&chars("abc123)"), 4), 2);
    assert_eq!(count_digest_chars(&chars("abC"), 0), 2);
    assert_eq!(count_digest_chars(&chars("abc"), 3), 0);
    assert_eq!(count_digest_chars(&chars(""), 0), 0);
}

#[test]
fn first_character_is_found() {
    assert_eq!(find_char(&chars("a b c"), ' '), 1);
    assert_eq!(find_char(&chars(" a"), ' '), 0);
    assert_eq!(find_char(&chars("abc"), ' '), 3);
    assert_eq!(find_char(&chars(""), ' '), 0);
}

#[test]
fn parts_and_appending() {
    assert_eq!(slice(&chars("hello"), 1, 3), chars("el"));
    assert_eq!(slice(&chars("hello"), 0, 5), chars("hello"));
    assert_eq!(slice(&chars("hello"), 2, 2), chars(""));
    let mut out = String::from("a");
    append_chars(&mut out, &chars("bé"));
    assert_eq!(out, "abé");
    append_line(&mut out, &chars("c"));
    assert_eq!(out, "abéc\n");
    append_line(&mut out, &chars(""));
    assert_eq!(out, "abéc\n\n");
}

#[test]
fn well_formed_markers_are_not_empty() {
    assert!(default_set().is_well_formed());
    assert!(!MarkerSet::new("", "]]]", "[[[end]]]").is_well_formed());
    assert!(!MarkerSet::new("[[[#!", "", "[[[end]]]").is_well_formed());
    assert!(!MarkerSet::new("[[[#!", "]]]", "").is_well_formed());
    let set = MarkerSet::new("", "]]]", "[[[end]]]");
    assert_eq!(set.start_of_block(&chars(" any line ")), Some(chars("")));
}
