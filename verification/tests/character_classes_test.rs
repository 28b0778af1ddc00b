use scnr2::class_table::CharClassTable;

fn match_function(c: char) -> Option<usize> {
    let table = CharClassTable::new(vec![
        ('\t', '\t', 0),
        ('\n', '\n', 1),
        ('\u{b}', '\u{c}', 0),
        ('\r', '\r', 2),
        (' ', ' ', 0),
        ('!', '!', 3),
        (',', ',', 4),
        ('0', '0', 5),
        ('1', '9', 6),
        ('\u{85}', '\u{85}', 0),
        ('\u{a0}', '\u{a0}', 0),
        ('\u{1680}', '\u{1680}', 0),
        ('\u{2000}', '\u{200a}', 0),
        ('\u{2028}', '\u{2029}', 0),
        ('\u{202f}', '\u{202f}', 0),
        ('\u{205f}', '\u{205f}', 0),
        ('\u{3000}', '\u{3000}', 0),
    ]);
    table.match_function(c)
}

#[test]
fn test_match_function() {
    assert_eq!(match_function('\t'), Some(0));
    assert_eq!(match_function('\n'), Some(1));
    assert_eq!(match_function(' '), Some(0));
    assert_eq!(match_function(','), Some(4));
    assert_eq!(match_function('0'), Some(5));
    assert_eq!(match_function('1'), Some(6));
    assert_eq!(match_function('9'), Some(6));
    assert_eq!(match_function('!'), Some(3));
    assert_eq!(match_function('a'), None);
}
