use mimir::completion_score::{assign_sort_text, matcher, score, MAX_NEEDLE};
use mimir::document::{
    apply_changes, make_input_edit, ContentChange, Point, Position, Range, TextDocument,
    TextDocumentError,
};
use mimir::paths::{
    file_uri, holds_path, is_absolute, join_path, parent_path, same_path, uri_to_path_string,
};
use mimir::rope::{len_utf16, len_utf8, str_bytes};
use ropey::Rope;

fn at(line: u32, character: u32) -> Position {
    Position::new(line, character)
}

fn span(a: (u32, u32), b: (u32, u32)) -> Range {
    Range::new(at(a.0, a.1), at(b.0, b.1))
}

#[test]
fn position_round_trip_ascii() {
    let rope = Rope::from_str("hello\nworld\n");
    for (line, ch, expected_byte) in [(0, 0, 0), (0, 5, 5), (1, 0, 6), (1, 5, 11)] {
        let pos = Position::new(line, ch);
        let byte = pos.to_byte_offset(&rope).unwrap();
        assert_eq!(byte, expected_byte, "to_byte_offset {pos:?}");
        assert_eq!(Position::from_byte_offset(&rope, byte), pos, "round-trip");
    }
}

#[test]
fn position_handles_multibyte_utf8() {
    let rope = Rope::from_str("héllo");
    let pos = Position::new(0, 2);
    assert_eq!(pos.to_byte_offset(&rope).unwrap(), 3);
}

#[test]
fn position_rejects_split_surrogate() {
    let rope = Rope::from_str("a😀b");
    let pos = Position::new(0, 2);
    assert!(matches!(
        pos.to_byte_offset(&rope),
        Err(TextDocumentError::CharacterOutOfBounds { .. })
    ));
    let after = Position::new(0, 3);
    assert_eq!(after.to_byte_offset(&rope).unwrap(), 5);
}

#[test]
fn position_out_of_bounds() {
    let rope = Rope::from_str("hi\n");
    assert!(matches!(
        Position::new(99, 0).to_byte_offset(&rope),
        Err(TextDocumentError::LineOutOfBounds { .. })
    ));
    assert!(matches!(
        Position::new(0, 99).to_byte_offset(&rope),
        Err(TextDocumentError::CharacterOutOfBounds { .. })
    ));
}

#[test]
fn bounds_are_reported() {
    let rope = Rope::from_str("a😀\n");
    assert_eq!(
        at(2, 0).to_byte_offset(&rope),
        Err(TextDocumentError::LineOutOfBounds { line: 2, total_lines: 2 })
    );
    assert_eq!(
        at(0, 4).to_byte_offset(&rope),
        Err(TextDocumentError::CharacterOutOfBounds {
            line: 0,
            character: 4,
            line_length_utf16: 3
        })
    );
    assert_eq!(
        span((1, 0), (0, 1)).to_byte_range(&rope),
        Err(TextDocumentError::InvertedRange {
            start_line: 1,
            start_character: 0,
            end_line: 0,
            end_character: 1
        })
    );
    assert_eq!(at(1, 0).to_byte_offset(&rope), Ok(6));
    assert_eq!(at(1, 0).to_char_index(&rope), Ok(3));
}

#[test]
fn positions_of_every_boundary_come_back() {
    let text = "é😀\r\nx\ty\n\n末";
    let rope = Rope::from_str(text);
    for (byte, _) in text.char_indices() {
        let pos = Position::from_byte_offset(&rope, byte);
        match pos.to_byte_offset(&rope) {
            Ok(b) => assert_eq!(b, byte),
            Err(_) => assert!(text[byte..].starts_with('\n') && text[..byte].ends_with('\r')),
        }
    }
}

#[test]
fn full_replace() {
    let mut doc = TextDocument::new("module foo;\nendmodule\n", 1);
    assert_eq!(doc.version(), 1);
    doc.replace_all("module bar;\nendmodule\n", 2);
    assert_eq!(doc.version(), 2);
    assert!(doc.text().contains("bar"));
}

#[test]
fn incremental_insert() {
    let mut doc = TextDocument::new("module foo;\n", 1);
    let range = Range::new(Position::new(0, 10), Position::new(0, 10));
    doc.apply_incremental_edit(range, "_bar", 2).unwrap();
    assert_eq!(doc.text(), "module foo_bar;\n");
    assert_eq!(doc.version(), 2);
}

#[test]
fn incremental_delete() {
    let mut doc = TextDocument::new("module foo;\n", 1);
    let range = Range::new(Position::new(0, 7), Position::new(0, 10));
    doc.apply_incremental_edit(range, "", 2).unwrap();
    assert_eq!(doc.text(), "module ;\n");
}

#[test]
fn incremental_replace_across_lines() {
    let mut doc = TextDocument::new("a\nb\nc\n", 1);
    let range = Range::new(Position::new(0, 1), Position::new(1, 1));
    doc.apply_incremental_edit(range, "XYZ", 2).unwrap();
    assert_eq!(doc.text(), "aXYZ\nc\n");
}

#[test]
fn inverted_range_rejected() {
    let rope = Rope::from_str("abc\n");
    let bad = Range::new(Position::new(0, 2), Position::new(0, 1));
    assert!(matches!(bad.to_byte_range(&rope), Err(TextDocumentError::InvertedRange { .. })));
}

#[test]
fn refused_edits_change_nothing() {
    let mut doc = TextDocument::new("abc\n", 4);
    assert!(doc.apply_incremental_edit(span((5, 0), (5, 0)), "x", 5).is_err());
    assert_eq!(doc.text(), "abc\n");
    assert_eq!(doc.version(), 4);
    assert_eq!(doc.len_bytes(), 4);
    assert_eq!(doc.rope().len_lines(), 2);
}

#[test]
fn edits_tell_the_parser_what_moved() {
    let rope = Rope::from_str("aé\nbc\n");
    let e = make_input_edit(&rope, span((0, 2), (1, 1)), "x\nyz").unwrap();
    assert_eq!((e.start_byte, e.old_end_byte, e.new_end_byte), (3, 5, 7));
    assert_eq!(e.start_position, Point { row: 0, column: 3 });
    assert_eq!(e.old_end_position, Point { row: 1, column: 1 });
    assert_eq!(e.new_end_position, Point { row: 1, column: 2 });
    assert!(make_input_edit(&rope, span((9, 0), (9, 0)), "x").is_none());
}

#[test]
fn changes_apply_in_order() {
    let mut doc = TextDocument::new("one\n", 1);
    let change = |range: Option<Range>, text: &str| ContentChange { range, text: text.into() };
    let edits = apply_changes(
        &mut doc,
        &[
            change(Some(span((0, 0), (0, 3))), "two"),
            change(Some(span((0, 3), (0, 3))), "!"),
        ],
        7,
    );
    assert_eq!(doc.text(), "two!\n");
    assert_eq!(doc.version(), 7);
    assert_eq!(edits.len(), 2);
    let edits = apply_changes(
        &mut doc,
        &[change(Some(span((0, 0), (0, 1))), ""), change(None, "fresh")],
        8,
    );
    assert_eq!(doc.text(), "fresh");
    assert!(edits.is_empty());
}

#[test]
fn a_lost_parser_stays_lost_for_the_batch() {
    let change = |range: Option<Range>, text: &str| ContentChange { range, text: text.into() };
    let mut doc = TextDocument::new("one\n", 1);
    let edits = apply_changes(
        &mut doc,
        &[change(None, "fresh"), change(Some(span((0, 0), (0, 1))), "F")],
        2,
    );
    assert_eq!(doc.text(), "Fresh");
    assert!(edits.is_empty());
    let edits = apply_changes(
        &mut doc,
        &[change(Some(span((9, 0), (9, 1))), "x"), change(Some(span((0, 0), (0, 1))), "f")],
        3,
    );
    assert_eq!(doc.text(), "fresh");
    assert!(edits.is_empty());
    let edits = apply_changes(&mut doc, &[change(Some(span((0, 0), (0, 1))), "gé")], 4);
    assert_eq!(doc.text(), "géresh");
    assert_eq!(edits.len(), 1);
    assert_eq!((edits[0].start_byte, edits[0].old_end_byte, edits[0].new_end_byte), (0, 1, 3));
}

#[test]
fn order_of_positions() {
    assert!(at(1, 9).before(at(2, 0)));
    assert!(at(1, 8).before(at(1, 9)));
    assert!(!at(1, 9).before(at(1, 9)));
    assert!(span((0, 0), (3, 0)).contains_range(span((1, 5), (3, 0))));
    assert!(!span((0, 1), (3, 0)).contains_range(span((0, 0), (1, 0))));
}

#[test]
fn sizes_of_characters() {
    for c in ['a', 'é', '末', '😀', '\u{7f}', '\u{80}', '\u{7ff}', '\u{800}', '\u{ffff}'] {
        assert_eq!(len_utf8(c), c.len_utf8());
        assert_eq!(len_utf16(c) as usize, c.len_utf16());
    }
    assert_eq!(str_bytes("é😀"), "é😀".len());
}

#[test]
fn absolute_path_converts() {
    let url = file_uri("/proj/src/top.sv").expect("absolute path converts");
    assert_eq!(url.as_str(), "file:///proj/src/top.sv");
    assert_eq!(uri_to_path_string(&url).unwrap(), "/proj/src/top.sv");
}

#[test]
fn path_with_spaces_is_percent_encoded() {
    let url = file_uri("/my proj/agent file.sv").expect("space path converts");
    assert_eq!(url.as_str(), "file:///my%20proj/agent%20file.sv");
    assert_eq!(uri_to_path_string(&url).unwrap(), "/my proj/agent file.sv");
}

#[test]
fn non_ascii_path_converts() {
    let url = file_uri("/projekt/übung/tb.sv").expect("non-ascii path converts");
    assert_eq!(uri_to_path_string(&url).unwrap(), "/projekt/übung/tb.sv");
}

#[test]
fn relative_path_returns_none() {
    assert!(file_uri("src/top.sv").is_none());
    assert!(file_uri("").is_none());
}

#[test]
fn urls_name_the_path_they_come_from() {
    for path in ["/", "/a//b/./c/", "/x/100%/#1?.sv", "/a\\b", "/tab\there", "/end."] {
        let url = file_uri(path).unwrap();
        let back = uri_to_path_string(&url).unwrap();
        assert!(same_path(&back, path), "{path:?} came back as {back:?}");
    }
    for path in ["/a/b.sv", "/x/100%/#1?.sv", "/größe/😀"] {
        assert_eq!(uri_to_path_string(&file_uri(path).unwrap()).unwrap(), path);
    }
}

#[test]
fn only_file_urls_have_paths() {
    assert!(uri_to_path_string("untitled:Untitled-1").is_none());
    assert!(uri_to_path_string("http://host/a.sv").is_none());
    assert!(uri_to_path_string("no url").is_none());
}

#[test]
fn paths_follow_the_standard_library() {
    let samples = [
        "", "/", "//", "a", "a/", "a//b", "./a", "a/.", "/a/./b/", "/..", "..", "../a", ".", "./",
        "/a", "a/b/c", "/.", "//a//", "a/./", "./.",
    ];
    for a in samples {
        let std_path = std::path::Path::new(a);
        assert_eq!(is_absolute(a), std_path.is_absolute(), "{a:?}");
        assert_eq!(
            parent_path(a).map(std::path::PathBuf::from),
            std_path.parent().map(|p| p.to_path_buf()),
            "{a:?}"
        );
        for b in samples {
            let std_other = std::path::Path::new(b);
            assert_eq!(same_path(a, b), std_path == std_other, "{a:?} {b:?}");
            assert_eq!(
                std::path::PathBuf::from(join_path(a, b)),
                std_path.join(std_other),
                "{a:?} {b:?}"
            );
        }
    }
}

#[test]
fn paths_are_held_in_any_spelling() {
    let held = vec!["/a/b".to_string()];
    assert!(holds_path(&held, "/a//b/"));
    assert!(!holds_path(&held, "/a/c"));
}

#[test]
fn empty_prefix_matches_everything_with_neutral_score() {
    let mut m = matcher();
    assert_eq!(score(&mut m, "", "anything"), Some(0));
    assert_eq!(score(&mut m, "", "my_class"), Some(0));
}

#[test]
fn exact_prefix_beats_subsequence() {
    let mut m = matcher();
    let prefix_score = score(&mut m, "clas", "class").expect("class matches");
    let subseq_score = score(&mut m, "clas", "my_class").expect("my_class matches");
    assert!(
        prefix_score > subseq_score,
        "expected prefix score ({prefix_score}) > subseq score ({subseq_score})",
    );
}

#[test]
fn non_match_returns_none() {
    let mut m = matcher();
    assert!(score(&mut m, "xyz", "module").is_none());
}

#[test]
fn subsequence_matches_when_chars_in_order() {
    let mut m = matcher();
    assert!(score(&mut m, "cls", "class").is_some());
    assert!(score(&mut m, "cls", "my_class").is_some());
    assert!(score(&mut m, "slc", "class").is_none());
}

#[test]
fn case_is_ignored_in_scores() {
    let mut m = matcher();
    assert!(score(&mut m, "CLS", "class").is_some());
    assert_eq!(score(&mut m, "CLS", "class"), score(&mut m, "cls", "class"));
    assert!(score(&mut m, "AB", "xAyB").is_some());
    assert_eq!(score(&mut m, "AB", "xAyB"), score(&mut m, "ab", "xAyB"));
    assert!(score(&mut m, "cls", "CLASS").is_some());
}

#[test]
fn sort_text_is_descending() {
    let high = assign_sort_text(1000);
    let low = assign_sort_text(10);
    assert!(
        high < low,
        "higher score must produce lexicographically earlier sort_text: high={high}, low={low}",
    );
}

#[test]
fn sort_text_is_fixed_width() {
    assert_eq!(assign_sort_text(0).len(), 8);
    assert_eq!(assign_sort_text(u32::MAX).len(), 8);
    assert_eq!(assign_sort_text(12345).len(), 8);
}

#[test]
fn sort_text_is_hexadecimal() {
    assert_eq!(assign_sort_text(0), "ffffffff");
    assert_eq!(assign_sort_text(u32::MAX), "00000000");
    assert_eq!(assign_sort_text(12345), format!("{:08x}", u32::MAX - 12345));
}

#[test]
fn long_prefixes_do_not_match() {
    let mut m = matcher();
    let fits = "a".repeat(MAX_NEEDLE);
    let longer = "a".repeat(MAX_NEEDLE + 1);
    assert!(score(&mut m, &fits, &fits).is_some());
    assert!(score(&mut m, &fits, &longer).is_some());
    assert_eq!(score(&mut m, &longer, &longer), None);
    assert_eq!(score(&mut m, &longer, "a"), None);
    let letters = "\u{10428}".repeat(700);
    assert!(score(&mut m, &letters, &letters).is_some());
    let wide = "\u{430}".repeat(MAX_NEEDLE);
    assert!(score(&mut m, &wide, &wide).is_some());
    assert_eq!(score(&mut m, &format!("{wide}\u{430}"), &format!("{wide}\u{430}")), None);
    let marks = "e\u{301}".repeat(MAX_NEEDLE / 2);
    assert_eq!(score(&mut m, &marks, &marks), None);
    assert_eq!(score(&mut m, "", &longer), Some(0));
    let spaced = "/a".repeat(MAX_NEEDLE);
    assert!(score(&mut m, &"/a".repeat(MAX_NEEDLE / 2), &spaced).is_some());
}

#[test]
fn copies_of_documents_are_their_own() {
    let mut doc = TextDocument::new("one", 1);
    let copy = doc.clone();
    doc.replace_all("two", 2);
    assert_eq!((copy.text().as_str(), copy.version()), ("one", 1));
    assert_eq!((doc.text().as_str(), doc.version()), ("two", 2));
}
