use opencodesearch::chunking::{
    blocks_of_matches, chunk_file, chunk_id_text, chunk_parsed, cut_oversized_blocks,
    describe_chunks, guess_language, line_range_for_snippet, merge_neighboring_blocks,
    regex_fallback_blocks, select_blocks, SourceLanguage,
};

fn owned(list: &[&str]) -> Vec<String> {
    list.iter().map(|text| text.to_string()).collect()
}

#[test]
fn chunks_python_file() {
    let content = "def a():\n    return 1\n\ndef b():\n    return 2\n";
    let chunks = chunk_file("demo.py", "/tmp/demo.py", content, 200);
    assert!(!chunks.is_empty());
    assert!(chunks.iter().any(|c| c.snippet.contains("def a")));
}

#[test]
fn merges_neighboring_small_blocks() {
    let blocks = vec![
        "def a():\n    return 1".to_string(),
        "def b():\n    return 2".to_string(),
        "def c():\n    return 3".to_string(),
    ];

    let merged = merge_neighboring_blocks(blocks, 52);
    assert_eq!(merged.len(), 2);
    assert!(merged[0].contains("def a()"));
    assert!(merged[0].contains("def b()"));
    assert!(merged[1].contains("def c()"));
}

#[test]
fn merging_puts_an_empty_line_between_blocks() {
    let merged = merge_neighboring_blocks(owned(&["ab", "  cd\n", "   ", "ef"]), 6);
    assert_eq!(merged, owned(&["ab\n\ncd", "ef"]));
    // A block that is too large stands alone, and what was gathered goes before it.
    let merged = merge_neighboring_blocks(owned(&["ab", "0123456789", "cd", "ef"]), 6);
    assert_eq!(merged, owned(&["ab", "0123456789", "cd\n\nef"]));
    // Sizes are counted in bytes.
    let merged = merge_neighboring_blocks(owned(&["\u{e4}\u{e4}", "ab"]), 7);
    assert_eq!(merged, owned(&["\u{e4}\u{e4}", "ab"]));
    let merged = merge_neighboring_blocks(owned(&["\u{e4}\u{e4}", "ab"]), 8);
    assert_eq!(merged, owned(&["\u{e4}\u{e4}\n\nab"]));
    assert!(merge_neighboring_blocks(owned(&[" ", "\n"]), 10).is_empty());
    assert_eq!(merge_neighboring_blocks(owned(&["a", "b"]), 0), owned(&["a", "b"]));
}

#[test]
fn merging_keeps_the_text() {
    let blocks = owned(&["fn a() {}", " fn b() {} ", "", "fn c() {}"]);
    for size in 0..60 {
        let merged = merge_neighboring_blocks(blocks.clone(), size);
        assert_eq!(merged.join("\n\n"), "fn a() {}\n\nfn b() {}\n\nfn c() {}");
        for block in &merged {
            assert!(block.len() <= size || blocks.iter().any(|raw| raw.trim() == block));
        }
        for pair in merged.windows(2) {
            let first = pair[1].split("\n\n").next().unwrap();
            assert!(pair[0].len() + 2 + first.len() > size || pair[0].len() > size);
        }
    }
}

#[test]
fn languages_go_by_the_extension() {
    assert_eq!(guess_language("main.rs"), Some(SourceLanguage::Rust));
    assert_eq!(guess_language("tool.py"), Some(SourceLanguage::Python));
    assert_eq!(guess_language("app.js"), Some(SourceLanguage::JavaScript));
    assert_eq!(guess_language("lib.c"), Some(SourceLanguage::C));
    assert_eq!(guess_language("lib.cpp"), Some(SourceLanguage::Cpp));
    assert_eq!(guess_language("lib.cxx"), Some(SourceLanguage::Cpp));
    assert_eq!(guess_language("notes.txt"), None);
    assert_eq!(guess_language("Makefile"), None);
    assert_eq!(guess_language(".rs"), None);
    assert_eq!(guess_language("archive.tar.py"), Some(SourceLanguage::Python));
}

#[test]
fn a_file_without_a_parser_is_one_block() {
    // The look-ahead in the pattern is more than the regex crate takes.
    let content = "import os\n\ndef first():\n    return 1\n\ndef second():\n    return 2\n";
    assert!(regex_fallback_blocks(content).is_empty());
    assert_eq!(select_blocks(content, None), vec![content.to_string()]);
}

#[test]
fn matches_are_trimmed_and_blank_ones_left_out() {
    let blocks = blocks_of_matches(Some(owned(&[" a ", "\n", "b\n"])));
    assert_eq!(blocks, owned(&["a", "b"]));
    assert!(blocks_of_matches(None).is_empty());
}

#[test]
fn parsed_segments_come_before_the_fallback() {
    let parsed = Some(owned(&["one", "two"]));
    assert_eq!(select_blocks("text", parsed), owned(&["one", "two"]));
    assert_eq!(select_blocks("plain words", Some(Vec::new())), select_blocks("plain words", None));
    assert!(!select_blocks("plain words", None).is_empty());
}

#[test]
fn oversized_blocks_are_split() {
    let line = "let value = compute(argument);\n";
    let block = line.repeat(40);
    let snippets = cut_oversized_blocks(vec![block.clone(), "short".to_string()], 200);
    assert!(snippets.len() > 2);
    assert_eq!(snippets[snippets.len() - 1], "short");
    assert!(snippets.iter().all(|snippet| !snippet.trim().is_empty()));
    assert!(snippets.iter().all(|snippet| snippet.len() < block.len()));
    assert_eq!(cut_oversized_blocks(owned(&["abc", " \n"]), 10), owned(&["abc"]));
}

#[test]
fn snippets_are_found_by_line() {
    let content = "one\ntwo\nthree\nfour\n";
    assert_eq!(line_range_for_snippet(content, "two\nthree"), (2, 3));
    assert_eq!(line_range_for_snippet(content, "one"), (1, 1));
    assert_eq!(line_range_for_snippet(content, "four\n"), (4, 5));
    // A snippet that is not there counts from the first line.
    let (start, end) = line_range_for_snippet(content, "five\nsix");
    assert_eq!(start, 1);
    assert!(end >= start);
}

#[test]
fn chunks_are_described_in_order() {
    let content = "alpha\nbeta\ngamma\n";
    let chunks = describe_chunks("/repo/a.txt", content, owned(&["alpha", "beta\ngamma"]));
    assert_eq!(chunks.len(), 2);
    assert_eq!(chunks[0].id, "/repo/a.txt:0:1:1");
    assert_eq!(chunks[1].id, "/repo/a.txt:1:2:3");
    assert_eq!(chunks[1].path, "/repo/a.txt");
    assert_eq!(chunks[1].snippet, "beta\ngamma");
    assert_eq!((chunks[1].start_line, chunks[1].end_line), (2, 3));
    assert_eq!(chunk_id_text("p", 12, 3, 40), "p:12:3:40");
}

#[test]
fn chunk_ids_differ() {
    let content = "fn a() {}\n\nfn a() {}\n\nfn a() {}\n";
    let chunks = chunk_file("a.rs", "/repo/a.rs", content, 9);
    for i in 0..chunks.len() {
        for j in 0..i {
            assert_ne!(chunks[i].id, chunks[j].id);
        }
    }
}

#[test]
fn blank_files_have_no_chunks() {
    assert!(chunk_file("a.py", "/repo/a.py", "", 100).is_empty());
    assert!(chunk_file("a.py", "/repo/a.py", " \n\t\n", 100).is_empty());
    assert_eq!(chunk_file("a.txt", "/repo/a.txt", "x", 100).len(), 1);
}

#[test]
fn rust_source_is_parsed_into_items() {
    let content = "fn first() -> u32 {\n    1\n}\n\nfn second() -> u32 {\n    2\n}\n";
    let chunks = chunk_file("a.rs", "/repo/a.rs", content, 30);
    assert_eq!(chunks.len(), 2);
    assert!(chunks[0].snippet.starts_with("fn first()"));
    assert!(chunks[1].snippet.starts_with("fn second()"));
    assert_eq!((chunks[0].start_line, chunks[1].start_line), (1, 5));
}

#[test]
fn parsed_files_are_merged_and_described() {
    let content = "aa\n\nbb\n\ncc\n";
    let chunks = chunk_parsed("/r/x", content, Some(owned(&["aa", "bb", "cc"])), 6);
    assert_eq!(chunks.len(), 2);
    assert_eq!(chunks[0].snippet, "aa\n\nbb");
    assert_eq!(chunks[0].id, "/r/x:0:1:3");
    assert_eq!(chunks[1].snippet, "cc");
    assert_eq!(chunks[1].id, "/r/x:1:5:5");
}

#[test]
fn python_of_many_levels_is_not_parsed() {
    // Two functions, the second with a number of nested blocks; each starts a block of its own
    // where the file is parsed.
    let nested = |levels: usize| {
        let mut text = String::from("def a():\n pass\n\ndef b():\n");
        for level in 1..levels {
            text.push_str(&" ".repeat(level));
            text.push_str("if a:\n");
        }
        text.push_str(&" ".repeat(levels));
        text.push_str("\"deep\"\n");
        text
    };
    let pieces = |content: &str| {
        // Room for the second function alone.
        let second = content.len() - content.find("def b").unwrap();
        chunk_file("deep.py", "/repo/deep.py", content, second).len()
    };
    for levels in [3, 100, 383] {
        let content = nested(levels);
        assert_eq!(pieces(&content), 2, "{}", levels);
    }
    for levels in [384, 511, 600] {
        let content = nested(levels);
        let chunks = chunk_file("deep.py", "/repo/deep.py", &content, 1_000_000);
        assert_eq!(chunks.len(), 1, "{}", levels);
        assert_eq!(chunks[0].snippet, content.trim());
    }
}

#[test]
fn one_wide_line_of_python_is_parsed() {
    let wide = format!("def a():\n    pass\n\ndef b():\n    f(1,\n{}2)\n", " ".repeat(500));
    let chunks = chunk_file("w.py", "/repo/w.py", &wide, 530);
    assert_eq!(chunks.len(), 2);
    assert!(chunks[1].snippet.starts_with("def b()"));
}

#[test]
fn joined_lines_count_as_levels() {
    let joined = |count: usize| format!("def a():\n    pass\n\n{}def b():\n    pass\n", "\\\n".repeat(count));
    let few = chunk_file("j.py", "/repo/j.py", &joined(10), 25);
    assert!(few.iter().any(|chunk| chunk.snippet == "def b():\n    pass"));
    let many = joined(400);
    let chunks = chunk_file("j.py", "/repo/j.py", &many, 1_000_000);
    assert_eq!(chunks[0].snippet, many.trim());
}
