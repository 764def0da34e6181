use code_utils::chunk::{chunk_code, language_aware, language_for, line_windows, naive, Chunk, CodeLanguage};

fn numbered_lines(count: usize) -> String {
    let lines: Vec<String> = (1..=count).map(|n| format!("line {}", n)).collect();
    lines.join("\n")
}

#[test]
fn debug() {
    let chunk = Chunk {
        file_path: "test.md",
        content: "3\n4".to_string(),
        span: (3, 5),
    };

    assert_eq!(chunk.render(), "```test.md#L3-L5\n3\n4\n```\n---\n");
}

#[test]
fn render_writes_large_line_numbers() {
    let chunk = Chunk {
        file_path: "a/b.rs",
        content: String::new(),
        span: (1201, 1250),
    };
    assert_eq!(chunk.render(), "```a/b.rs#L1201-L1250\n\n```\n---\n");
    let first = Chunk { file_path: "", content: "x".to_string(), span: (0, 10) };
    assert_eq!(first.render(), "```#L0-L10\nx\n```\n---\n");
}

#[test]
fn no_lines_no_windows() {
    assert_eq!(line_windows(0), vec![]);
}

#[test]
fn windows_of_137_lines() {
    assert_eq!(line_windows(137), vec![(1, 50), (41, 90), (81, 130), (121, 137)]);
    let code = numbered_lines(137);
    let chunks = naive("test.md", &code);
    assert_eq!(chunks.len(), 4);
    let spans: Vec<(usize, usize)> = chunks.iter().map(|c| c.span).collect();
    assert_eq!(spans, vec![(1, 50), (41, 90), (81, 130), (121, 137)]);
    for chunk in &chunks {
        assert_eq!(chunk.file_path, "test.md");
    }
}

#[test]
fn window_text_is_its_lines() {
    let code = numbered_lines(137);
    let lines: Vec<&str> = code.split('\n').collect();
    let chunks = naive("test.md", &code);
    assert_eq!(chunks[0].content, lines[0..50].join("\n"));
    assert_eq!(chunks[1].content, lines[40..90].join("\n"));
    assert_eq!(chunks[3].content, lines[120..137].join("\n"));
    assert!(chunks[3].content.starts_with("line 121\n"));
    assert!(chunks[3].content.ends_with("\nline 137"));
}

#[test]
fn short_files() {
    let one = naive("a.txt", "only");
    assert_eq!(one.len(), 1);
    assert_eq!(one[0].span, (1, 1));
    assert_eq!(one[0].content, "only");

    let fifty = naive("a.txt", &numbered_lines(40));
    assert_eq!(fifty.len(), 1);
    assert_eq!(fifty[0].span, (1, 40));

    assert_eq!(line_windows(40), vec![(1, 40)]);
    assert_eq!(line_windows(41), vec![(1, 41), (41, 41)]);
    assert_eq!(line_windows(50), vec![(1, 50), (41, 50)]);
    assert_eq!(line_windows(51), vec![(1, 50), (41, 51)]);
}

#[test]
fn empty_text_has_one_empty_line() {
    let chunks = naive("empty.txt", "");
    assert_eq!(chunks.len(), 1);
    assert_eq!(chunks[0].span, (1, 1));
    assert_eq!(chunks[0].content, "");
}

#[test]
fn final_newline_counts_as_a_line() {
    let chunks = naive("a.txt", "a\nb\n");
    assert_eq!(chunks.len(), 1);
    assert_eq!(chunks[0].span, (1, 3));
    assert_eq!(chunks[0].content, "a\nb\n");
}

#[test]
fn windowing_is_repeatable() {
    let code = numbered_lines(200);
    let first = naive("x.py", &code);
    let second = naive("x.py", &code);
    assert_eq!(first.len(), second.len());
    for (a, b) in first.iter().zip(second.iter()) {
        assert_eq!(a.file_path, b.file_path);
        assert_eq!(a.span, b.span);
        assert_eq!(a.content, b.content);
    }
}

#[test]
fn windows_cover_and_overlap() {
    for total in [1usize, 39, 40, 41, 49, 50, 51, 90, 91, 137, 400, 401] {
        let spans = line_windows(total);
        assert_eq!(spans[0].0, 1);
        assert_eq!(spans[spans.len() - 1].1, total);
        for i in 0..spans.len() {
            assert!(spans[i].0 <= spans[i].1);
            assert!(spans[i].1 <= total);
            if i + 1 < spans.len() {
                assert!(spans[i + 1].0 <= spans[i].1);
                let shared = spans[i].1 + 1 - spans[i + 1].0;
                if i + 2 < spans.len() {
                    assert_eq!(shared, 10);
                } else {
                    assert_eq!(shared, std::cmp::min(10, total - 40 * (i + 1)));
                }
            }
        }
    }
}

#[test]
fn unicode_lines_are_kept_whole() {
    let chunks = naive("u.txt", "héllo\nwörld ✓");
    assert_eq!(chunks.len(), 1);
    assert_eq!(chunks[0].span, (1, 2));
    assert_eq!(chunks[0].content, "héllo\nwörld ✓");
}

#[test]
fn language_by_extension() {
    assert_eq!(language_for("router.py"), Some(CodeLanguage::Python));
    assert_eq!(language_for("a/b/main.rs"), Some(CodeLanguage::Rust));
    assert_eq!(language_for("x.mjs"), Some(CodeLanguage::JavaScript));
    assert_eq!(language_for("x.cts"), Some(CodeLanguage::TypeScript));
    assert_eq!(language_for("x.jsx"), Some(CodeLanguage::Tsx));
    assert_eq!(language_for("x.tsx"), Some(CodeLanguage::Tsx));
    assert_eq!(language_for("x.go"), Some(CodeLanguage::Go));
    assert_eq!(language_for("mix.exs"), Some(CodeLanguage::Elixir));
    assert_eq!(language_for("x.hrl"), Some(CodeLanguage::Erlang));
    assert_eq!(language_for("x.pl"), Some(CodeLanguage::Perl));
    assert_eq!(language_for("x.rb"), Some(CodeLanguage::Ruby));
    assert_eq!(language_for("test.md"), None);
    assert_eq!(language_for("Makefile"), None);
    assert_eq!(language_for("py"), Some(CodeLanguage::Python));
    assert_eq!(language_for("archive.py.txt"), None);
    assert_eq!(language_for("trailing."), None);
}

#[test]
fn language_does_not_change_the_cut() {
    let code = numbered_lines(137);
    let plain = naive("router.py", &code);
    let aware = language_aware("router.py", &code, &CodeLanguage::Python);
    let picked = chunk_code("router.py", &code);
    assert_eq!(plain.len(), 4);
    assert_eq!(aware.len(), 4);
    assert_eq!(picked.len(), 4);
    for i in 0..4 {
        assert_eq!(plain[i].span, aware[i].span);
        assert_eq!(plain[i].content, aware[i].content);
        assert_eq!(plain[i].span, picked[i].span);
        assert_eq!(plain[i].content, picked[i].content);
    }
}
