use bashprof::jsonout::{escape, render};
use bashprof::profile::{FuncStat, LineStat, Profile};

#[test]
fn escape_covers_rfc8259_specials_and_leaves_utf8_intact() {
    assert_eq!(escape("echo hello"), "echo hello");
    assert_eq!(escape(r#"grep "a\b""#), r#"grep \"a\\b\""#);
    assert_eq!(escape("a\nb\tc\rd"), "a\\nb\\tc\\rd");
    assert_eq!(escape("\u{1b}[0m"), "\\u001b[0m");
    assert_eq!(escape("\u{1f}"), "\\u001f");
    assert_eq!(escape("実行 ✓"), "実行 ✓");
}

fn sample_profile() -> Profile {
    Profile {
        script: Some("job.sh".into()),
        exit_code: Some(0),
        total_us: 1234,
        commands: 2,
        files: vec!["job.sh".into()],
        lines: vec![LineStat {
            file: "job.sh".into(),
            line: 3,
            count: 2,
            self_us: 1000,
            max_us: 900,
            command: "echo \"hi\"".into(),
        }],
        funcs: vec![FuncStat {
            name: "main".into(),
            calls: 0,
            commands: 2,
            self_us: 1000,
        }],
        samples: vec![],
        skipped: 0,
    }
}

#[test]
fn render_contains_all_top_level_keys() {
    let json = render(&sample_profile());
    for key in [
        "\"tool\"",
        "\"version\"",
        "\"script\"",
        "\"exit_code\"",
        "\"total_us\"",
        "\"commands\"",
        "\"skipped_lines\"",
        "\"files\"",
        "\"lines\"",
        "\"functions\"",
    ] {
        assert!(json.contains(key), "missing {key} in {json}");
    }
}

#[test]
fn render_escapes_command_text() {
    let json = render(&sample_profile());
    assert!(json.contains(r#""command": "echo \"hi\"""#));
}

#[test]
fn render_uses_null_for_missing_script_and_exit_code() {
    let mut p = sample_profile();
    p.exit_code = None;
    p.script = None;
    let json = render(&p);
    assert!(json.contains("\"exit_code\": null"));
    assert!(json.contains("\"script\": null"));
}

#[test]
fn render_is_structurally_balanced() {
    let json = render(&sample_profile());
    assert_eq!(
        json.matches('{').count(),
        json.matches('}').count(),
        "unbalanced braces"
    );
    assert_eq!(json.matches('[').count(), json.matches(']').count());
    assert!(!json.contains(",\n  ]"));
    assert!(!json.contains(",\n}"));
}

// ---------------------------------------------------------------------

#[test]
fn escape_of_every_control_character_is_printable() {
    for u in 0u32..0x20 {
        let c = char::from_u32(u).unwrap();
        let e = escape(&c.to_string());
        assert!(e.chars().all(|c| c as u32 >= 0x20), "{u:#x} -> {e:?}");
    }
    assert_eq!(escape("\u{0}\u{7f}"), "\\u0000\u{7f}");
    assert_eq!(escape("plain text, no specials"), "plain text, no specials");
}

#[test]
fn render_layout_is_exact() {
    let mut p = sample_profile();
    p.lines.push(LineStat {
        file: "lib \"q\".sh".into(),
        line: 7,
        count: 1,
        self_us: 5,
        max_us: 5,
        command: "true".into(),
    });
    p.files.push("lib \"q\".sh".into());
    p.exit_code = Some(-3);
    let expected = "{\n  \"tool\": \"bashprof\",\n  \"version\": \"0.1.0\",\n  \"script\": \"job.sh\",\n  \"exit_code\": -3,\n  \"total_us\": 1234,\n  \"commands\": 2,\n  \"skipped_lines\": 0,\n  \"files\": [\"job.sh\", \"lib \\\"q\\\".sh\"],\n  \"lines\": [\n    {\"file\": \"job.sh\", \"line\": 3, \"count\": 2, \"self_us\": 1000, \"max_us\": 900, \"command\": \"echo \\\"hi\\\"\"},\n    {\"file\": \"lib \\\"q\\\".sh\", \"line\": 7, \"count\": 1, \"self_us\": 5, \"max_us\": 5, \"command\": \"true\"}\n  ],\n  \"functions\": [\n    {\"name\": \"main\", \"calls\": 0, \"commands\": 2, \"self_us\": 1000}\n  ]\n}\n";
    assert_eq!(render(&p), expected);
}

/// A JSON string-body decoder (RFC 8259), for checking what `escape` makes.
fn json_unescape(s: &str) -> Option<String> {
    let cs: Vec<char> = s.chars().collect();
    let mut out = String::new();
    let mut i = 0;
    while i < cs.len() {
        let c = cs[i];
        if c == '"' || (c as u32) < 0x20 {
            return None;
        }
        if c != '\\' {
            out.push(c);
            i += 1;
            continue;
        }
        let e = *cs.get(i + 1)?;
        match e {
            '"' | '\\' | '/' => out.push(e),
            'b' => out.push('\u{8}'),
            'f' => out.push('\u{c}'),
            'n' => out.push('\n'),
            'r' => out.push('\r'),
            't' => out.push('\t'),
            'u' => {
                let hex: String = cs.get(i + 2..i + 6)?.iter().collect();
                let v = u32::from_str_radix(&hex, 16).ok()?;
                out.push(char::from_u32(v)?);
                i += 6;
                continue;
            }
            _ => return None,
        }
        i += 2;
    }
    Some(out)
}

#[test]
fn escaped_text_decodes_back_to_itself() {
    let mut all_controls = String::new();
    for u in 0u32..0x20 {
        all_controls.push(char::from_u32(u).unwrap());
    }
    for s in [
        "",
        "echo hello",
        r#"grep "a\b""#,
        "a\nb\tc\rd",
        "\u{1b}[0m \u{7f}",
        "実行 ✓ 🎉",
        "/slash/",
        all_controls.as_str(),
    ] {
        assert_eq!(json_unescape(&escape(s)), Some(s.to_string()), "{s:?}");
    }
}
