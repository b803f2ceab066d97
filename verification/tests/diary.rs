use omninote::diary::{diary_days, leading_date, snippet_80, DiaryChunk};

fn chunk(heading: &str, body: &str) -> DiaryChunk {
    DiaryChunk {
        heading: heading.to_string(),
        body: body.to_string(),
    }
}

#[test]
fn diary_chunks_group_by_date_in_file_order() {
    let chunks = vec![
        chunk(
            "2026-06-27 — close-out",
            "## 2026-06-27 — close-out\n\n**Lição [label-a]:** algo recente que é bem comprido de propósito para forçar o corte do snippet em oitenta caracteres exatamente aqui agora.\n",
        ),
        chunk("2026-06-03 — older", "## 2026-06-03 — older\n\ncorpo antigo\n"),
    ];
    let days = diary_days(&chunks);
    assert_eq!(days.len(), 2);
    assert_eq!(days[0].date, "2026-06-27");
    assert_eq!(days[1].date, "2026-06-03");
    assert!(days[0].entries[0].labels.contains(&"label-a".to_string()));
    assert_eq!(days[0].entries[0].time, None);
    assert_eq!(days[1].entries[0].snippet, "corpo antigo");
}

#[test]
fn diary_snippet_excludes_heading() {
    let days = diary_days(&[chunk("2026-06-27 — my title here", "## 2026-06-27 — my title here\n\ncorpo curto\n")]);
    assert_eq!(days.len(), 1);
    let snip = &days[0].entries[0].snippet;
    assert!(!snip.contains("my title here"), "heading must be excluded");
    assert_eq!(snip, "corpo curto");
}

#[test]
fn diary_long_snippet_truncated_to_80() {
    let body = format!("## 2026-06-27 — t\n\n{}\n", "x".repeat(200));
    let days = diary_days(&[chunk("2026-06-27 — t", &body)]);
    assert_eq!(days[0].entries[0].snippet.chars().count(), 80);
    assert!(days[0].entries[0].snippet.ends_with('…'));
}

#[test]
fn diary_skips_undated_chunks() {
    assert!(diary_days(&[chunk("Not a date heading", "## Not a date heading\n\nbody\n")]).is_empty());
}

#[test]
fn leading_date_takes_only_the_iso_prefix() {
    assert_eq!(leading_date("2026-06-27 — close-out"), Some("2026-06-27".to_string()));
    assert_eq!(leading_date("2026-06-27"), Some("2026-06-27".to_string()));
    assert_eq!(leading_date("2026-6-27 x"), None);
    assert_eq!(leading_date("2026/06/27"), None);
    assert_eq!(leading_date("short"), None);
    assert_eq!(leading_date("２026-06-27"), None);
}

#[test]
fn snippet_80_takes_first_filled_line() {
    assert_eq!(snippet_80("\n   \n  primeira linha  \nsegunda"), "primeira linha");
    assert_eq!(snippet_80(""), "");
    let exact = "y".repeat(80);
    assert_eq!(snippet_80(&exact), exact);
    let long = "z".repeat(81);
    let s = snippet_80(&long);
    assert_eq!(s, format!("{}…", "z".repeat(79)));
}
