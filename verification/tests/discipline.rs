use omninote::discipline::{
    human_questions, label_chips, split_escaped_pipes, split_row, sprint_tasks, status_from_cell,
    tickets_merged, Provider, TaskStatus,
};

#[test]
fn status_from_cell_maps_all_buckets() {
    assert_eq!(status_from_cell("✅ Done"), TaskStatus::Done);
    assert_eq!(status_from_cell("✅ Concluída"), TaskStatus::Done);
    assert_eq!(status_from_cell("🎯 Pronta [x]"), TaskStatus::Done);
    assert_eq!(status_from_cell("🔄 In progress"), TaskStatus::Doing);
    assert_eq!(status_from_cell("🚧 Em obra"), TaskStatus::Doing);
    assert_eq!(status_from_cell("🔄 Parcial"), TaskStatus::Doing);
    assert_eq!(status_from_cell("⛔ blocked"), TaskStatus::Blocked);
    assert_eq!(status_from_cell("🌱 Backlog"), TaskStatus::Todo);
    assert_eq!(status_from_cell("A fazer"), TaskStatus::Todo);
    assert_eq!(status_from_cell("[ ]"), TaskStatus::Todo);
    assert_eq!(status_from_cell("qualquer coisa"), TaskStatus::Todo);
    assert_eq!(status_from_cell(""), TaskStatus::Todo);
}

#[test]
fn sprint_tasks_parses_real_sprint_table() {
    let raw = "\
## §1 Tasks

| # | ID | Tarefa | Status | Prio | Estimativa | Notas |
|---|------|--------|--------|------|------------|-------|
| 1 | CAD-23.1 | RAG search | ✅ Done (PR #17) | ⚡ | 12h | mergeado |
| 6 | CAD-25 | UI Design v2 | 🔄 Em execução | ⚡ | ~50h | DESBLOQUEADO |
";
    let tasks = sprint_tasks(raw);
    assert_eq!(tasks.len(), 2);
    let t1 = tasks.iter().find(|t| t.id == "CAD-23.1").unwrap();
    assert_eq!(t1.status, TaskStatus::Done);
    let t6 = tasks.iter().find(|t| t.id == "CAD-25").unwrap();
    assert_eq!(t6.status, TaskStatus::Doing);
    assert_eq!(t6.title, "UI Design v2");
}

#[test]
fn sprint_tasks_ignores_notion_schema_table() {
    let raw = "\
| Notion | Local |
|--------|-------|
| ID auto (`CAD-XX`) | nome do arquivo |
| Status | tabela em SPRINT.md |
";
    assert!(sprint_tasks(raw).is_empty());
}

#[test]
fn sprint_tasks_bullet_fallback() {
    let raw = "Sem tabela aqui.\n- [x] feito\n- [ ] a fazer\n- nada de checkbox\n";
    let tasks = sprint_tasks(raw);
    assert_eq!(tasks.len(), 2);
    assert_eq!(tasks[0].status, TaskStatus::Done);
    assert_eq!(tasks[0].title, "feito");
    assert_eq!(tasks[1].status, TaskStatus::Todo);
    assert_eq!(tasks[1].title, "a fazer");
}

#[test]
fn sprint_tasks_table_present_suppresses_bullet_fallback() {
    let raw = "\
| ID | Tarefa | Status |
|----|--------|--------|
| CAD-1 | x | ✅ Done |

- [ ] this bullet must be ignored because a table was found
";
    let tasks = sprint_tasks(raw);
    assert_eq!(tasks.len(), 1);
    assert_eq!(tasks[0].id, "CAD-1");
}

#[test]
fn label_chips_extracts_dedups_skips_wikilinks_and_checkboxes() {
    let s = "## title [busy-loop-90cpu] body [busy-loop-90cpu] [pr-split] \
             [[WikiLink]] - [x] done - [ ] todo [front-back-parallel]";
    let chips = label_chips(s);
    assert_eq!(
        chips,
        vec![
            "busy-loop-90cpu".to_string(),
            "pr-split".to_string(),
            "front-back-parallel".to_string()
        ]
    );
    assert!(!chips.iter().any(|c| c == "WikiLink"));
    assert!(!chips.iter().any(|c| c == "x"));
}

#[test]
fn human_questions_splits_open_vs_resolved() {
    let raw = "\
# HUMAN

## Open questions

### Q-30 · Pergunta aberta · raised 2026-06-01

corpo

## Resolved

### Q-01 · Pergunta velha · raised 2026-05-01 · resolved 2026-05-22

corpo
";
    let qs = human_questions(raw);
    assert_eq!(qs.len(), 2);
    let q30 = qs.iter().find(|q| q.id == "Q-30").unwrap();
    assert!(!q30.resolved);
    assert_eq!(q30.question, "Pergunta aberta");
    let q01 = qs.iter().find(|q| q.id == "Q-01").unwrap();
    assert!(q01.resolved);
    assert_eq!(q01.question, "Pergunta velha");
}

#[test]
fn human_questions_empty_and_sectionless_no_panic() {
    assert!(human_questions("").is_empty());
    assert!(human_questions("# HUMAN\n\njust prose, no questions\n").is_empty());
    let qs = human_questions("### Q-05 · solta\n");
    assert_eq!(qs.len(), 1);
    assert!(!qs[0].resolved);
}

#[test]
fn tickets_merged_combines_providers_word_bounded() {
    let notion = "\
| ID | Title | Phase | Status | Priority |
|----|-------|-------|--------|----------|
| CAD-2 | Sidebar | v0.1 | 🚧 Em obra | ⚡ Alta |
| CAD-25 | UI v2 | v0.2 | 🌱 Backlog | ⚡ Alta |
";
    let jira = "### SCRUM-241 · panel UX\nbody\n";
    let tickets = tickets_merged(notion, jira);
    assert_eq!(tickets.len(), 3);
    assert!(tickets.iter().any(|t| t.id == "CAD-2"));
    assert!(tickets.iter().any(|t| t.id == "CAD-25"));
    let scrum = tickets.iter().find(|t| t.id == "SCRUM-241").unwrap();
    assert_eq!(scrum.provider, Provider::Jira);
    assert_eq!(scrum.title, "panel UX");
    let cad2 = tickets.iter().find(|t| t.id == "CAD-2").unwrap();
    assert_eq!(cad2.provider, Provider::Notion);
    assert_eq!(cad2.title, "Sidebar");
}

#[test]
fn tickets_merged_sorts_doing_before_todo_before_done() {
    let notion = "\
| ID | Title | Status |
|----|-------|--------|
| CAD-9 | done one | ✅ Concluída |
| CAD-8 | todo one | 🌱 Backlog |
| CAD-7 | doing one | 🔄 In progress |
";
    let tickets = tickets_merged(notion, "");
    let order: Vec<&str> = tickets.iter().map(|t| t.id.as_str()).collect();
    assert_eq!(order, vec!["CAD-7", "CAD-8", "CAD-9"]);
}

#[test]
fn tickets_merged_tolerates_empty_jira() {
    let notion = "| ID | Title | Status |\n|--|--|--|\n| CAD-1 | x | 🌱 Backlog |\n";
    let tickets = tickets_merged(notion, "");
    assert_eq!(tickets.len(), 1);
}

#[test]
fn split_row_respects_escaped_pipe() {
    let cells = split_row(r"| CAD-1 | Foo \| Bar | ✅ Done |").unwrap();
    assert_eq!(cells, vec!["CAD-1", "Foo | Bar", "✅ Done"]);
}

#[test]
fn sprint_tasks_escaped_pipe_keeps_columns_aligned() {
    let raw = "\
| ID | Tarefa | Status |
|----|--------|--------|
| CAD-9 | Pipe \\| in title | ✅ Done |
";
    let tasks = sprint_tasks(raw);
    assert_eq!(tasks.len(), 1);
    assert_eq!(tasks[0].id, "CAD-9");
    assert_eq!(tasks[0].title, "Pipe | in title");
    assert_eq!(tasks[0].status, TaskStatus::Done);
}

#[test]
fn split_escaped_pipes_plain_and_trailing() {
    assert_eq!(split_escaped_pipes("a | b | c"), vec!["a", "b", "c"]);
    assert_eq!(split_escaped_pipes(r"a \| "), vec!["a |"]);
    assert_eq!(split_escaped_pipes(r"a\b | c"), vec![r"a\b", "c"]);
}
