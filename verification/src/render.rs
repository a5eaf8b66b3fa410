//! What the relay tools render: the resume, the next step, the summary of all
//! repositories and the closing report.
use vstd::prelude::*;

use crate::decimal::{decimal, decimal_string};
use crate::relay::{
    extract_intent, intent_of, law_comparing_again_finds_no_change, spec_statuses, synced, SpecFile,
};
use crate::state::{
    handoff_views, Handoff, HandoffView, RelayState, RelayView, RepoState, RepoView, SpecSyncView,
};
use crate::template::{
    fill, filled, law_open_braces_stay, law_tokens_are_replaced, law_value_of, value_of, var_views,
};
use crate::text::{
    clip, clone_strings, join, join_strings, law_join, lines, non_empty_or, opt_view, or_else, same, str_clip, str_lines,
    str_trim, texts, trim, views,
};

verus! {

/// What git says of a repository: its last commit, `diff --shortstat` and
/// `status --porcelain`.
pub struct GitFacts {
    pub commit: String,
    pub stat: String,
    pub porcelain: String,
}

/// What is found beside the state when a repository is rendered: git's answers
/// where it is a git repository, and its spec where it has one.
pub struct RepoFacts {
    pub git: Option<GitFacts>,
    pub intent_source: Option<String>,
}

/// The short statistics of a working tree.
pub open spec fn short_stat(stat: Seq<char>, porcelain: Seq<char>) -> Seq<char> {
    let files = decimal(lines(porcelain).len());
    if stat.len() == 0 {
        files + " files uncommitted"@
    } else {
        stat + " ("@ + files + " files uncommitted)"@
    }
}

/// The short statistics of a working tree, from git's two answers.
pub fn git_short_stat(stat: &str, porcelain: &str) -> (r: String)
    ensures
        r@ == short_stat(stat@, porcelain@),
{
    let ls = str_lines(porcelain);
    assert(views(ls@).len() == ls@.len());
    let files = decimal_string(ls.len() as u64);
    if stat.is_empty() {
        let mut out = files;
        out.append(" files uncommitted");
        out
    } else {
        let mut out = stat.to_owned();
        out.append(" (");
        out.append(files.as_str());
        out.append(" files uncommitted)");
        out
    }
}

/// A list of debts, one per line.
pub open spec fn debt_text(debts: Seq<Seq<char>>) -> Seq<char> {
    if debts.len() == 0 {
        "(none)"@
    } else {
        join(debts.map_values(|d: Seq<char>| "- "@ + d), "\n"@)
    }
}

fn debt_list(debts: &Vec<String>) -> (r: String)
    ensures
        r@ == debt_text(texts(debts@)),
{
    if debts.len() == 0 {
        return "(none)".to_owned();
    }
    let ghost f = |d: Seq<char>| "- "@ + d;
    let ghost all = texts(debts@).map_values(f);
    let mut items: Vec<String> = Vec::new();
    let mut i: usize = 0;
    assert(texts(items@) =~= all.take(0));
    while i < debts.len()
        invariant
            i <= debts.len(),
            f == (|d: Seq<char>| "- "@ + d),
            all == texts(debts@).map_values(f),
            texts(items@) == all.take(i as int),
        decreases debts.len() - i,
    {
        let ghost before = items@;
        let mut item = "- ".to_owned();
        item.append(debts[i].as_str());
        items.push(item);
        proof {
            assert(item@ == all[i as int]);
            assert(texts(items@) =~= texts(before).push(item@));
            assert(all.take(i + 1) =~= all.take(i as int).push(all[i as int]));
        }
        i += 1;
    }
    assert(all.take(i as int) =~= all);
    assert(texts(debts@).len() > 0);
    join_strings(&items, "\n")
}

/// One document that was handed over.
pub open spec fn handoff_block(h: HandoffView) -> Seq<char> {
    "### From "@ + h.source + " ("@ + h.captured_at + ")\n"@ + trim(h.raw)
}

/// The documents that were handed over, with an empty line between.
pub open spec fn handoffs_text(hs: Seq<HandoffView>) -> Seq<char> {
    if hs.len() == 0 {
        "(none)"@
    } else {
        join(hs.map_values(|h: HandoffView| handoff_block(h)), "\n\n"@)
    }
}

fn handoff_list(hs: &Vec<Handoff>) -> (r: String)
    ensures
        r@ == handoffs_text(handoff_views(hs@)),
{
    if hs.len() == 0 {
        return "(none)".to_owned();
    }
    let ghost f = |h: HandoffView| handoff_block(h);
    let ghost all = handoff_views(hs@).map_values(f);
    let mut items: Vec<String> = Vec::new();
    let mut i: usize = 0;
    assert(texts(items@) =~= all.take(0));
    while i < hs.len()
        invariant
            i <= hs.len(),
            f == (|h: HandoffView| handoff_block(h)),
            all == handoff_views(hs@).map_values(f),
            texts(items@) == all.take(i as int),
        decreases hs.len() - i,
    {
        let ghost before = items@;
        let mut item = "### From ".to_owned();
        item.append(hs[i].source.as_str());
        item.append(" (");
        item.append(hs[i].captured_at.as_str());
        item.append(")\n");
        item.append(str_trim(hs[i].raw.as_str()));
        items.push(item);
        proof {
            assert(item@ == all[i as int]);
            assert(texts(items@) =~= texts(before).push(item@));
            assert(all.take(i + 1) =~= all.take(i as int).push(all[i as int]));
        }
        i += 1;
    }
    assert(all.take(i as int) =~= all);
    assert(handoff_views(hs@).len() > 0);
    join_strings(&items, "\n\n")
}

/// The last commit of a repository.
pub open spec fn commit_value(git: Option<GitFacts>) -> Seq<char> {
    match git {
        Some(g) => g.commit@,
        None => "(not a git repo)"@,
    }
}

/// The short statistics of a repository.
pub open spec fn stat_value(git: Option<GitFacts>) -> Seq<char> {
    match git {
        Some(g) => short_stat(g.stat@, g.porcelain@),
        None => "n/a"@,
    }
}

/// The intent of a repository's spec.
pub open spec fn intent_value(source: Option<String>) -> Seq<char> {
    match source {
        Some(content) => intent_of(content@),
        None => "(no spec yet)"@,
    }
}

/// The variables that a template of a repository may use.
pub open spec fn template_vars(
    s: RelayView,
    r: RepoView,
    facts: RepoFacts,
) -> Seq<(Seq<char>, Seq<char>)> {
    seq![
        ("project_context"@, or_else(s.project_context, "(unset)"@)),
        ("repo_name"@, r.name),
        ("role"@, or_else(r.role, "(unset)"@)),
        ("active_phase"@, or_else(r.active_phase, "(unset)"@)),
        ("volatile_state"@, or_else(r.volatile_state, "(unset)"@)),
        ("confidence_score"@, decimal(r.confidence_score)),
        ("debt_tag"@, debt_text(r.debt_tag)),
        ("next_session_starter"@, or_else(r.next_session_starter, "(none planned)"@)),
        ("last_updated"@, r.last_updated),
        ("git_commit"@, commit_value(facts.git)),
        ("git_stat"@, stat_value(facts.git)),
        ("spec_intent"@, intent_value(facts.intent_source)),
        ("schema_version"@, s.schema_version),
        ("handoffs"@, handoffs_text(r.handoffs)),
    ]
}

/// The variables that a template of a repository may use.
pub fn vars_for(state: &RelayState, repo: &RepoState, facts: &RepoFacts) -> (vars: Vec<
    (&'static str, String),
>)
    ensures
        var_views(vars@) == template_vars(state@, repo@, *facts),
{
    let (commit, stat) = match &facts.git {
        Some(g) => (
            g.commit.clone(),
            git_short_stat(g.stat.as_str(), g.porcelain.as_str()),
        ),
        None => ("(not a git repo)".to_owned(), "n/a".to_owned()),
    };
    let intent = match &facts.intent_source {
        Some(content) => extract_intent(content.as_str()),
        None => "(no spec yet)".to_owned(),
    };
    let mut vars: Vec<(&'static str, String)> = Vec::new();
    vars.push(("project_context", non_empty_or(state.project_context.as_str(), "(unset)")));
    vars.push(("repo_name", repo.name.clone()));
    vars.push(("role", non_empty_or(repo.role.as_str(), "(unset)")));
    vars.push(("active_phase", non_empty_or(repo.active_phase.as_str(), "(unset)")));
    vars.push(("volatile_state", non_empty_or(repo.volatile_state.as_str(), "(unset)")));
    vars.push(("confidence_score", decimal_string(repo.confidence_score as u64)));
    vars.push(("debt_tag", debt_list(&repo.debt_tag)));
    vars.push(
        (
            "next_session_starter",
            non_empty_or(repo.next_session_starter.as_str(), "(none planned)"),
        ),
    );
    vars.push(("last_updated", repo.last_updated.clone()));
    vars.push(("git_commit", commit));
    vars.push(("git_stat", stat));
    vars.push(("spec_intent", intent));
    vars.push(("schema_version", state.schema_version.clone()));
    vars.push(("handoffs", handoff_list(&repo.handoffs)));
    assert(var_views(vars@) =~= template_vars(state@, repo@, *facts));
    vars
}

/// The templates of a resume, one per kind of repository.
pub struct Templates {
    pub backend: String,
    pub frontend: String,
    pub infra: String,
}

/// The template for a kind; that of a backend for any other word and for none.
pub open spec fn template_for(t: Templates, kind: Option<Seq<char>>) -> Seq<char> {
    if kind == Some("frontend"@) {
        t.frontend@
    } else if kind == Some("infra"@) {
        t.infra@
    } else {
        t.backend@
    }
}

/// The template for a kind.
pub fn load_template<'a>(t: &'a Templates, kind: Option<&str>) -> (r: &'a str)
    ensures
        r@ == template_for(*t, opt_view(kind)),
{
    if let Some(k) = kind {
        if same(k, "frontend") {
            return t.frontend.as_str();
        }
        if same(k, "infra") {
            return t.infra.as_str();
        }
    }
    t.backend.as_str()
}

/// The resume of a repository.
pub fn render_resume(
    state: &RelayState,
    repo: &RepoState,
    kind: Option<&str>,
    templates: &Templates,
    facts: &RepoFacts,
) -> (r: String)
    ensures
        r@ == filled(
            template_for(*templates, opt_view(kind)),
            template_vars(state@, repo@, *facts),
        ),
{
    let vars = vars_for(state, repo, facts);
    fill(load_template(templates, kind), &vars)
}

/// The template of the next step.
pub const NEXT_STEP_TEMPLATE: &'static str =
    "# Next session starter — {{repo_name}}\n\n> Run this first in the next session.\n\n{{next_session_starter}}\n\n## Open debts\n{{debt_tag}}\n\n## Confidence\n{{confidence_score}}/5\n\n---\n_Generated {{last_updated}}_\n";

/// The next step of a repository.
pub fn render_next_step(state: &RelayState, repo: &RepoState, facts: &RepoFacts) -> (r: String)
    ensures
        r@ == filled(NEXT_STEP_TEMPLATE@, template_vars(state@, repo@, *facts)),
{
    let vars = vars_for(state, repo, facts);
    fill(NEXT_STEP_TEMPLATE, &vars)
}

/// A rendered text as it is written to a file: with a line feed at the end.
pub fn file_text(rendered: &str) -> (r: String)
    ensures
        r@ == rendered@ + "\n"@,
{
    let mut out = rendered.to_owned();
    out.append("\n");
    out
}

// ---- summary ----

/// The line of a repository in the summary.
pub open spec fn status_line(r: RepoView) -> Seq<char> {
    let head = "  - "@ + r.name + " ["@ + or_else(r.active_phase, "?"@) + "] conf="@ + decimal(
        r.confidence_score,
    );
    let with_handoffs = if r.handoffs.len() > 0 {
        head + " · "@ + decimal(r.handoffs.len()) + " handoff(s)"@
    } else {
        head
    };
    if r.next_session_starter.len() > 0 {
        with_handoffs + " → "@ + clip(r.next_session_starter, 60)
    } else {
        with_handoffs
    }
}

fn repo_line(r: &RepoState) -> (line: String)
    ensures
        line@ == status_line(r@),
{
    let mut line = "  - ".to_owned();
    line.append(r.name.as_str());
    line.append(" [");
    line.append(non_empty_or(r.active_phase.as_str(), "?").as_str());
    line.append("] conf=");
    line.append(decimal_string(r.confidence_score as u64).as_str());
    assert(handoff_views(r.handoffs@).len() == r.handoffs@.len());
    if r.handoffs.len() > 0 {
        line.append(" · ");
        line.append(decimal_string(r.handoffs.len() as u64).as_str());
        line.append(" handoff(s)");
    }
    if !r.next_session_starter.as_str().is_empty() {
        line.append(" → ");
        line.append(str_clip(r.next_session_starter.as_str(), 60));
    }
    line
}

/// Some texts with commas between, or a word where there are none.
pub open spec fn list_or_none(v: Seq<Seq<char>>) -> Seq<char> {
    if v.len() == 0 {
        "(none)"@
    } else {
        join(v, ", "@)
    }
}

fn comma_list(v: &Vec<String>) -> (r: String)
    ensures
        r@ == list_or_none(texts(v@)),
{
    assert(texts(v@).len() == v@.len());
    if v.len() == 0 {
        "(none)".to_owned()
    } else {
        join_strings(v, ", ")
    }
}

/// The lines of the summary.
pub open spec fn status_lines(s: RelayView, root: Seq<char>, specs: Seq<Seq<char>>) -> Seq<
    Seq<char>,
> {
    seq![
        "Relay root: "@ + root,
        "Project: "@ + or_else(s.project_context, "(unset)"@),
        "Active baton: "@ + or_else(s.active_baton, "(none)"@),
        "Repos ("@ + decimal(s.repos.len()) + "):"@,
    ] + s.repos.map_values(|e: (Seq<char>, RepoView)| status_line(e.1)) + seq![
        "Specs: "@ + list_or_none(specs),
        "Drift: "@ + list_or_none(s.spec_sync.drift),
        "Updated: "@ + s.updated_at,
    ]
}

fn push_line(lines: &mut Vec<String>, head: &str, rest: &str)
    ensures
        texts(final(lines)@) == texts(old(lines)@).push(head@ + rest@),
{
    let ghost before = lines@;
    let mut l = head.to_owned();
    l.append(rest);
    lines.push(l);
    assert(texts(lines@) =~= texts(before).push(head@ + rest@));
}

/// The summary of all repositories, given the names of the specs.
pub fn status_report(state: &RelayState, root: &str, specs: &Vec<String>) -> (r: String)
    ensures
        r@ == join(status_lines(state@, root@, texts(specs@)), "\n"@),
{
    let ghost s = state@;
    let mut out: Vec<String> = Vec::new();
    assert(texts(out@) =~= Seq::<Seq<char>>::empty());
    push_line(&mut out, "Relay root: ", root);
    push_line(
        &mut out,
        "Project: ",
        non_empty_or(state.project_context.as_str(), "(unset)").as_str(),
    );
    push_line(
        &mut out,
        "Active baton: ",
        non_empty_or(state.active_baton.as_str(), "(none)").as_str(),
    );
    let mut count = "Repos (".to_owned();
    count.append(decimal_string(state.repos.len() as u64).as_str());
    push_line(&mut out, count.as_str(), "):");
    let ghost head = seq![
        "Relay root: "@ + root@,
        "Project: "@ + or_else(s.project_context, "(unset)"@),
        "Active baton: "@ + or_else(s.active_baton, "(none)"@),
        "Repos ("@ + decimal(s.repos.len()) + "):"@,
    ];
    assert(s.repos.len() == state.repos@.len());
    assert(texts(out@) =~= head);
    let ghost f = |e: (Seq<char>, RepoView)| status_line(e.1);
    let ghost all = s.repos.map_values(f);
    let mut i: usize = 0;
    assert(head + all.take(0) =~= head);
    while i < state.repos.len()
        invariant
            i <= state.repos.len(),
            s == state@,
            f == (|e: (Seq<char>, RepoView)| status_line(e.1)),
            all == s.repos.map_values(f),
            texts(out@) == head + all.take(i as int),
        decreases state.repos.len() - i,
    {
        let ghost before = out@;
        let line = repo_line(&state.repos[i].1);
        out.push(line);
        proof {
            assert(all[i as int] == line@);
            assert(texts(out@) =~= texts(before).push(line@));
            assert(all.take(i + 1) =~= all.take(i as int).push(all[i as int]));
            assert(head + all.take(i + 1) =~= (head + all.take(i as int)).push(line@));
        }
        i += 1;
    }
    assert(all.take(i as int) =~= all);
    push_line(&mut out, "Specs: ", comma_list(specs).as_str());
    push_line(&mut out, "Drift: ", comma_list(&state.spec_sync.drift).as_str());
    push_line(&mut out, "Updated: ", state.updated_at.as_str());
    assert(texts(out@) =~= status_lines(s, root@, texts(specs@)));
    join_strings(&out, "\n")
}

// ---- answers ----

/// The answer to a save.
pub fn save_report(name: &str, active_baton: &str, rendered: &str) -> (r: String)
    ensures
        r@ == "Saved state for \""@ + name@ + "\".\nActive baton: "@ + active_baton@ + "\n\n"@
            + rendered@,
{
    let mut out = "Saved state for \"".to_owned();
    out.append(name);
    out.append("\".\nActive baton: ");
    out.append(active_baton);
    out.append("\n\n");
    out.append(rendered);
    out
}

/// The answer to a switch.
pub fn switch_report(name: &str, rendered: &str) -> (r: String)
    ensures
        r@ == "Baton passed to \""@ + name@ + "\".\n\n"@ + rendered@,
{
    let mut out = "Baton passed to \"".to_owned();
    out.append(name);
    out.append("\".\n\n");
    out.append(rendered);
    out
}

/// How a commit went.
pub enum CommitOutcome {
    NotARepo,
    NothingToAdd,
    AddFailed,
    CommitFailed,
    Committed(String),
}

/// The line about a commit.
pub open spec fn commit_line(c: CommitOutcome) -> Seq<char> {
    match c {
        CommitOutcome::NotARepo => "not a git repo — skipped commit"@,
        CommitOutcome::NothingToAdd => "nothing to commit (files ignored or missing)"@,
        CommitOutcome::AddFailed => "committed: "@ + "commit skipped: git add failed"@,
        CommitOutcome::CommitFailed => "committed: "@ + "commit skipped: git commit failed"@,
        CommitOutcome::Committed(hash) => "committed: "@ + hash@,
    }
}

fn commit_text(c: &CommitOutcome) -> (r: String)
    ensures
        r@ == commit_line(*c),
{
    let mut out = "committed: ".to_owned();
    match c {
        CommitOutcome::NotARepo => return "not a git repo — skipped commit".to_owned(),
        CommitOutcome::NothingToAdd => return "nothing to commit (files ignored or missing)".to_owned(),
        CommitOutcome::AddFailed => out.append("commit skipped: git add failed"),
        CommitOutcome::CommitFailed => out.append("commit skipped: git commit failed"),
        CommitOutcome::Committed(hash) => out.append(hash.as_str()),
    }
    out
}

/// A file that a commit would take: whether it exists and whether git ignores it.
pub struct FileFact {
    pub name: String,
    pub exists: bool,
    pub ignored: bool,
}

/// The files that exist and are not ignored, in order.
pub open spec fn addable(files: Seq<FileFact>) -> Seq<Seq<char>>
    decreases files.len(),
{
    if files.len() == 0 {
        Seq::empty()
    } else {
        let r = addable(files.drop_last());
        if files.last().exists && !files.last().ignored {
            r.push(files.last().name@)
        } else {
            r
        }
    }
}

/// The files that a commit takes: an ignored or missing one never keeps the
/// others out.
pub fn addable_files(files: &[FileFact]) -> (r: Vec<String>)
    ensures
        texts(r@) == addable(files@),
{
    let mut r: Vec<String> = Vec::new();
    let mut i: usize = 0;
    assert(files@.take(0).len() == 0);
    assert(texts(r@) =~= addable(files@.take(0)));
    while i < files.len()
        invariant
            i <= files.len(),
            texts(r@) == addable(files@.take(i as int)),
        decreases files.len() - i,
    {
        let ghost before = r@;
        proof {
            assert(files@.take(i + 1).drop_last() =~= files@.take(i as int));
            assert(files@.take(i + 1).last() == files@[i as int]);
        }
        if files[i].exists && !files[i].ignored {
            r.push(files[i].name.clone());
            assert(texts(r@) =~= texts(before).push(files@[i as int].name@));
        }
        i += 1;
    }
    assert(files@.take(i as int) =~= files@);
    r
}

/// A step of a commit: what git is asked next.
pub enum CommitStep {
    Add(Vec<String>),
    Commit,
    Hash,
}

/// How a commit goes on: with a step, or not at all any more.
pub enum CommitMove {
    Step(CommitStep),
    Done(CommitOutcome),
}

/// Whether a commit of some files begins with a move.
pub open spec fn is_first_move(is_repo: bool, files: Seq<FileFact>, r: CommitMove) -> bool {
    if !is_repo {
        r == CommitMove::Done(CommitOutcome::NotARepo)
    } else if addable(files).len() == 0 {
        r == CommitMove::Done(CommitOutcome::NothingToAdd)
    } else {
        r matches CommitMove::Step(CommitStep::Add(names)) && texts(names@) == addable(files)
    }
}

/// How a commit of some files begins.
pub fn begin_commit(is_repo: bool, files: &[FileFact]) -> (r: CommitMove)
    ensures
        is_first_move(is_repo, files@, r),
{
    if !is_repo {
        return CommitMove::Done(CommitOutcome::NotARepo);
    }
    let names = addable_files(files);
    assert(texts(names@).len() == names@.len());
    if names.len() == 0 {
        CommitMove::Done(CommitOutcome::NothingToAdd)
    } else {
        CommitMove::Step(CommitStep::Add(names))
    }
}

/// Whether a commit goes on with a move after a step, given whether git succeeded and what it
/// printed.
pub open spec fn is_next_move(
    step: CommitStep,
    success: bool,
    printed: Seq<char>,
    r: CommitMove,
) -> bool {
    match step {
        CommitStep::Add(_) => r == (if success {
            CommitMove::Step(CommitStep::Commit)
        } else {
            CommitMove::Done(CommitOutcome::AddFailed)
        }),
        CommitStep::Commit => r == (if success {
            CommitMove::Step(CommitStep::Hash)
        } else {
            CommitMove::Done(CommitOutcome::CommitFailed)
        }),
        CommitStep::Hash => r matches CommitMove::Done(CommitOutcome::Committed(hash)) && hash@
            == printed,
    }
}

/// How a commit goes on after a step, given whether git succeeded and what it printed.
pub fn after_commit_step(step: &CommitStep, success: bool, printed: &str) -> (r: CommitMove)
    ensures
        is_next_move(*step, success, printed@, r),
{
    match step {
        CommitStep::Add(_) => if success {
            CommitMove::Step(CommitStep::Commit)
        } else {
            CommitMove::Done(CommitOutcome::AddFailed)
        },
        CommitStep::Commit => if success {
            CommitMove::Step(CommitStep::Hash)
        } else {
            CommitMove::Done(CommitOutcome::CommitFailed)
        },
        CommitStep::Hash => CommitMove::Done(CommitOutcome::Committed(printed.to_owned())),
    }
}

/// The arguments that git takes for a step of a commit with a message.
pub open spec fn step_args(step: CommitStep, message: Seq<char>) -> Seq<Seq<char>> {
    match step {
        CommitStep::Add(names) => seq!["add"@] + texts(names@),
        CommitStep::Commit => seq!["commit"@, "-m"@, message],
        CommitStep::Hash => seq!["log"@, "-1"@, "--format=%H"@],
    }
}

/// The arguments that git takes for a step of a commit with a message.
pub fn commit_args(step: &CommitStep, message: &str) -> (r: Vec<String>)
    ensures
        texts(r@) == step_args(*step, message@),
{
    let mut args: Vec<String> = Vec::new();
    match step {
        CommitStep::Add(names) => {
            args.push("add".to_owned());
            let mut more = clone_strings(names);
            args.append(&mut more);
        },
        CommitStep::Commit => {
            args.push("commit".to_owned());
            args.push("-m".to_owned());
            args.push(message.to_owned());
        },
        CommitStep::Hash => {
            args.push("log".to_owned());
            args.push("-1".to_owned());
            args.push("--format=%H".to_owned());
        },
    }
    assert(texts(args@) =~= step_args(*step, message@));
    args
}

/// The message of a closing commit.
pub fn close_message(name: &str, now: &str) -> (r: String)
    ensures
        r@ == "relay: close "@ + name@ + " ["@ + now@ + "]"@,
{
    let mut out = "relay: close ".to_owned();
    out.append(name);
    out.append(" [");
    out.append(now);
    out.append("]");
    out
}

/// What has changed, for the closing report: `name:status` for each spec that is not
/// unchanged, in order.
pub open spec fn changed_specs(diffs: Seq<(Seq<char>, Seq<char>)>) -> Seq<Seq<char>>
    decreases diffs.len(),
{
    if diffs.len() == 0 {
        Seq::empty()
    } else {
        let r = changed_specs(diffs.drop_last());
        if diffs.last().1 == "unchanged"@ {
            r
        } else {
            r.push(diffs.last().0 + ":"@ + diffs.last().1)
        }
    }
}

/// The line about the specs in the closing report.
pub open spec fn sync_line(diffs: Seq<(Seq<char>, Seq<char>)>) -> Seq<char> {
    if changed_specs(diffs).len() == 0 {
        "Spec sync: no changes"@
    } else {
        "Spec sync: "@ + join(changed_specs(diffs), ","@)
    }
}

fn sync_text(diffs: &Vec<(String, String)>) -> (r: String)
    ensures
        r@ == sync_line(crate::state::digest_views(diffs@)),
{
    let ghost dv = crate::state::digest_views(diffs@);
    let mut items: Vec<String> = Vec::new();
    let mut i: usize = 0;
    assert(dv.take(0).len() == 0);
    assert(texts(items@) =~= changed_specs(dv.take(0)));
    while i < diffs.len()
        invariant
            i <= diffs.len(),
            dv == crate::state::digest_views(diffs@),
            texts(items@) == changed_specs(dv.take(i as int)),
        decreases diffs.len() - i,
    {
        let ghost before = items@;
        proof {
            assert(dv.take(i + 1).drop_last() =~= dv.take(i as int));
            assert(dv.take(i + 1).last() == (diffs@[i as int].0@, diffs@[i as int].1@));
        }
        if !same(diffs[i].1.as_str(), "unchanged") {
            let mut item = diffs[i].0.clone();
            item.append(":");
            item.append(diffs[i].1.as_str());
            items.push(item);
            assert(texts(items@) =~= texts(before).push(item@));
        }
        i += 1;
    }
    assert(dv.take(i as int) =~= dv);
    assert(texts(items@).len() == items@.len());
    if items.len() == 0 {
        return "Spec sync: no changes".to_owned();
    }
    let mut out = "Spec sync: ".to_owned();
    out.append(join_strings(&items, ",").as_str());
    out
}

proof fn lemma_unchanged(diffs: Seq<(Seq<char>, Seq<char>)>)
    requires
        forall|i: int| 0 <= i < diffs.len() ==> (#[trigger] diffs[i]).1 == "unchanged"@,
    ensures
        changed_specs(diffs).len() == 0,
    decreases diffs.len(),
{
    if diffs.len() > 0 {
        let init = diffs.drop_last();
        assert forall|i: int| 0 <= i < init.len() implies (#[trigger] init[i]).1 == "unchanged"@ by {
            assert(init[i] == diffs[i]);
        }
        lemma_unchanged(init);
        assert(diffs[diffs.len() - 1].1 == "unchanged"@);
    }
}

/// A close right after another reports no changes where no spec has changed between.
pub proof fn law_closing_again_reports_no_changes(
    s: SpecSyncView,
    specs: Seq<SpecFile>,
    now: Seq<char>,
)
    requires
        forall|i: int, j: int|
            0 <= i < j < specs.len() ==> (#[trigger] specs[i]).name@ != (#[trigger] specs[j]).name@,
    ensures
        sync_line(spec_statuses(synced(s, specs, now).specs, specs)) == "Spec sync: no changes"@,
{
    law_comparing_again_finds_no_change(s, specs, now, now);
    lemma_unchanged(spec_statuses(synced(s, specs, now).specs, specs));
}

/// The lines of the closing report.
pub open spec fn close_lines(
    name: Seq<char>,
    issues: Seq<Seq<char>>,
    diffs: Seq<(Seq<char>, Seq<char>)>,
    next_step: Seq<char>,
    commit: CommitOutcome,
    note: Option<Seq<char>>,
) -> Seq<Seq<char>> {
    let head = seq![
        "Closing ritual for \""@ + name + "\"."@,
        "Consistency: "@ + (if issues.len() == 0 {
            "OK"@
        } else {
            "ISSUES"@
        }),
    ] + issues.map_values(|i: Seq<char>| "  - "@ + i) + seq![
        sync_line(diffs),
        Seq::empty(),
        next_step,
        Seq::empty(),
        commit_line(commit),
    ];
    match note {
        Some(n) => head + seq![Seq::empty(), n],
        None => head,
    }
}

/// The closing report.
pub fn close_report(
    name: &str,
    issues: &Vec<String>,
    diffs: &Vec<(String, String)>,
    next_step: &str,
    commit: &CommitOutcome,
    note: Option<&str>,
) -> (r: String)
    ensures
        r@ == join(
            close_lines(
                name@,
                texts(issues@),
                crate::state::digest_views(diffs@),
                next_step@,
                *commit,
                opt_view(note),
            ),
            "\n"@,
        ),
{
    let mut out: Vec<String> = Vec::new();
    assert(texts(out@) =~= Seq::<Seq<char>>::empty());
    let mut title = "Closing ritual for \"".to_owned();
    title.append(name);
    push_line(&mut out, title.as_str(), "\".");
    assert(texts(issues@).len() == issues@.len());
    let verdict = if issues.len() == 0 {
        "OK"
    } else {
        "ISSUES"
    };
    push_line(&mut out, "Consistency: ", verdict);
    let ghost head = texts(out@);
    let ghost f = |i: Seq<char>| "  - "@ + i;
    let ghost all = texts(issues@).map_values(f);
    let mut i: usize = 0;
    assert(head + all.take(0) =~= head);
    while i < issues.len()
        invariant
            i <= issues.len(),
            f == (|i: Seq<char>| "  - "@ + i),
            all == texts(issues@).map_values(f),
            texts(out@) == head + all.take(i as int),
        decreases issues.len() - i,
    {
        push_line(&mut out, "  - ", issues[i].as_str());
        proof {
            assert(all.take(i + 1) =~= all.take(i as int).push(all[i as int]));
            assert(head + all.take(i + 1) =~= (head + all.take(i as int)).push(all[i as int]));
        }
        i += 1;
    }
    assert(all.take(i as int) =~= all);
    let ghost upto = texts(out@);
    let ghost out0 = out@;
    out.push(sync_text(diffs));
    out.push(String::new());
    out.push(next_step.to_owned());
    out.push(String::new());
    out.push(commit_text(commit));
    let ghost tail = seq![
        sync_line(crate::state::digest_views(diffs@)),
        Seq::empty(),
        next_step@,
        Seq::empty(),
        commit_line(*commit),
    ];
    assert(texts(out@) =~= upto + tail);
    if let Some(n) = note {
        let ghost out1 = out@;
        out.push(String::new());
        out.push(n.to_owned());
        assert(texts(out@) =~= texts(out1) + seq![Seq::empty(), n@]);
    }
    assert(texts(out@) =~= close_lines(
        name@,
        texts(issues@),
        crate::state::digest_views(diffs@),
        next_step@,
        *commit,
        opt_view(note),
    ));
    join_strings(&out, "\n")
}

/// The answer to an init.
pub open spec fn init_text(root: Seq<char>, gitignore_note: Option<Seq<char>>) -> Seq<char> {
    join(
        (match gitignore_note {
            Some(n) => seq![
                "Initialized relay at "@ + root + "/relay.json"@,
                "- specs/ and .code-relay/ created"@,
                "- "@ + n,
                "- run relaySave to register the current repo"@,
            ],
            None => seq![
                "Initialized relay at "@ + root + "/relay.json"@,
                "- specs/ and .code-relay/ created"@,
                "- run relaySave to register the current repo"@,
            ],
        }),
        "\n"@,
    )
}

/// The answer to an init, given the note about the ignore file.
pub fn init_report(root: &str, gitignore_note: Option<&str>) -> (r: String)
    ensures
        r@ == init_text(root@, opt_view(gitignore_note)),
{
    let mut out: Vec<String> = Vec::new();
    assert(texts(out@) =~= Seq::<Seq<char>>::empty());
    let mut first = "Initialized relay at ".to_owned();
    first.append(root);
    push_line(&mut out, first.as_str(), "/relay.json");
    let ghost out0 = out@;
    out.push("- specs/ and .code-relay/ created".to_owned());
    assert(texts(out@) =~= texts(out0).push("- specs/ and .code-relay/ created"@));
    if let Some(n) = gitignore_note {
        push_line(&mut out, "- ", n);
    }
    let ghost out1 = out@;
    out.push("- run relaySave to register the current repo".to_owned());
    assert(texts(out@) =~= texts(out1).push("- run relaySave to register the current repo"@));
    proof {
        match gitignore_note {
            Some(n) => {
                assert(texts(out@) =~= seq![
                    "Initialized relay at "@ + root@ + "/relay.json"@,
                    "- specs/ and .code-relay/ created"@,
                    "- "@ + n@,
                    "- run relaySave to register the current repo"@,
                ]);
            },
            None => {
                assert(texts(out@) =~= seq![
                    "Initialized relay at "@ + root@ + "/relay.json"@,
                    "- specs/ and .code-relay/ created"@,
                    "- run relaySave to register the current repo"@,
                ]);
            },
        }
    }
    join_strings(&out, "\n")
}

proof fn lemma_var_names(s: RelayView, r: RepoView, facts: RepoFacts)
    ensures
        ({
            let vs = template_vars(s, r, facts);
            &&& vs.len() == 14
            &&& forall|i: int, j: int|
                0 <= i < j < 14 ==> (#[trigger] vs[i]).0 != (#[trigger] vs[j]).0
        }),
{
    reveal_strlit("project_context");
    reveal_strlit("repo_name");
    reveal_strlit("role");
    reveal_strlit("active_phase");
    reveal_strlit("volatile_state");
    reveal_strlit("confidence_score");
    reveal_strlit("debt_tag");
    reveal_strlit("next_session_starter");
    reveal_strlit("last_updated");
    reveal_strlit("git_commit");
    reveal_strlit("git_stat");
    reveal_strlit("spec_intent");
    reveal_strlit("schema_version");
    reveal_strlit("handoffs");
    let vs = template_vars(s, r, facts);
    let l = vs.map_values(|v: (Seq<char>, Seq<char>)| v.0.len());
    assert(l[0] == 15 && l[1] == 9 && l[2] == 4 && l[3] == 12 && l[4] == 14 && l[5] == 16 && l[6]
        == 8 && l[7] == 20 && l[8] == 12 && l[9] == 10 && l[10] == 8 && l[11] == 11 && l[12] == 14
        && l[13] == 8);
    assert(vs[3].0[0] == 'a' && vs[8].0[0] == 'l' && vs[4].0[0] == 'v' && vs[12].0[0] == 's');
    assert(vs[6].0[0] == 'd' && vs[10].0[0] == 'g' && vs[13].0[0] == 'h');
    assert forall|i: int, j: int| 0 <= i < j < 14 implies (#[trigger] vs[i]).0 != (
    #[trigger] vs[j]).0 by {
        assert(l[i] == vs[i].0.len() && l[j] == vs[j].0.len());
    }
}

proof fn lemma_var(s: RelayView, r: RepoView, facts: RepoFacts, k: int)
    requires
        0 <= k < 14,
    ensures
        value_of(template_vars(s, r, facts), template_vars(s, r, facts)[k].0) == template_vars(
            s,
            r,
            facts,
        )[k].1,
{
    lemma_var_names(s, r, facts);
    let vs = template_vars(s, r, facts);
    law_value_of(vs, vs[k].0, k);
}

/// What the tokens of a template stand for: each part of the repository and of the state
/// under its own name, with a word in its place where it is empty.
pub proof fn law_tokens_stand_for_the_state(s: RelayView, r: RepoView, facts: RepoFacts)
    ensures
        ({
            let vs = template_vars(s, r, facts);
            &&& value_of(vs, "repo_name"@) == r.name
            &&& value_of(vs, "last_updated"@) == r.last_updated
            &&& value_of(vs, "schema_version"@) == s.schema_version
            &&& value_of(vs, "confidence_score"@) == decimal(r.confidence_score)
            &&& s.project_context.len() > 0 ==> value_of(vs, "project_context"@)
                == s.project_context
            &&& s.project_context.len() == 0 ==> value_of(vs, "project_context"@) == "(unset)"@
            &&& r.role.len() > 0 ==> value_of(vs, "role"@) == r.role
            &&& r.role.len() == 0 ==> value_of(vs, "role"@) == "(unset)"@
            &&& r.active_phase.len() > 0 ==> value_of(vs, "active_phase"@) == r.active_phase
            &&& r.active_phase.len() == 0 ==> value_of(vs, "active_phase"@) == "(unset)"@
            &&& r.volatile_state.len() > 0 ==> value_of(vs, "volatile_state"@)
                == r.volatile_state
            &&& r.volatile_state.len() == 0 ==> value_of(vs, "volatile_state"@) == "(unset)"@
            &&& r.next_session_starter.len() > 0 ==> value_of(vs, "next_session_starter"@)
                == r.next_session_starter
            &&& r.next_session_starter.len() == 0 ==> value_of(vs, "next_session_starter"@)
                == "(none planned)"@
            &&& facts.git matches Some(g) ==> value_of(vs, "git_commit"@) == g.commit@
            &&& facts.git is None ==> value_of(vs, "git_commit"@) == "(not a git repo)"@
                && value_of(vs, "git_stat"@) == "n/a"@
            &&& facts.git matches Some(g) ==> (g.stat@.len() == 0 ==> value_of(vs, "git_stat"@)
                == decimal(lines(g.porcelain@).len()) + " files uncommitted"@)
            &&& facts.git matches Some(g) ==> (g.stat@.len() > 0 ==> value_of(vs, "git_stat"@)
                == g.stat@ + " ("@ + decimal(lines(g.porcelain@).len())
                + " files uncommitted)"@)
            &&& facts.intent_source matches Some(c) ==> value_of(vs, "spec_intent"@) == intent_of(
                c@,
            )
            &&& facts.intent_source is None ==> value_of(vs, "spec_intent"@) == "(no spec yet)"@
            &&& value_of(vs, "debt_tag"@) == debt_text(r.debt_tag)
            &&& value_of(vs, "handoffs"@) == handoffs_text(r.handoffs)
        }),
{
    lemma_var(s, r, facts, 0);
    lemma_var(s, r, facts, 1);
    lemma_var(s, r, facts, 2);
    lemma_var(s, r, facts, 3);
    lemma_var(s, r, facts, 4);
    lemma_var(s, r, facts, 5);
    lemma_var(s, r, facts, 6);
    lemma_var(s, r, facts, 7);
    lemma_var(s, r, facts, 8);
    lemma_var(s, r, facts, 9);
    lemma_var(s, r, facts, 10);
    lemma_var(s, r, facts, 11);
    lemma_var(s, r, facts, 12);
    lemma_var(s, r, facts, 13);
}

/// A debt is shown on a line of its own, and a document with its source, its time and its
/// text, an empty line between two; a further one goes behind those before it.
pub proof fn law_lists_grow_by_one(
    debts: Seq<Seq<char>>,
    d: Seq<char>,
    hs: Seq<HandoffView>,
    h: HandoffView,
)
    ensures
        debt_text(Seq::empty()) == "(none)"@,
        debt_text(seq![d]) == "- "@ + d,
        debts.len() > 0 ==> debt_text(debts.push(d)) == debt_text(debts) + "\n"@ + ("- "@ + d),
        handoffs_text(Seq::empty()) == "(none)"@,
        handoffs_text(seq![h]) == "### From "@ + h.source + " ("@ + h.captured_at + ")\n"@ + trim(
            h.raw,
        ),
        hs.len() > 0 ==> handoffs_text(hs.push(h)) == handoffs_text(hs) + "\n\n"@ + (
        "### From "@ + h.source + " ("@ + h.captured_at + ")\n"@ + trim(h.raw)),
{
    let f = |x: Seq<char>| "- "@ + x;
    let g = |x: HandoffView| handoff_block(x);
    assert(seq![d].map_values(f) =~= seq!["- "@ + d]);
    assert(debts.push(d).map_values(f) =~= debts.map_values(f).push("- "@ + d));
    law_join(debts.map_values(f), "- "@ + d, "\n"@);
    assert(seq![h].map_values(g) =~= seq![handoff_block(h)]);
    assert(hs.push(h).map_values(g) =~= hs.map_values(g).push(handoff_block(h)));
    law_join(hs.map_values(g), handoff_block(h), "\n\n"@);
}

/// Each kind has its own template; every other word, and none, stands for the backend.
pub proof fn law_kinds_have_templates(t: Templates, word: Seq<char>)
    ensures
        template_for(t, Some("frontend"@)) == t.frontend@,
        template_for(t, Some("infra"@)) == t.infra@,
        template_for(t, None) == t.backend@,
        word != "frontend"@ && word != "infra"@ ==> template_for(t, Some(word)) == t.backend@,
{
    reveal_strlit("frontend");
    reveal_strlit("infra");
    assert("frontend"@.len() == 8 && "infra"@.len() == 5);
}

/// The line of a repository has its name, its phase and its confidence; then the number of
/// documents that were handed over, where there are any; then the first 60 characters of
/// what the next session starts with, where that is known.
pub proof fn law_status_line(r: RepoView)
    ensures
        ({
            let phase = if r.active_phase.len() == 0 {
                "?"@
            } else {
                r.active_phase
            };
            let head = "  - "@ + r.name + " ["@ + phase + "] conf="@ + decimal(r.confidence_score);
            let documents = " · "@ + decimal(r.handoffs.len()) + " handoff(s)"@;
            let next = r.next_session_starter;
            let start = if next.len() > 60 {
                next.take(60)
            } else {
                next
            };
            &&& r.handoffs.len() == 0 && next.len() == 0 ==> status_line(r) == head
            &&& r.handoffs.len() > 0 && next.len() == 0 ==> status_line(r) == head + documents
            &&& r.handoffs.len() == 0 && next.len() > 0 ==> status_line(r) == head + " → "@
                + start
            &&& r.handoffs.len() > 0 && next.len() > 0 ==> status_line(r) == head + documents
                + " → "@ + start
        }),
{
    let phase = if r.active_phase.len() == 0 {
        "?"@
    } else {
        r.active_phase
    };
    let head = "  - "@ + r.name + " ["@ + phase + "] conf="@ + decimal(r.confidence_score);
    assert(head + " · "@ + decimal(r.handoffs.len()) + " handoff(s)"@ =~= head + (" · "@
        + decimal(r.handoffs.len()) + " handoff(s)"@));
}

/// The summary has a line for every repository, in order, between those about the state and
/// those about the specs.
pub proof fn law_summary_has_every_repo(
    s: RelayView,
    root: Seq<char>,
    specs: Seq<Seq<char>>,
    i: int,
)
    requires
        0 <= i < s.repos.len(),
    ensures
        ({
            let ls = status_lines(s, root, specs);
            let n = s.repos.len() as int;
            &&& ls.len() == n + 7
            &&& ls[0] == "Relay root: "@ + root
            &&& ls[1] == "Project: "@ + (if s.project_context.len() == 0 {
                "(unset)"@
            } else {
                s.project_context
            })
            &&& ls[2] == "Active baton: "@ + (if s.active_baton.len() == 0 {
                "(none)"@
            } else {
                s.active_baton
            })
            &&& ls[3] == "Repos ("@ + decimal(n as nat) + "):"@
            &&& ls[4 + i] == status_line(s.repos[i].1)
            &&& ls[n + 4] == "Specs: "@ + (if specs.len() == 0 {
                "(none)"@
            } else {
                join(specs, ", "@)
            })
            &&& ls[n + 5] == "Drift: "@ + (if s.spec_sync.drift.len() == 0 {
                "(none)"@
            } else {
                join(s.spec_sync.drift, ", "@)
            })
            &&& ls[n + 6] == "Updated: "@ + s.updated_at
        }),
{
}

/// A commit takes all the files that exist and are not ignored, in order, and no other.
pub proof fn law_addable_files(files: Seq<FileFact>)
    ensures
        addable(files) == files.filter(|f: FileFact| f.exists && !f.ignored).map_values(
            |f: FileFact| f.name@,
        ),
    decreases files.len(),
{
    reveal(Seq::filter);
    let f = |f: FileFact| f.exists && !f.ignored;
    let g = |f: FileFact| f.name@;
    if files.len() > 0 {
        law_addable_files(files.drop_last());
        let a = files.drop_last().filter(f);
        assert(a.push(files.last()).map_values(g) =~= a.map_values(g).push(files.last().name@));
    } else {
        assert(addable(files) =~= files.filter(f).map_values(g));
    }
}

/// The closing report names every spec that is not unchanged, in order, with its status.
pub proof fn law_sync_line_names_what_changed(diffs: Seq<(Seq<char>, Seq<char>)>)
    ensures
        ({
            let changed = diffs.filter(|d: (Seq<char>, Seq<char>)| d.1 != "unchanged"@);
            &&& changed.len() == 0 ==> sync_line(diffs) == "Spec sync: no changes"@
            &&& changed.len() > 0 ==> sync_line(diffs) == "Spec sync: "@ + join(
                changed.map_values(|d: (Seq<char>, Seq<char>)| d.0 + ":"@ + d.1),
                ","@,
            )
        }),
{
    lemma_changed_specs(diffs);
}

proof fn lemma_changed_specs(diffs: Seq<(Seq<char>, Seq<char>)>)
    ensures
        changed_specs(diffs) == diffs.filter(
            |d: (Seq<char>, Seq<char>)| d.1 != "unchanged"@,
        ).map_values(|d: (Seq<char>, Seq<char>)| d.0 + ":"@ + d.1),
        changed_specs(diffs).len() == diffs.filter(
            |d: (Seq<char>, Seq<char>)| d.1 != "unchanged"@,
        ).len(),
    decreases diffs.len(),
{
    reveal(Seq::filter);
    let f = |d: (Seq<char>, Seq<char>)| d.1 != "unchanged"@;
    let g = |d: (Seq<char>, Seq<char>)| d.0 + ":"@ + d.1;
    if diffs.len() > 0 {
        let init = diffs.drop_last();
        lemma_changed_specs(init);
        let a = init.filter(f);
        assert(a.push(diffs.last()).map_values(g) =~= a.map_values(g).push(g(diffs.last())));
    } else {
        assert(changed_specs(diffs) =~= diffs.filter(f).map_values(g));
    }
}

/// The closing report says whether the specs are consistent, which they are without an
/// issue, lists every issue, and goes on with the specs, the next step and the commit, and
/// with the note where there is one.
pub proof fn law_closing_report(
    name: Seq<char>,
    issues: Seq<Seq<char>>,
    diffs: Seq<(Seq<char>, Seq<char>)>,
    next_step: Seq<char>,
    commit: CommitOutcome,
    note: Option<Seq<char>>,
)
    ensures
        ({
            let ls = close_lines(name, issues, diffs, next_step, commit, note);
            let n = issues.len() as int;
            &&& ls[0] == "Closing ritual for \""@ + name + "\"."@
            &&& n == 0 ==> ls[1] == "Consistency: "@ + "OK"@
            &&& n > 0 ==> ls[1] == "Consistency: "@ + "ISSUES"@
            &&& forall|i: int| 0 <= i < n ==> ls[2 + i] == "  - "@ + #[trigger] issues[i]
            &&& ls[n + 2] == sync_line(diffs)
            &&& ls[n + 3].len() == 0
            &&& ls[n + 4] == next_step
            &&& ls[n + 5].len() == 0
            &&& ls[n + 6] == commit_line(commit)
            &&& note is None ==> ls.len() == n + 7
            &&& note matches Some(t) ==> ls.len() == n + 9 && ls[n + 7].len() == 0 && ls[n + 8] == t
        }),
{
}

/// The line about the commit tells its five outcomes apart; only a commit that was made shows a
/// hash.
pub proof fn law_commit_lines(hash: String)
    ensures
        commit_line(CommitOutcome::NotARepo) == "not a git repo — skipped commit"@,
        commit_line(CommitOutcome::NothingToAdd) == "nothing to commit (files ignored or missing)"@,
        commit_line(CommitOutcome::AddFailed) == "committed: "@ + "commit skipped: git add failed"@,
        commit_line(CommitOutcome::CommitFailed) == "committed: "@
            + "commit skipped: git commit failed"@,
        commit_line(CommitOutcome::Committed(hash)) == "committed: "@ + hash@,
{
}

/// What git is told in each step of a commit: to add the files by their names, to commit with the
/// message, and to show the hash of the last commit.
pub proof fn law_commit_arguments(names: Vec<String>, message: Seq<char>, i: int)
    ensures
        ({
            let add = step_args(CommitStep::Add(names), message);
            &&& add.len() == names@.len() + 1
            &&& add[0] == "add"@
            &&& 0 <= i < names@.len() ==> add[i + 1] == names@[i]@
        }),
        step_args(CommitStep::Commit, message) == seq!["commit"@, "-m"@, message],
        step_args(CommitStep::Hash, message) == seq!["log"@, "-1"@, "--format=%H"@],
{
}

/// The answer to an init names the state file, and the note about the ignore file where there is
/// one, between the other two lines.
pub proof fn law_init_text(root: Seq<char>, note: Seq<char>)
    ensures
        init_text(root, None) == "Initialized relay at "@ + root + "/relay.json"@ + "\n"@
            + "- specs/ and .code-relay/ created"@ + "\n"@
            + "- run relaySave to register the current repo"@,
        init_text(root, Some(note)) == "Initialized relay at "@ + root + "/relay.json"@ + "\n"@
            + "- specs/ and .code-relay/ created"@ + "\n"@ + ("- "@ + note) + "\n"@
            + "- run relaySave to register the current repo"@,
{
    let a = "Initialized relay at "@ + root + "/relay.json"@;
    let b = "- specs/ and .code-relay/ created"@;
    let c = "- run relaySave to register the current repo"@;
    let n = "- "@ + note;
    law_join(seq![a], a, "\n"@);
    law_join(seq![a], b, "\n"@);
    law_join(seq![a, b], c, "\n"@);
    law_join(seq![a, b], n, "\n"@);
    law_join(seq![a, b, n], c, "\n"@);
    assert(seq![a].push(b) =~= seq![a, b]);
    assert(seq![a, b].push(c) =~= seq![a, b, c]);
    assert(seq![a, b].push(n) =~= seq![a, b, n]);
    assert(seq![a, b, n].push(c) =~= seq![a, b, n, c]);
}

/// A commit that git carries out takes three steps: it adds all the files that exist and are not
/// ignored, it commits, and it asks for the hash, which is then its outcome.
pub proof fn law_a_commit_is_made(
    files: Seq<FileFact>,
    message: Seq<char>,
    hash: Seq<char>,
    first: CommitMove,
    second: CommitMove,
    third: CommitMove,
    last: CommitMove,
    printed: Seq<char>,
)
    requires
        exists|i: int|
            0 <= i < files.len() && (#[trigger] files[i]).exists && !files[i].ignored,
        is_first_move(true, files, first),
        first matches CommitMove::Step(a) ==> is_next_move(a, true, printed, second),
        second matches CommitMove::Step(b) ==> is_next_move(b, true, printed, third),
        third matches CommitMove::Step(c) ==> is_next_move(c, true, hash, last),
    ensures
        first matches CommitMove::Step(a) && step_args(a, message) == seq!["add"@] + files.filter(
            |f: FileFact| f.exists && !f.ignored,
        ).map_values(|f: FileFact| f.name@),
        second matches CommitMove::Step(b) && step_args(b, message) == seq![
            "commit"@,
            "-m"@,
            message,
        ],
        third matches CommitMove::Step(c) && step_args(c, message) == seq![
            "log"@,
            "-1"@,
            "--format=%H"@,
        ],
        last matches CommitMove::Done(o) && commit_line(o) == "committed: "@ + hash,
{
    let f = |f: FileFact| f.exists && !f.ignored;
    law_addable_files(files);
    crate::text::lemma_filter(files, f);
    let i = choose|i: int| 0 <= i < files.len() && (#[trigger] files[i]).exists && !files[i].ignored;
    assert(f(files[i]));
    assert(files.filter(f).contains(files[i]));
    assert(addable(files).len() == files.filter(f).len());
}

/// A commit ends where there is no repository, where there is nothing to add, and at the first
/// step that fails, each with an outcome of its own.
pub proof fn law_a_commit_stops(
    files: Seq<FileFact>,
    names: Vec<String>,
    printed: Seq<char>,
    a: CommitMove,
    b: CommitMove,
    c: CommitMove,
    d: CommitMove,
)
    requires
        is_first_move(false, files, a),
        forall|i: int| 0 <= i < files.len() ==> !(#[trigger] files[i]).exists || files[i].ignored,
        is_first_move(true, files, b),
        is_next_move(CommitStep::Add(names), false, printed, c),
        is_next_move(CommitStep::Commit, false, printed, d),
    ensures
        a == CommitMove::Done(CommitOutcome::NotARepo),
        b == CommitMove::Done(CommitOutcome::NothingToAdd),
        c == CommitMove::Done(CommitOutcome::AddFailed),
        d == CommitMove::Done(CommitOutcome::CommitFailed),
{
    let f = |f: FileFact| f.exists && !f.ignored;
    law_addable_files(files);
    let kept = files.filter(f);
    if kept.len() > 0 {
        crate::text::lemma_filter_keeps(files, f, 0);
        let i = choose|i: int| 0 <= i < files.len() && #[trigger] files[i] == kept[0];
        assert(!f(files[i]));
    }
    assert(addable(files).len() == kept.len());
}

proof fn lemma_next_step_template()
    ensures
        NEXT_STEP_TEMPLATE@ == "# Next session starter — "@ + seq!['{', '{'] + "repo_name"@ + seq!['}', '}']
            + ("\n\n> Run this first in the next session.\n\n"@ + seq!['{', '{']
            + "next_session_starter"@ + seq!['}', '}'] + ("\n\n## Open debts\n"@ + seq!['{', '{']
            + "debt_tag"@ + seq!['}', '}'] + ("\n\n## Confidence\n"@ + seq!['{', '{']
            + "confidence_score"@ + seq!['}', '}'] + ("/5\n\n---\n_Generated "@ + seq!['{', '{']
            + "last_updated"@ + seq!['}', '}'] + "_\n"@)))),
{
    reveal_strlit(
        "# Next session starter — {{repo_name}}\n\n> Run this first in the next session.\n\n{{next_session_starter}}\n\n## Open debts\n{{debt_tag}}\n\n## Confidence\n{{confidence_score}}/5\n\n---\n_Generated {{last_updated}}_\n",
    );
    reveal_strlit("# Next session starter — ");
    reveal_strlit("repo_name");
    reveal_strlit("\n\n> Run this first in the next session.\n\n");
    reveal_strlit("next_session_starter");
    reveal_strlit("\n\n## Open debts\n");
    reveal_strlit("debt_tag");
    reveal_strlit("\n\n## Confidence\n");
    reveal_strlit("confidence_score");
    reveal_strlit("/5\n\n---\n_Generated ");
    reveal_strlit("last_updated");
    reveal_strlit("_\n");
    assert(NEXT_STEP_TEMPLATE@ =~= "# Next session starter — "@ + seq!['{', '{'] + "repo_name"@ + seq!['}', '}']
        + ("\n\n> Run this first in the next session.\n\n"@ + seq!['{', '{']
        + "next_session_starter"@ + seq!['}', '}'] + ("\n\n## Open debts\n"@ + seq!['{', '{']
        + "debt_tag"@ + seq!['}', '}'] + ("\n\n## Confidence\n"@ + seq!['{', '{']
        + "confidence_score"@ + seq!['}', '}'] + ("/5\n\n---\n_Generated "@ + seq!['{', '{']
        + "last_updated"@ + seq!['}', '}'] + "_\n"@)))));
}

proof fn lemma_next_step_parts()
    ensures
        !"# Next session starter — "@.contains('{'),
        !"\n\n> Run this first in the next session.\n\n"@.contains('{'),
        !"\n\n## Open debts\n"@.contains('{'),
        !"\n\n## Confidence\n"@.contains('{'),
        !"/5\n\n---\n_Generated "@.contains('{'),
        !"_\n"@.contains('{'),
        !"repo_name"@.contains('{') && !"repo_name"@.contains('}'),
        !"next_session_starter"@.contains('{') && !"next_session_starter"@.contains('}'),
        !"debt_tag"@.contains('{') && !"debt_tag"@.contains('}'),
        !"confidence_score"@.contains('{') && !"confidence_score"@.contains('}'),
        !"last_updated"@.contains('{') && !"last_updated"@.contains('}'),
{
    reveal_strlit("# Next session starter — ");
    reveal_strlit("repo_name");
    reveal_strlit("\n\n> Run this first in the next session.\n\n");
    reveal_strlit("next_session_starter");
    reveal_strlit("\n\n## Open debts\n");
    reveal_strlit("debt_tag");
    reveal_strlit("\n\n## Confidence\n");
    reveal_strlit("confidence_score");
    reveal_strlit("/5\n\n---\n_Generated ");
    reveal_strlit("last_updated");
    reveal_strlit("_\n");
}

/// The next step that a close leaves: what the next session starts with, under the name of the
/// repository, and then its debts, its confidence and its time.
pub proof fn law_next_step(s: RelayView, r: RepoView, facts: RepoFacts)
    ensures
        ({
            let start = if r.next_session_starter.len() == 0 {
                "(none planned)"@
            } else {
                r.next_session_starter
            };
            filled(NEXT_STEP_TEMPLATE@, template_vars(s, r, facts)) == "# Next session starter — "@
                + r.name + ("\n\n> Run this first in the next session.\n\n"@ + start + (
            "\n\n## Open debts\n"@ + debt_text(r.debt_tag) + ("\n\n## Confidence\n"@ + decimal(
                r.confidence_score,
            ) + ("/5\n\n---\n_Generated "@ + r.last_updated + "_\n"@))))
        }),
{
    let vs = template_vars(s, r, facts);
    lemma_next_step_template();
    lemma_next_step_parts();
    law_tokens_stand_for_the_state(s, r, facts);
    let t5 = "_\n"@;
    let t4 = "/5\n\n---\n_Generated "@ + seq!['{', '{'] + "last_updated"@ + seq!['}', '}'] + t5;
    let t3 = "\n\n## Confidence\n"@ + seq!['{', '{'] + "confidence_score"@ + seq!['}', '}'] + t4;
    let t2 = "\n\n## Open debts\n"@ + seq!['{', '{'] + "debt_tag"@ + seq!['}', '}'] + t3;
    let t1 = "\n\n> Run this first in the next session.\n\n"@ + seq!['{', '{']
        + "next_session_starter"@ + seq!['}', '}'] + t2;
    law_open_braces_stay(t5, vs);
    law_tokens_are_replaced("/5\n\n---\n_Generated "@, "last_updated"@, t5, vs);
    law_tokens_are_replaced("\n\n## Confidence\n"@, "confidence_score"@, t4, vs);
    law_tokens_are_replaced("\n\n## Open debts\n"@, "debt_tag"@, t3, vs);
    law_tokens_are_replaced(
        "\n\n> Run this first in the next session.\n\n"@,
        "next_session_starter"@,
        t2,
        vs,
    );
    law_tokens_are_replaced("# Next session starter — "@, "repo_name"@, t1, vs);
}

}
