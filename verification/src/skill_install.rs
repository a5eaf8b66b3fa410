//! Managed copies of the relay skill in the directories of local agents.
//!
//! A copy carries a marker. What does not carry it is somebody's own file: it is
//! never overwritten and never removed.
use vstd::prelude::*;

use crate::paths::{join_path, joined};
use crate::state::digest_views;
use crate::text::{contains, find, find_from, lemma_contains_at, lemma_find, lower, same, str_contains, texts, to_chars, to_lower};

verus! {

/// What a managed copy carries.
pub const MARKER: &'static str = "managed by graphify handoff skill";

/// An agent with a directory for skills.
#[derive(Debug, Clone, Copy, PartialEq, Eq, Structural)]
pub enum Agent {
    Opencode,
    Claude,
    Cursor,
    Cline,
}

/// The name of the agent Opencode.
pub const OPENCODE: &'static str = "opencode";

/// The name of the agent Cursor.
pub const CURSOR: &'static str = "cursor";

/// The name of the agent Cline.
pub const CLINE: &'static str = "cline";

/// The name of an agent. That of one of them is given: the host chooses it.
pub open spec fn agent_name(a: Agent, claude: Seq<char>) -> Seq<char> {
    match a {
        Agent::Opencode => OPENCODE@,
        Agent::Claude => claude,
        Agent::Cursor => CURSOR@,
        Agent::Cline => CLINE@,
    }
}

/// The agent with a name.
pub open spec fn agent_named(name: Seq<char>, claude: Seq<char>) -> Option<Agent> {
    if name == OPENCODE@ {
        Some(Agent::Opencode)
    } else if name == CURSOR@ {
        Some(Agent::Cursor)
    } else if name == CLINE@ {
        Some(Agent::Cline)
    } else if name == claude {
        Some(Agent::Claude)
    } else {
        None
    }
}

impl Agent {
    /// All agents.
    pub const ALL: [Agent; 4] = [Agent::Opencode, Agent::Claude, Agent::Cursor, Agent::Cline];

    /// The agent of a name, whatever its case, given the name that the host chooses.
    pub fn parse(name: &str, claude: &str) -> (r: Option<Agent>)
        ensures
            r == agent_named(lower(name@), claude@),
    {
        let word = to_lower(name);
        if same(word.as_str(), OPENCODE) {
            Some(Agent::Opencode)
        } else if same(word.as_str(), CURSOR) {
            Some(Agent::Cursor)
        } else if same(word.as_str(), CLINE) {
            Some(Agent::Cline)
        } else if same(word.as_str(), claude) {
            Some(Agent::Claude)
        } else {
            None
        }
    }

    /// The name of the agent, given the name that the host chooses.
    pub fn name<'a>(self, claude: &'a str) -> (r: &'a str)
        ensures
            r@ == agent_name(self, claude@),
    {
        match self {
            Agent::Opencode => OPENCODE,
            Agent::Claude => claude,
            Agent::Cursor => CURSOR,
            Agent::Cline => CLINE,
        }
    }
}

/// Where a copy goes: to the user's home, or into the project.
#[derive(Debug, Clone, Copy, PartialEq, Eq, Structural)]
pub enum Scope {
    User,
    Project,
}

/// The name of a scope.
pub open spec fn scope_name(s: Scope) -> Seq<char> {
    match s {
        Scope::User => "user"@,
        Scope::Project => "project"@,
    }
}

impl Scope {
    /// The scope of a name, whatever its case.
    pub fn parse(name: &str) -> (r: Option<Scope>)
        ensures
            match r {
                Some(s) => lower(name@) == scope_name(s),
                None => forall|s: Scope| lower(name@) != #[trigger] scope_name(s),
            },
    {
        let word = to_lower(name);
        if same(word.as_str(), "user") {
            Some(Scope::User)
        } else if same(word.as_str(), "project") {
            Some(Scope::Project)
        } else {
            None
        }
    }
}

proof fn lemma_names_are_lower()
    ensures
        lower(OPENCODE@) == OPENCODE@,
        lower(CURSOR@) == CURSOR@,
        lower(CLINE@) == CLINE@,
        OPENCODE@ != CURSOR@,
        OPENCODE@ != CLINE@,
        CURSOR@ != CLINE@,
{
    reveal_strlit("opencode");
    reveal_strlit("cursor");
    reveal_strlit("cline");
    assert(lower(OPENCODE@) =~= OPENCODE@);
    assert(lower(CURSOR@) =~= CURSOR@);
    assert(lower(CLINE@) =~= CLINE@);
    assert(OPENCODE@.len() == 8 && CURSOR@.len() == 6 && CLINE@.len() == 5);
}

/// Parsing the name of an agent gives that agent back; of the one that the host names this
/// holds where its name is in lower case and no other agent's.
pub proof fn law_names_parse_back(a: Agent, claude: Seq<char>)
    ensures
        a != Agent::Claude || (lower(claude) == claude && claude != OPENCODE@ && claude != CURSOR@
            && claude != CLINE@) ==> agent_named(lower(agent_name(a, claude)), claude) == Some(a),
{
    lemma_names_are_lower();
}

/// Why an installation fails as a whole.
#[derive(Debug, Clone, PartialEq, Eq)]
pub enum SkillInstallError {
    NoHome,
    Io(String),
}

/// The text of an error.
pub open spec fn error_text(e: SkillInstallError) -> Seq<char> {
    match e {
        SkillInstallError::NoHome => "cannot resolve $HOME"@,
        SkillInstallError::Io(e) => "io error: "@ + e@,
    }
}

impl SkillInstallError {
    /// The text of the error.
    pub fn message(&self) -> (r: String)
        ensures
            r@ == error_text(*self),
    {
        match self {
            SkillInstallError::NoHome => "cannot resolve $HOME".to_owned(),
            SkillInstallError::Io(e) => io_text(e.as_str()),
        }
    }
}

fn io_text(e: &str) -> (r: String)
    ensures
        r@ == "io error: "@ + e@,
{
    let mut m = "io error: ".to_owned();
    m.append(e);
    m
}

/// What an installation did: the copies it wrote, and the targets that it left,
/// with the reason.
#[derive(Debug, Clone, PartialEq, Eq)]
pub struct InstallReport {
    pub installed: Vec<String>,
    pub skipped: Vec<(String, String)>,
}

/// What an uninstallation did: the copies it removed, and the targets that it
/// left, with the reason.
#[derive(Debug, Clone, PartialEq, Eq)]
pub struct UninstallReport {
    pub removed: Vec<String>,
    pub skipped: Vec<(String, String)>,
}

impl InstallReport {
    /// How many targets there were.
    pub fn total(&self) -> (r: usize)
        requires
            self.installed@.len() + self.skipped@.len() <= usize::MAX,
        ensures
            r == self.installed@.len() + self.skipped@.len(),
    {
        self.installed.len() + self.skipped.len()
    }
}

impl UninstallReport {
    /// How many targets there were.
    pub fn total(&self) -> (r: usize)
        requires
            self.removed@.len() + self.skipped@.len() <= usize::MAX,
        ensures
            r == self.removed@.len() + self.skipped@.len(),
    {
        self.removed.len() + self.skipped.len()
    }
}

/// Which agents' directories exist: two in the user's home, two in the project.
pub struct AgentDirs {
    pub home_opencode: bool,
    pub home_claude: bool,
    pub cwd_cursor: bool,
    pub cwd_clinerules: bool,
}

/// The agents whose directories exist, in order.
pub open spec fn agents_found(d: AgentDirs) -> Seq<Agent> {
    let a = if d.home_opencode {
        seq![Agent::Opencode]
    } else {
        Seq::empty()
    };
    let b = if d.home_claude {
        a.push(Agent::Claude)
    } else {
        a
    };
    let c = if d.cwd_cursor {
        b.push(Agent::Cursor)
    } else {
        b
    };
    if d.cwd_clinerules {
        c.push(Agent::Cline)
    } else {
        c
    }
}

/// The agents whose directories exist.
pub fn detect_agents(found: &AgentDirs) -> (r: Vec<Agent>)
    ensures
        r@ == agents_found(*found),
{
    let mut agents: Vec<Agent> = Vec::new();
    if found.home_opencode {
        agents.push(Agent::Opencode);
        assert(agents@ =~= seq![Agent::Opencode]);
    }
    if found.home_claude {
        agents.push(Agent::Claude);
    }
    if found.cwd_cursor {
        agents.push(Agent::Cursor);
    }
    if found.cwd_clinerules {
        agents.push(Agent::Cline);
    }
    agents
}

/// The line that marks a copy.
pub open spec fn marker_line() -> Seq<char> {
    "<!-- "@ + MARKER@ + " -->\n"@
}

/// A text with the marker: after its front matter where it has some, else at its
/// start.
pub open spec fn marked(content: Seq<char>) -> Seq<char> {
    match find(content, "\n---\n"@) {
        Some(p) => content.take(p as int + 5) + marker_line() + content.skip(p as int + 5),
        None => marker_line() + content,
    }
}

/// The skill as it is installed: its text with the marker.
pub fn content_for_install(content: &str) -> (r: String)
    ensures
        r@ == marked(content@),
{
    let mut line = "<!-- ".to_owned();
    line.append(MARKER);
    line.append(" -->\n");
    let cs = to_chars(content);
    let fence = to_chars("\n---\n");
    proof {
        reveal_strlit("\n---\n");
        assert(content@.skip(0) =~= content@);
        lemma_find(content@, "\n---\n"@);
    }
    match find_from(&cs, &fence, 0) {
        Some(p) => {
            assert(p + 5 <= cs.len());
            let mut out = content.substring_char(0, p + 5).to_owned();
            out.append(line.as_str());
            out.append(content.substring_char(p + 5, cs.len()));
            assert(content@.subrange(0, p + 5) =~= content@.take(p + 5));
            assert(content@.subrange(p + 5, content@.len() as int) =~= content@.skip(p + 5));
            out
        },
        None => {
            line.append(content);
            line
        },
    }
}

/// What is installed carries the marker, whatever the skill's text is.
pub proof fn law_a_copy_is_managed(content: Seq<char>)
    ensures
        contains(marked(content), MARKER@),
{
    let m = marked(content);
    let head = match find(content, "\n---\n"@) {
        Some(p) => {
            lemma_find(content, "\n---\n"@);
            reveal_strlit("\n---\n");
            content.take(p as int + 5)
        },
        None => Seq::empty(),
    };
    let at = head.len() + "<!-- "@.len();
    assert(m.skip(at as int).take(MARKER@.len() as int) =~= MARKER@);
    lemma_contains_at(m, MARKER@, at as int);
}

/// Where the skill of an agent goes in a scope, if anywhere.
pub open spec fn target_of(
    home: Seq<char>,
    cwd: Seq<char>,
    agent: Agent,
    scope: Scope,
    claude: Seq<char>,
) -> Option<Seq<char>> {
    match (agent, scope) {
        (Agent::Opencode, Scope::User) => Some(
            joined(home, ".config/opencode/skills/graphify-relay/SKILL.md"@),
        ),
        (Agent::Opencode, Scope::Project) => Some(
            joined(cwd, ".opencode/skills/graphify-relay/SKILL.md"@),
        ),
        (Agent::Claude, Scope::User) => Some(
            joined(home, "."@ + claude + "/skills/graphify-relay/SKILL.md"@),
        ),
        (Agent::Claude, Scope::Project) => None,
        (Agent::Cursor, Scope::Project) => Some(joined(cwd, ".cursor/rules/graphify-relay.mdc"@)),
        (Agent::Cursor, Scope::User) => None,
        (Agent::Cline, Scope::Project) => Some(joined(cwd, ".clinerules"@)),
        (Agent::Cline, Scope::User) => None,
    }
}

/// The targets of some agents, in order.
pub open spec fn targets_of(
    home: Seq<char>,
    cwd: Seq<char>,
    agents: Seq<Agent>,
    scope: Scope,
    claude: Seq<char>,
) -> Seq<Seq<char>>
    decreases agents.len(),
{
    if agents.len() == 0 {
        Seq::empty()
    } else {
        let r = targets_of(home, cwd, agents.drop_last(), scope, claude);
        match target_of(home, cwd, agents.last(), scope, claude) {
            Some(t) => r.push(t),
            None => r,
        }
    }
}

fn target_path(home: &str, cwd: &str, agent: Agent, scope: Scope, claude: &str) -> (r: Option<
    String,
>)
    ensures
        crate::text::opt_text(r) == target_of(home@, cwd@, agent, scope, claude@),
{
    match (agent, scope) {
        (Agent::Opencode, Scope::User) => Some(
            join_path(home, ".config/opencode/skills/graphify-relay/SKILL.md"),
        ),
        (Agent::Opencode, Scope::Project) => Some(
            join_path(cwd, ".opencode/skills/graphify-relay/SKILL.md"),
        ),
        (Agent::Claude, Scope::User) => {
            let mut rel = ".".to_owned();
            rel.append(claude);
            rel.append("/skills/graphify-relay/SKILL.md");
            Some(join_path(home, rel.as_str()))
        },
        (Agent::Claude, Scope::Project) => None,
        (Agent::Cursor, Scope::Project) => Some(join_path(cwd, ".cursor/rules/graphify-relay.mdc")),
        (Agent::Cursor, Scope::User) => None,
        (Agent::Cline, Scope::Project) => Some(join_path(cwd, ".clinerules")),
        (Agent::Cline, Scope::User) => None,
    }
}

/// The files that an installation into some agents is about, given the name that the
/// host chooses.
pub fn target_paths(home: &str, cwd: &str, agents: &[Agent], scope: Scope, claude: &str) -> (r: Vec<
    String,
>)
    ensures
        texts(r@) == targets_of(home@, cwd@, agents@, scope, claude@),
{
    let mut out: Vec<String> = Vec::new();
    let mut i: usize = 0;
    assert(agents@.take(0).len() == 0);
    assert(texts(out@) =~= targets_of(home@, cwd@, agents@.take(0), scope, claude@));
    while i < agents.len()
        invariant
            i <= agents.len(),
            texts(out@) == targets_of(home@, cwd@, agents@.take(i as int), scope, claude@),
        decreases agents.len() - i,
    {
        let ghost before = out@;
        proof {
            assert(agents@.take(i + 1).drop_last() =~= agents@.take(i as int));
            assert(agents@.take(i + 1).last() == agents@[i as int]);
        }
        if let Some(t) = target_path(home, cwd, agents[i], scope, claude) {
            out.push(t);
            assert(texts(out@) =~= texts(before).push(t@));
        }
        i += 1;
    }
    assert(agents@.take(i as int) =~= agents@);
    out
}

/// A target as it is found: whether there is a file, its text where it can be
/// read, and, where it was to be written or removed, why that failed.
pub struct Target {
    pub path: String,
    pub exists: bool,
    pub content: Option<String>,
    pub failure: Option<String>,
}

/// Whether a target holds a managed copy.
pub open spec fn is_managed_target(t: Target) -> bool {
    t.content matches Some(c) && contains(c@, MARKER@)
}

/// Whether a file with this text, where it can be read, is a managed copy.
pub fn is_managed(content: Option<&str>) -> (r: bool)
    ensures
        r == (content matches Some(c) && contains(c@, MARKER@)),
{
    match content {
        Some(c) => str_contains(c, MARKER),
        None => false,
    }
}

/// Whether a copy may be written: there is nothing yet, or a managed copy.
pub fn may_write(present: bool, content: Option<&str>) -> (r: bool)
    ensures
        r == (!present || (content matches Some(c) && contains(c@, MARKER@))),
{
    !present || is_managed(content)
}

fn managed(t: &Target) -> (r: bool)
    ensures
        r == is_managed_target(*t),
{
    match &t.content {
        Some(c) => is_managed(Some(c.as_str())),
        None => is_managed(None),
    }
}

/// How an installation treats a target: `None` where a copy is written, else why
/// it is left.
pub open spec fn install_refusal(t: Target) -> Option<Seq<char>> {
    if t.exists && !is_managed_target(t) {
        Some("exists without managed marker — not touched"@)
    } else {
        match t.failure {
            Some(e) => Some("io error: "@ + e@),
            None => None,
        }
    }
}

/// The paths of the copies that an installation writes.
pub open spec fn installed_of(ts: Seq<Target>) -> Seq<Seq<char>>
    decreases ts.len(),
{
    if ts.len() == 0 {
        Seq::empty()
    } else {
        let r = installed_of(ts.drop_last());
        if install_refusal(ts.last()) is None {
            r.push(ts.last().path@)
        } else {
            r
        }
    }
}

/// The targets that an installation leaves, with the reason.
pub open spec fn install_skipped(ts: Seq<Target>) -> Seq<(Seq<char>, Seq<char>)>
    decreases ts.len(),
{
    if ts.len() == 0 {
        Seq::empty()
    } else {
        let r = install_skipped(ts.drop_last());
        match install_refusal(ts.last()) {
            Some(why) => r.push((ts.last().path@, why)),
            None => r,
        }
    }
}

fn refusal(t: &Target) -> (r: Option<String>)
    ensures
        crate::text::opt_text(r) == install_refusal(*t),
{
    if t.exists && !managed(t) {
        return Some("exists without managed marker — not touched".to_owned());
    }
    match &t.failure {
        Some(e) => Some(io_text(e.as_str())),
        None => None,
    }
}

/// The report of an installation into some targets.
pub fn install_into(targets: &[Target]) -> (r: InstallReport)
    ensures
        texts(r.installed@) == installed_of(targets@),
        digest_views(r.skipped@) == install_skipped(targets@),
{
    let mut installed: Vec<String> = Vec::new();
    let mut skipped: Vec<(String, String)> = Vec::new();
    let mut i: usize = 0;
    proof {
        assert(targets@.take(0).len() == 0);
        assert(texts(installed@) =~= installed_of(targets@.take(0)));
        assert(digest_views(skipped@) =~= install_skipped(targets@.take(0)));
    }
    while i < targets.len()
        invariant
            i <= targets.len(),
            texts(installed@) == installed_of(targets@.take(i as int)),
            digest_views(skipped@) == install_skipped(targets@.take(i as int)),
        decreases targets.len() - i,
    {
        let t = &targets[i];
        let ghost a = installed@;
        let ghost b = skipped@;
        proof {
            assert(targets@.take(i + 1).drop_last() =~= targets@.take(i as int));
            assert(targets@.take(i + 1).last() == targets@[i as int]);
        }
        match refusal(t) {
            None => {
                installed.push(t.path.clone());
                assert(texts(installed@) =~= texts(a).push(t.path@));
            },
            Some(why) => {
                skipped.push((t.path.clone(), why));
                assert(digest_views(skipped@) =~= digest_views(b).push((t.path@, why@)));
            },
        }
        i += 1;
    }
    assert(targets@.take(i as int) =~= targets@);
    InstallReport { installed, skipped }
}

/// The paths of the copies that an uninstallation removes.
pub open spec fn removed_of(ts: Seq<Target>) -> Seq<Seq<char>>
    decreases ts.len(),
{
    if ts.len() == 0 {
        Seq::empty()
    } else {
        let r = removed_of(ts.drop_last());
        if ts.last().exists && is_managed_target(ts.last()) {
            r.push(ts.last().path@)
        } else {
            r
        }
    }
}

/// The targets that an uninstallation leaves, with the reason.
pub open spec fn uninstall_skipped(ts: Seq<Target>) -> Seq<(Seq<char>, Seq<char>)>
    decreases ts.len(),
{
    if ts.len() == 0 {
        Seq::empty()
    } else {
        let r = uninstall_skipped(ts.drop_last());
        if ts.last().exists && !is_managed_target(ts.last()) {
            r.push((ts.last().path@, "exists without managed marker — left alone"@))
        } else {
            r
        }
    }
}

/// A removal that failed.
pub open spec fn is_failed_removal(t: Target) -> bool {
    t.exists && is_managed_target(t) && t.failure is Some
}

/// The report of an uninstallation from some targets; the first removal that
/// failed ends it.
pub fn uninstall_into(targets: &[Target]) -> (r: Result<UninstallReport, SkillInstallError>)
    ensures
        match r {
            Ok(report) => {
                &&& forall|i: int|
                    0 <= i < targets@.len() ==> !is_failed_removal(#[trigger] targets@[i])
                &&& texts(report.removed@) == removed_of(targets@)
                &&& digest_views(report.skipped@) == uninstall_skipped(targets@)
            },
            Err(e) => exists|i: int|
                {
                    &&& 0 <= i < targets@.len()
                    &&& is_failed_removal(#[trigger] targets@[i])
                    &&& forall|j: int| 0 <= j < i ==> !is_failed_removal(#[trigger] targets@[j])
                    &&& error_text(e) == "io error: "@ + targets@[i].failure->0@
                },
        },
{
    let mut removed: Vec<String> = Vec::new();
    let mut skipped: Vec<(String, String)> = Vec::new();
    let mut i: usize = 0;
    proof {
        assert(targets@.take(0).len() == 0);
        assert(texts(removed@) =~= removed_of(targets@.take(0)));
        assert(digest_views(skipped@) =~= uninstall_skipped(targets@.take(0)));
    }
    while i < targets.len()
        invariant
            i <= targets.len(),
            forall|j: int| 0 <= j < i ==> !is_failed_removal(#[trigger] targets@[j]),
            texts(removed@) == removed_of(targets@.take(i as int)),
            digest_views(skipped@) == uninstall_skipped(targets@.take(i as int)),
        decreases targets.len() - i,
    {
        let t = &targets[i];
        let ghost a = removed@;
        let ghost b = skipped@;
        proof {
            assert(targets@.take(i + 1).drop_last() =~= targets@.take(i as int));
            assert(targets@.take(i + 1).last() == targets@[i as int]);
        }
        if t.exists {
            if managed(t) {
                if let Some(e) = &t.failure {
                    assert(is_failed_removal(targets@[i as int]));
                    return Err(SkillInstallError::Io(e.clone()));
                }
                removed.push(t.path.clone());
                assert(texts(removed@) =~= texts(a).push(t.path@));
            } else {
                skipped.push(
                    (t.path.clone(), "exists without managed marker — left alone".to_owned()),
                );
                assert(digest_views(skipped@) =~= digest_views(b).push(
                    (t.path@, "exists without managed marker — left alone"@),
                ));
            }
        }
        i += 1;
    }
    assert(targets@.take(i as int) =~= targets@);
    Ok(UninstallReport { removed, skipped })
}

/// A file of somebody's own is neither written nor removed: what a report names as
/// installed or removed was absent or carried the marker.
pub proof fn law_own_files_are_kept(ts: Seq<Target>, path: Seq<char>)
    ensures
        installed_of(ts).contains(path) ==> exists|i: int|
            0 <= i < ts.len() && (#[trigger] ts[i]).path@ == path && (!ts[i].exists
                || is_managed_target(ts[i])),
        removed_of(ts).contains(path) ==> exists|i: int|
            0 <= i < ts.len() && (#[trigger] ts[i]).path@ == path && ts[i].exists
                && is_managed_target(ts[i]),
    decreases ts.len(),
{
    if ts.len() > 0 {
        let init = ts.drop_last();
        law_own_files_are_kept(init, path);
        assert forall|i: int| 0 <= i < init.len() implies #[trigger] init[i] == ts[i] by {}
        if installed_of(ts).contains(path) {
            let all = installed_of(ts);
            let r = installed_of(init);
            let k = choose|k: int| 0 <= k < all.len() && all[k] == path;
            if k < r.len() {
                assert(r[k] == path);
                let i = choose|i: int|
                    0 <= i < init.len() && (#[trigger] init[i]).path@ == path && (!init[i].exists
                        || is_managed_target(init[i]));
                assert(ts[i] == init[i]);
            } else {
                assert(ts[ts.len() - 1] == ts.last());
            }
        }
        if removed_of(ts).contains(path) {
            let all = removed_of(ts);
            let r = removed_of(init);
            let k = choose|k: int| 0 <= k < all.len() && all[k] == path;
            if k < r.len() {
                assert(r[k] == path);
                let i = choose|i: int|
                    0 <= i < init.len() && (#[trigger] init[i]).path@ == path && init[i].exists
                        && is_managed_target(init[i]);
                assert(ts[i] == init[i]);
            } else {
                assert(ts[ts.len() - 1] == ts.last());
            }
        }
    }
}

/// A copy that was installed may be written again, and is removed by an
/// uninstallation.
pub proof fn law_a_copy_can_be_renewed(content: Seq<char>, t: Target)
    requires
        t.exists,
        t.content matches Some(c) && c@ == marked(content),
        t.failure is None,
    ensures
        install_refusal(t) is None,
        removed_of(seq![t]) == seq![t.path@],
{
    law_a_copy_is_managed(content);
    assert(seq![t].drop_last().len() == 0);
    assert(seq![t].last() == t);
    assert(removed_of(seq![t].drop_last()) =~= Seq::<Seq<char>>::empty());
    assert(removed_of(seq![t]) =~= seq![t.path@]);
}

/// Whether some targets are as an installation left them: a copy where it wrote one,
/// and what it left as it was. Nothing failed.
pub open spec fn is_after_install(before: Seq<Target>, after: Seq<Target>, content: Seq<char>) -> bool {
    &&& before.len() == after.len()
    &&& forall|i: int|
        0 <= i < before.len() ==> {
            &&& (#[trigger] before[i]).failure is None
            &&& after[i].failure is None
            &&& after[i].path@ == before[i].path@
            &&& if install_refusal(before[i]) is None {
                after[i].exists && after[i].content is Some && after[i].content->0@ == marked(content)
            } else {
                after[i].exists == before[i].exists && after[i].content == before[i].content
            }
        }
}

/// Whether some targets are as an uninstallation left them: no file where it removed a
/// copy, and what it left as it was.
pub open spec fn is_after_uninstall(before: Seq<Target>, after: Seq<Target>) -> bool {
    &&& before.len() == after.len()
    &&& forall|i: int|
        0 <= i < before.len() ==> {
            &&& after[i].path@ == (#[trigger] before[i]).path@
            &&& if before[i].exists && is_managed_target(before[i]) {
                !after[i].exists
            } else {
                after[i].exists == before[i].exists && after[i].content == before[i].content
            }
        }
}

/// The paths in a list of skipped targets.
pub open spec fn skipped_paths(v: Seq<(Seq<char>, Seq<char>)>) -> Seq<Seq<char>> {
    v.map_values(|e: (Seq<char>, Seq<char>)| e.0)
}

/// An uninstallation after an installation removes exactly what that installed, in the
/// same order, leaves exactly what that left, and does not fail.
pub proof fn law_uninstall_undoes_install(
    before: Seq<Target>,
    after: Seq<Target>,
    content: Seq<char>,
)
    requires
        is_after_install(before, after, content),
    ensures
        removed_of(after) == installed_of(before),
        skipped_paths(uninstall_skipped(after)) == skipped_paths(install_skipped(before)),
        forall|i: int| 0 <= i < after.len() ==> !is_failed_removal(#[trigger] after[i]),
    decreases before.len(),
{
    law_a_copy_is_managed(content);
    assert forall|i: int| 0 <= i < after.len() implies !is_failed_removal(#[trigger] after[i]) by {
        assert(before[i].failure is None);
    }
    if before.len() == 0 {
        assert(skipped_paths(uninstall_skipped(after)) =~= skipped_paths(install_skipped(before)));
    } else {
        let b = before.drop_last();
        let a = after.drop_last();
        assert forall|i: int| 0 <= i < b.len() implies {
            &&& (#[trigger] b[i]).failure is None
            &&& a[i].failure is None
            &&& a[i].path@ == b[i].path@
            &&& if install_refusal(b[i]) is None {
                a[i].exists && a[i].content is Some && a[i].content->0@ == marked(content)
            } else {
                a[i].exists == b[i].exists && a[i].content == b[i].content
            }
        } by {
            assert(b[i] == before[i] && a[i] == after[i]);
        }
        law_uninstall_undoes_install(b, a, content);
        let n = before.len() - 1;
        assert(before[n].failure is None);
        assert(before.last() == before[n] && after.last() == after[n]);
        let us = uninstall_skipped(a);
        let is = install_skipped(b);
        if install_refusal(before[n]) is None {
            assert(is_managed_target(after[n]));
        } else {
            assert(skipped_paths(uninstall_skipped(after)) =~= skipped_paths(us).push(
                after[n].path@,
            ));
            assert(skipped_paths(install_skipped(before)) =~= skipped_paths(is).push(
                before[n].path@,
            ));
        }
    }
}

/// After an uninstallation no copy is left to remove, and what was left alone is as it
/// was: a second one removes nothing and leaves the same.
pub proof fn law_uninstall_leaves_no_copy(before: Seq<Target>, after: Seq<Target>)
    requires
        is_after_uninstall(before, after),
    ensures
        removed_of(after).len() == 0,
        uninstall_skipped(after) == uninstall_skipped(before),
    decreases before.len(),
{
    if before.len() > 0 {
        let b = before.drop_last();
        let a = after.drop_last();
        assert forall|i: int| 0 <= i < b.len() implies {
            &&& a[i].path@ == (#[trigger] b[i]).path@
            &&& if b[i].exists && is_managed_target(b[i]) {
                !a[i].exists
            } else {
                a[i].exists == b[i].exists && a[i].content == b[i].content
            }
        } by {
            assert(b[i] == before[i] && a[i] == after[i]);
        }
        law_uninstall_leaves_no_copy(b, a);
        let n = before.len() - 1;
        assert(after[n].path@ == before[n].path@);
        assert(before.last() == before[n] && after.last() == after[n]);
    }
}

/// A target without a file is in neither list of an uninstallation, as long as no other
/// target has its path.
pub proof fn law_missing_targets_are_passed_over(ts: Seq<Target>, i: int)
    requires
        0 <= i < ts.len(),
        !ts[i].exists,
        forall|j: int| 0 <= j < ts.len() && j != i ==> (#[trigger] ts[j]).path@ != ts[i].path@,
    ensures
        !removed_of(ts).contains(ts[i].path@),
        !skipped_paths(uninstall_skipped(ts)).contains(ts[i].path@),
{
    let p = ts[i].path@;
    law_own_files_are_kept(ts, p);
    lemma_skipped_exist(ts, p);
}

proof fn lemma_skipped_exist(ts: Seq<Target>, p: Seq<char>)
    ensures
        skipped_paths(uninstall_skipped(ts)).contains(p) ==> exists|j: int|
            0 <= j < ts.len() && (#[trigger] ts[j]).path@ == p && ts[j].exists,
    decreases ts.len(),
{
    let all = skipped_paths(uninstall_skipped(ts));
    if all.contains(p) {
        let k = choose|k: int| 0 <= k < all.len() && all[k] == p;
        let init = ts.drop_last();
        let r = skipped_paths(uninstall_skipped(init));
        lemma_skipped_exist(init, p);
        if k < r.len() {
            assert(r[k] == all[k]);
            assert(r.contains(p));
            let j = choose|j: int|
                0 <= j < init.len() && (#[trigger] init[j]).path@ == p && init[j].exists;
            assert(ts[j] == init[j]);
        } else {
            assert(ts[ts.len() - 1].path@ == p);
        }
    }
}

/// An agent is found just where its directory exists: two in the user's home, two in the project;
/// the found ones come in the order of all agents.
pub proof fn law_agents_found(d: AgentDirs)
    ensures
        agents_found(d) == seq![
            (Agent::Opencode, d.home_opencode),
            (Agent::Claude, d.home_claude),
            (Agent::Cursor, d.cwd_cursor),
            (Agent::Cline, d.cwd_clinerules),
        ].filter(|a: (Agent, bool)| a.1).map_values(|a: (Agent, bool)| a.0),
{
    reveal(Seq::filter);
    let f = |a: (Agent, bool)| a.1;
    let g = |a: (Agent, bool)| a.0;
    let s4 = seq![
        (Agent::Opencode, d.home_opencode),
        (Agent::Claude, d.home_claude),
        (Agent::Cursor, d.cwd_cursor),
        (Agent::Cline, d.cwd_clinerules),
    ];
    let s3 = s4.drop_last();
    let s2 = s3.drop_last();
    let s1 = s2.drop_last();
    let s0 = s1.drop_last();
    assert(s4.last() == (Agent::Cline, d.cwd_clinerules));
    assert(s3.last() == (Agent::Cursor, d.cwd_cursor));
    assert(s2.last() == (Agent::Claude, d.home_claude));
    assert(s1.last() == (Agent::Opencode, d.home_opencode));
    assert(s0.filter(f) =~= Seq::empty());
    lemma_found_step(s1);
    lemma_found_step(s2);
    lemma_found_step(s3);
    lemma_found_step(s4);
    assert(s0.filter(f).map_values(g) =~= Seq::<Agent>::empty());
    assert(agents_found(d) =~= s4.filter(f).map_values(g));
}

proof fn lemma_found_step(s: Seq<(Agent, bool)>)
    requires
        s.len() > 0,
    ensures
        s.filter(|a: (Agent, bool)| a.1).map_values(|a: (Agent, bool)| a.0) == (if s.last().1 {
            s.drop_last().filter(|a: (Agent, bool)| a.1).map_values(
                |a: (Agent, bool)| a.0,
            ).push(s.last().0)
        } else {
            s.drop_last().filter(|a: (Agent, bool)| a.1).map_values(|a: (Agent, bool)| a.0)
        }),
{
    reveal(Seq::filter);
    let f = |a: (Agent, bool)| a.1;
    let g = |a: (Agent, bool)| a.0;
    let r = s.drop_last().filter(f);
    assert(r.push(s.last()).map_values(g) =~= r.map_values(g).push(s.last().0));
}

/// Where each skill goes: for the user below the home directory, for a project below the working
/// directory, each agent in a place of its own; of the other pairs none has a place.
pub proof fn law_targets(home: Seq<char>, cwd: Seq<char>, claude: Seq<char>)
    ensures
        target_of(home, cwd, Agent::Opencode, Scope::User, claude) == Some(
            joined(home, ".config/opencode/skills/graphify-relay/SKILL.md"@),
        ),
        target_of(home, cwd, Agent::Opencode, Scope::Project, claude) == Some(
            joined(cwd, ".opencode/skills/graphify-relay/SKILL.md"@),
        ),
        target_of(home, cwd, Agent::Claude, Scope::User, claude) == Some(
            joined(home, "."@ + claude + "/skills/graphify-relay/SKILL.md"@),
        ),
        target_of(home, cwd, Agent::Cursor, Scope::Project, claude) == Some(
            joined(cwd, ".cursor/rules/graphify-relay.mdc"@),
        ),
        target_of(home, cwd, Agent::Cline, Scope::Project, claude) == Some(
            joined(cwd, ".clinerules"@),
        ),
        target_of(home, cwd, Agent::Claude, Scope::Project, claude) is None,
        target_of(home, cwd, Agent::Cursor, Scope::User, claude) is None,
        target_of(home, cwd, Agent::Cline, Scope::User, claude) is None,
{
}

/// The targets of some agents are all those that have one in the scope, in the order of the
/// agents.
pub proof fn law_targets_of_agents(
    home: Seq<char>,
    cwd: Seq<char>,
    agents: Seq<Agent>,
    scope: Scope,
    claude: Seq<char>,
)
    ensures
        targets_of(home, cwd, agents, scope, claude) == agents.filter(
            |a: Agent| target_of(home, cwd, a, scope, claude) is Some,
        ).map_values(|a: Agent| target_of(home, cwd, a, scope, claude)->0),
    decreases agents.len(),
{
    reveal(Seq::filter);
    let f = |a: Agent| target_of(home, cwd, a, scope, claude) is Some;
    let g = |a: Agent| target_of(home, cwd, a, scope, claude)->0;
    if agents.len() > 0 {
        law_targets_of_agents(home, cwd, agents.drop_last(), scope, claude);
        let a = agents.drop_last().filter(f);
        assert(a.push(agents.last()).map_values(g) =~= a.map_values(g).push(g(agents.last())));
    } else {
        assert(targets_of(home, cwd, agents, scope, claude) =~= agents.filter(f).map_values(g));
    }
}

/// The marker goes right behind the front matter, on a line of its own, and to the start of a
/// text that has none; without it the text is as it was.
pub proof fn law_where_the_marker_goes(head: Seq<char>, body: Seq<char>, plain: Seq<char>)
    requires
        !contains(plain, "\n---\n"@),
        find(head + "\n---\n"@ + body, "\n---\n"@) == Some(head.len()),
    ensures
        marked(head + "\n---\n"@ + body) == head + "\n---\n"@ + ("<!-- "@ + MARKER@ + " -->\n"@)
            + body,
        marked(plain) == ("<!-- "@ + MARKER@ + " -->\n"@) + plain,
{
    reveal_strlit("\n---\n");
    let t = head + "\n---\n"@ + body;
    let p = head.len() as int;
    assert(t.take(p + 5) =~= head + "\n---\n"@);
    assert(t.skip(p + 5) =~= body);
}

/// An installation writes a copy to each target that has no file or a managed copy, and where the
/// writing does not fail; each other target is left, with the reason. Every target is in one of
/// the two lists, in order.
pub proof fn law_every_target_is_reported(ts: Seq<Target>)
    ensures
        installed_of(ts) == ts.filter(
            |t: Target|
                (!t.exists || (t.content is Some && contains(t.content->0@, MARKER@)))
                    && t.failure is None,
        ).map_values(|t: Target| t.path@),
        install_skipped(ts) == ts.filter(
            |t: Target|
                (t.exists && !(t.content is Some && contains(t.content->0@, MARKER@)))
                    || t.failure is Some,
        ).map_values(
            |t: Target|
                (
                    t.path@,
                    if t.exists && !(t.content is Some && contains(t.content->0@, MARKER@)) {
                        "exists without managed marker — not touched"@
                    } else {
                        "io error: "@ + t.failure->0@
                    },
                ),
        ),
        installed_of(ts).len() + install_skipped(ts).len() == ts.len(),
    decreases ts.len(),
{
    reveal(Seq::filter);
    let f = |t: Target|
        (!t.exists || (t.content is Some && contains(t.content->0@, MARKER@))) && t.failure is None;
    let g = |t: Target| t.path@;
    let h = |t: Target|
        (t.exists && !(t.content is Some && contains(t.content->0@, MARKER@))) || t.failure is Some;
    let k = |t: Target|
        (
            t.path@,
            if t.exists && !(t.content is Some && contains(t.content->0@, MARKER@)) {
                "exists without managed marker — not touched"@
            } else {
                "io error: "@ + t.failure->0@
            },
        );
    if ts.len() > 0 {
        let init = ts.drop_last();
        law_every_target_is_reported(init);
        let a = init.filter(f);
        let b = init.filter(h);
        assert(a.push(ts.last()).map_values(g) =~= a.map_values(g).push(g(ts.last())));
        assert(b.push(ts.last()).map_values(k) =~= b.map_values(k).push(k(ts.last())));
    } else {
        assert(installed_of(ts) =~= ts.filter(f).map_values(g));
        assert(install_skipped(ts) =~= ts.filter(h).map_values(k));
    }
}

/// An uninstallation removes each managed copy and leaves each other file, with the reason; a
/// target without a file is in neither list.
pub proof fn law_every_file_is_reported(ts: Seq<Target>)
    ensures
        removed_of(ts) == ts.filter(
            |t: Target| t.exists && t.content is Some && contains(t.content->0@, MARKER@),
        ).map_values(|t: Target| t.path@),
        uninstall_skipped(ts) == ts.filter(
            |t: Target| t.exists && !(t.content is Some && contains(t.content->0@, MARKER@)),
        ).map_values(
            |t: Target| (t.path@, "exists without managed marker — left alone"@),
        ),
    decreases ts.len(),
{
    reveal(Seq::filter);
    let f = |t: Target| t.exists && t.content is Some && contains(t.content->0@, MARKER@);
    let g = |t: Target| t.path@;
    let h = |t: Target| t.exists && !(t.content is Some && contains(t.content->0@, MARKER@));
    let k = |t: Target| (t.path@, "exists without managed marker — left alone"@);
    if ts.len() > 0 {
        let init = ts.drop_last();
        law_every_file_is_reported(init);
        let a = init.filter(f);
        let b = init.filter(h);
        assert(a.push(ts.last()).map_values(g) =~= a.map_values(g).push(g(ts.last())));
        assert(b.push(ts.last()).map_values(k) =~= b.map_values(k).push(k(ts.last())));
    } else {
        assert(removed_of(ts) =~= ts.filter(f).map_values(g));
        assert(uninstall_skipped(ts) =~= ts.filter(h).map_values(k));
    }
}

/// The names of the scopes, each of which parses back.
pub proof fn law_scopes()
    ensures
        scope_name(Scope::User) == "user"@,
        scope_name(Scope::Project) == "project"@,
        lower(scope_name(Scope::User)) == scope_name(Scope::User),
        lower(scope_name(Scope::Project)) == scope_name(Scope::Project),
        scope_name(Scope::User) != scope_name(Scope::Project),
{
    reveal_strlit("user");
    reveal_strlit("project");
    assert("user"@.len() == 4 && "project"@.len() == 7);
    assert(lower("user"@) =~= "user"@);
    assert(lower("project"@) =~= "project"@);
}

/// The texts of the errors.
pub proof fn law_error_texts(e: String)
    ensures
        error_text(SkillInstallError::NoHome) == "cannot resolve $HOME"@,
        error_text(SkillInstallError::Io(e)) == "io error: "@ + e@,
{
}

/// A word that is no agent's name stands for none, and one that is stands for that agent alone.
pub proof fn law_only_names_stand_for_agents(word: Seq<char>, claude: Seq<char>)
    ensures
        agent_named(word, claude) matches Some(a) ==> agent_name(a, claude) == word,
        word != "opencode"@ && word != "cursor"@ && word != "cline"@ && word != claude
            ==> agent_named(word, claude) is None,
        word == "opencode"@ ==> agent_named(word, claude) == Some(Agent::Opencode),
        word == "cursor"@ ==> agent_named(word, claude) == Some(Agent::Cursor),
        word == "cline"@ ==> agent_named(word, claude) == Some(Agent::Cline),
{
    lemma_names_are_lower();
}

}
