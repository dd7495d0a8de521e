//! How the host starts the agent.
use vstd::prelude::*;
use crate::text::texts;

verus! {

/// How close to the workspace the agent runs.
#[derive(Debug, PartialEq, Eq)]
pub enum AgentExecutionTier {
    /// The workspace is mounted where the agent runs.
    MountedWorkspace,
}

/// How the host starts the agent, and what the agent can do.
#[derive(Debug, PartialEq, Eq)]
pub struct AgentMetadata {
    /// The name under which the agent is shown.
    pub name: String,
    /// The program to run.
    pub executable: String,
    /// Its arguments for an interactive session.
    pub args: Vec<String>,
    /// Its arguments for a new session that begins with a prompt.
    pub resume_new_args: Vec<String>,
    /// Its arguments for a prompt to an earlier session.
    pub resume_cont_args: Vec<String>,
    /// How close to the workspace it runs.
    pub execution_tier: AgentExecutionTier,
    /// What it can do in a workspace.
    pub workspace_capabilities: Vec<String>,
}

/// The arguments that every session has.
pub open spec fn common_args() -> Seq<Seq<char>> {
    seq![
        "--allow-all-paths"@,
        "--output-format"@,
        "json"@,
        "--allow-all-tools"@,
        "--available-tools=basalt(*)"@,
    ]
}

/// The arguments that hand over the prompt, which stands for itself in braces.
pub open spec fn prompt_args() -> Seq<Seq<char>> {
    seq!["-p"@, "{prompt}"@]
}

/// What the agent can do in a workspace.
pub open spec fn capabilities() -> Seq<Seq<char>> {
    seq![
        "speculative-edits"@,
        "approval-required"@,
        "utf8-text"@,
        "create"@,
        "delete"@,
        "rename"@,
        "shadow-projection"@,
        "mcp"@,
    ]
}

/// Adds the arguments that every session has.
fn add_common_args(v: &mut Vec<String>)
    ensures
        texts(final(v)@) == texts(old(v)@) + common_args(),
{
    v.push("--allow-all-paths".to_owned());
    v.push("--output-format".to_owned());
    v.push("json".to_owned());
    v.push("--allow-all-tools".to_owned());
    v.push("--available-tools=basalt(*)".to_owned());
    assert(texts(v@) =~= texts(old(v)@) + common_args());
}

/// Adds the arguments that hand over the prompt.
fn add_prompt_args(v: &mut Vec<String>)
    ensures
        texts(final(v)@) == texts(old(v)@) + prompt_args(),
{
    v.push("-p".to_owned());
    v.push("{prompt}".to_owned());
    assert(texts(v@) =~= texts(old(v)@) + prompt_args());
}

/// How the host starts the GitHub Copilot agent.
pub fn agent_metadata() -> (r: AgentMetadata)
    ensures
        r.name@ == "GitHub Copilot"@,
        r.executable@ == "/opt/homebrew/bin/copilot"@,
        texts(r.args@) == common_args(),
        texts(r.args@) == seq![
            "--allow-all-paths"@,
            "--output-format"@,
            "json"@,
            "--allow-all-tools"@,
            "--available-tools=basalt(*)"@,
        ],
        texts(r.resume_new_args@) == texts(r.args@) + seq!["-p"@, "{prompt}"@],
        texts(r.resume_cont_args@) == seq!["--resume={session_id}"@] + texts(r.resume_new_args@),
        texts(r.resume_new_args@) == common_args() + prompt_args(),
        texts(r.resume_cont_args@) == seq!["--resume={session_id}"@] + common_args()
            + prompt_args(),
        r.execution_tier == AgentExecutionTier::MountedWorkspace,
        texts(r.workspace_capabilities@) == capabilities(),
        texts(r.workspace_capabilities@) == seq![
            "speculative-edits"@,
            "approval-required"@,
            "utf8-text"@,
            "create"@,
            "delete"@,
            "rename"@,
            "shadow-projection"@,
            "mcp"@,
        ],
{
    let mut args: Vec<String> = Vec::new();
    add_common_args(&mut args);
    assert(texts(args@) =~= common_args());
    let mut resume_new_args: Vec<String> = Vec::new();
    add_common_args(&mut resume_new_args);
    add_prompt_args(&mut resume_new_args);
    assert(texts(resume_new_args@) =~= common_args() + prompt_args());
    let mut resume_cont_args: Vec<String> = Vec::new();
    resume_cont_args.push("--resume={session_id}".to_owned());
    assert(texts(resume_cont_args@) =~= seq!["--resume={session_id}"@]);
    add_common_args(&mut resume_cont_args);
    add_prompt_args(&mut resume_cont_args);
    assert(texts(resume_cont_args@) =~= seq!["--resume={session_id}"@] + texts(resume_new_args@));
    let mut workspace_capabilities: Vec<String> = Vec::new();
    workspace_capabilities.push("speculative-edits".to_owned());
    workspace_capabilities.push("approval-required".to_owned());
    workspace_capabilities.push("utf8-text".to_owned());
    workspace_capabilities.push("create".to_owned());
    workspace_capabilities.push("delete".to_owned());
    workspace_capabilities.push("rename".to_owned());
    workspace_capabilities.push("shadow-projection".to_owned());
    workspace_capabilities.push("mcp".to_owned());
    assert(texts(workspace_capabilities@) =~= capabilities());
    AgentMetadata {
        name: "GitHub Copilot".to_owned(),
        executable: "/opt/homebrew/bin/copilot".to_owned(),
        args,
        resume_new_args,
        resume_cont_args,
        execution_tier: AgentExecutionTier::MountedWorkspace,
        workspace_capabilities,
    }
}

/// The environment variables that the agent is started with: none.
pub fn agent_environment() -> (r: Vec<(&'static str, &'static str)>)
    ensures
        r@.len() == 0,
{
    Vec::new()
}

} // verus!
