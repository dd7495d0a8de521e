use copilot_agent::metadata::{agent_environment, agent_metadata, AgentExecutionTier};

#[test]
fn metadata_of_the_agent() {
    let m = agent_metadata();
    assert_eq!(m.name, "GitHub Copilot");
    assert_eq!(m.executable, "/opt/homebrew/bin/copilot");
    assert_eq!(
        m.args,
        vec![
            "--allow-all-paths",
            "--output-format",
            "json",
            "--allow-all-tools",
            "--available-tools=basalt(*)"
        ]
    );
    assert_eq!(
        m.resume_new_args,
        vec![
            "--allow-all-paths",
            "--output-format",
            "json",
            "--allow-all-tools",
            "--available-tools=basalt(*)",
            "-p",
            "{prompt}"
        ]
    );
    assert_eq!(
        m.resume_cont_args,
        vec![
            "--resume={session_id}",
            "--allow-all-paths",
            "--output-format",
            "json",
            "--allow-all-tools",
            "--available-tools=basalt(*)",
            "-p",
            "{prompt}"
        ]
    );
    assert_eq!(m.execution_tier, AgentExecutionTier::MountedWorkspace);
    assert_eq!(
        m.workspace_capabilities,
        vec![
            "speculative-edits",
            "approval-required",
            "utf8-text",
            "create",
            "delete",
            "rename",
            "shadow-projection",
            "mcp"
        ]
    );
}

#[test]
fn environment_is_empty() {
    assert!(agent_environment().is_empty());
}
