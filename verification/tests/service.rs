//! Services.

use toolbox::manifest::RestartPolicy;
use toolbox::report::status;
use toolbox::service::{on_exit, tail, ServiceState, Supervision};

fn state(tool: &str, pid: u32, started_at: u64) -> ServiceState {
    ServiceState {
        env: "e".to_string(),
        tool: tool.to_string(),
        pid,
        log: String::new(),
        started_at,
    }
}

#[test]
fn tail_returns_last_lines() {
    let content = "a\nb\nc\nd\n";
    assert_eq!(tail(content, Some(2)), "c\nd");
    assert_eq!(tail(content, Some(10)), "a\nb\nc\nd");
    assert_eq!(tail(content, None), "a\nb\nc\nd\n");
}

#[test]
fn lines_end_as_the_standard_library_has_them() {
    for s in ["", "\n", "a", "a\r\nb\r", "\r\n\r\n", "x\n\ny", "a\rb\n"] {
        let want: Vec<&str> = s.lines().collect();
        assert_eq!(tail(s, Some(99)), want.join("\n"), "{s:?}");
        assert_eq!(tail(s, Some(0)), "");
    }
}

#[test]
fn files_are_below_the_run_directory() {
    assert_eq!(ServiceState::state_path("e/x", "t:1"), vec!["e_x", "t_1.json"]);
    assert_eq!(ServiceState::log_path("e", "t"), vec!["e", "t.log"]);
}

#[test]
fn uptime_is_never_negative() {
    let s = state("t", 1, 100);
    assert_eq!(s.uptime_secs(160), 60);
    assert_eq!(s.uptime_secs(100), 0);
    assert_eq!(s.uptime_secs(40), 0);
}

#[test]
fn services_are_sorted_by_tool() {
    let v = ServiceState::all_for_env(vec![
        state("b", 1, 0),
        state("c", 2, 0),
        state("a", 3, 0),
    ]);
    let tools: Vec<&str> = v.iter().map(|s| s.tool.as_str()).collect();
    assert_eq!(tools, vec!["a", "b", "c"]);
}

#[test]
fn supervision_follows_the_policy() {
    for success in [true, false] {
        assert_eq!(on_exit(RestartPolicy::No, success, 0), Supervision::Stop);
        assert_eq!(
            on_exit(RestartPolicy::Always, success, 0),
            Supervision::Restart { after: 100 }
        );
    }
    assert_eq!(on_exit(RestartPolicy::OnFailure, true, 3), Supervision::Stop);
    assert_eq!(
        on_exit(RestartPolicy::OnFailure, false, 3),
        Supervision::Restart { after: 800 }
    );
    let delays: Vec<Supervision> = (4..8)
        .map(|n| on_exit(RestartPolicy::Always, false, n))
        .collect();
    let after = |after: u64| Supervision::Restart { after };
    assert_eq!(delays, vec![after(1600), after(3200), after(5000), after(5000)]);
    assert_eq!(on_exit(RestartPolicy::Always, true, u64::MAX), after(5000));
}

#[test]
fn services_are_listed_in_columns() {
    assert_eq!(status("e", &vec![], &vec![], 0), "No services in 'e'.\n");
    let v = vec![state("web", 42, 10), state("db", 7, 10)];
    assert_eq!(
        status("e", &v, &vec![true], 75),
        format!(
            "{:<20} {:<9} {:<8} PID\n{:<20} {:<9} {:<8} {}\n{:<20} {:<9} {:<8} {}\n",
            "SERVICE", "STATUS", "UPTIME", "web", "running", "65s", 42, "db", "stopped", "-", 7
        )
    );
}
