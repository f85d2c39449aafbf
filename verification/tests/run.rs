//! Running tools and programs, and what may be done with services.

use toolbox::activate::{Search, SearchDir};
use toolbox::env::Env;
use toolbox::manifest::{ActivationBlock, Manifest, RestartPolicy, Tool};
use toolbox::paths::Os;
use toolbox::run::{
    build_tool_command, resolve_tool_program, start_service, stop_service, which, which_env,
    RunError, ServiceError, Stop, Target,
};
use toolbox::service::ServiceState;
use toolbox::strmap::StrMap;

fn map(pairs: &[(&str, &str)]) -> StrMap<String> {
    let mut m = StrMap::new();
    for (k, v) in pairs {
        m.insert(k.to_string(), v.to_string());
    }
    m
}

fn strings(v: &[&str]) -> Vec<String> {
    v.iter().map(|s| s.to_string()).collect()
}

fn dev(run: &str, args: &[&str], env: &[(&str, &str)]) -> Env {
    let mut tools = StrMap::new();
    tools.insert(
        "web".to_string(),
        Tool {
            run: run.to_string(),
            args: strings(args),
            env: map(env),
            restart: RestartPolicy::No,
        },
    );
    let mut activation = StrMap::new();
    activation.insert(
        "all".to_string(),
        ActivationBlock { path_prepend: vec![], env: map(&[("A", "$TOOLBOX_PREFIX/a")]) },
    );
    Env {
        root: "/e".to_string(),
        manifest: Manifest {
            name: "dev".to_string(),
            version: "1".to_string(),
            description: None,
            packages: vec![],
            activation,
            tools,
        },
    }
}

#[test]
fn a_tool_is_found_by_its_run() {
    let none = strings(&[""]);
    let host = map(&[("PY", "python3")]);
    let find = |run: &str| {
        let env = dev(run, &[], &[]);
        let a = which(&env, Os::Linux, 1, "web", &none, &host);
        let b = resolve_tool_program(&env, Os::Linux, 1, run, &none, &host);
        match a {
            Ok(Target::Tool(t)) => {
                assert_eq!(b.unwrap(), t);
                Ok(t.search)
            }
            Ok(Target::Program(_)) => panic!(),
            Err(e) => {
                assert_eq!(b.unwrap_err(), e);
                Err(e)
            }
        }
    };
    assert_eq!(
        find("linux/bin/rg").unwrap(),
        Search::InRoot("linux/bin/rg".to_string())
    );
    assert_eq!(
        find("$TOOLBOX_PREFIX/x").unwrap(),
        Search::InRoot("/e/x".to_string())
    );
    let named = |name: &str| {
        Search::Probe(vec![
            (SearchDir::InEnv("linux/bin".to_string()), name.to_string()),
            (SearchDir::Host(0), name.to_string()),
        ])
    };
    assert_eq!(find("$ENV.PY ?? \"py\"").unwrap(), named("python3"));
    assert!(find("x $ENV.PY").is_err());
    let env = dev("r", &[], &[]);
    assert_eq!(
        which(&env, Os::Linux, 1, "other", &none, &host).unwrap(),
        Target::Program(named("other"))
    );
    assert_eq!(
        which(&env, Os::Linux, 1, "a/b", &none, &host).unwrap(),
        Target::Program(Search::AsPath("a/b".to_string()))
    );
    let found = |run: &str| {
        resolve_tool_program(&dev(run, &[], &[]), Os::Linux, 1, run, &none, &host).unwrap()
    };
    assert_eq!(
        found("$ENV.PY").not_found("/e/python3"),
        RunError::NoProgram("python3".to_string())
    );
    assert_eq!(
        found("bin/x").not_found("/e/bin/x"),
        RunError::NoProgramAt("/e/bin/x".to_string())
    );
}

#[test]
fn which_uses_the_active_env() {
    assert_eq!(which_env(Some("a"), Some("b")).unwrap(), "a");
    assert_eq!(which_env(None, Some("b")).unwrap(), "b");
    assert_eq!(
        which_env(None, None).unwrap_err(),
        "no env given and TOOLBOX_ACTIVE_ENV is unset; pass --env or activate an env"
    );
}

#[test]
fn run_errors_are_told() {
    let m = dev("r", &[], &[]).manifest;
    let text = |e: RunError| e.message("x", "env", &m);
    assert_eq!(
        text(RunError::NotRunnable),
        "'x' is not a declared tool of env 'env' and was not found on PATH; declared tools: web"
    );
    assert_eq!(
        text(RunError::Unknown),
        "'x' is not a declared tool or a program on the PATH of env 'env'"
    );
    assert_eq!(
        text(RunError::NoProgramAt("/p".to_string())),
        "tool program not found: /p"
    );
    assert_eq!(
        text(RunError::NoProgram("py".to_string())),
        "could not find tool program 'py' in env 'dev' or PATH"
    );
}

#[test]
fn a_tool_gets_its_arguments_and_variables() {
    let host = map(&[("PORT", "80")]);
    let env = dev("r", &["-p", "$ENV.PORT"], &[("A", "own"), ("Z", "$TOOLBOX_PREFIX")]);
    let p = build_tool_command(&env, env.manifest.tools.get("web").unwrap(), Os::Linux, 1, &host)
        .unwrap();
    assert_eq!(p.args, vec!["-p", "80"]);
    let vars: Vec<(&str, &str)> =
        p.env.vars.iter().map(|(k, v)| (k.as_str(), v.as_str())).collect();
    assert_eq!(
        vars,
        vec![
            ("TOOLBOX_PREFIX", "/e"),
            ("TOOLBOX_ACTIVE_ENV", "dev"),
            ("A", "/e/a"),
            ("A", "own"),
            ("Z", "/e")
        ]
    );
    assert_eq!(p.env.path.len(), 2);
    for env in [dev("r", &["x $ENV.PORT"], &[]), dev("r", &[], &[("K", "x $ENV.PORT")])] {
        let t = env.manifest.tools.get("web").unwrap();
        assert!(build_tool_command(&env, t, Os::Linux, 1, &host).is_err());
    }
}

fn state(pid: u32) -> ServiceState {
    ServiceState {
        env: "dev".to_string(),
        tool: "web".to_string(),
        pid,
        log: String::new(),
        started_at: 0,
    }
}

#[test]
fn a_service_runs_once() {
    let m = dev("r", &[], &[]).manifest;
    assert_eq!(start_service(&m, "web", None, false).unwrap().run, "r");
    assert_eq!(start_service(&m, "web", Some(&state(7)), false).unwrap().run, "r");
    let e = start_service(&m, "web", Some(&state(7)), true).unwrap_err();
    assert_eq!(e, ServiceError::AlreadyRunning { pid: 7 });
    assert_eq!(
        e.message("web", "dev"),
        "service 'web' is already running in 'dev' (pid 7)"
    );
    let e = start_service(&m, "db", Some(&state(7)), true).unwrap_err();
    assert_eq!(
        e.message("db", "dev"),
        "no tool 'db' declared in env 'dev'; declare one with `config add-tool`"
    );
    assert_eq!(
        ServiceError::NoLog.message("web", "dev"),
        "no logs for service 'web' in 'dev' (never started?)"
    );
}

#[test]
fn a_recorded_service_is_stopped() {
    let e = stop_service(None, true).unwrap_err();
    assert_eq!(e.message("web", "dev"), "service 'web' is not running in 'dev'");
    let s = stop_service(Some(&state(9)), true).unwrap();
    assert_eq!(s, Stop::Kill { pid: 9 });
    assert_eq!(s.message("web", "dev"), "Stopped service 'web' in 'dev' (pid 9)\n");
    let s = stop_service(Some(&state(9)), false).unwrap();
    assert_eq!(s, Stop::Clear);
    assert_eq!(
        s.message("web", "dev"),
        "Service 'web' was not running; cleared stale state.\n"
    );
}
