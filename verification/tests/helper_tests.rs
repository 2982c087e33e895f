use rustis::helper::{ArgError, Role, CLI, HIGH, LOW, N_VNODES};

fn args(v: &[&str]) -> Vec<String> {
    v.iter().map(|x| x.to_string()).collect()
}

#[test]
fn role_from_names() {
    assert_eq!(Role::from("master".to_string()), Role::Master);
    assert_eq!(Role::from("  MAIN ".to_string()), Role::Master);
    assert_eq!(Role::from("Orchestrator\n".to_string()), Role::Master);
    assert_eq!(Role::from("slave".to_string()), Role::Slaves);
    assert_eq!(Role::from("".to_string()), Role::Slaves);
    assert_eq!(Role::from_lowercase(" master"), Role::Master);
    assert_eq!(Role::from_lowercase("Master"), Role::Slaves);
}

#[test]
fn cli_new_defaults() {
    let c = CLI::new();
    assert!(!c.dbg);
    assert_eq!(c.role, Role::Slaves);
    assert_eq!(c.n_vnode, N_VNODES);
    assert_eq!(c.port, 8080);
    assert!(c.replica.is_empty());
    assert!(c.nodes.is_empty());
    assert_eq!(c.cache_cap, None);
    assert_eq!(c.evic_policy, None);
    assert_eq!((c.low, c.high), (LOW, HIGH));
}

#[test]
fn cli_parse_full_command_line() {
    let mut c = CLI::new();
    let r = c.Parse_Args(&args(&[
        "--role=master",
        "-d",
        "--port=9000",
        "-n=8",
        "--cap=100",
        "--evic_policy=lru",
        "--replica[a:1,b:2]",
        "-rep[c]",
        "--nodes[x,y]",
        "--min=5",
        "-mx=50",
    ]));
    assert_eq!(r, Ok(()));
    assert!(c.dbg);
    assert_eq!(c.role, Role::Master);
    assert_eq!(c.port, 9000);
    assert_eq!(c.n_vnode, 8);
    assert_eq!(c.cache_cap, Some(100));
    assert_eq!(c.evic_policy, Some("lru".to_string()));
    assert_eq!(c.replica, args(&["a:1", "b:2", "c"]));
    assert_eq!(c.nodes, args(&["x", "y"]));
    assert_eq!((c.low, c.high), (5, 50));
}

#[test]
fn cli_parse_short_forms() {
    let mut c = CLI::new();
    assert_eq!(c.Parse_Args(&args(&["-r=MAIN", "-p=+81", "-c=0", "-ep=fifo", " --DEBUG"])), Ok(()));
    assert_eq!(c.role, Role::Master);
    assert_eq!(c.port, 81);
    assert_eq!(c.cache_cap, Some(0));
    assert_eq!(c.evic_policy, Some("fifo".to_string()));
    assert!(c.dbg);
}

#[test]
fn cli_parse_errors() {
    assert_eq!(CLI::new().Parse_Args(&args(&["-h"])), Err(ArgError::Help));
    assert_eq!(CLI::new().Parse_Args(&args(&["--unknown"])), Err(ArgError::Help));
    assert_eq!(CLI::new().Parse_Args(&args(&["--port=70000"])), Err(ArgError::BadPort));
    assert_eq!(CLI::new().Parse_Args(&args(&["-p=abc"])), Err(ArgError::BadPort));
    assert_eq!(CLI::new().Parse_Args(&args(&["-n=-1"])), Err(ArgError::BadVnodes));
    assert_eq!(CLI::new().Parse_Args(&args(&["--max=x"])), Err(ArgError::BadMax));
    assert_eq!(CLI::new().Parse_Args(&args(&["--min="])), Err(ArgError::BadMin));
    assert_eq!(CLI::new().Parse_Args(&args(&["--cap=+"])), Err(ArgError::BadCap));
    assert_eq!(CLI::new().Parse_Args(&args(&["--min=300"])), Err(ArgError::BoundsInverted));
    assert_eq!(CLI::new().Parse_Args(&args(&["--min=7", "--max=7"])), Err(ArgError::BoundsInverted));
    assert_eq!(CLI::new().Parse_Args(&args(&["--replica[a"])), Err(ArgError::Help));
}

#[test]
fn cli_parse_empty_list_keeps_defaults() {
    let mut c = CLI::new();
    assert_eq!(c.Parse_Args(&Vec::new()), Ok(()));
    assert_eq!(c.port, 8080);
    let mut d = CLI::new();
    assert_eq!(d.Parse_Args(&args(&["--replica[]"])), Ok(()));
    assert_eq!(d.replica, args(&[""]));
}

#[test]
fn cli_inverted_bounds_keep_settings() {
    let mut c = CLI::new();
    assert_eq!(c.Parse_Args(&args(&["--min=50", "--max=50", "-d"])), Err(ArgError::BoundsInverted));
    assert_eq!(c.low, 50);
    assert_eq!(c.high, 50);
    assert!(c.dbg);
}
