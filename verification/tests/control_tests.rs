use nginx_ctl::control::{
    action_from_name, command_line, interpret_exit, interpret_probe, plan_command,
    probe_process_name, NginxAction,
};
use nginx_ctl::errors::NginxError;
use nginx_ctl::paths::NginxPaths;

const BIN: &str = "/usr/local/bin/nginx";

#[test]
fn control_action_names_decode() {
    assert_eq!(action_from_name("start"), Some(NginxAction::Start));
    assert_eq!(action_from_name("stop"), Some(NginxAction::Stop));
    assert_eq!(action_from_name("reload"), Some(NginxAction::Reload));
    assert_eq!(action_from_name("restart"), None);
    assert_eq!(action_from_name(""), None);
}

#[test]
fn control_command_lines() {
    assert_eq!(command_line(BIN, NginxAction::Start), vec!["sudo", BIN]);
    assert_eq!(
        command_line(BIN, NginxAction::Stop),
        vec!["sudo", BIN, "-s", "stop"]
    );
    assert_eq!(
        command_line(BIN, NginxAction::Reload),
        vec!["sudo", BIN, "-s", "reload"]
    );
}

#[test]
fn control_invalid_action_rejected() {
    let r = plan_command(BIN, "delete");
    match r {
        Err(e) => {
            assert!(matches!(e, NginxError::InvalidArgument(_)));
            assert_eq!(e.message().as_str(), "Invalid command");
        }
        Ok(_) => panic!("a delete action must be rejected"),
    }
}

#[test]
fn control_plan_of_known_action() {
    let argv = plan_command(BIN, "reload").unwrap();
    assert_eq!(argv, vec!["sudo", BIN, "-s", "reload"]);
}

#[test]
fn control_exit_interpretation() {
    assert_eq!(
        interpret_exit(true, "").unwrap(),
        "Command executed successfully"
    );
    let err = interpret_exit(false, "nginx: [error] invalid option").unwrap_err();
    assert!(matches!(err, NginxError::Process(_)));
    assert_eq!(err.message().as_str(), "nginx: [error] invalid option");
}

#[test]
fn control_probe_interpretation() {
    assert_eq!(interpret_probe(Ok(true)).unwrap(), true);
    assert_eq!(interpret_probe(Ok(false)).unwrap(), false);
    let err = interpret_probe(Err("spawn failed".to_string())).unwrap_err();
    assert!(matches!(err, NginxError::Undeterminable(_)));
    assert_eq!(err.message().as_str(), "spawn failed");
}

#[test]
fn control_probe_name() {
    assert_eq!(probe_process_name(), "nginx");
}

#[test]
fn paths_are_fixed() {
    let p = NginxPaths::default();
    assert_eq!(p.bin, "/usr/local/bin/nginx");
    assert_eq!(p.conf, "/usr/local/nginx/conf/nginx.conf");
    assert_eq!(p.conf_dir, "/usr/local/nginx/conf");
    assert_eq!(p.log_dir, "/usr/local/nginx/logs");
    assert_eq!(p.run_dir, "/usr/local/nginx");
}
