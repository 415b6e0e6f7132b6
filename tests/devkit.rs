use decker::devkit::{
    create_shortcut_command, game_dir, game_exec_path, prepare_upload_command,
    register_url, registration_payload, registration_result, remote_game_dir, ssh_host,
    starting_dir_or_default, with_trailing_slash, RegisterError,
};

#[test]
fn host_and_url() {
    assert_eq!(ssh_host("deck", "10.0.0.2"), "deck@10.0.0.2");
    assert_eq!(register_url("10.0.0.2"), "http://10.0.0.2:32000/register");
}

#[test]
fn payload_replaces_line_break() {
    assert_eq!(
        registration_payload(&"ssh-rsa AAA user\n".to_string()),
        "ssh-rsa AAA user 900b919520e4cf601998a71eec318fec\n"
    );
    assert_eq!(registration_payload(&String::new()), " 900b919520e4cf601998a71eec318fec\n");
}

#[test]
fn game_paths() {
    assert_eq!(game_dir("deck", "g1"), "/home/deck/decker-games/g1");
    assert_eq!(game_exec_path("deck", "g1", "bin/run"), "/home/deck/decker-games/g1/bin/run");
    assert_eq!(starting_dir_or_default("deck", "g1", None), "/home/deck/decker-games/g1");
    assert_eq!(starting_dir_or_default("deck", "g1", Some("/tmp".to_string())), "/tmp");
    assert_eq!(remote_game_dir("g1"), "~/decker-games/g1");
}

#[test]
fn trailing_slash() {
    assert_eq!(with_trailing_slash(&"build".to_string()), "build/");
    assert_eq!(with_trailing_slash(&"build/".to_string()), "build/");
}

#[test]
fn remote_commands() {
    assert_eq!(prepare_upload_command("g1"), "~/decker/decker_util prepare-upload g1 true");
    assert_eq!(
        create_shortcut_command("g1", "/x/run", "/x"),
        "~/decker/decker_util create-shortcut g1 /x/run /x"
    );
}

#[test]
fn registration_outcomes() {
    assert_eq!(registration_result(200, None), Ok(()));
    assert_eq!(
        registration_result(403, Some("denied".to_string())),
        Err(RegisterError::Refused("denied".to_string()))
    );
    assert_eq!(registration_result(400, None), Err(RegisterError::RefusedWithoutMessage));
    assert_eq!(registration_result(500, None), Err(RegisterError::UnknownStatus(500)));
    assert_eq!(registration_result(302, Some("x".to_string())), Err(RegisterError::UnknownStatus(302)));
}
