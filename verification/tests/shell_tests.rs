use pickledb::shell::{shell_action, ShellAction};

#[test]
fn shell_actions() {
    assert_eq!(shell_action(""), ShellAction::Skip);
    assert_eq!(shell_action(".exit"), ShellAction::Exit);
    assert_eq!(shell_action(".quit"), ShellAction::Exit);
    assert_eq!(shell_action(".help"), ShellAction::Help);
    assert_eq!(shell_action(".version"), ShellAction::Version);
    assert_eq!(shell_action(".clear"), ShellAction::Clear);
    assert_eq!(shell_action(".exit now"), ShellAction::Unknown);
    assert_eq!(shell_action("insert 1 x"), ShellAction::Unknown);
    assert_eq!(shell_action(".EXIT"), ShellAction::Unknown);
}
