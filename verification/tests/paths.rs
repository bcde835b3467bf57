use gucli::full_path_commands;
use gucli::full_path_log;

#[test]
fn the_document_lives_under_the_home_directory() {
    assert_eq!(
        full_path_commands("/home/someone"),
        "/home/someone/.config/gucli/commands.toml"
    );
}

#[test]
fn the_log_lives_under_the_home_directory() {
    assert_eq!(full_path_log("/home/someone"), "/home/someone/.config/gucli/gucli.log");
}
