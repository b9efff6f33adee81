use bfc::driver::{backend_opt_level, convert_io_error, link_object_file, strip_executable};

#[test]
fn link_command_with_target() {
    let c = link_object_file("a.o", "prog", Some("x86_64-unknown-linux-gnu".to_owned()));
    assert_eq!(c.program, "clang");
    assert_eq!(c.args, vec!["a.o", "-target", "x86_64-unknown-linux-gnu", "-o", "prog"]);
}

#[test]
fn link_command_default_target() {
    let c = link_object_file("a.o", "prog", None);
    assert_eq!(c.program, "clang");
    assert_eq!(c.args, vec!["a.o", "-o", "prog"]);
}

#[test]
fn strip_command() {
    let c = strip_executable("prog");
    assert_eq!(c.program, "strip");
    assert_eq!(c.args, vec!["-s", "prog"]);
}

#[test]
fn io_error_becomes_message() {
    let ok: Result<u8, std::io::Error> = Ok(7);
    assert_eq!(convert_io_error(ok), Ok(7));
    let err: Result<u8, std::io::Error> = Err(std::io::Error::new(std::io::ErrorKind::Other, "disk on fire"));
    assert_eq!(convert_io_error(err), Err("disk on fire".to_owned()));
}

#[test]
fn backend_levels() {
    assert_eq!(backend_opt_level(Some(0)), 0);
    assert_eq!(backend_opt_level(Some(2)), 2);
    assert_eq!(backend_opt_level(Some(7)), 3);
    assert_eq!(backend_opt_level(Some(-1)), 3);
    assert_eq!(backend_opt_level(None), 3);
}
