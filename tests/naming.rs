use bfc::naming::executable_name;

#[test]
fn executable_name_bf() {
    assert_eq!(executable_name("foo.bf"), "foo");
}

#[test]
fn executable_name_b() {
    assert_eq!(executable_name("foo_bar.b"), "foo_bar");
}

#[test]
fn executable_name_relative_path() {
    assert_eq!(executable_name("bar/baz.bf"), "baz");
}

#[test]
fn executable_name_keeps_inner_dots() {
    assert_eq!(executable_name("dir/a.b.bf"), "a.b");
}

#[test]
fn executable_name_without_extension() {
    assert_eq!(executable_name("prog"), "prog");
}

#[test]
fn executable_name_trailing_slash() {
    assert_eq!(executable_name("dir/foo.bf/"), "foo");
}
