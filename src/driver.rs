use vstd::prelude::*;

verus! {

#[verifier::external_type_specification]
#[verifier::external_body]
pub struct ExIoError(std::io::Error);

/// Relies on the `Display` impl of `std::io::Error`, through `format!`, for the
/// error's message; nothing is assumed of the text.
#[verifier::external_body]
fn io_error_message(e: &std::io::Error) -> (r: String)
{
    format!("{}", e)
}

/// A program to run with its arguments.
#[derive(Debug)]
pub struct ShellCommand {
    pub program: String,
    pub args: Vec<String>,
}

/// Keep a success; turn an I/O error into its message.
pub fn convert_io_error<T>(result: Result<T, std::io::Error>) -> (r: Result<T, String>)
    ensures
        r is Ok <==> result is Ok,
        result is Ok ==> r == Ok::<T, String>(result->Ok_0),
{
    match result {
        Ok(value) => Ok(value),
        Err(e) => Err(io_error_message(&e)),
    }
}

/// The command that links an object file into an executable with clang, for the
/// given target triple or the default one.
pub fn link_object_file(object_file_path: &str, executable_path: &str, target_triple: Option<String>) -> (r: ShellCommand)
    ensures
        r.program@ == "clang"@,
        target_triple is Some ==> r.args@.map_values(|a: String| a@) == seq![
            object_file_path@, "-target"@, target_triple->0@, "-o"@, executable_path@],
        target_triple is None ==> r.args@.map_values(|a: String| a@) == seq![
            object_file_path@, "-o"@, executable_path@],
{
    proof {
        reveal_strlit("clang");
        reveal_strlit("-target");
        reveal_strlit("-o");
    }
    let mut args: Vec<String> = Vec::new();
    args.push(object_file_path.to_owned());
    match target_triple {
        Some(t) => {
            args.push(String::from_str("-target"));
            args.push(t);
        },
        None => {},
    }
    args.push(String::from_str("-o"));
    args.push(executable_path.to_owned());
    let r = ShellCommand { program: String::from_str("clang"), args };
    r
}

/// The command that strips the symbols from an executable.
pub fn strip_executable(executable_path: &str) -> (r: ShellCommand)
    ensures
        r.program@ == "strip"@,
        r.args@.map_values(|a: String| a@) == seq!["-s"@, executable_path@],
{
    proof {
        reveal_strlit("strip");
        reveal_strlit("-s");
    }
    let mut args: Vec<String> = Vec::new();
    args.push(String::from_str("-s"));
    args.push(executable_path.to_owned());
    ShellCommand { program: String::from_str("strip"), args }
}

/// The backend optimization level to use for what the user asked: a level from 0
/// to 3 as given, anything else (or nothing readable) 3.
pub fn backend_opt_level(requested: Option<i64>) -> (r: i64)
    ensures
        requested is Some && 0 <= requested->0 <= 3 ==> r == requested->0,
        !(requested is Some && 0 <= requested->0 <= 3) ==> r == 3,
{
    match requested {
        Some(v) => if 0 <= v && v <= 3 { v } else { 3 },
        None => 3,
    }
}

} // verus!
