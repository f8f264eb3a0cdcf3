use psm::identity::{file_name, proc_name};
use std::path::Path;

fn name(text: &str) -> Option<String> {
    Some(text.to_string())
}

#[test]
fn the_final_component_follows_the_last_slash() {
    assert_eq!(file_name("/usr/bin/bash"), name("bash"));
    assert_eq!(file_name("/init"), name("init"));
    assert_eq!(file_name("relative/path"), name("path"));
    assert_eq!(file_name("/usr/lib/firefox/firefox (deleted)"), name("firefox (deleted)"));
}

#[test]
fn a_path_without_slash_is_its_own_final_component() {
    assert_eq!(file_name("bash"), name("bash"));
    assert_eq!(file_name("a.out"), name("a.out"));
    assert_eq!(file_name(".profile"), name(".profile"));
    assert_eq!(file_name("..."), name("..."));
    assert_eq!(file_name("lib."), name("lib."));
}

#[test]
fn slashes_at_the_end_are_passed_over() {
    assert_eq!(file_name("/usr/bin/"), name("bin"));
    assert_eq!(file_name("/usr/bin///"), name("bin"));
    assert_eq!(file_name("bin/"), name("bin"));
}

#[test]
fn single_dots_at_the_end_are_passed_over() {
    assert_eq!(file_name("/usr/bin/."), name("bin"));
    assert_eq!(file_name("/usr/bin/./"), name("bin"));
    assert_eq!(file_name("/usr/bin/././/."), name("bin"));
    assert_eq!(file_name("./bin/."), name("bin"));
}

#[test]
fn some_paths_have_no_final_component() {
    assert_eq!(file_name(""), None);
    assert_eq!(file_name("/"), None);
    assert_eq!(file_name("//"), None);
    assert_eq!(file_name("."), None);
    assert_eq!(file_name("./"), None);
    assert_eq!(file_name("/."), None);
    assert_eq!(file_name(".."), None);
    assert_eq!(file_name("/.."), None);
    assert_eq!(file_name("/usr/.."), None);
    assert_eq!(file_name("/usr/../"), None);
    assert_eq!(file_name("/usr/../."), None);
}

#[test]
fn characters_beyond_ascii_are_kept_whole() {
    assert_eq!(file_name("/opt/caf\u{e9}/th\u{e9}\u{4e2d}"), name("th\u{e9}\u{4e2d}"));
    assert_eq!(file_name("/\u{1f980}/x/"), name("x"));
    assert_eq!(file_name("/x/\u{1f980}/."), name("\u{1f980}"));
}

#[test]
fn the_final_component_is_that_of_the_standard_library() {
    let parts = ["", "/", ".", "..", "a", "bin", "/.", "./", "a.", ".a", "//", "/..", "\u{e9}"];
    for a in parts {
        for b in parts {
            for c in parts {
                for d in parts {
                    let path = format!("{}{}{}{}", a, b, c, d);
                    let expected = Path::new(&path)
                        .file_name()
                        .map(|n| n.to_string_lossy().into_owned());
                    assert_eq!(file_name(&path), expected, "for {:?}", path);
                }
            }
        }
    }
}

#[test]
fn a_plain_invocation_is_shown_by_its_file_name() {
    assert_eq!(proc_name("/usr/bin/bash", "/usr/bin/bash"), name("bash"));
    assert_eq!(proc_name("/usr/sbin/sshd", "/usr/sbin/sshd\0-D\0"), name("sshd"));
    assert_eq!(proc_name("/usr/bin/vim", "/usr/bin/vim.basic\0file\0"), name("vim"));
    assert_eq!(proc_name("/usr/bin/", "/usr/bin/bash\0"), name("bin"));
}

#[test]
fn anything_else_is_shown_by_its_command_line() {
    assert_eq!(
        proc_name("/usr/bin/python3.11", "python3\0/opt/tool/run.py\0"),
        name("python3\0/opt/tool/run.py\0")
    );
    assert_eq!(proc_name("/usr/sbin/nginx", "nginx: master process"), name("nginx: master process"));
    assert_eq!(proc_name("/usr/bin/bash", "-bash\0"), name("-bash\0"));
    assert_eq!(proc_name("/usr/bin/bash", ""), name(""));
    assert_eq!(proc_name("/usr/bin/bash", "/usr/bin/bas"), name("/usr/bin/bas"));
    assert_eq!(proc_name("/", "bash"), name("bash"));
}

#[test]
fn a_path_without_final_component_gives_no_name() {
    assert_eq!(proc_name("/", "/sbin/init"), None);
    assert_eq!(proc_name("", "anything"), None);
    assert_eq!(proc_name("/usr/..", "/usr/../bin/sh"), None);
}
