use memmgr::kernel::{IsAbs, ProcessError, ProcessFilename};

fn argv(args: &[&str]) -> Vec<String> {
    args.iter().map(|a| a.to_string()).collect()
}

#[test]
fn absolute_paths_begin_at_the_root() {
    assert!(IsAbs("/"));
    assert!(IsAbs("/bin/sh"));
    assert!(!IsAbs(""));
    assert!(!IsAbs("bin/sh"));
    assert!(!IsAbs("./sh"));
    assert!(!IsAbs(" /bin/sh"));
}

#[test]
fn a_process_loads_the_file_that_is_named() {
    assert_eq!(ProcessFilename("/bin/ls", &argv(&[])), Ok("/bin/ls".to_string()));
    assert_eq!(ProcessFilename("/bin/ls", &argv(&["/bin/sh", "-c"])), Ok("/bin/ls".to_string()));
    // A file name is taken as it is, absolute or not.
    assert_eq!(ProcessFilename("ls", &argv(&["sh"])), Ok("ls".to_string()));
}

#[test]
fn without_a_file_name_the_command_names_the_file() {
    assert_eq!(ProcessFilename("", &argv(&["/bin/sh", "-c"])), Ok("/bin/sh".to_string()));
    assert_eq!(ProcessFilename("", &argv(&[])), Err(ProcessError::NoCommand));
    assert_eq!(ProcessFilename("", &argv(&["sh", "/bin/sh"])), Err(ProcessError::NotAbsolute));
    assert_eq!(ProcessFilename("", &argv(&[""])), Err(ProcessError::NotAbsolute));
}
