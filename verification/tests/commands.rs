use kernel::command::{gdb, make};

#[test]
fn make_builder() {
    let mut command = make("kernel".to_string());
    assert_eq!(command.target, "kernel");
    assert_eq!(command.directory, None);
    assert!(command.variables.is_empty());

    command.directory("kernel".to_string());
    command.variable("PROFILE".to_string(), "release".to_string());
    command.variable("VERBOSE".to_string(), "1".to_string());

    assert_eq!(command.directory.as_deref(), Some("kernel"));
    assert_eq!(
        command.variables,
        vec![
            ("PROFILE".to_string(), "release".to_string()),
            ("VERBOSE".to_string(), "1".to_string()),
        ]
    );
}

#[test]
fn gdb_builder() {
    let mut command = gdb("target/kernel.elf".to_string());
    assert_eq!(command.binary, "target/kernel.elf");
    assert!(command.args.is_empty());

    command.arg("-q".to_string());
    command.arg("-ex".to_string());
    command.arg("target remote :1234".to_string());

    assert_eq!(command.args, vec!["-q", "-ex", "target remote :1234"]);
}
