use sozu_lib::process::{executable_path_from_link, format_decimal, upgrade_args, worker_args};

fn strings(v: Vec<Vec<u8>>) -> Vec<String> {
    v.into_iter().map(|a| String::from_utf8(a).unwrap()).collect()
}

#[test]
fn decimal_formatting() {
    assert_eq!(format_decimal(0), b"0".to_vec());
    assert_eq!(format_decimal(7), b"7".to_vec());
    assert_eq!(format_decimal(1026), b"1026".to_vec());
    assert_eq!(format_decimal(u64::MAX), u64::MAX.to_string().into_bytes());
}

#[test]
fn worker_command_line() {
    assert_eq!(
        strings(worker_args(5, 2, 1000000)),
        vec!["worker", "--fd", "5", "--id", "2", "--channel-buffer-size", "1000000"]
    );
}

#[test]
fn upgrade_command_line() {
    assert_eq!(
        strings(upgrade_args(7, 9, 1000000, 2000000)),
        vec![
            "upgrade",
            "--fd",
            "7",
            "--upgrade-fd",
            "9",
            "--command-buffer-size",
            "1000000",
            "--max-command-buffer-size",
            "2000000"
        ]
    );
}

#[test]
fn replaced_executable_path() {
    assert_eq!(executable_path_from_link(b"/usr/bin/sozu (deleted)"), b"/usr/bin/sozu");
    assert_eq!(executable_path_from_link(b"/usr/bin/sozu"), b"/usr/bin/sozu");
    assert_eq!(executable_path_from_link(b"x"), b"x");
}
