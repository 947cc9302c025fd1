use token_compress_cli::cli::{command_of, parse_args, Command};

fn args(v: &[&str]) -> Vec<String> {
    v.iter().map(|s| s.to_string()).collect()
}

#[test]
fn parse_args_reads_every_option() {
    let a = parse_args(&args(&[
        "in.txt", "-o", "out.txt", "--map", "m.json", "--no-ws", "--no-urls", "--inline", "--json",
    ]))
    .unwrap();
    assert_eq!(a.file.as_deref(), Some("in.txt"));
    assert_eq!(a.output.as_deref(), Some("out.txt"));
    assert_eq!(a.map.as_deref(), Some("m.json"));
    assert!(a.no_ws && a.no_urls && a.json);
    assert!(!a.no_dedup && !a.no_filler);
    let o = a.options();
    assert!(!o.ws && o.dedup && !o.urls && o.filler);
}

#[test]
fn parse_args_defaults() {
    let a = parse_args(&[]).unwrap();
    assert!(a.file.is_none() && a.output.is_none() && a.map.is_none());
    assert!(!a.no_ws && !a.no_dedup && !a.no_urls && !a.no_filler && !a.json);
}

#[test]
fn parse_args_errors() {
    assert_eq!(parse_args(&args(&["-o"])).unwrap_err().msg, "missing value for --output");
    assert_eq!(parse_args(&args(&["--map"])).unwrap_err().msg, "missing value for --map");
    assert_eq!(parse_args(&args(&["--frob"])).unwrap_err().msg, "unknown option: --frob");
    assert_eq!(parse_args(&args(&["a", "b"])).unwrap_err().msg, "unexpected argument: b");
}

#[test]
fn commands() {
    assert_eq!(command_of(None), Command::Help);
    assert_eq!(command_of(Some("-h")), Command::Help);
    assert_eq!(command_of(Some("--help")), Command::Help);
    assert_eq!(command_of(Some("--version")), Command::Version);
    assert_eq!(command_of(Some("compress")), Command::Compress);
    assert_eq!(command_of(Some("expand")), Command::Expand);
    assert_eq!(command_of(Some("stats")), Command::Stats);
    assert_eq!(command_of(Some("zip")), Command::Unknown("zip".to_string()));
}
