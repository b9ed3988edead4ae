use lasa::env::Environment;
use lasa::error::LasaError;

#[test]
fn error_messages() {
    let cases = vec![
        (LasaError::EnvironmentError("a".to_string()), "Environment error: a"),
        (LasaError::SettingProcessPriority("b".to_string()), "Process priority error: b"),
        (LasaError::Generic("c".to_string()), "Error: c"),
        (LasaError::CommandExecution("d".to_string()), "Command execution error: d"),
        (LasaError::Parsing("e".to_string()), "Parsing error: e"),
        (LasaError::DataStorage("f".to_string()), "Data storage error: f"),
        (LasaError::JournalProbeFailed, "Journal probe failed"),
        (LasaError::NoData("g".to_string()), "No data: g"),
    ];
    for (e, m) in cases {
        assert_eq!(e.message(), m);
    }
}

#[test]
fn environment_paths() {
    let env = Environment::from_dirs("/home/u".to_string(), Some("/home/u/.cache/".to_string()));
    assert_eq!(env.home_dir, "/home/u");
    assert_eq!(env.data_file_path, "/home/u/.cache/lasa_system_uptime_db.xff");
    assert_eq!(env.output_file_path, "/home/u/lasa_system_uptime.xff");
    assert_eq!(env.human_readable_output_path, "/home/u/lasa_system_uptime.json");
    let fallback = Environment::from_dirs("/home/u/".to_string(), None);
    assert_eq!(fallback.data_file_path, "/home/u/lasa_system_uptime_db.xff");
    let empty = Environment::from_dirs(String::new(), None);
    assert_eq!(empty.output_file_path, "lasa_system_uptime.xff");
}
