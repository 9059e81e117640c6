use gbk2faa::config::Config;

#[test]
fn config_needs_a_file_name() {
    let args = vec!["gbk2faa".to_string()];
    assert!(Config::new(&args).is_err());
    let args = vec!["gbk2faa".to_string(), "in.gbk".to_string(), "x".to_string()];
    assert_eq!(Config::new(&args).ok().unwrap().filename, "in.gbk");
}
