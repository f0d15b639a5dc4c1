use anywords::config::{
    changed_restart_fields, default_debounce_ms, default_exclude_extensions,
    default_exclude_patterns, default_host, default_log_level, default_max_file_size,
    default_port, default_true, default_writer_buffer, drop_blank, index_dir_under,
    normalize_extension,
    normalize_extensions, normalize_loaded, normalize_tika_setting, prepare_update,
    resolve_path, restart_fields_given, update_message, Config, ConfigError, RestartField,
};

fn strings(v: &[&str]) -> Vec<String> {
    v.iter().map(|s| s.to_string()).collect()
}

#[test]
fn default_values() {
    assert_eq!(default_port(), 9921);
    assert_eq!(default_host(), "127.0.0.1");
    assert_eq!(default_writer_buffer(), 50_000_000);
    assert_eq!(default_max_file_size(), 52_428_800);
    assert_eq!(default_debounce_ms(), 2000);
    assert_eq!(default_log_level(), "info");
    assert!(default_true());
    assert_eq!(
        default_exclude_extensions(),
        strings(&["tmp", "temp", "lock", "sys", "dll", "exe", "so", "dylib", "class", "o", "obj", "a"])
    );
    assert_eq!(
        default_exclude_patterns(),
        strings(&[
            "node_modules", ".git", "__pycache__", ".idea", ".vscode", "target", ".cargo",
            ".rustup", "vendor"
        ])
    );
    let c = Config::default();
    assert_eq!(c.server.port, 9921);
    assert_eq!(c.server.host, "127.0.0.1");
    assert_eq!(c.index.max_file_size_bytes, 52_428_800);
    assert!(c.index.dir.ends_with("anywords/index") || c.index.dir.ends_with("anywords\\index"));
    assert_eq!(anywords::config::default_index_dir(), c.index.dir);
    assert!(c.parser.tika_server_url.is_none() && c.parser.fallback_basic);
    assert!(c.watcher.enabled && c.watcher.watch_dirs.is_empty());
    assert_eq!(c.watcher.debounce_ms, 2000);
    assert_eq!(c.logging.level, "info");
}

#[test]
fn extension_normal_form() {
    assert_eq!(normalize_extension("  ..TXT "), "txt");
    assert_eq!(
        normalize_extensions(&strings(&[" .TMP", "", "exe", "tmp", "..Doc ", "   "])),
        strings(&["doc", "exe", "tmp"])
    );
    assert_eq!(drop_blank(&strings(&["node_modules", "  ", ".git", ""])), strings(&["node_modules", ".git"]));
    assert_eq!(normalize_tika_setting(Some(String::new())), None);
    assert_eq!(normalize_tika_setting(Some("x".to_string())), Some("x".to_string()));
    assert_eq!(normalize_tika_setting(None), None);
}

#[test]
fn update_is_checked_in_order() {
    let old = Config::default();

    let mut c = Config::default();
    c.server.port = 0;
    c.server.host = " ".to_string();
    match prepare_update(c, vec![], &old) {
        Err(e @ ConfigError::InvalidPort) => assert_eq!(e.message(), "Invalid port: must be 1-65535"),
        other => panic!("{:?}", other),
    }

    let mut c = Config::default();
    c.server.host = " \t".to_string();
    match prepare_update(c, vec![], &old) {
        Err(e @ ConfigError::EmptyHost) => assert_eq!(e.message(), "Host must not be empty"),
        other => panic!("{:?}", other),
    }

    let mut c = Config::default();
    c.index.max_file_size_bytes = 0;
    match prepare_update(c, vec![], &old) {
        Err(e @ ConfigError::ZeroMaxFileSize) => {
            assert_eq!(e.message(), "Max file size must be greater than 0")
        }
        other => panic!("{:?}", other),
    }

    let mut c = Config::default();
    c.logging.level = "Verbose".to_string();
    match prepare_update(c, vec![], &old) {
        Err(e) => {
            assert!(matches!(&e, ConfigError::InvalidLogLevel(l) if l == "Verbose"));
            assert_eq!(e.message(), "Invalid log level: Verbose");
        }
        other => panic!("{:?}", other),
    }
}

#[test]
fn update_is_normalized_and_keeps_the_watch_list() {
    let old = Config::default();
    let mut c = Config::default();
    c.logging.level = "INFO".to_string();
    c.watcher.watch_dirs = strings(&["/ignored"]);
    c.watcher.exclude_extensions = strings(&[" .TMP", "", "exe", "tmp"]);
    c.watcher.include_extensions = strings(&["MD", ".md", "Txt"]);
    c.watcher.exclude_patterns = strings(&["node_modules", "  ", ".git"]);
    c.parser.tika_server_url = Some(String::new());
    c.parser.tika_jar_path = Some("tika.jar".to_string());
    let (new, fields) = prepare_update(c, strings(&["/runtime"]), &old).unwrap();
    assert_eq!(new.watcher.watch_dirs, strings(&["/runtime"]));
    assert_eq!(new.watcher.exclude_extensions, strings(&["exe", "tmp"]));
    assert_eq!(new.watcher.include_extensions, strings(&["md", "txt"]));
    assert_eq!(new.watcher.exclude_patterns, strings(&["node_modules", ".git"]));
    assert_eq!(new.parser.tika_server_url, None);
    assert_eq!(new.parser.tika_jar_path, Some("tika.jar".to_string()));
    assert_eq!(new.logging.level, "INFO");
    assert_eq!(fields, vec![RestartField::Tika, RestartField::LogLevel]);
}

#[test]
fn index_dir_layout() {
    let here = index_dir_under(None);
    assert!(here.starts_with('.'));
    assert!(here.ends_with("index"));
    assert!(here.contains("anywords"));
    assert_eq!(here.len(), ".".len() + 1 + "anywords".len() + 1 + "index".len());
    assert_eq!(here, "./anywords/index");
    let data = index_dir_under(Some("/data".to_string()));
    assert!(data.starts_with("/data"));
    assert!(data.ends_with("index"));
    assert_eq!(data.len(), "/data".len() + 1 + "anywords".len() + 1 + "index".len());
    assert_eq!(data, "/data/anywords/index");
}

#[test]
fn relative_paths_are_resolved_against_the_current_directory() {
    assert_eq!(resolve_path("/abs/dir", Some("/home/u".to_string())), "/abs/dir");
    assert_eq!(resolve_path("data/index", Some("/home/u".to_string())), "/home/u/data/index");
    assert_eq!(resolve_path("data", Some("/home/u/".to_string())), "/home/u/data");
    assert_eq!(resolve_path("data", None), "data");
    assert_eq!(resolve_path("/abs", None), "/abs");
}

#[test]
fn index_dirs_are_compared_as_paths() {
    let with_dir = |d: &str| {
        let mut c = Config::default();
        c.index.dir = d.to_string();
        c
    };
    assert!(changed_restart_fields(&with_dir("/a/b/"), &with_dir("/a/b")).is_empty());
    assert!(changed_restart_fields(&with_dir("/a/./b"), &with_dir("/a//b")).is_empty());
    assert_eq!(changed_restart_fields(&with_dir("./a"), &with_dir("a")), vec![RestartField::IndexDir]);
    assert_eq!(changed_restart_fields(&with_dir("/a"), &with_dir("a")), vec![RestartField::IndexDir]);
    assert_eq!(changed_restart_fields(&with_dir("/a/b"), &with_dir("/a/c")), vec![RestartField::IndexDir]);
}

#[test]
fn moved_index_dir_needs_restart() {
    let old = Config::default();
    let mut new = Config::default();
    new.index.dir = "/srv/anywords/other".to_string();
    let mut plain_old = Config::default();
    plain_old.index.dir = "/srv/anywords/index".to_string();
    assert_eq!(changed_restart_fields(&plain_old, &new), vec![RestartField::IndexDir]);
    assert_eq!(restart_fields_given(&old, &old, true), vec![RestartField::IndexDir]);
    assert!(restart_fields_given(&old, &new, false).is_empty());
    let mut same_dir = Config::default();
    same_dir.index.dir = "/srv/anywords/index".to_string();
    assert!(changed_restart_fields(&plain_old, &same_dir).is_empty());
}

#[test]
fn restart_fields_and_messages() {
    let old = Config::default();
    let same = Config::default();
    assert!(changed_restart_fields(&old, &same).is_empty());

    let mut new = Config::default();
    new.server.port = 8080;
    new.index.writer_buffer_bytes = 1;
    new.watcher.debounce_ms = 1;
    new.index.dir = format!("{}-other", old.index.dir);
    assert_eq!(
        changed_restart_fields(&old, &new),
        vec![
            RestartField::ServerAddress,
            RestartField::IndexDir,
            RestartField::WriterBuffer,
            RestartField::Watcher
        ]
    );

    assert_eq!(
        update_message(&vec![]),
        "配置已保存并即时生效（排除/包含扩展名、排除模式、单文件大小上限立即应用于新索引的文件）"
    );
    assert_eq!(
        update_message(&vec![RestartField::ServerAddress, RestartField::LogLevel]),
        "配置已保存，以下变更重启后生效: 服务地址/端口、日志级别；其余规则已即时生效"
    );
    assert_eq!(RestartField::IndexDir.label(), "索引目录");
    assert_eq!(RestartField::WriterBuffer.label(), "写入缓冲区");
    assert_eq!(RestartField::Tika.label(), "Tika 解析");
    assert_eq!(RestartField::Watcher.label(), "监控开关/防抖/定时全量扫描");
}

#[test]
fn loaded_config_unsets_empty_tika_settings() {
    let mut c = Config::default();
    c.parser.tika_server_url = Some(String::new());
    c.parser.tika_jar_path = Some(String::new());
    let n = normalize_loaded(c);
    assert!(n.parser.tika_server_url.is_none());
    assert!(n.parser.tika_jar_path.is_none());
}
