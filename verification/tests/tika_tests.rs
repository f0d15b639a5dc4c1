use anywords::tika::{
    find_tika_jar, jar_text, server_reply, sync_route, tika_endpoint, tika_jar_candidates,
    JarOutput, SyncRoute, TikaConfig, TikaError, TikaParser,
};

fn parser(server: Option<&str>, jar: Option<&str>, fallback: bool) -> TikaParser {
    TikaParser::new(TikaConfig {
        server_url: server.map(|s| s.to_string()),
        jar_path: jar.map(|s| s.to_string()),
        fallback,
    })
}

#[test]
fn availability() {
    let d = TikaConfig::default();
    assert!(d.server_url.is_none() && d.jar_path.is_none() && d.fallback);
    assert!(!TikaParser::new(TikaConfig::default()).is_available());
    assert!(parser(Some("http://localhost:9998"), None, true).is_available());
    assert!(parser(None, Some("tika-app.jar"), true).is_available());
}

#[test]
fn jar_runs() {
    let ok = JarOutput { success: true, stdout: b"text out".to_vec(), stderr: vec![] };
    assert_eq!(jar_text(&ok).unwrap(), "text out");
    let blank = JarOutput { success: true, stdout: b" \n\t".to_vec(), stderr: vec![] };
    assert!(matches!(jar_text(&blank), Err(TikaError::EmptyOutput)));
    let no_java = JarOutput { success: false, stdout: vec![], stderr: b"java: not found".to_vec() };
    assert!(matches!(jar_text(&no_java), Err(TikaError::JavaMissing)));
    let windows = JarOutput {
        success: false,
        stdout: vec![],
        stderr: b"CreateProcess error=2, missing".to_vec(),
    };
    assert!(matches!(jar_text(&windows), Err(TikaError::JavaMissing)));
    let failed = JarOutput { success: false, stdout: vec![], stderr: b"bad file".to_vec() };
    match jar_text(&failed) {
        Err(e @ TikaError::JarFailed(_)) => assert_eq!(e.message(), "Tika JAR failed: bad file"),
        other => panic!("{:?}", other),
    }

    let p = parser(None, Some("tika-app.jar"), true);
    let c = p.extract_via_jar_blocking(&ok, "application/msword").unwrap();
    assert_eq!(c.text, "text out");
    assert_eq!(c.mime_type, "application/msword");
    assert!(c.used_tika);
    assert!(matches!(p.extract_via_jar_blocking(&blank, "application/msword"), Err(TikaError::EmptyOutput)));
    assert!(matches!(p.extract_via_jar_blocking(&no_java, "application/msword"), Err(TikaError::JavaMissing)));
    match p.extract_via_jar_blocking(&failed, "application/msword") {
        Err(TikaError::JarFailed(m)) => assert_eq!(m, "bad file"),
        other => panic!("{:?}", other),
    }
}

#[test]
fn error_messages() {
    assert_eq!(TikaError::JavaMissing.message(), "Java is not installed or not in PATH");
    assert_eq!(TikaError::EmptyOutput.message(), "Tika JAR returned empty text");
    assert_eq!(
        TikaError::ServerStatus(500, "oops".to_string()).message(),
        "Tika server returned HTTP 500: oops"
    );
    assert_eq!(
        TikaError::NoFallback.message(),
        "Tika extraction failed and fallback is disabled"
    );
    assert_eq!(TikaError::Io("connection refused".to_string()).message(), "connection refused");
}

#[test]
fn server_endpoint_and_replies() {
    assert_eq!(tika_endpoint("http://localhost:9998//"), "http://localhost:9998/tika");
    assert_eq!(tika_endpoint("http://h:1"), "http://h:1/tika");
    assert_eq!(server_reply(200, "body".to_string()).unwrap(), "body");
    match server_reply(404, "missing".to_string()) {
        Err(TikaError::ServerStatus(s, b)) => {
            assert_eq!(s, 404);
            assert_eq!(b, "missing");
        }
        other => panic!("{:?}", other),
    }
}

#[test]
fn attempts_are_combined_in_order() {
    let p = parser(Some("u"), Some("j"), true);
    let got = p.combine_attempts(Some(Ok("server".to_string())), Some(Ok("jar".to_string())));
    assert_eq!(got.unwrap(), Some("server".to_string()));
    let got = p.combine_attempts(Some(Err(TikaError::EmptyOutput)), Some(Ok("jar".to_string())));
    assert_eq!(got.unwrap(), Some("jar".to_string()));
    let got = p.combine_attempts(None, Some(Err(TikaError::EmptyOutput)));
    assert_eq!(got.unwrap(), None);
    let strict = parser(Some("u"), None, false);
    assert!(matches!(strict.combine_attempts(Some(Err(TikaError::JavaMissing)), None), Err(TikaError::NoFallback)));
}

#[test]
fn unconfigured_tika_gives_nothing() {
    let none = parser(None, None, false);
    assert_eq!(none.combine_attempts(None, None).unwrap(), None);
    let none_fallback = parser(None, None, true);
    assert_eq!(none_fallback.combine_attempts(None, None).unwrap(), None);
}

#[test]
fn sync_routes() {
    let with_jar = parser(None, Some("lib/tika.jar"), true);
    match sync_route("application/msword", Some(&with_jar)) {
        SyncRoute::Jar(j) => assert_eq!(j, "lib/tika.jar"),
        other => panic!("{:?}", other),
    }
    let server_only = parser(Some("http://x"), None, true);
    assert!(matches!(sync_route("application/rtf", Some(&server_only)), SyncRoute::Fallback));
    assert!(matches!(sync_route("application/rtf", None), SyncRoute::Fallback));
    assert!(matches!(sync_route("text/plain", Some(&with_jar)), SyncRoute::Builtin));
}

#[test]
fn jar_lookup() {
    assert_eq!(
        tika_jar_candidates(),
        vec![
            "tika-app.jar",
            "tika-server.jar",
            "tika-server-standard.jar",
            "../tika-app.jar",
            "./tools/tika-app.jar",
            "./lib/tika-app.jar",
        ]
    );
    assert_eq!(find_tika_jar(&vec![false, false, true, false, true, false]), Some("tika-server-standard.jar".to_string()));
    assert_eq!(find_tika_jar(&vec![false; 6]), None);
}
