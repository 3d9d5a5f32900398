use fdrive::delta;
use fdrive::model::Moment;
use fdrive::sdk::{
    assemble_token, check_envelope, check_status, delta_offered, extract_token, login_reply,
    normalize_server, on_files, probe_version, read_date, save_headers, Call, Error, ErrorKind,
    FileInfo, FileType, Method, Sdk, DELTA_MEDIA_TYPE,
};

const SERVER: &str = "http://127.0.0.1:8334";

fn authed_client() -> Sdk {
    let mut client = Sdk::new(SERVER).unwrap();
    client.set_token("TOKEN".into());
    client
}

fn texts(v: &[&str]) -> Vec<String> {
    v.iter().map(|s| s.to_string()).collect()
}

fn pair(name: &str, value: &str) -> (String, String) {
    (name.to_string(), value.to_string())
}

fn listing(body: &str) -> Result<Vec<FileInfo>, Error> {
    let body: serde_json::Value = serde_json::from_str(body).unwrap();
    check_envelope(body["status"].as_str().unwrap())?;
    let results = body["results"].as_array().cloned().unwrap_or_default();
    Ok(results
        .into_iter()
        .map(|e| {
            FileInfo::entry(
                e["name"].as_str().unwrap().to_string(),
                e["type"].as_str().unwrap(),
                e["size"].as_i64().unwrap(),
                e["time"].as_i64().unwrap(),
            )
        })
        .collect())
}

#[test]
fn authenticate_reassembles_split_cookies() {
    let call = Call::Login {
        storage: "my-storage".to_string(),
    };
    let mut client = Sdk::new(SERVER).unwrap();
    assert_eq!(call.method(), Method::Post);
    assert_eq!(
        client.endpoint(&call).unwrap(),
        "http://127.0.0.1:8334/api/session/auth/?label=my-storage"
    );
    assert_eq!(
        client.headers(&call).unwrap(),
        [pair("X-Requested-With", "SDKHttpRequest")]
    );
    let cookies = texts(&[
        "auth=part1; Path=/; HttpOnly",
        "auth1=part2; Path=/; HttpOnly",
    ]);
    client.set_token(login_reply(302, &cookies).unwrap());
    assert_eq!(client.token(), Some("part1part2"));
}

#[test]
fn authenticate_rejects_bad_credentials() {
    let err = login_reply(403, &[]).unwrap_err();
    assert!(matches!(err, Error::InvalidCredentials));
}

#[test]
fn authenticate_without_cookie_is_rejected() {
    let err = login_reply(200, &[]).unwrap_err();
    assert!(matches!(err, Error::InvalidCredentials));
}

#[test]
fn probe_accepts_filestash_and_returns_version() {
    let about = Sdk::new(SERVER).unwrap();
    assert_eq!(
        about.endpoint(&Call::About).unwrap(),
        "http://127.0.0.1:8334/about"
    );
    let version =
        probe_version(Some("Filestash/v0.6.20260615 <https://filestash.app>")).unwrap();
    assert_eq!(version, "v0.6.20260615");
}

#[test]
fn probe_rejects_a_random_website() {
    let err = probe_version(Some("Express")).unwrap_err();
    assert!(matches!(err, Error::NotFilestash));
    assert!(probe_version(None).is_err());
}

#[test]
fn ls_parses_envelope() {
    let client = authed_client();
    let call = Call::Ls("/docs/".to_string());
    assert_eq!(call.method(), Method::Get);
    assert_eq!(
        client.endpoint(&call).unwrap(),
        "http://127.0.0.1:8334/api/files/ls?path=%2Fdocs%2F"
    );
    assert_eq!(
        client.headers(&call).unwrap()[1],
        pair("Authorization", "Bearer TOKEN")
    );
    let files = listing(
        r#"{"status": "ok", "results": [
            {"name": "report.pdf", "size": 1024, "time": 1700000000000, "type": "file"},
            {"name": "archive", "size": 0, "time": 0, "type": "directory"}
        ]}"#,
    )
    .unwrap();
    assert_eq!(files.len(), 2);
    assert_eq!(files[0].name, "report.pdf");
    assert_eq!(files[0].kind, FileType::File);
    assert_eq!(files[0].size, Some(1024));
    assert!(files[0].mtime.is_some());
    assert_eq!(files[1].kind, FileType::Directory);
    assert_eq!(files[1].mtime, None, "time=0 means unknown");
}

#[test]
fn ls_rejects_error_status_in_envelope() {
    let err = listing(r#"{"status": "error", "results": null}"#).unwrap_err();
    assert!(matches!(err, Error::Api(_)));
    assert_eq!(err.to_string(), "api error: status: error");
}

#[test]
fn stat_reads_head_headers() {
    let call = Call::Stat("/docs/report.pdf".to_string());
    assert_eq!(call.method(), Method::Head);
    assert_eq!(
        authed_client().endpoint(&call).unwrap(),
        "http://127.0.0.1:8334/api/files/cat?path=%2Fdocs%2Freport.pdf"
    );
    let info = FileInfo::of(
        "/docs/report.pdf",
        None,
        Some("2048"),
        Some("Wed, 21 Oct 2015 07:28:00 GMT"),
    );
    assert_eq!(info.name, "report.pdf");
    assert_eq!(info.kind, FileType::File);
    assert_eq!(info.size, Some(2048));
    assert_eq!(
        info.mtime,
        Some(Moment {
            secs: 1_445_412_480,
            nanos: 0
        })
    );
}

#[test]
fn stat_detects_directories() {
    let info = FileInfo::of("/docs/", Some("inode/directory"), None, None);
    assert_eq!(info.name, "docs");
    assert_eq!(info.kind, FileType::Directory);
}

#[test]
fn cat_streams_content() {
    let call = Call::Cat("/hello.txt".to_string());
    assert_eq!(call.method(), Method::Get);
    assert_eq!(
        authed_client().endpoint(&call).unwrap(),
        "http://127.0.0.1:8334/api/files/cat?path=%2Fhello.txt"
    );
    assert!(check_status(200, "200 OK").is_ok());
}

#[test]
fn save_posts_body() {
    let call = Call::Save("/new.txt".to_string());
    assert_eq!(call.method(), Method::Post);
    let client = authed_client();
    assert_eq!(
        client.endpoint(&call).unwrap(),
        "http://127.0.0.1:8334/api/files/cat?path=%2Fnew.txt"
    );
    assert_eq!(
        client.headers(&call).unwrap(),
        [
            pair("X-Requested-With", "SDKHttpRequest"),
            pair("Authorization", "Bearer TOKEN"),
        ]
    );
}

#[test]
fn mv_rm_mkdir_hit_expected_endpoints() {
    let client = authed_client();
    let mv = Call::Mv {
        from: "/a.txt".to_string(),
        to: "/b.txt".to_string(),
    };
    let rm = Call::Rm("/b.txt".to_string());
    let mkdir = Call::Mkdir("/dir/".to_string());
    for (call, path) in [
        (mv, "mv?from=%2Fa.txt&to=%2Fb.txt"),
        (rm, "rm?path=%2Fb.txt"),
        (mkdir, "mkdir?path=%2Fdir%2F"),
    ] {
        assert_eq!(call.method(), Method::Post);
        assert_eq!(
            client.endpoint(&call).unwrap(),
            format!("http://127.0.0.1:8334/api/files/{path}")
        );
    }
}

#[test]
fn http_errors_are_mapped() {
    assert!(matches!(
        check_status(404, "404 Not Found").unwrap_err(),
        Error::NotFound
    ));
    assert!(matches!(
        check_status(403, "403 Forbidden").unwrap_err(),
        Error::PermissionDenied
    ));
    assert!(matches!(
        check_status(401, "401 Unauthorized").unwrap_err(),
        Error::PermissionDenied
    ));
    assert!(matches!(
        check_status(412, "412 Precondition Failed").unwrap_err(),
        Error::PreconditionFailed
    ));
    let odd = check_status(418, "418 I'm a teapot").unwrap_err();
    assert_eq!(
        odd.to_string(),
        "api error: unexpected status 418 I'm a teapot"
    );
}

#[test]
fn requests_without_token_fail_locally() {
    let client = Sdk::new(SERVER).unwrap();
    assert!(matches!(
        client.headers(&Call::Ls("/".to_string())).unwrap_err(),
        Error::NotAuthenticated
    ));
    assert!(matches!(client.bearer(), Err(Error::NotAuthenticated)));
}

#[test]
fn a_slash_at_the_end_of_the_server_changes_nothing() {
    let a = Sdk::new("https://x/base/").unwrap();
    let b = Sdk::builder("https://x/base")
        .insecure(true)
        .token("T".to_string())
        .unwrap();
    let call = Call::Thumbnail("/a b".to_string());
    assert_eq!(a.endpoint(&call), b.endpoint(&call));
    assert_eq!(
        a.endpoint(&call).unwrap(),
        "https://x/base/api/files/cat?path=%2Fa+b&thumbnail=true"
    );
    assert!(b.insecure());
    assert!(!a.insecure());
    assert_eq!(b.token(), Some("T"));
    assert_eq!(a.token(), None);
}

#[test]
fn what_is_no_url_is_refused() {
    let err = Sdk::new("not a url").unwrap_err();
    assert!(matches!(err, Error::Url(_)));
    assert_eq!(err.to_string(), "invalid url: relative URL without a base");
}

#[test]
fn errors_are_written_out() {
    for (err, text, kind) in [
        (
            Error::InvalidCredentials,
            "invalid credentials",
            ErrorKind::Other,
        ),
        (
            Error::NotAuthenticated,
            "not authenticated",
            ErrorKind::Other,
        ),
        (
            Error::PermissionDenied,
            "permission denied",
            ErrorKind::PermissionDenied,
        ),
        (Error::NotFound, "not found", ErrorKind::NotFound),
        (
            Error::PreconditionFailed,
            "precondition failed",
            ErrorKind::Other,
        ),
        (
            Error::NotFilestash,
            "not a Filestash server",
            ErrorKind::Other,
        ),
        (Error::Http("reset".to_string()), "reset", ErrorKind::Other),
    ] {
        assert_eq!(err.to_string(), text);
        assert_eq!(err.kind(), kind);
    }
}

#[test]
fn dates_are_read_in_three_forms() {
    let at = Some(Moment {
        secs: 784_111_777,
        nanos: 0,
    });
    assert_eq!(read_date(Some("Sun, 06 Nov 1994 08:49:37 GMT")), at);
    assert_eq!(read_date(Some("Sunday, 06-Nov-94 08:49:37 GMT")), at);
    assert_eq!(read_date(Some("Sun Nov  6 08:49:37 1994")), at);
    assert_eq!(read_date(Some("yesterday")), None);
    assert_eq!(read_date(None), None);
}

#[test]
fn a_conditional_save_names_the_date() {
    assert_eq!(
        save_headers(Some(1_445_412_480), false, None),
        [pair("If-Unmodified-Since", "Wed, 21 Oct 2015 07:28:00 GMT")]
    );
    assert_eq!(
        save_headers(Some(0), true, Some("/a")),
        [
            pair("Content-Type", DELTA_MEDIA_TYPE),
            pair("If-Unmodified-Since", "Thu, 01 Jan 1970 00:00:00 GMT"),
            pair("X-Copy-Source", "/a"),
        ]
    );
    assert!(save_headers(None, false, None).is_empty());
}

#[test]
fn deltas_are_sent_where_they_are_offered() {
    assert!(delta_offered(Some(DELTA_MEDIA_TYPE)));
    assert!(!delta_offered(Some("application/octet-stream")));
    assert!(!delta_offered(None));
}

#[test]
fn parts_of_a_session_come_in_order() {
    let cookies = [
        pair("auth1", "b"),
        pair("other", "x"),
        pair("auth", "a"),
        pair("auth2", "c"),
    ];
    assert_eq!(assemble_token(&cookies), "abc");
    let headers = texts(&["auth=a=1; Path=/", "x=y", "auth1=b"]);
    assert_eq!(extract_token(&headers), "a=1b");
}

#[test]
fn the_browser_has_arrived_at_the_files() {
    assert!(on_files("https://x/files/"));
    assert!(on_files("https://x/files?a=/login"));
    assert!(!on_files("https://x/login?next=/files"));
    assert!(!on_files("about blank"));
}

#[test]
fn a_delta_is_framed_with_the_digest() {
    let old: Vec<u8> = (0..100_000u32).map(|i| (i % 251) as u8).collect();
    let mut new = old.clone();
    new[7] ^= 255;
    let sig = delta::signature(&old);
    assert_eq!(&sig[4..12], &[0, 0, 8, 0, 0, 0, 0, 16]);
    assert!(delta::usable(&sig));
    let body = delta::delta_body(sig, &new).unwrap();
    assert_eq!(body[0], 1);
    assert!(body.len() < new.len());
    let mut back = Vec::new();
    fast_rsync::apply(&old, &body[1..body.len() - 32], &mut back).unwrap();
    assert_eq!(back, new);
    let digest = <sha2::Sha256 as sha2::Digest>::digest(&new).to_vec();
    assert_eq!(&body[body.len() - 32..], &digest[..]);
}

#[test]
fn a_delta_that_saves_nothing_is_not_sent() {
    let sig = delta::signature(b"entirely different");
    assert!(delta::delta_body(sig, &b"new".to_vec()).is_none());
    assert!(delta::delta_body(b"no signature".to_vec(), &b"new".to_vec()).is_none());
    assert!(!delta::usable(&vec![0; 12]));
    assert_eq!(
        delta::frame(Some(vec![7]), 3, &vec![8, 9]),
        Some(vec![1, 7, 8, 9])
    );
    assert_eq!(delta::frame(Some(vec![7]), 2, &vec![8, 9]), None);
    assert_eq!(delta::frame(None, 9, &vec![]), None);
}

#[test]
fn bare_host_defaults_to_https() {
    assert_eq!(
        normalize_server("files.example.com"),
        "https://files.example.com"
    );
}

#[test]
fn scheme_and_port_are_kept() {
    assert_eq!(
        normalize_server("http://localhost:8334"),
        "http://localhost:8334"
    );
}

#[test]
fn whitespace_and_trailing_slashes_are_trimmed() {
    assert_eq!(
        normalize_server(" http://localhost:8334// "),
        "http://localhost:8334"
    );
}
