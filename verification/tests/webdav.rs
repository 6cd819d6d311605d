use mystery_novel_agent::config::{LibraryConfig, LibraryTheme, WebDavConfig};
use mystery_novel_agent::encoding::encode_seg;
use mystery_novel_agent::replace::ReplaceStats;
use mystery_novel_agent::sync::{
    collect_local_epubs, collect_push_covers, is_book_file, plan_pull, plan_push, pull_possible,
    remote_books, remote_has_book, Act, Area, DbOutcome, Direction, LocalFile, StepOutcome,
    SyncRun, SyncStep,
};
use mystery_novel_agent::webdav::{
    cover_url, dav_base, dir_made, dirs_to_make, ensure_ctx, file_url, find_file,
    is_dir_exists_status, list_dir_result, parse_propfind, RemoteFile, SyncCancel,
};

const LISTING: &str = r#"<?xml version="1.0" encoding="utf-8"?>
<D:multistatus xmlns:D="DAV:">
  <D:response>
    <D:href>/dav/mystery-novel-agent/</D:href>
    <D:propstat><D:prop><D:resourcetype><D:collection/></D:resourcetype></D:prop></D:propstat>
  </D:response>
  <D:response>
    <D:href>/dav/mystery-novel-agent/test%20book.epub</D:href>
    <D:propstat><D:prop><D:getcontentlength>12345</D:getcontentlength></D:prop></D:propstat>
  </D:response>
  <response>
    <href>/dav/mystery-novel-agent/a.epub</href>
    <propstat><prop><getcontentlength>99</getcontentlength></prop></propstat>
  </response>
</D:multistatus>"#;

#[test]
fn test_parse_propfind() {
    let files = parse_propfind(LISTING);
    let get = |name: &str| find_file(&files, name).map(|i| files[i].size);
    assert_eq!(get("test book.epub"), Some(12345));
    assert_eq!(get("a.epub"), Some(99));
    assert_eq!(files.len(), 2, "目录条目不进入文件表");
}

#[test]
fn listings_are_read_by_their_status() {
    assert_eq!(list_dir_result(207, "207 Multi-Status", LISTING).unwrap().len(), 2);
    assert!(list_dir_result(404, "404 Not Found", "").unwrap().is_empty());
    assert_eq!(
        list_dir_result(401, "401 Unauthorized", "").unwrap_err(),
        "读取远程目录失败: HTTP 401 Unauthorized（401/403 请检查账号密码）"
    );
}

#[test]
fn test_encode_seg() {
    assert_eq!(encode_seg("[a-b] 作者-c.epub"), "%5Ba-b%5D%20%E4%BD%9C%E8%80%85-c.epub");
}

fn server(url: &str, dir: &str) -> WebDavConfig {
    WebDavConfig {
        enabled: true,
        url: url.into(),
        username: "u".into(),
        password: "p".into(),
        remote_dir: dir.into(),
    }
}

#[test]
fn test_dav_base_with_library_name() {
    let cfg = server("https://dav.example.com/dav/", " reading ");
    assert_eq!(
        dav_base(&cfg, "my_lib").unwrap(),
        "https://dav.example.com/dav/reading/my_lib"
    );
}

#[test]
fn addresses_of_files_are_encoded() {
    assert_eq!(file_url("https://x/b", "a b.epub"), "https://x/b/a%20b.epub");
    assert_eq!(cover_url("https://x/b", "p.jpg"), "https://x/b/covers/p.jpg");
    assert!(dav_base(&server("", ""), "my_lib").is_err());
    let dirs = dirs_to_make("https://x/dav/reading/my_lib").unwrap();
    assert_eq!(dirs.last().map(|s| s.trim_end_matches('/')), Some("https://x/dav/reading/my_lib"));
    assert_eq!(dirs_to_make("x/dav").unwrap_err(), "WebDav 地址缺少 scheme");
    assert!(is_dir_exists_status(405));
    assert!(!is_dir_exists_status(500));
    assert!(dir_made(201));
    assert!(dir_made(405));
    assert!(!dir_made(500));
}

#[test]
fn test_ensure_ctx_validates() {
    let tmp = "/tmp".to_string();
    let mut lib = LibraryConfig {
        id: "default".into(),
        name: "my-lib".into(),
        title: "默认书库".into(),
        path: tmp.clone(),
        theme: LibraryTheme::default(),
        default_tags: vec![],
        webdav: WebDavConfig {
            enabled: true,
            url: "https://dav.example.com".into(),
            username: String::new(),
            password: String::new(),
            remote_dir: String::new(),
        },
    };
    assert!(ensure_ctx(&lib, tmp.clone()).is_err());
    lib.name = "default".into();
    assert!(ensure_ctx(&lib, tmp.clone()).is_ok());
    lib.webdav.enabled = false;
    assert!(ensure_ctx(&lib, tmp).is_err());
}

fn local(name: &str, size: u64) -> LocalFile {
    LocalFile { name: name.into(), path: format!("/lib/{name}"), size }
}

fn remote(name: &str, size: u64) -> RemoteFile {
    RemoteFile { name: name.into(), size }
}

fn acts(steps: &[SyncStep], area: Area) -> Vec<(Act, String)> {
    steps.iter().filter(|s| s.area == area).map(|s| (s.act, s.name.clone())).collect()
}

#[test]
fn a_push_makes_the_server_like_the_library() {
    let steps = plan_push(
        &vec![local("a.epub", 1), local("b.epub", 2)],
        &vec![remote("b.epub", 2), remote("c.epub", 3)],
        &vec![local("p.jpg", 5)],
        &vec![],
    );
    let books = acts(&steps, Area::Epub);
    assert!(books.contains(&(Act::Upload, "a.epub".to_string())));
    assert!(books.contains(&(Act::Skip, "b.epub".to_string())));
    assert!(books.contains(&(Act::DeleteRemote, "c.epub".to_string())));
    assert_eq!(acts(&steps, Area::Cover), vec![(Act::Upload, "p.jpg".to_string())]);
}

#[test]
fn a_pull_makes_the_library_like_the_server() {
    let steps = plan_pull(
        &vec![local("a.epub", 1), local("b.epub", 2)],
        &vec![remote("b.epub", 2), remote("c.epub", 3)],
        &vec![],
        &vec![],
    );
    let books = acts(&steps, Area::Epub);
    assert!(books.contains(&(Act::DeleteLocal, "a.epub".to_string())));
    assert!(books.contains(&(Act::Skip, "b.epub".to_string())));
    assert!(books.contains(&(Act::Download, "c.epub".to_string())));
    assert!(pull_possible(&vec![]).is_err());
    assert!(pull_possible(&vec![remote("c.epub", 3)]).is_ok());
}

#[test]
fn books_are_found_by_their_extension() {
    assert!(is_book_file("a.EPUB"));
    assert!(!is_book_file("a.txt"));
    let found = collect_local_epubs(&vec![local("b.epub", 1), local("x.db", 1), local("a.epub", 1)]);
    let names: Vec<&str> = found.iter().map(|f| f.name.as_str()).collect();
    assert_eq!(names, vec!["a.epub", "b.epub"]);
    let covers = collect_push_covers(&vec![local("p.jpg", 1)], &vec![local("p.jpg", 2), local("q.jpg", 3)]);
    assert_eq!(covers.len(), 2);
    let files = vec![remote("a.epub", 1), remote("mystery_novel.db", 2)];
    assert_eq!(remote_books(&files), vec!["a.epub"]);
    assert!(remote_has_book(&files, "a.epub"));
}

#[test]
fn a_synchronisation_counts_its_steps() {
    let steps = plan_push(
        &vec![local("a.epub", 1), local("b.epub", 2)],
        &vec![remote("b.epub", 2)],
        &vec![],
        &vec![],
    );
    let n = steps.len();
    let mut run = SyncRun::start(Direction::Push, steps, 2, n as i64 + 1);
    let go = SyncCancel::new();
    let mut taken = 0;
    while let Some(i) = run.next(&go).unwrap() {
        let outcome = if run.steps[i].act == Act::Upload {
            StepOutcome::Failed("断网".to_string())
        } else {
            StepOutcome::Done
        };
        let p = run.record(outcome);
        assert_eq!(p.phase, "webdav-push");
        taken += 1;
    }
    assert_eq!(taken, n);
    assert_eq!(run.report.failed, 1);
    assert_eq!(run.report.skipped, 1);
    assert_eq!(run.report.errors.len(), 1);
    run.finish_push(Err("坏了".to_string()));
    assert_eq!(run.report.errors.len(), 2);
    let mut stop = SyncCancel::new();
    stop.cancel();
    assert_eq!(run.next(&stop).unwrap_err(), "已取消");
}

#[test]
fn a_pulled_database_is_reported() {
    let mut run = SyncRun::start(Direction::Pull, vec![], 0, 1);
    assert_eq!(run.database_progress().phase, "webdav-pull");
    run.finish_pull(DbOutcome::Replaced(ReplaceStats { updated: 1, inserted: 2, deleted: 3 }));
    assert_eq!(run.report.books_updated, 1);
    assert_eq!(run.report.books_imported, 2);
    assert_eq!(run.report.books_deleted, 3);
    let mut run = SyncRun::start(Direction::Pull, vec![], 0, 1);
    run.finish_pull(DbOutcome::DownloadFailed("断网".to_string()));
    assert_eq!(run.report.errors, vec!["mystery_novel.db: 下载失败 断网"]);
}
