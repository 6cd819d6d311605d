use mystery_novel_agent::config::{
    config_file_path, data_dir_override, fixed_tag_list, is_valid_library_name,
    set_data_dir_override, AppConfig, LibraryConfig, LibraryTheme, LlmProvider, LlmSettings,
    WebDavConfig,
};
use mystery_novel_agent::files::{
    check_cover, check_dropped, collect_epubs, cover_scopes, cover_upload_extension,
    dropped_copy_name, dropped_name, epub_candidates, is_shown_cover, list_fs_dir, new_dir,
    fs_roots, path_lies_in, sanitize_name, FsEntry,
};
use mystery_novel_agent::libraries::{
    get_config, library_to_dto, normalize_default_tags, theme_dto_to_config,
    validate_library_name, LibraryThemeDto, NewLibrary, WebDavDto,
};
use mystery_novel_agent::paths::{join_path, parts_of, same_path};
use mystery_novel_agent::settings::{
    check_status, get_settings, llm_status, save_settings, total_cost, translation_text,
    LlmProviderDto, LlmSettingsDto,
};
use mystery_novel_agent::agent::LlmConfig;
use mystery_novel_agent::config::ModelPricing;
use mystery_novel_agent::db::LlmUsageRow;

fn strings(v: &[&str]) -> Vec<String> {
    v.iter().map(|s| s.to_string()).collect()
}

fn library(id: &str, name: &str, path: &str) -> LibraryConfig {
    LibraryConfig {
        id: id.into(),
        name: name.into(),
        title: format!("书库 {id}"),
        path: path.into(),
        theme: LibraryTheme::default(),
        default_tags: vec![],
        webdav: WebDavConfig::default(),
    }
}

fn two_libraries() -> AppConfig {
    let mut cfg = AppConfig::default();
    cfg.libraries = vec![library("a", "main", "/lib/a"), library("b", "second", "/lib/b")];
    cfg.current_library = Some("b".into());
    cfg
}

fn asked(name: &str, title: &str, path: &str) -> NewLibrary {
    NewLibrary {
        name: name.into(),
        title: title.into(),
        path: path.into(),
        theme: None,
        default_tags: None,
        webdav: None,
    }
}

#[test]
fn a_flat_model_setting_becomes_a_provider() {
    let mut cfg = AppConfig::default();
    cfg.llm.api_key = Some("k".into());
    cfg.llm.base_url = Some("https://x/v1".into());
    cfg.llm.models = strings(&["m1", "m2"]);
    cfg.migrate_llm();
    assert_eq!(cfg.llm.providers.len(), 1);
    assert_eq!(cfg.llm.providers[0].name, "默认");
    assert_eq!(cfg.llm.providers[0].base_url, "https://x/v1");
    assert_eq!(cfg.llm.providers[0].models, strings(&["m1", "m2"]));
    assert_eq!(cfg.llm.default_provider.as_deref(), Some("默认"));
    assert!(cfg.llm.api_key.is_none() && cfg.llm.base_url.is_none() && cfg.llm.models.is_empty());
    assert!(cfg.llm.has_providers());
}

#[test]
fn a_blank_key_becomes_no_provider() {
    let mut cfg = AppConfig::default();
    cfg.llm.api_key = Some("  ".into());
    cfg.migrate_llm();
    assert!(cfg.llm.providers.is_empty());
    assert!(cfg.llm.api_key.is_none());
    assert!(!cfg.llm.has_providers());
}

#[test]
fn a_single_path_becomes_a_library() {
    let mut cfg = AppConfig::default();
    cfg.library_path = Some("/books".into());
    cfg.migrate();
    assert_eq!(cfg.libraries.len(), 1);
    let l = &cfg.libraries[0];
    assert_eq!((l.id.as_str(), l.name.as_str(), l.title.as_str()), ("default", "default", "默认书库"));
    assert_eq!(l.path, "/books");
    assert_eq!(cfg.current_library.as_deref(), Some("default"));
    assert_eq!(cfg.default_tags(), strings(&["推理小说"]));
}

#[test]
fn names_of_libraries_are_made_legal_and_distinct() {
    let mut cfg = AppConfig::default();
    cfg.libraries = vec![
        library("one", "Main", "/1"),
        library("two", "main", "/2"),
        library("-x-y-", "", "/3"),
        library("书", "书", "/4"),
        library("书库", "", "/5"),
    ];
    cfg.migrate_library_names();
    let names: Vec<&str> = cfg.libraries.iter().map(|l| l.name.as_str()).collect();
    assert_eq!(names, ["Main", "main_2", "x_y", "lib", "lib_2"]);
    cfg.migrate_library_names();
    let again: Vec<&str> = cfg.libraries.iter().map(|l| l.name.as_str()).collect();
    assert_eq!(again, ["Main", "main_2", "x_y", "lib", "lib_2"]);
}

#[test]
fn legal_names() {
    assert!(is_valid_library_name("main_2"));
    assert!(!is_valid_library_name(""));
    assert!(!is_valid_library_name("a-b"));
    assert!(!is_valid_library_name("书"));
    assert!(is_valid_library_name(&"a".repeat(64)));
    assert!(!is_valid_library_name(&"a".repeat(65)));
}

#[test]
fn the_library_in_use() {
    let mut cfg = two_libraries();
    assert_eq!(cfg.current_library_id().as_deref(), Some("b"));
    assert_eq!(cfg.require_library_path().unwrap(), "/lib/b");
    cfg.current_library = Some("gone".into());
    assert_eq!(cfg.current_library().unwrap().id, "a");
    assert!(cfg.library_name_taken("MAIN", None));
    assert!(!cfg.library_name_taken("MAIN", Some("a")));
    let empty = AppConfig::default();
    assert_eq!(
        empty.require_library_path().unwrap_err(),
        "未配置书库路径，请先运行: library config set <PATH>"
    );
}

#[test]
fn fixed_tags_of_a_library() {
    let mut cfg = two_libraries();
    assert_eq!(cfg.default_tags(), strings(&["推理小说"]));
    cfg.libraries[1].default_tags = strings(&[" 文学 ", " "]);
    assert_eq!(cfg.default_tags(), strings(&["文学"]));
    assert_eq!(fixed_tag_list(&strings(&[])), strings(&["推理小说"]));
}

#[test]
fn files_of_the_application() {
    let mut cfg = AppConfig::default();
    assert_eq!(cfg.covers_dir("/lib"), "/lib/covers");
    assert_eq!(cfg.covers_dir("/lib/"), "/lib/covers");
    assert_eq!(cfg.database_file(Some("/data")), "/data/mystery-novel-agent/mystery_novel.db");
    assert_eq!(cfg.database_file(None), "mystery_novel.db");
    cfg.covers_path = Some("/c".into());
    cfg.database_path = Some("/d.db".into());
    assert_eq!(cfg.covers_dir("/lib"), "/c");
    assert_eq!(cfg.database_file(Some("/data")), "/d.db");
    assert_eq!(config_file_path(Some("/conf")), "/conf/mystery-novel-agent/config.toml");
    assert_eq!(config_file_path(None), "config.toml");
}

#[test]
fn the_data_directory_is_chosen_once() {
    let mut chosen = None;
    assert_eq!(data_dir_override(&chosen), None);
    set_data_dir_override(&mut chosen, "/one".into());
    set_data_dir_override(&mut chosen, "/two".into());
    assert_eq!(data_dir_override(&chosen).as_deref(), Some("/one"));
}

#[test]
fn a_remote_directory_is_ready() {
    let mut w = WebDavConfig::default();
    assert!(!w.is_ready());
    w.enabled = true;
    assert!(!w.is_ready());
    w.url = "https://dav".into();
    assert!(w.is_ready());
}

#[test]
fn a_library_is_added() {
    let mut cfg = two_libraries();
    assert!(cfg.add_library(&asked("third", "三", "/lib/c"), 77).is_ok());
    assert_eq!(cfg.libraries.len(), 3);
    assert_eq!(cfg.libraries[2].name, "third");
    assert_eq!(cfg.libraries[2].default_tags, strings(&["推理小说"]));
    assert_eq!(cfg.add_library(&asked("MAIN", "四", "/lib/d"), 78).unwrap_err(), validate_library_name(&cfg, "MAIN", None).unwrap_err());
    assert!(cfg.add_library(&asked("a b", "四", "/lib/d"), 78).is_err());
    assert!(cfg.add_library(&asked("four", "四", "  "), 78).is_err());
    assert_eq!(cfg.libraries.len(), 3);
}

#[test]
fn a_library_is_saved_and_kept_apart_from_the_others() {
    let mut cfg = two_libraries();
    let mut d = library_to_dto(&cfg.libraries[0]);
    d.title = "新名".into();
    d.default_tags = strings(&[" 文学 ", "文学", ""]);
    cfg.save_library(&d).unwrap();
    assert_eq!(cfg.libraries[0].title, "新名");
    assert_eq!(cfg.libraries[1].title, "书库 b");
    d.name = "second".into();
    assert!(cfg.save_library(&d).is_err());
    d.id = "gone".into();
    assert!(cfg.save_library(&d).is_err());
}

#[test]
fn the_last_library_stays() {
    let mut cfg = two_libraries();
    cfg.delete_library("gone").unwrap();
    assert_eq!(cfg.libraries.len(), 2);
    cfg.delete_library("b").unwrap();
    assert_eq!(cfg.current_library.as_deref(), Some("a"));
    assert_eq!(cfg.delete_library("a").unwrap_err(), "至少保留一个书库，无法删除");
    assert_eq!(cfg.libraries.len(), 1);
}

#[test]
fn libraries_are_switched_and_moved() {
    let mut cfg = two_libraries();
    assert_eq!(cfg.library_index("b"), Some(1));
    assert_eq!(cfg.library_index("c"), None);
    cfg.switch_library("a").unwrap();
    assert_eq!(cfg.current_library.as_deref(), Some("a"));
    assert!(cfg.switch_library("gone").is_err());
    assert_eq!(cfg.change_library_path("a", "/new").unwrap().as_deref(), Some("/lib/a"));
    assert_eq!(cfg.libraries[0].path, "/new");
    assert!(cfg.change_library_path("gone", "/new").is_err());
}

#[test]
fn a_library_that_is_there_already_is_not_moved() {
    let mut cfg = two_libraries();
    for same in ["/lib/a", "/lib/a/", "/lib/a/.", "//lib//a", " /lib/./a "] {
        assert_eq!(cfg.change_library_path("a", same), Ok(None));
        assert_eq!(cfg.libraries[0].path, "/lib/a");
    }
    for other in ["lib/a", "/lib/a/b", "/lib/b/../a", "/lib/A"] {
        assert_eq!(cfg.change_library_path("a", other), Ok(Some("/lib/a".to_string())));
        assert_eq!(cfg.libraries[0].path, other);
        cfg.libraries[0].path = "/lib/a".into();
    }
}

#[test]
fn paths_are_joined_and_compared_by_their_parts() {
    assert_eq!(join_path("/lib", "a.epub"), "/lib/a.epub");
    assert_eq!(join_path("/lib/", "a.epub"), "/lib/a.epub");
    assert_eq!(join_path("", "a.epub"), "a.epub");
    assert_eq!(join_path("/lib", "/x/a.epub"), "/x/a.epub");
    assert_eq!(join_path("/lib", ""), "/lib/");
    assert_eq!(parts_of("/lib//a/./b/"), strings(&["/", "lib", "a", "b"]));
    assert_eq!(parts_of("./a/."), strings(&[".", "a"]));
    assert_eq!(parts_of("a/../b"), strings(&["a", "..", "b"]));
    assert!(same_path("/", "//"));
    assert!(!same_path("a", "./a"));
    assert!(!same_path("/a", "a"));
}

#[test]
fn only_the_library_in_use_is_synchronised() {
    let cfg = two_libraries();
    assert!(cfg.library_to_sync("a").is_err());
    assert!(cfg.library_to_sync("gone").is_err());
    assert_eq!(cfg.library_to_sync("b").unwrap(), 1);
}

#[test]
fn the_configuration_is_shown() {
    let cfg = two_libraries();
    let d = get_config(&cfg);
    assert_eq!(d.libraries.len(), 2);
    assert_eq!(d.current_library.as_deref(), Some("b"));
    assert_eq!(d.library_path, None);
    assert_eq!(d.covers_dir.as_deref(), Some("/lib/b/covers"));
    assert_eq!(d.default_tags, strings(&["推理小说"]));
}

#[test]
fn themes_and_directories_are_copied() {
    let t = LibraryThemeDto {
        accent: Some("#fff".into()),
        bg: None,
        panel: None,
        panel_2: Some("#000".into()),
        ink: None,
        muted: None,
        read: None,
        reading: None,
        wish: None,
    };
    let c = theme_dto_to_config(&t);
    assert_eq!(c.accent.as_deref(), Some("#fff"));
    assert_eq!(c.panel_2.as_deref(), Some("#000"));
    let w = WebDavDto {
        enabled: true,
        url: " https://dav/ ".into(),
        username: " me ".into(),
        password: "p".into(),
        remote_dir: " books ".into(),
    };
    let c = w.to_config();
    assert!(c.enabled);
    assert_eq!(c.password, "p");
    let back = WebDavDto::from_config(&c);
    assert_eq!((back.url, back.username, back.remote_dir), (c.url, c.username, c.remote_dir));
    assert_eq!(normalize_default_tags(&None), strings(&["推理小说"]));
    assert_eq!(normalize_default_tags(&Some(strings(&[" a ", "", "a"]))).first().map(|s| s.as_str()), Some("a"));
}

// ---- files ----

#[test]
fn names_of_dropped_files() {
    assert_eq!(sanitize_name("a/b\\c:d.epub"), sanitize_name("a/b\\c:d.epub"));
    let n = dropped_name(&Some("%E7%99%BD%E5%A4%9C%E8%A1%8C.epub".into()));
    assert_eq!(n, "白夜行.epub");
    let n = dropped_name(&Some("..%2F..%2Fx.epub".into()));
    assert!(!n.contains('/') && !n.contains('\\'));
    assert!(dropped_copy_name(5, 2, "x.epub").ends_with("x.epub"));
    assert!(dropped_copy_name(5, 2, "x.epub").starts_with("5-2-"));
    assert!(check_dropped(true, 3).is_ok());
    assert!(check_dropped(false, 3).is_err());
    assert!(check_dropped(true, 0).is_err());
}

#[test]
fn directories_are_listed_first() {
    let e = |n: &str, d: bool| FsEntry {
        name: n.into(),
        path: format!("/x/{n}"),
        is_dir: d,
        size: if d { None } else { Some(1) },
    };
    let out = list_fs_dir(&vec![e("b.epub", false), e("Z", true), e("A.epub", false), e("c", true)]);
    let names: Vec<&str> = out.iter().map(|x| x.name.as_str()).collect();
    assert_eq!(names, ["c", "Z", "A.epub", "b.epub"]);
}

#[test]
fn a_directory_is_named() {
    assert_eq!(new_dir("/x", " new ").unwrap(), "/x/new");
    assert!(new_dir("/x", " ").is_err());
    assert!(new_dir("/x", "a/b").is_err());
    assert!(new_dir("/x", "..").is_err());
}

#[test]
fn books_are_collected_in_order() {
    let v = strings(&["/b/2.epub", "/a/1.EPUB", "/a/x.txt", "/a/0.epub"]);
    assert_eq!(collect_epubs(&v), strings(&["/a/0.epub", "/a/1.EPUB", "/b/2.epub"]));
}

#[test]
fn pictures_by_their_names() {
    assert_eq!(cover_upload_extension("/x/a.JPEG").unwrap(), "jpg");
    assert_eq!(cover_upload_extension("/x/a.webp").unwrap(), "webp");
    assert_eq!(cover_upload_extension("/x/a.bmp").unwrap_err(), "不支持的图片格式 .bmp（仅支持 jpg/png/webp）");
    assert_eq!(cover_upload_extension("/x/a").unwrap_err(), "不支持的图片格式");
    assert!(is_shown_cover("/x/a.GIF"));
    assert!(!is_shown_cover("/x/a.txt"));
}

#[test]
fn covers_are_shown_from_their_directories_only() {
    let cfg = two_libraries();
    assert_eq!(
        cover_scopes(&cfg),
        strings(&["/lib/a/covers", "/lib/b/covers", "/lib/b/covers"])
    );
    let dirs = vec![strings(&["/", "lib", "a", "covers"])];
    let inside = Some(strings(&["/", "lib", "a", "covers", "c.jpg"]));
    let outside = Some(strings(&["/", "lib", "a", "covers2", "c.jpg"]));
    assert!(check_cover(" c.jpg ", &inside, &dirs).is_ok());
    assert_eq!(check_cover("c.jpg", &outside, &dirs).unwrap_err(), "路径不在封面缓存目录内");
    assert_eq!(check_cover("c.jpg", &None, &dirs).unwrap_err(), "封面文件不存在");
    assert_eq!(check_cover("c.txt", &inside, &dirs).unwrap_err(), "不支持的图片格式");
}

#[test]
fn where_a_book_may_be() {
    let cfg = two_libraries();
    assert_eq!(
        epub_candidates(&cfg, "x.epub", "/orig.epub", &Some("a".into())),
        strings(&["/lib/a/x.epub", "/orig.epub"])
    );
    assert_eq!(
        epub_candidates(&cfg, "x.epub", " ", &None),
        strings(&["/lib/b/x.epub"])
    );
    assert_eq!(epub_candidates(&cfg, "", "/o.epub", &None), strings(&["/o.epub"]));
}

// ---- settings ----

fn edited(providers: Vec<LlmProviderDto>) -> LlmSettingsDto {
    LlmSettingsDto {
        providers,
        default_provider: None,
        default_model: None,
        retry_count: Some(99),
        budget_tokens: Some(1000),
        pricing: vec![],
    }
}

fn provider_dto(name: &str, models: &[&str]) -> LlmProviderDto {
    LlmProviderDto {
        name: name.into(),
        base_url: " https://x ".into(),
        api_key: " k ".into(),
        models: strings(models),
    }
}

#[test]
fn settings_are_saved_tidily() {
    let mut llm = LlmSettings::default();
    let mut d = edited(vec![
        provider_dto(" A ", &[" m1 ", "m1", "", "m2"]),
        provider_dto("  ", &["x"]),
        provider_dto("B", &["b1"]),
    ]);
    d.default_provider = Some("B".into());
    d.default_model = Some("m2".into());
    d.pricing = vec![
        ModelPricing { model: " m1 ".into(), input_per_m: 1, output_per_m: 2 },
        ModelPricing { model: "m1".into(), input_per_m: 3, output_per_m: 4 },
        ModelPricing { model: " ".into(), input_per_m: 5, output_per_m: 6 },
    ];
    save_settings(&mut llm, &d).unwrap();
    assert_eq!(llm.providers.len(), 2);
    assert_eq!(llm.providers[0].name, "A");
    assert_eq!(llm.providers[0].api_key, "k");
    assert_eq!(llm.providers[0].models, strings(&["m1", "m2"]));
    assert_eq!(llm.default_provider.as_deref(), Some("B"));
    assert_eq!(llm.default_model.as_deref(), Some("b1"));
    assert_eq!(llm.retry_count, Some(10));
    assert_eq!(llm.budget_tokens, Some(1000));
    assert_eq!(llm.pricing.len(), 1);
    assert_eq!((llm.pricing[0].model.as_str(), llm.pricing[0].input_per_m), ("m1", 1));
    assert_eq!(llm.price_for("A/m1"), Some((1, 2)));
}

#[test]
fn two_providers_of_one_name_are_refused() {
    let mut llm = LlmSettings::default();
    llm.retry_count = Some(3);
    let d = edited(vec![provider_dto("A", &[]), provider_dto(" A", &[])]);
    assert_eq!(save_settings(&mut llm, &d).unwrap_err(), "服务商名称重复:「A」");
    assert_eq!(llm.retry_count, Some(3));
    assert!(llm.providers.is_empty());
}

#[test]
fn what_the_tokens_cost() {
    let mut llm = LlmSettings::default();
    llm.providers.push(LlmProvider {
        name: "A".into(),
        base_url: "b".into(),
        api_key: "k".into(),
        models: strings(&["m"]),
    });
    llm.pricing.push(ModelPricing { model: "m".into(), input_per_m: 10, output_per_m: 20 });
    let row = |model: &str, p: i64, c: i64| LlmUsageRow {
        model: model.into(),
        calls: 1,
        prompt_tokens: p,
        completion_tokens: c,
        total_tokens: p + c,
        last_used: None,
    };
    let s = get_settings(&llm, vec![row("A/m", 3, 4), row("A/none", 5, 6), row("x/gpt-4o-mini", 2, 1)]);
    assert_eq!(s.llm.providers[0].models, strings(&["m"]));
    assert_eq!(s.usage.len(), 3);
    assert_eq!(s.costs[0].price, Some((10, 20)));
    assert_eq!(s.costs[0].cost, Some(110));
    assert_eq!(s.costs[1].price, None);
    assert_eq!(s.costs[1].cost, None);
    assert_eq!(s.costs[2].cost, Some(2 * 1100 + 4300));
    assert_eq!(s.total_cost, Some(110 + 6500));
    assert_eq!(total_cost(&s.costs), Some(6610));
}

#[test]
fn the_state_of_the_model() {
    let c = LlmConfig {
        provider: "p".into(),
        api_key: "k".into(),
        base_url: "b".into(),
        model: "m".into(),
    };
    assert_eq!(llm_status(&Some(c)).model.as_deref(), Some("m"));
    assert!(!llm_status(&None).configured);
    assert!(check_status("在读").is_ok());
    assert_eq!(check_status("弃读").unwrap_err(), "无效的状态:「弃读」");
    assert_eq!(translation_text(" x ", true).unwrap(), "x");
    assert_eq!(translation_text(" ", true).unwrap_err(), "内容为空");
    assert!(translation_text("x", false).is_err());
}

#[test]
fn a_path_lies_in_its_directory_by_whole_names() {
    let parts = |p: &str| p.split('/').map(|x| x.to_string()).collect::<Vec<String>>();
    assert!(path_lies_in(&parts("home/covers/a.jpg"), &parts("home/covers")));
    assert!(path_lies_in(&parts("home/covers"), &parts("home/covers")));
    assert!(!path_lies_in(&parts("home/covers2/a.jpg"), &parts("home/covers")));
    assert!(!path_lies_in(&parts("home"), &parts("home/covers")));
}

#[test]
fn only_a_phone_is_browsed_from_roots() {
    assert!(fs_roots(false, &Some("/data".into())).is_empty());
    assert_eq!(fs_roots(true, &None), vec!["/storage/emulated/0", "/sdcard"]);
    assert_eq!(fs_roots(true, &Some("/data".into()))[2], "/data");
}

#[test]
fn a_default_provider_has_to_be_one_of_the_list() {
    let mut llm = LlmSettings::default();
    llm.retry_count = Some(3);
    let mut d = edited(vec![provider_dto("A", &["m"])]);
    d.default_provider = Some(" X ".into());
    assert_eq!(save_settings(&mut llm, &d).unwrap_err(), "默认服务商不存在:「X」");
    assert_eq!(llm.retry_count, Some(3));
    assert!(llm.providers.is_empty());
    d.default_provider = Some(" ".into());
    save_settings(&mut llm, &d).unwrap();
    assert_eq!(llm.default_provider.as_deref(), Some("A"));
}

#[test]
fn names_that_are_made_stay_short() {
    let long = "a".repeat(80);
    let mut cfg = AppConfig::default();
    cfg.libraries = vec![library(&long, "", "/a"), library(&long, "!", "/b"), library(&long, "", "/c")];
    cfg.migrate_library_names();
    let names: Vec<String> = cfg.libraries.iter().map(|l| l.name.clone()).collect();
    assert_eq!(names[0], "a".repeat(64));
    assert_eq!(names[1], "a".repeat(62) + "_2");
    assert_eq!(names[2], "a".repeat(62) + "_3");
    cfg.migrate_library_names();
    assert_eq!(cfg.libraries.iter().map(|l| l.name.clone()).collect::<Vec<String>>(), names);

    let taken = "a".repeat(62) + "_2";
    cfg.libraries = vec![library("x", &taken, "/a"), library("y", &taken.to_uppercase(), "/b")];
    cfg.migrate_library_names();
    assert_eq!(cfg.libraries[1].name, "A".repeat(62) + "_3");
}
