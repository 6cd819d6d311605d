//! Managing the libraries of the configuration.
use vstd::prelude::*;
use vstd::string::*;

use crate::config::{
    current_at, fixed_tag_list, fixed_tags, is_library_name, is_valid_library_name, library_at,
    the_chosen_library_is_in_use, AppConfig, LibraryConfig, LibraryTheme, WebDavConfig,
};
use crate::text::{
    ascii_lower_all, blank, clone_strings, dec, dec_u64, is_blank, opt_str, same, strs, trim,
    trimmed,
};
use crate::db::opt_view;
use crate::paths::{path_in, same_parts, same_path};
use crate::seqs::{filter_from, filter_none, filter_step};

verus! {

/// How a library is synchronised, as it is shown and edited.
#[derive(Debug)]
pub struct WebDavDto {
    pub enabled: bool,
    pub url: String,
    pub username: String,
    pub password: String,
    pub remote_dir: String,
}

/// The colours of a library, as they are shown and edited.
#[derive(Debug)]
pub struct LibraryThemeDto {
    pub accent: Option<String>,
    pub bg: Option<String>,
    pub panel: Option<String>,
    pub panel_2: Option<String>,
    pub ink: Option<String>,
    pub muted: Option<String>,
    pub read: Option<String>,
    pub reading: Option<String>,
    pub wish: Option<String>,
}

/// A library, as it is shown and edited.
#[derive(Debug)]
pub struct LibraryDto {
    pub id: String,
    pub name: String,
    pub title: String,
    pub path: String,
    pub theme: LibraryThemeDto,
    pub default_tags: Vec<String>,
    pub webdav: WebDavDto,
}

/// The configuration, as it is shown.
#[derive(Debug)]
pub struct ConfigDto {
    pub library_path: Option<String>,
    pub covers_dir: Option<String>,
    pub libraries: Vec<LibraryDto>,
    pub current_library: Option<String>,
    /// The tags that every book of the library in use has.
    pub default_tags: Vec<String>,
}

/// A copy of what there is.
pub(crate) fn copy_opt(o: &Option<String>) -> (r: Option<String>)
    ensures
        r == *o,
{
    match o {
        Some(s) => Some(s.clone()),
        None => None,
    }
}

// ---- showing ----

/// Whether `d` shows the colours `t`.
pub open spec fn shows_theme(d: LibraryThemeDto, t: LibraryTheme) -> bool {
    &&& d.accent == t.accent
    &&& d.bg == t.bg
    &&& d.panel == t.panel
    &&& d.panel_2 == t.panel_2
    &&& d.ink == t.ink
    &&& d.muted == t.muted
    &&& d.read == t.read
    &&& d.reading == t.reading
    &&& d.wish == t.wish
}

fn theme_to_dto(t: &LibraryTheme) -> (r: LibraryThemeDto)
    ensures
        shows_theme(r, *t),
{
    LibraryThemeDto {
        accent: copy_opt(&t.accent),
        bg: copy_opt(&t.bg),
        panel: copy_opt(&t.panel),
        panel_2: copy_opt(&t.panel_2),
        ink: copy_opt(&t.ink),
        muted: copy_opt(&t.muted),
        read: copy_opt(&t.read),
        reading: copy_opt(&t.reading),
        wish: copy_opt(&t.wish),
    }
}

/// The colours that were edited.
pub fn theme_dto_to_config(d: &LibraryThemeDto) -> (r: LibraryTheme)
    ensures
        shows_theme(*d, r),
{
    LibraryTheme {
        accent: copy_opt(&d.accent),
        bg: copy_opt(&d.bg),
        panel: copy_opt(&d.panel),
        panel_2: copy_opt(&d.panel_2),
        ink: copy_opt(&d.ink),
        muted: copy_opt(&d.muted),
        read: copy_opt(&d.read),
        reading: copy_opt(&d.reading),
        wish: copy_opt(&d.wish),
    }
}

/// Whether `d` shows `w`.
pub open spec fn shows_webdav(d: WebDavDto, w: WebDavConfig) -> bool {
    &&& d.enabled == w.enabled
    &&& d.url@ == w.url@
    &&& d.username@ == w.username@
    &&& d.password@ == w.password@
    &&& d.remote_dir@ == w.remote_dir@
}

/// Whether `w` is what was edited in `d`: without white space around it, but for the
/// password.
pub open spec fn keeps_webdav(d: WebDavDto, w: WebDavConfig) -> bool {
    &&& w.enabled == d.enabled
    &&& w.url@ == trim(d.url@)
    &&& w.username@ == trim(d.username@)
    &&& w.password@ == d.password@
    &&& w.remote_dir@ == trim(d.remote_dir@)
}

impl WebDavDto {
    /// What was edited: without white space around it, but for the password.
    pub fn to_config(&self) -> (r: WebDavConfig)
        ensures
            keeps_webdav(*self, r),
    {
        WebDavConfig {
            enabled: self.enabled,
            url: trimmed(&self.url),
            username: trimmed(&self.username),
            password: self.password.as_str().to_owned(),
            remote_dir: trimmed(&self.remote_dir),
        }
    }

    pub fn from_config(w: &WebDavConfig) -> (r: WebDavDto)
        ensures
            shows_webdav(r, *w),
    {
        WebDavDto {
            enabled: w.enabled,
            url: w.url.as_str().to_owned(),
            username: w.username.as_str().to_owned(),
            password: w.password.as_str().to_owned(),
            remote_dir: w.remote_dir.as_str().to_owned(),
        }
    }
}

/// Whether `d` shows `l`.
pub open spec fn shows_library(d: LibraryDto, l: LibraryConfig) -> bool {
    &&& d.id@ == l.id@
    &&& d.name@ == l.name@
    &&& d.title@ == l.title@
    &&& d.path@ == l.path@
    &&& shows_theme(d.theme, l.theme)
    &&& d.default_tags@ == l.default_tags@
    &&& shows_webdav(d.webdav, l.webdav)
}

/// A library as it is shown.
pub fn library_to_dto(l: &LibraryConfig) -> (r: LibraryDto)
    ensures
        shows_library(r, *l),
{
    LibraryDto {
        id: l.id.as_str().to_owned(),
        name: l.name.as_str().to_owned(),
        title: l.title.as_str().to_owned(),
        path: l.path.as_str().to_owned(),
        theme: theme_to_dto(&l.theme),
        default_tags: clone_strings(&l.default_tags),
        webdav: WebDavDto::from_config(&l.webdav),
    }
}

/// Whether `v` shows the libraries.
pub open spec fn shows_libraries(v: Seq<LibraryDto>, libs: Seq<LibraryConfig>) -> bool {
    v.len() == libs.len() && forall|i: int|
        0 <= i < v.len() ==> shows_library(#[trigger] v[i], libs[i])
}

/// The libraries as they are shown.
pub fn libraries_to_dto(libs: &Vec<LibraryConfig>) -> (r: Vec<LibraryDto>)
    ensures
        shows_libraries(r@, libs@),
{
    let mut out: Vec<LibraryDto> = Vec::new();
    let mut i: usize = 0;
    while i < libs.len()
        invariant
            i <= libs@.len(),
            out@.len() == i,
            forall|k: int| 0 <= k < i ==> shows_library(#[trigger] out@[k], libs@[k]),
        decreases libs@.len() - i,
    {
        out.push(library_to_dto(&libs[i]));
        i += 1;
    }
    out
}

/// Where the covers are: where that is set, else in the library in use, where there is one.
pub open spec fn covers_place(cfg: AppConfig) -> Option<Seq<char>> {
    match cfg.covers_path {
        Some(p) => Some(p@),
        None => match current_at(cfg.libraries@, opt_str(cfg.current_library)) {
            Some(i) => Some(path_in(cfg.libraries@[i].path@, "covers"@)),
            None => match cfg.library_path {
                Some(p) => Some(path_in(p@, "covers"@)),
                None => None,
            },
        },
    }
}

/// The configuration as it is shown.
pub fn get_config(cfg: &AppConfig) -> (r: ConfigDto)
    ensures
        r.library_path == cfg.library_path,
        opt_str(r.covers_dir) == covers_place(*cfg),
        shows_libraries(r.libraries@, cfg.libraries@),
        r.current_library == cfg.current_library,
        strs(r.default_tags@) == (match current_at(cfg.libraries@, opt_str(cfg.current_library)) {
            Some(i) => fixed_tags(strs(cfg.libraries@[i].default_tags@)),
            None => fixed_tags(Seq::empty()),
        }),
{
    let covers_dir = match &cfg.covers_path {
        Some(p) => Some(p.as_str().to_owned()),
        None => match cfg.require_library_path() {
            Ok(lib) => Some(cfg.covers_dir(&lib)),
            Err(_) => None,
        },
    };
    ConfigDto {
        library_path: copy_opt(&cfg.library_path),
        covers_dir,
        libraries: libraries_to_dto(&cfg.libraries),
        current_library: copy_opt(&cfg.current_library),
        default_tags: cfg.default_tags(),
    }
}

// ---- editing ----

/// The fixed tags of a library that were edited: tidied, and the tag of the genre where
/// none is left.
pub fn normalize_default_tags(tags: &Option<Vec<String>>) -> (r: Vec<String>)
    ensures
        strs(r@) == fixed_tags(
            match *tags {
                Some(v) => strs(v@),
                None => Seq::empty(),
            },
        ),
{
    match tags {
        Some(v) => fixed_tag_list(v),
        None => {
            let none: Vec<String> = Vec::new();
            assert(strs(none@) =~= Seq::<Seq<char>>::empty());
            fixed_tag_list(&none)
        },
    }
}

/// Whether a library but the one with the id `except` has the name, in upper or lower case.
pub open spec fn name_taken(libs: Seq<LibraryConfig>, name: Seq<char>, except: Option<Seq<char>>) -> bool {
    exists|i: int|
        0 <= i < libs.len() && except != Some(libs[i].id@) && ascii_lower_all(
            (#[trigger] libs[i]).name@,
        ) == ascii_lower_all(name)
}

/// Why a library may not have a name.
pub open spec fn name_refusal(
    libs: Seq<LibraryConfig>,
    name: Seq<char>,
    except: Option<Seq<char>>,
) -> Option<Seq<char>> {
    if !is_library_name(name) {
        Some("书库名只能使用大小写字母、数字和下划线，且不能为空（≤64 字符）"@)
    } else if name_taken(libs, name, except) {
        Some("书库名「"@ + name + "」已存在（与大小写写法无关），请换一个"@)
    } else {
        None
    }
}

/// Checks that a library may have a name.
pub fn validate_library_name(cfg: &AppConfig, name: &str, except: Option<&str>) -> (r: Result<
    (),
    String,
>)
    ensures
        match r {
            Ok(_) => name_refusal(cfg.libraries@, name@, opt_view(except)) is None,
            Err(e) => name_refusal(cfg.libraries@, name@, opt_view(except)) == Some(e@),
        },
{
    if !is_valid_library_name(name) {
        return Err("书库名只能使用大小写字母、数字和下划线，且不能为空（≤64 字符）".to_owned());
    }
    if cfg.library_name_taken(name, except) {
        proof {
            let i = choose|i: int|
                0 <= i < cfg.libraries@.len() && (except is None || except->0@
                    != cfg.libraries@[i].id@) && ascii_lower_all(
                    (#[trigger] cfg.libraries@[i]).name@,
                ) == ascii_lower_all(name@);
            assert(opt_view(except) != Some(cfg.libraries@[i].id@));
        }
        return Err("书库名「".to_owned().concat(name).concat("」已存在（与大小写写法无关），请换一个"));
    }
    proof {
        if name_taken(cfg.libraries@, name@, opt_view(except)) {
            let i = choose|i: int|
                0 <= i < cfg.libraries@.len() && opt_view(except) != Some(
                    cfg.libraries@[i].id@,
                ) && ascii_lower_all((#[trigger] cfg.libraries@[i]).name@) == ascii_lower_all(
                    name@,
                );
            assert(except is None || except->0@ != cfg.libraries@[i].id@);
        }
    }
    Ok(())
}

/// Why a library may not have a title, a place and a name.
pub open spec fn library_refusal(
    libs: Seq<LibraryConfig>,
    name: Seq<char>,
    title: Seq<char>,
    path: Seq<char>,
    except: Option<Seq<char>>,
) -> Option<Seq<char>> {
    if is_blank(title) {
        Some("书库名称不能为空"@)
    } else if is_blank(path) {
        Some("书库路径不能为空"@)
    } else {
        name_refusal(libs, trim(name), except)
    }
}

fn check_library(cfg: &AppConfig, name: &str, title: &str, path: &str, except: Option<&str>) -> (r: Result<
    (),
    String,
>)
    ensures
        match r {
            Ok(_) => library_refusal(
                cfg.libraries@,
                name@,
                title@,
                path@,
                opt_view(except),
            ) is None,
            Err(e) => library_refusal(
                cfg.libraries@,
                name@,
                title@,
                path@,
                opt_view(except),
            ) == Some(e@),
        },
{
    if blank(title) {
        return Err("书库名称不能为空".to_owned());
    }
    if blank(path) {
        return Err("书库路径不能为空".to_owned());
    }
    validate_library_name(cfg, &trimmed(name), except)
}

/// The names of the libraries are legal and differ, whatever their case.
pub open spec fn names_are_kept(libs: Seq<LibraryConfig>) -> bool {
    &&& forall|i: int| 0 <= i < libs.len() ==> is_library_name((#[trigger] libs[i]).name@)
    &&& forall|i: int, j: int|
        0 <= i < j < libs.len() ==> ascii_lower_all((#[trigger] libs[i]).name@)
            != ascii_lower_all((#[trigger] libs[j]).name@)
}

/// The ids of the libraries differ.
pub open spec fn ids_differ(libs: Seq<LibraryConfig>) -> bool {
    forall|i: int, j: int|
        0 <= i < j < libs.len() ==> (#[trigger] libs[i]).id@ != (#[trigger] libs[j]).id@
}

/// The configuration but for the libraries and which of them is in use.
pub open spec fn same_elsewhere(a: AppConfig, b: AppConfig) -> bool {
    &&& a.library_path == b.library_path
    &&& a.covers_path == b.covers_path
    &&& a.database_path == b.database_path
    &&& a.llm == b.llm
}

/// A new library.
#[derive(Debug)]
pub struct NewLibrary {
    pub name: String,
    pub title: String,
    pub path: String,
    pub theme: Option<LibraryThemeDto>,
    pub default_tags: Option<Vec<String>>,
    pub webdav: Option<WebDavDto>,
}

/// Whether `l` is the library that was asked for, as number `n`, at the second `now`.
pub open spec fn library_made(l: LibraryConfig, asked: NewLibrary, now: nat, n: nat) -> bool {
    &&& l.id@ == "lib-"@ + dec(now) + "-"@ + dec(n)
    &&& l.name@ == trim(asked.name@)
    &&& l.title@ == trim(asked.title@)
    &&& l.path@ == trim(asked.path@)
    &&& match asked.theme {
        Some(t) => shows_theme(t, l.theme),
        None => l.theme.is_plain(),
    }
    &&& strs(l.default_tags@) == fixed_tags(
        match asked.default_tags {
            Some(v) => strs(v@),
            None => Seq::empty(),
        },
    )
    &&& match asked.webdav {
        Some(w) => keeps_webdav(w, l.webdav),
        None => !l.webdav.enabled && l.webdav.url@.len() == 0 && l.webdav.username@.len() == 0
            && l.webdav.password@.len() == 0 && l.webdav.remote_dir@.len() == 0,
    }
}

/// Whether `l` is the library `before` as it was edited.
pub open spec fn library_edited(before: LibraryConfig, l: LibraryConfig, d: LibraryDto) -> bool {
    &&& l.id == before.id
    &&& l.name@ == trim(d.name@)
    &&& l.title@ == trim(d.title@)
    &&& l.path@ == trim(d.path@)
    &&& shows_theme(d.theme, l.theme)
    &&& strs(l.default_tags@) == fixed_tags(strs(d.default_tags@))
    &&& keeps_webdav(d.webdav, l.webdav)
}

/// Whether `after` is `before` with the library at `k` edited.
pub open spec fn one_library_edited(
    before: Seq<LibraryConfig>,
    after: Seq<LibraryConfig>,
    k: int,
    d: LibraryDto,
) -> bool {
    &&& 0 <= k < before.len()
    &&& after.len() == before.len()
    &&& library_edited(before[k], after[k], d)
    &&& forall|i: int| 0 <= i < before.len() && i != k ==> #[trigger] after[i] == before[i]
}

/// The id of the first library.
pub open spec fn first_id(libs: Seq<LibraryConfig>) -> Option<Seq<char>> {
    if libs.len() > 0 {
        Some(libs[0].id@)
    } else {
        None
    }
}

impl AppConfig {
    /// Where the library with the id stands first.
    pub fn library_index(&self, id: &str) -> (r: Option<usize>)
        ensures
            match r {
                Some(k) => k < self.libraries@.len() && self.libraries@[k as int].id@ == id@
                    && library_at(self.libraries@, Some(id@)) == Some(k as int),
                None => library_at(self.libraries@, Some(id@)) is None && forall|i: int|
                    0 <= i < self.libraries@.len() ==> (#[trigger] self.libraries@[i]).id@ != id@,
            },
    {
        let mut i: usize = 0;
        assert(self.libraries@.skip(0) =~= self.libraries@);
        while i < self.libraries.len()
            invariant
                i <= self.libraries@.len(),
                forall|j: int| 0 <= j < i ==> (#[trigger] self.libraries@[j]).id@ != id@,
                library_at(self.libraries@, Some(id@)) == (match library_at(
                    self.libraries@.skip(i as int),
                    Some(id@),
                ) {
                    Some(j) => Some(i + j),
                    None => None,
                }),
            decreases self.libraries@.len() - i,
        {
            let ghost rest = self.libraries@.skip(i as int);
            assert(rest[0] == self.libraries@[i as int]);
            assert(rest.drop_first() =~= self.libraries@.skip(i + 1));
            if same(&self.libraries[i].id, id) {
                return Some(i);
            }
            i += 1;
        }
        None
    }

    fn first_library_id(&self) -> (r: Option<String>)
        ensures
            opt_str(r) == first_id(self.libraries@),
    {
        if self.libraries.len() > 0 {
            Some(self.libraries[0].id.as_str().to_owned())
        } else {
            None
        }
    }

    /// Adds a library; the first one is the one in use. Names that were legal and differed
    /// still do.
    pub fn add_library(&mut self, asked: &NewLibrary, now: u64) -> (r: Result<(), String>)
        requires
            old(self).libraries@.len() < u64::MAX,
        ensures
            match r {
                Ok(_) => {
                    let libs = final(self).libraries@;
                    &&& library_refusal(
                        old(self).libraries@,
                        asked.name@,
                        asked.title@,
                        asked.path@,
                        None,
                    ) is None
                    &&& libs.len() == old(self).libraries@.len() + 1
                    &&& libs.drop_last() == old(self).libraries@
                    &&& library_made(libs.last(), *asked, now as nat, libs.len())
                    &&& opt_str(final(self).current_library) == (
                    match old(self).current_library {
                        Some(c) => Some(c@),
                        None => first_id(libs),
                    })
                    &&& same_elsewhere(*final(self), *old(self))
                },
                Err(e) => library_refusal(
                    old(self).libraries@,
                    asked.name@,
                    asked.title@,
                    asked.path@,
                    None,
                ) == Some(e@) && *final(self) == *old(self),
            },
            names_are_kept(old(self).libraries@) ==> names_are_kept(final(self).libraries@),
    {
        match check_library(self, &asked.name, &asked.title, &asked.path, None) {
            Ok(_) => {},
            Err(e) => {
                return Err(e);
            },
        }
        let ghost before = self.libraries@;
        let theme = match &asked.theme {
            Some(t) => theme_dto_to_config(t),
            None => LibraryTheme::default(),
        };
        let webdav = match &asked.webdav {
            Some(w) => w.to_config(),
            None => WebDavConfig::default(),
        };
        let lib = LibraryConfig {
            id: "lib-".to_owned().concat(&dec_u64(now)).concat("-").concat(
                &dec_u64(self.libraries.len() as u64 + 1),
            ),
            name: trimmed(&asked.name),
            title: trimmed(&asked.title),
            path: trimmed(&asked.path),
            theme,
            default_tags: normalize_default_tags(&asked.default_tags),
            webdav,
        };
        self.libraries.push(lib);
        match self.current_library {
            Some(_) => {},
            None => {
                self.current_library = self.first_library_id();
            },
        }
        proof {
            assert(self.libraries@.drop_last() =~= before);
            if names_are_kept(before) {
                let libs = self.libraries@;
                assert forall|i: int, j: int| 0 <= i < j < libs.len() implies ascii_lower_all(
                    (#[trigger] libs[i]).name@,
                ) != ascii_lower_all((#[trigger] libs[j]).name@) by {
                    if j == before.len() {
                        assert(libs[i] == before[i]);
                    }
                }
            }
        }
        Ok(())
    }

    /// Keeps a library as it was edited. Names that were legal and differed still do.
    pub fn save_library(&mut self, d: &LibraryDto) -> (r: Result<(), String>)
        ensures
            match r {
                Ok(_) => {
                    &&& library_refusal(
                        old(self).libraries@,
                        d.name@,
                        d.title@,
                        d.path@,
                        Some(d.id@),
                    ) is None
                    &&& library_at(old(self).libraries@, Some(d.id@)) matches Some(k)
                        && one_library_edited(old(self).libraries@, final(self).libraries@, k, *d)
                    &&& final(self).current_library == old(self).current_library
                    &&& same_elsewhere(*final(self), *old(self))
                },
                Err(e) => {
                    &&& match library_refusal(
                        old(self).libraries@,
                        d.name@,
                        d.title@,
                        d.path@,
                        Some(d.id@),
                    ) {
                        Some(t) => e@ == t,
                        None => library_at(old(self).libraries@, Some(d.id@)) is None && e@
                            == "书库不存在"@,
                    }
                    &&& *final(self) == *old(self)
                },
            },
            names_are_kept(old(self).libraries@) && ids_differ(old(self).libraries@)
                ==> names_are_kept(final(self).libraries@),
            ids_differ(old(self).libraries@) ==> ids_differ(final(self).libraries@),
    {
        match check_library(self, &d.name, &d.title, &d.path, Some(d.id.as_str())) {
            Ok(_) => {},
            Err(e) => {
                return Err(e);
            },
        }
        let ghost before = self.libraries@;
        match self.library_index(&d.id) {
            Some(k) => {
                let edited = LibraryConfig {
                    id: self.libraries[k].id.clone(),
                    name: trimmed(&d.name),
                    title: trimmed(&d.title),
                    path: trimmed(&d.path),
                    theme: theme_dto_to_config(&d.theme),
                    default_tags: fixed_tag_list(&d.default_tags),
                    webdav: d.webdav.to_config(),
                };
                self.libraries.set(k, edited);
                proof {
                    let libs = self.libraries@;
                    assert forall|i: int| 0 <= i < libs.len() && i != k implies libs[i]
                        == before[i] by {}
                    if ids_differ(before) {
                        assert forall|i: int, j: int| 0 <= i < j < libs.len() implies (
                        #[trigger] libs[i]).id@ != (#[trigger] libs[j]).id@ by {
                            assert(before[i].id@ != before[j].id@);
                        }
                    }
                    if names_are_kept(before) && ids_differ(before) {
                        assert forall|i: int, j: int| 0 <= i < j < libs.len() implies ascii_lower_all(
                            (#[trigger] libs[i]).name@,
                        ) != ascii_lower_all((#[trigger] libs[j]).name@) by {
                            assert(before[i].id@ != before[j].id@);
                            assert(ascii_lower_all(before[i].name@) != ascii_lower_all(
                                before[j].name@,
                            ));
                        }
                    }
                }
                Ok(())
            },
            None => Err("书库不存在".to_owned()),
        }
    }

    /// Takes a library out, but never the last one. Where it was in use, the first one is.
    pub fn delete_library(&mut self, id: &str) -> (r: Result<(), String>)
        ensures
            match r {
                Ok(_) => {
                    let libs = final(self).libraries@;
                    &&& old(self).libraries@.len() > 1
                    &&& libs == old(self).libraries@.filter(|l: LibraryConfig| l.id@ != id@)
                    &&& opt_str(final(self).current_library) == (if opt_str(
                        old(self).current_library,
                    ) == Some(id@) {
                        first_id(libs)
                    } else {
                        opt_str(old(self).current_library)
                    })
                    &&& same_elsewhere(*final(self), *old(self))
                },
                Err(e) => {
                    &&& old(self).libraries@.len() <= 1
                    &&& e@ == "至少保留一个书库，无法删除"@
                    &&& *final(self) == *old(self)
                },
            },
    {
        if self.libraries.len() <= 1 {
            return Err("至少保留一个书库，无法删除".to_owned());
        }
        let ghost all = self.libraries@;
        let ghost f = |l: LibraryConfig| l.id@ != id@;
        let n: usize = self.libraries.len();
        let mut kept: Vec<LibraryConfig> = Vec::new();
        let mut i: usize = 0;
        proof {
            filter_none(all, f);
            assert(self.libraries@ =~= all.skip(0));
        }
        while i < n
            invariant
                i <= n,
                n == all.len(),
                f == (|l: LibraryConfig| l.id@ != id@),
                self.libraries@ == all.skip(i as int),
                kept@ == all.take(i as int).filter(f),
                same_elsewhere(*self, *old(self)),
                self.current_library == old(self).current_library,
            decreases n - i,
        {
            proof {
                filter_step(all, i as int, f);
                assert(self.libraries@[0] == all[i as int]);
            }
            let l = self.libraries.remove(0);
            assert(self.libraries@ =~= all.skip(i + 1));
            if !same(&l.id, id) {
                kept.push(l);
            }
            i += 1;
        }
        assert(all.take(n as int) =~= all);
        self.libraries = kept;
        let gone = match &self.current_library {
            Some(c) => same(c, id),
            None => false,
        };
        if gone {
            self.current_library = self.first_library_id();
        }
        Ok(())
    }

    /// Uses another library.
    pub fn switch_library(&mut self, id: &str) -> (r: Result<String, String>)
        ensures
            match r {
                Ok(c) => {
                    &&& c@ == id@
                    &&& library_at(old(self).libraries@, Some(id@)) is Some
                    &&& opt_str(final(self).current_library) == Some(id@)
                    &&& final(self).libraries == old(self).libraries
                    &&& same_elsewhere(*final(self), *old(self))
                },
                Err(e) => {
                    &&& library_at(old(self).libraries@, Some(id@)) is None
                    &&& e@ == "书库不存在"@
                    &&& *final(self) == *old(self)
                },
            },
    {
        match self.library_index(id) {
            Some(_) => {
                self.current_library = Some(id.to_owned());
                Ok(id.to_owned())
            },
            None => Err("书库不存在".to_owned()),
        }
    }

    /// Moves a library to another place. Answers where it was, or nothing where it is there
    /// already, however the place is written.
    pub fn change_library_path(&mut self, id: &str, new_path: &str) -> (r: Result<
        Option<String>,
        String,
    >)
        ensures
            match r {
                Ok(Some(was)) => {
                    &&& !is_blank(new_path@)
                    &&& library_at(old(self).libraries@, Some(id@)) matches Some(k) && {
                        let before = old(self).libraries@;
                        &&& was@ == before[k].path@
                        &&& !same_parts(was@, trim(new_path@))
                        &&& final(self).libraries@.len() == before.len()
                        &&& final(self).libraries@[k].path@ == trim(new_path@)
                        &&& final(self).libraries@ == before.update(
                            k,
                            (LibraryConfig { path: final(self).libraries@[k].path, ..before[k] }),
                        )
                    }
                    &&& final(self).current_library == old(self).current_library
                    &&& same_elsewhere(*final(self), *old(self))
                },
                Ok(None) => {
                    &&& !is_blank(new_path@)
                    &&& library_at(old(self).libraries@, Some(id@)) matches Some(k)
                        && same_parts(old(self).libraries@[k].path@, trim(new_path@))
                    &&& *final(self) == *old(self)
                },
                Err(e) => {
                    &&& *final(self) == *old(self)
                    &&& if is_blank(new_path@) {
                        e@ == "路径不能为空"@
                    } else {
                        library_at(old(self).libraries@, Some(id@)) is None && e@ == "书库不存在"@
                    }
                },
            },
    {
        if blank(new_path) {
            return Err("路径不能为空".to_owned());
        }
        let path = trimmed(new_path);
        match self.library_index(id) {
            Some(k) => {
                let was = self.libraries[k].path.as_str().to_owned();
                if same_path(&was, &path) {
                    return Ok(None);
                }
                let ghost before = self.libraries@;
                self.libraries[k].path = path;
                proof {
                    assert(self.libraries@ =~= before.update(
                        k as int,
                        LibraryConfig { path: self.libraries@[k as int].path, ..before[k as int] },
                    ));
                }
                Ok(Some(was))
            },
            None => Err("书库不存在".to_owned()),
        }
    }

    /// The library that may be synchronised: the one in use, and no other.
    pub fn library_to_sync(&self, id: &str) -> (r: Result<usize, String>)
        ensures
            match r {
                Ok(k) => {
                    &&& k < self.libraries@.len()
                    &&& library_at(self.libraries@, Some(id@)) == Some(k as int)
                    &&& opt_str(self.current_library) == Some(id@)
                },
                Err(e) => if library_at(self.libraries@, Some(id@)) is None {
                    e@ == "书库不存在"@
                } else {
                    opt_str(self.current_library) != Some(id@) && e@
                        == "仅允许同步当前书库（请先在设置中切换到该书库）"@
                },
            },
    {
        match self.library_index(id) {
            Some(k) => {
                let used = match &self.current_library {
                    Some(c) => same(c, id),
                    None => false,
                };
                if used {
                    Ok(k)
                } else {
                    Err("仅允许同步当前书库（请先在设置中切换到该书库）".to_owned())
                }
            },
            None => Err("书库不存在".to_owned()),
        }
    }
}

/// Deleting a library from among at least two with different ids leaves one, and none with
/// its id.
pub proof fn a_library_is_left(libs: Seq<LibraryConfig>, id: Seq<char>)
    requires
        libs.len() > 1,
        ids_differ(libs),
    ensures
        ({
            let left = libs.filter(|l: LibraryConfig| l.id@ != id);
            &&& left.len() > 0
            &&& forall|i: int| 0 <= i < left.len() ==> (#[trigger] left[i]).id@ != id
        }),
{
    let f = |l: LibraryConfig| l.id@ != id;
    let left = libs.filter(f);
    filter_from(libs, f);
    assert(libs[0].id@ != libs[1].id@);
    let k: int = if libs[0].id@ != id {
        0
    } else {
        1
    };
    libs.lemma_filter_contains(f, k);
    assert(left.contains(libs[k]));
}

/// What is edited is what is shown afterwards: the title, the name, the place, the colours, the
/// fixed tags and the server, without the white space around them but for the password.
pub proof fn an_edited_library_shows_what_was_edited(
    before: LibraryConfig,
    l: LibraryConfig,
    d: LibraryDto,
    shown: LibraryDto,
)
    requires
        library_edited(before, l, d),
        shows_library(shown, l),
    ensures
        shown.id@ == before.id@,
        shown.name@ == trim(d.name@),
        shown.title@ == trim(d.title@),
        shown.path@ == trim(d.path@),
        shown.theme.accent == d.theme.accent && shown.theme.bg == d.theme.bg && shown.theme.panel
            == d.theme.panel && shown.theme.panel_2 == d.theme.panel_2 && shown.theme.ink
            == d.theme.ink && shown.theme.muted == d.theme.muted && shown.theme.read == d.theme.read
            && shown.theme.reading == d.theme.reading && shown.theme.wish == d.theme.wish,
        strs(shown.default_tags@) == fixed_tags(strs(d.default_tags@)),
        shown.webdav.enabled == d.webdav.enabled,
        shown.webdav.url@ == trim(d.webdav.url@),
        shown.webdav.username@ == trim(d.webdav.username@),
        shown.webdav.password@ == d.webdav.password@,
        shown.webdav.remote_dir@ == trim(d.webdav.remote_dir@),
{
}

/// A library that was asked for is shown with the name, the title, the place and the server that
/// were asked for.
pub proof fn a_new_library_shows_what_was_asked_for(
    l: LibraryConfig,
    asked: NewLibrary,
    now: nat,
    n: nat,
    shown: LibraryDto,
)
    requires
        library_made(l, asked, now, n),
        shows_library(shown, l),
    ensures
        shown.name@ == trim(asked.name@),
        shown.title@ == trim(asked.title@),
        shown.path@ == trim(asked.path@),
        asked.default_tags matches Some(v) ==> strs(shown.default_tags@) == fixed_tags(strs(v@)),
        asked.webdav matches Some(w) ==> shown.webdav.enabled == w.enabled && shown.webdav.url@
            == trim(w.url@) && shown.webdav.username@ == trim(w.username@)
            && shown.webdav.password@ == w.password@ && shown.webdav.remote_dir@ == trim(
            w.remote_dir@,
        ),
        asked.webdav is None ==> !shown.webdav.enabled && shown.webdav.url@.len() == 0,
        shown.id@ == "lib-"@ + dec(now) + "-"@ + dec(n),
{
}

/// A library is refused where its title or its place is blank, where its name is none, or where
/// another library has the name in small or capital letters; and for nothing else.
pub proof fn why_a_library_is_refused(
    libs: Seq<LibraryConfig>,
    name: Seq<char>,
    title: Seq<char>,
    path: Seq<char>,
    except: Option<Seq<char>>,
)
    ensures
        library_refusal(libs, name, title, path, except) is None <==> {
            &&& !is_blank(title)
            &&& !is_blank(path)
            &&& 0 < trim(name).len() <= 64
            &&& forall|i: int|
                0 <= i < trim(name).len() ==> {
                    let c = #[trigger] trim(name)[i];
                    'a' <= c && c <= 'z' || 'A' <= c && c <= 'Z' || '0' <= c && c <= '9' || c == '_'
                }
            &&& forall|i: int|
                0 <= i < libs.len() && Some((#[trigger] libs[i]).id@) != except
                    ==> ascii_lower_all(libs[i].name@) != ascii_lower_all(trim(name))
        },
        is_blank(title) ==> library_refusal(libs, name, title, path, except) == Some(
            "书库名称不能为空"@,
        ),
        !is_blank(title) && is_blank(path) ==> library_refusal(libs, name, title, path, except)
            == Some("书库路径不能为空"@),
{
}

/// Covers are kept where that is set, and else in the library that is in use.
pub proof fn where_covers_are_kept(cfg: AppConfig)
    ensures
        cfg.covers_path matches Some(p) ==> covers_place(cfg) == Some(p@),
        cfg.covers_path is None && cfg.libraries@.len() > 0 ==> exists|i: int|
            0 <= i < cfg.libraries@.len() && covers_place(cfg) == Some(
                path_in((#[trigger] cfg.libraries@[i]).path@, "covers"@),
            ) && (opt_str(cfg.current_library) == Some(cfg.libraries@[i].id@) || i == 0),
        cfg.covers_path is None && cfg.libraries@.len() == 0 ==> (match cfg.library_path {
            Some(p) => covers_place(cfg) == Some(path_in(p@, "covers"@)),
            None => covers_place(cfg) is None,
        }),
{
    the_chosen_library_is_in_use(cfg.libraries@, opt_str(cfg.current_library));
    match current_at(cfg.libraries@, opt_str(cfg.current_library)) {
        Some(i) => {
            assert(covers_place(cfg) == Some(path_in(cfg.libraries@[i].path@, "covers"@))
                || cfg.covers_path is Some);
        },
        None => {},
    }
}

} // verus!
