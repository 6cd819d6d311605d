//! The settings: libraries, their themes and synchronisation, and language models.
use vstd::prelude::*;
use vstd::string::*;

use crate::paths::{join_path, path_in};
use crate::utils::{tidied, tidy, tidy_keeps_what_is_not_blank};
use crate::text::{
    ascii_lower, ascii_lower_all, blank, chars_of, clone_opt, clone_strings, dec, dec_i64, dec_int,
    dec_u128, digit, digits_value, ends_stripped, find_chars, find_from, find_from_is_first,
    has_part, is_blank, is_digit, occurs_at, opt_str, parts_stand_in_the_whole, same, same_ignore_case, starts_with, string_of_range,
    strip_ends, stripped_is_part, strs, trim, trimmed,
};

verus! {

// ---- the directory of the data ----

/// Sets the data directory that stands in for the system's. The first call counts.
pub fn set_data_dir_override(chosen: &mut Option<String>, dir: String)
    ensures
        *final(chosen) == (match *old(chosen) {
            Some(d) => Some(d),
            None => Some(dir),
        }),
{
    if chosen.is_none() {
        *chosen = Some(dir);
    }
}

/// The data directory that stands in for the system's.
pub fn data_dir_override(chosen: &Option<String>) -> (r: Option<String>)
    ensures
        r == *chosen,
{
    clone_opt(chosen)
}

// ---- language models ----

/// A provider of language models.
#[derive(Debug)]
pub struct LlmProvider {
    /// The name by which it is chosen.
    pub name: String,
    /// The address of its interface.
    pub base_url: String,
    /// The key to its interface.
    pub api_key: String,
    /// Its models.
    pub models: Vec<String>,
}

/// The price of a model, in thousandths of a yuan for a million tokens.
#[derive(Debug)]
pub struct ModelPricing {
    pub model: String,
    pub input_per_m: u64,
    pub output_per_m: u64,
}

/// How often a failed call is made again where nothing is set.
pub const DEFAULT_LLM_RETRY: u32 = 2;

/// The settings of language models.
#[derive(Debug)]
pub struct LlmSettings {
    pub providers: Vec<LlmProvider>,
    /// The name of the provider to use.
    pub default_provider: Option<String>,
    /// The model to use; one of the provider's.
    pub default_model: Option<String>,
    /// How often a failed call is made again.
    pub retry_count: Option<u32>,
    /// After how many tokens calls are refused.
    pub budget_tokens: Option<i64>,
    /// Prices that go before the built-in ones.
    pub pricing: Vec<ModelPricing>,
    /// The address of the only provider, in an old file.
    pub base_url: Option<String>,
    /// The key of the only provider, in an old file.
    pub api_key: Option<String>,
    /// The models of the only provider, in an old file.
    pub models: Vec<String>,
}

impl Default for LlmSettings {
    fn default() -> (r: LlmSettings)
        ensures
            r.providers@.len() == 0,
            r.default_provider is None,
            r.default_model is None,
            r.retry_count is None,
            r.budget_tokens is None,
            r.pricing@.len() == 0,
            r.base_url is None,
            r.api_key is None,
            r.models@.len() == 0,
    {
        LlmSettings {
            providers: Vec::new(),
            default_provider: None,
            default_model: None,
            retry_count: None,
            budget_tokens: None,
            pricing: Vec::new(),
            base_url: None,
            api_key: None,
            models: Vec::new(),
        }
    }
}

/// The text that refuses a call once `budget` tokens are used up.
pub open spec fn budget_text(used: int, budget: int) -> Seq<char> {
    "Token 用量 "@ + dec_int(used) + " 已达到预算 "@ + dec_int(budget)
        + "（请在设置页调整预算或清零用量）"@
}

/// The models with a built-in price.
pub const GPT_4O: &'static str = "gpt-4o";

pub const GPT_4O_MINI: &'static str = "gpt-4o-mini";

/// The name of a model without that of its provider.
pub open spec fn bare_model(key: Seq<char>) -> Seq<char> {
    match find_from(key, "/"@, 0) {
        Some(i) => key.skip(i + 1),
        None => key,
    }
}

/// Where in `pricing` the price of `model` stands: at its full or its bare name.
pub open spec fn explicit_price(pricing: Seq<ModelPricing>, model: Seq<char>) -> Option<(u64, u64)>
    decreases pricing.len(),
{
    if pricing.len() == 0 {
        None
    } else if pricing[0].model@ == model || pricing[0].model@ == bare_model(model) {
        Some((pricing[0].input_per_m, pricing[0].output_per_m))
    } else {
        explicit_price(pricing.drop_first(), model)
    }
}

/// The built-in price of a model: that of the longest name which its own begins with.
pub open spec fn preset_price(bare: Seq<char>) -> Option<(u64, u64)> {
    if GPT_4O_MINI@.is_prefix_of(bare) {
        Some((1100, 4300))
    } else if GPT_4O@.is_prefix_of(bare) {
        Some((18000, 72000))
    } else {
        None
    }
}

fn bare_name(key: &str) -> (r: String)
    ensures
        r@ == bare_model(key@),
{
    let v = chars_of(key);
    let slash = chars_of("/");
    proof {
        reveal_strlit("/");
        find_from_is_first(key@, "/"@, 0);
    }
    match find_chars(&v, &slash, 0) {
        Some(i) => {
            assert(occurs_at(v@, slash@, i as int));
            assert(i + 1 <= v@.len());
            let _len: usize = v.len();
            assert(v@.skip(i + 1) =~= v@.subrange(i + 1, v@.len() as int));
            string_of_range(&v, i + 1, v.len())
        },
        None => key.to_owned(),
    }
}

impl LlmSettings {
    /// Whether some provider has a key.
    pub fn has_providers(&self) -> (r: bool)
        ensures
            r == exists|i: int|
                0 <= i < self.providers@.len() && !is_blank((#[trigger] self.providers@[i]).api_key@),
    {
        let mut i: usize = 0;
        while i < self.providers.len()
            invariant
                i <= self.providers@.len(),
                forall|j: int| 0 <= j < i ==> is_blank((#[trigger] self.providers@[j]).api_key@),
            decreases self.providers@.len() - i,
        {
            if !blank(&self.providers[i].api_key) {
                return true;
            }
            i += 1;
        }
        false
    }

    /// Why a call is refused after `used` tokens: the budget is set, is above zero and is
    /// reached.
    pub fn budget_error(&self, used: i64) -> (r: Option<String>)
        ensures
            match r {
                Some(m) => self.budget_tokens matches Some(b) && b > 0 && used >= b && m@
                    == budget_text(used as int, b as int),
                None => self.budget_tokens is None || self.budget_tokens->0 <= 0 || used
                    < self.budget_tokens->0,
            },
    {
        match self.budget_tokens {
            Some(b) => {
                if b > 0 && used >= b {
                    Some(
                        "Token 用量 ".to_owned().concat(&dec_i64(used)).concat(
                            " 已达到预算 ",
                        ).concat(&dec_i64(b)).concat("（请在设置页调整预算或清零用量）"),
                    )
                } else {
                    None
                }
            },
            None => None,
        }
    }

    /// The price of the input and of the output of a model, whether it is named with its
    /// provider or without: a price that is set, else a built-in one.
    pub fn price_for(&self, model: &str) -> (r: Option<(u64, u64)>)
        ensures
            r == (match explicit_price(self.pricing@, model@) {
                Some(p) => Some(p),
                None => preset_price(bare_model(model@)),
            }),
    {
        let bare = bare_name(model);
        let mut i: usize = 0;
        assert(self.pricing@.skip(0) =~= self.pricing@);
        while i < self.pricing.len()
            invariant
                i <= self.pricing@.len(),
                bare@ == bare_model(model@),
                explicit_price(self.pricing@, model@) == explicit_price(
                    self.pricing@.skip(i as int),
                    model@,
                ),
            decreases self.pricing@.len() - i,
        {
            assert(self.pricing@.skip(i as int)[0] == self.pricing@[i as int]);
            if same(&self.pricing[i].model, model) || same(&self.pricing[i].model, &bare) {
                return Some((self.pricing[i].input_per_m, self.pricing[i].output_per_m));
            }
            assert(self.pricing@.skip(i as int).drop_first() =~= self.pricing@.skip(i + 1));
            i += 1;
        }
        if starts_with(&bare, GPT_4O_MINI) {
            Some((1100, 4300))
        } else if starts_with(&bare, GPT_4O) {
            Some((18000, 72000))
        } else {
            None
        }
    }
}

// ---- libraries ----

/// The colours of a library; what is not set has a built-in value.
#[derive(Debug)]
pub struct LibraryTheme {
    pub accent: Option<String>,
    pub bg: Option<String>,
    pub panel: Option<String>,
    pub panel_2: Option<String>,
    pub ink: Option<String>,
    pub muted: Option<String>,
    pub read: Option<String>,
    pub reading: Option<String>,
    pub wish: Option<String>,
}

impl LibraryTheme {
    /// Whether nothing is set.
    pub open spec fn is_plain(self) -> bool {
        &&& self.accent is None
        &&& self.bg is None
        &&& self.panel is None
        &&& self.panel_2 is None
        &&& self.ink is None
        &&& self.muted is None
        &&& self.read is None
        &&& self.reading is None
        &&& self.wish is None
    }
}

impl Default for LibraryTheme {
    fn default() -> (r: LibraryTheme)
        ensures
            r.is_plain(),
    {
        LibraryTheme {
            accent: None,
            bg: None,
            panel: None,
            panel_2: None,
            ink: None,
            muted: None,
            read: None,
            reading: None,
            wish: None,
        }
    }
}

/// How a library is synchronised.
#[derive(Debug)]
pub struct WebDavConfig {
    pub enabled: bool,
    /// The address of the server.
    pub url: String,
    pub username: String,
    pub password: String,
    /// The directory on the server; several levels are separated by slashes.
    pub remote_dir: String,
}

impl Default for WebDavConfig {
    fn default() -> (r: WebDavConfig)
        ensures
            !r.enabled,
            r.url@.len() == 0,
            r.username@.len() == 0,
            r.password@.len() == 0,
            r.remote_dir@.len() == 0,
    {
        WebDavConfig {
            enabled: false,
            url: String::new(),
            username: String::new(),
            password: String::new(),
            remote_dir: String::new(),
        }
    }
}

impl WebDavConfig {
    /// Whether the library can be synchronised: it is switched on and has an address.
    pub fn is_ready(&self) -> (r: bool)
        ensures
            r == (self.enabled && !is_blank(self.url@)),
    {
        self.enabled && !blank(&self.url)
    }
}

/// A library.
#[derive(Debug)]
pub struct LibraryConfig {
    pub id: String,
    /// The name, of letters, digits and underscores; the directory on the server.
    pub name: String,
    pub title: String,
    pub path: String,
    pub theme: LibraryTheme,
    /// The tags that every book of the library gets.
    pub default_tags: Vec<String>,
    pub webdav: WebDavConfig,
}

/// Whether `c` may be in the name of a library.
pub open spec fn is_name_char(c: char) -> bool {
    'a' <= c <= 'z' || 'A' <= c <= 'Z' || '0' <= c <= '9' || c == '_'
}

/// Whether every character may be in the name of a library.
pub open spec fn all_name_chars(s: Seq<char>) -> bool {
    forall|i: int| 0 <= i < s.len() ==> is_name_char(#[trigger] s[i])
}

/// How many characters the name of a library has at most.
pub const NAME_MAX: usize = 64;

/// Whether `s` is a name for a library.
pub open spec fn is_library_name(s: Seq<char>) -> bool {
    0 < s.len() <= NAME_MAX && all_name_chars(s)
}

fn name_char(c: char) -> (r: bool)
    ensures
        r == is_name_char(c),
{
    ('a' <= c && c <= 'z') || ('A' <= c && c <= 'Z') || ('0' <= c && c <= '9') || c == '_'
}

/// Whether `s` is a name for a library: letters, digits and underscores, at least one and
/// at most 64.
pub fn is_valid_library_name(s: &str) -> (r: bool)
    ensures
        r == is_library_name(s@),
{
    let v = chars_of(s);
    if v.len() == 0 || v.len() > NAME_MAX {
        return false;
    }
    let mut i: usize = 0;
    while i < v.len()
        invariant
            i <= v@.len(),
            v@ == s@,
            forall|j: int| 0 <= j < i ==> is_name_char(#[trigger] v@[j]),
        decreases v@.len() - i,
    {
        if !name_char(v[i]) {
            assert(!is_name_char(s@[i as int]));
            return false;
        }
        i += 1;
    }
    true
}

/// The settings.
#[derive(Debug)]
pub struct AppConfig {
    /// The only library, in an old file.
    pub library_path: Option<String>,
    /// Where covers are kept.
    pub covers_path: Option<String>,
    pub database_path: Option<String>,
    pub llm: LlmSettings,
    pub libraries: Vec<LibraryConfig>,
    /// The id of the library in use.
    pub current_library: Option<String>,
}

impl Default for AppConfig {
    fn default() -> (r: AppConfig)
        ensures
            r.library_path is None,
            r.covers_path is None,
            r.database_path is None,
            r.llm.providers@.len() == 0,
            r.libraries@.len() == 0,
            r.current_library is None,
    {
        AppConfig {
            library_path: None,
            covers_path: None,
            database_path: None,
            llm: LlmSettings::default(),
            libraries: Vec::new(),
            current_library: None,
        }
    }
}

/// Where the library with the id `id` stands first.
pub open spec fn library_at(libs: Seq<LibraryConfig>, id: Option<Seq<char>>) -> Option<int>
    decreases libs.len(),
{
    if libs.len() == 0 {
        None
    } else if id == Some(libs[0].id@) {
        Some(0)
    } else {
        match library_at(libs.drop_first(), id) {
            Some(i) => Some(i + 1),
            None => None,
        }
    }
}

/// Where the library in use stands: the one that is chosen, else the first.
pub open spec fn current_at(libs: Seq<LibraryConfig>, id: Option<Seq<char>>) -> Option<int> {
    match library_at(libs, id) {
        Some(i) => Some(i),
        None => if libs.len() > 0 {
            Some(0)
        } else {
            None
        },
    }
}

/// The fixed tags that a list stands for: its tidied values, or the tag of the genre.
pub open spec fn fixed_tags(v: Seq<Seq<char>>) -> Seq<Seq<char>> {
    if tidy(v).len() == 0 {
        seq!["推理小说"@]
    } else {
        tidy(v)
    }
}

/// The fixed tags that a list stands for: its tidied values, or the tag of the genre.
pub fn fixed_tag_list(v: &Vec<String>) -> (r: Vec<String>)
    ensures
        strs(r@) == fixed_tags(strs(v@)),
{
    let tags = tidied(v);
    assert(strs(tags@).len() == tags@.len());
    if tags.len() == 0 {
        let mut one: Vec<String> = Vec::new();
        one.push("推理小说".to_owned());
        assert(strs(one@) =~= seq!["推理小说"@]);
        one
    } else {
        tags
    }
}

// ---- names of libraries ----

/// The id of a library with underscores in place of what no name has.
pub open spec fn name_chars_of(id: Seq<char>) -> Seq<char> {
    id.map_values(
        |c: char|
            if is_name_char(c) {
                c
            } else {
                '_'
            },
    )
}

/// The first characters of a name, at most `n`.
pub open spec fn cut_name(s: Seq<char>, n: int) -> Seq<char> {
    if s.len() <= n {
        s
    } else {
        s.take(n)
    }
}

/// The name that is made of an id.
pub open spec fn derived_name(id: Seq<char>) -> Seq<char> {
    let d = strip_ends(name_chars_of(id), '_');
    if d.len() == 0 {
        "lib"@
    } else {
        cut_name(d, NAME_MAX as int)
    }
}

/// The name that a library wants: its own where it has one, else one made of its id.
pub open spec fn wanted_name(lib: LibraryConfig) -> Seq<char> {
    if is_library_name(trim(lib.name@)) {
        trim(lib.name@)
    } else {
        derived_name(lib.id@)
    }
}

/// The `n`th name to try: the wanted one, then with 2, 3 and so on behind it, cut where it
/// would be too long.
pub open spec fn numbered(wanted: Seq<char>, n: nat) -> Seq<char> {
    if n <= 1 {
        wanted
    } else {
        cut_name(wanted, NAME_MAX - 1 - dec(n).len()) + "_"@ + dec(n)
    }
}

/// Whether `name` is among the first `k` names, in any case.
pub open spec fn is_used(libs: Seq<LibraryConfig>, k: int, name: Seq<char>) -> bool {
    exists|i: int|
        0 <= i < k && ascii_lower_all((#[trigger] libs[i]).name@) == ascii_lower_all(name)
}

/// Whether library `k` has the first name of those to try that no library before it has.
pub open spec fn has_first_free_name(
    libs: Seq<LibraryConfig>,
    k: int,
    wanted: Seq<char>,
) -> bool {
    exists|n: nat|
        1 <= n <= u128::MAX && libs[k].name@ == #[trigger] numbered(wanted, n) && !is_used(
            libs,
            k,
            numbered(wanted, n),
        ) && (forall|m: nat| 1 <= m < n ==> is_used(libs, k, #[trigger] numbered(wanted, m)))
}

/// Whether `new` is `old` with its names made unique.
pub open spec fn names_made(old_libs: Seq<LibraryConfig>, new: Seq<LibraryConfig>) -> bool {
    &&& new.len() == old_libs.len()
    &&& forall|i: int|
        0 <= i < new.len() ==> {
            &&& (#[trigger] new[i]) == (LibraryConfig { name: new[i].name, ..old_libs[i] })
            &&& has_first_free_name(new, i, wanted_name(old_libs[i]))
        }
}

/// Notation and value: the digits of a number denote it.
pub proof fn dec_denotes(n: nat)
    ensures
        digits_value(dec(n)) == n,
        dec(n).len() > 0,
        forall|i: int| 0 <= i < dec(n).len() ==> is_digit(#[trigger] dec(n)[i]),
    decreases n,
{
    if n < 10 {
        assert(dec(n).drop_last() =~= Seq::<char>::empty());
        assert(dec(n).last() == digit(n));
        assert(digits_value(dec(n).drop_last()) == 0);
    } else {
        dec_denotes(n / 10);
        assert(dec(n).drop_last() =~= dec(n / 10));
        assert(dec(n).last() == digit(n % 10));
        assert forall|i: int| 0 <= i < dec(n).len() implies is_digit(
            #[trigger] dec(n)[i],
        ) by {
            if i < dec(n / 10).len() {
                assert(dec(n)[i] == dec(n / 10)[i]);
            }
        }
    }
}

/// Ten to the power of `k`.
spec fn ten_to(k: nat) -> nat
    decreases k,
{
    if k == 0 {
        1
    } else {
        10 * ten_to((k - 1) as nat)
    }
}

proof fn dec_is_short(n: nat, k: nat)
    requires
        n < ten_to(k),
        k > 0,
    ensures
        dec(n).len() <= k,
    decreases k,
{
    if n >= 10 {
        assert(k > 1) by {
            if k == 1 {
                assert(ten_to(1) == 10 * ten_to(0));
            }
        }
        dec_is_short(n / 10, (k - 1) as nat);
    }
}

/// The digits of a number of 128 bits leave room for a name before them.
proof fn numbers_leave_room(n: nat)
    requires
        n <= u128::MAX,
    ensures
        dec(n).len() <= 39,
{
    assert(ten_to(39) > u128::MAX) by {
        reveal_with_fuel(ten_to, 40);
    }
    dec_is_short(n, 39);
}

proof fn numbered_differ(wanted: Seq<char>, m: nat, n: nat)
    requires
        2 <= m < n <= u128::MAX,
    ensures
        ascii_lower_all(numbered(wanted, m)) != ascii_lower_all(numbered(wanted, n)),
{
    reveal_strlit("_");
    let a = ascii_lower_all(numbered(wanted, m));
    let b = ascii_lower_all(numbered(wanted, n));
    let x = dec(m);
    let y = dec(n);
    dec_denotes(n);
    dec_denotes(m);
    numbers_leave_room(n);
    numbers_leave_room(m);
    let u = cut_name(wanted, NAME_MAX - 1 - x.len());
    let v = cut_name(wanted, NAME_MAX - 1 - y.len());
    if a == b {
        assert(a.len() == u.len() + 1 + x.len());
        assert(b.len() == v.len() + 1 + y.len());
        assert(a[u.len() as int] == '_');
        assert(b[v.len() as int] == '_');
        if u.len() < v.len() {
            let i = v.len() - u.len() - 1;
            assert(a[v.len() as int] == ascii_lower(x[i]));
            assert(is_digit(x[i]));
        } else if v.len() < u.len() {
            let i = u.len() - v.len() - 1;
            assert(b[u.len() as int] == ascii_lower(y[i]));
            assert(is_digit(y[i]));
        } else {
            assert forall|i: int| 0 <= i < x.len() implies x[i] == y[i] by {
                assert(a[u.len() + 1 + i] == ascii_lower(x[i]));
                assert(b[v.len() + 1 + i] == ascii_lower(y[i]));
                assert(is_digit(x[i]));
                assert(is_digit(y[i]));
            }
            assert(x =~= y);
        }
    }
}

/// Distinct places below `k` are at most `k`.
proof fn distinct_places_fit(s: Seq<int>, k: nat)
    requires
        s.no_duplicates(),
        forall|i: int| 0 <= i < s.len() ==> 0 <= #[trigger] s[i] < k,
    ensures
        s.len() <= k,
{
    s.unique_seq_to_set();
    let range = vstd::set_lib::set_int_range(0, k as int);
    vstd::set_lib::lemma_int_range(0, k as int);
    assert(s.to_set().subset_of(range)) by {
        assert forall|x: int| s.to_set().contains(x) implies range.contains(x) by {
            let i = choose|i: int| 0 <= i < s.len() && s[i] == x;
            assert(0 <= s[i] < k);
        }
    }
    vstd::set_lib::lemma_len_subset(s.to_set(), range);
}

fn derive_name(id: &str) -> (r: String)
    ensures
        r@ == derived_name(id@),
{
    let v = chars_of(id);
    let mut w: Vec<char> = Vec::new();
    let mut i: usize = 0;
    while i < v.len()
        invariant
            i <= v@.len(),
            w@ == name_chars_of(v@.take(i as int)),
        decreases v@.len() - i,
    {
        if name_char(v[i]) {
            w.push(v[i]);
        } else {
            w.push('_');
        }
        i += 1;
        assert(w@ =~= name_chars_of(v@.take(i as int)));
    }
    assert(v@.take(v@.len() as int) =~= id@);
    let d = ends_stripped(&w, '_');
    if d.as_str().is_empty() {
        "lib".to_owned()
    } else {
        shortened_name(&d, NAME_MAX)
    }
}

fn shortened_name(s: &str, n: usize) -> (r: String)
    ensures
        r@ == cut_name(s@, n as int),
{
    let v = chars_of(s);
    if v.len() <= n {
        s.to_owned()
    } else {
        string_of_range(&v, 0, n)
    }
}

fn name_used(libs: &Vec<LibraryConfig>, k: usize, name: &str) -> (r: Option<usize>)
    requires
        k <= libs@.len(),
    ensures
        match r {
            Some(i) => i < k && ascii_lower_all(libs@[i as int].name@) == ascii_lower_all(name@),
            None => !is_used(libs@, k as int, name@),
        },
{
    let mut i: usize = 0;
    while i < k
        invariant
            i <= k <= libs@.len(),
            forall|j: int|
                0 <= j < i ==> ascii_lower_all((#[trigger] libs@[j]).name@) != ascii_lower_all(
                    name@,
                ),
        decreases k - i,
    {
        if same_ignore_case(&libs[i].name, name) {
            return Some(i);
        }
        i += 1;
    }
    None
}

/// The first name of those to try that the first `k` libraries do not have.
fn free_name(libs: &Vec<LibraryConfig>, k: usize, wanted: &str) -> (r: String)
    requires
        k < libs@.len(),
    ensures
        exists|n: nat|
            1 <= n <= u128::MAX && r@ == #[trigger] numbered(wanted@, n) && !is_used(
                libs@,
                k as int,
                numbered(wanted@, n),
            ) && (forall|m: nat|
                1 <= m < n ==> is_used(libs@, k as int, #[trigger] numbered(wanted@, m))),
{
    let mut name = wanted.to_owned();
    let mut n: u128 = 1;
    let ghost mut hits: Seq<int> = Seq::empty();
    assert(name@ == numbered(wanted@, 1));
    loop
        invariant
            1 <= n <= k + 2,
            k < libs@.len(),
            name@ == numbered(wanted@, n as nat),
            hits.len() == (if n == 1 {
                0
            } else {
                n - 2
            }),
            hits.no_duplicates(),
            forall|i: int| 0 <= i < hits.len() ==> 0 <= #[trigger] hits[i] < k,
            forall|i: int|
                0 <= i < hits.len() ==> ascii_lower_all(libs@[#[trigger] hits[i]].name@)
                    == ascii_lower_all(numbered(wanted@, (i + 2) as nat)),
            forall|m: nat|
                1 <= m < n ==> is_used(libs@, k as int, #[trigger] numbered(wanted@, m)),
        decreases k + 2 - n,
    {
        match name_used(libs, k, &name) {
            None => {
                assert(1 <= n as nat && name@ == numbered(wanted@, n as nat));
                return name;
            },
            Some(j) => {
                proof {
                    if n > 1 {
                        assert forall|i: int| 0 <= i < hits.len() implies #[trigger] hits[i]
                            != j by {
                            numbered_differ(wanted@, (i + 2) as nat, n as nat);
                        }
                        let more = hits.push(j as int);
                        distinct_places_fit(more, k as nat);
                        hits = more;
                    }
                    assert(is_used(libs@, k as int, numbered(wanted@, n as nat)));
                    numbers_leave_room((n + 1) as nat);
                }
                n = n + 1;
                let digits = dec_u128(n);
                let len: usize = chars_of(&digits).len();
                name = shortened_name(wanted, NAME_MAX - 1 - len).concat("_").concat(&digits);
                assert(name@ =~= numbered(wanted@, n as nat));
            },
        }
    }
}

impl AppConfig {
    /// The library in use: the one that is chosen, else the first.
    pub fn current_library(&self) -> (r: Option<&LibraryConfig>)
        ensures
            match r {
                Some(l) => current_at(self.libraries@, opt_str(self.current_library)) matches Some(i)
                    && 0 <= i < self.libraries@.len() && *l == self.libraries@[i],
                None => current_at(self.libraries@, opt_str(self.current_library)) is None,
            },
    {
        let mut i: usize = 0;
        let ghost id = opt_str(self.current_library);
        assert(self.libraries@.skip(0) =~= self.libraries@);
        while i < self.libraries.len()
            invariant
                i <= self.libraries@.len(),
                id == opt_str(self.current_library),
                library_at(self.libraries@, id) == (match library_at(
                    self.libraries@.skip(i as int),
                    id,
                ) {
                    Some(j) => Some(i + j),
                    None => None,
                }),
            decreases self.libraries@.len() - i,
        {
            let ghost rest = self.libraries@.skip(i as int);
            assert(rest[0] == self.libraries@[i as int]);
            assert(rest.drop_first() =~= self.libraries@.skip(i + 1));
            match &self.current_library {
                Some(c) => {
                    if same(c, &self.libraries[i].id) {
                        return Some(&self.libraries[i]);
                    }
                },
                None => {},
            }
            i += 1;
        }
        if self.libraries.len() > 0 {
            Some(&self.libraries[0])
        } else {
            None
        }
    }

    /// The id of the library in use.
    pub fn current_library_id(&self) -> (r: Option<String>)
        ensures
            opt_str(r) == (match current_at(self.libraries@, opt_str(self.current_library)) {
                Some(i) => Some(self.libraries@[i].id@),
                None => None,
            }),
    {
        match self.current_library() {
            Some(l) => Some(l.id.as_str().to_owned()),
            None => None,
        }
    }

    /// The tags that every book of the library in use gets.
    pub fn default_tags(&self) -> (r: Vec<String>)
        ensures
            strs(r@) == (match current_at(self.libraries@, opt_str(self.current_library)) {
                Some(i) => fixed_tags(strs(self.libraries@[i].default_tags@)),
                None => fixed_tags(Seq::empty()),
            }),
    {
        match self.current_library() {
            Some(l) => fixed_tag_list(&l.default_tags),
            None => {
                let none: Vec<String> = Vec::new();
                assert(strs(none@) =~= Seq::<Seq<char>>::empty());
                fixed_tag_list(&none)
            },
        }
    }

    /// Whether a library other than `except` has the name, in any case.
    pub fn library_name_taken(&self, name: &str, except: Option<&str>) -> (r: bool)
        ensures
            r == exists|i: int|
                0 <= i < self.libraries@.len() && (except is None || except->0@
                    != self.libraries@[i].id@) && ascii_lower_all(
                    (#[trigger] self.libraries@[i]).name@,
                ) == ascii_lower_all(name@),
    {
        let mut i: usize = 0;
        while i < self.libraries.len()
            invariant
                i <= self.libraries@.len(),
                forall|j: int|
                    0 <= j < i ==> !((except is None || except->0@ != self.libraries@[j].id@)
                        && ascii_lower_all((#[trigger] self.libraries@[j]).name@)
                        == ascii_lower_all(name@)),
            decreases self.libraries@.len() - i,
        {
            let other = match except {
                Some(e) => !same(&self.libraries[i].id, e),
                None => true,
            };
            if other && same_ignore_case(&self.libraries[i].name, name) {
                return true;
            }
            i += 1;
        }
        false
    }

    /// Gives every library a name that no other has, in any case: its own where it has one,
    /// else one made of its id, with a number behind it where that is taken.
    pub fn migrate_library_names(&mut self)
        ensures
            names_made(old(self).libraries@, final(self).libraries@),
            *final(self) == (AppConfig { libraries: final(self).libraries, ..*old(self) }),
    {
        let ghost before = self.libraries@;
        let mut i: usize = 0;
        while i < self.libraries.len()
            invariant
                i <= self.libraries@.len(),
                self.libraries@.len() == before.len(),
                before == old(self).libraries@,
                *self == (AppConfig { libraries: self.libraries, ..*old(self) }),
                forall|j: int|
                    0 <= j < i ==> {
                        &&& (#[trigger] self.libraries@[j]) == (LibraryConfig {
                            name: self.libraries@[j].name,
                            ..before[j]
                        })
                        &&& has_first_free_name(self.libraries@, j, wanted_name(before[j]))
                    },
                forall|j: int| i <= j < before.len() ==> self.libraries@[j] == before[j],
            decreases self.libraries@.len() - i,
        {
            let own = trimmed(&self.libraries[i].name);
            let wanted = if is_valid_library_name(&own) {
                own
            } else {
                derive_name(&self.libraries[i].id)
            };
            assert(wanted@ == wanted_name(before[i as int]));
            let name = free_name(&self.libraries, i, &wanted);
            let ghost was = self.libraries@;
            self.libraries[i].name = name;
            proof {
                let now = self.libraries@;
                assert forall|j: int, s: Seq<char>| 0 <= j <= i implies is_used(now, j, s) == (
                #[trigger] is_used(was, j, s)) by {
                    if is_used(was, j, s) {
                        let x = choose|x: int|
                            0 <= x < j && ascii_lower_all((#[trigger] was[x]).name@)
                                == ascii_lower_all(s);
                        assert(now[x] == was[x]);
                    }
                    if is_used(now, j, s) {
                        let x = choose|x: int|
                            0 <= x < j && ascii_lower_all((#[trigger] now[x]).name@)
                                == ascii_lower_all(s);
                        assert(now[x] == was[x]);
                    }
                }
                assert forall|j: int| 0 <= j < i implies has_first_free_name(
                    now,
                    j,
                    wanted_name(before[j]),
                ) && (#[trigger] now[j]) == (LibraryConfig { name: now[j].name, ..before[j] }) by {
                    assert(now[j] == was[j]);
                    let w = wanted_name(before[j]);
                    let n = choose|n: nat|
                        1 <= n <= u128::MAX && was[j].name@ == #[trigger] numbered(w, n) && !is_used(
                            was,
                            j,
                            numbered(w, n),
                        ) && (forall|m: nat|
                            1 <= m < n ==> is_used(was, j, #[trigger] numbered(w, m)));
                    assert(!is_used(was, j, numbered(w, n)));
                    assert(now[j].name@ == numbered(w, n));
                }
            }
            i += 1;
        }
    }
}

// ---- files of an old form ----

/// The settings of an old file, with its only provider in the list of providers.
pub open spec fn llm_moved(old_llm: LlmSettings, new: LlmSettings) -> bool {
    let key = match old_llm.api_key {
        Some(k) => !is_blank(k@),
        None => false,
    };
    &&& new.base_url is None
    &&& new.api_key is None
    &&& new.models@.len() == 0
    &&& new.default_model == old_llm.default_model
    &&& new.retry_count == old_llm.retry_count
    &&& new.budget_tokens == old_llm.budget_tokens
    &&& new.pricing == old_llm.pricing
    &&& if old_llm.providers@.len() == 0 && key {
        &&& new.providers@.len() == 1
        &&& new.providers@[0].name@ == "默认"@
        &&& new.providers@[0].base_url@ == (match old_llm.base_url {
            Some(u) => u@,
            None => Seq::empty(),
        })
        &&& new.providers@[0].api_key@ == old_llm.api_key->0@
        &&& new.providers@[0].models@ == old_llm.models@
        &&& opt_str(new.default_provider) == Some("默认"@)
    } else {
        &&& new.providers == old_llm.providers
        &&& new.default_provider == old_llm.default_provider
    }
}

/// The settings of an old file, with its only library in the list of libraries.
pub open spec fn library_moved(before: AppConfig, after: AppConfig) -> bool {
    &&& after.library_path == before.library_path
    &&& after.covers_path == before.covers_path
    &&& after.database_path == before.database_path
    &&& after.llm == before.llm
    &&& if before.libraries@.len() == 0 && before.library_path is Some {
        &&& after.libraries@.len() == 1
        &&& after.libraries@[0].id@ == "default"@
        &&& after.libraries@[0].name@.len() == 0
        &&& after.libraries@[0].title@ == "默认书库"@
        &&& after.libraries@[0].path == before.library_path->0
        &&& after.libraries@[0].theme.is_plain()
        &&& strs(after.libraries@[0].default_tags@) == seq!["推理小说"@]
        &&& !after.libraries@[0].webdav.enabled
        &&& after.libraries@[0].webdav.url@.len() == 0
        &&& after.libraries@[0].webdav.username@.len() == 0
        &&& after.libraries@[0].webdav.password@.len() == 0
        &&& after.libraries@[0].webdav.remote_dir@.len() == 0
        &&& opt_str(after.current_library) == Some("default"@)
    } else {
        &&& after.libraries == before.libraries
        &&& opt_str(after.current_library) == (match before.current_library {
            Some(c) => Some(c@),
            None => if before.libraries@.len() > 0 {
                Some(before.libraries@[0].id@)
            } else {
                None
            },
        })
    }
}

/// Whether only the models changed, and as `llm_moved` says.
pub open spec fn providers_moved(before: AppConfig, after: AppConfig) -> bool {
    llm_moved(before.llm, after.llm) && after == (AppConfig { llm: after.llm, ..before })
}

/// Whether `after` is `before` brought into the present form: the provider is moved, then
/// the library, and then every library has a name.
pub open spec fn migrated(before: AppConfig, after: AppConfig) -> bool {
    exists|first: AppConfig, second: AppConfig| #[trigger]
        providers_moved(before, first) && #[trigger] library_moved(first, second) && names_made(
            second.libraries@,
            after.libraries@,
        ) && after == (AppConfig { libraries: after.libraries, ..second })
}

impl AppConfig {
    /// Moves the only provider of an old file into the list of providers.
    pub fn migrate_llm(&mut self)
        ensures
            llm_moved(old(self).llm, final(self).llm),
            *final(self) == (AppConfig { llm: final(self).llm, ..*old(self) }),
    {
        if self.llm.providers.len() == 0 {
            match clone_opt(&self.llm.api_key) {
                Some(key) => {
                    if !blank(&key) {
                        let base_url = match clone_opt(&self.llm.base_url) {
                            Some(u) => u,
                            None => String::new(),
                        };
                        let models = clone_strings(&self.llm.models);
                        self.llm.providers.push(
                            LlmProvider { name: "默认".to_owned(), base_url, api_key: key, models },
                        );
                        self.llm.default_provider = Some("默认".to_owned());
                    }
                },
                None => {},
            }
        }
        self.llm.base_url = None;
        self.llm.api_key = None;
        self.llm.models = Vec::new();
    }

    /// Moves the only library of an old file into the list of libraries, and sees that a
    /// library is in use where there is one.
    pub fn migrate_libraries(&mut self)
        ensures
            library_moved(*old(self), *final(self)),
    {
        if self.libraries.len() == 0 {
            match clone_opt(&self.library_path) {
                Some(path) => {
                    let mut default_tags: Vec<String> = Vec::new();
                    default_tags.push("推理小说".to_owned());
                    assert(strs(default_tags@) =~= seq!["推理小说"@]);
                    self.libraries.push(
                        LibraryConfig {
                            id: "default".to_owned(),
                            name: String::new(),
                            title: "默认书库".to_owned(),
                            path,
                            theme: LibraryTheme::default(),
                            default_tags,
                            webdav: WebDavConfig::default(),
                        },
                    );
                    self.current_library = Some("default".to_owned());
                },
                None => {},
            }
        }
        if self.current_library.is_none() && self.libraries.len() > 0 {
            self.current_library = Some(self.libraries[0].id.as_str().to_owned());
        }
    }

    /// Brings settings as they are read into the present form.
    pub fn migrate(&mut self)
        ensures
            migrated(*old(self), *final(self)),
    {
        self.migrate_llm();
        let ghost first = *self;
        self.migrate_libraries();
        let ghost second = *self;
        self.migrate_library_names();
        assert(providers_moved(*old(self), first));
        assert(library_moved(first, second));
    }

    /// The directory of the library in use, as it is set.
    pub fn require_library_path(&self) -> (r: Result<String, String>)
        ensures
            match r {
                Ok(p) => match current_at(self.libraries@, opt_str(self.current_library)) {
                    Some(i) => p@ == self.libraries@[i].path@,
                    None => opt_str(self.library_path) == Some(p@),
                },
                Err(e) => current_at(self.libraries@, opt_str(self.current_library)) is None
                    && self.library_path is None && e@
                    == "未配置书库路径，请先运行: library config set <PATH>"@,
            },
    {
        match self.current_library() {
            Some(l) => Ok(l.path.as_str().to_owned()),
            None => match clone_opt(&self.library_path) {
                Some(p) => Ok(p),
                None => Err("未配置书库路径，请先运行: library config set <PATH>".to_owned()),
            },
        }
    }

    /// The directory of covers: the one that is set, else one in the library's directory.
    pub fn covers_dir(&self, library: &str) -> (r: String)
        ensures
            r@ == (match self.covers_path {
                Some(p) => p@,
                None => path_in(library@, "covers"@),
            }),
    {
        match &self.covers_path {
            Some(p) => p.as_str().to_owned(),
            None => join_path(library, "covers"),
        }
    }

    /// The file of the database: the one that is set, else one in the data directory, else
    /// one in the present directory.
    pub fn database_file(&self, data_dir: Option<&str>) -> (r: String)
        ensures
            r@ == (match self.database_path {
                Some(p) => p@,
                None => match data_dir {
                    Some(d) => path_in(path_in(d@, "mystery-novel-agent"@), "mystery_novel.db"@),
                    None => "mystery_novel.db"@,
                },
            }),
    {
        match &self.database_path {
            Some(p) => p.as_str().to_owned(),
            None => match data_dir {
                Some(d) => join_path(&join_path(d, "mystery-novel-agent"), "mystery_novel.db"),
                None => "mystery_novel.db".to_owned(),
            },
        }
    }
}

/// The file of the settings: in the directory of settings where there is one, else in the
/// present directory.
pub fn config_file_path(config_dir: Option<&str>) -> (r: String)
    ensures
        r@ == (match config_dir {
            Some(d) => path_in(path_in(d@, "mystery-novel-agent"@), "config.toml"@),
            None => "config.toml"@,
        }),
{
    match config_dir {
        Some(d) => join_path(&join_path(d, "mystery-novel-agent"), "config.toml"),
        None => "config.toml".to_owned(),
    }
}

// ---- laws ----

/// No two libraries have the same name once names are made, in any case.
pub proof fn made_names_differ(
    old_libs: Seq<LibraryConfig>,
    new: Seq<LibraryConfig>,
    i: int,
    j: int,
)
    requires
        names_made(old_libs, new),
        0 <= i < j < new.len(),
    ensures
        ascii_lower_all(new[i].name@) != ascii_lower_all(new[j].name@),
{
    assert(has_first_free_name(new, j, wanted_name(old_libs[j])));
    assert(!is_used(new, j, new[j].name@));
    assert(0 <= i < j && ascii_lower_all(new[i].name@) == ascii_lower_all(new[i].name@));
}

proof fn wanted_is_legal(lib: LibraryConfig)
    ensures
        is_library_name(wanted_name(lib)),
{
    reveal_strlit("lib");
    let chars = name_chars_of(lib.id@);
    assert(all_name_chars(chars));
    stripped_is_part(chars, '_');
    let d = strip_ends(chars, '_');
    assert forall|i: int| 0 <= i < d.len() implies is_name_char(#[trigger] d[i]) by {
        assert(d.contains(d[i]));
        assert(chars.contains(d[i]));
    }
}

/// Every library has a legal name once names are made: letters, digits and underscores, at
/// least one and at most 64.
pub proof fn made_names_are_legal(old_libs: Seq<LibraryConfig>, new: Seq<LibraryConfig>, i: int)
    requires
        names_made(old_libs, new),
        0 <= i < new.len(),
    ensures
        is_library_name(new[i].name@),
{
    reveal_strlit("_");
    let w = wanted_name(old_libs[i]);
    assert(has_first_free_name(new, i, w));
    let n = choose|n: nat|
        1 <= n <= u128::MAX && new[i].name@ == #[trigger] numbered(w, n) && !is_used(
            new,
            i,
            numbered(w, n),
        );
    wanted_is_legal(old_libs[i]);
    dec_denotes(n);
    numbers_leave_room(n);
    if n > 1 {
        let u = cut_name(w, NAME_MAX - 1 - dec(n).len());
        assert forall|k: int| 0 <= k < numbered(w, n).len() implies is_name_char(
            #[trigger] numbered(w, n)[k],
        ) by {
            if k < u.len() {
                assert(numbered(w, n)[k] == w[k]);
            } else if k == u.len() {
                assert(numbered(w, n)[k] == '_');
            } else {
                assert(numbered(w, n)[k] == dec(n)[k - u.len() - 1]);
                assert(is_digit(dec(n)[k - u.len() - 1]));
            }
        }
    }
}

proof fn legal_is_trim(s: Seq<char>)
    requires
        all_name_chars(s),
    ensures
        trim(s) == s,
{
    if s.len() > 0 {
        assert(is_name_char(s[0]) && is_name_char(s.last()));
    }
}

/// Making names once more changes no name.
pub proof fn making_names_twice_changes_nothing(
    old_libs: Seq<LibraryConfig>,
    new: Seq<LibraryConfig>,
    again: Seq<LibraryConfig>,
)
    requires
        names_made(old_libs, new),
        names_made(new, again),
    ensures
        again.len() == new.len(),
        forall|i: int| 0 <= i < new.len() ==> (#[trigger] again[i]).name@ == new[i].name@,
{
    assert forall|i: int| 0 <= i < new.len() implies (#[trigger] again[i]).name@
        == new[i].name@ by {
        same_name_again(old_libs, new, again, i);
    }
}

proof fn same_name_again(
    old_libs: Seq<LibraryConfig>,
    new: Seq<LibraryConfig>,
    again: Seq<LibraryConfig>,
    i: int,
)
    requires
        names_made(old_libs, new),
        names_made(new, again),
        0 <= i < new.len(),
    ensures
        again[i].name@ == new[i].name@,
    decreases i,
{
    made_names_are_legal(old_libs, new, i);
    legal_is_trim(new[i].name@);
    let w = wanted_name(new[i]);
    assert(w == new[i].name@);
    assert(again[i] == (LibraryConfig { name: again[i].name, ..new[i] }));
    assert(has_first_free_name(again, i, w));
    let n = choose|n: nat|
        1 <= n <= u128::MAX && again[i].name@ == #[trigger] numbered(w, n) && !is_used(
            again,
            i,
            numbered(w, n),
        ) && (forall|m: nat| 1 <= m < n ==> is_used(again, i, #[trigger] numbered(w, m)));
    if n > 1 {
        assert(numbered(w, 1) == w);
        assert(is_used(again, i, numbered(w, 1)));
        let x = choose|x: int|
            0 <= x < i && ascii_lower_all((#[trigger] again[x]).name@) == ascii_lower_all(w);
        same_name_again(old_libs, new, again, x);
        made_names_differ(old_libs, new, x, i);
    }
}

/// A model costs what is set for its full name or for its name without the provider, the first
/// that is set; where nothing is set, a built-in price counts, that of the longer name before
/// that of the shorter one.
pub proof fn the_first_price_set_counts(pricing: Seq<ModelPricing>, model: Seq<char>)
    ensures
        match explicit_price(pricing, model) {
            Some(p) => exists|i: int|
                0 <= i < pricing.len() && ((#[trigger] pricing[i]).model@ == model
                    || pricing[i].model@ == bare_model(model)) && p == (
                    pricing[i].input_per_m,
                    pricing[i].output_per_m,
                ) && forall|j: int|
                    0 <= j < i ==> (#[trigger] pricing[j]).model@ != model && pricing[j].model@
                        != bare_model(model),
            None => forall|j: int|
                0 <= j < pricing.len() ==> (#[trigger] pricing[j]).model@ != model
                    && pricing[j].model@ != bare_model(model),
        },
        "gpt-4o-mini"@.is_prefix_of(model) ==> preset_price(model) == Some((1100u64, 4300u64)),
        "gpt-4o"@.is_prefix_of(model) && !"gpt-4o-mini"@.is_prefix_of(model) ==> preset_price(model)
            == Some((18000u64, 72000u64)),
        !"gpt-4o"@.is_prefix_of(model) && !"gpt-4o-mini"@.is_prefix_of(model) ==> preset_price(
            model,
        ) is None,
    decreases pricing.len(),
{
    if pricing.len() > 0 {
        let rest = pricing.drop_first();
        if !(pricing[0].model@ == model || pricing[0].model@ == bare_model(model)) {
            the_first_price_set_counts(rest, model);
            match explicit_price(rest, model) {
                Some(p) => {
                    let i = choose|i: int|
                        0 <= i < rest.len() && ((#[trigger] rest[i]).model@ == model
                            || rest[i].model@ == bare_model(model)) && p == (
                            rest[i].input_per_m,
                            rest[i].output_per_m,
                        ) && forall|j: int|
                            0 <= j < i ==> (#[trigger] rest[j]).model@ != model && rest[j].model@
                                != bare_model(model);
                    assert(pricing[i + 1] == rest[i]);
                    assert forall|j: int| 0 <= j < i + 1 implies (#[trigger] pricing[j]).model@
                        != model && pricing[j].model@ != bare_model(model) by {
                        if j > 0 {
                            assert(rest[j - 1] == pricing[j]);
                        }
                    }
                },
                None => {
                    assert forall|j: int| 0 <= j < pricing.len() implies (
                    #[trigger] pricing[j]).model@ != model && pricing[j].model@ != bare_model(
                        model,
                    ) by {
                        if j > 0 {
                            assert(rest[j - 1] == pricing[j]);
                        }
                    }
                },
            }
        } else {
            assert(pricing[0].model@ == model || pricing[0].model@ == bare_model(model));
        }
    }
}

/// The name of a model is what stands behind the first slash of its key; a key without a slash
/// is the name.
pub proof fn a_model_is_named_behind_its_provider(provider: Seq<char>, model: Seq<char>)
    requires
        !provider.contains('/'),
    ensures
        bare_model(provider + "/"@ + model) == model,
        bare_model(provider) == provider,
{
    let key = provider + "/"@ + model;
    let n = provider.len() as int;
    reveal_strlit("/");
    find_from_is_first(key, "/"@, 0);
    find_from_is_first(provider, "/"@, 0);
    assert(key.subrange(n, n + 1) =~= "/"@);
    assert(occurs_at(key, "/"@, n));
    match find_from(key, "/"@, 0) {
        Some(k) => {
            assert(key.subrange(k, k + 1)[0] == key[k]);
            assert("/"@[0] == '/');
            if k < n {
                assert(key[k] == provider[k]);
                assert(provider.contains('/'));
            } else if k > n {
                assert(!occurs_at(key, "/"@, n));
            }
            assert(key.skip(n + 1) =~= model);
        },
        None => {},
    }
    match find_from(provider, "/"@, 0) {
        Some(k) => {
            assert(provider.subrange(k, k + 1)[0] == provider[k]);
            assert("/"@[0] == '/');
            assert(provider.contains('/'));
        },
        None => {},
    }
}

/// The library with an id is the first that has it; the library in use is the one that is
/// chosen, and where none has that id the first of all.
pub proof fn the_chosen_library_is_in_use(libs: Seq<LibraryConfig>, id: Option<Seq<char>>)
    ensures
        match library_at(libs, id) {
            Some(i) => 0 <= i < libs.len() && id == Some(libs[i].id@) && forall|j: int|
                0 <= j < i ==> id != Some((#[trigger] libs[j]).id@),
            None => forall|j: int| 0 <= j < libs.len() ==> id != Some((#[trigger] libs[j]).id@),
        },
        match current_at(libs, id) {
            Some(i) => 0 <= i < libs.len() && (id == Some(libs[i].id@) || i == 0 && forall|j: int|
                0 <= j < libs.len() ==> id != Some((#[trigger] libs[j]).id@)),
            None => libs.len() == 0,
        },
    decreases libs.len(),
{
    if libs.len() > 0 && id != Some(libs[0].id@) {
        let rest = libs.drop_first();
        the_chosen_library_is_in_use(rest, id);
        match library_at(rest, id) {
            Some(i) => {
                assert(rest[i] == libs[i + 1]);
                assert forall|j: int| 0 <= j < i + 1 implies id != Some(
                    (#[trigger] libs[j]).id@,
                ) by {
                    if j > 0 {
                        assert(rest[j - 1] == libs[j]);
                    }
                }
            },
            None => {
                assert forall|j: int| 0 <= j < libs.len() implies id != Some(
                    (#[trigger] libs[j]).id@,
                ) by {
                    if j > 0 {
                        assert(rest[j - 1] == libs[j]);
                    }
                }
            },
        }
    }
}

/// The text that refuses a call names what was used and what the budget is.
pub proof fn a_refusal_names_the_budget(used: int, budget: int)
    ensures
        has_part(budget_text(used, budget), "用量 "@ + dec_int(used)),
        has_part(budget_text(used, budget), "预算 "@ + dec_int(budget)),
{
    let all = budget_text(used, budget);
    let end = "（请在设置页调整预算或清零用量）"@;
    reveal_strlit("Token 用量 ");
    reveal_strlit("Token ");
    reveal_strlit("用量 ");
    reveal_strlit(" 已达到预算 ");
    reveal_strlit(" 已达到");
    reveal_strlit("预算 ");
    assert("Token 用量 "@ =~= "Token "@ + "用量 "@);
    assert(" 已达到预算 "@ =~= " 已达到"@ + "预算 "@);
    let a = "用量 "@ + dec_int(used);
    let b = "预算 "@ + dec_int(budget);
    assert(all =~= "Token "@ + a + (" 已达到"@ + b + end));
    parts_stand_in_the_whole("Token "@, a, " 已达到"@ + b + end);
    assert(all =~= ("Token "@ + a + " 已达到"@) + b + end);
    parts_stand_in_the_whole("Token "@ + a + " 已达到"@, b, end);
}

/// The fixed tags of a library are those that are set, without blank ones and without the white
/// space around them; the tag of the genre where none is.
pub proof fn a_library_has_fixed_tags(v: Seq<Seq<char>>, i: int)
    ensures
        fixed_tags(v).len() > 0,
        0 <= i < v.len() && !is_blank(v[i]) ==> fixed_tags(v).contains(trim(v[i])),
        (forall|k: int| 0 <= k < v.len() ==> is_blank(#[trigger] v[k])) ==> fixed_tags(v)
            == seq!["推理小说"@],
{
    let m = tidy_keeps_what_is_not_blank(v);
    if 0 <= i < v.len() && !is_blank(v[i]) {
        assert(m.contains(i));
        let q = choose|q: int| 0 <= q < m.len() && m[q] == i;
        assert(tidy(v)[q] == trim(v[i]));
    }
    if tidy(v).len() > 0 {
        assert(!is_blank(v[m[0]]));
    }
}

/// The only library of an old file becomes the first of the list, with its path, and is in use;
/// a list that is there stays as it is, and where none of it is in use, its first is.
pub proof fn an_old_library_is_kept(before: AppConfig, after: AppConfig)
    requires
        library_moved(before, after),
    ensures
        after.library_path == before.library_path && after.covers_path == before.covers_path,
        after.database_path == before.database_path && after.llm == before.llm,
        before.libraries@.len() == 0 && before.library_path is Some ==> {
            &&& after.libraries@.len() == 1
            &&& after.libraries@[0].path == before.library_path->0
            &&& opt_str(after.current_library) == Some(after.libraries@[0].id@)
            &&& strs(after.libraries@[0].default_tags@) == seq!["推理小说"@]
            &&& !after.libraries@[0].webdav.enabled
        },
        before.libraries@.len() > 0 || before.library_path is None ==> after.libraries
            == before.libraries,
        before.libraries@.len() > 0 && before.current_library is Some ==> opt_str(
            after.current_library,
        ) == opt_str(before.current_library),
        before.libraries@.len() > 0 && before.current_library is None ==> opt_str(
            after.current_library,
        ) == Some(before.libraries@[0].id@),
{
}

/// The only provider of an old file becomes the first of the list, with its address, its key and
/// its models, and is the one that is called; a list that is there stays as it is. Prices, the
/// budget and the model that is called stay.
pub proof fn an_old_provider_is_kept(before: LlmSettings, after: LlmSettings)
    requires
        llm_moved(before, after),
    ensures
        after.default_model == before.default_model && after.retry_count == before.retry_count,
        after.budget_tokens == before.budget_tokens && after.pricing == before.pricing,
        (before.providers@.len() == 0 && before.api_key is Some && !is_blank(before.api_key->0@)) ==> {
            &&& after.providers@.len() == 1
            &&& after.providers@[0].api_key@ == before.api_key->0@
            &&& after.providers@[0].models@ == before.models@
            &&& before.base_url matches Some(u) ==> after.providers@[0].base_url@ == u@
            &&& opt_str(after.default_provider) == Some(after.providers@[0].name@)
        },
        (before.providers@.len() > 0 || before.api_key is None || is_blank(before.api_key->0@)) ==> {
            &&& after.providers == before.providers
            &&& after.default_provider == before.default_provider
        },
{
}

} // verus!
