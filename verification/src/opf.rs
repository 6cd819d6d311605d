//! Repair of OPF package documents: a manifest that declares a file twice, or declares a
//! file that the archive does not hold.
use vstd::prelude::*;
use vstd::string::*;

use crate::paths::{
    resolve_path, resolved, slashes_are_stripped, strip_slashes, stripped,
};
use crate::patterns::{
    captures_all, first_group, first_match, gaps_between, groups_view, matches_view, regex_gaps,
    regex_matches, splice, spliced, whole, whole_of, wholes,
};
use crate::text::{
    ends_with, has_string, lowercase, opt_str, same, starts_with, strs, strs_push, to_lower, trim,
    trimmed,
};

verus! {

/// The path in the archive that `href` denotes in a package document of `opf_dir`.
pub open spec fn href_path(opf_dir: Seq<char>, href: Seq<char>) -> Seq<char> {
    if href.len() > 0 && href[0] == '/' {
        resolve_path(strip_slashes(href))
    } else {
        resolve_path(opf_dir + href)
    }
}

/// The path in the archive that `href` denotes in a package document of `opf_dir`.
pub fn resolve_href(opf_dir: &str, href: &str) -> (r: String)
    ensures
        r@ == href_path(opf_dir@, href@),
{
    proof {
        reveal_strlit("/");
    }
    if starts_with(href, "/") {
        assert(href@[0] == "/"@[0]);
        resolved(&stripped(href))
    } else {
        proof {
            if href@.len() > 0 && href@[0] == '/' {
                assert("/"@ =~= href@.take(1));
                assert("/"@.is_prefix_of(href@));
            }
        }
        resolved(&opf_dir.to_owned().concat(href))
    }
}

/// Whether `name` is that of a package document.
pub open spec fn is_opf(name: Seq<char>) -> bool {
    ".opf"@.is_suffix_of(lowercase(name))
}

/// Whether `name` is that of a package document.
pub fn name_is_opf(name: &str) -> (r: bool)
    ensures
        r == is_opf(name@),
{
    ends_with(&to_lower(name), ".opf")
}

/// One `item` of a manifest.
pub struct ManifestItem {
    /// The tag.
    pub tag: String,
    /// What the item declares, where it has an `href`, without white space at the ends.
    pub href: Option<String>,
    /// `href` in lower case, by which two declarations are told to be the same.
    pub key: String,
    /// The item's `id`.
    pub id: Option<String>,
}

/// One `item` of a manifest.
pub struct ItemView {
    pub tag: Seq<char>,
    pub href: Option<Seq<char>>,
    pub key: Seq<char>,
    pub id: Option<Seq<char>>,
}

impl View for ManifestItem {
    type V = ItemView;

    open spec fn view(&self) -> ItemView {
        ItemView { tag: self.tag@, href: opt_str(self.href), key: self.key@, id: opt_str(self.id) }
    }
}

/// The views of a list of items.
pub open spec fn item_views(items: Seq<ManifestItem>) -> Seq<ItemView> {
    items.map_values(|i: ManifestItem| i@)
}

/// Whether item `i` declares what an item before it declares.
pub open spec fn repeats(items: Seq<ItemView>, i: int) -> bool {
    items[i].href is Some && exists|j: int|
        0 <= j < i && (#[trigger] items[j]).href is Some && items[j].key == items[i].key
}

/// Whether item `i` declares a file that is not one of `valid`.
pub open spec fn dangles(
    items: Seq<ItemView>,
    i: int,
    valid: Seq<Seq<char>>,
    dir: Seq<char>,
) -> bool {
    items[i].href is Some && !valid.contains(href_path(dir, items[i].href->0))
}

/// Whether item `i` stays in the manifest.
pub open spec fn stays(
    items: Seq<ItemView>,
    i: int,
    valid: Seq<Seq<char>>,
    dir: Seq<char>,
) -> bool {
    !repeats(items, i) && !dangles(items, i, valid, dir)
}

/// What stands in the place of each of the first `n` items after the repair.
pub open spec fn item_fill(
    items: Seq<ItemView>,
    valid: Seq<Seq<char>>,
    dir: Seq<char>,
    n: nat,
) -> Seq<Seq<char>> {
    Seq::new(
        n,
        |i: int|
            if stays(items, i, valid, dir) {
                items[i].tag
            } else {
                Seq::empty()
            },
    )
}

/// The ids of those of the first `n` items that are taken out because their file is
/// missing.
pub open spec fn dangling_ids(
    items: Seq<ItemView>,
    valid: Seq<Seq<char>>,
    dir: Seq<char>,
    n: nat,
) -> Seq<Seq<char>>
    decreases n,
{
    if n == 0 {
        Seq::empty()
    } else {
        let before = dangling_ids(items, valid, dir, (n - 1) as nat);
        let i = n - 1;
        if !repeats(items, i) && dangles(items, i, valid, dir) && items[i].id is Some {
            before.push(items[i].id->0)
        } else {
            before
        }
    }
}

/// Whether a manifest of these items needs the repair.
pub open spec fn items_need_fix(
    items: Seq<ItemView>,
    valid: Seq<Seq<char>>,
    dir: Seq<char>,
) -> bool {
    exists|i: int| 0 <= i < items.len() && !#[trigger] stays(items, i, valid, dir)
}

fn item_repeats(items: &Vec<ManifestItem>, i: usize) -> (r: bool)
    requires
        i < items@.len(),
    ensures
        r == repeats(item_views(items@), i as int),
{
    let ghost views = item_views(items@);
    if items[i].href.is_none() {
        return false;
    }
    let mut j: usize = 0;
    while j < i
        invariant
            j <= i < items@.len(),
            items@[i as int].href is Some,
            views == item_views(items@),
            forall|k: int|
                0 <= k < j ==> !((#[trigger] views[k]).href is Some && views[k].key
                    == views[i as int].key),
        decreases i - j,
    {
        assert(views[j as int] == items@[j as int]@);
        assert(views[i as int] == items@[i as int]@);
        if items[j].href.is_some() && same(&items[j].key, &items[i].key) {
            return true;
        }
        j += 1;
    }
    false
}

fn item_dangles(items: &Vec<ManifestItem>, i: usize, valid: &Vec<String>, dir: &str) -> (r: bool)
    requires
        i < items@.len(),
    ensures
        r == dangles(item_views(items@), i as int, strs(valid@), dir@),
{
    assert(item_views(items@)[i as int] == items@[i as int]@);
    match &items[i].href {
        Some(h) => {
            let p = resolve_href(dir, h);
            !has_string(valid, &p)
        },
        None => false,
    }
}

/// What stands in the place of each item after the repair, and the ids of the items whose
/// file is missing.
pub fn fix_items(items: &Vec<ManifestItem>, valid: &Vec<String>, dir: &str) -> (r: (
    Vec<String>,
    Vec<String>,
))
    ensures
        strs(r.0@) == item_fill(item_views(items@), strs(valid@), dir@, items@.len()),
        strs(r.1@) == dangling_ids(item_views(items@), strs(valid@), dir@, items@.len()),
{
    let ghost views = item_views(items@);
    let mut fill: Vec<String> = Vec::new();
    let mut ids: Vec<String> = Vec::new();
    let mut i: usize = 0;
    assert(strs(fill@) =~= item_fill(views, strs(valid@), dir@, 0));
    assert(strs(ids@) =~= dangling_ids(views, strs(valid@), dir@, 0));
    while i < items.len()
        invariant
            i <= items@.len(),
            views == item_views(items@),
            strs(fill@) == item_fill(views, strs(valid@), dir@, i as nat),
            strs(ids@) == dangling_ids(views, strs(valid@), dir@, i as nat),
        decreases items@.len() - i,
    {
        assert(views[i as int] == items@[i as int]@);
        let ghost filled = fill@;
        if item_repeats(items, i) {
            fill.push(String::new());
        } else if item_dangles(items, i, valid, dir) {
            fill.push(String::new());
            if let Some(id) = &items[i].id {
                proof {
                    strs_push(ids@, *id);
                }
                ids.push(id.clone());
            }
        } else {
            fill.push(items[i].tag.clone());
        }
        proof {
            strs_push(filled, fill@.last());
            assert(fill@ =~= filled.push(fill@.last()));
        }
        i += 1;
        assert(strs(fill@) =~= item_fill(views, strs(valid@), dir@, i as nat));
    }
    (fill, ids)
}

/// Whether a manifest of these items declares a file twice, or one that is missing.
pub fn needs_fix(items: &Vec<ManifestItem>, valid: &Vec<String>, dir: &str) -> (r: bool)
    ensures
        r == items_need_fix(item_views(items@), strs(valid@), dir@),
{
    let ghost views = item_views(items@);
    let mut i: usize = 0;
    while i < items.len()
        invariant
            i <= items@.len(),
            views == item_views(items@),
            forall|k: int| 0 <= k < i ==> #[trigger] stays(views, k, strs(valid@), dir@),
        decreases items@.len() - i,
    {
        if item_repeats(items, i) || item_dangles(items, i, valid, dir) {
            assert(!stays(views, i as int, strs(valid@), dir@));
            return true;
        }
        assert(stays(views, i as int, strs(valid@), dir@));
        i += 1;
    }
    false
}

/// One `itemref` of a spine: its tag and the id that it refers to.
pub struct SpineRef {
    pub tag: String,
    pub idref: Option<String>,
}

/// What stands in the place of each `itemref` once the items of `gone` are taken out.
pub open spec fn spine_fill(refs: Seq<SpineRef>, gone: Seq<Seq<char>>) -> Seq<Seq<char>> {
    refs.map_values(
        |r: SpineRef|
            if r.idref is Some && gone.contains(r.idref->0@) {
                Seq::<char>::empty()
            } else {
                r.tag@
            },
    )
}

/// What stands in the place of each `itemref` once the items of `gone` are taken out.
pub fn fix_spine(refs: &Vec<SpineRef>, gone: &Vec<String>) -> (r: Vec<String>)
    ensures
        strs(r@) == spine_fill(refs@, strs(gone@)),
{
    let mut fill: Vec<String> = Vec::new();
    let mut i: usize = 0;
    while i < refs.len()
        invariant
            i <= refs@.len(),
            strs(fill@) == spine_fill(refs@, strs(gone@)).take(i as int),
        decreases refs@.len() - i,
    {
        let drop = match &refs[i].idref {
            Some(id) => has_string(gone, id),
            None => false,
        };
        let piece = if drop {
            String::new()
        } else {
            refs[i].tag.clone()
        };
        proof {
            strs_push(fill@, piece);
        }
        fill.push(piece);
        i += 1;
        assert(strs(fill@) =~= spine_fill(refs@, strs(gone@)).take(i as int));
    }
    assert(strs(fill@) =~= spine_fill(refs@, strs(gone@)));
    fill
}

// ---- the text of the document ----

/// A manifest `item` tag.
pub const ITEM: &'static str = r"<item\b[^>]*/?>";

/// The `href` of a tag.
pub const HREF: &'static str = r#"href\s*=\s*"([^"]*)""#;

/// The `id` of a tag.
pub const ID: &'static str = r#"id\s*=\s*"([^"]*)""#;

/// A spine `itemref` tag.
pub const ITEMREF: &'static str = r"<itemref\b[^>]*/?>";

/// The `idref` of a tag.
pub const IDREF: &'static str = r#"idref\s*=\s*"([^"]*)""#;

/// The item that a tag declares.
pub open spec fn item_of_tag(tag: Seq<char>) -> ItemView {
    match first_group(HREF@, tag) {
        Some(h) => ItemView {
            tag,
            href: Some(trim(h)),
            key: lowercase(trim(h)),
            id: first_group(ID@, tag),
        },
        None => ItemView { tag, href: None, key: Seq::empty(), id: first_group(ID@, tag) },
    }
}

/// The items of a manifest.
pub open spec fn items_of(content: Seq<char>) -> Seq<ItemView> {
    match regex_matches(ITEM@, content) {
        Some(ms) => ms.map_values(|m: Seq<Option<Seq<char>>>| item_of_tag(whole(m))),
        None => Seq::empty(),
    }
}

/// The items of a manifest.
pub fn manifest_items(content: &str) -> (r: Vec<ManifestItem>)
    ensures
        item_views(r@) == items_of(content@),
{
    let mut items: Vec<ManifestItem> = Vec::new();
    match captures_all(ITEM, content) {
        Some(ms) => {
            let ghost all = items_of(content@);
            let mut i: usize = 0;
            while i < ms.len()
                invariant
                    i <= ms@.len(),
                    regex_matches(ITEM@, content@) == Some(matches_view(ms@)),
                    all == items_of(content@),
                    item_views(items@) == all.take(i as int),
                decreases ms@.len() - i,
            {
                let tag = whole_of(&ms[i]);
                assert(matches_view(ms@)[i as int] == groups_view(ms@[i as int]@));
                let id = first_match(ID, &tag);
                let item = match first_match(HREF, &tag) {
                    Some(h) => {
                        let href = trimmed(&h);
                        let key = to_lower(&href);
                        ManifestItem { tag, href: Some(href), key, id }
                    },
                    None => ManifestItem { tag, href: None, key: String::new(), id },
                };
                assert(item@ == all[i as int]);
                let ghost before = items@;
                items.push(item);
                i += 1;
                assert(item_views(items@) =~= item_views(before).push(item@));
                assert(item_views(items@) =~= all.take(i as int));
            }
            assert(item_views(items@) =~= all);
        },
        None => {
            assert(item_views(items@) =~= items_of(content@));
        },
    }
    items
}

/// Whether the package document `content` of the directory `opf_dir` declares a file
/// twice, or a file that is not one of `valid_paths`.
pub fn opf_needs_fix(content: &str, valid_paths: &Vec<String>, opf_dir: &str) -> (r: bool)
    ensures
        r == items_need_fix(items_of(content@), strs(valid_paths@), opf_dir@),
{
    let items = manifest_items(content);
    needs_fix(&items, valid_paths, opf_dir)
}

/// The text with the matches of `pattern` replaced by `fill`.
pub open spec fn refill(pattern: Seq<char>, text: Seq<char>, fill: Seq<Seq<char>>) -> Seq<char> {
    match regex_gaps(pattern, text) {
        Some(gaps) => splice(gaps, fill),
        None => text,
    }
}

/// `text` with `fill[i]` in place of match `i` of the pattern.
pub fn refilled(pattern: &str, text: &str, fill: &Vec<String>) -> (r: String)
    ensures
        r@ == refill(pattern@, text@, strs(fill@)),
        regex_matches(pattern@, text@) is None ==> r@ == text@,
        regex_matches(pattern@, text@) is Some && strs(fill@) == wholes(
            regex_matches(pattern@, text@)->0,
        ) ==> r@ == text@,
{
    match gaps_between(pattern, text) {
        Some(gaps) => spliced(&gaps, fill),
        None => text.to_owned(),
    }
}

/// The `itemref` tags of a spine, each without those that refer to an id of `gone`.
pub open spec fn spine_fill_of(content: Seq<char>, gone: Seq<Seq<char>>) -> Seq<Seq<char>> {
    match regex_matches(ITEMREF@, content) {
        Some(ms) => ms.map_values(
            |m: Seq<Option<Seq<char>>>|
                match first_group(IDREF@, whole(m)) {
                    Some(id) => if gone.contains(id) {
                        Seq::<char>::empty()
                    } else {
                        whole(m)
                    },
                    None => whole(m),
                },
        ),
        None => Seq::empty(),
    }
}

fn spine_refs(content: &str, Ghost(gone): Ghost<Seq<Seq<char>>>) -> (r: Vec<SpineRef>)
    ensures
        spine_fill(r@, gone) == spine_fill_of(content@, gone),
{
    let mut refs: Vec<SpineRef> = Vec::new();
    match captures_all(ITEMREF, content) {
        Some(ms) => {
            let ghost all = spine_fill_of(content@, gone);
            let mut i: usize = 0;
            while i < ms.len()
                invariant
                    i <= ms@.len(),
                    refs@.len() == i,
                    regex_matches(ITEMREF@, content@) == Some(matches_view(ms@)),
                    all == spine_fill_of(content@, gone),
                    spine_fill(refs@, gone) == all.take(i as int),
                decreases ms@.len() - i,
            {
                let tag = whole_of(&ms[i]);
                assert(matches_view(ms@)[i as int] == groups_view(ms@[i as int]@));
                let idref = first_match(IDREF, &tag);
                let ghost before = refs@;
                refs.push(SpineRef { tag, idref });
                i += 1;
                assert forall|k: int| 0 <= k < refs@.len() implies spine_fill(refs@, gone)[k]
                    == all[k] by {
                    if k < before.len() {
                        assert(spine_fill(before, gone)[k] == all.take(i - 1)[k]);
                    } else {
                        assert(whole(matches_view(ms@)[k]) == tag@);
                    }
                }
                assert(spine_fill(refs@, gone) =~= all.take(i as int));
            }
            assert(spine_fill(refs@, gone) =~= all);
        },
        None => {
            assert(spine_fill(refs@, gone) =~= spine_fill_of(content@, gone));
        },
    }
    refs
}

/// The repaired document: the items that repeat a declaration or declare a missing file
/// are taken out, and with the latter the spine entries that refer to them.
pub open spec fn fixed_opf(
    content: Seq<char>,
    valid: Seq<Seq<char>>,
    dir: Seq<char>,
) -> Seq<char> {
    let items = items_of(content);
    let text = refill(ITEM@, content, item_fill(items, valid, dir, items.len()));
    let gone = dangling_ids(items, valid, dir, items.len());
    if gone.len() == 0 {
        text
    } else {
        refill(ITEMREF@, text, spine_fill_of(text, gone))
    }
}

/// Repairs a package document. A document that needs no repair is left as it is.
pub fn fix_opf(content: &str, valid_paths: &Vec<String>, opf_dir: &str) -> (r: String)
    ensures
        r@ == fixed_opf(content@, strs(valid_paths@), opf_dir@),
        !items_need_fix(items_of(content@), strs(valid_paths@), opf_dir@) ==> r@ == content@,
{
    let items = manifest_items(content);
    assert(item_views(items@).len() == items@.len());
    proof {
        let views = items_of(content@);
        let valid = strs(valid_paths@);
        if !items_need_fix(views, valid, opf_dir@) {
            assert forall|i: int| 0 <= i < views.len() implies #[trigger] stays(
                views,
                i,
                valid,
                opf_dir@,
            ) by {}
            no_dangling(views, valid, opf_dir@, views.len());
            if regex_matches(ITEM@, content@) is Some {
                assert(item_fill(views, valid, opf_dir@, views.len()) =~= wholes(
                    regex_matches(ITEM@, content@)->0,
                ));
            }
        }
    }
    let (fill, gone) = fix_items(&items, valid_paths, opf_dir);
    let text = refilled(ITEM, content, &fill);
    assert(strs(gone@).len() == gone@.len());
    if gone.len() == 0 {
        text
    } else {
        let refs = spine_refs(&text, Ghost(strs(gone@)));
        let fill2 = fix_spine(&refs, &gone);
        refilled(ITEMREF, &text, &fill2)
    }
}

/// The items that stay need no repair: none repeats another and none dangles.
pub proof fn kept_items_need_no_fix(
    items: Seq<ItemView>,
    valid: Seq<Seq<char>>,
    dir: Seq<char>,
)
    ensures
        !items_need_fix(kept_items(items, valid, dir, items.len()), valid, dir),
{
    let kept = kept_items(items, valid, dir, items.len());
    kept_come_from(items, valid, dir, items.len());
    assert forall|i: int| 0 <= i < kept.len() implies #[trigger] stays(kept, i, valid, dir) by {
        let a = choose|a: int|
            0 <= a < items.len() && kept[i] == #[trigger] items[a] && stays(items, a, valid, dir);
        if repeats(kept, i) {
            kept_keys_differ(items, valid, dir, items.len());
        }
    }
}

/// Those of the first `n` items that stay.
pub open spec fn kept_items(
    items: Seq<ItemView>,
    valid: Seq<Seq<char>>,
    dir: Seq<char>,
    n: nat,
) -> Seq<ItemView>
    decreases n,
{
    if n == 0 {
        Seq::empty()
    } else {
        let before = kept_items(items, valid, dir, (n - 1) as nat);
        if stays(items, n - 1, valid, dir) {
            before.push(items[n - 1])
        } else {
            before
        }
    }
}

proof fn kept_come_from(items: Seq<ItemView>, valid: Seq<Seq<char>>, dir: Seq<char>, n: nat)
    requires
        n <= items.len(),
    ensures
        forall|i: int|
            0 <= i < kept_items(items, valid, dir, n).len() ==> exists|a: int|
                0 <= a < n && #[trigger] kept_items(items, valid, dir, n)[i] == #[trigger] items[a]
                    && stays(items, a, valid, dir),
    decreases n,
{
    if n > 0 {
        kept_come_from(items, valid, dir, (n - 1) as nat);
        let before = kept_items(items, valid, dir, (n - 1) as nat);
        let now = kept_items(items, valid, dir, n);
        assert forall|i: int| 0 <= i < now.len() implies exists|a: int|
            0 <= a < n && #[trigger] now[i] == #[trigger] items[a] && stays(items, a, valid, dir) by {
            if i < before.len() {
                assert(now[i] == before[i]);
            } else {
                assert(now[i] == items[n - 1]);
            }
        }
    }
}

proof fn kept_keys_differ(items: Seq<ItemView>, valid: Seq<Seq<char>>, dir: Seq<char>, n: nat)
    requires
        n <= items.len(),
    ensures
        forall|i: int, j: int|
            0 <= j < i < kept_items(items, valid, dir, n).len() ==> !((
            #[trigger] kept_items(items, valid, dir, n)[i]).href is Some && (
            #[trigger] kept_items(items, valid, dir, n)[j]).href is Some && kept_items(
                items,
                valid,
                dir,
                n,
            )[i].key == kept_items(items, valid, dir, n)[j].key),
    decreases n,
{
    if n > 0 {
        kept_keys_differ(items, valid, dir, (n - 1) as nat);
        kept_come_from(items, valid, dir, (n - 1) as nat);
        let before = kept_items(items, valid, dir, (n - 1) as nat);
        let now = kept_items(items, valid, dir, n);
        assert forall|i: int, j: int| 0 <= j < i < now.len() implies !((#[trigger] now[i]).href is Some
            && (#[trigger] now[j]).href is Some && now[i].key == now[j].key) by {
            assert(now[j] == before[j]);
            if i < before.len() {
                assert(now[i] == before[i]);
            } else {
                let a = choose|a: int|
                    0 <= a < n - 1 && before[j] == #[trigger] items[a] && stays(
                        items,
                        a,
                        valid,
                        dir,
                    );
                assert(items[a] == before[j]);
            }
        }
    }
}

proof fn no_dangling(items: Seq<ItemView>, valid: Seq<Seq<char>>, dir: Seq<char>, n: nat)
    requires
        n <= items.len(),
        forall|i: int| 0 <= i < items.len() ==> #[trigger] stays(items, i, valid, dir),
    ensures
        dangling_ids(items, valid, dir, n).len() == 0,
    decreases n,
{
    if n > 0 {
        no_dangling(items, valid, dir, (n - 1) as nat);
        assert(stays(items, n - 1, valid, dir));
    }
}

/// Where the `href` of an item leads. Slashes at its start are left off, and it is then read
/// from the root of the archive; without one it is read from the directory of the package
/// document.
pub proof fn an_href_is_read_from_the_document(dir: Seq<char>, href: Seq<char>, slashes: Seq<char>)
    requires
        href.len() > 0 ==> href[0] != '/',
        forall|i: int| 0 <= i < slashes.len() ==> #[trigger] slashes[i] == '/',
    ensures
        href_path(dir, href) == resolve_path(dir + href),
        slashes.len() > 0 ==> href_path(dir, slashes + href) == resolve_path(href),
{
    if slashes.len() > 0 {
        let s = slashes + href;
        assert(s[0] == slashes[0]);
        let n = slashes_are_stripped(s);
        let k = slashes.len() as int;
        if n < k {
            assert(s[n] == slashes[n]);
        }
        if n > k {
            assert(s[k] == href[0]);
        }
        assert(s.skip(k) =~= href);
    }
}

/// The text between the quotes is the `href` of an item without the white space round it, and
/// two items declare the same file where these are the same but for capitals. An item whose tag
/// has no `href` declares none.
pub proof fn what_an_item_declares(a: Seq<char>, b: Seq<char>)
    ensures
        item_of_tag(a).tag == a,
        item_of_tag(a).id == first_group(ID@, a),
        match first_group(HREF@, a) {
            Some(h) => item_of_tag(a).href == Some(trim(h)),
            None => item_of_tag(a).href is None,
        },
        (first_group(HREF@, a) is Some && first_group(HREF@, b) is Some) ==> ((item_of_tag(a).key
            == item_of_tag(b).key) == (lowercase(trim(first_group(HREF@, a)->0)) == lowercase(
            trim(first_group(HREF@, b)->0),
        ))),
{
}

/// An item stays as it stands exactly where it declares no file, or declares one that the
/// archive holds and that no item before it declares. Every other item is left out.
pub proof fn which_items_stay(
    items: Seq<ItemView>,
    valid: Seq<Seq<char>>,
    dir: Seq<char>,
    n: nat,
    i: int,
)
    requires
        0 <= i < n <= items.len(),
    ensures
        item_fill(items, valid, dir, n).len() == n,
        items[i].href is None ==> item_fill(items, valid, dir, n)[i] == items[i].tag,
        items[i].href matches Some(h) ==> item_fill(items, valid, dir, n)[i] == (if valid.contains(
            href_path(dir, h),
        ) && (forall|j: int|
            0 <= j < i ==> (#[trigger] items[j]).href is Some ==> items[j].key != items[i].key) {
            items[i].tag
        } else {
            Seq::empty()
        }),
{
}

/// An id is left out of the spine exactly where it is that of an item whose file is missing and
/// that is the first to declare it.
pub proof fn which_ids_are_gone(
    items: Seq<ItemView>,
    valid: Seq<Seq<char>>,
    dir: Seq<char>,
    n: nat,
    id: Seq<char>,
)
    requires
        n <= items.len(),
    ensures
        dangling_ids(items, valid, dir, n).contains(id) <==> exists|i: int|
            0 <= i < n && (#[trigger] items[i]).id == Some(id) && items[i].href is Some
                && !valid.contains(href_path(dir, items[i].href->0)) && !repeats(items, i),
    decreases n,
{
    let all = dangling_ids(items, valid, dir, n);
    if n > 0 {
        which_ids_are_gone(items, valid, dir, (n - 1) as nat, id);
        let before = dangling_ids(items, valid, dir, (n - 1) as nat);
        let k = n - 1;
        if all.contains(id) {
            let p = choose|p: int| 0 <= p < all.len() && all[p] == id;
            if p < before.len() {
                assert(before[p] == id);
                assert(before.contains(id));
            } else {
                assert(items[k].id == Some(id));
            }
        }
        if before.contains(id) {
            let p = choose|p: int| 0 <= p < before.len() && before[p] == id;
            assert(all[p] == id);
        }
        if exists|i: int|
            0 <= i < n && (#[trigger] items[i]).id == Some(id) && items[i].href is Some
                && !valid.contains(href_path(dir, items[i].href->0)) && !repeats(items, i) {
            let i = choose|i: int|
                0 <= i < n && (#[trigger] items[i]).id == Some(id) && items[i].href is Some
                    && !valid.contains(href_path(dir, items[i].href->0)) && !repeats(items, i);
            if i == k {
                assert(all.last() == id);
            }
        }
    }
}

/// A document whose items all stay comes out as it is. Of one with a missing file, the spine
/// entries that refer to it go too and no other does.
pub proof fn what_the_repair_leaves(
    content: Seq<char>,
    valid: Seq<Seq<char>>,
    dir: Seq<char>,
    ms: Seq<Seq<Option<Seq<char>>>>,
    gaps: Seq<Seq<char>>,
)
    requires
        regex_matches(ITEM@, content) == Some(ms),
        regex_gaps(ITEM@, content) == Some(gaps),
        splice(gaps, wholes(ms)) == content,
    ensures
        items_of(content).len() == ms.len(),
        (forall|i: int| 0 <= i < ms.len() ==> #[trigger] stays(items_of(content), i, valid, dir))
            ==> fixed_opf(content, valid, dir) == content,
        (forall|i: int|
            0 <= i < ms.len() ==> !(#[trigger] dangles(items_of(content), i, valid, dir)))
            ==> fixed_opf(content, valid, dir) == splice(
            gaps,
            item_fill(items_of(content), valid, dir, ms.len()),
        ),
{
    let items = items_of(content);
    let fill = item_fill(items, valid, dir, ms.len());
    if forall|i: int| 0 <= i < ms.len() ==> #[trigger] stays(items, i, valid, dir) {
        assert forall|i: int| 0 <= i < ms.len() implies fill[i] == wholes(ms)[i] by {
            assert(stays(items, i, valid, dir));
        }
        assert(fill =~= wholes(ms));
        assert forall|i: int| 0 <= i < ms.len() implies !(#[trigger] dangles(
            items,
            i,
            valid,
            dir,
        )) by {
            assert(stays(items, i, valid, dir));
        }
    }
    if forall|i: int| 0 <= i < ms.len() ==> !(#[trigger] dangles(items, i, valid, dir)) {
        none_is_gone(items, valid, dir, ms.len());
    }
}

proof fn none_is_gone(items: Seq<ItemView>, valid: Seq<Seq<char>>, dir: Seq<char>, n: nat)
    requires
        forall|i: int| 0 <= i < n ==> !(#[trigger] dangles(items, i, valid, dir)),
    ensures
        dangling_ids(items, valid, dir, n) == Seq::<Seq<char>>::empty(),
    decreases n,
{
    if n > 0 {
        none_is_gone(items, valid, dir, (n - 1) as nat);
        assert(!dangles(items, n - 1, valid, dir));
    }
}

/// Each entry of the spine is left out where it refers to an item that is gone, and stays as it
/// stands otherwise.
pub proof fn which_spine_entries_stay(
    content: Seq<char>,
    gone: Seq<Seq<char>>,
    ms: Seq<Seq<Option<Seq<char>>>>,
    i: int,
)
    requires
        regex_matches(ITEMREF@, content) == Some(ms),
        0 <= i < ms.len(),
    ensures
        spine_fill_of(content, gone).len() == ms.len(),
        (first_group(IDREF@, whole(ms[i])) matches Some(id) && gone.contains(id))
            ==> spine_fill_of(content, gone)[i].len() == 0,
        (first_group(IDREF@, whole(ms[i])) matches Some(id) ==> !gone.contains(id))
            ==> spine_fill_of(content, gone)[i] == whole(ms[i]),
{
}

} // verus!
