//! The reference counts of cover files. A file may go only once nothing refers to it.
use vstd::prelude::*;
use vstd::string::*;

use crate::db::{
    cover_map, holds, paths_differ, BookView, Catalog, CatalogView, CoverRef, SourceView,
};
use crate::json::{field_of_json, read_field};
use crate::seqs::{filter_from, filter_none, filter_places, filter_step, take_all};
use crate::text::{blank, is_blank, opt_str, same, strs, strs_push};

verus! {

proof fn cover_map_has(v: Seq<CoverRef>, p: Seq<char>)
    ensures
        cover_map(v).contains_key(p) <==> exists|i: int|
            0 <= i < v.len() && (#[trigger] v[i]).path@ == p,
    decreases v.len(),
{
    if v.len() > 0 {
        cover_map_has(v.drop_last(), p);
        if exists|i: int| 0 <= i < v.len() && (#[trigger] v[i]).path@ == p {
            let i = choose|i: int| 0 <= i < v.len() && (#[trigger] v[i]).path@ == p;
            if i < v.len() - 1 {
                assert(v.drop_last()[i].path@ == p);
            }
        }
        if cover_map(v.drop_last()).contains_key(p) {
            let i = choose|i: int|
                0 <= i < v.drop_last().len() && (#[trigger] v.drop_last()[i]).path@ == p;
            assert(v[i].path@ == p);
        }
    }
}

proof fn cover_map_value(v: Seq<CoverRef>, k: int)
    requires
        paths_differ(v),
        0 <= k < v.len(),
    ensures
        cover_map(v).contains_key(v[k].path@),
        cover_map(v)[v[k].path@] == v[k].refs,
    decreases v.len(),
{
    if k < v.len() - 1 {
        assert forall|i: int, j: int| 0 <= i < j < v.drop_last().len() implies (
        #[trigger] v.drop_last()[i]).path@ != (#[trigger] v.drop_last()[j]).path@ by {
            assert(v[i].path@ != v[j].path@);
        }
        cover_map_value(v.drop_last(), k);
        assert(v.drop_last()[k] == v[k]);
        assert(v[k].path@ != v[v.len() - 1].path@);
    }
}

/// The list stands for the map: it has the same paths with the same counts.
spec fn stands_for(v: Seq<CoverRef>, m: Map<Seq<char>, int>) -> bool {
    &&& forall|p: Seq<char>|
        #[trigger] m.contains_key(p) <==> exists|i: int|
            0 <= i < v.len() && (#[trigger] v[i]).path@ == p
    &&& forall|i: int| 0 <= i < v.len() ==> m[(#[trigger] v[i]).path@] == v[i].refs
}

proof fn stands_for_its_map(v: Seq<CoverRef>)
    requires
        paths_differ(v),
    ensures
        stands_for(v, cover_map(v)),
{
    let m = cover_map(v);
    assert forall|p: Seq<char>| #[trigger] m.contains_key(p) <==> exists|i: int|
        0 <= i < v.len() && (#[trigger] v[i]).path@ == p by {
        cover_map_has(v, p);
    }
    assert forall|i: int| 0 <= i < v.len() implies m[(#[trigger] v[i]).path@] == v[i].refs by {
        cover_map_value(v, i);
    }
}

proof fn stands_for_one_map(v: Seq<CoverRef>, m: Map<Seq<char>, int>)
    requires
        paths_differ(v),
        stands_for(v, m),
    ensures
        cover_map(v) == m,
{
    stands_for_its_map(v);
    let n = cover_map(v);
    assert forall|p: Seq<char>| n.contains_key(p) == m.contains_key(p) by {}
    assert forall|p: Seq<char>| n.contains_key(p) implies n[p] == m[p] by {
        let i = choose|i: int| 0 <= i < v.len() && (#[trigger] v[i]).path@ == p;
        assert(n[v[i].path@] == v[i].refs);
    }
    assert(n =~= m);
}

/// The count one higher; it stays at the largest number.
pub open spec fn bump(n: int) -> int {
    if n < i64::MAX {
        n + 1
    } else {
        n
    }
}

/// `n`, or the largest number where it is above.
pub open spec fn capped(n: int) -> int {
    if n <= i64::MAX {
        n
    } else {
        i64::MAX as int
    }
}

/// The counts with one reference to `path` more.
pub open spec fn ref_added(m: Map<Seq<char>, int>, path: Seq<char>) -> Map<Seq<char>, int> {
    if m.contains_key(path) {
        m.insert(path, bump(m[path]))
    } else {
        m.insert(path, 1)
    }
}

/// How many books and sources have the cover `path`.
pub open spec fn live_refs(c: CatalogView, path: Seq<char>) -> nat {
    c.books.filter(|b: BookView| b.cover_path == Some(path)).len() + c.sources.filter(
        |s: SourceView| s.cover_path == Some(path),
    ).len()
}

/// What is left of the count of `path` after a release. A path without a count is taken
/// to have been referred to by every book and source that has it.
pub open spec fn count_after_release(c: CatalogView, path: Seq<char>) -> int {
    if c.covers.contains_key(path) && c.covers[path] > 0 {
        c.covers[path] - 1
    } else {
        capped(live_refs(c, path) - 1)
    }
}

/// The catalogue after a release of `path`.
pub open spec fn ref_released(c: CatalogView, path: Seq<char>) -> CatalogView {
    let n = count_after_release(c, path);
    CatalogView {
        covers: if n > 0 {
            c.covers.insert(path, n)
        } else {
            c.covers.remove(path)
        },
        ..c
    }
}

/// Whether the file may go after a release of `path`.
pub open spec fn is_orphan(c: CatalogView, path: Seq<char>) -> bool {
    count_after_release(c, path) <= 0 && live_refs(c, path) == 0
}

/// The catalogue after the release of each of the first `n` paths.
pub open spec fn released_first(c: CatalogView, paths: Seq<Seq<char>>, n: nat) -> CatalogView
    decreases n,
{
    if n == 0 {
        c
    } else {
        ref_released(released_first(c, paths, (n - 1) as nat), paths[n - 1])
    }
}

/// Those of the first `n` paths whose files may go once all are released in turn.
pub open spec fn orphans_first(c: CatalogView, paths: Seq<Seq<char>>, n: nat) -> Seq<Seq<char>>
    decreases n,
{
    if n == 0 {
        Seq::empty()
    } else {
        let before = orphans_first(c, paths, (n - 1) as nat);
        if is_orphan(released_first(c, paths, (n - 1) as nat), paths[n - 1]) {
            before.push(paths[n - 1])
        } else {
            before
        }
    }
}

/// The catalogue after the release of each path.
pub open spec fn released_all(c: CatalogView, paths: Seq<Seq<char>>) -> CatalogView {
    released_first(c, paths, paths.len())
}

/// The paths whose files may go once all are released in turn.
pub open spec fn orphans_of(c: CatalogView, paths: Seq<Seq<char>>) -> Seq<Seq<char>> {
    orphans_first(c, paths, paths.len())
}

/// The counts with one reference to each of the first `n` paths more.
pub open spec fn refs_added_first(
    m: Map<Seq<char>, int>,
    paths: Seq<Seq<char>>,
    n: nat,
) -> Map<Seq<char>, int>
    decreases n,
{
    if n == 0 {
        m
    } else {
        ref_added(refs_added_first(m, paths, (n - 1) as nat), paths[n - 1])
    }
}

/// The counts with one reference to each path more.
pub open spec fn refs_added(m: Map<Seq<char>, int>, paths: Seq<Seq<char>>) -> Map<Seq<char>, int> {
    refs_added_first(m, paths, paths.len())
}

/// A release touches the counts alone.
pub proof fn release_keeps_rows(c: CatalogView, paths: Seq<Seq<char>>, n: nat)
    ensures
        released_first(c, paths, n) == (CatalogView {
            covers: released_first(c, paths, n).covers,
            ..c
        }),
    decreases n,
{
    if n > 0 {
        release_keeps_rows(c, paths, (n - 1) as nat);
    }
}

/// No file goes that a book or a source still has as its cover.
pub proof fn orphans_are_unused(c: CatalogView, paths: Seq<Seq<char>>)
    ensures
        forall|i: int|
            0 <= i < orphans_of(c, paths).len() ==> live_refs(c, #[trigger] orphans_of(c, paths)[i])
                == 0,
{
    orphans_first_unused(c, paths, paths.len());
}

proof fn orphans_first_unused(c: CatalogView, paths: Seq<Seq<char>>, n: nat)
    ensures
        forall|i: int|
            0 <= i < orphans_first(c, paths, n).len() ==> live_refs(
                c,
                #[trigger] orphans_first(c, paths, n)[i],
            ) == 0,
    decreases n,
{
    if n > 0 {
        orphans_first_unused(c, paths, (n - 1) as nat);
        release_keeps_rows(c, paths, (n - 1) as nat);
        let before = orphans_first(c, paths, (n - 1) as nat);
        let now = orphans_first(c, paths, n);
        assert forall|i: int| 0 <= i < now.len() implies live_refs(c, #[trigger] now[i]) == 0 by {
            if i < before.len() {
                assert(now[i] == before[i]);
            }
        }
    }
}

/// Of a path that nothing has as its cover, `n` registered references take `n` releases
/// until the file may go, and a release after a further reference changes nothing.
pub proof fn count_goes_down_by_one(c: CatalogView, path: Seq<char>)
    requires
        c.covers.contains_key(path),
        0 < c.covers[path] < i64::MAX,
    ensures
        c.covers[path] > 1 ==> !is_orphan(c, path) && ref_released(c, path).covers
            == c.covers.insert(path, c.covers[path] - 1),
        c.covers[path] == 1 ==> (is_orphan(c, path) <==> live_refs(c, path) == 0) && !ref_released(
            c,
            path,
        ).covers.contains_key(path),
        ref_released(CatalogView { covers: ref_added(c.covers, path), ..c }, path) == c,
{
    let more = CatalogView { covers: ref_added(c.covers, path), ..c };
    assert(ref_released(more, path).covers =~= c.covers);
}

// ---- edition covers ----

/// The values that are there and not blank.
pub open spec fn filled(v: Seq<Option<Seq<char>>>) -> Seq<Seq<char>> {
    v.filter(|o: Option<Seq<char>>| o is Some && !is_blank(o->0)).map_values(
        |o: Option<Seq<char>>| o->0,
    )
}

/// The local paths of the edition covers of a source.
pub open spec fn edition_paths(editions: Option<Seq<char>>) -> Seq<Seq<char>> {
    match editions {
        None => Seq::empty(),
        Some(text) => match field_of_json(text, "path"@) {
            None => Seq::empty(),
            Some(v) => filled(v),
        },
    }
}

/// The values that are there and not blank.
pub fn fill_list(v: &Vec<Option<String>>) -> (r: Vec<String>)
    ensures
        strs(r@) == filled(v@.map_values(|o: Option<String>| opt_str(o))),
{
    let ghost all = v@.map_values(|o: Option<String>| opt_str(o));
    let ghost keep = |o: Option<Seq<char>>| o is Some && !is_blank(o->0);
    let ghost value = |o: Option<Seq<char>>| o->0;
    let mut out: Vec<String> = Vec::new();
    let mut i: usize = 0;
    proof {
        filter_none(all, keep);
    }
    assert(strs(out@) =~= all.take(0).filter(keep).map_values(value));
    while i < v.len()
        invariant
            i <= v@.len(),
            all == v@.map_values(|o: Option<String>| opt_str(o)),
            keep == |o: Option<Seq<char>>| o is Some && !is_blank(o->0),
            value == |o: Option<Seq<char>>| o->0,
            strs(out@) == all.take(i as int).filter(keep).map_values(value),
        decreases v@.len() - i,
    {
        proof {
            filter_step(all, i as int, keep);
        }
        let ghost was = all.take(i as int).filter(keep);
        assert(all[i as int] == opt_str(v@[i as int]));
        if let Some(s) = &v[i] {
            if !blank(s) {
                proof {
                    strs_push(out@, *s);
                    assert(was.push(all[i as int]).map_values(value) =~= was.map_values(value).push(
                        s@,
                    ));
                }
                out.push(s.clone());
            }
        }
        i += 1;
    }
    proof {
        take_all(all);
    }
    out
}

/// The local paths of the edition covers of a source.
pub fn editions_paths(editions: &Option<String>) -> (r: Vec<String>)
    ensures
        strs(r@) == edition_paths(opt_str(*editions)),
{
    let empty: Vec<String> = Vec::new();
    assert(strs(empty@) =~= Seq::<Seq<char>>::empty());
    match editions {
        None => empty,
        Some(text) => match read_field(text, "path") {
            None => empty,
            Some(v) => fill_list(&v),
        },
    }
}

impl Catalog {
    fn cover_at(&self, path: &str) -> (r: Option<usize>)
        ensures
            match r {
                Some(k) => k < self.covers@.len() && self.covers@[k as int].path@ == path@,
                None => forall|i: int|
                    0 <= i < self.covers@.len() ==> (#[trigger] self.covers@[i]).path@ != path@,
            },
    {
        let mut i: usize = 0;
        while i < self.covers.len()
            invariant
                i <= self.covers@.len(),
                forall|j: int| 0 <= j < i ==> (#[trigger] self.covers@[j]).path@ != path@,
            decreases self.covers@.len() - i,
        {
            if same(&self.covers[i].path, path) {
                return Some(i);
            }
            i += 1;
        }
        None
    }

    fn put_count(&mut self, path: &str, refs: i64)
        requires
            old(self).wf(),
        ensures
            final(self).wf(),
            final(self)@ == (CatalogView {
                covers: old(self)@.covers.insert(path@, refs as int),
                ..old(self)@
            }),
    {
        let ghost v = self.covers@;
        let ghost m = cover_map(v).insert(path@, refs as int);
        proof {
            stands_for_its_map(v);
        }
        match self.cover_at(path) {
            Some(k) => {
                self.covers[k].refs = refs;
                proof {
                    let w = self.covers@;
                    assert(forall|i: int| 0 <= i < v.len() ==> (#[trigger] w[i]).path@ == v[i].path@);
                    assert forall|i: int, j: int| 0 <= i < j < w.len() implies (
                    #[trigger] w[i]).path@ != (#[trigger] w[j]).path@ by {
                        assert(v[i].path@ != v[j].path@);
                    }
                    assert forall|p: Seq<char>| #[trigger] m.contains_key(p) <==> exists|i: int|
                        0 <= i < w.len() && (#[trigger] w[i]).path@ == p by {
                        if m.contains_key(p) {
                            if p == path@ {
                                assert(w[k as int].path@ == p);
                            } else {
                                assert(cover_map(v).contains_key(p));
                                let i = choose|i: int| 0 <= i < v.len() && (#[trigger] v[i]).path@ == p;
                                assert(w[i].path@ == p);
                            }
                        }
                        if exists|i: int| 0 <= i < w.len() && (#[trigger] w[i]).path@ == p {
                            let i = choose|i: int| 0 <= i < w.len() && (#[trigger] w[i]).path@ == p;
                            assert(v[i].path@ == p);
                            assert(cover_map(v).contains_key(p));
                        }
                    }
                    assert forall|i: int| 0 <= i < w.len() implies m[(#[trigger] w[i]).path@]
                        == w[i].refs by {
                        if i != k {
                            assert(v[i].path@ != v[k as int].path@);
                            assert(cover_map(v)[v[i].path@] == v[i].refs);
                        }
                    }
                    stands_for_one_map(w, m);
                }
            },
            None => {
                self.covers.push(CoverRef { path: path.to_owned(), refs });
                proof {
                    let w = self.covers@;
                    assert(w.drop_last() =~= v);
                }
            },
        }
    }

    fn drop_count(&mut self, path: &str)
        requires
            old(self).wf(),
        ensures
            final(self).wf(),
            final(self)@ == (CatalogView {
                covers: old(self)@.covers.remove(path@),
                ..old(self)@
            }),
    {
        let ghost v = self.covers@;
        let ghost m = cover_map(v).remove(path@);
        proof {
            stands_for_its_map(v);
        }
        match self.cover_at(path) {
            Some(k) => {
                let _ = self.covers.remove(k);
                proof {
                    let w = self.covers@;
                    assert(w =~= v.remove(k as int));
                    assert(forall|i: int|
                        0 <= i < w.len() ==> (#[trigger] w[i]) == v[if i < k {
                            i
                        } else {
                            i + 1
                        }]);
                    assert forall|i: int, j: int| 0 <= i < j < w.len() implies (
                    #[trigger] w[i]).path@ != (#[trigger] w[j]).path@ by {
                        let a = if i < k {
                            i
                        } else {
                            i + 1
                        };
                        let b = if j < k {
                            j
                        } else {
                            j + 1
                        };
                        assert(v[a].path@ != v[b].path@);
                    }
                    assert forall|p: Seq<char>| #[trigger] m.contains_key(p) <==> exists|i: int|
                        0 <= i < w.len() && (#[trigger] w[i]).path@ == p by {
                        if m.contains_key(p) {
                            assert(cover_map(v).contains_key(p));
                            let i = choose|i: int| 0 <= i < v.len() && (#[trigger] v[i]).path@ == p;
                            if i < k {
                                assert(w[i].path@ == p);
                            } else {
                                assert(w[i - 1].path@ == p);
                            }
                        }
                        if exists|i: int| 0 <= i < w.len() && (#[trigger] w[i]).path@ == p {
                            let i = choose|i: int| 0 <= i < w.len() && (#[trigger] w[i]).path@ == p;
                            let a = if i < k {
                                i
                            } else {
                                i + 1
                            };
                            assert(v[a].path@ == p);
                            assert(cover_map(v).contains_key(p));
                            if a < k {
                                assert(v[a].path@ != v[k as int].path@);
                            } else {
                                assert(v[k as int].path@ != v[a].path@);
                            }
                        }
                    }
                    assert forall|i: int| 0 <= i < w.len() implies m[(#[trigger] w[i]).path@]
                        == w[i].refs by {
                        let a = if i < k {
                            i
                        } else {
                            i + 1
                        };
                        assert(cover_map(v)[v[a].path@] == v[a].refs);
                        if a < k {
                            assert(v[a].path@ != v[k as int].path@);
                        } else {
                            assert(v[k as int].path@ != v[a].path@);
                        }
                    }
                    stands_for_one_map(w, m);
                }
            },
            None => {
                proof {
                    assert(!cover_map(v).contains_key(path@));
                    assert(cover_map(v).remove(path@) =~= cover_map(v));
                }
            },
        }
    }

    /// Whether a cover file is registered with a count above zero.
    pub fn cover_has_ref(&self, path: &str) -> (r: bool)
        requires
            self.wf(),
        ensures
            r == (self@.covers.contains_key(path@) && self@.covers[path@] > 0),
    {
        proof {
            stands_for_its_map(self.covers@);
        }
        match self.cover_at(path) {
            Some(k) => self.covers[k].refs > 0,
            None => {
                assert(!self@.covers.contains_key(path@));
                false
            },
        }
    }

    /// Which of the files of a cover directory nothing refers to.
    pub fn cleanup_unreferenced_covers(&self, files: &Vec<String>) -> (r: Vec<String>)
        requires
            self.wf(),
        ensures
            strs(r@) == strs(files@).filter(
                |p: Seq<char>| !(self@.covers.contains_key(p) && self@.covers[p] > 0),
            ),
    {
        let ghost all = strs(files@);
        let ghost gone = |p: Seq<char>| !(self@.covers.contains_key(p) && self@.covers[p] > 0);
        let mut out: Vec<String> = Vec::new();
        let mut i: usize = 0;
        proof {
            filter_none(all, gone);
        }
        assert(strs(out@) =~= all.take(0).filter(gone));
        while i < files.len()
            invariant
                i <= files@.len(),
                self.wf(),
                all == strs(files@),
                gone == |p: Seq<char>| !(self@.covers.contains_key(p) && self@.covers[p] > 0),
                strs(out@) == all.take(i as int).filter(gone),
            decreases files@.len() - i,
        {
            proof {
                filter_step(all, i as int, gone);
                strs_push(out@, files@[i as int]);
            }
            if !self.cover_has_ref(&files[i]) {
                out.push(files[i].clone());
            }
            i += 1;
        }
        proof {
            take_all(all);
        }
        out
    }

    /// How many books and sources have the cover `path`.
    fn live_cover_refs(&self, path: &str) -> (n: u128)
        ensures
            n == live_refs(self@, path@),
    {
        let ghost books = self@.books;
        let ghost sources = self@.sources;
        let ghost f = |b: BookView| b.cover_path == Some(path@);
        let ghost g = |s: SourceView| s.cover_path == Some(path@);
        let mut n: u128 = 0;
        let mut i: usize = 0;
        proof {
            filter_none(books, f);
        }
        while i < self.books.len()
            invariant
                i <= self.books@.len(),
                books == self@.books,
                f == |b: BookView| b.cover_path == Some(path@),
                n == books.take(i as int).filter(f).len(),
                n <= i,
            decreases self.books@.len() - i,
        {
            proof {
                filter_step(books, i as int, f);
                assert(books[i as int] == self.books@[i as int]@);
            }
            if holds(&self.books[i].cover_path, path) {
                n += 1;
            }
            i += 1;
        }
        proof {
            take_all(books);
            filter_none(sources, g);
        }
        let mut m: u128 = 0;
        let mut j: usize = 0;
        while j < self.sources.len()
            invariant
                j <= self.sources@.len(),
                sources == self@.sources,
                g == |s: SourceView| s.cover_path == Some(path@),
                m == sources.take(j as int).filter(g).len(),
                m <= j,
            decreases self.sources@.len() - j,
        {
            proof {
                filter_step(sources, j as int, g);
                assert(sources[j as int] == self.sources@[j as int]@);
            }
            if holds(&self.sources[j].row.cover_path, path) {
                m += 1;
            }
            j += 1;
        }
        proof {
            take_all(sources);
        }
        n + m
    }

    /// Registers one reference to a cover file.
    pub fn cover_ref_add(&mut self, path: &str)
        requires
            old(self).wf(),
        ensures
            final(self).wf(),
            final(self)@ == (CatalogView {
                covers: ref_added(old(self)@.covers, path@),
                ..old(self)@
            }),
    {
        proof {
            stands_for_its_map(self.covers@);
        }
        match self.cover_at(path) {
            Some(k) => {
                let n: i64 = self.covers[k].refs;
                let m: i64 = if n < i64::MAX {
                    n + 1
                } else {
                    n
                };
                assert(self@.covers.contains_key(self.covers@[k as int].path@));
                self.put_count(path, m);
            },
            None => {
                assert(!self@.covers.contains_key(path@));
                self.put_count(path, 1);
            },
        }
    }

    /// Releases one reference to a cover file. Says whether the file may go: its count has
    /// run out and no book or source has it as its cover.
    pub fn cover_ref_release(&mut self, path: &str) -> (r: bool)
        requires
            old(self).wf(),
        ensures
            final(self).wf(),
            final(self)@ == ref_released(old(self)@, path@),
            r == is_orphan(old(self)@, path@),
    {
        proof {
            stands_for_its_map(self.covers@);
        }
        let live: u128 = self.live_cover_refs(path);
        let counted: i64 = match self.cover_at(path) {
            Some(k) => {
                assert(self@.covers.contains_key(self.covers@[k as int].path@));
                self.covers[k].refs
            },
            None => {
                assert(!self@.covers.contains_key(path@));
                0
            },
        };
        let after: i64 = if counted > 0 {
            counted - 1
        } else if live == 0 {
            -1
        } else if live - 1 > i64::MAX as u128 {
            i64::MAX
        } else {
            (live - 1) as i64
        };
        if after > 0 {
            self.put_count(path, after);
            false
        } else {
            self.drop_count(path);
            live == 0
        }
    }

    /// Releases one reference to each path, and gives those whose files may go.
    pub fn release_paths(&mut self, paths: &Vec<String>) -> (r: Vec<String>)
        requires
            old(self).wf(),
        ensures
            final(self).wf(),
            final(self)@ == released_all(old(self)@, strs(paths@)),
            strs(r@) == orphans_of(old(self)@, strs(paths@)),
    {
        let ghost c = self@;
        let ghost all = strs(paths@);
        let mut out: Vec<String> = Vec::new();
        let mut i: usize = 0;
        assert(strs(out@) =~= orphans_first(c, all, 0));
        while i < paths.len()
            invariant
                i <= paths@.len(),
                self.wf(),
                all == strs(paths@),
                self@ == released_first(c, all, i as nat),
                strs(out@) == orphans_first(c, all, i as nat),
            decreases paths@.len() - i,
        {
            assert(all[i as int] == paths@[i as int]@);
            if self.cover_ref_release(&paths[i]) {
                proof {
                    strs_push(out@, paths@[i as int]);
                }
                out.push(paths[i].clone());
            }
            i += 1;
        }
        out
    }

    /// Registers one reference to each path.
    pub fn add_paths(&mut self, paths: &Vec<String>)
        requires
            old(self).wf(),
        ensures
            final(self).wf(),
            final(self)@ == (CatalogView {
                covers: refs_added(old(self)@.covers, strs(paths@)),
                ..old(self)@
            }),
    {
        let ghost c = self@;
        let ghost all = strs(paths@);
        let mut i: usize = 0;
        while i < paths.len()
            invariant
                i <= paths@.len(),
                self.wf(),
                all == strs(paths@),
                self@ == (CatalogView { covers: refs_added_first(c.covers, all, i as nat), ..c }),
            decreases paths@.len() - i,
        {
            assert(all[i as int] == paths@[i as int]@);
            self.cover_ref_add(&paths[i]);
            i += 1;
        }
    }
}

/// How often `x` is among the paths.
pub open spec fn times(paths: Seq<Seq<char>>, x: Seq<char>) -> nat {
    paths.to_multiset().count(x)
}

/// Registering paths raises the count of each by as many as it is named, and registers those that
/// were not; no other count changes.
pub proof fn references_add_up(m: Map<Seq<char>, int>, paths: Seq<Seq<char>>, x: Seq<char>)
    requires
        m.contains_key(x) ==> m[x] + times(paths, x) <= i64::MAX,
        !m.contains_key(x) ==> times(paths, x) <= i64::MAX,
    ensures
        refs_added(m, paths).contains_key(x) <==> m.contains_key(x) || times(paths, x) > 0,
        m.contains_key(x) ==> refs_added(m, paths)[x] == m[x] + times(paths, x),
        !m.contains_key(x) && times(paths, x) > 0 ==> refs_added(m, paths)[x] == times(paths, x),
{
    take_all(paths);
    references_so_far(m, paths, x, paths.len());
}

proof fn references_so_far(m: Map<Seq<char>, int>, paths: Seq<Seq<char>>, x: Seq<char>, n: nat)
    requires
        n <= paths.len(),
        m.contains_key(x) ==> m[x] + times(paths.take(n as int), x) <= i64::MAX,
        !m.contains_key(x) ==> times(paths.take(n as int), x) <= i64::MAX,
    ensures
        ({
            let r = refs_added_first(m, paths, n);
            let t = times(paths.take(n as int), x);
            &&& r.contains_key(x) <==> m.contains_key(x) || t > 0
            &&& m.contains_key(x) ==> r[x] == m[x] + t
            &&& !m.contains_key(x) && t > 0 ==> r[x] == t
        }),
    decreases n,
{
    broadcast use vstd::seq_lib::group_to_multiset_ensures;

    if n > 0 {
        let k = n - 1;
        assert(paths.take(n as int) =~= paths.take(k).push(paths[k]));
        references_so_far(m, paths, x, k as nat);
    } else {
        assert(paths.take(0).to_multiset().count(x) == 0) by {
            assert(paths.take(0).len() == 0);
            assert(paths.take(0).to_multiset().len() == 0);
        }
    }
}

/// A cover without a count is taken to have been referred to by each book and each source that
/// has it: after a release one fewer is left, and its file goes only where nothing has it.
pub proof fn what_a_release_without_a_count_leaves(c: CatalogView, path: Seq<char>)
    requires
        !c.covers.contains_key(path),
        c.books.len() + c.sources.len() <= i64::MAX,
    ensures
        ({
            let n = c.books.filter(|b: BookView| b.cover_path == Some(path)).len()
                + c.sources.filter(|s: SourceView| s.cover_path == Some(path)).len();
            &&& is_orphan(c, path) <==> n == 0
            &&& n <= 1 ==> !ref_released(c, path).covers.contains_key(path)
            &&& n > 1 ==> ref_released(c, path).covers.contains_key(path) && ref_released(
                c,
                path,
            ).covers[path] == n - 1
        }),
{
    filter_from(c.books, |b: BookView| b.cover_path == Some(path));
    filter_from(c.sources, |s: SourceView| s.cover_path == Some(path));
}

/// The covers of the editions of a source are the paths in its list that are there and not
/// blank, in order. `m` says which.
pub proof fn every_path_of_an_edition_counts(text: Seq<char>, v: Seq<Option<Seq<char>>>) -> (m: Seq<
    int,
>)
    requires
        field_of_json(text, "path"@) == Some(v),
    ensures
        m.len() == edition_paths(Some(text)).len(),
        forall|i: int, j: int| 0 <= i < j < m.len() ==> #[trigger] m[i] < #[trigger] m[j],
        forall|i: int|
            0 <= i < m.len() ==> 0 <= #[trigger] m[i] < v.len() && v[m[i]] == Some(
                edition_paths(Some(text))[i],
            ) && !is_blank(edition_paths(Some(text))[i]),
        forall|p: int|
            0 <= p < v.len() && (#[trigger] v[p]) is Some && !is_blank(v[p]->0) ==> m.contains(p),
{
    let f = |o: Option<Seq<char>>| o is Some && !is_blank(o->0);
    let m = filter_places(v, f);
    assert forall|p: int| 0 <= p < v.len() && (#[trigger] v[p]) is Some && !is_blank(v[p]->0) implies m.contains(
    p) by {
        assert(f(v[p]));
    }
    m
}

} // verus!
