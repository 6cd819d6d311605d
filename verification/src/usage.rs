//! The token usage of language models, and the rebuilding of the cover counts.
use vstd::prelude::*;
use vstd::string::*;

use crate::covers::{capped, editions_paths, ref_added, refs_added_first};
use crate::db::{
    usage_views, BookView, Catalog, CatalogView, DbError, LlmUsageRow, SourceView, UsageView,
};
use crate::seqs::{
    arrange, arranged_is_sorted, filter_step, filter_none, picked, sorted_by, sorted_places,
    take_all,
};
use crate::sorting::{key_views, KeyView, SortKey};
use crate::sources::{opt_list, sources_paths};
use crate::text::{clone_opt, same, strs, strs_push};

verus! {

/// Whether the usage of `model` is kept.
pub open spec fn has_model(v: Seq<UsageView>, model: Seq<char>) -> bool {
    exists|i: int| 0 <= i < v.len() && (#[trigger] v[i]).model == model
}

/// The usage rows after one more call of `model`.
pub open spec fn usage_recorded(
    v: Seq<UsageView>,
    model: Seq<char>,
    prompt: int,
    completion: int,
    total: int,
    now: Seq<char>,
) -> Seq<UsageView> {
    if has_model(v, model) {
        v.map_values(
            |u: UsageView|
                if u.model == model {
                    UsageView {
                        calls: u.calls + 1,
                        prompt_tokens: u.prompt_tokens + prompt,
                        completion_tokens: u.completion_tokens + completion,
                        total_tokens: u.total_tokens + total,
                        last_used: Some(now),
                        ..u
                    }
                } else {
                    u
                },
        )
    } else {
        v.push(
            UsageView {
                model,
                calls: 1,
                prompt_tokens: prompt,
                completion_tokens: completion,
                total_tokens: total,
                last_used: Some(now),
            },
        )
    }
}

/// Whether the counters of `model` have room for one more call.
pub open spec fn usage_fits(
    v: Seq<UsageView>,
    model: Seq<char>,
    prompt: int,
    completion: int,
    total: int,
) -> bool {
    &&& prompt <= i64::MAX && completion <= i64::MAX && total <= i64::MAX
    &&& forall|i: int|
        0 <= i < v.len() && (#[trigger] v[i]).model == model ==> v[i].calls < i64::MAX
            && v[i].prompt_tokens + prompt <= i64::MAX && v[i].completion_tokens + completion
            <= i64::MAX && v[i].total_tokens + total <= i64::MAX
}

/// The tokens of the first `n` rows.
pub open spec fn total_first(v: Seq<UsageView>, n: nat) -> int
    decreases n,
{
    if n == 0 {
        0
    } else {
        total_first(v, (n - 1) as nat) + v[n - 1].total_tokens
    }
}

/// By what the usage is listed: the largest total first.
pub open spec fn usage_key(u: UsageView) -> KeyView {
    KeyView { text: Seq::empty(), a: -u.total_tokens, b: 0 }
}

fn copy_usage(u: &LlmUsageRow) -> (r: LlmUsageRow)
    ensures
        r == *u,
{
    LlmUsageRow {
        model: u.model.clone(),
        calls: u.calls,
        prompt_tokens: u.prompt_tokens,
        completion_tokens: u.completion_tokens,
        total_tokens: u.total_tokens,
        last_used: clone_opt(&u.last_used),
    }
}

impl Catalog {
    fn usage_at(&self, model: &str) -> (r: Option<usize>)
        ensures
            match r {
                Some(k) => k < self.usage@.len() && self@.usage[k as int].model == model@,
                None => !has_model(self@.usage, model@),
            },
    {
        let mut i: usize = 0;
        while i < self.usage.len()
            invariant
                i <= self.usage@.len(),
                forall|j: int| 0 <= j < i ==> (#[trigger] self@.usage[j]).model != model@,
            decreases self.usage@.len() - i,
        {
            assert(self@.usage[i as int] == self.usage@[i as int]@);
            if same(&self.usage[i].model, model) {
                return Some(i);
            }
            i += 1;
        }
        None
    }

    /// Whether the counters of `model` have room for one more call.
    pub fn usage_has_room(
        &self,
        model: &str,
        prompt_tokens: u64,
        completion_tokens: u64,
        total_tokens: u64,
    ) -> (r: bool)
        requires
            self.wf(),
        ensures
            r == usage_fits(
                self@.usage,
                model@,
                prompt_tokens as int,
                completion_tokens as int,
                total_tokens as int,
            ),
    {
        let max: u64 = i64::MAX as u64;
        if prompt_tokens > max || completion_tokens > max || total_tokens > max {
            return false;
        }
        match self.usage_at(model) {
            Some(k) => {
                let u = &self.usage[k];
                let room = u.calls < i64::MAX && u.prompt_tokens as i128 + prompt_tokens as i128
                    <= i64::MAX as i128 && u.completion_tokens as i128 + completion_tokens as i128
                    <= i64::MAX as i128 && u.total_tokens as i128 + total_tokens as i128
                    <= i64::MAX as i128;
                proof {
                    let v = self@.usage;
                    assert(v[k as int] == self.usage@[k as int]@);
                    assert forall|i: int|
                        0 <= i < v.len() && (#[trigger] v[i]).model == model@ implies i == k by {
                        if i < k {
                            assert(v[i].model != v[k as int].model);
                        } else if k < i {
                            assert(v[k as int].model != v[i].model);
                        }
                    }
                }
                room
            },
            None => true,
        }
    }

    /// Adds one call of a model to the usage.
    pub fn record_llm_usage(
        &mut self,
        model: &str,
        prompt_tokens: u64,
        completion_tokens: u64,
        total_tokens: u64,
        now: &str,
    )
        requires
            old(self).wf(),
            usage_fits(
                old(self)@.usage,
                model@,
                prompt_tokens as int,
                completion_tokens as int,
                total_tokens as int,
            ),
        ensures
            final(self).wf(),
            final(self)@ == (CatalogView {
                usage: usage_recorded(
                    old(self)@.usage,
                    model@,
                    prompt_tokens as int,
                    completion_tokens as int,
                    total_tokens as int,
                    now@,
                ),
                ..old(self)@
            }),
    {
        let ghost v = self@.usage;
        match self.usage_at(model) {
            Some(k) => {
                assert(v[k as int] == self.usage@[k as int]@);
                let calls: i64 = self.usage[k].calls + 1;
                let prompt: i64 = (self.usage[k].prompt_tokens as i128 + prompt_tokens as i128) as i64;
                let completion: i64 = (self.usage[k].completion_tokens as i128
                    + completion_tokens as i128) as i64;
                let total: i64 = (self.usage[k].total_tokens as i128 + total_tokens as i128) as i64;
                self.usage[k].calls = calls;
                self.usage[k].prompt_tokens = prompt;
                self.usage[k].completion_tokens = completion;
                self.usage[k].total_tokens = total;
                self.usage[k].last_used = Some(now.to_owned());
                proof {
                    let w = self@.usage;
                    assert(has_model(v, model@));
                    assert forall|i: int| 0 <= i < v.len() && i != k implies v[i].model != model@ by {
                        if i < k {
                            assert(v[i].model != v[k as int].model);
                        } else {
                            assert(v[k as int].model != v[i].model);
                        }
                    }
                    assert(w =~= usage_recorded(
                        v,
                        model@,
                        prompt_tokens as int,
                        completion_tokens as int,
                        total_tokens as int,
                        now@,
                    ));
                    assert forall|i: int, j: int| 0 <= i < j < w.len() implies (
                    #[trigger] w[i]).model != (#[trigger] w[j]).model by {
                        assert(v[i].model != v[j].model);
                    }
                }
            },
            None => {
                let row = LlmUsageRow {
                    model: model.to_owned(),
                    calls: 1,
                    prompt_tokens: prompt_tokens as i64,
                    completion_tokens: completion_tokens as i64,
                    total_tokens: total_tokens as i64,
                    last_used: Some(now.to_owned()),
                };
                self.usage.push(row);
                proof {
                    let w = self@.usage;
                    assert(w =~= v.push(row@));
                    assert forall|i: int, j: int| 0 <= i < j < w.len() implies (
                    #[trigger] w[i]).model != (#[trigger] w[j]).model by {
                        assert(w[i] == v[i]);
                        if j < v.len() {
                            assert(v[i].model != v[j].model);
                        }
                    }
                }
            },
        }
    }

    /// The usage of each model, the largest total first.
    pub fn get_llm_usage(&self) -> (r: Vec<LlmUsageRow>)
        ensures
            usage_views(r@) == sorted_by(self@.usage, |u: UsageView| usage_key(u)),
    {
        let ghost all = self@.usage;
        let ghost key = |u: UsageView| usage_key(u);
        let mut sel: Vec<usize> = Vec::new();
        let mut keys: Vec<SortKey> = Vec::new();
        let mut i: usize = 0;
        while i < self.usage.len()
            invariant
                i <= self.usage@.len(),
                all == self@.usage,
                key == |u: UsageView| usage_key(u),
                sel@.len() == i,
                forall|k: int| 0 <= k < i ==> (#[trigger] sel@[k]) == k,
                key_views(keys@) == all.take(i as int).map_values(key),
            decreases self.usage@.len() - i,
        {
            let ghost kwas = keys@;
            let k = SortKey {
                text: String::new(),
                a: -(self.usage[i].total_tokens as i128),
                b: 0,
            };
            assert(all[i as int] == self.usage@[i as int]@);
            assert(k@ == usage_key(all[i as int])) by {
                assert(k@.text =~= Seq::<char>::empty());
            }
            sel.push(i);
            keys.push(k);
            i += 1;
            proof {
                assert(key_views(keys@) =~= key_views(kwas).push(k@));
                assert(key_views(keys@) =~= all.take(i as int).map_values(key));
            }
        }
        proof {
            take_all(all);
            assert(picked(all, sel@) =~= all);
            assert(key_views(keys@).len() == keys@.len());
            assert(all.map_values(key).len() == all.len());
        }
        let order = arrange(&sel, &keys);
        proof {
            arranged_is_sorted(all, sel@, key_views(keys@), key, order@);
        }
        let mut out: Vec<LlmUsageRow> = Vec::new();
        let mut j: usize = 0;
        assert(usage_views(out@) =~= picked(all, order@).take(0));
        while j < order.len()
            invariant
                j <= order@.len(),
                all == self@.usage,
                sel@.len() == self.usage@.len(),
                forall|k: int| 0 <= k < sel@.len() ==> (#[trigger] sel@[k]) == k,
                forall|k: int| 0 <= k < order@.len() ==> sel@.contains(#[trigger] order@[k]),
                usage_views(out@) == picked(all, order@).take(j as int),
            decreases order@.len() - j,
        {
            assert(sel@.contains(order@[j as int]));
            let ghost was = out@;
            out.push(copy_usage(&self.usage[order[j]]));
            j += 1;
            assert(usage_views(out@) =~= usage_views(was).push(all[order@[j - 1] as int]));
            assert(usage_views(out@) =~= picked(all, order@).take(j as int));
        }
        assert(usage_views(out@) =~= picked(all, order@));
        out
    }

    /// The tokens that all models used together.
    pub fn llm_usage_total(&self) -> (r: Result<i64, DbError>)
        ensures
            match r {
                Ok(n) => n == total_first(self@.usage, self@.usage.len()),
                Err(e) => e == DbError::Overflow && !(i64::MIN <= total_first(
                    self@.usage,
                    self@.usage.len(),
                ) <= i64::MAX),
            },
    {
        let ghost v = self@.usage;
        let size: usize = self.usage.len();
        let mut sum: i128 = 0;
        let mut i: usize = 0;
        while i < self.usage.len()
            invariant
                i <= self.usage@.len(),
                size == self.usage@.len(),
                v == self@.usage,
                sum == total_first(v, i as nat),
                -(0x8000_0000_0000_0000 * i) <= sum <= 0x8000_0000_0000_0000 * i,
            decreases self.usage@.len() - i,
        {
            assert(v[i as int] == self.usage@[i as int]@);
            sum = sum + self.usage[i].total_tokens as i128;
            i += 1;
        }
        if i64::MIN as i128 <= sum && sum <= i64::MAX as i128 {
            Ok(sum as i64)
        } else {
            Err(DbError::Overflow)
        }
    }

    /// Forgets the usage.
    pub fn reset_llm_usage(&mut self)
        requires
            old(self).wf(),
        ensures
            final(self).wf(),
            final(self)@ == (CatalogView { usage: Seq::empty(), ..old(self)@ }),
    {
        self.usage = Vec::new();
        assert(self@.usage =~= Seq::<UsageView>::empty());
    }

    /// Counts the references to the cover files anew: one for each book, each source and
    /// each edition that has the file.
    pub fn seed_cover_refs(&mut self)
        requires
            old(self).wf(),
        ensures
            final(self).wf(),
            final(self)@ == seeded(old(self)@),
    {
        let ghost c = self@;
        let mut paths: Vec<String> = Vec::new();
        let mut i: usize = 0;
        assert(strs(paths@) =~= books_paths(c.books, 0));
        while i < self.books.len()
            invariant
                i <= self.books@.len(),
                self@ == c,
                self.wf(),
                strs(paths@) == books_paths(c.books, i as nat),
            decreases self.books@.len() - i,
        {
            assert(c.books[i as int] == self.books@[i as int]@);
            let ghost was = strs(paths@);
            if let Some(p) = &self.books[i].cover_path {
                proof {
                    strs_push(paths@, *p);
                }
                paths.push(p.clone());
                assert(strs(paths@) =~= was + seq![p@]);
            } else {
                assert(strs(paths@) =~= was + Seq::<Seq<char>>::empty());
            }
            i += 1;
        }
        let ghost covers = strs(paths@);
        let mut j: usize = 0;
        assert(strs(paths@) =~= covers + sources_paths(c.sources, 0));
        while j < self.sources.len()
            invariant
                j <= self.sources@.len(),
                self@ == c,
                self.wf(),
                strs(paths@) == covers + sources_paths(c.sources, j as nat),
            decreases self.sources@.len() - j,
        {
            assert(c.sources[j as int] == self.sources@[j as int]@);
            let ghost was = strs(paths@);
            if let Some(p) = &self.sources[j].row.cover_path {
                proof {
                    strs_push(paths@, *p);
                }
                paths.push(p.clone());
                assert(strs(paths@) =~= was + seq![p@]);
            } else {
                assert(strs(paths@) =~= was + Seq::<Seq<char>>::empty());
            }
            let ghost mid = strs(paths@);
            let more = editions_paths(&self.sources[j].row.editions);
            let mut k: usize = 0;
            assert(strs(paths@) =~= mid + strs(more@).take(0));
            while k < more.len()
                invariant
                    k <= more@.len(),
                    strs(paths@) == mid + strs(more@).take(k as int),
                decreases more@.len() - k,
            {
                proof {
                    strs_push(paths@, more@[k as int]);
                }
                paths.push(more[k].clone());
                k += 1;
                assert(strs(paths@) =~= mid + strs(more@).take(k as int));
            }
            j += 1;
            proof {
                assert(strs(more@).take(more@.len() as int) =~= strs(more@));
                assert(strs(paths@) =~= covers + sources_paths(c.sources, j as nat));
            }
        }
        self.covers = Vec::new();
        assert(self@ == (CatalogView { covers: Map::empty(), ..c }));
        self.add_paths(&paths);
        proof {
            let all = all_cover_paths(c);
            assert(strs(paths@) == all);
            adding_counts(all, all.len());
            take_all(all);
        }
    }
}

/// The covers of the first `n` books.
pub open spec fn books_paths(v: Seq<BookView>, n: nat) -> Seq<Seq<char>>
    decreases n,
{
    if n == 0 {
        Seq::empty()
    } else {
        books_paths(v, (n - 1) as nat) + opt_list(v[n - 1].cover_path)
    }
}

/// Every cover file that a book, a source or an edition has, as often as one has it.
pub open spec fn all_cover_paths(c: CatalogView) -> Seq<Seq<char>> {
    books_paths(c.books, c.books.len()) + sources_paths(c.sources, c.sources.len())
}

/// How often `p` is in `paths`.
pub open spec fn occurrences(paths: Seq<Seq<char>>, p: Seq<char>) -> nat {
    paths.filter(|q: Seq<char>| q == p).len()
}

/// Each path with the number of times that it is in `paths`.
pub open spec fn counts_of(paths: Seq<Seq<char>>) -> Map<Seq<char>, int> {
    Map::new(
        |p: Seq<char>| occurrences(paths, p) > 0,
        |p: Seq<char>| capped(occurrences(paths, p) as int),
    )
}

/// The catalogue with its counts as its rows have them.
pub open spec fn seeded(c: CatalogView) -> CatalogView {
    CatalogView { covers: counts_of(all_cover_paths(c)), ..c }
}

proof fn adding_counts(paths: Seq<Seq<char>>, n: nat)
    requires
        n <= paths.len(),
    ensures
        refs_added_first(Map::empty(), paths, n) == counts_of(paths.take(n as int)),
    decreases n,
{
    let m = counts_of(paths.take(n as int));
    if n == 0 {
        assert forall|p: Seq<char>| !m.contains_key(p) by {
            filter_none(paths, |q: Seq<char>| q == p);
        }
        assert(m =~= Map::empty());
    } else {
        adding_counts(paths, (n - 1) as nat);
        let before = counts_of(paths.take(n - 1));
        let x = paths[n - 1];
        let now = ref_added(before, x);
        assert forall|p: Seq<char>| #[trigger] now.contains_key(p) == m.contains_key(p) by {
            filter_step(paths, n - 1, |q: Seq<char>| q == p);
        }
        assert forall|p: Seq<char>| now.contains_key(p) implies #[trigger] now[p] == m[p] by {
            filter_step(paths, n - 1, |q: Seq<char>| q == p);
            assert(m.contains_key(p));
        }
        assert(now =~= m);
    }
}

/// Counting anew twice is counting anew once.
pub proof fn seeding_is_idempotent(c: CatalogView)
    ensures
        seeded(seeded(c)) == seeded(c),
{
}

proof fn occurs_when_contained(paths: Seq<Seq<char>>, i: int)
    requires
        0 <= i < paths.len(),
    ensures
        occurrences(paths, paths[i]) > 0,
{
    let f = |q: Seq<char>| q == paths[i];
    paths.lemma_filter_contains(f, i);
    assert(paths.filter(f).contains(paths[i]));
}

proof fn books_paths_hold(v: Seq<BookView>, n: nat, i: int)
    requires
        0 <= i < n <= v.len(),
        v[i].cover_path is Some,
    ensures
        books_paths(v, n).contains(v[i].cover_path->0),
    decreases n,
{
    let before = books_paths(v, (n - 1) as nat);
    let now = books_paths(v, n);
    if i < n - 1 {
        books_paths_hold(v, (n - 1) as nat, i);
        let k = choose|k: int| 0 <= k < before.len() && before[k] == v[i].cover_path->0;
        assert(now[k] == v[i].cover_path->0);
    } else {
        assert(now[before.len() as int] == v[i].cover_path->0);
    }
}

proof fn sources_paths_hold(v: Seq<SourceView>, n: nat, i: int)
    requires
        0 <= i < n <= v.len(),
        v[i].cover_path is Some,
    ensures
        sources_paths(v, n).contains(v[i].cover_path->0),
    decreases n,
{
    let before = sources_paths(v, (n - 1) as nat);
    let now = sources_paths(v, n);
    if i < n - 1 {
        sources_paths_hold(v, (n - 1) as nat, i);
        let k = choose|k: int| 0 <= k < before.len() && before[k] == v[i].cover_path->0;
        assert(now[k] == v[i].cover_path->0);
    } else {
        assert(now[before.len() as int] == v[i].cover_path->0);
    }
}

/// After counting anew, every cover of a book or a source has a count above zero: a sweep
/// of the unreferenced files leaves it in place.
pub proof fn used_covers_are_counted(c: CatalogView)
    ensures
        forall|i: int|
            0 <= i < c.books.len() && (#[trigger] c.books[i]).cover_path is Some ==> {
                let p = c.books[i].cover_path->0;
                seeded(c).covers.contains_key(p) && seeded(c).covers[p] > 0
            },
        forall|i: int|
            0 <= i < c.sources.len() && (#[trigger] c.sources[i]).cover_path is Some ==> {
                let p = c.sources[i].cover_path->0;
                seeded(c).covers.contains_key(p) && seeded(c).covers[p] > 0
            },
{
    let all = all_cover_paths(c);
    let a = books_paths(c.books, c.books.len());
    let b = sources_paths(c.sources, c.sources.len());
    assert forall|i: int|
        0 <= i < c.books.len() && (#[trigger] c.books[i]).cover_path is Some implies {
        let p = c.books[i].cover_path->0;
        seeded(c).covers.contains_key(p) && seeded(c).covers[p] > 0
    } by {
        let p = c.books[i].cover_path->0;
        books_paths_hold(c.books, c.books.len(), i);
        let k = choose|k: int| 0 <= k < a.len() && a[k] == p;
        assert(all[k] == p);
        occurs_when_contained(all, k);
    }
    assert forall|i: int|
        0 <= i < c.sources.len() && (#[trigger] c.sources[i]).cover_path is Some implies {
        let p = c.sources[i].cover_path->0;
        seeded(c).covers.contains_key(p) && seeded(c).covers[p] > 0
    } by {
        let p = c.sources[i].cover_path->0;
        sources_paths_hold(c.sources, c.sources.len(), i);
        let k = choose|k: int| 0 <= k < b.len() && b[k] == p;
        assert(all[a.len() + k] == p);
        occurs_when_contained(all, a.len() + k);
    }
}

/// Two calls of one model add up.
pub proof fn usage_adds_up(
    v: Seq<UsageView>,
    model: Seq<char>,
    p1: int,
    c1: int,
    t1: int,
    p2: int,
    c2: int,
    t2: int,
    now1: Seq<char>,
    now2: Seq<char>,
)
    requires
        !has_model(v, model),
    ensures
        usage_recorded(usage_recorded(v, model, p1, c1, t1, now1), model, p2, c2, t2, now2)
            == v.push(
            UsageView {
                model,
                calls: 2,
                prompt_tokens: p1 + p2,
                completion_tokens: c1 + c2,
                total_tokens: t1 + t2,
                last_used: Some(now2),
            },
        ),
{
    let once = usage_recorded(v, model, p1, c1, t1, now1);
    assert(once[v.len() as int].model == model);
    assert(has_model(once, model));
    assert(usage_recorded(once, model, p2, c2, t2, now2) =~= v.push(
        UsageView {
            model,
            calls: 2,
            prompt_tokens: p1 + p2,
            completion_tokens: c1 + c2,
            total_tokens: t1 + t2,
            last_used: Some(now2),
        },
    ));
}

/// The usage is listed all and once each, the models with the most tokens first, and those with
/// as many in the order in which they were first used.
pub proof fn usage_is_listed_by_tokens(v: Seq<UsageView>) -> (o: Seq<int>)
    ensures
        ({
            let r = sorted_by(v, |u: UsageView| usage_key(u));
            &&& o.len() == v.len() && r.len() == v.len()
            &&& o.no_duplicates()
            &&& forall|i: int| 0 <= i < o.len() ==> 0 <= #[trigger] o[i] < v.len() && r[i] == v[o[i]]
            &&& forall|i: int, j: int|
                0 <= i < j < o.len() ==> v[#[trigger] o[i]].total_tokens
                    > v[#[trigger] o[j]].total_tokens || v[o[i]].total_tokens
                    == v[o[j]].total_tokens && o[i] < o[j]
        }),
{
    sorted_places(v, |u: UsageView| usage_key(u))
}

/// A call is counted for its model and for no other: where the model has a row its calls go up
/// by one and its tokens by those of the call, and else it gets a row with these.
pub proof fn a_call_counts_for_its_model(
    v: Seq<UsageView>,
    model: Seq<char>,
    prompt: int,
    completion: int,
    total: int,
    now: Seq<char>,
    i: int,
)
    requires
        0 <= i < v.len(),
    ensures
        ({
            let r = usage_recorded(v, model, prompt, completion, total, now);
            &&& r.len() == v.len() || r.len() == v.len() + 1
            &&& v[i].model != model ==> r[i] == v[i]
            &&& v[i].model == model ==> {
                &&& r.len() == v.len()
                &&& r[i].model == model
                &&& r[i].calls == v[i].calls + 1
                &&& r[i].prompt_tokens == v[i].prompt_tokens + prompt
                &&& r[i].completion_tokens == v[i].completion_tokens + completion
                &&& r[i].total_tokens == v[i].total_tokens + total
                &&& r[i].last_used == Some(now)
            }
            &&& r.len() == v.len() + 1 ==> {
                &&& forall|k: int| 0 <= k < v.len() ==> (#[trigger] v[k]).model != model
                &&& r.last().model == model
                &&& r.last().calls == 1
                &&& r.last().prompt_tokens == prompt
                &&& r.last().completion_tokens == completion
                &&& r.last().total_tokens == total
                &&& r.last().last_used == Some(now)
            }
        }),
{
}

/// The tokens of two lists are those of the first and those of the second.
pub proof fn tokens_add_up(a: Seq<UsageView>, b: Seq<UsageView>, u: UsageView)
    ensures
        total_first(a + b, (a + b).len()) == total_first(a, a.len()) + total_first(b, b.len()),
        total_first(seq![u], 1) == u.total_tokens,
{
    tokens_of_the_first(a, b, a.len());
    tokens_of_the_rest(a, b, b.len());
    assert(total_first(seq![u], 0) == 0);
}

proof fn tokens_of_the_first(a: Seq<UsageView>, b: Seq<UsageView>, n: nat)
    requires
        n <= a.len(),
    ensures
        total_first(a + b, n) == total_first(a, n),
    decreases n,
{
    if n > 0 {
        tokens_of_the_first(a, b, (n - 1) as nat);
        assert((a + b)[n - 1] == a[n - 1]);
    }
}

proof fn tokens_of_the_rest(a: Seq<UsageView>, b: Seq<UsageView>, n: nat)
    requires
        n <= b.len(),
    ensures
        total_first(a + b, a.len() + n) == total_first(a, a.len()) + total_first(b, n),
    decreases n,
{
    if n > 0 {
        tokens_of_the_rest(a, b, (n - 1) as nat);
        assert((a + b)[a.len() + n - 1] == b[n - 1]);
    } else {
        tokens_of_the_first(a, b, a.len());
    }
}

} // verus!
