//! Paths: resolving `.` and `..`, putting paths together, and telling whether two are the same.
//!
//! A path is a text whose parts stand between slashes. It has this form on every system: where
//! a system writes paths otherwise, they are handed over with slashes.
use vstd::prelude::*;
use vstd::string::*;

use crate::seqs::{filter_none, filter_step, take_all};
use crate::text::{
    chars_of, ends_with, join, joined, same, split, split_nonempty, split_on, starts_with,
    string_of_range, strs, strs_push,
};

verus! {

/// The segments that are left of `segs`: `..` takes away the segment before it, `.` and
/// the empty segment stand for nothing.
pub open spec fn resolve_segments(segs: Seq<Seq<char>>) -> Seq<Seq<char>>
    decreases segs.len(),
{
    if segs.len() == 0 {
        Seq::empty()
    } else {
        let p = resolve_segments(segs.drop_last());
        let s = segs.last();
        if s == ".."@ {
            if p.len() > 0 {
                p.drop_last()
            } else {
                p
            }
        } else if s == "."@ || s.len() == 0 {
            p
        } else {
            p.push(s)
        }
    }
}

/// `path` with its `.`, `..` and empty segments resolved.
pub open spec fn resolve_path(path: Seq<char>) -> Seq<char> {
    join(resolve_segments(split_on(path, seq!['/'])), "/"@)
}

/// `path` with its `.`, `..` and empty segments resolved.
pub fn resolved(path: &str) -> (r: String)
    ensures
        r@ == resolve_path(path@),
{
    let seps: Vec<char> = vec!['/'];
    assert(seps@ =~= seq!['/']);
    let segs = split(path, &seps);
    let mut parts: Vec<String> = Vec::new();
    let mut i: usize = 0;
    assert(strs(parts@) =~= resolve_segments(strs(segs@).take(0)));
    while i < segs.len()
        invariant
            i <= segs@.len(),
            strs(parts@) == resolve_segments(strs(segs@).take(i as int)),
        decreases segs@.len() - i,
    {
        let ghost before = parts@;
        assert(strs(segs@).take(i + 1).drop_last() =~= strs(segs@).take(i as int));
        assert(strs(segs@).take(i + 1).last() == segs@[i as int]@);
        if same(&segs[i], "..") {
            let _ = parts.pop();
            proof {
                if before.len() > 0 {
                    assert(strs(parts@) =~= strs(before).drop_last());
                } else {
                    assert(strs(parts@) =~= strs(before));
                }
            }
        } else if same(&segs[i], ".") || segs[i].as_str().is_empty() {
        } else {
            proof {
                strs_push(parts@, segs@[i as int]);
            }
            parts.push(segs[i].clone());
        }
        i += 1;
    }
    assert(strs(segs@).take(segs@.len() as int) =~= strs(segs@));
    joined(&parts, "/")
}

/// `s` without the slashes at its start.
pub open spec fn strip_slashes(s: Seq<char>) -> Seq<char>
    decreases s.len(),
{
    if s.len() > 0 && s[0] == '/' {
        strip_slashes(s.drop_first())
    } else {
        s
    }
}

/// `s` without the slashes at its start.
pub fn stripped(s: &str) -> (r: String)
    ensures
        r@ == strip_slashes(s@),
{
    let v = chars_of(s);
    let mut i: usize = 0;
    assert(v@.skip(0) =~= v@);
    while i < v.len() && v[i] == '/'
        invariant
            i <= v@.len(),
            strip_slashes(v@) == strip_slashes(v@.skip(i as int)),
        decreases v@.len() - i,
    {
        assert(v@.skip(i as int).drop_first() =~= v@.skip(i + 1));
        i += 1;
    }
    assert(v@.skip(i as int) =~= v@.subrange(i as int, v@.len() as int));
    string_of_range(&v, i, v.len())
}

/// The part of `name` up to and with its last slash.
pub open spec fn dir_part(name: Seq<char>) -> Seq<char>
    decreases name.len(),
{
    if name.len() == 0 || name.last() == '/' {
        name
    } else {
        dir_part(name.drop_last())
    }
}

/// The part of `name` up to and with its last slash.
pub fn dir_of(name: &str) -> (r: String)
    ensures
        r@ == dir_part(name@),
{
    let v = chars_of(name);
    let mut n: usize = v.len();
    assert(v@.take(n as int) =~= v@);
    while n > 0 && v[n - 1] != '/'
        invariant
            n <= v@.len(),
            dir_part(v@) == dir_part(v@.take(n as int)),
        decreases n,
    {
        assert(v@.take(n as int).drop_last() =~= v@.take(n - 1));
        n -= 1;
    }
    assert(v@.take(n as int) =~= v@.subrange(0, n as int));
    string_of_range(&v, 0, n)
}

// ---- putting paths together ----

/// The path `name` in the directory `dir`: one slash between them, and a name that begins at the
/// root stands for itself.
pub open spec fn path_in(dir: Seq<char>, name: Seq<char>) -> Seq<char> {
    if name.len() > 0 && name[0] == '/' {
        name
    } else if dir.len() == 0 || dir.last() == '/' {
        dir + name
    } else {
        dir + "/"@ + name
    }
}

proof fn slash_at_an_end(s: Seq<char>)
    ensures
        "/"@.is_prefix_of(s) <==> s.len() > 0 && s[0] == '/',
        "/"@.is_suffix_of(s) <==> s.len() > 0 && s.last() == '/',
{
    reveal_strlit("/");
    if s.len() > 0 {
        let first = s.subrange(0, 1);
        let last = s.subrange(s.len() - 1, s.len() as int);
        assert(first[0] == s[0] && last[0] == s.last());
        assert("/"@[0] == '/');
        if s[0] == '/' {
            assert("/"@ =~= first);
        }
        if s.last() == '/' {
            assert("/"@ =~= last);
        }
    }
}

/// The path `name` in the directory `dir`.
pub fn join_path(dir: &str, name: &str) -> (r: String)
    ensures
        r@ == path_in(dir@, name@),
{
    proof {
        slash_at_an_end(name@);
        slash_at_an_end(dir@);
    }
    if starts_with(name, "/") {
        name.to_owned()
    } else if dir.is_empty() || ends_with(dir, "/") {
        dir.to_owned().concat(name)
    } else {
        dir.to_owned().concat("/").concat(name)
    }
}

/// It is no matter whether a directory is written with a slash at its end.
pub proof fn a_slash_at_the_end_is_no_matter(dir: Seq<char>, name: Seq<char>)
    requires
        dir.len() > 0,
    ensures
        dir.last() != '/' ==> path_in(dir.push('/'), name) == path_in(dir, name),
{
    reveal_strlit("/");
    assert(dir.push('/') + name =~= dir + "/"@ + name);
}

// ---- the same path ----

/// Whether a segment of a path counts: the empty one and `.` stand for nothing.
pub open spec fn is_part(s: Seq<char>) -> bool {
    s.len() > 0 && s != "."@
}

/// What a path begins with: the root, or the present directory where it is named.
pub open spec fn lead_parts(path: Seq<char>) -> Seq<Seq<char>> {
    if path.len() > 0 && path[0] == '/' {
        seq!["/"@]
    } else if split_on(path, seq!['/'])[0] == "."@ {
        seq!["."@]
    } else {
        Seq::empty()
    }
}

/// The parts of a path: the root or `.` that it begins with, and its segments. A `.` or an empty
/// segment behind that is no part.
pub open spec fn path_parts(path: Seq<char>) -> Seq<Seq<char>> {
    lead_parts(path) + split_on(path, seq!['/']).filter(|s: Seq<char>| is_part(s))
}

/// The parts of a path.
pub fn parts_of(path: &str) -> (r: Vec<String>)
    ensures
        strs(r@) == path_parts(path@),
{
    let mut seps: Vec<char> = Vec::new();
    seps.push('/');
    assert(seps@ =~= seq!['/']);
    let segs = split(path, &seps);
    let ghost all = strs(segs@);
    let ghost f = |s: Seq<char>| is_part(s);
    let mut out: Vec<String> = Vec::new();
    proof {
        slash_at_an_end(path@);
        split_nonempty(path@, |c: char| seq!['/'].contains(c));
        assert(all[0] == segs@[0]@);
    }
    if starts_with(path, "/") {
        out.push("/".to_owned());
        assert(strs(out@) =~= lead_parts(path@));
    } else if same(&segs[0], ".") {
        out.push(".".to_owned());
        assert(strs(out@) =~= lead_parts(path@));
    }
    assert(strs(out@) =~= lead_parts(path@));
    let ghost lead = strs(out@);
    let mut i: usize = 0;
    proof {
        filter_none(all, f);
        assert(lead + all.take(0).filter(f) =~= lead);
    }
    while i < segs.len()
        invariant
            i <= segs@.len(),
            all == strs(segs@),
            f == |s: Seq<char>| is_part(s),
            strs(out@) == lead + all.take(i as int).filter(f),
        decreases segs@.len() - i,
    {
        proof {
            filter_step(all, i as int, f);
            assert(all[i as int] == segs@[i as int]@);
        }
        if !segs[i].as_str().is_empty() && !same(&segs[i], ".") {
            proof {
                strs_push(out@, segs@[i as int]);
                assert(lead + all.take(i as int).filter(f).push(all[i as int]) =~= (lead
                    + all.take(i as int).filter(f)).push(all[i as int]));
            }
            out.push(segs[i].clone());
        }
        i += 1;
    }
    proof {
        take_all(all);
    }
    out
}

/// Whether two paths are the same, part by part.
pub open spec fn same_parts(a: Seq<char>, b: Seq<char>) -> bool {
    path_parts(a) == path_parts(b)
}

/// Whether two paths are the same, part by part.
pub fn same_path(a: &str, b: &str) -> (r: bool)
    ensures
        r == same_parts(a@, b@),
{
    let x = parts_of(a);
    let y = parts_of(b);
    proof {
        assert(strs(x@).len() == x@.len());
        assert(strs(y@).len() == y@.len());
    }
    if x.len() != y.len() {
        return false;
    }
    let mut i: usize = 0;
    while i < x.len()
        invariant
            i <= x@.len(),
            x@.len() == y@.len(),
            strs(x@) == path_parts(a@),
            strs(y@) == path_parts(b@),
            forall|j: int| 0 <= j < i ==> (#[trigger] x@[j])@ == y@[j]@,
        decreases x@.len() - i,
    {
        assert(path_parts(a@)[i as int] == x@[i as int]@);
        assert(path_parts(b@)[i as int] == y@[i as int]@);
        if !same(&x[i], &y[i]) {
            return false;
        }
        i += 1;
    }
    assert(path_parts(a@) =~= path_parts(b@));
    true
}

/// No segment that is left is `.`, `..` or empty.
pub proof fn resolved_segments_are_plain(segs: Seq<Seq<char>>)
    ensures
        forall|i: int|
            0 <= i < resolve_segments(segs).len() ==> {
                let s = #[trigger] resolve_segments(segs)[i];
                s != ".."@ && s != "."@ && s.len() > 0
            },
    decreases segs.len(),
{
    if segs.len() > 0 {
        resolved_segments_are_plain(segs.drop_last());
        let p = resolve_segments(segs.drop_last());
        let r = resolve_segments(segs);
        assert forall|i: int| 0 <= i < r.len() implies {
            let s = #[trigger] r[i];
            s != ".."@ && s != "."@ && s.len() > 0
        } by {
            if i < p.len() {
                assert(r[i] == p[i]);
            }
        }
    }
}

/// Resolving what is already resolved changes nothing.
pub proof fn resolving_twice_changes_nothing(segs: Seq<Seq<char>>)
    ensures
        resolve_segments(resolve_segments(segs)) == resolve_segments(segs),
{
    resolved_segments_are_plain(segs);
    plain_segments_stay(resolve_segments(segs));
}

proof fn plain_segments_stay(segs: Seq<Seq<char>>)
    requires
        forall|i: int|
            0 <= i < segs.len() ==> (#[trigger] segs[i]) != ".."@ && segs[i] != "."@ && segs[i].len()
                > 0,
    ensures
        resolve_segments(segs) == segs,
    decreases segs.len(),
{
    if segs.len() > 0 {
        assert forall|i: int| 0 <= i < segs.drop_last().len() implies (
        #[trigger] segs.drop_last()[i]) != ".."@ && segs.drop_last()[i] != "."@
            && segs.drop_last()[i].len() > 0 by {
            assert(segs.drop_last()[i] == segs[i]);
        }
        plain_segments_stay(segs.drop_last());
        assert(segs.drop_last().push(segs.last()) =~= segs);
    }
}

/// Going into a directory and out of it again, staying where one is, or naming nothing leads
/// nowhere else, whatever stands before and behind; and there is no way out of the root.
pub proof fn detours_lead_nowhere(before: Seq<Seq<char>>, name: Seq<char>, behind: Seq<Seq<char>>)
    ensures
        name.len() > 0 && name != "."@ && name != ".."@ ==> resolve_segments(
            before + seq![name, ".."@] + behind,
        ) == resolve_segments(before + behind),
        resolve_segments(before + seq!["."@] + behind) == resolve_segments(before + behind),
        resolve_segments(before + seq![Seq::<char>::empty()] + behind) == resolve_segments(
            before + behind,
        ),
        resolve_segments(seq![".."@] + behind) == resolve_segments(behind),
    decreases behind.len(),
{
    let empty = Seq::<char>::empty();
    dots_differ();
    if behind.len() == 0 {
        assert(before + behind =~= before);
        let down = before + seq![name];
        let out = before + seq![name, ".."@] + behind;
        assert(out.drop_last() =~= down);
        assert(down.drop_last() =~= before);
        if name.len() > 0 && name != "."@ && name != ".."@ {
            let p = resolve_segments(before);
            assert(resolve_segments(down) == p.push(name));
            assert(p.push(name).drop_last() =~= p);
        }
        assert((before + seq!["."@] + behind).drop_last() =~= before);
        assert((before + seq![empty] + behind).drop_last() =~= before);
        assert((seq![".."@] + behind).drop_last() =~= Seq::<Seq<char>>::empty());
        assert(behind =~= Seq::<Seq<char>>::empty());
    } else {
        let less = behind.drop_last();
        detours_lead_nowhere(before, name, less);
        assert((before + behind).drop_last() =~= before + less);
        assert((before + seq![name, ".."@] + behind).drop_last() =~= before + seq![name, ".."@]
            + less);
        assert((before + seq!["."@] + behind).drop_last() =~= before + seq!["."@] + less);
        assert((before + seq![empty] + behind).drop_last() =~= before + seq![empty] + less);
        assert((seq![".."@] + behind).drop_last() =~= seq![".."@] + less);
    }
}

proof fn dots_differ()
    ensures
        "."@.len() == 1,
        ".."@.len() == 2,
{
    reveal_strlit(".");
    reveal_strlit("..");
}

/// Segments that are neither `.` nor `..` nor empty are the way they name.
pub proof fn plain_ways_stay(segs: Seq<Seq<char>>)
    requires
        forall|i: int|
            0 <= i < segs.len() ==> (#[trigger] segs[i]) != ".."@ && segs[i] != "."@ && segs[i].len()
                > 0,
    ensures
        resolve_segments(segs) == segs,
{
    plain_segments_stay(segs);
}

/// What is left without its slashes is the end of the text from its first other character on.
pub proof fn slashes_are_stripped(s: Seq<char>) -> (n: int)
    ensures
        0 <= n <= s.len(),
        forall|i: int| 0 <= i < n ==> #[trigger] s[i] == '/',
        n < s.len() ==> s[n] != '/',
        strip_slashes(s) == s.skip(n),
    decreases s.len(),
{
    if s.len() > 0 && s[0] == '/' {
        let n = slashes_are_stripped(s.drop_first()) + 1;
        assert forall|i: int| 0 <= i < n implies #[trigger] s[i] == '/' by {
            if i > 0 {
                assert(s.drop_first()[i - 1] == s[i]);
            }
        }
        assert(s.drop_first().skip(n - 1) =~= s.skip(n));
        n
    } else {
        assert(s.skip(0) =~= s);
        0
    }
}

/// The directory part of a name ends with its last slash: what stands behind is no part of it,
/// and a name without a slash has none.
pub proof fn the_directory_ends_at_the_last_slash(dir: Seq<char>, name: Seq<char>)
    requires
        dir.len() == 0 || dir.last() == '/',
        !name.contains('/'),
    ensures
        dir_part(dir + name) == dir,
    decreases name.len(),
{
    if name.len() == 0 {
        assert(dir + name =~= dir);
    } else {
        let less = name.drop_last();
        assert(name.contains(name[name.len() - 1]));
        assert((dir + name).last() == name.last());
        assert((dir + name).drop_last() =~= dir + less);
        assert(!less.contains('/')) by {
            if less.contains('/') {
                let k = choose|k: int| 0 <= k < less.len() && less[k] == '/';
                assert(name[k] == '/');
            }
        }
        the_directory_ends_at_the_last_slash(dir, less);
    }
}

} // verus!
