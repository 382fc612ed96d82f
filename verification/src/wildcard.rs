//! File names with `(*)`: a name such as `page(*).css` selects every file in
//! the remote directory that is its fixed parts, in order, with any text
//! (possibly none) in place of each `(*)`; the name to save as, with as many
//! `(*)`, says how the local name is formed from what each `(*)` stood for.

use vstd::prelude::*;
use crate::text::{
    chars_equal, chars_of, contains, copy_range, find, find_exec, is_first_occurrence, lemma_find,
    occurs_at,
    string_of, string_views, views,
};

verus! {

/// `(*)`, the wildcard.
pub open spec fn wildcard() -> Seq<char> {
    seq!['(', '*', ')']
}

/// The pieces of `s` between the occurrences of `pat`, as `str::split` with
/// a string pattern yields them: occurrences are taken from the left without
/// overlap; an empty pattern matches before every character and at the end.
pub open spec fn split_str(s: Seq<char>, pat: Seq<char>) -> Seq<Seq<char>>
    decreases s.len(),
{
    if pat.len() == 0 {
        seq![Seq::<char>::empty()] + s.map_values(|c: char| seq![c]) + seq![Seq::<char>::empty()]
    } else if contains(s, pat) {
        let i = find(s, pat)->0;
        proof {
            lemma_find(s, pat);
        }
        seq![s.take(i)] + split_str(s.skip(i + pat.len()), pat)
    } else {
        seq![s]
    }
}

/// The pieces of `s` between the occurrences of `pat`.
pub fn split_str_exec(s: &[char], pat: &[char]) -> (r: Vec<Vec<char>>)
    ensures
        views(r@) == split_str(s@, pat@),
{
    let mut out: Vec<Vec<char>> = Vec::new();
    if pat.len() == 0 {
        out.push(Vec::new());
        let mut i: usize = 0;
        while i < s.len()
            invariant
                i <= s@.len(),
                views(out@) =~= seq![Seq::<char>::empty()] + s@.take(i as int).map_values(
                    |c: char| seq![c],
                ),
            decreases s@.len() - i,
        {
            let mut one: Vec<char> = Vec::new();
            one.push(s[i]);
            assert(one@ =~= seq![s@[i as int]]);
            let ghost before = views(out@);
            out.push(one);
            assert(views(out@) =~= before.push(seq![s@[i as int]]));
            assert(s@.take(i + 1).map_values(|c: char| seq![c]) =~= s@.take(i as int).map_values(
                |c: char| seq![c],
            ).push(seq![s@[i as int]]));
            i = i + 1;
        }
        out.push(Vec::new());
        assert(s@.take(s@.len() as int) =~= s@);
        assert(views(out@) =~= split_str(s@, pat@));
        return out;
    }
    let mut rest = copy_range(s, 0, s.len());
    assert(rest@ =~= s@);
    assert(views(out@) + split_str(rest@, pat@) =~= split_str(s@, pat@));
    loop
        invariant
            pat@.len() > 0,
            views(out@) + split_str(rest@, pat@) == split_str(s@, pat@),
        decreases rest@.len(),
    {
        proof {
            lemma_find(rest@, pat@);
        }
        match find_exec(&rest, pat) {
            None => {
                out.push(rest);
                assert(views(out@) =~= split_str(s@, pat@));
                return out;
            },
            Some(i) => {
                assert(occurs_at(rest@, pat@, i as int));
                let n = rest.len();
                let plen = pat.len();
                assert(i + plen <= n);
                let head = copy_range(&rest, 0, i);
                let tail = copy_range(&rest, i + plen, n);
                assert(head@ =~= rest@.take(i as int));
                assert(tail@ =~= rest@.skip(i + plen));
                let ghost old_rest = rest@;
                let ghost old_out = views(out@);
                out.push(head);
                rest = tail;
                assert(views(out@) =~= old_out.push(old_rest.take(i as int)));
                assert(split_str(old_rest, pat@) == seq![old_rest.take(i as int)] + split_str(
                    rest@,
                    pat@,
                ));
                assert(views(out@) + split_str(rest@, pat@) =~= old_out + split_str(
                    old_rest,
                    pat@,
                ));
            },
        }
    }
}


/// The outer pieces with the inner pieces between them: `outer[0]`,
/// `inner[0]`, `outer[1]`, ..., `inner[k - 1]`, `outer[k]` for `k` inner
/// pieces.
pub open spec fn weave(outer: Seq<Seq<char>>, inner: Seq<Seq<char>>) -> Seq<char>
    decreases inner.len(),
{
    if inner.len() == 0 {
        outer[0]
    } else {
        outer[0] + inner[0] + weave(outer.drop_first(), inner.drop_first())
    }
}

/// `name` is the fixed parts in order with some text, possibly empty, in
/// place of each `(*)`: `parts[0] + x_1 + parts[1] + ... + x_k + parts[k]`
/// for some strings `x_1`, ..., `x_k`.
pub open spec fn matches_parts(name: Seq<char>, parts: Seq<Seq<char>>) -> bool {
    exists|xs: Seq<Seq<char>>| xs.len() + 1 == parts.len() && #[trigger] weave(parts, xs) == name
}

/// Puts `pre` in front of the pieces, if there are any.
pub open spec fn prepend_fills(pre: Seq<Seq<char>>, o: Option<Seq<Seq<char>>>) -> Option<
    Seq<Seq<char>>,
> {
    match o {
        Some(f) => Some(pre + f),
        None => None,
    }
}

/// The text between the inner parts `ps` of `m`, each part taken at its
/// leftmost occurrence after the one before: `m` falls into
/// `f[0] + ps[0] + f[1] + ... + ps[k - 1] + f[k]`; `None` where a part
/// does not occur.
pub open spec fn leftmost_fills(m: Seq<char>, ps: Seq<Seq<char>>) -> Option<Seq<Seq<char>>>
    decreases ps.len(),
{
    if ps.len() == 0 {
        Some(seq![m])
    } else {
        match find(m, ps[0]) {
            None => None,
            Some(i) => prepend_fills(
                seq![m.take(i)],
                leftmost_fills(m.skip(i + ps[0].len()), ps.drop_first()),
            ),
        }
    }
}

/// What stands in place of each `(*)` of a name with the fixed parts
/// `parts`: the name must start with the first part and end with the last,
/// and between them each inner part is taken at its leftmost occurrence.
/// `None` where the name does not match.
pub open spec fn name_fills(name: Seq<char>, parts: Seq<Seq<char>>) -> Option<Seq<Seq<char>>> {
    if parts.len() == 0 {
        None
    } else if parts.len() == 1 {
        if name == parts[0] {
            Some(Seq::empty())
        } else {
            None
        }
    } else {
        let first = parts[0];
        let last = parts.last();
        if first.len() + last.len() <= name.len() && name.take(first.len() as int) == first
            && name.skip(name.len() - last.len()) == last {
            leftmost_fills(
                name.subrange(first.len() as int, name.len() - last.len()),
                parts.subrange(1, parts.len() - 1),
            )
        } else {
            None
        }
    }
}

/// Keeps a name that matches the fixed parts.
pub open spec fn keep_if_matching(name: Seq<char>, parts: Seq<Seq<char>>) -> Option<Seq<char>> {
    if matches_parts(name, parts) {
        Some(name)
    } else {
        None
    }
}

/// The names of the listing that match the fixed parts, in order.
pub open spec fn matching_names(listing: Seq<Seq<char>>, parts: Seq<Seq<char>>) -> Seq<Seq<char>> {
    listing.filter_map(|n: Seq<char>| keep_if_matching(n, parts))
}

/// The local name of a matching file: the fixed parts of the name to save
/// as, with what each `(*)` of the name stood for in place of its `(*)`.
pub open spec fn local_name(
    name: Seq<char>,
    server_parts: Seq<Seq<char>>,
    client_parts: Seq<Seq<char>>,
) -> Seq<char> {
    weave(client_parts, name_fills(name, server_parts)->0)
}

/// Text put in front of a weave joins its first outer piece.
proof fn lemma_weave_prepend(u: Seq<char>, outer: Seq<Seq<char>>, inner: Seq<Seq<char>>)
    requires
        outer.len() == inner.len() + 1,
    ensures
        weave(seq![u + outer[0]] + outer.drop_first(), inner) == u + weave(outer, inner),
{
    let g = seq![u + outer[0]] + outer.drop_first();
    assert(g[0] == u + outer[0]);
    assert(g.drop_first() =~= outer.drop_first());
    if inner.len() > 0 {
        assert(weave(g, inner) =~= u + weave(outer, inner));
    }
}

/// Leftmost fills put back together give the text they came from.
proof fn lemma_leftmost_sound(m: Seq<char>, ps: Seq<Seq<char>>)
    ensures
        leftmost_fills(m, ps) matches Some(f) ==> f.len() == ps.len() + 1 && weave(f, ps) == m,
    decreases ps.len(),
{
    if ps.len() > 0 {
        lemma_find(m, ps[0]);
        if let Some(i) = find(m, ps[0]) {
            let p = ps[0];
            let rest = m.skip(i + p.len());
            lemma_leftmost_sound(rest, ps.drop_first());
            if let Some(g) = leftmost_fills(rest, ps.drop_first()) {
                let f = seq![m.take(i)] + g;
                assert(f[0] == m.take(i));
                assert(f.drop_first() =~= g);
                assert(m.subrange(i, i + p.len()) == p);
                assert(m.take(i) + p + rest =~= m);
            }
        }
    }
}

/// Where the text is the inner parts with some fills between them, the
/// leftmost fills exist.
proof fn lemma_leftmost_complete(m: Seq<char>, ps: Seq<Seq<char>>, f: Seq<Seq<char>>)
    requires
        f.len() == ps.len() + 1,
        weave(f, ps) == m,
    ensures
        leftmost_fills(m, ps) is Some,
    decreases ps.len(),
{
    if ps.len() > 0 {
        let p = ps[0];
        let f0 = f[0];
        let fr = f.drop_first();
        let tail = weave(fr, ps.drop_first());
        assert(m == f0 + p + tail);
        let at = f0.len() as int;
        assert(m.subrange(at, at + p.len()) =~= p);
        assert(occurs_at(m, p, at));
        lemma_find(m, p);
        let i = find(m, p)->0;
        assert(is_first_occurrence(m, p, i));
        assert(i <= at);
        let gap = m.subrange(i + p.len(), at + p.len());
        let g = seq![gap + fr[0]] + fr.drop_first();
        lemma_weave_prepend(gap, fr, ps.drop_first());
        assert(m.skip(i + p.len()) =~= gap + tail);
        lemma_leftmost_complete(m.skip(i + p.len()), ps.drop_first(), g);
    }
}

/// A weave whose outer pieces are `first`, `mid` and `last` is `first`,
/// then the fills woven around `mid`, then `last`.
proof fn lemma_weave_ends(
    first: Seq<char>,
    mid: Seq<Seq<char>>,
    last: Seq<char>,
    xs: Seq<Seq<char>>,
)
    requires
        xs.len() == mid.len() + 1,
    ensures
        weave(seq![first] + mid + seq![last], xs) == first + weave(xs, mid) + last,
    decreases mid.len(),
{
    let outer = seq![first] + mid + seq![last];
    assert(outer[0] == first);
    if mid.len() == 0 {
        assert(outer.drop_first() =~= seq![last]);
        assert(xs.drop_first().len() == 0);
        assert(weave(outer.drop_first(), xs.drop_first()) == last);
        assert(weave(outer, xs) == first + xs[0] + last);
        assert(weave(xs, mid) == xs[0]);
        assert(weave(outer, xs) =~= first + weave(xs, mid) + last);
    } else {
        assert(outer.drop_first() =~= seq![mid[0]] + mid.drop_first() + seq![last]);
        lemma_weave_ends(mid[0], mid.drop_first(), last, xs.drop_first());
        let inner_w = weave(xs.drop_first(), mid.drop_first());
        assert(weave(outer, xs) == first + xs[0] + weave(outer.drop_first(), xs.drop_first()));
        assert(weave(outer.drop_first(), xs.drop_first()) == mid[0] + inner_w + last);
        assert(weave(xs, mid) == xs[0] + mid[0] + inner_w);
        assert(weave(outer, xs) =~= first + weave(xs, mid) + last);
    }
}

/// `name_fills` finds fills exactly for the names that match, and the fills
/// it finds put back together with the parts give the name.
pub proof fn lemma_name_fills(name: Seq<char>, parts: Seq<Seq<char>>)
    ensures
        matches_parts(name, parts) <==> name_fills(name, parts) is Some,
        name_fills(name, parts) matches Some(xs) ==> xs.len() + 1 == parts.len() && weave(
            parts,
            xs,
        ) == name,
{
    if parts.len() == 1 {
        if matches_parts(name, parts) {
            let xs = choose|xs: Seq<Seq<char>>|
                xs.len() + 1 == parts.len() && #[trigger] weave(parts, xs) == name;
            assert(weave(parts, xs) == parts[0]);
        }
        if name == parts[0] {
            assert(weave(parts, Seq::<Seq<char>>::empty()) == name);
        }
    } else if parts.len() >= 2 {
        let first = parts[0];
        let last = parts.last();
        let mid = parts.subrange(1, parts.len() - 1);
        assert(parts =~= seq![first] + mid + seq![last]);
        let lo = first.len() as int;
        let hi = name.len() - last.len();
        if matches_parts(name, parts) {
            let xs = choose|xs: Seq<Seq<char>>|
                xs.len() + 1 == parts.len() && #[trigger] weave(parts, xs) == name;
            lemma_weave_ends(first, mid, last, xs);
            let w = weave(xs, mid);
            assert(name == first + w + last);
            assert(name.take(lo) =~= first);
            assert(name.skip(hi) =~= last);
            assert(name.subrange(lo, hi) =~= w);
            lemma_leftmost_complete(w, mid, xs);
        }
        if first.len() + last.len() <= name.len() && name.take(lo) == first && name.skip(hi)
            == last {
            let m = name.subrange(lo, hi);
            lemma_leftmost_sound(m, mid);
            if let Some(xs) = leftmost_fills(m, mid) {
                lemma_weave_ends(first, mid, last, xs);
                assert(first + m + last =~= name);
                assert(weave(parts, xs) == name);
            }
        }
    }
}

/// The names selected by a pattern are exactly the names of the listing
/// that match its fixed parts.
pub proof fn lemma_matching_names(listing: Seq<Seq<char>>, parts: Seq<Seq<char>>)
    ensures
        forall|k: int|
            0 <= k < matching_names(listing, parts).len() ==> matches_parts(
                #[trigger] matching_names(listing, parts)[k],
                parts,
            ) && listing.contains(matching_names(listing, parts)[k]),
        forall|j: int|
            0 <= j < listing.len() && matches_parts(#[trigger] listing[j], parts)
                ==> matching_names(listing, parts).contains(listing[j]),
    decreases listing.len(),
{
    if listing.len() > 0 {
        let prev = listing.drop_last();
        lemma_matching_names(prev, parts);
        let m = matching_names(listing, parts);
        let mp = matching_names(prev, parts);
        assert forall|k: int| 0 <= k < m.len() implies matches_parts(#[trigger] m[k], parts)
            && listing.contains(m[k]) by {
            if k < mp.len() {
                assert(m[k] == mp[k]);
                let j = choose|j: int| 0 <= j < prev.len() && prev[j] == mp[k];
                assert(listing[j] == prev[j]);
            } else {
                assert(listing[listing.len() - 1] == listing.last());
            }
        }
        assert forall|j: int| 0 <= j < listing.len() && matches_parts(#[trigger] listing[j], parts)
            implies m.contains(listing[j]) by {
            if j < prev.len() {
                assert(prev[j] == listing[j]);
                assert(mp.contains(prev[j]));
                let k = choose|k: int| 0 <= k < mp.len() && mp[k] == prev[j];
                assert(m[k] == mp[k]);
            } else {
                assert(listing[j] == listing.last());
                assert(m[m.len() - 1] == listing.last());
            }
        }
    }
}

/// Saving a matching file under its own name pattern gives back its own
/// name: the fills put back between the same parts rebuild it.
pub proof fn lemma_same_scheme_keeps_name(name: Seq<char>, parts: Seq<Seq<char>>)
    requires
        matches_parts(name, parts),
    ensures
        local_name(name, parts, parts) == name,
{
    lemma_name_fills(name, parts);
}

/// The leftmost fills of `m` between the inner parts `parts[lo..hi]`.
fn leftmost_fills_exec(m: &Vec<char>, parts: &Vec<Vec<char>>, lo: usize, hi: usize) -> (r: Option<
    Vec<Vec<char>>,
>)
    requires
        lo <= hi <= parts@.len(),
    ensures
        match r {
            Some(f) => leftmost_fills(m@, views(parts@).subrange(lo as int, hi as int)) == Some(
                views(f@),
            ),
            None => leftmost_fills(m@, views(parts@).subrange(lo as int, hi as int)) is None,
        },
{
    let ghost vs = views(parts@);
    let ghost whole = leftmost_fills(m@, vs.subrange(lo as int, hi as int));
    let mut out: Vec<Vec<char>> = Vec::new();
    let mut rest = copy_range(m, 0, m.len());
    assert(rest@ =~= m@);
    assert(views(out@) + seq![rest@] =~= seq![rest@]);
    assert(whole == prepend_fills(views(out@), leftmost_fills(rest@, vs.subrange(lo as int, hi as int)))) by {
        match leftmost_fills(rest@, vs.subrange(lo as int, hi as int)) {
            Some(f) => {
                assert(views(out@) + f =~= f);
            },
            None => {},
        }
    }
    let mut j: usize = lo;
    while j < hi
        invariant
            lo <= j <= hi <= parts@.len(),
            vs == views(parts@),
            whole == leftmost_fills(m@, vs.subrange(lo as int, hi as int)),
            whole == prepend_fills(views(out@), leftmost_fills(rest@, vs.subrange(j as int, hi as int))),
        decreases hi - j,
    {
        let ghost q = vs.subrange(j as int, hi as int);
        assert(q[0] == parts@[j as int]@);
        assert(q.drop_first() =~= vs.subrange(j + 1, hi as int));
        match find_exec(&rest, &parts[j]) {
            None => {
                return None;
            },
            Some(i) => {
                proof {
                    lemma_find(rest@, q[0]);
                }
                let plen = parts[j].len();
                let n = rest.len();
                let head = copy_range(&rest, 0, i);
                let tail = copy_range(&rest, i + plen, n);
                assert(head@ =~= rest@.take(i as int));
                assert(tail@ =~= rest@.skip(i + plen));
                let ghost old_out = views(out@);
                let ghost inner = leftmost_fills(tail@, vs.subrange(j + 1, hi as int));
                assert(leftmost_fills(rest@, q) == prepend_fills(seq![head@], inner));
                out.push(head);
                rest = tail;
                assert(views(out@) =~= old_out.push(head@));
                assert(whole == prepend_fills(views(out@), inner)) by {
                    match inner {
                        Some(f) => {
                            assert(old_out + (seq![head@] + f) =~= views(out@) + f);
                        },
                        None => {},
                    }
                }
            },
        }
        j = j + 1;
    }
    assert(vs.subrange(j as int, hi as int).len() == 0);
    let ghost old_out = views(out@);
    out.push(rest);
    assert(views(out@) =~= old_out + seq![rest@]);
    Some(out)
}

/// What stands in place of each `(*)` of `name`, as `name_fills` states it.
fn name_fills_exec(name: &Vec<char>, parts: &Vec<Vec<char>>) -> (r: Option<Vec<Vec<char>>>)
    ensures
        match r {
            Some(f) => name_fills(name@, views(parts@)) == Some(views(f@)),
            None => name_fills(name@, views(parts@)) is None,
        },
{
    let ghost vs = views(parts@);
    let k = parts.len();
    if k == 0 {
        return None;
    }
    if k == 1 {
        assert(vs[0] == parts@[0]@);
        if chars_equal(name, &parts[0]) {
            let none: Vec<Vec<char>> = Vec::new();
            assert(views(none@) =~= Seq::<Seq<char>>::empty());
            return Some(none);
        }
        return None;
    }
    let first = &parts[0];
    let last = &parts[k - 1];
    assert(vs[0] == first@);
    assert(vs.last() == last@);
    let n = name.len();
    if first.len() > n || last.len() > n - first.len() {
        return None;
    }
    let hi = n - last.len();
    if !crate::text::occurs_at_exec(name, first, 0) {
        assert(name@.subrange(0, first@.len() as int) =~= name@.take(first@.len() as int));
        return None;
    }
    assert(name@.subrange(0, first@.len() as int) =~= name@.take(first@.len() as int));
    if !crate::text::occurs_at_exec(name, last, hi) {
        assert(name@.subrange(hi as int, n as int) =~= name@.skip(hi as int));
        return None;
    }
    assert(name@.subrange(hi as int, n as int) =~= name@.skip(hi as int));
    let middle = copy_range(name, first.len(), hi);
    leftmost_fills_exec(&middle, parts, 1, k - 1)
}

/// The outer pieces with the inner pieces between them.
fn weave_exec(outer: &Vec<Vec<char>>, inner: &Vec<Vec<char>>) -> (r: Vec<char>)
    requires
        outer@.len() == inner@.len() + 1,
    ensures
        r@ == weave(views(outer@), views(inner@)),
{
    let ghost os = views(outer@);
    let ghost is = views(inner@);
    let mut out: Vec<char> = Vec::new();
    let mut j: usize = 0;
    assert(os.skip(0) =~= os);
    assert(is.skip(0) =~= is);
    while j < inner.len()
        invariant
            j <= inner@.len(),
            outer@.len() == inner@.len() + 1,
            os == views(outer@),
            is == views(inner@),
            out@ + weave(os.skip(j as int), is.skip(j as int)) == weave(os, is),
        decreases inner@.len() - j,
    {
        let ghost o = os.skip(j as int);
        let ghost i2 = is.skip(j as int);
        assert(o.drop_first() =~= os.skip(j + 1));
        assert(i2.drop_first() =~= is.skip(j + 1));
        assert(o[0] == outer@[j as int]@);
        assert(i2[0] == inner@[j as int]@);
        let ghost before = out@;
        let mut a = copy_range(&outer[j], 0, outer[j].len());
        let mut b = copy_range(&inner[j], 0, inner[j].len());
        assert(a@ =~= o[0]);
        assert(b@ =~= i2[0]);
        out.append(&mut a);
        out.append(&mut b);
        assert(out@ =~= before + o[0] + i2[0]);
        assert(weave(o, i2) == o[0] + i2[0] + weave(os.skip(j + 1), is.skip(j + 1)));
        assert(out@ + weave(os.skip(j + 1), is.skip(j + 1)) =~= before + weave(o, i2));
        j = j + 1;
    }
    let ghost o = os.skip(j as int);
    assert(is.skip(j as int).len() == 0);
    assert(o[0] == outer@[j as int]@);
    let mut a = copy_range(&outer[j], 0, outer[j].len());
    out.append(&mut a);
    out
}

/// What to fetch for an entry whose name holds `(*)`: the matching remote
/// names, and the local name of each, paired by position.
pub struct WildcardPlan {
    /// The files of the listing that match the name.
    pub to_download: Vec<String>,
    /// The name each of them is saved as; none where the names hold
    /// different numbers of `(*)`.
    pub client_names: Vec<String>,
    /// The name and the name to save as hold different numbers of `(*)`.
    pub counts_differ: bool,
}

/// The plan for a name, a name to save as and the listing of the remote
/// directory, as `wildcard_plan` states it.
pub open spec fn plan_result(
    filename: Seq<char>,
    namescheme: Seq<char>,
    listing: Seq<Seq<char>>,
    r: WildcardPlan,
) -> bool {
    let sp = fixed_parts(filename);
    let cp = fixed_parts(namescheme);
    let m = matching_names(listing, sp);
    &&& string_views(r.to_download@) == m
    &&& r.counts_differ == (filename != namescheme && sp.len() != cp.len())
    &&& filename == namescheme ==> string_views(r.client_names@) == m
    &&& (filename != namescheme && sp.len() == cp.len()) ==> string_views(r.client_names@)
        == m.map_values(|n: Seq<char>| local_name(n, sp, cp))
    &&& r.counts_differ ==> r.client_names@.len() == 0
}

/// What to fetch for an entry whose name holds `(*)`, given the names in the
/// remote directory: the names that are the fixed parts of `filename` in
/// order with any text in place of each `(*)`; saved under their own names
/// where `namescheme` is `filename`, and otherwise, where both hold as many
/// `(*)`, under `namescheme` with each `(*)` replaced by what the matching
/// name holds in its place.
pub fn wildcard_plan(filename: &String, namescheme: &String, listing: &Vec<String>) -> (r:
    WildcardPlan)
    ensures
        plan_result(filename@, namescheme@, string_views(listing@), r),
{
    let ghost lv = string_views(listing@);
    let wc = vec!['(', '*', ')'];
    assert(wc@ =~= wildcard());
    let f = chars_of(filename.as_str());
    let ns = chars_of(namescheme.as_str());
    let sp = split_str_exec(&f, &wc);
    let cp = split_str_exec(&ns, &wc);
    let ghost spv = views(sp@);
    let ghost cpv = views(cp@);
    let same = chars_equal(&f, &ns);
    let formed = !same && sp.len() == cp.len();
    let mut names: Vec<String> = Vec::new();
    let mut locals: Vec<String> = Vec::new();
    let mut i: usize = 0;
    assert(lv.take(0) =~= Seq::<Seq<char>>::empty());
    while i < listing.len()
        invariant
            i <= listing@.len() == lv.len(),
            lv == string_views(listing@),
            spv == views(sp@),
            cpv == views(cp@),
            spv == fixed_parts(filename@),
            cpv == fixed_parts(namescheme@),
            same == (filename@ == namescheme@),
            formed == (!same && spv.len() == cpv.len()),
            string_views(names@) == matching_names(lv.take(i as int), spv),
            same ==> string_views(locals@) == string_views(names@),
            formed ==> string_views(locals@) == matching_names(lv.take(i as int), spv).map_values(
                |n: Seq<char>| local_name(n, spv, cpv),
            ),
            !same && !formed ==> locals@.len() == 0,
        decreases listing@.len() - i,
    {
        let n = chars_of(listing[i].as_str());
        assert(n@ == lv[i as int]);
        assert(lv.take(i + 1).drop_last() =~= lv.take(i as int));
        assert(lv.take(i + 1).last() == lv[i as int]);
        proof {
            lemma_name_fills(n@, spv);
        }
        let ghost before = string_views(names@);
        let ghost before_locals = string_views(locals@);
        let ghost lname = |x: Seq<char>| local_name(x, spv, cpv);
        match name_fills_exec(&n, &sp) {
            Some(fills) => {
                names.push(listing[i].clone());
                assert(string_views(names@) =~= before.push(lv[i as int]));
                if same {
                    locals.push(listing[i].clone());
                    assert(string_views(locals@) =~= before_locals.push(lv[i as int]));
                } else if formed {
                    assert(views(fills@).len() + 1 == spv.len());
                    let local = weave_exec(&cp, &fills);
                    locals.push(string_of(&local));
                    assert(string_views(locals@) =~= before_locals.push(local_name(n@, spv, cpv)));
                    assert(before.push(lv[i as int]).map_values(lname) =~= before.map_values(
                        lname,
                    ).push(local_name(n@, spv, cpv)));
                }
            },
            None => {},
        }
        i = i + 1;
    }
    assert(lv.take(lv.len() as int) =~= lv);
    WildcardPlan { to_download: names, client_names: locals, counts_differ: !same && !formed }
}

/// With one `(*)`, between `a` and `b` (the fixed parts of `a(*)b`, see
/// `lemma_one_wildcard_parts`), every name `a x b` matches, whatever `x`
/// is, and with the name to save as `c(*)d` it is saved as `c x d`: what
/// the `(*)` stood for is carried into the local name.
pub proof fn lemma_one_wildcard_local_name(
    a: Seq<char>,
    b: Seq<char>,
    c: Seq<char>,
    d: Seq<char>,
    x: Seq<char>,
)
    ensures
        matches_parts(a + x + b, seq![a, b]),
        local_name(a + x + b, seq![a, b], seq![c, d]) == c + x + d,
{
    let parts = seq![a, b];
    let xs = seq![x];
    assert(parts.drop_first() =~= seq![b]);
    assert(xs.drop_first() =~= Seq::<Seq<char>>::empty());
    assert(weave(seq![b], Seq::<Seq<char>>::empty()) == b);
    assert(weave(parts, xs) =~= a + x + b);
    lemma_name_fills(a + x + b, parts);
    let n = a + x + b;
    assert(n.take(a.len() as int) =~= a);
    assert(n.skip(n.len() - b.len()) =~= b);
    assert(n.subrange(a.len() as int, n.len() - b.len()) =~= x);
    assert(parts.subrange(1, 1) =~= Seq::<Seq<char>>::empty());
    assert(name_fills(n, parts) == Some(xs));
    let cd = seq![c, d];
    assert(cd.drop_first() =~= seq![d]);
    assert(weave(seq![d], Seq::<Seq<char>>::empty()) == d);
    assert(weave(cd, xs) =~= c + x + d);
}
/// The fixed parts of a name: the pieces between its `(*)`.
pub open spec fn fixed_parts(name: Seq<char>) -> Seq<Seq<char>> {
    split_str(name, wildcard())
}
/// Splitting at a nonempty pattern whose first occurrence is at `i`: the
/// text before it, then the pieces of what follows.
proof fn lemma_split_str_at(s: Seq<char>, pat: Seq<char>, i: int)
    requires
        pat.len() > 0,
        is_first_occurrence(s, pat, i),
    ensures
        split_str(s, pat) == seq![s.take(i)] + split_str(s.skip(i + pat.len()), pat),
{
    lemma_find(s, pat);
}

/// A text without the pattern is one piece.
proof fn lemma_split_str_none(s: Seq<char>, pat: Seq<char>)
    requires
        pat.len() > 0,
        !contains(s, pat),
    ensures
        split_str(s, pat) == seq![s],
{
}

/// `(*)` cannot begin inside text that lacks it and end in a `(*)` that
/// follows: the first `(*)` of `p + (*) + q` is the one after `p`.
proof fn lemma_split_at_wildcard(p: Seq<char>, q: Seq<char>)
    requires
        !contains(p, wildcard()),
    ensures
        split_str(p + wildcard() + q, wildcard()) == seq![p] + split_str(q, wildcard()),
{
    let wc = wildcard();
    let s = p + wc + q;
    let at = p.len() as int;
    assert(s.subrange(at, at + 3) =~= wc);
    assert forall|j: int| 0 <= j < at implies !occurs_at(s, wc, j) by {
        if occurs_at(s, wc, j) {
            if j + 3 <= at {
                assert(s.subrange(j, j + 3) =~= p.subrange(j, j + 3));
                assert(occurs_at(p, wc, j));
            } else {
                assert(s[at] == '(');
                assert(s.subrange(j, j + 3)[at - j] == s[at]);
            }
        }
    }
    assert(is_first_occurrence(s, wc, at));
    lemma_split_str_at(s, wc, at);
    assert(s.take(at) =~= p);
    assert(s.skip(at + 3) =~= q);
}

/// A name with one `(*)`, between `a` and `b`, has the fixed parts `a` and `b`.
pub proof fn lemma_one_wildcard_parts(a: Seq<char>, b: Seq<char>)
    requires
        !contains(a, wildcard()),
        !contains(b, wildcard()),
    ensures
        fixed_parts(a + wildcard() + b) == seq![a, b],
{
    lemma_split_at_wildcard(a, b);
    lemma_split_str_none(b, wildcard());
    assert(seq![a] + seq![b] =~= seq![a, b]);
}

/// Whether a file name holds `(*)`.
pub fn has_wildcard(filename: &String) -> (r: bool)
    ensures
        r == contains(filename@, wildcard()),
{
    let wc = vec!['(', '*', ')'];
    assert(wc@ =~= wildcard());
    let f = chars_of(filename.as_str());
    crate::text::contains_exec(&f, &wc)
}

} // verus!

