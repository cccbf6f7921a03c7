//! Character-level helpers on paths: trailing-slash normalisation and
//! splitting into '/'-separated segments.

use vstd::prelude::*;
use vstd::string::*;

verus! {

/// `s` with every trailing '/' removed.
pub open spec fn normalize(s: Seq<char>) -> Seq<char>
    decreases s.len(),
{
    if s.len() > 0 && s.last() == '/' {
        normalize(s.drop_last())
    } else {
        s
    }
}

/// The '/'-separated pieces of `s`, empty pieces included; never empty itself.
pub open spec fn split_on_slash(s: Seq<char>) -> Seq<Seq<char>>
    decreases s.len(),
{
    if s.len() == 0 {
        seq![Seq::empty()]
    } else {
        let prev = split_on_slash(s.drop_last());
        if s.last() == '/' {
            prev.push(Seq::empty())
        } else {
            prev.drop_last().push(prev.last().push(s.last()))
        }
    }
}

/// The segments of `s`: its '/'-separated pieces, less one trailing empty
/// piece (so that "" has no segment and "a/" has the one segment "a").
pub open spec fn split_segments(s: Seq<char>) -> Seq<Seq<char>> {
    let p = split_on_slash(s);
    if p.last().len() == 0 {
        p.drop_last()
    } else {
        p
    }
}

/// The last piece of `s` is what follows its last '/'; it is empty exactly
/// when `s` is empty or ends with '/'.
pub proof fn lemma_last_piece(s: Seq<char>)
    ensures
        split_on_slash(s).len() >= 1,
        (split_on_slash(s).last().len() == 0) <==> (s.len() == 0 || s.last() == '/'),
    decreases s.len(),
{
    if s.len() > 0 {
        lemma_last_piece(s.drop_last());
    }
}

/// One trailing '/' does not change the segments of a path that does not
/// already end with one.
pub proof fn lemma_split_trailing_slash(s: Seq<char>)
    requires
        s.len() > 0,
        s.last() != '/',
    ensures
        split_segments(s.push('/')) == split_segments(s),
{
    assert(s.push('/').drop_last() =~= s);
    lemma_last_piece(s);
    let p = split_on_slash(s);
    assert(split_on_slash(s.push('/')) == p.push(Seq::<char>::empty()));
    assert(p.push(Seq::<char>::empty()).drop_last() =~= p);
}

/// Normalising twice is normalising once.
pub proof fn lemma_normalize_idempotent(s: Seq<char>)
    ensures
        normalize(normalize(s)) == normalize(s),
    decreases s.len(),
{
    if s.len() > 0 && s.last() == '/' {
        lemma_normalize_idempotent(s.drop_last());
    }
}

/// The views of a sequence of strings.
pub open spec fn strings_view(v: Seq<String>) -> Seq<Seq<char>> {
    v.map_values(|x: String| x@)
}

/// Removes every trailing '/' of `route`.
pub fn remove_trailling_slash(route: &str) -> (r: String)
    ensures
        r@ == normalize(route@),
{
    let n = route.unicode_len();
    let mut j: usize = n;
    assert(route@.subrange(0, n as int) =~= route@);
    while j > 0 && route.get_char(j - 1) == '/'
        invariant
            j <= n,
            n == route@.len(),
            normalize(route@) == normalize(route@.subrange(0, j as int)),
        decreases j,
    {
        assert(route@.subrange(0, j as int).drop_last() =~= route@.subrange(0, j - 1));
        j = j - 1;
    }
    route.substring_char(0, j).to_owned()
}

/// Splits `route` on '/', keeping empty pieces but one trailing empty piece.
pub fn split_route(route: &str) -> (r: Vec<String>)
    ensures
        strings_view(r@) == split_segments(route@),
{
    let n = route.unicode_len();
    let mut segs: Vec<String> = Vec::new();
    let mut start: usize = 0;
    let mut i: usize = 0;
    assert(strings_view(segs@) =~= Seq::<Seq<char>>::empty());
    assert(route@.subrange(0, 0) =~= Seq::<char>::empty());
    assert(strings_view(segs@).push(route@.subrange(0, 0)) =~= seq![Seq::<char>::empty()]);
    while i < n
        invariant
            n == route@.len(),
            start <= i <= n,
            split_on_slash(route@.subrange(0, i as int)) == strings_view(segs@).push(
                route@.subrange(start as int, i as int),
            ),
        decreases n - i,
    {
        let c = route.get_char(i);
        let ghost pre = route@.subrange(0, i as int);
        assert(route@.subrange(0, i + 1).drop_last() =~= pre);
        if c == '/' {
            let piece = route.substring_char(start, i).to_owned();
            let ghost before = segs@;
            segs.push(piece);
            assert(strings_view(segs@) =~= strings_view(before).push(piece@));
            start = i + 1;
            assert(route@.subrange(start as int, i + 1) =~= Seq::<char>::empty());
        } else {
            assert(route@.subrange(start as int, i as int).push(c) =~= route@.subrange(
                start as int,
                i + 1,
            ));
        }
        i = i + 1;
    }
    assert(route@.subrange(0, n as int) =~= route@);
    let ghost before = segs@;
    if start < n {
        let last = route.substring_char(start, n).to_owned();
        segs.push(last);
        assert(strings_view(segs@) =~= strings_view(before).push(last@));
    } else {
        assert(strings_view(before).push(route@.subrange(start as int, n as int)).drop_last()
            =~= strings_view(before));
    }
    segs
}

} // verus!
