//! Which server and which location a request goes to.
use super::structs::ServerRuntime;
use crate::migux_config::location::{LocationConfig, LocationView};
use crate::text::{self, chars_of, starts_with};
use vstd::prelude::*;

verus! {

/// Chooses the first server at a listen address.
pub fn select_default_server<'a>(servers: &'a [ServerRuntime]) -> (r: &'a ServerRuntime)
    requires
        servers@.len() > 0,
    ensures
        *r == servers@[0],
{
    &servers[0]
}

/// The location with the longest path that the request path begins with; the
/// last of several.
pub open spec fn best_match(ls: Seq<LocationView>, path: Seq<char>) -> Option<int>
    decreases ls.len(),
{
    if ls.len() == 0 {
        None
    } else {
        let before = best_match(ls.drop_last(), path);
        if text::starts(path, ls.last().path) && (before is None || ls[before->0].path.len()
            <= ls.last().path.len()) {
            Some(ls.len() - 1)
        } else {
            before
        }
    }
}

/// The location that a path goes to: the best match, or the first one.
pub open spec fn routed(ls: Seq<LocationView>, path: Seq<char>) -> int {
    match best_match(ls, path) {
        Some(i) => i,
        None => 0,
    }
}

proof fn lemma_best_match(ls: Seq<LocationView>, path: Seq<char>)
    ensures
        match best_match(ls, path) {
            Some(i) => 0 <= i < ls.len() && text::starts(path, ls[i].path) && forall|j: int|
                0 <= j < ls.len() && text::starts(path, (#[trigger] ls[j]).path) ==> ls[j].path.len()
                    <= ls[i].path.len() && (j > i ==> ls[j].path.len() < ls[i].path.len()),
            None => forall|j: int|
                0 <= j < ls.len() ==> !text::starts(path, (#[trigger] ls[j]).path),
        },
    decreases ls.len(),
{
    if ls.len() > 0 {
        let rest = ls.drop_last();
        lemma_best_match(rest, path);
        assert forall|j: int| 0 <= j < rest.len() implies rest[j] == #[trigger] ls[j] by {}
    }
}

/// The longest prefix wins: no other location that matches has a longer path,
/// and of those with the same path the last is taken.
pub proof fn longest_prefix_wins(ls: Seq<LocationView>, path: Seq<char>, j: int)
    requires
        0 <= j < ls.len(),
        text::starts(path, ls[j].path),
    ensures
        0 <= routed(ls, path) < ls.len(),
        text::starts(path, ls[routed(ls, path)].path),
        ls[j].path.len() <= ls[routed(ls, path)].path.len(),
        ls[j].path.len() == ls[routed(ls, path)].path.len() ==> j <= routed(ls, path) && ls[j].path
            == ls[routed(ls, path)].path,
{
    lemma_best_match(ls, path);
}

/// Chooses the location for a request path, by its position.
pub fn match_location_index(locations: &[LocationConfig], path: &str) -> (r: usize)
    requires
        locations@.len() > 0,
    ensures
        r < locations@.len(),
        r == routed(locations.deep_view(), path@),
{
    let ghost all = locations.deep_view();
    let pc = chars_of(path);
    let mut best: Option<(usize, usize)> = None;
    assert(all.take(0) =~= Seq::empty());
    for i in 0..locations.len()
        invariant
            all == locations.deep_view(),
            pc@ == path@,
            match best {
                Some(b) => b.0 < i && best_match(all.take(i as int), path@) == Some(b.0 as int)
                    && b.1 == all[b.0 as int].path.len(),
                None => best_match(all.take(i as int), path@) is None,
            },
    {
        assert(all.take(i + 1).drop_last() =~= all.take(i as int));
        assert(all[i as int] == locations@[i as int].deep_view());
        let lc = chars_of(locations[i].path.as_str());
        if starts_with(pc.as_slice(), lc.as_slice()) {
            match best {
                Some((_, len)) => {
                    if len <= lc.len() {
                        best = Some((i, lc.len()));
                    }
                },
                None => {
                    best = Some((i, lc.len()));
                },
            }
        }
    }
    assert(all.take(locations@.len() as int) =~= all);
    match best {
        Some((i, _)) => i,
        None => 0,
    }
}

/// Chooses the location for a request path.
pub fn match_location<'a>(locations: &'a [LocationConfig], path: &str) -> (r: &'a LocationConfig)
    requires
        locations@.len() > 0,
    ensures
        *r == locations@[routed(locations.deep_view(), path@)],
{
    let i = match_location_index(locations, path);
    &locations[i]
}

/// A path that no location matches goes to the first location; one that some
/// location matches goes to one that matches it.
pub proof fn unmatched_path_goes_to_the_first(ls: Seq<LocationView>, path: Seq<char>)
    requires
        ls.len() > 0,
        forall|i: int, t: Seq<char>| 0 <= i < ls.len() ==> path != #[trigger] (ls[i].path + t),
    ensures
        routed(ls, path) == 0,
{
    assert forall|i: int| 0 <= i < ls.len() implies !text::starts(path, (#[trigger] ls[i]).path) by {
        if text::starts(path, ls[i].path) {
            assert(path =~= ls[i].path + path.skip(ls[i].path.len() as int));
        }
    }
    lemma_no_match(ls, path);
}

proof fn lemma_no_match(ls: Seq<LocationView>, path: Seq<char>)
    requires
        forall|i: int| 0 <= i < ls.len() ==> !text::starts(path, (#[trigger] ls[i]).path),
    ensures
        best_match(ls, path) is None,
    decreases ls.len(),
{
    if ls.len() > 0 {
        let rest = ls.drop_last();
        assert(!text::starts(path, ls[ls.len() - 1].path));
        assert forall|i: int| 0 <= i < rest.len() implies !text::starts(
            path,
            (#[trigger] rest[i]).path,
        ) by {
            assert(rest[i] == ls[i]);
        }
        lemma_no_match(rest, path);
    }
}

/// Of the locations with whose path a request path begins, one with the longest
/// path is chosen, and of several such the last.
pub proof fn longest_location_is_chosen(ls: Seq<LocationView>, path: Seq<char>, i: int, t: Seq<char>)
    requires
        0 <= i < ls.len(),
        path == ls[i].path + t,
        forall|j: int, u: Seq<char>|
            0 <= j < ls.len() && path == #[trigger] (ls[j].path + u) ==> ls[j].path.len()
                < ls[i].path.len() || (ls[j].path.len() == ls[i].path.len() && j <= i),
    ensures
        routed(ls, path) == i,
{
    assert(path.take(ls[i].path.len() as int) =~= ls[i].path);
    longest_prefix_wins(ls, path, i);
    let k = routed(ls, path);
    assert(path =~= ls[k].path + path.skip(ls[k].path.len() as int));
}

} // verus!
