//! Turning requested names into URIs: alias resolution (aliases win over
//! direct links, dangling targets are reported rather than ignored) and
//! single-level group expansion.

use vstd::prelude::*;
use crate::config::{Config, DocModel};
use crate::error::Error;
use crate::maps::{map_has_key, map_value_of};

verus! {

/// Whether `name` resolves to a URI: through its alias target when `name`
/// is an alias key, directly through the links otherwise.
pub open spec fn resolve_ok(m: DocModel, name: Seq<char>) -> bool {
    if map_has_key(m.aliases, name) {
        map_has_key(m.links, map_value_of(m.aliases, name))
    } else {
        map_has_key(m.links, name)
    }
}

/// The URI `name` resolves to (meaningful only when `resolve_ok`).
pub open spec fn resolved_uri(m: DocModel, name: Seq<char>) -> Seq<char> {
    if map_has_key(m.aliases, name) {
        map_value_of(m.links, map_value_of(m.aliases, name))
    } else {
        map_value_of(m.links, name)
    }
}

/// The exact contract of one resolution: success carries the resolved URI;
/// a dangling alias fails naming both the alias and its missing target; an
/// unknown name fails with `NotFound`.
pub open spec fn resolve_result_matches(
    m: DocModel,
    name: Seq<char>,
    r: Result<String, Error>,
) -> bool {
    match r {
        Ok(uri) => resolve_ok(m, name) && uri@ == resolved_uri(m, name),
        Err(e) => !resolve_ok(m, name) && (if map_has_key(m.aliases, name) {
            e matches Error::DanglingReference { alias, target } && alias@ == name && target@
                == map_value_of(m.aliases, name)
        } else {
            e matches Error::NotFound { name: unknown } && unknown@ == name
        }),
    }
}

/// Resolve a name to a URI.  An alias key wins over a link of the same
/// name; an alias whose target is missing is an error, not a fall-through.
pub fn alias_or_link_to_uri(link: &str, config: &Config) -> (r: Result<String, Error>)
    ensures
        resolve_result_matches(config@, link@, r),
{
    match config.aliases.get(link) {
        Some(target) => match config.links.get(target.as_str()) {
            Some(uri) => Ok(uri.clone()),
            None => Err(
                Error::DanglingReference { alias: link.to_owned(), target: target.clone() },
            ),
        },
        None => match config.links.get(link) {
            Some(uri) => Ok(uri.clone()),
            None => Err(Error::NotFound { name: link.to_owned() }),
        },
    }
}

/// Single-level group expansion: a group key contributes its member list
/// verbatim, any other name contributes itself.  Members are not expanded
/// again even when they are themselves group keys.
pub open spec fn expand_spec(names: Seq<Seq<char>>, m: DocModel) -> Seq<Seq<char>>
    decreases names.len(),
{
    if names.len() == 0 {
        Seq::empty()
    } else {
        (if map_has_key(m.groups, names[0]) {
            map_value_of(m.groups, names[0])
        } else {
            seq![names[0]]
        }) + expand_spec(names.drop_first(), m)
    }
}

/// Replace every group name in `links` by that group's members, in order.
#[verifier::loop_isolation(false)]
pub fn expand_groups(links: &Vec<String>, config: &Config) -> (r: Vec<String>)
    ensures
        r.deep_view() == expand_spec(links.deep_view(), config@),
{
    let mut expanded: Vec<String> = Vec::new();
    let n = links.len();
    proof {
        assert(expanded.deep_view() =~= Seq::<Seq<char>>::empty());
        assert(links.deep_view().subrange(0, n as int) =~= links.deep_view());
        assert(Seq::<Seq<char>>::empty() + expand_spec(links.deep_view(), config@)
            =~= expand_spec(links.deep_view(), config@));
    }
    let mut i: usize = 0;
    while i < n
        invariant
            0 <= i <= n,
            expanded.deep_view() + expand_spec(
                links.deep_view().subrange(i as int, n as int),
                config@,
            ) == expand_spec(links.deep_view(), config@),
        decreases n - i,
    {
        let ghost pre = expanded.deep_view();
        let ghost rest = links.deep_view().subrange(i as int, n as int);
        match config.groups.get(links[i].as_str()) {
            Some(items) => {
                let m = items.len();
                let mut j: usize = 0;
                while j < m
                    invariant
                        0 <= j <= m,
                        0 <= i < n,
                        m == items.deep_view().len(),
                        expanded.deep_view() =~= pre + items.deep_view().subrange(0, j as int),
                    decreases m - j,
                {
                    let ghost before = expanded.deep_view();
                    expanded.push(items[j].clone());
                    proof {
                        assert(expanded.deep_view() =~= before.push(items.deep_view()[j as int]));
                        assert(before.push(items.deep_view()[j as int]) =~= pre
                            + items.deep_view().subrange(0, j + 1));
                    }
                    j = j + 1;
                }
                proof {
                    assert(items.deep_view().subrange(0, m as int) =~= items.deep_view());
                }
            },
            None => {
                expanded.push(links[i].clone());
                proof {
                    assert(expanded.deep_view() =~= pre.push(links.deep_view()[i as int]));
                    assert(pre.push(links.deep_view()[i as int]) =~= pre + seq![
                        links.deep_view()[i as int],
                    ]);
                }
            },
        }
        proof {
            assert(rest.drop_first() =~= links.deep_view().subrange(i + 1, n as int));
            assert(rest[0] == links.deep_view()[i as int]);
            assert(expanded.deep_view() + expand_spec(
                links.deep_view().subrange(i + 1, n as int),
                config@,
            ) =~= pre + expand_spec(rest, config@));
        }
        i = i + 1;
    }
    proof {
        assert(links.deep_view().subrange(n as int, n as int) =~= Seq::<Seq<char>>::empty());
        assert(expanded.deep_view() + Seq::<Seq<char>>::empty() =~= expanded.deep_view());
    }
    expanded
}

/// Expand groups, then resolve every expanded name independently: one bad
/// name never blocks the rest.  Each outcome is reported beside the name it
/// belongs to; the caller decides what to do with the resolved URIs.
#[verifier::loop_isolation(false)]
pub fn resolve_all(links: &Vec<String>, config: &Config) -> (r: Vec<
    (String, Result<String, Error>),
>)
    ensures
        r@.len() == expand_spec(links.deep_view(), config@).len(),
        forall|i: int|
            0 <= i < r@.len() ==> r@[i].0@ == expand_spec(links.deep_view(), config@)[i]
                && resolve_result_matches(
                config@,
                expand_spec(links.deep_view(), config@)[i],
                r@[i].1,
            ),
{
    let expanded = expand_groups(links, config);
    let mut out: Vec<(String, Result<String, Error>)> = Vec::new();
    let n = expanded.len();
    let mut i: usize = 0;
    while i < n
        invariant
            0 <= i <= n,
            out@.len() == i,
            forall|t: int|
                0 <= t < i ==> out@[t].0@ == expand_spec(links.deep_view(), config@)[t]
                    && resolve_result_matches(
                    config@,
                    expand_spec(links.deep_view(), config@)[t],
                    out@[t].1,
                ),
        decreases n - i,
    {
        let name = expanded[i].clone();
        let outcome = alias_or_link_to_uri(name.as_str(), config);
        out.push((name, outcome));
        i = i + 1;
    }
    out
}

} // verus!
