//! The cross-cutting guarantees of the catalogue, stated over the spec
//! functions that the executable contracts use and proved once and for all.
//! Two further guarantees live beside the code they speak about:
//! [`crate::roundtrip::lemma_save_load_round_trip`] for the persisted
//! format and [`crate::storage::lemma_initialize_idempotent`] for store
//! initialization.

use vstd::prelude::*;
use crate::config::{DocModel, model_wf, rename_link_ok, rename_alias_ok};
use crate::error::Error;
use crate::maps::{
    map_has_key, map_value_of, rename_members_spec, lemma_find_key, lemma_find_key_same_keys,
    lemma_map_insert_found, lemma_map_insert_other, lemma_map_remove_absent, map_insert,
    map_remove, retarget_spec, rename_in_lists_spec,
};
use crate::resolve::{resolve_ok, resolved_uri, resolve_result_matches, expand_spec};

verus! {

/// Resolving an alias whose target exists yields exactly the URI stored
/// under that target: any result that meets the resolution contract is
/// `Ok` with that URI.
pub proof fn lemma_resolve_alias_hits_target(m: DocModel, a: Seq<char>)
    requires
        map_has_key(m.aliases, a),
        map_has_key(m.links, map_value_of(m.aliases, a)),
    ensures
        resolve_ok(m, a),
        resolved_uri(m, a) == map_value_of(m.links, map_value_of(m.aliases, a)),
        forall|r: Result<String, Error>|
            #[trigger] resolve_result_matches(m, a, r) ==> r is Ok && r->Ok_0@ == map_value_of(
                m.links,
                map_value_of(m.aliases, a),
            ),
{
}

/// Resolving an alias whose target is missing fails with a dangling
/// reference naming both the alias and the missing target: any result that
/// meets the resolution contract is that error.
pub proof fn lemma_resolve_dangling_alias(m: DocModel, a: Seq<char>)
    requires
        map_has_key(m.aliases, a),
        !map_has_key(m.links, map_value_of(m.aliases, a)),
    ensures
        !resolve_ok(m, a),
        forall|r: Result<String, Error>|
            #[trigger] resolve_result_matches(m, a, r) ==> r is Err && (r matches Err(e)
                ==> e matches Error::DanglingReference { alias, target } && alias@ == a
                && target@ == map_value_of(m.aliases, a)),
{
}

/// Group expansion is single level: a group contributes its member list
/// verbatim, even when a member (here `h`) is itself a group key — the
/// member is not flattened again.
pub proof fn lemma_expand_single_level(m: DocModel, g: Seq<char>, h: Seq<char>, j: int)
    requires
        map_has_key(m.groups, g),
        0 <= j < map_value_of(m.groups, g).len(),
        map_value_of(m.groups, g)[j] == h,
        map_has_key(m.groups, h),
    ensures
        expand_spec(seq![g], m) == map_value_of(m.groups, g),
        expand_spec(seq![g], m)[j] == h,
{
    let names: Seq<Seq<char>> = seq![g];
    assert(names.drop_first() =~= Seq::<Seq<char>>::empty());
    assert(expand_spec(names.drop_first(), m) =~= Seq::<Seq<char>>::empty());
    assert(map_value_of(m.groups, g) + Seq::<Seq<char>>::empty() =~= map_value_of(m.groups, g));
}

/// After a link rename, every alias that targeted the old name resolves to
/// the URI previously stored under the old name, and the old name is gone
/// from the links.  (A rename onto the same name would keep the key, so
/// the old and new names must differ.)
pub proof fn lemma_rename_link_retargets(
    pre: DocModel,
    post: DocModel,
    old_name: Seq<char>,
    new_name: Seq<char>,
    a: Seq<char>,
)
    requires
        model_wf(pre),
        map_has_key(pre.links, old_name),
        rename_link_ok(pre, post, old_name, new_name),
        map_has_key(pre.aliases, a),
        map_value_of(pre.aliases, a) == old_name,
        old_name != new_name,
    ensures
        resolve_ok(post, a),
        resolved_uri(post, a) == map_value_of(pre.links, old_name),
        !map_has_key(post.links, old_name),
{
    let uri = map_value_of(pre.links, old_name);
    let removed = map_remove(pre.links, old_name);
    // the alias map keeps its keys, and the entry for `a` now holds new_name
    lemma_find_key(pre.aliases, a);
    let i = crate::maps::find_key(pre.aliases, a);
    lemma_find_key_same_keys(post.aliases, pre.aliases, a);
    assert(post.aliases == retarget_spec(pre.aliases, old_name, new_name));
    assert(post.aliases[i].0 == a);
    assert(map_has_key(post.aliases, a));
    assert(map_value_of(post.aliases, a) == new_name);
    // the links map now holds the URI under new_name and old_name is gone
    lemma_map_insert_found(removed, new_name, uri);
    assert(post.links == map_insert(removed, new_name, uri));
    assert(map_has_key(post.links, new_name));
    assert(map_value_of(post.links, new_name) == uri);
    lemma_map_remove_absent(pre.links, old_name);
    lemma_map_insert_other(removed, new_name, uri, old_name);
    assert(!map_has_key(post.links, old_name));
}

/// After an alias rename, every group that referenced the old alias holds
/// the new name in place of the old one — same positions, same length,
/// duplicates included — and the old alias key is gone.  (As above, the
/// old and new names must differ.)
pub proof fn lemma_rename_alias_rewrites_groups(
    pre: DocModel,
    post: DocModel,
    old_name: Seq<char>,
    new_name: Seq<char>,
    g: Seq<char>,
)
    requires
        model_wf(pre),
        map_has_key(pre.aliases, old_name),
        rename_alias_ok(pre, post, old_name, new_name),
        map_has_key(pre.groups, g),
        old_name != new_name,
    ensures
        map_has_key(post.groups, g),
        map_value_of(post.groups, g) == rename_members_spec(
            map_value_of(pre.groups, g),
            old_name,
            new_name,
        ),
        map_value_of(post.groups, g).len() == map_value_of(pre.groups, g).len(),
        forall|j: int|
            0 <= j < map_value_of(pre.groups, g).len() ==> map_value_of(post.groups, g)[j] == (
            if map_value_of(pre.groups, g)[j] == old_name {
                new_name
            } else {
                map_value_of(pre.groups, g)[j]
            }),
        !map_has_key(post.aliases, old_name),
{
    let target = map_value_of(pre.aliases, old_name);
    let removed = map_remove(pre.aliases, old_name);
    // the group map keeps its keys, and the list under `g` is the rewrite
    lemma_find_key(pre.groups, g);
    let i = crate::maps::find_key(pre.groups, g);
    lemma_find_key_same_keys(post.groups, pre.groups, g);
    assert(post.groups == rename_in_lists_spec(pre.groups, old_name, new_name));
    assert(post.groups[i].0 == g);
    assert(map_has_key(post.groups, g));
    assert(map_value_of(post.groups, g) == rename_members_spec(
        pre.groups[i].1,
        old_name,
        new_name,
    ));
    // the old alias key is gone
    lemma_map_remove_absent(pre.aliases, old_name);
    lemma_map_insert_other(removed, new_name, target, old_name);
    assert(post.aliases == map_insert(removed, new_name, target));
    assert(!map_has_key(post.aliases, old_name));
}

} // verus!
