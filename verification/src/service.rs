//! The edit operations behind the CRUD interface: each one checks the
//! referential invariants against the current catalogue before mutating
//! it, and leaves the catalogue untouched when it fails.  Add operations
//! enforce the invariants proactively; deletes do not cascade — a dangling
//! reference left behind by a delete is only surfaced later by `validate`
//! or `resolve`.  The embedding program wraps each operation in a
//! load–mutate–save round trip under one lock.

use vstd::prelude::*;
use vstd::string::{StringExecFns, StrSliceExecFns};
use crate::config::{Config, DocModel};
use crate::error::Error;
use crate::maps::{map_has_key, map_insert, map_remove, map_value_of};
use crate::codec::split_on;
use crate::text::{trim_spec, trim, join_comma_spec, join_comma, str_eq};

verus! {

// ------------------------------------------------------------------
// Entry lists
// ------------------------------------------------------------------

/// Trim each piece and drop the empty ones.
pub open spec fn clean_entries_spec(parts: Seq<Seq<char>>) -> Seq<Seq<char>>
    decreases parts.len(),
{
    if parts.len() == 0 {
        Seq::empty()
    } else {
        (if trim_spec(parts[0]).len() > 0 {
            seq![trim_spec(parts[0])]
        } else {
            Seq::empty()
        }) + clean_entries_spec(parts.drop_first())
    }
}

/// What a raw comma-separated entry list denotes.
pub open spec fn entries_spec(raw: Seq<char>) -> Seq<Seq<char>> {
    clean_entries_spec(split_on(raw, ','))
}

/// Split a comma-separated entry list, trim each entry, drop empty ones.
#[verifier::loop_isolation(false)]
pub fn parse_entries(raw: &str) -> (r: Vec<String>)
    ensures
        r.deep_view() == entries_spec(raw@),
{
    let parts = crate::codec::split_on_exec(raw, ',');
    let ghost pd = parts.deep_view();
    let pn = parts.len();
    let mut out: Vec<String> = Vec::new();
    proof {
        assert(out.deep_view() =~= Seq::<Seq<char>>::empty());
        assert(pd.subrange(0, pn as int) =~= pd);
        assert(Seq::<Seq<char>>::empty() + clean_entries_spec(pd) =~= clean_entries_spec(pd));
    }
    let mut j: usize = 0;
    while j < pn
        invariant
            0 <= j <= pn,
            out.deep_view() + clean_entries_spec(pd.subrange(j as int, pn as int))
                == entries_spec(raw@),
        decreases pn - j,
    {
        let ghost pre = out.deep_view();
        let ghost rest = pd.subrange(j as int, pn as int);
        let piece = trim(parts[j].as_str());
        if piece.unicode_len() > 0 {
            out.push(piece.to_owned());
            proof {
                assert(out.deep_view() =~= pre.push(trim_spec(pd[j as int])));
                assert(pre.push(trim_spec(pd[j as int])) =~= pre + seq![
                    trim_spec(pd[j as int]),
                ]);
            }
        }
        proof {
            assert(rest[0] == pd[j as int]);
            assert(rest.drop_first() =~= pd.subrange(j + 1, pn as int));
            assert(out.deep_view() + clean_entries_spec(pd.subrange(j + 1, pn as int)) =~= pre
                + clean_entries_spec(rest));
        }
        j = j + 1;
    }
    proof {
        assert(pd.subrange(pn as int, pn as int) =~= Seq::<Seq<char>>::empty());
        assert(out.deep_view() + Seq::<Seq<char>>::empty() =~= out.deep_view());
    }
    out
}

/// The entries that are neither alias nor link keys, in order.
pub open spec fn missing_entries(entries: Seq<Seq<char>>, m: DocModel) -> Seq<Seq<char>>
    decreases entries.len(),
{
    if entries.len() == 0 {
        Seq::empty()
    } else {
        (if !map_has_key(m.aliases, entries[0]) && !map_has_key(m.links, entries[0]) {
            seq![entries[0]]
        } else {
            Seq::empty()
        }) + missing_entries(entries.drop_first(), m)
    }
}

/// Collect the entries that are neither alias nor link keys.
#[verifier::loop_isolation(false)]
fn collect_missing(entries: &Vec<String>, config: &Config) -> (r: Vec<String>)
    ensures
        r.deep_view() == missing_entries(entries.deep_view(), config@),
{
    let ghost ed = entries.deep_view();
    let n = entries.len();
    let mut out: Vec<String> = Vec::new();
    proof {
        assert(out.deep_view() =~= Seq::<Seq<char>>::empty());
        assert(ed.subrange(0, n as int) =~= ed);
        assert(Seq::<Seq<char>>::empty() + missing_entries(ed, config@) =~= missing_entries(
            ed,
            config@,
        ));
    }
    let mut j: usize = 0;
    while j < n
        invariant
            0 <= j <= n,
            out.deep_view() + missing_entries(ed.subrange(j as int, n as int), config@)
                == missing_entries(ed, config@),
        decreases n - j,
    {
        let ghost pre = out.deep_view();
        let ghost rest = ed.subrange(j as int, n as int);
        let e = &entries[j];
        if !config.aliases.contains_key(e.as_str()) && !config.links.contains_key(e.as_str()) {
            out.push(e.clone());
            proof {
                assert(out.deep_view() =~= pre.push(ed[j as int]));
                assert(pre.push(ed[j as int]) =~= pre + seq![ed[j as int]]);
            }
        }
        proof {
            assert(rest[0] == ed[j as int]);
            assert(rest.drop_first() =~= ed.subrange(j + 1, n as int));
            assert(out.deep_view() + missing_entries(ed.subrange(j + 1, n as int), config@)
                =~= pre + missing_entries(rest, config@));
        }
        j = j + 1;
    }
    proof {
        assert(ed.subrange(n as int, n as int) =~= Seq::<Seq<char>>::empty());
        assert(out.deep_view() + Seq::<Seq<char>>::empty() =~= out.deep_view());
    }
    out
}

// ------------------------------------------------------------------
// Add and delete
// ------------------------------------------------------------------

/// Add or overwrite a link unconditionally; a blank name or URI is
/// ignored.
pub fn add_link(config: &mut Config, name: String, uri: String)
    requires
        old(config).wf(),
    ensures
        final(config).wf(),
        name@.len() == 0 || uri@.len() == 0 ==> final(config)@ == old(config)@,
        name@.len() > 0 && uri@.len() > 0 ==> final(config)@ == (DocModel {
            links: map_insert(old(config)@.links, name@, uri@),
            ..old(config)@
        }),
{
    if name.as_str().unicode_len() > 0 && uri.as_str().unicode_len() > 0 {
        config.links.insert(name, uri);
        proof {
            assert(final(config)@ =~= DocModel {
                links: map_insert(old(config)@.links, name@, uri@),
                ..old(config)@
            });
        }
    } else {
        proof {
            assert(final(config)@ =~= old(config)@);
        }
    }
}

/// The message rejecting an alias whose target is not a link key.
pub open spec fn missing_target_msg(target: Seq<char>) -> Seq<char> {
    "alias target '"@ + target + "' does not exist in links"@
}

/// Add an alias, but only when its target is an existing link key: an
/// alias may never be created pointing at a non-existent link.  A blank
/// alias or target is ignored.
pub fn add_alias(config: &mut Config, alias: String, target: String) -> (r: Result<(), Error>)
    requires
        old(config).wf(),
    ensures
        final(config).wf(),
        alias@.len() == 0 || target@.len() == 0 ==> r is Ok && final(config)@ == old(config)@,
        alias@.len() > 0 && target@.len() > 0 ==> {
            if map_has_key(old(config)@.links, target@) {
                r is Ok && final(config)@ == (DocModel {
                    aliases: map_insert(old(config)@.aliases, alias@, target@),
                    ..old(config)@
                })
            } else {
                final(config)@ == old(config)@ && match r {
                    Ok(_) => false,
                    Err(e) => e matches Error::ValidationFailed { detail } && detail@
                        == missing_target_msg(target@),
                }
            }
        },
{
    if alias.as_str().unicode_len() == 0 || target.as_str().unicode_len() == 0 {
        return Ok(());
    }
    if !config.links.contains_key(target.as_str()) {
        let mut msg = String::from_str("alias target '");
        msg.append(target.as_str());
        msg.append("' does not exist in links");
        return Err(Error::ValidationFailed { detail: msg });
    }
    let ghost pre = config@;
    let ghost galias = alias@;
    let ghost gtarget = target@;
    config.aliases.insert(alias, target);
    proof {
        assert(final(config)@ =~= DocModel {
            aliases: map_insert(pre.aliases, galias, gtarget),
            ..pre
        });
    }
    Ok(())
}

/// The message rejecting group entries that name nothing.
pub open spec fn missing_entries_msg(missing: Seq<Seq<char>>) -> Seq<char> {
    "group entries not found: "@ + join_comma_spec(missing)
}

/// Add a group from a raw comma-separated entry list.  Every entry left
/// after trimming must be an alias or link key; otherwise the catalogue is
/// unchanged and the error names every unknown entry.  A blank name or an
/// entry list with nothing in it is ignored.
pub fn add_group(config: &mut Config, name: String, entries_raw: &str) -> (r: Result<
    (),
    Error,
>)
    requires
        old(config).wf(),
    ensures
        final(config).wf(),
        ({
            let parsed = entries_spec(entries_raw@);
            let missing = missing_entries(parsed, old(config)@);
            if name@.len() == 0 || entries_raw@.len() == 0 || parsed.len() == 0 {
                r is Ok && final(config)@ == old(config)@
            } else if missing.len() > 0 {
                final(config)@ == old(config)@ && match r {
                    Ok(_) => false,
                    Err(e) => e matches Error::ValidationFailed { detail } && detail@
                        == missing_entries_msg(missing),
                }
            } else {
                r is Ok && final(config)@ == (DocModel {
                    groups: map_insert(old(config)@.groups, name@, parsed),
                    ..old(config)@
                })
            }
        }),
{
    if name.as_str().unicode_len() == 0 || entries_raw.unicode_len() == 0 {
        return Ok(());
    }
    let entries = parse_entries(entries_raw);
    if entries.len() == 0 {
        return Ok(());
    }
    let missing = collect_missing(&entries, config);
    if missing.len() > 0 {
        let mut msg = String::from_str("group entries not found: ");
        msg.append(join_comma(&missing).as_str());
        return Err(Error::ValidationFailed { detail: msg });
    }
    let ghost pre = config@;
    let ghost gname = name@;
    let ghost gentries = entries.deep_view();
    config.groups.insert(name, entries);
    proof {
        assert(final(config)@ =~= DocModel {
            groups: map_insert(pre.groups, gname, gentries),
            ..pre
        });
    }
    Ok(())
}

/// Remove a link by key.  Deleting never cascades: an alias that targeted
/// the link is left dangling, surfaced only by later validation.
pub fn delete_link(config: &mut Config, name: &str)
    requires
        old(config).wf(),
    ensures
        final(config).wf(),
        final(config)@ == (DocModel {
            links: map_remove(old(config)@.links, name@),
            ..old(config)@
        }),
{
    config.links.remove(name);
    proof {
        assert(final(config)@ =~= DocModel {
            links: map_remove(old(config)@.links, name@),
            ..old(config)@
        });
    }
}

/// Remove an alias by key, without touching groups that reference it.
pub fn delete_alias(config: &mut Config, name: &str)
    requires
        old(config).wf(),
    ensures
        final(config).wf(),
        final(config)@ == (DocModel {
            aliases: map_remove(old(config)@.aliases, name@),
            ..old(config)@
        }),
{
    config.aliases.remove(name);
    proof {
        assert(final(config)@ =~= DocModel {
            aliases: map_remove(old(config)@.aliases, name@),
            ..old(config)@
        });
    }
}

/// Remove a group by key.
pub fn delete_group(config: &mut Config, name: &str)
    requires
        old(config).wf(),
    ensures
        final(config).wf(),
        final(config)@ == (DocModel {
            groups: map_remove(old(config)@.groups, name@),
            ..old(config)@
        }),
{
    config.groups.remove(name);
    proof {
        assert(final(config)@ =~= DocModel {
            groups: map_remove(old(config)@.groups, name@),
            ..old(config)@
        });
    }
}


// ------------------------------------------------------------------
// Edit
// ------------------------------------------------------------------

/// The rename half of a link edit: on a real rename of an existing link
/// the cascade runs; renaming a missing link fails with `NotFound` and
/// changes nothing; otherwise the catalogue is left as the edit's first
/// half put it.
pub open spec fn link_rename_step(
    mid: DocModel,
    fin: DocModel,
    name: Seq<char>,
    new_name: Option<String>,
    r: Result<(), Error>,
) -> bool {
    match new_name {
        Some(nn) => if nn@ != name {
            if map_has_key(mid.links, name) {
                r is Ok && crate::config::rename_link_ok(mid, fin, name, nn@)
            } else {
                fin == mid && match r {
                    Ok(_) => false,
                    Err(e) => e matches Error::NotFound { name: missing } && missing@ == name,
                }
            }
        } else {
            r is Ok && fin == mid
        },
        None => r is Ok && fin == mid,
    }
}

/// The rename half of an alias edit, in the same shape.
pub open spec fn alias_rename_step(
    mid: DocModel,
    fin: DocModel,
    name: Seq<char>,
    new_name: Option<String>,
    r: Result<(), Error>,
) -> bool {
    match new_name {
        Some(nn) => if nn@ != name {
            if map_has_key(mid.aliases, name) {
                r is Ok && crate::config::rename_alias_ok(mid, fin, name, nn@)
            } else {
                fin == mid && match r {
                    Ok(_) => false,
                    Err(e) => e matches Error::NotFound { name: missing } && missing@ == name,
                }
            }
        } else {
            r is Ok && fin == mid
        },
        None => r is Ok && fin == mid,
    }
}

/// The move half of a group edit: a rename moves the member list under
/// the new key without touching it, silently doing nothing when the group
/// does not exist.
pub open spec fn group_move_step(
    mid: DocModel,
    fin: DocModel,
    name: Seq<char>,
    new_name: Option<String>,
) -> bool {
    match new_name {
        Some(nn) => if nn@ != name {
            if map_has_key(mid.groups, name) {
                fin == (DocModel {
                    groups: map_insert(
                        map_remove(mid.groups, name),
                        nn@,
                        map_value_of(mid.groups, name),
                    ),
                    ..mid
                })
            } else {
                fin == mid
            }
        } else {
            fin == mid
        },
        None => fin == mid,
    }
}

/// Edit a link: overwrite its URI in place when a new one is given, then
/// rename it when a different name is given (cascading to the aliases
/// that target it).  A failed rename surfaces as an error with nothing
/// committed, never as a partial edit.
pub fn edit_link(
    config: &mut Config,
    name: &str,
    new_name: Option<String>,
    new_uri: Option<String>,
) -> (r: Result<(), Error>)
    requires
        old(config).wf(),
    ensures
        final(config).wf(),
        ({
            let upd = if new_uri is Some && map_has_key(old(config)@.links, name@) {
                map_insert(old(config)@.links, name@, new_uri->0@)
            } else {
                old(config)@.links
            };
            let mid = DocModel { links: upd, ..old(config)@ };
            link_rename_step(mid, final(config)@, name@, new_name, r)
        }),
{
    let ghost orig = config@;
    match new_uri {
        Some(u) => {
            if config.links.contains_key(name) {
                let ghost gu = u@;
                config.links.insert(name.to_owned(), u);
                proof {
                    assert(config@ =~= DocModel {
                        links: map_insert(orig.links, name@, gu),
                        ..orig
                    });
                }
            }
        },
        None => {},
    }
    let ghost mid = config@;
    match new_name {
        Some(nn) => {
            if !str_eq(nn.as_str(), name) {
                proof {
                    if map_has_key(orig.links, name@) && new_uri is Some {
                        crate::maps::lemma_map_insert_found(orig.links, name@, new_uri->0@);
                    }
                    if !map_has_key(mid.links, name@) {
                        assert(mid =~= orig);
                    }
                }
                config.rename_link(name, nn.as_str())
            } else {
                Ok(())
            }
        },
        None => Ok(()),
    }
}

/// Edit an alias: retarget it when a new target is given — the target
/// must already be a link key, else nothing changes — then rename it when
/// a different name is given (cascading to the groups that reference it).
pub fn edit_alias(
    config: &mut Config,
    name: &str,
    new_name: Option<String>,
    new_target: Option<String>,
) -> (r: Result<(), Error>)
    requires
        old(config).wf(),
    ensures
        final(config).wf(),
        ({
            match new_target {
                Some(t) => if !map_has_key(old(config)@.links, t@) {
                    final(config)@ == old(config)@ && match r {
                        Ok(_) => false,
                        Err(e) => e matches Error::ValidationFailed { detail } && detail@
                            == missing_target_msg(t@),
                    }
                } else {
                    let upd = if map_has_key(old(config)@.aliases, name@) {
                        map_insert(old(config)@.aliases, name@, t@)
                    } else {
                        old(config)@.aliases
                    };
                    let mid = DocModel { aliases: upd, ..old(config)@ };
                    alias_rename_step(mid, final(config)@, name@, new_name, r)
                },
                None => alias_rename_step(
                    old(config)@,
                    final(config)@,
                    name@,
                    new_name,
                    r,
                ),
            }
        }),
{
    let ghost orig = config@;
    match &new_target {
        Some(t) => {
            if !config.links.contains_key(t.as_str()) {
                let mut msg = String::from_str("alias target '");
                msg.append(t.as_str());
                msg.append("' does not exist in links");
                return Err(Error::ValidationFailed { detail: msg });
            }
            if config.aliases.contains_key(name) {
                let ghost gt = t@;
                config.aliases.insert(name.to_owned(), t.clone());
                proof {
                    assert(config@ =~= DocModel {
                        aliases: map_insert(orig.aliases, name@, gt),
                        ..orig
                    });
                }
            }
        },
        None => {},
    }
    let ghost mid = config@;
    match new_name {
        Some(nn) => {
            if !str_eq(nn.as_str(), name) {
                proof {
                    if new_target is Some && map_has_key(orig.aliases, name@) {
                        crate::maps::lemma_map_insert_found(
                            orig.aliases,
                            name@,
                            new_target->0@,
                        );
                    }
                    if !map_has_key(mid.aliases, name@) {
                        assert(mid =~= orig);
                    }
                }
                config.rename_alias(name, nn.as_str())
            } else {
                Ok(())
            }
        },
        None => Ok(()),
    }
}

/// Edit a group: replace its member list when a new one is given — every
/// entry re-checked exactly as on creation, unknown entries rejected with
/// nothing committed — then move it under a new name when a different one
/// is given, members unchanged.
pub fn edit_group(
    config: &mut Config,
    name: &str,
    new_name: Option<String>,
    new_entries: Option<String>,
) -> (r: Result<(), Error>)
    requires
        old(config).wf(),
    ensures
        final(config).wf(),
        ({
            match new_entries {
                Some(es) => {
                    let parsed = entries_spec(es@);
                    let missing = missing_entries(parsed, old(config)@);
                    if missing.len() > 0 {
                        final(config)@ == old(config)@ && match r {
                            Ok(_) => false,
                            Err(e) => e matches Error::ValidationFailed { detail } && detail@
                                == missing_entries_msg(missing),
                        }
                    } else {
                        let upd = if map_has_key(old(config)@.groups, name@) {
                            map_insert(old(config)@.groups, name@, parsed)
                        } else {
                            old(config)@.groups
                        };
                        let mid = DocModel { groups: upd, ..old(config)@ };
                        r is Ok && group_move_step(mid, final(config)@, name@, new_name)
                    }
                },
                None => r is Ok && group_move_step(
                    old(config)@,
                    final(config)@,
                    name@,
                    new_name,
                ),
            }
        }),
{
    let ghost orig = config@;
    match &new_entries {
        Some(es) => {
            let entries = parse_entries(es.as_str());
            let missing = collect_missing(&entries, config);
            if missing.len() > 0 {
                let mut msg = String::from_str("group entries not found: ");
                msg.append(join_comma(&missing).as_str());
                return Err(Error::ValidationFailed { detail: msg });
            }
            if config.groups.contains_key(name) {
                let ghost ge = entries.deep_view();
                config.groups.insert(name.to_owned(), entries);
                proof {
                    assert(config@ =~= DocModel {
                        groups: map_insert(orig.groups, name@, ge),
                        ..orig
                    });
                }
            }
        },
        None => {},
    }
    let ghost mid = config@;
    match new_name {
        Some(nn) => {
            if !str_eq(nn.as_str(), name) {
                match config.groups.remove(name) {
                    Some(members) => {
                        let ghost gm = members.deep_view();
                        config.groups.insert(nn, members);
                        proof {
                            assert(config@ =~= DocModel {
                                groups: map_insert(
                                    map_remove(mid.groups, name@),
                                    new_name->0@,
                                    gm,
                                ),
                                ..mid
                            });
                        }
                    },
                    None => {
                        proof {
                            crate::maps::lemma_find_key(mid.groups, name@);
                            assert(config@ =~= mid);
                        }
                    },
                }
            }
        },
        None => {},
    }
    Ok(())
}

} // verus!
