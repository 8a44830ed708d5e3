//! Proof that the persisted text format round-trips: parsing what
//! `serialize_document` wrote yields exactly the catalogue that was
//! saved, for every catalogue whose maps have distinct keys.

use vstd::prelude::*;
use crate::text::{
    trim_spec, trim_start_spec, trim_end_spec, find_idx, is_ws, lemma_find_idx,
    lemma_find_idx_at, lemma_trim_start_subrange, lemma_trim_end_subrange, lemma_trim_of_clean,
};
use crate::config::DocModel;
use crate::codec::{
    split_on, skip_ws, scan_qtail, scan_members, parse_list, parse_value, classify_line,
    LineVal, LineClass, Sect, header_section, parse_lines, parse_doc_spec, empty_model,
    esc_char, escape_text, quoted, key_text, kv_line, ser_map_section, join_rest, join_quoted,
    lemma_skip_ws_bounds,
    list_line, ser_group_section, ser_doc_spec, is_bare_char, bare_key,
};
use crate::maps::{map_has_key, map_wf};

verus! {

// ------------------------------------------------------------------
// Where a separator first occurs in a concatenation
// ------------------------------------------------------------------

proof fn lemma_find_idx_concat(a: Seq<char>, b: Seq<char>, c: char)
    requires
        forall|i: int| 0 <= i < a.len() ==> a[i] != c,
    ensures
        find_idx(b, c) == -1 ==> find_idx(a + b, c) == -1,
        find_idx(b, c) != -1 ==> find_idx(a + b, c) == a.len() + find_idx(b, c),
    decreases a.len(),
{
    lemma_find_idx(b, c);
    if a.len() == 0 {
        assert(a + b =~= b);
    } else {
        lemma_find_idx_concat(a.drop_first(), b, c);
        assert((a + b)[0] == a[0]);
        assert((a + b).drop_first() =~= a.drop_first() + b);
        lemma_find_idx(a + b, c);
        lemma_find_idx(a.drop_first() + b, c);
        if find_idx(b, c) == -1 {
            assert(forall|i: int| 0 <= i < (a + b).len() ==> (a + b)[i] != c);
            if find_idx(a + b, c) != -1 {
                assert((a + b)[find_idx(a + b, c)] == c);
            }
        } else {
            let t = a.len() + find_idx(b, c);
            assert((a + b)[t] == b[find_idx(b, c)]);
            assert(forall|j: int| 0 <= j < t ==> (a + b)[j] != c) by {
                assert forall|j: int| 0 <= j < t implies (a + b)[j] != c by {
                    if j < a.len() {
                        assert((a + b)[j] == a[j]);
                    } else {
                        assert((a + b)[j] == b[j - a.len()]);
                    }
                }
            }
            lemma_find_idx_at(a + b, c, t);
        }
    }
}

/// Splitting `piece ++ [c] ++ rest` peels off `piece` when it is free of
/// the separator.
proof fn lemma_split_on_piece(piece: Seq<char>, rest: Seq<char>, c: char)
    requires
        forall|i: int| 0 <= i < piece.len() ==> piece[i] != c,
    ensures
        split_on(piece + seq![c] + rest, c) == seq![piece] + split_on(rest, c),
{
    let s = piece + seq![c] + rest;
    let b = seq![c] + rest;
    assert(b[0] == c);
    assert(find_idx(b, c) == 0);
    assert(piece + b =~= s);
    lemma_find_idx_concat(piece, b, c);
    assert(find_idx(s, c) == piece.len());
    assert(s.subrange(0, piece.len() as int) =~= piece);
    assert(s.subrange(piece.len() as int + 1, s.len() as int) =~= rest);
}

/// A separator-free string splits into itself alone.
proof fn lemma_split_on_whole(s: Seq<char>, c: char)
    requires
        forall|i: int| 0 <= i < s.len() ==> s[i] != c,
    ensures
        split_on(s, c) == seq![s],
{
    lemma_find_idx(s, c);
    if find_idx(s, c) != -1 {
        assert(s[find_idx(s, c)] == c);
    }
}

// ------------------------------------------------------------------
// Shapes of escaped strings
// ------------------------------------------------------------------

/// Bare key characters are none of the characters the format gives
/// meaning to, and are not whitespace.
proof fn lemma_bare_char_facts(c: char)
    requires
        is_bare_char(c),
    ensures
        c != '\n' && c != '=' && c != '"' && c != ',' && c != '#' && c != '[' && c != ']'
            && !is_ws(c),
{
}

/// No character of an escaped body is a newline.
proof fn lemma_escape_no_nl(v: Seq<char>)
    ensures
        forall|i: int| 0 <= i < escape_text(v).len() ==> escape_text(v)[i] != '\n',
    decreases v.len(),
{
    if v.len() == 0 {
    } else {
        lemma_escape_no_nl(v.drop_first());
        let e = esc_char(v[0]);
        let r = escape_text(v);
        assert forall|i: int| 0 <= i < r.len() implies r[i] != '\n' by {
            if i < e.len() {
                assert(r[i] == e[i]);
            } else {
                assert(r[i] == escape_text(v.drop_first())[i - e.len()]);
            }
        }
    }
}

/// The shape of a stored string: a quote, the escaped body, a quote, and
/// no newline anywhere.
proof fn lemma_quoted_shape(v: Seq<char>)
    ensures
        quoted(v).len() == escape_text(v).len() + 2,
        quoted(v)[0] == '"',
        quoted(v).last() == '"',
        forall|i: int| 0 <= i < quoted(v).len() ==> quoted(v)[i] != '\n',
        !is_ws(quoted(v)[0]),
        !is_ws(quoted(v).last()),
{
    lemma_escape_no_nl(v);
    let q = quoted(v);
    assert(q[q.len() - 1] == '"');
    assert forall|i: int| 0 <= i < q.len() implies q[i] != '\n' by {
        if i == 0 {
        } else if i < q.len() - 1 {
            assert(q[i] == escape_text(v)[i - 1]);
        }
    }
}

/// The key as written: nonempty, no newline, and neither end whitespace;
/// a bare key begins with a bare character, a quoted one with a quote.
proof fn lemma_key_text_shape(k: Seq<char>)
    ensures
        key_text(k).len() > 0,
        forall|i: int| 0 <= i < key_text(k).len() ==> key_text(k)[i] != '\n',
        !is_ws(key_text(k)[0]),
        !is_ws(key_text(k).last()),
        key_text(k)[0] != '#',
        key_text(k)[0] != '[',
        bare_key(k) ==> key_text(k) == k,
        !bare_key(k) ==> key_text(k)[0] == '"',
{
    if bare_key(k) {
        assert forall|i: int| 0 <= i < k.len() implies k[i] != '\n' by {
            lemma_bare_char_facts(k[i]);
        }
        lemma_bare_char_facts(k[0]);
        lemma_bare_char_facts(k[k.len() - 1]);
    } else {
        lemma_quoted_shape(k);
    }
}

/// Scanning the escaped body of `v`, laid out in `s` starting at `i` and
/// followed by a closing quote, decodes exactly `v` and stops just past
/// the quote.
proof fn lemma_scan_escaped(v: Seq<char>, s: Seq<char>, i: int)
    requires
        0 <= i,
        i + escape_text(v).len() + 1 <= s.len(),
        s.subrange(i, i + escape_text(v).len() as int) == escape_text(v),
        s[i + escape_text(v).len() as int] == '"',
    ensures
        scan_qtail(s, i) == Some((v, i + escape_text(v).len() as int + 1)),
    decreases v.len(),
{
    let ev = escape_text(v);
    if v.len() == 0 {
        assert(ev.len() == 0);
        assert(s[i] == '"');
        assert(v =~= Seq::<char>::empty());
    } else {
        let e0 = esc_char(v[0]);
        let v1 = v.drop_first();
        let e1 = escape_text(v1);
        assert(ev == e0 + e1);
        assert forall|t: int| 0 <= t < ev.len() implies s[i + t] == ev[t] by {
            assert(ev[t] == s.subrange(i, i + ev.len() as int)[t]);
        }
        if v[0] == '\\' || v[0] == '"' || v[0] == '\n' {
            // a two-character escape
            assert(e0.len() == 2);
            assert(ev[0] == e0[0] && ev[1] == e0[1]);
            assert(s[i + 0] == ev[0] && s[i + 1] == ev[1]);
            assert(s[i] == '\\');
            assert(s[i + 1] == e0[1]);
            assert(s[i + 1] == '\\' || s[i + 1] == '"' || s[i + 1] == 'n');
            assert((if s[i + 1] == 'n' {
                '\n'
            } else {
                s[i + 1]
            }) == v[0]);
            assert(s.subrange(i + 2, i + 2 + e1.len() as int) =~= e1) by {
                assert forall|t: int|
                    0 <= t < e1.len() implies s.subrange(
                    i + 2,
                    i + 2 + e1.len() as int,
                )[t] == e1[t] by {
                    assert(e1[t] == ev[t + 2]);
                    assert(s[i + (t + 2)] == ev[t + 2]);
                }
            }
            lemma_scan_escaped(v1, s, i + 2);
            assert(seq![v[0]] + v1 =~= v);
        } else {
            // the character itself
            assert(e0.len() == 1);
            assert(ev[0] == e0[0]);
            assert(s[i + 0] == ev[0]);
            assert(s[i] == v[0]);
            assert(s[i] != '"' && s[i] != '\\');
            assert(s.subrange(i + 1, i + 1 + e1.len() as int) =~= e1) by {
                assert forall|t: int|
                    0 <= t < e1.len() implies s.subrange(
                    i + 1,
                    i + 1 + e1.len() as int,
                )[t] == e1[t] by {
                    assert(e1[t] == ev[t + 1]);
                    assert(s[i + (t + 1)] == ev[t + 1]);
                }
            }
            lemma_scan_escaped(v1, s, i + 1);
            assert(seq![v[0]] + v1 =~= v);
        }
    }
}

// ------------------------------------------------------------------
// Classifying serialized lines
// ------------------------------------------------------------------

/// No newline anywhere in an alias or link line.
proof fn lemma_kv_line_clean(k: Seq<char>, v: Seq<char>)
    ensures
        forall|i: int| 0 <= i < kv_line(k, v).len() ==> kv_line(k, v)[i] != '\n',
{
    reveal_strlit(" = ");
    lemma_key_text_shape(k);
    lemma_quoted_shape(v);
    let kt = key_text(k);
    let line = kv_line(k, v);
    assert forall|i: int| 0 <= i < line.len() implies line[i] != '\n' by {
        if i < kt.len() {
            assert(line[i] == kt[i]);
        } else if i < kt.len() + 3 {
            assert(line[i] == " = "@[i - kt.len()]);
        } else {
            assert(line[i] == quoted(v)[i - kt.len() - 3]);
        }
    }
}

/// The joined members hold no newline, and a nonempty join starts and
/// ends with a quote.
proof fn lemma_join_rest_clean(ms: Seq<Seq<char>>)
    ensures
        forall|i: int| 0 <= i < join_rest(ms).len() ==> join_rest(ms)[i] != '\n',
        ms.len() > 0 ==> join_rest(ms).len() > 0 && join_rest(ms).last() == '"',
    decreases ms.len(),
{
    reveal_strlit(", ");
    if ms.len() == 0 {
    } else {
        lemma_quoted_shape(ms[0]);
        lemma_join_rest_clean(ms.drop_first());
        let r = join_rest(ms);
        let q = quoted(ms[0]);
        assert forall|i: int| 0 <= i < r.len() implies r[i] != '\n' by {
            if i < 2 {
                assert(r[i] == ", "@[i]);
            } else if i < 2 + q.len() {
                assert(r[i] == q[i - 2]);
            } else {
                assert(r[i] == join_rest(ms.drop_first())[i - 2 - q.len()]);
            }
        }
        if ms.len() == 1 {
            assert(join_rest(ms.drop_first()) =~= Seq::<char>::empty());
            assert(r.last() == q.last());
        } else {
            assert(r.last() == join_rest(ms.drop_first()).last());
        }
    }
}

proof fn lemma_join_quoted_clean(ms: Seq<Seq<char>>)
    ensures
        forall|i: int| 0 <= i < join_quoted(ms).len() ==> join_quoted(ms)[i] != '\n',
        ms.len() > 0 ==> join_quoted(ms).len() > 0 && join_quoted(ms)[0] == '"'
            && join_quoted(ms).last() == '"',
    decreases ms.len(),
{
    if ms.len() == 0 {
    } else {
        lemma_quoted_shape(ms[0]);
        lemma_join_rest_clean(ms.drop_first());
        let r = join_quoted(ms);
        let q = quoted(ms[0]);
        assert forall|i: int| 0 <= i < r.len() implies r[i] != '\n' by {
            if i < q.len() {
                assert(r[i] == q[i]);
            } else {
                assert(r[i] == join_rest(ms.drop_first())[i - q.len()]);
            }
        }
        assert(r[0] == q[0]);
        if ms.len() == 1 {
            assert(join_rest(ms.drop_first()) =~= Seq::<char>::empty());
            assert(r.last() == q.last());
        } else {
            assert(r.last() == join_rest(ms.drop_first()).last());
        }
    }
}

/// No newline anywhere in a group line.
proof fn lemma_list_line_clean(k: Seq<char>, ms: Seq<Seq<char>>)
    ensures
        forall|i: int| 0 <= i < list_line(k, ms).len() ==> list_line(k, ms)[i] != '\n',
{
    reveal_strlit(" = [");
    reveal_strlit("]");
    lemma_key_text_shape(k);
    lemma_join_quoted_clean(ms);
    let kt = key_text(k);
    let line = list_line(k, ms);
    let j = join_quoted(ms);
    assert forall|i: int| 0 <= i < line.len() implies line[i] != '\n' by {
        if i < kt.len() {
            assert(line[i] == kt[i]);
        } else if i < kt.len() + 4 {
            assert(line[i] == " = ["@[i - kt.len()]);
        } else if i < kt.len() + 4 + j.len() {
            assert(line[i] == j[i - kt.len() - 4]);
        } else {
            assert(line[i] == "]"@[i - kt.len() - 4 - j.len()]);
        }
    }
}

/// A serialized stored string parses back as exactly that string value.
proof fn lemma_parse_value_quoted(v: Seq<char>)
    ensures
        parse_value(quoted(v)) == Some(LineVal::StrVal(v)),
{
    lemma_quoted_shape(v);
    let q = quoted(v);
    assert(q.subrange(1, 1 + escape_text(v).len() as int) =~= escape_text(v));
    lemma_scan_escaped(v, q, 1);
    assert(q[0] != '[');
}


/// A serialized `key = "value"` line classifies back to exactly that
/// entry, whatever the key and value hold.
proof fn lemma_classify_kv(k: Seq<char>, v: Seq<char>)
    ensures
        classify_line(kv_line(k, v)) == LineClass::Entry(k, LineVal::StrVal(v)),
{
    reveal_strlit(" = ");
    lemma_key_text_shape(k);
    lemma_quoted_shape(v);
    let kt = key_text(k);
    let q = quoted(v);
    let line = kv_line(k, v);
    assert(line.len() == kt.len() + 3 + q.len());
    assert(line[0] == kt[0]);
    assert(line.last() == q.last());
    lemma_trim_of_clean(line);
    let t = line;
    assert(trim_spec(line) == t);
    assert(t.len() > 0);
    assert(t[0] != '#');
    assert(t[0] != '[');
    assert(line[kt.len() as int] == ' ');
    assert(line[kt.len() as int + 1] == '=');
    assert(line[kt.len() as int + 2] == ' ');
    // the value part, one space beyond the equals sign, trims back to the
    // quoted value
    let e = kt.len() as int + 1;
    let valpart = t.subrange(e + 1, t.len() as int);
    assert(valpart =~= seq![' '] + q) by {
        assert forall|x: int| 0 <= x < valpart.len() implies valpart[x] == (seq![' '] + q)[x]
            by {
            if x > 0 {
                assert(valpart[x] == line[kt.len() as int + 2 + x]);
                assert(line[kt.len() as int + 3 + (x - 1)] == q[x - 1]);
            }
        }
    }
    assert(is_ws(valpart[0]));
    assert(valpart[1] == q[0]);
    assert(!is_ws(valpart[1]));
    lemma_trim_start_subrange(valpart, 1);
    assert(trim_start_spec(valpart) == valpart.subrange(1, valpart.len() as int));
    assert(valpart.subrange(1, valpart.len() as int) =~= q);
    lemma_trim_end_subrange(q, q.len() as int);
    assert(trim_end_spec(q) == q.subrange(0, q.len() as int));
    assert(q.subrange(0, q.len() as int) =~= q);
    assert(trim_spec(valpart) == q);
    lemma_parse_value_quoted(v);
    if bare_key(k) {
        assert(kt == k);
        lemma_bare_char_facts(k[0]);
        assert(t[0] != '"');
        assert forall|j: int| 0 <= j < kt.len() + 1 implies line[j] != '=' by {
            if j < kt.len() {
                assert(line[j] == k[j]);
                lemma_bare_char_facts(k[j]);
            }
        }
        lemma_find_idx_at(line, '=', e);
        let keypart = t.subrange(0, e);
        assert(keypart =~= k + seq![' ']);
        lemma_trim_start_subrange(keypart, 0);
        assert(trim_start_spec(keypart) == keypart.subrange(0, keypart.len() as int));
        assert(keypart.subrange(0, keypart.len() as int) =~= keypart);
        lemma_trim_end_subrange(keypart, k.len() as int);
        assert(trim_spec(keypart) == keypart.subrange(0, k.len() as int));
        assert(keypart.subrange(0, k.len() as int) =~= k);
        assert(k.len() > 0);
    } else {
        assert(t[0] == '"');
        let ek = escape_text(k);
        assert(kt == quoted(k));
        assert(t.subrange(1, 1 + ek.len() as int) =~= ek) by {
            assert forall|x: int| 0 <= x < ek.len() implies t.subrange(
                1,
                1 + ek.len() as int,
            )[x] == ek[x] by {
                assert(t[1 + x] == kt[1 + x]);
                assert(kt[1 + x] == ek[x]);
            }
        }
        assert(t[1 + ek.len() as int] == kt[kt.len() - 1]);
        assert(t[1 + ek.len() as int] == '"');
        lemma_scan_escaped(k, t, 1);
        let qk = kt.len() as int;
        assert(scan_qtail(t, 1) == Some((k, qk)));
        assert(skip_ws(t, qk + 1) == qk + 1);
        assert(skip_ws(t, qk) == qk + 1);
        assert(t[qk + 1] == '=');
    }
}

/// Scanning the joined members that fill the rest of the text, starting
/// anywhere in leading whitespace, recovers exactly the members.
proof fn lemma_scan_members_at(ms: Seq<Seq<char>>, s: Seq<char>, i: int)
    requires
        ms.len() > 0,
        0 <= i <= s.len(),
        s.subrange(skip_ws(s, i), s.len() as int) == join_quoted(ms),
    ensures
        scan_members(s, i) == Some(ms),
    decreases ms.len(),
{
    reveal_strlit(", ");
    lemma_skip_ws_bounds(s, i);
    let i0 = skip_ws(s, i);
    let q0 = quoted(ms[0]);
    let e0 = escape_text(ms[0]);
    lemma_quoted_shape(ms[0]);
    let jq = join_quoted(ms);
    lemma_join_quoted_clean(ms);
    assert forall|t: int| 0 <= t < jq.len() implies s[i0 + t] == jq[t] by {
        assert(jq[t] == s.subrange(i0, s.len() as int)[t]);
    }
    assert(s.len() == i0 + jq.len());
    assert(i0 < s.len());
    assert(s[i0 + 0] == jq[0]);
    assert(s[i0] == '"');
    assert(s.subrange(i0 + 1, i0 + 1 + e0.len() as int) =~= e0) by {
        assert forall|t: int| 0 <= t < e0.len() implies s.subrange(
            i0 + 1,
            i0 + 1 + e0.len() as int,
        )[t] == e0[t] by {
            assert(jq[t + 1] == q0[t + 1]);
            assert(q0[t + 1] == e0[t]);
            assert(s[i0 + (t + 1)] == jq[t + 1]);
        }
    }
    assert(s[i0 + (1 + e0.len() as int)] == jq[1 + e0.len() as int]);
    assert(jq[1 + e0.len() as int] == q0[1 + e0.len() as int]);
    assert(q0[q0.len() - 1] == '"');
    assert(s[i0 + 1 + e0.len() as int] == '"');
    lemma_scan_escaped(ms[0], s, i0 + 1);
    let j = i0 + q0.len() as int;
    assert(scan_qtail(s, i0 + 1) == Some((ms[0], j)));
    if ms.len() == 1 {
        assert(join_rest(ms.drop_first()) =~= Seq::<char>::empty());
        assert(jq =~= q0);
        assert(j == s.len());
        assert(skip_ws(s, j) == j);
        assert(seq![ms[0]] =~= ms);
    } else {
        let rest = ms.drop_first();
        let jr = join_rest(rest);
        assert(jq == q0 + jr);
        assert(jr.len() >= 2);
        assert(jr[0] == ',' && jr[1] == ' ');
        assert(s[i0 + (q0.len() as int + 0)] == jq[q0.len() as int]);
        assert(jq[q0.len() as int] == jr[0]);
        assert(s[j] == ',');
        assert(s[i0 + (q0.len() as int + 1)] == jq[q0.len() as int + 1]);
        assert(jq[q0.len() as int + 1] == jr[1]);
        assert(s[j + 1] == ' ');
        assert(skip_ws(s, j) == j);
        // the rest of the text, after the comma and one space, is the
        // joined remaining members
        let q1 = quoted(rest[0]);
        lemma_quoted_shape(rest[0]);
        assert(jr[2] == q1[0]) by {
            assert(jr == ", "@ + quoted(rest[0]) + join_rest(rest.drop_first()));
        }
        assert(s[i0 + (q0.len() as int + 2)] == jq[q0.len() as int + 2]);
        assert(jq[q0.len() as int + 2] == jr[2]);
        assert(s[j + 2] == '"');
        assert(skip_ws(s, j + 2) == j + 2);
        assert(skip_ws(s, j + 1) == j + 2);
        assert(s.subrange(j + 2, s.len() as int) =~= join_quoted(rest)) by {
            assert(jr == ", "@ + join_quoted(rest));
            assert forall|t: int| 0 <= t < join_quoted(rest).len() implies s.subrange(
                j + 2,
                s.len() as int,
            )[t] == join_quoted(rest)[t] by {
                assert(jq[q0.len() as int + 2 + t] == jr[2 + t]);
                assert(jr[2 + t] == join_quoted(rest)[t]);
                assert(s[i0 + (q0.len() as int + 2 + t)] == jq[q0.len() as int + 2 + t]);
            }
        }
        lemma_scan_members_at(rest, s, j + 1);
        assert(seq![ms[0]] + rest =~= ms);
    }
}

/// A serialized group line classifies back to exactly that entry,
/// whatever the key and members hold.
proof fn lemma_classify_list(k: Seq<char>, ms: Seq<Seq<char>>)
    ensures
        classify_line(list_line(k, ms)) == LineClass::Entry(k, LineVal::ListVal(ms)),
{
    reveal_strlit(" = [");
    reveal_strlit("]");
    lemma_key_text_shape(k);
    lemma_join_quoted_clean(ms);
    let kt = key_text(k);
    let jq = join_quoted(ms);
    let bracketed = seq!['['] + jq + seq![']'];
    let line = list_line(k, ms);
    assert(line.len() == kt.len() + 4 + jq.len() + 1);
    assert(line[0] == kt[0]);
    assert(line.last() == "]"@[0]);
    assert(!is_ws(']'));
    lemma_trim_of_clean(line);
    let t = line;
    assert(trim_spec(line) == t);
    assert(t.len() > 0);
    assert(t[0] != '#');
    assert(t[0] != '[');
    assert(line[kt.len() as int] == " = ["@[0]);
    assert(line[kt.len() as int + 1] == " = ["@[1]);
    assert(line[kt.len() as int + 2] == " = ["@[2]);
    assert(line[kt.len() as int + 3] == " = ["@[3]);
    let e = kt.len() as int + 1;
    let valpart = t.subrange(e + 1, t.len() as int);
    assert(valpart =~= seq![' '] + bracketed) by {
        assert forall|x: int| 0 <= x < valpart.len() implies valpart[x] == (seq![' ']
            + bracketed)[x] by {
            assert(valpart[x] == line[kt.len() as int + 2 + x]);
            if x == 1 {
                assert(line[kt.len() as int + 3] == '[');
            } else if 2 <= x < 2 + jq.len() {
                assert(line[kt.len() as int + 4 + (x - 2)] == jq[x - 2]);
            } else if x == 2 + jq.len() {
                assert(line[kt.len() as int + 4 + jq.len() as int] == "]"@[0]);
            }
        }
    }
    assert(is_ws(valpart[0]));
    assert(valpart[1] == '[');
    assert(!is_ws(valpart[1]));
    lemma_trim_start_subrange(valpart, 1);
    assert(trim_start_spec(valpart) == valpart.subrange(1, valpart.len() as int));
    assert(valpart.subrange(1, valpart.len() as int) =~= bracketed);
    assert(bracketed.last() == ']');
    lemma_trim_end_subrange(bracketed, bracketed.len() as int);
    assert(trim_end_spec(bracketed) == bracketed.subrange(0, bracketed.len() as int));
    assert(bracketed.subrange(0, bracketed.len() as int) =~= bracketed);
    assert(trim_spec(valpart) == bracketed);
    // the bracketed text parses back to the members
    assert(bracketed.len() >= 2);
    assert(bracketed[0] == '[');
    assert(bracketed.subrange(1, bracketed.len() - 1) =~= jq);
    assert(parse_value(bracketed) == Some(LineVal::ListVal(ms))) by {
        if ms.len() == 0 {
            assert(jq =~= Seq::<char>::empty());
            assert(trim_spec(jq).len() == 0);
            assert(Seq::<Seq<char>>::empty() =~= ms);
        } else {
            lemma_trim_of_clean(jq);
            assert(trim_spec(jq).len() > 0);
            assert(skip_ws(jq, 0) == 0);
            assert(jq.subrange(0, jq.len() as int) =~= jq);
            lemma_scan_members_at(ms, jq, 0);
        }
    }
    if bare_key(k) {
        assert(kt == k);
        lemma_bare_char_facts(k[0]);
        assert(t[0] != '"');
        assert forall|x: int| 0 <= x < kt.len() + 1 implies line[x] != '=' by {
            if x < kt.len() {
                assert(line[x] == k[x]);
                lemma_bare_char_facts(k[x]);
            }
        }
        lemma_find_idx_at(line, '=', e);
        let keypart = t.subrange(0, e);
        assert(keypart =~= k + seq![' ']);
        lemma_trim_start_subrange(keypart, 0);
        assert(trim_start_spec(keypart) == keypart.subrange(0, keypart.len() as int));
        assert(keypart.subrange(0, keypart.len() as int) =~= keypart);
        lemma_trim_end_subrange(keypart, k.len() as int);
        assert(trim_spec(keypart) == keypart.subrange(0, k.len() as int));
        assert(keypart.subrange(0, k.len() as int) =~= k);
        assert(k.len() > 0);
    } else {
        assert(t[0] == '"');
        let ek = escape_text(k);
        assert(kt == quoted(k));
        assert(t.subrange(1, 1 + ek.len() as int) =~= ek) by {
            assert forall|x: int| 0 <= x < ek.len() implies t.subrange(
                1,
                1 + ek.len() as int,
            )[x] == ek[x] by {
                assert(t[1 + x] == kt[1 + x]);
                assert(kt[1 + x] == ek[x]);
            }
        }
        assert(t[1 + ek.len() as int] == kt[kt.len() - 1]);
        assert(t[1 + ek.len() as int] == '"');
        lemma_scan_escaped(k, t, 1);
        let qk = kt.len() as int;
        assert(scan_qtail(t, 1) == Some((k, qk)));
        assert(skip_ws(t, qk + 1) == qk + 1);
        assert(skip_ws(t, qk) == qk + 1);
        assert(t[qk + 1] == '=');
    }
}

/// The three section headers classify back to their sections, and the
/// empty line is blank.
proof fn lemma_classify_fixed_lines()
    ensures
        classify_line("[aliases]"@) == LineClass::Header("aliases"@),
        classify_line("[links]"@) == LineClass::Header("links"@),
        classify_line("[groups]"@) == LineClass::Header("groups"@),
        header_section("aliases"@) == Sect::Aliases,
        header_section("links"@) == Sect::Links,
        header_section("groups"@) == Sect::Groups,
        classify_line(Seq::<char>::empty()) == LineClass::Blank,
{
    reveal_strlit("[aliases]");
    reveal_strlit("aliases");
    reveal_strlit("[links]");
    reveal_strlit("links");
    reveal_strlit("[groups]");
    reveal_strlit("groups");
    lemma_classify_header("[aliases]"@, "aliases"@);
    lemma_classify_header("[links]"@, "links"@);
    lemma_classify_header("[groups]"@, "groups"@);
    assert(trim_spec(Seq::<char>::empty()).len() == 0);
}

/// A bracketed bare name on its own line is a header carrying that name.
proof fn lemma_classify_header(line: Seq<char>, name: Seq<char>)
    requires
        line.len() == name.len() + 2,
        line[0] == '[',
        line.last() == ']',
        forall|i: int| 0 < i < line.len() - 1 ==> line[i] == name[i - 1],
        bare_key(name),
    ensures
        classify_line(line) == LineClass::Header(name),
{
    assert(!is_ws(line[0]));
    assert(!is_ws(line.last()));
    lemma_trim_of_clean(line);
    assert(trim_spec(line) == line);
    assert(line[0] != '#');
    let inner = line.subrange(1, line.len() - 1);
    assert(inner =~= name);
    lemma_bare_char_facts(name[0]);
    lemma_bare_char_facts(name[name.len() - 1]);
    lemma_trim_of_clean(name);
}


// ------------------------------------------------------------------
// Lines of a serialized section
// ------------------------------------------------------------------

/// The lines an alias or link section serializes to, without newlines.
pub open spec fn map_lines(entries: Seq<(Seq<char>, Seq<char>)>) -> Seq<Seq<char>>
    decreases entries.len(),
{
    if entries.len() == 0 {
        Seq::empty()
    } else {
        seq![kv_line(entries[0].0, entries[0].1)] + map_lines(entries.drop_first())
    }
}

/// The lines the group section serializes to, without newlines.
pub open spec fn group_lines(entries: Seq<(Seq<char>, Seq<Seq<char>>)>) -> Seq<Seq<char>>
    decreases entries.len(),
{
    if entries.len() == 0 {
        Seq::empty()
    } else {
        seq![list_line(entries[0].0, entries[0].1)] + group_lines(entries.drop_first())
    }
}

proof fn lemma_ser_map_lines(entries: Seq<(Seq<char>, Seq<char>)>, rest: Seq<char>)
    ensures
        split_on(ser_map_section(entries) + rest, '\n') == map_lines(entries) + split_on(
            rest,
            '\n',
        ),
    decreases entries.len(),
{
    if entries.len() == 0 {
        assert(ser_map_section(entries) + rest =~= rest);
        assert(Seq::<Seq<char>>::empty() + split_on(rest, '\n') =~= split_on(rest, '\n'));
    } else {
        let line = kv_line(entries[0].0, entries[0].1);
        lemma_kv_line_clean(entries[0].0, entries[0].1);
        let tail = ser_map_section(entries.drop_first()) + rest;
        assert(ser_map_section(entries) + rest =~= line + seq!['\n'] + tail);
        lemma_split_on_piece(line, tail, '\n');
        lemma_ser_map_lines(entries.drop_first(), rest);
        assert(seq![line] + (map_lines(entries.drop_first()) + split_on(rest, '\n'))
            =~= map_lines(entries) + split_on(rest, '\n'));
    }
}

proof fn lemma_ser_group_lines(entries: Seq<(Seq<char>, Seq<Seq<char>>)>, rest: Seq<char>)
    ensures
        split_on(ser_group_section(entries) + rest, '\n') == group_lines(entries) + split_on(
            rest,
            '\n',
        ),
    decreases entries.len(),
{
    if entries.len() == 0 {
        assert(ser_group_section(entries) + rest =~= rest);
        assert(Seq::<Seq<char>>::empty() + split_on(rest, '\n') =~= split_on(rest, '\n'));
    } else {
        let line = list_line(entries[0].0, entries[0].1);
        lemma_list_line_clean(entries[0].0, entries[0].1);
        let tail = ser_group_section(entries.drop_first()) + rest;
        assert(ser_group_section(entries) + rest =~= line + seq!['\n'] + tail);
        lemma_split_on_piece(line, tail, '\n');
        lemma_ser_group_lines(entries.drop_first(), rest);
        assert(seq![line] + (group_lines(entries.drop_first()) + split_on(rest, '\n'))
            =~= group_lines(entries) + split_on(rest, '\n'));
    }
}

// ------------------------------------------------------------------
// Parsing the serialized lines back
// ------------------------------------------------------------------

proof fn lemma_parse_alias_lines(
    entries: Seq<(Seq<char>, Seq<char>)>,
    rest: Seq<Seq<char>>,
    acc: DocModel,
)
    requires
        map_wf(acc.aliases + entries),
    ensures
        parse_lines(map_lines(entries) + rest, Sect::Aliases, acc) == parse_lines(
            rest,
            Sect::Aliases,
            DocModel { aliases: acc.aliases + entries, ..acc },
        ),
    decreases entries.len(),
{
    if entries.len() == 0 {
        assert(map_lines(entries) + rest =~= rest);
        assert(acc.aliases + entries =~= acc.aliases);
        assert(DocModel { aliases: acc.aliases + entries, ..acc } =~= acc);
    } else {
        let e0 = entries[0];
        let comb = acc.aliases + entries;
        lemma_classify_kv(e0.0, e0.1);
        let ls = map_lines(entries) + rest;
        assert(ls[0] == kv_line(e0.0, e0.1));
        assert(ls.drop_first() =~= map_lines(entries.drop_first()) + rest);
        assert(!map_has_key(acc.aliases, e0.0)) by {
            if map_has_key(acc.aliases, e0.0) {
                let w = choose|w: int|
                    0 <= w < acc.aliases.len() && acc.aliases[w].0 == e0.0;
                assert(comb[w].0 == e0.0);
                assert(comb[acc.aliases.len() as int].0 == e0.0);
            }
        }
        let acc2 = DocModel { aliases: acc.aliases.push(e0), ..acc };
        assert((e0.0, e0.1) == e0);
        assert(acc2.aliases + entries.drop_first() =~= comb);
        lemma_parse_alias_lines(entries.drop_first(), rest, acc2);
        assert(DocModel { aliases: acc2.aliases + entries.drop_first(), ..acc2 }
            =~= DocModel { aliases: acc.aliases + entries, ..acc });
    }
}

proof fn lemma_parse_link_lines(
    entries: Seq<(Seq<char>, Seq<char>)>,
    rest: Seq<Seq<char>>,
    acc: DocModel,
)
    requires
        map_wf(acc.links + entries),
    ensures
        parse_lines(map_lines(entries) + rest, Sect::Links, acc) == parse_lines(
            rest,
            Sect::Links,
            DocModel { links: acc.links + entries, ..acc },
        ),
    decreases entries.len(),
{
    if entries.len() == 0 {
        assert(map_lines(entries) + rest =~= rest);
        assert(acc.links + entries =~= acc.links);
        assert(DocModel { links: acc.links + entries, ..acc } =~= acc);
    } else {
        let e0 = entries[0];
        let comb = acc.links + entries;
        lemma_classify_kv(e0.0, e0.1);
        let ls = map_lines(entries) + rest;
        assert(ls[0] == kv_line(e0.0, e0.1));
        assert(ls.drop_first() =~= map_lines(entries.drop_first()) + rest);
        assert(!map_has_key(acc.links, e0.0)) by {
            if map_has_key(acc.links, e0.0) {
                let w = choose|w: int| 0 <= w < acc.links.len() && acc.links[w].0 == e0.0;
                assert(comb[w].0 == e0.0);
                assert(comb[acc.links.len() as int].0 == e0.0);
            }
        }
        let acc2 = DocModel { links: acc.links.push(e0), ..acc };
        assert((e0.0, e0.1) == e0);
        assert(acc2.links + entries.drop_first() =~= comb);
        lemma_parse_link_lines(entries.drop_first(), rest, acc2);
        assert(DocModel { links: acc2.links + entries.drop_first(), ..acc2 }
            =~= DocModel { links: acc.links + entries, ..acc });
    }
}

proof fn lemma_parse_group_lines(
    entries: Seq<(Seq<char>, Seq<Seq<char>>)>,
    rest: Seq<Seq<char>>,
    acc: DocModel,
)
    requires
        map_wf(acc.groups + entries),
    ensures
        parse_lines(group_lines(entries) + rest, Sect::Groups, acc) == parse_lines(
            rest,
            Sect::Groups,
            DocModel { groups: acc.groups + entries, ..acc },
        ),
    decreases entries.len(),
{
    if entries.len() == 0 {
        assert(group_lines(entries) + rest =~= rest);
        assert(acc.groups + entries =~= acc.groups);
        assert(DocModel { groups: acc.groups + entries, ..acc } =~= acc);
    } else {
        let e0 = entries[0];
        let comb = acc.groups + entries;
        lemma_classify_list(e0.0, e0.1);
        let ls = group_lines(entries) + rest;
        assert(ls[0] == list_line(e0.0, e0.1));
        assert(ls.drop_first() =~= group_lines(entries.drop_first()) + rest);
        assert(!map_has_key(acc.groups, e0.0)) by {
            if map_has_key(acc.groups, e0.0) {
                let w = choose|w: int| 0 <= w < acc.groups.len() && acc.groups[w].0 == e0.0;
                assert(comb[w].0 == e0.0);
                assert(comb[acc.groups.len() as int].0 == e0.0);
            }
        }
        let acc2 = DocModel { groups: acc.groups.push(e0), ..acc };
        assert((e0.0, e0.1) == e0);
        assert(acc2.groups + entries.drop_first() =~= comb);
        lemma_parse_group_lines(entries.drop_first(), rest, acc2);
        assert(DocModel { groups: acc2.groups + entries.drop_first(), ..acc2 }
            =~= DocModel { groups: acc.groups + entries, ..acc });
    }
}

// ------------------------------------------------------------------
// The round trip
// ------------------------------------------------------------------

/// Saving and loading loses nothing: parsing the serialized text of any
/// catalogue whose maps have distinct keys yields exactly the catalogue
/// that was saved, in all three maps, entry order included — whatever the
/// names, URIs and members hold, the empty catalogue as well.
#[verifier::rlimit(100)]
pub proof fn lemma_save_load_round_trip(m: DocModel)
    requires
        crate::config::model_wf(m),
    ensures
        parse_doc_spec(ser_doc_spec(m)) == Some(m),
{
    reveal_strlit("[aliases]\n");
    reveal_strlit("[aliases]");
    reveal_strlit("[links]\n");
    reveal_strlit("[links]");
    reveal_strlit("[groups]\n");
    reveal_strlit("[groups]");
    reveal_strlit("aliases");
    reveal_strlit("links");
    reveal_strlit("groups");
    let s = ser_doc_spec(m);
    let ha = "[aliases]"@;
    let hl = "[links]"@;
    let hg = "[groups]"@;
    let sa = ser_map_section(m.aliases);
    let sl = ser_map_section(m.links);
    let sg = ser_group_section(m.groups);
    let empty_line = Seq::<char>::empty();
    // split the serialized text into its lines
    let lines_g = group_lines(m.groups) + seq![empty_line];
    let lines_from_hg = seq![hg] + lines_g;
    let lines_l = map_lines(m.links) + lines_from_hg;
    let lines_from_hl = seq![hl] + lines_l;
    let lines_a = map_lines(m.aliases) + lines_from_hl;
    let all_lines = seq![ha] + lines_a;
    assert(split_on(s, '\n') == all_lines) by {
        assert(forall|i: int| 0 <= i < ha.len() ==> ha[i] != '\n');
        assert(forall|i: int| 0 <= i < hl.len() ==> hl[i] != '\n');
        assert(forall|i: int| 0 <= i < hg.len() ==> hg[i] != '\n');
        lemma_split_on_whole(empty_line, '\n');
        assert(sg + empty_line =~= sg);
        lemma_ser_group_lines(m.groups, empty_line);
        assert(split_on(sg, '\n') == lines_g);
        let r2 = hg + seq!['\n'] + sg;
        lemma_split_on_piece(hg, sg, '\n');
        assert(split_on(r2, '\n') == lines_from_hg);
        lemma_ser_map_lines(m.links, r2);
        assert(split_on(sl + r2, '\n') == lines_l);
        let r1 = hl + seq!['\n'] + (sl + r2);
        lemma_split_on_piece(hl, sl + r2, '\n');
        assert(split_on(r1, '\n') == lines_from_hl);
        lemma_ser_map_lines(m.aliases, r1);
        assert(split_on(sa + r1, '\n') == lines_a);
        let r0 = ha + seq!['\n'] + (sa + r1);
        lemma_split_on_piece(ha, sa + r1, '\n');
        assert(split_on(r0, '\n') == all_lines);
        assert("[aliases]\n"@ =~= ha + seq!['\n']);
        assert("[links]\n"@ =~= hl + seq!['\n']);
        assert("[groups]\n"@ =~= hg + seq!['\n']);
        assert(s =~= r0);
    }
    // now parse the lines back
    lemma_classify_fixed_lines();
    let em = empty_model();
    assert(parse_lines(all_lines, Sect::Start, em) == parse_lines(
        lines_a,
        Sect::Aliases,
        em,
    )) by {
        assert(all_lines[0] == ha);
        assert(all_lines.drop_first() =~= lines_a);
    }
    let acc1 = DocModel { aliases: em.aliases + m.aliases, ..em };
    assert(parse_lines(lines_a, Sect::Aliases, em) == parse_lines(
        lines_from_hl,
        Sect::Aliases,
        acc1,
    )) by {
        assert(em.aliases + m.aliases =~= m.aliases);
        assert(map_wf(em.aliases + m.aliases));
        lemma_parse_alias_lines(m.aliases, lines_from_hl, em);
    }
    assert(parse_lines(lines_from_hl, Sect::Aliases, acc1) == parse_lines(
        lines_l,
        Sect::Links,
        acc1,
    )) by {
        assert(lines_from_hl[0] == hl);
        assert(lines_from_hl.drop_first() =~= lines_l);
    }
    let acc2 = DocModel { links: acc1.links + m.links, ..acc1 };
    assert(parse_lines(lines_l, Sect::Links, acc1) == parse_lines(
        lines_from_hg,
        Sect::Links,
        acc2,
    )) by {
        assert(acc1.links + m.links =~= m.links);
        assert(map_wf(acc1.links + m.links));
        lemma_parse_link_lines(m.links, lines_from_hg, acc1);
    }
    assert(parse_lines(lines_from_hg, Sect::Links, acc2) == parse_lines(
        lines_g,
        Sect::Groups,
        acc2,
    )) by {
        assert(lines_from_hg[0] == hg);
        assert(lines_from_hg.drop_first() =~= lines_g);
    }
    let acc3 = DocModel { groups: acc2.groups + m.groups, ..acc2 };
    assert(parse_lines(lines_g, Sect::Groups, acc2) == parse_lines(
        seq![empty_line],
        Sect::Groups,
        acc3,
    )) by {
        assert(acc2.groups + m.groups =~= m.groups);
        assert(map_wf(acc2.groups + m.groups));
        lemma_parse_group_lines(m.groups, seq![empty_line], acc2);
    }
    assert(parse_lines(seq![empty_line], Sect::Groups, acc3) == Some(acc3)) by {
        assert(parse_lines(Seq::<Seq<char>>::empty(), Sect::Groups, acc3) == Some(acc3));
        assert(seq![empty_line][0] == empty_line);
        assert(classify_line(empty_line) == LineClass::Blank);
        assert(seq![empty_line].drop_first() =~= Seq::<Seq<char>>::empty());
    }
    assert(acc3 =~= m);
}

} // verus!
