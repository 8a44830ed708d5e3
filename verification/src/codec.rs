//! The persisted text form of the catalogue: three named sections, one
//! `key = "value"` line per alias or link, one `key = ["a", "b"]` line per
//! group.  Inside quotes, backslash, double quote and newline are escaped
//! (`\\`, `\"`, `\n`), and a key that is not a bare name is quoted the
//! same way, so every catalogue can be stored and read back unchanged.
//! Blank lines and `#` comment lines are skipped, unknown sections are
//! ignored, and a malformed line or duplicate key is a parse error.
//! `parse_document` and `serialize_document` are exact inverses
//! (see `lemma_save_load_round_trip`).

use vstd::prelude::*;
use vstd::string::{StrSliceExecFns, StringExecFns};
use crate::text::{trim_spec, trim, find_idx, find_char, is_ws, is_ws_char, str_eq};
use crate::config::{Config, DocModel};
use crate::error::Error;
use crate::maps::{map_has_key, lemma_find_key, NameMap, ListMap};

verus! {

// ------------------------------------------------------------------
// Splitting on a separator character
// ------------------------------------------------------------------

/// Split at every occurrence of `c`; n separators give n + 1 pieces.
pub open spec fn split_on(s: Seq<char>, c: char) -> Seq<Seq<char>>
    decreases s.len(),
{
    let i = find_idx(s, c);
    if 0 <= i < s.len() {
        seq![s.subrange(0, i)] + split_on(s.subrange(i + 1, s.len() as int), c)
    } else {
        seq![s]
    }
}

/// Split a string at every occurrence of `c`.
#[verifier::loop_isolation(false)]
pub fn split_on_exec(s: &str, c: char) -> (r: Vec<String>)
    ensures
        r.deep_view() == split_on(s@, c),
{
    let mut pieces: Vec<String> = Vec::new();
    let n = s.unicode_len();
    let mut pos: usize = 0;
    let mut done = false;
    proof {
        assert(pieces.deep_view() =~= Seq::<Seq<char>>::empty());
        assert(s@.subrange(0, n as int) =~= s@);
        assert(Seq::<Seq<char>>::empty() + split_on(s@, c) =~= split_on(s@, c));
    }
    while !done
        invariant
            0 <= pos <= n,
            !done ==> pieces.deep_view() + split_on(s@.subrange(pos as int, n as int), c)
                == split_on(s@, c),
            done ==> pieces.deep_view() == split_on(s@, c),
        decreases (if done { 0int } else { 1int }) + n - pos,
    {
        let ghost pre = pieces.deep_view();
        let rem = s.substring_char(pos, n);
        match find_char(rem, c) {
            Some(i) => {
                proof {
                    crate::text::lemma_find_idx(rem@, c);
                }
                let piece = rem.substring_char(0, i);
                pieces.push(piece.to_owned());
                proof {
                    assert(rem@.subrange(0, i as int) =~= s@.subrange(
                        pos as int,
                        pos + i as int,
                    ));
                    assert(rem@.subrange(i + 1, rem@.len() as int) =~= s@.subrange(
                        pos + i + 1,
                        n as int,
                    ));
                    assert(pieces.deep_view() =~= pre.push(rem@.subrange(0, i as int)));
                    assert(pieces.deep_view() + split_on(
                        s@.subrange(pos + i + 1, n as int),
                        c,
                    ) =~= pre + split_on(s@.subrange(pos as int, n as int), c));
                }
                pos = pos + i + 1;
            },
            None => {
                pieces.push(rem.to_owned());
                proof {
                    assert(pieces.deep_view() =~= pre.push(rem@));
                    assert(pre.push(rem@) =~= pre + seq![rem@]);
                    assert(split_on(s@.subrange(pos as int, n as int), c) =~= seq![rem@]);
                }
                done = true;
            },
        }
    }
    pieces
}

// ------------------------------------------------------------------
// Quoted strings with escapes
// ------------------------------------------------------------------

/// First index at or after `i` holding a non-whitespace character, or the
/// length when only whitespace remains.
pub open spec fn skip_ws(s: Seq<char>, i: int) -> int
    decreases s.len() - i,
{
    if 0 <= i < s.len() && is_ws(s[i]) {
        skip_ws(s, i + 1)
    } else {
        i
    }
}

/// Scan the body of a quoted string from position `i` (just past the
/// opening quote): decode `\\`, `\"` and `\n`, stop at the unescaped
/// closing quote.  Yields the decoded content and the position just past
/// the closing quote; `None` on an unterminated string or unknown escape.
pub open spec fn scan_qtail(s: Seq<char>, i: int) -> Option<(Seq<char>, int)>
    decreases s.len() - i,
{
    if i < 0 || i >= s.len() {
        None
    } else if s[i] == '"' {
        Some((Seq::empty(), i + 1))
    } else if s[i] == '\\' {
        if i + 1 < s.len() && (s[i + 1] == '\\' || s[i + 1] == '"' || s[i + 1] == 'n') {
            let c = if s[i + 1] == 'n' {
                '\n'
            } else {
                s[i + 1]
            };
            match scan_qtail(s, i + 2) {
                Some(p) => Some((seq![c] + p.0, p.1)),
                None => None,
            }
        } else {
            None
        }
    } else {
        match scan_qtail(s, i + 1) {
            Some(p) => Some((seq![s[i]] + p.0, p.1)),
            None => None,
        }
    }
}

/// A successful scan lands strictly past where it started and inside the
/// string.
pub proof fn lemma_scan_qtail_bounds(s: Seq<char>, i: int)
    ensures
        scan_qtail(s, i) is Some ==> i < (scan_qtail(s, i)->0).1 <= s.len(),
    decreases s.len() - i,
{
    if i < 0 || i >= s.len() {
    } else if s[i] == '"' {
    } else if s[i] == '\\' {
        if i + 1 < s.len() && (s[i + 1] == '\\' || s[i + 1] == '"' || s[i + 1] == 'n') {
            lemma_scan_qtail_bounds(s, i + 2);
        }
    } else {
        lemma_scan_qtail_bounds(s, i + 1);
    }
}

/// Skipping whitespace stays between the start and the end.
pub proof fn lemma_skip_ws_bounds(s: Seq<char>, i: int)
    requires
        0 <= i <= s.len(),
    ensures
        i <= skip_ws(s, i) <= s.len(),
    decreases s.len() - i,
{
    if 0 <= i < s.len() && is_ws(s[i]) {
        lemma_skip_ws_bounds(s, i + 1);
    }
}

// ------------------------------------------------------------------
// Classifying one line
// ------------------------------------------------------------------

/// The value part of an entry line.
pub enum LineVal {
    StrVal(Seq<char>),
    ListVal(Seq<Seq<char>>),
}

/// What one line of the persisted form means.
pub enum LineClass {
    /// Empty, whitespace only, or a `#` comment.
    Blank,
    /// `[name]`, carrying the trimmed section name.
    Header(Seq<char>),
    /// `key = value`, carrying the key and the parsed value.
    Entry(Seq<char>, LineVal),
    /// Anything else: a parse error.
    Bad,
}

/// Scan the quoted, comma-separated members between the brackets.
pub open spec fn scan_members(s: Seq<char>, i: int) -> Option<Seq<Seq<char>>>
    decreases s.len() - i,
{
    let i0 = skip_ws(s, i);
    if i0 < 0 || i0 >= s.len() {
        None
    } else if s[i0] != '"' {
        None
    } else {
        match scan_qtail(s, i0 + 1) {
            Some(p) => {
                let j2 = skip_ws(s, p.1);
                if j2 >= s.len() {
                    Some(seq![p.0])
                } else if s[j2] == ',' && i < j2 + 1 && j2 + 1 <= s.len() {
                    match scan_members(s, j2 + 1) {
                        Some(rest) => Some(seq![p.0] + rest),
                        None => None,
                    }
                } else {
                    None
                }
            },
            None => None,
        }
    }
}

/// Parse the inside of `[` ... `]`: nothing but whitespace is the empty
/// list, otherwise quoted members separated by commas.
pub open spec fn parse_list(inner: Seq<char>) -> Option<Seq<Seq<char>>> {
    if trim_spec(inner).len() == 0 {
        Some(Seq::empty())
    } else {
        scan_members(inner, 0)
    }
}

/// Parse a trimmed value: a bracketed list or a quoted string reaching to
/// the end.
pub open spec fn parse_value(raw: Seq<char>) -> Option<LineVal> {
    if raw.len() >= 2 && raw[0] == '[' && raw.last() == ']' {
        match parse_list(raw.subrange(1, raw.len() - 1)) {
            Some(ms) => Some(LineVal::ListVal(ms)),
            None => None,
        }
    } else if raw.len() >= 1 && raw[0] == '"' {
        match scan_qtail(raw, 1) {
            Some(p) => if p.1 == raw.len() {
                Some(LineVal::StrVal(p.0))
            } else {
                None
            },
            None => None,
        }
    } else {
        None
    }
}

/// Classify one raw line.
pub open spec fn classify_line(line: Seq<char>) -> LineClass {
    let t = trim_spec(line);
    if t.len() == 0 {
        LineClass::Blank
    } else if t[0] == '#' {
        LineClass::Blank
    } else if t.len() >= 2 && t[0] == '[' && t.last() == ']' {
        LineClass::Header(trim_spec(t.subrange(1, t.len() - 1)))
    } else if t[0] == '"' {
        // a quoted key, which may hold any character
        match scan_qtail(t, 1) {
            Some(p) => {
                let j2 = skip_ws(t, p.1);
                if 0 <= j2 < t.len() && t[j2] == '=' {
                    match parse_value(trim_spec(t.subrange(j2 + 1, t.len() as int))) {
                        Some(v) => LineClass::Entry(p.0, v),
                        None => LineClass::Bad,
                    }
                } else {
                    LineClass::Bad
                }
            },
            None => LineClass::Bad,
        }
    } else {
        // a bare key: everything before the first equals sign
        let e = find_idx(t, '=');
        if 0 <= e < t.len() {
            let key = trim_spec(t.subrange(0, e));
            let raw = trim_spec(t.subrange(e + 1, t.len() as int));
            if key.len() == 0 {
                LineClass::Bad
            } else {
                match parse_value(raw) {
                    Some(v) => LineClass::Entry(key, v),
                    None => LineClass::Bad,
                }
            }
        } else {
            LineClass::Bad
        }
    }
}

// ------------------------------------------------------------------
// Assembling the document
// ------------------------------------------------------------------

/// Which section the parser is inside.
#[derive(Clone, Copy)]
pub enum Sect {
    /// Before any section header; an entry here is an error.
    Start,
    Aliases,
    Links,
    Groups,
    /// An unrecognized section; entries in it are ignored.
    Other,
}

pub open spec fn header_section(name: Seq<char>) -> Sect {
    if name == "aliases"@ {
        Sect::Aliases
    } else if name == "links"@ {
        Sect::Links
    } else if name == "groups"@ {
        Sect::Groups
    } else {
        Sect::Other
    }
}

pub open spec fn empty_model() -> DocModel {
    DocModel { aliases: Seq::empty(), links: Seq::empty(), groups: Seq::empty() }
}

/// Fold the classified lines into a document; `None` is a parse error.
pub open spec fn parse_lines(ls: Seq<Seq<char>>, sect: Sect, acc: DocModel) -> Option<DocModel>
    decreases ls.len(),
{
    if ls.len() == 0 {
        Some(acc)
    } else {
        match classify_line(ls[0]) {
            LineClass::Blank => parse_lines(ls.drop_first(), sect, acc),
            LineClass::Header(name) => parse_lines(ls.drop_first(), header_section(name), acc),
            LineClass::Entry(key, val) => match sect {
                Sect::Start => None,
                Sect::Other => parse_lines(ls.drop_first(), sect, acc),
                Sect::Aliases => match val {
                    LineVal::StrVal(v) => if map_has_key(acc.aliases, key) {
                        None
                    } else {
                        parse_lines(
                            ls.drop_first(),
                            sect,
                            DocModel { aliases: acc.aliases.push((key, v)), ..acc },
                        )
                    },
                    LineVal::ListVal(_) => None,
                },
                Sect::Links => match val {
                    LineVal::StrVal(v) => if map_has_key(acc.links, key) {
                        None
                    } else {
                        parse_lines(
                            ls.drop_first(),
                            sect,
                            DocModel { links: acc.links.push((key, v)), ..acc },
                        )
                    },
                    LineVal::ListVal(_) => None,
                },
                Sect::Groups => match val {
                    LineVal::ListVal(ms) => if map_has_key(acc.groups, key) {
                        None
                    } else {
                        parse_lines(
                            ls.drop_first(),
                            sect,
                            DocModel { groups: acc.groups.push((key, ms)), ..acc },
                        )
                    },
                    LineVal::StrVal(_) => None,
                },
            },
            LineClass::Bad => None,
        }
    }
}

/// What parsing a whole persisted text yields.
pub open spec fn parse_doc_spec(s: Seq<char>) -> Option<DocModel> {
    parse_lines(split_on(s, '\n'), Sect::Start, empty_model())
}

// ------------------------------------------------------------------
// Executable scanning
// ------------------------------------------------------------------

/// Skip whitespace.
#[verifier::loop_isolation(false)]
fn skip_ws_exec(s: &str, from: usize) -> (r: usize)
    requires
        from <= s@.len(),
    ensures
        r == skip_ws(s@, from as int),
        from <= r <= s@.len(),
{
    let n = s.unicode_len();
    let mut i: usize = from;
    while i < n && is_ws_char(s.get_char(i))
        invariant
            from <= i <= n,
            skip_ws(s@, from as int) == skip_ws(s@, i as int),
        decreases n - i,
    {
        i = i + 1;
    }
    i
}

/// Scan and decode a quoted string's body.
#[verifier::loop_isolation(false)]
fn scan_quoted_exec(s: &str, start: usize) -> (r: Option<(String, usize)>)
    requires
        start <= s@.len(),
    ensures
        match r {
            Some(p) => scan_qtail(s@, start as int) == Some((p.0@, p.1 as int)) && p.1
                <= s@.len(),
            None => scan_qtail(s@, start as int) is None,
        },
{
    let n = s.unicode_len();
    let mut i: usize = start;
    let mut out = String::new();
    proof {
        let g = scan_qtail(s@, start as int);
        if g is Some {
            assert(Seq::<char>::empty() + (g->0).0 =~= (g->0).0);
        }
    }
    while i < n
        invariant
            start <= i <= n,
            scan_qtail(s@, start as int) == (match scan_qtail(s@, i as int) {
                Some(p) => Some((out@ + p.0, p.1)),
                None => None::<(Seq<char>, int)>,
            }),
        decreases n - i,
    {
        let ghost pre = out@;
        let c = s.get_char(i);
        if c == '"' {
            proof {
                assert(out@ + Seq::<char>::empty() =~= out@);
                lemma_scan_qtail_bounds(s@, start as int);
            }
            return Some((out, i + 1));
        } else if c == '\\' {
            if i + 1 >= n {
                return None;
            }
            let c2 = s.get_char(i + 1);
            if c2 != '\\' && c2 != '"' && c2 != 'n' {
                return None;
            }
            let ghost d: char = if c2 == 'n' {
                '\n'
            } else {
                c2
            };
            if c2 == '\\' {
                out.append("\\");
            } else if c2 == '"' {
                out.append("\"");
            } else {
                out.append("\n");
            }
            proof {
                reveal_strlit("\\");
                reveal_strlit("\"");
                reveal_strlit("\n");
                assert(out@ =~= pre + seq![d]);
                let g2 = scan_qtail(s@, i + 2);
                if g2 is Some {
                    assert((pre + seq![d]) + (g2->0).0 =~= pre + (seq![d] + (g2->0).0));
                }
            }
            i = i + 2;
        } else {
            out.append(s.substring_char(i, i + 1));
            proof {
                assert(s@.subrange(i as int, i + 1) =~= seq![s@[i as int]]);
                assert(out@ =~= pre + seq![s@[i as int]]);
                let g2 = scan_qtail(s@, i + 1);
                if g2 is Some {
                    assert((pre + seq![s@[i as int]]) + (g2->0).0 =~= pre + (seq![s@[i as int]]
                        + (g2->0).0));
                }
            }
            i = i + 1;
        }
    }
    None
}

// ------------------------------------------------------------------
// Executable classification
// ------------------------------------------------------------------

/// Executable value of an entry line.
pub enum ValRepr {
    StrV(String),
    ListV(Vec<String>),
}

/// Executable classification of a line.
pub enum LineKind {
    BlankK,
    HeaderK(String),
    EntryK(String, ValRepr),
    BadK,
}

pub open spec fn val_matches(v: ValRepr, c: LineVal) -> bool {
    match (v, c) {
        (ValRepr::StrV(s), LineVal::StrVal(cs)) => s@ == cs,
        (ValRepr::ListV(ms), LineVal::ListVal(cms)) => ms.deep_view() == cms,
        _ => false,
    }
}

pub open spec fn kind_matches(k: LineKind, c: LineClass) -> bool {
    match (k, c) {
        (LineKind::BlankK, LineClass::Blank) => true,
        (LineKind::HeaderK(s), LineClass::Header(cs)) => s@ == cs,
        (LineKind::EntryK(key, v), LineClass::Entry(ck, cv)) => key@ == ck && val_matches(v, cv),
        (LineKind::BadK, LineClass::Bad) => true,
        _ => false,
    }
}

/// Parse the members of a bracketed list.
#[verifier::loop_isolation(false)]
fn parse_list_exec(inner: &str) -> (r: Option<Vec<String>>)
    ensures
        match r {
            Some(ms) => parse_list(inner@) == Some(ms.deep_view()),
            None => parse_list(inner@) is None,
        },
{
    let t = trim(inner);
    if t.unicode_len() == 0 {
        let ms: Vec<String> = Vec::new();
        proof {
            assert(ms.deep_view() =~= Seq::<Seq<char>>::empty());
        }
        return Some(ms);
    }
    let n = inner.unicode_len();
    let mut ms: Vec<String> = Vec::new();
    let mut i: usize = 0;
    proof {
        let g = scan_members(inner@, 0);
        if g is Some {
            assert(Seq::<Seq<char>>::empty() + g->0 =~= g->0);
        }
    }
    loop
        invariant
            0 <= i <= n,
            n == inner@.len(),
            trim_spec(inner@).len() != 0,
            scan_members(inner@, 0) == (match scan_members(inner@, i as int) {
                Some(rest) => Some(ms.deep_view() + rest),
                None => None::<Seq<Seq<char>>>,
            }),
        decreases n - i,
    {
        let ghost pre = ms.deep_view();
        let i0 = skip_ws_exec(inner, i);
        if i0 == n {
            return None;
        }
        if inner.get_char(i0) != '"' {
            return None;
        }
        match scan_quoted_exec(inner, i0 + 1) {
            None => {
                return None;
            },
            Some((m, j)) => {
                proof {
                    lemma_scan_qtail_bounds(inner@, i0 + 1);
                }
                let ghost gm = m@;
                ms.push(m);
                proof {
                    assert(ms.deep_view() =~= pre.push(gm));
                }
                let j2 = skip_ws_exec(inner, j);
                if j2 == n {
                    proof {
                        assert(pre.push(gm) =~= pre + seq![gm]);
                        assert(scan_members(inner@, i as int) == Some(seq![gm]));
                    }
                    return Some(ms);
                }
                if inner.get_char(j2) != ',' {
                    return None;
                }
                proof {
                    assert(pre.push(gm) =~= pre + seq![gm]);
                    let g2 = scan_members(inner@, j2 + 1);
                    if g2 is Some {
                        assert((pre + seq![gm]) + g2->0 =~= pre + (seq![gm] + g2->0));
                    }
                }
                i = j2 + 1;
            },
        }
    }
}

/// Parse a trimmed value.
fn parse_value_exec(raw: &str) -> (r: Option<ValRepr>)
    ensures
        match r {
            Some(v) => parse_value(raw@) is Some && val_matches(v, parse_value(raw@) -> 0),
            None => parse_value(raw@) is None,
        },
{
    let n = raw.unicode_len();
    if n >= 2 && raw.get_char(0) == '[' && raw.get_char(n - 1) == ']' {
        let inner = raw.substring_char(1, n - 1);
        match parse_list_exec(inner) {
            Some(ms) => Some(ValRepr::ListV(ms)),
            None => None,
        }
    } else if n >= 1 && raw.get_char(0) == '"' {
        match scan_quoted_exec(raw, 1) {
            Some((v, j)) => {
                if j == n {
                    Some(ValRepr::StrV(v))
                } else {
                    None
                }
            },
            None => None,
        }
    } else {
        None
    }
}

/// Classify one raw line.
fn classify_line_exec(line: &str) -> (r: LineKind)
    ensures
        kind_matches(r, classify_line(line@)),
{
    let t = trim(line);
    let tn = t.unicode_len();
    if tn == 0 {
        return LineKind::BlankK;
    }
    let c0 = t.get_char(0);
    if c0 == '#' {
        return LineKind::BlankK;
    }
    if tn >= 2 && c0 == '[' && t.get_char(tn - 1) == ']' {
        let name = trim(t.substring_char(1, tn - 1));
        return LineKind::HeaderK(name.to_owned());
    }
    if c0 == '"' {
        match scan_quoted_exec(t, 1) {
            None => LineKind::BadK,
            Some((key, j)) => {
                let j2 = skip_ws_exec(t, j);
                if j2 < tn && t.get_char(j2) == '=' {
                    let raw = trim(t.substring_char(j2 + 1, tn));
                    match parse_value_exec(raw) {
                        Some(v) => LineKind::EntryK(key, v),
                        None => LineKind::BadK,
                    }
                } else {
                    LineKind::BadK
                }
            },
        }
    } else {
        match find_char(t, '=') {
            None => {
                proof {
                    crate::text::lemma_find_idx(t@, '=');
                }
                LineKind::BadK
            },
            Some(e) => {
                proof {
                    crate::text::lemma_find_idx(t@, '=');
                }
                let key = trim(t.substring_char(0, e));
                let raw = trim(t.substring_char(e + 1, tn));
                if key.unicode_len() == 0 {
                    return LineKind::BadK;
                }
                match parse_value_exec(raw) {
                    Some(v) => LineKind::EntryK(key.to_owned(), v),
                    None => LineKind::BadK,
                }
            },
        }
    }
}

/// Map a section name to its meaning.
fn section_of(name: &str) -> (r: Sect)
    ensures
        r == header_section(name@),
{
    if str_eq(name, "aliases") {
        Sect::Aliases
    } else if str_eq(name, "links") {
        Sect::Links
    } else if str_eq(name, "groups") {
        Sect::Groups
    } else {
        Sect::Other
    }
}

// ------------------------------------------------------------------
// Parsing a whole document
// ------------------------------------------------------------------

/// Parse the persisted text form of a catalogue.  Succeeds exactly when the
/// text is well-formed (`parse_doc_spec`), returning the catalogue it
/// denotes; fails with `ParseError` otherwise.
#[verifier::loop_isolation(false)]
pub fn parse_document(s: &str) -> (r: Result<Config, Error>)
    ensures
        match r {
            Ok(cfg) => parse_doc_spec(s@) == Some(cfg@) && cfg.wf(),
            Err(e) => parse_doc_spec(s@) is None && e matches Error::ParseError,
        },
{
    let lines = split_on_exec(s, '\n');
    let ghost ld = lines.deep_view();
    let ln = lines.len();
    let mut sect = Sect::Start;
    let mut cfg = Config::default();
    proof {
        assert(ld.subrange(0, ln as int) =~= ld);
        assert(cfg@ =~= empty_model());
    }
    let mut i: usize = 0;
    while i < ln
        invariant
            0 <= i <= ln,
            cfg.wf(),
            parse_lines(ld.subrange(i as int, ln as int), sect, cfg@) == parse_doc_spec(s@),
        decreases ln - i,
    {
        let ghost rest = ld.subrange(i as int, ln as int);
        proof {
            assert(rest[0] == ld[i as int]);
            assert(rest.drop_first() =~= ld.subrange(i + 1, ln as int));
        }
        match classify_line_exec(lines[i].as_str()) {
            LineKind::BlankK => {},
            LineKind::HeaderK(name) => {
                sect = section_of(name.as_str());
            },
            LineKind::EntryK(key, val) => {
                match sect {
                    Sect::Start => {
                        return Err(Error::ParseError);
                    },
                    Sect::Other => {},
                    Sect::Aliases => match val {
                        ValRepr::StrV(v) => {
                            if cfg.aliases.contains_key(key.as_str()) {
                                return Err(Error::ParseError);
                            }
                            let ghost prev = cfg@;
                            let ghost gkey = key@;
                            let ghost gv = v@;
                            proof {
                                lemma_find_key(prev.aliases, gkey);
                            }
                            cfg.aliases.insert(key, v);
                            proof {
                                assert(cfg@ =~= DocModel {
                                    aliases: prev.aliases.push((gkey, gv)),
                                    ..prev
                                });
                            }
                        },
                        ValRepr::ListV(_) => {
                            return Err(Error::ParseError);
                        },
                    },
                    Sect::Links => match val {
                        ValRepr::StrV(v) => {
                            if cfg.links.contains_key(key.as_str()) {
                                return Err(Error::ParseError);
                            }
                            let ghost prev = cfg@;
                            let ghost gkey = key@;
                            let ghost gv = v@;
                            proof {
                                lemma_find_key(prev.links, gkey);
                            }
                            cfg.links.insert(key, v);
                            proof {
                                assert(cfg@ =~= DocModel {
                                    links: prev.links.push((gkey, gv)),
                                    ..prev
                                });
                            }
                        },
                        ValRepr::ListV(_) => {
                            return Err(Error::ParseError);
                        },
                    },
                    Sect::Groups => match val {
                        ValRepr::ListV(ms) => {
                            if cfg.groups.contains_key(key.as_str()) {
                                return Err(Error::ParseError);
                            }
                            let ghost prev = cfg@;
                            let ghost gkey = key@;
                            let ghost gms = ms.deep_view();
                            proof {
                                lemma_find_key(prev.groups, gkey);
                            }
                            cfg.groups.insert(key, ms);
                            proof {
                                assert(cfg@ =~= DocModel {
                                    groups: prev.groups.push((gkey, gms)),
                                    ..prev
                                });
                            }
                        },
                        ValRepr::StrV(_) => {
                            return Err(Error::ParseError);
                        },
                    },
                }
            },
            LineKind::BadK => {
                return Err(Error::ParseError);
            },
        }
        i = i + 1;
    }
    proof {
        assert(ld.subrange(ln as int, ln as int) =~= Seq::<Seq<char>>::empty());
    }
    Ok(cfg)
}

// ------------------------------------------------------------------
// Serialization
// ------------------------------------------------------------------

/// A character allowed in a bare (unquoted) key: letters, digits, `-`
/// and `_`.
pub open spec fn is_bare_char(c: char) -> bool {
    ('a' as u32 <= c as u32 && c as u32 <= 'z' as u32) || ('A' as u32 <= c as u32 && c as u32
        <= 'Z' as u32) || ('0' as u32 <= c as u32 && c as u32 <= '9' as u32) || c == '-' || c
        == '_'
}

/// A key written without quotes: nonempty, bare characters only.
pub open spec fn bare_key(k: Seq<char>) -> bool {
    k.len() > 0 && forall|i: int| 0 <= i < k.len() ==> is_bare_char(k[i])
}

/// How one character is written inside quotes.
pub open spec fn esc_char(c: char) -> Seq<char> {
    if c == '\\' {
        seq!['\\', '\\']
    } else if c == '"' {
        seq!['\\', '"']
    } else if c == '\n' {
        seq!['\\', 'n']
    } else {
        seq![c]
    }
}

/// The escaped body of a quoted string.
pub open spec fn escape_text(s: Seq<char>) -> Seq<char>
    decreases s.len(),
{
    if s.len() == 0 {
        Seq::empty()
    } else {
        esc_char(s[0]) + escape_text(s.drop_first())
    }
}

/// A string as stored: quoted and escaped.
pub open spec fn quoted(v: Seq<char>) -> Seq<char> {
    seq!['"'] + escape_text(v) + seq!['"']
}

/// A key as stored: bare when it can be, quoted otherwise.
pub open spec fn key_text(k: Seq<char>) -> Seq<char> {
    if bare_key(k) {
        k
    } else {
        quoted(k)
    }
}

/// One alias or link line, without its newline.
pub open spec fn kv_line(k: Seq<char>, v: Seq<char>) -> Seq<char> {
    key_text(k) + " = "@ + quoted(v)
}

/// The lines of an alias or link section, each ending in a newline.
pub open spec fn ser_map_section(entries: Seq<(Seq<char>, Seq<char>)>) -> Seq<char>
    decreases entries.len(),
{
    if entries.len() == 0 {
        Seq::empty()
    } else {
        kv_line(entries[0].0, entries[0].1) + seq!['\n'] + ser_map_section(entries.drop_first())
    }
}

pub open spec fn join_rest(ms: Seq<Seq<char>>) -> Seq<char>
    decreases ms.len(),
{
    if ms.len() == 0 {
        Seq::empty()
    } else {
        ", "@ + quoted(ms[0]) + join_rest(ms.drop_first())
    }
}

/// The quoted members joined by a comma and a space.
pub open spec fn join_quoted(ms: Seq<Seq<char>>) -> Seq<char> {
    if ms.len() == 0 {
        Seq::empty()
    } else {
        quoted(ms[0]) + join_rest(ms.drop_first())
    }
}

/// One group line, without its newline.
pub open spec fn list_line(k: Seq<char>, ms: Seq<Seq<char>>) -> Seq<char> {
    key_text(k) + " = ["@ + join_quoted(ms) + "]"@
}

/// The lines of the group section, each ending in a newline.
pub open spec fn ser_group_section(entries: Seq<(Seq<char>, Seq<Seq<char>>)>) -> Seq<char>
    decreases entries.len(),
{
    if entries.len() == 0 {
        Seq::empty()
    } else {
        list_line(entries[0].0, entries[0].1) + seq!['\n'] + ser_group_section(
            entries.drop_first(),
        )
    }
}

/// The whole persisted text of a catalogue.
pub open spec fn ser_doc_spec(m: DocModel) -> Seq<char> {
    "[aliases]\n"@ + ser_map_section(m.aliases) + "[links]\n"@ + ser_map_section(m.links)
        + "[groups]\n"@ + ser_group_section(m.groups)
}

/// Is `c` allowed in a bare key?
fn char_is_bare(c: char) -> (r: bool)
    ensures
        r == is_bare_char(c),
{
    let u = c as u32;
    (97 <= u && u <= 122) || (65 <= u && u <= 90) || (48 <= u && u <= 57) || c == '-' || c
        == '_'
}

/// Can `s` be written as a bare key?
fn str_is_bare_key(s: &str) -> (r: bool)
    ensures
        r == bare_key(s@),
{
    let n = s.unicode_len();
    if n == 0 {
        return false;
    }
    let mut i: usize = 0;
    while i < n
        invariant
            0 <= i <= n,
            n == s@.len(),
            forall|j: int| 0 <= j < i ==> is_bare_char(s@[j]),
        decreases n - i,
    {
        if !char_is_bare(s.get_char(i)) {
            return false;
        }
        i = i + 1;
    }
    true
}

/// Append the escaped body of `s`.
#[verifier::loop_isolation(false)]
fn append_escaped(out: &mut String, s: &str)
    ensures
        final(out)@ == old(out)@ + escape_text(s@),
{
    let n = s.unicode_len();
    proof {
        assert(s@.subrange(0, n as int) =~= s@);
        assert(old(out)@ + Seq::<char>::empty() =~= old(out)@);
    }
    let mut i: usize = 0;
    while i < n
        invariant
            0 <= i <= n,
            out@ + escape_text(s@.subrange(i as int, n as int)) == old(out)@ + escape_text(s@),
        decreases n - i,
    {
        let ghost pre = out@;
        let ghost rest = s@.subrange(i as int, n as int);
        let c = s.get_char(i);
        if c == '\\' {
            out.append("\\\\");
            proof {
                reveal_strlit("\\\\");
                assert(out@ =~= pre + esc_char(s@[i as int]));
            }
        } else if c == '"' {
            out.append("\\\"");
            proof {
                reveal_strlit("\\\"");
                assert(out@ =~= pre + esc_char(s@[i as int]));
            }
        } else if c == '\n' {
            out.append("\\n");
            proof {
                reveal_strlit("\\n");
                assert(out@ =~= pre + esc_char(s@[i as int]));
            }
        } else {
            out.append(s.substring_char(i, i + 1));
            proof {
                assert(s@.subrange(i as int, i + 1) =~= seq![s@[i as int]]);
                assert(out@ =~= pre + esc_char(s@[i as int]));
            }
        }
        proof {
            assert(rest[0] == s@[i as int]);
            assert(rest.drop_first() =~= s@.subrange(i + 1, n as int));
            assert(out@ + escape_text(s@.subrange(i + 1, n as int)) =~= pre + escape_text(
                rest,
            ));
        }
        i = i + 1;
    }
    proof {
        assert(s@.subrange(n as int, n as int) =~= Seq::<char>::empty());
        assert(out@ + Seq::<char>::empty() =~= out@);
    }
}

/// Append a quoted, escaped string.
fn append_quoted(out: &mut String, s: &str)
    ensures
        final(out)@ == old(out)@ + quoted(s@),
{
    out.append("\"");
    append_escaped(out, s);
    out.append("\"");
    proof {
        reveal_strlit("\"");
        assert(out@ =~= old(out)@ + quoted(s@));
    }
}

/// Append a key: bare when it can be, quoted otherwise.
fn append_key(out: &mut String, k: &str)
    ensures
        final(out)@ == old(out)@ + key_text(k@),
{
    if str_is_bare_key(k) {
        out.append(k);
    } else {
        append_quoted(out, k);
    }
}

#[verifier::loop_isolation(false)]
fn append_map_section(out: &mut String, map: &NameMap)
    ensures
        final(out)@ == old(out)@ + ser_map_section(map@),
{
    let items = map.items();
    let n = items.len();
    proof {
        assert(map@.subrange(0, n as int) =~= map@);
    }
    let mut i: usize = 0;
    while i < n
        invariant
            0 <= i <= n,
            out@ + ser_map_section(map@.subrange(i as int, n as int)) == old(out)@
                + ser_map_section(map@),
        decreases n - i,
    {
        let ghost pre = out@;
        let ghost rest = map@.subrange(i as int, n as int);
        let e = &items[i];
        append_key(out, e.0.as_str());
        out.append(" = ");
        append_quoted(out, e.1.as_str());
        out.append("\n");
        proof {
            reveal_strlit("\n");
            assert(rest[0] == map@[i as int]);
            assert(rest.drop_first() =~= map@.subrange(i + 1, n as int));
            assert(out@ =~= pre + (kv_line(rest[0].0, rest[0].1) + seq!['\n']));
            assert(out@ + ser_map_section(map@.subrange(i + 1, n as int)) =~= pre
                + ser_map_section(rest));
        }
        i = i + 1;
    }
    proof {
        assert(map@.subrange(n as int, n as int) =~= Seq::<(Seq<char>, Seq<char>)>::empty());
        assert(out@ + Seq::<char>::empty() =~= out@);
    }
}

#[verifier::loop_isolation(false)]
fn append_group_section(out: &mut String, map: &ListMap)
    ensures
        final(out)@ == old(out)@ + ser_group_section(map@),
{
    let items = map.items();
    let n = items.len();
    proof {
        assert(map@.subrange(0, n as int) =~= map@);
    }
    let mut i: usize = 0;
    while i < n
        invariant
            0 <= i <= n,
            out@ + ser_group_section(map@.subrange(i as int, n as int)) == old(out)@
                + ser_group_section(map@),
        decreases n - i,
    {
        let ghost pre = out@;
        let ghost rest = map@.subrange(i as int, n as int);
        let ghost gk = map@[i as int].0;
        let ghost ms = map@[i as int].1;
        let e = &items[i];
        append_key(out, e.0.as_str());
        out.append(" = [");
        let m = e.1.len();
        let mut j: usize = 0;
        while j < m
            invariant
                0 <= j <= m,
                0 <= i < n,
                m == ms.len(),
                e == &items@[i as int],
                j == 0 ==> out@ == pre + key_text(gk) + " = ["@,
                j > 0 ==> out@ + join_rest(ms.subrange(j as int, m as int)) == pre
                    + key_text(gk) + " = ["@ + join_quoted(ms),
            decreases m - j,
        {
            let ghost jpre = out@;
            if j == 0 {
                append_quoted(out, e.1[0].as_str());
                proof {
                    assert(ms.drop_first() =~= ms.subrange(1, m as int));
                    assert(out@ =~= pre + key_text(gk) + " = ["@ + quoted(ms[0]));
                    assert(out@ + join_rest(ms.subrange(1, m as int)) =~= pre + key_text(gk)
                        + " = ["@ + join_quoted(ms));
                }
            } else {
                out.append(", ");
                append_quoted(out, e.1[j].as_str());
                proof {
                    let jrest = ms.subrange(j as int, m as int);
                    assert(jrest[0] == ms[j as int]);
                    assert(jrest.drop_first() =~= ms.subrange(j + 1, m as int));
                    assert(out@ =~= jpre + (", "@ + quoted(ms[j as int])));
                    assert(out@ + join_rest(ms.subrange(j + 1, m as int)) =~= jpre + join_rest(
                        jrest,
                    ));
                }
            }
            j = j + 1;
        }
        proof {
            if m == 0 {
                assert(join_quoted(ms) =~= Seq::<char>::empty());
                assert(out@ =~= pre + key_text(gk) + " = ["@ + join_quoted(ms));
            } else {
                assert(ms.subrange(m as int, m as int) =~= Seq::<Seq<char>>::empty());
                assert(out@ + Seq::<char>::empty() =~= out@);
                assert(out@ =~= pre + key_text(gk) + " = ["@ + join_quoted(ms));
            }
        }
        out.append("]");
        out.append("\n");
        proof {
            reveal_strlit("\n");
            assert(rest[0] == map@[i as int]);
            assert(rest.drop_first() =~= map@.subrange(i + 1, n as int));
            assert(out@ =~= pre + (list_line(gk, ms) + seq!['\n']));
            assert(out@ + ser_group_section(map@.subrange(i + 1, n as int)) =~= pre
                + ser_group_section(rest));
        }
        i = i + 1;
    }
    proof {
        assert(map@.subrange(n as int, n as int) =~= Seq::<
            (Seq<char>, Seq<Seq<char>>),
        >::empty());
        assert(out@ + Seq::<char>::empty() =~= out@);
    }
}

/// Serialize the catalogue to its persisted text form, replacing whatever
/// was stored: the whole catalogue is the unit of persistence.
pub fn serialize_document(config: &Config) -> (r: String)
    ensures
        r@ == ser_doc_spec(config@),
{
    let mut out = String::from_str("[aliases]\n");
    append_map_section(&mut out, &config.aliases);
    out.append("[links]\n");
    append_map_section(&mut out, &config.links);
    out.append("[groups]\n");
    append_group_section(&mut out, &config.groups);
    proof {
        assert(out@ =~= ser_doc_spec(config@));
    }
    out
}

} // verus!
