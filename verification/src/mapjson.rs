//! The `.map` file's serialized form: the tag map as JSON of the shape
//! `{"map":[["tag",["id",...]],...]}`, with a verified emitter, a verified
//! parser for the same grammar, and the round-trip proof between them.

use vstd::prelude::*;
use vstd::string::StringExecFns;
use crate::binio::push_char;
use crate::ids::{spec_hex_char, spec_hex_value, hex_char, hex_value};
use crate::tags::{spec_strs_view, spec_entries_view};

verus! {

/// How one character appears inside a JSON string: quote and backslash
/// escaped, control characters as a `\u00` escape, all else verbatim.
pub open spec fn spec_esc_char(c: char) -> Seq<char> {
    if c == '"' {
        seq!['\\', '"']
    } else if c == '\\' {
        seq!['\\', '\\']
    } else if (c as u32) < 32 {
        seq!['\\', 'u', '0', '0', spec_hex_char((c as u32) as int / 16), spec_hex_char((c as u32) as int % 16)]
    } else {
        seq![c]
    }
}

/// A string's characters, each escaped.
pub open spec fn spec_json_escape(s: Seq<char>) -> Seq<char>
    decreases s.len(),
{
    if s.len() == 0 {
        Seq::empty()
    } else {
        spec_esc_char(s[0]) + spec_json_escape(s.drop_first())
    }
}

/// A JSON string literal.
pub open spec fn spec_jstring(s: Seq<char>) -> Seq<char> {
    seq!['"'] + spec_json_escape(s) + seq!['"']
}

/// The comma-separated string literals of an id list, without brackets.
pub open spec fn spec_ids_json(ids: Seq<Seq<char>>) -> Seq<char>
    decreases ids.len(),
{
    if ids.len() == 0 {
        Seq::empty()
    } else if ids.len() == 1 {
        spec_jstring(ids[0])
    } else {
        spec_jstring(ids[0]) + seq![','] + spec_ids_json(ids.drop_first())
    }
}

/// One tag entry: `["tag",["id",...]]`.
pub open spec fn spec_pair_json(e: (Seq<char>, Seq<Seq<char>>)) -> Seq<char> {
    seq!['['] + spec_jstring(e.0) + seq![',', '['] + spec_ids_json(e.1) + seq![']', ']']
}

/// The comma-separated entries, without brackets.
pub open spec fn spec_pairs_json(entries: Seq<(Seq<char>, Seq<Seq<char>>)>) -> Seq<char>
    decreases entries.len(),
{
    if entries.len() == 0 {
        Seq::empty()
    } else if entries.len() == 1 {
        spec_pair_json(entries[0])
    } else {
        spec_pair_json(entries[0]) + seq![','] + spec_pairs_json(entries.drop_first())
    }
}

/// The whole `.map` file text for a set of entries.
pub open spec fn spec_map_json(entries: Seq<(Seq<char>, Seq<Seq<char>>)>) -> Seq<char> {
    seq!['{', '"', 'm', 'a', 'p', '"', ':', '['] + spec_pairs_json(entries) + seq![']', '}']
}

/// Escaping one more character appends its escape.
proof fn lemma_escape_snoc(s: Seq<char>, c: char)
    ensures
        spec_json_escape(s.push(c)) == spec_json_escape(s) + spec_esc_char(c),
    decreases s.len(),
{
    if s.len() == 0 {
        assert(s.push(c)[0] == c);
        assert(s.push(c).drop_first() =~= Seq::<char>::empty());
        assert(spec_json_escape(s.push(c)) == spec_esc_char(c) + spec_json_escape(
            Seq::<char>::empty(),
        ));
        assert(spec_esc_char(c) + Seq::<char>::empty() =~= spec_esc_char(c));
        assert(spec_json_escape(s) + spec_esc_char(c) =~= spec_esc_char(c));
    } else {
        assert(s.push(c)[0] == s[0]);
        assert(s.push(c).drop_first() =~= s.drop_first().push(c));
        lemma_escape_snoc(s.drop_first(), c);
        assert(spec_esc_char(s[0]) + (spec_json_escape(s.drop_first()) + spec_esc_char(c))
            =~= (spec_esc_char(s[0]) + spec_json_escape(s.drop_first())) + spec_esc_char(c));
    }
}

/// Joining one more id appends a comma (if needed) and its literal.
proof fn lemma_ids_snoc(ids: Seq<Seq<char>>, x: Seq<char>)
    ensures
        ids.len() == 0 ==> spec_ids_json(ids.push(x)) == spec_jstring(x),
        ids.len() > 0 ==> spec_ids_json(ids.push(x)) == spec_ids_json(ids) + seq![',']
            + spec_jstring(x),
    decreases ids.len(),
{
    if ids.len() == 0 {
        assert(ids.push(x)[0] == x);
        assert(spec_ids_json(ids.push(x)) == spec_jstring(x));
    } else {
        assert(ids.push(x)[0] == ids[0]);
        assert(ids.push(x).drop_first() =~= ids.drop_first().push(x));
        lemma_ids_snoc(ids.drop_first(), x);
        if ids.len() == 1 {
            assert(spec_ids_json(ids.push(x)) == spec_jstring(ids[0]) + seq![','] + spec_jstring(
                x,
            ));
        } else {
            assert(spec_jstring(ids[0]) + seq![','] + (spec_ids_json(ids.drop_first()) + seq![',']
                + spec_jstring(x)) =~= (spec_jstring(ids[0]) + seq![','] + spec_ids_json(
                ids.drop_first(),
            )) + seq![','] + spec_jstring(x));
        }
    }
}

/// Joining one more entry appends a comma (if needed) and its pair.
proof fn lemma_pairs_snoc(entries: Seq<(Seq<char>, Seq<Seq<char>>)>, x: (Seq<char>, Seq<Seq<char>>))
    ensures
        entries.len() == 0 ==> spec_pairs_json(entries.push(x)) == spec_pair_json(x),
        entries.len() > 0 ==> spec_pairs_json(entries.push(x)) == spec_pairs_json(entries)
            + seq![','] + spec_pair_json(x),
    decreases entries.len(),
{
    if entries.len() == 0 {
        assert(entries.push(x)[0] == x);
        assert(spec_pairs_json(entries.push(x)) == spec_pair_json(x));
    } else {
        assert(entries.push(x)[0] == entries[0]);
        assert(entries.push(x).drop_first() =~= entries.drop_first().push(x));
        lemma_pairs_snoc(entries.drop_first(), x);
        if entries.len() == 1 {
            assert(spec_pairs_json(entries.push(x)) == spec_pair_json(entries[0]) + seq![',']
                + spec_pair_json(x));
        } else {
            assert(spec_pair_json(entries[0]) + seq![','] + (spec_pairs_json(entries.drop_first())
                + seq![','] + spec_pair_json(x)) =~= (spec_pair_json(entries[0]) + seq![',']
                + spec_pairs_json(entries.drop_first())) + seq![','] + spec_pair_json(x));
        }
    }
}

/// Appends the escaped characters of `s`.
fn emit_escaped(out: &mut String, s: &str)
    ensures
        final(out)@ == old(out)@ + spec_json_escape(s@),
{
    let n = s.unicode_len();
    let mut i: usize = 0;
    proof {
        assert(out@ + spec_json_escape(s@.subrange(0, 0)) =~= out@);
    }
    while i < n
        invariant
            0 <= i <= n,
            n == s@.len(),
            out@ == old(out)@ + spec_json_escape(s@.subrange(0, i as int)),
        decreases n - i,
    {
        let ghost pre = s@.subrange(0, i as int);
        let c = s.get_char(i);
        let cu = c as u32;
        if c == '"' {
            push_char(out, '\\');
            push_char(out, '"');
        } else if c == '\\' {
            push_char(out, '\\');
            push_char(out, '\\');
        } else if cu < 32 {
            push_char(out, '\\');
            push_char(out, 'u');
            push_char(out, '0');
            push_char(out, '0');
            push_char(out, hex_char((cu / 16) as u8));
            push_char(out, hex_char((cu % 16) as u8));
        } else {
            push_char(out, c);
        }
        proof {
            assert(s@.subrange(0, i + 1) =~= pre.push(c));
            lemma_escape_snoc(pre, c);
            assert(out@ =~= old(out)@ + spec_json_escape(s@.subrange(0, i + 1)));
        }
        i = i + 1;
    }
    proof {
        assert(s@.subrange(0, n as int) =~= s@);
    }
}

/// Appends a JSON string literal for `s`.
fn emit_jstring(out: &mut String, s: &str)
    ensures
        final(out)@ == old(out)@ + spec_jstring(s@),
{
    push_char(out, '"');
    emit_escaped(out, s);
    push_char(out, '"');
    proof {
        assert(out@ =~= old(out)@ + spec_jstring(s@));
    }
}

/// Appends the comma-separated id literals.
fn emit_ids(out: &mut String, ids: &Vec<String>)
    ensures
        final(out)@ == old(out)@ + spec_ids_json(spec_strs_view(ids@)),
{
    let n = ids.len();
    let mut i: usize = 0;
    proof {
        assert(spec_strs_view(ids@).subrange(0, 0) =~= Seq::<Seq<char>>::empty());
        assert(out@ + spec_ids_json(spec_strs_view(ids@).subrange(0, 0)) =~= out@);
    }
    while i < n
        invariant
            0 <= i <= n,
            n == ids@.len(),
            out@ == old(out)@ + spec_ids_json(spec_strs_view(ids@).subrange(0, i as int)),
        decreases n - i,
    {
        let ghost pre = spec_strs_view(ids@).subrange(0, i as int);
        if i > 0 {
            push_char(out, ',');
        }
        emit_jstring(out, ids[i].as_str());
        proof {
            assert(spec_strs_view(ids@).subrange(0, i + 1) =~= pre.push(spec_strs_view(ids@)[
                i as int
            ]));
            lemma_ids_snoc(pre, spec_strs_view(ids@)[i as int]);
            assert(out@ =~= old(out)@ + spec_ids_json(spec_strs_view(ids@).subrange(0, i + 1)));
        }
        i = i + 1;
    }
    proof {
        assert(spec_strs_view(ids@).subrange(0, n as int) =~= spec_strs_view(ids@));
    }
}

/// Appends one `["tag",["id",...]]` pair.
fn emit_pair(out: &mut String, tag: &str, ids: &Vec<String>)
    ensures
        final(out)@ == old(out)@ + spec_pair_json((tag@, spec_strs_view(ids@))),
{
    push_char(out, '[');
    emit_jstring(out, tag);
    push_char(out, ',');
    push_char(out, '[');
    emit_ids(out, ids);
    push_char(out, ']');
    push_char(out, ']');
    proof {
        assert(out@ =~= old(out)@ + spec_pair_json((tag@, spec_strs_view(ids@))));
    }
}

/// The whole `.map` text for the entries.
pub fn emit_map_json(entries: &Vec<(String, Vec<String>)>) -> (r: String)
    ensures
        r@ == spec_map_json(spec_entries_view(entries@)),
{
    let mut out = String::new();
    push_char(&mut out, '{');
    push_char(&mut out, '"');
    push_char(&mut out, 'm');
    push_char(&mut out, 'a');
    push_char(&mut out, 'p');
    push_char(&mut out, '"');
    push_char(&mut out, ':');
    push_char(&mut out, '[');
    let ghost header = out@;
    let n = entries.len();
    let mut i: usize = 0;
    proof {
        assert(header =~= seq!['{', '"', 'm', 'a', 'p', '"', ':', '[']);
        assert(out@ + spec_pairs_json(spec_entries_view(entries@).subrange(0, 0)) =~= out@);
    }
    while i < n
        invariant
            0 <= i <= n,
            n == entries@.len(),
            out@ == header + spec_pairs_json(spec_entries_view(entries@).subrange(0, i as int)),
            header == seq!['{', '"', 'm', 'a', 'p', '"', ':', '['],
        decreases n - i,
    {
        let ghost pre = spec_entries_view(entries@).subrange(0, i as int);
        if i > 0 {
            push_char(&mut out, ',');
        }
        emit_pair(&mut out, entries[i].0.as_str(), &entries[i].1);
        proof {
            assert(spec_entries_view(entries@).subrange(0, i + 1) =~= pre.push(spec_entries_view(
                entries@,
            )[i as int]));
            lemma_pairs_snoc(pre, spec_entries_view(entries@)[i as int]);
            assert(out@ =~= header + spec_pairs_json(
                spec_entries_view(entries@).subrange(0, i + 1),
            ));
        }
        i = i + 1;
    }
    push_char(&mut out, ']');
    push_char(&mut out, '}');
    proof {
        assert(spec_entries_view(entries@).subrange(0, n as int) =~= spec_entries_view(entries@));
        assert(out@ =~= spec_map_json(spec_entries_view(entries@)));
    }
    out
}

/// Parses one JSON string's interior, starting right after the opening
/// quote: the decoded characters and the remainder after the closing
/// quote.
pub open spec fn sp_string_body(s: Seq<char>) -> Option<(Seq<char>, Seq<char>)>
    decreases s.len(),
{
    if s.len() == 0 {
        None
    } else if s[0] == '"' {
        Some((Seq::empty(), s.drop_first()))
    } else if s[0] == '\\' {
        if s.len() < 2 {
            None
        } else {
            let e = s[1];
            if e == '"' || e == '\\' || e == '/' {
                sp_cons(e, sp_string_body(s.skip(2)))
            } else if e == 'n' {
                sp_cons('\n', sp_string_body(s.skip(2)))
            } else if e == 't' {
                sp_cons('\t', sp_string_body(s.skip(2)))
            } else if e == 'r' {
                sp_cons('\r', sp_string_body(s.skip(2)))
            } else if e == 'b' {
                sp_cons(8u8 as char, sp_string_body(s.skip(2)))
            } else if e == 'f' {
                sp_cons(12u8 as char, sp_string_body(s.skip(2)))
            } else if e == 'u' {
                if s.len() < 6 {
                    None
                } else {
                    let v = spec_hex_value(s[2]) * 4096 + spec_hex_value(s[3]) * 256
                        + spec_hex_value(s[4]) * 16 + spec_hex_value(s[5]);
                    if spec_hex_value(s[2]) < 0 || spec_hex_value(s[3]) < 0 || spec_hex_value(s[4])
                        < 0 || spec_hex_value(s[5]) < 0 || v >= 128 {
                        None
                    } else {
                        sp_cons((v as u8) as char, sp_string_body(s.skip(6)))
                    }
                }
            } else {
                None
            }
        }
    } else if (s[0] as u32) < 32 {
        None
    } else {
        sp_cons(s[0], sp_string_body(s.drop_first()))
    }
}

/// Prefixes a parsed character to a parse's result.
pub open spec fn sp_cons(c: char, r: Option<(Seq<char>, Seq<char>)>) -> Option<
    (Seq<char>, Seq<char>),
> {
    match r {
        None => None,
        Some((t, rest)) => Some((seq![c] + t, rest)),
    }
}

/// A successful string parse consumes at least one character.
pub proof fn lemma_sp_string_body_len(s: Seq<char>)
    ensures
        sp_string_body(s) matches Some((t, rest)) ==> rest.len() < s.len(),
    decreases s.len(),
{
    if s.len() == 0 {
    } else if s[0] == '"' {
    } else if s[0] == '\\' {
        if s.len() >= 2 {
            lemma_sp_string_body_len(s.skip(2));
            if s.len() >= 6 {
                lemma_sp_string_body_len(s.skip(6));
            }
        }
    } else {
        lemma_sp_string_body_len(s.drop_first());
    }
}

/// Parses a bracketed id list from after its `[`: the ids and the
/// remainder after the closing `]`. `first` is true before any element.
pub open spec fn sp_ids(s: Seq<char>, first: bool) -> Option<(Seq<Seq<char>>, Seq<char>)>
    decreases s.len(),
{
    if s.len() == 0 {
        None
    } else if first && s[0] == ']' {
        Some((Seq::empty(), s.drop_first()))
    } else if s[0] == '"' {
        match sp_string_body(s.drop_first()) {
            None => None,
            Some((t, r)) => {
                proof {
                    lemma_sp_string_body_len(s.drop_first());
                }
                if r.len() == 0 {
                    None
                } else if r[0] == ']' {
                    Some((seq![t], r.drop_first()))
                } else if r[0] == ',' {
                    match sp_ids(r.drop_first(), false) {
                        None => None,
                        Some((rest, r2)) => Some((seq![t] + rest, r2)),
                    }
                } else {
                    None
                }
            },
        }
    } else {
        None
    }
}

/// A successful id-list parse consumes at least one character.
pub proof fn lemma_sp_ids_len(s: Seq<char>, first: bool)
    ensures
        sp_ids(s, first) matches Some((v, rest)) ==> rest.len() < s.len(),
    decreases s.len(),
{
    if s.len() == 0 {
    } else if first && s[0] == ']' {
    } else if s[0] == '"' {
        lemma_sp_string_body_len(s.drop_first());
        if sp_string_body(s.drop_first()) is Some {
            let r = sp_string_body(s.drop_first())->Some_0.1;
            if r.len() > 0 && r[0] == ',' {
                lemma_sp_ids_len(r.drop_first(), false);
            }
        }
    }
}

/// Parses one `["tag",["id",...]]` pair from its `[`: the entry and the
/// remainder after its closing `]`.
pub open spec fn sp_pair(s: Seq<char>) -> Option<((Seq<char>, Seq<Seq<char>>), Seq<char>)> {
    if s.len() < 2 || s[0] != '[' || s[1] != '"' {
        None
    } else {
        match sp_string_body(s.skip(2)) {
            None => None,
            Some((tag, r)) => {
                if r.len() < 2 || r[0] != ',' || r[1] != '[' {
                    None
                } else {
                    match sp_ids(r.skip(2), true) {
                        None => None,
                        Some((ids, r2)) => {
                            if r2.len() == 0 || r2[0] != ']' {
                                None
                            } else {
                                Some(((tag, ids), r2.drop_first()))
                            }
                        },
                    }
                }
            },
        }
    }
}

/// A successful pair parse consumes at least one character.
pub proof fn lemma_sp_pair_len(s: Seq<char>)
    ensures
        sp_pair(s) matches Some((e, rest)) ==> rest.len() < s.len(),
{
    if s.len() >= 2 && s[0] == '[' && s[1] == '"' {
        lemma_sp_string_body_len(s.skip(2));
        if sp_string_body(s.skip(2)) is Some {
            let r = sp_string_body(s.skip(2))->Some_0.1;
            if r.len() >= 2 && r[0] == ',' && r[1] == '[' {
                lemma_sp_ids_len(r.skip(2), true);
            }
        }
    }
}

/// Parses the entry list from after the opening `[`: the entries and the
/// remainder after the closing `]`.
pub open spec fn sp_pairs(s: Seq<char>, first: bool) -> Option<
    (Seq<(Seq<char>, Seq<Seq<char>>)>, Seq<char>),
>
    decreases s.len(),
{
    if s.len() == 0 {
        None
    } else if first && s[0] == ']' {
        Some((Seq::empty(), s.drop_first()))
    } else {
        match sp_pair(s) {
            None => None,
            Some((e, r)) => {
                proof {
                    lemma_sp_pair_len(s);
                }
                if r.len() == 0 {
                    None
                } else if r[0] == ']' {
                    Some((seq![e], r.drop_first()))
                } else if r[0] == ',' {
                    match sp_pairs(r.drop_first(), false) {
                        None => None,
                        Some((rest, r2)) => Some((seq![e] + rest, r2)),
                    }
                } else {
                    None
                }
            },
        }
    }
}

/// Parses a whole `.map` text; `Some` exactly on the serialized shape.
pub open spec fn spec_parse_map(s: Seq<char>) -> Option<Seq<(Seq<char>, Seq<Seq<char>>)>> {
    if s.len() < 8 || s.subrange(0, 8) != seq!['{', '"', 'm', 'a', 'p', '"', ':', '['] {
        None
    } else {
        match sp_pairs(s.skip(8), true) {
            None => None,
            Some((entries, r)) => {
                if r =~= seq!['}'] {
                    Some(entries)
                } else {
                    None
                }
            },
        }
    }
}

/// A string with one character put in front.
fn prepend_char(c: char, t: String) -> (r: String)
    ensures
        r@ == seq![c] + t@,
{
    let mut head = String::new();
    push_char(&mut head, c);
    let r = head.concat(t.as_str());
    proof {
        assert(r@ =~= seq![c] + t@);
    }
    r
}

/// Runs the string-interior grammar from `pos`.
fn parse_string_body(s: &str, pos: usize) -> (r: Option<(String, usize)>)
    requires
        pos <= s@.len(),
    ensures
        r matches Some((t, p2)) ==> pos < p2 <= s@.len() && sp_string_body(s@.skip(pos as int))
            == Some((t@, s@.skip(p2 as int))),
        r is None ==> sp_string_body(s@.skip(pos as int)) is None,
    decreases s@.len() - pos,
{
    let n = s.unicode_len();
    let ghost rem = s@.skip(pos as int);
    if pos >= n {
        return None;
    }
    let c = s.get_char(pos);
    proof {
        assert(rem[0] == s@[pos as int]);
    }
    if c == '"' {
        let empty_out = String::new();
        proof {
            assert(rem.drop_first() =~= s@.skip(pos + 1));
        }
        return Some((empty_out, pos + 1));
    }
    if c == '\\' {
        if n - pos < 2 {
            return None;
        }
        let e = s.get_char(pos + 1);
        proof {
            assert(rem[1] == s@[pos + 1]);
        }
        if e == 'u' {
            if n - pos < 6 {
                return None;
            }
            let h0 = hex_value(s.get_char(pos + 2));
            let h1 = hex_value(s.get_char(pos + 3));
            let h2 = hex_value(s.get_char(pos + 4));
            let h3 = hex_value(s.get_char(pos + 5));
            proof {
                assert(rem[2] == s@[pos + 2]);
                assert(rem[3] == s@[pos + 3]);
                assert(rem[4] == s@[pos + 4]);
                assert(rem[5] == s@[pos + 5]);
            }
            if h0 < 0 || h1 < 0 || h2 < 0 || h3 < 0 {
                return None;
            }
            let v: i32 = h0 * 4096 + h1 * 256 + h2 * 16 + h3;
            if v >= 128 {
                return None;
            }
            let ch = (v as u8) as char;
            proof {
                assert(rem.skip(6) =~= s@.skip(pos + 6));
            }
            match parse_string_body(s, pos + 6) {
                None => None,
                Some((t, p2)) => {
                    let out = prepend_char(ch, t);
                    Some((out, p2))
                },
            }
        } else {
            let ch: char = if e == '"' {
                '"'
            } else if e == '\\' {
                '\\'
            } else if e == '/' {
                '/'
            } else if e == 'n' {
                '\n'
            } else if e == 't' {
                '\t'
            } else if e == 'r' {
                '\r'
            } else if e == 'b' {
                8u8 as char
            } else if e == 'f' {
                12u8 as char
            } else {
                return None;
            };
            proof {
                assert(rem.skip(2) =~= s@.skip(pos + 2));
            }
            match parse_string_body(s, pos + 2) {
                None => None,
                Some((t, p2)) => {
                    let out = prepend_char(ch, t);
                    Some((out, p2))
                },
            }
        }
    } else if (c as u32) < 32 {
        None
    } else {
        proof {
            assert(rem.drop_first() =~= s@.skip(pos + 1));
        }
        match parse_string_body(s, pos + 1) {
            None => None,
            Some((t, p2)) => {
                let out = prepend_char(c, t);
                Some((out, p2))
            },
        }
    }
}

/// Runs the id-list grammar from `pos`.
fn parse_ids(s: &str, pos: usize, first: bool) -> (r: Option<(Vec<String>, usize)>)
    requires
        pos <= s@.len(),
    ensures
        r matches Some((v, p2)) ==> pos < p2 <= s@.len() && sp_ids(s@.skip(pos as int), first)
            == Some((spec_strs_view(v@), s@.skip(p2 as int))),
        r is None ==> sp_ids(s@.skip(pos as int), first) is None,
    decreases s@.len() - pos,
{
    let n = s.unicode_len();
    let ghost rem = s@.skip(pos as int);
    if pos >= n {
        return None;
    }
    let c = s.get_char(pos);
    proof {
        assert(rem[0] == s@[pos as int]);
    }
    if first && c == ']' {
        let out: Vec<String> = Vec::new();
        proof {
            assert(rem.drop_first() =~= s@.skip(pos + 1));
            assert(spec_strs_view(out@) =~= Seq::<Seq<char>>::empty());
        }
        return Some((out, pos + 1));
    }
    if c != '"' {
        return None;
    }
    proof {
        assert(rem.drop_first() =~= s@.skip(pos + 1));
    }
    match parse_string_body(s, pos + 1) {
        None => None,
        Some((t, p2)) => {
            let ghost r_spec = s@.skip(p2 as int);
            if p2 >= n {
                return None;
            }
            let c2 = s.get_char(p2);
            proof {
                assert(r_spec[0] == s@[p2 as int]);
            }
            if c2 == ']' {
                let mut out: Vec<String> = Vec::new();
                out.push(t);
                proof {
                    assert(r_spec.drop_first() =~= s@.skip(p2 + 1));
                    assert(spec_strs_view(out@) =~= seq![out@[0]@]);
                }
                Some((out, p2 + 1))
            } else if c2 == ',' {
                proof {
                    assert(r_spec.drop_first() =~= s@.skip(p2 + 1));
                }
                match parse_ids(s, p2 + 1, false) {
                    None => None,
                    Some((mut v, p3)) => {
                        let ghost v0 = spec_strs_view(v@);
                        v.insert(0, t);
                        proof {
                            assert(spec_strs_view(v@) =~= seq![v@[0]@] + v0);
                        }
                        Some((v, p3))
                    },
                }
            } else {
                None
            }
        },
    }
}

/// Runs the pair grammar from `pos`.
fn parse_pair(s: &str, pos: usize) -> (r: Option<((String, Vec<String>), usize)>)
    requires
        pos <= s@.len(),
    ensures
        r matches Some((e, p2)) ==> pos < p2 <= s@.len() && sp_pair(s@.skip(pos as int)) == Some(
            ((e.0@, spec_strs_view(e.1@)), s@.skip(p2 as int)),
        ),
        r is None ==> sp_pair(s@.skip(pos as int)) is None,
{
    let n = s.unicode_len();
    let ghost rem = s@.skip(pos as int);
    if n - pos < 2 {
        return None;
    }
    proof {
        assert(rem[0] == s@[pos as int]);
        assert(rem[1] == s@[pos + 1]);
    }
    if s.get_char(pos) != '[' || s.get_char(pos + 1) != '"' {
        return None;
    }
    proof {
        assert(rem.skip(2) =~= s@.skip(pos + 2));
    }
    match parse_string_body(s, pos + 2) {
        None => None,
        Some((tag, p2)) => {
            let ghost r_spec = s@.skip(p2 as int);
            if n - p2 < 2 {
                return None;
            }
            proof {
                assert(r_spec[0] == s@[p2 as int]);
                assert(r_spec[1] == s@[p2 + 1]);
            }
            if s.get_char(p2) != ',' || s.get_char(p2 + 1) != '[' {
                return None;
            }
            proof {
                assert(r_spec.skip(2) =~= s@.skip(p2 + 2));
            }
            match parse_ids(s, p2 + 2, true) {
                None => None,
                Some((ids, p3)) => {
                    let ghost r2_spec = s@.skip(p3 as int);
                    if p3 >= n {
                        return None;
                    }
                    proof {
                        assert(r2_spec[0] == s@[p3 as int]);
                    }
                    if s.get_char(p3) != ']' {
                        return None;
                    }
                    proof {
                        assert(r2_spec.drop_first() =~= s@.skip(p3 + 1));
                    }
                    Some(((tag, ids), p3 + 1))
                },
            }
        },
    }
}

/// Runs the entry-list grammar from `pos`.
fn parse_pairs(s: &str, pos: usize, first: bool) -> (r: Option<
    (Vec<(String, Vec<String>)>, usize),
>)
    requires
        pos <= s@.len(),
    ensures
        r matches Some((v, p2)) ==> pos < p2 <= s@.len() && sp_pairs(s@.skip(pos as int), first)
            == Some((spec_entries_view(v@), s@.skip(p2 as int))),
        r is None ==> sp_pairs(s@.skip(pos as int), first) is None,
    decreases s@.len() - pos,
{
    let n = s.unicode_len();
    let ghost rem = s@.skip(pos as int);
    if pos >= n {
        return None;
    }
    proof {
        assert(rem[0] == s@[pos as int]);
    }
    if first && s.get_char(pos) == ']' {
        let out: Vec<(String, Vec<String>)> = Vec::new();
        proof {
            assert(rem.drop_first() =~= s@.skip(pos + 1));
            assert(spec_entries_view(out@) =~= Seq::<(Seq<char>, Seq<Seq<char>>)>::empty());
        }
        return Some((out, pos + 1));
    }
    match parse_pair(s, pos) {
        None => None,
        Some((e, p2)) => {
            let ghost r_spec = s@.skip(p2 as int);
            if p2 >= n {
                return None;
            }
            let c2 = s.get_char(p2);
            proof {
                assert(r_spec[0] == s@[p2 as int]);
            }
            if c2 == ']' {
                let mut out: Vec<(String, Vec<String>)> = Vec::new();
                out.push(e);
                proof {
                    assert(r_spec.drop_first() =~= s@.skip(p2 + 1));
                    assert(spec_entries_view(out@) =~= seq![
                        (out@[0].0@, spec_strs_view(out@[0].1@)),
                    ]);
                }
                Some((out, p2 + 1))
            } else if c2 == ',' {
                proof {
                    assert(r_spec.drop_first() =~= s@.skip(p2 + 1));
                }
                match parse_pairs(s, p2 + 1, false) {
                    None => None,
                    Some((mut v, p3)) => {
                        let ghost v0 = spec_entries_view(v@);
                        v.insert(0, e);
                        proof {
                            assert(spec_entries_view(v@) =~= seq![
                                (v@[0].0@, spec_strs_view(v@[0].1@)),
                            ] + v0);
                        }
                        Some((v, p3))
                    },
                }
            } else {
                None
            }
        },
    }
}

/// Parses a whole `.map` text into entries; succeeds exactly when the
/// text has the serialized shape.
pub fn parse_map_json(s: &str) -> (r: Option<Vec<(String, Vec<String>)>>)
    ensures
        r matches Some(v) ==> spec_parse_map(s@) == Some(spec_entries_view(v@)),
        r is Some <==> spec_parse_map(s@) is Some,
{
    let n = s.unicode_len();
    if n < 8 {
        return None;
    }
    if s.get_char(0) != '{' || s.get_char(1) != '"' || s.get_char(2) != 'm' || s.get_char(3) != 'a'
        || s.get_char(4) != 'p' || s.get_char(5) != '"' || s.get_char(6) != ':' || s.get_char(7)
        != '[' {
        proof {
            assert(s@.subrange(0, 8) != seq!['{', '"', 'm', 'a', 'p', '"', ':', '[']) by {
                let lit = seq!['{', '"', 'm', 'a', 'p', '"', ':', '['];
                if s@.subrange(0, 8) == lit {
                    assert(s@[0] == lit[0]);
                    assert(s@[1] == lit[1]);
                    assert(s@[2] == lit[2]);
                    assert(s@[3] == lit[3]);
                    assert(s@[4] == lit[4]);
                    assert(s@[5] == lit[5]);
                    assert(s@[6] == lit[6]);
                    assert(s@[7] == lit[7]);
                }
            }
        }
        return None;
    }
    proof {
        assert(s@.subrange(0, 8) =~= seq!['{', '"', 'm', 'a', 'p', '"', ':', '[']);
    }
    match parse_pairs(s, 8, true) {
        None => None,
        Some((v, p)) => {
            let ghost r_spec = s@.skip(p as int);
            if p < n && n - p == 1 && s.get_char(p) == '}' {
                proof {
                    assert(r_spec[0] == s@[p as int]);
                    assert(r_spec =~= seq!['}']);
                }
                Some(v)
            } else {
                proof {
                    if r_spec =~= seq!['}'] {
                        assert(r_spec.len() == 1);
                        assert(r_spec[0] == '}');
                        assert(s@[p as int] == '}');
                    }
                }
                None
            }
        },
    }
}

/// Escaped text followed by a closing quote parses back to the text.
proof fn lemma_escape_round(t: Seq<char>, rest: Seq<char>)
    ensures
        sp_string_body(spec_json_escape(t) + seq!['"'] + rest) == Some((t, rest)),
    decreases t.len(),
{
    let s = spec_json_escape(t) + seq!['"'] + rest;
    if t.len() == 0 {
        assert(s =~= seq!['"'] + rest);
        assert(s[0] == '"');
        assert(s.drop_first() =~= rest);
    } else {
        let c = t[0];
        let t2 = t.drop_first();
        let tail = spec_json_escape(t2) + seq!['"'] + rest;
        assert(spec_json_escape(t) == spec_esc_char(c) + spec_json_escape(t2));
        assert(s =~= spec_esc_char(c) + tail);
        lemma_escape_round(t2, rest);
        let cu = c as u32;
        if c == '"' {
            assert(s[0] == '\\');
            assert(s[1] == '"');
            assert(s.skip(2) =~= tail);
            assert(sp_string_body(s) == sp_cons('"', Some((t2, rest))));
            assert(seq!['"'] + t2 =~= t);
        } else if c == '\\' {
            assert(s[0] == '\\');
            assert(s[1] == '\\');
            assert(s.skip(2) =~= tail);
            assert(seq!['\\'] + t2 =~= t);
        } else if cu < 32 {
            assert(s[0] == '\\');
            assert(s[1] == 'u');
            assert(s[2] == '0');
            assert(s[3] == '0');
            assert(s[4] == spec_hex_char(cu as int / 16));
            assert(s[5] == spec_hex_char(cu as int % 16));
            assert(spec_hex_value(s[2]) == 0);
            assert(spec_hex_value(s[3]) == 0);
            assert(spec_hex_value(s[4]) == cu as int / 16);
            assert(spec_hex_value(s[5]) == cu as int % 16);
            let v = spec_hex_value(s[2]) * 4096 + spec_hex_value(s[3]) * 256 + spec_hex_value(s[4])
                * 16 + spec_hex_value(s[5]);
            assert(v == cu);
            assert(s.skip(6) =~= tail);
            vstd::utf8::char_u32_cast(c, cu);
            assert((v as u8) as char == c);
            assert(seq![c] + t2 =~= t);
        } else {
            assert(s[0] == c);
            assert(s.drop_first() =~= tail);
            assert(seq![c] + t2 =~= t);
        }
    }
}

/// A serialized id list followed by its closing bracket parses back.
proof fn lemma_ids_round(ids: Seq<Seq<char>>, rest: Seq<char>, first: bool)
    requires
        first || ids.len() >= 1,
    ensures
        sp_ids(spec_ids_json(ids) + seq![']'] + rest, first) == Some((ids, rest)),
    decreases ids.len(),
{
    let s = spec_ids_json(ids) + seq![']'] + rest;
    if ids.len() == 0 {
        assert(s =~= seq![']'] + rest);
        assert(s[0] == ']');
        assert(s.drop_first() =~= rest);
        assert(ids =~= Seq::<Seq<char>>::empty());
    } else {
        let x = ids[0];
        let tail_ids = ids.drop_first();
        let joined = if ids.len() == 1 {
            Seq::<char>::empty()
        } else {
            seq![','] + spec_ids_json(tail_ids)
        };
        assert(spec_ids_json(ids) =~= spec_jstring(x) + joined);
        assert(s =~= seq!['"'] + (spec_json_escape(x) + seq!['"'] + (joined + seq![']'] + rest)));
        assert(s[0] == '"');
        assert(s.drop_first() =~= spec_json_escape(x) + seq!['"'] + (joined + seq![']'] + rest));
        lemma_escape_round(x, joined + seq![']'] + rest);
        let r = joined + seq![']'] + rest;
        if ids.len() == 1 {
            assert(r =~= seq![']'] + rest);
            assert(r[0] == ']');
            assert(r.drop_first() =~= rest);
            assert(seq![x] =~= ids);
        } else {
            assert(r[0] == ',');
            assert(r.drop_first() =~= spec_ids_json(tail_ids) + seq![']'] + rest);
            lemma_ids_round(tail_ids, rest, false);
            assert(seq![x] + tail_ids =~= ids);
        }
    }
}

/// A serialized pair parses back.
proof fn lemma_pair_round(e: (Seq<char>, Seq<Seq<char>>), rest: Seq<char>)
    ensures
        sp_pair(spec_pair_json(e) + rest) == Some((e, rest)),
{
    let s = spec_pair_json(e) + rest;
    assert(s =~= seq!['[', '"'] + (spec_json_escape(e.0) + seq!['"'] + (seq![',', '['] + (
    spec_ids_json(e.1) + seq![']'] + (seq![']'] + rest)))));
    assert(s[0] == '[');
    assert(s[1] == '"');
    assert(s.skip(2) =~= spec_json_escape(e.0) + seq!['"'] + (seq![',', '['] + (spec_ids_json(e.1)
        + seq![']'] + (seq![']'] + rest))));
    lemma_escape_round(e.0, seq![',', '['] + (spec_ids_json(e.1) + seq![']'] + (seq![']'] + rest)));
    let r = seq![',', '['] + (spec_ids_json(e.1) + seq![']'] + (seq![']'] + rest));
    assert(r[0] == ',');
    assert(r[1] == '[');
    assert(r.skip(2) =~= spec_ids_json(e.1) + seq![']'] + (seq![']'] + rest));
    lemma_ids_round(e.1, seq![']'] + rest, true);
    let r2 = seq![']'] + rest;
    assert(r2[0] == ']');
    assert(r2.drop_first() =~= rest);
}

/// A serialized entry list followed by its closing bracket parses back.
proof fn lemma_pairs_round(entries: Seq<(Seq<char>, Seq<Seq<char>>)>, rest: Seq<char>, first: bool)
    requires
        first || entries.len() >= 1,
    ensures
        sp_pairs(spec_pairs_json(entries) + seq![']'] + rest, first) == Some((entries, rest)),
    decreases entries.len(),
{
    let s = spec_pairs_json(entries) + seq![']'] + rest;
    if entries.len() == 0 {
        assert(s =~= seq![']'] + rest);
        assert(s[0] == ']');
        assert(s.drop_first() =~= rest);
        assert(entries =~= Seq::<(Seq<char>, Seq<Seq<char>>)>::empty());
    } else {
        let e = entries[0];
        let tail_entries = entries.drop_first();
        let joined = if entries.len() == 1 {
            Seq::<char>::empty()
        } else {
            seq![','] + spec_pairs_json(tail_entries)
        };
        assert(spec_pairs_json(entries) =~= spec_pair_json(e) + joined);
        assert(s =~= spec_pair_json(e) + (joined + seq![']'] + rest));
        lemma_pair_round(e, joined + seq![']'] + rest);
        assert(s[0] == '[') by {
            assert(spec_pair_json(e)[0] == '[');
        }
        let r = joined + seq![']'] + rest;
        if entries.len() == 1 {
            assert(r =~= seq![']'] + rest);
            assert(r[0] == ']');
            assert(r.drop_first() =~= rest);
            assert(seq![e] =~= entries);
        } else {
            assert(r[0] == ',');
            assert(r.drop_first() =~= spec_pairs_json(tail_entries) + seq![']'] + rest);
            lemma_pairs_round(tail_entries, rest, false);
            assert(seq![e] + tail_entries =~= entries);
        }
    }
}

/// Serializing a tag map and parsing the text yields the map back.
pub proof fn lemma_map_json_round_trip(entries: Seq<(Seq<char>, Seq<Seq<char>>)>)
    ensures
        spec_parse_map(spec_map_json(entries)) == Some(entries),
{
    let s = spec_map_json(entries);
    let lit = seq!['{', '"', 'm', 'a', 'p', '"', ':', '['];
    assert(s =~= lit + (spec_pairs_json(entries) + seq![']'] + seq!['}']));
    assert(s.subrange(0, 8) =~= lit);
    assert(s.skip(8) =~= spec_pairs_json(entries) + seq![']'] + seq!['}']);
    lemma_pairs_round(entries, seq!['}'], true);
}

} // verus!
