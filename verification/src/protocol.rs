//! The line protocol's decisions: parsing one request header into a
//! dispatchable value, shaping the response text, and the bounded line
//! reader the request loop relies on.

use vstd::prelude::*;
use vstd::string::StringExecFns;
use vstd::utf8::{encode_utf8, valid_utf8};
use crate::binio::{str_eq, push_char, bytes_to_string, find_char, spec_find_char, parse_u64_dec, u64_to_dec_string, spec_dec_string, spec_all_digits, spec_dec_value};
use crate::ids::{parse_uuid, uuid_to_string, spec_uuid_string, spec_is_uuid_string};
use crate::mime::{MimeType, spec_valid_mime, spec_lower};
use crate::resize::{Dimensions, spec_parse_dims};
use crate::tags::{spec_tags_for_id, spec_strs_view};
use crate::vennbase::Vennbase;
use crate::VennError;

verus! {

broadcast use vstd::string::group_string_axioms;

/// One parsed request header.
pub enum Request {
    /// `query <expr>`: the rest of the line is the expression.
    Query { expr: String },
    /// `query` without an expression.
    QueryBad,
    /// `get <id> [<dims>]`: a malformed dimension token is ignored.
    Get { id: Vec<u8>, dims: Option<Dimensions> },
    /// `get` without a well-formed record id.
    GetBad,
    /// `save <mime> <n>`: the tag count follows the MIME type.
    Save { mime: MimeType, tag_count: u64 },
    /// `save` with a malformed MIME type.
    SaveBadMime,
    /// `save` with a missing or malformed tag count.
    SaveBadCount,
    /// `del ...`: reserved.
    Del,
    /// `replace ...`: reserved.
    Replace,
    /// An empty line.
    Empty,
    /// Any other method word.
    Unknown { method: String },
}

/// The method word: everything before the first space.
pub open spec fn spec_method(s: Seq<char>) -> Seq<char> {
    let fi = spec_find_char(s, ' ');
    if fi < 0 {
        s
    } else {
        s.subrange(0, fi)
    }
}

/// The arguments: everything after the first space, if there is one.
pub open spec fn spec_args(s: Seq<char>) -> Option<Seq<char>> {
    let fi = spec_find_char(s, ' ');
    if fi < 0 {
        None
    } else {
        Some(s.subrange(fi + 1, s.len() as int))
    }
}

/// The first token of an argument string, up to the next space.
pub open spec fn spec_tok(s: Seq<char>) -> Seq<char> {
    let fi = spec_find_char(s, ' ');
    if fi < 0 {
        s
    } else {
        s.subrange(0, fi)
    }
}

/// The remaining arguments after the first token.
pub open spec fn spec_tok_rest(s: Seq<char>) -> Option<Seq<char>> {
    let fi = spec_find_char(s, ' ');
    if fi < 0 {
        None
    } else {
        Some(s.subrange(fi + 1, s.len() as int))
    }
}

/// Whether a token is a well-formed tag count: nonempty digits whose
/// value fits 64 bits.
pub open spec fn spec_count_token_ok(t: Seq<char>) -> bool {
    t.len() > 0 && spec_all_digits(t) && spec_dec_value(t) <= u64::MAX
}

/// Splits off the method word and argument string.
fn split_first_space(s: &str) -> (r: (String, Option<String>))
    ensures
        r.0@ == spec_method(s@),
        r.1 matches Some(a) ==> Some(a@) == spec_args(s@),
        r.1 is None <==> spec_args(s@) is None,
{
    let n = s.unicode_len();
    match find_char(s, ' ') {
        Some(fi) => {
            let head = s.substring_char(0, fi).to_owned();
            let tail = s.substring_char(fi + 1, n).to_owned();
            (head, Some(tail))
        },
        None => (s.to_owned(), None),
    }
}

/// What a parsed `get` request must be, given its argument string.
pub open spec fn spec_get_ok(a: Seq<char>, r: Request) -> bool {
    &&& spec_is_uuid_string(spec_tok(a)) ==> (r matches Request::Get { id, dims } && id@.len()
        == 16 && spec_uuid_string(id@) == spec_tok(a) && (spec_tok_rest(a) matches Some(d) ==> dims
        == spec_parse_dims(spec_tok(d))) && (spec_tok_rest(a) is None ==> dims is None))
    &&& !spec_is_uuid_string(spec_tok(a)) ==> r is GetBad
}

/// What a parsed `save` request must be, given its argument string.
pub open spec fn spec_save_ok_request(a: Seq<char>, r: Request) -> bool {
    &&& !spec_valid_mime(spec_lower(spec_tok(a))) ==> r is SaveBadMime
    &&& spec_valid_mime(spec_lower(spec_tok(a))) ==> {
        &&& spec_tok_rest(a) is None ==> r is SaveBadCount
        &&& spec_tok_rest(a) matches Some(c) ==> {
            &&& !spec_count_token_ok(spec_tok(c)) ==> r is SaveBadCount
            &&& spec_count_token_ok(spec_tok(c)) ==> (r matches Request::Save { mime, tag_count }
                && mime@ == spec_lower(spec_tok(a)) && tag_count == spec_dec_value(spec_tok(c)))
        }
    }
}

/// Parses the arguments of a `get` request.
fn parse_get_args(a: String) -> (r: Request)
    ensures
        spec_get_ok(a@, r),
{
    let (tok, rest) = split_first_space(a.as_str());
    match parse_uuid(tok.as_str()) {
        Some(id) => {
            let dims = match rest {
                Some(d) => {
                    let (dtok, _) = split_first_space(d.as_str());
                    match Dimensions::from_dim_str(dtok.as_str()) {
                        Ok(dd) => Some(dd),
                        Err(_) => None,
                    }
                },
                None => None,
            };
            Request::Get { id, dims }
        },
        None => Request::GetBad,
    }
}

/// Parses the arguments of a `save` request.
fn parse_save_args(a: String) -> (r: Request)
    ensures
        spec_save_ok_request(a@, r),
{
    let (tok, rest) = split_first_space(a.as_str());
    match MimeType::from(tok.as_str()) {
        Ok(mime) => {
            match rest {
                Some(c) => {
                    let (ctok, _) = split_first_space(c.as_str());
                    match parse_u64_dec(ctok.as_str()) {
                        Some(tag_count) => Request::Save { mime, tag_count },
                        None => Request::SaveBadCount,
                    }
                },
                None => Request::SaveBadCount,
            }
        },
        Err(_) => Request::SaveBadMime,
    }
}

/// Parses one request header line into a dispatchable request.
#[verifier::rlimit(100)]
pub fn parse_request(header: &str) -> (r: Request)
    ensures
        r is Empty <==> header@.len() == 0,
        header@.len() > 0 && spec_method(header@) == "query"@ ==> {
            &&& spec_args(header@) matches Some(a) ==> (r matches Request::Query { expr } && expr@
                == a)
            &&& spec_args(header@) is None ==> r is QueryBad
        },
        header@.len() > 0 && spec_method(header@) == "get"@ ==> {
            &&& spec_args(header@) is Some ==> spec_get_ok(spec_args(header@)->Some_0, r)
            &&& spec_args(header@) is None ==> r is GetBad
        },
        header@.len() > 0 && spec_method(header@) == "save"@ ==> {
            &&& spec_args(header@) is Some ==> spec_save_ok_request(spec_args(header@)->Some_0, r)
            &&& spec_args(header@) is None ==> r is SaveBadMime
        },
        header@.len() > 0 && spec_method(header@) == "del"@ ==> r is Del,
        header@.len() > 0 && spec_method(header@) == "replace"@ ==> r is Replace,
        header@.len() > 0 && spec_method(header@) != "query"@ && spec_method(header@) != "get"@
            && spec_method(header@) != "save"@ && spec_method(header@) != "del"@ && spec_method(
            header@,
        ) != "replace"@ ==> (r matches Request::Unknown { method } && method@ == spec_method(
            header@,
        )),
{
    proof {
        reveal_strlit("query");
        reveal_strlit("get");
        reveal_strlit("save");
        reveal_strlit("del");
        reveal_strlit("replace");
        assert("query"@.len() == 5);
        assert("get"@.len() == 3);
        assert("save"@.len() == 4);
        assert("del"@.len() == 3);
        assert("replace"@.len() == 7);
        assert("del"@[0] == 'd');
        assert("get"@[0] == 'g');
        assert("del"@ != "get"@);
    }
    if header.unicode_len() == 0 {
        return Request::Empty;
    }
    let (method, args) = split_first_space(header);
    if str_eq(method.as_str(), "query") {
        match args {
            Some(expr) => Request::Query { expr },
            None => Request::QueryBad,
        }
    } else if str_eq(method.as_str(), "get") {
        match args {
            Some(a) => {
                proof {
                    assert(spec_args(header@) == Some(a@));
                    assert(spec_args(header@)->Some_0 == a@);
                }
                let res = parse_get_args(a);
                proof {
                    assert(spec_get_ok(spec_args(header@)->Some_0, res));
                }
                res
            },
            None => Request::GetBad,
        }
    } else if str_eq(method.as_str(), "save") {
        match args {
            Some(a) => {
                proof {
                    assert(spec_args(header@) == Some(a@));
                    assert(spec_args(header@)->Some_0 == a@);
                }
                let res = parse_save_args(a);
                proof {
                    assert(spec_save_ok_request(spec_args(header@)->Some_0, res));
                }
                res
            },
            None => Request::SaveBadMime,
        }
    } else if str_eq(method.as_str(), "del") {
        Request::Del
    } else if str_eq(method.as_str(), "replace") {
        Request::Replace
    } else {
        Request::Unknown { method }
    }
}

/// One block of a query response: the record id, its MIME type, the tag
/// count, then each tag on its own line.
pub open spec fn spec_query_block(
    mime: Seq<char>,
    id: Seq<u8>,
    tags: Seq<Seq<char>>,
) -> Seq<char> {
    spec_uuid_string(id) + seq!['\n'] + mime + seq!['\n'] + spec_dec_string(tags.len()) + seq![
        '\n',
    ] + spec_tag_lines(tags)
}

/// Tag lines, one tag per line.
pub open spec fn spec_tag_lines(tags: Seq<Seq<char>>) -> Seq<char>
    decreases tags.len(),
{
    if tags.len() == 0 {
        Seq::empty()
    } else {
        spec_tag_lines(tags.drop_last()) + tags.last() + seq!['\n']
    }
}

/// The whole response to a successful query: `OK <N>` then one block per
/// matched record, each block's tags drawn from the tag map.
pub open spec fn spec_query_response(
    results: Seq<(Seq<char>, Seq<u8>)>,
    entries: Seq<(Seq<char>, Seq<Seq<char>>)>,
) -> Seq<char> {
    "OK "@ + spec_dec_string(results.len()) + seq!['\n'] + spec_query_blocks(results, entries)
}

/// The blocks of a query response, in result order.
pub open spec fn spec_query_blocks(
    results: Seq<(Seq<char>, Seq<u8>)>,
    entries: Seq<(Seq<char>, Seq<Seq<char>>)>,
) -> Seq<char>
    decreases results.len(),
{
    if results.len() == 0 {
        Seq::empty()
    } else {
        spec_query_blocks(results.drop_last(), entries) + spec_query_block(
            results.last().0,
            results.last().1,
            spec_tags_for_id(entries, spec_uuid_string(results.last().1)),
        )
    }
}

/// Appends the tag lines for one record.
fn push_tag_lines(out: &mut String, tags: &Vec<String>)
    ensures
        final(out)@ == old(out)@ + spec_tag_lines(spec_strs_view(tags@)),
{
    let n = tags.len();
    let mut i: usize = 0;
    proof {
        assert(spec_strs_view(tags@).subrange(0, 0) =~= Seq::<Seq<char>>::empty());
        assert(out@ + spec_tag_lines(spec_strs_view(tags@).subrange(0, 0)) =~= out@);
    }
    while i < n
        invariant
            0 <= i <= n,
            n == tags@.len(),
            out@ == old(out)@ + spec_tag_lines(spec_strs_view(tags@).subrange(0, i as int)),
        decreases n - i,
    {
        let ghost pre = spec_strs_view(tags@).subrange(0, i as int);
        out.append(tags[i].as_str());
        push_char(out, '\n');
        proof {
            let pre2 = spec_strs_view(tags@).subrange(0, i + 1);
            assert(pre2.drop_last() =~= pre);
            assert(pre2.last() == spec_strs_view(tags@)[i as int]);
            assert(out@ =~= old(out)@ + spec_tag_lines(pre2));
        }
        i = i + 1;
    }
    proof {
        assert(spec_strs_view(tags@).subrange(0, n as int) =~= spec_strs_view(tags@));
    }
}

/// Formats the response to a successful query.
pub fn format_query_response(results: &Vec<(MimeType, Vec<u8>)>, db: &Vennbase) -> (r: String)
    requires
        forall|i: int| 0 <= i < results@.len() ==> (#[trigger] results@[i]).1@.len() == 16,
    ensures
        r@ == spec_query_response(
            crate::vennbase::spec_results_view(results@),
            db.spec_tag_entries(),
        ),
{
    let mut out = String::new();
    out.append("OK ");
    let count = u64_to_dec_string(results.len() as u64);
    out.append(count.as_str());
    push_char(&mut out, '\n');
    let ghost header = out@;
    let n = results.len();
    let mut i: usize = 0;
    proof {
        let view = crate::vennbase::spec_results_view(results@);
        assert(header =~= "OK "@ + spec_dec_string(view.len()) + seq!['\n']);
        assert(view.subrange(0, 0) =~= Seq::<(Seq<char>, Seq<u8>)>::empty());
        assert(out@ + spec_query_blocks(view.subrange(0, 0), db.spec_tag_entries()) =~= out@);
    }
    while i < n
        invariant
            0 <= i <= n,
            n == results@.len(),
            forall|t: int| 0 <= t < n ==> (#[trigger] results@[t]).1@.len() == 16,
            out@ == header + spec_query_blocks(
                crate::vennbase::spec_results_view(results@).subrange(0, i as int),
                db.spec_tag_entries(),
            ),
        decreases n - i,
    {
        let ghost view = crate::vennbase::spec_results_view(results@);
        let ghost pre = view.subrange(0, i as int);
        let id_str = uuid_to_string(results[i].1.as_slice());
        out.append(id_str.as_str());
        push_char(&mut out, '\n');
        out.append(results[i].0.as_str());
        push_char(&mut out, '\n');
        let tags = db.get_tags_for_record(results[i].1.as_slice());
        let count_str = u64_to_dec_string(tags.len() as u64);
        out.append(count_str.as_str());
        push_char(&mut out, '\n');
        push_tag_lines(&mut out, &tags);
        proof {
            let pre2 = view.subrange(0, i + 1);
            assert(pre2.drop_last() =~= pre);
            assert(pre2.last() == view[i as int]);
            assert(out@ =~= header + spec_query_blocks(pre2, db.spec_tag_entries()));
        }
        i = i + 1;
    }
    proof {
        assert(crate::vennbase::spec_results_view(results@).subrange(0, n as int)
            =~= crate::vennbase::spec_results_view(results@));
    }
    out
}

/// Formats the header line of a `get` response: the MIME type and the
/// byte count, space-separated.
pub fn format_get_header(mime: &MimeType, size: u64) -> (r: String)
    ensures
        r@ == mime@ + " "@ + spec_dec_string(size as nat) + seq!['\n'],
{
    let mut out = String::new();
    out.append(mime.as_str());
    out.append(" ");
    let s = u64_to_dec_string(size);
    out.append(s.as_str());
    push_char(&mut out, '\n');
    proof {
        assert(out@ =~= mime@ + " "@ + spec_dec_string(size as nat) + seq!['\n']);
    }
    out
}

/// Formats the response to a successful save: `OK <id>`.
pub fn format_ok_save(id: &[u8]) -> (r: String)
    requires
        id@.len() == 16,
    ensures
        r@ == "OK "@ + spec_uuid_string(id@) + seq!['\n'],
{
    let mut out = String::new();
    out.append("OK ");
    let id_str = uuid_to_string(id);
    out.append(id_str.as_str());
    push_char(&mut out, '\n');
    proof {
        assert(out@ =~= "OK "@ + spec_uuid_string(id@) + seq!['\n']);
    }
    out
}

/// Formats the single-line answer to an unknown method.
pub fn format_unknown_method(method: &str) -> (r: String)
    ensures
        r@ == "Unknown method: '"@ + method@ + "'\n"@,
{
    let mut out = String::new();
    out.append("Unknown method: '");
    out.append(method);
    out.append("'\n");
    proof {
        assert(out@ =~= "Unknown method: '"@ + method@ + "'\n"@);
    }
    out
}

/// The first position of `b` in `s`, or -1 if there is none.
pub open spec fn spec_find_byte(s: Seq<u8>, b: u8) -> int
    decreases s.len(),
{
    if s.len() == 0 {
        -1
    } else if s[0] == b {
        0
    } else {
        let r = spec_find_byte(s.drop_first(), b);
        if r < 0 {
            -1
        } else {
            r + 1
        }
    }
}

proof fn lemma_find_byte_found(s: Seq<u8>, b: u8, i: int)
    requires
        0 <= i < s.len(),
        s[i] == b,
        forall|j: int| 0 <= j < i ==> s[j] != b,
    ensures
        spec_find_byte(s, b) == i,
    decreases i,
{
    if i > 0 {
        let tail = s.drop_first();
        assert forall|j: int| 0 <= j < i - 1 implies tail[j] != b by {
            assert(tail[j] == s[j + 1]);
        }
        assert(tail[i - 1] == s[i]);
        lemma_find_byte_found(tail, b, i - 1);
    }
}

proof fn lemma_find_byte_none(s: Seq<u8>, b: u8)
    requires
        forall|j: int| 0 <= j < s.len() ==> s[j] != b,
    ensures
        spec_find_byte(s, b) == -1,
    decreases s.len(),
{
    if s.len() > 0 {
        let tail = s.drop_first();
        assert forall|j: int| 0 <= j < tail.len() implies tail[j] != b by {
            assert(tail[j] == s[j + 1]);
        }
        lemma_find_byte_none(tail, b);
    }
}

/// The bytes a bounded line read takes for its line: everything up to
/// the first `stop` byte within the limit, or the whole limited prefix.
pub open spec fn spec_line_bytes(data: Seq<u8>, stop: u8, max_length: int) -> Seq<u8> {
    let limit = if max_length < data.len() {
        max_length
    } else {
        data.len() as int
    };
    let fi = spec_find_byte(data.subrange(0, limit), stop);
    if fi < 0 {
        data.subrange(0, limit)
    } else {
        data.subrange(0, fi)
    }
}

/// How many bytes a bounded line read consumes: the line and, when it
/// stopped at one, the stop byte.
pub open spec fn spec_line_consumed(data: Seq<u8>, stop: u8, max_length: int) -> int {
    let limit = if max_length < data.len() {
        max_length
    } else {
        data.len() as int
    };
    let fi = spec_find_byte(data.subrange(0, limit), stop);
    if fi < 0 {
        limit
    } else {
        fi + 1
    }
}

/// Reads one line out of buffered bytes: up to the first `stop` byte, at
/// most `max_length` bytes.
///
/// Returns the line's text and how many bytes it consumed; fails exactly
/// when the line bytes are not valid UTF-8.
pub fn read_string_until(data: &[u8], stop: u8, max_length: usize) -> (r: Result<
    (String, usize),
    VennError,
>)
    ensures
        r matches Ok((line, consumed)) ==> {
            &&& encode_utf8(line@) == spec_line_bytes(data@, stop, max_length as int)
            &&& consumed == spec_line_consumed(data@, stop, max_length as int)
            &&& consumed <= data@.len()
        },
        r is Err <==> !valid_utf8(spec_line_bytes(data@, stop, max_length as int)),
        r is Err ==> r == Err::<(String, usize), VennError>(VennError::Io),
{
    let n = data.len();
    let limit: usize = if max_length < n {
        max_length
    } else {
        n
    };
    let ghost prefix = data@.subrange(0, limit as int);
    let mut i: usize = 0;
    let mut found: bool = false;
    while i < limit
        invariant_except_break
            0 <= i <= limit <= n,
            n == data@.len(),
            prefix == data@.subrange(0, limit as int),
            !found,
            forall|j: int| 0 <= j < i ==> prefix[j] != stop,
        ensures
            0 <= i <= limit <= n,
            n == data@.len(),
            prefix == data@.subrange(0, limit as int),
            forall|j: int| 0 <= j < i ==> prefix[j] != stop,
            found ==> i < limit && prefix[i as int] == stop,
            !found ==> i == limit,
        decreases limit - i,
    {
        if *vstd::slice::slice_index_get(data, i) == stop {
            found = true;
            break ;
        }
        i = i + 1;
    }
    let line_end = i;
    let consumed = if found {
        i + 1
    } else {
        i
    };
    proof {
        if found {
            lemma_find_byte_found(prefix, stop, i as int);
        } else {
            lemma_find_byte_none(prefix, stop);
        }
        assert(prefix.subrange(0, line_end as int) =~= data@.subrange(0, line_end as int));
        assert(spec_line_bytes(data@, stop, max_length as int) == data@.subrange(
            0,
            line_end as int,
        ));
    }
    let line_vec = vstd::slice::slice_to_vec(vstd::slice::slice_subrange(data, 0, line_end));
    match bytes_to_string(line_vec) {
        Some(line) => Ok((line, consumed)),
        None => Err(VennError::Io),
    }
}

/// Reads one newline-terminated line out of buffered bytes, at most `n`
/// bytes of it.
pub fn read_line_limited(data: &[u8], n: usize) -> (r: Result<(String, usize), VennError>)
    ensures
        r matches Ok((line, consumed)) ==> {
            &&& encode_utf8(line@) == spec_line_bytes(data@, 10u8, n as int)
            &&& consumed == spec_line_consumed(data@, 10u8, n as int)
            &&& consumed <= data@.len()
        },
        r is Err <==> !valid_utf8(spec_line_bytes(data@, 10u8, n as int)),
{
    read_string_until(data, 10u8, n)
}

} // verus!
