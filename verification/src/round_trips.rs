//! What each side of the line protocol reads back of what the other side
//! wrote: the client's readers applied to the server's replies, and the
//! server's reader applied to the client's requests.
use vstd::prelude::*;
use crate::client::{
    byte_len,
    document_path_of_reply,
    BATCH_SIZE,
    entry_text,
    entry_texts,
    index_header,
    index_messages,
    pack,
    register_outcome,
    result_of_line,
    results_of_lines,
    search_reply_outcome,
};
use crate::decimal::{
    int_decimal,
    lemma_int_decimal_is_field,
    lemma_parse_i32_of_format,
    lemma_parse_i64_of_format,
    lemma_parse_usize_of_format,
    parse_i64_spec,
};
use crate::index_store::{apply_update, postings_in, IndexStoreView};
use crate::word_freqs::lists_map;
use crate::search::path_of;
use crate::server::{
    index_pair_count,
    index_pair_freqs,
    index_request_freqs,
    lemma_client_folder_apart,
    number_for,
    reply_line,
    reply_lines,
    reply_to,
    search_reply,
    store_after,
};
use crate::text::{
    all_in_class,
    fields,
    find,
    join,
    lemma_find_from_properties,
    lemma_rfind_char_before,
    lemma_split_on_append,
    lemma_split_on_len,
    lemma_split_on_without_sep,
    split_on,
    occurs_at,
    trim,
    trim_end,
    trim_start,
    white_space,
    in_class,
    lemma_runs_append,
    lemma_runs_of_run,
    runs,
    lemma_runs_of_run_then,
    CharClass,
};

verus! {

/// The reply to a REGISTER_REQUEST gives the client, as its register
/// outcome, the number the server gave it.
pub proof fn law_register_round_trip(
    v: IndexStoreView,
    parts: Seq<Seq<char>>,
    client_id: i32,
    r: Seq<(Seq<char>, i64)>,
)
    requires
        parts.len() > 0,
        parts[0] == "REGISTER_REQUEST"@,
    ensures
        register_outcome(reply_to(v, parts, client_id, r)) == Ok::<i32, crate::client::RegisterReplyError>(client_id),
{
    reveal_strlit("REGISTER_REQUEST");
    reveal_strlit("REGISTER_REPLY ");
    reveal_strlit("REGISTER_REPLY");
    reveal_strlit("\n");
    let w = "REGISTER_REPLY"@;
    let a = "REGISTER_REPLY "@;
    let d = int_decimal(client_id as int);
    let reply = reply_to(v, parts, client_id, r);
    assert(reply == a + d + "\n"@);
    assert(reply =~= a + d.push('\n'));
    assert(a =~= w.push(' '));
    assert(all_in_class(w, CharClass::NonWhiteSpace)) by {
        assert forall|i: int| 0 <= i < w.len() implies in_class(CharClass::NonWhiteSpace, #[trigger] w[i]) by {}
    }
    lemma_runs_of_run_then(w, ' ', CharClass::NonWhiteSpace);
    lemma_int_decimal_is_field(client_id as int);
    lemma_runs_of_run_then(d, '\n', CharClass::NonWhiteSpace);
    lemma_runs_append(a, d.push('\n'), CharClass::NonWhiteSpace);
    assert(fields(reply) =~= seq![w, d]);
    lemma_parse_i32_of_format(client_id);
}

/// The reply to GET_DOC_PATH for a stored number gives the client the path
/// stored under it, for a path that neither starts nor ends with white space
/// (the client trims what it reads).
pub proof fn law_document_path_round_trip(
    v: IndexStoreView,
    parts: Seq<Seq<char>>,
    client_id: i32,
    r: Seq<(Seq<char>, i64)>,
    id: i64,
)
    requires
        parts.len() == 2,
        parts[0] == "GET_DOC_PATH"@,
        parse_i64_spec(parts[1]) == Some(id),
        v.has_number(id),
        path_of(v, id).len() == 0 || (!white_space(path_of(v, id)[0]) && !white_space(
            path_of(v, id).last(),
        )),
    ensures
        document_path_of_reply(reply_to(v, parts, client_id, r)) == Some(path_of(v, id)),
{
    reveal_strlit("GET_DOC_PATH");
    reveal_strlit("REGISTER_REQUEST");
    reveal_strlit("INDEX_REQUEST");
    reveal_strlit("SEARCH_REQUEST");
    reveal_strlit("DOC_PATH ");
    reveal_strlit("DOC_PATH");
    reveal_strlit("\n");
    let p = path_of(v, id);
    let reply = reply_to(v, parts, client_id, r);
    let head = "DOC_PATH "@;
    assert(parts[0].len() == 12);
    assert("REGISTER_REQUEST"@.len() == 16);
    assert("INDEX_REQUEST"@.len() == 13);
    assert("SEARCH_REQUEST"@.len() == 14);
    assert(parts[0] != "REGISTER_REQUEST"@);
    assert(parts[0] != "INDEX_REQUEST"@);
    assert(parts[0] != "SEARCH_REQUEST"@);
    assert(reply == head + p + "\n"@);
    let sp = seq![' '];
    lemma_find_from_properties(reply, sp, 0);
    assert(occurs_at(reply, sp, 8)) by {
        assert(reply.subrange(8, 9) =~= sp);
    }
    assert forall|j: int| 0 <= j < 8 implies !occurs_at(reply, sp, j) by {
        assert(reply.subrange(j, j + 1)[0] == reply[j]);
        assert(reply[j] == head[j]);
    }
    assert(find(reply, sp) == Some(8int));
    assert(reply.take(8) =~= "DOC_PATH"@);
    let rest = reply.skip(9);
    assert(rest =~= p.push('\n'));
    if p.len() == 0 {
        assert(rest.drop_first() =~= p);
        assert(trim_start(rest) == trim_start(p));
        assert(trim(rest) == p);
    } else {
        assert(rest[0] == p[0]);
        assert(trim_start(rest) == rest);
        assert(rest.drop_last() =~= p);
        assert(trim_end(rest) == trim_end(p));
        assert(trim(rest) == p);
    }
}

/// The text a search reply shows for a result before its frequency, when
/// it shows the result at all: `Client <c>:<from "folder" on>`.
pub open spec fn reply_label(path: Seq<char>) -> Option<Seq<char>> {
    match find(path, "client_"@) {
        Some(cp) => match find(path.skip(cp), "folder"@) {
            Some(fp) => Some("Client "@ + seq![path[cp + 7]] + ":"@ + path.skip(cp + fp)),
            None => None,
        },
        None => None,
    }
}

/// The results a reply shows of the results `r`: the label and frequency of
/// each one that has a label, in order.
pub open spec fn shown_results(r: Seq<(Seq<char>, i64)>) -> Seq<(Seq<char>, i64)>
    decreases r.len(),
{
    if r.len() == 0 {
        seq![]
    } else {
        let prev = shown_results(r.drop_last());
        match reply_label(r.last().0) {
            Some(l) => prev.push((l, r.last().1)),
            None => prev,
        }
    }
}

pub open spec fn no_line_end(s: Seq<char>) -> bool {
    forall|i: int| 0 <= i < s.len() ==> s[i] != '\n'
}

proof fn lemma_label_line(path: Seq<char>, freq: i64)
    requires
        no_line_end(path),
    ensures
        reply_label(path) is None ==> reply_line(path, freq) == Seq::<char>::empty(),
        reply_label(path) matches Some(l) ==> {
            &&& reply_line(path, freq) == l.push(' ') + int_decimal(freq as int) + "\n"@
            &&& no_line_end(l)
        },
{
    reveal_strlit("Client ");
    reveal_strlit(":");
    reveal_strlit(" ");
    reveal_strlit("\n");
    if let Some(cp) = find(path, "client_"@) {
        lemma_find_from_properties(path, "client_"@, 0);
        if let Some(fp) = find(path.skip(cp), "folder"@) {
            lemma_find_from_properties(path.skip(cp), "folder"@, 0);
            lemma_client_folder_apart(path, cp, fp);
            let l = "Client "@ + seq![path[cp + 7]] + ":"@ + path.skip(cp + fp);
            assert(reply_line(path, freq) =~= l.push(' ') + int_decimal(freq as int) + "\n"@);
            assert forall|i: int| 0 <= i < l.len() implies l[i] != '\n' by {
                if i == 7 {
                    assert(l[i] == path[cp + 7]);
                } else if i >= 9 {
                    assert(l[i] == path[cp + fp + i - 9]);
                }
            }
        }
    }
}

/// A result line reads back as its label and frequency.
proof fn lemma_result_of_shown_line(l: Seq<char>, freq: i64)
    ensures
        result_of_line(l.push(' ') + int_decimal(freq as int)) == Some((l, freq)),
{
    let d = int_decimal(freq as int);
    let line = l.push(' ') + d;
    lemma_int_decimal_is_field(freq as int);
    assert forall|i: int| 0 <= i < d.len() implies d[i] != ' ' by {
        assert(in_class(CharClass::NonWhiteSpace, d[i]));
    }
    lemma_rfind_char_before(l, ' ', d);
    assert(line.skip(l.len() as int + 1) =~= d);
    assert(line.take(l.len() as int) =~= l);
    lemma_parse_i64_of_format(freq);
}

proof fn lemma_results_of_lines_append(a: Seq<Seq<char>>, b: Seq<Seq<char>>)
    ensures
        results_of_lines(a + b) == results_of_lines(a) + results_of_lines(b),
    decreases b.len(),
{
    if b.len() == 0 {
        assert(a + b =~= a);
        assert(results_of_lines(a) + results_of_lines(b) =~= results_of_lines(a));
    } else {
        lemma_results_of_lines_append(a, b.drop_last());
        assert((a + b).drop_last() =~= a + b.drop_last());
        assert((a + b).last() == b.last());
        let x = results_of_lines(a);
        let y = results_of_lines(b.drop_last());
        match result_of_line(b.last()) {
            Some(e) => {
                assert((x + y).push(e) =~= x + y.push(e));
            },
            None => {},
        }
    }
}

/// Appending a line to text that is empty or ends with a line end appends
/// that line's result to what the text reads back as.
proof fn lemma_lines_push(before: Seq<char>, text: Seq<char>)
    requires
        no_line_end(text),
        before.len() > 0 ==> before.last() == '\n',
        split_on(before, '\n').last() == Seq::<char>::empty(),
    ensures
        results_of_lines(split_on(before + text.push('\n'), '\n')) == match result_of_line(text) {
            Some(e) => results_of_lines(split_on(before, '\n')).push(e),
            None => results_of_lines(split_on(before, '\n')),
        },
        split_on(before + text.push('\n'), '\n').last() == Seq::<char>::empty(),
{
    let line = text.push('\n');
    let sb = split_on(before, '\n');
    lemma_split_on_len(before, '\n');
    lemma_split_on_without_sep(text, '\n');
    assert(line.drop_last() =~= text);
    let tail = seq![text, Seq::<char>::empty()];
    assert(split_on(line, '\n') =~= tail);
    if before.len() == 0 {
        assert(before + line =~= line);
        assert(sb =~= seq![Seq::<char>::empty()]);
        assert(sb.drop_last() =~= Seq::<Seq<char>>::empty());
        assert(Seq::<Seq<char>>::empty() + tail =~= tail);
    } else {
        lemma_split_on_append(before, line, '\n');
    }
    assert(split_on(before + line, '\n') == sb.drop_last() + tail);
    assert(tail.drop_last() =~= seq![text]);
    assert(tail.last() == Seq::<char>::empty());
    assert(result_of_line(Seq::<char>::empty()) is None);
    assert(seq![text].drop_last() =~= Seq::<Seq<char>>::empty());
    assert(seq![text].last() == text);
    assert(results_of_lines(Seq::<Seq<char>>::empty()) =~= Seq::<(Seq<char>, i64)>::empty());
    let rt = results_of_lines(tail);
    assert(rt == results_of_lines(seq![text]));
    match result_of_line(text) {
        Some(e) => {
            assert(rt =~= seq![e]);
        },
        None => {
            assert(rt =~= Seq::<(Seq<char>, i64)>::empty());
        },
    }
    lemma_results_of_lines_append(sb.drop_last(), tail);
    assert(sb =~= sb.drop_last().push(Seq::<char>::empty()));
    assert(results_of_lines(sb) == results_of_lines(sb.drop_last()));
}

proof fn lemma_empty_line_reads_nothing()
    ensures
        results_of_lines(seq![Seq::<char>::empty()]) == Seq::<(Seq<char>, i64)>::empty(),
{
    let ls = seq![Seq::<char>::empty()];
    assert(results_of_lines(Seq::<Seq<char>>::empty()) =~= Seq::<(Seq<char>, i64)>::empty());
    assert(ls.drop_last() =~= Seq::<Seq<char>>::empty());
    assert(ls.last() == Seq::<char>::empty());
    assert(result_of_line(Seq::<char>::empty()) is None);
}

/// A shown result's line has no line end before its last character.
proof fn lemma_shown_text(l: Seq<char>, freq: i64)
    requires
        no_line_end(l),
    ensures
        no_line_end(l.push(' ') + int_decimal(freq as int)),
{
    let d = int_decimal(freq as int);
    let text = l.push(' ') + d;
    lemma_int_decimal_is_field(freq as int);
    assert forall|i: int| 0 <= i < text.len() implies text[i] != '\n' by {
        if i > l.len() {
            assert(text[i] == d[i - l.len() - 1]);
            assert(in_class(CharClass::NonWhiteSpace, d[i - l.len() - 1]));
        }
    }
}

/// The lines of the results `r` read back as the results they show, and
/// the text of the lines is empty or ends with a line end.
proof fn lemma_reply_lines_read_back(r: Seq<(Seq<char>, i64)>)
    requires
        forall|k: int| 0 <= k < r.len() ==> no_line_end(#[trigger] r[k].0),
    ensures
        results_of_lines(split_on(reply_lines(r), '\n')) == shown_results(r),
        split_on(reply_lines(r), '\n').last() == Seq::<char>::empty(),
        reply_lines(r).len() > 0 ==> reply_lines(r).last() == '\n',
    decreases r.len(),
{
    reveal_strlit("\n");
    if r.len() == 0 {
        assert(split_on(reply_lines(r), '\n') =~= seq![Seq::<char>::empty()]);
        assert(seq![Seq::<char>::empty()].drop_last() =~= Seq::<Seq<char>>::empty());
        lemma_empty_line_reads_nothing();
    } else {
        let rp = r.drop_last();
        assert forall|k: int| 0 <= k < rp.len() implies no_line_end(#[trigger] rp[k].0) by {
            assert(rp[k] == r[k]);
        }
        lemma_reply_lines_read_back(rp);
        let (path, freq) = r.last();
        assert(no_line_end(r[r.len() - 1].0));
        lemma_label_line(path, freq);
        let before = reply_lines(rp);
        match reply_label(path) {
            None => {
                assert(reply_lines(r) =~= before);
            },
            Some(l) => {
                let text = l.push(' ') + int_decimal(freq as int);
                lemma_shown_text(l, freq);
                assert(reply_lines(r) =~= before + text.push('\n'));
                lemma_lines_push(before, text);
                lemma_result_of_shown_line(l, freq);
            },
        }
    }
}

/// A client reading the server's reply to a search gets, for each result
/// the reply shows, its label and frequency, in the order of the results,
/// for result paths without line ends.
pub proof fn law_search_reply_round_trip(r: Seq<(Seq<char>, i64)>)
    requires
        r.len() <= usize::MAX,
        forall|k: int| 0 <= k < r.len() ==> no_line_end(#[trigger] r[k].0),
    ensures
        search_reply_outcome(search_reply(r)) == Ok::<Seq<(Seq<char>, i64)>, Seq<char>>(shown_results(r)),
{
    reveal_strlit("SEARCH_REPLY ");
    reveal_strlit("SEARCH_REPLY");
    reveal_strlit("\n");
    let n = r.len() as usize;
    let w = "SEARCH_REPLY"@;
    let a = "SEARCH_REPLY "@;
    let d = int_decimal(n as int);
    let head = a + d;
    let reply = search_reply(r);
    let body = reply_lines(r);
    assert(reply =~= head.push('\n') + body);
    lemma_int_decimal_is_field(n as int);
    assert(no_line_end(head)) by {
        assert forall|i: int| 0 <= i < head.len() implies head[i] != '\n' by {
            if i >= a.len() {
                assert(head[i] == d[i - a.len()]);
                assert(in_class(CharClass::NonWhiteSpace, d[i - a.len()]));
            }
        }
    }
    lemma_split_on_without_sep(head, '\n');
    assert(head.push('\n').drop_last() =~= head);
    assert(split_on(head.push('\n'), '\n') =~= seq![head, Seq::<char>::empty()]);
    lemma_split_on_append(head.push('\n'), body, '\n');
    let lines = split_on(reply, '\n');
    assert(seq![head, Seq::<char>::empty()].drop_last() =~= seq![head]);
    assert(lines == seq![head] + split_on(body, '\n'));
    assert(lines[0] == head);
    assert(lines.drop_first() =~= split_on(body, '\n'));
    assert(a =~= w.push(' '));
    assert(all_in_class(w, CharClass::NonWhiteSpace)) by {
        assert forall|i: int| 0 <= i < w.len() implies in_class(CharClass::NonWhiteSpace, #[trigger] w[i]) by {}
    }
    lemma_runs_of_run_then(w, ' ', CharClass::NonWhiteSpace);
    lemma_runs_append(a, d, CharClass::NonWhiteSpace);
    crate::text::lemma_runs_of_run(d, CharClass::NonWhiteSpace);
    assert(fields(head) =~= seq![w, d]);
    lemma_parse_usize_of_format(n);
    lemma_reply_lines_read_back(r);
    if n == 0 {
        assert(shown_results(r) =~= Seq::<(Seq<char>, i64)>::empty());
    }
}

/// The fields an index request gives its entries: each word, then its frequency.
pub open spec fn entry_fields(es: Seq<(Seq<char>, i64)>) -> Seq<Seq<char>>
    decreases es.len(),
{
    if es.len() == 0 {
        seq![]
    } else {
        entry_fields(es.drop_last()) + seq![es.last().0, int_decimal(es.last().1 as int)]
    }
}

/// The fields of an index request for `path` that carries the entries `es`.
pub open spec fn request_fields(path: Seq<char>, es: Seq<(Seq<char>, i64)>) -> Seq<Seq<char>> {
    seq!["INDEX_REQUEST"@, path] + entry_fields(es)
}

/// The text of the entries `es` in an index request, one after the other.
pub open spec fn flat_text(es: Seq<(Seq<char>, i64)>) -> Seq<char>
    decreases es.len(),
{
    if es.len() == 0 {
        seq![]
    } else {
        flat_text(es.drop_last()) + entry_text(es.last())
    }
}

/// The word frequencies the entries `es` set, a later entry for a word winning.
pub open spec fn entries_map(es: Seq<(Seq<char>, i64)>) -> Map<Seq<char>, i64>
    decreases es.len(),
{
    if es.len() == 0 {
        Map::empty()
    } else {
        entries_map(es.drop_last()).insert(es.last().0, es.last().1)
    }
}

/// Whether `s` is one whitespace-separated field: not empty, no white space.
pub open spec fn is_field(s: Seq<char>) -> bool {
    s.len() > 0 && all_in_class(s, CharClass::NonWhiteSpace)
}

/// Whether every word of `es` is a field.
pub open spec fn words_are_fields(es: Seq<(Seq<char>, i64)>) -> bool {
    forall|k: int| 0 <= k < es.len() ==> is_field(#[trigger] es[k].0)
}

/// Whether no word occurs twice in `es`.
pub open spec fn words_distinct(es: Seq<(Seq<char>, i64)>) -> bool {
    forall|i: int, j: int| 0 <= i < j < es.len() ==> es[i].0 != es[j].0
}

proof fn lemma_fields_of_line(x: Seq<char>)
    ensures
        runs(x.push('\n'), CharClass::NonWhiteSpace) == runs(x, CharClass::NonWhiteSpace),
{
    assert(x.push('\n').drop_last() =~= x);
    assert(x.push('\n').last() == '\n');
}

proof fn lemma_header_fields(path: Seq<char>)
    requires
        is_field(path),
    ensures
        runs(index_header(path), CharClass::NonWhiteSpace) == seq!["INDEX_REQUEST"@, path],
        index_header(path).last() == ' ',
{
    reveal_strlit("INDEX_REQUEST ");
    reveal_strlit("INDEX_REQUEST");
    reveal_strlit(" ");
    let w = "INDEX_REQUEST"@;
    let a = "INDEX_REQUEST "@;
    assert(a =~= w.push(' '));
    assert(all_in_class(w, CharClass::NonWhiteSpace)) by {
        assert forall|i: int| 0 <= i < w.len() implies in_class(CharClass::NonWhiteSpace, #[trigger] w[i]) by {}
    }
    lemma_runs_of_run_then(w, ' ', CharClass::NonWhiteSpace);
    lemma_runs_of_run_then(path, ' ', CharClass::NonWhiteSpace);
    assert(index_header(path) =~= a + path.push(' '));
    lemma_runs_append(a, path.push(' '), CharClass::NonWhiteSpace);
}

proof fn lemma_entry_text_fields(e: (Seq<char>, i64))
    requires
        is_field(e.0),
    ensures
        runs(entry_text(e), CharClass::NonWhiteSpace) == seq![e.0, int_decimal(e.1 as int)],
        entry_text(e).last() == ' ',
{
    reveal_strlit(" ");
    let d = int_decimal(e.1 as int);
    lemma_int_decimal_is_field(e.1 as int);
    assert(entry_text(e) =~= e.0.push(' ') + d.push(' '));
    lemma_runs_of_run_then(e.0, ' ', CharClass::NonWhiteSpace);
    lemma_runs_of_run_then(d, ' ', CharClass::NonWhiteSpace);
    lemma_runs_append(e.0.push(' '), d.push(' '), CharClass::NonWhiteSpace);
}

/// An index request's text splits into the request name, the path and the
/// entries' words and frequencies.
proof fn lemma_request_text_fields(path: Seq<char>, es: Seq<(Seq<char>, i64)>)
    requires
        is_field(path),
        words_are_fields(es),
    ensures
        runs(index_header(path) + flat_text(es), CharClass::NonWhiteSpace) == request_fields(path, es),
        (index_header(path) + flat_text(es)).last() == ' ',
    decreases es.len(),
{
    let h = index_header(path);
    lemma_header_fields(path);
    if es.len() == 0 {
        assert(h + flat_text(es) =~= h);
        assert(request_fields(path, es) =~= seq!["INDEX_REQUEST"@, path]);
    } else {
        let ep = es.drop_last();
        assert forall|k: int| 0 <= k < ep.len() implies is_field(#[trigger] ep[k].0) by {
            assert(ep[k] == es[k]);
        }
        lemma_request_text_fields(path, ep);
        let e = es.last();
        assert(is_field(es[es.len() - 1].0));
        lemma_entry_text_fields(e);
        assert(h + flat_text(es) =~= (h + flat_text(ep)) + entry_text(e));
        lemma_runs_append(h + flat_text(ep), entry_text(e), CharClass::NonWhiteSpace);
        assert(request_fields(path, es) =~= request_fields(path, ep) + seq![e.0, int_decimal(e.1 as int)]);
    }
}

proof fn lemma_entry_fields_index(es: Seq<(Seq<char>, i64)>)
    ensures
        entry_fields(es).len() == 2 * es.len(),
        forall|i: int|
            0 <= i < es.len() ==> entry_fields(es)[2 * i] == (#[trigger] es[i]).0 && entry_fields(
                es,
            )[2 * i + 1] == int_decimal(es[i].1 as int),
    decreases es.len(),
{
    if es.len() > 0 {
        let ep = es.drop_last();
        lemma_entry_fields_index(ep);
        let f = entry_fields(es);
        assert forall|i: int| 0 <= i < es.len() implies f[2 * i] == (#[trigger] es[i]).0 && f[2 * i
            + 1] == int_decimal(es[i].1 as int) by {
            if i < es.len() - 1 {
                assert(es[i] == ep[i]);
                assert(f[2 * i] == entry_fields(ep)[2 * i]);
                assert(f[2 * i + 1] == entry_fields(ep)[2 * i + 1]);
            }
        }
    }
}

/// What the server reads from an index request's fields is the entries' map.
proof fn lemma_request_freqs(path: Seq<char>, es: Seq<(Seq<char>, i64)>)
    ensures
        index_request_freqs(request_fields(path, es)) == entries_map(es),
{
    let parts = request_fields(path, es);
    lemma_entry_fields_index(es);
    assert(parts.len() == 2 + 2 * es.len());
    assert(index_pair_count(parts) == es.len());
    lemma_pair_freqs_prefix(path, es, es.len());
    assert(es.take(es.len() as int) =~= es);
}

proof fn lemma_pair_freqs_prefix(path: Seq<char>, es: Seq<(Seq<char>, i64)>, n: nat)
    requires
        n <= es.len(),
    ensures
        index_pair_freqs(request_fields(path, es), n) == entries_map(es.take(n as int)),
    decreases n,
{
    let parts = request_fields(path, es);
    if n == 0 {
        assert(es.take(0) =~= Seq::<(Seq<char>, i64)>::empty());
    } else {
        lemma_pair_freqs_prefix(path, es, (n - 1) as nat);
        lemma_entry_fields_index(es);
        let e = es[n - 1];
        assert(parts[2 * n as int] == entry_fields(es)[2 * (n - 1)]);
        assert(parts[2 * n as int + 1] == entry_fields(es)[2 * (n - 1) + 1]);
        crate::decimal::lemma_parse_i64_of_format(e.1);
        assert(es.take(n as int).drop_last() =~= es.take(n - 1));
        assert(es.take(n as int).last() == e);
    }
}

proof fn lemma_entries_map_dom(es: Seq<(Seq<char>, i64)>, w: Seq<char>)
    ensures
        entries_map(es).contains_key(w) <==> exists|i: int| 0 <= i < es.len() && es[i].0 == w,
    decreases es.len(),
{
    if es.len() > 0 {
        let ep = es.drop_last();
        lemma_entries_map_dom(ep, w);
        if exists|i: int| 0 <= i < ep.len() && ep[i].0 == w {
            let i = choose|i: int| 0 <= i < ep.len() && ep[i].0 == w;
            assert(es[i].0 == w);
        }
        if exists|i: int| 0 <= i < es.len() && es[i].0 == w {
            let i = choose|i: int| 0 <= i < es.len() && es[i].0 == w;
            if i < es.len() - 1 {
                assert(ep[i].0 == w);
            }
        }
    }
}

proof fn lemma_entries_map_append(a: Seq<(Seq<char>, i64)>, b: Seq<(Seq<char>, i64)>)
    ensures
        entries_map(a + b) == entries_map(a).union_prefer_right(entries_map(b)),
    decreases b.len(),
{
    if b.len() == 0 {
        assert(a + b =~= a);
        assert(entries_map(a).union_prefer_right(entries_map(b)) =~= entries_map(a));
    } else {
        lemma_entries_map_append(a, b.drop_last());
        assert((a + b).drop_last() =~= a + b.drop_last());
        assert((a + b).last() == b.last());
        assert(entries_map(a + b) =~= entries_map(a).union_prefer_right(entries_map(b)));
    }
}

/// Recording a document's frequencies in two parts with no word in common
/// is recording them at once.
proof fn lemma_apply_update_disjoint(
    t: Map<Seq<char>, Seq<crate::index_store::DocFreqPair>>,
    d: i64,
    m1: Map<Seq<char>, i64>,
    m2: Map<Seq<char>, i64>,
)
    requires
        m1.dom().disjoint(m2.dom()),
    ensures
        apply_update(apply_update(t, d, m1), d, m2) == apply_update(t, d, m1.union_prefer_right(m2)),
{
    let a = apply_update(t, d, m1);
    let lhs = apply_update(a, d, m2);
    let rhs = apply_update(t, d, m1.union_prefer_right(m2));
    assert forall|w: Seq<char>| #[trigger] lhs.contains_key(w) implies lhs[w] == rhs[w] by {
        if m2.contains_key(w) {
            assert(!m1.contains_key(w));
            assert(postings_in(a, w) == postings_in(t, w));
        }
    }
    assert(lhs =~= rhs);
}

/// Two index requests for one path, with no word in common, do what one
/// request with the entries of both does.
proof fn lemma_request_split(
    v: IndexStoreView,
    path: Seq<char>,
    a: Seq<(Seq<char>, i64)>,
    b: Seq<(Seq<char>, i64)>,
)
    requires
        forall|i: int, j: int| 0 <= i < a.len() && 0 <= j < b.len() ==> a[i].0 != b[j].0,
    ensures
        store_after(store_after(v, request_fields(path, a)), request_fields(path, b)) == store_after(
            v,
            request_fields(path, a + b),
        ),
{
    reveal_strlit("INDEX_REQUEST");
    let pa = request_fields(path, a);
    let pb = request_fields(path, b);
    let pab = request_fields(path, a + b);
    assert(pa[0] == "INDEX_REQUEST"@ && pa[1] == path);
    assert(pb[0] == "INDEX_REQUEST"@ && pb[1] == path);
    assert(pab[0] == "INDEX_REQUEST"@ && pab[1] == path);
    lemma_request_freqs(path, a);
    lemma_request_freqs(path, b);
    lemma_request_freqs(path, a + b);
    lemma_entries_map_append(a, b);
    let m1 = entries_map(a);
    let m2 = entries_map(b);
    assert(m1.dom().disjoint(m2.dom())) by {
        assert forall|w: Seq<char>| !(m1.contains_key(w) && m2.contains_key(w)) by {
            lemma_entries_map_dom(a, w);
            lemma_entries_map_dom(b, w);
            if m1.contains_key(w) && m2.contains_key(w) {
                let i = choose|i: int| 0 <= i < a.len() && a[i].0 == w;
                let j = choose|j: int| 0 <= j < b.len() && b[j].0 == w;
                assert(a[i].0 != b[j].0);
            }
        }
    }
    let v1 = store_after(v, pa);
    let doc = number_for(v, path);
    assert(number_for(v1, path) == doc);
    lemma_apply_update_disjoint(v.terms, doc, m1, m2);
    assert(store_after(v1, pb) =~= store_after(v, pab));
}

/// The store after each of the requests `msgs` is answered, in order.
pub open spec fn store_after_all(v: IndexStoreView, msgs: Seq<Seq<char>>) -> IndexStoreView
    decreases msgs.len(),
{
    if msgs.len() == 0 {
        v
    } else {
        store_after(store_after_all(v, msgs.drop_last()), fields(msgs.last()))
    }
}

/// Where, among the entries `es`, the request that `pack` is filling starts.
pub open spec fn chunk_start(h: Seq<char>, es: Seq<(Seq<char>, i64)>) -> int
    decreases es.len(),
{
    if es.len() == 0 {
        0
    } else {
        let prev = pack(h, entry_texts(es.drop_last()));
        if byte_len(prev.1) + byte_len(entry_text(es.last())) > BATCH_SIZE {
            es.len() - 1
        } else {
            chunk_start(h, es.drop_last())
        }
    }
}

proof fn lemma_fields_of_request(path: Seq<char>, es: Seq<(Seq<char>, i64)>)
    requires
        is_field(path),
        words_are_fields(es),
    ensures
        fields((index_header(path) + flat_text(es)).push('\n')) == request_fields(path, es),
{
    lemma_request_text_fields(path, es);
    lemma_fields_of_line(index_header(path) + flat_text(es));
}

proof fn lemma_words_of_part(es: Seq<(Seq<char>, i64)>, lo: int, hi: int)
    requires
        0 <= lo <= hi <= es.len(),
        words_are_fields(es),
        words_distinct(es),
    ensures
        words_are_fields(es.subrange(lo, hi)),
        words_distinct(es.subrange(lo, hi)),
{
    let c = es.subrange(lo, hi);
    assert forall|k: int| 0 <= k < c.len() implies is_field(#[trigger] c[k].0) by {
        assert(c[k] == es[lo + k]);
    }
    assert forall|i: int, j: int| 0 <= i < j < c.len() implies c[i].0 != c[j].0 by {
        assert(c[i] == es[lo + i] && c[j] == es[lo + j]);
    }
}

proof fn lemma_flat_text_single(e: (Seq<char>, i64))
    ensures
        flat_text(seq![e]) == entry_text(e),
{
    let single = seq![e];
    assert(single.drop_last() =~= Seq::<(Seq<char>, i64)>::empty());
    assert(flat_text(Seq::<(Seq<char>, i64)>::empty()) =~= Seq::<char>::empty());
    assert(single.last() == e);
    assert(Seq::<char>::empty() + entry_text(e) =~= entry_text(e));
}

/// One more entry, for a word not seen yet, added to the request being
/// filled does what adding it to the single request does.
proof fn lemma_pack_step(
    w: IndexStoreView,
    v: IndexStoreView,
    path: Seq<char>,
    c: Seq<(Seq<char>, i64)>,
    ep: Seq<(Seq<char>, i64)>,
    e: (Seq<char>, i64),
)
    requires
        store_after(w, request_fields(path, c)) == store_after(v, request_fields(path, ep)),
        forall|i: int| 0 <= i < c.len() ==> (#[trigger] c[i]).0 != e.0,
        forall|i: int| 0 <= i < ep.len() ==> (#[trigger] ep[i]).0 != e.0,
    ensures
        store_after(w, request_fields(path, c.push(e))) == store_after(v, request_fields(path, ep.push(e))),
{
    let single = seq![e];
    assert(c + single =~= c.push(e));
    assert(ep + single =~= ep.push(e));
    assert forall|i: int, j: int| 0 <= i < c.len() && 0 <= j < single.len() implies c[i].0
        != single[j].0 by {
        assert(single[j] == e);
    }
    assert forall|i: int, j: int| 0 <= i < ep.len() && 0 <= j < single.len() implies ep[i].0
        != single[j].0 by {
        assert(single[j] == e);
    }
    lemma_request_split(w, path, c, single);
    lemma_request_split(v, path, ep, single);
}

/// The requests `pack` has finished, followed by the one it is filling
/// (with its line end), do what one request with all the entries does.
#[verifier::rlimit(40)]
proof fn lemma_pack_invariant(v: IndexStoreView, path: Seq<char>, es: Seq<(Seq<char>, i64)>)
    requires
        is_field(path),
        words_are_fields(es),
        words_distinct(es),
    ensures
        ({
            let h = index_header(path);
            let p = pack(h, entry_texts(es));
            let k = chunk_start(h, es);
            &&& 0 <= k <= es.len()
            &&& es.len() > 0 ==> k < es.len()
            &&& p.2 == es.len() - k
            &&& p.1 == h + flat_text(es.subrange(k, es.len() as int))
            &&& store_after_all(v, p.0.push(p.1.push('\n'))) == store_after(v, request_fields(path, es))
        }),
    decreases es.len(),
{
    let h = index_header(path);
    let p = pack(h, entry_texts(es));
    let k = chunk_start(h, es);
    if es.len() == 0 {
        assert(entry_texts(es) =~= Seq::<Seq<char>>::empty());
        assert(es.subrange(0, 0) =~= es);
        assert(h + flat_text(es) =~= h);
        lemma_fields_of_request(path, es);
        let ms = p.0.push(p.1.push('\n'));
        assert(ms.drop_last() =~= Seq::<Seq<char>>::empty());
        assert(p == (Seq::<Seq<char>>::empty(), h, 0nat));
        assert(k == 0);
        assert(ms.last() == h.push('\n'));
        assert(fields(h.push('\n')) == request_fields(path, es));
        assert(store_after_all(v, Seq::<Seq<char>>::empty()) == v);
    } else {
        let ep = es.drop_last();
        let e = es.last();
        let n = es.len() as int;
        lemma_words_of_part(es, 0, n - 1);
        assert(ep =~= es.subrange(0, n - 1));
        lemma_pack_invariant(v, path, ep);
        let prev = pack(h, entry_texts(ep));
        let kp = chunk_start(h, ep);
        assert(entry_texts(es).drop_last() =~= entry_texts(ep));
        assert(entry_texts(es).last() == entry_text(e));
        assert(es[n - 1] == e);
        assert(ep.push(e) =~= es);
        let w_prev = store_after_all(v, prev.0);
        let whole_prev = prev.0.push(prev.1.push('\n'));
        assert(whole_prev.drop_last() =~= prev.0);
        assert forall|i: int| 0 <= i < ep.len() implies (#[trigger] ep[i]).0 != e.0 by {
            assert(ep[i] == es[i]);
        }
        assert(is_field(es[n - 1].0));
        if byte_len(prev.1) + byte_len(entry_text(e)) > BATCH_SIZE {
            assert(k == n - 1);
            assert(p == (prev.0.push(prev.1.push('\n')), h + entry_text(e), 1nat));
            let single = seq![e];
            assert(es.subrange(n - 1, n) =~= single);
            lemma_flat_text_single(e);
            let ms = p.0.push(p.1.push('\n'));
            assert(ms.drop_last() =~= whole_prev);
            assert(words_are_fields(single)) by {
                assert forall|j: int| 0 <= j < single.len() implies is_field(#[trigger] single[j].0) by {
                    assert(single[j] == e);
                }
            }
            lemma_fields_of_request(path, single);
            assert(store_after_all(v, ms) == store_after(
                store_after_all(v, whole_prev),
                request_fields(path, single),
            ));
            assert forall|i: int, j: int| 0 <= i < ep.len() && 0 <= j < single.len() implies ep[i].0
                != single[j].0 by {
                assert(single[j] == e);
            }
            lemma_request_split(v, path, ep, single);
            assert(ep + single =~= es);
        } else {
            assert(k == kp);
            assert(p == (prev.0, prev.1 + entry_text(e), prev.2 + 1));
            let c = ep.subrange(kp, n - 1);
            let cc = es.subrange(k, n);
            assert(cc =~= c.push(e));
            assert(cc.drop_last() =~= c);
            assert(cc.last() == e);
            assert(p.1 =~= h + flat_text(cc));
            lemma_words_of_part(es, k, n);
            lemma_words_of_part(ep, kp, n - 1);
            lemma_fields_of_request(path, c);
            lemma_fields_of_request(path, cc);
            let ms = p.0.push(p.1.push('\n'));
            assert(ms.drop_last() =~= prev.0);
            assert forall|i: int| 0 <= i < c.len() implies (#[trigger] c[i]).0 != e.0 by {
                assert(c[i] == es[kp + i]);
            }
            assert(prev.1 == h + flat_text(c));
            assert(store_after_all(v, whole_prev) == store_after(w_prev, request_fields(path, c)));
            assert(store_after(w_prev, request_fields(path, c)) == store_after(v, request_fields(path, ep)));
            lemma_pack_step(w_prev, v, path, c, ep, e);
        }
    }
}

/// A document indexed through the requests the client sends for it is
/// recorded as one request with all its entries would record it: the path
/// gets its number (its own, or the next one), and every word of the
/// document gets that number with its frequency in its postings, whatever
/// batches the entries were packed into. This holds for a path and words
/// that are single whitespace-free fields, each word once.
pub proof fn law_index_messages_round_trip(
    v: IndexStoreView,
    path: Seq<char>,
    es: Seq<(Seq<char>, i64)>,
)
    requires
        is_field(path),
        words_are_fields(es),
        words_distinct(es),
        es.len() > 0,
    ensures
        store_after_all(v, index_messages(path, es)) == store_after(v, request_fields(path, es)),
        store_after(v, request_fields(path, es)) == (IndexStoreView {
            documents: v.documents.insert(path, number_for(v, path)),
            next_document_number: if v.documents.contains_key(path) {
                v.next_document_number
            } else {
                (v.next_document_number + 1) as i64
            },
            terms: apply_update(v.terms, number_for(v, path), entries_map(es)),
        }),
{
    reveal_strlit("INDEX_REQUEST");
    lemma_pack_invariant(v, path, es);
    lemma_request_freqs(path, es);
    let parts = request_fields(path, es);
    assert(parts[0] == "INDEX_REQUEST"@ && parts[1] == path);
}

proof fn lemma_entries_map_of_list(es: Seq<(Seq<char>, i64)>, m: Map<Seq<char>, i64>)
    requires
        lists_map(es, m),
    ensures
        entries_map(es) == m,
{
    assert forall|w: Seq<char>| #[trigger] entries_map(es).contains_key(w) <==> m.contains_key(w) by {
        lemma_entries_map_dom(es, w);
    }
    assert forall|w: Seq<char>| #[trigger] m.contains_key(w) implies entries_map(es)[w] == m[w] by {
        let i = choose|i: int| 0 <= i < es.len() && es[i].0 == w;
        lemma_entries_map_value(es, i);
    }
    assert(entries_map(es) =~= m);
}

proof fn lemma_entries_map_value(es: Seq<(Seq<char>, i64)>, i: int)
    requires
        0 <= i < es.len(),
        forall|a: int, b: int| 0 <= a < b < es.len() ==> es[a].0 != es[b].0,
    ensures
        entries_map(es).contains_key(es[i].0),
        entries_map(es)[es[i].0] == es[i].1,
    decreases es.len(),
{
    if i < es.len() - 1 {
        let ep = es.drop_last();
        assert(ep[i] == es[i]);
        assert(es[i].0 != es[es.len() - 1].0);
        lemma_entries_map_value(ep, i);
    }
}

/// The requests the client sends for a document with the word frequencies
/// `m` (listed in any order as `es`) make the server record exactly `m` for
/// the document's number: for a path and words that are whitespace-free
/// fields, and at least one word.
pub proof fn law_index_messages_record_frequencies(
    v: IndexStoreView,
    path: Seq<char>,
    es: Seq<(Seq<char>, i64)>,
    m: Map<Seq<char>, i64>,
)
    requires
        is_field(path),
        lists_map(es, m),
        es.len() > 0,
        forall|w: Seq<char>| #[trigger] m.contains_key(w) ==> is_field(w),
    ensures
        store_after_all(v, index_messages(path, es)) == (IndexStoreView {
            documents: v.documents.insert(path, number_for(v, path)),
            next_document_number: if v.documents.contains_key(path) {
                v.next_document_number
            } else {
                (v.next_document_number + 1) as i64
            },
            terms: apply_update(v.terms, number_for(v, path), m),
        }),
{
    assert forall|k: int| 0 <= k < es.len() implies is_field(#[trigger] es[k].0) by {
        assert(m.contains_key(es[k].0));
    }
    lemma_entries_map_of_list(es, m);
    law_index_messages_round_trip(v, path, es);
}

/// What a client reads of the server's reply to a SEARCH_REQUEST: at most
/// `MAX_RESULTS` results, the label and frequency of each result the reply
/// shows, in the reply's order, when no stored path has a line end in it.
pub proof fn law_search_reply_from_server(
    v: IndexStoreView,
    parts: Seq<Seq<char>>,
    client_id: i32,
    r: Seq<(Seq<char>, i64)>,
)
    requires
        crate::server::is_search_request(parts),
        crate::server::search_outcome(v, parts, r),
        forall|p: Seq<char>| #[trigger] v.documents.contains_key(p) ==> no_line_end(p),
    ensures
        r.len() <= crate::search::MAX_RESULTS,
        search_reply_outcome(reply_to(v, parts, client_id, r)) == Ok::<
            Seq<(Seq<char>, i64)>,
            Seq<char>,
        >(shown_results(r)),
{
    broadcast use vstd::seq_lib::group_to_multiset_ensures;

    reveal_strlit("SEARCH_REQUEST");
    reveal_strlit("REGISTER_REQUEST");
    reveal_strlit("INDEX_REQUEST");
    assert(parts[0].len() == 14);
    assert("REGISTER_REQUEST"@.len() == 16);
    assert("INDEX_REQUEST"@.len() == 13);
    assert(parts[0] != "REGISTER_REQUEST"@);
    assert(parts[0] != "INDEX_REQUEST"@);
    assert(reply_to(v, parts, client_id, r) == search_reply(r));
    let terms = parts.drop_first();
    let cands = crate::search::search_candidates(v, terms);
    assert(crate::search::ranked_top(r, cands, crate::search::MAX_RESULTS as nat));
    let lists = crate::search::term_lists(v, terms);
    crate::laws::lemma_candidates_from_members(v, crate::search::combine(lists), lists[0]);
    let rest = choose|rest: Seq<(Seq<char>, i64)>|
        {
            &&& (r + rest).to_multiset() == cands.to_multiset()
            &&& forall|x: int, y: int|
                0 <= x < rest.len() && 0 <= y < r.len() ==> rest[x].1 <= r[y].1
        };
    assert forall|k: int| 0 <= k < r.len() implies no_line_end(#[trigger] r[k].0) by {
        assert((r + rest)[k] == r[k]);
        assert((r + rest).to_multiset().count(r[k]) > 0);
        assert(cands.contains(r[k]));
        let j = choose|j: int| 0 <= j < cands.len() && cands[j] == r[k];
        assert(v.documents.contains_key(cands[j].0));
    }
    law_search_reply_round_trip(r);
}

/// Joining puts the separator between every two neighbouring pieces: a
/// piece added after others comes after one more separator.
pub proof fn law_join_separates_every_piece(list: Seq<Seq<char>>, x: Seq<char>, sep: Seq<char>)
    requires
        list.len() > 0,
    ensures
        join(list.push(x), sep) == join(list, sep) + sep + x,
{
    assert(list.push(x).drop_last() =~= list);
    assert(list.push(x).last() == x);
}

/// The server reads the terms of the client's search request back as they
/// were, in order: the request's fields are `SEARCH_REQUEST` and then the
/// terms, for terms that are non-empty and free of white space.
pub proof fn law_search_request_round_trip(terms: Seq<Seq<char>>)
    requires
        terms.len() > 0,
        forall|k: int| 0 <= k < terms.len() ==> is_field(#[trigger] terms[k]),
    ensures
        fields("SEARCH_REQUEST "@ + join(terms, " "@)) == seq!["SEARCH_REQUEST"@] + terms,
    decreases terms.len(),
{
    reveal_strlit("SEARCH_REQUEST ");
    reveal_strlit("SEARCH_REQUEST");
    reveal_strlit(" ");
    let w = "SEARCH_REQUEST"@;
    let a = "SEARCH_REQUEST "@;
    assert(a =~= w.push(' '));
    if terms.len() == 1 {
        assert(all_in_class(w, CharClass::NonWhiteSpace)) by {
            assert forall|i: int| 0 <= i < w.len() implies in_class(CharClass::NonWhiteSpace, #[trigger] w[i]) by {}
        }
        assert(is_field(terms[0]));
        lemma_runs_of_run_then(w, ' ', CharClass::NonWhiteSpace);
        lemma_runs_of_run(terms[0], CharClass::NonWhiteSpace);
        lemma_runs_append(a, terms[0], CharClass::NonWhiteSpace);
        assert(join(terms, " "@) == terms[0]);
        assert(seq![w] + terms =~= seq![w, terms[0]]);
    } else {
        let tp = terms.drop_last();
        let x = terms.last();
        assert forall|k: int| 0 <= k < tp.len() implies is_field(#[trigger] tp[k]) by {
            assert(tp[k] == terms[k]);
        }
        law_search_request_round_trip(tp);
        assert(is_field(terms[terms.len() - 1]));
        let prefix = a + join(tp, " "@);
        assert(a + join(terms, " "@) =~= prefix.push(' ') + x);
        assert(prefix.push(' ').drop_last() =~= prefix);
        assert(runs(prefix.push(' '), CharClass::NonWhiteSpace) == runs(prefix, CharClass::NonWhiteSpace));
        lemma_runs_append(prefix.push(' '), x, CharClass::NonWhiteSpace);
        lemma_runs_of_run(x, CharClass::NonWhiteSpace);
        assert(seq![w] + terms =~= (seq![w] + tp) + seq![x]);
    }
}

} // verus!
