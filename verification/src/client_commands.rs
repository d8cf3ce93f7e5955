//! The client's command line: reading a command, and the lines that show the
//! results of a search.
use vstd::prelude::*;
use crate::client::{doc_path_freqs_view, DocPathFreqPair};
use crate::decimal::{format_i64, int_decimal, is_digit};
use crate::text::{
    chars_eq,
    chars_to_string,
    fields,
    find,
    find_exec,
    occurs_at,
    push_all,
    push_str,
    seqs_of,
    slice_chars,
    split_runs,
    starts_with,
    str_to_chars,
    strings_view,
    CharClass,
};

verus! {

/// The most results a search shows.
pub const SHOWN_RESULTS: usize = 10;

/// A command of the client's command line.
pub enum ClientCommand {
    Quit,
    Connect { server_ip: String, server_port: String },
    GetInfo,
    Index { folder_path: String },
    Search { terms: Vec<String> },
    Help,
    Unrecognized,
}

/// What a command holds.
pub enum ClientCommandView {
    Quit,
    Connect(Seq<char>, Seq<char>),
    GetInfo,
    Index(Seq<char>),
    Search(Seq<Seq<char>>),
    Help,
    Unrecognized,
}

impl View for ClientCommand {
    type V = ClientCommandView;

    open spec fn view(&self) -> ClientCommandView {
        match self {
            ClientCommand::Quit => ClientCommandView::Quit,
            ClientCommand::Connect { server_ip, server_port } => ClientCommandView::Connect(
                server_ip@,
                server_port@,
            ),
            ClientCommand::GetInfo => ClientCommandView::GetInfo,
            ClientCommand::Index { folder_path } => ClientCommandView::Index(folder_path@),
            ClientCommand::Search { terms } => ClientCommandView::Search(strings_view(terms@)),
            ClientCommand::Help => ClientCommandView::Help,
            ClientCommand::Unrecognized => ClientCommandView::Unrecognized,
        }
    }
}

/// The search terms of `ts`: all but the word `AND`.
pub open spec fn search_terms(ts: Seq<Seq<char>>) -> Seq<Seq<char>>
    decreases ts.len(),
{
    if ts.len() == 0 {
        seq![]
    } else {
        let r = search_terms(ts.drop_last());
        if ts.last() == "AND"@ {
            r
        } else {
            r.push(ts.last())
        }
    }
}

/// What a command line asks for: nothing when it is blank, a usage error
/// when a command has the wrong number of arguments, and otherwise the command.
pub open spec fn command_outcome(line: Seq<char>) -> Result<Option<ClientCommandView>, Seq<char>> {
    let parts = fields(line);
    if parts.len() == 0 {
        Ok(None)
    } else if parts[0] == "quit"@ {
        Ok(Some(ClientCommandView::Quit))
    } else if parts[0] == "connect"@ {
        if parts.len() != 3 {
            Err("Usage: connect <server IP> <server port>"@)
        } else {
            Ok(Some(ClientCommandView::Connect(parts[1], parts[2])))
        }
    } else if parts[0] == "get_info"@ {
        Ok(Some(ClientCommandView::GetInfo))
    } else if parts[0] == "index"@ {
        if parts.len() != 2 {
            Err("Usage: index <folder_path>"@)
        } else {
            Ok(Some(ClientCommandView::Index(parts[1])))
        }
    } else if parts[0] == "search"@ {
        if parts.len() < 2 {
            Err("Usage: search <term1> [AND <term2> ...]"@)
        } else if search_terms(parts.drop_first()).len() == 0 {
            Err("No valid search terms provided"@)
        } else {
            Ok(Some(ClientCommandView::Search(search_terms(parts.drop_first()))))
        }
    } else if parts[0] == "help"@ {
        Ok(Some(ClientCommandView::Help))
    } else {
        Ok(Some(ClientCommandView::Unrecognized))
    }
}

fn is_literal(cs: &[char], lit: &str) -> (result: bool)
    ensures
        result == (cs@ == lit@),
{
    let l = str_to_chars(lit);
    chars_eq(cs, l.as_slice())
}

fn error_text(lit: &str) -> (result: String)
    ensures
        result@ == lit@,
{
    let mut out: Vec<char> = Vec::new();
    push_str(&mut out, lit);
    assert(out@ =~= lit@);
    chars_to_string(out.as_slice())
}

/// Reads a command line.
pub fn parse_client_command(command: &str) -> (result: Result<Option<ClientCommand>, String>)
    ensures
        match command_outcome(command@) {
            Ok(None) => result matches Ok(None),
            Ok(Some(c)) => result matches Ok(Some(r)) && r@ == c,
            Err(e) => result matches Err(m) && m@ == e,
        },
{
    let chars = str_to_chars(command);
    let parts = split_runs(chars.as_slice(), CharClass::NonWhiteSpace);
    let ghost pv = seqs_of(parts@);
    assert(pv == fields(command@));
    if parts.len() == 0 {
        return Ok(None);
    }
    assert(pv[0] == parts@[0]@);
    let head = parts[0].as_slice();
    if is_literal(head, "quit") {
        return Ok(Some(ClientCommand::Quit));
    }
    if is_literal(head, "connect") {
        if parts.len() != 3 {
            return Err(error_text("Usage: connect <server IP> <server port>"));
        }
        assert(pv[1] == parts@[1]@ && pv[2] == parts@[2]@);
        let server_ip = chars_to_string(parts[1].as_slice());
        let server_port = chars_to_string(parts[2].as_slice());
        return Ok(Some(ClientCommand::Connect { server_ip, server_port }));
    }
    if is_literal(head, "get_info") {
        return Ok(Some(ClientCommand::GetInfo));
    }
    if is_literal(head, "index") {
        if parts.len() != 2 {
            return Err(error_text("Usage: index <folder_path>"));
        }
        assert(pv[1] == parts@[1]@);
        let folder_path = chars_to_string(parts[1].as_slice());
        return Ok(Some(ClientCommand::Index { folder_path }));
    }
    if is_literal(head, "search") {
        if parts.len() < 2 {
            return Err(error_text("Usage: search <term1> [AND <term2> ...]"));
        }
        let ghost rest = pv.drop_first();
        let mut terms: Vec<String> = Vec::new();
        let mut k: usize = 1;
        assert(rest.take(0) =~= Seq::<Seq<char>>::empty());
        assert(strings_view(terms@) =~= search_terms(rest.take(0)));
        while k < parts.len()
            invariant
                1 <= k <= parts@.len(),
                pv == seqs_of(parts@),
                rest == pv.drop_first(),
                strings_view(terms@) == search_terms(rest.take(k - 1)),
            decreases parts@.len() - k,
        {
            assert(pv[k as int] == parts@[k as int]@);
            assert(rest.take(k as int).drop_last() =~= rest.take(k - 1));
            assert(rest.take(k as int).last() == pv[k as int]);
            if !is_literal(parts[k].as_slice(), "AND") {
                let t = chars_to_string(parts[k].as_slice());
                let ghost before = strings_view(terms@);
                terms.push(t);
                assert(strings_view(terms@) =~= before.push(t@));
            }
            k = k + 1;
        }
        assert(rest.take(parts@.len() - 1) =~= rest);
        if terms.len() == 0 {
            return Err(error_text("No valid search terms provided"));
        }
        return Ok(Some(ClientCommand::Search { terms }));
    }
    if is_literal(head, "help") {
        return Ok(Some(ClientCommand::Help));
    }
    Ok(Some(ClientCommand::Unrecognized))
}

/// Whether result `i` comes before result `j` when shown: a higher
/// frequency first, and of equal frequencies the earlier one.
pub open spec fn shown_before(rs: Seq<(Seq<char>, i64)>, i: int, j: int) -> bool {
    rs[i].1 > rs[j].1 || (rs[i].1 == rs[j].1 && i < j)
}

/// Whether `idx` lists the positions of the `k` results of `rs` that are
/// shown, in the order they are shown (the order of a stable sort by
/// frequency, highest first, cut after `k`).
pub open spec fn shown_positions(rs: Seq<(Seq<char>, i64)>, idx: Seq<int>, k: nat) -> bool {
    &&& idx.len() == (if rs.len() < k {
        rs.len()
    } else {
        k
    })
    &&& forall|a: int| 0 <= a < idx.len() ==> 0 <= #[trigger] idx[a] < rs.len()
    &&& forall|a: int, b: int| 0 <= a < b < idx.len() ==> shown_before(rs, idx[a], idx[b])
    &&& forall|j: int, a: int|
        0 <= j < rs.len() && !idx.contains(j) && 0 <= a < idx.len() ==> shown_before(
            rs,
            idx[a],
            j,
        )
}

/// The leading ASCII digits of `s`.
pub open spec fn digit_prefix(s: Seq<char>) -> Seq<char>
    decreases s.len(),
{
    if s.len() > 0 && is_digit(s[0]) {
        seq![s[0]] + digit_prefix(s.drop_first())
    } else {
        seq![]
    }
}

/// How a search result is shown: `* <path>: <freq>`, except that a path
/// `Client s:<content>` whose content has `/client_` followed by digits is
/// shown as `* Client <digits>:<content>: <freq>`.
pub open spec fn display_line(path: Seq<char>, freq: i64) -> Seq<char> {
    let plain = "* "@ + path + ": "@ + int_decimal(freq as int);
    if occurs_at(path, "Client s:"@, 0) {
        let content = path.skip(9);
        match find(content, "/client_"@) {
            Some(pos) => if pos + 8 < content.len() && digit_prefix(content.skip(pos + 8)).len() > 0 {
                "* Client "@ + digit_prefix(content.skip(pos + 8)) + ":"@ + content + ": "@
                    + int_decimal(freq as int)
            } else {
                plain
            },
            None => plain,
        }
    } else {
        plain
    }
}

fn digit_prefix_exec(s: &[char]) -> (result: Vec<char>)
    ensures
        result@ == digit_prefix(s@),
{
    let mut out: Vec<char> = Vec::new();
    let mut i: usize = 0;
    assert(s@.skip(0) =~= s@);
    while i < s.len() && (s[i] as u32) >= 48 && (s[i] as u32) <= 57
        invariant
            i <= s@.len(),
            out@ + digit_prefix(s@.skip(i as int)) == digit_prefix(s@),
        decreases s@.len() - i,
    {
        let ghost t = s@.skip(i as int);
        assert(t.drop_first() =~= s@.skip(i + 1));
        out.push(s[i]);
        assert(out@ + digit_prefix(s@.skip(i + 1)) =~= digit_prefix(s@));
        i = i + 1;
    }
    assert(digit_prefix(s@.skip(i as int)) =~= Seq::<char>::empty());
    assert(out@ =~= digit_prefix(s@));
    out
}

/// The line that shows one search result.
pub fn display_line_exec(path: &String, freq: i64) -> (result: String)
    ensures
        result@ == display_line(path@, freq),
{
    let p = str_to_chars(path.as_str());
    let mut plain: Vec<char> = Vec::new();
    push_str(&mut plain, "* ");
    push_all(&mut plain, p.as_slice());
    push_str(&mut plain, ": ");
    let num = format_i64(freq);
    push_all(&mut plain, num.as_slice());
    let prefix = str_to_chars("Client s:");
    proof {
        reveal_strlit("Client s:");
        reveal_strlit("/client_");
    }
    if starts_with(p.as_slice(), prefix.as_slice()) {
        let content = slice_chars(p.as_slice(), 9, p.len());
        assert(content@ =~= path@.skip(9));
        let pat = str_to_chars("/client_");
        match find_exec(content.as_slice(), pat.as_slice()) {
            Some(pos) => {
                proof {
                    crate::text::lemma_find_from_properties(content@, "/client_"@, 0);
                }
                let start = pos + 8;
                if start < content.len() {
                    let tail = slice_chars(content.as_slice(), start, content.len());
                    assert(tail@ =~= content@.skip(start as int));
                    let id = digit_prefix_exec(tail.as_slice());
                    if id.len() > 0 {
                        let mut out: Vec<char> = Vec::new();
                        push_str(&mut out, "* Client ");
                        push_all(&mut out, id.as_slice());
                        push_str(&mut out, ":");
                        push_all(&mut out, content.as_slice());
                        push_str(&mut out, ": ");
                        push_all(&mut out, num.as_slice());
                        return chars_to_string(out.as_slice());
                    }
                }
            },
            None => {},
        }
    }
    chars_to_string(plain.as_slice())
}

/// The lines that show the results at the positions `idx`.
pub open spec fn display_lines(rs: Seq<(Seq<char>, i64)>, idx: Seq<int>) -> Seq<Seq<char>> {
    idx.map_values(|a: int| display_line(rs[a].0, rs[a].1))
}

/// The lines that show the results of a search: the `SHOWN_RESULTS` best by
/// frequency, highest first (of equal frequencies the earlier first).
pub fn format_search_results(results: &Vec<DocPathFreqPair>) -> (result: Vec<String>)
    ensures
        exists|idx: Seq<int>|
            {
                &&& shown_positions(doc_path_freqs_view(results@), idx, SHOWN_RESULTS as nat)
                &&& strings_view(result@) == display_lines(doc_path_freqs_view(results@), idx)
            },
{
    let ghost rs = doc_path_freqs_view(results@);
    let n = results.len();
    let mut remaining: Vec<usize> = Vec::new();
    let mut i: usize = 0;
    while i < n
        invariant
            n == results@.len(),
            i <= n,
            remaining@.len() == i,
            forall|x: int| 0 <= x < i ==> remaining@[x] == x,
        decreases n - i,
    {
        remaining.push(i);
        i = i + 1;
    }
    let mut chosen: Vec<usize> = Vec::new();
    let mut lines: Vec<String> = Vec::new();
    let ghost mut idx: Seq<int> = Seq::empty();
    assert forall|j: int| 0 <= j < n implies idx.contains(j) || exists|x: int|
        0 <= x < remaining@.len() && #[trigger] remaining@[x] == j by {
        assert(remaining@[j] == j);
    }
    assert(strings_view(lines@) =~= display_lines(rs, idx));
    while chosen.len() < SHOWN_RESULTS && remaining.len() > 0
        invariant
            n == results@.len(),
            rs == doc_path_freqs_view(results@),
            chosen@.len() <= SHOWN_RESULTS,
            idx.len() == chosen@.len(),
            forall|a: int| 0 <= a < idx.len() ==> #[trigger] idx[a] == chosen@[a] as int,
            forall|a: int| 0 <= a < idx.len() ==> 0 <= #[trigger] idx[a] < n,
            forall|x: int| 0 <= x < remaining@.len() ==> #[trigger] remaining@[x] < n,
            forall|x: int, y: int| 0 <= x < y < remaining@.len() ==> remaining@[x] < remaining@[y],
            forall|a: int, b: int| 0 <= a < b < idx.len() ==> shown_before(rs, idx[a], idx[b]),
            forall|x: int, a: int|
                #![trigger remaining@[x], idx[a]]
                0 <= x < remaining@.len() && 0 <= a < idx.len() ==> shown_before(
                    rs,
                    idx[a],
                    remaining@[x] as int,
                ),
            forall|j: int|
                0 <= j < n ==> idx.contains(j) || exists|x: int|
                    0 <= x < remaining@.len() && #[trigger] remaining@[x] == j,
            forall|j: int, x: int|
                0 <= x < remaining@.len() && remaining@[x] == j ==> !idx.contains(j),
            idx.len() + remaining@.len() == n,
            strings_view(lines@) == display_lines(rs, idx),
        decreases remaining@.len(),
    {
        let mut best: usize = 0;
        let mut j: usize = 1;
        while j < remaining.len()
            invariant
                n == results@.len(),
                rs == doc_path_freqs_view(results@),
                1 <= j <= remaining@.len(),
                best < j,
                forall|x: int| 0 <= x < remaining@.len() ==> #[trigger] remaining@[x] < n,
                forall|x: int, y: int| 0 <= x < y < remaining@.len() ==> remaining@[x] < remaining@[y],
                forall|x: int|
                    0 <= x < j && x != best ==> shown_before(
                        rs,
                        remaining@[best as int] as int,
                        remaining@[x] as int,
                    ),
            decreases remaining@.len() - j,
        {
            if results[remaining[j]].word_frequency > results[remaining[best]].word_frequency {
                best = j;
            }
            j = j + 1;
        }
        let ghost rem_before = remaining@;
        let pos = remaining.remove(best);
        proof {
            assert forall|x: int, y: int| 0 <= x < y < remaining@.len() implies remaining@[x]
                < remaining@[y] by {
                let xx = if x < best { x } else { x + 1 };
                let yy = if y < best { y } else { y + 1 };
                assert(remaining@[x] == rem_before[xx]);
                assert(remaining@[y] == rem_before[yy]);
            }
        }
        let line = display_line_exec(&results[pos].document_path, results[pos].word_frequency);
        let ghost lines_before = strings_view(lines@);
        lines.push(line);
        chosen.push(pos);
        let ghost idx_before = idx;
        proof {
            idx = idx.push(pos as int);
            assert(strings_view(lines@) =~= lines_before.push(line@));
            assert(display_lines(rs, idx) =~= display_lines(rs, idx_before).push(
                display_line(rs[pos as int].0, rs[pos as int].1),
            ));
            assert forall|x: int, a: int|
                #![trigger remaining@[x], idx[a]]
                0 <= x < remaining@.len() && 0 <= a < idx.len() implies shown_before(
                    rs,
                    idx[a],
                    remaining@[x] as int,
                ) by {
                let xx = if x < best { x } else { x + 1 };
                assert(remaining@[x] == rem_before[xx]);
                if a < idx_before.len() {
                } else {
                    assert(xx != best);
                }
            }
            assert forall|j: int|
                0 <= j < n implies idx.contains(j) || exists|x: int|
                    0 <= x < remaining@.len() && #[trigger] remaining@[x] == j by {
                if !idx_before.contains(j) {
                    let x = choose|x: int| 0 <= x < rem_before.len() && rem_before[x] == j;
                    if x == best {
                        assert(idx[idx.len() - 1] == j);
                    } else if x < best {
                        assert(remaining@[x] == j);
                    } else {
                        assert(remaining@[x - 1] == j);
                    }
                } else {
                    let a = choose|a: int| 0 <= a < idx_before.len() && idx_before[a] == j;
                    assert(idx[a] == j);
                }
            }
            assert forall|j: int, x: int|
                0 <= x < remaining@.len() && remaining@[x] == j implies !idx.contains(j) by {
                let xx = if x < best { x } else { x + 1 };
                assert(remaining@[x] == rem_before[xx]);
                if idx.contains(j) {
                    let a = choose|a: int| 0 <= a < idx.len() && idx[a] == j;
                    if a < idx_before.len() {
                        assert(idx_before.contains(j));
                    } else {
                        assert(rem_before[best as int] == rem_before[xx]);
                    }
                }
            }
        }
    }
    proof {
        assert forall|j: int, a: int|
            0 <= j < rs.len() && !idx.contains(j) && 0 <= a < idx.len() implies shown_before(
                rs,
                idx[a],
                j,
            ) by {
            let x = choose|x: int| 0 <= x < remaining@.len() && #[trigger] remaining@[x] == j;
            assert(idx[a] == idx[a] && remaining@[x] == j);
        }
    }
    lines
}

} // verus!
