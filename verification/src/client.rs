//! The client's side of the protocol: its connection state, the requests it
//! sends and how it reads the server's replies.
use vstd::prelude::*;
use crate::decimal::{
    format_i64,
    int_decimal,
    parse_i32,
    parse_i32_spec,
    parse_i64,
    parse_i64_spec,
    parse_usize,
    parse_usize_spec,
};
use crate::text::{
    chars_eq,
    chars_to_string,
    fields,
    find,
    find_exec,
    join,
    push_all,
    push_str,
    rfind_char,
    rfind_char_exec,
    seqs_of,
    slice_chars,
    split_on,
    split_on_exec,
    split_runs,
    str_to_chars,
    strings_view,
    trim,
    trim_exec,
    CharClass,
};
use crate::word_freqs::{add_counts, int_map, lists_map, words_of, utf8_len, lemma_encode_utf8_concat, WordFrequencies};
use vstd::utf8::encode_utf8;

verus! {

broadcast use vstd::seq_lib::group_to_multiset_ensures;

/// The largest request, in bytes, that `index_request_messages` packs words into.
pub const BATCH_SIZE: usize = 1024 * 1024;

/// The size of the client's receive buffer.
pub const BUFFER_SIZE: usize = 64 * 1024;

/// A document path and a frequency, as a search reply gives them.
#[derive(Debug, Clone)]
pub struct DocPathFreqPair {
    pub document_path: String,
    pub word_frequency: i64,
}

impl View for DocPathFreqPair {
    type V = (Seq<char>, i64);

    open spec fn view(&self) -> (Seq<char>, i64) {
        (self.document_path@, self.word_frequency)
    }
}

/// A document number and a frequency.
#[derive(Debug, Clone, Copy, PartialEq, Eq)]
pub struct DocFreqPair {
    pub document_number: i64,
    pub word_frequency: i64,
}

pub open spec fn doc_path_freqs_view(v: Seq<DocPathFreqPair>) -> Seq<(Seq<char>, i64)> {
    v.map_values(|p: DocPathFreqPair| p@)
}

/// Why a register reply was refused.
#[derive(Debug, Clone, Copy, PartialEq, Eq)]
pub enum RegisterReplyError {
    /// The reply names a client number that does not read as an `i32`.
    InvalidClientId,
    /// The reply is not a REGISTER_REPLY with a client number.
    InvalidReply,
}

impl RegisterReplyError {
    pub open spec fn message_spec(self) -> Seq<char> {
        match self {
            RegisterReplyError::InvalidClientId => "Invalid client ID received"@,
            RegisterReplyError::InvalidReply => "Invalid register reply"@,
        }
    }

    /// The text of the error.
    pub fn message(&self) -> (result: String)
        ensures
            result@ == self.message_spec(),
    {
        let mut out: Vec<char> = Vec::new();
        match self {
            RegisterReplyError::InvalidClientId => push_str(&mut out, "Invalid client ID received"),
            RegisterReplyError::InvalidReply => push_str(&mut out, "Invalid register reply"),
        }
        assert(out@ =~= self.message_spec());
        chars_to_string(out.as_slice())
    }
}

/// What a register reply does: its first two fields must be `REGISTER_REPLY`
/// and a client number.
pub open spec fn register_outcome(response: Seq<char>) -> Result<i32, RegisterReplyError> {
    let parts = fields(response);
    if parts.len() >= 2 && parts[0] == "REGISTER_REPLY"@ {
        match parse_i32_spec(parts[1]) {
            Some(id) => Ok(id),
            None => Err(RegisterReplyError::InvalidClientId),
        }
    } else {
        Err(RegisterReplyError::InvalidReply)
    }
}

/// The path a GET_DOC_PATH reply gives: what follows the first space, trimmed,
/// when what precedes it is `DOC_PATH`.
pub open spec fn document_path_of_reply(response: Seq<char>) -> Option<Seq<char>> {
    match find(response, seq![' ']) {
        Some(k) => if response.take(k) == "DOC_PATH"@ {
            Some(trim(response.skip(k + 1)))
        } else {
            None
        },
        None => None,
    }
}

/// A result line of a search reply: the text before its last space and the
/// frequency after it.
pub open spec fn result_of_line(line: Seq<char>) -> Option<(Seq<char>, i64)> {
    if line.len() == 0 {
        None
    } else {
        match rfind_char(line, ' ') {
            Some(k) => match parse_i64_spec(line.skip(k + 1)) {
                Some(f) => Some((line.take(k), f)),
                None => None,
            },
            None => None,
        }
    }
}

/// The results of the lines `lines`, the lines that are no result skipped.
pub open spec fn results_of_lines(lines: Seq<Seq<char>>) -> Seq<(Seq<char>, i64)>
    decreases lines.len(),
{
    if lines.len() == 0 {
        seq![]
    } else {
        let r = results_of_lines(lines.drop_last());
        match result_of_line(lines.last()) {
            Some(x) => r.push(x),
            None => r,
        }
    }
}

/// What a search reply gives: an error when its first line is not
/// `SEARCH_REPLY <count>`, nothing when the count is 0, and otherwise the
/// results of the lines after the first.
pub open spec fn search_reply_outcome(reply: Seq<char>) -> Result<Seq<(Seq<char>, i64)>, Seq<char>> {
    let lines = split_on(reply, '\n');
    let parts = fields(lines[0]);
    if parts.len() < 2 || parts[0] != "SEARCH_REPLY"@ {
        Err("Invalid reply format"@)
    } else {
        match parse_usize_spec(parts[1]) {
            None => Err("Invalid result count"@),
            Some(n) => if n == 0 {
                Ok(seq![])
            } else {
                Ok(results_of_lines(lines.drop_first()))
            },
        }
    }
}

/// The number of bytes of `s` in UTF-8.
pub open spec fn byte_len(s: Seq<char>) -> nat {
    encode_utf8(s).len()
}

/// The start of every index request for `path`.
pub open spec fn index_header(path: Seq<char>) -> Seq<char> {
    "INDEX_REQUEST "@ + path + " "@
}

/// How an index request gives a word and its frequency.
pub open spec fn entry_text(e: (Seq<char>, i64)) -> Seq<char> {
    e.0 + " "@ + int_decimal(e.1 as int) + " "@
}

pub open spec fn entry_texts(es: Seq<(Seq<char>, i64)>) -> Seq<Seq<char>> {
    es.map_values(|e: (Seq<char>, i64)| entry_text(e))
}

/// Packing entries into requests: the requests finished so far, the request
/// being filled and the number of entries in it. An entry that would take
/// the request being filled past `BATCH_SIZE` bytes finishes it (with a
/// line end) and starts a new one.
pub open spec fn pack(header: Seq<char>, entries: Seq<Seq<char>>) -> (Seq<Seq<char>>, Seq<char>, nat)
    decreases entries.len(),
{
    if entries.len() == 0 {
        (seq![], header, 0)
    } else {
        let prev = pack(header, entries.drop_last());
        let e = entries.last();
        if byte_len(prev.1) + byte_len(e) > BATCH_SIZE {
            (prev.0.push(prev.1.push('\n')), header + e, 1)
        } else {
            (prev.0, prev.1 + e, prev.2 + 1)
        }
    }
}

/// The index requests that carry the entries `es` of the document `path`, in order.
pub open spec fn index_messages(path: Seq<char>, es: Seq<(Seq<char>, i64)>) -> Seq<Seq<char>> {
    let p = pack(index_header(path), entry_texts(es));
    if p.2 > 0 {
        p.0.push(p.1.push('\n'))
    } else {
        p.0
    }
}

/// Whether the entries are in order of the length of their words in bytes.
pub open spec fn sorted_by_word_len(es: Seq<(Seq<char>, i64)>) -> bool {
    forall|i: int, j: int| 0 <= i < j < es.len() ==> byte_len(es[i].0) <= byte_len(es[j].0)
}

pub open spec fn entry_views(v: Seq<(String, i64)>) -> Seq<(Seq<char>, i64)> {
    v.map_values(|e: (String, i64)| (e.0@, e.1))
}

/// The entries of `word_freqs` in order of the length of their words (the
/// first of equal lengths first).
fn sorted_entries(word_freqs: &WordFrequencies) -> (result: (Vec<(String, i64)>, Vec<u128>))
    requires
        word_freqs.wf(),
    ensures
        entry_views(result.0@).to_multiset() == word_freqs.entries().to_multiset(),
        sorted_by_word_len(entry_views(result.0@)),
        result.1@.len() == result.0@.len(),
        forall|k: int| 0 <= k < result.1@.len() ==> result.1@[k] == byte_len(#[trigger] result.0@[k].0@),
{
    let n = word_freqs.len();
    let mut items: Vec<(String, i64)> = Vec::new();
    let mut keys: Vec<u128> = Vec::new();
    let ghost all = word_freqs.entries();
    let mut i: usize = 0;
    while i < n
        invariant
            word_freqs.wf(),
            n == word_freqs.word_seq().len(),
            all == word_freqs.entries(),
            i <= n,
            entry_views(items@) == all.take(i as int),
            keys@.len() == items@.len(),
            forall|k: int| 0 <= k < keys@.len() ==> keys@[k] == byte_len(#[trigger] items@[k].0@),
        decreases n - i,
    {
        let w = word_freqs.word_at(i);
        let f = word_freqs.freq_at(i);
        let wc = str_to_chars(w.as_str());
        let key = utf8_len(wc.as_slice());
        assert(all[i as int] == (w@, f));
        let wc2 = w.clone();
        assert(wc2@ == w@);
        let ghost ev = entry_views(items@);
        items.push((wc2, f));
        keys.push(key);
        assert(entry_views(items@) =~= ev.push((w@, f)));
        assert(ev.push((w@, f)) =~= all.take(i + 1));
        i = i + 1;
    }
    assert(all.take(n as int) =~= all);
    let mut sorted: Vec<(String, i64)> = Vec::new();
    let mut sorted_keys: Vec<u128> = Vec::new();
    assert(entry_views(sorted@) + entry_views(items@) =~= all);
    while items.len() > 0
        invariant
            (entry_views(sorted@) + entry_views(items@)).to_multiset() == all.to_multiset(),
            keys@.len() == items@.len(),
            forall|k: int| 0 <= k < keys@.len() ==> keys@[k] == byte_len(#[trigger] items@[k].0@),
            sorted_keys@.len() == sorted@.len(),
            forall|k: int| 0 <= k < sorted_keys@.len() ==> sorted_keys@[k] == byte_len(
                #[trigger] sorted@[k].0@,
            ),
            sorted_by_word_len(entry_views(sorted@)),
            forall|x: int, y: int|
                0 <= x < sorted@.len() && 0 <= y < items@.len() ==> byte_len(sorted@[x].0@)
                    <= byte_len(items@[y].0@),
        decreases items@.len(),
    {
        let mut best: usize = 0;
        let mut j: usize = 1;
        while j < items.len()
            invariant
                1 <= j <= items@.len(),
                keys@.len() == items@.len(),
                best < j,
                forall|x: int| 0 <= x < j ==> keys@[best as int] <= keys@[x],
            decreases items@.len() - j,
        {
            if keys[j] < keys[best] {
                best = j;
            }
            j = j + 1;
        }
        let ghost iv = entry_views(items@);
        let ghost sv = entry_views(sorted@);
        let ghost items_before = items@;
        let ghost keys_before = keys@;
        let ghost sorted_before = sorted@;
        let item = items.remove(best);
        let key = keys.remove(best);
        proof {
            assert(entry_views(items@) =~= iv.remove(best as int));
            assert(iv[best as int] == (item.0@, item.1));
            vstd::seq_lib::lemma_multiset_commutative(sv, iv);
            vstd::seq_lib::lemma_multiset_commutative(sv.push((item.0@, item.1)), iv.remove(best as int));
            assert forall|y: int| 0 <= y < items_before.len() implies byte_len(item.0@) <= byte_len(
                #[trigger] items_before[y].0@,
            ) by {
                assert(keys_before[y] == byte_len(items_before[y].0@));
            }
        }
        sorted.push(item);
        sorted_keys.push(key);
        proof {
            assert(entry_views(sorted@) =~= sv.push((item.0@, item.1)));
            assert((entry_views(sorted@) + entry_views(items@)).to_multiset() =~= all.to_multiset());
            assert forall|k: int| 0 <= k < keys@.len() implies keys@[k] == byte_len(#[trigger] items@[k].0@) by {
                if k < best {
                    assert(items@[k] == items_before[k]);
                } else {
                    assert(items@[k] == items_before[k + 1]);
                }
            }
            assert forall|x: int, y: int|
                0 <= x < sorted@.len() && 0 <= y < items@.len() implies byte_len(sorted@[x].0@)
                    <= byte_len(items@[y].0@) by {
                let yy = if y < best { y } else { y + 1 };
                assert(items@[y] == items_before[yy]);
                if x < sorted@.len() - 1 {
                    assert(sorted@[x] == sorted_before[x]);
                }
            }
        }
    }
    (sorted, sorted_keys)
}

/// A copy of the characters `v`.
fn copy_chars(v: &Vec<char>) -> (result: Vec<char>)
    ensures
        result@ == v@,
{
    let mut out: Vec<char> = Vec::new();
    push_all(&mut out, v.as_slice());
    assert(out@ =~= v@);
    out
}

/// The client's connection state: its client number (-1 when it has none)
/// and whether it is connected.
pub struct ClientProcessingEngine {
    client_id: i32,
    is_connected: bool,
}

impl View for ClientProcessingEngine {
    type V = (i32, bool);

    closed spec fn view(&self) -> (i32, bool) {
        (self.client_id, self.is_connected)
    }
}

/// Whether the characters `cs` are the literal `lit`.
fn is_literal(cs: &[char], lit: &str) -> (result: bool)
    ensures
        result == (cs@ == lit@),
{
    let l = str_to_chars(lit);
    chars_eq(cs, l.as_slice())
}

impl ClientProcessingEngine {
    /// A client that is not connected and has no number.
    pub fn new() -> (result: Self)
        ensures
            result@ == (-1i32, false),
    {
        ClientProcessingEngine { client_id: -1, is_connected: false }
    }

    /// Whether the client is connected.
    pub fn is_server_connected(&self) -> (result: bool)
        ensures
            result == self@.1,
    {
        self.is_connected
    }

    /// The client's number (-1 when it has none).
    pub fn get_client_id(&self) -> (result: i32)
        ensures
            result == self@.0,
    {
        self.client_id
    }

    /// `Ok` when connected, else the error the client's operations give.
    pub fn ensure_connected(&self) -> (result: Result<(), String>)
        ensures
            result is Ok <==> self@.1,
            result matches Err(e) ==> e@ == "Not connected to server"@,
    {
        if self.is_connected {
            Ok(())
        } else {
            let mut out: Vec<char> = Vec::new();
            push_str(&mut out, "Not connected to server");
            Err(chars_to_string(out.as_slice()))
        }
    }

    /// Adds the counts of the words of `content` to `word_freqs` (see
    /// `WordFrequencies::add_word_counts`).
    pub fn process_document_efficient(&self, content: &str, word_freqs: &mut WordFrequencies)
        requires
            old(word_freqs).wf(),
            forall|w: Seq<char>| #[trigger]
                add_counts(int_map(old(word_freqs)@), words_of(content@)).contains_key(w)
                    ==> add_counts(int_map(old(word_freqs)@), words_of(content@))[w] <= i64::MAX,
        ensures
            final(word_freqs).wf(),
            int_map(final(word_freqs)@) == add_counts(int_map(old(word_freqs)@), words_of(content@)),
    {
        word_freqs.add_word_counts(content);
    }

    /// Takes the server's reply to REGISTER_REQUEST: on a good reply the
    /// client is connected under the number it gives.
    pub fn handle_register_reply(&mut self, response: &str) -> (result: Result<(), RegisterReplyError>)
        ensures
            match register_outcome(response@) {
                Ok(id) => result is Ok && final(self)@ == (id, true),
                Err(e) => result == Err::<(), RegisterReplyError>(e) && final(self)@ == old(self)@,
            },
    {
        let chars = str_to_chars(response);
        let parts = split_runs(chars.as_slice(), CharClass::NonWhiteSpace);
        let ghost pv = seqs_of(parts@);
        assert(pv == fields(response@));
        if parts.len() >= 2 && is_literal(parts[0].as_slice(), "REGISTER_REPLY") {
            assert(pv[0] == parts@[0]@ && pv[1] == parts@[1]@);
            match parse_i32(parts[1].as_slice()) {
                Some(id) => {
                    self.client_id = id;
                    self.is_connected = true;
                    Ok(())
                },
                None => Err(RegisterReplyError::InvalidClientId),
            }
        } else {
            proof {
                if parts@.len() >= 2 {
                    assert(pv[0] == parts@[0]@);
                }
            }
            Err(RegisterReplyError::InvalidReply)
        }
    }

    /// Leaves the connected state; says whether the client was connected
    /// (and so has a connection to close).
    pub fn disconnect(&mut self) -> (result: bool)
        ensures
            result == old(self)@.1,
            final(self)@ == (if old(self)@.1 {
                (-1i32, false)
            } else {
                old(self)@
            }),
    {
        if self.is_connected {
            self.is_connected = false;
            self.client_id = -1;
            true
        } else {
            false
        }
    }

    /// The request for the path of document `doc_id`.
    pub fn document_path_request(&self, doc_id: i64) -> (result: String)
        ensures
            result@ == "GET_DOC_PATH "@ + int_decimal(doc_id as int),
    {
        let mut out: Vec<char> = Vec::new();
        push_str(&mut out, "GET_DOC_PATH ");
        let n = format_i64(doc_id);
        push_all(&mut out, n.as_slice());
        chars_to_string(out.as_slice())
    }

    /// The path a GET_DOC_PATH reply gives, if it is a DOC_PATH reply.
    pub fn parse_document_path_reply(&self, response: &str) -> (result: Option<String>)
        ensures
            match result {
                Some(p) => document_path_of_reply(response@) == Some(p@),
                None => document_path_of_reply(response@) is None,
            },
    {
        let chars = str_to_chars(response);
        let space = str_to_chars(" ");
        proof {
            reveal_strlit(" ");
            assert(space@ =~= seq![' ']);
        }
        match find_exec(chars.as_slice(), space.as_slice()) {
            Some(k) => {
                proof {
                    crate::text::lemma_find_from_properties(response@, seq![' '], 0);
                }
                let n = chars.len();
                assert(k < n);
                let head = slice_chars(chars.as_slice(), 0, k);
                assert(head@ =~= response@.take(k as int));
                if is_literal(head.as_slice(), "DOC_PATH") {
                    let tail = slice_chars(chars.as_slice(), k + 1, n);
                    assert(tail@ =~= response@.skip(k + 1));
                    let t = trim_exec(tail.as_slice());
                    Some(chars_to_string(t.as_slice()))
                } else {
                    None
                }
            },
            None => None,
        }
    }

    /// The search request for `terms`, if the client is connected.
    pub fn search_request(&self, terms: &[String]) -> (result: Result<String, String>)
        ensures
            self@.1 ==> (result matches Ok(r) && r@ == "SEARCH_REQUEST "@ + join(
                strings_view(terms@),
                " "@,
            )),
            !self@.1 ==> (result matches Err(e) && e@ == "Not connected to server"@),
    {
        match self.ensure_connected() {
            Err(e) => Err(e),
            Ok(()) => {
                let mut out: Vec<char> = Vec::new();
                push_str(&mut out, "SEARCH_REQUEST ");
                let ghost head = out@;
                let ghost tv = strings_view(terms@);
                let mut i: usize = 0;
                assert(tv.take(0) =~= Seq::<Seq<char>>::empty());
                while i < terms.len()
                    invariant
                        i <= terms@.len(),
                        tv == strings_view(terms@),
                        out@ == head + join(tv.take(i as int), " "@),
                    decreases terms@.len() - i,
                {
                    let ghost before = out@;
                    if i > 0 {
                        push_str(&mut out, " ");
                    }
                    push_str(&mut out, terms[i].as_str());
                    proof {
                        let t1 = tv.take(i + 1);
                        assert(t1.drop_last() =~= tv.take(i as int));
                        assert(t1.last() == terms@[i as int]@);
                        if i == 0 {
                            assert(t1.len() == 1);
                            assert(out@ =~= head + join(t1, " "@));
                        } else {
                            assert(out@ =~= head + join(t1, " "@));
                        }
                    }
                    i = i + 1;
                }
                assert(tv.take(terms@.len() as int) =~= tv);
                Ok(chars_to_string(out.as_slice()))
            },
        }
    }

    /// The index requests that send the word frequencies `word_freqs` of the
    /// document `file_path`: the words in order of their length, packed into
    /// requests of at most `BATCH_SIZE` bytes where they fit, each request
    /// ending in a line end.
    pub fn index_request_messages(&self, file_path: &str, word_freqs: &WordFrequencies) -> (result: Vec<String>)
        requires
            word_freqs.wf(),
        ensures
            exists|es: Seq<(Seq<char>, i64)>|
                {
                    &&& es.to_multiset() == word_freqs.entries().to_multiset()
                    &&& lists_map(es, word_freqs@)
                    &&& sorted_by_word_len(es)
                    &&& strings_view(result@) == index_messages(file_path@, es)
                },
    {
        let (entries, _keys) = sorted_entries(word_freqs);
        let ghost es = entry_views(entries@);
        let ghost texts = entry_texts(es);
        let mut header: Vec<char> = Vec::new();
        push_str(&mut header, "INDEX_REQUEST ");
        push_str(&mut header, file_path);
        push_str(&mut header, " ");
        assert(header@ =~= index_header(file_path@));
        let header_len = utf8_len(header.as_slice());
        let hlen = header.len();
        assert(header_len < 0x4_0000_0000_0000_0000);
        let mut messages: Vec<String> = Vec::new();
        let mut current: Vec<char> = copy_chars(&header);
        let mut size: u128 = header_len;
        let mut count: usize = 0;
        let mut i: usize = 0;
        let n = entries.len();
        assert(texts.take(0) =~= Seq::<Seq<char>>::empty());
        while i < n
            invariant
                n == entries@.len(),
                i <= n,
                es == entry_views(entries@),
                texts == entry_texts(es),
                header@ == index_header(file_path@),
                header_len == byte_len(header@),
                header_len <= 4 * header@.len(),
                header@.len() <= usize::MAX,
                size == byte_len(current@),
                size <= header_len + 0x4_0000_0000_0000_0000 + BATCH_SIZE,
                count <= i,
                (strings_view(messages@), current@, count as nat) == pack(header@, texts.take(i as int)),
            decreases n - i,
        {
            let (word, freq) = (&entries[i].0, entries[i].1);
            let mut entry: Vec<char> = Vec::new();
            push_str(&mut entry, word.as_str());
            push_str(&mut entry, " ");
            let digits = format_i64(freq);
            push_all(&mut entry, digits.as_slice());
            push_str(&mut entry, " ");
            assert(es[i as int] == (word@, freq));
            assert(entry@ =~= texts[i as int]);
            let entry_size = utf8_len(entry.as_slice());
            let elen = entry.len();
            assert(entry_size <= 4 * elen);
            assert(entry_size < 0x4_0000_0000_0000_0000);
            let ghost prev = pack(header@, texts.take(i as int));
            assert(texts.take(i + 1).drop_last() =~= texts.take(i as int));
            assert(texts.take(i + 1).last() == entry@);
            if size + entry_size > BATCH_SIZE as u128 {
                current.push('\n');
                let finished = chars_to_string(current.as_slice());
                let ghost before = strings_view(messages@);
                messages.push(finished);
                assert(strings_view(messages@) =~= before.push(prev.1.push('\n')));
                current = copy_chars(&header);
                size = header_len;
                count = 0;
            }
            let ghost cur_before = current@;
            push_all(&mut current, entry.as_slice());
            proof {
                lemma_encode_utf8_concat(cur_before, entry@);
            }
            size = size + entry_size;
            count = count + 1;
            i = i + 1;
        }
        assert(texts.take(n as int) =~= texts);
        if count > 0 {
            current.push('\n');
            let finished = chars_to_string(current.as_slice());
            let ghost before = strings_view(messages@);
            messages.push(finished);
            assert(strings_view(messages@) =~= before.push(pack(header@, texts).1.push('\n')));
        }
        assert(strings_view(messages@) == index_messages(file_path@, es));
        proof {
            word_freqs.lemma_entries_list_map();
            crate::word_freqs::lemma_lists_map_reordered(es, word_freqs.entries(), word_freqs@);
        }
        messages
    }

    /// Reads a search reply into its results.
    pub fn handle_search_reply(&self, reply: &str) -> (result: Result<Vec<DocPathFreqPair>, String>)
        ensures
            match search_reply_outcome(reply@) {
                Ok(rs) => result matches Ok(v) && doc_path_freqs_view(v@) == rs,
                Err(e) => result matches Err(m) && m@ == e,
            },
    {
        let chars = str_to_chars(reply);
        let lines = split_on_exec(chars.as_slice(), '\n');
        let ghost lv = seqs_of(lines@);
        proof {
            crate::text::lemma_split_on_len(reply@, '\n');
        }
        if lines.len() == 0 {
            let mut out: Vec<char> = Vec::new();
            push_str(&mut out, "Empty response");
            return Err(chars_to_string(out.as_slice()));
        }
        let parts = split_runs(lines[0].as_slice(), CharClass::NonWhiteSpace);
        let ghost pv = seqs_of(parts@);
        assert(lv[0] == lines@[0]@);
        if parts.len() < 2 || !is_literal(parts[0].as_slice(), "SEARCH_REPLY") {
            proof {
                if parts@.len() >= 2 {
                    assert(pv[0] == parts@[0]@);
                }
            }
            let mut out: Vec<char> = Vec::new();
            push_str(&mut out, "Invalid reply format");
            return Err(chars_to_string(out.as_slice()));
        }
        assert(pv[0] == parts@[0]@ && pv[1] == parts@[1]@);
        let num_results = match parse_usize(parts[1].as_slice()) {
            Some(n) => n,
            None => {
                let mut out: Vec<char> = Vec::new();
                push_str(&mut out, "Invalid result count");
                return Err(chars_to_string(out.as_slice()));
            },
        };
        let mut results: Vec<DocPathFreqPair> = Vec::new();
        if num_results == 0 {
            assert(doc_path_freqs_view(results@) =~= Seq::<(Seq<char>, i64)>::empty());
            return Ok(results);
        }
        let ghost rest = lv.drop_first();
        let mut i: usize = 1;
        assert(rest.take(0) =~= Seq::<Seq<char>>::empty());
        assert(doc_path_freqs_view(results@) =~= results_of_lines(rest.take(0)));
        while i < lines.len()
            invariant
                1 <= i <= lines@.len(),
                lv == seqs_of(lines@),
                rest == lv.drop_first(),
                doc_path_freqs_view(results@) == results_of_lines(rest.take(i - 1)),
            decreases lines@.len() - i,
        {
            let line = &lines[i];
            let ghost lsv = line@;
            assert(lv[i as int] == lsv);
            assert(rest.take(i as int).drop_last() =~= rest.take(i - 1));
            assert(rest.take(i as int).last() == lsv);
            let ghost before = doc_path_freqs_view(results@);
            if line.len() > 0 {
                match rfind_char_exec(line.as_slice(), ' ') {
                    Some(last_space) => {
                        proof {
                            crate::text::lemma_rfind_char_bounds(lsv, ' ');
                        }
                        let tail = slice_chars(line.as_slice(), last_space + 1, line.len());
                        assert(tail@ =~= lsv.skip(last_space + 1));
                        match parse_i64(tail.as_slice()) {
                            Some(freq) => {
                                let head = slice_chars(line.as_slice(), 0, last_space);
                                assert(head@ =~= lsv.take(last_space as int));
                                let path = chars_to_string(head.as_slice());
                                results.push(DocPathFreqPair { document_path: path, word_frequency: freq });
                                assert(doc_path_freqs_view(results@) =~= before.push(
                                    (lsv.take(last_space as int), freq),
                                ));
                            },
                            None => {},
                        }
                    },
                    None => {},
                }
            }
            assert(doc_path_freqs_view(results@) =~= results_of_lines(rest.take(i as int)));
            i = i + 1;
        }
        assert(rest.take(lines@.len() - 1) =~= rest);
        Ok(results)
    }
}

} // verus!
