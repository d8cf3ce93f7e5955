//! The server's side of the protocol: the answer to each request line, the
//! effect of the request on the index store, and the table of connected clients.
use vstd::prelude::*;
use crate::decimal::{format_i64, format_usize, int_decimal, parse_i64, parse_i64_spec};
use crate::index_store::{apply_update, IndexStore, IndexStoreView};
use crate::search::{
    count_above,
    lemma_ranked_top_places,
    pair_view,
    pairs_view,
    path_of,
    ranked_top,
    search_candidates,
    MAX_RESULTS,
};
use crate::text::{
    chars_eq,
    chars_to_string,
    fields,
    find,
    find_exec,
    push_all,
    push_str,
    seqs_of,
    slice_chars,
    split_runs,
    str_to_chars,
    strings_view,
    CharClass,
};
use crate::word_freqs::WordFrequencies;
use crate::index_store::update_views;
use vstd::utf8::{decode_utf8, valid_utf8};
use vstd::string::StringExecFns;

verus! {

broadcast use vstd::seq_lib::group_to_multiset_ensures;

/// A connected client: its number and the address it connected from.
#[derive(Debug, Clone)]
pub struct ClientInfo {
    pub client_id: i32,
    pub ip_address: String,
    pub port: i32,
}

impl View for ClientInfo {
    type V = (i32, Seq<char>, i32);

    open spec fn view(&self) -> (i32, Seq<char>, i32) {
        (self.client_id, self.ip_address@, self.port)
    }
}

impl ClientInfo {
    pub fn new(client_id: i32, ip_address: String, port: i32) -> (result: Self)
        ensures
            result@ == (client_id, ip_address@, port),
    {
        ClientInfo { client_id, ip_address, port }
    }
}

/// The frequencies an INDEX_REQUEST gives after its first `n` word/frequency
/// pairs: each pair whose frequency reads as an `i64` sets that word's
/// frequency, a later pair for the same word winning.
pub open spec fn index_pair_freqs(parts: Seq<Seq<char>>, n: nat) -> Map<Seq<char>, i64>
    decreases n,
{
    if n == 0 {
        Map::empty()
    } else {
        let m = index_pair_freqs(parts, (n - 1) as nat);
        let i: int = (2 * n) as int;
        match parse_i64_spec(parts[i + 1]) {
            Some(f) => m.insert(parts[i], f),
            None => m,
        }
    }
}

/// The number of whole word/frequency pairs after the request name and the path.
pub open spec fn index_pair_count(parts: Seq<Seq<char>>) -> nat {
    if parts.len() < 2 {
        0
    } else {
        ((parts.len() - 2) / 2) as nat
    }
}

/// The word frequencies that an INDEX_REQUEST carries.
pub open spec fn index_request_freqs(parts: Seq<Seq<char>>) -> Map<Seq<char>, i64> {
    index_pair_freqs(parts, index_pair_count(parts))
}

pub open spec fn is_index_request(parts: Seq<Seq<char>>) -> bool {
    parts.len() >= 2 && parts[0] == "INDEX_REQUEST"@
}

pub open spec fn is_search_request(parts: Seq<Seq<char>>) -> bool {
    parts.len() >= 2 && parts[0] == "SEARCH_REQUEST"@
}

/// The number a path gets when it is indexed: its own, or the next one.
pub open spec fn number_for(v: IndexStoreView, path: Seq<char>) -> i64 {
    if v.documents.contains_key(path) {
        v.documents[path]
    } else {
        v.next_document_number
    }
}

/// The store after a request: an INDEX_REQUEST numbers its path and records
/// the document's word frequencies; every other request leaves it as it was.
pub open spec fn store_after(v: IndexStoreView, parts: Seq<Seq<char>>) -> IndexStoreView {
    if is_index_request(parts) {
        let path = parts[1];
        let doc = number_for(v, path);
        IndexStoreView {
            documents: v.documents.insert(path, doc),
            next_document_number: if v.documents.contains_key(path) {
                v.next_document_number
            } else {
                (v.next_document_number + 1) as i64
            },
            terms: apply_update(v.terms, doc, index_request_freqs(parts)),
        }
    } else {
        v
    }
}

/// The line a search reply gives a result: `Client <c>:<from "folder" on> <freq>`,
/// where `<c>` is the character after the first `client_` of the path and
/// "folder" is looked for from that `client_` on; nothing when the path lacks either.
pub open spec fn reply_line(path: Seq<char>, freq: i64) -> Seq<char> {
    match find(path, "client_"@) {
        Some(cp) => match find(path.skip(cp), "folder"@) {
            Some(fp) => "Client "@ + seq![path[cp + 7]] + ":"@ + path.skip(cp + fp) + " "@
                + int_decimal(freq as int) + "\n"@,
            None => seq![],
        },
        None => seq![],
    }
}

/// Whether a search reply can give the path its line: the character after
/// `client_` is taken as one byte, so it must be ASCII.
pub open spec fn reply_path_safe(path: Seq<char>) -> bool {
    match find(path, "client_"@) {
        Some(cp) => match find(path.skip(cp), "folder"@) {
            Some(fp) => (path[cp + 7] as u32) < 0x80,
            None => true,
        },
        None => true,
    }
}

pub open spec fn reply_lines(r: Seq<(Seq<char>, i64)>) -> Seq<char>
    decreases r.len(),
{
    if r.len() == 0 {
        seq![]
    } else {
        reply_lines(r.drop_last()) + reply_line(r.last().0, r.last().1)
    }
}

/// The reply to a search with the results `r`: their count, then their lines.
pub open spec fn search_reply(r: Seq<(Seq<char>, i64)>) -> Seq<char> {
    "SEARCH_REPLY "@ + int_decimal(r.len() as int) + "\n"@ + reply_lines(r)
}

/// The reply to a request with the fields `parts`, from a client numbered
/// `client_id`, to a store `v` (before the request), where `r` stands for
/// the results of a search.
pub open spec fn reply_to(
    v: IndexStoreView,
    parts: Seq<Seq<char>>,
    client_id: i32,
    r: Seq<(Seq<char>, i64)>,
) -> Seq<char> {
    if parts.len() == 0 {
        "ERROR Empty request\n"@
    } else if parts[0] == "REGISTER_REQUEST"@ {
        "REGISTER_REPLY "@ + int_decimal(client_id as int) + "\n"@
    } else if parts[0] == "INDEX_REQUEST"@ {
        if parts.len() < 2 {
            "ERROR Invalid index request format\n"@
        } else {
            "INDEX_REPLY SUCCESS\n"@
        }
    } else if parts[0] == "SEARCH_REQUEST"@ {
        if parts.len() < 2 {
            "ERROR Empty search terms\n"@
        } else {
            search_reply(r)
        }
    } else if parts[0] == "GET_DOC_PATH"@ {
        if parts.len() != 2 {
            "ERROR Invalid document ID request\n"@
        } else {
            match parse_i64_spec(parts[1]) {
                Some(id) => if v.has_number(id) {
                    "DOC_PATH "@ + path_of(v, id) + "\n"@
                } else {
                    "ERROR Document not found\n"@
                },
                None => "ERROR Invalid document ID\n"@,
            }
        }
    } else if ends_session(parts) {
        seq![]
    } else {
        "ERROR Invalid request\n"@
    }
}

/// Whether a request ends the client's session: a QUIT_REQUEST, which gets
/// no reply.
pub open spec fn ends_session(parts: Seq<Seq<char>>) -> bool {
    parts.len() > 0 && parts[0] == "QUIT_REQUEST"@
}

/// Whether `r` can be the results of the search a request asks for.
pub open spec fn search_outcome(v: IndexStoreView, parts: Seq<Seq<char>>, r: Seq<(Seq<char>, i64)>) -> bool {
    is_search_request(parts) ==> ranked_top(r, search_candidates(v, parts.drop_first()), MAX_RESULTS as nat)
}

/// Whether a search may show the candidate `c`: fewer than `MAX_RESULTS`
/// candidates have a higher frequency (which of equal ones are shown is
/// left open).
pub open spec fn may_be_shown(cands: Seq<(Seq<char>, i64)>, c: (Seq<char>, i64)) -> bool {
    count_above(cands, c.1) < MAX_RESULTS
}

/// The requests the server answers without failing: indexing a new path
/// needs a free document number, and every document a search may show
/// must have a path whose line can be written.
pub open spec fn request_admissible(v: IndexStoreView, parts: Seq<Seq<char>>) -> bool {
    &&& (is_index_request(parts) && !v.documents.contains_key(parts[1]))
        ==> v.next_document_number < i64::MAX
    &&& is_search_request(parts) ==> forall|k: int|
        0 <= k < search_candidates(v, parts.drop_first()).len() && may_be_shown(
            search_candidates(v, parts.drop_first()),
            #[trigger] search_candidates(v, parts.drop_first())[k],
        ) ==> reply_path_safe(search_candidates(v, parts.drop_first())[k].0)
}

/// The line `get_connected_clients` gives a client.
pub open spec fn client_line(c: (i32, Seq<char>, i32)) -> Seq<char> {
    "Client ID: "@ + int_decimal(c.0 as int) + ", IP: "@ + c.1 + ", Port: "@ + int_decimal(c.2 as int)
}

/// The lines of the clients `cs`.
pub open spec fn client_lines(cs: Seq<(i32, Seq<char>, i32)>) -> Seq<Seq<char>> {
    cs.map_values(|c: (i32, Seq<char>, i32)| client_line(c))
}

pub open spec fn client_views(cs: Seq<ClientInfo>) -> Seq<(i32, Seq<char>, i32)> {
    cs.map_values(|c: ClientInfo| c@)
}

pub open spec fn ids_distinct(cs: Seq<(i32, Seq<char>, i32)>) -> bool {
    forall|i: int, j: int| 0 <= i < cs.len() && 0 <= j < cs.len() && i != j ==> cs[i].0 != cs[j].0
}

/// `cs` with `c` in it: in place of the client with the same number, or last.
pub open spec fn put_client(cs: Seq<(i32, Seq<char>, i32)>, c: (i32, Seq<char>, i32)) -> Seq<(i32, Seq<char>, i32)> {
    if exists|i: int| 0 <= i < cs.len() && cs[i].0 == c.0 {
        cs.update(choose|i: int| 0 <= i < cs.len() && cs[i].0 == c.0, c)
    } else {
        cs.push(c)
    }
}

/// `cs` without the client numbered `id`.
pub open spec fn drop_client(cs: Seq<(i32, Seq<char>, i32)>, id: i32) -> Seq<(i32, Seq<char>, i32)>
    decreases cs.len(),
{
    if cs.len() == 0 {
        cs
    } else {
        let r = drop_client(cs.drop_last(), id);
        if cs.last().0 != id {
            r.push(cs.last())
        } else {
            r
        }
    }
}

/// `std::str::from_utf8`: the text that `bytes` encode, when they are valid UTF-8.
#[verifier::external_body]
fn decode_utf8_bytes(bytes: &[u8]) -> (result: Option<String>)
    ensures
        match result {
            Some(s) => valid_utf8(bytes@) && s@ == decode_utf8(bytes@),
            None => !valid_utf8(bytes@),
        },
{
    match std::str::from_utf8(bytes) {
        Ok(s) => Some(s.to_string()),
        Err(_) => None,
    }
}

/// The text a chunk of received bytes adds to a message: nothing when the
/// chunk is not valid UTF-8.
pub open spec fn chunk_text(chunk: Seq<u8>) -> Seq<char> {
    if valid_utf8(chunk) {
        decode_utf8(chunk)
    } else {
        seq![]
    }
}

/// Adds a chunk of received bytes to `message`; says whether the message is
/// now complete, that is, ends with a line end.
pub fn append_received(message: &mut String, chunk: &[u8]) -> (complete: bool)
    ensures
        final(message)@ == old(message)@ + chunk_text(chunk@),
        complete == (final(message)@.len() > 0 && final(message)@.last() == '\n'),
{
    match decode_utf8_bytes(chunk) {
        Some(text) => {
            message.append(text.as_str());
        },
        None => {
            assert(old(message)@ + chunk_text(chunk@) =~= old(message)@);
        },
    }
    let all = str_to_chars(message.as_str());
    all.len() > 0 && all[all.len() - 1] == '\n'
}

/// The largest number of documents the server's batch processor gathers
/// before it records them.
pub const MAX_PENDING_DOCUMENTS: usize = 100;

/// A document's word frequencies, waiting to be recorded.
pub struct IndexBatch {
    pub document_number: i64,
    pub word_frequencies: WordFrequencies,
}

/// The documents the server's batch processor has gathered.
pub struct PendingBatches {
    items: Vec<(i64, WordFrequencies)>,
}

impl View for PendingBatches {
    type V = Seq<(i64, Map<Seq<char>, i64>)>;

    closed spec fn view(&self) -> Seq<(i64, Map<Seq<char>, i64>)> {
        update_views(self.items@)
    }
}

impl PendingBatches {
    pub closed spec fn wf(&self) -> bool {
        &&& self.items@.len() < MAX_PENDING_DOCUMENTS
        &&& forall|i: int| 0 <= i < self.items@.len() ==> (#[trigger] self.items@[i]).1.wf()
    }

    pub fn new() -> (result: Self)
        ensures
            result.wf(),
            result@ == Seq::<(i64, Map<Seq<char>, i64>)>::empty(),
    {
        let r = PendingBatches { items: Vec::new() };
        assert(r@ =~= Seq::<(i64, Map<Seq<char>, i64>)>::empty());
        r
    }

    /// Gathers a document; when `MAX_PENDING_DOCUMENTS` are gathered, hands
    /// them all back to be recorded and starts over.
    pub fn push(&mut self, batch: IndexBatch) -> (result: Option<Vec<(i64, WordFrequencies)>>)
        requires
            old(self).wf(),
            batch.word_frequencies.wf(),
        ensures
            final(self).wf(),
            old(self)@.len() + 1 >= MAX_PENDING_DOCUMENTS ==> (result matches Some(v) && update_views(
                v@,
            ) == old(self)@.push((batch.document_number, batch.word_frequencies@)) && (forall|i: int|
                0 <= i < v@.len() ==> (#[trigger] v@[i]).1.wf()) && final(self)@.len() == 0),
            old(self)@.len() + 1 < MAX_PENDING_DOCUMENTS ==> (result is None && final(self)@ == old(
                self,
            )@.push((batch.document_number, batch.word_frequencies@))),
    {
        let ghost entry = (batch.document_number, batch.word_frequencies@);
        let ghost before = self@;
        self.items.push((batch.document_number, batch.word_frequencies));
        assert(self@ =~= before.push(entry));
        if self.items.len() >= MAX_PENDING_DOCUMENTS {
            let mut full: Vec<(i64, WordFrequencies)> = Vec::new();
            std::mem::swap(&mut full, &mut self.items);
            assert(self@ =~= Seq::<(i64, Map<Seq<char>, i64>)>::empty());
            Some(full)
        } else {
            None
        }
    }

    /// Hands back everything gathered so far and starts over.
    pub fn take_all(&mut self) -> (result: Vec<(i64, WordFrequencies)>)
        requires
            old(self).wf(),
        ensures
            final(self).wf(),
            update_views(result@) == old(self)@,
            forall|i: int| 0 <= i < result@.len() ==> (#[trigger] result@[i]).1.wf(),
            final(self)@.len() == 0,
    {
        let mut all: Vec<(i64, WordFrequencies)> = Vec::new();
        std::mem::swap(&mut all, &mut self.items);
        assert(self@ =~= Seq::<(i64, Map<Seq<char>, i64>)>::empty());
        all
    }
}

/// Whether `message` ends the client's session (a QUIT_REQUEST).
pub fn is_quit_request(message: &str) -> (result: bool)
    ensures
        result == ends_session(fields(message@)),
{
    let chars = str_to_chars(message);
    let parts = split_runs(chars.as_slice(), CharClass::NonWhiteSpace);
    let ghost pv = seqs_of(parts@);
    assert(pv == fields(message@));
    if parts.len() == 0 {
        return false;
    }
    assert(pv[0] == parts@[0]@);
    is_literal(&parts[0], "QUIT_REQUEST")
}

/// A command of the server's console.
#[derive(Debug, Clone, Copy, PartialEq, Eq)]
pub enum ServerCommand {
    Quit,
    List,
    Help,
    Unrecognized,
}

pub open spec fn server_command_of(command: Seq<char>) -> ServerCommand {
    if command == "quit"@ {
        ServerCommand::Quit
    } else if command == "list"@ {
        ServerCommand::List
    } else if command == "help"@ {
        ServerCommand::Help
    } else {
        ServerCommand::Unrecognized
    }
}

/// Reads a (trimmed) console command.
pub fn parse_server_command(command: &str) -> (result: ServerCommand)
    ensures
        result == server_command_of(command@),
{
    let c = str_to_chars(command);
    if is_literal(&c, "quit") {
        ServerCommand::Quit
    } else if is_literal(&c, "list") {
        ServerCommand::List
    } else if is_literal(&c, "help") {
        ServerCommand::Help
    } else {
        ServerCommand::Unrecognized
    }
}

/// What the server engine holds.
#[verifier::ext_equal]
pub struct ServerView {
    pub store: IndexStoreView,
    pub clients: Seq<(i32, Seq<char>, i32)>,
    pub next_client_id: i32,
    pub should_stop: bool,
}

/// The server's state: the index store, the connected clients and the
/// numbering of clients.
pub struct ServerProcessingEngine {
    store: IndexStore,
    connected_clients: Vec<ClientInfo>,
    next_client_id: i32,
    should_stop: bool,
}

impl View for ServerProcessingEngine {
    type V = ServerView;

    closed spec fn view(&self) -> ServerView {
        ServerView {
            store: self.store@,
            clients: client_views(self.connected_clients@),
            next_client_id: self.next_client_id,
            should_stop: self.should_stop,
        }
    }
}

/// Whether the characters `cs` are the literal `lit`.
fn is_literal(cs: &Vec<char>, lit: &str) -> (result: bool)
    ensures
        result == (cs@ == lit@),
{
    let l = str_to_chars(lit);
    chars_eq(cs.as_slice(), l.as_slice())
}

pub proof fn lemma_client_folder_apart(path: Seq<char>, cp: int, fp: int)
    requires
        crate::text::occurs_at(path, "client_"@, cp),
        crate::text::occurs_at(path.skip(cp), "folder"@, fp),
    ensures
        cp + 7 < path.len(),
        fp >= 7,
        cp + fp <= path.len(),
{
    reveal_strlit("client_");
    reveal_strlit("folder");
    let s = path.skip(cp);
    if fp < 7 {
        assert(s.subrange(fp, fp + 6)[0] == 'f');
        assert(s[fp] == 'f');
        assert(s.subrange(0, 7)[fp] == s[fp]);
    }
}

/// The fields after the first, as strings.
fn terms_after_first(parts: &Vec<Vec<char>>) -> (result: Vec<String>)
    requires
        parts@.len() >= 1,
    ensures
        strings_view(result@) == seqs_of(parts@).drop_first(),
{
    let ghost pv = seqs_of(parts@);
    let mut terms: Vec<String> = Vec::new();
    let mut k: usize = 1;
    assert(pv.drop_first().take(0) =~= Seq::<Seq<char>>::empty());
    while k < parts.len()
        invariant
            1 <= k <= parts@.len(),
            pv == seqs_of(parts@),
            strings_view(terms@) == pv.drop_first().take(k - 1),
        decreases parts@.len() - k,
    {
        let t = chars_to_string(parts[k].as_slice());
        assert(pv[k as int] == parts@[k as int]@);
        assert(pv.drop_first()[k - 1] == pv[k as int]);
        let ghost old_tv = strings_view(terms@);
        terms.push(t);
        assert(strings_view(terms@) =~= old_tv.push(t@));
        assert(old_tv.push(t@) =~= pv.drop_first().take(k as int));
        k = k + 1;
    }
    assert(pv.drop_first().take(parts@.len() - 1) =~= pv.drop_first());
    terms
}

/// How many of `cands` have a frequency above `f`.
fn count_candidates_above(cands: &Vec<(String, i64)>, f: i64) -> (result: usize)
    ensures
        result == count_above(pairs_view(cands@), f),
{
    let ghost cv = pairs_view(cands@);
    let mut n: usize = 0;
    let mut j: usize = 0;
    assert(cv.take(0) =~= Seq::<(Seq<char>, i64)>::empty());
    while j < cands.len()
        invariant
            j <= cands@.len(),
            cv == pairs_view(cands@),
            n == count_above(cv.take(j as int), f),
            n <= j,
        decreases cands@.len() - j,
    {
        assert(cv.take(j + 1).drop_last() =~= cv.take(j as int));
        assert(cv.take(j + 1).last() == pair_view(cands@[j as int]));
        if cands[j].1 > f {
            n = n + 1;
        }
        j = j + 1;
    }
    assert(cv.take(cands@.len() as int) =~= cv);
    n
}

/// Whether a search reply can give `path` its line.
fn path_reply_safe(path: &String) -> (result: bool)
    ensures
        result == reply_path_safe(path@),
{
    let p = str_to_chars(path.as_str());
    let client_pat = str_to_chars("client_");
    let folder_pat = str_to_chars("folder");
    match find_exec(p.as_slice(), client_pat.as_slice()) {
        Some(cp) => {
            proof {
                crate::text::lemma_find_from_properties(path@, "client_"@, 0);
            }
            let tail = slice_chars(p.as_slice(), cp, p.len());
            assert(tail@ =~= path@.skip(cp as int));
            match find_exec(tail.as_slice(), folder_pat.as_slice()) {
                Some(fp) => {
                    proof {
                        crate::text::lemma_find_from_properties(tail@, "folder"@, 0);
                        lemma_client_folder_apart(path@, cp as int, fp as int);
                    }
                    (p[cp + 7] as u32) < 0x80
                },
                None => true,
            }
        },
        None => true,
    }
}

/// The line of one search result (empty when the path lacks `client_` or `folder`).
fn format_reply_line(out: &mut Vec<char>, path: &String, freq: i64)
    requires
        reply_path_safe(path@),
    ensures
        final(out)@ == old(out)@ + reply_line(path@, freq),
{
    let p = str_to_chars(path.as_str());
    let client_pat = str_to_chars("client_");
    let folder_pat = str_to_chars("folder");
    match find_exec(p.as_slice(), client_pat.as_slice()) {
        Some(cp) => {
            proof {
                crate::text::lemma_find_from_properties(path@, "client_"@, 0);
            }
            let tail = slice_chars(p.as_slice(), cp, p.len());
            assert(tail@ =~= path@.skip(cp as int));
            match find_exec(tail.as_slice(), folder_pat.as_slice()) {
                Some(fp) => {
                    proof {
                        crate::text::lemma_find_from_properties(path@, "client_"@, 0);
                        crate::text::lemma_find_from_properties(tail@, "folder"@, 0);
                        lemma_client_folder_apart(path@, cp as int, fp as int);
                    }
                    let c = p[cp + 7];
                    let rel = slice_chars(p.as_slice(), cp + fp, p.len());
                    assert(rel@ =~= path@.skip(cp + fp));
                    let ghost start = out@;
                    push_str(out, "Client ");
                    out.push(c);
                    push_str(out, ":");
                    push_all(out, rel.as_slice());
                    push_str(out, " ");
                    let num = format_i64(freq);
                    push_all(out, num.as_slice());
                    push_str(out, "\n");
                    assert(out@ =~= start + ("Client "@ + seq![c] + ":"@ + path@.skip(cp + fp) + " "@
                        + int_decimal(freq as int) + "\n"@));
                },
                None => {
                    assert(old(out)@ + reply_line(path@, freq) =~= old(out)@);
                },
            }
        },
        None => {
            assert(old(out)@ + reply_line(path@, freq) =~= old(out)@);
        },
    }
}

/// The reply to a search whose results are `results`.
fn format_search_reply(results: &Vec<(String, i64)>) -> (result: Vec<char>)
    requires
        forall|k: int| 0 <= k < results@.len() ==> reply_path_safe(#[trigger] results@[k].0@),
    ensures
        result@ == search_reply(pairs_view(results@)),
{
    let mut out: Vec<char> = Vec::new();
    push_str(&mut out, "SEARCH_REPLY ");
    let count = format_usize(results.len());
    push_all(&mut out, count.as_slice());
    push_str(&mut out, "\n");
    let ghost head = out@;
    let ghost rv = pairs_view(results@);
    assert(head == "SEARCH_REPLY "@ + int_decimal(rv.len() as int) + "\n"@);
    let mut i: usize = 0;
    assert(rv.take(0) =~= Seq::<(Seq<char>, i64)>::empty());
    assert(out@ =~= head + reply_lines(rv.take(0)));
    while i < results.len()
        invariant
            i <= results@.len(),
            rv == pairs_view(results@),
            forall|k: int| 0 <= k < results@.len() ==> reply_path_safe(#[trigger] results@[k].0@),
            out@ == head + reply_lines(rv.take(i as int)),
        decreases results@.len() - i,
    {
        let ghost before = out@;
        format_reply_line(&mut out, &results[i].0, results[i].1);
        assert(rv.take(i + 1).drop_last() =~= rv.take(i as int));
        assert(rv.take(i + 1).last() == pair_view(results@[i as int]));
        assert(out@ =~= head + reply_lines(rv.take(i + 1)));
        i = i + 1;
    }
    assert(rv.take(results@.len() as int) =~= rv);
    out
}

impl ServerProcessingEngine {
    pub closed spec fn wf(&self) -> bool {
        &&& self.store.wf()
        &&& ids_distinct(client_views(self.connected_clients@))
    }

    /// A server over `store`, with no clients yet; the first client will be number 1.
    pub fn new(store: IndexStore) -> (result: Self)
        requires
            store.wf(),
        ensures
            result.wf(),
            result@.store == store@,
            result@.clients == Seq::<(i32, Seq<char>, i32)>::empty(),
            result@.next_client_id == 1,
            !result@.should_stop,
    {
        let r = ServerProcessingEngine {
            store,
            connected_clients: Vec::new(),
            next_client_id: 1,
            should_stop: false,
        };
        assert(client_views(r.connected_clients@) =~= Seq::<(i32, Seq<char>, i32)>::empty());
        r
    }

    /// The index store.
    pub fn store(&self) -> (result: &IndexStore)
        requires
            self.wf(),
        ensures
            result@ == self@.store,
            result.wf(),
    {
        &self.store
    }

    /// Whether `process_message` can answer `message`: an index request for a
    /// new path needs a free document number, and every document a search
    /// may return must have a path whose reply line can be written.
    pub fn can_process_message(&self, message: &str) -> (result: bool)
        requires
            self.wf(),
        ensures
            result == request_admissible(self@.store, fields(message@)),
    {
        let chars = str_to_chars(message);
        let parts = split_runs(chars.as_slice(), CharClass::NonWhiteSpace);
        let ghost pv = seqs_of(parts@);
        let ghost v = self@.store;
        assert(pv == fields(message@));
        if parts.len() < 2 {
            return true;
        }
        assert(pv[0] == parts@[0]@);
        assert(pv[1] == parts@[1]@);
        proof {
            reveal_strlit("INDEX_REQUEST");
            reveal_strlit("SEARCH_REQUEST");
        }
        if is_literal(&parts[0], "INDEX_REQUEST") {
            let path = chars_to_string(parts[1].as_slice());
            assert(!is_search_request(pv));
            return self.store.can_put_document(path.as_str());
        }
        if is_literal(&parts[0], "SEARCH_REQUEST") {
            let terms = terms_after_first(&parts);
            let cands = self.store.matching_documents(terms.as_slice());
            let ghost cv = pairs_view(cands@);
            assert(cv == search_candidates(v, pv.drop_first()));
            assert(is_search_request(pv));
            let mut i: usize = 0;
            while i < cands.len()
                invariant
                    i <= cands@.len(),
                    cv == pairs_view(cands@),
                    cv == search_candidates(v, pv.drop_first()),
                    is_search_request(pv),
                    v == self@.store,
                    pv == fields(message@),
                    forall|k: int| 0 <= k < i && may_be_shown(cv, #[trigger] cv[k]) ==> reply_path_safe(cv[k].0),
                decreases cands@.len() - i,
            {
                assert(cv[i as int] == pair_view(cands@[i as int]));
                if !path_reply_safe(&cands[i].0) {
                    let above = count_candidates_above(&cands, cands[i].1);
                    if above < MAX_RESULTS {
                        proof {
                            assert(may_be_shown(cv, cv[i as int]));
                            assert(!request_admissible(v, pv));
                        }
                        return false;
                    }
                }
                i = i + 1;
            }
            assert(!is_index_request(pv));
            return true;
        }
        true
    }

    /// Answers one request line from `client_info`'s client, and applies what
    /// the request does to the store.
    pub fn process_message(&mut self, message: &str, client_info: &ClientInfo) -> (result: String)
        requires
            old(self).wf(),
            request_admissible(old(self)@.store, fields(message@)),
        ensures
            final(self).wf(),
            final(self)@.clients == old(self)@.clients,
            final(self)@.next_client_id == old(self)@.next_client_id,
            final(self)@.should_stop == old(self)@.should_stop,
            final(self)@.store == store_after(old(self)@.store, fields(message@)),
            exists|r: Seq<(Seq<char>, i64)>|
                search_outcome(old(self)@.store, fields(message@), r) && result@ == reply_to(
                    old(self)@.store,
                    fields(message@),
                    client_info.client_id,
                    r,
                ),
    {
        let chars = str_to_chars(message);
        let parts = split_runs(chars.as_slice(), CharClass::NonWhiteSpace);
        let ghost pv = seqs_of(parts@);
        let ghost v = old(self)@.store;
        let ghost none = Seq::<(Seq<char>, i64)>::empty();
        assert(pv == fields(message@));
        let mut out: Vec<char> = Vec::new();
        if parts.len() == 0 {
            push_str(&mut out, "ERROR Empty request\n");
            assert(search_outcome(v, pv, none));
            assert(self@ =~= old(self)@);
            return chars_to_string(out.as_slice());
        }
        assert(pv[0] == parts@[0]@);
        proof {
            reveal_strlit("REGISTER_REQUEST");
            reveal_strlit("INDEX_REQUEST");
            reveal_strlit("SEARCH_REQUEST");
            reveal_strlit("GET_DOC_PATH");
        }
        if is_literal(&parts[0], "REGISTER_REQUEST") {
            push_str(&mut out, "REGISTER_REPLY ");
            let id = format_i64(client_info.client_id as i64);
            push_all(&mut out, id.as_slice());
            push_str(&mut out, "\n");
            assert(search_outcome(v, pv, none));
            assert(out@ == reply_to(v, pv, client_info.client_id, none));
            assert(self@ =~= old(self)@);
            return chars_to_string(out.as_slice());
        }
        if is_literal(&parts[0], "INDEX_REQUEST") {
            if parts.len() < 2 {
                push_str(&mut out, "ERROR Invalid index request format\n");
                assert(search_outcome(v, pv, none));
                assert(self@ =~= old(self)@);
                return chars_to_string(out.as_slice());
            }
            let freqs = self.index_request_frequencies(&parts);
            let doc_path = chars_to_string(parts[1].as_slice());
            assert(doc_path@ == pv[1]);
            let doc_num = self.store.put_document(doc_path);
            assert(doc_num == number_for(v, pv[1]));
            let ghost mid = self.store@;
            assert(mid.documents =~= v.documents.insert(pv[1], doc_num));
            self.store.update_index(doc_num, freqs);
            push_str(&mut out, "INDEX_REPLY SUCCESS\n");
            assert(is_index_request(pv));
            assert(!is_search_request(pv));
            assert(search_outcome(v, pv, none));
            proof {
                assert(self@.store.documents =~= store_after(v, pv).documents);
                assert(self@.store =~= store_after(v, pv));
            }
            return chars_to_string(out.as_slice());
        }
        if is_literal(&parts[0], "SEARCH_REQUEST") {
            if parts.len() < 2 {
                push_str(&mut out, "ERROR Empty search terms\n");
                assert(search_outcome(v, pv, none));
                assert(self@ =~= old(self)@);
                return chars_to_string(out.as_slice());
            }
            let terms = terms_after_first(&parts);
            let results = self.store.search(terms.as_slice());
            let ghost rv = pairs_view(results@);
            let ghost cands = search_candidates(v, pv.drop_first());
            assert(strings_view(terms@) == pv.drop_first());
            proof {
                assert(ranked_top(rv, cands, MAX_RESULTS as nat));
                let rest = choose|rest: Seq<(Seq<char>, i64)>|
                    {
                        &&& (rv + rest).to_multiset() == cands.to_multiset()
                        &&& forall|x: int, y: int|
                            0 <= x < rest.len() && 0 <= y < rv.len() ==> rest[x].1 <= rv[y].1
                    };
                assert forall|k: int| 0 <= k < results@.len() implies reply_path_safe(
                    #[trigger] results@[k].0@,
                ) by {
                    assert(rv[k] == pair_view(results@[k]));
                    assert((rv + rest)[k] == rv[k]);
                    assert((rv + rest).to_multiset().count(rv[k]) > 0);
                    assert(cands.contains(rv[k]));
                    let j = choose|j: int| 0 <= j < cands.len() && cands[j] == rv[k];
                    lemma_ranked_top_places(rv, cands, MAX_RESULTS as nat, k);
                    assert(may_be_shown(cands, cands[j]));
                    assert(reply_path_safe(cands[j].0));
                }
            }
            let reply = format_search_reply(&results);
            assert(search_outcome(v, pv, rv));
            assert(reply@ == reply_to(v, pv, client_info.client_id, rv));
            assert(self@ =~= old(self)@);
            return chars_to_string(reply.as_slice());
        }
        if is_literal(&parts[0], "GET_DOC_PATH") {
            if parts.len() != 2 {
                push_str(&mut out, "ERROR Invalid document ID request\n");
            } else {
                match parse_i64(parts[1].as_slice()) {
                    Some(doc_id) => {
                        match self.store.get_document(doc_id) {
                            Some(path) => {
                                proof {
                                    self.store.lemma_wf_view();
                                    let q = path_of(v, doc_id);
                                    assert(v.documents[q] == doc_id);
                                    assert(q == path@);
                                }
                                push_str(&mut out, "DOC_PATH ");
                                push_str(&mut out, path.as_str());
                                push_str(&mut out, "\n");
                            },
                            None => {
                                push_str(&mut out, "ERROR Document not found\n");
                            },
                        }
                    },
                    None => {
                        push_str(&mut out, "ERROR Invalid document ID\n");
                    },
                }
            }
            assert(search_outcome(v, pv, none));
            assert(out@ == reply_to(v, pv, client_info.client_id, none));
            assert(self@ =~= old(self)@);
            return chars_to_string(out.as_slice());
        }
        proof {
            reveal_strlit("QUIT_REQUEST");
        }
        if is_literal(&parts[0], "QUIT_REQUEST") {
            assert(search_outcome(v, pv, none));
            assert(out@ =~= reply_to(v, pv, client_info.client_id, none));
            assert(self@ =~= old(self)@);
            return chars_to_string(out.as_slice());
        }
        push_str(&mut out, "ERROR Invalid request\n");
        assert(search_outcome(v, pv, none));
        assert(self@ =~= old(self)@);
        chars_to_string(out.as_slice())
    }

    /// The word frequencies of an INDEX_REQUEST with the fields `parts`.
    fn index_request_frequencies(&self, parts: &Vec<Vec<char>>) -> (result: WordFrequencies)
        requires
            parts@.len() >= 2,
        ensures
            result.wf(),
            result@ == index_request_freqs(seqs_of(parts@)),
    {
        let ghost pv = seqs_of(parts@);
        let mut freqs = WordFrequencies::new();
        let mut i: usize = 2;
        let ghost mut n: nat = 0;
        while i + 1 < parts.len()
            invariant
                parts@.len() >= 2,
                pv == seqs_of(parts@),
                i == 2 + 2 * n,
                n <= index_pair_count(pv),
                (i + 1 < parts@.len()) == (n < index_pair_count(pv)),
                freqs.wf(),
                freqs@ == index_pair_freqs(pv, n),
            decreases parts@.len() - i,
        {
            assert(pv[i as int] == parts@[i as int]@);
            assert(pv[i + 1] == parts@[i + 1]@);
            match parse_i64(parts[i + 1].as_slice()) {
                Some(freq) => {
                    let word = chars_to_string(parts[i].as_slice());
                    freqs.insert(word, freq);
                },
                None => {},
            }
            i = i + 2;
            proof {
                n = n + 1;
            }
        }
        freqs
    }

    /// Gives the next client number to a client that connected from
    /// `ip_address`:`port`, and lists it among the connected clients.
    pub fn register_client(&mut self, ip_address: String, port: i32) -> (result: ClientInfo)
        requires
            old(self).wf(),
        ensures
            final(self).wf(),
            result@ == (old(self)@.next_client_id, ip_address@, port),
            final(self)@.next_client_id == old(self)@.next_client_id.wrapping_add(1),
            final(self)@.clients == put_client(old(self)@.clients, result@),
            final(self)@.store == old(self)@.store,
            final(self)@.should_stop == old(self)@.should_stop,
    {
        let client_id = self.next_client_id;
        self.next_client_id = client_id.wrapping_add(1);
        let ip_copy = ip_address.clone();
        let stored = ClientInfo { client_id, ip_address: ip_copy, port };
        let info = ClientInfo { client_id, ip_address, port };
        let ghost cs = client_views(old(self).connected_clients@);
        let mut i: usize = 0;
        while i < self.connected_clients.len()
            invariant
                i <= self.connected_clients@.len(),
                cs == client_views(self.connected_clients@),
                cs == client_views(old(self).connected_clients@),
                ids_distinct(cs),
                old(self).wf(),
                client_id == old(self).next_client_id,
                self.next_client_id == old(self).next_client_id.wrapping_add(1),
                self.store == old(self).store,
                self.should_stop == old(self).should_stop,
                stored@ == (client_id, ip_address@, port),
                info@ == (client_id, ip_address@, port),
                forall|j: int| 0 <= j < i ==> cs[j].0 != client_id,
            decreases self.connected_clients@.len() - i,
        {
            if self.connected_clients[i].client_id == client_id {
                proof {
                    assert(cs[i as int].0 == client_id);
                    let k = choose|k: int| 0 <= k < cs.len() && cs[k].0 == client_id;
                    assert(k == i) by {
                        if k != i {
                            assert(ids_distinct(cs));
                        }
                    }
                }
                self.connected_clients.set(i, stored);
                proof {
                    assert(client_views(self.connected_clients@) =~= put_client(cs, info@));
                    let ncs = client_views(self.connected_clients@);
                    assert forall|a: int, b: int|
                        0 <= a < ncs.len() && 0 <= b < ncs.len() && a != b implies ncs[a].0
                        != ncs[b].0 by {
                        if a != i && b != i {
                            assert(ncs[a] == cs[a] && ncs[b] == cs[b]);
                        } else if a == i {
                            assert(ncs[b] == cs[b]);
                        } else {
                            assert(ncs[a] == cs[a]);
                        }
                    }
                }
                return info;
            }
            i = i + 1;
        }
        self.connected_clients.push(stored);
        proof {
            assert(client_views(self.connected_clients@) =~= cs.push(info@));
            assert(client_views(self.connected_clients@) == put_client(cs, info@));
            let ncs = client_views(self.connected_clients@);
            assert forall|a: int, b: int|
                0 <= a < ncs.len() && 0 <= b < ncs.len() && a != b implies ncs[a].0 != ncs[b].0 by {
                if a < cs.len() && b < cs.len() {
                    assert(ncs[a] == cs[a] && ncs[b] == cs[b]);
                } else if a < cs.len() {
                    assert(ncs[a] == cs[a]);
                } else {
                    assert(ncs[b] == cs[b]);
                }
            }
        }
        info
    }

    /// Forgets the client numbered `client_id` (when its connection ends).
    pub fn remove_client(&mut self, client_id: i32)
        requires
            old(self).wf(),
        ensures
            final(self).wf(),
            final(self)@.clients == drop_client(old(self)@.clients, client_id),
            final(self)@.store == old(self)@.store,
            final(self)@.next_client_id == old(self)@.next_client_id,
            final(self)@.should_stop == old(self)@.should_stop,
    {
        let ghost cs = client_views(old(self).connected_clients@);
        let mut kept: Vec<ClientInfo> = Vec::new();
        let mut old_clients: Vec<ClientInfo> = Vec::new();
        std::mem::swap(&mut old_clients, &mut self.connected_clients);
        let mut i: usize = 0;
        let mut rest = old_clients;
        let ghost all = rest@;
        let n = rest.len();
        assert(all.len() == n);
        assert(cs.take(0) =~= Seq::<(i32, Seq<char>, i32)>::empty());
        assert(client_views(kept@) =~= drop_client(cs.take(0), client_id));
        assert(all.skip(0) =~= all);
        while rest.len() > 0
            invariant
                cs == client_views(all),
                ids_distinct(cs),
                rest@ == all.skip(i as int),
                i <= all.len(),
                all.len() <= usize::MAX,
                client_views(kept@) == drop_client(cs.take(i as int), client_id),
                ids_distinct(client_views(kept@)),
                forall|a: int|
                    0 <= a < kept@.len() ==> exists|j: int|
                        0 <= j < i && cs[j].0 == (#[trigger] kept@[a]).client_id,
            decreases rest@.len(),
        {
            let c = rest.remove(0);
            assert(all.skip(i + 1) =~= all.skip(i as int).drop_first());
            assert(c@ == cs[i as int]);
            let ghost ct = cs.take(i + 1);
            assert(ct.drop_last() =~= cs.take(i as int));
            assert(ct.last() == c@);
            if c.client_id != client_id {
                let ghost before = client_views(kept@);
                let ghost kept_before = kept@;
                kept.push(c);
                proof {
                    assert(client_views(kept@) =~= before.push(c@));
                    let ncs = client_views(kept@);
                    assert forall|a: int, b: int|
                        0 <= a < ncs.len() && 0 <= b < ncs.len() && a != b implies ncs[a].0
                        != ncs[b].0 by {
                        if a < before.len() && b < before.len() {
                            assert(ncs[a] == before[a] && ncs[b] == before[b]);
                        } else if a < before.len() {
                            assert(kept@[a] == kept_before[a]);
                            let j = choose|j: int| 0 <= j < i && cs[j].0 == kept_before[a].client_id;
                            assert(cs[j].0 != cs[i as int].0);
                        } else {
                            assert(kept@[b] == kept_before[b]);
                            let j = choose|j: int| 0 <= j < i && cs[j].0 == kept_before[b].client_id;
                            assert(cs[j].0 != cs[i as int].0);
                        }
                    }
                    assert forall|a: int| 0 <= a < kept@.len() implies exists|j: int|
                        0 <= j < i + 1 && cs[j].0 == (#[trigger] kept@[a]).client_id by {
                        if a < kept_before.len() {
                            assert(kept@[a] == kept_before[a]);
                            let j = choose|j: int| 0 <= j < i && cs[j].0 == kept_before[a].client_id;
                            assert(0 <= j < i + 1 && cs[j].0 == kept@[a].client_id);
                        } else {
                            assert(cs[i as int].0 == kept@[a].client_id);
                        }
                    }
                }
            }
            i = i + 1;
        }
        assert(i == all.len());
        assert(cs.take(i as int) =~= cs);
        self.connected_clients = kept;
    }

    /// One line per connected client: its number, address and port.
    pub fn get_connected_clients(&self) -> (result: Vec<String>)
        requires
            self.wf(),
        ensures
            strings_view(result@) == client_lines(self@.clients),
    {
        let mut out: Vec<String> = Vec::new();
        let ghost cs = self@.clients;
        let mut i: usize = 0;
        while i < self.connected_clients.len()
            invariant
                i <= self.connected_clients@.len(),
                cs == client_views(self.connected_clients@),
                strings_view(out@) == client_lines(cs.take(i as int)),
            decreases self.connected_clients@.len() - i,
        {
            let c = &self.connected_clients[i];
            let mut line: Vec<char> = Vec::new();
            push_str(&mut line, "Client ID: ");
            let id = format_i64(c.client_id as i64);
            push_all(&mut line, id.as_slice());
            push_str(&mut line, ", IP: ");
            push_str(&mut line, c.ip_address.as_str());
            push_str(&mut line, ", Port: ");
            let port = format_i64(c.port as i64);
            push_all(&mut line, port.as_slice());
            assert(cs[i as int] == self.connected_clients@[i as int]@);
            assert(line@ =~= client_line(cs[i as int]));
            let s = chars_to_string(line.as_slice());
            let ghost before = out@;
            out.push(s);
            assert(strings_view(out@) =~= strings_view(before).push(s@));
            assert(client_lines(cs.take(i + 1)) =~= client_lines(cs.take(i as int)).push(
                client_line(cs[i as int]),
            ));
            assert(strings_view(out@) =~= client_lines(cs.take(i + 1)));
            i = i + 1;
        }
        assert(cs.take(cs.len() as int) =~= cs);
        out
    }

    /// Asks the server to stop.
    pub fn shutdown(&mut self)
        requires
            old(self).wf(),
        ensures
            final(self).wf(),
            final(self)@ == (ServerView { should_stop: true, ..old(self)@ }),
    {
        self.should_stop = true;
    }

    /// Whether the server was asked to stop.
    pub fn is_stopping(&self) -> (result: bool)
        ensures
            result == self@.should_stop,
    {
        self.should_stop
    }

    /// Records a batch of documents' word frequencies in the store.
    pub fn batch_update_index(&mut self, updates: Vec<(i64, WordFrequencies)>)
        requires
            old(self).wf(),
            forall|i: int| 0 <= i < updates@.len() ==> (#[trigger] updates@[i]).1.wf(),
        ensures
            final(self).wf(),
            final(self)@.store.documents == old(self)@.store.documents,
            final(self)@.store.next_document_number == old(self)@.store.next_document_number,
            final(self)@.store.terms == crate::index_store::apply_updates(
                old(self)@.store.terms,
                crate::index_store::update_views(updates@),
            ),
            final(self)@.clients == old(self)@.clients,
            final(self)@.next_client_id == old(self)@.next_client_id,
            final(self)@.should_stop == old(self)@.should_stop,
    {
        self.store.batch_update_index(updates);
    }
}

} // verus!
