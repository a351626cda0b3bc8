//! The decisions of the interactive workbench: its command line, when to
//! start a search, the tally of a running search, the saved sessions and
//! the colour slot of a trace service. Windows, dialogs, threads and files
//! stay with the program that drives these functions.

use crate::search::{SearchBatch, SearchConfig, SearchHit, SearchStage};
use crate::trace::{trim_chars, trim_whitespace};
use crate::types::{LineNumber, SearchMode, SearchQuery};
use std::collections::BTreeMap;
use std::ops::Range;
use std::path::PathBuf;
use vstd::prelude::*;
use vstd::string::StrSliceExecFns;
use vstd::utf8::encode_utf8;

verus! {

// ------------------------------------------------------------------ text

/// `c` with an ASCII upper-case letter lowered (`char::to_ascii_lowercase`).
pub open spec fn fold_ascii(c: char) -> char {
    if 'A' <= c && c <= 'Z' {
        ((c as int) + 32) as char
    } else {
        c
    }
}

/// `a` and `b` are equal up to ASCII case (`str::eq_ignore_ascii_case`).
pub open spec fn same_ignoring_case(a: Seq<char>, b: Seq<char>) -> bool {
    &&& a.len() == b.len()
    &&& forall|i: int| 0 <= i < a.len() ==> fold_ascii(#[trigger] a[i]) == fold_ascii(b[i])
}

/// `s` begins with `p` (`str::starts_with`).
pub open spec fn has_prefix(s: Seq<char>, p: Seq<char>) -> bool {
    p.len() <= s.len() && s.take(p.len() as int) == p
}

fn fold_ascii_char(c: char) -> (r: char)
    ensures
        r == fold_ascii(c),
{
    if 'A' <= c && c <= 'Z' {
        ((c as u8) + 32) as char
    } else {
        c
    }
}

/// Whether `s` and `word` are equal up to ASCII case.
fn same_text_ignoring_case(s: &str, word: &str) -> (b: bool)
    ensures
        b == same_ignoring_case(s@, word@),
{
    let n = s.unicode_len();
    if n != word.unicode_len() {
        return false;
    }
    let mut i: usize = 0;
    while i < n
        invariant
            n == s@.len(),
            n == word@.len(),
            i <= n,
            forall|j: int| 0 <= j < i ==> fold_ascii(#[trigger] s@[j]) == fold_ascii(word@[j]),
        decreases n - i,
    {
        if fold_ascii_char(s.get_char(i)) != fold_ascii_char(word.get_char(i)) {
            return false;
        }
        i = i + 1;
    }
    true
}

/// What follows `prefix` in `s`, trimmed, when `s` begins with `prefix`.
fn argument_after(s: &str, prefix: &str) -> (arg: Option<String>)
    ensures
        has_prefix(s@, prefix@) <==> arg is Some,
        arg matches Some(a) ==> a@ == trim_chars(s@.skip(prefix@.len() as int)),
{
    let n = prefix.unicode_len();
    let m = s.unicode_len();
    if n > m {
        return None;
    }
    let mut i: usize = 0;
    while i < n
        invariant
            n == prefix@.len(),
            m == s@.len(),
            i <= n <= m,
            forall|j: int| 0 <= j < i ==> s@[j] == prefix@[j],
        decreases n - i,
    {
        if s.get_char(i) != prefix.get_char(i) {
            assert(s@.take(n as int)[i as int] != prefix@[i as int]);
            return None;
        }
        i = i + 1;
    }
    assert(s@.take(n as int) =~= prefix@);
    let rest = s.substring_char(n, m);
    assert(rest@ =~= s@.skip(n as int));
    Some(trim_whitespace(rest).to_owned())
}

// ------------------------------------------------------------------ commands

/// A command typed on the workbench's command line.
#[derive(Debug, Clone, PartialEq, Eq)]
pub enum WorkbenchCommand {
    /// `open`: choose a log file in a dialog.
    PickLogFile,
    /// `open <path>`.
    OpenLog(String),
    /// `search <query>`.
    Search(String),
    /// `jump <line>`.
    Jump(String),
    /// `trace <path>`.
    OpenTrace(String),
    /// `save session`.
    SaveSession,
    /// Anything else that is not blank.
    Unknown(String),
    /// A blank line.
    Nothing,
}

/// The argument of a command word `w` in the command `t`.
pub open spec fn argument_of(t: Seq<char>, w: Seq<char>) -> Seq<char> {
    trim_chars(t.skip(w.len() as int))
}

/// What the trimmed command text `t` asks for. The checks go in this order:
/// `open` in any case, then the words `open `, `search `, `jump ` and
/// `trace ` (case-sensitive), then `save session` in any case.
pub open spec fn command_fits(cmd: WorkbenchCommand, t: Seq<char>) -> bool {
    if same_ignoring_case(t, "open"@) {
        cmd is PickLogFile
    } else if has_prefix(t, "open "@) {
        cmd matches WorkbenchCommand::OpenLog(p) && p@ == argument_of(t, "open "@)
    } else if has_prefix(t, "search "@) {
        cmd matches WorkbenchCommand::Search(q) && q@ == argument_of(t, "search "@)
    } else if has_prefix(t, "jump "@) {
        cmd matches WorkbenchCommand::Jump(l) && l@ == argument_of(t, "jump "@)
    } else if has_prefix(t, "trace "@) {
        cmd matches WorkbenchCommand::OpenTrace(p) && p@ == argument_of(t, "trace "@)
    } else if same_ignoring_case(t, "save session"@) {
        cmd is SaveSession
    } else if t.len() > 0 {
        cmd matches WorkbenchCommand::Unknown(c) && c@ == t
    } else {
        cmd is Nothing
    }
}

impl WorkbenchCommand {
    /// Reads a command line: the text is trimmed, then matched against the
    /// command words.
    pub fn parse(text: &str) -> (cmd: WorkbenchCommand)
        ensures
            command_fits(cmd, trim_chars(text@)),
    {
        let t = trim_whitespace(text);
        if same_text_ignoring_case(t, "open") {
            return WorkbenchCommand::PickLogFile;
        }
        if let Some(path) = argument_after(t, "open ") {
            return WorkbenchCommand::OpenLog(path);
        }
        if let Some(query) = argument_after(t, "search ") {
            return WorkbenchCommand::Search(query);
        }
        if let Some(line) = argument_after(t, "jump ") {
            return WorkbenchCommand::Jump(line);
        }
        if let Some(path) = argument_after(t, "trace ") {
            return WorkbenchCommand::OpenTrace(path);
        }
        if same_text_ignoring_case(t, "save session") {
            return WorkbenchCommand::SaveSession;
        }
        if !t.is_empty() {
            return WorkbenchCommand::Unknown(t.to_owned());
        }
        WorkbenchCommand::Nothing
    }
}


// ------------------------------------------------------------------ search tally

/// What a running search reports to the workbench.
pub enum SearchEvent {
    /// A batch of hits.
    Batch(SearchBatch),
    /// The search ended, with this many hits.
    Done(usize),
    /// The search failed, with this message.
    Error(String),
}

/// Where a search stands after an event.
#[derive(Debug, PartialEq, Eq)]
pub enum SearchProgress {
    Running,
    Finished(usize),
    Failed(String),
}

/// The hits of a running search grouped by line, and how many came from
/// each pass and in how many batches.
pub struct SearchTally {
    pub hits_by_line: BTreeMap<u64, Vec<SearchHit>>,
    pub visible_hits: usize,
    pub background_hits: usize,
    pub batches: usize,
}

/// The hit lists of a line map, as sequences.
pub open spec fn hit_lists(m: Map<u64, Vec<SearchHit>>) -> Map<u64, Seq<SearchHit>> {
    m.map_values(|v: Vec<SearchHit>| v@)
}

/// `m` with `hits` filed in order, each at the end of its line's list.
pub open spec fn file_hits(m: Map<u64, Seq<SearchHit>>, hits: Seq<SearchHit>) -> Map<
    u64,
    Seq<SearchHit>,
>
    decreases hits.len(),
{
    if hits.len() == 0 {
        m
    } else {
        let before = file_hits(m, hits.drop_last());
        let h = hits.last();
        let l = h.line.0;
        before.insert(
            l,
            if before.contains_key(l) {
                before[l].push(h)
            } else {
                seq![h]
            },
        )
    }
}

/// Line numbers are ordered keys, so the line map behaves as a map.
proof fn lemma_line_keys_are_ordered()
    ensures
        vstd::laws_cmp::obeys_cmp::<u64>(),
{
    broadcast use vstd::laws_cmp::group_laws_cmp;

}

impl SearchTally {
    /// A tally with no hit yet.
    pub fn new() -> (t: SearchTally)
        ensures
            t.hits_by_line@ == Map::<u64, Vec<SearchHit>>::empty(),
            t.visible_hits == 0,
            t.background_hits == 0,
            t.batches == 0,
    {
        SearchTally { hits_by_line: BTreeMap::new(), visible_hits: 0, background_hits: 0, batches: 0 }
    }

    /// Takes in one event of the search: a batch is counted and its hits
    /// filed under their lines; the end or a failure of the search leaves the
    /// tally as it is and says so.
    pub fn record(&mut self, event: SearchEvent) -> (p: SearchProgress)
        requires
            event matches SearchEvent::Batch(b) ==> {
                &&& old(self).batches < usize::MAX
                &&& b.stage == SearchStage::Visible ==> old(self).visible_hits + b.hits@.len()
                    <= usize::MAX
                &&& b.stage == SearchStage::Background ==> old(self).background_hits
                    + b.hits@.len() <= usize::MAX
            },
        ensures
            match event {
                SearchEvent::Batch(b) => {
                    &&& p == SearchProgress::Running
                    &&& final(self).batches == old(self).batches + 1
                    &&& final(self).visible_hits == old(self).visible_hits + (if b.stage
                        == SearchStage::Visible {
                        b.hits@.len() as int
                    } else {
                        0
                    })
                    &&& final(self).background_hits == old(self).background_hits + (if b.stage
                        == SearchStage::Background {
                        b.hits@.len() as int
                    } else {
                        0
                    })
                    &&& hit_lists(final(self).hits_by_line@) == file_hits(
                        hit_lists(old(self).hits_by_line@),
                        b.hits@,
                    )
                },
                SearchEvent::Done(n) => p == SearchProgress::Finished(n) && *final(self) == *old(
                    self,
                ),
                SearchEvent::Error(e) => (p matches SearchProgress::Failed(m) && m@ == e@)
                    && *final(self) == *old(self),
            },
    {
        proof {
            lemma_line_keys_are_ordered();
        }
        match event {
            SearchEvent::Batch(batch) => {
                self.batches = self.batches + 1;
                let count = batch.hits.len();
                match batch.stage {
                    SearchStage::Visible => {
                        self.visible_hits = self.visible_hits + count;
                    },
                    SearchStage::Background => {
                        self.background_hits = self.background_hits + count;
                    },
                }
                let hits = batch.hits;
                let ghost start = hit_lists(self.hits_by_line@);
                let ghost counted = (self.batches, self.visible_hits, self.background_hits);
                let mut i: usize = 0;
                assert(hits@.take(0) =~= Seq::<SearchHit>::empty());
                while i < hits.len()
                    invariant
                        i <= hits@.len(),
                        hit_lists(self.hits_by_line@) == file_hits(start, hits@.take(i as int)),
                        (self.batches, self.visible_hits, self.background_hits) == counted,
                    decreases hits.len() - i,
                {
                    let hit = hits[i];
                    let line = hit.line.0;
                    let ghost before = self.hits_by_line@;
                    let mut bucket = match self.hits_by_line.remove(&line) {
                        Some(list) => list,
                        None => Vec::new(),
                    };
                    bucket.push(hit);
                    self.hits_by_line.insert(line, bucket);
                    assert(hits@.take(i + 1).drop_last() =~= hits@.take(i as int));
                    assert(hit_lists(self.hits_by_line@) =~= hit_lists(before).insert(
                        line,
                        bucket@,
                    ));
                    i = i + 1;
                }
                assert(hits@.take(i as int) =~= hits@);
                SearchProgress::Running
            },
            SearchEvent::Done(total) => SearchProgress::Finished(total),
            SearchEvent::Error(message) => SearchProgress::Failed(message),
        }
    }
}


// ------------------------------------------------------------------ starting a search

/// What a search was started for; the same key twice does not restart it.
#[derive(Debug, Clone, PartialEq, Eq)]
pub struct SearchKey {
    pub query: String,
    pub regex: bool,
    pub case_insensitive: bool,
    pub max_hits: usize,
}

/// What the search box asks for.
pub enum SearchRequest {
    /// The box is blank: stop any search and forget its hits.
    Clear,
    /// The same search is already running or done.
    Unchanged,
    /// Start this search.
    Start { key: SearchKey, query: SearchQuery, config: SearchConfig },
}

/// `k` is the key of a search for the text `t` with these options.
pub open spec fn key_is(
    k: SearchKey,
    t: Seq<char>,
    regex: bool,
    case_insensitive: bool,
    max_hits: usize,
) -> bool {
    &&& k.query@ == t
    &&& k.regex == regex
    &&& k.case_insensitive == case_insensitive
    &&& k.max_hits == max_hits
}

fn same_key(a: &SearchKey, b: &SearchKey) -> (same: bool)
    ensures
        same == key_is(*a, b.query@, b.regex, b.case_insensitive, b.max_hits),
{
    a.query == b.query && a.regex == b.regex && a.case_insensitive == b.case_insensitive
        && a.max_hits == b.max_hits
}

/// Decides what the search box asks for: its text is trimmed; blank text
/// clears the search; text and options equal to the last search's key leave
/// it alone; anything else starts a search over the whole file, the visible
/// lines first, in chunks of 8192 lines and batches of 256 hits.
pub fn plan_search_request(
    search_text: &str,
    regex: bool,
    case_insensitive: bool,
    max_hits: usize,
    last_key: &Option<SearchKey>,
    visible: Range<LineNumber>,
) -> (req: SearchRequest)
    ensures
        ({
            let t = trim_chars(search_text@);
            let repeated = *last_key matches Some(k) && key_is(
                k,
                t,
                regex,
                case_insensitive,
                max_hits,
            );
            &&& t.len() == 0 ==> req is Clear
            &&& t.len() > 0 && repeated ==> req is Unchanged
            &&& t.len() > 0 && !repeated ==> (req matches SearchRequest::Start { key, query, config }
                && key_is(key, t, regex, case_insensitive, max_hits) && query.pattern@ == t
                && query.mode == (if regex {
                SearchMode::Regex
            } else {
                SearchMode::Substring { case_sensitive: !case_insensitive }
            }) && config.visible_lines == visible && config.chunk_lines == 8192
                && config.max_hits == max_hits && config.batch_hit_target == 256)
        }),
{
    let trimmed = trim_whitespace(search_text);
    if trimmed.is_empty() {
        return SearchRequest::Clear;
    }
    let key = SearchKey {
        query: trimmed.to_owned(),
        regex,
        case_insensitive,
        max_hits,
    };
    if let Some(last) = last_key {
        if same_key(last, &key) {
            return SearchRequest::Unchanged;
        }
    }
    let built = if regex {
        SearchQuery::regex(trimmed)
    } else {
        SearchQuery::substring(trimmed, !case_insensitive)
    };
    match built {
        Ok(query) => {
            let config = SearchConfig { visible_lines: visible, chunk_lines: 8192, max_hits, batch_hit_target: 256 };
            SearchRequest::Start { key, query, config }
        },
        // a query is refused only for a blank pattern, and this one is not blank
        Err(_) => SearchRequest::Clear,
    }
}

// ------------------------------------------------------------------ saved sessions

/// A path on disk, carried as it is.
#[verifier::external_type_specification]
#[verifier::external_body]
pub struct ExPathBuf(PathBuf);

/// A workbench session that can be reopened: the files, the search and the
/// position in the log.
pub struct SavedSession {
    pub name: String,
    pub log_path: PathBuf,
    pub trace_path: Option<PathBuf>,
    pub search: String,
    pub regex: bool,
    pub case_insensitive: bool,
    pub top_line: u64,
}

/// How many saved sessions are kept.
pub const SAVED_SESSIONS_LIMIT: usize = 16;

/// The name a session is saved under: the name typed, trimmed, unless it is
/// blank; then the log's file name, or `session` when it has none.
pub fn session_name(typed: &str, log_file_name: Option<&str>) -> (name: String)
    ensures
        trim_chars(typed@).len() > 0 ==> name@ == trim_chars(typed@),
        trim_chars(typed@).len() == 0 ==> name@ == (match log_file_name {
            Some(f) => f@,
            None => "session"@,
        }),
{
    let trimmed = trim_whitespace(typed);
    if trimmed.is_empty() {
        match log_file_name {
            Some(file_name) => file_name.to_owned(),
            None => "session".to_owned(),
        }
    } else {
        trimmed.to_owned()
    }
}

/// `sessions` without those named `name`, in order.
pub open spec fn without_name(sessions: Seq<SavedSession>, name: Seq<char>) -> Seq<SavedSession>
    decreases sessions.len(),
{
    if sessions.len() == 0 {
        sessions
    } else {
        let kept = without_name(sessions.drop_last(), name);
        if sessions.last().name@ == name {
            kept
        } else {
            kept.push(sessions.last())
        }
    }
}

/// The saved sessions after saving `session`: it comes first, replacing any
/// session of the same name, and only the first sixteen are kept.
pub open spec fn sessions_after_save(sessions: Seq<SavedSession>, session: SavedSession) -> Seq<
    SavedSession,
> {
    let all = seq![session] + without_name(sessions, session.name@);
    if all.len() <= SAVED_SESSIONS_LIMIT {
        all
    } else {
        all.take(SAVED_SESSIONS_LIMIT as int)
    }
}

/// No two sessions of the list share a name.
pub open spec fn names_distinct(sessions: Seq<SavedSession>) -> bool {
    forall|i: int, j: int|
        0 <= i < j < sessions.len() ==> (#[trigger] sessions[i]).name@ != (#[trigger] sessions[j]).name@
}

proof fn lemma_without_name(sessions: Seq<SavedSession>, name: Seq<char>)
    ensures
        ({
            let kept = without_name(sessions, name);
            &&& kept.len() <= sessions.len()
            &&& forall|i: int| 0 <= i < kept.len() ==> (#[trigger] kept[i]).name@ != name
            &&& forall|i: int|
                0 <= i < kept.len() ==> exists|k: int|
                    0 <= k < sessions.len() && #[trigger] sessions[k] == #[trigger] kept[i]
            &&& names_distinct(sessions) ==> names_distinct(kept)
        }),
    decreases sessions.len(),
{
    if sessions.len() > 0 {
        let rest = sessions.drop_last();
        lemma_without_name(rest, name);
        let prev = without_name(rest, name);
        let kept = without_name(sessions, name);
        assert forall|i: int| 0 <= i < kept.len() implies exists|k: int|
            0 <= k < sessions.len() && #[trigger] sessions[k] == #[trigger] kept[i] by {
            if i < prev.len() {
                let k = choose|k: int| 0 <= k < rest.len() && #[trigger] rest[k] == #[trigger] prev[i];
                assert(sessions[k] == kept[i]);
            } else {
                assert(sessions[sessions.len() - 1] == kept[i]);
            }
        }
        if names_distinct(sessions) {
            assert(names_distinct(rest)) by {
                assert forall|i: int, j: int| 0 <= i < j < rest.len() implies (#[trigger] rest[i]).name@
                    != (#[trigger] rest[j]).name@ by {
                    assert(rest[i] == sessions[i] && rest[j] == sessions[j]);
                }
            }
            if sessions.last().name@ != name {
                assert forall|i: int, j: int| 0 <= i < j < kept.len() implies (#[trigger] kept[i]).name@
                    != (#[trigger] kept[j]).name@ by {
                    if j == kept.len() - 1 {
                        assert(kept[i] == prev[i]);
                        let k = choose|k: int| 0 <= k < rest.len() && #[trigger] rest[k] == #[trigger] prev[i];
                        assert(rest[k] == sessions[k]);
                        assert(sessions[k].name@ != sessions[sessions.len() - 1].name@);
                    } else {
                        assert(kept[i] == prev[i] && kept[j] == prev[j]);
                    }
                }
            }
        }
    }
}

/// Saving a session keeps the list short and free of repeated names: after
/// a save the list holds at most sixteen sessions, the saved one first, and
/// if no two sessions shared a name before, none do after.
pub proof fn lemma_saved_sessions_stay_distinct(sessions: Seq<SavedSession>, session: SavedSession)
    ensures
        sessions_after_save(sessions, session).len() <= SAVED_SESSIONS_LIMIT,
        sessions_after_save(sessions, session)[0] == session,
        names_distinct(sessions) ==> names_distinct(sessions_after_save(sessions, session)),
{
    lemma_without_name(sessions, session.name@);
    let kept = without_name(sessions, session.name@);
    let all = seq![session] + kept;
    let after = sessions_after_save(sessions, session);
    assert(after[0] == all[0]);
    if names_distinct(sessions) {
        assert forall|i: int, j: int| 0 <= i < j < after.len() implies (#[trigger] after[i]).name@
            != (#[trigger] after[j]).name@ by {
            assert(after[i] == all[i] && after[j] == all[j]);
            assert(all[j] == kept[j - 1]);
            if i > 0 {
                assert(all[i] == kept[i - 1]);
            }
        }
    }
}

/// Saves `session` at the head of the list, replacing any session of the
/// same name and keeping at most sixteen.
pub fn remember_session(sessions: &mut Vec<SavedSession>, session: SavedSession)
    ensures
        final(sessions)@ == sessions_after_save(old(sessions)@, session),
{
    let ghost all = sessions@;
    let mut pending: Vec<SavedSession> = Vec::new();
    std::mem::swap(&mut pending, sessions);
    let mut reversed: Vec<SavedSession> = Vec::new();
    while pending.len() > 0
        invariant
            pending@ == all.take(pending@.len() as int),
            pending@.len() + reversed@.len() == all.len(),
            forall|j: int|
                0 <= j < reversed@.len() ==> #[trigger] reversed@[j] == all[all.len() - 1 - j],
        decreases pending.len(),
    {
        let entry = pending.pop().unwrap();
        reversed.push(entry);
        assert(pending@ =~= all.take(pending@.len() as int));
    }
    let name = session.name.clone();
    let mut kept: Vec<SavedSession> = Vec::new();
    kept.push(session);
    assert(all.take(0) =~= Seq::<SavedSession>::empty());
    assert(kept@ =~= seq![session] + without_name(all.take(0), name@));
    while reversed.len() > 0
        invariant
            0 <= all.len() - reversed@.len() <= all.len(),
            forall|j: int|
                0 <= j < reversed@.len() ==> #[trigger] reversed@[j] == all[all.len() - 1 - j],
            name@ == session.name@,
            kept@ == seq![session] + without_name(all.take(all.len() - reversed@.len()), name@),
        decreases reversed.len(),
    {
        let ghost k = all.len() - reversed@.len();
        let entry = reversed.pop().unwrap();
        assert(entry == all[k]);
        assert(all.take(k + 1).drop_last() =~= all.take(k));
        if entry.name != name {
            kept.push(entry);
            assert(kept@ =~= seq![session] + without_name(all.take(k + 1), name@));
        } else {
            assert(kept@ =~= seq![session] + without_name(all.take(k + 1), name@));
        }
    }
    assert(all.take(all.len() as int) =~= all);
    kept.truncate(SAVED_SESSIONS_LIMIT);
    *sessions = kept;
}

// ------------------------------------------------------------------ service colours

/// Number of colours a trace timeline cycles through.
pub const SERVICE_PALETTE_LEN: usize = 8;

/// The djb2 hash of `bytes` (start at 5381; for each byte, times 33 plus
/// the byte, wrapping at 2^64).
pub open spec fn djb2(bytes: Seq<u8>) -> u64
    decreases bytes.len(),
{
    if bytes.len() == 0 {
        5381
    } else {
        djb2(bytes.drop_last()).wrapping_mul(33).wrapping_add(bytes.last() as u64)
    }
}

/// The palette slot of a service: the djb2 hash of its name, modulo the
/// palette length, so that a service keeps its colour.
pub fn service_palette_slot(service: &str) -> (slot: usize)
    ensures
        slot == (djb2(encode_utf8(service@)) as usize) % SERVICE_PALETTE_LEN,
        slot < SERVICE_PALETTE_LEN,
{
    let bytes = service.as_bytes();
    let mut hash: u64 = 5381;
    let mut i: usize = 0;
    while i < bytes.len()
        invariant
            i <= bytes@.len(),
            bytes@ == encode_utf8(service@),
            hash == djb2(bytes@.take(i as int)),
        decreases bytes.len() - i,
    {
        assert(bytes@.take(i + 1).drop_last() =~= bytes@.take(i as int));
        hash = hash.wrapping_mul(33).wrapping_add(bytes[i] as u64);
        i = i + 1;
    }
    assert(bytes@.take(i as int) =~= bytes@);
    (hash as usize) % SERVICE_PALETTE_LEN
}

} // verus!
