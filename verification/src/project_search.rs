//! Project-search options, their history, and replacement previews.
//!
//! The search itself is the project's. Here the input is validated, and a
//! replacement over many files is guarded: a preview changes nothing, and
//! applying one checks every source before it makes any text.

use sha2::{Digest, Sha256};
use vstd::prelude::*;
use vstd::string::*;

use crate::text::{
    byte_len, chars_of, comes_before, decimal, find_byte, find_char, holds_char, index_at,
    lemma_first_index, lemma_index_at, lemma_utf8_len_prefix, precedes, push_decimal, same_text,
    string_of, texts, utf8_len, optional_text,
};

verus! {

pub const MAX_QUERY_BYTES: usize = 65536;

pub const MAX_REPLACEMENT_BYTES: usize = 2097152;

pub const MAX_GLOB_COUNT: usize = 1000;

pub const MAX_GLOB_BYTES: usize = 65536;

pub const MAX_HISTORY_ENTRIES: usize = 100;

pub const MAX_REPLACE_SOURCES: usize = 5000;

pub const MAX_REPLACE_EDITS: usize = 10000;

pub const MAX_REPLACE_OUTPUT_BYTES: usize = 67108864;

/// How a query is read.
#[derive(Clone, Copy, Debug, PartialEq, Eq, Structural)]
pub enum SearchMode {
    Literal,
    Regex,
}

impl Default for SearchMode {
    fn default() -> (mode: Self)
        ensures
            mode == SearchMode::Literal,
    {
        SearchMode::Literal
    }
}

/// What the user asked a project search for.
#[derive(Debug, PartialEq, Eq)]
pub struct ProjectSearchOptions {
    pub query: String,
    pub replacement: String,
    pub mode: SearchMode,
    pub case_sensitive: bool,
    pub whole_word: bool,
    pub include_ignored: bool,
    pub open_buffers_only: bool,
    pub match_full_paths: bool,
    pub include_globs: Vec<String>,
    pub exclude_globs: Vec<String>,
}

/// The plain values of [`ProjectSearchOptions`].
pub struct SearchOptionsView {
    pub query: Seq<char>,
    pub replacement: Seq<char>,
    pub mode: SearchMode,
    pub case_sensitive: bool,
    pub whole_word: bool,
    pub include_ignored: bool,
    pub open_buffers_only: bool,
    pub match_full_paths: bool,
    pub include_globs: Seq<Seq<char>>,
    pub exclude_globs: Seq<Seq<char>>,
}

impl View for ProjectSearchOptions {
    type V = SearchOptionsView;

    open spec fn view(&self) -> SearchOptionsView {
        SearchOptionsView {
            query: self.query@,
            replacement: self.replacement@,
            mode: self.mode,
            case_sensitive: self.case_sensitive,
            whole_word: self.whole_word,
            include_ignored: self.include_ignored,
            open_buffers_only: self.open_buffers_only,
            match_full_paths: self.match_full_paths,
            include_globs: texts(self.include_globs@),
            exclude_globs: texts(self.exclude_globs@),
        }
    }
}

/// Which of the two lists of globs.
#[derive(Clone, Copy, Debug, PartialEq, Eq, Structural)]
pub enum GlobKind {
    Include,
    Exclude,
}

/// Why search options are refused.
#[derive(Clone, Copy, Debug, PartialEq, Eq, Structural)]
pub enum SearchOptionsError {
    EmptyQuery,
    QueryTooLong,
    QueryNotOneLine,
    ReplacementTooLong,
    ReplacementHoldsNul,
    TooManyGlobs(GlobKind),
    EmptyGlob(GlobKind),
    GlobHoldsControl(GlobKind),
    GlobByteOverflow,
    GlobsTooLong(GlobKind),
}

/// A character that no query or glob may hold.
pub open spec fn breaks_a_line(s: Seq<char>) -> bool {
    s.contains('\r') || s.contains('\n') || s.contains('\0')
}

/// The bytes of some texts.
pub open spec fn bytes_of(list: Seq<Seq<char>>) -> nat
    decreases list.len(),
{
    if list.len() == 0 {
        0
    } else {
        bytes_of(list.drop_last()) + utf8_len(list.last())
    }
}

/// What is wrong with a glob, given the globs up to and including it.
pub open spec fn glob_fault(kind: GlobKind, list: Seq<Seq<char>>) -> Option<SearchOptionsError> {
    if list.last().len() == 0 {
        Some(SearchOptionsError::EmptyGlob(kind))
    } else if breaks_a_line(list.last()) {
        Some(SearchOptionsError::GlobHoldsControl(kind))
    } else if bytes_of(list) > usize::MAX {
        Some(SearchOptionsError::GlobByteOverflow)
    } else {
        None
    }
}

/// What is wrong with the first glob that has a fault.
pub open spec fn first_glob_fault(kind: GlobKind, list: Seq<Seq<char>>) -> Option<
    SearchOptionsError,
>
    decreases list.len(),
{
    if list.len() == 0 {
        None
    } else {
        match first_glob_fault(kind, list.drop_last()) {
            Some(error) => Some(error),
            None => glob_fault(kind, list),
        }
    }
}

/// What is wrong with a list of globs.
pub open spec fn globs_fault(kind: GlobKind, list: Seq<Seq<char>>) -> Option<SearchOptionsError> {
    if list.len() > MAX_GLOB_COUNT {
        Some(SearchOptionsError::TooManyGlobs(kind))
    } else {
        match first_glob_fault(kind, list) {
            Some(error) => Some(error),
            None => if bytes_of(list) > MAX_GLOB_BYTES {
                Some(SearchOptionsError::GlobsTooLong(kind))
            } else {
                None
            },
        }
    }
}

/// What is wrong with search options, if anything: the first fault, in the
/// order of the fields.
pub open spec fn options_fault(options: SearchOptionsView) -> Option<SearchOptionsError> {
    if options.query.len() == 0 {
        Some(SearchOptionsError::EmptyQuery)
    } else if utf8_len(options.query) > MAX_QUERY_BYTES {
        Some(SearchOptionsError::QueryTooLong)
    } else if breaks_a_line(options.query) {
        Some(SearchOptionsError::QueryNotOneLine)
    } else if utf8_len(options.replacement) > MAX_REPLACEMENT_BYTES {
        Some(SearchOptionsError::ReplacementTooLong)
    } else if options.replacement.contains('\0') {
        Some(SearchOptionsError::ReplacementHoldsNul)
    } else {
        match globs_fault(GlobKind::Include, options.include_globs) {
            Some(error) => Some(error),
            None => globs_fault(GlobKind::Exclude, options.exclude_globs),
        }
    }
}

/// The result of a check, from what it found wrong.
pub open spec fn verdict(fault: Option<SearchOptionsError>) -> Result<(), SearchOptionsError> {
    match fault {
        Some(error) => Err(error),
        None => Ok(()),
    }
}

fn spoils_a_line(s: &str) -> (result: bool)
    ensures
        result == breaks_a_line(s@),
{
    holds_char(s, '\r') || holds_char(s, '\n') || holds_char(s, '\0')
}

fn validate_globs(kind: GlobKind, globs: &Vec<String>) -> (result: Result<(), SearchOptionsError>)
    ensures
        result == verdict(globs_fault(kind, texts(globs@))),
{
    let ghost list = texts(globs@);
    if globs.len() > MAX_GLOB_COUNT {
        return Err(SearchOptionsError::TooManyGlobs(kind));
    }
    let mut total: usize = 0;
    let mut i: usize = 0;
    assert(list.take(0) =~= Seq::<Seq<char>>::empty());
    while i < globs.len()
        invariant
            i <= globs@.len(),
            list == texts(globs@),
            list.len() <= MAX_GLOB_COUNT,
            total == bytes_of(list.take(i as int)),
            first_glob_fault(kind, list.take(i as int)) is None,
        decreases globs@.len() - i,
    {
        let ghost next = list.take(i + 1);
        assert(next.drop_last() =~= list.take(i as int));
        assert(next.last() == globs@[i as int]@);
        let glob = globs[i].as_str();
        let length: usize = byte_len(glob);
        proof {
            if glob_fault(kind, next) is Some {
                lemma_fault_stays(kind, list, i + 1);
            }
        }
        if glob.is_empty() {
            return Err(SearchOptionsError::EmptyGlob(kind));
        }
        if spoils_a_line(glob) {
            return Err(SearchOptionsError::GlobHoldsControl(kind));
        }
        total = match total.checked_add(length) {
            Some(total) => total,
            None => {
                return Err(SearchOptionsError::GlobByteOverflow);
            },
        };
        i += 1;
    }
    assert(list.take(i as int) =~= list);
    if total > MAX_GLOB_BYTES {
        return Err(SearchOptionsError::GlobsTooLong(kind));
    }
    Ok(())
}

/// The first fault of a prefix is the first fault of the list.
proof fn lemma_fault_stays(kind: GlobKind, list: Seq<Seq<char>>, i: int)
    requires
        0 <= i <= list.len(),
        first_glob_fault(kind, list.take(i)) is Some,
    ensures
        first_glob_fault(kind, list) == first_glob_fault(kind, list.take(i)),
    decreases list.len(),
{
    if i < list.len() {
        assert(list.drop_last().take(i) =~= list.take(i));
        lemma_fault_stays(kind, list.drop_last(), i);
    } else {
        assert(list.take(i) =~= list);
    }
}

impl ProjectSearchOptions {
    /// Checks what the user typed.
    pub fn validate(&self) -> (result: Result<(), SearchOptionsError>)
        ensures
            result == verdict(options_fault(self@)),
    {
        if self.query.as_str().is_empty() {
            return Err(SearchOptionsError::EmptyQuery);
        }
        if byte_len(self.query.as_str()) > MAX_QUERY_BYTES {
            return Err(SearchOptionsError::QueryTooLong);
        }
        if spoils_a_line(self.query.as_str()) {
            return Err(SearchOptionsError::QueryNotOneLine);
        }
        if byte_len(self.replacement.as_str()) > MAX_REPLACEMENT_BYTES {
            return Err(SearchOptionsError::ReplacementTooLong);
        }
        if holds_char(self.replacement.as_str(), '\0') {
            return Err(SearchOptionsError::ReplacementHoldsNul);
        }
        match validate_globs(GlobKind::Include, &self.include_globs) {
            Ok(()) => validate_globs(GlobKind::Exclude, &self.exclude_globs),
            Err(error) => Err(error),
        }
    }

    /// Whether two options are the same.
    pub fn same(&self, other: &ProjectSearchOptions) -> (result: bool)
        ensures
            result == (self@ == other@),
    {
        same_text(self.query.as_str(), other.query.as_str()) && same_text(
            self.replacement.as_str(),
            other.replacement.as_str(),
        ) && self.mode == other.mode && self.case_sensitive == other.case_sensitive
            && self.whole_word == other.whole_word && self.include_ignored == other.include_ignored
            && self.open_buffers_only == other.open_buffers_only && self.match_full_paths
            == other.match_full_paths && same_texts(&self.include_globs, &other.include_globs)
            && same_texts(&self.exclude_globs, &other.exclude_globs)
    }
}

/// Whether two lists hold the same texts.
fn same_texts(a: &Vec<String>, b: &Vec<String>) -> (result: bool)
    ensures
        result == (texts(a@) == texts(b@)),
{
    if a.len() != b.len() {
        assert(texts(a@).len() != texts(b@).len());
        return false;
    }
    let mut i: usize = 0;
    while i < a.len()
        invariant
            i <= a@.len() == b@.len(),
            forall|k: int| 0 <= k < i ==> #[trigger] a@[k]@ == b@[k]@,
        decreases a@.len() - i,
    {
        if !same_text(a[i].as_str(), b[i].as_str()) {
            assert(texts(a@)[i as int] != texts(b@)[i as int]);
            return false;
        }
        i += 1;
    }
    assert(texts(a@) =~= texts(b@));
    true
}

impl Default for ProjectSearchOptions {
    fn default() -> (options: Self)
        ensures
            options@ == (SearchOptionsView {
                query: Seq::empty(),
                replacement: Seq::empty(),
                mode: SearchMode::Literal,
                case_sensitive: false,
                whole_word: false,
                include_ignored: false,
                open_buffers_only: false,
                match_full_paths: false,
                include_globs: Seq::empty(),
                exclude_globs: Seq::empty(),
            }),
    {
        let options = ProjectSearchOptions {
            query: String::new(),
            replacement: String::new(),
            mode: SearchMode::Literal,
            case_sensitive: false,
            whole_word: false,
            include_ignored: false,
            open_buffers_only: false,
            match_full_paths: false,
            include_globs: Vec::new(),
            exclude_globs: Vec::new(),
        };
        assert(options@.include_globs =~= Seq::<Seq<char>>::empty());
        assert(options@.exclude_globs =~= Seq::<Seq<char>>::empty());
        options
    }
}

/// The searches of a session, newest first and each once.
#[derive(Debug)]
pub struct ProjectSearchHistory {
    limit: usize,
    entries: Vec<ProjectSearchOptions>,
}

/// The options that a list holds.
pub open spec fn option_views(list: Seq<ProjectSearchOptions>) -> Seq<SearchOptionsView> {
    Seq::new(list.len(), |i: int| list[i]@)
}

/// A list after a new entry: it stands first, nowhere else, and the oldest
/// entries beyond the limit are gone.
pub open spec fn recorded(
    list: Seq<SearchOptionsView>,
    options: SearchOptionsView,
    limit: int,
) -> Seq<SearchOptionsView> {
    let others = if list.contains(options) {
        list.remove(list.index_of(options))
    } else {
        list
    };
    let all = seq![options] + others;
    if all.len() <= limit {
        all
    } else {
        all.take(limit)
    }
}

/// None of some options has a fault.
pub open spec fn all_valid(list: Seq<SearchOptionsView>) -> bool {
    forall|i: int| 0 <= i < list.len() ==> options_fault(#[trigger] list[i]) is None
}

impl ProjectSearchHistory {
    /// The entries, newest first.
    pub closed spec fn view(&self) -> Seq<SearchOptionsView> {
        option_views(self.entries@)
    }

    /// The number of entries that are kept.
    pub closed spec fn limit(&self) -> int {
        self.limit as int
    }

    /// The history is bounded, and holds nothing twice, and nothing that has a
    /// fault.
    #[verifier::type_invariant]
    spec fn bounded_and_distinct(self) -> bool {
        &&& self.entries@.len() <= self.limit <= MAX_HISTORY_ENTRIES
        &&& option_views(self.entries@).no_duplicates()
        &&& all_valid(option_views(self.entries@))
    }

    /// An empty history of at most `limit` entries, and no more than
    /// [`MAX_HISTORY_ENTRIES`].
    pub fn new(limit: usize) -> (history: Self)
        ensures
            history@ == Seq::<SearchOptionsView>::empty(),
            history.limit() == (if limit <= MAX_HISTORY_ENTRIES {
                limit as int
            } else {
                MAX_HISTORY_ENTRIES as int
            }),
    {
        let limit: usize = if limit <= MAX_HISTORY_ENTRIES {
            limit
        } else {
            MAX_HISTORY_ENTRIES
        };
        let history = ProjectSearchHistory { limit, entries: Vec::new() };
        assert(history@ =~= Seq::<SearchOptionsView>::empty());
        history
    }

    /// Puts a search first. Options with a fault are refused, and leave the
    /// history as it was.
    pub fn record(&mut self, options: ProjectSearchOptions) -> (result: Result<
        (),
        SearchOptionsError,
    >)
        ensures
            result == verdict(options_fault(options@)),
            final(self).limit() == old(self).limit(),
            result is Err || old(self).limit() == 0 ==> final(self)@ == old(self)@,
            result is Ok && old(self).limit() > 0 ==> final(self)@ == recorded(
                old(self)@,
                options@,
                old(self).limit(),
            ),
    {
        proof {
            use_type_invariant(&*self);
        }
        match options.validate() {
            Ok(()) => {},
            Err(error) => {
                return Err(error);
            },
        }
        if self.limit == 0 {
            return Ok(());
        }
        let limit: usize = self.limit;
        let ghost list = option_views(self.entries@);
        let ghost wanted = options@;
        let mut entries: Vec<ProjectSearchOptions> = Vec::new();
        std::mem::swap(&mut entries, &mut self.entries);
        let mut i: usize = 0;
        while i < entries.len() && !entries[i].same(&options)
            invariant
                i <= entries@.len(),
                list == option_views(entries@),
                wanted == options@,
                forall|k: int| 0 <= k < i ==> #[trigger] list[k] != wanted,
            decreases entries@.len() - i,
        {
            assert(list[i as int] == entries@[i as int]@);
            i += 1;
        }
        let ghost others = if list.contains(wanted) {
            list.remove(list.index_of(wanted))
        } else {
            list
        };
        proof {
            if i < entries@.len() {
                assert(list[i as int] == wanted);
                lemma_index_of_first(list, wanted, i as int);
                assert(option_views(entries@.remove(i as int)) =~= list.remove(i as int));
            } else {
                assert(!list.contains(wanted));
            }
        }
        if i < entries.len() {
            entries.remove(i);
        }
        assert(option_views(entries@) =~= others);
        entries.insert(0, options);
        assert(option_views(entries@) =~= seq![wanted] + others);
        proof {
            lemma_recorded_is_distinct(list, wanted);
            recording_keeps_entries_valid(list, wanted, limit as int);
        }
        entries.truncate(limit);
        assert(option_views(entries@) =~= recorded(list, wanted, limit as int));
        self.entries = entries;
        Ok(())
    }

    /// The entries, newest first.
    pub fn entries(&self) -> (entries: &Vec<ProjectSearchOptions>)
        ensures
            option_views(entries@) == self@,
            entries@.len() <= self.limit() <= MAX_HISTORY_ENTRIES,
            self@.no_duplicates(),
            all_valid(self@),
    {
        proof {
            use_type_invariant(self);
        }
        &self.entries
    }
}

impl Default for ProjectSearchHistory {
    fn default() -> (history: Self)
        ensures
            history@ == Seq::<SearchOptionsView>::empty(),
            history.limit() == MAX_HISTORY_ENTRIES,
    {
        ProjectSearchHistory::new(MAX_HISTORY_ENTRIES)
    }
}

proof fn lemma_index_of_first(list: Seq<SearchOptionsView>, wanted: SearchOptionsView, i: int)
    requires
        0 <= i < list.len(),
        list[i] == wanted,
        list.no_duplicates(),
    ensures
        list.contains(wanted),
        list.index_of(wanted) == i,
{
    let k = list.index_of(wanted);
    assert(list[i] == wanted);
    assert(0 <= k < list.len() && list[k] == wanted);
}

/// Recording options without a fault keeps a history free of faults.
pub proof fn recording_keeps_entries_valid(
    list: Seq<SearchOptionsView>,
    options: SearchOptionsView,
    limit: int,
)
    requires
        all_valid(list),
        options_fault(options) is None,
        0 < limit,
    ensures
        all_valid(recorded(list, options, limit)),
{
    let all = recorded(list, options, limit);
    assert forall|i: int| 0 <= i < all.len() implies options_fault(#[trigger] all[i]) is None by {
        if i > 0 {
            if list.contains(options) && i - 1 >= list.index_of(options) {
                assert(list[list.index_of(options)] == options);
                assert(all[i] == list[i]);
            } else {
                assert(all[i] == list[i - 1]);
            }
        }
    }
}

/// Recording keeps a history free of duplicates, within its limit, and puts
/// the new entry first.
pub proof fn recording_keeps_entries_distinct(
    list: Seq<SearchOptionsView>,
    options: SearchOptionsView,
    limit: int,
)
    requires
        list.no_duplicates(),
        list.len() <= limit,
        0 < limit,
    ensures
        recorded(list, options, limit).no_duplicates(),
        recorded(list, options, limit).len() <= limit,
        recorded(list, options, limit)[0] == options,
{
    lemma_recorded_is_distinct(list, options);
}

proof fn lemma_recorded_is_distinct(list: Seq<SearchOptionsView>, options: SearchOptionsView)
    requires
        list.no_duplicates(),
    ensures
        ({
            let others = if list.contains(options) {
                list.remove(list.index_of(options))
            } else {
                list
            };
            (seq![options] + others).no_duplicates()
        }),
{
    let others = if list.contains(options) {
        list.remove(list.index_of(options))
    } else {
        list
    };
    let all = seq![options] + others;
    assert forall|i: int, j: int| 0 <= i < all.len() && 0 <= j < all.len() && i != j implies all[i]
        != all[j] by {
        if list.contains(options) {
            let k = list.index_of(options);
            assert(list[k] == options);
            let at = |n: int| if n - 1 < k { n - 1 } else { n };
            if i > 0 {
                assert(all[i] == list[at(i)]);
            }
            if j > 0 {
                assert(all[j] == list[at(j)]);
            }
        } else {
            if i > 0 {
                assert(all[i] == list[i - 1]);
                assert(list.contains(list[i - 1]));
            }
            if j > 0 {
                assert(all[j] == list[j - 1]);
                assert(list.contains(list[j - 1]));
            }
        }
    }
}

/// The SHA-256 digest of some bytes.
pub uninterp spec fn sha256_of(bytes: Seq<u8>) -> Seq<u8>;

/// `Sha256::digest`: the digest, which depends on the bytes alone. What it is
/// stays unsaid.
#[verifier::external_body]
fn sha256(bytes: &[u8]) -> (digest: [u8; 32])
    ensures
        digest@ == sha256_of(bytes@),
{
    Sha256::digest(bytes).into()
}

/// What tells one content from another: its length and its digest.
#[derive(Clone, Copy, Debug, PartialEq, Eq, Hash)]
pub struct ContentFingerprint {
    pub bytes: u64,
    pub sha256: [u8; 32],
}

/// The plain values of a [`ContentFingerprint`].
pub struct Fingerprint {
    pub bytes: int,
    pub sha256: Seq<u8>,
}

/// The fingerprint of some bytes.
pub open spec fn fingerprint(bytes: Seq<u8>) -> Fingerprint {
    Fingerprint { bytes: bytes.len() as int, sha256: sha256_of(bytes) }
}

/// The fingerprint of a text.
pub open spec fn text_fingerprint(text: Seq<char>) -> Fingerprint {
    fingerprint(vstd::utf8::encode_utf8(text))
}

impl View for ContentFingerprint {
    type V = Fingerprint;

    open spec fn view(&self) -> Fingerprint {
        Fingerprint { bytes: self.bytes as int, sha256: self.sha256@ }
    }
}

impl ContentFingerprint {
    pub fn for_bytes(bytes: &[u8]) -> (result: Self)
        ensures
            result@ == fingerprint(bytes@),
    {
        ContentFingerprint { bytes: bytes.len() as u64, sha256: sha256(bytes) }
    }

    /// Whether two fingerprints are the same.
    pub fn same(&self, other: &ContentFingerprint) -> (result: bool)
        ensures
            result == (self@ == other@),
    {
        if self.bytes != other.bytes {
            return false;
        }
        let mut i: usize = 0;
        while i < 32
            invariant
                i <= 32,
                forall|k: int| 0 <= k < i ==> self.sha256@[k] == other.sha256@[k],
            decreases 32 - i,
        {
            if self.sha256[i] != other.sha256[i] {
                return false;
            }
            i += 1;
        }
        assert(self.sha256@ =~= other.sha256@);
        true
    }
}

/// The view of a fingerprint that need not be there.
pub open spec fn disk_view(disk: Option<ContentFingerprint>) -> Option<Fingerprint> {
    match disk {
        Some(disk) => Some(disk@),
        None => None,
    }
}

fn same_disk(a: &Option<ContentFingerprint>, b: &Option<ContentFingerprint>) -> (result: bool)
    ensures
        result == (disk_view(*a) == disk_view(*b)),
{
    match (a, b) {
        (Some(a), Some(b)) => a.same(b),
        (None, None) => true,
        _ => false,
    }
}

/// Which buffer a text belongs to.
#[derive(Debug, PartialEq, Eq, Hash)]
pub struct ReplaceSourceIdentity {
    pub buffer_id: u64,
    pub path: String,
}

/// The plain values of a [`ReplaceSourceIdentity`].
pub struct Identity {
    pub buffer_id: u64,
    pub path: Seq<char>,
}

impl View for ReplaceSourceIdentity {
    type V = Identity;

    open spec fn view(&self) -> Identity {
        Identity { buffer_id: self.buffer_id, path: self.path@ }
    }
}

impl Clone for ReplaceSourceIdentity {
    fn clone(&self) -> (copy: Self)
        ensures
            copy@ == self@,
    {
        ReplaceSourceIdentity { buffer_id: self.buffer_id, path: self.path.clone() }
    }
}

impl ReplaceSourceIdentity {
    /// Whether two identities are the same.
    pub fn same(&self, other: &ReplaceSourceIdentity) -> (result: bool)
        ensures
            result == (self@ == other@),
    {
        self.buffer_id == other.buffer_id && same_text(self.path.as_str(), other.path.as_str())
    }
}

/// One source comes before another.
pub open spec fn identity_before(a: Identity, b: Identity) -> bool {
    a.buffer_id < b.buffer_id || (a.buffer_id == b.buffer_id && precedes(a.path, b.path))
}

/// A buffer as it was seen, with the fingerprint of its file, if it has one.
#[derive(Debug)]
pub struct ReplaceSourceSnapshot {
    pub identity: ReplaceSourceIdentity,
    pub text: String,
    pub disk: Option<ContentFingerprint>,
}

/// The plain values of a [`ReplaceSourceSnapshot`].
pub struct Source {
    pub identity: Identity,
    pub text: Seq<char>,
    pub disk: Option<Fingerprint>,
}

impl View for ReplaceSourceSnapshot {
    type V = Source;

    open spec fn view(&self) -> Source {
        Source { identity: self.identity@, text: self.text@, disk: disk_view(self.disk) }
    }
}

/// The sources of a list.
pub open spec fn source_views(list: Seq<ReplaceSourceSnapshot>) -> Seq<Source> {
    Seq::new(list.len(), |i: int| list[i]@)
}

impl ReplaceSourceSnapshot {
    pub fn new(
        buffer_id: u64,
        path: String,
        text: String,
        disk: Option<ContentFingerprint>,
    ) -> (source: Self)
        ensures
            source@ == (Source {
                identity: Identity { buffer_id, path: path@ },
                text: text@,
                disk: disk_view(disk),
            }),
    {
        ReplaceSourceSnapshot {
            identity: ReplaceSourceIdentity { buffer_id, path },
            text,
            disk,
        }
    }

    pub fn buffer_fingerprint(&self) -> (result: ContentFingerprint)
        ensures
            result@ == text_fingerprint(self@.text),
    {
        ContentFingerprint::for_bytes(self.text.as_str().as_bytes())
    }
}

impl Clone for ReplaceSourceSnapshot {
    fn clone(&self) -> (copy: Self)
        ensures
            copy@ == self@,
    {
        ReplaceSourceSnapshot {
            identity: self.identity.clone(),
            text: self.text.clone(),
            disk: self.disk,
        }
    }
}

/// A hit of a search: a byte range of a source.
#[derive(Debug, PartialEq, Eq)]
pub struct ReplaceMatch {
    pub source: ReplaceSourceIdentity,
    pub range: std::ops::Range<usize>,
}

/// The plain values of a [`ReplaceMatch`].
pub struct Match {
    pub source: Identity,
    pub start: int,
    pub end: int,
}

impl View for ReplaceMatch {
    type V = Match;

    open spec fn view(&self) -> Match {
        Match {
            source: self.source@,
            start: self.range.start as int,
            end: self.range.end as int,
        }
    }
}

impl Clone for ReplaceMatch {
    fn clone(&self) -> (copy: Self)
        ensures
            copy@ == self@,
    {
        ReplaceMatch { source: self.source.clone(), range: self.range.start..self.range.end }
    }
}

impl ReplaceMatch {
    /// Whether two matches are the same.
    pub fn same(&self, other: &ReplaceMatch) -> (result: bool)
        ensures
            result == (self@ == other@),
    {
        self.source.same(&other.source) && self.range.start == other.range.start && self.range.end
            == other.range.end
    }

    /// Whether the match comes before another one.
    fn is_before(&self, other: &ReplaceMatch) -> (result: bool)
        ensures
            result == match_before(self@, other@),
    {
        if self.source.buffer_id != other.source.buffer_id {
            return self.source.buffer_id < other.source.buffer_id;
        }
        if !same_text(self.source.path.as_str(), other.source.path.as_str()) {
            proof {
                crate::text::lemma_precedes_strict(self.source.path@, other.source.path@);
            }
            return comes_before(self.source.path.as_str(), other.source.path.as_str());
        }
        proof {
            crate::text::lemma_precedes_strict(self.source.path@, other.source.path@);
        }
        self.range.start < other.range.start || (self.range.start == other.range.start
            && self.range.end < other.range.end)
    }
}

/// The matches of a list.
pub open spec fn match_views(list: Seq<ReplaceMatch>) -> Seq<Match> {
    Seq::new(list.len(), |i: int| list[i]@)
}

/// One match comes before another: by its source, then by its range.
pub open spec fn match_before(a: Match, b: Match) -> bool {
    ||| identity_before(a.source, b.source)
    ||| a.source == b.source && a.start < b.start
    ||| a.source == b.source && a.start == b.start && a.end < b.end
}

/// Which matches a replacement is for.
#[derive(Debug, PartialEq, Eq)]
pub enum ReplaceScope {
    One(ReplaceMatch),
    File(ReplaceSourceIdentity),
    All,
}

impl ReplaceScope {
    /// The scope takes in a match.
    pub open spec fn takes(self, candidate: Match) -> bool {
        match self {
            ReplaceScope::One(selected) => candidate == selected@,
            ReplaceScope::File(source) => candidate.source == source@,
            ReplaceScope::All => true,
        }
    }

    fn admits(&self, candidate: &ReplaceMatch) -> (result: bool)
        ensures
            result == self.takes(candidate@),
    {
        match self {
            ReplaceScope::One(selected) => candidate.same(selected),
            ReplaceScope::File(source) => candidate.source.same(source),
            ReplaceScope::All => true,
        }
    }

    /// The matches of the scope, in their order.
    pub fn select(&self, matches: &Vec<ReplaceMatch>) -> (selected: Vec<ReplaceMatch>)
        ensures
            match_views(selected@) == match_views(matches@).filter(|m: Match| self.takes(m)),
    {
        let ghost all = match_views(matches@);
        let ghost keep = |m: Match| self.takes(m);
        let mut selected: Vec<ReplaceMatch> = Vec::new();
        let mut i: usize = 0;
        proof {
            reveal(Seq::filter);
            assert(all.take(0) =~= Seq::<Match>::empty());
            assert(match_views(selected@) =~= all.take(0).filter(keep));
        }
        while i < matches.len()
            invariant
                i <= matches@.len(),
                all == match_views(matches@),
                keep == (|m: Match| self.takes(m)),
                match_views(selected@) == all.take(i as int).filter(keep),
            decreases matches@.len() - i,
        {
            let ghost before = selected@;
            proof {
                reveal(Seq::filter);
                assert(all.take(i + 1).drop_last() =~= all.take(i as int));
                assert(all.take(i + 1).last() == matches@[i as int]@);
            }
            if self.admits(&matches[i]) {
                selected.push(matches[i].clone());
                assert(match_views(selected@) =~= match_views(before).push(matches@[i as int]@));
            }
            i += 1;
        }
        assert(all.take(i as int) =~= all);
        selected
    }
}

/// One text in place of another.
#[derive(Debug, PartialEq, Eq)]
pub struct ReplaceEditPreview {
    pub range: std::ops::Range<usize>,
    pub original: String,
    pub replacement: String,
}

/// The plain values of a [`ReplaceEditPreview`].
pub struct Edit {
    pub start: int,
    pub end: int,
    pub original: Seq<char>,
    pub replacement: Seq<char>,
}

impl View for ReplaceEditPreview {
    type V = Edit;

    open spec fn view(&self) -> Edit {
        Edit {
            start: self.range.start as int,
            end: self.range.end as int,
            original: self.original@,
            replacement: self.replacement@,
        }
    }
}

/// The edits of a list.
pub open spec fn edit_views(list: Seq<ReplaceEditPreview>) -> Seq<Edit> {
    Seq::new(list.len(), |i: int| list[i]@)
}

/// The edits of one source.
#[derive(Debug, PartialEq, Eq)]
pub struct ReplaceFilePreview {
    pub source: ReplaceSourceIdentity,
    pub before: ContentFingerprint,
    pub disk: Option<ContentFingerprint>,
    pub after: ContentFingerprint,
    pub edits: Vec<ReplaceEditPreview>,
}

/// The plain values of a [`ReplaceFilePreview`].
pub struct FileEdits {
    pub source: Identity,
    pub before: Fingerprint,
    pub disk: Option<Fingerprint>,
    pub after: Fingerprint,
    pub edits: Seq<Edit>,
}

impl View for ReplaceFilePreview {
    type V = FileEdits;

    open spec fn view(&self) -> FileEdits {
        FileEdits {
            source: self.source@,
            before: self.before@,
            disk: disk_view(self.disk),
            after: self.after@,
            edits: edit_views(self.edits@),
        }
    }
}

/// The files of a list.
pub open spec fn file_views(list: Seq<ReplaceFilePreview>) -> Seq<FileEdits> {
    Seq::new(list.len(), |i: int| list[i]@)
}

/// The edits of a replacement, before any of them is made.
#[derive(Debug, PartialEq, Eq)]
pub struct ReplacePreview {
    pub search_generation: u64,
    pub files: Vec<ReplaceFilePreview>,
    pub total_edits: usize,
    pub total_replacement_bytes: usize,
}

/// The plain values of a [`ReplacePreview`].
pub struct Preview {
    pub search_generation: u64,
    pub files: Seq<FileEdits>,
    pub total_edits: int,
    pub total_replacement_bytes: int,
}

impl View for ReplacePreview {
    type V = Preview;

    open spec fn view(&self) -> Preview {
        Preview {
            search_generation: self.search_generation,
            files: file_views(self.files@),
            total_edits: self.total_edits as int,
            total_replacement_bytes: self.total_replacement_bytes as int,
        }
    }
}

/// The new text of a source.
#[derive(Debug, PartialEq, Eq)]
pub struct ReplacementOutput {
    pub source: ReplaceSourceIdentity,
    pub text: String,
    pub fingerprint: ContentFingerprint,
}

/// The plain values of a [`ReplacementOutput`].
pub struct Output {
    pub source: Identity,
    pub text: Seq<char>,
    pub fingerprint: Fingerprint,
}

impl View for ReplacementOutput {
    type V = Output;

    open spec fn view(&self) -> Output {
        Output { source: self.source@, text: self.text@, fingerprint: self.fingerprint@ }
    }
}

/// The outputs of a list.
pub open spec fn output_views(list: Seq<ReplacementOutput>) -> Seq<Output> {
    Seq::new(list.len(), |i: int| list[i]@)
}

/// A hit that the query finds in a source, and what it puts in its place.
#[derive(Debug, PartialEq, Eq)]
pub struct QueryHit {
    pub range: std::ops::Range<usize>,
    pub replacement: Option<String>,
}

/// The plain values of a [`QueryHit`].
pub struct Finding {
    pub start: int,
    pub end: int,
    pub replacement: Option<Seq<char>>,
}

/// The view of a text that need not be there.
pub open spec fn text_view(text: Option<String>) -> Option<Seq<char>> {
    match text {
        Some(text) => Some(text@),
        None => None,
    }
}

impl View for QueryHit {
    type V = Finding;

    open spec fn view(&self) -> Finding {
        Finding {
            start: self.range.start as int,
            end: self.range.end as int,
            replacement: text_view(self.replacement),
        }
    }
}

/// What the query says of the sources of a replacement.
#[derive(Debug, PartialEq, Eq)]
pub struct QueryAnswers {
    /// The replacement text of the query, if it has one.
    pub replacement: Option<String>,
    /// The replacement depends on the text around a hit.
    pub contextual: bool,
    /// The hits in each of the sources, in the order of the sources.
    pub hits: Vec<Vec<QueryHit>>,
}

/// The plain values of [`QueryAnswers`].
pub struct Answers {
    pub replacement: Option<Seq<char>>,
    pub contextual: bool,
    pub hits: Seq<Seq<Finding>>,
}

/// The hits of a list.
pub open spec fn hit_views(list: Seq<QueryHit>) -> Seq<Finding> {
    Seq::new(list.len(), |i: int| list[i]@)
}

impl View for QueryAnswers {
    type V = Answers;

    open spec fn view(&self) -> Answers {
        Answers {
            replacement: text_view(self.replacement),
            contextual: self.contextual,
            hits: Seq::new(self.hits@.len(), |i: int| hit_views(self.hits@[i]@)),
        }
    }
}

/// Why a replacement is refused.
#[derive(Debug, PartialEq, Eq)]
pub enum ReplaceError {
    ZeroGeneration,
    TooManySources,
    TooManyEdits,
    NoReplacementText,
    DuplicateSource { path: String },
    AliasedBuffer { buffer_id: u64 },
    UnknownSource { path: String },
    ReversedRange,
    RangeBeyondText,
    RangeSplitsCodepoint,
    Overlap { first: std::ops::Range<usize>, second: std::ops::Range<usize> },
    NotAMatch { range: std::ops::Range<usize>, path: String },
    NoReplacement,
    ReplacementByteOverflow,
    TooManyReplacementBytes,
    OutputByteOverflow,
    TooManyOutputBytes,
    StaleGeneration { generation: u64 },
    DuplicateCurrentSources,
    SourceDisappeared { path: String },
    SourceChanged { path: String },
    DiskChanged { path: String },
    RangeChanged { path: String },
    OutputMismatch { path: String },
}

/// The plain values of a [`ReplaceError`].
pub enum Fault {
    ZeroGeneration,
    TooManySources,
    TooManyEdits,
    NoReplacementText,
    DuplicateSource { path: Seq<char> },
    AliasedBuffer { buffer_id: u64 },
    UnknownSource { path: Seq<char> },
    ReversedRange,
    RangeBeyondText,
    RangeSplitsCodepoint,
    Overlap { first: (int, int), second: (int, int) },
    NotAMatch { range: (int, int), path: Seq<char> },
    NoReplacement,
    ReplacementByteOverflow,
    TooManyReplacementBytes,
    OutputByteOverflow,
    TooManyOutputBytes,
    StaleGeneration { generation: u64 },
    DuplicateCurrentSources,
    SourceDisappeared { path: Seq<char> },
    SourceChanged { path: Seq<char> },
    DiskChanged { path: Seq<char> },
    RangeChanged { path: Seq<char> },
    OutputMismatch { path: Seq<char> },
}

impl View for ReplaceError {
    type V = Fault;

    open spec fn view(&self) -> Fault {
        match *self {
            ReplaceError::ZeroGeneration => Fault::ZeroGeneration,
            ReplaceError::TooManySources => Fault::TooManySources,
            ReplaceError::TooManyEdits => Fault::TooManyEdits,
            ReplaceError::NoReplacementText => Fault::NoReplacementText,
            ReplaceError::DuplicateSource { path } => Fault::DuplicateSource { path: path@ },
            ReplaceError::AliasedBuffer { buffer_id } => Fault::AliasedBuffer { buffer_id },
            ReplaceError::UnknownSource { path } => Fault::UnknownSource { path: path@ },
            ReplaceError::ReversedRange => Fault::ReversedRange,
            ReplaceError::RangeBeyondText => Fault::RangeBeyondText,
            ReplaceError::RangeSplitsCodepoint => Fault::RangeSplitsCodepoint,
            ReplaceError::Overlap { first, second } => Fault::Overlap {
                first: (first.start as int, first.end as int),
                second: (second.start as int, second.end as int),
            },
            ReplaceError::NotAMatch { range, path } => Fault::NotAMatch {
                range: (range.start as int, range.end as int),
                path: path@,
            },
            ReplaceError::NoReplacement => Fault::NoReplacement,
            ReplaceError::ReplacementByteOverflow => Fault::ReplacementByteOverflow,
            ReplaceError::TooManyReplacementBytes => Fault::TooManyReplacementBytes,
            ReplaceError::OutputByteOverflow => Fault::OutputByteOverflow,
            ReplaceError::TooManyOutputBytes => Fault::TooManyOutputBytes,
            ReplaceError::StaleGeneration { generation } => Fault::StaleGeneration { generation },
            ReplaceError::DuplicateCurrentSources => Fault::DuplicateCurrentSources,
            ReplaceError::SourceDisappeared { path } => Fault::SourceDisappeared { path: path@ },
            ReplaceError::SourceChanged { path } => Fault::SourceChanged { path: path@ },
            ReplaceError::DiskChanged { path } => Fault::DiskChanged { path: path@ },
            ReplaceError::RangeChanged { path } => Fault::RangeChanged { path: path@ },
            ReplaceError::OutputMismatch { path } => Fault::OutputMismatch { path: path@ },
        }
    }
}

/// What is wrong with a byte range of a text: its ends are out of order, past
/// the text, or inside a scalar value.
pub open spec fn range_fault(text: Seq<char>, start: int, end: int) -> Option<Fault> {
    if start > end {
        Some(Fault::ReversedRange)
    } else if end > utf8_len(text) {
        Some(Fault::RangeBeyondText)
    } else if index_at(text, start) is None || index_at(text, end) is None {
        Some(Fault::RangeSplitsCodepoint)
    } else {
        None
    }
}

/// The part of a text between two byte offsets.
pub open spec fn slice(text: Seq<char>, start: int, end: int) -> Seq<char> {
    text.subrange(index_at(text, start)->0, index_at(text, end)->0)
}

/// A text with another one in the place of a part.
pub open spec fn splice(text: Seq<char>, start: int, end: int, replacement: Seq<char>) -> Seq<
    char,
> {
    text.take(index_at(text, start)->0) + replacement + text.skip(index_at(text, end)->0)
}

/// A text after some edits, made from the last to the first, so that the
/// ranges of those to come stay where they are.
pub open spec fn edited(text: Seq<char>, edits: Seq<Edit>) -> Result<Seq<char>, Fault>
    decreases edits.len(),
{
    if edits.len() == 0 {
        Ok(text)
    } else {
        let edit = edits.last();
        match range_fault(text, edit.start, edit.end) {
            Some(fault) => Err(fault),
            None => edited(
                splice(text, edit.start, edit.end, edit.replacement),
                edits.drop_last(),
            ),
        }
    }
}

/// The result of a check of a range.
pub open spec fn range_verdict(fault: Option<Fault>, result: Result<(), ReplaceError>) -> bool {
    match fault {
        Some(fault) => result is Err && result->Err_0@ == fault,
        None => result is Ok,
    }
}

/// Checks a byte range of a text.
pub fn validate_range(text: &str, range: &std::ops::Range<usize>) -> (result: Result<
    (),
    ReplaceError,
>)
    ensures
        range_verdict(range_fault(text@, range.start as int, range.end as int), result),
{
    if range.start > range.end {
        return Err(ReplaceError::ReversedRange);
    }
    if range.end > byte_len(text) {
        return Err(ReplaceError::RangeBeyondText);
    }
    let chars = chars_of(text);
    if find_byte(chars.as_slice(), range.start).is_none() || find_byte(
        chars.as_slice(),
        range.end,
    ).is_none() {
        return Err(ReplaceError::RangeSplitsCodepoint);
    }
    Ok(())
}

/// The ends of a valid byte range, as indices of scalar values.
fn range_indices(chars: &[char], range: &std::ops::Range<usize>) -> (indices: (usize, usize))
    requires
        range_fault(chars@, range.start as int, range.end as int) is None,
    ensures
        Some(indices.0 as int) == index_at(chars@, range.start as int),
        Some(indices.1 as int) == index_at(chars@, range.end as int),
        indices.0 <= indices.1 <= chars@.len(),
{
    let start = find_byte(chars, range.start);
    let end = find_byte(chars, range.end);
    proof {
        lemma_range_in_order(chars@, range.start as int, range.end as int);
    }
    (start.unwrap(), end.unwrap())
}

proof fn lemma_range_in_order(text: Seq<char>, start: int, end: int)
    requires
        range_fault(text, start, end) is None,
    ensures
        0 <= index_at(text, start)->0 <= index_at(text, end)->0 <= text.len(),
{
    lemma_index_at(text, start);
    lemma_index_at(text, end);
    let i = index_at(text, start)->0;
    let j = index_at(text, end)->0;
    if i > j {
        lemma_utf8_len_prefix(text, j, i);
    }
}

/// Checks that no range starts before the one ahead of it ends.
pub fn validate_non_overlapping(ranges: &Vec<std::ops::Range<usize>>) -> (result: Result<
    (),
    ReplaceError,
>)
    ensures
        range_verdict(overlap_fault(range_views(ranges@)), result),
{
    let ghost all = range_views(ranges@);
    let mut i: usize = 1;
    while i < ranges.len()
        invariant
            1 <= i,
            i <= ranges@.len() || ranges@.len() == 0 && i == 1,
            all == range_views(ranges@),
            overlap_fault(
                all.take(
                    if i <= all.len() {
                        i as int
                    } else {
                        0
                    },
                ),
            ) is None,
        decreases ranges@.len() - i,
    {
        proof {
            assert(all.take(i + 1).drop_last() =~= all.take(i as int));
            if all[i - 1].1 > all[i as int].0 {
                lemma_overlap_stays(all, i + 1);
            }
        }
        if ranges[i - 1].end > ranges[i].start {
            return Err(
                ReplaceError::Overlap {
                    first: ranges[i - 1].start..ranges[i - 1].end,
                    second: ranges[i].start..ranges[i].end,
                },
            );
        }
        i += 1;
    }
    assert(all.take(all.len() as int) =~= all);
    assert(all.take(0) =~= Seq::<(int, int)>::empty());
    Ok(())
}

/// The ranges of a list.
pub open spec fn range_views(list: Seq<std::ops::Range<usize>>) -> Seq<(int, int)> {
    Seq::new(list.len(), |i: int| (list[i].start as int, list[i].end as int))
}

/// The first two neighbours of a list of ranges that overlap.
pub open spec fn overlap_fault(ranges: Seq<(int, int)>) -> Option<Fault>
    decreases ranges.len(),
{
    if ranges.len() < 2 {
        None
    } else {
        let first = ranges[ranges.len() - 2];
        let second = ranges.last();
        match overlap_fault(ranges.drop_last()) {
            Some(fault) => Some(fault),
            None => if first.1 > second.0 {
                Some(Fault::Overlap { first, second })
            } else {
                None
            },
        }
    }
}

proof fn lemma_overlap_stays(ranges: Seq<(int, int)>, i: int)
    requires
        0 <= i <= ranges.len(),
        overlap_fault(ranges.take(i)) is Some,
    ensures
        overlap_fault(ranges) == overlap_fault(ranges.take(i)),
    decreases ranges.len(),
{
    if i < ranges.len() {
        assert(ranges.drop_last().take(i) =~= ranges.take(i));
        lemma_overlap_stays(ranges.drop_last(), i);
    } else {
        assert(ranges.take(i) =~= ranges);
    }
}

/// Makes edits in a text, from the last to the first.
pub fn apply_edits(text: &str, edits: &Vec<ReplaceEditPreview>) -> (result: Result<
    String,
    ReplaceError,
>)
    ensures
        match edited(text@, edit_views(edits@)) {
            Ok(after) => result is Ok && result->Ok_0@ == after,
            Err(fault) => result is Err && result->Err_0@ == fault,
        },
{
    let ghost all = edit_views(edits@);
    let mut result = text.to_owned();
    let mut i: usize = edits.len();
    assert(all.take(i as int) =~= all);
    while i > 0
        invariant
            i <= edits@.len(),
            all == edit_views(edits@),
            edited(text@, all) == edited(result@, all.take(i as int)),
        decreases i,
    {
        let edit = &edits[i - 1];
        assert(all.take(i as int).last() == edit@);
        assert(all.take(i as int).drop_last() =~= all.take(i - 1));
        match validate_range(result.as_str(), &edit.range) {
            Ok(()) => {},
            Err(error) => {
                return Err(error);
            },
        }
        let chars = chars_of(result.as_str());
        let (start, end) = range_indices(chars.as_slice(), &edit.range);
        let mut next = string_of(chars.as_slice(), 0, start);
        next.append(edit.replacement.as_str());
        let rest = string_of(chars.as_slice(), end, chars.len());
        next.append(rest.as_str());
        assert(next@ =~= splice(
            result@,
            edit.range.start as int,
            edit.range.end as int,
            edit.replacement@,
        ));
        result = next;
        i -= 1;
    }
    Ok(result)
}

/// Where the replacement of a hit is worked out: the lines that hold it, or
/// the hit itself where it goes over a line break, with the place of the hit
/// in it.
pub open spec fn context_of(text: Seq<char>, start: int, end: int) -> (Seq<char>, int, int) {
    let i = index_at(text, start)->0;
    let j = index_at(text, end)->0;
    let matched = text.subrange(i, j);
    if matched.contains('\n') {
        (matched, 0, utf8_len(matched) as int)
    } else {
        let from = line_start(text, i);
        let to = j + crate::text::first_index(text.skip(j), '\n');
        let before = utf8_len(text.subrange(from, i)) as int;
        (text.subrange(from, to), before, before + utf8_len(matched))
    }
}

/// Where the line of an index starts: behind the line break before it.
pub open spec fn line_start(text: Seq<char>, i: int) -> int
    decreases i,
{
    if i <= 0 || text[i - 1] == '\n' {
        i
    } else {
        line_start(text, i - 1)
    }
}

pub proof fn lemma_line_start(text: Seq<char>, i: int)
    requires
        0 <= i,
    ensures
        0 <= line_start(text, i) <= i,
    decreases i,
{
    if i > 0 && text[i - 1] != '\n' {
        lemma_line_start(text, i - 1);
    }
}

/// The context that the replacement of a hit is worked out in, and the place
/// of the hit in it. A range that is no part of the text has none.
pub fn replacement_context(text: &str, range: &std::ops::Range<usize>) -> (context: Option<
    (String, std::ops::Range<usize>),
>)
    ensures
        match context {
            Some((line, place)) => range_fault(text@, range.start as int, range.end as int) is None
                && (line@, place.start as int, place.end as int) == context_of(
                text@,
                range.start as int,
                range.end as int,
            ),
            None => range_fault(text@, range.start as int, range.end as int) is Some,
        },
{
    match validate_range(text, range) {
        Ok(()) => {},
        Err(_) => {
            return None;
        },
    }
    let chars = chars_of(text);
    let (i, j) = range_indices(chars.as_slice(), range);
    let matched = string_of(chars.as_slice(), i, j);
    if holds_char(matched.as_str(), '\n') {
        let length: usize = byte_len(matched.as_str());
        return Some((matched, 0..length));
    }
    let mut from: usize = i;
    while from > 0 && chars[from - 1] != '\n'
        invariant
            from <= i <= chars@.len(),
            chars@ == text@,
            line_start(text@, i as int) == line_start(text@, from as int),
        decreases from,
    {
        from -= 1;
    }
    proof {
        lemma_first_index(text@.skip(j as int), '\n');
    }
    let to: usize = find_char(chars.as_slice(), j, '\n');
    let line = string_of(chars.as_slice(), from, to);
    let before_text = string_of(chars.as_slice(), from, i);
    let whole = string_of(chars.as_slice(), from, j);
    let before: usize = byte_len(before_text.as_str());
    let end: usize = byte_len(whole.as_str());
    proof {
        crate::text::lemma_utf8_len_add(before_text@, matched@);
        assert(before_text@ + matched@ =~= whole@);
    }
    Some((line, before..end))
}

/// A match at its place among sorted matches, each of which is there once.
pub open spec fn with_match(list: Seq<Match>, m: Match) -> Seq<Match>
    decreases list.len(),
{
    if list.len() == 0 || match_before(m, list[0]) {
        seq![m] + list
    } else if m == list[0] {
        list
    } else {
        seq![list[0]] + with_match(list.drop_first(), m)
    }
}

/// The matches in order, each once.
pub open spec fn in_order(matches: Seq<Match>) -> Seq<Match>
    decreases matches.len(),
{
    if matches.len() == 0 {
        Seq::empty()
    } else {
        with_match(in_order(matches.drop_last()), matches.last())
    }
}

proof fn lemma_match_order(a: Match, b: Match)
    ensures
        match_before(a, b) ==> !match_before(b, a) && a != b,
        a != b ==> match_before(a, b) || match_before(b, a),
{
    crate::text::lemma_precedes_strict(a.source.path, b.source.path);
    if a.source.buffer_id == b.source.buffer_id && a.source.path == b.source.path {
        assert(a.source == b.source);
    }
}

proof fn lemma_match_order_transitive(a: Match, b: Match, c: Match)
    requires
        match_before(a, b),
        match_before(b, c),
    ensures
        match_before(a, c),
{
    if precedes(a.source.path, b.source.path) && precedes(b.source.path, c.source.path) {
        crate::text::lemma_precedes_transitive(a.source.path, b.source.path, c.source.path);
    }
}

proof fn lemma_with_match_at(list: Seq<Match>, m: Match, i: int)
    requires
        0 <= i <= list.len(),
        forall|k: int| 0 <= k < i ==> match_before(#[trigger] list[k], m),
    ensures
        with_match(list, m) == list.take(i) + with_match(list.skip(i), m),
    decreases i,
{
    if i == 0 {
        assert(list.skip(0) =~= list);
        assert(list.take(0) + with_match(list, m) =~= with_match(list, m));
    } else {
        assert(match_before(list[0], m));
        lemma_match_order(list[0], m);
        let rest = list.drop_first();
        assert forall|k: int| 0 <= k < i - 1 implies match_before(#[trigger] rest[k], m) by {
            assert(rest[k] == list[k + 1]);
        }
        lemma_with_match_at(rest, m, i - 1);
        assert(rest.skip(i - 1) =~= list.skip(i));
        assert(seq![list[0]] + (rest.take(i - 1) + with_match(list.skip(i), m)) =~= list.take(i)
            + with_match(list.skip(i), m));
    }
}

/// Sorts matches, and drops those that are there twice.
fn sort_matches(matches: Vec<ReplaceMatch>) -> (sorted: Vec<ReplaceMatch>)
    ensures
        match_views(sorted@) == in_order(match_views(matches@)),
        sorted@.len() <= matches@.len(),
{
    let ghost all = match_views(matches@);
    let mut sorted: Vec<ReplaceMatch> = Vec::new();
    let mut n: usize = 0;
    assert(all.take(0) =~= Seq::<Match>::empty());
    assert(match_views(sorted@) =~= Seq::<Match>::empty());
    while n < matches.len()
        invariant
            n <= matches@.len(),
            all == match_views(matches@),
            sorted@.len() <= n,
            match_views(sorted@) == in_order(all.take(n as int)),
        decreases matches@.len() - n,
    {
        let candidate = &matches[n];
        let ghost m = candidate@;
        let ghost list = match_views(sorted@);
        let mut i: usize = 0;
        while i < sorted.len() && sorted[i].is_before(candidate)
            invariant
                i <= sorted@.len(),
                m == candidate@,
                list == match_views(sorted@),
                forall|k: int| 0 <= k < i ==> match_before(#[trigger] list[k], m),
            decreases sorted@.len() - i,
        {
            i += 1;
        }
        proof {
            lemma_with_match_at(list, m, i as int);
            if i < list.len() {
                lemma_match_order(list[i as int], m);
                assert(list.skip(i as int)[0] == list[i as int]);
            }
            assert(all.take(n + 1).drop_last() =~= all.take(n as int));
        }
        if i == sorted.len() || !sorted[i].same(candidate) {
            sorted.insert(i, candidate.clone());
            assert(match_views(sorted@) =~= list.take(i as int) + (seq![m] + list.skip(i as int)));
        } else {
            assert(list.take(i as int) + list.skip(i as int) =~= list);
        }
        n += 1;
    }
    assert(all.take(n as int) =~= all);
    sorted
}

/// The first source with an identity.
pub open spec fn source_index(sources: Seq<Source>, identity: Identity) -> Option<int>
    decreases sources.len(),
{
    if sources.len() == 0 {
        None
    } else {
        match source_index(sources.drop_last(), identity) {
            Some(index) => Some(index),
            None => if sources.last().identity == identity {
                Some(sources.len() - 1)
            } else {
                None
            },
        }
    }
}

pub proof fn lemma_source_index(sources: Seq<Source>, identity: Identity)
    ensures
        match source_index(sources, identity) {
            Some(index) => 0 <= index < sources.len() && sources[index].identity == identity
                && forall|k: int| 0 <= k < index ==> (#[trigger] sources[k]).identity != identity,
            None => forall|k: int|
                0 <= k < sources.len() ==> (#[trigger] sources[k]).identity != identity,
        },
    decreases sources.len(),
{
    if sources.len() > 0 {
        let rest = sources.drop_last();
        lemma_source_index(rest, identity);
        assert forall|k: int| 0 <= k < rest.len() implies #[trigger] sources[k] == rest[k] by {}
    }
}

/// A buffer is one of the sources.
pub open spec fn has_buffer(sources: Seq<Source>, buffer_id: u64) -> bool {
    exists|i: int| 0 <= i < sources.len() && (#[trigger] sources[i]).identity.buffer_id == buffer_id
}

/// What is wrong with the sources of a preview: the first that was there
/// already, or that shares its buffer with another.
pub open spec fn sources_fault(sources: Seq<Source>) -> Option<Fault>
    decreases sources.len(),
{
    if sources.len() == 0 {
        None
    } else {
        let rest = sources.drop_last();
        let identity = sources.last().identity;
        match sources_fault(rest) {
            Some(fault) => Some(fault),
            None => if source_index(rest, identity) is Some {
                Some(Fault::DuplicateSource { path: identity.path })
            } else if has_buffer(rest, identity.buffer_id) {
                Some(Fault::AliasedBuffer { buffer_id: identity.buffer_id })
            } else {
                None
            },
        }
    }
}

proof fn lemma_sources_fault_stays(sources: Seq<Source>, i: int)
    requires
        0 <= i <= sources.len(),
        sources_fault(sources.take(i)) is Some,
    ensures
        sources_fault(sources) == sources_fault(sources.take(i)),
    decreases sources.len(),
{
    if i < sources.len() {
        assert(sources.drop_last().take(i) =~= sources.take(i));
        lemma_sources_fault_stays(sources.drop_last(), i);
    } else {
        assert(sources.take(i) =~= sources);
    }
}

/// What is wrong with one match: its source is unknown, or its range is no
/// part of it.
pub open spec fn match_fault(sources: Seq<Source>, m: Match) -> Option<Fault> {
    match source_index(sources, m.source) {
        None => Some(Fault::UnknownSource { path: m.source.path }),
        Some(index) => range_fault(sources[index].text, m.start, m.end),
    }
}

/// What is wrong with the first match that has a fault.
pub open spec fn matches_fault(sources: Seq<Source>, matches: Seq<Match>) -> Option<Fault>
    decreases matches.len(),
{
    if matches.len() == 0 {
        None
    } else {
        match matches_fault(sources, matches.drop_last()) {
            Some(fault) => Some(fault),
            None => match_fault(sources, matches.last()),
        }
    }
}

pub proof fn lemma_matches_fault(sources: Seq<Source>, matches: Seq<Match>, i: int)
    requires
        0 <= i <= matches.len(),
    ensures
        matches_fault(sources, matches.take(i)) is Some ==> matches_fault(sources, matches)
            == matches_fault(sources, matches.take(i)),
        matches_fault(sources, matches) is None && i < matches.len() ==> match_fault(
            sources,
            matches[i],
        ) is None,
    decreases matches.len(),
{
    if i < matches.len() {
        assert(matches.drop_last().take(i) =~= matches.take(i));
        lemma_matches_fault(sources, matches.drop_last(), i);
    } else {
        assert(matches.take(i) =~= matches);
    }
}

/// The hits of the query in a source.
pub open spec fn hits_in(answers: Answers, index: int) -> Seq<Finding> {
    if 0 <= index < answers.hits.len() {
        answers.hits[index]
    } else {
        Seq::empty()
    }
}

/// The first hit with a range.
pub open spec fn hit_index(hits: Seq<Finding>, start: int, end: int) -> Option<int>
    decreases hits.len(),
{
    if hits.len() == 0 {
        None
    } else {
        match hit_index(hits.drop_last(), start, end) {
            Some(index) => Some(index),
            None => if hits.last().start == start && hits.last().end == end {
                Some(hits.len() - 1)
            } else {
                None
            },
        }
    }
}

/// What the query puts in the place of a hit.
pub open spec fn replacement_of(answers: Answers, hit: Finding) -> Option<Seq<char>> {
    if answers.contextual {
        hit.replacement
    } else {
        answers.replacement
    }
}

/// The edits of the matches of one source, and the bytes of all replacements
/// so far. Every match must be a hit of the query, with a replacement.
pub open spec fn edits_of(
    answers: Answers,
    source: Source,
    hits: Seq<Finding>,
    matches: Seq<Match>,
    bytes: int,
) -> Result<(Seq<Edit>, int), Fault>
    decreases matches.len(),
{
    if matches.len() == 0 {
        Ok((Seq::empty(), bytes))
    } else {
        match edits_of(answers, source, hits, matches.drop_last(), bytes) {
            Err(fault) => Err(fault),
            Ok((edits, before)) => next_edit(
                answers,
                source,
                hits,
                matches.last(),
                edits,
                before,
            ),
        }
    }
}

/// The edits with that of one more match.
pub open spec fn next_edit(
    answers: Answers,
    source: Source,
    hits: Seq<Finding>,
    m: Match,
    edits: Seq<Edit>,
    bytes: int,
) -> Result<(Seq<Edit>, int), Fault> {
    match hit_index(hits, m.start, m.end) {
        None => Err(
            Fault::NotAMatch { range: (m.start, m.end), path: source.identity.path },
        ),
        Some(index) => match replacement_of(answers, hits[index]) {
            None => Err(Fault::NoReplacement),
            Some(replacement) => if bytes + utf8_len(replacement) > usize::MAX {
                Err(Fault::ReplacementByteOverflow)
            } else if bytes + utf8_len(replacement) > MAX_REPLACEMENT_BYTES {
                Err(Fault::TooManyReplacementBytes)
            } else {
                Ok(
                    (
                        edits.push(
                            Edit {
                                start: m.start,
                                end: m.end,
                                original: slice(source.text, m.start, m.end),
                                replacement,
                            },
                        ),
                        bytes + utf8_len(replacement),
                    ),
                )
            },
        },
    }
}

/// How far a preview has come: the files, and the bytes of the replacements
/// and of the new texts.
pub struct Progress {
    pub files: Seq<FileEdits>,
    pub replaced: int,
    pub output: int,
}

/// The ranges of some matches.
pub open spec fn match_ranges(matches: Seq<Match>) -> Seq<(int, int)> {
    Seq::new(matches.len(), |i: int| (matches[i].start, matches[i].end))
}

/// A preview with the file that some matches are in.
pub open spec fn with_file(
    answers: Answers,
    sources: Seq<Source>,
    matches: Seq<Match>,
    progress: Progress,
) -> Result<Progress, Fault> {
    let index = source_index(sources, matches[0].source)->0;
    let source = sources[index];
    match overlap_fault(match_ranges(matches)) {
        Some(fault) => Err(fault),
        None => match edits_of(
            answers,
            source,
            hits_in(answers, index),
            matches,
            progress.replaced,
        ) {
            Err(fault) => Err(fault),
            Ok((edits, replaced)) => match edited(source.text, edits) {
                Err(fault) => Err(fault),
                Ok(after) => {
                    let output = progress.output + utf8_len(after);
                    if output > usize::MAX {
                        Err(Fault::OutputByteOverflow)
                    } else if output > MAX_REPLACE_OUTPUT_BYTES {
                        Err(Fault::TooManyOutputBytes)
                    } else {
                        Ok(
                            Progress {
                                files: progress.files.push(
                                    FileEdits {
                                        source: source.identity,
                                        before: text_fingerprint(source.text),
                                        disk: source.disk,
                                        after: text_fingerprint(after),
                                        edits,
                                    },
                                ),
                                replaced,
                                output,
                            },
                        )
                    }
                },
            },
        },
    }
}

/// Where the matches of the same source as match `i` end, from `j` on.
pub open spec fn run_end(matches: Seq<Match>, i: int, j: int) -> int
    decreases matches.len() - j,
{
    if j < matches.len() && matches[j].source == matches[i].source {
        run_end(matches, i, j + 1)
    } else {
        j
    }
}

pub proof fn lemma_run_end(matches: Seq<Match>, i: int, j: int)
    requires
        j <= matches.len(),
    ensures
        j <= run_end(matches, i, j) <= matches.len(),
    decreases matches.len() - j,
{
    if j < matches.len() && matches[j].source == matches[i].source {
        lemma_run_end(matches, i, j + 1);
    }
}

/// A preview with the files of the matches from `i` on.
pub open spec fn with_files(
    answers: Answers,
    sources: Seq<Source>,
    matches: Seq<Match>,
    i: int,
    progress: Progress,
) -> Result<Progress, Fault>
    decreases matches.len() - i,
{
    if i >= matches.len() {
        Ok(progress)
    } else {
        let end = run_end(matches, i, i + 1);
        if end <= i || end > matches.len() {
            Ok(progress)
        } else {
            match with_file(answers, sources, matches.subrange(i, end), progress) {
                Err(fault) => Err(fault),
                Ok(next) => with_files(answers, sources, matches, end, next),
            }
        }
    }
}

/// The preview of a replacement, or the first fault.
pub open spec fn previewed(
    search_generation: u64,
    answers: Answers,
    sources: Seq<Source>,
    matches: Seq<Match>,
) -> Result<Preview, Fault> {
    let ordered = in_order(matches);
    if search_generation == 0 {
        Err(Fault::ZeroGeneration)
    } else if sources.len() > MAX_REPLACE_SOURCES {
        Err(Fault::TooManySources)
    } else if matches.len() > MAX_REPLACE_EDITS {
        Err(Fault::TooManyEdits)
    } else if answers.replacement is None {
        Err(Fault::NoReplacementText)
    } else if sources_fault(sources) is Some {
        Err(sources_fault(sources)->0)
    } else if matches_fault(sources, ordered) is Some {
        Err(matches_fault(sources, ordered)->0)
    } else {
        match with_files(
            answers,
            sources,
            ordered,
            0,
            Progress { files: Seq::empty(), replaced: 0, output: 0 },
        ) {
            Err(fault) => Err(fault),
            Ok(progress) => Ok(
                Preview {
                    search_generation,
                    files: progress.files,
                    total_edits: ordered.len() as int,
                    total_replacement_bytes: progress.replaced,
                },
            ),
        }
    }
}

fn find_source(sources: &Vec<ReplaceSourceSnapshot>, identity: &ReplaceSourceIdentity) -> (index:
    Option<usize>)
    ensures
        match source_index(source_views(sources@), identity@) {
            Some(k) => index is Some && index->0 == k && k < sources@.len(),
            None => index is None,
        },
{
    let ghost all = source_views(sources@);
    let mut i: usize = 0;
    while i < sources.len()
        invariant
            i <= sources@.len(),
            all == source_views(sources@),
            forall|k: int| 0 <= k < i ==> (#[trigger] all[k]).identity != identity@,
        decreases sources@.len() - i,
    {
        assert(all[i as int].identity == sources@[i as int].identity@);
        if sources[i].identity.same(identity) {
            proof {
                lemma_source_index(all, identity@);
            }
            return Some(i);
        }
        i += 1;
    }
    proof {
        lemma_source_index(all, identity@);
    }
    None
}

fn check_sources(sources: &Vec<ReplaceSourceSnapshot>) -> (result: Result<(), ReplaceError>)
    ensures
        range_verdict(sources_fault(source_views(sources@)), result),
{
    let ghost all = source_views(sources@);
    let mut i: usize = 0;
    assert(all.take(0) =~= Seq::<Source>::empty());
    while i < sources.len()
        invariant
            i <= sources@.len(),
            all == source_views(sources@),
            sources_fault(all.take(i as int)) is None,
        decreases sources@.len() - i,
    {
        let identity = &sources[i].identity;
        let ghost known = all.take(i as int);
        let ghost wanted = identity@;
        assert(all.take(i + 1).drop_last() =~= known);
        assert(all.take(i + 1).last() == sources@[i as int]@);
        let mut duplicate = false;
        let mut aliased = false;
        let mut k: usize = 0;
        while k < i
            invariant
                k <= i < sources@.len(),
                all == source_views(sources@),
                known == all.take(i as int),
                wanted == identity@,
                duplicate == exists|n: int|
                    0 <= n < k && (#[trigger] known[n]).identity == wanted,
                aliased == exists|n: int|
                    0 <= n < k && (#[trigger] known[n]).identity.buffer_id == wanted.buffer_id,
            decreases i - k,
        {
            assert(known[k as int] == sources@[k as int]@);
            if sources[k].identity.same(identity) {
                duplicate = true;
            }
            if sources[k].identity.buffer_id == identity.buffer_id {
                aliased = true;
            }
            k += 1;
        }
        proof {
            lemma_source_index(known, wanted);
            if duplicate || aliased {
                assert(sources_fault(all.take(i + 1)) is Some);
                lemma_sources_fault_stays(all, i + 1);
            }
        }
        if duplicate {
            return Err(ReplaceError::DuplicateSource { path: identity.path.clone() });
        }
        if aliased {
            return Err(ReplaceError::AliasedBuffer { buffer_id: identity.buffer_id });
        }
        i += 1;
    }
    assert(all.take(i as int) =~= all);
    Ok(())
}

fn check_matches(sources: &Vec<ReplaceSourceSnapshot>, matches: &Vec<ReplaceMatch>) -> (result:
    Result<(), ReplaceError>)
    ensures
        range_verdict(
            matches_fault(source_views(sources@), match_views(matches@)),
            result,
        ),
{
    let ghost known = source_views(sources@);
    let ghost all = match_views(matches@);
    let mut i: usize = 0;
    assert(all.take(0) =~= Seq::<Match>::empty());
    while i < matches.len()
        invariant
            i <= matches@.len(),
            known == source_views(sources@),
            all == match_views(matches@),
            matches_fault(known, all.take(i as int)) is None,
        decreases matches@.len() - i,
    {
        let selected = &matches[i];
        proof {
            assert(all.take(i + 1).drop_last() =~= all.take(i as int));
            assert(all.take(i + 1).last() == selected@);
            lemma_matches_fault(known, all, i + 1);
        }
        let index: usize = match find_source(sources, &selected.source) {
            Some(index) => index,
            None => {
                return Err(ReplaceError::UnknownSource { path: selected.source.path.clone() });
            },
        };
        match validate_range(sources[index].text.as_str(), &selected.range) {
            Ok(()) => {},
            Err(error) => {
                return Err(error);
            },
        }
        i += 1;
    }
    assert(all.take(i as int) =~= all);
    Ok(())
}

fn find_query_hit(hits: &Vec<QueryHit>, range: &std::ops::Range<usize>) -> (index: Option<usize>)
    ensures
        match hit_index(hit_views(hits@), range.start as int, range.end as int) {
            Some(k) => index is Some && index->0 == k && k < hits@.len(),
            None => index is None,
        },
{
    let ghost all = hit_views(hits@);
    let mut i: usize = 0;
    assert(all.take(0) =~= Seq::<Finding>::empty());
    while i < hits.len()
        invariant
            i <= hits@.len(),
            all == hit_views(hits@),
            hit_index(all.take(i as int), range.start as int, range.end as int) is None,
        decreases hits@.len() - i,
    {
        assert(all.take(i + 1).drop_last() =~= all.take(i as int));
        assert(all.take(i + 1).last() == hits@[i as int]@);
        if hits[i].range.start == range.start && hits[i].range.end == range.end {
            proof {
                lemma_hit_index_stays(all, range.start as int, range.end as int, i + 1);
            }
            return Some(i);
        }
        i += 1;
    }
    assert(all.take(i as int) =~= all);
    None
}

proof fn lemma_hit_index_stays(hits: Seq<Finding>, start: int, end: int, i: int)
    requires
        0 <= i <= hits.len(),
        hit_index(hits.take(i), start, end) is Some,
    ensures
        hit_index(hits, start, end) == hit_index(hits.take(i), start, end),
    decreases hits.len(),
{
    if i < hits.len() {
        assert(hits.drop_last().take(i) =~= hits.take(i));
        lemma_hit_index_stays(hits.drop_last(), start, end, i);
    } else {
        assert(hits.take(i) =~= hits);
    }
}

proof fn lemma_edits_fault_stays(
    answers: Answers,
    source: Source,
    hits: Seq<Finding>,
    matches: Seq<Match>,
    bytes: int,
    i: int,
)
    requires
        0 <= i <= matches.len(),
        edits_of(answers, source, hits, matches.take(i), bytes) is Err,
    ensures
        edits_of(answers, source, hits, matches, bytes) == edits_of(
            answers,
            source,
            hits,
            matches.take(i),
            bytes,
        ),
    decreases matches.len(),
{
    if i < matches.len() {
        assert(matches.drop_last().take(i) =~= matches.take(i));
        lemma_edits_fault_stays(answers, source, hits, matches.drop_last(), bytes, i);
    } else {
        assert(matches.take(i) =~= matches);
    }
}

/// The edits of the matches `from..to`, which are all in one source.
fn build_edits(
    answers: &QueryAnswers,
    source: &ReplaceSourceSnapshot,
    hits: &Vec<QueryHit>,
    matches: &Vec<ReplaceMatch>,
    from: usize,
    to: usize,
    replaced: usize,
) -> (result: Result<(Vec<ReplaceEditPreview>, usize), ReplaceError>)
    requires
        from <= to <= matches@.len(),
        forall|k: int|
            from <= k < to ==> range_fault(
                source.text@,
                (#[trigger] matches@[k]).range.start as int,
                matches@[k].range.end as int,
            ) is None,
    ensures
        match edits_of(
            answers@,
            source@,
            hit_views(hits@),
            match_views(matches@).subrange(from as int, to as int),
            replaced as int,
        ) {
            Ok((edits, bytes)) => result is Ok && edit_views(result->Ok_0.0@) == edits
                && result->Ok_0.1 == bytes,
            Err(fault) => result is Err && result->Err_0@ == fault,
        },
{
    let ghost all = match_views(matches@).subrange(from as int, to as int);
    let ghost found = hit_views(hits@);
    let mut bytes: usize = replaced;
    let mut edits: Vec<ReplaceEditPreview> = Vec::new();
    let mut i: usize = from;
    assert(all.take(0) =~= Seq::<Match>::empty());
    assert(edit_views(edits@) =~= Seq::<Edit>::empty());
    let chars = chars_of(source.text.as_str());
    while i < to
        invariant
            from <= i <= to <= matches@.len(),
            all == match_views(matches@).subrange(from as int, to as int),
            found == hit_views(hits@),
            chars@ == source.text@,
            forall|k: int|
                from <= k < to ==> range_fault(
                    source.text@,
                    (#[trigger] matches@[k]).range.start as int,
                    matches@[k].range.end as int,
                ) is None,
            edits_of(answers@, source@, found, all.take(i - from), replaced as int) == Ok::<
                (Seq<Edit>, int),
                Fault,
            >((edit_views(edits@), bytes as int)),
        decreases to - i,
    {
        let range = &matches[i].range;
        let ghost m = matches@[i as int]@;
        let ghost before = edit_views(edits@);
        proof {
            assert(all.take(i - from + 1).drop_last() =~= all.take(i - from));
            assert(all.take(i - from + 1).last() == m);
            if edits_of(answers@, source@, found, all.take(i - from + 1), replaced as int) is Err {
                lemma_edits_fault_stays(
                    answers@,
                    source@,
                    found,
                    all,
                    replaced as int,
                    i - from + 1,
                );
            }
        }
        let index: usize = match find_query_hit(hits, range) {
            Some(index) => index,
            None => {
                return Err(
                    ReplaceError::NotAMatch {
                        range: range.start..range.end,
                        path: source.identity.path.clone(),
                    },
                );
            },
        };
        assert(found[index as int] == hits@[index as int]@);
        let chosen = if answers.contextual {
            &hits[index].replacement
        } else {
            &answers.replacement
        };
        let replacement = match chosen {
            Some(replacement) => replacement.clone(),
            None => {
                return Err(ReplaceError::NoReplacement);
            },
        };
        let (start, end) = range_indices(chars.as_slice(), range);
        let original = string_of(chars.as_slice(), start, end);
        bytes = match bytes.checked_add(byte_len(replacement.as_str())) {
            Some(bytes) => bytes,
            None => {
                return Err(ReplaceError::ReplacementByteOverflow);
            },
        };
        if bytes > MAX_REPLACEMENT_BYTES {
            return Err(ReplaceError::TooManyReplacementBytes);
        }
        edits.push(
            ReplaceEditPreview { range: range.start..range.end, original, replacement },
        );
        assert(edit_views(edits@) =~= before.push(edits@.last()@));
        i += 1;
    }
    assert(all.take(i - from) =~= all);
    Ok((edits, bytes))
}

/// What is wrong with the edits of a file in a source: a range that is no part
/// of it, or that holds another text than before.
pub open spec fn edits_fault(source: Source, edits: Seq<Edit>) -> Option<Fault>
    decreases edits.len(),
{
    if edits.len() == 0 {
        None
    } else {
        let edit = edits.last();
        match edits_fault(source, edits.drop_last()) {
            Some(fault) => Some(fault),
            None => match range_fault(source.text, edit.start, edit.end) {
                Some(fault) => Some(fault),
                None => if slice(source.text, edit.start, edit.end) != edit.original {
                    Some(Fault::RangeChanged { path: source.identity.path })
                } else {
                    None
                },
            },
        }
    }
}

/// What is wrong with a file of a preview, given the sources as they are now.
pub open spec fn file_fault(current: Seq<Source>, file: FileEdits) -> Option<Fault> {
    match source_index(current, file.source) {
        None => Some(Fault::SourceDisappeared { path: file.source.path }),
        Some(index) => {
            let source = current[index];
            if text_fingerprint(source.text) != file.before {
                Some(Fault::SourceChanged { path: file.source.path })
            } else if source.disk != file.disk {
                Some(Fault::DiskChanged { path: file.source.path })
            } else {
                edits_fault(source, file.edits)
            }
        },
    }
}

/// What is wrong with the first file of a preview that has a fault.
pub open spec fn files_fault(current: Seq<Source>, files: Seq<FileEdits>) -> Option<Fault>
    decreases files.len(),
{
    if files.len() == 0 {
        None
    } else {
        match files_fault(current, files.drop_last()) {
            Some(fault) => Some(fault),
            None => file_fault(current, files.last()),
        }
    }
}

/// The new text of a file. It must be the one that was previewed.
pub open spec fn output_of(current: Seq<Source>, file: FileEdits) -> Result<Output, Fault> {
    let source = current[source_index(current, file.source)->0];
    match edited(source.text, file.edits) {
        Err(fault) => Err(fault),
        Ok(text) => if text_fingerprint(text) != file.after {
            Err(Fault::OutputMismatch { path: file.source.path })
        } else {
            Ok(Output { source: file.source, text, fingerprint: text_fingerprint(text) })
        },
    }
}

/// The new texts of all files, or the first fault.
pub open spec fn outputs_of(current: Seq<Source>, files: Seq<FileEdits>) -> Result<
    Seq<Output>,
    Fault,
>
    decreases files.len(),
{
    if files.len() == 0 {
        Ok(Seq::empty())
    } else {
        match outputs_of(current, files.drop_last()) {
            Err(fault) => Err(fault),
            Ok(outputs) => match output_of(current, files.last()) {
                Err(fault) => Err(fault),
                Ok(output) => Ok(outputs.push(output)),
            },
        }
    }
}

/// Two of the sources have the same identity.
pub open spec fn has_duplicates(sources: Seq<Source>) -> bool {
    exists|i: int, j: int|
        0 <= i < j < sources.len() && (#[trigger] sources[i]).identity == (
        #[trigger] sources[j]).identity
}

/// The new texts of a preview, or why it is refused. Every file is checked
/// before any text is made.
pub open spec fn applied(preview: Preview, current_generation: u64, current: Seq<Source>) -> Result<
    Seq<Output>,
    Fault,
> {
    if current_generation != preview.search_generation {
        Err(Fault::StaleGeneration { generation: preview.search_generation })
    } else if has_duplicates(current) {
        Err(Fault::DuplicateCurrentSources)
    } else {
        match files_fault(current, preview.files) {
            Some(fault) => Err(fault),
            None => outputs_of(current, preview.files),
        }
    }
}

fn check_duplicates(sources: &Vec<ReplaceSourceSnapshot>) -> (result: bool)
    ensures
        result == has_duplicates(source_views(sources@)),
{
    let ghost all = source_views(sources@);
    let mut i: usize = 0;
    while i < sources.len()
        invariant
            i <= sources@.len(),
            all == source_views(sources@),
            forall|a: int, b: int|
                0 <= a < b < i ==> (#[trigger] all[a]).identity != (#[trigger] all[b]).identity,
        decreases sources@.len() - i,
    {
        let mut k: usize = 0;
        while k < i
            invariant
                k <= i < sources@.len(),
                all == source_views(sources@),
                forall|a: int| 0 <= a < k ==> (#[trigger] all[a]).identity != all[i as int].identity,
            decreases i - k,
        {
            assert(all[k as int] == sources@[k as int]@);
            assert(all[i as int] == sources@[i as int]@);
            if sources[k].identity.same(&sources[i].identity) {
                return true;
            }
            k += 1;
        }
        i += 1;
    }
    false
}

proof fn lemma_edits_check_stays(source: Source, edits: Seq<Edit>, i: int)
    requires
        0 <= i <= edits.len(),
        edits_fault(source, edits.take(i)) is Some,
    ensures
        edits_fault(source, edits) == edits_fault(source, edits.take(i)),
    decreases edits.len(),
{
    if i < edits.len() {
        assert(edits.drop_last().take(i) =~= edits.take(i));
        lemma_edits_check_stays(source, edits.drop_last(), i);
    } else {
        assert(edits.take(i) =~= edits);
    }
}

fn check_edits(source: &ReplaceSourceSnapshot, edits: &Vec<ReplaceEditPreview>) -> (result: Result<
    (),
    ReplaceError,
>)
    ensures
        range_verdict(edits_fault(source@, edit_views(edits@)), result),
{
    let ghost all = edit_views(edits@);
    let chars = chars_of(source.text.as_str());
    let mut i: usize = 0;
    assert(all.take(0) =~= Seq::<Edit>::empty());
    while i < edits.len()
        invariant
            i <= edits@.len(),
            chars@ == source.text@,
            all == edit_views(edits@),
            edits_fault(source@, all.take(i as int)) is None,
        decreases edits@.len() - i,
    {
        let edit = &edits[i];
        proof {
            assert(all.take(i + 1).drop_last() =~= all.take(i as int));
            assert(all.take(i + 1).last() == edit@);
            if edits_fault(source@, all.take(i + 1)) is Some {
                lemma_edits_check_stays(source@, all, i + 1);
            }
        }
        match validate_range(source.text.as_str(), &edit.range) {
            Ok(()) => {},
            Err(error) => {
                return Err(error);
            },
        }
        let (start, end) = range_indices(chars.as_slice(), &edit.range);
        let now = string_of(chars.as_slice(), start, end);
        if !same_text(now.as_str(), edit.original.as_str()) {
            return Err(ReplaceError::RangeChanged { path: source.identity.path.clone() });
        }
        i += 1;
    }
    assert(all.take(i as int) =~= all);
    Ok(())
}

fn check_file(current: &Vec<ReplaceSourceSnapshot>, file: &ReplaceFilePreview) -> (result: Result<
    (),
    ReplaceError,
>)
    ensures
        range_verdict(file_fault(source_views(current@), file@), result),
{
    let index: usize = match find_source(current, &file.source) {
        Some(index) => index,
        None => {
            return Err(ReplaceError::SourceDisappeared { path: file.source.path.clone() });
        },
    };
    let source = &current[index];
    assert(source_views(current@)[index as int] == source@);
    if !source.buffer_fingerprint().same(&file.before) {
        return Err(ReplaceError::SourceChanged { path: file.source.path.clone() });
    }
    if !same_disk(&source.disk, &file.disk) {
        return Err(ReplaceError::DiskChanged { path: file.source.path.clone() });
    }
    check_edits(source, &file.edits)
}

proof fn lemma_files_fault(current: Seq<Source>, files: Seq<FileEdits>, i: int)
    requires
        0 <= i <= files.len(),
    ensures
        files_fault(current, files.take(i)) is Some ==> files_fault(current, files) == files_fault(
            current,
            files.take(i),
        ),
        files_fault(current, files) is None && i < files.len() ==> file_fault(current, files[i])
            is None,
    decreases files.len(),
{
    if i < files.len() {
        assert(files.drop_last().take(i) =~= files.take(i));
        lemma_files_fault(current, files.drop_last(), i);
    } else {
        assert(files.take(i) =~= files);
    }
}

fn check_files(current: &Vec<ReplaceSourceSnapshot>, files: &Vec<ReplaceFilePreview>) -> (result:
    Result<(), ReplaceError>)
    ensures
        range_verdict(files_fault(source_views(current@), file_views(files@)), result),
{
    let ghost all = file_views(files@);
    let ghost known = source_views(current@);
    let mut i: usize = 0;
    assert(all.take(0) =~= Seq::<FileEdits>::empty());
    while i < files.len()
        invariant
            i <= files@.len(),
            all == file_views(files@),
            known == source_views(current@),
            files_fault(known, all.take(i as int)) is None,
        decreases files@.len() - i,
    {
        proof {
            assert(all.take(i + 1).drop_last() =~= all.take(i as int));
            assert(all.take(i + 1).last() == files@[i as int]@);
            lemma_files_fault(known, all, i + 1);
        }
        match check_file(current, &files[i]) {
            Ok(()) => {},
            Err(error) => {
                return Err(error);
            },
        }
        i += 1;
    }
    assert(all.take(i as int) =~= all);
    Ok(())
}

proof fn lemma_outputs_fault_stays(current: Seq<Source>, files: Seq<FileEdits>, i: int)
    requires
        0 <= i <= files.len(),
        outputs_of(current, files.take(i)) is Err,
    ensures
        outputs_of(current, files) == outputs_of(current, files.take(i)),
    decreases files.len(),
{
    if i < files.len() {
        assert(files.drop_last().take(i) =~= files.take(i));
        lemma_outputs_fault_stays(current, files.drop_last(), i);
    } else {
        assert(files.take(i) =~= files);
    }
}

/// What is told of a result whose parts are seen by their views.
pub open spec fn outputs_verdict(
    expected: Result<Seq<Output>, Fault>,
    result: Result<Vec<ReplacementOutput>, ReplaceError>,
) -> bool {
    match expected {
        Ok(outputs) => result is Ok && output_views(result->Ok_0@) == outputs,
        Err(fault) => result is Err && result->Err_0@ == fault,
    }
}

impl ReplacePreview {
    /// Builds the preview of a replacement from what the query says of the
    /// sources. Every selected match must still be a hit.
    pub fn build(
        search_generation: u64,
        answers: &QueryAnswers,
        sources: &Vec<ReplaceSourceSnapshot>,
        matches: Vec<ReplaceMatch>,
    ) -> (result: Result<ReplacePreview, ReplaceError>)
        ensures
            match previewed(
                search_generation,
                answers@,
                source_views(sources@),
                match_views(matches@),
            ) {
                Ok(preview) => result is Ok && result->Ok_0@ == preview,
                Err(fault) => result is Err && result->Err_0@ == fault,
            },
    {
        if search_generation == 0 {
            return Err(ReplaceError::ZeroGeneration);
        }
        if sources.len() > MAX_REPLACE_SOURCES {
            return Err(ReplaceError::TooManySources);
        }
        if matches.len() > MAX_REPLACE_EDITS {
            return Err(ReplaceError::TooManyEdits);
        }
        if answers.replacement.is_none() {
            return Err(ReplaceError::NoReplacementText);
        }
        match check_sources(sources) {
            Ok(()) => {},
            Err(error) => {
                return Err(error);
            },
        }
        let sorted = sort_matches(matches);
        match check_matches(sources, &sorted) {
            Ok(()) => {},
            Err(error) => {
                return Err(error);
            },
        }
        let ghost all = match_views(sorted@);
        let ghost known = source_views(sources@);
        let ghost start = Progress { files: Seq::empty(), replaced: 0, output: 0 };
        let ghost expected = previewed(
            search_generation,
            answers@,
            known,
            match_views(matches@),
        );
        let mut files: Vec<ReplaceFilePreview> = Vec::new();
        let mut replaced: usize = 0;
        let mut output: usize = 0;
        let mut i: usize = 0;
        assert(file_views(files@) =~= start.files);
        while i < sorted.len()
            invariant
                i <= sorted@.len(),
                all == match_views(sorted@),
                known == source_views(sources@),
                matches_fault(known, all) is None,
                expected == (match with_files(answers@, known, all, 0, start) {
                    Err(fault) => Err(fault),
                    Ok(progress) => Ok(
                        Preview {
                            search_generation,
                            files: progress.files,
                            total_edits: all.len() as int,
                            total_replacement_bytes: progress.replaced,
                        },
                    ),
                }),
                expected == previewed(
                    search_generation,
                    answers@,
                    known,
                    match_views(matches@),
                ),
                with_files(answers@, known, all, 0, start) == with_files(
                    answers@,
                    known,
                    all,
                    i as int,
                    Progress {
                        files: file_views(files@),
                        replaced: replaced as int,
                        output: output as int,
                    },
                ),
            decreases sorted@.len() - i,
        {
            let mut end: usize = i + 1;
            proof {
                lemma_run_end(all, i as int, i + 1);
            }
            while end < sorted.len() && sorted[end].source.same(&sorted[i].source)
                invariant
                    i < end <= sorted@.len(),
                    all == match_views(sorted@),
                    run_end(all, i as int, i + 1) == run_end(all, i as int, end as int),
                    forall|k: int|
                        i <= k < end ==> (#[trigger] sorted@[k]).source@
                            == sorted@[i as int].source@,
                decreases sorted@.len() - end,
            {
                assert(all[end as int] == sorted@[end as int]@);
                assert(all[i as int] == sorted@[i as int]@);
                end += 1;
            }
            proof {
                if end < all.len() {
                    assert(all[end as int] == sorted@[end as int]@);
                    assert(all[i as int] == sorted@[i as int]@);
                }
            }
            match build_file(answers, sources, &sorted, i, end, replaced, output) {
                Ok((file, next_replaced, next_output)) => {
                    let ghost before = file_views(files@);
                    files.push(file);
                    assert(file_views(files@) =~= before.push(file@));
                    replaced = next_replaced;
                    output = next_output;
                },
                Err(error) => {
                    return Err(error);
                },
            }
            i = end;
        }
        Ok(
            ReplacePreview {
                search_generation,
                files,
                total_edits: sorted.len(),
                total_replacement_bytes: replaced,
            },
        )
    }

    /// Checks every source again, and makes the new texts. One source that
    /// changed or is gone stops the whole replacement.
    pub fn apply_checked(
        &self,
        current_generation: u64,
        current: &Vec<ReplaceSourceSnapshot>,
    ) -> (result: Result<Vec<ReplacementOutput>, ReplaceError>)
        ensures
            outputs_verdict(
                applied(self@, current_generation, source_views(current@)),
                result,
            ),
            result is Ok ==> result->Ok_0@.len() == self.files@.len(),
    {
        if current_generation != self.search_generation {
            return Err(ReplaceError::StaleGeneration { generation: self.search_generation });
        }
        if check_duplicates(current) {
            return Err(ReplaceError::DuplicateCurrentSources);
        }
        match check_files(current, &self.files) {
            Ok(()) => {},
            Err(error) => {
                return Err(error);
            },
        }
        let ghost all = file_views(self.files@);
        let ghost known = source_views(current@);
        let mut outputs: Vec<ReplacementOutput> = Vec::new();
        let mut i: usize = 0;
        assert(all.take(0) =~= Seq::<FileEdits>::empty());
        assert(output_views(outputs@) =~= Seq::<Output>::empty());
        while i < self.files.len()
            invariant
                i <= self.files@.len(),
                outputs@.len() == i,
                all == file_views(self.files@),
                known == source_views(current@),
                files_fault(known, all) is None,
                applied(self@, current_generation, known) == outputs_of(known, all),
                outputs_of(known, all.take(i as int)) == Ok::<Seq<Output>, Fault>(
                    output_views(outputs@),
                ),
            decreases self.files@.len() - i,
        {
            let file = &self.files[i];
            let ghost before = output_views(outputs@);
            proof {
                assert(all.take(i + 1).drop_last() =~= all.take(i as int));
                assert(all.take(i + 1).last() == file@);
                lemma_files_fault(known, all, i as int);
                if outputs_of(known, all.take(i + 1)) is Err {
                    lemma_outputs_fault_stays(known, all, i + 1);
                }
            }
            match build_output(current, file) {
                Ok(output) => {
                    outputs.push(output);
                    assert(output_views(outputs@) =~= before.push(output@));
                },
                Err(error) => {
                    return Err(error);
                },
            }
            i += 1;
        }
        assert(all.take(i as int) =~= all);
        Ok(outputs)
    }
}

fn build_output(current: &Vec<ReplaceSourceSnapshot>, file: &ReplaceFilePreview) -> (result: Result<
    ReplacementOutput,
    ReplaceError,
>)
    requires
        file_fault(source_views(current@), file@) is None,
    ensures
        match output_of(source_views(current@), file@) {
            Ok(output) => result is Ok && result->Ok_0@ == output,
            Err(fault) => result is Err && result->Err_0@ == fault,
        },
{
    let index: usize = find_source(current, &file.source).unwrap();
    let source = &current[index];
    assert(source_views(current@)[index as int] == source@);
    let text = match apply_edits(source.text.as_str(), &file.edits) {
        Ok(text) => text,
        Err(error) => {
            return Err(error);
        },
    };
    let fingerprint = ContentFingerprint::for_bytes(text.as_str().as_bytes());
    if !fingerprint.same(&file.after) {
        return Err(ReplaceError::OutputMismatch { path: file.source.path.clone() });
    }
    Ok(ReplacementOutput { source: file.source.clone(), text, fingerprint })
}

/// The preview of the file that the matches `from..to` are in.
fn build_file(
    answers: &QueryAnswers,
    sources: &Vec<ReplaceSourceSnapshot>,
    matches: &Vec<ReplaceMatch>,
    from: usize,
    to: usize,
    replaced: usize,
    output: usize,
) -> (result: Result<(ReplaceFilePreview, usize, usize), ReplaceError>)
    requires
        from < to <= matches@.len(),
        matches_fault(source_views(sources@), match_views(matches@)) is None,
        forall|k: int|
            from <= k < to ==> (#[trigger] matches@[k]).source@ == matches@[from as int].source@,
    ensures
        forall|files: Seq<FileEdits>|
            #![trigger with_file(
                answers@,
                source_views(sources@),
                match_views(matches@).subrange(from as int, to as int),
                Progress { files, replaced: replaced as int, output: output as int },
            )]
            match with_file(
                answers@,
                source_views(sources@),
                match_views(matches@).subrange(from as int, to as int),
                Progress { files, replaced: replaced as int, output: output as int },
            ) {
                Ok(next) => result is Ok && next == (Progress {
                    files: files.push(result->Ok_0.0@),
                    replaced: result->Ok_0.1 as int,
                    output: result->Ok_0.2 as int,
                }),
                Err(fault) => result is Err && result->Err_0@ == fault,
            },
{
    let ghost known = source_views(sources@);
    let ghost all = match_views(matches@);
    let ghost group = all.subrange(from as int, to as int);
    proof {
        lemma_matches_fault(known, all, from as int);
        assert(all[from as int] == matches@[from as int]@);
        assert(group[0] == all[from as int]);
    }
    let index: usize = find_source(sources, &matches[from].source).unwrap();
    let source = &sources[index];
    assert(known[index as int] == source@);
    let mut ranges: Vec<std::ops::Range<usize>> = Vec::new();
    let mut i: usize = from;
    while i < to
        invariant
            from <= i <= to <= matches@.len(),
            ranges@.len() == i - from,
            forall|k: int|
                0 <= k < ranges@.len() ==> (#[trigger] ranges@[k]).start == matches@[from
                    + k].range.start && ranges@[k].end == matches@[from + k].range.end,
        decreases to - i,
    {
        ranges.push(matches[i].range.start..matches[i].range.end);
        i += 1;
    }
    assert(range_views(ranges@) =~= match_ranges(group));
    match validate_non_overlapping(&ranges) {
        Ok(()) => {},
        Err(error) => {
            return Err(error);
        },
    }
    let no_hits: Vec<QueryHit> = Vec::new();
    assert(hit_views(no_hits@) =~= Seq::<Finding>::empty());
    let hits = if index < answers.hits.len() {
        &answers.hits[index]
    } else {
        &no_hits
    };
    assert(hit_views(hits@) == hits_in(answers@, index as int));
    proof {
        assert forall|k: int| from <= k < to implies range_fault(
            source.text@,
            (#[trigger] matches@[k]).range.start as int,
            matches@[k].range.end as int,
        ) is None by {
            lemma_matches_fault(known, all, k);
            assert(all[k] == matches@[k]@);
        }
    }
    let (edits, bytes) = match build_edits(answers, source, hits, matches, from, to, replaced) {
        Ok((edits, bytes)) => (edits, bytes),
        Err(error) => {
            return Err(error);
        },
    };
    let after = match apply_edits(source.text.as_str(), &edits) {
        Ok(after) => after,
        Err(error) => {
            return Err(error);
        },
    };
    let output: usize = match output.checked_add(byte_len(after.as_str())) {
        Some(output) => output,
        None => {
            return Err(ReplaceError::OutputByteOverflow);
        },
    };
    if output > MAX_REPLACE_OUTPUT_BYTES {
        return Err(ReplaceError::TooManyOutputBytes);
    }
    let file = ReplaceFilePreview {
        source: source.identity.clone(),
        before: source.buffer_fingerprint(),
        disk: source.disk,
        after: ContentFingerprint::for_bytes(after.as_str().as_bytes()),
        edits,
    };
    Ok((file, bytes, output))
}

/// The matches of a preview are sorted, and each is there once.
pub open spec fn strictly_sorted(list: Seq<Match>) -> bool {
    forall|i: int, j: int|
        0 <= i < j < list.len() ==> match_before(#[trigger] list[i], #[trigger] list[j])
}

/// Sorting orders the matches, drops only repetitions, and adds nothing.
pub proof fn sorting_keeps_every_match_once(matches: Seq<Match>)
    ensures
        strictly_sorted(in_order(matches)),
        in_order(matches).len() <= matches.len(),
        forall|m: Match| #[trigger] in_order(matches).contains(m) <==> matches.contains(m),
    decreases matches.len(),
{
    if matches.len() > 0 {
        let rest = matches.drop_last();
        let last = matches.last();
        sorting_keeps_every_match_once(rest);
        lemma_with_match(in_order(rest), last);
        assert forall|m: Match| #[trigger] in_order(matches).contains(m) <==> matches.contains(
            m,
        ) by {
            if matches.contains(m) && m != last {
                let k = choose|k: int| 0 <= k < matches.len() && matches[k] == m;
                assert(rest[k] == m);
            }
            if rest.contains(m) {
                let k = choose|k: int| 0 <= k < rest.len() && rest[k] == m;
                assert(matches[k] == m);
            }
            assert(matches[matches.len() - 1] == last);
        }
    }
}

/// Two sorted lists of the same matches are the same.
proof fn lemma_sorted_lists_agree(first: Seq<Match>, second: Seq<Match>)
    requires
        strictly_sorted(first),
        strictly_sorted(second),
        forall|m: Match| #[trigger] first.contains(m) <==> second.contains(m),
    ensures
        first == second,
    decreases first.len(),
{
    if first.len() == 0 {
        if second.len() > 0 {
            assert(second.contains(second[0]));
            assert(first.contains(second[0]));
        }
        assert(first =~= second);
    } else {
        assert(first.contains(first[0]));
        assert(second.contains(first[0]));
        let k = choose|k: int| 0 <= k < second.len() && second[k] == first[0];
        assert(second.contains(second[0]));
        assert(first.contains(second[0]));
        let j = choose|j: int| 0 <= j < first.len() && first[j] == second[0];
        if k > 0 {
            assert(match_before(second[0], second[k]));
            lemma_match_order(second[0], second[k]);
            if j > 0 {
                assert(match_before(first[0], first[j]));
            }
        }
        let rest = first.drop_first();
        let others = second.drop_first();
        lemma_rest_is_sorted(first);
        lemma_rest_is_sorted(second);
        assert forall|m: Match| #[trigger] rest.contains(m) <==> others.contains(m) by {
            lemma_rest_holds(first, m);
            lemma_rest_holds(second, m);
            assert(first.contains(m) <==> second.contains(m));
        }
        lemma_sorted_lists_agree(rest, others);
        assert(first =~= seq![first[0]] + rest);
        assert(second =~= seq![second[0]] + others);
    }
}

proof fn lemma_rest_is_sorted(list: Seq<Match>)
    requires
        strictly_sorted(list),
        list.len() > 0,
    ensures
        strictly_sorted(list.drop_first()),
{
    let rest = list.drop_first();
    assert forall|i: int, j: int| 0 <= i < j < rest.len() implies match_before(
        #[trigger] rest[i],
        #[trigger] rest[j],
    ) by {
        assert(rest[i] == list[i + 1] && rest[j] == list[j + 1]);
    }
}

proof fn lemma_rest_holds(list: Seq<Match>, m: Match)
    requires
        strictly_sorted(list),
        list.len() > 0,
    ensures
        list.drop_first().contains(m) <==> list.contains(m) && m != list[0],
{
    let rest = list.drop_first();
    if rest.contains(m) {
        let k = choose|k: int| 0 <= k < rest.len() && rest[k] == m;
        assert(list[k + 1] == m);
        assert(match_before(list[0], list[k + 1]));
        lemma_match_order(list[0], m);
    }
    if list.contains(m) && m != list[0] {
        let k = choose|k: int| 0 <= k < list.len() && list[k] == m;
        assert(rest[k - 1] == m);
    }
}

/// A preview does not depend on the order of the matches, nor on how often
/// each is there, as long as there are not too many.
pub proof fn previews_do_not_depend_on_the_order(
    search_generation: u64,
    answers: Answers,
    sources: Seq<Source>,
    first: Seq<Match>,
    second: Seq<Match>,
)
    requires
        forall|m: Match| #[trigger] first.contains(m) <==> second.contains(m),
        first.len() <= MAX_REPLACE_EDITS <==> second.len() <= MAX_REPLACE_EDITS,
    ensures
        previewed(search_generation, answers, sources, first) == previewed(
            search_generation,
            answers,
            sources,
            second,
        ),
{
    sorting_keeps_every_match_once(first);
    sorting_keeps_every_match_once(second);
    assert forall|m: Match| #[trigger] in_order(first).contains(m) <==> in_order(second).contains(
        m,
    ) by {
        assert(first.contains(m) <==> second.contains(m));
    }
    lemma_sorted_lists_agree(in_order(first), in_order(second));
}

proof fn lemma_with_match(list: Seq<Match>, m: Match)
    requires
        strictly_sorted(list),
    ensures
        strictly_sorted(with_match(list, m)),
        with_match(list, m).len() <= list.len() + 1,
        forall|n: Match| #[trigger]
            with_match(list, m).contains(n) <==> list.contains(n) || n == m,
    decreases list.len(),
{
    let result = with_match(list, m);
    if list.len() == 0 || match_before(m, list[0]) {
        assert forall|i: int, j: int| 0 <= i < j < result.len() implies match_before(
            #[trigger] result[i],
            #[trigger] result[j],
        ) by {
            assert(result[j] == list[j - 1]);
            if i == 0 {
                if j > 1 {
                    assert(match_before(list[0], list[j - 1]));
                    lemma_match_order_transitive(m, list[0], list[j - 1]);
                }
            } else {
                assert(result[i] == list[i - 1]);
            }
        }
        assert forall|n: Match| #[trigger] result.contains(n) <==> list.contains(n) || n == m by {
            if list.contains(n) {
                let k = choose|k: int| 0 <= k < list.len() && list[k] == n;
                assert(result[k + 1] == n);
            }
            assert(result[0] == m);
            if result.contains(n) && n != m {
                let k = choose|k: int| 0 <= k < result.len() && result[k] == n;
                assert(list[k - 1] == n);
            }
        }
    } else if m == list[0] {
        assert(list.contains(m));
    } else {
        lemma_match_order(m, list[0]);
        let rest = list.drop_first();
        assert(strictly_sorted(rest)) by {
            assert forall|i: int, j: int| 0 <= i < j < rest.len() implies match_before(
                #[trigger] rest[i],
                #[trigger] rest[j],
            ) by {
                assert(rest[i] == list[i + 1] && rest[j] == list[j + 1]);
            }
        }
        lemma_with_match(rest, m);
        let tail = with_match(rest, m);
        assert forall|i: int, j: int| 0 <= i < j < result.len() implies match_before(
            #[trigger] result[i],
            #[trigger] result[j],
        ) by {
            assert(result[j] == tail[j - 1]);
            if i == 0 {
                assert(tail.contains(tail[j - 1]));
                if tail[j - 1] != m {
                    let k = choose|k: int| 0 <= k < rest.len() && rest[k] == tail[j - 1];
                    assert(list[k + 1] == rest[k]);
                    assert(match_before(list[0], list[k + 1]));
                }
            } else {
                assert(result[i] == tail[i - 1]);
            }
        }
        assert forall|n: Match| #[trigger] result.contains(n) <==> list.contains(n) || n == m by {
            if list.contains(n) {
                let k = choose|k: int| 0 <= k < list.len() && list[k] == n;
                if k > 0 {
                    assert(rest[k - 1] == n);
                    assert(rest.contains(n));
                    assert(tail.contains(n));
                    let t = choose|t: int| 0 <= t < tail.len() && tail[t] == n;
                    assert(result[t + 1] == n);
                } else {
                    assert(result[0] == n);
                }
            }
            if n == m {
                assert(tail.contains(m));
                let t = choose|t: int| 0 <= t < tail.len() && tail[t] == m;
                assert(result[t + 1] == m);
            }
            if result.contains(n) {
                let k = choose|k: int| 0 <= k < result.len() && result[k] == n;
                if k > 0 {
                    assert(tail[k - 1] == n);
                    assert(tail.contains(n));
                    if rest.contains(n) {
                        let r = choose|r: int| 0 <= r < rest.len() && rest[r] == n;
                        assert(list[r + 1] == n);
                    }
                } else {
                    assert(list[0] == n);
                }
            }
        }
    }
}

/// A text with its edits put in: what lies between the ranges, and the
/// replacements in their places.
pub open spec fn woven(text: Seq<char>, edits: Seq<Edit>) -> Seq<char>
    decreases edits.len(),
{
    if edits.len() == 0 {
        text
    } else {
        let edit = edits.last();
        woven(text.take(index_at(text, edit.start)->0), edits.drop_last()) + edit.replacement
            + text.skip(index_at(text, edit.end)->0)
    }
}

/// The ranges of some edits.
pub open spec fn edit_ranges(edits: Seq<Edit>) -> Seq<(int, int)> {
    Seq::new(edits.len(), |i: int| (edits[i].start, edits[i].end))
}

/// Every edit is for a part of the text.
pub open spec fn all_within(text: Seq<char>, edits: Seq<Edit>) -> bool {
    forall|i: int|
        0 <= i < edits.len() ==> range_fault(text, (#[trigger] edits[i]).start, edits[i].end)
            is None
}

proof fn lemma_index_in_prefix(text: Seq<char>, n: int, byte: int)
    requires
        0 <= n <= text.len(),
        index_at(text, byte) is Some,
        byte <= utf8_len(text.take(n)),
    ensures
        index_at(text.take(n), byte) == index_at(text, byte),
        index_at(text, byte)->0 <= n,
{
    lemma_index_at(text, byte);
    let k = index_at(text, byte)->0;
    if k > n {
        lemma_utf8_len_prefix(text, n, k);
    }
    assert(text.take(n).take(k) =~= text.take(k));
    crate::text::lemma_index_at_prefix(text.take(n), k);
}

proof fn lemma_edits_before(text: Seq<char>, edits: Seq<Edit>, k: int)
    requires
        all_within(text, edits),
        overlap_fault(edit_ranges(edits)) is None,
        0 <= k < edits.len() - 1,
    ensures
        edits[k].end <= edits.last().start,
    decreases edits.len(),
{
    let ranges = edit_ranges(edits);
    let n = edits.len();
    assert(ranges[n - 2].1 <= ranges[n - 1].0);
    if k < n - 2 {
        let rest = edits.drop_last();
        assert(edit_ranges(rest) =~= ranges.drop_last());
        assert forall|i: int| 0 <= i < rest.len() implies range_fault(
            text,
            (#[trigger] rest[i]).start,
            rest[i].end,
        ) is None by {
            assert(rest[i] == edits[i]);
        }
        lemma_edits_before(text, rest, k);
        assert(rest.last() == edits[n - 2]);
    }
}

proof fn lemma_edited_with_tail(text: Seq<char>, tail: Seq<char>, edits: Seq<Edit>)
    requires
        edited(text, edits) is Ok,
    ensures
        edited(text + tail, edits) == Ok::<Seq<char>, Fault>(edited(text, edits)->Ok_0 + tail),
    decreases edits.len(),
{
    if edits.len() > 0 {
        let edit = edits.last();
        let whole = text + tail;
        assert(whole.take(text.len() as int) =~= text);
        lemma_range_in_order(text, edit.start, edit.end);
        lemma_index_at(text, edit.start);
        lemma_index_at(text, edit.end);
        let i = index_at(text, edit.start)->0;
        let j = index_at(text, edit.end)->0;
        assert(whole.take(i) =~= text.take(i));
        assert(whole.take(j) =~= text.take(j));
        crate::text::lemma_index_at_prefix(whole, i);
        crate::text::lemma_index_at_prefix(whole, j);
        crate::text::lemma_utf8_len_add(text, tail);
        let next = splice(text, edit.start, edit.end, edit.replacement);
        assert(splice(whole, edit.start, edit.end, edit.replacement) =~= next + tail);
        lemma_edited_with_tail(next, tail, edits.drop_last());
    }
}

/// Edits whose ranges are parts of the text and do not overlap always succeed,
/// and change nothing but their ranges.
pub proof fn edits_change_only_their_ranges(text: Seq<char>, edits: Seq<Edit>)
    requires
        all_within(text, edits),
        overlap_fault(edit_ranges(edits)) is None,
    ensures
        edited(text, edits) == Ok::<Seq<char>, Fault>(woven(text, edits)),
    decreases edits.len(),
{
    if edits.len() > 0 {
        let n = edits.len();
        let edit = edits.last();
        let rest = edits.drop_last();
        assert(edits[n - 1] == edit);
        lemma_range_in_order(text, edit.start, edit.end);
        lemma_index_at(text, edit.start);
        let i = index_at(text, edit.start)->0;
        let j = index_at(text, edit.end)->0;
        let head = text.take(i);
        let tail = edit.replacement + text.skip(j);
        assert forall|k: int| 0 <= k < rest.len() implies range_fault(
            head,
            (#[trigger] rest[k]).start,
            rest[k].end,
        ) is None by {
            assert(rest[k] == edits[k]);
            lemma_edits_before(text, edits, k);
            lemma_index_in_prefix(text, i, rest[k].start);
            lemma_index_in_prefix(text, i, rest[k].end);
        }
        assert(edit_ranges(rest) =~= edit_ranges(edits).drop_last());
        edits_change_only_their_ranges(head, rest);
        lemma_edited_with_tail(head, tail, rest);
        assert(splice(text, edit.start, edit.end, edit.replacement) =~= head + tail);
        assert(woven(head, rest) + tail =~= woven(text, edits));
    }
}

/// A file of a preview says what is in its source: the fingerprints, and the
/// texts that its edits replace.
spec fn faithful(sources: Seq<Source>, file: FileEdits) -> bool {
    &&& source_index(sources, file.source) is Some
    &&& file_fault(sources, file) is None
    &&& output_of(sources, file) is Ok
    &&& overlap_fault(edit_ranges(file.edits)) is None
}

/// The edits are for the ranges of the matches.
proof fn lemma_edits_have_their_ranges(
    answers: Answers,
    source: Source,
    hits: Seq<Finding>,
    matches: Seq<Match>,
    bytes: int,
)
    requires
        edits_of(answers, source, hits, matches, bytes) is Ok,
    ensures
        edit_ranges(edits_of(answers, source, hits, matches, bytes)->Ok_0.0) == match_ranges(
            matches,
        ),
    decreases matches.len(),
{
    let edits = edits_of(answers, source, hits, matches, bytes)->Ok_0.0;
    if matches.len() > 0 {
        let rest = matches.drop_last();
        lemma_edits_have_their_ranges(answers, source, hits, rest, bytes);
        let before = edits_of(answers, source, hits, rest, bytes)->Ok_0.0;
        assert(edits.drop_last() =~= before);
        assert(edit_ranges(edits) =~= edit_ranges(before).push(
            (matches.last().start, matches.last().end),
        ));
        assert(match_ranges(matches) =~= match_ranges(rest).push(
            (matches.last().start, matches.last().end),
        ));
    } else {
        assert(edit_ranges(edits) =~= match_ranges(matches));
    }
}

proof fn lemma_sound_edits_are_within(source: Source, edits: Seq<Edit>)
    requires
        edits_fault(source, edits) is None,
    ensures
        all_within(source.text, edits),
    decreases edits.len(),
{
    if edits.len() > 0 {
        let rest = edits.drop_last();
        lemma_sound_edits_are_within(source, rest);
        assert forall|i: int| 0 <= i < edits.len() implies range_fault(
            source.text,
            (#[trigger] edits[i]).start,
            edits[i].end,
        ) is None by {
            if i < rest.len() {
                assert(rest[i] == edits[i]);
            }
        }
    }
}

proof fn lemma_edits_are_faithful(
    answers: Answers,
    source: Source,
    hits: Seq<Finding>,
    matches: Seq<Match>,
    bytes: int,
)
    requires
        edits_of(answers, source, hits, matches, bytes) is Ok,
        forall|k: int|
            0 <= k < matches.len() ==> range_fault(
                source.text,
                (#[trigger] matches[k]).start,
                matches[k].end,
            ) is None,
    ensures
        edits_fault(source, edits_of(answers, source, hits, matches, bytes)->Ok_0.0) is None,
    decreases matches.len(),
{
    if matches.len() > 0 {
        let rest = matches.drop_last();
        assert forall|k: int| 0 <= k < rest.len() implies range_fault(
            source.text,
            (#[trigger] rest[k]).start,
            rest[k].end,
        ) is None by {
            assert(rest[k] == matches[k]);
        }
        lemma_edits_are_faithful(answers, source, hits, rest, bytes);
        let edits = edits_of(answers, source, hits, matches, bytes)->Ok_0.0;
        let before = edits_of(answers, source, hits, rest, bytes)->Ok_0.0;
        assert(edits.drop_last() =~= before);
        assert(matches[matches.len() - 1] == matches.last());
    }
}

proof fn lemma_files_are_faithful(
    answers: Answers,
    sources: Seq<Source>,
    matches: Seq<Match>,
    i: int,
    progress: Progress,
)
    requires
        0 <= i <= matches.len(),
        matches_fault(sources, matches) is None,
        with_files(answers, sources, matches, i, progress) is Ok,
        forall|k: int|
            0 <= k < progress.files.len() ==> faithful(sources, #[trigger] progress.files[k]),
    ensures
        forall|k: int|
            0 <= k < with_files(answers, sources, matches, i, progress)->Ok_0.files.len()
                ==> faithful(
                sources,
                #[trigger] with_files(answers, sources, matches, i, progress)->Ok_0.files[k],
            ),
    decreases matches.len() - i,
{
    if i < matches.len() {
        let end = run_end(matches, i, i + 1);
        lemma_run_end(matches, i, i + 1);
        let group = matches.subrange(i, end);
        let next = with_file(answers, sources, group, progress)->Ok_0;
        lemma_matches_fault(sources, matches, i);
        let index = source_index(sources, group[0].source)->0;
        lemma_source_index(sources, group[0].source);
        let source = sources[index];
        lemma_source_index(sources, source.identity);
        assert(source_index(sources, source.identity) == Some(index));
        assert forall|k: int| 0 <= k < group.len() implies range_fault(
            source.text,
            (#[trigger] group[k]).start,
            group[k].end,
        ) is None by {
            assert(group[k] == matches[i + k]);
            lemma_run_is_one_source(matches, i, i + 1, i + k);
            lemma_matches_fault(sources, matches, i + k);
        }
        let hits = hits_in(answers, index);
        lemma_edits_are_faithful(answers, source, hits, group, progress.replaced);
        lemma_edits_have_their_ranges(answers, source, hits, group, progress.replaced);
        assert forall|k: int| 0 <= k < next.files.len() implies faithful(
            sources,
            #[trigger] next.files[k],
        ) by {
            if k < progress.files.len() {
                assert(next.files[k] == progress.files[k]);
            }
        }
        lemma_files_are_faithful(answers, sources, matches, end, next);
    }
}

pub proof fn lemma_run_is_one_source(matches: Seq<Match>, i: int, j: int, k: int)
    requires
        0 <= i < j <= matches.len(),
        i <= k < run_end(matches, i, j),
        forall|n: int| i <= n < j ==> (#[trigger] matches[n]).source == matches[i].source,
    ensures
        matches[k].source == matches[i].source,
    decreases matches.len() - j,
{
    if j < matches.len() && matches[j].source == matches[i].source {
        lemma_run_is_one_source(matches, i, j + 1, k);
    } else {
        assert(matches[k].source == matches[i].source);
    }
}

proof fn lemma_faithful_files_apply(sources: Seq<Source>, files: Seq<FileEdits>)
    requires
        forall|k: int| 0 <= k < files.len() ==> faithful(sources, #[trigger] files[k]),
    ensures
        files_fault(sources, files) is None,
        outputs_of(sources, files) matches Ok(outputs) ==> outputs.len() == files.len()
            && forall|k: int|
            0 <= k < files.len() ==> (#[trigger] outputs[k]).source == files[k].source
                && outputs[k].fingerprint == files[k].after && outputs[k].fingerprint
                == text_fingerprint(outputs[k].text) && outputs[k].text == woven(
                sources[source_index(sources, files[k].source)->0].text,
                files[k].edits,
            ),
        outputs_of(sources, files) is Ok,
    decreases files.len(),
{
    if files.len() > 0 {
        let rest = files.drop_last();
        assert forall|k: int| 0 <= k < rest.len() implies faithful(sources, #[trigger] rest[k]) by {
            assert(rest[k] == files[k]);
        }
        lemma_faithful_files_apply(sources, rest);
        assert(faithful(sources, files[files.len() - 1]));
        let last = files.last();
        let source = sources[source_index(sources, last.source)->0];
        lemma_sound_edits_are_within(source, last.edits);
        edits_change_only_their_ranges(source.text, last.edits);
        let outputs = outputs_of(sources, files)->Ok_0;
        let before = outputs_of(sources, rest)->Ok_0;
        assert forall|k: int| 0 <= k < files.len() implies (#[trigger] outputs[k]).source
            == files[k].source && outputs[k].fingerprint == files[k].after && outputs[k].fingerprint
            == text_fingerprint(outputs[k].text) && outputs[k].text == woven(
            sources[source_index(sources, files[k].source)->0].text,
            files[k].edits,
        ) by {
            if k < rest.len() {
                assert(outputs[k] == before[k]);
                assert(rest[k] == files[k]);
            }
        }
    }
}

proof fn lemma_checked_sources_are_distinct(sources: Seq<Source>)
    requires
        sources_fault(sources) is None,
    ensures
        !has_duplicates(sources),
    decreases sources.len(),
{
    if sources.len() > 0 {
        let rest = sources.drop_last();
        lemma_checked_sources_are_distinct(rest);
        lemma_source_index(rest, sources.last().identity);
        assert forall|i: int, j: int| 0 <= i < j < sources.len() implies (
        #[trigger] sources[i]).identity != (#[trigger] sources[j]).identity by {
            assert(rest[i] == sources[i]);
            if j < rest.len() {
                assert(rest[j] == sources[j]);
            }
        }
    }
}

/// A preview applies to the sources that it was built from: every file gets
/// its own text with the previewed edits put in their places, and with the
/// fingerprint that was previewed.
pub proof fn previews_apply_to_their_sources(
    search_generation: u64,
    answers: Answers,
    sources: Seq<Source>,
    matches: Seq<Match>,
)
    requires
        previewed(search_generation, answers, sources, matches) is Ok,
    ensures
        ({
            let preview = previewed(search_generation, answers, sources, matches)->Ok_0;
            &&& applied(preview, search_generation, sources) matches Ok(outputs)
            &&& outputs.len() == preview.files.len()
            &&& forall|k: int|
                0 <= k < outputs.len() ==> (#[trigger] outputs[k]).source == preview.files[k].source
                    && outputs[k].fingerprint == preview.files[k].after
                    && outputs[k].fingerprint == text_fingerprint(outputs[k].text)
                    && source_index(sources, preview.files[k].source) is Some && outputs[k].text
                    == woven(
                    sources[source_index(sources, preview.files[k].source)->0].text,
                    preview.files[k].edits,
                )
        }),
{
    let ordered = in_order(matches);
    let start = Progress { files: Seq::empty(), replaced: 0, output: 0 };
    lemma_files_are_faithful(answers, sources, ordered, 0, start);
    let preview = previewed(search_generation, answers, sources, matches)->Ok_0;
    lemma_faithful_files_apply(sources, preview.files);
    assert(forall|k: int|
        0 <= k < preview.files.len() ==> faithful(sources, #[trigger] preview.files[k]));
    lemma_checked_sources_are_distinct(sources);
}

/// A preview of another generation, or with one source that is gone or has
/// another content, gives no text at all.
pub proof fn stale_previews_change_nothing(
    preview: Preview,
    current_generation: u64,
    current: Seq<Source>,
    k: int,
)
    requires
        0 <= k < preview.files.len(),
        ({
            let file = preview.files[k];
            let index = source_index(current, file.source);
            ||| current_generation != preview.search_generation
            ||| index is None
            ||| text_fingerprint(current[index->0].text) != file.before
            ||| current[index->0].disk != file.disk
        }),
    ensures
        applied(preview, current_generation, current) is Err,
{
    if files_fault(current, preview.files) is None {
        lemma_files_fault(current, preview.files, k);
    }
}

/// The word for a list of globs.
pub open spec fn kind_name(kind: GlobKind) -> Seq<char> {
    match kind {
        GlobKind::Include => "include"@,
        GlobKind::Exclude => "exclude"@,
    }
}

/// What is told of refused options.
pub open spec fn options_message(error: SearchOptionsError) -> Seq<char> {
    match error {
        SearchOptionsError::EmptyQuery => "project search query cannot be empty"@,
        SearchOptionsError::QueryTooLong => "project search query exceeds "@ + decimal(MAX_QUERY_BYTES as nat) + " bytes"@,
        SearchOptionsError::QueryNotOneLine => "project search query must fit on one prompt line"@,
        SearchOptionsError::ReplacementTooLong => "project search replacement exceeds "@ + decimal(MAX_REPLACEMENT_BYTES as nat) + " bytes"@,
        SearchOptionsError::ReplacementHoldsNul => "project search replacement contains NUL"@,
        SearchOptionsError::TooManyGlobs(kind) => "project search "@ + kind_name(kind) + " list exceeds "@ + decimal(MAX_GLOB_COUNT as nat) + " globs"@,
        SearchOptionsError::EmptyGlob(kind) => "project search "@ + kind_name(kind) + " glob is empty"@,
        SearchOptionsError::GlobHoldsControl(kind) => "project search "@ + kind_name(kind) + " glob contains a control character"@,
        SearchOptionsError::GlobByteOverflow => "project search glob byte count overflow"@,
        SearchOptionsError::GlobsTooLong(kind) => "project search "@ + kind_name(kind) + " list exceeds "@ + decimal(MAX_GLOB_BYTES as nat) + " bytes"@,
    }
}

impl SearchOptionsError {
    /// What is told of the refused options.
    pub fn message(&self) -> (text: String)
        ensures
            text@ == options_message(*self),
    {
        let mut text = String::new();
        match *self {
            SearchOptionsError::EmptyQuery => {
                text.append("project search query cannot be empty");
            },
            SearchOptionsError::QueryTooLong => {
                text.append("project search query exceeds ");
                push_decimal(&mut text, MAX_QUERY_BYTES as u64);
                text.append(" bytes");
            },
            SearchOptionsError::QueryNotOneLine => {
                text.append("project search query must fit on one prompt line");
            },
            SearchOptionsError::ReplacementTooLong => {
                text.append("project search replacement exceeds ");
                push_decimal(&mut text, MAX_REPLACEMENT_BYTES as u64);
                text.append(" bytes");
            },
            SearchOptionsError::ReplacementHoldsNul => {
                text.append("project search replacement contains NUL");
            },
            SearchOptionsError::TooManyGlobs(kind) => {
                text.append("project search ");
                match kind {
                    GlobKind::Include => text.append("include"),
                    GlobKind::Exclude => text.append("exclude"),
                }
                text.append(" list exceeds ");
                push_decimal(&mut text, MAX_GLOB_COUNT as u64);
                text.append(" globs");
            },
            SearchOptionsError::EmptyGlob(kind) => {
                text.append("project search ");
                match kind {
                    GlobKind::Include => text.append("include"),
                    GlobKind::Exclude => text.append("exclude"),
                }
                text.append(" glob is empty");
            },
            SearchOptionsError::GlobHoldsControl(kind) => {
                text.append("project search ");
                match kind {
                    GlobKind::Include => text.append("include"),
                    GlobKind::Exclude => text.append("exclude"),
                }
                text.append(" glob contains a control character");
            },
            SearchOptionsError::GlobByteOverflow => {
                text.append("project search glob byte count overflow");
            },
            SearchOptionsError::GlobsTooLong(kind) => {
                text.append("project search ");
                match kind {
                    GlobKind::Include => text.append("include"),
                    GlobKind::Exclude => text.append("exclude"),
                }
                text.append(" list exceeds ");
                push_decimal(&mut text, MAX_GLOB_BYTES as u64);
                text.append(" bytes");
            },
        }
        assert(text@ =~= options_message(*self));
        text
    }
}

/// What is told of a refused replacement.
pub open spec fn replace_message(fault: Fault) -> Seq<char> {
    match fault {
        Fault::ZeroGeneration => "search generation must be non-zero"@,
        Fault::TooManySources => "replace preview exceeds "@ + decimal(MAX_REPLACE_SOURCES as nat) + " sources"@,
        Fault::TooManyEdits => "replace preview exceeds "@ + decimal(MAX_REPLACE_EDITS as nat) + " edits"@,
        Fault::NoReplacementText => "replace preview requires replacement text"@,
        Fault::DuplicateSource { path } => "replace preview contains duplicate source "@ + path,
        Fault::AliasedBuffer { buffer_id } => "replace preview contains aliased Buffer id "@ + decimal(buffer_id as nat),
        Fault::UnknownSource { path } => "replace match references unknown source "@ + path,
        Fault::ReversedRange => "replace range is reversed"@,
        Fault::RangeBeyondText => "replace range exceeds source text"@,
        Fault::RangeSplitsCodepoint => "replace range splits a UTF-8 codepoint"@,
        Fault::Overlap { first, second } => "replace ranges overlap at "@ + decimal(first.0 as nat) + ".."@ + decimal(first.1 as nat) + " and "@ + decimal(second.0 as nat) + ".."@ + decimal(second.1 as nat),
        Fault::NotAMatch { range, path } => "replace range "@ + decimal(range.0 as nat) + ".."@ + decimal(range.1 as nat) + " is no longer a query match in "@ + path,
        Fault::NoReplacement => "query has no replacement"@,
        Fault::ReplacementByteOverflow => "replace preview byte count overflow"@,
        Fault::TooManyReplacementBytes => "replace preview exceeds "@ + decimal(MAX_REPLACEMENT_BYTES as nat) + " replacement bytes"@,
        Fault::OutputByteOverflow => "replace preview output byte count overflow"@,
        Fault::TooManyOutputBytes => "replace preview exceeds "@ + decimal(MAX_REPLACE_OUTPUT_BYTES as nat) + " output bytes"@,
        Fault::StaleGeneration { generation } => "replace preview belongs to stale search generation "@ + decimal(generation as nat),
        Fault::DuplicateCurrentSources => "current replace sources contain duplicate identities"@,
        Fault::SourceDisappeared { path } => "replace source disappeared: "@ + path,
        Fault::SourceChanged { path } => "replace source changed after preview: "@ + path,
        Fault::DiskChanged { path } => "replace source disk fingerprint changed after preview: "@ + path,
        Fault::RangeChanged { path } => "replace source range changed after preview: "@ + path,
        Fault::OutputMismatch { path } => "replace preview output fingerprint mismatch for "@ + path,
    }
}

impl ReplaceError {
    /// What is told of the refused replacement.
    pub fn message(&self) -> (text: String)
        ensures
            text@ == replace_message(self@),
    {
        let mut text = String::new();
        match self {
            ReplaceError::ZeroGeneration => {
                text.append("search generation must be non-zero");
            },
            ReplaceError::TooManySources => {
                text.append("replace preview exceeds ");
                push_decimal(&mut text, MAX_REPLACE_SOURCES as u64);
                text.append(" sources");
            },
            ReplaceError::TooManyEdits => {
                text.append("replace preview exceeds ");
                push_decimal(&mut text, MAX_REPLACE_EDITS as u64);
                text.append(" edits");
            },
            ReplaceError::NoReplacementText => {
                text.append("replace preview requires replacement text");
            },
            ReplaceError::DuplicateSource { path } => {
                text.append("replace preview contains duplicate source ");
                text.append(path.as_str());
            },
            ReplaceError::AliasedBuffer { buffer_id } => {
                text.append("replace preview contains aliased Buffer id ");
                push_decimal(&mut text, *buffer_id as u64);
            },
            ReplaceError::UnknownSource { path } => {
                text.append("replace match references unknown source ");
                text.append(path.as_str());
            },
            ReplaceError::ReversedRange => {
                text.append("replace range is reversed");
            },
            ReplaceError::RangeBeyondText => {
                text.append("replace range exceeds source text");
            },
            ReplaceError::RangeSplitsCodepoint => {
                text.append("replace range splits a UTF-8 codepoint");
            },
            ReplaceError::Overlap { first, second } => {
                text.append("replace ranges overlap at ");
                push_decimal(&mut text, first.start as u64);
                text.append("..");
                push_decimal(&mut text, first.end as u64);
                text.append(" and ");
                push_decimal(&mut text, second.start as u64);
                text.append("..");
                push_decimal(&mut text, second.end as u64);
            },
            ReplaceError::NotAMatch { range, path } => {
                text.append("replace range ");
                push_decimal(&mut text, range.start as u64);
                text.append("..");
                push_decimal(&mut text, range.end as u64);
                text.append(" is no longer a query match in ");
                text.append(path.as_str());
            },
            ReplaceError::NoReplacement => {
                text.append("query has no replacement");
            },
            ReplaceError::ReplacementByteOverflow => {
                text.append("replace preview byte count overflow");
            },
            ReplaceError::TooManyReplacementBytes => {
                text.append("replace preview exceeds ");
                push_decimal(&mut text, MAX_REPLACEMENT_BYTES as u64);
                text.append(" replacement bytes");
            },
            ReplaceError::OutputByteOverflow => {
                text.append("replace preview output byte count overflow");
            },
            ReplaceError::TooManyOutputBytes => {
                text.append("replace preview exceeds ");
                push_decimal(&mut text, MAX_REPLACE_OUTPUT_BYTES as u64);
                text.append(" output bytes");
            },
            ReplaceError::StaleGeneration { generation } => {
                text.append("replace preview belongs to stale search generation ");
                push_decimal(&mut text, *generation as u64);
            },
            ReplaceError::DuplicateCurrentSources => {
                text.append("current replace sources contain duplicate identities");
            },
            ReplaceError::SourceDisappeared { path } => {
                text.append("replace source disappeared: ");
                text.append(path.as_str());
            },
            ReplaceError::SourceChanged { path } => {
                text.append("replace source changed after preview: ");
                text.append(path.as_str());
            },
            ReplaceError::DiskChanged { path } => {
                text.append("replace source disk fingerprint changed after preview: ");
                text.append(path.as_str());
            },
            ReplaceError::RangeChanged { path } => {
                text.append("replace source range changed after preview: ");
                text.append(path.as_str());
            },
            ReplaceError::OutputMismatch { path } => {
                text.append("replace preview output fingerprint mismatch for ");
                text.append(path.as_str());
            },
        }
        assert(text@ =~= replace_message(self@));
        text
    }
}

/// A query as the search of the editor takes it.
#[derive(Debug, PartialEq, Eq)]
pub struct QueryPlan {
    pub text: String,
    /// The text is a pattern.
    pub regex: bool,
    pub whole_word: bool,
    pub case_sensitive: bool,
    pub include_ignored: bool,
    pub one_match_per_line: bool,
    pub include_globs: Vec<String>,
    pub exclude_globs: Vec<String>,
    pub match_full_paths: bool,
    /// Only the buffers that are open are searched.
    pub open_buffers_only: bool,
    pub replacement: Option<String>,
}

/// The plain values of a [`QueryPlan`].
pub struct Plan {
    pub text: Seq<char>,
    pub regex: bool,
    pub whole_word: bool,
    pub case_sensitive: bool,
    pub include_ignored: bool,
    pub one_match_per_line: bool,
    pub include_globs: Seq<Seq<char>>,
    pub exclude_globs: Seq<Seq<char>>,
    pub match_full_paths: bool,
    pub open_buffers_only: bool,
    pub replacement: Option<Seq<char>>,
}

impl View for QueryPlan {
    type V = Plan;

    open spec fn view(&self) -> Plan {
        Plan {
            text: self.text@,
            regex: self.regex,
            whole_word: self.whole_word,
            case_sensitive: self.case_sensitive,
            include_ignored: self.include_ignored,
            one_match_per_line: self.one_match_per_line,
            include_globs: texts(self.include_globs@),
            exclude_globs: texts(self.exclude_globs@),
            match_full_paths: self.match_full_paths,
            open_buffers_only: self.open_buffers_only,
            replacement: optional_text(self.replacement),
        }
    }
}

/// A query for a text in all files.
pub open spec fn plain_query(text: Seq<char>) -> Plan {
    Plan {
        text,
        regex: false,
        whole_word: false,
        case_sensitive: false,
        include_ignored: false,
        one_match_per_line: false,
        include_globs: Seq::empty(),
        exclude_globs: Seq::empty(),
        match_full_paths: false,
        open_buffers_only: false,
        replacement: None,
    }
}

impl QueryPlan {
    /// A query for a text in all files.
    pub fn new(text: &str) -> (plan: Self)
        ensures
            plan@ == plain_query(text@),
    {
        let plan = QueryPlan {
            text: text.to_string(),
            regex: false,
            whole_word: false,
            case_sensitive: false,
            include_ignored: false,
            one_match_per_line: false,
            include_globs: Vec::new(),
            exclude_globs: Vec::new(),
            match_full_paths: false,
            open_buffers_only: false,
            replacement: None,
        };
        assert(plan@.include_globs =~= Seq::<Seq<char>>::empty());
        assert(plan@.exclude_globs =~= Seq::<Seq<char>>::empty());
        plan
    }
}

/// Why options make no query.
#[derive(Debug, PartialEq, Eq)]
pub enum CompileError {
    Options(SearchOptionsError),
    IncludeGlob,
    ExcludeGlob,
    Query,
}

/// What is told of options that make no query.
pub open spec fn compile_message(error: CompileError) -> Seq<char> {
    match error {
        CompileError::Options(error) => options_message(error),
        CompileError::IncludeGlob => "invalid project-search include glob"@,
        CompileError::ExcludeGlob => "invalid project-search exclude glob"@,
        CompileError::Query => "invalid project-search query"@,
    }
}

impl CompileError {
    /// What is told of the options.
    pub fn message(&self) -> (text: String)
        ensures
            text@ == compile_message(*self),
    {
        match self {
            CompileError::Options(error) => error.message(),
            CompileError::IncludeGlob => "invalid project-search include glob".to_string(),
            CompileError::ExcludeGlob => "invalid project-search exclude glob".to_string(),
            CompileError::Query => "invalid project-search query".to_string(),
        }
    }
}

/// What the editor's own engines say of the globs and the text of options:
/// whether each is well formed.
#[derive(Clone, Copy, Debug, PartialEq, Eq, Structural)]
pub struct Syntax {
    pub include_globs: bool,
    pub exclude_globs: bool,
    pub query: bool,
}

/// Why options make no query: for what was typed, else for the first thing
/// that is malformed.
pub open spec fn compile_fault(options: SearchOptionsView, syntax: Syntax) -> Option<CompileError> {
    match options_fault(options) {
        Some(error) => Some(CompileError::Options(error)),
        None => if !syntax.include_globs {
            Some(CompileError::IncludeGlob)
        } else if !syntax.exclude_globs {
            Some(CompileError::ExcludeGlob)
        } else if !syntax.query {
            Some(CompileError::Query)
        } else {
            None
        },
    }
}

/// The query of options.
pub open spec fn compiled_query(options: SearchOptionsView) -> Plan {
    Plan {
        text: options.query,
        regex: options.mode is Regex,
        whole_word: options.whole_word,
        case_sensitive: options.case_sensitive,
        include_ignored: options.include_ignored,
        one_match_per_line: false,
        include_globs: options.include_globs,
        exclude_globs: options.exclude_globs,
        match_full_paths: options.match_full_paths,
        open_buffers_only: options.open_buffers_only,
        replacement: Some(options.replacement),
    }
}

impl ProjectSearchOptions {
    /// Checks what the user typed and makes the query of it. The engines are
    /// asked of the globs and the text before.
    pub fn compile(&self, syntax: Syntax) -> (result: Result<QueryPlan, CompileError>)
        ensures
            match result {
                Ok(plan) => compile_fault(self@, syntax) is None && plan@ == compiled_query(self@),
                Err(error) => compile_fault(self@, syntax) == Some(error),
            },
            result matches Ok(plan) ==> {
                &&& plan.text@ == self.query@ && plan.regex == (self.mode is Regex)
                &&& texts(plan.include_globs@) == texts(self.include_globs@)
                &&& texts(plan.exclude_globs@) == texts(self.exclude_globs@)
                &&& plan.whole_word == self.whole_word && plan.case_sensitive == self.case_sensitive
                &&& plan.include_ignored == self.include_ignored
                &&& plan.match_full_paths == self.match_full_paths
                &&& plan.open_buffers_only == self.open_buffers_only
            },
    {
        if let Err(error) = self.validate() {
            return Err(CompileError::Options(error));
        }
        if !syntax.include_globs {
            return Err(CompileError::IncludeGlob);
        }
        if !syntax.exclude_globs {
            return Err(CompileError::ExcludeGlob);
        }
        if !syntax.query {
            return Err(CompileError::Query);
        }
        Ok(
            QueryPlan {
                text: self.query.clone(),
                regex: match self.mode {
                    SearchMode::Literal => false,
                    SearchMode::Regex => true,
                },
                whole_word: self.whole_word,
                case_sensitive: self.case_sensitive,
                include_ignored: self.include_ignored,
                one_match_per_line: false,
                include_globs: copy_texts(&self.include_globs),
                exclude_globs: copy_texts(&self.exclude_globs),
                match_full_paths: self.match_full_paths,
                open_buffers_only: self.open_buffers_only,
                replacement: Some(self.replacement.clone()),
            },
        )
    }
}

/// A copy of the texts.
fn copy_texts(list: &Vec<String>) -> (copy: Vec<String>)
    ensures
        texts(copy@) == texts(list@),
{
    let mut copy: Vec<String> = Vec::new();
    let mut i: usize = 0;
    while i < list.len()
        invariant
            i <= list@.len(),
            copy@.len() == i,
            forall|k: int| 0 <= k < i ==> #[trigger] copy@[k]@ == list@[k]@,
        decreases list@.len() - i,
    {
        copy.push(list[i].clone());
        i += 1;
    }
    assert(texts(copy@) =~= texts(list@));
    copy
}

} // verus!
