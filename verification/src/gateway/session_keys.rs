//! Session key parsing for scoped gateway access.
//!
//! Session keys encode a scope that limits what operations the bearer
//! can perform. Format: `zcs_<scope>_<random>` where scope is one of:
//! `main`, `sender_<id>`, `cron`, `subagent`.

use vstd::prelude::*;
use vstd::string::*;
use crate::gateway::text::{chars_of, equals_chars, has_prefix, prefix_at};

verus! {

// ---------------------------------------------------------------------------
// Mathematical model
// ---------------------------------------------------------------------------

/// Unicode `White_Space`, the set of characters that `str::trim` removes.
pub open spec fn is_unicode_whitespace(c: char) -> bool {
    let u = c as u32;
    ||| 0x09 <= u <= 0x0D
    ||| u == 0x20
    ||| u == 0x85
    ||| u == 0xA0
    ||| u == 0x1680
    ||| 0x2000 <= u <= 0x200A
    ||| u == 0x2028
    ||| u == 0x2029
    ||| u == 0x202F
    ||| u == 0x205F
    ||| u == 0x3000
}

/// `s` without its leading whitespace.
pub open spec fn trim_start(s: Seq<char>) -> Seq<char>
    decreases s.len(),
{
    if s.len() > 0 && is_unicode_whitespace(s[0]) {
        trim_start(s.drop_first())
    } else {
        s
    }
}

/// `s` without its trailing whitespace.
pub open spec fn trim_end(s: Seq<char>) -> Seq<char>
    decreases s.len(),
{
    if s.len() > 0 && is_unicode_whitespace(s.last()) {
        trim_end(s.drop_last())
    } else {
        s
    }
}

/// `s` without leading and trailing whitespace.
pub open spec fn trim(s: Seq<char>) -> Seq<char> {
    trim_end(trim_start(s))
}

/// Whether `k` is the position of the first `c` in `s`.
pub open spec fn first_at(s: Seq<char>, c: char, k: int) -> bool {
    &&& 0 <= k < s.len()
    &&& s[k] == c
    &&& forall|i: int| 0 <= i < k ==> s[i] != c
}

/// `zcs_`
pub open spec fn key_prefix() -> Seq<char> {
    seq!['z', 'c', 's', '_']
}

/// `main_`
pub open spec fn main_prefix() -> Seq<char> {
    seq!['m', 'a', 'i', 'n', '_']
}

/// `sender_`
pub open spec fn sender_prefix() -> Seq<char> {
    seq!['s', 'e', 'n', 'd', 'e', 'r', '_']
}

/// `cron_`
pub open spec fn cron_prefix() -> Seq<char> {
    seq!['c', 'r', 'o', 'n', '_']
}

/// `subagent_`
pub open spec fn subagent_prefix() -> Seq<char> {
    seq!['s', 'u', 'b', 'a', 'g', 'e', 'n', 't', '_']
}

/// The scope of a key, as mathematical values.
pub enum SessionScopeView {
    Main,
    Sender(Seq<char>),
    Cron,
    SubAgent,
}

/// A parsed key, as mathematical values.
pub struct SessionKeyView {
    pub scope: SessionScopeView,
    pub raw: Seq<char>,
}

/// The scope named by the part of a trimmed key after `zcs_`.
pub open spec fn parse_scope(rest: Seq<char>) -> Option<SessionScopeView> {
    if has_prefix(rest, main_prefix()) {
        Some(SessionScopeView::Main)
    } else if has_prefix(rest, sender_prefix()) {
        let sender_rest = rest.skip(7);
        if exists|k: int| first_at(sender_rest, '_', k) {
            let k = choose|k: int| first_at(sender_rest, '_', k);
            Some(SessionScopeView::Sender(sender_rest.take(k)))
        } else {
            None
        }
    } else if has_prefix(rest, cron_prefix()) {
        Some(SessionScopeView::Cron)
    } else if has_prefix(rest, subagent_prefix()) {
        Some(SessionScopeView::SubAgent)
    } else {
        None
    }
}

/// What parsing `key` yields: `None` for a key of the wrong format.
pub open spec fn spec_parse(key: Seq<char>) -> Option<SessionKeyView> {
    let t = trim(key);
    if !has_prefix(t, key_prefix()) {
        None
    } else {
        match parse_scope(t.skip(4)) {
            Some(scope) => Some(SessionKeyView { scope, raw: t }),
            None => None,
        }
    }
}

/// `chat`
pub open spec fn op_chat() -> Seq<char> {
    seq!['c', 'h', 'a', 't']
}

/// `memory_read`
pub open spec fn op_memory_read() -> Seq<char> {
    seq!['m', 'e', 'm', 'o', 'r', 'y', '_', 'r', 'e', 'a', 'd']
}

/// `memory_write`
pub open spec fn op_memory_write() -> Seq<char> {
    seq!['m', 'e', 'm', 'o', 'r', 'y', '_', 'w', 'r', 'i', 't', 'e']
}

/// `status`
pub open spec fn op_status() -> Seq<char> {
    seq!['s', 't', 'a', 't', 'u', 's']
}

/// `tool_execute`
pub open spec fn op_tool_execute() -> Seq<char> {
    seq!['t', 'o', 'o', 'l', '_', 'e', 'x', 'e', 'c', 'u', 't', 'e']
}

/// Whether a key of scope `scope` may perform `op`.
pub open spec fn scope_allows(scope: SessionScopeView, op: Seq<char>) -> bool {
    match scope {
        SessionScopeView::Main => true,
        SessionScopeView::Sender(_) => op == op_chat() || op == op_memory_read() || op
            == op_status(),
        SessionScopeView::Cron => op == op_chat() || op == op_tool_execute() || op
            == op_memory_read() || op == op_memory_write(),
        SessionScopeView::SubAgent => op == op_chat() || op == op_tool_execute() || op
            == op_memory_read(),
    }
}

// ---------------------------------------------------------------------------
// Types
// ---------------------------------------------------------------------------

/// The scope encoded in a session key.
#[derive(Debug, Clone, PartialEq, Eq)]
pub enum SessionScope {
    /// Full access (equivalent to the main bearer token)
    Main,
    /// Scoped to a specific sender/channel
    Sender(String),
    /// Scoped to cron job execution
    Cron,
    /// Scoped to a sub-agent delegation
    SubAgent,
}

impl View for SessionScope {
    type V = SessionScopeView;

    open spec fn view(&self) -> SessionScopeView {
        match self {
            SessionScope::Main => SessionScopeView::Main,
            SessionScope::Sender(id) => SessionScopeView::Sender(id@),
            SessionScope::Cron => SessionScopeView::Cron,
            SessionScope::SubAgent => SessionScopeView::SubAgent,
        }
    }
}

/// A parsed session key.
#[derive(Debug, Clone)]
pub struct SessionKey {
    pub scope: SessionScope,
    pub raw: String,
}

impl View for SessionKey {
    type V = SessionKeyView;

    open spec fn view(&self) -> SessionKeyView {
        SessionKeyView { scope: self.scope@, raw: self.raw@ }
    }
}

// ---------------------------------------------------------------------------
// Lemmas on trimming
// ---------------------------------------------------------------------------

proof fn lemma_trim_start_skip(s: Seq<char>, i: int)
    requires
        0 <= i <= s.len(),
        forall|j: int| 0 <= j < i ==> is_unicode_whitespace(s[j]),
    ensures
        trim_start(s) == trim_start(s.skip(i)),
    decreases i,
{
    if i > 0 {
        assert(s.skip(1).skip(i - 1) =~= s.skip(i));
        assert(s.drop_first() =~= s.skip(1));
        lemma_trim_start_skip(s.drop_first(), i - 1);
    } else {
        assert(s.skip(0) =~= s);
    }
}

proof fn lemma_trim_end_take(s: Seq<char>, e: int)
    requires
        0 <= e <= s.len(),
        forall|j: int| e <= j < s.len() ==> is_unicode_whitespace(s[j]),
    ensures
        trim_end(s) == trim_end(s.take(e)),
    decreases s.len() - e,
{
    if e < s.len() {
        assert(s.drop_last().take(e) =~= s.take(e));
        lemma_trim_end_take(s.drop_last(), e);
    } else {
        assert(s.take(e) =~= s);
    }
}

/// Trimming the characters `s[start..end]` is `s[start..end]` itself when
/// everything outside is whitespace and the ends are not.
proof fn lemma_trim_bounds(s: Seq<char>, start: int, end: int)
    requires
        0 <= start <= end <= s.len(),
        forall|j: int| 0 <= j < start ==> is_unicode_whitespace(s[j]),
        forall|j: int| end <= j < s.len() ==> is_unicode_whitespace(s[j]),
        start < end ==> !is_unicode_whitespace(s[start]),
        start < end ==> !is_unicode_whitespace(s[end - 1]),
        start == end ==> end == s.len(),
    ensures
        trim(s) == s.subrange(start, end),
{
    lemma_trim_start_skip(s, start);
    let u = s.skip(start);
    assert(trim_start(u) == u);
    lemma_trim_end_take(u, end - start);
    assert(u.take(end - start) =~= s.subrange(start, end));
    let w = u.take(end - start);
    if w.len() > 0 {
        assert(w.last() == s[end - 1]);
    }
    assert(trim_end(w) == w);
}

// ---------------------------------------------------------------------------
// Executable code
// ---------------------------------------------------------------------------

/// Whether `c` is Unicode `White_Space`.
fn is_whitespace_char(c: char) -> (r: bool)
    ensures
        r == is_unicode_whitespace(c),
{
    let u = c as u32;
    (0x09 <= u && u <= 0x0D) || u == 0x20 || u == 0x85 || u == 0xA0 || u == 0x1680 || (0x2000
        <= u && u <= 0x200A) || u == 0x2028 || u == 0x2029 || u == 0x202F || u == 0x205F || u
        == 0x3000
}

/// The bounds of `s` once leading and trailing whitespace are left out.
fn trim_bounds(s: &Vec<char>) -> (r: (usize, usize))
    ensures
        r.0 <= r.1 <= s@.len(),
        trim(s@) == s@.subrange(r.0 as int, r.1 as int),
{
    let n = s.len();
    let mut start: usize = 0;
    while start < n && is_whitespace_char(s[start])
        invariant
            start <= n == s@.len(),
            forall|j: int| 0 <= j < start ==> is_unicode_whitespace(s@[j]),
        decreases n - start,
    {
        start = start + 1;
    }
    let mut end: usize = n;
    while end > start && is_whitespace_char(s[end - 1])
        invariant
            start <= end <= n == s@.len(),
            forall|j: int| end <= j < n ==> is_unicode_whitespace(s@[j]),
        decreases end,
    {
        end = end - 1;
    }
    proof {
        lemma_trim_bounds(s@, start as int, end as int);
    }
    (start, end)
}

impl SessionKey {
    /// Parse a session key string.
    /// Returns None if the format is invalid.
    pub fn parse(key: &str) -> (r: Option<Self>)
        ensures
            match r {
                Some(k) => spec_parse(key@) == Some(k@),
                None => spec_parse(key@) is None,
            },
    {
        let chars = chars_of(key);
        let (start, end) = trim_bounds(&chars);
        let ghost t = chars@.subrange(start as int, end as int);
        let zcs: [char; 4] = ['z', 'c', 's', '_'];
        assert(zcs@ =~= key_prefix());
        if !prefix_at(&chars, start, end, &zcs) {
            return None;
        }
        let rest = start + 4;
        assert(t.skip(4) =~= chars@.subrange(rest as int, end as int));
        let ghost r = t.skip(4);
        let main: [char; 5] = ['m', 'a', 'i', 'n', '_'];
        let sender: [char; 7] = ['s', 'e', 'n', 'd', 'e', 'r', '_'];
        let cron: [char; 5] = ['c', 'r', 'o', 'n', '_'];
        let subagent: [char; 9] = ['s', 'u', 'b', 'a', 'g', 'e', 'n', 't', '_'];
        assert(main@ =~= main_prefix());
        assert(sender@ =~= sender_prefix());
        assert(cron@ =~= cron_prefix());
        assert(subagent@ =~= subagent_prefix());
        let scope = if prefix_at(&chars, rest, end, &main) {
            SessionScope::Main
        } else if prefix_at(&chars, rest, end, &sender) {
            // Format: zcs_sender_<id>_<random>
            let id_start = rest + 7;
            let ghost sr = r.skip(7);
            assert(sr =~= chars@.subrange(id_start as int, end as int));
            let mut k = id_start;
            while k < end && chars[k] != '_'
                invariant
                    id_start <= k <= end <= chars@.len(),
                    sr == chars@.subrange(id_start as int, end as int),
                    forall|i: int| 0 <= i < k - id_start ==> sr[i] != '_',
                decreases end - k,
            {
                k = k + 1;
            }
            if k == end {
                assert forall|j: int| !first_at(sr, '_', j) by {
                    if first_at(sr, '_', j) {
                        assert(sr[j] != '_');
                    }
                }
                return None;
            }
            let ghost kk = (k - id_start) as int;
            assert(first_at(sr, '_', kk));
            assert forall|j: int| first_at(sr, '_', j) implies j == kk by {
                if j < kk {
                    assert(sr[j] != '_');
                } else if j > kk {
                    assert(sr[kk] != '_');
                }
            }
            let id = key.substring_char(id_start, k).to_owned();
            assert(id@ =~= sr.take(kk));
            SessionScope::Sender(id)
        } else if prefix_at(&chars, rest, end, &cron) {
            SessionScope::Cron
        } else if prefix_at(&chars, rest, end, &subagent) {
            SessionScope::SubAgent
        } else {
            return None;
        };
        let raw = key.substring_char(start, end).to_owned();
        Some(SessionKey { scope, raw })
    }

    /// Check if this key's scope allows a given operation.
    pub fn allows(&self, operation: &str) -> (r: bool)
        ensures
            r == scope_allows(self.scope@, operation@),
    {
        let op = chars_of(operation);
        let chat: [char; 4] = ['c', 'h', 'a', 't'];
        let memory_read: [char; 11] = ['m', 'e', 'm', 'o', 'r', 'y', '_', 'r', 'e', 'a', 'd'];
        let memory_write: [char; 12] = ['m', 'e', 'm', 'o', 'r', 'y', '_', 'w', 'r', 'i', 't', 'e'];
        let status: [char; 6] = ['s', 't', 'a', 't', 'u', 's'];
        let tool_execute: [char; 12] = ['t', 'o', 'o', 'l', '_', 'e', 'x', 'e', 'c', 'u', 't', 'e'];
        assert(chat@ =~= op_chat());
        assert(memory_read@ =~= op_memory_read());
        assert(memory_write@ =~= op_memory_write());
        assert(status@ =~= op_status());
        assert(tool_execute@ =~= op_tool_execute());
        match &self.scope {
            SessionScope::Main => true,  // full access
            SessionScope::Sender(_) => {
                equals_chars(&op, &chat) || equals_chars(&op, &memory_read) || equals_chars(
                    &op,
                    &status,
                )
            },
            SessionScope::Cron => {
                equals_chars(&op, &chat) || equals_chars(&op, &tool_execute) || equals_chars(
                    &op,
                    &memory_read,
                ) || equals_chars(&op, &memory_write)
            },
            SessionScope::SubAgent => {
                equals_chars(&op, &chat) || equals_chars(&op, &tool_execute) || equals_chars(
                    &op,
                    &memory_read,
                )
            },
        }
    }
}

// ---------------------------------------------------------------------------
// Laws
// ---------------------------------------------------------------------------

proof fn lemma_trim_start_shape(s: Seq<char>)
    ensures
        trim_start(s).len() > 0 ==> !is_unicode_whitespace(trim_start(s)[0]),
        trim_start(s).len() <= s.len(),
    decreases s.len(),
{
    if s.len() > 0 && is_unicode_whitespace(s[0]) {
        lemma_trim_start_shape(s.drop_first());
    }
}

proof fn lemma_trim_end_shape(s: Seq<char>)
    ensures
        trim_end(s).len() > 0 ==> !is_unicode_whitespace(trim_end(s).last()),
        trim_end(s).len() <= s.len(),
        trim_end(s) == s.take(trim_end(s).len() as int),
        s.len() > 0 && !is_unicode_whitespace(s[0]) ==> trim_end(s).len() > 0,
    decreases s.len(),
{
    if s.len() > 0 && is_unicode_whitespace(s.last()) {
        lemma_trim_end_shape(s.drop_last());
        let t = trim_end(s.drop_last());
        assert(s.drop_last().take(t.len() as int) =~= s.take(t.len() as int));
        if s.len() == 1 {
            assert(s.last() == s[0]);
        } else {
            assert(s.drop_last()[0] == s[0]);
        }
    } else {
        assert(s.take(s.len() as int) =~= s);
    }
}

/// A trimmed sequence neither starts nor ends with whitespace.
proof fn lemma_trim_shape(s: Seq<char>)
    ensures
        trim(s).len() > 0 ==> !is_unicode_whitespace(trim(s)[0]),
        trim(s).len() > 0 ==> !is_unicode_whitespace(trim(s).last()),
{
    let x = trim_start(s);
    lemma_trim_start_shape(s);
    lemma_trim_end_shape(x);
    let t = trim_end(x);
    if t.len() > 0 {
        assert(t[0] == x[0]);
    }
}

proof fn lemma_trim_idempotent(s: Seq<char>)
    ensures
        trim(trim(s)) == trim(s),
{
    let t = trim(s);
    lemma_trim_shape(s);
    assert(trim_start(t) == t);
    assert(trim_end(t) == t);
}

proof fn lemma_trim_start_append(x: Seq<char>, y: Seq<char>)
    requires
        exists|j: int| 0 <= j < x.len() && !is_unicode_whitespace(#[trigger] x[j]),
    ensures
        trim_start(x + y) == trim_start(x) + y,
    decreases x.len(),
{
    let j = choose|j: int| 0 <= j < x.len() && !is_unicode_whitespace(#[trigger] x[j]);
    assert((x + y)[0] == x[0]);
    if is_unicode_whitespace(x[0]) {
        assert(j >= 1);
        assert(x.drop_first()[j - 1] == x[j]);
        lemma_trim_start_append(x.drop_first(), y);
        assert((x + y).drop_first() =~= x.drop_first() + y);
    }
}

proof fn lemma_trim_padded(pre: Seq<char>, key: Seq<char>, post: Seq<char>)
    requires
        forall|i: int| 0 <= i < pre.len() ==> is_unicode_whitespace(#[trigger] pre[i]),
        forall|i: int| 0 <= i < post.len() ==> is_unicode_whitespace(#[trigger] post[i]),
    ensures
        trim(pre + key + post) == trim(key),
{
    let whole = pre + key + post;
    lemma_trim_start_skip(whole, pre.len() as int);
    assert(whole.skip(pre.len() as int) =~= key + post);
    if exists|j: int| 0 <= j < key.len() && !is_unicode_whitespace(#[trigger] key[j]) {
        lemma_trim_start_append(key, post);
        let u = trim_start(key);
        lemma_trim_end_take(u + post, u.len() as int);
        assert((u + post).take(u.len() as int) =~= u);
    } else {
        lemma_trim_start_skip(key + post, key.len() as int);
        assert((key + post).skip(key.len() as int) =~= post);
        lemma_trim_start_skip(post, post.len() as int);
        lemma_trim_start_skip(key, key.len() as int);
        assert(post.skip(post.len() as int) =~= Seq::<char>::empty());
        assert(key.skip(key.len() as int) =~= Seq::<char>::empty());
    }
}

/// The raw text of a parsed key parses back to the same key: parsing is
/// idempotent.
pub proof fn law_parse_raw_reparses(key: Seq<char>)
    requires
        spec_parse(key) is Some,
    ensures
        spec_parse(spec_parse(key)->0.raw) == spec_parse(key),
{
    lemma_trim_idempotent(key);
}

/// Whitespace around a key does not change what it parses to.
pub proof fn law_parse_ignores_surrounding_whitespace(
    pre: Seq<char>,
    key: Seq<char>,
    post: Seq<char>,
)
    requires
        forall|i: int| 0 <= i < pre.len() ==> is_unicode_whitespace(#[trigger] pre[i]),
        forall|i: int| 0 <= i < post.len() ==> is_unicode_whitespace(#[trigger] post[i]),
    ensures
        spec_parse(pre + key + post) == spec_parse(key),
{
    lemma_trim_padded(pre, key, post);
}

/// A parsed key's raw text starts with `zcs_` and carries no surrounding
/// whitespace.
pub proof fn law_parsed_raw_shape(key: Seq<char>)
    requires
        spec_parse(key) is Some,
    ensures
        has_prefix(spec_parse(key)->0.raw, key_prefix()),
        !is_unicode_whitespace(spec_parse(key)->0.raw[0]),
        !is_unicode_whitespace(spec_parse(key)->0.raw.last()),
{
    lemma_trim_shape(key);
}

/// Scope privileges are ordered: whatever a sub-agent key may do a cron key
/// may do, and a main key may do anything; every scope may chat and read
/// memory; and an operation outside the five named ones is allowed to main
/// keys alone.
pub proof fn law_scope_privileges(id: Seq<char>, op: Seq<char>)
    ensures
        scope_allows(SessionScopeView::SubAgent, op) ==> scope_allows(SessionScopeView::Cron, op),
        scope_allows(SessionScopeView::Cron, op) ==> scope_allows(SessionScopeView::Main, op),
        scope_allows(SessionScopeView::Sender(id), op) ==> scope_allows(
            SessionScopeView::Main,
            op,
        ),
        scope_allows(SessionScopeView::Main, op),
        scope_allows(SessionScopeView::Sender(id), op_chat()),
        scope_allows(SessionScopeView::Sender(id), op_memory_read()),
        scope_allows(SessionScopeView::Cron, op_chat()),
        scope_allows(SessionScopeView::Cron, op_memory_read()),
        scope_allows(SessionScopeView::SubAgent, op_chat()),
        scope_allows(SessionScopeView::SubAgent, op_memory_read()),
        op != op_chat() && op != op_memory_read() && op != op_memory_write() && op != op_status()
            && op != op_tool_execute() ==> !scope_allows(SessionScopeView::Sender(id), op)
            && !scope_allows(SessionScopeView::Cron, op) && !scope_allows(
            SessionScopeView::SubAgent,
            op,
        ),
{
}

proof fn lemma_trim_start_index(s: Seq<char>) -> (a: int)
    ensures
        0 <= a <= s.len(),
        trim_start(s) == s.skip(a),
        forall|j: int| 0 <= j < a ==> is_unicode_whitespace(#[trigger] s[j]),
    decreases s.len(),
{
    if s.len() > 0 && is_unicode_whitespace(s[0]) {
        let b = lemma_trim_start_index(s.drop_first());
        assert(s.drop_first().skip(b) =~= s.skip(b + 1));
        assert forall|j: int| 0 <= j < b + 1 implies is_unicode_whitespace(#[trigger] s[j]) by {
            if j > 0 {
                assert(s[j] == s.drop_first()[j - 1]);
            }
        }
        b + 1
    } else {
        assert(s.skip(0) =~= s);
        0
    }
}

proof fn lemma_trim_end_index(s: Seq<char>) -> (e: int)
    ensures
        0 <= e <= s.len(),
        trim_end(s) == s.take(e),
        forall|j: int| e <= j < s.len() ==> is_unicode_whitespace(#[trigger] s[j]),
    decreases s.len(),
{
    if s.len() > 0 && is_unicode_whitespace(s.last()) {
        let e = lemma_trim_end_index(s.drop_last());
        assert(s.drop_last().take(e) =~= s.take(e));
        assert forall|j: int| e <= j < s.len() implies is_unicode_whitespace(#[trigger] s[j]) by {
            if j < s.len() - 1 {
                assert(s[j] == s.drop_last()[j]);
            }
        }
        e
    } else {
        assert(s.take(s.len() as int) =~= s);
        s.len() as int
    }
}

proof fn lemma_trim_of_untrimmed(s: Seq<char>)
    requires
        s.len() > 0,
        !is_unicode_whitespace(s[0]),
        !is_unicode_whitespace(s.last()),
    ensures
        trim(s) == s,
{
}

/// Whenever parsing succeeds, the raw key is the whole input with its
/// surrounding whitespace, and nothing else, taken off: the input is the raw
/// key with only whitespace before and after it, and the raw key itself
/// neither starts nor ends with whitespace.
pub proof fn law_parse_raw_is_trimmed_key(key: Seq<char>)
    requires
        spec_parse(key) is Some,
    ensures
        spec_parse(key)->0.raw == trim(key),
        exists|pre: Seq<char>, post: Seq<char>|
            {
                &&& forall|i: int| 0 <= i < pre.len() ==> is_unicode_whitespace(#[trigger] pre[i])
                &&& forall|i: int|
                    0 <= i < post.len() ==> is_unicode_whitespace(#[trigger] post[i])
                &&& key == pre + spec_parse(key)->0.raw + post
            },
        spec_parse(key)->0.raw.len() > 0,
        !is_unicode_whitespace(spec_parse(key)->0.raw[0]),
        !is_unicode_whitespace(spec_parse(key)->0.raw.last()),
{
    lemma_trim_shape(key);
    let a = lemma_trim_start_index(key);
    let x = key.skip(a);
    let e = lemma_trim_end_index(x);
    let pre = key.take(a);
    let post = x.skip(e);
    let raw = spec_parse(key)->0.raw;
    assert(raw == x.take(e));
    assert(key =~= pre + raw + post);
    assert forall|i: int| 0 <= i < post.len() implies is_unicode_whitespace(#[trigger] post[i]) by {
        assert(post[i] == x[e + i]);
    }
    assert forall|i: int| 0 <= i < pre.len() implies is_unicode_whitespace(#[trigger] pre[i]) by {
        assert(pre[i] == key[i]);
    }
}

/// What a successful parse says of the raw key: it starts with `zcs_`
/// followed by the scope's name and an underscore; for a sender scope, the
/// raw key is `zcs_sender_`, the id, an underscore and the rest, and the id
/// holds no underscore; a cron or sub-agent key does not start with
/// `zcs_main_` (main wins over the others).
pub proof fn law_parse_scope_shape(key: Seq<char>)
    requires
        spec_parse(key) is Some,
    ensures
        ({
            let v = spec_parse(key)->0;
            let zcs = seq!['z', 'c', 's', '_'];
            let main = seq!['m', 'a', 'i', 'n', '_'];
            let sender = seq!['s', 'e', 'n', 'd', 'e', 'r', '_'];
            let cron = seq!['c', 'r', 'o', 'n', '_'];
            let subagent = seq!['s', 'u', 'b', 'a', 'g', 'e', 'n', 't', '_'];
            match v.scope {
                SessionScopeView::Main => v.raw.take(9) == zcs + main,
                SessionScopeView::Sender(id) => {
                    &&& forall|i: int| 0 <= i < id.len() ==> #[trigger] id[i] != '_'
                    &&& exists|tail: Seq<char>| v.raw == zcs + sender + id + seq!['_'] + tail
                },
                SessionScopeView::Cron => v.raw.take(9) == zcs + cron && v.raw.take(9) != zcs
                    + main,
                SessionScopeView::SubAgent => v.raw.take(13) == zcs + subagent && v.raw.take(9)
                    != zcs + main,
            }
        }),
{
    let v = spec_parse(key)->0;
    let t = trim(key);
    let r = t.skip(4);
    assert(t.subrange(0, 4) == key_prefix());
    match v.scope {
        SessionScopeView::Main => {
            assert(r.subrange(0, 5) == main_prefix());
            assert(t.take(9) =~= key_prefix() + main_prefix());
        },
        SessionScopeView::Sender(id) => {
            assert(r.subrange(0, 7) == sender_prefix());
            let sr = r.skip(7);
            let k = choose|k: int| first_at(sr, '_', k);
            assert(first_at(sr, '_', k));
            assert(id == sr.take(k));
            let tail = sr.skip(k + 1);
            assert(t =~= key_prefix() + sender_prefix() + id + seq!['_'] + tail);
        },
        SessionScopeView::Cron => {
            assert(r.subrange(0, 5) == cron_prefix());
            assert(t.take(9) =~= key_prefix() + cron_prefix());
            assert((key_prefix() + cron_prefix())[4] != (key_prefix() + main_prefix())[4]);
        },
        SessionScopeView::SubAgent => {
            assert(r.subrange(0, 9) == subagent_prefix());
            assert(t.take(13) =~= key_prefix() + subagent_prefix());
            assert(t[4] == 's');
            assert((key_prefix() + main_prefix())[4] == 'm');
            assert(t.take(9)[4] == 's');
        },
    }
}

/// Keys of each well-formed shape parse to the scope they name, with the
/// whole key as raw text: `zcs_main_…`, `zcs_cron_…`, `zcs_subagent_…`, and
/// `zcs_sender_<id>_…` with an id free of underscores, whatever follows, as
/// long as the key does not end in whitespace.
pub proof fn law_parse_accepts_well_formed(id: Seq<char>, tail: Seq<char>)
    requires
        tail.len() == 0 || !is_unicode_whitespace(tail.last()),
        forall|i: int| 0 <= i < id.len() ==> #[trigger] id[i] != '_',
    ensures
        ({
            let zcs = seq!['z', 'c', 's', '_'];
            let main = seq!['m', 'a', 'i', 'n', '_'];
            let sender = seq!['s', 'e', 'n', 'd', 'e', 'r', '_'];
            let cron = seq!['c', 'r', 'o', 'n', '_'];
            let subagent = seq!['s', 'u', 'b', 'a', 'g', 'e', 'n', 't', '_'];
            &&& spec_parse(zcs + main + tail) == Some(
                SessionKeyView { scope: SessionScopeView::Main, raw: zcs + main + tail },
            )
            &&& spec_parse(zcs + cron + tail) == Some(
                SessionKeyView { scope: SessionScopeView::Cron, raw: zcs + cron + tail },
            )
            &&& spec_parse(zcs + subagent + tail) == Some(
                SessionKeyView { scope: SessionScopeView::SubAgent, raw: zcs + subagent + tail },
            )
            &&& spec_parse(zcs + sender + id + seq!['_'] + tail) == Some(
                SessionKeyView {
                    scope: SessionScopeView::Sender(id),
                    raw: zcs + sender + id + seq!['_'] + tail,
                },
            )
        }),
{
    let zcs = key_prefix();
    let main = main_prefix();
    let sender = sender_prefix();
    let cron = cron_prefix();
    let subagent = subagent_prefix();
    assert(!is_unicode_whitespace('_'));
    assert(!is_unicode_whitespace('z'));
    // main
    let k1 = zcs + main + tail;
    assert(k1[0] == 'z');
    if tail.len() > 0 {
        assert(k1.last() == tail.last());
    } else {
        assert(k1.last() == '_');
    }
    lemma_trim_of_untrimmed(k1);
    assert(k1.subrange(0, 4) =~= zcs);
    assert(k1.skip(4) =~= main + tail);
    assert((main + tail).subrange(0, 5) =~= main);
    // cron
    let k2 = zcs + cron + tail;
    assert(k2[0] == 'z');
    if tail.len() > 0 {
        assert(k2.last() == tail.last());
    } else {
        assert(k2.last() == '_');
    }
    lemma_trim_of_untrimmed(k2);
    assert(k2.subrange(0, 4) =~= zcs);
    assert(k2.skip(4) =~= cron + tail);
    assert((cron + tail).subrange(0, 5) =~= cron);
    assert((cron + tail)[0] == 'c');
    assert((cron + tail).subrange(0, 5)[0] == 'c');
    // subagent
    let k3 = zcs + subagent + tail;
    assert(k3[0] == 'z');
    if tail.len() > 0 {
        assert(k3.last() == tail.last());
    } else {
        assert(k3.last() == '_');
    }
    lemma_trim_of_untrimmed(k3);
    assert(k3.subrange(0, 4) =~= zcs);
    assert(k3.skip(4) =~= subagent + tail);
    assert((subagent + tail).subrange(0, 9) =~= subagent);
    assert((subagent + tail).subrange(0, 5)[0] == 's');
    assert((subagent + tail).subrange(0, 7)[1] == 'u');
    // sender
    let k4 = zcs + sender + id + seq!['_'] + tail;
    assert(k4[0] == 'z');
    if tail.len() > 0 {
        assert(k4.last() == tail.last());
    } else {
        assert(k4.last() == '_');
    }
    lemma_trim_of_untrimmed(k4);
    assert(k4.subrange(0, 4) =~= zcs);
    let r = k4.skip(4);
    assert(r =~= sender + id + seq!['_'] + tail);
    assert(r.subrange(0, 7) =~= sender);
    assert(r.subrange(0, 5)[0] == 's');
    let sr = r.skip(7);
    assert(sr =~= id + seq!['_'] + tail);
    let kk = id.len() as int;
    assert(sr[kk] == '_');
    assert forall|i: int| 0 <= i < kk implies sr[i] != '_' by {
        assert(sr[i] == id[i]);
    }
    assert(first_at(sr, '_', kk));
    assert forall|j: int| first_at(sr, '_', j) implies j == kk by {
        if j < kk {
            assert(sr[j] == id[j]);
        } else if j > kk {
            assert(sr[kk] == '_');
        }
    }
    let c = choose|j: int| first_at(sr, '_', j);
    assert(c == kk);
    assert(sr.take(kk) =~= id);
}

/// A key whose trimmed text does not start with `zcs_` is refused.
pub proof fn law_parse_rejects_foreign_prefix(key: Seq<char>)
    requires
        !has_prefix(trim(key), seq!['z', 'c', 's', '_']),
    ensures
        spec_parse(key) is None,
{
}

/// Exactly which operations each scope allows, spelled out: a main key any
/// operation; a sender key `chat`, `memory_read` and `status`; a cron key
/// `chat`, `tool_execute`, `memory_read` and `memory_write`; a sub-agent key
/// `chat`, `tool_execute` and `memory_read`.
pub proof fn law_scope_operation_sets(id: Seq<char>, op: Seq<char>)
    ensures
        ({
            let chat = seq!['c', 'h', 'a', 't'];
            let memory_read = seq!['m', 'e', 'm', 'o', 'r', 'y', '_', 'r', 'e', 'a', 'd'];
            let memory_write = seq!['m', 'e', 'm', 'o', 'r', 'y', '_', 'w', 'r', 'i', 't', 'e'];
            let status = seq!['s', 't', 'a', 't', 'u', 's'];
            let tool_execute = seq!['t', 'o', 'o', 'l', '_', 'e', 'x', 'e', 'c', 'u', 't', 'e'];
            &&& scope_allows(SessionScopeView::Main, op)
            &&& scope_allows(SessionScopeView::Sender(id), op) <==> (op == chat || op
                == memory_read || op == status)
            &&& scope_allows(SessionScopeView::Cron, op) <==> (op == chat || op == tool_execute
                || op == memory_read || op == memory_write)
            &&& scope_allows(SessionScopeView::SubAgent, op) <==> (op == chat || op
                == tool_execute || op == memory_read)
        }),
{
}

} // verus!
