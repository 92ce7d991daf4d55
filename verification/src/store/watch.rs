//! Watching keys: what a watcher asks for, and what it is told.
use crate::bytes::{starts_with, to_vec};
use crate::head;
use crate::head::{Head, HeadModel};
use crate::message;
use crate::text;
use vstd::prelude::*;
use vstd::string::*;

verus! {

// ---------------------------------------------------------------------------
// Patterns
// ---------------------------------------------------------------------------

/// Why a pattern is no regular expression, as a text; `None` where it is one.
pub uninterp spec fn regex_fault(pattern: Seq<char>) -> Option<Seq<char>>;

/// Whether a regular expression matches anywhere in a text. What is no regular
/// expression matches nowhere.
pub uninterp spec fn regex_found(pattern: Seq<char>, hay: Seq<char>) -> bool;

/// The literals that the matches of a regular expression start with; `None`
/// where the pattern is not one, or there is no finite list.
pub uninterp spec fn regex_literals(pattern: Seq<char>) -> Option<Seq<Seq<u8>>>;

/// The text of a byte string that is not UTF-8, in which the ill-formed parts are
/// replaced.
pub uninterp spec fn repaired_text(b: Seq<u8>) -> Seq<char>;

/// The text of a byte string: what it encodes in UTF-8, and a repaired text where it
/// is not UTF-8.
pub open spec fn lossy_text(b: Seq<u8>) -> Seq<char> {
    if vstd::utf8::valid_utf8(b) {
        vstd::utf8::decode_utf8(b)
    } else {
        repaired_text(b)
    }
}

/// What was written as text is read as that text.
pub proof fn law_text_is_read_back(t: Seq<char>)
    ensures
        lossy_text(vstd::utf8::encode_utf8(t)) == t,
{
    vstd::utf8::encode_utf8_valid_utf8(t);
    vstd::utf8::encode_utf8_decode_utf8(t);
}

/// Calls `regex::Regex::new`: the text of its error, if there is one, which
/// depends on the pattern alone.
#[verifier::external_body]
fn compile_fault(pattern: &str) -> (r: Option<String>)
    ensures
        match regex_fault(pattern@) {
            Some(why) => r matches Some(t) && t@ == why,
            None => r is None,
        },
{
    match regex::Regex::new(pattern) {
        Ok(_) => None,
        Err(e) => Some(e.to_string()),
    }
}

/// Calls `regex::Regex::is_match` on the regular expression that the pattern
/// is, which depends on the pattern and the text alone.
#[verifier::external_body]
fn is_match(pattern: &str, hay: &str) -> (r: bool)
    ensures
        r == regex_found(pattern@, hay@),
{
    match regex::Regex::new(pattern) {
        Ok(regex) => regex.is_match(hay),
        Err(_) => false,
    }
}

/// Calls `regex_syntax::hir::literal::Extractor::extract` on the parsed pattern:
/// the literals that it lists, which depend on the pattern alone.
#[verifier::external_body]
fn prefix_literals(pattern: &str) -> (r: Option<Vec<Vec<u8>>>)
    ensures
        match regex_literals(pattern@) {
            Some(list) => r matches Some(v) && message::byte_models(v@) == list,
            None => r is None,
        },
{
    let hir = regex_syntax::parse(pattern).ok()?;
    let seq = regex_syntax::hir::literal::Extractor::new().extract(&hir);
    Some(seq.literals()?.iter().map(|l| l.as_bytes().to_vec()).collect())
}

/// Calls `String::from_utf8_lossy`. Of bytes that are UTF-8 it gives the text that they
/// encode; of others a text that depends on the bytes alone.
#[verifier::external_body]
pub(crate) fn to_lossy_text(b: &[u8]) -> (r: String)
    ensures
        vstd::utf8::valid_utf8(b@) ==> r@ == vstd::utf8::decode_utf8(b@),
        !vstd::utf8::valid_utf8(b@) ==> r@ == repaired_text(b@),
{
    String::from_utf8_lossy(b).into_owned()
}

/// How many bytes two byte strings have in common at their starts.
pub open spec fn common_len(a: Seq<u8>, b: Seq<u8>) -> nat
    decreases a.len(),
{
    if a.len() == 0 || b.len() == 0 || a[0] != b[0] {
        0
    } else {
        1 + common_len(a.skip(1), b.skip(1))
    }
}

/// What all of the literals start with.
pub open spec fn common_start(literals: Seq<Seq<u8>>) -> Seq<u8>
    decreases literals.len(),
{
    if literals.len() == 0 {
        Seq::empty()
    } else if literals.len() == 1 {
        literals[0]
    } else {
        let before = common_start(literals.drop_last());
        before.take(common_len(before, literals.last()) as int)
    }
}

/// What every match of a pattern starts with, as far as that is known: the
/// common start of its literals, unless that is empty.
pub open spec fn literal_prefix(literals: Option<Seq<Seq<u8>>>) -> Option<Seq<u8>> {
    match literals {
        Some(list) if common_start(list).len() > 0 => Some(common_start(list)),
        _ => None,
    }
}

proof fn lemma_common_len(a: Seq<u8>, b: Seq<u8>, n: nat)
    requires
        n <= a.len(),
        n <= b.len(),
        forall|i: int| 0 <= i < n ==> a[i] == b[i],
        n == a.len() || n == b.len() || a[n as int] != b[n as int],
    ensures
        common_len(a, b) == n,
    decreases n,
{
    if n > 0 {
        assert(a[0] == b[0]);
        assert forall|i: int| 0 <= i < n - 1 implies a.skip(1)[i] == b.skip(1)[i] by {
            assert(a[i + 1] == b[i + 1]);
        }
        lemma_common_len(a.skip(1), b.skip(1), (n - 1) as nat);
    }
}

/// The common start of literals is a start of each of them.
pub proof fn law_common_start_is_common(literals: Seq<Seq<u8>>, i: int)
    requires
        0 <= i < literals.len(),
    ensures
        common_start(literals).is_prefix_of(literals[i]),
    decreases literals.len(),
{
    if literals.len() > 1 {
        let before = common_start(literals.drop_last());
        let n = common_len(before, literals.last());
        lemma_common_len_bounds(before, literals.last());
        if i < literals.len() - 1 {
            law_common_start_is_common(literals.drop_last(), i);
            assert(before.take(n as int).is_prefix_of(literals[i]));
        } else {
            assert(before.take(n as int) =~= literals.last().take(n as int));
        }
    }
}

/// Whatever is a start of every one of the literals is a start of their common start.
pub proof fn law_common_start_is_longest(literals: Seq<Seq<u8>>, p: Seq<u8>)
    requires
        literals.len() > 0,
        forall|i: int| 0 <= i < literals.len() ==> p.is_prefix_of(#[trigger] literals[i]),
    ensures
        p.is_prefix_of(common_start(literals)),
    decreases literals.len(),
{
    if literals.len() > 1 {
        let rest = literals.drop_last();
        assert forall|i: int| 0 <= i < rest.len() implies p.is_prefix_of(#[trigger] rest[i]) by {
            assert(rest[i] == literals[i]);
        }
        law_common_start_is_longest(rest, p);
        let before = common_start(rest);
        assert(p.is_prefix_of(literals[literals.len() - 1]));
        lemma_common_len_at_least(before, literals.last(), p);
        let n = common_len(before, literals.last());
        lemma_common_len_bounds(before, literals.last());
        assert(p =~= before.take(n as int).subrange(0, p.len() as int));
    } else {
        assert(p.is_prefix_of(literals[0]));
    }
}

proof fn lemma_common_len_at_least(a: Seq<u8>, b: Seq<u8>, p: Seq<u8>)
    requires
        p.is_prefix_of(a),
        p.is_prefix_of(b),
    ensures
        common_len(a, b) >= p.len(),
    decreases p.len(),
{
    if p.len() > 0 {
        assert(a[0] == p[0] && b[0] == p[0]);
        let q = p.skip(1);
        assert(q =~= a.skip(1).subrange(0, q.len() as int)) by {
            assert forall|i: int| 0 <= i < q.len() implies q[i] == a.skip(1)[i] by {
                assert(p[i + 1] == a[i + 1]);
            }
        }
        assert(q =~= b.skip(1).subrange(0, q.len() as int)) by {
            assert forall|i: int| 0 <= i < q.len() implies q[i] == b.skip(1)[i] by {
                assert(p[i + 1] == b[i + 1]);
            }
        }
        lemma_common_len_at_least(a.skip(1), b.skip(1), q);
    }
}

proof fn lemma_common_len_bounds(a: Seq<u8>, b: Seq<u8>)
    ensures
        common_len(a, b) <= a.len(),
        common_len(a, b) <= b.len(),
        forall|i: int| 0 <= i < common_len(a, b) ==> a[i] == b[i],
    decreases a.len(),
{
    if !(a.len() == 0 || b.len() == 0 || a[0] != b[0]) {
        lemma_common_len_bounds(a.skip(1), b.skip(1));
        assert forall|i: int| 0 <= i < common_len(a, b) implies a[i] == b[i] by {
            if i > 0 {
                assert(a.skip(1)[i - 1] == b.skip(1)[i - 1]);
            }
        }
    }
}

/// What every match of a pattern with the given literals starts with.
pub fn prefix_of_literals(literals: &Vec<Vec<u8>>) -> (r: Option<Vec<u8>>)
    ensures
        match literal_prefix(Some(message::byte_models(literals@))) {
            Some(p) => r matches Some(v) && v@ == p,
            None => r is None,
        },
{
    let ghost list = message::byte_models(literals@);
    if literals.len() == 0 {
        return None;
    }
    let mut prefix = to_vec(literals[0].as_slice());
    let mut i: usize = 1;
    assert(list.take(1).len() == 1 && list.take(1)[0] == literals@[0]@);
    while i < literals.len()
        invariant
            1 <= i <= literals@.len(),
            list == message::byte_models(literals@),
            prefix@ == common_start(list.take(i as int)),
        decreases literals@.len() - i,
    {
        let next = &literals[i];
        let ghost before = prefix@;
        let mut n: usize = 0;
        while n < prefix.len() && n < next.len() && prefix[n] == next[n]
            invariant
                n <= prefix@.len(),
                n <= next@.len(),
                forall|k: int| 0 <= k < n ==> prefix@[k] == next@[k],
            decreases prefix@.len() - n,
        {
            n += 1;
        }
        proof {
            lemma_common_len(before, next@, n as nat);
            assert(list.take(i + 1).drop_last() =~= list.take(i as int));
            assert(list.take(i + 1).last() == next@);
        }
        prefix.truncate(n);
        assert(prefix@ =~= before.take(n as int));
        i += 1;
    }
    assert(list.take(i as int) =~= list);
    if prefix.len() == 0 {
        None
    } else {
        Some(prefix)
    }
}

/// What every match of a pattern starts with. Where the pattern is anchored at the start
/// of the text, that is what the matching keys start with.
pub fn extract_literal_prefix(pattern: &str) -> (r: Option<Vec<u8>>)
    ensures
        match literal_prefix(regex_literals(pattern@)) {
            Some(p) => r matches Some(v) && v@ == p,
            None => r is None,
        },
{
    match prefix_literals(pattern) {
        Some(literals) => prefix_of_literals(&literals),
        None => None,
    }
}

// ---------------------------------------------------------------------------
// Filters
// ---------------------------------------------------------------------------

/// Which keys a watcher asks for.
#[derive(Debug)]
pub enum WatcherFilter {
    /// Those that a regular expression matches.
    Regex(String),
    /// Those that start with a prefix.
    Prefix(Vec<u8>),
}

/// The model of [`WatcherFilter`].
pub enum FilterModel {
    Regex(Seq<char>),
    Prefix(Seq<u8>),
}

impl View for WatcherFilter {
    type V = FilterModel;

    open spec fn view(&self) -> FilterModel {
        match self {
            WatcherFilter::Regex(p) => FilterModel::Regex(p@),
            WatcherFilter::Prefix(p) => FilterModel::Prefix(p@),
        }
    }
}

impl FilterModel {
    /// Whether the filter lets the key through.
    pub open spec fn lets(self, key: Seq<u8>) -> bool {
        match self {
            FilterModel::Regex(p) => regex_found(p, lossy_text(key)),
            FilterModel::Prefix(p) => p.is_prefix_of(key),
        }
    }
}

impl WatcherFilter {
    /// Whether the filter lets the key through.
    pub fn matches(&self, key: &[u8]) -> (r: bool)
        ensures
            r == self@.lets(key@),
    {
        match self {
            WatcherFilter::Regex(pattern) => {
                let key_text = to_lossy_text(key);
                is_match(pattern.as_str(), key_text.as_str())
            },
            WatcherFilter::Prefix(prefix) => starts_with(key, prefix.as_slice()),
        }
    }
}

/// Why keys cannot be watched.
#[derive(Debug, PartialEq, Eq)]
pub enum WatchError {
    /// The pattern is no regular expression, or the store could not be read.
    InvalidRegex(String),
}

impl WatchError {
    /// The text of the error.
    pub open spec fn text(self) -> Seq<char> {
        match self {
            WatchError::InvalidRegex(why) => "Invalid regex: "@ + why@,
        }
    }

    /// The text of the error.
    pub fn to_string(&self) -> (r: String)
        ensures
            r@ == self.text(),
    {
        match self {
            WatchError::InvalidRegex(why) => "Invalid regex: ".to_owned().concat(why.as_str()),
        }
    }
}

/// The error for a pattern that is no regular expression.
pub fn pattern_error(pattern: &str) -> (r: Option<WatchError>)
    ensures
        match regex_fault(pattern@) {
            Some(why) => r matches Some(WatchError::InvalidRegex(t)) && t@ == why,
            None => r is None,
        },
{
    match compile_fault(pattern) {
        Some(why) => Some(WatchError::InvalidRegex(why)),
        None => None,
    }
}

// ---------------------------------------------------------------------------
// Events
// ---------------------------------------------------------------------------

/// What happened to a key.
#[derive(Debug, PartialEq, Eq)]
pub enum WatchEventKind {
    /// It was written; these are its heads now, from the winner down.
    Update { heads: Vec<Head> },
    /// It was deleted.
    Delete,
}

/// The news that something happened to a key.
#[derive(Clone, Debug, PartialEq, Eq)]
pub struct WatchEvent {
    pub key: Vec<u8>,
    pub kind: WatchEventKind,
}

/// The model of [`WatchEventKind`].
pub enum KindModel {
    Update(Seq<HeadModel>),
    Delete,
}

/// The model of [`WatchEvent`].
pub struct WatchModel {
    pub key: Seq<u8>,
    pub kind: KindModel,
}

impl View for WatchEventKind {
    type V = KindModel;

    open spec fn view(&self) -> KindModel {
        match self {
            WatchEventKind::Update { heads } => KindModel::Update(head::head_models(heads@)),
            WatchEventKind::Delete => KindModel::Delete,
        }
    }
}

impl View for WatchEvent {
    type V = WatchModel;

    open spec fn view(&self) -> WatchModel {
        WatchModel { key: self.key@, kind: self.kind@ }
    }
}

/// A copy of heads.
pub fn copy_heads(heads: &Vec<Head>) -> (r: Vec<Head>)
    ensures
        head::head_models(r@) == head::head_models(heads@),
{
    let mut out: Vec<Head> = Vec::new();
    let mut i: usize = 0;
    while i < heads.len()
        invariant
            i <= heads@.len(),
            out@.len() == i,
            forall|k: int| 0 <= k < i ==> (#[trigger] out@[k])@ == heads@[k]@,
        decreases heads@.len() - i,
    {
        out.push(heads[i].clone());
        i += 1;
    }
    assert(head::head_models(out@) =~= head::head_models(heads@));
    out
}

impl Clone for WatchEventKind {
    fn clone(&self) -> (r: Self)
        ensures
            r@ == self@,
    {
        match self {
            WatchEventKind::Update { heads } => WatchEventKind::Update { heads: copy_heads(heads) },
            WatchEventKind::Delete => WatchEventKind::Delete,
        }
    }
}

} // verus!
