//! The resolver's `local-data` directives and the one update made to them:
//! replacing the address of the single directive that names a domain.
//!
//! A directive line reads, with `_` for a run of ASCII white space,
//! `[_]local-data:[_]"<name>_IN_A <value>"<rest>`: the runs in brackets may be
//! empty, the others may not; `<name>` is a non-empty run of bytes that are neither
//! white space nor `"`; after the one white space byte that follows `A`, `<value>`
//! is every byte up to the next `"`, at least one; and `<rest>` is anything. A line
//! is the directive for domain `d` when `<name>` is `d` or `d.`.

use vstd::prelude::*;
use vstd::string::StringSliceAdditionalSpecFns;
use crate::lines::{NEWLINE, lines, join, is_line, views, lemma_lines_shape, lemma_lines_join, split_lines, join_lines, push_all};

verus! {

/// The double quote that opens and closes a directive's body.
pub const QUOTE: u8 = 0x22;

/// ASCII white space: space, tab, line feed, vertical tab, form feed, carriage return.
pub open spec fn is_space(b: u8) -> bool {
    b == 0x20 || (0x09 <= b && b <= 0x0D)
}

/// A byte that may stand in a name or a value.
pub open spec fn is_token_byte(b: u8) -> bool {
    !is_space(b) && b != QUOTE
}

/// The first position at or after `i` that does not hold white space.
pub open spec fn skip_spaces(l: Seq<u8>, i: int) -> int
    decreases l.len() - i,
{
    if 0 <= i < l.len() && is_space(l[i]) {
        skip_spaces(l, i + 1)
    } else {
        i
    }
}

/// The first position at or after `i` that does not hold a token byte.
pub open spec fn token_end(l: Seq<u8>, i: int) -> int
    decreases l.len() - i,
{
    if 0 <= i < l.len() && is_token_byte(l[i]) {
        token_end(l, i + 1)
    } else {
        i
    }
}

/// `local-data:`
pub open spec fn keyword() -> Seq<u8> {
    seq![0x6Cu8, 0x6F, 0x63, 0x61, 0x6C, 0x2D, 0x64, 0x61, 0x74, 0x61, 0x3A]
}

/// `local-data: "`, how a written directive begins.
pub open spec fn record_head() -> Seq<u8> {
    keyword() + seq![0x20u8, QUOTE]
}

/// `. IN A `, what a written directive holds between domain and value.
pub open spec fn record_middle() -> Seq<u8> {
    seq![0x2Eu8, 0x20, 0x49, 0x4E, 0x20, 0x41, 0x20]
}

/// Where the keyword of line `l` would start.
pub open spec fn keyword_at(l: Seq<u8>) -> int {
    skip_spaces(l, 0)
}

/// Where the opening quote of line `l` would stand.
pub open spec fn open_quote(l: Seq<u8>) -> int {
    skip_spaces(l, keyword_at(l) + 11)
}

pub open spec fn name_start(l: Seq<u8>) -> int {
    open_quote(l) + 1
}

pub open spec fn name_end(l: Seq<u8>) -> int {
    token_end(l, name_start(l))
}

/// Where the class `IN` of line `l` would start.
pub open spec fn class_at(l: Seq<u8>) -> int {
    skip_spaces(l, name_end(l))
}

/// Where the record type `A` of line `l` would stand.
pub open spec fn type_at(l: Seq<u8>) -> int {
    skip_spaces(l, class_at(l) + 2)
}

/// The first position at or after `i` that holds a `"`.
pub open spec fn quote_from(l: Seq<u8>, i: int) -> int
    decreases l.len() - i,
{
    if 0 <= i < l.len() && l[i] != QUOTE {
        quote_from(l, i + 1)
    } else {
        i
    }
}

/// Where the value of line `l` would start: past `A` and one white space byte.
pub open spec fn value_start(l: Seq<u8>) -> int {
    type_at(l) + 2
}

/// Where the closing quote of line `l` would stand: the first `"` after `A`.
pub open spec fn close_quote(l: Seq<u8>) -> int {
    quote_from(l, type_at(l) + 1)
}

/// Whether line `l` is an `A` record directive.
pub open spec fn is_directive(l: Seq<u8>) -> bool {
    let k = keyword_at(l);
    &&& k + 11 <= l.len()
    &&& l.subrange(k, k + 11) == keyword()
    &&& open_quote(l) < l.len()
    &&& l[open_quote(l)] == QUOTE
    &&& name_end(l) > name_start(l)
    &&& class_at(l) > name_end(l)
    &&& class_at(l) + 2 <= l.len()
    &&& l[class_at(l)] == 0x49
    &&& l[class_at(l) + 1] == 0x4E
    &&& type_at(l) > class_at(l) + 2
    &&& type_at(l) < l.len()
    &&& l[type_at(l)] == 0x41
    &&& type_at(l) + 1 < l.len()
    &&& is_space(l[type_at(l) + 1])
    &&& close_quote(l) > value_start(l)
    &&& close_quote(l) < l.len()
    &&& l[close_quote(l)] == QUOTE
}

/// The name that directive `l` gives an address to.
pub open spec fn record_name(l: Seq<u8>) -> Seq<u8> {
    l.subrange(name_start(l), name_end(l))
}

/// The address that directive `l` gives.
pub open spec fn record_value(l: Seq<u8>) -> Seq<u8> {
    l.subrange(value_start(l), close_quote(l))
}

/// Whether a directive's name stands for domain `d`: it is `d`, or `d` with one
/// trailing dot.
pub open spec fn names_domain(name: Seq<u8>, d: Seq<u8>) -> bool {
    name == d || name == d.push(0x2Eu8)
}

/// Whether line `l` is the directive for domain `d`.
pub open spec fn is_record_for(l: Seq<u8>, d: Seq<u8>) -> bool {
    is_directive(l) && names_domain(record_name(l), d)
}

/// Whether `v` can be written as a directive's value and the line still be read
/// as that directive: it is not empty, holds no line break, and does not begin
/// with the `"` that would close the directive before any value.
pub open spec fn is_writable(v: Seq<u8>) -> bool {
    &&& v.len() > 0
    &&& v[0] != QUOTE
    &&& forall|i: int| 0 <= i < v.len() ==> #[trigger] v[i] != NEWLINE
}

/// Whether `v` holds no `"`, so that a directive written with it gives back all of it.
pub open spec fn is_unquoted(v: Seq<u8>) -> bool {
    forall|i: int| 0 <= i < v.len() ==> #[trigger] v[i] != QUOTE
}

/// The directive written for domain `d` and address `v`: `local-data: "<d>. IN A <v>"`.
pub open spec fn record_text(d: Seq<u8>, v: Seq<u8>) -> Seq<u8> {
    record_head() + d + record_middle() + v + seq![QUOTE]
}

/// Directive line `l` with its directive replaced by the one for `d` and `v`;
/// the indentation before it and whatever follows its closing quote stay.
pub open spec fn rewritten(l: Seq<u8>, d: Seq<u8>, v: Seq<u8>) -> Seq<u8> {
    l.take(keyword_at(l)) + record_text(d, v) + l.skip(close_quote(l) + 1)
}

/// Whether line `k` of `ls` is the directive for `d`, and no other line is.
pub open spec fn sole_record(ls: Seq<Seq<u8>>, d: Seq<u8>, k: int) -> bool {
    &&& 0 <= k < ls.len()
    &&& is_record_for(ls[k], d)
    &&& forall|j: int| 0 <= j < ls.len() && j != k ==> !is_record_for(#[trigger] ls[j], d)
}

/// Whether some line of `ls` is the directive for `d`.
pub open spec fn has_record_for(ls: Seq<Seq<u8>>, d: Seq<u8>) -> bool {
    exists|k: int| 0 <= k < ls.len() && is_record_for(#[trigger] ls[k], d)
}

/// Why the directive for a domain could not be updated.
#[derive(Clone, Copy, Debug, PartialEq, Eq, Structural)]
pub enum RecordError {
    /// The address is empty, holds a line break, or begins with a quote.
    InvalidValue,
    /// No line is the directive for the domain.
    Missing,
    /// More than one line is the directive for the domain.
    Duplicate,
}

/// The text `t` after the directive for `d` is given address `v`, or why it cannot be.
pub open spec fn updated_text(t: Seq<u8>, d: Seq<u8>, v: Seq<u8>) -> Result<Seq<u8>, RecordError> {
    let ls = lines(t);
    if !has_record_for(ls, d) {
        Err(RecordError::Missing)
    } else if !(exists|k: int| sole_record(ls, d, k)) {
        Err(RecordError::Duplicate)
    } else if !is_writable(v) {
        Err(RecordError::InvalidValue)
    } else {
        let k = choose|k: int| sole_record(ls, d, k);
        Ok(join(ls.update(k, rewritten(ls[k], d, v))))
    }
}

/// What `skip_spaces` finds: a run of white space, then a position that is not.
pub proof fn lemma_skip_spaces(l: Seq<u8>, i: int)
    requires
        0 <= i <= l.len(),
    ensures
        i <= skip_spaces(l, i) <= l.len(),
        forall|k: int| i <= k < skip_spaces(l, i) ==> is_space(#[trigger] l[k]),
        skip_spaces(l, i) == l.len() || !is_space(l[skip_spaces(l, i)]),
    decreases l.len() - i,
{
    if i < l.len() && is_space(l[i]) {
        lemma_skip_spaces(l, i + 1);
    }
}

/// What `token_end` finds: a run of token bytes, then a position that is not one.
pub proof fn lemma_token_end(l: Seq<u8>, i: int)
    requires
        0 <= i <= l.len(),
    ensures
        i <= token_end(l, i) <= l.len(),
        forall|k: int| i <= k < token_end(l, i) ==> is_token_byte(#[trigger] l[k]),
        token_end(l, i) == l.len() || !is_token_byte(l[token_end(l, i)]),
    decreases l.len() - i,
{
    if i < l.len() && is_token_byte(l[i]) {
        lemma_token_end(l, i + 1);
    }
}

/// `skip_spaces` stops at the first position after a run of white space.
proof fn lemma_skip_spaces_to(l: Seq<u8>, i: int, j: int)
    requires
        0 <= i <= j <= l.len(),
        forall|k: int| i <= k < j ==> is_space(#[trigger] l[k]),
        j == l.len() || !is_space(l[j]),
    ensures
        skip_spaces(l, i) == j,
    decreases j - i,
{
    if i < j {
        lemma_skip_spaces_to(l, i + 1, j);
    }
}

/// `token_end` stops at the first position after a run of token bytes.
proof fn lemma_token_end_to(l: Seq<u8>, i: int, j: int)
    requires
        0 <= i <= j <= l.len(),
        forall|k: int| i <= k < j ==> is_token_byte(#[trigger] l[k]),
        j == l.len() || !is_token_byte(l[j]),
    ensures
        token_end(l, i) == j,
    decreases j - i,
{
    if i < j {
        lemma_token_end_to(l, i + 1, j);
    }
}

/// What `quote_from` finds: a run without `"`, then a `"` or the end of the line.
pub proof fn lemma_quote_from(l: Seq<u8>, i: int)
    requires
        0 <= i <= l.len(),
    ensures
        i <= quote_from(l, i) <= l.len(),
        forall|k: int| i <= k < quote_from(l, i) ==> #[trigger] l[k] != QUOTE,
        quote_from(l, i) == l.len() || l[quote_from(l, i)] == QUOTE,
    decreases l.len() - i,
{
    if i < l.len() && l[i] != QUOTE {
        lemma_quote_from(l, i + 1);
    }
}

/// `quote_from` stops at the first `"` after a run without one.
proof fn lemma_quote_from_to(l: Seq<u8>, i: int, j: int)
    requires
        0 <= i <= j <= l.len(),
        forall|k: int| i <= k < j ==> #[trigger] l[k] != QUOTE,
        j == l.len() || l[j] == QUOTE,
    ensures
        quote_from(l, i) == j,
    decreases j - i,
{
    if i < j {
        lemma_quote_from_to(l, i + 1, j);
    }
}

fn is_space_byte(b: u8) -> (r: bool)
    ensures
        r == is_space(b),
{
    b == 0x20 || (0x09 <= b && b <= 0x0D)
}

fn is_token(b: u8) -> (r: bool)
    ensures
        r == is_token_byte(b),
{
    !is_space_byte(b) && b != QUOTE
}

/// The first position at or after `i` that does not hold white space.
fn skip_spaces_from(l: &[u8], i: usize) -> (r: usize)
    requires
        i <= l@.len(),
    ensures
        r == skip_spaces(l@, i as int),
        r <= l@.len(),
{
    let mut j = i;
    while j < l.len() && is_space_byte(l[j])
        invariant
            i <= j <= l@.len(),
            skip_spaces(l@, i as int) == skip_spaces(l@, j as int),
        decreases l@.len() - j,
    {
        j = j + 1;
    }
    j
}

/// The first position at or after `i` that does not hold a token byte.
fn token_end_from(l: &[u8], i: usize) -> (r: usize)
    requires
        i <= l@.len(),
    ensures
        r == token_end(l@, i as int),
        r <= l@.len(),
{
    let mut j = i;
    while j < l.len() && is_token(l[j])
        invariant
            i <= j <= l@.len(),
            token_end(l@, i as int) == token_end(l@, j as int),
        decreases l@.len() - j,
    {
        j = j + 1;
    }
    j
}

/// The first position at or after `i` that holds a `"`.
fn quote_from_at(l: &[u8], i: usize) -> (r: usize)
    requires
        i <= l@.len(),
    ensures
        r == quote_from(l@, i as int),
        r <= l@.len(),
{
    let mut j = i;
    while j < l.len() && l[j] != QUOTE
        invariant
            i <= j <= l@.len(),
            quote_from(l@, i as int) == quote_from(l@, j as int),
        decreases l@.len() - j,
    {
        j = j + 1;
    }
    j
}

/// Whether `p` stands in `l` from position `at` on.
fn bytes_at(l: &[u8], at: usize, p: &[u8]) -> (r: bool)
    ensures
        r == (at + p@.len() <= l@.len() && l@.subrange(at as int, at + p@.len()) == p@),
{
    if at > l.len() || p.len() > l.len() - at {
        return false;
    }
    let mut k: usize = 0;
    while k < p.len()
        invariant
            at + p.len() <= l.len(),
            k <= p@.len(),
            forall|m: int| 0 <= m < k ==> l@[at + m] == p@[m],
        decreases p@.len() - k,
    {
        if l[at + k] != p[k] {
            assert(l@.subrange(at as int, at + p@.len())[k as int] != p@[k as int]);
            return false;
        }
        k = k + 1;
    }
    assert(l@.subrange(at as int, at + p@.len()) =~= p@);
    true
}

/// Where the parts of a directive line stand.
pub struct DirectiveSpan {
    pub keyword: usize,
    pub name_start: usize,
    pub name_end: usize,
    pub close: usize,
}

/// Reads line `l` as a directive: the positions of its parts, or `None` where
/// `l` is no `A` record directive.
pub fn parse_directive(l: &[u8]) -> (r: Option<DirectiveSpan>)
    ensures
        r is Some <==> is_directive(l@),
        r matches Some(s) ==> {
            &&& s.keyword == keyword_at(l@)
            &&& s.name_start == name_start(l@)
            &&& s.name_end == name_end(l@)
            &&& s.close == close_quote(l@)
        },
{
    let kw = vec![0x6Cu8, 0x6F, 0x63, 0x61, 0x6C, 0x2D, 0x64, 0x61, 0x74, 0x61, 0x3A];
    assert(kw@ =~= keyword());
    let n = l.len();
    let k = skip_spaces_from(l, 0);
    if !bytes_at(l, k, kw.as_slice()) {
        return None;
    }
    let q = skip_spaces_from(l, k + 11);
    if q >= l.len() || l[q] != QUOTE {
        return None;
    }
    let ns = q + 1;
    let ne = token_end_from(l, ns);
    if ne <= ns {
        return None;
    }
    let c = skip_spaces_from(l, ne);
    if c <= ne || n - c < 2 || l[c] != 0x49 || l[c + 1] != 0x4E {
        return None;
    }
    let ty = skip_spaces_from(l, c + 2);
    if ty <= c + 2 || ty >= l.len() || l[ty] != 0x41 {
        return None;
    }
    if n - ty < 2 || !is_space_byte(l[ty + 1]) {
        return None;
    }
    let cq = quote_from_at(l, ty + 1);
    if cq <= ty + 2 || cq >= n || l[cq] != QUOTE {
        return None;
    }
    Some(DirectiveSpan { keyword: k, name_start: ns, name_end: ne, close: cq })
}

/// Whether the name at `l[ns..ne]` stands for domain `d`.
fn names_domain_at(l: &[u8], ns: usize, ne: usize, d: &[u8]) -> (r: bool)
    requires
        ns <= ne <= l@.len(),
    ensures
        r == names_domain(l@.subrange(ns as int, ne as int), d@),
{
    let ghost name = l@.subrange(ns as int, ne as int);
    let len = ne - ns;
    if len == d.len() {
        let r = bytes_at(l, ns, d);
        assert(name.len() != d@.push(0x2Eu8).len());
        assert(r == (name == d@));
        r
    } else if len >= 1 && len - 1 == d.len() {
        let r = bytes_at(l, ns, d) && l[ne - 1] == 0x2E;
        if r {
            assert(name =~= d@.push(0x2Eu8));
        }
        proof {
            if name == d@.push(0x2Eu8) {
                assert(name.subrange(0, d@.len() as int) =~= l@.subrange(ns as int, ns + d@.len()));
                assert(name.subrange(0, d@.len() as int) =~= d@);
                assert(name[d@.len() as int] == l@[ne - 1]);
            }
        }
        r
    } else {
        assert(name.len() != d@.len());
        assert(name.len() != d@.push(0x2Eu8).len());
        false
    }
}

/// The parts of line `l` where it is the directive for domain `d`.
fn record_for_line(l: &[u8], d: &[u8]) -> (r: Option<DirectiveSpan>)
    ensures
        r is Some <==> is_record_for(l@, d@),
        r matches Some(s) ==> s.keyword == keyword_at(l@) && s.close == close_quote(l@),
{
    match parse_directive(l) {
        None => None,
        Some(span) => {
            proof {
                lemma_token_end(l@, name_start(l@));
            }
            if names_domain_at(l, span.name_start, span.name_end, d) {
                Some(span)
            } else {
                None
            }
        },
    }
}

/// Whether `v` can be written as a directive's value.
fn value_writable(v: &[u8]) -> (r: bool)
    ensures
        r == is_writable(v@),
{
    if v.len() == 0 || v[0] == QUOTE {
        return false;
    }
    let mut i: usize = 0;
    while i < v.len()
        invariant
            i <= v@.len(),
            forall|k: int| 0 <= k < i ==> #[trigger] v@[k] != NEWLINE,
        decreases v@.len() - i,
    {
        if v[i] == NEWLINE {
            return false;
        }
        i = i + 1;
    }
    true
}

/// Line `l` with its directive replaced by the one for `d` and `v`.
fn rewrite_line(l: &[u8], span: &DirectiveSpan, d: &[u8], v: &[u8]) -> (r: Vec<u8>)
    requires
        is_directive(l@),
        span.keyword == keyword_at(l@),
        span.close == close_quote(l@),
    ensures
        r@ == rewritten(l@, d@, v@),
{
    let head = vec![0x6Cu8, 0x6F, 0x63, 0x61, 0x6C, 0x2D, 0x64, 0x61, 0x74, 0x61, 0x3A, 0x20, QUOTE];
    let middle = vec![0x2Eu8, 0x20, 0x49, 0x4E, 0x20, 0x41, 0x20];
    assert(head@ =~= record_head());
    assert(middle@ =~= record_middle());
    let n = l.len();
    let mut out: Vec<u8> = Vec::new();
    push_all(&mut out, &l[0..span.keyword]);
    push_all(&mut out, head.as_slice());
    push_all(&mut out, d);
    push_all(&mut out, middle.as_slice());
    push_all(&mut out, v);
    out.push(QUOTE);
    push_all(&mut out, &l[span.close + 1..n]);
    assert(out@ =~= rewritten(l@, d@, v@));
    out
}

/// Whether some line of `text` is the directive for `domain`.
pub fn has_record(text: &[u8], domain: &str) -> (r: bool)
    ensures
        r == has_record_for(lines(text@), domain.spec_bytes()),
{
    let d = domain.as_bytes();
    let ls = split_lines(text);
    let mut i: usize = 0;
    while i < ls.len()
        invariant
            i <= ls@.len(),
            views(ls@) == lines(text@),
            d@ == domain.spec_bytes(),
            forall|j: int| 0 <= j < i ==> !is_record_for(#[trigger] lines(text@)[j], d@),
        decreases ls@.len() - i,
    {
        if record_for_line(ls[i].as_slice(), d).is_some() {
            assert(is_record_for(lines(text@)[i as int], d@));
            return true;
        }
        i = i + 1;
    }
    false
}

/// Whether exactly one line of `text` is the directive for `domain`.
pub fn has_sole_record(text: &[u8], domain: &str) -> (r: bool)
    ensures
        r == exists|k: int| sole_record(lines(text@), domain.spec_bytes(), k),
{
    let d = domain.as_bytes();
    let ls = split_lines(text);
    let ghost lns = lines(text@);
    let mut found: Option<usize> = None;
    let mut i: usize = 0;
    while i < ls.len()
        invariant
            i <= ls@.len(),
            views(ls@) == lns,
            lns == lines(text@),
            d@ == domain.spec_bytes(),
            found matches None ==> forall|j: int| 0 <= j < i ==> !is_record_for(#[trigger] lns[j], d@),
            found matches Some(k) ==> {
                &&& k < i
                &&& is_record_for(lns[k as int], d@)
                &&& forall|j: int| 0 <= j < i && j != k ==> !is_record_for(#[trigger] lns[j], d@)
            },
        decreases ls@.len() - i,
    {
        if record_for_line(ls[i].as_slice(), d).is_some() {
            assert(is_record_for(lns[i as int], d@));
            match found {
                None => {
                    found = Some(i);
                },
                Some(k) => {
                    assert forall|m: int| !sole_record(lns, d@, m) by {
                        if sole_record(lns, d@, m) {
                            if m != k {
                                assert(!is_record_for(lns[k as int], d@));
                            } else {
                                assert(!is_record_for(lns[i as int], d@));
                            }
                        }
                    }
                    return false;
                },
            }
        }
        i = i + 1;
    }
    match found {
        None => {
            assert forall|m: int| !sole_record(lns, d@, m) by {
                if sole_record(lns, d@, m) {
                    assert(!is_record_for(lns[m], d@));
                }
            }
            false
        },
        Some(k) => {
            assert(sole_record(lns, d@, k as int));
            true
        },
    }
}

/// Gives the directive for `domain` in `text` the address `address`: the one line
/// that is that directive is rewritten as `local-data: "<domain>. IN A <address>"`,
/// keeping its indentation and what follows its closing quote; every other line
/// stays as it was. Fails, changing nothing, where not exactly one line is the
/// directive for `domain`, or else where the address cannot be written.
pub fn update_record(text: &[u8], domain: &str, address: &str) -> (r: Result<Vec<u8>, RecordError>)
    ensures
        r matches Ok(out) ==> updated_text(text@, domain.spec_bytes(), address.spec_bytes())
            == Ok::<Seq<u8>, RecordError>(out@),
        r matches Err(e) ==> updated_text(text@, domain.spec_bytes(), address.spec_bytes())
            == Err::<Seq<u8>, RecordError>(e),
{
    let d = domain.as_bytes();
    let v = address.as_bytes();
    let mut ls = split_lines(text);
    let ghost lns = lines(text@);
    proof {
        lemma_lines_shape(text@);
    }
    let mut found: Option<(usize, DirectiveSpan)> = None;
    let mut i: usize = 0;
    while i < ls.len()
        invariant
            i <= ls@.len(),
            views(ls@) == lns,
            lns == lines(text@),
            d@ == domain.spec_bytes(),
            found matches None ==> forall|j: int| 0 <= j < i ==> !is_record_for(#[trigger] lns[j], d@),
            found matches Some((k, span)) ==> {
                &&& k < i
                &&& is_record_for(lns[k as int], d@)
                &&& span.keyword == keyword_at(lns[k as int])
                &&& span.close == close_quote(lns[k as int])
                &&& forall|j: int| 0 <= j < i && j != k ==> !is_record_for(#[trigger] lns[j], d@)
            },
        decreases ls@.len() - i,
    {
        match record_for_line(ls[i].as_slice(), d) {
            None => {},
            Some(span) => {
                assert(is_record_for(lns[i as int], d@));
                match found {
                    None => {
                        found = Some((i, span));
                    },
                    Some((k, _)) => {
                        assert(has_record_for(lns, d@));
                        assert forall|m: int| !sole_record(lns, d@, m) by {
                            if sole_record(lns, d@, m) {
                                if m != k {
                                    assert(!is_record_for(lns[k as int], d@));
                                } else {
                                    assert(!is_record_for(lns[i as int], d@));
                                }
                            }
                        }
                        return Err(RecordError::Duplicate);
                    },
                }
            },
        }
        i = i + 1;
    }
    match found {
        None => {
            assert(!has_record_for(lns, d@));
            Err(RecordError::Missing)
        },
        Some((k, span)) => {
            assert(sole_record(lns, d@, k as int));
            if !value_writable(v) {
                return Err(RecordError::InvalidValue);
            }
            let ghost chosen = choose|m: int| sole_record(lns, d@, m);
            assert(chosen == k) by {
                if chosen != k {
                    assert(!is_record_for(lns[k as int], d@));
                }
            }
            let fresh = rewrite_line(ls[k].as_slice(), &span, d, v);
            let ghost before = views(ls@);
            ls.set(k, fresh);
            assert(views(ls@) =~= before.update(k as int, rewritten(lns[k as int], d@, v@)));
            let out = join_lines(&ls);
            Ok(out)
        },
    }
}

/// Whether line `l` holds, from where its keyword stands, the directive written
/// for `d` and `v`: `local-data: "<d>. IN A <v>"`.
pub open spec fn written_record(l: Seq<u8>, d: Seq<u8>, v: Seq<u8>) -> bool {
    let k = keyword_at(l);
    &&& 0 <= k
    &&& k + record_text(d, v).len() <= l.len()
    &&& l.subrange(k, k + record_text(d, v).len()) == record_text(d, v)
}

/// The directive written for `d` and `v` in place of a directive for `d` is
/// itself read back as the directive for `d`, under the name `d.`; it holds the
/// written text, and its value is `v` wherever `v` holds no quote.
#[verifier::rlimit(100)]
pub proof fn lemma_rewritten_record(l: Seq<u8>, d: Seq<u8>, v: Seq<u8>)
    requires
        is_record_for(l, d),
        is_writable(v),
    ensures
        is_record_for(rewritten(l, d, v), d),
        record_name(rewritten(l, d, v)) == d.push(0x2Eu8),
        written_record(rewritten(l, d, v), d, v),
        is_unquoted(v) ==> record_value(rewritten(l, d, v)) == v,
        is_line(l) ==> is_line(rewritten(l, d, v)),
{
    let a = keyword_at(l);
    let c = close_quote(l);
    lemma_skip_spaces(l, 0);
    lemma_skip_spaces(l, a + 11);
    lemma_token_end(l, name_start(l));
    lemma_skip_spaces(l, name_end(l));
    lemma_skip_spaces(l, class_at(l) + 2);
    lemma_quote_from(l, type_at(l) + 1);
    let name = record_name(l);
    let ns = name_start(l);
    let ne = name_end(l);
    assert(0 <= ns <= ne <= l.len());
    assert(name.len() == ne - ns);
    assert(d.len() <= name.len());
    assert forall|i: int| 0 <= i < d.len() implies is_token_byte(#[trigger] d[i]) by {
        assert(d[i] == name[i]);
        assert(name[i] == l[ns + i]);
        assert(is_token_byte(l[ns + i]));
    }
    let nl = rewritten(l, d, v);
    let rt = record_text(d, v);
    let dl = d.len() as int;
    let vl = v.len() as int;
    let b = a + 13 + dl;
    let tail = l.skip(c + 1);
    assert(rt.len() == b + 8 + vl - a);
    assert(nl.len() == b + 8 + vl + tail.len());
    assert forall|i: int| 0 <= i < a implies #[trigger] nl[i] == l[i] by {}
    assert(nl.subrange(a, a + rt.len()) =~= rt);
    assert(nl.subrange(a, a + 11) =~= keyword());
    assert(nl[a + 11] == 0x20u8);
    assert(nl[a + 12] == QUOTE);
    assert forall|i: int| 0 <= i < dl implies #[trigger] nl[a + 13 + i] == d[i] by {}
    assert(nl[b] == 0x2Eu8);
    assert(nl[b + 1] == 0x20u8);
    assert(nl[b + 2] == 0x49u8);
    assert(nl[b + 3] == 0x4Eu8);
    assert(nl[b + 4] == 0x20u8);
    assert(nl[b + 5] == 0x41u8);
    assert(nl[b + 6] == 0x20u8);
    assert forall|i: int| 0 <= i < vl implies #[trigger] nl[b + 7 + i] == v[i] by {}
    assert(nl[b + 7 + vl] == QUOTE);
    assert forall|i: int| 0 <= i < tail.len() implies #[trigger] nl[b + 8 + vl + i] == tail[i] by {}

    lemma_skip_spaces_to(nl, 0, a);
    assert(keyword_at(nl) == a);
    assert(nl[a] == 0x6Cu8);
    lemma_skip_spaces_to(nl, a + 11, a + 12);
    assert(open_quote(nl) == a + 12);
    assert forall|i: int| a + 13 <= i < b + 1 implies is_token_byte(#[trigger] nl[i]) by {
        if i < b {
            assert(nl[i] == d[i - (a + 13)]);
        }
    }
    lemma_token_end_to(nl, a + 13, b + 1);
    assert(name_end(nl) == b + 1);
    lemma_skip_spaces_to(nl, b + 1, b + 2);
    assert(class_at(nl) == b + 2);
    lemma_skip_spaces_to(nl, b + 4, b + 5);
    assert(type_at(nl) == b + 5);
    lemma_quote_from(nl, b + 6);
    let q = quote_from(nl, b + 6);
    assert(q != b + 6);
    assert(q != b + 7) by {
        assert(nl[b + 7] == v[0]);
    }
    assert(q <= b + 7 + vl) by {
        if q > b + 7 + vl {
            assert(nl[b + 7 + vl] != QUOTE);
        }
    }
    assert(close_quote(nl) == q);
    assert(record_name(nl) =~= d.push(0x2Eu8));
    if is_unquoted(v) {
        assert forall|i: int| b + 6 <= i < b + 7 + vl implies #[trigger] nl[i] != QUOTE by {
            if i > b + 6 {
                assert(nl[i] == v[i - (b + 7)]);
            }
        }
        lemma_quote_from_to(nl, b + 6, b + 7 + vl);
        assert(record_value(nl) =~= v);
    }
    if is_line(l) {
        assert forall|i: int| 0 <= i < nl.len() implies nl[i] != 0x0Au8 by {
            if i < a {
            } else if a + 13 <= i < b {
                assert(nl[i] == d[i - (a + 13)]);
            } else if b + 7 <= i < b + 7 + vl {
                assert(nl[i] == v[i - (b + 7)]);
            } else if i >= b + 8 + vl {
                assert(nl[i] == tail[i - (b + 8 + vl)]);
                assert(tail[i - (b + 8 + vl)] == l[c + 1 + (i - (b + 8 + vl))]);
            } else if i < a + 11 {
                assert(nl[i] == keyword()[i - a]);
            }
        }
    }
}

/// After a successful update of the directive for `d` to address `v`, exactly one
/// line of the new text is a directive for `d`: it stands where the old directive
/// stood and reads `local-data: "<d>. IN A <v>"` after the old indentation, and
/// every other line is unchanged.
pub proof fn lemma_update_single_record(t: Seq<u8>, d: Seq<u8>, v: Seq<u8>)
    requires
        updated_text(t, d, v) is Ok,
    ensures
        exists|k: int|
            {
                let after = lines(updated_text(t, d, v)->Ok_0);
                &&& #[trigger] sole_record(lines(t), d, k)
                &&& sole_record(after, d, k)
                &&& record_name(after[k]) == d.push(0x2Eu8)
                &&& written_record(after[k], d, v)
                &&& (is_unquoted(v) ==> record_value(after[k]) == v)
                &&& after == lines(t).update(k, rewritten(lines(t)[k], d, v))
            },
{
    let ls = lines(t);
    let k = choose|k: int| sole_record(ls, d, k);
    let fresh = rewritten(ls[k], d, v);
    let ls2 = ls.update(k, fresh);
    lemma_lines_shape(t);
    lemma_rewritten_record(ls[k], d, v);
    assert forall|j: int| 0 <= j < ls2.len() implies is_line(#[trigger] ls2[j]) by {
        if j != k {
            assert(ls2[j] == ls[j]);
        }
    }
    lemma_lines_join(ls2);
    assert(sole_record(ls2, d, k)) by {
        assert forall|j: int| 0 <= j < ls2.len() && j != k implies !is_record_for(#[trigger] ls2[j], d) by {
            assert(ls2[j] == ls[j]);
        }
    }
}

/// An update for a domain that has no directive in the text fails as `Missing`:
/// the domain is not given a directive that was not there before.
pub proof fn lemma_missing_record_rejected(t: Seq<u8>, d: Seq<u8>, v: Seq<u8>)
    requires
        !has_record_for(lines(t), d),
    ensures
        updated_text(t, d, v) == Err::<Seq<u8>, RecordError>(RecordError::Missing),
{
}

/// Whether exactly one line of `t` is the directive for `d`, and it holds the
/// directive written for `d` and `v`.
pub open spec fn holds_record(t: Seq<u8>, d: Seq<u8>, v: Seq<u8>) -> bool {
    exists|k: int| #[trigger] sole_record(lines(t), d, k) && written_record(lines(t)[k], d, v)
}

/// A domain written without a trailing dot, the form under which domains are
/// authorized and compared.
pub open spec fn is_canonical(d: Seq<u8>) -> bool {
    !(d.len() > 0 && d.last() == 0x2Eu8)
}

/// No directive name stands for two different canonical domains.
pub proof fn lemma_names_distinct(name: Seq<u8>, d1: Seq<u8>, d2: Seq<u8>)
    requires
        is_canonical(d1),
        is_canonical(d2),
        d1 != d2,
        names_domain(name, d1),
    ensures
        !names_domain(name, d2),
{
    if names_domain(name, d2) {
        if name == d1 {
            if name == d2.push(0x2Eu8) {
                assert(d1.last() == 0x2Eu8);
            }
        } else {
            if name == d2 {
                assert(d2.last() == 0x2Eu8);
            } else {
                assert(d1 =~= name.drop_last());
                assert(d2 =~= name.drop_last());
            }
        }
    }
}

/// The update for `d1` then the one for `d2`, where each has the sole directive at
/// `k1` and `k2`: both succeed, and the lines of the result are the old lines with
/// those two rewritten.
proof fn lemma_update_then(
    t: Seq<u8>,
    d1: Seq<u8>,
    v1: Seq<u8>,
    k1: int,
    d2: Seq<u8>,
    v2: Seq<u8>,
    k2: int,
)
    requires
        is_canonical(d1),
        is_canonical(d2),
        d1 != d2,
        is_writable(v1),
        is_writable(v2),
        sole_record(lines(t), d1, k1),
        sole_record(lines(t), d2, k2),
    ensures
        k1 != k2,
        updated_text(t, d1, v1) is Ok,
        updated_text(updated_text(t, d1, v1)->Ok_0, d2, v2) is Ok,
        lines(updated_text(updated_text(t, d1, v1)->Ok_0, d2, v2)->Ok_0) == lines(t).update(
            k1,
            rewritten(lines(t)[k1], d1, v1),
        ).update(k2, rewritten(lines(t)[k2], d2, v2)),
        updated_text(updated_text(t, d1, v1)->Ok_0, d2, v2)->Ok_0 == join(
            lines(t).update(k1, rewritten(lines(t)[k1], d1, v1)).update(
                k2,
                rewritten(lines(t)[k2], d2, v2),
            ),
        ),
{
    let ls = lines(t);
    lemma_lines_shape(t);
    lemma_names_distinct(record_name(ls[k1]), d1, d2);
    assert(k1 != k2);
    let chosen1 = choose|k: int| sole_record(ls, d1, k);
    assert(chosen1 == k1) by {
        if chosen1 != k1 {
            assert(!is_record_for(ls[k1], d1));
        }
    }
    let nl1 = rewritten(ls[k1], d1, v1);
    let ls1 = ls.update(k1, nl1);
    let t1 = join(ls1);
    assert(updated_text(t, d1, v1) == Ok::<Seq<u8>, RecordError>(t1));
    lemma_rewritten_record(ls[k1], d1, v1);
    assert forall|j: int| 0 <= j < ls1.len() implies is_line(#[trigger] ls1[j]) by {
        if j != k1 {
            assert(ls1[j] == ls[j]);
        }
    }
    lemma_lines_join(ls1);
    lemma_names_distinct(record_name(nl1), d1, d2);
    assert(sole_record(ls1, d2, k2)) by {
        assert forall|j: int| 0 <= j < ls1.len() && j != k2 implies !is_record_for(#[trigger] ls1[j], d2) by {
            if j != k1 {
                assert(ls1[j] == ls[j]);
            }
        }
    }
    let chosen2 = choose|k: int| sole_record(ls1, d2, k);
    assert(chosen2 == k2) by {
        if chosen2 != k2 {
            assert(!is_record_for(ls1[k2], d2));
        }
    }
    assert(ls1[k2] == ls[k2]);
    let nl2 = rewritten(ls[k2], d2, v2);
    let ls2 = ls1.update(k2, nl2);
    assert(updated_text(t1, d2, v2) == Ok::<Seq<u8>, RecordError>(join(ls2)));
    lemma_rewritten_record(ls[k2], d2, v2);
    assert forall|j: int| 0 <= j < ls2.len() implies is_line(#[trigger] ls2[j]) by {
        if j != k2 {
            assert(ls2[j] == ls1[j]);
        }
    }
    lemma_lines_join(ls2);
}

/// Two updates for two different domains, each of which has exactly one
/// directive, made one after the other: both succeed in either order, both orders
/// give the same text, and that text holds the directives written by both.
pub proof fn lemma_updates_compose(t: Seq<u8>, d1: Seq<u8>, v1: Seq<u8>, d2: Seq<u8>, v2: Seq<u8>)
    requires
        is_canonical(d1),
        is_canonical(d2),
        d1 != d2,
        is_writable(v1),
        is_writable(v2),
        exists|k: int| sole_record(lines(t), d1, k),
        exists|k: int| sole_record(lines(t), d2, k),
    ensures
        updated_text(t, d1, v1) is Ok,
        updated_text(updated_text(t, d1, v1)->Ok_0, d2, v2) is Ok,
        updated_text(t, d2, v2) is Ok,
        updated_text(updated_text(t, d2, v2)->Ok_0, d1, v1) is Ok,
        updated_text(updated_text(t, d1, v1)->Ok_0, d2, v2)->Ok_0 == updated_text(
            updated_text(t, d2, v2)->Ok_0,
            d1,
            v1,
        )->Ok_0,
        holds_record(updated_text(updated_text(t, d1, v1)->Ok_0, d2, v2)->Ok_0, d1, v1),
        holds_record(updated_text(updated_text(t, d1, v1)->Ok_0, d2, v2)->Ok_0, d2, v2),
{
    let ls = lines(t);
    let k1 = choose|k: int| sole_record(ls, d1, k);
    let k2 = choose|k: int| sole_record(ls, d2, k);
    lemma_update_then(t, d1, v1, k1, d2, v2, k2);
    lemma_update_then(t, d2, v2, k2, d1, v1, k1);
    let nl1 = rewritten(ls[k1], d1, v1);
    let nl2 = rewritten(ls[k2], d2, v2);
    let fin = ls.update(k1, nl1).update(k2, nl2);
    assert(fin =~= ls.update(k2, nl2).update(k1, nl1));
    let t12 = updated_text(updated_text(t, d1, v1)->Ok_0, d2, v2)->Ok_0;
    assert(lines(t12) == fin);
    lemma_rewritten_record(ls[k1], d1, v1);
    lemma_rewritten_record(ls[k2], d2, v2);
    lemma_names_distinct(record_name(nl1), d1, d2);
    lemma_names_distinct(record_name(nl2), d2, d1);
    assert(sole_record(fin, d1, k1)) by {
        assert forall|j: int| 0 <= j < fin.len() && j != k1 implies !is_record_for(#[trigger] fin[j], d1) by {
            if j != k2 {
                assert(fin[j] == ls[j]);
            }
        }
    }
    assert(sole_record(fin, d2, k2)) by {
        assert forall|j: int| 0 <= j < fin.len() && j != k2 implies !is_record_for(#[trigger] fin[j], d2) by {
            if j != k1 {
                assert(fin[j] == ls[j]);
            }
        }
    }
    assert(fin[k1] == nl1);
    assert(holds_record(t12, d1, v1));
    assert(holds_record(t12, d2, v2));
}

} // verus!
