//! The PrePublish GOVERN gate: PII scanning and redaction, the k-anonymity
//! and consent checks, and the report attached to every insight card.
use vstd::prelude::*;
use crate::matching::{
    apart_from, find_spelled, lemma_replace_no_new_spelling, replace_spelled,
    replace_spelled_text, spelled_at, spelled_in,
};
use crate::text::{
    ascii_digit, chars_of, contains_char, contains_text, decimal, is_alphabetic, is_alphanumeric,
    is_ascii_digit, is_number_separator, is_whitespace, join, number_separator, occurs_at, push_text,
    push_usize, string_of, text_eq, trim, trim_chars, unicode_alphabetic, unicode_alphanumeric,
    unicode_whitespace,
};

verus! {

/// Minimum segment size for safe publication of aggregated statistics.
pub const K_ANON: usize = 5;

/// A direct identifier found in free text.
pub struct PiiFinding {
    /// `email`, `phone` or `ic_or_id`.
    pub kind: String,
    pub matched: String,
}

impl View for PiiFinding {
    type V = (Seq<char>, Seq<char>);

    open spec fn view(&self) -> (Seq<char>, Seq<char>) {
        (self.kind@, self.matched@)
    }
}

/// The kinds of direct identifier the scanner looks for.
#[derive(PartialEq, Eq, Structural, Clone, Copy)]
pub enum PiiKind {
    /// A token with `@` and `.` in it.
    Email,
    /// A run of at least nine digits.
    Phone,
    /// A word with letters and at least six digits.
    IcOrId,
}

/// The name a finding of this kind carries.
pub open spec fn kind_label(kind: PiiKind) -> Seq<char> {
    match kind {
        PiiKind::Email => "email"@,
        PiiKind::Phone => "phone"@,
        PiiKind::IcOrId => "ic_or_id"@,
    }
}

/// Characters that end an e-mail candidate: all but letters, digits and `@ . - _`.
pub open spec fn email_delimiter(c: char) -> bool {
    !unicode_alphanumeric(c) && c != '@' && c != '.' && c != '-' && c != '_'
}

/// Whether `c` is passed over without extending or ending a token.
pub open spec fn skips(kind: PiiKind, c: char) -> bool {
    match kind {
        PiiKind::Phone => !is_ascii_digit(c) && number_separator(c),
        _ => false,
    }
}

/// Whether `c` ends the token being read.
pub open spec fn breaks(kind: PiiKind, c: char) -> bool {
    match kind {
        PiiKind::Email => email_delimiter(c),
        PiiKind::Phone => !is_ascii_digit(c) && !number_separator(c),
        PiiKind::IcOrId => unicode_whitespace(c),
    }
}

/// `done` with `cur` added when `cur` is not empty.
pub open spec fn close_token(done: Seq<Seq<char>>, cur: Seq<char>) -> Seq<Seq<char>> {
    if cur.len() > 0 {
        done.push(cur)
    } else {
        done
    }
}

/// The completed tokens of `s` and the token still open at its end.
pub open spec fn split_state(s: Seq<char>, kind: PiiKind) -> (Seq<Seq<char>>, Seq<char>)
    decreases s.len(),
{
    if s.len() == 0 {
        (Seq::empty(), Seq::empty())
    } else {
        let prev = split_state(s.drop_last(), kind);
        let c = s.last();
        if skips(kind, c) {
            prev
        } else if breaks(kind, c) {
            (close_token(prev.0, prev.1), Seq::empty())
        } else {
            (prev.0, prev.1.push(c))
        }
    }
}

/// The non-empty tokens of `s`, in order: maximal runs of characters that
/// neither break nor are skipped, with skipped characters left out.
pub open spec fn tokens(s: Seq<char>, kind: PiiKind) -> Seq<Seq<char>> {
    close_token(split_state(s, kind).0, split_state(s, kind).1)
}

/// Number of bytes of the UTF-8 encoding of `c`, as `char::len_utf8` gives it.
pub open spec fn char_utf8_len(c: char) -> nat {
    if (c as u32) < 0x80 {
        1
    } else if (c as u32) < 0x800 {
        2
    } else if (c as u32) < 0x10000 {
        3
    } else {
        4
    }
}

/// Number of bytes of the UTF-8 encoding of `s`, as `str::len` gives it.
pub open spec fn utf8_len(s: Seq<char>) -> nat
    decreases s.len(),
{
    if s.len() == 0 {
        0
    } else {
        utf8_len(s.drop_last()) + char_utf8_len(s.last())
    }
}

/// Number of ASCII digits in `s`.
pub open spec fn digit_count(s: Seq<char>) -> nat
    decreases s.len(),
{
    if s.len() == 0 {
        0
    } else {
        digit_count(s.drop_last()) + if is_ascii_digit(s.last()) {
            1nat
        } else {
            0nat
        }
    }
}

/// Whether a token is reported as a finding of the given kind.
pub open spec fn qualifies(kind: PiiKind, t: Seq<char>) -> bool {
    match kind {
        PiiKind::Email => t.contains('@') && t.contains('.') && utf8_len(t) > 5,
        PiiKind::Phone => utf8_len(t) >= 9,
        PiiKind::IcOrId => (exists|i: int| 0 <= i < t.len() && unicode_alphabetic(#[trigger] t[i]))
            && digit_count(t) >= 6 && utf8_len(t) <= 12,
    }
}

/// The qualifying tokens, in order, each labelled with the kind.
pub open spec fn findings_of(kind: PiiKind, toks: Seq<Seq<char>>) -> Seq<(Seq<char>, Seq<char>)>
    decreases toks.len(),
{
    if toks.len() == 0 {
        Seq::empty()
    } else {
        let prev = findings_of(kind, toks.drop_last());
        if qualifies(kind, toks.last()) {
            prev.push((kind_label(kind), toks.last()))
        } else {
            prev
        }
    }
}

/// Everything the scanner reports for a text: e-mail findings, then phone
/// findings, then id findings, each group in text order.
pub open spec fn pii_findings(text: Seq<char>) -> Seq<(Seq<char>, Seq<char>)> {
    findings_of(PiiKind::Email, tokens(text, PiiKind::Email)) + findings_of(
        PiiKind::Phone,
        tokens(text, PiiKind::Phone),
    ) + findings_of(PiiKind::IcOrId, tokens(text, PiiKind::IcOrId))
}

/// The views of a list of findings.
pub open spec fn finding_views(v: Seq<PiiFinding>) -> Seq<(Seq<char>, Seq<char>)> {
    v.map_values(|f: PiiFinding| f@)
}

fn label_of(kind: PiiKind) -> (s: String)
    ensures
        s@ == kind_label(kind),
{
    match kind {
        PiiKind::Email => String::from_str("email"),
        PiiKind::Phone => String::from_str("phone"),
        PiiKind::IcOrId => String::from_str("ic_or_id"),
    }
}

fn skips_char(kind: PiiKind, c: char) -> (b: bool)
    ensures
        b == skips(kind, c),
{
    match kind {
        PiiKind::Phone => !ascii_digit(c) && is_number_separator(c),
        _ => false,
    }
}

fn breaks_char(kind: PiiKind, c: char) -> (b: bool)
    ensures
        b == breaks(kind, c),
{
    match kind {
        PiiKind::Email => !is_alphanumeric(c) && c != '@' && c != '.' && c != '-' && c != '_',
        PiiKind::Phone => !ascii_digit(c) && !is_number_separator(c),
        PiiKind::IcOrId => is_whitespace(c),
    }
}

fn utf8_width(c: char) -> (w: usize)
    ensures
        w == char_utf8_len(c),
{
    let u = c as u32;
    if u < 0x80 {
        1
    } else if u < 0x800 {
        2
    } else if u < 0x10000 {
        3
    } else {
        4
    }
}

proof fn lemma_encode_push(a: Seq<char>, c: char)
    ensures
        vstd::utf8::encode_utf8(a.push(c)).len() == vstd::utf8::encode_utf8(a).len()
            + vstd::utf8::encode_scalar(c as u32).len(),
    decreases a.len(),
{
    let b = a.push(c);
    assert(vstd::utf8::encode_utf8(b) == vstd::utf8::encode_scalar(b[0] as u32)
        + vstd::utf8::encode_utf8(b.drop_first()));
    if a.len() == 0 {
        assert(b.drop_first() =~= Seq::<char>::empty());
        assert(b[0] == c);
        assert(vstd::utf8::encode_utf8(a).len() == 0);
        assert(vstd::utf8::encode_utf8(b.drop_first()).len() == 0);
    } else {
        assert(b.drop_first() =~= a.drop_first().push(c));
        assert(b[0] == a[0]);
        lemma_encode_push(a.drop_first(), c);
        assert(vstd::utf8::encode_utf8(a) == vstd::utf8::encode_scalar(a[0] as u32)
            + vstd::utf8::encode_utf8(a.drop_first()));
    }
}

/// `utf8_len` is the length of vstd's UTF-8 encoding, the one `str::len`
/// is specified by.
pub proof fn lemma_utf8_len_is_encoded_len(s: Seq<char>)
    ensures
        utf8_len(s) == vstd::utf8::encode_utf8(s).len(),
    decreases s.len(),
{
    if s.len() > 0 {
        lemma_utf8_len_is_encoded_len(s.drop_last());
        lemma_encode_push(s.drop_last(), s.last());
        assert(s.drop_last().push(s.last()) =~= s);
        vstd::utf8::char_is_scalar(s.last());
    }
}

proof fn lemma_utf8_len_grows(s: Seq<char>, i: int)
    requires
        0 <= i <= s.len(),
    ensures
        utf8_len(s.take(i)) <= utf8_len(s),
    decreases s.len() - i,
{
    if i < s.len() {
        lemma_utf8_len_grows(s, i + 1);
        assert(s.take(i + 1).drop_last() =~= s.take(i));
    } else {
        assert(s.take(i) =~= s);
    }
}

/// `min(utf8_len(s), 13)`: enough to decide every length threshold the
/// scanner uses.
fn utf8_len_upto_13(v: &Vec<char>) -> (n: usize)
    ensures
        n == if utf8_len(v@) > 13 { 13 } else { utf8_len(v@) },
{
    let mut n: usize = 0;
    let mut i: usize = 0;
    while i < v.len()
        invariant
            i <= v.len(),
            n == utf8_len(v@.take(i as int)),
            n <= 13,
        decreases v.len() - i,
    {
        assert(v@.take(i + 1).drop_last() =~= v@.take(i as int));
        let w = utf8_width(v[i]);
        if n + w > 13 {
            proof {
                lemma_utf8_len_grows(v@, i + 1);
            }
            return 13;
        }
        n = n + w;
        i = i + 1;
    }
    assert(v@.take(i as int) =~= v@);
    n
}

fn count_digits(v: &Vec<char>) -> (n: usize)
    ensures
        n == digit_count(v@),
{
    let mut n: usize = 0;
    let mut i: usize = 0;
    while i < v.len()
        invariant
            i <= v.len(),
            n == digit_count(v@.take(i as int)),
            n <= i,
        decreases v.len() - i,
    {
        assert(v@.take(i + 1).drop_last() =~= v@.take(i as int));
        if ascii_digit(v[i]) {
            n = n + 1;
        }
        i = i + 1;
    }
    assert(v@.take(i as int) =~= v@);
    n
}

fn has_alphabetic(v: &Vec<char>) -> (b: bool)
    ensures
        b == exists|i: int| 0 <= i < v@.len() && unicode_alphabetic(#[trigger] v@[i]),
{
    let mut i: usize = 0;
    while i < v.len()
        invariant
            i <= v.len(),
            forall|j: int| 0 <= j < i ==> !unicode_alphabetic(#[trigger] v@[j]),
        decreases v.len() - i,
    {
        if is_alphabetic(v[i]) {
            return true;
        }
        i = i + 1;
    }
    false
}

fn qualifies_token(kind: PiiKind, t: &Vec<char>) -> (b: bool)
    ensures
        b == qualifies(kind, t@),
{
    let len = utf8_len_upto_13(t);
    match kind {
        PiiKind::Email => contains_char(t, '@') && contains_char(t, '.') && len > 5,
        PiiKind::Phone => len >= 9,
        PiiKind::IcOrId => has_alphabetic(t) && count_digits(t) >= 6 && len <= 12,
    }
}

proof fn lemma_finding_views_push(v: Seq<PiiFinding>, f: PiiFinding)
    ensures
        finding_views(v.push(f)) == finding_views(v).push(f@),
{
    assert(finding_views(v.push(f)) =~= finding_views(v).push(f@));
}

/// Reports the current token if it qualifies, and empties it.
fn close_current(
    kind: PiiKind,
    cur: &mut Vec<char>,
    out: &mut Vec<PiiFinding>,
    Ghost(done): Ghost<Seq<Seq<char>>>,
    Ghost(base): Ghost<Seq<(Seq<char>, Seq<char>)>>,
)
    requires
        finding_views(old(out)@) == base + findings_of(kind, done),
    ensures
        final(cur)@ == Seq::<char>::empty(),
        finding_views(final(out)@) == base + findings_of(kind, close_token(done, old(cur)@)),
{
    if cur.len() > 0 {
        assert(close_token(done, cur@).drop_last() =~= done);
        if qualifies_token(kind, cur) {
            let f = PiiFinding { kind: label_of(kind), matched: string_of(cur) };
            proof {
                lemma_finding_views_push(out@, f);
            }
            out.push(f);
            assert(finding_views(out@) =~= base + findings_of(kind, close_token(done, old(cur)@)));
        }
    }
    *cur = Vec::new();
}

/// Appends the findings of one kind in `text`.
fn scan_kind(text: &Vec<char>, kind: PiiKind, out: &mut Vec<PiiFinding>)
    ensures
        finding_views(final(out)@) == finding_views(old(out)@) + findings_of(
            kind,
            tokens(text@, kind),
        ),
{
    let ghost base = finding_views(out@);
    let mut cur: Vec<char> = Vec::new();
    let mut i: usize = 0;
    assert(text@.take(0) =~= Seq::<char>::empty());
    assert(finding_views(out@) =~= base + findings_of(kind, Seq::empty()));
    while i < text.len()
        invariant
            i <= text.len(),
            cur@ == split_state(text@.take(i as int), kind).1,
            finding_views(out@) == base + findings_of(kind, split_state(text@.take(i as int), kind).0),
        decreases text.len() - i,
    {
        let ghost prefix = text@.take(i as int);
        assert(text@.take(i + 1).drop_last() =~= prefix);
        let c = text[i];
        if skips_char(kind, c) {
        } else if breaks_char(kind, c) {
            close_current(kind, &mut cur, out, Ghost(split_state(prefix, kind).0), Ghost(base));
        } else {
            cur.push(c);
        }
        i = i + 1;
    }
    assert(text@.take(i as int) =~= text@);
    close_current(kind, &mut cur, out, Ghost(split_state(text@, kind).0), Ghost(base));
}

/// Lightweight PII scan of free text, run before anything is published:
/// e-mail addresses, phone numbers and IC / id numbers.
pub fn scan_pii(text: &str) -> (out: Vec<PiiFinding>)
    ensures
        finding_views(out@) == pii_findings(text@),
{
    let chars = chars_of(text);
    let mut out: Vec<PiiFinding> = Vec::new();
    assert(finding_views(out@) =~= Seq::empty());
    scan_kind(&chars, PiiKind::Email, &mut out);
    scan_kind(&chars, PiiKind::Phone, &mut out);
    scan_kind(&chars, PiiKind::IcOrId, &mut out);
    assert(finding_views(out@) =~= pii_findings(text@));
    out
}

/// k-anonymity gate: a segment with fewer than `K_ANON` records is too small
/// to publish safely.
pub fn k_anonymity_ok(n: usize) -> (ok: bool)
    ensures
        ok == (n >= K_ANON),
{
    n >= K_ANON
}

/// The consent manifest an organisation supplies before its data is analysed:
/// purpose limitation and the segment grains it may be reported at.
#[derive(Clone)]
pub struct ConsentManifest {
    pub version: String,
    /// `impact_reporting` or `research`.
    pub purpose: String,
    pub granted_at: String,
    pub data_fields: Vec<String>,
    /// Segments that may be reported, such as `18-24|Youth Skills`; empty
    /// permits every segment.
    pub permitted_grains: Vec<String>,
}

impl Default for ConsentManifest {
    fn default() -> (c: Self)
        ensures
            c.version@ == Seq::<char>::empty(),
            c.purpose@ == Seq::<char>::empty(),
            c.granted_at@ == Seq::<char>::empty(),
            c.data_fields@ == Seq::<String>::empty(),
            c.permitted_grains@ == Seq::<String>::empty(),
    {
        ConsentManifest {
            version: String::new(),
            purpose: String::new(),
            granted_at: String::new(),
            data_fields: Vec::new(),
            permitted_grains: Vec::new(),
        }
    }
}

/// The purposes that consent can cover for publication.
pub open spec fn purpose_permitted(purpose: Seq<char>) -> bool {
    purpose == "impact_reporting"@ || purpose == "research"@
}

/// The segment is within the permitted grains (no grains: all segments).
pub open spec fn grain_permitted(grains: Seq<String>, segment: Seq<char>) -> bool {
    grains.len() == 0 || exists|i: int| 0 <= i < grains.len() && #[trigger] grains[i]@ == segment
}

/// Consent covers publishing this segment.
pub open spec fn consent_allows(consent: Option<ConsentManifest>, segment: Seq<char>) -> bool {
    match consent {
        None => false,
        Some(c) => purpose_permitted(c.purpose@) && grain_permitted(c.permitted_grains@, segment),
    }
}

/// Consent / purpose-limitation gate: consent must be granted for impact
/// reporting or research, and the segment must be a permitted grain.
pub fn consent_ok(consent: &Option<ConsentManifest>, segment: &str) -> (ok: bool)
    ensures
        ok == consent_allows(*consent, segment@),
{
    match consent {
        None => false,
        Some(c) => {
            let purpose_ok = text_eq(c.purpose.as_str(), "impact_reporting") || text_eq(
                c.purpose.as_str(),
                "research",
            );
            let mut grain_ok = c.permitted_grains.len() == 0;
            let mut i: usize = 0;
            while i < c.permitted_grains.len() && !grain_ok
                invariant
                    i <= c.permitted_grains.len(),
                    grain_ok ==> grain_permitted(c.permitted_grains@, segment@),
                    !grain_ok ==> c.permitted_grains.len() > 0 && forall|j: int|
                        0 <= j < i ==> #[trigger] c.permitted_grains@[j]@ != segment@,
                decreases c.permitted_grains.len() - i,
            {
                if text_eq(c.permitted_grains[i].as_str(), segment) {
                    grain_ok = true;
                }
                i = i + 1;
            }
            purpose_ok && grain_ok
        },
    }
}

/// The text put in place of every redacted identifier.
pub open spec fn redaction_mark() -> Seq<char> {
    "[REDACTED]"@
}

/// What a finding is redacted by: its trimmed match, and whether number
/// separators may stand between its characters. For a phone number they may,
/// so the number is redacted as it is written ("012-345 6789", or with a
/// JSON-escaped line break), not only as its digits. Quotes are matched as
/// written or as JSON escapes them (see `match_len`).
pub open spec fn redaction_target(f: (Seq<char>, Seq<char>)) -> (Seq<char>, bool) {
    (trim(f.1), f.0 == kind_label(PiiKind::Phone))
}

/// The text after redacting, one finding after another, every spelling of
/// its target, and whether any target was spelled when its turn came. Blank
/// targets are passed over.
pub open spec fn redaction(json: Seq<char>, findings: Seq<(Seq<char>, Seq<char>)>) -> (
    Seq<char>,
    bool,
)
    decreases findings.len(),
{
    if findings.len() == 0 {
        (json, false)
    } else {
        let prev = redaction(json, findings.drop_last());
        let t = redaction_target(findings.last());
        if t.0.len() > 0 && spelled_in(prev.0, t.0, t.1) {
            (replace_spelled(prev.0, t.0, t.1, redaction_mark()), true)
        } else {
            prev
        }
    }
}

/// Replaces every direct identifier with `[REDACTED]`: each finding's
/// trimmed match as it is written in the text, a phone number with any
/// separators between its digits. Returns the redacted text and whether
/// anything was found.
pub fn redact_pii(json: &str, findings: &[PiiFinding]) -> (res: (String, bool))
    ensures
        res.0@ == redaction(json@, finding_views(findings@)).0,
        res.1 == redaction(json@, finding_views(findings@)).1,
{
    let mut out = chars_of(json);
    let mark = chars_of("[REDACTED]");
    let mut found = false;
    let mut i: usize = 0;
    assert(finding_views(findings@).take(0) =~= Seq::<(Seq<char>, Seq<char>)>::empty());
    while i < findings.len()
        invariant
            i <= findings.len(),
            mark@ == redaction_mark(),
            (out@, found) == redaction(json@, finding_views(findings@).take(i as int)),
        decreases findings.len() - i,
    {
        let ghost views = finding_views(findings@);
        assert(views.take(i + 1).drop_last() =~= views.take(i as int));
        assert(views.take(i + 1).last() == findings@[i as int]@);
        let tok = trim_chars(&chars_of(findings[i].matched.as_str()));
        let gaps = text_eq(findings[i].kind.as_str(), "phone");
        if tok.len() > 0 && find_spelled(&out, &tok, gaps) {
            found = true;
            out = replace_spelled_text(&out, &tok, gaps, &mark);
        }
        i = i + 1;
    }
    assert(finding_views(findings@).take(i as int) =~= finding_views(findings@));
    (string_of(&out), found)
}

/// One GOVERN check result; `status` is `pass`, `warn` or `fail`.
#[derive(Clone)]
pub struct GovernCheck {
    pub id: String,
    pub name: String,
    pub status: String,
    pub detail: String,
}

impl View for GovernCheck {
    type V = (Seq<char>, Seq<char>, Seq<char>, Seq<char>);

    open spec fn view(&self) -> (Seq<char>, Seq<char>, Seq<char>, Seq<char>) {
        (self.id@, self.name@, self.status@, self.detail@)
    }
}

/// The PDPA-safe PrePublish verdict attached to every insight card.
#[derive(Clone)]
pub struct GovernReport {
    /// `allow` or `block`.
    pub verdict: String,
    pub segment_n: usize,
    pub k: usize,
    pub checks: Vec<GovernCheck>,
    /// The card with direct identifiers redacted; `None` when blocked.
    pub redacted_card: Option<String>,
    pub audit: Vec<String>,
}

impl GovernReport {
    /// A consistent report: the verdict is `allow` or `block`, a redacted card
    /// is exported exactly when the verdict is `allow`, k is `K_ANON`, and
    /// there is one result per check.
    pub open spec fn well_formed(&self) -> bool {
        &&& (self.verdict@ == "allow"@ || self.verdict@ == "block"@)
        &&& (self.redacted_card is Some <==> self.verdict@ == "allow"@)
        &&& self.k == K_ANON
        &&& self.checks@.len() == 3
    }
}

/// The views of a list of strings.
pub open spec fn texts(v: Seq<String>) -> Seq<Seq<char>> {
    v.map_values(|s: String| s@)
}

/// The views of a list of checks.
pub open spec fn check_views(v: Seq<GovernCheck>) -> Seq<(Seq<char>, Seq<char>, Seq<char>, Seq<char>)> {
    v.map_values(|c: GovernCheck| c@)
}

/// The kinds of a list of finding views.
pub open spec fn kinds_of(pii: Seq<(Seq<char>, Seq<char>)>) -> Seq<Seq<char>> {
    pii.map_values(|f: (Seq<char>, Seq<char>)| f.0)
}

/// Publication is blocked: the segment is below k, or consent does not cover it.
pub open spec fn govern_blocked(
    segment_n: nat,
    consent: Option<ConsentManifest>,
    segment: Seq<char>,
) -> bool {
    segment_n < K_ANON || !consent_allows(consent, segment)
}

pub open spec fn pass_or_fail(ok: bool) -> Seq<char> {
    if ok {
        "pass"@
    } else {
        "fail"@
    }
}

pub open spec fn k_anonymity_check(segment_n: nat) -> (Seq<char>, Seq<char>, Seq<char>, Seq<char>) {
    (
        "k_anonymity"@,
        "k-anonymity (segment size)"@,
        pass_or_fail(segment_n >= K_ANON),
        if segment_n >= K_ANON {
            "segment n="@ + decimal(segment_n) + " ≥ k="@ + decimal(K_ANON as nat)
                + " — safe to publish aggregated stats"@
        } else {
            "segment n="@ + decimal(segment_n) + " < k="@ + decimal(K_ANON as nat)
                + " — too few records, re-identification risk, publish blocked"@
        },
    )
}

pub open spec fn consent_detail(consent: Option<ConsentManifest>, segment: Seq<char>) -> Seq<char> {
    match consent {
        None => "no consent manifest supplied — purpose-limitation check failed, publish blocked"@,
        Some(c) => if consent_allows(consent, segment) {
            "consent v"@ + c.version@ + " granted "@ + c.granted_at@ + " for '"@ + c.purpose@
                + "' covers this segment grain"@
        } else {
            "consent present but purpose '"@ + c.purpose@
                + "' / grain not permitted for this segment — publish blocked"@
        },
    }
}

pub open spec fn consent_check(consent: Option<ConsentManifest>, segment: Seq<char>) -> (
    Seq<char>,
    Seq<char>,
    Seq<char>,
    Seq<char>,
) {
    (
        "consent"@,
        "Consent manifest"@,
        pass_or_fail(consent_allows(consent, segment)),
        consent_detail(consent, segment),
    )
}

pub open spec fn pii_check(pii: Seq<(Seq<char>, Seq<char>)>, found: bool) -> (
    Seq<char>,
    Seq<char>,
    Seq<char>,
    Seq<char>,
) {
    (
        "pii_redaction"@,
        "PII redaction"@,
        if found {
            "warn"@
        } else {
            "pass"@
        },
        if found {
            decimal(pii.len()) + " direct identifier(s) found and redacted in the export: "@ + join(
                kinds_of(pii),
                ", "@,
            )
        } else {
            "no direct identifiers in published text"@
        },
    )
}

/// The findings of the scan text, and the redaction of the card by them.
pub open spec fn card_redaction(card_json: Seq<char>, scan_text: Seq<char>) -> (Seq<char>, bool) {
    redaction(card_json, pii_findings(scan_text))
}

/// The three checks, in order: k-anonymity, consent, PII redaction.
pub open spec fn govern_checks(
    segment: Seq<char>,
    card_json: Seq<char>,
    segment_n: nat,
    consent: Option<ConsentManifest>,
    scan_text: Seq<char>,
) -> Seq<(Seq<char>, Seq<char>, Seq<char>, Seq<char>)> {
    seq![
        k_anonymity_check(segment_n),
        consent_check(consent, segment),
        pii_check(pii_findings(scan_text), card_redaction(card_json, scan_text).1),
    ]
}

pub open spec fn verdict_label(blocked: bool) -> Seq<char> {
    if blocked {
        "block"@
    } else {
        "allow"@
    }
}

pub open spec fn audit_check_line(c: (Seq<char>, Seq<char>, Seq<char>, Seq<char>)) -> Seq<char> {
    "  - "@ + c.1 + " ["@ + c.2 + "]: "@ + c.3
}

pub open spec fn audit_redaction_line(f: (Seq<char>, Seq<char>)) -> Seq<char> {
    "  - REDACTED "@ + f.0 + ": "@ + f.1
}

pub open spec fn audit_check_lines(cs: Seq<(Seq<char>, Seq<char>, Seq<char>, Seq<char>)>) -> Seq<
    Seq<char>,
> {
    cs.map_values(|c: (Seq<char>, Seq<char>, Seq<char>, Seq<char>)| audit_check_line(c))
}

pub open spec fn audit_redaction_lines(pii: Seq<(Seq<char>, Seq<char>)>) -> Seq<Seq<char>> {
    pii.map_values(|f: (Seq<char>, Seq<char>)| audit_redaction_line(f))
}

/// The audit trail: the verdict, one line per check, and one line per
/// finding when anything was redacted.
pub open spec fn govern_audit(
    segment: Seq<char>,
    card_json: Seq<char>,
    segment_n: nat,
    consent: Option<ConsentManifest>,
    scan_text: Seq<char>,
) -> Seq<Seq<char>> {
    seq!["GOVERN PrePublish verdict="@ + verdict_label(govern_blocked(segment_n, consent, segment))]
        + audit_check_lines(govern_checks(segment, card_json, segment_n, consent, scan_text))
        + if card_redaction(card_json, scan_text).1 {
        audit_redaction_lines(pii_findings(scan_text))
    } else {
        Seq::empty()
    }
}

fn text(s: &str) -> (r: String)
    ensures
        r@ == s@,
{
    String::from_str(s)
}

fn check_line(c: &GovernCheck) -> (r: String)
    ensures
        r@ == audit_check_line(c@),
{
    let mut r = text("  - ");
    push_text(&mut r, c.name.as_str());
    push_text(&mut r, " [");
    push_text(&mut r, c.status.as_str());
    push_text(&mut r, "]: ");
    push_text(&mut r, c.detail.as_str());
    r
}

fn k_check(segment_n: usize) -> (c: GovernCheck)
    ensures
        c@ == k_anonymity_check(segment_n as nat),
{
    let ok = k_anonymity_ok(segment_n);
    let mut detail = text("segment n=");
    push_usize(&mut detail, segment_n);
    if ok {
        push_text(&mut detail, " ≥ k=");
        push_usize(&mut detail, K_ANON);
        push_text(&mut detail, " — safe to publish aggregated stats");
    } else {
        push_text(&mut detail, " < k=");
        push_usize(&mut detail, K_ANON);
        push_text(&mut detail, " — too few records, re-identification risk, publish blocked");
    }
    GovernCheck {
        id: text("k_anonymity"),
        name: text("k-anonymity (segment size)"),
        status: if ok {
            text("pass")
        } else {
            text("fail")
        },
        detail,
    }
}

fn consent_check_of(consent: &Option<ConsentManifest>, segment: &str) -> (c: GovernCheck)
    ensures
        c@ == consent_check(*consent, segment@),
{
    let ok = consent_ok(consent, segment);
    let detail = match consent {
        None => text(
            "no consent manifest supplied — purpose-limitation check failed, publish blocked",
        ),
        Some(m) => {
            if ok {
                let mut d = text("consent v");
                push_text(&mut d, m.version.as_str());
                push_text(&mut d, " granted ");
                push_text(&mut d, m.granted_at.as_str());
                push_text(&mut d, " for '");
                push_text(&mut d, m.purpose.as_str());
                push_text(&mut d, "' covers this segment grain");
                d
            } else {
                let mut d = text("consent present but purpose '");
                push_text(&mut d, m.purpose.as_str());
                push_text(&mut d, "' / grain not permitted for this segment — publish blocked");
                d
            }
        },
    };
    GovernCheck {
        id: text("consent"),
        name: text("Consent manifest"),
        status: if ok {
            text("pass")
        } else {
            text("fail")
        },
        detail,
    }
}

fn pii_check_of(pii: &Vec<PiiFinding>, found: bool) -> (c: GovernCheck)
    ensures
        c@ == pii_check(finding_views(pii@), found),
{
    let detail = if found {
        let mut d = String::new();
        push_usize(&mut d, pii.len());
        push_text(&mut d, " direct identifier(s) found and redacted in the export: ");
        let ghost start = d@;
        let mut i: usize = 0;
        while i < pii.len()
            invariant
                i <= pii.len(),
                d@ == start + join(kinds_of(finding_views(pii@)).take(i as int), ", "@),
            decreases pii.len() - i,
        {
            let ghost ks = kinds_of(finding_views(pii@));
            assert(ks.take(i + 1).drop_last() =~= ks.take(i as int));
            assert(ks.take(i + 1).last() == pii@[i as int].kind@);
            if i > 0 {
                push_text(&mut d, ", ");
            }
            push_text(&mut d, pii[i].kind.as_str());
            i = i + 1;
            assert(d@ =~= start + join(ks.take(i as int), ", "@));
        }
        assert(kinds_of(finding_views(pii@)).take(i as int) =~= kinds_of(finding_views(pii@)));
        d
    } else {
        text("no direct identifiers in published text")
    };
    GovernCheck {
        id: text("pii_redaction"),
        name: text("PII redaction"),
        status: if found {
            text("warn")
        } else {
            text("pass")
        },
        detail,
    }
}

/// Builds the PrePublish GOVERN report for a card: k-anonymity, consent and
/// PII redaction. `card_json` is the card as it would be published and
/// `scan_text` all of its free text, in which identifiers are looked for.
pub fn compute_govern(
    segment: &str,
    card_json: &str,
    segment_n: usize,
    consent: &Option<ConsentManifest>,
    scan_text: &str,
) -> (r: GovernReport)
    ensures
        r.verdict@ == verdict_label(govern_blocked(segment_n as nat, *consent, segment@)),
        r.segment_n == segment_n,
        r.k == K_ANON,
        check_views(r.checks@) == govern_checks(
            segment@,
            card_json@,
            segment_n as nat,
            *consent,
            scan_text@,
        ),
        r.redacted_card is None <==> govern_blocked(segment_n as nat, *consent, segment@),
        r.redacted_card matches Some(card) ==> card@ == card_redaction(card_json@, scan_text@).0,
        texts(r.audit@) == govern_audit(segment@, card_json@, segment_n as nat, *consent, scan_text@),
        r.well_formed(),
        (r.verdict@ == "block"@) == (segment_n < K_ANON || !consent_allows(*consent, segment@)),
        (r.verdict@ == "block"@) == (r.checks@[0].status@ == "fail"@ || r.checks@[1].status@
            == "fail"@),
{
    let pii = scan_pii(scan_text);
    let k_ok = k_anonymity_ok(segment_n);
    let c_ok = consent_ok(consent, segment);
    let (redacted, pii_found) = redact_pii(card_json, pii.as_slice());

    let mut checks: Vec<GovernCheck> = Vec::new();
    checks.push(k_check(segment_n));
    checks.push(consent_check_of(consent, segment));
    checks.push(pii_check_of(&pii, pii_found));
    let ghost expected = govern_checks(segment@, card_json@, segment_n as nat, *consent, scan_text@);
    assert(check_views(checks@) =~= expected);

    let blocked = !k_ok || !c_ok;
    let verdict = if blocked {
        text("block")
    } else {
        text("allow")
    };

    let mut audit: Vec<String> = Vec::new();
    let mut head = text("GOVERN PrePublish verdict=");
    push_text(&mut head, verdict.as_str());
    audit.push(head);
    let mut i: usize = 0;
    while i < checks.len()
        invariant
            i <= checks.len(),
            checks.len() == 3,
            check_views(checks@) == expected,
            texts(audit@) == seq![
                "GOVERN PrePublish verdict="@ + verdict_label(
                    govern_blocked(segment_n as nat, *consent, segment@),
                ),
            ] + audit_check_lines(expected.take(i as int)),
        decreases checks.len() - i,
    {
        assert(checks@[i as int]@ == expected[i as int]);
        let line = check_line(&checks[i]);
        let ghost prev = texts(audit@);
        audit.push(line);
        assert(texts(audit@) =~= prev.push(line@));
        assert(audit_check_lines(expected.take(i + 1)) =~= audit_check_lines(
            expected.take(i as int),
        ).push(audit_check_line(expected[i as int])));
        i = i + 1;
    }
    assert(expected.take(3) =~= expected);
    let ghost before = texts(audit@);
    if pii_found {
        let mut j: usize = 0;
        while j < pii.len()
            invariant
                j <= pii.len(),
                finding_views(pii@) == pii_findings(scan_text@),
                texts(audit@) == before + audit_redaction_lines(pii_findings(scan_text@).take(j as int)),
            decreases pii.len() - j,
        {
            let mut line = text("  - REDACTED ");
            push_text(&mut line, pii[j].kind.as_str());
            push_text(&mut line, ": ");
            push_text(&mut line, pii[j].matched.as_str());
            assert(pii_findings(scan_text@)[j as int] == pii@[j as int]@);
            let ghost prev = texts(audit@);
            audit.push(line);
            assert(texts(audit@) =~= prev.push(line@));
            assert(audit_redaction_lines(pii_findings(scan_text@).take(j + 1)) =~= audit_redaction_lines(
                pii_findings(scan_text@).take(j as int),
            ).push(audit_redaction_line(pii_findings(scan_text@)[j as int])));
            j = j + 1;
        }
        assert(pii_findings(scan_text@).take(j as int) =~= pii_findings(scan_text@));
    } else {
        assert(texts(audit@) =~= before + Seq::<Seq<char>>::empty());
    }

    proof {
        reveal_strlit("allow");
        reveal_strlit("block");
        assert("allow"@[0] != "block"@[0]);
        law_verdict_follows_checks(segment@, card_json@, segment_n as nat, *consent, scan_text@);
        assert(checks@[0]@ == expected[0]);
        assert(checks@[1]@ == expected[1]);
    }
    GovernReport {
        verdict,
        segment_n,
        k: K_ANON,
        checks,
        redacted_card: if blocked {
            None
        } else {
            Some(redacted)
        },
        audit,
    }
}

/// A segment that passes the k-anonymity gate still passes it with more
/// records.
pub proof fn law_k_anonymity_monotone(n: usize, m: usize)
    requires
        n <= m,
        n >= K_ANON,
    ensures
        m >= K_ANON,
{
}

/// Without a consent manifest nothing is published, whatever the segment.
pub proof fn law_no_consent_blocks(segment_n: nat, segment: Seq<char>)
    ensures
        govern_blocked(segment_n, None, segment),
{
}

/// A manifest with no permitted grains covers every segment, provided its
/// purpose is impact reporting or research.
pub proof fn law_empty_grains_cover_all(c: ConsentManifest, segment: Seq<char>)
    requires
        c.permitted_grains@.len() == 0,
    ensures
        consent_allows(Some(c), segment) == purpose_permitted(c.purpose@),
{
}

/// PII findings warn but never block: the verdict depends only on the
/// segment size and the consent.
pub proof fn law_pii_never_blocks(
    segment: Seq<char>,
    segment_n: nat,
    consent: Option<ConsentManifest>,
    card_a: Seq<char>,
    scan_a: Seq<char>,
    card_b: Seq<char>,
    scan_b: Seq<char>,
)
    ensures
        govern_audit(segment, card_a, segment_n, consent, scan_a)[0] == govern_audit(
            segment,
            card_b,
            segment_n,
            consent,
            scan_b,
        )[0],
        govern_checks(segment, card_a, segment_n, consent, scan_a).take(2) == govern_checks(
            segment,
            card_b,
            segment_n,
            consent,
            scan_b,
        ).take(2),
{
    assert(govern_checks(segment, card_a, segment_n, consent, scan_a).take(2) =~= govern_checks(
        segment,
        card_b,
        segment_n,
        consent,
        scan_b,
    ).take(2));
}

/// When no identifier occurs, redaction leaves the card exactly as it was.
pub proof fn law_nothing_found_nothing_changed(
    json: Seq<char>,
    findings: Seq<(Seq<char>, Seq<char>)>,
)
    ensures
        !redaction(json, findings).1 ==> redaction(json, findings).0 == json,
    decreases findings.len(),
{
    if findings.len() > 0 {
        law_nothing_found_nothing_changed(json, findings.drop_last());
    }
}

/// The redacted text carries none of the identifiers it was redacted for:
/// after redaction no target that cannot reach into `[REDACTED]` is spelled
/// in it, whether it was found or not, and later redactions never bring an
/// earlier one back.
pub proof fn law_redacted_text_is_clean(
    json: Seq<char>,
    findings: Seq<(Seq<char>, Seq<char>)>,
    i: int,
)
    requires
        0 <= i < findings.len(),
        apart_from(
            redaction_target(findings[i]).0,
            redaction_target(findings[i]).1,
            redaction_mark(),
        ),
    ensures
        !spelled_in(
            redaction(json, findings).0,
            redaction_target(findings[i]).0,
            redaction_target(findings[i]).1,
        ),
    decreases findings.len(),
{
    let init = findings.drop_last();
    let prev = redaction(json, init);
    let t = redaction_target(findings.last());
    let p = redaction_target(findings[i]);
    if i < findings.len() - 1 {
        assert(init[i] == findings[i]);
        law_redacted_text_is_clean(json, init, i);
    }
    if t.0.len() > 0 && spelled_in(prev.0, t.0, t.1) {
        lemma_replace_no_new_spelling(prev.0, t.0, t.1, redaction_mark(), p.0, p.1);
    }
}

proof fn lemma_mark_facts()
    ensures
        redaction_mark().len() == 10,
        redaction_mark()[0] == '[',
        redaction_mark().last() == ']',
        forall|j: int| 0 <= j < redaction_mark().len() ==> !is_ascii_digit(#[trigger] redaction_mark()[j]),
{
    reveal_strlit("[REDACTED]");
}

proof fn lemma_phone_target_apart(d: Seq<char>)
    requires
        d.len() > 0,
        forall|k: int| 0 <= k < d.len() ==> is_ascii_digit(#[trigger] d[k]),
    ensures
        trim(d) == d,
        apart_from(d, true, redaction_mark()),
{
    lemma_mark_facts();
    let m = redaction_mark();
    assert(!is_ascii_digit(d.last()) || !unicode_whitespace(d.last()));
    assert(!unicode_whitespace(d[0]));
    assert(!unicode_whitespace(d.last()));
    assert(trim(d) == d);
    assert(!d.contains(m[0]));
    assert(!d.contains(m.last()));
    assert forall|i: int| !spelled_at(m, d, true, i) by {
        if 0 <= i < m.len() {
            assert(m.skip(i)[0] == m[i]);
            assert(!is_ascii_digit(m[i]));
        }
        if i == m.len() {
            assert(m.skip(i).len() == 0);
        }
    }
}

/// Whether the finding at index `i` of a scan is a phone number.
pub open spec fn is_phone_finding(f: (Seq<char>, Seq<char>)) -> bool {
    f.0 == kind_label(PiiKind::Phone)
}

proof fn lemma_phone_finding_digits(text: Seq<char>, i: int)
    requires
        0 <= i < pii_findings(text).len(),
        is_phone_finding(pii_findings(text)[i]),
    ensures
        pii_findings(text)[i].1.len() > 0,
        forall|k: int|
            0 <= k < pii_findings(text)[i].1.len() ==> is_ascii_digit(
                #[trigger] pii_findings(text)[i].1[k],
            ),
{
    reveal_strlit("email");
    reveal_strlit("phone");
    reveal_strlit("ic_or_id");
    assert("email"@[0] != "phone"@[0]);
    assert("ic_or_id"@[0] != "phone"@[0]);
    let e = findings_of(PiiKind::Email, tokens(text, PiiKind::Email));
    let ph = findings_of(PiiKind::Phone, tokens(text, PiiKind::Phone));
    let f = pii_findings(text)[i];
    if i < e.len() {
        lemma_findings_of_sound(PiiKind::Email, tokens(text, PiiKind::Email), i);
        assert(f == e[i]);
    } else if i < e.len() + ph.len() {
        lemma_findings_of_sound(PiiKind::Phone, tokens(text, PiiKind::Phone), i - e.len());
        assert(f == ph[i - e.len()]);
        assert forall|k: int| 0 <= k < f.1.len() implies is_ascii_digit(#[trigger] f.1[k]) by {
            law_phone_findings_are_digits(text, f.1, k);
        }
        if f.1.len() == 0 {
            assert(utf8_len(f.1) == 0);
        }
    } else {
        let d = findings_of(PiiKind::IcOrId, tokens(text, PiiKind::IcOrId));
        lemma_findings_of_sound(PiiKind::IcOrId, tokens(text, PiiKind::IcOrId), i - e.len() - ph.len());
        assert(f == d[i - e.len() - ph.len()]);
    }
}

/// A card GOVERN lets through carries none of the identifiers found in its
/// text as they are written in it: no phone number found, with or without
/// separators between its digits, and no other identifier that cannot reach
/// into `[REDACTED]`.
pub proof fn law_published_card_is_clean(card_json: Seq<char>, scan_text: Seq<char>, i: int)
    requires
        0 <= i < pii_findings(scan_text).len(),
    ensures
        is_phone_finding(pii_findings(scan_text)[i]) ==> !spelled_in(
            card_redaction(card_json, scan_text).0,
            pii_findings(scan_text)[i].1,
            true,
        ),
        apart_from(trim(pii_findings(scan_text)[i].1), false, redaction_mark())
            && !is_phone_finding(pii_findings(scan_text)[i]) ==> !spelled_in(
            card_redaction(card_json, scan_text).0,
            trim(pii_findings(scan_text)[i].1),
            false,
        ),
{
    let f = pii_findings(scan_text)[i];
    if is_phone_finding(f) {
        lemma_phone_finding_digits(scan_text, i);
        lemma_phone_target_apart(f.1);
        law_redacted_text_is_clean(card_json, pii_findings(scan_text), i);
    } else if apart_from(trim(f.1), false, redaction_mark()) {
        law_redacted_text_is_clean(card_json, pii_findings(scan_text), i);
    }
}

/// Something is reported found exactly when some finding's target is spelled
/// in the original text.
pub proof fn law_found_iff_spelled_in_original(
    json: Seq<char>,
    findings: Seq<(Seq<char>, Seq<char>)>,
)
    ensures
        redaction(json, findings).1 <==> exists|i: int|
            0 <= i < findings.len() && redaction_target(#[trigger] findings[i]).0.len() > 0
                && spelled_in(json, redaction_target(findings[i]).0, redaction_target(findings[i]).1),
    decreases findings.len(),
{
    if findings.len() > 0 {
        let init = findings.drop_last();
        law_found_iff_spelled_in_original(json, init);
        law_nothing_found_nothing_changed(json, init);
        let n = findings.len() - 1;
        let prev = redaction(json, init);
        if prev.1 {
            let i = choose|i: int|
                0 <= i < init.len() && redaction_target(#[trigger] init[i]).0.len() > 0 && spelled_in(
                    json,
                    redaction_target(init[i]).0,
                    redaction_target(init[i]).1,
                );
            assert(findings[i] == init[i]);
        } else {
            assert(findings[n] == findings.last());
            if exists|i: int|
                0 <= i < findings.len() && redaction_target(#[trigger] findings[i]).0.len() > 0
                    && spelled_in(json, redaction_target(findings[i]).0, redaction_target(findings[i]).1) {
                let i = choose|i: int|
                    0 <= i < findings.len() && redaction_target(#[trigger] findings[i]).0.len() > 0
                        && spelled_in(
                        json,
                        redaction_target(findings[i]).0,
                        redaction_target(findings[i]).1,
                    );
                if i < n {
                    assert(init[i] == findings[i]);
                }
            }
        }
    }
}

/// Redacting an already redacted text finds nothing and changes nothing,
/// when every target cannot reach into `[REDACTED]`.
pub proof fn law_redaction_settles(json: Seq<char>, findings: Seq<(Seq<char>, Seq<char>)>)
    requires
        forall|i: int|
            0 <= i < findings.len() ==> apart_from(
                redaction_target(#[trigger] findings[i]).0,
                redaction_target(findings[i]).1,
                redaction_mark(),
            ),
    ensures
        redaction(redaction(json, findings).0, findings) == (redaction(json, findings).0, false),
{
    let out = redaction(json, findings).0;
    law_found_iff_spelled_in_original(out, findings);
    if redaction(out, findings).1 {
        let i = choose|i: int|
            0 <= i < findings.len() && redaction_target(#[trigger] findings[i]).0.len() > 0
                && spelled_in(out, redaction_target(findings[i]).0, redaction_target(findings[i]).1);
        law_redacted_text_is_clean(json, findings, i);
    }
    law_nothing_found_nothing_changed(out, findings);
}

proof fn lemma_token_chars_in_text(s: Seq<char>, kind: PiiKind)
    ensures
        forall|j: int, k: int|
            0 <= j < split_state(s, kind).0.len() && 0 <= k < split_state(s, kind).0[j].len()
                ==> s.contains(#[trigger] split_state(s, kind).0[j][k]),
        forall|k: int|
            0 <= k < split_state(s, kind).1.len() ==> s.contains(#[trigger] split_state(s, kind).1[k]),
    decreases s.len(),
{
    if s.len() > 0 {
        let init = s.drop_last();
        lemma_token_chars_in_text(init, kind);
        let prev = split_state(init, kind);
        let c = s.last();
        assert forall|x: char| init.contains(x) implies s.contains(x) by {
            let m = choose|m: int| 0 <= m < init.len() && init[m] == x;
            assert(s[m] == x);
        }
        assert(s[s.len() - 1] == c);
        if !skips(kind, c) && breaks(kind, c) {
            let done = close_token(prev.0, prev.1);
            assert forall|j: int, k: int| 0 <= j < done.len() && 0 <= k < done[j].len() implies s.contains(
                #[trigger] done[j][k],
            ) by {
                if j < prev.0.len() {
                    assert(done[j] == prev.0[j]);
                    assert(init.contains(prev.0[j][k]));
                } else {
                    assert(done[j] == prev.1);
                    assert(init.contains(prev.1[k]));
                }
            }
        } else if !skips(kind, c) {
            let cur = prev.1.push(c);
            assert forall|k: int| 0 <= k < cur.len() implies s.contains(#[trigger] cur[k]) by {
                if k < prev.1.len() {
                    assert(cur[k] == prev.1[k]);
                    assert(init.contains(prev.1[k]));
                }
            }
        }
    }
}

proof fn lemma_digit_count_has_digit(t: Seq<char>)
    requires
        digit_count(t) > 0,
    ensures
        exists|k: int| 0 <= k < t.len() && is_ascii_digit(#[trigger] t[k]),
    decreases t.len(),
{
    if is_ascii_digit(t.last()) {
        assert(is_ascii_digit(t[t.len() - 1]));
    } else {
        lemma_digit_count_has_digit(t.drop_last());
        let k = choose|k: int| 0 <= k < t.drop_last().len() && is_ascii_digit(#[trigger] t.drop_last()[k]);
        assert(t[k] == t.drop_last()[k]);
    }
}

proof fn lemma_no_qualifying_no_findings(kind: PiiKind, toks: Seq<Seq<char>>)
    requires
        forall|j: int| 0 <= j < toks.len() ==> !qualifies(kind, #[trigger] toks[j]),
    ensures
        findings_of(kind, toks).len() == 0,
    decreases toks.len(),
{
    if toks.len() > 0 {
        assert(toks[toks.len() - 1] == toks.last());
        assert forall|j: int| 0 <= j < toks.drop_last().len() implies !qualifies(
            kind,
            #[trigger] toks.drop_last()[j],
        ) by {
            assert(toks.drop_last()[j] == toks[j]);
        }
        lemma_no_qualifying_no_findings(kind, toks.drop_last());
    }
}

proof fn lemma_tokens_chars(s: Seq<char>, kind: PiiKind, j: int, k: int)
    requires
        0 <= j < tokens(s, kind).len(),
        0 <= k < tokens(s, kind)[j].len(),
    ensures
        s.contains(tokens(s, kind)[j][k]),
{
    lemma_token_chars_in_text(s, kind);
    let st = split_state(s, kind);
    if j < st.0.len() {
        assert(tokens(s, kind)[j] == st.0[j]);
    } else {
        assert(tokens(s, kind)[j] == st.1);
    }
}

/// A text with no `@` and no ASCII digit holds no identifier: every e-mail
/// has an `@`, and phone and id numbers have digits.
pub proof fn law_no_at_no_digit_no_findings(text: Seq<char>)
    requires
        !text.contains('@'),
        forall|k: int| 0 <= k < text.len() ==> !is_ascii_digit(#[trigger] text[k]),
    ensures
        pii_findings(text).len() == 0,
{
    let te = tokens(text, PiiKind::Email);
    assert forall|j: int| 0 <= j < te.len() implies !qualifies(PiiKind::Email, #[trigger] te[j]) by {
        if te[j].contains('@') {
            let k = choose|k: int| 0 <= k < te[j].len() && te[j][k] == '@';
            lemma_tokens_chars(text, PiiKind::Email, j, k);
        }
    }
    lemma_no_qualifying_no_findings(PiiKind::Email, te);
    let tp = tokens(text, PiiKind::Phone);
    assert forall|j: int| 0 <= j < tp.len() implies !qualifies(PiiKind::Phone, #[trigger] tp[j]) by {
        if tp[j].len() > 0 {
            law_phone_findings_are_digits(text, tp[j], 0);
            lemma_tokens_chars(text, PiiKind::Phone, j, 0);
            let m = choose|m: int| 0 <= m < text.len() && text[m] == tp[j][0];
        }
    }
    lemma_no_qualifying_no_findings(PiiKind::Phone, tp);
    let ti = tokens(text, PiiKind::IcOrId);
    assert forall|j: int| 0 <= j < ti.len() implies !qualifies(PiiKind::IcOrId, #[trigger] ti[j]) by {
        if digit_count(ti[j]) > 0 {
            lemma_digit_count_has_digit(ti[j]);
            let k = choose|k: int| 0 <= k < ti[j].len() && is_ascii_digit(#[trigger] ti[j][k]);
            lemma_tokens_chars(text, PiiKind::IcOrId, j, k);
            let m = choose|m: int| 0 <= m < text.len() && text[m] == ti[j][k];
        }
    }
    lemma_no_qualifying_no_findings(PiiKind::IcOrId, ti);
}

proof fn lemma_split_extend_run(x: Seq<char>, e: Seq<char>, kind: PiiKind)
    requires
        forall|k: int| 0 <= k < e.len() ==> !skips(kind, #[trigger] e[k]) && !breaks(kind, e[k]),
    ensures
        split_state(x + e, kind).0 == split_state(x, kind).0,
        split_state(x + e, kind).1 == split_state(x, kind).1 + e,
    decreases e.len(),
{
    if e.len() == 0 {
        assert(x + e =~= x);
        assert(split_state(x, kind).1 + e =~= split_state(x, kind).1);
    } else {
        let e0 = e.drop_last();
        assert forall|k: int| 0 <= k < e0.len() implies !skips(kind, #[trigger] e0[k]) && !breaks(
            kind,
            e0[k],
        ) by {
            assert(e0[k] == e[k]);
        }
        lemma_split_extend_run(x, e0, kind);
        assert((x + e).drop_last() =~= x + e0);
        assert((x + e).last() == e[e.len() - 1]);
        assert(split_state(x, kind).1 + e0.push(e.last()) =~= split_state(x, kind).1 + e);
        assert(e0.push(e.last()) =~= e);
    }
}

proof fn lemma_done_tokens_kept(x: Seq<char>, y: Seq<char>, kind: PiiKind, t: Seq<char>)
    requires
        split_state(x, kind).0.contains(t),
    ensures
        split_state(x + y, kind).0.contains(t),
    decreases y.len(),
{
    if y.len() == 0 {
        assert(x + y =~= x);
    } else {
        lemma_done_tokens_kept(x, y.drop_last(), kind, t);
        assert((x + y).drop_last() =~= x + y.drop_last());
        let prev = split_state(x + y.drop_last(), kind);
        let j = choose|j: int| 0 <= j < prev.0.len() && prev.0[j] == t;
        let done = close_token(prev.0, prev.1);
        assert(done[j] == prev.0[j]);
    }
}

proof fn lemma_findings_of_complete(kind: PiiKind, toks: Seq<Seq<char>>, t: Seq<char>)
    requires
        toks.contains(t),
        qualifies(kind, t),
    ensures
        findings_of(kind, toks).contains((kind_label(kind), t)),
    decreases toks.len(),
{
    let j = choose|j: int| 0 <= j < toks.len() && toks[j] == t;
    let prev = findings_of(kind, toks.drop_last());
    if j == toks.len() - 1 {
        assert(findings_of(kind, toks) == prev.push((kind_label(kind), t)));
        assert(findings_of(kind, toks)[prev.len() as int] == (kind_label(kind), t));
    } else {
        assert(toks.drop_last()[j] == t);
        lemma_findings_of_complete(kind, toks.drop_last(), t);
        let m = choose|m: int| 0 <= m < prev.len() && prev[m] == (kind_label(kind), t);
        let cur = findings_of(kind, toks);
        if qualifies(kind, toks.last()) {
            assert(cur[m] == prev[m]);
        }
    }
}

/// Every e-mail address in a text is reported: a maximal run of letters,
/// digits, `@`, `.`, `-` and `_` (nothing of that kind right before or
/// after it) that holds `@` and `.` and is over 5 bytes long is an `email`
/// finding. In particular `-` and `_` never end an address.
pub proof fn law_email_runs_are_reported(a: Seq<char>, e: Seq<char>, b: Seq<char>)
    requires
        forall|k: int|
            0 <= k < e.len() ==> unicode_alphanumeric(#[trigger] e[k]) || e[k] == '@' || e[k] == '.'
                || e[k] == '-' || e[k] == '_',
        a.len() > 0 ==> !(unicode_alphanumeric(a.last()) || a.last() == '@' || a.last() == '.'
            || a.last() == '-' || a.last() == '_'),
        b.len() > 0 ==> !(unicode_alphanumeric(b[0]) || b[0] == '@' || b[0] == '.' || b[0] == '-'
            || b[0] == '_'),
        e.contains('@'),
        e.contains('.'),
        vstd::utf8::encode_utf8(e).len() > 5,
    ensures
        pii_findings(a + e + b).contains(("email"@, e)),
{
    let kind = PiiKind::Email;
    let text = a + e + b;
    assert forall|k: int| 0 <= k < e.len() implies !skips(kind, #[trigger] e[k]) && !breaks(
        kind,
        e[k],
    ) by {}
    if a.len() > 0 {
        assert(a.drop_last().push(a.last()) =~= a);
    }
    assert(split_state(a, kind).1 =~= Seq::<char>::empty());
    lemma_split_extend_run(a, e, kind);
    let d = split_state(a, kind).0;
    assert(split_state(a + e, kind).1 =~= e);
    let j = choose|j: int| 0 <= j < e.len() && e[j] == '@';
    assert(e.len() > 0);
    if b.len() == 0 {
        assert(text =~= a + e);
        assert(tokens(text, kind) == d.push(e));
        assert(tokens(text, kind)[d.len() as int] == e);
    } else {
        let ae1 = a + e + seq![b[0]];
        assert(ae1.drop_last() =~= a + e);
        assert(ae1.last() == b[0]);
        assert(split_state(ae1, kind).0 == d.push(e));
        assert(d.push(e)[d.len() as int] == e);
        lemma_done_tokens_kept(ae1, b.drop_first(), kind, e);
        assert(ae1 + b.drop_first() =~= text);
        let st = split_state(text, kind);
        let m = choose|m: int| 0 <= m < st.0.len() && st.0[m] == e;
        assert(tokens(text, kind)[m] == e);
    }
    lemma_utf8_len_is_encoded_len(e);
    lemma_findings_of_complete(kind, tokens(text, kind), e);
    let ef = findings_of(kind, tokens(text, kind));
    let m = choose|m: int| 0 <= m < ef.len() && ef[m] == (kind_label(kind), e);
    assert(pii_findings(text)[m] == ef[m]);
}

/// The ASCII digits of a text, in order.
pub open spec fn ascii_digits_of(w: Seq<char>) -> Seq<char>
    decreases w.len(),
{
    if w.len() == 0 {
        Seq::empty()
    } else if '0' <= w.last() && w.last() <= '9' {
        ascii_digits_of(w.drop_last()).push(w.last())
    } else {
        ascii_digits_of(w.drop_last())
    }
}

proof fn lemma_split_extend_number(x: Seq<char>, w: Seq<char>)
    requires
        forall|k: int|
            0 <= k < w.len() ==> ('0' <= #[trigger] w[k] && w[k] <= '9') || unicode_whitespace(w[k])
                || w[k] == '-' || w[k] == '(' || w[k] == ')',
    ensures
        split_state(x + w, PiiKind::Phone).0 == split_state(x, PiiKind::Phone).0,
        split_state(x + w, PiiKind::Phone).1 == split_state(x, PiiKind::Phone).1 + ascii_digits_of(w),
    decreases w.len(),
{
    if w.len() == 0 {
        assert(x + w =~= x);
        assert(ascii_digits_of(w) =~= Seq::<char>::empty());
        assert(split_state(x, PiiKind::Phone).1 + ascii_digits_of(w) =~= split_state(x, PiiKind::Phone).1);
    } else {
        let w0 = w.drop_last();
        assert forall|k: int| 0 <= k < w0.len() implies ('0' <= #[trigger] w0[k] && w0[k] <= '9')
            || unicode_whitespace(w0[k]) || w0[k] == '-' || w0[k] == '(' || w0[k] == ')' by {
            assert(w0[k] == w[k]);
        }
        lemma_split_extend_number(x, w0);
        assert((x + w).drop_last() =~= x + w0);
        assert((x + w).last() == w[w.len() - 1]);
        let c = w.last();
        if '0' <= c && c <= '9' {
            assert(split_state(x, PiiKind::Phone).1 + ascii_digits_of(w0).push(c) =~= (split_state(
                x,
                PiiKind::Phone,
            ).1 + ascii_digits_of(w0)).push(c));
        }
    }
}

proof fn lemma_utf8_len_at_least_len(s: Seq<char>)
    ensures
        utf8_len(s) >= s.len(),
    decreases s.len(),
{
    if s.len() > 0 {
        lemma_utf8_len_at_least_len(s.drop_last());
    }
}

/// Every phone number in a text is reported: a stretch of digits, spaces,
/// dashes and parentheses with nothing of that kind right before or after
/// it, holding at least nine digits, is a `phone` finding whose match is its
/// digits.
#[verifier::rlimit(50)]
pub proof fn law_phone_numbers_are_reported(a: Seq<char>, w: Seq<char>, b: Seq<char>)
    requires
        forall|k: int|
            0 <= k < w.len() ==> ('0' <= #[trigger] w[k] && w[k] <= '9') || unicode_whitespace(w[k])
                || w[k] == '-' || w[k] == '(' || w[k] == ')',
        a.len() > 0 ==> !(('0' <= a.last() && a.last() <= '9') || unicode_whitespace(a.last())
            || a.last() == '-' || a.last() == '(' || a.last() == ')'),
        b.len() > 0 ==> !(('0' <= b[0] && b[0] <= '9') || unicode_whitespace(b[0]) || b[0] == '-'
            || b[0] == '(' || b[0] == ')'),
        ascii_digits_of(w).len() >= 9,
    ensures
        pii_findings(a + w + b).contains(("phone"@, ascii_digits_of(w))),
{
    let kind = PiiKind::Phone;
    let text = a + w + b;
    let d = ascii_digits_of(w);
    if a.len() > 0 {
        assert(a.drop_last().push(a.last()) =~= a);
    }
    assert(split_state(a, kind).1 =~= Seq::<char>::empty());
    lemma_split_extend_number(a, w);
    let dn = split_state(a, kind).0;
    assert(split_state(a + w, kind).1 =~= d);
    if b.len() == 0 {
        assert(text =~= a + w);
        assert(tokens(text, kind) == dn.push(d));
        assert(tokens(text, kind)[dn.len() as int] == d);
    } else {
        let aw1 = a + w + seq![b[0]];
        assert(aw1.drop_last() =~= a + w);
        assert(aw1.last() == b[0]);
        assert(split_state(aw1, kind).0 == dn.push(d));
        assert(dn.push(d)[dn.len() as int] == d);
        lemma_done_tokens_kept(aw1, b.drop_first(), kind, d);
        assert(aw1 + b.drop_first() =~= text);
        let st = split_state(text, kind);
        let m = choose|m: int| 0 <= m < st.0.len() && st.0[m] == d;
        assert(tokens(text, kind)[m] == d);
    }
    lemma_utf8_len_at_least_len(d);
    lemma_findings_of_complete(kind, tokens(text, kind), d);
    let e = findings_of(PiiKind::Email, tokens(text, PiiKind::Email));
    let pf = findings_of(kind, tokens(text, kind));
    let m = choose|m: int| 0 <= m < pf.len() && pf[m] == (kind_label(kind), d);
    assert(pii_findings(text)[e.len() + m] == pf[m]);
}

proof fn lemma_digit_count_is_digits(t: Seq<char>)
    ensures
        digit_count(t) == ascii_digits_of(t).len(),
    decreases t.len(),
{
    if t.len() > 0 {
        lemma_digit_count_is_digits(t.drop_last());
    }
}

/// Every IC / id number in a text is reported: a whitespace-separated word
/// with a letter, at least six ASCII digits and at most 12 bytes is an
/// `ic_or_id` finding.
#[verifier::rlimit(50)]
pub proof fn law_id_words_are_reported(a: Seq<char>, w: Seq<char>, b: Seq<char>)
    requires
        forall|k: int| 0 <= k < w.len() ==> !unicode_whitespace(#[trigger] w[k]),
        a.len() > 0 ==> unicode_whitespace(a.last()),
        b.len() > 0 ==> unicode_whitespace(b[0]),
        exists|k: int| 0 <= k < w.len() && unicode_alphabetic(#[trigger] w[k]),
        ascii_digits_of(w).len() >= 6,
        vstd::utf8::encode_utf8(w).len() <= 12,
    ensures
        pii_findings(a + w + b).contains(("ic_or_id"@, w)),
{
    let kind = PiiKind::IcOrId;
    let text = a + w + b;
    assert forall|k: int| 0 <= k < w.len() implies !skips(kind, #[trigger] w[k]) && !breaks(
        kind,
        w[k],
    ) by {}
    if a.len() > 0 {
        assert(a.drop_last().push(a.last()) =~= a);
    }
    assert(split_state(a, kind).1 =~= Seq::<char>::empty());
    lemma_split_extend_run(a, w, kind);
    let dn = split_state(a, kind).0;
    assert(split_state(a + w, kind).1 =~= w);
    if b.len() == 0 {
        assert(text =~= a + w);
        assert(tokens(text, kind) == dn.push(w));
        assert(tokens(text, kind)[dn.len() as int] == w);
    } else {
        let aw1 = a + w + seq![b[0]];
        assert(aw1.drop_last() =~= a + w);
        assert(aw1.last() == b[0]);
        assert(split_state(aw1, kind).0 == dn.push(w));
        assert(dn.push(w)[dn.len() as int] == w);
        lemma_done_tokens_kept(aw1, b.drop_first(), kind, w);
        assert(aw1 + b.drop_first() =~= text);
        let st = split_state(text, kind);
        let m = choose|m: int| 0 <= m < st.0.len() && st.0[m] == w;
        assert(tokens(text, kind)[m] == w);
    }
    lemma_utf8_len_is_encoded_len(w);
    lemma_digit_count_is_digits(w);
    lemma_findings_of_complete(kind, tokens(text, kind), w);
    let e = findings_of(PiiKind::Email, tokens(text, PiiKind::Email));
    let pf = findings_of(PiiKind::Phone, tokens(text, PiiKind::Phone));
    let idf = findings_of(kind, tokens(text, kind));
    let m = choose|m: int| 0 <= m < idf.len() && idf[m] == (kind_label(kind), w);
    assert(pii_findings(text)[e.len() + pf.len() + m] == idf[m]);
}

proof fn lemma_token_chars_kept(s: Seq<char>, kind: PiiKind)
    ensures
        forall|j: int, k: int|
            0 <= j < split_state(s, kind).0.len() && 0 <= k < split_state(s, kind).0[j].len()
                ==> !skips(kind, #[trigger] split_state(s, kind).0[j][k]) && !breaks(
                kind,
                split_state(s, kind).0[j][k],
            ),
        forall|k: int|
            0 <= k < split_state(s, kind).1.len() ==> !skips(kind, #[trigger] split_state(s, kind).1[k])
                && !breaks(kind, split_state(s, kind).1[k]),
    decreases s.len(),
{
    if s.len() > 0 {
        lemma_token_chars_kept(s.drop_last(), kind);
        let prev = split_state(s.drop_last(), kind);
        let c = s.last();
        if !skips(kind, c) && breaks(kind, c) {
            let done = close_token(prev.0, prev.1);
            assert forall|j: int, k: int| 0 <= j < done.len() && 0 <= k < done[j].len() implies !skips(
                kind,
                #[trigger] done[j][k],
            ) && !breaks(kind, done[j][k]) by {
                if j < prev.0.len() {
                    assert(done[j] == prev.0[j]);
                } else {
                    assert(done[j] == prev.1);
                }
            }
        } else if !skips(kind, c) {
            let cur = prev.1.push(c);
            assert forall|k: int| 0 <= k < cur.len() implies !skips(kind, #[trigger] cur[k]) && !breaks(
                kind,
                cur[k],
            ) by {
                if k < prev.1.len() {
                    assert(cur[k] == prev.1[k]);
                }
            }
        }
    }
}

proof fn lemma_token_kept_chars(s: Seq<char>, kind: PiiKind, t: Seq<char>)
    requires
        tokens(s, kind).contains(t),
    ensures
        forall|k: int| 0 <= k < t.len() ==> !skips(kind, #[trigger] t[k]) && !breaks(kind, t[k]),
{
    lemma_token_chars_kept(s, kind);
    let st = split_state(s, kind);
    let toks = tokens(s, kind);
    let j = choose|j: int| 0 <= j < toks.len() && toks[j] == t;
    if j < st.0.len() {
        assert(toks[j] == st.0[j]);
        assert forall|k: int| 0 <= k < t.len() implies !skips(kind, #[trigger] t[k]) && !breaks(
            kind,
            t[k],
        ) by {
            assert(t[k] == st.0[j][k]);
        }
    } else {
        assert(toks[j] == st.1);
    }
}

/// Every finding is an identifier of its kind, by the characters it holds:
/// an `email` is letters, digits, `@`, `.`, `-` and `_`, with `@` and `.`,
/// over 5 bytes; a `phone` is ASCII digits, at least 9; an `ic_or_id` has no
/// whitespace, a letter, at least six ASCII digits and at most 12 bytes.
pub proof fn law_findings_are_identifiers(text: Seq<char>, i: int)
    requires
        0 <= i < pii_findings(text).len(),
    ensures
        ({
            let f = pii_findings(text)[i];
            ||| f.0 == "email"@ && f.1.contains('@') && f.1.contains('.')
                && vstd::utf8::encode_utf8(f.1).len() > 5 && forall|k: int|
                0 <= k < f.1.len() ==> unicode_alphanumeric(#[trigger] f.1[k]) || f.1[k] == '@'
                    || f.1[k] == '.' || f.1[k] == '-' || f.1[k] == '_'
            ||| f.0 == "phone"@ && vstd::utf8::encode_utf8(f.1).len() >= 9 && forall|k: int|
                0 <= k < f.1.len() ==> '0' <= #[trigger] f.1[k] && f.1[k] <= '9'
            ||| f.0 == "ic_or_id"@ && (exists|k: int|
                0 <= k < f.1.len() && unicode_alphabetic(#[trigger] f.1[k]))
                && ascii_digits_of(f.1).len() >= 6 && vstd::utf8::encode_utf8(f.1).len() <= 12
                && forall|k: int| 0 <= k < f.1.len() ==> !unicode_whitespace(#[trigger] f.1[k])
        }),
{
    let e = findings_of(PiiKind::Email, tokens(text, PiiKind::Email));
    let p = findings_of(PiiKind::Phone, tokens(text, PiiKind::Phone));
    let d = findings_of(PiiKind::IcOrId, tokens(text, PiiKind::IcOrId));
    let f = pii_findings(text)[i];
    lemma_utf8_len_is_encoded_len(f.1);
    lemma_digit_count_is_digits(f.1);
    if i < e.len() {
        lemma_findings_of_sound(PiiKind::Email, tokens(text, PiiKind::Email), i);
        assert(f == e[i]);
        lemma_token_kept_chars(text, PiiKind::Email, f.1);
    } else if i < e.len() + p.len() {
        lemma_findings_of_sound(PiiKind::Phone, tokens(text, PiiKind::Phone), i - e.len());
        assert(f == p[i - e.len()]);
        lemma_token_kept_chars(text, PiiKind::Phone, f.1);
    } else {
        lemma_findings_of_sound(PiiKind::IcOrId, tokens(text, PiiKind::IcOrId), i - e.len() - p.len());
        assert(f == d[i - e.len() - p.len()]);
        lemma_token_kept_chars(text, PiiKind::IcOrId, f.1);
    }
}

/// The verdict follows the checks: a card is blocked exactly when its
/// k-anonymity check or its consent check fails, and the consent check fails
/// exactly when `consent_ok` refuses the segment. A blocked card is never
/// exported.
pub proof fn law_verdict_follows_checks(
    segment: Seq<char>,
    card_json: Seq<char>,
    segment_n: nat,
    consent: Option<ConsentManifest>,
    scan_text: Seq<char>,
)
    ensures
        ({
            let checks = govern_checks(segment, card_json, segment_n, consent, scan_text);
            &&& govern_blocked(segment_n, consent, segment) <==> (checks[0].2 == "fail"@
                || checks[1].2 == "fail"@)
            &&& checks[0].2 == "fail"@ <==> segment_n < 5
            &&& checks[1].2 == "fail"@ <==> !consent_allows(consent, segment)
        }),
{
    reveal_strlit("pass");
    reveal_strlit("fail");
    assert("pass"@[0] != "fail"@[0]);
}

/// Consent covers a segment exactly when its purpose is impact reporting or
/// research and the segment is one of the permitted grains, at any position,
/// or no grains are listed. There is no consent without a manifest.
pub proof fn law_consent_is_purpose_and_grain(c: ConsentManifest, segment: Seq<char>, i: int)
    ensures
        !consent_allows(None, segment),
        (c.purpose@ == "impact_reporting"@ || c.purpose@ == "research"@) && 0 <= i
            < c.permitted_grains@.len() && c.permitted_grains@[i]@ == segment ==> consent_allows(
            Some(c),
            segment,
        ),
        (c.purpose@ == "impact_reporting"@ || c.purpose@ == "research"@)
            && c.permitted_grains@.len() == 0 ==> consent_allows(Some(c), segment),
        !(c.purpose@ == "impact_reporting"@ || c.purpose@ == "research"@) ==> !consent_allows(
            Some(c),
            segment,
        ),
        (forall|j: int|
            0 <= j < c.permitted_grains@.len() ==> #[trigger] c.permitted_grains@[j]@ != segment)
            && c.permitted_grains@.len() > 0 ==> !consent_allows(Some(c), segment),
{
}

/// With no findings the card is published unchanged.
pub proof fn law_no_findings_identity(json: Seq<char>)
    ensures
        redaction(json, Seq::empty()) == (json, false),
{
}

proof fn lemma_findings_of_sound(kind: PiiKind, toks: Seq<Seq<char>>, i: int)
    requires
        0 <= i < findings_of(kind, toks).len(),
    ensures
        findings_of(kind, toks)[i].0 == kind_label(kind),
        qualifies(kind, findings_of(kind, toks)[i].1),
        toks.contains(findings_of(kind, toks)[i].1),
    decreases toks.len(),
{
    let prev = findings_of(kind, toks.drop_last());
    if i < prev.len() {
        lemma_findings_of_sound(kind, toks.drop_last(), i);
        let t = findings_of(kind, toks)[i].1;
        let j = choose|j: int| 0 <= j < toks.drop_last().len() && toks.drop_last()[j] == t;
        assert(toks[j] == t);
    } else {
        assert(toks[toks.len() - 1] == toks.last());
    }
}

/// Every finding is labelled `email`, `phone` or `ic_or_id`, and its match
/// meets that kind's test: an e-mail holds `@` and `.` and is over 5 bytes, a
/// phone number has at least 9 bytes, an id has a letter, at least 6 digits
/// and at most 12 bytes.
pub proof fn law_findings_qualify(text: Seq<char>, i: int)
    requires
        0 <= i < pii_findings(text).len(),
    ensures
        ({
            let f = pii_findings(text)[i];
            ||| f.0 == kind_label(PiiKind::Email) && qualifies(PiiKind::Email, f.1)
            ||| f.0 == kind_label(PiiKind::Phone) && qualifies(PiiKind::Phone, f.1)
            ||| f.0 == kind_label(PiiKind::IcOrId) && qualifies(PiiKind::IcOrId, f.1)
        }),
{
    let e = findings_of(PiiKind::Email, tokens(text, PiiKind::Email));
    let p = findings_of(PiiKind::Phone, tokens(text, PiiKind::Phone));
    let d = findings_of(PiiKind::IcOrId, tokens(text, PiiKind::IcOrId));
    if i < e.len() {
        lemma_findings_of_sound(PiiKind::Email, tokens(text, PiiKind::Email), i);
        assert(pii_findings(text)[i] == e[i]);
    } else if i < e.len() + p.len() {
        lemma_findings_of_sound(PiiKind::Phone, tokens(text, PiiKind::Phone), i - e.len());
        assert(pii_findings(text)[i] == p[i - e.len()]);
    } else {
        lemma_findings_of_sound(PiiKind::IcOrId, tokens(text, PiiKind::IcOrId), i - e.len() - p.len());
        assert(pii_findings(text)[i] == d[i - e.len() - p.len()]);
    }
}

proof fn lemma_phone_tokens_digits(s: Seq<char>)
    ensures
        forall|j: int, k: int|
            0 <= j < split_state(s, PiiKind::Phone).0.len() && 0 <= k < split_state(
                s,
                PiiKind::Phone,
            ).0[j].len() ==> is_ascii_digit(#[trigger] split_state(s, PiiKind::Phone).0[j][k]),
        forall|k: int|
            0 <= k < split_state(s, PiiKind::Phone).1.len() ==> is_ascii_digit(
                #[trigger] split_state(s, PiiKind::Phone).1[k],
            ),
    decreases s.len(),
{
    if s.len() > 0 {
        lemma_phone_tokens_digits(s.drop_last());
        let prev = split_state(s.drop_last(), PiiKind::Phone);
        let c = s.last();
        if !skips(PiiKind::Phone, c) && breaks(PiiKind::Phone, c) {
            let done = close_token(prev.0, prev.1);
            assert forall|j: int, k: int| 0 <= j < done.len() && 0 <= k < done[j].len() implies is_ascii_digit(
                #[trigger] done[j][k],
            ) by {
                if j < prev.0.len() {
                    assert(done[j] == prev.0[j]);
                } else {
                    assert(done[j] == prev.1);
                }
            }
        } else if !skips(PiiKind::Phone, c) {
            let cur = prev.1.push(c);
            assert forall|k: int| 0 <= k < cur.len() implies is_ascii_digit(#[trigger] cur[k]) by {
                if k < prev.1.len() {
                    assert(cur[k] == prev.1[k]);
                }
            }
        }
    }
}

proof fn lemma_tokens_in_text(s: Seq<char>, kind: PiiKind)
    requires
        kind != PiiKind::Phone,
    ensures
        forall|j: int|
            0 <= j < split_state(s, kind).0.len() ==> contains_text(
                s,
                #[trigger] split_state(s, kind).0[j],
            ),
        split_state(s, kind).1.len() <= s.len(),
        s.subrange(s.len() - split_state(s, kind).1.len(), s.len() as int) == split_state(s, kind).1,
    decreases s.len(),
{
    if s.len() == 0 {
        assert(s.subrange(0, 0) =~= Seq::<char>::empty());
    } else {
        let init = s.drop_last();
        lemma_tokens_in_text(init, kind);
        let prev = split_state(init, kind);
        let c = s.last();
        assert forall|d: Seq<char>| contains_text(init, d) implies contains_text(s, d) by {
            let i = choose|i: int| occurs_at(init, d, i);
            assert(s.subrange(i, i + d.len()) =~= init.subrange(i, i + d.len()));
            assert(occurs_at(s, d, i));
        }
        if breaks(kind, c) {
            let done = close_token(prev.0, prev.1);
            let o = init.len() - prev.1.len();
            assert(occurs_at(init, prev.1, o));
            assert forall|j: int| 0 <= j < done.len() implies contains_text(s, #[trigger] done[j]) by {
                if j < prev.0.len() {
                    assert(done[j] == prev.0[j]);
                } else {
                    assert(done[j] == prev.1);
                }
            }
            assert(s.subrange(s.len() as int, s.len() as int) =~= Seq::<char>::empty());
        } else {
            assert(s.subrange(s.len() - prev.1.len() - 1, s.len() as int) =~= prev.1.push(c));
        }
    }
}

/// E-mail and id findings are text that occurs, as it stands, in the scanned
/// text.
pub proof fn law_word_findings_occur_in_text(text: Seq<char>, kind: PiiKind, i: int)
    requires
        kind != PiiKind::Phone,
        0 <= i < findings_of(kind, tokens(text, kind)).len(),
    ensures
        contains_text(text, findings_of(kind, tokens(text, kind))[i].1),
{
    lemma_findings_of_sound(kind, tokens(text, kind), i);
    lemma_tokens_in_text(text, kind);
    let st = split_state(text, kind);
    let toks = tokens(text, kind);
    let t = findings_of(kind, toks)[i].1;
    let j = choose|j: int| 0 <= j < toks.len() && toks[j] == t;
    if j < st.0.len() {
        assert(toks[j] == st.0[j]);
    } else {
        assert(toks[j] == st.1);
        let o = text.len() - st.1.len();
        assert(occurs_at(text, st.1, o));
    }
}

/// Phone findings are made of ASCII digits only: separators inside a number
/// are dropped from the match.
pub proof fn law_phone_findings_are_digits(text: Seq<char>, t: Seq<char>, k: int)
    requires
        tokens(text, PiiKind::Phone).contains(t),
        0 <= k < t.len(),
    ensures
        is_ascii_digit(t[k]),
{
    lemma_phone_tokens_digits(text);
    let st = split_state(text, PiiKind::Phone);
    let toks = tokens(text, PiiKind::Phone);
    let j = choose|j: int| 0 <= j < toks.len() && toks[j] == t;
    if j < st.0.len() {
        assert(toks[j] == st.0[j]);
        assert(is_ascii_digit(st.0[j][k]));
    } else {
        assert(toks[j] == st.1);
        assert(is_ascii_digit(st.1[k]));
    }
}

} // verus!
