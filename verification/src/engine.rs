//! The integer and text logic of the insight pipeline: segment parsing and
//! membership, the run id and card lineage, the train / holdout split, the
//! programme target lookup and the recommendation outcome.
use vstd::prelude::*;
use crate::text::{
    chars_of, contains_text, decimal, extend_range, occurs_at, push_char, push_text, push_u64,
    string_of, text_eq,
};

verus! {

/// A programme as the engine reads it.
#[derive(Clone)]
pub struct Program {
    pub program_id: String,
    pub program_name: String,
    pub age_band: String,
    pub start_date: String,
    pub end_date: String,
    pub target_n: i64,
}

impl Default for Program {
    fn default() -> (p: Self)
        ensures
            p.program_id@ == Seq::<char>::empty(),
            p.program_name@ == Seq::<char>::empty(),
            p.age_band@ == Seq::<char>::empty(),
            p.start_date@ == Seq::<char>::empty(),
            p.end_date@ == Seq::<char>::empty(),
            p.target_n == 0,
    {
        Program {
            program_id: String::new(),
            program_name: String::new(),
            age_band: String::new(),
            start_date: String::new(),
            end_date: String::new(),
            target_n: 0,
        }
    }
}

/// What segment membership reads of a beneficiary record.
pub struct SegmentKey {
    pub program_id: String,
    pub age_band: String,
}

/// The card's provenance: run, skill version and playbook version.
#[derive(Clone)]
pub struct CardLineage {
    pub run_id: String,
    pub skill_version: String,
    pub playbook_version: String,
}

/// Position of the first `'|'` in `s` at or after `from`, if any.
pub open spec fn first_bar_from(s: Seq<char>, from: int) -> Option<int>
    decreases s.len() - from,
{
    if from < 0 || from >= s.len() {
        None
    } else if s[from] == '|' {
        Some(from)
    } else {
        first_bar_from(s, from + 1)
    }
}

/// A segment `"<age band>|<programme name>"` split at its first `'|'`.
pub open spec fn segment_parts(s: Seq<char>) -> Option<(Seq<char>, Seq<char>)> {
    match first_bar_from(s, 0) {
        Some(i) => Some((s.take(i), s.skip(i + 1))),
        None => None,
    }
}

/// The message for a segment with no `'|'` in it.
pub open spec fn bad_segment_message() -> Seq<char> {
    "bad segment format"@
}

/// Splits a segment into age band and programme name at its first `'|'`.
pub fn split_segment(segment: &str) -> (r: Result<(String, String), String>)
    ensures
        match segment_parts(segment@) {
            Some(p) => r matches Ok(v) && v.0@ == p.0 && v.1@ == p.1,
            None => r matches Err(e) && e@ == bad_segment_message(),
        },
{
    let s = chars_of(segment);
    let mut i: usize = 0;
    while i < s.len() && s[i] != '|'
        invariant
            i <= s.len(),
            s@ == segment@,
            first_bar_from(s@, 0) == first_bar_from(s@, i as int),
        decreases s.len() - i,
    {
        i = i + 1;
    }
    if i == s.len() {
        return Err(String::from_str("bad segment format"));
    }
    let mut age: Vec<char> = Vec::new();
    extend_range(&mut age, &s, 0, i);
    let mut prog: Vec<char> = Vec::new();
    extend_range(&mut prog, &s, i + 1, s.len());
    assert(age@ =~= s@.take(i as int));
    assert(prog@ =~= s@.skip(i + 1));
    Ok((string_of(&age), string_of(&prog)))
}

/// The run id: `r-` and the segment with every `'|'` written as `'_'`.
pub open spec fn run_id_of(segment: Seq<char>) -> Seq<char> {
    "r-"@ + segment.map_values(|c: char| if c == '|' { '_' } else { c })
}

pub fn run_id(segment: &str) -> (r: String)
    ensures
        r@ == run_id_of(segment@),
{
    let s = chars_of(segment);
    let mut r = String::from_str("r-");
    let ghost start = r@;
    let mut i: usize = 0;
    while i < s.len()
        invariant
            i <= s.len(),
            s@ == segment@,
            start == "r-"@,
            r@ == start + s@.take(i as int).map_values(|c: char| if c == '|' { '_' } else { c }),
        decreases s.len() - i,
    {
        let c = s[i];
        push_char(&mut r, if c == '|' { '_' } else { c });
        i = i + 1;
        assert(r@ =~= start + s@.take(i as int).map_values(
            |c: char| if c == '|' { '_' } else { c },
        ));
    }
    assert(s@.take(i as int) =~= s@);
    r
}

/// The playbook version a card reports: at least 1.
pub open spec fn effective_playbook_version(version: i64) -> i64 {
    if version < 1 {
        1
    } else {
        version
    }
}

/// Builds the card lineage for a segment.
pub fn card_lineage(segment: &str, skill_version: &str, playbook_version: i64) -> (l: CardLineage)
    ensures
        l.run_id@ == run_id_of(segment@),
        l.skill_version@ == skill_version@,
        l.playbook_version@ == "v"@ + decimal(effective_playbook_version(playbook_version) as nat),
        playbook_version >= 1 ==> l.playbook_version@ == "v"@ + decimal(playbook_version as nat),
        playbook_version < 1 ==> l.playbook_version@ == "v"@ + seq!['1'],
{
    proof {
        law_playbook_version_at_least_one(playbook_version);
    }
    let v: i64 = if playbook_version < 1 {
        1
    } else {
        playbook_version
    };
    let mut pv = String::from_str("v");
    push_u64(&mut pv, v as u64);
    CardLineage {
        run_id: run_id(segment),
        skill_version: String::from_str(skill_version),
        playbook_version: pv,
    }
}

/// The name of the programme with this id; when ids repeat, the last
/// programme with it counts.
pub open spec fn program_name_of(programs: Seq<Program>, id: Seq<char>) -> Option<Seq<char>>
    decreases programs.len(),
{
    if programs.len() == 0 {
        None
    } else if programs.last().program_id@ == id {
        Some(programs.last().program_name@)
    } else {
        program_name_of(programs.drop_last(), id)
    }
}

/// A beneficiary belongs to the segment: same age band, and enrolled in a
/// programme of that name.
pub open spec fn in_segment(
    b: SegmentKey,
    age_band: Seq<char>,
    program: Seq<char>,
    programs: Seq<Program>,
) -> bool {
    b.age_band@ == age_band && program_name_of(programs, b.program_id@) == Some(program)
}

/// Indices, in increasing order, of the beneficiaries in the segment.
pub open spec fn segment_members(
    bs: Seq<SegmentKey>,
    age_band: Seq<char>,
    program: Seq<char>,
    programs: Seq<Program>,
) -> Seq<usize>
    decreases bs.len(),
{
    if bs.len() == 0 {
        Seq::empty()
    } else {
        let prev = segment_members(bs.drop_last(), age_band, program, programs);
        if in_segment(bs.last(), age_band, program, programs) {
            prev.push((bs.len() - 1) as usize)
        } else {
            prev
        }
    }
}

fn lookup_program_name(programs: &Vec<Program>, id: &str) -> (r: Option<String>)
    ensures
        match program_name_of(programs@, id@) {
            Some(n) => r matches Some(s) && s@ == n,
            None => r is None,
        },
{
    let mut i: usize = programs.len();
    assert(programs@.take(i as int) =~= programs@);
    while i > 0 && !text_eq(programs[i - 1].program_id.as_str(), id)
        invariant
            i <= programs.len(),
            program_name_of(programs@, id@) == program_name_of(programs@.take(i as int), id@),
        decreases i,
    {
        assert(programs@.take(i as int).drop_last() =~= programs@.take(i - 1));
        i = i - 1;
    }
    if i == 0 {
        assert(programs@.take(0) =~= Seq::<Program>::empty());
        None
    } else {
        assert(programs@.take(i as int).last() == programs@[i - 1]);
        Some(String::from_str(programs[i - 1].program_name.as_str()))
    }
}

/// The beneficiaries of a segment, as indices into `beneficiaries`.
pub fn select_segment(
    age_band: &str,
    program: &str,
    beneficiaries: &Vec<SegmentKey>,
    programs: &Vec<Program>,
) -> (rows: Vec<usize>)
    ensures
        rows@ == segment_members(beneficiaries@, age_band@, program@, programs@),
{
    let mut rows: Vec<usize> = Vec::new();
    let mut i: usize = 0;
    assert(beneficiaries@.take(0) =~= Seq::<SegmentKey>::empty());
    while i < beneficiaries.len()
        invariant
            i <= beneficiaries.len(),
            rows@ == segment_members(beneficiaries@.take(i as int), age_band@, program@, programs@),
        decreases beneficiaries.len() - i,
    {
        let ghost prefix = beneficiaries@.take(i + 1);
        assert(prefix.drop_last() =~= beneficiaries@.take(i as int));
        let b = &beneficiaries[i];
        if text_eq(b.age_band.as_str(), age_band) {
            match lookup_program_name(programs, b.program_id.as_str()) {
                Some(name) => {
                    if text_eq(name.as_str(), program) {
                        rows.push(i);
                    }
                },
                None => {},
            }
        }
        i = i + 1;
    }
    assert(beneficiaries@.take(i as int) =~= beneficiaries@);
    rows
}

/// Rows at even positions train; rows at odd positions are held out.
pub fn split_holdout<T: Copy>(rows: &Vec<T>) -> (r: (Vec<T>, Vec<T>))
    ensures
        r.0.len() == (rows.len() + 1) / 2,
        r.1.len() == rows.len() / 2,
        r.0.len() + r.1.len() == rows.len(),
        forall|i: int| 0 <= i < r.0.len() ==> #[trigger] r.0@[i] == rows@[2 * i],
        forall|i: int| 0 <= i < r.1.len() ==> #[trigger] r.1@[i] == rows@[2 * i + 1],
{
    let mut train: Vec<T> = Vec::new();
    let mut hold: Vec<T> = Vec::new();
    let mut i: usize = 0;
    while i < rows.len()
        invariant
            i <= rows.len(),
            train.len() == (i + 1) / 2,
            hold.len() == i / 2,
            forall|j: int| 0 <= j < train.len() ==> #[trigger] train@[j] == rows@[2 * j],
            forall|j: int| 0 <= j < hold.len() ==> #[trigger] hold@[j] == rows@[2 * j + 1],
        decreases rows.len() - i,
    {
        if i % 2 == 0 {
            train.push(rows[i]);
        } else {
            hold.push(rows[i]);
        }
        i = i + 1;
    }
    (train, hold)
}

/// The target of the first programme with this name, or 0.
pub open spec fn program_target(programs: Seq<Program>, name: Seq<char>) -> i64
    decreases programs.len(),
{
    if programs.len() == 0 {
        0
    } else if programs[0].program_name@ == name {
        programs[0].target_n
    } else {
        program_target(programs.drop_first(), name)
    }
}

pub fn target_for(programs: &Vec<Program>, name: &str) -> (t: i64)
    ensures
        t == program_target(programs@, name@),
        forall|i: int|
            0 <= i < programs.len() && (#[trigger] programs@[i]).program_name@ == name@ && (forall|j: int|
                0 <= j < i ==> programs@[j].program_name@ != name@) ==> t == programs@[i].target_n,
        (forall|j: int| 0 <= j < programs.len() ==> (#[trigger] programs@[j]).program_name@ != name@)
            ==> t == 0,
{
    proof {
        law_target_is_first_match(programs@, name@);
    }
    let mut i: usize = 0;
    assert(programs@.skip(0) =~= programs@);
    while i < programs.len()
        invariant
            i <= programs.len(),
            program_target(programs@, name@) == program_target(programs@.skip(i as int), name@),
        decreases programs.len() - i,
    {
        assert(programs@.skip(i as int).drop_first() =~= programs@.skip(i + 1));
        if text_eq(programs[i].program_name.as_str(), name) {
            proof {
                law_target_is_first_match(programs@, name@);
            }
            return programs[i].target_n;
        }
        i = i + 1;
    }
    0
}

/// What the card recommends for a segment.
#[derive(PartialEq, Eq, Structural, Clone, Copy)]
pub enum Outcome {
    /// The recommendation is already human-approved in the learned playbook.
    Validated,
    /// A corrective lever is proposed and awaits approval.
    Actionable,
    /// The segment meets expectation; no lever is proposed.
    OnTrack,
}

/// Approved in the playbook comes first; otherwise a positive lever makes the
/// card actionable.
pub open spec fn outcome_of(validated: bool, has_lever: bool) -> Outcome {
    if validated {
        Outcome::Validated
    } else if has_lever {
        Outcome::Actionable
    } else {
        Outcome::OnTrack
    }
}

pub fn decide_outcome(validated: bool, has_lever: bool) -> (o: Outcome)
    ensures
        o == outcome_of(validated, has_lever),
        validated ==> o == Outcome::Validated,
        !validated && has_lever ==> o == Outcome::Actionable,
        !validated && !has_lever ==> o == Outcome::OnTrack,
{
    if validated {
        Outcome::Validated
    } else if has_lever {
        Outcome::Actionable
    } else {
        Outcome::OnTrack
    }
}

/// The approval state a card and its proposal carry for an outcome.
pub open spec fn approval_of(o: Outcome) -> Seq<char> {
    match o {
        Outcome::Validated => "approved"@,
        Outcome::Actionable => "pending"@,
        Outcome::OnTrack => "not_applicable"@,
    }
}

pub fn approval_label(o: Outcome) -> (s: String)
    ensures
        s@ == approval_of(o),
        o == Outcome::Validated ==> s@ == "approved"@,
        o == Outcome::Actionable ==> s@ == "pending"@,
        o == Outcome::OnTrack ==> s@ == "not_applicable"@,
{
    match o {
        Outcome::Validated => String::from_str("approved"),
        Outcome::Actionable => String::from_str("pending"),
        Outcome::OnTrack => String::from_str("not_applicable"),
    }
}

/// The free text of a finding node and of the nodes under it.
pub struct NodeText {
    pub label: String,
    pub narrative: Option<String>,
    pub evidence: Vec<String>,
    pub children: Vec<NodeText>,
}

/// Each string followed by a line break.
pub open spec fn lines_of(v: Seq<String>) -> Seq<char>
    decreases v.len(),
{
    if v.len() == 0 {
        Seq::empty()
    } else {
        lines_of(v.drop_last()) + v.last()@ + "\n"@
    }
}

/// A node's own text: label, narrative if any, then each evidence line.
pub open spec fn node_own_text(n: NodeText) -> Seq<char> {
    n.label@ + "\n"@ + match n.narrative {
        Some(t) => t@ + "\n"@,
        None => Seq::empty(),
    } + lines_of(n.evidence@)
}

/// The text of a list of nodes, each followed by the text of its children.
pub open spec fn forest_text(ns: Seq<NodeText>) -> Seq<char>
    decreases ns,
{
    if ns.len() == 0 {
        Seq::empty()
    } else {
        proof {
            assert(decreases_to!(ns => ns.last()));
        }
        forest_text(ns.drop_last()) + node_own_text(ns.last()) + forest_text(ns.last().children@)
    }
}

fn push_lines(buf: &mut String, v: &Vec<String>)
    ensures
        final(buf)@ == old(buf)@ + lines_of(v@),
{
    let ghost start = buf@;
    let mut i: usize = 0;
    assert(v@.take(0) =~= Seq::<String>::empty());
    while i < v.len()
        invariant
            i <= v.len(),
            buf@ == start + lines_of(v@.take(i as int)),
        decreases v.len() - i,
    {
        assert(v@.take(i + 1).drop_last() =~= v@.take(i as int));
        push_text(buf, v[i].as_str());
        push_text(buf, "\n");
        i = i + 1;
        assert(buf@ =~= start + lines_of(v@.take(i as int)));
    }
    assert(v@.take(i as int) =~= v@);
}

fn push_node_own(buf: &mut String, n: &NodeText)
    ensures
        final(buf)@ == old(buf)@ + node_own_text(*n),
{
    let ghost start = buf@;
    push_text(buf, n.label.as_str());
    push_text(buf, "\n");
    match &n.narrative {
        Some(t) => {
            push_text(buf, t.as_str());
            push_text(buf, "\n");
        },
        None => {},
    }
    push_lines(buf, &n.evidence);
    assert(buf@ =~= start + node_own_text(*n));
}

fn push_forest(buf: &mut String, ns: &Vec<NodeText>)
    ensures
        final(buf)@ == old(buf)@ + forest_text(ns@),
    decreases ns@,
{
    let ghost start = buf@;
    let mut i: usize = 0;
    assert(ns@.take(0) =~= Seq::<NodeText>::empty());
    while i < ns.len()
        invariant
            i <= ns.len(),
            buf@ == start + forest_text(ns@.take(i as int)),
        decreases ns.len() - i,
    {
        let ghost pre = ns@.take(i + 1);
        assert(pre.drop_last() =~= ns@.take(i as int));
        assert(pre.last() == ns@[i as int]);
        push_node_own(buf, &ns[i]);
        proof {
            assert(decreases_to!(ns@ => ns@[i as int]));
        }
        push_forest(buf, &ns[i].children);
        i = i + 1;
        assert(buf@ =~= start + forest_text(ns@.take(i as int)));
    }
    assert(ns@.take(i as int) =~= ns@);
}

/// The text GOVERN scans: the question, the headline, then every node of
/// the card in order, each followed by its children.
pub open spec fn scan_text_of(question: Seq<char>, headline: Seq<char>, nodes: Seq<NodeText>) -> Seq<
    char,
> {
    question + "\n"@ + headline + "\n"@ + forest_text(nodes)
}

/// Assembles the free text scanned for direct identifiers before publication.
pub fn collect_scan_text(question: &str, headline: &str, nodes: &Vec<NodeText>) -> (t: String)
    ensures
        t@ == scan_text_of(question@, headline@, nodes@),
{
    let mut t = String::new();
    push_text(&mut t, question);
    push_text(&mut t, "\n");
    push_text(&mut t, headline);
    push_text(&mut t, "\n");
    push_forest(&mut t, nodes);
    assert(t@ =~= scan_text_of(question@, headline@, nodes@));
    t
}

/// The reported playbook version is `max(version, 1)`: a version of 1 or
/// more is reported as it is, anything lower as 1, and its decimal notation
/// is that of the version.
pub proof fn law_playbook_version_at_least_one(version: i64)
    ensures
        version >= 1 ==> effective_playbook_version(version) == version,
        version < 1 ==> effective_playbook_version(version) == 1,
        decimal(1) == seq!['1'],
        forall|n: nat| n >= 10 ==> (#[trigger] decimal(n)).len() >= 2,
        forall|n: nat| n < 10 ==> (#[trigger] decimal(n)).len() == 1,
{
    assert forall|n: nat| n >= 10 implies (#[trigger] decimal(n)).len() >= 2 by {
        lemma_decimal_len(n);
    }
}

proof fn lemma_decimal_len(n: nat)
    ensures
        decimal(n).len() >= 1,
        n >= 10 ==> decimal(n).len() >= 2,
    decreases n,
{
    if n >= 10 {
        lemma_decimal_len(n / 10);
    }
}

/// The target is that of the first programme with the name, wherever it
/// stands in the list, and 0 only when no programme has the name.
pub proof fn law_target_is_first_match(programs: Seq<Program>, name: Seq<char>)
    ensures
        forall|i: int|
            0 <= i < programs.len() && (#[trigger] programs[i]).program_name@ == name && (forall|j: int|
                0 <= j < i ==> programs[j].program_name@ != name) ==> program_target(programs, name)
                == programs[i].target_n,
        (forall|j: int| 0 <= j < programs.len() ==> (#[trigger] programs[j]).program_name@ != name)
            ==> program_target(programs, name) == 0,
    decreases programs.len(),
{
    if programs.len() > 0 {
        let rest = programs.drop_first();
        law_target_is_first_match(rest, name);
        assert forall|i: int|
            0 <= i < programs.len() && (#[trigger] programs[i]).program_name@ == name && (forall|j: int|
                0 <= j < i ==> programs[j].program_name@ != name) implies program_target(programs, name)
            == programs[i].target_n by {
            if i > 0 {
                assert(programs[0].program_name@ != name);
                assert(rest[i - 1] == programs[i]);
                assert forall|j: int| 0 <= j < i - 1 implies rest[j].program_name@ != name by {
                    assert(rest[j] == programs[j + 1]);
                }
            }
        }
        if forall|j: int| 0 <= j < programs.len() ==> (#[trigger] programs[j]).program_name@ != name {
            assert(programs[0].program_name@ != name);
            assert forall|j: int| 0 <= j < rest.len() implies (#[trigger] rest[j]).program_name@
                != name by {
                assert(rest[j] == programs[j + 1]);
            }
        }
    }
}

/// The run id carries no `'|'`: every separator of the segment became `'_'`.
pub proof fn law_run_id_has_no_bar(segment: Seq<char>)
    ensures
        !run_id_of(segment).contains('|'),
        run_id_of(segment).len() == segment.len() + 2,
        run_id_of(segment)[0] == 'r' && run_id_of(segment)[1] == '-',
        forall|i: int|
            0 <= i < segment.len() ==> #[trigger] run_id_of(segment)[i + 2] == if segment[i] == '|' {
                '_'
            } else {
                segment[i]
            },
{
    reveal_strlit("r-");
    let r = run_id_of(segment);
    assert forall|i: int| 0 <= i < r.len() implies r[i] != '|' by {
        if i >= 2 {
            assert(r[i] == (if segment[i - 2] == '|' { '_' } else { segment[i - 2] }));
        }
    }
}

proof fn lemma_first_bar(s: Seq<char>, from: int)
    requires
        0 <= from,
    ensures
        match first_bar_from(s, from) {
            Some(i) => from <= i < s.len() && s[i] == '|' && forall|j: int|
                from <= j < i ==> s[j] != '|',
            None => forall|j: int| from <= j < s.len() ==> s[j] != '|',
        },
    decreases s.len() - from,
{
    if from < s.len() && s[from] != '|' {
        lemma_first_bar(s, from + 1);
    }
}

/// A segment splits at its first `'|'`: age band and programme name joined
/// by `'|'` give the segment back, and the age band holds no `'|'`. Without a
/// `'|'` there is no split.
pub proof fn law_segment_split_round_trip(s: Seq<char>)
    ensures
        segment_parts(s) matches Some(p) ==> p.0 + seq!['|'] + p.1 == s && !p.0.contains('|'),
        segment_parts(s) is None <==> !s.contains('|'),
{
    lemma_first_bar(s, 0);
    match first_bar_from(s, 0) {
        Some(i) => {
            assert(s.take(i) + seq!['|'] + s.skip(i + 1) =~= s);
            assert(s.contains('|')) by {
                assert(s[i] == '|');
            }
        },
        None => {},
    }
}

proof fn lemma_program_name_of_last(programs: Seq<Program>, id: Seq<char>, name: Seq<char>)
    ensures
        program_name_of(programs, id) == Some(name) <==> exists|k: int|
            0 <= k < programs.len() && (#[trigger] programs[k]).program_id@ == id
                && programs[k].program_name@ == name && forall|m: int|
                k < m < programs.len() ==> programs[m].program_id@ != id,
    decreases programs.len(),
{
    if programs.len() > 0 {
        let init = programs.drop_last();
        let n = programs.len() - 1;
        lemma_program_name_of_last(init, id, name);
        assert(programs[n] == programs.last());
        if programs.last().program_id@ == id {
            if program_name_of(programs, id) != Some(name) {
                if exists|k: int|
                    0 <= k < programs.len() && (#[trigger] programs[k]).program_id@ == id
                        && programs[k].program_name@ == name && forall|m: int|
                        k < m < programs.len() ==> programs[m].program_id@ != id {
                    let k = choose|k: int|
                        0 <= k < programs.len() && (#[trigger] programs[k]).program_id@ == id
                            && programs[k].program_name@ == name && forall|m: int|
                            k < m < programs.len() ==> programs[m].program_id@ != id;
                    if k < n {
                        assert(programs[n].program_id@ != id);
                    }
                }
            }
        } else {
            if exists|k: int|
                0 <= k < programs.len() && (#[trigger] programs[k]).program_id@ == id
                    && programs[k].program_name@ == name && forall|m: int|
                    k < m < programs.len() ==> programs[m].program_id@ != id {
                let k = choose|k: int|
                    0 <= k < programs.len() && (#[trigger] programs[k]).program_id@ == id
                        && programs[k].program_name@ == name && forall|m: int|
                        k < m < programs.len() ==> programs[m].program_id@ != id;
                assert(init[k] == programs[k]);
                assert forall|m: int| k < m < init.len() implies init[m].program_id@ != id by {
                    assert(init[m] == programs[m]);
                }
            }
            if program_name_of(init, id) == Some(name) {
                let k = choose|k: int|
                    0 <= k < init.len() && (#[trigger] init[k]).program_id@ == id
                        && init[k].program_name@ == name && forall|m: int|
                        k < m < init.len() ==> init[m].program_id@ != id;
                assert(programs[k] == init[k]);
                assert forall|m: int| k < m < programs.len() implies programs[m].program_id@ != id by {
                    if m < n {
                        assert(init[m] == programs[m]);
                    }
                }
            }
        }
    }
}

/// A beneficiary belongs to a segment exactly when it has the segment's age
/// band and the last programme listed under its programme id bears the
/// segment's programme name.
pub proof fn law_segment_membership(
    b: SegmentKey,
    age_band: Seq<char>,
    program: Seq<char>,
    programs: Seq<Program>,
)
    ensures
        in_segment(b, age_band, program, programs) <==> b.age_band@ == age_band && exists|k: int|
            0 <= k < programs.len() && (#[trigger] programs[k]).program_id@ == b.program_id@
                && programs[k].program_name@ == program && forall|m: int|
                k < m < programs.len() ==> programs[m].program_id@ != b.program_id@,
{
    lemma_program_name_of_last(programs, b.program_id@, program);
}

/// The selected rows are exactly the segment's beneficiaries: an index is
/// selected if and only if that beneficiary belongs to the segment, and
/// indices come in increasing order.
pub proof fn law_segment_rows_exact(
    bs: Seq<SegmentKey>,
    age_band: Seq<char>,
    program: Seq<char>,
    programs: Seq<Program>,
)
    requires
        bs.len() <= usize::MAX,
    ensures
        forall|j: int|
            0 <= j < bs.len() ==> (segment_members(bs, age_band, program, programs).contains(
                j as usize,
            ) <==> in_segment(#[trigger] bs[j], age_band, program, programs)),
        forall|a: int, b: int|
            0 <= a < b < segment_members(bs, age_band, program, programs).len() ==> #[trigger] segment_members(
                bs,
                age_band,
                program,
                programs,
            )[a] < #[trigger] segment_members(bs, age_band, program, programs)[b],
        forall|a: int|
            0 <= a < segment_members(bs, age_band, program, programs).len() ==> #[trigger] segment_members(
                bs,
                age_band,
                program,
                programs,
            )[a] < bs.len(),
    decreases bs.len(),
{
    if bs.len() > 0 {
        let init = bs.drop_last();
        law_segment_rows_exact(init, age_band, program, programs);
        let prev = segment_members(init, age_band, program, programs);
        let cur = segment_members(bs, age_band, program, programs);
        assert forall|a: int| 0 <= a < cur.len() implies #[trigger] cur[a] < bs.len() by {
            if a < prev.len() {
                assert(cur[a] == prev[a]);
            }
        }
        assert forall|a: int, b: int| 0 <= a < b < cur.len() implies #[trigger] cur[a] < #[trigger] cur[b] by {
            assert(cur[a] == prev[a]);
            if b < prev.len() {
                assert(cur[b] == prev[b]);
            }
        }
        assert forall|j: int| 0 <= j < bs.len() implies (cur.contains(j as usize) <==> in_segment(
            #[trigger] bs[j],
            age_band,
            program,
            programs,
        )) by {
            if j < init.len() {
                assert(init[j] == bs[j]);
                if cur.contains(j as usize) {
                    let k = choose|k: int| 0 <= k < cur.len() && cur[k] == j as usize;
                    if k < prev.len() {
                        assert(prev[k] == cur[k]);
                    }
                }
                if prev.contains(j as usize) {
                    let k = choose|k: int| 0 <= k < prev.len() && prev[k] == j as usize;
                    assert(cur[k] == prev[k]);
                }
            } else {
                if in_segment(bs.last(), age_band, program, programs) {
                    assert(cur[cur.len() - 1] == j as usize);
                } else {
                    if cur.contains(j as usize) {
                        let k = choose|k: int| 0 <= k < cur.len() && cur[k] == j as usize;
                        assert(prev[k] < init.len());
                    }
                }
            }
        }
    }
}

proof fn lemma_forest_concat(a: Seq<NodeText>, b: Seq<NodeText>)
    ensures
        forest_text(a + b) == forest_text(a) + forest_text(b),
    decreases b.len(),
{
    if b.len() == 0 {
        assert(a + b =~= a);
        assert(forest_text(a) + forest_text(b) =~= forest_text(a));
    } else {
        lemma_forest_concat(a, b.drop_last());
        assert((a + b).drop_last() =~= a + b.drop_last());
        assert((a + b).last() == b.last());
        assert(forest_text(a + b) =~= forest_text(a) + forest_text(b));
    }
}

/// Everything a card shows is scanned: for every node, its own text and the
/// text of the nodes under it are part of the text GOVERN scans. Applied
/// again to the children, this reaches nodes at any depth.
pub proof fn law_scan_covers_every_node(
    question: Seq<char>,
    headline: Seq<char>,
    nodes: Seq<NodeText>,
    i: int,
)
    requires
        0 <= i < nodes.len(),
    ensures
        contains_text(scan_text_of(question, headline, nodes), node_own_text(nodes[i])),
        contains_text(
            scan_text_of(question, headline, nodes),
            forest_text(nodes[i].children@),
        ),
        contains_text(forest_text(nodes), forest_text(nodes[i].children@)),
{
    let pre = nodes.take(i);
    let mid = nodes.subrange(i, i + 1);
    let post = nodes.skip(i + 1);
    assert(nodes =~= pre + mid + post);
    lemma_forest_concat(pre + mid, post);
    lemma_forest_concat(pre, mid);
    assert(mid.drop_last() =~= Seq::<NodeText>::empty());
    assert(mid.last() == nodes[i]);
    assert(forest_text(mid.drop_last()) =~= Seq::<char>::empty());
    let own = node_own_text(nodes[i]);
    let kids = forest_text(nodes[i].children@);
    let head = question + "\n"@ + headline + "\n"@;
    let fp = forest_text(pre);
    let fpost = forest_text(post);
    assert(forest_text(mid) =~= own + kids);
    let scan = scan_text_of(question, headline, nodes);
    assert(scan =~= head + fp + own + kids + fpost);
    let o1: int = (head.len() + fp.len()) as int;
    assert(scan.subrange(o1, o1 + own.len()) =~= own);
    assert(occurs_at(scan, own, o1));
    let o2: int = o1 + own.len();
    assert(scan.subrange(o2, o2 + kids.len()) =~= kids);
    assert(occurs_at(scan, kids, o2));
    let f = forest_text(nodes);
    assert(f =~= fp + own + kids + fpost);
    let o3: int = (fp.len() + own.len()) as int;
    assert(f.subrange(o3, o3 + kids.len()) =~= kids);
    assert(occurs_at(f, kids, o3));
}

} // verus!
