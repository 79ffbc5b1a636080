//! Patterns over words of terminals, and the segments that a match covers.
use vstd::prelude::*;
use crate::symbol::{NonTerminal, Terminal};

verus! {

/// One contiguous span of the input: `len` terminals from position `start`.
#[derive(Debug, Clone, Copy, PartialEq, Eq, Structural)]
pub struct MatchSegment {
    pub start: usize,
    pub len: usize,
}

/// The outcome of matching: the spans covered, in order. No span at all
/// means no match.
#[derive(Debug, Clone)]
pub struct Match {
    pub segments: Vec<MatchSegment>,
}

/// The segments of a match of `n` terminals at `offset`, or of no match.
pub open spec fn segments_of(m: Option<nat>, offset: nat) -> Seq<MatchSegment> {
    match m {
        Some(n) => seq![MatchSegment { start: offset as usize, len: n as usize }],
        None => seq![],
    }
}

impl Match {
    /// Where the covered span begins; zero when nothing matched.
    pub open spec fn start_of(&self) -> int {
        start_of_segments(self.segments@)
    }

    /// Where the covered span ends; zero when nothing matched.
    pub open spec fn end_of(&self) -> int {
        end_of_segments(self.segments@)
    }

    pub fn matched(&self) -> (r: bool)
        ensures
            r == (self.segments@.len() > 0),
    {
        self.segments.len() > 0
    }

    pub fn unmatched(&self) -> (r: bool)
        ensures
            r == (self.segments@.len() == 0),
    {
        self.segments.len() == 0
    }

    /// Moves every segment `offset` positions further on.
    pub fn add_offset(&mut self, offset: usize)
        requires
            forall|i: int|
                0 <= i < old(self).segments@.len() ==> #[trigger] old(self).segments@[i].start + offset
                    <= usize::MAX,
        ensures
            final(self).segments@.len() == old(self).segments@.len(),
            forall|i: int|
                0 <= i < final(self).segments@.len() ==> (#[trigger] final(self).segments@[i]).start
                    == old(self).segments@[i].start + offset && final(self).segments@[i].len
                    == old(self).segments@[i].len,
    {
        let mut i: usize = 0;
        while i < self.segments.len()
            invariant
                i <= self.segments@.len(),
                self.segments@.len() == old(self).segments@.len(),
                forall|j: int|
                    0 <= j < old(self).segments@.len() ==> #[trigger] old(self).segments@[j].start
                        + offset <= usize::MAX,
                forall|j: int|
                    0 <= j < i ==> (#[trigger] self.segments@[j]).start == old(self).segments@[j].start
                        + offset && self.segments@[j].len == old(self).segments@[j].len,
                forall|j: int| i <= j < self.segments@.len() ==> #[trigger] self.segments@[j] == old(self).segments@[j],
            decreases self.segments@.len() - i,
        {
            let seg = self.segments[i];
            self.segments.set(i, MatchSegment { start: seg.start + offset, len: seg.len });
            i = i + 1;
        }
    }

    pub fn general_start(&self) -> (r: usize)
        ensures
            r == self.start_of(),
    {
        if self.matched() {
            self.segments[0].start
        } else {
            0
        }
    }

    pub fn general_end(&self) -> (r: usize)
        requires
            self.end_of() <= usize::MAX,
        ensures
            r == self.end_of(),
    {
        if self.matched() {
            let last = self.segments.len() - 1;
            self.segments[last].start + self.segments[last].len
        } else {
            0
        }
    }

    pub fn general_len(&self) -> (r: usize)
        requires
            self.start_of() <= self.end_of() <= usize::MAX,
        ensures
            r == self.end_of() - self.start_of(),
    {
        self.general_end() - self.general_start()
    }

    /// Joins `right`, the match of what follows, to this match. When this
    /// match is empty nothing changes; when `right` is empty the whole is
    /// unmatched; when `right` begins where this match ends, the two meeting
    /// segments become one; otherwise nothing changes.
    pub fn append(&mut self, right: Match)
        requires
            old(self).segments@.len() > 0 && right.segments@.len() > 0 ==> old(self).end_of()
                <= usize::MAX,
            old(self).segments@.len() > 0 && right.segments@.len() > 0 && old(self).end_of()
                == right.start_of() ==> old(self).segments@.last().len + right.segments@[0].len
                <= usize::MAX,
        ensures
            final(self).segments@ == appended(old(self).segments@, right.segments@),
    {
        if self.matched() {
            let mut other = right;
            if other.unmatched() {
                *self = other;
            } else if self.general_end() == other.general_start() {
                let first = other.segments.remove(0);
                let last = self.segments.len() - 1;
                let seg = self.segments[last];
                self.segments.set(last, MatchSegment { start: seg.start, len: seg.len + first.len });
                self.segments.append(&mut other.segments);
            }
        }
    }
}

/// What `append` makes of `left` and `right`.
pub open spec fn appended(left: Seq<MatchSegment>, right: Seq<MatchSegment>) -> Seq<MatchSegment> {
    if left.len() == 0 {
        left
    } else if right.len() == 0 {
        right
    } else if end_of_segments(left) == start_of_segments(right) {
        merged(left, right)
    } else {
        left
    }
}

pub open spec fn start_of_segments(s: Seq<MatchSegment>) -> int {
    if s.len() > 0 {
        s[0].start as int
    } else {
        0
    }
}

pub open spec fn end_of_segments(s: Seq<MatchSegment>) -> int {
    if s.len() > 0 {
        s.last().start + s.last().len
    } else {
        0
    }
}

/// `left` and `right` with the last segment of `left` and the first of
/// `right` made into one.
pub open spec fn merged(left: Seq<MatchSegment>, right: Seq<MatchSegment>) -> Seq<MatchSegment>
    recommends
        left.len() > 0,
        right.len() > 0,
{
    left.drop_last().push(
        MatchSegment { start: left.last().start, len: (left.last().len + right[0].len) as usize },
    ) + right.drop_first()
}

impl PartialEq for Match {
    fn eq(&self, other: &Match) -> (r: bool) {
        if self.segments.len() != other.segments.len() {
            return false;
        }
        let mut i: usize = 0;
        while i < self.segments.len()
            invariant
                i <= self.segments@.len(),
                self.segments@.len() == other.segments@.len(),
                self.segments@.subrange(0, i as int) == other.segments@.subrange(0, i as int),
            decreases self.segments@.len() - i,
        {
            if self.segments[i] != other.segments[i] {
                proof {
                    assert(self.segments@[i as int] != other.segments@[i as int]);
                }
                return false;
            }
            assert(self.segments@.subrange(0, i + 1) =~= self.segments@.subrange(0, i as int).push(
                self.segments@[i as int],
            ));
            assert(other.segments@.subrange(0, i + 1) =~= other.segments@.subrange(0, i as int).push(
                other.segments@[i as int],
            ));
            i = i + 1;
        }
        assert(self.segments@ =~= self.segments@.subrange(0, i as int));
        assert(other.segments@ =~= other.segments@.subrange(0, i as int));
        true
    }
}

impl vstd::std_specs::cmp::PartialEqSpecImpl for Match {
    open spec fn obeys_eq_spec() -> bool {
        true
    }

    open spec fn eq_spec(&self, other: &Match) -> bool {
        self.segments@ == other.segments@
    }
}

impl Eq for Match {
}

impl Default for Match {
    /// The match of nothing.
    fn default() -> (r: Match)
        ensures
            r.segments@ == Seq::<MatchSegment>::empty(),
    {
        Match { segments: Vec::new() }
    }
}

/// A pattern: a literal run of terminals, a class, a concatenation, or an
/// ordered choice.
#[derive(Debug, PartialEq, Eq)]
pub enum Pattern {
    Terms(Vec<Terminal>),
    NonTerm(NonTerminal),
    And(Box<Pattern>, Box<Pattern>),
    Or(Box<Pattern>, Box<Pattern>),
}

/// `w` begins with `seq`, terminal by terminal, by identity.
pub open spec fn starts_with(w: Seq<Terminal>, seq: Seq<Terminal>) -> bool {
    seq.len() <= w.len() && forall|i: int| 0 <= i < seq.len() ==> #[trigger] w[i].ident() == seq[i].ident()
}

/// A literal run matches where what is left of `w` begins with it.
pub open spec fn run_len(seq: Seq<Terminal>, w: Seq<Terminal>, offset: nat) -> Option<nat> {
    if offset <= w.len() && starts_with(w.subrange(offset as int, w.len() as int), seq) {
        Some(seq.len())
    } else {
        None
    }
}

/// A class matches one terminal, and only the last terminal of `w`.
pub open spec fn class_len(class: NonTerminal, w: Seq<Terminal>, offset: nat) -> Option<nat> {
    if offset + 1 == w.len() && class.reaches(w[offset as int]) {
        Some(1)
    } else {
        None
    }
}

/// How many terminals `p` matches in `w` from `offset`, or `None` when it
/// does not match there.
pub open spec fn match_len(p: Pattern, w: Seq<Terminal>, offset: nat) -> Option<nat>
    decreases p,
{
    match p {
        Pattern::Terms(seq) => run_len(seq@, w, offset),
        Pattern::NonTerm(class) => class_len(class, w, offset),
        Pattern::And(left, right) => match match_len(*left, w, offset) {
            Some(a) => match match_len(*right, w, offset + a) {
                Some(b) => Some(a + b),
                None => None,
            },
            None => None,
        },
        Pattern::Or(left, right) => match match_len(*left, w, offset) {
            Some(a) => Some(a),
            None => match_len(*right, w, offset),
        },
    }
}

/// A match found from `offset` never runs past the end of `w`.
proof fn lemma_match_len_in_bounds(p: Pattern, w: Seq<Terminal>, offset: nat)
    requires
        offset <= w.len(),
    ensures
        match_len(p, w, offset) matches Some(n) ==> offset + n <= w.len(),
    decreases p,
{
    match p {
        Pattern::And(left, right) => {
            lemma_match_len_in_bounds(*left, w, offset);
            if let Some(a) = match_len(*left, w, offset) {
                lemma_match_len_in_bounds(*right, w, offset + a);
            }
        },
        Pattern::Or(left, right) => {
            lemma_match_len_in_bounds(*left, w, offset);
            lemma_match_len_in_bounds(*right, w, offset);
        },
        _ => {},
    }
}

impl Pattern {
    /// Matches the pattern against `terms` from its first position.
    pub fn match_terms(&self, terms: &[Terminal]) -> (r: Match)
        ensures
            r.segments@ == segments_of(match_len(*self, terms@, 0), 0),
    {
        match_pattern(self, terms, 0)
    }
}

fn match_term_pat(pat: &[Terminal], terms: &[Terminal], offset: usize) -> (r: Match)
    requires
        offset <= terms@.len(),
    ensures
        r.segments@ == segments_of(run_len(pat@, terms@, offset as nat), offset as nat),
{
    let n = pat.len();
    let ghost rest = terms@.subrange(offset as int, terms@.len() as int);
    let tl = terms.len();
    let mut ok = n <= tl - offset;
    let mut i: usize = 0;
    while ok && i < n
        invariant
            n == pat@.len(),
            tl == terms@.len(),
            offset <= terms@.len(),
            rest == terms@.subrange(offset as int, terms@.len() as int),
            rest.len() == terms@.len() - offset,
            i <= n,
            ok ==> n <= rest.len(),
            ok == (n <= rest.len() && forall|j: int| 0 <= j < i ==> #[trigger] rest[j].ident() == pat@[j].ident()),
        decreases n - i,
    {
        assert(rest[i as int] == terms@[offset + i]);
        if !(pat[i] == terms[offset + i]) {
            ok = false;
        }
        i = i + 1;
    }
    if ok {
        Match { segments: vec![MatchSegment { start: offset, len: n }] }
    } else {
        Match { segments: Vec::new() }
    }
}

fn match_non_term_pat(non_term: &NonTerminal, terms: &[Terminal], offset: usize) -> (r: Match)
    ensures
        r.segments@ == segments_of(class_len(*non_term, terms@, offset as nat), offset as nat),
{
    if offset < terms.len() && terms.len() - offset == 1 && non_term.contains(&terms[offset]) {
        Match { segments: vec![MatchSegment { start: offset, len: 1 }] }
    } else {
        Match { segments: Vec::new() }
    }
}

fn match_and_pat(left: &Pattern, right: &Pattern, terms: &[Terminal], offset: usize) -> (r: Match)
    requires
        offset <= terms@.len(),
    ensures
        r.segments@ == segments_of(
            match_len(Pattern::And(Box::new(*left), Box::new(*right)), terms@, offset as nat),
            offset as nat,
        ),
    decreases Pattern::And(Box::new(*left), Box::new(*right)), 0nat,
{
    let len = terms.len();
    let mut lmatch = match_pattern(left, terms, offset);
    proof {
        lemma_match_len_in_bounds(*left, terms@, offset as nat);
    }
    if lmatch.matched() {
        let ghost a = match_len(*left, terms@, offset as nat)->Some_0;
        assert(lmatch.segments@[0] == MatchSegment { start: offset, len: a as usize });
        let end = lmatch.general_end();
        assert(end == offset + a);
        let rmatch = match_pattern(right, terms, end);
        proof {
            lemma_match_len_in_bounds(*right, terms@, end as nat);
            if rmatch.segments@.len() > 0 {
                let b = match_len(*right, terms@, end as nat)->Some_0;
                assert(rmatch.segments@[0] == MatchSegment { start: end, len: b as usize });
                assert(merged(lmatch.segments@, rmatch.segments@) =~= seq![
                    MatchSegment { start: offset, len: (a + b) as usize },
                ]);
            }
        }
        lmatch.append(rmatch);
    }
    lmatch
}

fn match_or_pat(left: &Pattern, right: &Pattern, terms: &[Terminal], offset: usize) -> (r: Match)
    requires
        offset <= terms@.len(),
    ensures
        r.segments@ == segments_of(
            match_len(Pattern::Or(Box::new(*left), Box::new(*right)), terms@, offset as nat),
            offset as nat,
        ),
    decreases Pattern::Or(Box::new(*left), Box::new(*right)), 0nat,
{
    let lmatch = match_pattern(left, terms, offset);
    if lmatch.matched() {
        lmatch
    } else {
        match_pattern(right, terms, offset)
    }
}

fn match_pattern(pat: &Pattern, terms: &[Terminal], offset: usize) -> (r: Match)
    requires
        offset <= terms@.len(),
    ensures
        r.segments@ == segments_of(match_len(*pat, terms@, offset as nat), offset as nat),
    decreases *pat, 1nat,
{
    match pat {
        Pattern::Terms(test) => match_term_pat(test.as_slice(), terms, offset),
        Pattern::NonTerm(non_term) => match_non_term_pat(non_term, terms, offset),
        Pattern::And(left, right) => match_and_pat(left, right, terms, offset),
        Pattern::Or(left, right) => match_or_pat(left, right, terms, offset),
    }
}

/// A literal run matches a word exactly when the word begins with it, and
/// then covers the run from the first position.
pub proof fn lemma_terms_match(seq: Vec<Terminal>, w: Seq<Terminal>)
    ensures
        segments_of(match_len(Pattern::Terms(seq), w, 0), 0) == (if starts_with(w, seq@) {
            seq![MatchSegment { start: 0, len: seq@.len() as usize }]
        } else {
            Seq::<MatchSegment>::empty()
        }),
{
    assert(w.subrange(0, w.len() as int) =~= w);
}

/// A class alone matches a word exactly when the word is one terminal long
/// and the class contains that terminal.
pub proof fn lemma_class_match(class: NonTerminal, w: Seq<Terminal>)
    ensures
        segments_of(match_len(Pattern::NonTerm(class), w, 0), 0) == (if w.len() == 1 && class.reaches(
            w[0],
        ) {
            seq![MatchSegment { start: 0, len: 1 }]
        } else {
            Seq::<MatchSegment>::empty()
        }),
{
}

/// Matching keeps no state: two matches of one pattern against one word give
/// equal results.
pub proof fn lemma_match_terms_repeatable(p: Pattern, w: Seq<Terminal>, first: Match, second: Match)
    requires
        first.segments@ == segments_of(match_len(p, w, 0), 0),
        second.segments@ == segments_of(match_len(p, w, 0), 0),
    ensures
        first.segments@ == second.segments@,
{
}

} // verus!
