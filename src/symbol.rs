//! Symbols with identity: terminals, classes of symbols, and the sorted
//! registries that own the canonical copy of each.
use vstd::prelude::*;
use crate::text::{
    compare_text, lemma_text_lt_irreflexive, lemma_text_lt_total, lemma_text_lt_transitive,
    text_lt,
};

verus! {

broadcast use vstd::std_specs::vec::axiom_vec_index_decreases;

/// Hands out symbol identities. Every symbol made from one source has an
/// identity of its own, whatever its description.
#[derive(Debug)]
pub struct IdSource {
    next: u64,
}

impl IdSource {
    /// How many identities this source has handed out.
    pub closed spec fn issued(&self) -> nat {
        self.next as nat
    }

    pub fn new() -> (r: Self)
        ensures
            r.issued() == 0,
    {
        IdSource { next: 0 }
    }

    fn take(&mut self) -> (r: u64)
        requires
            old(self).issued() < u64::MAX,
        ensures
            r == old(self).issued(),
            final(self).issued() == old(self).issued() + 1,
    {
        let r = self.next;
        self.next = self.next + 1;
        r
    }
}

/// A value keyed by a description.
pub trait DescKey {
    spec fn key(&self) -> Seq<char>;

    fn desc(&self) -> (r: &str)
        ensures
            r@ == self.key(),
    ;

    fn cmp_desc(&self, other: &Self) -> (r: core::cmp::Ordering)
        ensures
            (r == core::cmp::Ordering::Less) == text_lt(self.key(), other.key()),
            (r == core::cmp::Ordering::Greater) == text_lt(other.key(), self.key()),
            (r == core::cmp::Ordering::Equal) == (self.key() == other.key()),
    {
        compare_text(self.desc(), other.desc())
    }
}

/// An atomic symbol. Two terminals are equal only when they carry the same
/// identity; their descriptions do not take part. Within one id source an
/// identity fixes the description, so hashing both agrees with equality.
#[derive(Debug, Clone, Hash)]
pub struct Terminal {
    id: u64,
    desc: String,
}

impl Terminal {
    pub closed spec fn ident(&self) -> nat {
        self.id as nat
    }

    /// A fresh terminal: its identity is the next one of `ids`.
    pub fn new(desc: &str, ids: &mut IdSource) -> (r: Self)
        requires
            old(ids).issued() < u64::MAX,
        ensures
            r.key() == desc@,
            r.ident() == old(ids).issued(),
            final(ids).issued() == old(ids).issued() + 1,
    {
        let id = ids.take();
        Terminal { id, desc: desc.to_owned() }
    }
}

impl DescKey for Terminal {
    closed spec fn key(&self) -> Seq<char> {
        self.desc@
    }

    fn desc(&self) -> (r: &str) {
        self.desc.as_str()
    }
}

impl PartialEq for Terminal {
    fn eq(&self, other: &Terminal) -> (r: bool) {
        self.id == other.id
    }
}

impl vstd::std_specs::cmp::PartialEqSpecImpl for Terminal {
    open spec fn obeys_eq_spec() -> bool {
        true
    }

    open spec fn eq_spec(&self, other: &Terminal) -> bool {
        self.ident() == other.ident()
    }
}

impl Eq for Terminal {
}

/// Either kind of named symbol.
#[derive(Debug, Clone, Hash)]
pub enum Symbol {
    Term(Terminal),
    NonTerm(NonTerminal),
}

impl DescKey for Symbol {
    open spec fn key(&self) -> Seq<char> {
        match self {
            Symbol::Term(t) => t.key(),
            Symbol::NonTerm(n) => n.key(),
        }
    }

    fn desc(&self) -> (r: &str) {
        match self {
            Symbol::Term(t) => t.desc(),
            Symbol::NonTerm(n) => n.desc(),
        }
    }
}

impl PartialEq for Symbol {
    fn eq(&self, other: &Symbol) -> (r: bool) {
        match (self, other) {
            (Symbol::Term(a), Symbol::Term(b)) => a == b,
            (Symbol::NonTerm(a), Symbol::NonTerm(b)) => a == b,
            _ => false,
        }
    }
}

impl vstd::std_specs::cmp::PartialEqSpecImpl for Symbol {
    open spec fn obeys_eq_spec() -> bool {
        true
    }

    open spec fn eq_spec(&self, other: &Symbol) -> bool {
        match (self, other) {
            (Symbol::Term(a), Symbol::Term(b)) => a.ident() == b.ident(),
            (Symbol::NonTerm(a), Symbol::NonTerm(b)) => a.ident() == b.ident(),
            _ => false,
        }
    }
}

impl Eq for Symbol {
}

/// A named class of symbols, which may hold other classes. Like a terminal,
/// a class is equal only to itself and its copies.
#[derive(Debug, Clone, Hash)]
pub struct NonTerminal {
    id: u64,
    desc: String,
    members: std::rc::Rc<Vec<Symbol>>,
}

impl NonTerminal {
    pub closed spec fn ident(&self) -> nat {
        self.id as nat
    }

    pub closed spec fn members_view(&self) -> Seq<Symbol> {
        self.members@
    }

    /// `t` is a direct member of this class, or reached through member
    /// classes, any number of levels down.
    pub open spec fn reaches(&self, t: Terminal) -> bool
        decreases self,
    {
        exists|i: int|
            #![trigger self.members_view()[i]]
            0 <= i < self.members_view().len() && match self.members_view()[i] {
                Symbol::Term(x) => x.ident() == t.ident(),
                Symbol::NonTerm(n) => n.reaches(t),
            }
    }

    /// A fresh class with the given members; its identity is the next one of `ids`.
    pub fn new(desc: &str, members: Vec<Symbol>, ids: &mut IdSource) -> (r: Self)
        requires
            old(ids).issued() < u64::MAX,
        ensures
            r.key() == desc@,
            r.members_view() == members@,
            r.ident() == old(ids).issued(),
            final(ids).issued() == old(ids).issued() + 1,
    {
        let id = ids.take();
        NonTerminal { id, desc: desc.to_owned(), members: std::rc::Rc::new(members) }
    }

    pub fn contains(&self, term: &Terminal) -> (r: bool)
        ensures
            r == self.reaches(*term),
        decreases self,
    {
        let mut i: usize = 0;
        while i < self.members.len()
            invariant
                i <= self.members@.len(),
                forall|j: int|
                    0 <= j < i ==> match #[trigger] self.members_view()[j] {
                        Symbol::Term(x) => x.ident() != term.ident(),
                        Symbol::NonTerm(n) => !n.reaches(*term),
                    },
            decreases self.members@.len() - i,
        {
            match &self.members[i] {
                Symbol::Term(other) => {
                    if other == term {
                        return true;
                    }
                },
                Symbol::NonTerm(other) => {
                    proof {
                        assert(decreases_to!(*self.members => self.members[i as int]));
                    }
                    if other.contains(term) {
                        return true;
                    }
                },
            }
            i = i + 1;
        }
        false
    }

    pub fn members(&self) -> (r: &[Symbol])
        ensures
            r@ == self.members_view(),
    {
        self.members.as_slice()
    }
}

impl DescKey for NonTerminal {
    closed spec fn key(&self) -> Seq<char> {
        self.desc@
    }

    fn desc(&self) -> (r: &str) {
        self.desc.as_str()
    }
}

impl PartialEq for NonTerminal {
    fn eq(&self, other: &NonTerminal) -> (r: bool) {
        self.id == other.id
    }
}

impl vstd::std_specs::cmp::PartialEqSpecImpl for NonTerminal {
    open spec fn obeys_eq_spec() -> bool {
        true
    }

    open spec fn eq_spec(&self, other: &NonTerminal) -> bool {
        self.ident() == other.ident()
    }
}

impl Eq for NonTerminal {
}

/// Keys strictly ascending: sorted, and no key twice.
pub open spec fn keys_ascending<S: DescKey>(s: Seq<S>) -> bool {
    forall|i: int, j: int| 0 <= i < j < s.len() ==> text_lt(#[trigger] s[i].key(), #[trigger] s[j].key())
}

/// No entry after position `i` and before `k` shares the key of entry `i`.
#[verifier::opaque]
pub open spec fn last_before<S: DescKey>(s: Seq<S>, i: int, k: int) -> bool {
    forall|j: int| i < j < k ==> #[trigger] s[j].key() != s[i].key()
}

/// `i` is the last position of `s` that holds its key.
pub open spec fn is_last<S: DescKey>(s: Seq<S>, i: int) -> bool {
    0 <= i < s.len() && last_before(s, i, s.len() as int)
}

/// `t` holds, in ascending key order, the entry at each position of `s` that
/// is the last to hold its key, and nothing else.
pub open spec fn shadowed_by_last<S: DescKey>(s: Seq<S>, t: Seq<S>) -> bool {
    &&& keys_ascending(t)
    &&& forall|x: int| 0 <= x < t.len() ==> #[trigger] last_entry_of(s, t[x])
    &&& forall|i: int| #[trigger] is_last(s, i) ==> t.contains(s[i])
}

/// `e` stands in `s` at a position that is the last to hold its key.
pub open spec fn last_entry_of<S: DescKey>(s: Seq<S>, e: S) -> bool {
    exists|i: int| #[trigger] is_last(s, i) && s[i] == e
}

/// A registry of symbols, sorted by description, with at most one entry per
/// description.
#[derive(Debug, Clone, PartialEq, Eq)]
pub struct Table<S: DescKey> {
    elems: Vec<S>,
}

impl<S: DescKey> Table<S> {
    /// Entries are sorted by description, and no description comes twice.
    pub open spec fn wf(&self) -> bool {
        keys_ascending(self.entries())
    }

    pub closed spec fn entries(&self) -> Seq<S> {
        self.elems@
    }

    /// Builds the registry. Of entries that share a description, the one that
    /// comes last in `entries` is kept.
    pub fn new(entries: Vec<S>) -> (r: Self)
        ensures
            r.wf(),
            shadowed_by_last(entries@, r.entries()),
    {
        let ghost orig = entries@;
        let n = entries.len();
        let mut rest = entries;
        let mut out: Vec<S> = Vec::new();
        let mut k: usize = 0;
        while rest.len() > 0
            invariant
                k + rest@.len() == orig.len(),
                rest@ == orig.subrange(k as int, orig.len() as int),
                orig.len() == n,
                keys_ascending(out@),
                kept_last(orig, k as int, out@),
                covers_last(orig, k as int, out@),
            decreases rest@.len(),
        {
            let e = rest.remove(0);
            assert(e == orig[k as int]);
            let ghost old_out = out@;
            place(&mut out, e);
            proof {
                lemma_step_kept(orig, k as int, old_out, out@);
                lemma_step_found(orig, k as int, old_out, out@);
            }
            k = k + 1;
            assert(rest@ =~= orig.subrange(k as int, orig.len() as int));
        }
        proof {
            reveal(last_before);
            assert(rest@.len() == 0);
            assert(k == orig.len());
            assert(keys_ascending(out@));
            assert forall|i: int| #[trigger] is_last(orig, i) implies out@.contains(orig[i]) by {
                assert(last_before(orig, i, k as int));
            }
            assert forall|x: int| 0 <= x < out@.len() implies #[trigger] last_entry_of(orig, out@[x]) by {
                assert(kept_last(orig, k as int, out@));
                assert(out@[x] == out@[x]);
                let i = choose|i: int|
                    0 <= i < k && #[trigger] last_before(orig, i, k as int) && orig[i] == out@[x];
                assert(is_last(orig, i));
            }
        }
        Table { elems: out }
    }
}

/// Each entry of `out` is the last among the first `k` of `orig` to hold its key.
spec fn kept_last<S: DescKey>(orig: Seq<S>, k: int, out: Seq<S>) -> bool {
    forall|x: int|
        #![trigger out[x]]
        0 <= x < out.len() ==> exists|i: int|
            0 <= i < k && #[trigger] last_before(orig, i, k) && orig[i] == out[x]
}

/// Each of the first `k` of `orig` that is the last to hold its key is in `out`.
spec fn covers_last<S: DescKey>(orig: Seq<S>, k: int, out: Seq<S>) -> bool {
    forall|i: int|
        0 <= i < k && #[trigger] last_before(orig, i, k) ==> exists|x: int|
            0 <= x < out.len() && out[x] == orig[i]
}

/// What `place` guarantees of putting `e` into `old_out`, giving `out`.
spec fn placed<S: DescKey>(old_out: Seq<S>, e: S, out: Seq<S>) -> bool {
    &&& exists|x: int| 0 <= x < out.len() && out[x] == e
    &&& forall|x: int|
        #![trigger out[x]]
        0 <= x < out.len() ==> out[x] == e || exists|y: int|
            0 <= y < old_out.len() && old_out[y] == out[x] && old_out[y].key() != e.key()
    &&& forall|y: int|
        #![trigger old_out[y]]
        0 <= y < old_out.len() && old_out[y].key() != e.key() ==> exists|x: int|
            0 <= x < out.len() && out[x] == old_out[y]
}

#[verifier::rlimit(100)]
proof fn lemma_step_kept<S: DescKey>(orig: Seq<S>, k: int, old_out: Seq<S>, out: Seq<S>)
    requires
        0 <= k < orig.len(),
        kept_last(orig, k, old_out),
        placed(old_out, orig[k], out),
    ensures
        kept_last(orig, k + 1, out),
{
    reveal(last_before);
    let e = orig[k];
    assert forall|x: int|
        #![trigger out[x]]
        0 <= x < out.len() implies exists|i: int|
        0 <= i < k + 1 && #[trigger] last_before(orig, i, k + 1) && orig[i] == out[x] by {
        if out[x] == e {
            assert(last_before(orig, k, k + 1));
        } else {
            let y = choose|y: int|
                0 <= y < old_out.len() && old_out[y] == out[x] && old_out[y].key() != e.key();
            let i = choose|i: int|
                0 <= i < k && #[trigger] last_before(orig, i, k) && orig[i] == old_out[y];
            assert(last_before(orig, i, k + 1));
        }
    }
}

proof fn lemma_step_found<S: DescKey>(orig: Seq<S>, k: int, old_out: Seq<S>, out: Seq<S>)
    requires
        0 <= k < orig.len(),
        covers_last(orig, k, old_out),
        placed(old_out, orig[k], out),
    ensures
        covers_last(orig, k + 1, out),
{
    reveal(last_before);
    let e = orig[k];
    assert forall|i: int|
        0 <= i < k + 1 && #[trigger] last_before(orig, i, k + 1) implies exists|x: int|
        0 <= x < out.len() && out[x] == orig[i] by {
        if i < k {
            assert(last_before(orig, i, k));
            let y = choose|y: int| 0 <= y < old_out.len() && old_out[y] == orig[i];
            assert(orig[k].key() != orig[i].key());
            assert(old_out[y].key() != e.key());
        }
    }
}

impl<S: DescKey> Table<S> {
    pub fn as_slice(&self) -> (r: &[S])
        ensures
            r@ == self.entries(),
    {
        self.elems.as_slice()
    }

    /// The entry whose description is `desc`, by binary search.
    pub fn find(&self, desc: &str) -> (r: Option<&S>)
        requires
            self.wf(),
        ensures
            match r {
                Some(e) => e.key() == desc@ && self.entries().contains(*e),
                None => forall|i: int|
                    0 <= i < self.entries().len() ==> #[trigger] self.entries()[i].key() != desc@,
            },
    {
        let mut lo: usize = 0;
        let mut hi: usize = self.elems.len();
        while lo < hi
            invariant
                self.wf(),
                lo <= hi <= self.elems@.len(),
                forall|i: int| 0 <= i < lo ==> text_lt(#[trigger] self.elems@[i].key(), desc@),
                forall|i: int| hi <= i < self.elems@.len() ==> text_lt(desc@, #[trigger] self.elems@[i].key()),
            decreases hi - lo,
        {
            let mid = lo + (hi - lo) / 2;
            match compare_text(self.elems[mid].desc(), desc) {
                core::cmp::Ordering::Equal => {
                    return Some(&self.elems[mid]);
                },
                core::cmp::Ordering::Less => {
                    proof {
                        assert forall|i: int| 0 <= i < mid + 1 implies text_lt(
                            #[trigger] self.elems@[i].key(),
                            desc@,
                        ) by {
                            if i < mid {
                                lemma_text_lt_transitive(self.elems@[i].key(), self.elems@[mid as int].key(), desc@);
                            }
                        }
                    }
                    lo = mid + 1;
                },
                core::cmp::Ordering::Greater => {
                    proof {
                        assert forall|i: int| mid <= i < self.elems@.len() implies text_lt(
                            desc@,
                            #[trigger] self.elems@[i].key(),
                        ) by {
                            if i > mid {
                                lemma_text_lt_transitive(desc@, self.elems@[mid as int].key(), self.elems@[i].key());
                            }
                        }
                    }
                    hi = mid;
                },
            }
        }
        proof {
            assert forall|i: int| 0 <= i < self.entries().len() implies #[trigger] self.entries()[i].key() != desc@ by {
                lemma_text_lt_irreflexive(desc@);
            }
        }
        None
    }
}

/// A sequence of terminals.
#[derive(Debug, Clone, PartialEq, Eq)]
pub struct Word {
    pub symbols: Vec<Terminal>,
}

/// Every description in the input has exactly one entry in a table built from
/// it, and that entry is the one that came last in the input.
pub proof fn lemma_table_keeps_last<S: DescKey>(input: Seq<S>, t: Seq<S>)
    requires
        shadowed_by_last(input, t),
    ensures
        forall|i: int| 0 <= i < input.len() ==> #[trigger] one_entry_for(input, t, input[i].key()),
        forall|x: int| 0 <= x < t.len() ==> #[trigger] last_entry_of(input, t[x]),
{
    assert forall|i: int| 0 <= i < input.len() implies #[trigger] one_entry_for(input, t, input[i].key()) by {
        lemma_last_of_key_exists(input, i);
        let j = choose|j: int| is_last(input, j) && input[j].key() == input[i].key();
        assert(t.contains(input[j]));
        let x = choose|x: int| 0 <= x < t.len() && t[x] == input[j];
        assert(last_entry_of(input, t[x]));
        assert forall|y: int| 0 <= y < t.len() && t[y].key() == input[i].key() implies y == x by {
            lemma_text_lt_irreflexive(t[x].key());
            if y < x {
                assert(text_lt(t[y].key(), t[x].key()));
            } else if y > x {
                assert(text_lt(t[x].key(), t[y].key()));
            }
        }
    }
}

/// Exactly one entry of `t` has the key `d`, and it is the last entry of
/// `input` with that key.
pub open spec fn one_entry_for<S: DescKey>(input: Seq<S>, t: Seq<S>, d: Seq<char>) -> bool {
    exists|x: int|
        0 <= x < t.len() && #[trigger] t[x].key() == d && last_entry_of(input, t[x]) && forall|y: int|
            0 <= y < t.len() && #[trigger] t[y].key() == d ==> y == x
}

proof fn lemma_last_of_key_exists<S: DescKey>(s: Seq<S>, i: int)
    requires
        0 <= i < s.len(),
    ensures
        exists|j: int| is_last(s, j) && #[trigger] s[j].key() == s[i].key(),
    decreases s.len() - i,
{
    reveal(last_before);
    if is_last(s, i) {
        assert(s[i].key() == s[i].key());
    } else {
        let j = choose|j: int| i < j < s.len() && #[trigger] s[j].key() == s[i].key();
        lemma_last_of_key_exists(s, j);
    }
}

/// A terminal made from an id source differs from every terminal that the
/// source handed out before, whatever the descriptions; and every terminal is
/// equal to itself.
pub proof fn lemma_new_terminal_is_fresh(earlier: Terminal, later: Terminal, ids: IdSource)
    requires
        earlier.ident() < ids.issued(),
        later.ident() == ids.issued(),
    ensures
        !<Terminal as vstd::std_specs::cmp::PartialEqSpec>::eq_spec(&earlier, &later),
        !<Terminal as vstd::std_specs::cmp::PartialEqSpec>::eq_spec(&later, &earlier),
        <Terminal as vstd::std_specs::cmp::PartialEqSpec>::eq_spec(&earlier, &earlier),
        <Terminal as vstd::std_specs::cmp::PartialEqSpec>::eq_spec(&later, &later),
{
}

/// `path` leads down from `n`, each class in it a member of the one before.
pub open spec fn member_chain(n: NonTerminal, path: Seq<NonTerminal>) -> bool {
    &&& path.len() > 0
    &&& path[0] == n
    &&& forall|k: int|
        #![trigger path[k]]
        0 <= k < path.len() - 1 ==> path[k].members_view().contains(Symbol::NonTerm(path[k + 1]))
}

/// `t` stands among the members of `n` itself.
pub open spec fn direct_member(n: NonTerminal, t: Terminal) -> bool {
    exists|i: int|
        0 <= i < n.members_view().len() && (#[trigger] n.members_view()[i] matches Symbol::Term(x)
            && x.ident() == t.ident())
}

/// A class contains a terminal exactly when a chain of member classes leads
/// from it, in zero or more steps, to a class of which the terminal is a
/// direct member.
pub proof fn lemma_reaches_by_chain(n: NonTerminal, t: Terminal)
    ensures
        n.reaches(t) <==> exists|path: Seq<NonTerminal>|
            member_chain(n, path) && #[trigger] direct_member(path.last(), t),
{
    if n.reaches(t) {
        lemma_chain_of_reaches(n, t);
    }
    if exists|path: Seq<NonTerminal>| member_chain(n, path) && #[trigger] direct_member(path.last(), t) {
        let path = choose|path: Seq<NonTerminal>|
            member_chain(n, path) && #[trigger] direct_member(path.last(), t);
        lemma_reaches_of_chain(n, t, path);
    }
}

proof fn lemma_chain_of_reaches(n: NonTerminal, t: Terminal)
    requires
        n.reaches(t),
    ensures
        exists|path: Seq<NonTerminal>| member_chain(n, path) && #[trigger] direct_member(path.last(), t),
    decreases n,
{
    let i = choose|i: int|
        #![trigger n.members_view()[i]]
        0 <= i < n.members_view().len() && match n.members_view()[i] {
            Symbol::Term(x) => x.ident() == t.ident(),
            Symbol::NonTerm(m) => m.reaches(t),
        };
    match n.members_view()[i] {
        Symbol::Term(x) => {
            let path = seq![n];
            assert(direct_member(path.last(), t));
            assert(member_chain(n, path));
        },
        Symbol::NonTerm(m) => {
            assert(decreases_to!(n => m)) by {
                lemma_member_decreases(n, i);
            }
            lemma_chain_of_reaches(m, t);
            let sub = choose|sub: Seq<NonTerminal>|
                member_chain(m, sub) && #[trigger] direct_member(sub.last(), t);
            let path = seq![n] + sub;
            assert(path.last() == sub.last());
            assert(path[1] == sub[0]);
            assert forall|k: int|
                #![trigger path[k]]
                0 <= k < path.len() - 1 implies path[k].members_view().contains(
                Symbol::NonTerm(path[k + 1]),
            ) by {
                if k == 0 {
                    assert(n.members_view()[i] == Symbol::NonTerm(path[1]));
                } else {
                    assert(path[k] == sub[k - 1]);
                    assert(path[k + 1] == sub[k]);
                    assert(sub[k - 1].members_view().contains(Symbol::NonTerm(sub[k])));
                }
            }
            assert(member_chain(n, path));
        },
    }
}

proof fn lemma_member_decreases(n: NonTerminal, i: int)
    requires
        0 <= i < n.members_view().len(),
        n.members_view()[i] is NonTerm,
    ensures
        decreases_to!(n => n.members_view()[i]->NonTerm_0),
{
    assert(decreases_to!(*n.members => n.members[i]));
}

proof fn lemma_reaches_of_chain(n: NonTerminal, t: Terminal, path: Seq<NonTerminal>)
    requires
        member_chain(n, path),
        direct_member(path.last(), t),
    ensures
        n.reaches(t),
    decreases path.len(),
{
    if path.len() == 1 {
        let i = choose|i: int|
            0 <= i < n.members_view().len() && (#[trigger] n.members_view()[i] matches Symbol::Term(x)
                && x.ident() == t.ident());
        assert(n.members_view()[i] == n.members_view()[i]);
    } else {
        let rest = path.drop_first();
        assert forall|k: int|
            #![trigger rest[k]]
            0 <= k < rest.len() - 1 implies rest[k].members_view().contains(
            Symbol::NonTerm(rest[k + 1]),
        ) by {
            assert(rest[k] == path[k + 1]);
            assert(rest[k + 1] == path[k + 2]);
        }
        lemma_reaches_of_chain(path[1], t, rest);
        assert(path[0] == n);
        assert(path[0].members_view().contains(Symbol::NonTerm(path[1])));
        let i = choose|i: int| 0 <= i < n.members_view().len() && n.members_view()[i] == Symbol::NonTerm(path[1]);
        assert(n.members_view()[i] == n.members_view()[i]);
    }
}

/// The first position whose key is not below the key of `e`.
fn lower_bound<S: DescKey>(out: &Vec<S>, e: &S) -> (p: usize)
    ensures
        p <= out@.len(),
        forall|y: int| 0 <= y < p ==> text_lt(#[trigger] out@[y].key(), e.key()),
        p < out@.len() ==> !text_lt(out@[p as int].key(), e.key()),
{
    let mut p: usize = 0;
    while p < out.len()
        invariant
            p <= out@.len(),
            forall|y: int| 0 <= y < p ==> text_lt(#[trigger] out@[y].key(), e.key()),
        decreases out@.len() - p,
    {
        if !matches!(out[p].cmp_desc(e), core::cmp::Ordering::Less) {
            return p;
        }
        p = p + 1;
    }
    p
}

/// Puts `e` into an ascending sequence, in place of the entry with its key
/// if there is one.
#[verifier::rlimit(40)]
fn place<S: DescKey>(out: &mut Vec<S>, e: S)
    requires
        keys_ascending(old(out)@),
    ensures
        keys_ascending(final(out)@),
        placed(old(out)@, e, final(out)@),
{
    let ghost old_out = out@;
    let p = lower_bound(out, &e);
    proof {
        lemma_text_lt_irreflexive(e.key());
        if p < out@.len() {
            lemma_text_lt_total(out@[p as int].key(), e.key());
        }
    }
    if p < out.len() && matches!(out[p].cmp_desc(&e), core::cmp::Ordering::Equal) {
        out.set(p, e);
        proof {
            assert(out@[p as int] == e);
            assert forall|x: int|
                #![trigger out@[x]]
                0 <= x < out@.len() implies out@[x] == e || exists|y: int|
                0 <= y < old_out.len() && old_out[y] == out@[x] && old_out[y].key() != e.key() by {
                if x != p {
                    assert(old_out[x] == out@[x]);
                    if x < p {
                        assert(text_lt(old_out[x].key(), old_out[p as int].key()));
                    } else {
                        assert(text_lt(old_out[p as int].key(), old_out[x].key()));
                    }
                    lemma_text_lt_irreflexive(old_out[x].key());
                }
            }
            assert forall|y: int|
                #![trigger old_out[y]]
                0 <= y < old_out.len() && old_out[y].key() != e.key() implies exists|x: int|
                0 <= x < out@.len() && out@[x] == old_out[y] by {
                assert(y != p);
                assert(out@[y] == old_out[y]);
            }
        }
    } else {
        out.insert(p, e);
        proof {
            assert(out@[p as int] == e);
            assert forall|y: int, z: int| 0 <= y < z < out@.len() implies text_lt(
                #[trigger] out@[y].key(),
                #[trigger] out@[z].key(),
            ) by {
                if z == p {
                } else if y == p {
                    if z - 1 != p {
                        lemma_text_lt_transitive(e.key(), old_out[p as int].key(), old_out[z - 1].key());
                    }
                } else if y < p && z > p {
                    if z - 1 != p {
                        lemma_text_lt_transitive(e.key(), old_out[p as int].key(), old_out[z - 1].key());
                    }
                    lemma_text_lt_transitive(old_out[y].key(), e.key(), old_out[z - 1].key());
                } else if y > p {
                    assert(text_lt(old_out[y - 1].key(), old_out[z - 1].key()));
                }
            }
            assert forall|x: int|
                #![trigger out@[x]]
                0 <= x < out@.len() implies out@[x] == e || exists|y: int|
                0 <= y < old_out.len() && old_out[y] == out@[x] && old_out[y].key() != e.key() by {
                if x != p {
                    let ox = if x < p { x } else { x - 1 };
                    assert(out@[x] == old_out[ox]);
                    if ox > p {
                        lemma_text_lt_transitive(e.key(), old_out[p as int].key(), old_out[ox].key());
                    }
                }
            }
            assert forall|y: int|
                #![trigger old_out[y]]
                0 <= y < old_out.len() && old_out[y].key() != e.key() implies exists|x: int|
                0 <= x < out@.len() && out@[x] == old_out[y] by {
                if y < p {
                    assert(out@[y] == old_out[y]);
                } else {
                    assert(out@[y + 1] == old_out[y]);
                }
            }
        }
    }
}

} // verus!
