use std::collections::HashMap;
use vstd::prelude::*;
use crate::tokens::Token;

verus! {

broadcast use {vstd::std_specs::hash::group_hash_axioms, vstd::utf8::char_u32_cast};

/// A deterministic finite automaton.
///
/// `transitions` is a two-level table: state, then the code point of a
/// symbol, to the target state. `accept` maps each accept state to its label.
#[derive(Debug, Clone)]
pub struct DFA {
    pub transitions: HashMap<usize, HashMap<u32, usize>>,
    pub start: usize,
    pub accept: HashMap<usize, String>,
}

/// A lexical error: the 1-based line and column of the position where no
/// token could be matched, and the character found there.
#[derive(Debug, Clone, Copy, PartialEq, Eq)]
pub struct LexicalError {
    pub line: usize,
    pub column: usize,
    pub ch: char,
}

impl LexicalError {
    pub open spec fn view(&self) -> (int, int, char) {
        (self.line as int, self.column as int, self.ch)
    }
}

impl DFA {
    /// The target of the transition from `s` on `c`, if one is recorded.
    pub open spec fn next(&self, s: usize, c: char) -> Option<usize> {
        if self.transitions@.contains_key(s) && self.transitions@[s]@.contains_key(c as u32) {
            Some(self.transitions@[s]@[c as u32])
        } else {
            None
        }
    }

    /// The label of `s`, if `s` is an accept state.
    pub open spec fn label(&self, s: usize) -> Option<Seq<char>> {
        if self.accept@.contains_key(s) {
            Some(self.accept@[s]@)
        } else {
            None
        }
    }

    /// The state reached from `s` by reading all of `w`, if every step is defined.
    pub open spec fn run(&self, s: usize, w: Seq<char>) -> Option<usize>
        decreases w.len(),
    {
        if w.len() == 0 {
            Some(s)
        } else {
            match self.run(s, w.drop_last()) {
                Some(t) => self.next(t, w.last()),
                None => None,
            }
        }
    }

    /// The DFA reaches an accept state from its start state on `w`.
    pub open spec fn accepts(&self, w: Seq<char>) -> bool {
        match self.run(self.start, w) {
            Some(q) => self.accept@.contains_key(q),
            None => false,
        }
    }

    /// The accept state reached by reading `s[i..e]` from the start state,
    /// for a non-empty range `i < e` within `s`.
    pub open spec fn match_state(&self, s: Seq<char>, i: int, e: int) -> Option<usize> {
        if 0 <= i < e <= s.len() {
            match self.run(self.start, s.subrange(i, e)) {
                Some(q) => if self.accept@.contains_key(q) {
                    Some(q)
                } else {
                    None
                },
                None => None,
            }
        } else {
            None
        }
    }

    /// `s[i..e]` is the longest non-empty prefix of `s[i..]` on which the DFA
    /// ends in an accept state.
    pub open spec fn is_longest_match(&self, s: Seq<char>, i: int, e: int) -> bool {
        &&& self.match_state(s, i, e) is Some
        &&& forall|e2: int| e < e2 <= s.len() ==> #[trigger] self.match_state(s, i, e2) is None
    }

    /// A DFA with start state `start`, no transitions and no accept states.
    pub fn new(start: usize) -> (r: DFA)
        ensures
            r.start == start,
            r.transitions@ == Map::<usize, HashMap<u32, usize>>::empty(),
            r.accept@ == Map::<usize, String>::empty(),
    {
        DFA { transitions: HashMap::new(), start, accept: HashMap::new() }
    }

    /// Records the transition `from --c--> to`, replacing any earlier one for
    /// the same state and symbol.
    pub fn add_transition(&mut self, from: usize, c: char, to: usize)
        ensures
            final(self).start == old(self).start,
            final(self).accept == old(self).accept,
            forall|s: usize, d: char|
                #[trigger] final(self).next(s, d) == if s == from && d == c {
                    Some(to)
                } else {
                    old(self).next(s, d)
                },
    {
        let key: u32 = c as u32;
        let mut row = match self.transitions.remove(&from) {
            Some(r) => r,
            None => HashMap::new(),
        };
        row.insert(key, to);
        self.transitions.insert(from, row);
        assert forall|s: usize, d: char|
            #[trigger] self.next(s, d) == if s == from && d == c {
                Some(to)
            } else {
                old(self).next(s, d)
            } by {
            if s == from && d != c {
                vstd::utf8::char_u32_cast(d, d as u32);
                vstd::utf8::char_u32_cast(c, key);
                assert(d as u32 != key);
            }
        }
    }

    /// Makes `s` an accept state with label `label`.
    pub fn add_accept(&mut self, s: usize, label: String)
        ensures
            final(self).start == old(self).start,
            final(self).transitions == old(self).transitions,
            final(self).accept@ == old(self).accept@.insert(s, label),
    {
        self.accept.insert(s, label);
    }

    /// Looks up the transition from `s` on `c`.
    pub fn step(&self, s: usize, c: char) -> (r: Option<usize>)
        ensures
            r == self.next(s, c),
    {
        match self.transitions.get(&s) {
            Some(row) => match row.get(&(c as u32)) {
                Some(t) => Some(*t),
                None => None,
            },
            None => None,
        }
    }
}

/// Whether `c` has the Unicode White_Space property, as `char::is_whitespace` reports.
pub uninterp spec fn white_space(c: char) -> bool;

/// The whitespace flag of each character of `s`.
pub open spec fn whitespace_flags(s: Seq<char>) -> Seq<bool> {
    Seq::new(s.len(), |k: int| white_space(s[k]))
}

/// The 1-based line and column of position `n` of `s`: the line counts the
/// newlines before `n`, the column restarts at 1 after each of them.
pub open spec fn line_col(s: Seq<char>, n: int) -> (int, int)
    decreases n,
{
    if n <= 0 {
        (1, 1)
    } else {
        let (l, c) = line_col(s, n - 1);
        if s[n - 1] == '\n' {
            (l + 1, 1)
        } else {
            (l, c + 1)
        }
    }
}

/// The tokens as (category, lexeme) pairs.
pub open spec fn tokens_view(ts: Seq<Token>) -> Seq<(Seq<char>, Seq<char>)> {
    ts.map_values(|t: Token| t@)
}

/// Puts `p` in front of the tokens of a successful scan; an error stays as it is.
pub open spec fn prepend(
    p: Seq<(Seq<char>, Seq<char>)>,
    r: Result<Seq<(Seq<char>, Seq<char>)>, (int, int, char)>,
) -> Result<Seq<(Seq<char>, Seq<char>)>, (int, int, char)> {
    match r {
        Ok(ts) => Ok(p + ts),
        Err(e) => Err(e),
    }
}

/// The outcome of a scan in terms of views.
pub open spec fn scan_view(r: Result<Vec<Token>, LexicalError>) -> Result<
    Seq<(Seq<char>, Seq<char>)>,
    (int, int, char),
> {
    match r {
        Ok(ts) => Ok(tokens_view(ts@)),
        Err(e) => Err(e@),
    }
}

/// Maximal-munch scan of `s` from position `i`, where `ws[k]` says whether
/// `s[k]` is whitespace: whitespace is skipped; otherwise the longest match
/// from `i` becomes a token labelled by the accept state that ends it, and
/// the scan goes on after it; where no match exists the scan fails with the
/// line, column and character at `i`.
pub open spec fn scan_spec(dfa: DFA, s: Seq<char>, ws: Seq<bool>, i: int) -> Result<
    Seq<(Seq<char>, Seq<char>)>,
    (int, int, char),
>
    decreases s.len() - i,
{
    if i < 0 || i >= s.len() {
        Ok(Seq::empty())
    } else if ws[i] {
        scan_spec(dfa, s, ws, i + 1)
    } else if exists|e: int| dfa.is_longest_match(s, i, e) {
        let e = choose|e: int| dfa.is_longest_match(s, i, e);
        let q = dfa.match_state(s, i, e)->Some_0;
        prepend(seq![(dfa.accept@[q]@, s.subrange(i, e))], scan_spec(dfa, s, ws, e))
    } else {
        let (l, c) = line_col(s, i);
        Err((l, c, s[i]))
    }
}

/// Relies on `char::is_whitespace`: whether `c` has the White_Space
/// property, which depends on `c` alone.
#[verifier::external_body]
fn is_whitespace(c: char) -> (r: bool)
    ensures
        r == white_space(c),
{
    c.is_whitespace()
}

/// The characters of `s`, in order.
fn chars_of(s: &str) -> (r: Vec<char>)
    ensures
        r@ == s@,
{
    let mut v: Vec<char> = Vec::new();
    for c in it: s.chars()
        invariant
            it.seq() == s@,
            v@ == s@.subrange(0, it.index() as int),
    {
        v.push(c);
        assert(v@ =~= s@.subrange(0, it.index() + 1));
    }
    assert(v@ =~= s@);
    v
}

/// Relies on `String`'s `FromIterator<char>`: the string of the characters of `v`.
#[verifier::external_body]
fn string_of(v: &Vec<char>) -> (r: String)
    ensures
        r@ == v@,
{
    v.iter().collect()
}

proof fn lemma_line_col_bounds(s: Seq<char>, n: int)
    requires
        n >= 0,
    ensures
        1 <= line_col(s, n).0 <= n + 1,
        1 <= line_col(s, n).1 <= n + 1,
    decreases n,
{
    if n > 0 {
        lemma_line_col_bounds(s, n - 1);
    }
}

/// Once a run gets stuck at `j`, it stays stuck on every longer range.
proof fn lemma_run_stuck(dfa: DFA, s: Seq<char>, i: int, j: int, e: int)
    requires
        0 <= i <= j < e <= s.len(),
        dfa.run(dfa.start, s.subrange(i, j + 1)) is None,
    ensures
        dfa.run(dfa.start, s.subrange(i, e)) is None,
    decreases e,
{
    if e > j + 1 {
        lemma_run_stuck(dfa, s, i, j, e - 1);
        assert(s.subrange(i, e).drop_last() =~= s.subrange(i, e - 1));
    }
}

/// The 1-based line and column of position `index` of `input`.
pub fn compute_line_and_column(input: &[char], index: usize) -> (r: (usize, usize))
    requires
        index < input@.len(),
    ensures
        (r.0 as int, r.1 as int) == line_col(input@, index as int),
{
    let mut line: usize = 1;
    let mut column: usize = 1;
    let mut k: usize = 0;
    while k < index
        invariant
            k <= index < input@.len(),
            (line as int, column as int) == line_col(input@, k as int),
        decreases index - k,
    {
        proof {
            lemma_line_col_bounds(input@, k as int);
        }
        if input[k] == '\n' {
            line += 1;
            column = 1;
        } else {
            column += 1;
        }
        k += 1;
    }
    (line, column)
}

/// Scans `chars` with `dfa`, where `ws[k]` says whether `chars[k]` is
/// whitespace, by maximal munch (see `scan_spec`).
pub fn scan_chars(dfa: &DFA, chars: &Vec<char>, ws: &Vec<bool>) -> (r: Result<Vec<Token>, LexicalError>)
    requires
        ws@.len() == chars@.len(),
    ensures
        scan_view(r) == scan_spec(*dfa, chars@, ws@, 0),
{
    let mut tokens: Vec<Token> = Vec::new();
    let len = chars.len();
    let mut i: usize = 0;
    assert(tokens_view(tokens@) =~= Seq::empty());
    assert(prepend(Seq::empty(), scan_spec(*dfa, chars@, ws@, 0)) == scan_spec(*dfa, chars@, ws@, 0)) by {
        match scan_spec(*dfa, chars@, ws@, 0) {
            Ok(ts) => assert(Seq::<(Seq<char>, Seq<char>)>::empty() + ts =~= ts),
            Err(_) => {},
        }
    }
    while i < len
        invariant
            i <= len,
            len == chars@.len(),
            ws@.len() == len,
            scan_spec(*dfa, chars@, ws@, 0) == prepend(
                tokens_view(tokens@),
                scan_spec(*dfa, chars@, ws@, i as int),
            ),
        decreases len - i,
    {
        if ws[i] {
            i += 1;
            continue;
        }
        let mut cur: usize = dfa.start;
        let mut last: Option<usize> = None;
        let mut last_end: usize = i;
        let mut j: usize = i;
        let mut stuck: bool = false;
        assert(chars@.subrange(i as int, i as int) =~= Seq::<char>::empty());
        while j < len && !stuck
            invariant
                i < len,
                i <= j <= len,
                len == chars@.len(),
                dfa.run(dfa.start, chars@.subrange(i as int, j as int)) == Some(cur),
                stuck ==> j < len && dfa.next(cur, chars@[j as int]) is None,
                last is None ==> forall|e: int|
                    i < e <= j ==> #[trigger] dfa.match_state(chars@, i as int, e) is None,
                last is Some ==> {
                    &&& i < last_end <= j
                    &&& dfa.match_state(chars@, i as int, last_end as int) == last
                    &&& forall|e: int|
                        last_end < e <= j ==> #[trigger] dfa.match_state(chars@, i as int, e) is None
                },
            decreases len - j, if stuck { 0int } else { 1int },
        {
            assert(chars@.subrange(i as int, j + 1).drop_last() =~= chars@.subrange(i as int, j as int));
            match dfa.step(cur, chars[j]) {
                Some(nx) => {
                    cur = nx;
                    if dfa.accept.contains_key(&cur) {
                        last = Some(cur);
                        last_end = j + 1;
                    }
                    j += 1;
                },
                None => {
                    stuck = true;
                },
            }
        }
        assert forall|e: int| j < e <= len implies #[trigger] dfa.match_state(chars@, i as int, e) is None by {
            assert(chars@.subrange(i as int, j + 1).drop_last() =~= chars@.subrange(i as int, j as int));
            lemma_run_stuck(*dfa, chars@, i as int, j as int, e);
        }
        match last {
            Some(q) => {
                let ghost e = last_end as int;
                assert(dfa.is_longest_match(chars@, i as int, e));
                let ghost ce = choose|e: int| dfa.is_longest_match(chars@, i as int, e);
                assert(ce == e) by {
                    if ce < e {
                        assert(dfa.match_state(chars@, i as int, e) is None);
                    } else if ce > e {
                        assert(dfa.match_state(chars@, i as int, ce) is None);
                    }
                }
                let mut sub: Vec<char> = Vec::new();
                let mut k: usize = i;
                while k < last_end
                    invariant
                        i <= k <= last_end <= len,
                        len == chars@.len(),
                        sub@ == chars@.subrange(i as int, k as int),
                    decreases last_end - k,
                {
                    sub.push(chars[k]);
                    k += 1;
                    assert(sub@ =~= chars@.subrange(i as int, k as int));
                }
                let lexeme = string_of(&sub);
                let label = match dfa.accept.get(&q) {
                    Some(l) => l.clone(),
                    None => {
                        proof {
                            assert(false);
                        }
                        String::new()
                    },
                };
                let tk = Token::new(label, lexeme);
                let ghost before = tokens_view(tokens@);
                tokens.push(tk);
                assert(tokens_view(tokens@) =~= before + seq![tk@]);
                let ghost rest = scan_spec(*dfa, chars@, ws@, e);
                assert(scan_spec(*dfa, chars@, ws@, i as int) == prepend(seq![tk@], rest));
                proof {
                    match rest {
                        Ok(ts) => {
                            assert(before + (seq![tk@] + ts) =~= (before + seq![tk@]) + ts);
                        },
                        Err(_) => {},
                    }
                }
                i = last_end;
            },
            None => {
                assert(!exists|e: int| dfa.is_longest_match(chars@, i as int, e));
                let (line, column) = compute_line_and_column(chars.as_slice(), i);
                return Err(LexicalError { line, column, ch: chars[i] });
            },
        }
    }
    assert(tokens_view(tokens@) + Seq::empty() =~= tokens_view(tokens@));
    Ok(tokens)
}

/// The one character of `field`; `None` where it holds none or several.
pub fn single_char(field: &str) -> (r: Option<char>)
    ensures
        r == if field@.len() == 1 {
            Some(field@[0])
        } else {
            None
        },
{
    let chars = chars_of(field);
    if chars.len() == 1 {
        Some(chars[0])
    } else {
        None
    }
}

/// Scans `input` with `dfa` by maximal munch, skipping the characters that
/// `char::is_whitespace` reports, and returns the tokens or the first
/// lexical error.
pub fn process_input(dfa: &DFA, input: &str) -> (r: Result<Vec<Token>, LexicalError>)
    ensures
        scan_view(r) == scan_spec(*dfa, input@, whitespace_flags(input@), 0),
{
    let chars = chars_of(input);
    let mut ws: Vec<bool> = Vec::new();
    let mut k: usize = 0;
    while k < chars.len()
        invariant
            k <= chars@.len(),
            chars@ == input@,
            ws@ == whitespace_flags(input@).subrange(0, k as int),
        decreases chars@.len() - k,
    {
        ws.push(is_whitespace(chars[k]));
        k += 1;
        assert(ws@ =~= whitespace_flags(input@).subrange(0, k as int));
    }
    assert(ws@ =~= whitespace_flags(input@));
    scan_chars(dfa, &chars, &ws)
}

} // verus!
