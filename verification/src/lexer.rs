//! The tokenizer: from a sequence of characters to a sequence of normalized
//! terms.
//!
//! [`terms`] is the mathematical statement of what tokenizing means; the
//! [`Lexer`] produces that sequence one term at a time, and [`tokenize`] all
//! at once.
use vstd::prelude::*;
use vstd::slice::slice_subrange;
use crate::chars::{ascii_upper, is_blank, is_digit, is_letter, is_word_char};

verus! {

/// The class of characters that a run is made of.
#[derive(Clone, Copy, PartialEq, Eq, Structural, Debug)]
pub enum Run {
    /// Letters and digits.
    Word,
    /// Digits only.
    Number,
}

impl Run {
    /// Whether `c` may stand in a run of this class.
    pub open spec fn holds(self, c: char) -> bool {
        match self {
            Run::Word => is_word_char(c),
            Run::Number => is_digit(c),
        }
    }

    /// Decides whether `c` may stand in a run of this class.
    pub fn admits(self, c: char) -> (b: bool)
        ensures
            b == self.holds(c),
    {
        match self {
            Run::Word => c.is_alphanumeric(),
            Run::Number => c.is_numeric(),
        }
    }
}

/// The number of leading blank characters of `s`.
pub open spec fn blank_len(s: Seq<char>) -> nat
    decreases s.len(),
{
    if s.len() > 0 && is_blank(s[0]) {
        1 + blank_len(s.drop_first())
    } else {
        0
    }
}

/// The length of the longest prefix of `s` made of characters of class `run`.
pub open spec fn run_len(s: Seq<char>, run: Run) -> nat
    decreases s.len(),
{
    if s.len() > 0 && run.holds(s[0]) {
        1 + run_len(s.drop_first(), run)
    } else {
        0
    }
}

/// `s` without its leading blank characters.
pub open spec fn skip_blank(s: Seq<char>) -> Seq<char> {
    s.skip(blank_len(s) as int)
}

/// The number of characters that the first term of `s` is read from. `s` is
/// not empty and does not start with a blank.
pub open spec fn term_len(s: Seq<char>) -> nat {
    if is_letter(s[0]) {
        run_len(s, Run::Word)
    } else if is_digit(s[0]) {
        run_len(s, Run::Number)
    } else {
        1
    }
}

/// The first term of `s`: a word in upper case, a number as written, or one
/// other character. `s` is not empty and does not start with a blank.
pub open spec fn first_term(s: Seq<char>) -> Seq<char> {
    if is_letter(s[0]) {
        s.take(term_len(s) as int).map_values(|c: char| ascii_upper(c))
    } else {
        s.take(term_len(s) as int)
    }
}

/// The terms of `s`, in the order in which they are written.
pub open spec fn terms(s: Seq<char>) -> Seq<Seq<char>>
    decreases s.len(),
    via terms_decreases
{
    let t = skip_blank(s);
    if t.len() == 0 {
        Seq::empty()
    } else {
        seq![first_term(t)] + terms(t.skip(term_len(t) as int))
    }
}

/// The view of each string of `v`, in order.
pub open spec fn views(v: Seq<String>) -> Seq<Seq<char>> {
    v.map_values(|t: String| t@)
}

/// A cursor over a sequence of characters that hands out its terms one by
/// one. Its view is what has not been read yet.
pub struct Lexer<'a> {
    content: &'a [char],
}

impl<'a> View for Lexer<'a> {
    type V = Seq<char>;

    closed spec fn view(&self) -> Seq<char> {
        self.content@
    }
}

/// Copies `chars` into a string.
fn string_of(chars: &[char]) -> (text: String)
    ensures
        text@ == chars@,
{
    let mut text = String::new();
    let mut i: usize = 0;
    while i < chars.len()
        invariant
            i <= chars.len(),
            text@ == chars@.take(i as int),
        decreases chars.len() - i,
    {
        text.push(chars[i]);
        i += 1;
        assert(chars@.take(i as int) == chars@.take(i - 1).push(chars@[i - 1]));
    }
    assert(chars@.take(chars@.len() as int) == chars@);
    text
}

/// Copies `chars` into a string, with `a` to `z` in upper case.
fn upper_string_of(chars: &[char]) -> (text: String)
    ensures
        text@ == chars@.map_values(|c: char| ascii_upper(c)),
{
    let ghost upper = chars@.map_values(|c: char| ascii_upper(c));
    let mut text = String::new();
    let mut i: usize = 0;
    while i < chars.len()
        invariant
            i <= chars.len(),
            upper == chars@.map_values(|c: char| ascii_upper(c)),
            text@ == upper.take(i as int),
        decreases chars.len() - i,
    {
        text.push(chars[i].to_ascii_uppercase());
        i += 1;
        assert(upper.take(i as int) == upper.take(i - 1).push(upper[i - 1]));
    }
    assert(upper.take(upper.len() as int) == upper);
    text
}

impl<'a> Lexer<'a> {
    /// A lexer at the start of `content`.
    pub fn new(content: &'a [char]) -> (lexer: Self)
        ensures
            lexer@ == content@,
    {
        Self { content }
    }

    /// Moves past the leading blank characters.
    fn trim_left(&mut self)
        ensures
            final(self)@ == skip_blank(old(self)@),
    {
        let mut n: usize = 0;
        assert(self.content@.skip(0) == self.content@);
        while n < self.content.len() && self.content[n].is_whitespace()
            invariant
                n <= self.content@.len(),
                blank_len(self.content@) == n + blank_len(self.content@.skip(n as int)),
            decreases self.content@.len() - n,
        {
            proof {
                let rest = self.content@.skip(n as int);
                assert(rest.drop_first() == self.content@.skip(n + 1));
            }
            n += 1;
        }
        self.content = slice_subrange(self.content, n, self.content.len());
    }

    /// Takes the longest prefix made of characters of class `run`.
    fn chop_while(&mut self, run: Run) -> (token: &'a [char])
        ensures
            token@ == old(self)@.take(run_len(old(self)@, run) as int),
            final(self)@ == old(self)@.skip(run_len(old(self)@, run) as int),
    {
        let mut n: usize = 0;
        assert(self.content@.skip(0) == self.content@);
        while n < self.content.len() && run.admits(self.content[n])
            invariant
                n <= self.content@.len(),
                run_len(self.content@, run) == n + run_len(self.content@.skip(n as int), run),
            decreases self.content@.len() - n,
        {
            proof {
                let rest = self.content@.skip(n as int);
                assert(rest.drop_first() == self.content@.skip(n + 1));
            }
            n += 1;
        }
        self.chop(n)
    }

    /// Takes the first `n` characters.
    fn chop(&mut self, n: usize) -> (token: &'a [char])
        requires
            n <= old(self)@.len(),
        ensures
            token@ == old(self)@.take(n as int),
            final(self)@ == old(self)@.skip(n as int),
    {
        let token = slice_subrange(self.content, 0, n);
        self.content = slice_subrange(self.content, n, self.content.len());
        token
    }

    /// Reads the next term: skips blanks, then takes a word (a letter and the
    /// letters and digits after it, in upper case), a number (a run of
    /// digits, as written) or one other character. `None` when only blanks
    /// are left.
    pub fn next_token(&mut self) -> (token: Option<String>)
        ensures
            token is None <==> skip_blank(old(self)@).len() == 0,
            token is None ==> final(self)@.len() == 0,
            token matches Some(t) ==> {
                let rest = skip_blank(old(self)@);
                &&& t@ == first_term(rest)
                &&& final(self)@ == rest.skip(term_len(rest) as int)
            },
            terms(old(self)@) == match token {
                Some(t) => seq![t@] + terms(final(self)@),
                None => Seq::empty(),
            },
    {
        self.trim_left();
        if self.content.len() == 0 {
            return None;
        }
        proof {
            lemma_term_len_bounds(self.content@);
        }
        let first = self.content[0];
        if first.is_alphabetic() {
            let word = self.chop_while(Run::Word);
            return Some(upper_string_of(word));
        }
        if first.is_numeric() {
            let number = self.chop_while(Run::Number);
            return Some(string_of(number));
        }
        let other = self.chop(1);
        Some(string_of(other))
    }
}

/// All the terms of `content`, in order.
pub fn tokenize(content: &[char]) -> (out: Vec<String>)
    ensures
        views(out@) == terms(content@),
{
    let mut lexer = Lexer::new(content);
    let mut out: Vec<String> = Vec::new();
    loop
        invariant
            views(out@) + terms(lexer@) == terms(content@),
        decreases lexer@.len(),
    {
        let ghost before = lexer@;
        let ghost sofar = views(out@);
        proof {
            lemma_blank_len_bound(before);
            if skip_blank(before).len() > 0 {
                lemma_term_len_bounds(skip_blank(before));
            }
        }
        match lexer.next_token() {
            Some(term) => {
                out.push(term);
                assert(views(out@) == sofar + seq![term@]);
                assert(sofar + (seq![term@] + terms(lexer@)) == (sofar + seq![term@]) + terms(
                    lexer@,
                ));
            },
            None => {
                assert(views(out@) + Seq::<Seq<char>>::empty() == views(out@));
                return out;
            },
        }
    }
}

/// Tokenizing is determined by the text: whatever two runs over the same
/// characters hand out, they hand out the same terms in the same order.
pub proof fn lemma_tokenize_deterministic(content: Seq<char>, first: Seq<String>, second: Seq<String>)
    requires
        views(first) == terms(content),
        views(second) == terms(content),
    ensures
        first.len() == second.len(),
        forall|i: int| 0 <= i < first.len() ==> (#[trigger] first[i])@ == second[i]@,
{
    assert(views(first).len() == first.len());
    assert(views(second).len() == second.len());
    assert forall|i: int| 0 <= i < first.len() implies (#[trigger] first[i])@ == second[i]@ by {
        assert(views(first)[i] == first[i]@);
        assert(views(second)[i] == second[i]@);
    }
}

/// The terms of a text are the first term, if the text has one, and then
/// the terms of what follows it: a lexer can be started again on what is
/// left at any point.
pub proof fn lemma_terms_unfold(content: Seq<char>)
    ensures
        terms(content) == if skip_blank(content).len() == 0 {
            Seq::<Seq<char>>::empty()
        } else {
            seq![first_term(skip_blank(content))] + terms(
                skip_blank(content).skip(term_len(skip_blank(content)) as int),
            )
        },
{
}

#[via_fn]
proof fn terms_decreases(s: Seq<char>) {
    lemma_blank_len_bound(s);
    let t = skip_blank(s);
    if t.len() > 0 {
        lemma_term_len_bounds(t);
    }
}

/// No more characters are blank at the start of `s` than `s` has, and the
/// one after them, if there is one, is not blank.
pub proof fn lemma_blank_len_bound(s: Seq<char>)
    ensures
        blank_len(s) <= s.len(),
        forall|i: int| 0 <= i < blank_len(s) ==> is_blank(#[trigger] s[i]),
        blank_len(s) < s.len() ==> !is_blank(s[blank_len(s) as int]),
    decreases s.len(),
{
    if s.len() > 0 && is_blank(s[0]) {
        let r = s.drop_first();
        lemma_blank_len_bound(r);
        assert forall|i: int| 0 <= i < blank_len(s) implies is_blank(#[trigger] s[i]) by {
            if i > 0 {
                assert(s[i] == r[i - 1]);
            }
        }
        if blank_len(s) < s.len() {
            assert(s[blank_len(s) as int] == r[blank_len(r) as int]);
        }
    }
}

/// A run is a prefix, it is made of its class only, and it is the longest
/// such prefix.
pub proof fn lemma_run_len_bound(s: Seq<char>, run: Run)
    ensures
        run_len(s, run) <= s.len(),
        forall|i: int| 0 <= i < run_len(s, run) ==> run.holds(#[trigger] s[i]),
        run_len(s, run) < s.len() ==> !run.holds(s[run_len(s, run) as int]),
    decreases s.len(),
{
    if s.len() > 0 && run.holds(s[0]) {
        let r = s.drop_first();
        lemma_run_len_bound(r, run);
        assert forall|i: int| 0 <= i < run_len(s, run) implies run.holds(#[trigger] s[i]) by {
            if i > 0 {
                assert(s[i] == r[i - 1]);
            }
        }
        if run_len(s, run) < s.len() {
            assert(s[run_len(s, run) as int] == r[run_len(r, run) as int]);
        }
    }
}

/// Every term is read from at least one character, and from no more than
/// there are.
pub proof fn lemma_term_len_bounds(s: Seq<char>)
    requires
        s.len() > 0,
    ensures
        1 <= term_len(s) <= s.len(),
{
    lemma_run_len_bound(s, Run::Word);
    lemma_run_len_bound(s, Run::Number);
}

} // verus!
