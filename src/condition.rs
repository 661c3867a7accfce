//! The condition language of a detection rule: tokens, the pre-expansion
//! of `all of x*` / `1 of x*`, and the compiler from text to a
//! [`ConditionNode`] tree.
use vstd::prelude::*;

use crate::expand::{expand, string_views};
use crate::node::ConditionNode;
use crate::text::{chars_of, concat, is_word_char, string_of, word_char};

verus! {

/// A token of a condition expression. The `*Container` variants are
/// built while parsing and group the tokens they hold.
#[derive(Debug)]
pub enum ConditionToken {
    LeftParenthesis,
    RightParenthesis,
    Space,
    Not,
    And,
    Or,
    SelectionReference(String),
    ParenthesisContainer(Vec<ConditionToken>),
    AndContainer(Vec<ConditionToken>),
    OrContainer(Vec<ConditionToken>),
    NotContainer(Vec<ConditionToken>),
    OperandContainer(Vec<ConditionToken>),
}

/// What a single token stands for; every container is `Group`.
pub enum Lexeme {
    LeftParenthesis,
    RightParenthesis,
    Space,
    Not,
    And,
    Or,
    Name(Seq<char>),
    Group,
}

/// The tokens of `s` hold no other tokens.
pub open spec fn flat(s: Seq<ConditionToken>) -> bool {
    forall|i: int| 0 <= i < s.len() ==> !(#[trigger] s[i]).is_container()
}

/// Nesting depth after lexeme `l`, from depth `d`.
pub open spec fn depth_step(l: Lexeme, d: int) -> int {
    if l is LeftParenthesis {
        d + 1
    } else if l is RightParenthesis {
        d - 1
    } else {
        d
    }
}

/// Index of the lexeme of `s` after which the depth, starting at `d`,
/// first comes down to zero.
pub open spec fn close_index(s: Seq<Lexeme>, d: int) -> Option<int>
    decreases s.len(),
{
    if s.len() == 0 {
        None
    } else if depth_step(s[0], d) == 0 {
        Some(0)
    } else {
        match close_index(s.drop_first(), depth_step(s[0], d)) {
            Some(k) => Some(k + 1),
            None => None,
        }
    }
}

/// What grouping the parentheses of a lexeme sequence gives.
pub enum ParenOutcome {
    /// Each outermost parenthesised part became one `Group`.
    Grouped(Seq<Lexeme>),
    /// A `(` without its `)`.
    Unclosed,
    /// A `)` without its `(`.
    StrayClose,
}

/// Groups the outermost parenthesised parts of `s`. A `(` that is never
/// closed outranks a `)` that was never opened.
pub open spec fn group_parens(s: Seq<Lexeme>) -> ParenOutcome
    decreases s.len(),
{
    if s.len() == 0 {
        ParenOutcome::Grouped(Seq::empty())
    } else if s[0] is LeftParenthesis {
        match close_index(s.drop_first(), 1) {
            None => ParenOutcome::Unclosed,
            Some(k) => if 0 <= k && k + 2 <= s.len() {
                match group_parens(s.subrange(k + 2, s.len() as int)) {
                    ParenOutcome::Grouped(g) => ParenOutcome::Grouped(seq![Lexeme::Group] + g),
                    o => o,
                }
            } else {
                ParenOutcome::Unclosed
            },
        }
    } else {
        match group_parens(s.drop_first()) {
            ParenOutcome::Grouped(g) => if s[0] is RightParenthesis {
                ParenOutcome::StrayClose
            } else {
                ParenOutcome::Grouped(seq![s[0]] + g)
            },
            o => o,
        }
    }
}

proof fn lemma_close_index_range(s: Seq<Lexeme>, d: int)
    ensures
        close_index(s, d) matches Some(k) ==> 0 <= k < s.len(),
    decreases s.len(),
{
    if s.len() > 0 && depth_step(s[0], d) != 0 {
        lemma_close_index_range(s.drop_first(), depth_step(s[0], d));
    }
}

impl ConditionToken {
    pub open spec fn lexeme(&self) -> Lexeme {
        match self {
            ConditionToken::LeftParenthesis => Lexeme::LeftParenthesis,
            ConditionToken::RightParenthesis => Lexeme::RightParenthesis,
            ConditionToken::Space => Lexeme::Space,
            ConditionToken::Not => Lexeme::Not,
            ConditionToken::And => Lexeme::And,
            ConditionToken::Or => Lexeme::Or,
            ConditionToken::SelectionReference(name) => Lexeme::Name(name@),
            _ => Lexeme::Group,
        }
    }

    /// The tokens held by a container; empty for every other token.
    pub open spec fn spec_sub_tokens(&self) -> Seq<ConditionToken> {
        match self {
            ConditionToken::ParenthesisContainer(v) => v@,
            ConditionToken::AndContainer(v) => v@,
            ConditionToken::OrContainer(v) => v@,
            ConditionToken::NotContainer(v) => v@,
            ConditionToken::OperandContainer(v) => v@,
            _ => Seq::empty(),
        }
    }

    pub open spec fn is_logical(&self) -> bool {
        self is And || self is Or
    }

    pub open spec fn is_container(&self) -> bool {
        self.lexeme() is Group
    }

    /// Which kind of token this is: the variant, without what it holds.
    pub open spec fn kind(&self) -> int {
        match self {
            ConditionToken::LeftParenthesis => 0,
            ConditionToken::RightParenthesis => 1,
            ConditionToken::Space => 2,
            ConditionToken::Not => 3,
            ConditionToken::And => 4,
            ConditionToken::Or => 5,
            ConditionToken::SelectionReference(_) => 6,
            ConditionToken::ParenthesisContainer(_) => 7,
            ConditionToken::AndContainer(_) => 8,
            ConditionToken::OrContainer(_) => 9,
            ConditionToken::NotContainer(_) => 10,
            ConditionToken::OperandContainer(_) => 11,
        }
    }
}

/// `a` and `b` are the same token: same kind, same name, and containers
/// holding the same tokens in the same order.
pub open spec fn same_token(a: ConditionToken, b: ConditionToken) -> bool
    decreases a,
{
    &&& a.kind() == b.kind()
    &&& a.lexeme() == b.lexeme()
    &&& a.spec_sub_tokens().len() == b.spec_sub_tokens().len()
    &&& forall|i: int|
        0 <= i < a.spec_sub_tokens().len() ==> same_token(
            #[trigger] a.spec_sub_tokens()[i],
            b.spec_sub_tokens()[i],
        )
}

/// The token sequences `a` and `b` hold the same tokens in the same order.
pub open spec fn same_tokens(a: Seq<ConditionToken>, b: Seq<ConditionToken>) -> bool {
    a.len() == b.len() && forall|i: int| 0 <= i < a.len() ==> same_token(#[trigger] a[i], b[i])
}

/// The lexemes of a token sequence, in order.
pub open spec fn lexemes(s: Seq<ConditionToken>) -> Seq<Lexeme> {
    s.map_values(|t: ConditionToken| t.lexeme())
}

/// The lexeme that a word of the condition text stands for.
pub open spec fn word_lexeme(w: Seq<char>) -> Lexeme {
    if w == seq!['('] {
        Lexeme::LeftParenthesis
    } else if w == seq![')'] {
        Lexeme::RightParenthesis
    } else if w == seq![' '] {
        Lexeme::Space
    } else if w == seq!['n', 'o', 't'] {
        Lexeme::Not
    } else if w == seq!['a', 'n', 'd'] {
        Lexeme::And
    } else if w == seq!['o', 'r'] {
        Lexeme::Or
    } else {
        Lexeme::Name(w)
    }
}

/// The number of leading word characters of `s`.
pub open spec fn word_prefix_len(s: Seq<char>) -> nat
    decreases s.len(),
{
    if s.len() > 0 && word_char(s[0]) {
        1 + word_prefix_len(s.drop_first())
    } else {
        0
    }
}

pub open spec fn prepend(p: Seq<Lexeme>, o: Option<Seq<Lexeme>>) -> Option<Seq<Lexeme>> {
    match o {
        Some(r) => Some(p + r),
        None => None,
    }
}

/// The lexemes of a condition text: `(`, `)`, and runs of word characters,
/// with spaces skipped; `None` when some other character occurs.
pub open spec fn lex(s: Seq<char>) -> Option<Seq<Lexeme>>
    decreases s.len(),
{
    if s.len() == 0 {
        Some(Seq::empty())
    } else if s[0] == '(' {
        prepend(seq![Lexeme::LeftParenthesis], lex(s.drop_first()))
    } else if s[0] == ')' {
        prepend(seq![Lexeme::RightParenthesis], lex(s.drop_first()))
    } else if s[0] == ' ' {
        lex(s.drop_first())
    } else if word_char(s[0]) {
        let n = word_prefix_len(s) as int;
        if 0 < n <= s.len() {
            prepend(seq![word_lexeme(s.subrange(0, n))], lex(s.subrange(n, s.len() as int)))
        } else {
            None
        }
    } else {
        None
    }
}

proof fn lemma_prepend_assoc(p: Seq<Lexeme>, q: Seq<Lexeme>, o: Option<Seq<Lexeme>>)
    ensures
        prepend(p, prepend(q, o)) == prepend(p + q, o),
{
    if let Some(r) = o {
        assert(p + (q + r) =~= (p + q) + r);
    }
}

impl ConditionToken {
    /// A copy of this token and of everything it holds.
    pub fn duplicate(&self) -> (r: ConditionToken)
        ensures
            same_token(r, *self),
        decreases self,
    {
        match self {
            ConditionToken::LeftParenthesis => ConditionToken::LeftParenthesis,
            ConditionToken::RightParenthesis => ConditionToken::RightParenthesis,
            ConditionToken::Space => ConditionToken::Space,
            ConditionToken::Not => ConditionToken::Not,
            ConditionToken::And => ConditionToken::And,
            ConditionToken::Or => ConditionToken::Or,
            ConditionToken::SelectionReference(name) => ConditionToken::SelectionReference(
                name.clone(),
            ),
            ConditionToken::ParenthesisContainer(v) => ConditionToken::ParenthesisContainer(
                duplicate_all(v),
            ),
            ConditionToken::AndContainer(v) => ConditionToken::AndContainer(duplicate_all(v)),
            ConditionToken::OrContainer(v) => ConditionToken::OrContainer(duplicate_all(v)),
            ConditionToken::NotContainer(v) => ConditionToken::NotContainer(duplicate_all(v)),
            ConditionToken::OperandContainer(v) => ConditionToken::OperandContainer(
                duplicate_all(v),
            ),
        }
    }

    /// A copy of the tokens this container holds; empty for other tokens.
    pub fn sub_tokens(&self) -> (r: Vec<ConditionToken>)
        ensures
            same_tokens(r@, self.spec_sub_tokens()),
    {
        match self {
            ConditionToken::ParenthesisContainer(v) => duplicate_all(v),
            ConditionToken::AndContainer(v) => duplicate_all(v),
            ConditionToken::OrContainer(v) => duplicate_all(v),
            ConditionToken::NotContainer(v) => duplicate_all(v),
            ConditionToken::OperandContainer(v) => duplicate_all(v),
            _ => Vec::new(),
        }
    }

    /// As [`ConditionToken::sub_tokens`], but empty for a parenthesis
    /// container too.
    pub fn sub_tokens_without_parenthesis(&self) -> (r: Vec<ConditionToken>)
        ensures
            self is ParenthesisContainer ==> r@.len() == 0,
            !(self is ParenthesisContainer) ==> same_tokens(r@, self.spec_sub_tokens()),
    {
        match self {
            ConditionToken::ParenthesisContainer(_) => Vec::new(),
            _ => self.sub_tokens(),
        }
    }

    /// A token of the same kind holding `sub_tokens` if this is a
    /// container; a copy of this token otherwise.
    pub fn replace_subtoken(&self, sub_tokens: Vec<ConditionToken>) -> (r: ConditionToken)
        ensures
            r.kind() == self.kind(),
            self.is_container() ==> r.spec_sub_tokens() == sub_tokens@,
            !self.is_container() ==> same_token(r, *self),
    {
        match self {
            ConditionToken::ParenthesisContainer(_) => ConditionToken::ParenthesisContainer(
                sub_tokens,
            ),
            ConditionToken::AndContainer(_) => ConditionToken::AndContainer(sub_tokens),
            ConditionToken::OrContainer(_) => ConditionToken::OrContainer(sub_tokens),
            ConditionToken::NotContainer(_) => ConditionToken::NotContainer(sub_tokens),
            ConditionToken::OperandContainer(_) => ConditionToken::OperandContainer(sub_tokens),
            _ => self.duplicate(),
        }
    }
}

/// Copies of the tokens of `v`, in order.
fn duplicate_all(v: &Vec<ConditionToken>) -> (r: Vec<ConditionToken>)
    ensures
        same_tokens(r@, v@),
    decreases v,
{
    broadcast use vstd::std_specs::vec::axiom_vec_index_decreases;

    let mut r: Vec<ConditionToken> = Vec::new();
    let mut i: usize = 0;
    while i < v.len()
        invariant
            i <= v.len(),
            r@.len() == i,
            forall|j: int| 0 <= j < i ==> same_token(#[trigger] r@[j], v@[j]),
        decreases v.len() - i,
    {
        assert(decreases_to!(v => v[i as int]));
        let t = v[i].duplicate();
        r.push(t);
        i += 1;
    }
    r
}

pub open spec fn starts_with_text(s: Seq<char>, p: Seq<char>) -> bool {
    p.len() <= s.len() && s.subrange(0, p.len() as int) == p
}

/// Index of the first occurrence of `c` in `s` at or after `from`.
pub open spec fn first_from(s: Seq<char>, c: char, from: int) -> Option<int>
    decreases s.len() - from,
{
    if from < 0 || from >= s.len() {
        None
    } else if s[from] == c {
        Some(from)
    } else {
        first_from(s, c, from + 1)
    }
}

/// `s` without the part from its first `|` up to the end of that line.
pub open spec fn without_pipe(s: Seq<char>) -> Seq<char> {
    match first_from(s, '|', 0) {
        Some(p) => match first_from(s, '\n', p) {
            Some(q) => s.subrange(0, p) + s.subrange(q, s.len() as int),
            None => s.subrange(0, p),
        },
        None => s,
    }
}

proof fn lemma_first_from_range(s: Seq<char>, c: char, from: int)
    ensures
        first_from(s, c, from) matches Some(k) ==> from <= k < s.len() && s[k] == c,
    decreases s.len() - from,
{
    if 0 <= from < s.len() && s[from] != c {
        lemma_first_from_range(s, c, from + 1);
    }
}

/// Index of the first `c` in `s[from..]`.
fn find_char(s: &Vec<char>, c: char, from: usize) -> (r: Option<usize>)
    requires
        from <= s@.len(),
    ensures
        match first_from(s@, c, from as int) {
            Some(k) => r == Some(k as usize),
            None => r is None,
        },
{
    let mut i = from;
    while i < s.len()
        invariant
            from <= i <= s@.len(),
            first_from(s@, c, from as int) == first_from(s@, c, i as int),
        decreases s@.len() - i,
    {
        if s[i] == c {
            return Some(i);
        }
        i += 1;
    }
    None
}

/// The condition text without its aggregation part.
fn strip_pipe(s: &Vec<char>) -> (r: Vec<char>)
    ensures
        r@ == without_pipe(s@),
{
    match find_char(s, '|', 0) {
        None => {
            let mut r: Vec<char> = Vec::new();
            let mut i: usize = 0;
            while i < s.len()
                invariant
                    i <= s@.len(),
                    r@ == s@.subrange(0, i as int),
                decreases s@.len() - i,
            {
                r.push(s[i]);
                i += 1;
                assert(r@ =~= s@.subrange(0, i as int));
            }
            assert(s@.subrange(0, s@.len() as int) =~= s@);
            r
        },
        Some(p) => {
            proof {
                lemma_first_from_range(s@, '|', 0);
                lemma_first_from_range(s@, '\n', p as int);
            }
            let head = sub_chars(s, 0, p);
            match find_char(s, '\n', p) {
                None => head,
                Some(q) => {
                    let tail = sub_chars(s, q, s.len());
                    let mut r = head;
                    let ghost h = r@;
                    let mut i: usize = 0;
                    while i < tail.len()
                        invariant
                            i <= tail@.len(),
                            r@ == h + tail@.subrange(0, i as int),
                        decreases tail@.len() - i,
                    {
                        r.push(tail[i]);
                        i += 1;
                        assert(r@ =~= h + tail@.subrange(0, i as int));
                    }
                    assert(tail@.subrange(0, tail@.len() as int) =~= tail@);
                    r
                },
            }
        },
    }
}

/// The aggregation part of a condition text: what follows its first `|`
/// up to the end of that line; none without a `|`.
pub open spec fn pipe_part(s: Seq<char>) -> Option<Seq<char>> {
    match first_from(s, '|', 0) {
        Some(p) => match first_from(s, '\n', p) {
            Some(q) => Some(s.subrange(p + 1, q)),
            None => Some(s.subrange(p + 1, s.len() as int)),
        },
        None => None,
    }
}

/// The aggregation part of a condition text, if it has one.
pub fn aggregation_part(condition_str: &str) -> (r: Option<String>)
    ensures
        match pipe_part(condition_str@) {
            Some(t) => r is Some && r->0@ == t,
            None => r is None,
        },
{
    let s = chars_of(condition_str);
    match find_char(&s, '|', 0) {
        None => None,
        Some(p) => {
            proof {
                lemma_first_from_range(s@, '|', 0);
                lemma_first_from_range(s@, '\n', p as int);
            }
            let end = match find_char(&s, '\n', p) {
                Some(q) => q,
                None => s.len(),
            };
            let part = sub_chars(&s, p + 1, end);
            Some(string_of(&part))
        },
    }
}

/// The characters `v[lo..hi]`.
fn sub_chars(v: &Vec<char>, lo: usize, hi: usize) -> (r: Vec<char>)
    requires
        lo <= hi <= v.len(),
    ensures
        r@ == v@.subrange(lo as int, hi as int),
{
    let mut r: Vec<char> = Vec::new();
    let mut i = lo;
    while i < hi
        invariant
            lo <= i <= hi <= v.len(),
            r@ == v@.subrange(lo as int, i as int),
        decreases hi - i,
    {
        r.push(v[i]);
        i += 1;
        assert(r@ =~= v@.subrange(lo as int, i as int));
    }
    r
}

/// Reads condition expressions and compiles them.
#[derive(Clone, Debug)]
pub struct ConditionCompiler {}

impl ConditionCompiler {
    pub fn new() -> (r: Self) {
        ConditionCompiler {  }
    }

    /// The token that the word `token` stands for.
    fn to_enum(&self, token: String) -> (r: ConditionToken)
        ensures
            r.lexeme() == word_lexeme(token@),
            !r.is_container(),
    {
        let w = chars_of(token.as_str());
        let n = w.len();
        if n == 1 && w[0] == '(' {
            assert(token@ =~= seq!['(']);
            ConditionToken::LeftParenthesis
        } else if n == 1 && w[0] == ')' {
            assert(token@ =~= seq![')']);
            ConditionToken::RightParenthesis
        } else if n == 1 && w[0] == ' ' {
            assert(token@ =~= seq![' ']);
            ConditionToken::Space
        } else if n == 3 && w[0] == 'n' && w[1] == 'o' && w[2] == 't' {
            assert(token@ =~= seq!['n', 'o', 't']);
            ConditionToken::Not
        } else if n == 3 && w[0] == 'a' && w[1] == 'n' && w[2] == 'd' {
            assert(token@ =~= seq!['a', 'n', 'd']);
            ConditionToken::And
        } else if n == 2 && w[0] == 'o' && w[1] == 'r' {
            assert(token@ =~= seq!['o', 'r']);
            ConditionToken::Or
        } else {
            assert(token@ != seq!['(']);
            assert(token@ != seq![')']);
            assert(token@ != seq![' ']);
            assert(token@ != seq!['n', 'o', 't']);
            assert(token@ != seq!['a', 'n', 'd']);
            assert(token@ != seq!['o', 'r']);
            ConditionToken::SelectionReference(token)
        }
    }

    /// Splits a condition text into tokens: `(`, `)` and runs of word
    /// characters; spaces separate tokens and are dropped.
    fn tokenize(&self, condition_str: &str) -> (r: Result<Vec<ConditionToken>, String>)
        ensures
            match lex(condition_str@) {
                Some(l) => r is Ok && lexemes(r->Ok_0@) == l,
                None => r is Err && r->Err_0@ == "An unusable character was found."@,
            },
            r is Ok ==> forall|i: int|
                0 <= i < r->Ok_0@.len() ==> !(#[trigger] r->Ok_0@[i]).is_container(),
    {
        let s = chars_of(condition_str);
        let n = s.len();
        let mut tokens: Vec<ConditionToken> = Vec::new();
        let mut i: usize = 0;
        proof {
            assert(s@.subrange(0, n as int) =~= s@);
            assert(lexemes(tokens@) =~= Seq::<Lexeme>::empty());
            if let Some(l) = lex(s@) {
                assert(Seq::<Lexeme>::empty() + l =~= l);
            }
        }
        while i < n
            invariant
                n == s@.len(),
                s@ == condition_str@,
                i <= n,
                lex(s@) == prepend(lexemes(tokens@), lex(s@.subrange(i as int, n as int))),
                forall|k: int| 0 <= k < tokens@.len() ==> !(#[trigger] tokens@[k]).is_container(),
            decreases n - i,
        {
            let ghost rest = s@.subrange(i as int, n as int);
            let ghost before = tokens@;
            assert(rest.drop_first() =~= s@.subrange(i + 1, n as int));
            let c = s[i];
            if c == '(' || c == ')' {
                let t = if c == '(' {
                    ConditionToken::LeftParenthesis
                } else {
                    ConditionToken::RightParenthesis
                };
                tokens.push(t);
                proof {
                    assert(lexemes(tokens@) =~= lexemes(before) + seq![t.lexeme()]);
                    lemma_prepend_assoc(lexemes(before), seq![t.lexeme()], lex(rest.drop_first()));
                }
                i += 1;
            } else if c == ' ' {
                i += 1;
            } else if is_word_char(c) {
                let mut j = i;
                while j < n && is_word_char(s[j])
                    invariant
                        i <= j <= n,
                        n == s@.len(),
                        forall|k: int| i <= k < j ==> word_char(#[trigger] s@[k]),
                    decreases n - j,
                {
                    j += 1;
                }
                proof {
                    assert forall|k: int| 0 <= k <= (j - i) as int implies word_prefix_len(
                        rest.subrange(k, rest.len() as int),
                    ) == (j - i) - k by {
                        lemma_word_prefix(rest, (j - i) as int, k);
                    }
                    assert(rest.subrange(0, rest.len() as int) =~= rest);
                }
                let w = sub_chars(&s, i, j);
                let word = string_of(&w);
                let t = self.to_enum(word);
                tokens.push(t);
                proof {
                    assert(w@ =~= rest.subrange(0, (j - i) as int));
                    assert(rest.subrange((j - i) as int, rest.len() as int) =~= s@.subrange(
                        j as int,
                        n as int,
                    ));
                    assert(lexemes(tokens@) =~= lexemes(before) + seq![t.lexeme()]);
                    lemma_prepend_assoc(
                        lexemes(before),
                        seq![t.lexeme()],
                        lex(s@.subrange(j as int, n as int)),
                    );
                }
                i = j;
            } else {
                return Err("An unusable character was found.".to_string());
            }
        }
        proof {
            assert(lexemes(tokens@) + Seq::<Lexeme>::empty() =~= lexemes(tokens@));
        }
        Ok(tokens)
    }

    /// Groups each outermost parenthesised part of `tokens` into a
    /// `ParenthesisContainer` that holds the tokens between the two
    /// parentheses.
    fn parse_parenthesis(&self, tokens: Vec<ConditionToken>) -> (r: Result<
        Vec<ConditionToken>,
        String,
    >)
        requires
            flat(tokens@),
        ensures
            match group_parens(lexemes(tokens@)) {
                ParenOutcome::Grouped(g) => r is Ok && lexemes(r->Ok_0@) == g && forall|i: int|
                    0 <= i < r->Ok_0@.len() ==> paren_bounded(
                        #[trigger] r->Ok_0@[i],
                        tokens@.len() as int,
                    ),
                ParenOutcome::Unclosed => r is Err && r->Err_0@
                    == "')' was expected but not found."@,
                ParenOutcome::StrayClose => r is Err && r->Err_0@
                    == "'(' was expected but not found."@,
            },
            r is Ok ==> forall|k: int| 0 <= k < r->Ok_0@.len() ==> non_empty_tree(#[trigger] r->Ok_0@[k]),
    {
        proof {
            assert(lexemes(tokens@).subrange(0, tokens@.len() as int) =~= lexemes(tokens@));
        }
        group_from(&tokens, 0)
    }

    /// Whether `token` is `and` or `or`.
    fn is_logical(&self, token: &ConditionToken) -> (r: bool)
        ensures
            r == token.is_logical(),
    {
        match token {
            ConditionToken::And | ConditionToken::Or => true,
            _ => false,
        }
    }

    /// Gathers each run of tokens between two logical operators into one
    /// `OperandContainer`; the operators stay where they are.
    fn to_operand_container(&self, tokens: Vec<ConditionToken>, Ghost(n_bound): Ghost<int>) -> (r: Result<
        Vec<ConditionToken>,
        String,
    >)
        requires
            forall|i: int| 0 <= i < tokens@.len() ==> paren_bounded(#[trigger] tokens@[i], n_bound),
            forall|i: int| 0 <= i < tokens@.len() ==> non_empty_tree(#[trigger] tokens@[i]),
        ensures
            r is Ok,
            forall|i: int| 0 <= i < r->Ok_0@.len() ==> non_empty_tree(#[trigger] r->Ok_0@[i]),
            operand_shaped(r->Ok_0@),
            tokens@.len() > 0 ==> r->Ok_0@.len() > 0,
            lexemes(r->Ok_0@) == group_operands(lexemes(tokens@), false),
            forall|i: int| 0 <= i < r->Ok_0@.len() ==> paren_bounded(#[trigger] r->Ok_0@[i], n_bound),
            operand_runs(tokens@, Seq::empty(), r->Ok_0@),
    {
        let ghost all = lexemes(tokens@);
        let ghost all_tokens = tokens@;
        let mut tokens = tokens;
        let ghost n0 = tokens@.len();
        let mut ret: Vec<ConditionToken> = Vec::new();
        let mut grouped: Vec<ConditionToken> = Vec::new();
        assert(lexemes(ret@) + group_operands(all, false) =~= group_operands(all, false));
        assert forall|rest: Seq<ConditionToken>|
            #[trigger] operand_runs(tokens@, grouped@, rest) implies operand_runs(
                all_tokens,
                Seq::empty(),
                ret@ + rest,
            ) by {
            assert(ret@ + rest =~= rest);
        }
        while tokens.len() > 0
            invariant
                group_operands(all, false) == lexemes(ret@) + group_operands(
                    lexemes(tokens@),
                    grouped@.len() > 0,
                ),
                operand_shaped(ret@),
                forall|i: int| 0 <= i < ret@.len() ==> paren_bounded(#[trigger] ret@[i], n_bound),
                forall|i: int| 0 <= i < tokens@.len() ==> paren_bounded(#[trigger] tokens@[i], n_bound),
                forall|i: int| 0 <= i < grouped@.len() ==> paren_bounded(#[trigger] grouped@[i], n_bound),
                forall|i: int| 0 <= i < grouped@.len() ==> !(#[trigger] grouped@[i]).is_logical(),
                forall|i: int| 0 <= i < grouped@.len() ==> non_empty_tree(#[trigger] grouped@[i]),
                forall|i: int| 0 <= i < ret@.len() ==> non_empty_tree(#[trigger] ret@[i]),
                forall|i: int| 0 <= i < tokens@.len() ==> non_empty_tree(#[trigger] tokens@[i]),
                ret@.len() == 0 || ret@.last().is_logical(),
                n0 > 0 ==> ret@.len() > 0 || grouped@.len() > 0 || tokens@.len() > 0,
                forall|rest: Seq<ConditionToken>|
                    #[trigger] operand_runs(tokens@, grouped@, rest) ==> operand_runs(
                        all_tokens,
                        Seq::empty(),
                        ret@ + rest,
                    ),
            decreases tokens@.len(),
        {
            let ghost old_tokens = tokens@;
            let ghost before = lexemes(ret@);
            let ghost pend = grouped@.len() > 0;
            let ghost g0 = grouped@;
            let ghost r0 = ret@;
            let t = tokens.remove(0);
            assert(old_tokens.drop_first() =~= tokens@);
            assert(old_tokens[0] == t);
            assert(lexemes(old_tokens).drop_first() =~= lexemes(tokens@));
            assert(lexemes(old_tokens)[0] == t.lexeme());
            assert(paren_bounded(old_tokens[0], n_bound));
            assert forall|i: int| 0 <= i < tokens@.len() implies paren_bounded(#[trigger] tokens@[i], n_bound) by {
                assert(tokens@[i] == old_tokens[i + 1]);
            }
            if self.is_logical(&t) {
                let ghost tl = t.lexeme();
                if grouped.len() == 0 {
                    ret.push(t);
                    assert forall|rest: Seq<ConditionToken>|
                        #[trigger] operand_runs(tokens@, grouped@, rest) implies operand_runs(
                            all_tokens,
                            Seq::empty(),
                            ret@ + rest,
                        ) by {
                        let rest0 = seq![t] + rest;
                        assert(grouped@ =~= Seq::<ConditionToken>::empty());
                        assert(g0 =~= Seq::<ConditionToken>::empty());
                        assert(rest0.subrange(1, rest0.len() as int) =~= rest);
                        assert(operand_runs(old_tokens, g0, rest0));
                        assert(r0 + rest0 =~= ret@ + rest);
                    }
                    assert(lexemes(ret@) =~= before + seq![tl]);
                    assert(Seq::<Lexeme>::empty() + seq![tl] + group_operands(lexemes(tokens@), false)
                        =~= seq![tl] + group_operands(lexemes(tokens@), false));
                } else {
                    let g = grouped;
                    grouped = Vec::new();
                    let c = ConditionToken::OperandContainer(g);
                    ret.push(c);
                    ret.push(t);
                    assert(c.spec_sub_tokens() == g0);
                    assert forall|rest: Seq<ConditionToken>|
                        #[trigger] operand_runs(tokens@, grouped@, rest) implies operand_runs(
                            all_tokens,
                            Seq::empty(),
                            ret@ + rest,
                        ) by {
                        let rest0 = seq![c, t] + rest;
                        assert(grouped@ =~= Seq::<ConditionToken>::empty());
                        assert(rest0.subrange(2, rest0.len() as int) =~= rest);
                        assert(operand_runs(old_tokens, g0, rest0));
                        assert(r0 + rest0 =~= ret@ + rest);
                    }
                    assert(lexemes(ret@) =~= before + seq![Lexeme::Group] + seq![tl]);
                }
                assert(lexemes(ret@) + group_operands(lexemes(tokens@), false) =~= before + (
                    (if pend {
                        seq![Lexeme::Group]
                    } else {
                        Seq::<Lexeme>::empty()
                    }) + seq![tl] + group_operands(lexemes(tokens@), false)));
            } else {
                grouped.push(t);
                assert forall|rest: Seq<ConditionToken>|
                    #[trigger] operand_runs(tokens@, grouped@, rest) implies operand_runs(
                        all_tokens,
                        Seq::empty(),
                        ret@ + rest,
                    ) by {
                    assert(operand_runs(old_tokens, g0, rest));
                }
            }
        }
        let ghost before = lexemes(ret@);
        let ghost r0 = ret@;
        let ghost g0 = grouped@;
        if grouped.len() > 0 {
            let c = ConditionToken::OperandContainer(grouped);
            assert(c.spec_sub_tokens() == g0);
            assert(operand_runs(tokens@, g0, seq![c]));
            assert(r0 + seq![c] =~= r0.push(c));
            ret.push(c);
            assert(lexemes(ret@) =~= before + seq![Lexeme::Group]);
        } else {
            assert(before + Seq::<Lexeme>::empty() =~= before);
            assert(operand_runs(tokens@, g0, Seq::empty()));
            assert(r0 + Seq::<ConditionToken>::empty() =~= r0);
        }
        Ok(ret)
    }

    /// Parses `and` and `or` over the operands of `tokens`: `and` binds
    /// tighter, so the result is an `OrContainer` of operands and
    /// `AndContainer`s.
    fn parse_and_or_operator(&self, tokens: Vec<ConditionToken>, Ghost(n): Ghost<int>) -> (r: Result<
        ConditionToken,
        String,
    >)
        requires
            forall|i: int| 0 <= i < tokens@.len() ==> paren_bounded(#[trigger] tokens@[i], n),
            forall|i: int| 0 <= i < tokens@.len() ==> non_empty_tree(#[trigger] tokens@[i]),
        ensures
            r is Ok ==> r->Ok_0 is OrContainer && paren_bounded(r->Ok_0, n),
            r is Ok ==> non_empty_tree(r->Ok_0),
            tokens@.len() == 0 ==> r is Err && r->Err_0@ == "Unknown error."@,
            and_or_error(group_operands(lexemes(tokens@), false)) is Some ==> r is Err && r->Err_0@
                == and_or_error(group_operands(lexemes(tokens@), false))->0,
            (tokens@.len() > 0 && and_or_error(group_operands(lexemes(tokens@), false)) is None)
                ==> r is Ok,
            r is Ok ==> exists|p: Seq<ConditionToken>|
                #[trigger] operand_runs(tokens@, Seq::empty(), p) && or_of_and_runs(
                    p,
                    r->Ok_0.spec_sub_tokens(),
                ),
    {
        let ghost input = tokens@;
        if tokens.len() == 0 {
            return Err("Unknown error.".to_string());
        }
        let mut items = match self.to_operand_container(tokens, Ghost(n)) {
            Ok(t) => t,
            Err(e) => {
                return Err(e);
            },
        };
        let len = items.len();
        let ghost g = lexemes(items@);
        assert(g[0] == items@[0].lexeme() && g.last() == items@[len - 1].lexeme());
        if self.is_logical(&items[0]) || self.is_logical(&items[len - 1]) {
            return Err("An illegal logical operator(and, or) was found.".to_string());
        }
        let mut i: usize = 0;
        while i < len
            invariant
                len == items@.len(),
                tokens@.len() > 0,
                i <= len,
                g == lexemes(items@),
                g == group_operands(lexemes(tokens@), false),
                g.len() > 0,
                !is_logical_lexeme(g[0]) && !is_logical_lexeme(g.last()),
                forall|k: int| 0 <= k < i ==> ((k % 2 == 1) == (#[trigger] items@[k]).is_logical()),
            decreases len - i,
        {
            if (i % 2 == 1) != self.is_logical(&items[i]) {
                assert(g[i as int] == items@[i as int].lexeme());
                assert(!alternates(g));
                return Err("The use of a logical operator(and, or) was wrong.".to_string());
            }
            i += 1;
        }
        assert(alternates(g)) by {
            assert forall|k: int| 0 <= k < g.len() implies ((k % 2 == 1) == is_logical_lexeme(
                #[trigger] g[k],
            )) by {
                assert(g[k] == items@[k].lexeme());
            }
        }
        assert(!items@[len - 1].is_logical());
        assert((len - 1) % 2 == 0);
        let ghost t0 = items@;
        let first = items.remove(0);
        assert(paren_bounded(t0[0], n));
        let mut operands: Vec<ConditionToken> = Vec::new();
        operands.push(first);
        assert(t0.subrange(0, 1) =~= operands@);
        assert(items@ =~= t0.subrange(1, t0.len() as int));
        while items.len() >= 2
            invariant
                tokens@.len() > 0,
                items@.len() <= t0.len(),
                items@ == t0.subrange(t0.len() - items@.len(), t0.len() as int),
                or_of_and_runs(t0.subrange(0, t0.len() - items@.len()), operands@),
                operand_runs(input, Seq::empty(), t0),
                forall|k: int| 0 <= k < items@.len() ==> non_empty_tree(#[trigger] items@[k]),
                forall|k: int| 0 <= k < operands@.len() ==> non_empty_tree(#[trigger] operands@[k]),
                items@.len() % 2 == 0,
                forall|k: int| 0 <= k < items@.len() ==> ((k % 2 == 0) == (#[trigger] items@[k]).is_logical()),
                forall|k: int| 0 <= k < items@.len() ==> paren_bounded(#[trigger] items@[k], n),
                operands@.len() > 0,
                forall|k: int| 0 <= k < operands@.len() ==> paren_bounded(#[trigger] operands@[k], n),
            decreases items@.len(),
        {
            let ghost before = items@;
            let ghost c = t0.len() - before.len();
            let ghost ops0 = operands@;
            let op = items.remove(0);
            let operand = items.remove(0);
            assert(op == t0[c] && operand == t0[c + 1]);
            assert(non_empty_tree(before[1]));
            assert forall|k: int| 0 <= k < items@.len() implies non_empty_tree(#[trigger] items@[k]) by {
                assert(items@[k] == before[k + 2]);
            }
            assert(items@ =~= t0.subrange(t0.len() - items@.len(), t0.len() as int));
            assert(paren_bounded(before[1], n));
            assert(operand == before[1]);
            assert forall|k: int| 0 <= k < items@.len() implies paren_bounded(#[trigger] items@[k], n) && ((k % 2 == 0) == items@[k].is_logical()) by {
                assert(items@[k] == before[k + 2]);
            }
            let ghost q = t0.subrange(0, c + 2);
            assert(q.subrange(0, q.len() - 2) =~= t0.subrange(0, c));
            assert(q.last() == operand && q[q.len() - 2] == op);
            if let ConditionToken::Or = op {
                operands.push(operand);
                assert(operands@.drop_last() =~= ops0);
                assert forall|k: int| 0 <= k < operands@.len() implies non_empty_tree(#[trigger] operands@[k]) by {
                    if k < ops0.len() {
                        assert(operands@[k] == ops0[k]);
                    }
                }
            } else {
                let last = operands.pop().unwrap();
                let mut pair: Vec<ConditionToken> = Vec::new();
                pair.push(last);
                pair.push(operand);
                let and_container = ConditionToken::AndContainer(pair);
                assert(paren_bounded(and_container, n)) by {
                    assert(and_container.spec_sub_tokens() == pair@);
                }
                assert(non_empty_tree(and_container)) by {
                    assert(pair@[0] == last && pair@[1] == operand);
                    assert(last == ops0.last());
                }
                operands.push(and_container);
                assert(and_container.spec_sub_tokens() == pair@);
                assert(operands@.drop_last().push(last) =~= ops0);
                assert forall|k: int| 0 <= k < operands@.len() implies non_empty_tree(#[trigger] operands@[k]) by {
                    if k < ops0.len() - 1 {
                        assert(operands@[k] == ops0[k]);
                    }
                }
            }
        }
        let r = ConditionToken::OrContainer(operands);
        assert(r.spec_sub_tokens() == operands@);
        assert(t0.subrange(0, t0.len() as int) =~= t0);
        Ok(r)
    }

    /// Compiles the condition of a rule whose selections are named
    /// `names`. A rule without selections is rejected; without a condition
    /// text, a rule with exactly one selection has that selection as its
    /// condition, and one with more is rejected.
    pub fn compile_detection(&self, condition: Option<&str>, names: &Vec<String>) -> (r: Result<
        ConditionNode,
        Vec<String>,
    >)
        ensures
            names@.len() == 0 ==> r is Err && r->Err_0@.len() == 1 && r->Err_0@[0]@
                == "There is no selection node under detection."@,
            names@.len() == 1 && condition is None ==> r is Ok && r->Ok_0 is Reference
                && r->Ok_0->Reference_0@ == names@[0]@,
            names@.len() > 1 && condition is None ==> r is Err && r->Err_0@.len() == 1
                && r->Err_0@[0]@ == "There is no condition node under detection."@,
            r is Ok ==> r->Ok_0.refs_within(string_views(names@)),
    {
        if names.len() == 0 {
            let mut errs: Vec<String> = Vec::new();
            errs.push("There is no selection node under detection.".to_string());
            return Err(errs);
        }
        match condition {
            None => {
                if names.len() == 1 {
                    let node = ConditionNode::Reference(names[0].clone());
                    assert(string_views(names@)[0] == names@[0]@);
                    Ok(node)
                } else {
                    let mut errs: Vec<String> = Vec::new();
                    errs.push("There is no condition node under detection.".to_string());
                    Err(errs)
                }
            },
            Some(c) => match self.compile_condition(c, names) {
                Ok(node) => Ok(node),
                Err(e) => {
                    let mut errs: Vec<String> = Vec::new();
                    errs.push(e);
                    Err(errs)
                },
            },
        }
    }

    /// Compiles a condition text into a tree over the selection names
    /// `names`: `all of`/`1 of` patterns are expanded, the part from a
    /// `|` to the end of its line is left to the aggregation parser, and
    /// the rest is parsed. Every name the tree refers to is one of
    /// `names`, so without selection names nothing compiles.
    pub fn compile_condition(&self, condition_str: &str, names: &Vec<String>) -> (r: Result<
        ConditionNode,
        String,
    >)
        ensures
            r is Ok ==> r->Ok_0.refs_within(string_views(names@)),
            names@.len() == 0 ==> r is Err,
            r is Err ==> starts_with_text(r->Err_0@, "A condition parse error has occurred. "@),
            ({
                let body = without_pipe(expand(condition_str@, string_views(names@)));
                let prefix = "A condition parse error has occurred. "@;
                &&& lex(body) is None ==> r is Err && r->Err_0@ == prefix
                    + "An unusable character was found."@
                &&& (lex(body) is Some && group_parens(lex(body)->0) is Unclosed) ==> r is Err
                    && r->Err_0@ == prefix + "')' was expected but not found."@
                &&& (lex(body) is Some && group_parens(lex(body)->0) is StrayClose) ==> r is Err
                    && r->Err_0@ == prefix + "'(' was expected but not found."@
                &&& (lex(body) is Some && group_parens(lex(body)->0) is Grouped && and_or_error(
                    group_operands(group_parens(lex(body)->0)->Grouped_0, false),
                ) is Some) ==> r is Err && r->Err_0@ == prefix + and_or_error(
                    group_operands(group_parens(lex(body)->0)->Grouped_0, false),
                )->0
            }),
    {
        let converted = Self::convert_condition(condition_str, names.as_slice());
        let chars = chars_of(converted.as_str());
        let kept = strip_pipe(&chars);
        let body = string_of(&kept);
        match self.compile_condition_body(body.as_str(), names) {
            Ok(node) => Ok(node),
            Err(msg) => {
                let full = concat("A condition parse error has occurred. ", msg.as_str());
                proof {
                    let p = "A condition parse error has occurred. "@;
                    assert((p + msg@).subrange(0, p.len() as int) =~= p);
                }
                Err(full)
            },
        }
    }

    /// Tokenizes, parses and converts a condition text with no pipe.
    fn compile_condition_body(&self, condition_str: &str, names: &Vec<String>) -> (r: Result<
        ConditionNode,
        String,
    >)
        ensures
            r is Ok ==> r->Ok_0.refs_within(string_views(names@)),
            names@.len() == 0 ==> r is Err,
            lex(condition_str@) is None ==> r is Err && r->Err_0@
                == "An unusable character was found."@,
            (lex(condition_str@) is Some && group_parens(lex(condition_str@)->0) is Unclosed) ==> r is Err
                && r->Err_0@ == "')' was expected but not found."@,
            (lex(condition_str@) is Some && group_parens(lex(condition_str@)->0) is StrayClose) ==> r is Err
                && r->Err_0@ == "'(' was expected but not found."@,
            (lex(condition_str@) is Some && group_parens(lex(condition_str@)->0) is Grouped
                && and_or_error(group_operands(group_parens(lex(condition_str@)->0)->Grouped_0, false))
                is Some) ==> r is Err && r->Err_0@ == and_or_error(
                group_operands(group_parens(lex(condition_str@)->0)->Grouped_0, false),
            )->0,
    {
        let tokens = match self.tokenize(condition_str) {
            Ok(t) => t,
            Err(e) => {
                return Err(e);
            },
        };
        let parsed = match self.parse(tokens) {
            Ok(t) => t,
            Err(e) => {
                return Err(e);
            },
        };
        proof {
            if names@.len() == 0 {
                assert(string_views(names@) =~= Seq::<Seq<char>>::empty());
                lemma_non_empty_needs_names(parsed);
            }
        }
        Self::to_selectnode(parsed, names)
    }

    /// Converts a parsed token into a condition tree. A name that is not
    /// one of `names` is an error.
    #[verifier::loop_isolation(false)]
    fn to_selectnode(token: ConditionToken, names: &Vec<String>) -> (r: Result<ConditionNode, String>)
        ensures
            r is Ok ==> r->Ok_0.refs_within(string_views(names@)),
            match token_error(token, string_views(names@)) {
                Some(e) => r is Err && r->Err_0@ == e,
                None => r is Ok && mirrors(token, r->Ok_0),
            },
        decreases token,
    {
        broadcast use vstd::std_specs::vec::axiom_vec_index_decreases;

        let ghost tk = token;
        proof {
            lemma_token_error_other(tk, string_views(names@));
            if tk is AndContainer || tk is OrContainer {
                lemma_token_error_list(tk, string_views(names@));
            }
        }
        match token {
            ConditionToken::SelectionReference(name) => {
                let ghost nv = string_views(names@);
                let mut i: usize = 0;
                while i < names.len()
                    invariant
                        i <= names@.len(),
                        nv == string_views(names@),
                        forall|k: int| 0 <= k < i ==> nv[k] != name@,
                    decreases names@.len() - i,
                {
                    if names[i] == name {
                        assert(nv[i as int] == name@);
                        assert(nv.contains(name@));
                        return Ok(ConditionNode::Reference(name));
                    }
                    i += 1;
                }
                Err(concat(name.as_str(), " is not defined."))
            },
            ConditionToken::AndContainer(v) => {
                assert(decreases_to!(tk => v));
                assert(tk.spec_sub_tokens() == v@);
                match Self::to_selectnode_all(v, names) {
                    Ok(w) => Ok(ConditionNode::And(w)),
                    Err(e) => Err(e),
                }
            },
            ConditionToken::OrContainer(v) => {
                assert(decreases_to!(tk => v));
                assert(tk.spec_sub_tokens() == v@);
                match Self::to_selectnode_all(v, names) {
                    Ok(w) => Ok(ConditionNode::Or(w)),
                    Err(e) => Err(e),
                }
            },
            ConditionToken::NotContainer(v) => {
                if v.len() != 1 {
                    return Err("Unknown error".to_string());
                }
                let mut v = v;
                let ghost orig = v;
                assert(tk.spec_sub_tokens() == v@);
                let only = v.remove(0);
                assert(decreases_to!(orig => orig[0]));
                match Self::to_selectnode(only, names) {
                    Ok(c) => Ok(ConditionNode::Not(Box::new(c))),
                    Err(e) => Err(e),
                }
            },
            _ => Err("Unknown error".to_string()),
        }
    }

    /// [`ConditionCompiler::to_selectnode`] on each token of `items`.
    fn to_selectnode_all(items: Vec<ConditionToken>, names: &Vec<String>) -> (r: Result<
        Vec<ConditionNode>,
        String,
    >)
        ensures
            r is Ok ==> forall|i: int|
                0 <= i < r->Ok_0@.len() ==> (#[trigger] r->Ok_0@[i]).refs_within(
                    string_views(names@),
                ),
            r is Ok ==> r->Ok_0@.len() == items@.len() && forall|i: int|
                0 <= i < items@.len() ==> token_error(#[trigger] items@[i], string_views(names@)) is None
                    && mirrors(items@[i], r->Ok_0@[i]),
            r is Err ==> exists|j: int|
                first_error_at(items@, string_views(names@), j) && r->Err_0@ == token_error(
                    #[trigger] items@[j],
                    string_views(names@),
                )->0,
        decreases items,
    {
        broadcast use vstd::std_specs::vec::axiom_vec_index_decreases;

        let ghost orig = items;
        let mut v = items;
        let mut out: Vec<ConditionNode> = Vec::new();
        while v.len() > 0
            invariant
                orig == items,
                out@.len() + v@.len() == orig@.len(),
                forall|i: int| 0 <= i < v@.len() ==> v@[i] == orig@[out@.len() + i],
                forall|i: int|
                    0 <= i < out@.len() ==> (#[trigger] out@[i]).refs_within(string_views(names@)),
                forall|i: int|
                    0 <= i < out@.len() ==> token_error(#[trigger] orig@[i], string_views(names@)) is None
                        && mirrors(orig@[i], out@[i]),
            decreases v@.len(),
        {
            let ghost k = out@.len() as int;
            let ghost before = v@;
            let t = v.remove(0);
            assert(t == orig@[k]);
            assert(decreases_to!(orig => orig[k]));
            let c = match Self::to_selectnode(t, names) {
                Ok(c) => c,
                Err(e) => {
                    assert(first_error_at(items@, string_views(names@), k));
                    return Err(e);
                },
            };
            let ghost out0 = out@;
            out.push(c);
            assert forall|i: int| 0 <= i < out@.len() implies token_error(#[trigger] orig@[i], string_views(names@)) is None
                && mirrors(orig@[i], out@[i]) by {
                if i < k {
                    assert(out@[i] == out0[i]);
                }
            }
            assert forall|i: int| 0 <= i < v@.len() implies v@[i] == orig@[out@.len() + i] by {
                assert(v@[i] == before[i + 1]);
            }
        }
        Ok(out)
    }

    /// Parses a token sequence: parentheses first, then `and`/`or`, then
    /// `not`, then what each parenthesis held.
    fn parse(&self, tokens: Vec<ConditionToken>) -> (r: Result<ConditionToken, String>)
        requires
            flat(tokens@),
        ensures
            group_parens(lexemes(tokens@)) is Unclosed ==> r is Err && r->Err_0@
                == "')' was expected but not found."@,
            group_parens(lexemes(tokens@)) is StrayClose ==> r is Err && r->Err_0@
                == "'(' was expected but not found."@,
            (group_parens(lexemes(tokens@)) is Grouped && and_or_error(
                group_operands(group_parens(lexemes(tokens@))->Grouped_0, false),
            ) is Some) ==> r is Err && r->Err_0@ == and_or_error(
                group_operands(group_parens(lexemes(tokens@))->Grouped_0, false),
            )->0,
            r is Ok ==> non_empty_tree(r->Ok_0),
        decreases 2 * tokens@.len() + 1, tokens,
    {
        let ghost n = tokens@.len() as int;
        let tokens = match self.parse_parenthesis(tokens) {
            Ok(t) => t,
            Err(e) => {
                return Err(e);
            },
        };
        let token = match self.parse_and_or_operator(tokens, Ghost(n)) {
            Ok(t) => t,
            Err(e) => {
                return Err(e);
            },
        };
        let token = match Self::parse_operand_container(token, Ghost(n)) {
            Ok(t) => t,
            Err(e) => {
                return Err(e);
            },
        };
        self.parse_rest_parenthesis(token, Ghost(n))
    }

    /// Parses, wherever it stands in `token`, what each parenthesis holds.
    fn parse_rest_parenthesis(&self, token: ConditionToken, Ghost(n): Ghost<int>) -> (r: Result<
        ConditionToken,
        String,
    >)
        requires
            paren_bounded(token, n),
            non_empty_tree(token),
        ensures
            r is Ok ==> non_empty_tree(r->Ok_0),
        decreases 2 * n, token,
    {
        let ghost tk = token;
        assert forall|i: int| 0 <= i < tk.spec_sub_tokens().len() && !(tk is ParenthesisContainer)
            implies paren_bounded(#[trigger] tk.spec_sub_tokens()[i], n) by {}
        match token {
            ConditionToken::ParenthesisContainer(sub) => self.parse(sub),
            ConditionToken::AndContainer(v) => {
                assert(tk.spec_sub_tokens() == v@);
                match self.parse_rest_all(v, Ghost(n)) {
                    Ok(w) => Ok(ConditionToken::AndContainer(w)),
                    Err(e) => Err(e),
                }
            },
            ConditionToken::OrContainer(v) => {
                assert(tk.spec_sub_tokens() == v@);
                match self.parse_rest_all(v, Ghost(n)) {
                    Ok(w) => Ok(ConditionToken::OrContainer(w)),
                    Err(e) => Err(e),
                }
            },
            ConditionToken::NotContainer(v) => {
                assert(tk.spec_sub_tokens() == v@);
                match self.parse_rest_all(v, Ghost(n)) {
                    Ok(w) => Ok(ConditionToken::NotContainer(w)),
                    Err(e) => Err(e),
                }
            },
            ConditionToken::OperandContainer(v) => {
                assert(tk.spec_sub_tokens() == v@);
                match self.parse_rest_all(v, Ghost(n)) {
                    Ok(w) => Ok(ConditionToken::OperandContainer(w)),
                    Err(e) => Err(e),
                }
            },
            _ => Ok(token),
        }
    }

    /// [`ConditionCompiler::parse_rest_parenthesis`] on each token of `v`.
    fn parse_rest_all(&self, items: Vec<ConditionToken>, Ghost(n): Ghost<int>) -> (r: Result<
        Vec<ConditionToken>,
        String,
    >)
        requires
            forall|i: int| 0 <= i < items@.len() ==> paren_bounded(#[trigger] items@[i], n),
            forall|i: int| 0 <= i < items@.len() ==> non_empty_tree(#[trigger] items@[i]),
        ensures
            r is Ok ==> r->Ok_0@.len() == items@.len(),
            r is Ok ==> forall|i: int| 0 <= i < r->Ok_0@.len() ==> non_empty_tree(#[trigger] r->Ok_0@[i]),
        decreases 2 * n, items,
    {
        broadcast use vstd::std_specs::vec::axiom_vec_index_decreases;

        let ghost orig = items;
        let mut v = items;
        let mut out: Vec<ConditionToken> = Vec::new();
        while v.len() > 0
            invariant
                orig == items,
                out@.len() + v@.len() == orig@.len(),
                forall|i: int| 0 <= i < v@.len() ==> v@[i] == orig@[out@.len() + i],
                forall|i: int| 0 <= i < orig@.len() ==> paren_bounded(#[trigger] orig@[i], n),
                forall|i: int| 0 <= i < orig@.len() ==> non_empty_tree(#[trigger] orig@[i]),
                forall|i: int| 0 <= i < out@.len() ==> non_empty_tree(#[trigger] out@[i]),
            decreases v@.len(),
        {
            let ghost k = out@.len() as int;
            let ghost before = v@;
            let t = v.remove(0);
            assert(t == orig@[k]);
            assert(decreases_to!(orig => orig[k]));
            let p = match self.parse_rest_parenthesis(t, Ghost(n)) {
                Ok(p) => p,
                Err(e) => {
                    return Err(e);
                },
            };
            out.push(p);
            assert forall|i: int| 0 <= i < v@.len() implies v@[i] == orig@[out@.len() + i] by {
                assert(v@[i] == before[i + 1]);
            }
        }
        Ok(out)
    }

    /// Resolves `not` inside each `OperandContainer`: one that holds a
    /// single operand becomes that operand; one that holds `not` and an
    /// operand becomes a `NotContainer`.
    fn parse_operand_container(parent_token: ConditionToken, Ghost(n): Ghost<int>) -> (r: Result<
        ConditionToken,
        String,
    >)
        requires
            paren_bounded(parent_token, n),
            non_empty_tree(parent_token),
        ensures
            r is Ok ==> paren_bounded(r->Ok_0, n),
            r is Ok ==> non_empty_tree(r->Ok_0),
            (parent_token.lexeme() !is Group || parent_token is ParenthesisContainer) ==> r is Ok
                && r->Ok_0 == parent_token,
            (parent_token is AndContainer || parent_token is OrContainer || parent_token is NotContainer)
                ==> (r is Ok ==> r->Ok_0.kind() == parent_token.kind()),
            parent_token is OperandContainer ==> ({
                let s = parent_token.spec_sub_tokens();
                let multiple = "Unknown error. Maybe it is because there are multiple names of selection nodes."@;
                &&& s.len() == 0 ==> r is Err && r->Err_0@ == "Unknown error."@
                &&& s.len() >= 3 ==> r is Err && r->Err_0@ == multiple
                &&& (s.len() == 1 && s[0] is Not) ==> r is Err && r->Err_0@
                    == "An illegal not was found."@
                &&& (s.len() == 1 && !(s[0] is Not)) ==> r is Ok && r->Ok_0 == s[0]
                &&& (s.len() == 2 && s[0] is Not && s[1] is Not) ==> r is Err && r->Err_0@
                    == "Not is continuous."@
                &&& (s.len() == 2 && s[0] is Not && !(s[1] is Not)) ==> r is Ok && r->Ok_0 is NotContainer
                    && r->Ok_0.spec_sub_tokens() == seq![s[1]]
                &&& (s.len() == 2 && !(s[0] is Not)) ==> r is Err && r->Err_0@ == multiple
            }),
        decreases parent_token,
    {
        let ghost tk = parent_token;
        assert forall|i: int| 0 <= i < tk.spec_sub_tokens().len() && !(tk is ParenthesisContainer)
            implies paren_bounded(#[trigger] tk.spec_sub_tokens()[i], n) by {}
        match parent_token {
            ConditionToken::OperandContainer(sub) => {
                let mut sub = sub;
                if sub.len() >= 3 {
                    return Err(
                        "Unknown error. Maybe it is because there are multiple names of selection nodes.".to_string(),
                    );
                }
                if sub.len() == 0 {
                    return Err("Unknown error.".to_string());
                }
                let ghost orig = sub@;
                assert(paren_bounded(orig[0], n));
                if sub.len() == 1 {
                    let only = sub.remove(0);
                    if let ConditionToken::Not = only {
                        return Err("An illegal not was found.".to_string());
                    }
                    return Ok(only);
                }
                assert(paren_bounded(orig[1], n));
                let first = sub.remove(0);
                let second = sub.remove(0);
                if let ConditionToken::Not = first {
                    if let ConditionToken::Not = second {
                        Err("Not is continuous.".to_string())
                    } else {
                        let mut one: Vec<ConditionToken> = Vec::new();
                        one.push(second);
                        let c = ConditionToken::NotContainer(one);
                        assert(c.spec_sub_tokens() == one@);
                        Ok(c)
                    }
                } else {
                    Err(
                        "Unknown error. Maybe it is because there are multiple names of selection nodes.".to_string(),
                    )
                }
            },
            ConditionToken::AndContainer(v) => match Self::parse_operand_all(v, Ghost(n)) {
                Ok(w) => {
                    let c = ConditionToken::AndContainer(w);
                    assert(c.spec_sub_tokens() == w@);
                    Ok(c)
                },
                Err(e) => Err(e),
            },
            ConditionToken::OrContainer(v) => match Self::parse_operand_all(v, Ghost(n)) {
                Ok(w) => {
                    let c = ConditionToken::OrContainer(w);
                    assert(c.spec_sub_tokens() == w@);
                    Ok(c)
                },
                Err(e) => Err(e),
            },
            ConditionToken::NotContainer(v) => match Self::parse_operand_all(v, Ghost(n)) {
                Ok(w) => {
                    let c = ConditionToken::NotContainer(w);
                    assert(c.spec_sub_tokens() == w@);
                    Ok(c)
                },
                Err(e) => Err(e),
            },
            _ => Ok(parent_token),
        }
    }

    /// [`ConditionCompiler::parse_operand_container`] on each token of `v`.
    fn parse_operand_all(items: Vec<ConditionToken>, Ghost(n): Ghost<int>) -> (r: Result<
        Vec<ConditionToken>,
        String,
    >)
        requires
            forall|i: int| 0 <= i < items@.len() ==> paren_bounded(#[trigger] items@[i], n),
            forall|i: int| 0 <= i < items@.len() ==> non_empty_tree(#[trigger] items@[i]),
        ensures
            r is Ok ==> forall|i: int|
                0 <= i < r->Ok_0@.len() ==> paren_bounded(#[trigger] r->Ok_0@[i], n),
            r is Ok ==> r->Ok_0@.len() == items@.len(),
            r is Ok ==> forall|i: int| 0 <= i < r->Ok_0@.len() ==> non_empty_tree(#[trigger] r->Ok_0@[i]),
        decreases items,
    {
        broadcast use vstd::std_specs::vec::axiom_vec_index_decreases;

        let ghost orig = items;
        let mut v = items;
        let mut out: Vec<ConditionToken> = Vec::new();
        while v.len() > 0
            invariant
                orig == items,
                out@.len() + v@.len() == orig@.len(),
                forall|i: int| 0 <= i < v@.len() ==> v@[i] == orig@[out@.len() + i],
                forall|i: int| 0 <= i < orig@.len() ==> paren_bounded(#[trigger] orig@[i], n),
                forall|i: int| 0 <= i < out@.len() ==> paren_bounded(#[trigger] out@[i], n),
                forall|i: int| 0 <= i < orig@.len() ==> non_empty_tree(#[trigger] orig@[i]),
                forall|i: int| 0 <= i < out@.len() ==> non_empty_tree(#[trigger] out@[i]),
            decreases v@.len(),
        {
            let ghost k = out@.len() as int;
            let ghost before = v@;
            let t = v.remove(0);
            assert(t == orig@[k]);
            assert(decreases_to!(orig => orig[k]));
            let p = match Self::parse_operand_container(t, Ghost(n)) {
                Ok(p) => p,
                Err(e) => {
                    return Err(e);
                },
            };
            out.push(p);
            assert forall|i: int| 0 <= i < v@.len() implies v@[i] == orig@[out@.len() + i] by {
                assert(v@[i] == before[i + 1]);
            }
        }
        Ok(out)
    }
}

/// Every `and` and `or` container within `t` holds at least one token.
pub open spec fn non_empty_tree(t: ConditionToken) -> bool
    decreases t,
{
    match t {
        ConditionToken::AndContainer(v) => v@.len() > 0 && forall|i: int|
            0 <= i < v@.len() ==> non_empty_tree(#[trigger] v@[i]),
        ConditionToken::OrContainer(v) => v@.len() > 0 && forall|i: int|
            0 <= i < v@.len() ==> non_empty_tree(#[trigger] v@[i]),
        ConditionToken::NotContainer(v) => forall|i: int|
            0 <= i < v@.len() ==> non_empty_tree(#[trigger] v@[i]),
        ConditionToken::OperandContainer(v) => forall|i: int|
            0 <= i < v@.len() ==> non_empty_tree(#[trigger] v@[i]),
        _ => true,
    }
}

/// A tree whose `and` and `or` containers are not empty names at least
/// one selection, so without selections it does not convert.
proof fn lemma_non_empty_needs_names(t: ConditionToken)
    requires
        non_empty_tree(t),
    ensures
        token_error(t, Seq::empty()) is Some,
    decreases t,
{
    broadcast use vstd::std_specs::vec::axiom_vec_index_decreases;

    match t {
        ConditionToken::AndContainer(v) => {
            assert(decreases_to!(t => v@[0]));
            lemma_non_empty_needs_names(v@[0]);
        },
        ConditionToken::OrContainer(v) => {
            assert(decreases_to!(t => v@[0]));
            lemma_non_empty_needs_names(v@[0]);
        },
        ConditionToken::NotContainer(v) => {
            if v@.len() == 1 {
                assert(decreases_to!(t => v@[0]));
                lemma_non_empty_needs_names(v@[0]);
            }
        },
        _ => {},
    }
}

/// `out` is what gathering the tokens of `s` into operands gives, after
/// the tokens `run` of an operand begun before `s`: each run of tokens
/// between logical operators becomes one `OperandContainer` holding that
/// run, and the operators stay where they are.
pub open spec fn operand_runs(s: Seq<ConditionToken>, run: Seq<ConditionToken>, out: Seq<ConditionToken>) -> bool
    decreases s.len(),
{
    if s.len() == 0 {
        if run.len() > 0 {
            out.len() == 1 && out[0] is OperandContainer && out[0].spec_sub_tokens() == run
        } else {
            out.len() == 0
        }
    } else if s[0].is_logical() {
        if run.len() > 0 {
            &&& out.len() >= 2
            &&& out[0] is OperandContainer
            &&& out[0].spec_sub_tokens() == run
            &&& out[1] == s[0]
            &&& operand_runs(s.drop_first(), Seq::empty(), out.subrange(2, out.len() as int))
        } else {
            &&& out.len() >= 1
            &&& out[0] == s[0]
            &&& operand_runs(s.drop_first(), Seq::empty(), out.subrange(1, out.len() as int))
        }
    } else {
        operand_runs(s.drop_first(), run.push(s[0]), out)
    }
}

/// `terms` are the terms of the `or` over the operands and operators `p`
/// (operand, operator, operand, ...): `and` binds tighter than `or`, so
/// each operand that follows an `and` is paired with the term before it
/// into an `AndContainer` (left to right), and each operand that follows
/// an `or` starts a new term.
pub open spec fn or_of_and_runs(p: Seq<ConditionToken>, terms: Seq<ConditionToken>) -> bool
    decreases p.len(),
{
    if p.len() <= 1 {
        terms == p
    } else if p.len() < 3 {
        false
    } else {
        let x = p.last();
        let pre = p.subrange(0, p.len() - 2);
        if p[p.len() - 2] is Or {
            terms.len() >= 1 && terms.last() == x && or_of_and_runs(pre, terms.drop_last())
        } else {
            &&& terms.len() >= 1
            &&& terms.last() is AndContainer
            &&& terms.last().spec_sub_tokens().len() == 2
            &&& terms.last().spec_sub_tokens()[1] == x
            &&& or_of_and_runs(pre, terms.drop_last().push(terms.last().spec_sub_tokens()[0]))
        }
    }
}

/// Of the parts `v`, the one at index `j` is the leftmost whose conversion
/// into a condition tree over `names` fails.
pub open spec fn first_error_at(v: Seq<ConditionToken>, names: Seq<Seq<char>>, j: int) -> bool {
    &&& 0 <= j < v.len()
    &&& token_error(v[j], names) is Some
    &&& forall|k: int| 0 <= k < j ==> token_error(#[trigger] v[k], names) is None
}

/// The error of converting `t` into a condition tree over `names`,
/// where of an `and`/`or` container only the parts from index `i` on are
/// looked at; `None` when it converts. An undefined name is reported by
/// name, and of the parts of a container the leftmost failing one.
pub open spec fn token_error_at(t: ConditionToken, names: Seq<Seq<char>>, i: int) -> Option<Seq<char>>
    decreases t, t.spec_sub_tokens().len() - i,
{
    match t {
        ConditionToken::SelectionReference(n) => if names.contains(n@) {
            None
        } else {
            Some(n@ + " is not defined."@)
        },
        ConditionToken::AndContainer(v) => if 0 <= i < v@.len() {
            match token_error_at(v@[i], names, 0) {
                Some(e) => Some(e),
                None => token_error_at(t, names, i + 1),
            }
        } else {
            None
        },
        ConditionToken::OrContainer(v) => if 0 <= i < v@.len() {
            match token_error_at(v@[i], names, 0) {
                Some(e) => Some(e),
                None => token_error_at(t, names, i + 1),
            }
        } else {
            None
        },
        ConditionToken::NotContainer(v) => if v@.len() == 1 {
            token_error_at(v@[0], names, 0)
        } else {
            Some("Unknown error"@)
        },
        _ => Some("Unknown error"@),
    }
}

/// The error of converting `t` into a condition tree over `names`, or
/// `None` when it converts.
pub open spec fn token_error(t: ConditionToken, names: Seq<Seq<char>>) -> Option<Seq<char>> {
    token_error_at(t, names, 0)
}

proof fn lemma_token_error_from(t: ConditionToken, names: Seq<Seq<char>>, i: int)
    requires
        t is AndContainer || t is OrContainer,
        0 <= i <= t.spec_sub_tokens().len(),
    ensures
        (forall|k: int| i <= k < t.spec_sub_tokens().len() ==> token_error(#[trigger] t.spec_sub_tokens()[k], names) is None)
            ==> token_error_at(t, names, i) is None,
        forall|j: int|
            i <= j < t.spec_sub_tokens().len() && token_error(#[trigger] t.spec_sub_tokens()[j], names) is Some
                && (forall|k: int| i <= k < j ==> token_error(#[trigger] t.spec_sub_tokens()[k], names) is None)
                ==> token_error_at(t, names, i) == token_error(t.spec_sub_tokens()[j], names),
    decreases t.spec_sub_tokens().len() - i,
{
    if i < t.spec_sub_tokens().len() {
        lemma_token_error_from(t, names, i + 1);
    }
}

proof fn lemma_token_error_list(t: ConditionToken, names: Seq<Seq<char>>)
    requires
        t is AndContainer || t is OrContainer,
    ensures
        (forall|i: int| 0 <= i < t.spec_sub_tokens().len() ==> token_error(#[trigger] t.spec_sub_tokens()[i], names) is None)
            ==> token_error(t, names) is None,
        forall|j: int| first_error_at(t.spec_sub_tokens(), names, j) ==> token_error(t, names)
            == token_error(#[trigger] t.spec_sub_tokens()[j], names),
{
    lemma_token_error_from(t, names, 0);
    let v = t.spec_sub_tokens();
    assert forall|j: int| first_error_at(v, names, j) implies token_error(t, names) == token_error(#[trigger] v[j], names) by {
        assert(0 <= j < v.len() && token_error(v[j], names) is Some);
    }
}

proof fn lemma_token_error_other(t: ConditionToken, names: Seq<Seq<char>>)
    ensures
        t is SelectionReference ==> token_error(t, names) == if names.contains(t->SelectionReference_0@) {
            None
        } else {
            Some(t->SelectionReference_0@ + " is not defined."@)
        },
        t is NotContainer ==> token_error(t, names) == if t.spec_sub_tokens().len() == 1 {
            token_error(t.spec_sub_tokens()[0], names)
        } else {
            Some("Unknown error"@)
        },
        !(t is SelectionReference || t is AndContainer || t is OrContainer || t is NotContainer)
            ==> token_error(t, names) == Some("Unknown error"@),
{
}

/// `n` is the condition tree of token `t`: a name becomes a reference to
/// it, and `and`, `or` and `not` containers the same nodes over the trees
/// of what they hold, in order.
pub open spec fn mirrors(t: ConditionToken, n: ConditionNode) -> bool
    decreases t,
{
    match t {
        ConditionToken::SelectionReference(name) => n is Reference && n->Reference_0@ == name@,
        ConditionToken::AndContainer(v) => n is And && n->And_0@.len() == v@.len() && forall|i: int|
            0 <= i < v@.len() ==> mirrors(#[trigger] v@[i], n->And_0@[i]),
        ConditionToken::OrContainer(v) => n is Or && n->Or_0@.len() == v@.len() && forall|i: int|
            0 <= i < v@.len() ==> mirrors(#[trigger] v@[i], n->Or_0@[i]),
        ConditionToken::NotContainer(v) => n is Not && v@.len() == 1 && mirrors(v@[0], *n->Not_0),
        _ => false,
    }
}

/// A parenthesis container holds flat tokens, fewer than `n` of them; no
/// other token holds one that does not.
pub open spec fn paren_bounded(t: ConditionToken, n: int) -> bool
    decreases t,
{
    if t is ParenthesisContainer {
        t.spec_sub_tokens().len() < n && flat(t.spec_sub_tokens())
    } else {
        forall|i: int|
            0 <= i < t.spec_sub_tokens().len() ==> paren_bounded(
                #[trigger] t.spec_sub_tokens()[i],
                n,
            )
    }
}

/// Each token is a logical operator or an `OperandContainer` that holds
/// a non-empty run of other tokens, and no two containers are neighbours.
pub open spec fn operand_shaped(s: Seq<ConditionToken>) -> bool {
    &&& forall|i: int|
        0 <= i < s.len() ==> (#[trigger] s[i]).is_logical() || (s[i] is OperandContainer
            && s[i].spec_sub_tokens().len() > 0 && forall|j: int|
            0 <= j < s[i].spec_sub_tokens().len() ==> !(
            #[trigger] s[i].spec_sub_tokens()[j]).is_logical())
    &&& forall|i: int| 0 <= i < s.len() - 1 ==> (#[trigger] s[i]).is_logical() || s[i + 1].is_logical()
}

pub open spec fn is_logical_lexeme(l: Lexeme) -> bool {
    l is And || l is Or
}

/// The lexemes after gathering each run between logical operators into
/// one `Group`; `pending` says a run has begun before `s`.
pub open spec fn group_operands(s: Seq<Lexeme>, pending: bool) -> Seq<Lexeme>
    decreases s.len(),
{
    let head = if pending {
        seq![Lexeme::Group]
    } else {
        Seq::empty()
    };
    if s.len() == 0 {
        head
    } else if is_logical_lexeme(s[0]) {
        head + seq![s[0]] + group_operands(s.drop_first(), false)
    } else {
        group_operands(s.drop_first(), true)
    }
}

/// Operands and logical operators alternate, starting with an operand.
pub open spec fn alternates(g: Seq<Lexeme>) -> bool {
    forall|k: int| 0 <= k < g.len() ==> ((k % 2 == 1) == is_logical_lexeme(#[trigger] g[k]))
}

/// The error that the operand sequence `g` gives when `and` and `or` are
/// parsed, if any.
pub open spec fn and_or_error(g: Seq<Lexeme>) -> Option<Seq<char>> {
    if g.len() == 0 {
        Some("Unknown error."@)
    } else if is_logical_lexeme(g[0]) || is_logical_lexeme(g.last()) {
        Some("An illegal logical operator(and, or) was found."@)
    } else if !alternates(g) {
        Some("The use of a logical operator(and, or) was wrong."@)
    } else {
        None
    }
}

/// Index `k >= j` of the token that closes a parenthesis opened before
/// `j`, where the depth at `j` is `d`.
fn find_close(tokens: &Vec<ConditionToken>, j: usize, d: usize) -> (r: Option<usize>)
    requires
        j <= tokens@.len(),
        1 <= d <= j,
    ensures
        match close_index(lexemes(tokens@).subrange(j as int, tokens@.len() as int), d as int) {
            Some(k) => r == Some((j + k) as usize),
            None => r is None,
        },
    decreases tokens@.len() - j,
{
    let n = tokens.len();
    let ghost s = lexemes(tokens@).subrange(j as int, n as int);
    if j == n {
        return None;
    }
    assert(s[0] == tokens@[j as int].lexeme());
    let d2: usize = match tokens[j] {
        ConditionToken::LeftParenthesis => d + 1,
        ConditionToken::RightParenthesis => d - 1,
        _ => d,
    };
    if d2 == 0 {
        return Some(j);
    }
    assert(s.drop_first() =~= lexemes(tokens@).subrange(j + 1, n as int));
    proof {
        lemma_close_index_range(s.drop_first(), d2 as int);
    }
    find_close(tokens, j + 1, d2)
}

/// Groups the parentheses of `tokens[i..]`.
fn group_from(tokens: &Vec<ConditionToken>, i: usize) -> (r: Result<Vec<ConditionToken>, String>)
    requires
        i <= tokens@.len(),
        flat(tokens@),
    ensures
        match group_parens(lexemes(tokens@).subrange(i as int, tokens@.len() as int)) {
            ParenOutcome::Grouped(g) => r is Ok && lexemes(r->Ok_0@) == g && forall|k: int|
                0 <= k < r->Ok_0@.len() ==> paren_bounded(
                    #[trigger] r->Ok_0@[k],
                    tokens@.len() as int,
                ),
            ParenOutcome::Unclosed => r is Err && r->Err_0@ == "')' was expected but not found."@,
            ParenOutcome::StrayClose => r is Err && r->Err_0@
                == "'(' was expected but not found."@,
        },
        r is Ok ==> forall|k: int| 0 <= k < r->Ok_0@.len() ==> non_empty_tree(#[trigger] r->Ok_0@[k]),
    decreases tokens@.len() - i,
{
    let n = tokens.len();
    let ghost s = lexemes(tokens@).subrange(i as int, n as int);
    if i == n {
        let v: Vec<ConditionToken> = Vec::new();
        assert(lexemes(v@) =~= Seq::<Lexeme>::empty());
        return Ok(v);
    }
    assert(s[0] == tokens@[i as int].lexeme());
    assert(s.drop_first() =~= lexemes(tokens@).subrange(i + 1, n as int));
    if let ConditionToken::LeftParenthesis = tokens[i] {
        match find_close(tokens, i + 1, 1) {
            None => Err("')' was expected but not found.".to_string()),
            Some(k) => {
                proof {
                    lemma_close_index_range(s.drop_first(), 1);
                    assert(s.subrange((k - i + 1) as int, s.len() as int) =~= lexemes(
                        tokens@,
                    ).subrange(k + 1, n as int));
                }
                let rest = group_from(tokens, k + 1);
                match rest {
                    Err(e) => Err(e),
                    Ok(mut g) => {
                        let mut inner: Vec<ConditionToken> = Vec::new();
                        let mut x = i + 1;
                        while x < k
                            invariant
                                i + 1 <= x <= k < n,
                                n == tokens@.len(),
                                flat(tokens@),
                                inner@.len() == x - (i + 1),
                                forall|y: int|
                                    0 <= y < inner@.len() ==> same_token(
                                        #[trigger] inner@[y],
                                        tokens@[i + 1 + y],
                                    ),
                            decreases k - x,
                        {
                            inner.push(tokens[x].duplicate());
                            x += 1;
                        }
                        let ghost before = g@;
                        let t = ConditionToken::ParenthesisContainer(inner);
                        g.insert(0, t);
                        proof {
                            assert(lexemes(g@) =~= seq![Lexeme::Group] + lexemes(before));
                            assert forall|y: int| 0 <= y < inner@.len() implies !(
                            #[trigger] inner@[y]).is_container() by {
                                assert(!tokens@[i + 1 + y].is_container());
                            }
                            assert forall|y: int| 0 <= y < g@.len() implies paren_bounded(
                                #[trigger] g@[y],
                                n as int,
                            ) && non_empty_tree(g@[y]) by {
                                if y > 0 {
                                    assert(g@[y] == before[y - 1]);
                                }
                            }
                        }
                        Ok(g)
                    },
                }
            },
        }
    } else {
        let rest = group_from(tokens, i + 1);
        match rest {
            Err(e) => Err(e),
            Ok(mut g) => {
                if let ConditionToken::RightParenthesis = tokens[i] {
                    Err("'(' was expected but not found.".to_string())
                } else {
                    let ghost before = g@;
                    let t = tokens[i].duplicate();
                    g.insert(0, t);
                    proof {
                        assert(lexemes(g@) =~= seq![s[0]] + lexemes(before));
                        assert forall|y: int| 0 <= y < g@.len() implies paren_bounded(
                            #[trigger] g@[y],
                            n as int,
                        ) && non_empty_tree(g@[y]) by {
                            if y > 0 {
                                assert(g@[y] == before[y - 1]);
                            } else {
                                assert(!tokens@[i as int].is_container());
                                assert(same_token(t, tokens@[i as int]));
                            }
                        }
                    }
                    Ok(g)
                }
            },
        }
    }
}

/// Over `s`, whose first `m` characters are word characters and whose
/// character `m` (if any) is not, the word prefix from `k` has `m - k`
/// characters.
proof fn lemma_word_prefix(s: Seq<char>, m: int, k: int)
    requires
        0 <= k <= m <= s.len(),
        forall|x: int| 0 <= x < m ==> word_char(#[trigger] s[x]),
        m < s.len() ==> !word_char(s[m]),
    ensures
        word_prefix_len(s.subrange(k, s.len() as int)) == m - k,
    decreases m - k,
{
    let t = s.subrange(k, s.len() as int);
    if k < m {
        assert(t.drop_first() =~= s.subrange(k + 1, s.len() as int));
        lemma_word_prefix(s, m, k + 1);
    }
}

} // verus!
