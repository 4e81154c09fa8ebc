//! Comment stripping: a lexical scan per language that drops comments and
//! keeps string and character literals as they are.
use vstd::prelude::*;
use crate::text::{chars_of, string_of, same_chars};

verus! {

/// The comment and literal syntax of one language.
pub ghost struct Syntax {
    /// Line-comment marker; empty when the language has none.
    pub line: Seq<char>,
    /// Block-comment opening delimiter; empty when the language has none.
    pub open: Seq<char>,
    /// Block-comment closing delimiter.
    pub close: Seq<char>,
    /// Characters that open (and close) a string or character literal.
    pub quotes: Seq<char>,
    /// Inside a literal, this character makes the next one literal too.
    pub escape: char,
}

/// Executable form of [`Syntax`].
pub struct Grammar {
    pub line: Vec<char>,
    pub open: Vec<char>,
    pub close: Vec<char>,
    pub quotes: Vec<char>,
    pub escape: char,
}

impl View for Grammar {
    type V = Syntax;

    open spec fn view(&self) -> Syntax {
        Syntax {
            line: self.line@,
            open: self.open@,
            close: self.close@,
            quotes: self.quotes@,
            escape: self.escape,
        }
    }
}

/// Where the scanner stands.
#[derive(Clone, Copy)]
pub enum Mode {
    Normal,
    LineComment,
    BlockComment,
    /// Inside a literal opened by the given quote.
    InLiteral(char),
    /// Inside a literal, right after the escape character.
    Escaped(char),
}

/// A non-empty marker `m` occurs in `s` at `i`.
pub open spec fn matches_at(s: Seq<char>, i: int, m: Seq<char>) -> bool {
    m.len() > 0 && 0 <= i && i + m.len() <= s.len() && s.subrange(i, i + m.len()) == m
}

/// `c` opens a literal under `g`.
pub open spec fn opens_literal(g: Syntax, c: char) -> bool {
    occurs(g.quotes, c)
}

/// `c` is one of the characters of `q`.
pub open spec fn occurs(q: Seq<char>, c: char) -> bool
    decreases q.len(),
{
    q.len() > 0 && (q.last() == c || occurs(q.drop_last(), c))
}

/// One step of the scan at position `i < s.len()` in mode `m`: what it
/// emits, where it goes on and in which mode.
pub open spec fn step(g: Syntax, s: Seq<char>, i: nat, m: Mode) -> (Seq<char>, nat, Mode) {
    let c = s[i as int];
    match m {
        Mode::Normal => {
            if matches_at(s, i as int, g.line) {
                (Seq::<char>::empty(), i + g.line.len(), Mode::LineComment)
            } else if matches_at(s, i as int, g.open) {
                (Seq::<char>::empty(), i + g.open.len(), Mode::BlockComment)
            } else if opens_literal(g, c) {
                (seq![c], i + 1, Mode::InLiteral(c))
            } else {
                (seq![c], i + 1, Mode::Normal)
            }
        },
        Mode::LineComment => {
            if c == '\n' {
                (seq![c], i + 1, Mode::Normal)
            } else {
                (Seq::<char>::empty(), i + 1, Mode::LineComment)
            }
        },
        Mode::BlockComment => {
            if matches_at(s, i as int, g.close) {
                (Seq::<char>::empty(), i + g.close.len(), Mode::Normal)
            } else {
                (Seq::<char>::empty(), i + 1, Mode::BlockComment)
            }
        },
        Mode::InLiteral(q) => {
            if c == g.escape {
                (seq![c], i + 1, Mode::Escaped(q))
            } else if c == q {
                (seq![c], i + 1, Mode::Normal)
            } else {
                (seq![c], i + 1, Mode::InLiteral(q))
            }
        },
        Mode::Escaped(q) => (seq![c], i + 1, Mode::InLiteral(q)),
    }
}

proof fn lemma_step_advances(g: Syntax, s: Seq<char>, i: nat, m: Mode)
    requires
        i < s.len(),
    ensures
        step(g, s, i, m).1 > i,
{
}

/// What the scan emits from position `i` of `s` on, in mode `m`.
pub open spec fn scan(g: Syntax, s: Seq<char>, i: nat, m: Mode) -> Seq<char>
    decreases s.len() - i,
{
    if i >= s.len() {
        Seq::<char>::empty()
    } else {
        let (e, j, n) = step(g, s, i, m);
        if j > i {
            e + scan(g, s, j, n)
        } else {
            e
        }
    }
}

proof fn lemma_scan_shift(g: Syntax, a: Seq<char>, b: Seq<char>, i: nat, m: Mode)
    ensures
        scan(g, a + b, a.len() + i, m) == scan(g, b, i, m),
    decreases b.len() - i,
{
    let s = a + b;
    if i < b.len() {
        let p = (a.len() + i) as nat;
        assert(s[p as int] == b[i as int]);
        assert forall|mk: Seq<char>| matches_at(s, p as int, mk) == matches_at(b, i as int, mk) by {
            if p + mk.len() <= s.len() {
                assert(s.subrange(p as int, (p + mk.len()) as int) =~= b.subrange(i as int, (i + mk.len()) as int));
            }
        }
        lemma_step_advances(g, b, i, m);
        let st = step(g, b, i, m);
        assert(step(g, s, p, m).0 == st.0);
        assert(step(g, s, p, m).2 == st.2);
        assert(step(g, s, p, m).1 == a.len() + st.1);
        lemma_scan_shift(g, a, b, st.1, st.2);
    }
}

proof fn lemma_scan_literal_body(g: Syntax, s: Seq<char>, q: char, i: nat, n: nat)
    requires
        i <= n < s.len(),
        s[n as int] == q,
        q != g.escape,
        forall|t: int| i <= t < n ==> s[t] != q && s[t] != g.escape,
    ensures
        scan(g, s, i, Mode::InLiteral(q)) == s.subrange(i as int, (n + 1) as int) + scan(g, s, n + 1, Mode::Normal),
    decreases n - i,
{
    if i < n {
        lemma_scan_literal_body(g, s, q, i + 1, n);
        assert(s.subrange(i as int, (n + 1) as int) =~= seq![s[i as int]] + s.subrange((i + 1) as int, (n + 1) as int));
    } else {
        assert(s.subrange(i as int, (n + 1) as int) =~= seq![q]);
    }
}

/// Literal safety: a string or character literal comes out of stripping
/// exactly as it went in, whatever comment markers it holds. Here the text
/// starts with a literal opened and closed by quote `q`, whose body holds
/// neither `q` nor the escape character, and neither comment marker starts
/// with `q`.
pub proof fn lemma_literal_kept(g: Syntax, q: char, body: Seq<char>, rest: Seq<char>)
    requires
        opens_literal(g, q),
        q != g.escape,
        g.line.len() == 0 || g.line[0] != q,
        g.open.len() == 0 || g.open[0] != q,
        forall|t: int| 0 <= t < body.len() ==> body[t] != q && body[t] != g.escape,
    ensures
        strip_with(g, seq![q] + body + seq![q] + rest) == seq![q] + body + seq![q] + strip_with(g, rest),
{
    let lit = seq![q] + body + seq![q];
    let s = lit + rest;
    let n = (body.len() + 1) as nat;
    assert(s[0] == q);
    assert(!matches_at(s, 0, g.line)) by {
        if matches_at(s, 0, g.line) {
            assert(s.subrange(0, g.line.len() as int)[0] == s[0]);
        }
    }
    assert(!matches_at(s, 0, g.open)) by {
        if matches_at(s, 0, g.open) {
            assert(s.subrange(0, g.open.len() as int)[0] == s[0]);
        }
    }
    assert(scan(g, s, 0, Mode::Normal) == seq![q] + scan(g, s, 1, Mode::InLiteral(q)));
    assert forall|t: int| 1 <= t < n implies s[t] != q && s[t] != g.escape by {
        assert(s[t] == body[t - 1]);
    }
    assert(s[n as int] == q);
    lemma_scan_literal_body(g, s, q, 1, n);
    assert(s.subrange(1, (n + 1) as int) =~= body + seq![q]);
    lemma_scan_shift(g, lit, rest, 0, Mode::Normal);
    assert(lit.len() + 0 == n + 1);
    assert(seq![q] + (body + seq![q] + strip_with(g, rest)) =~= lit + strip_with(g, rest));
}

/// The text with its comments removed under syntax `g`.
pub open spec fn strip_with(g: Syntax, s: Seq<char>) -> Seq<char> {
    scan(g, s, 0, Mode::Normal)
}

pub open spec fn c_like(quotes: Seq<char>) -> Syntax {
    Syntax {
        line: seq!['/', '/'],
        open: seq!['/', '*'],
        close: seq!['*', '/'],
        quotes: quotes,
        escape: '\\',
    }
}

/// The registry of languages by file extension. Rust has only `"` as a
/// quote, since `'` also opens lifetimes and labels there.
pub open spec fn syntax_for(ext: Seq<char>) -> Option<Syntax> {
    if ext == seq!['r', 's'] {
        Some(c_like(seq!['"']))
    } else if ext == seq!['c'] {
        Some(c_like(seq!['"', '\'']))
    } else if ext == seq!['p', 'y'] {
        Some(
            Syntax {
                line: seq!['#'],
                open: Seq::<char>::empty(),
                close: Seq::<char>::empty(),
                quotes: seq!['"', '\''],
                escape: '\\',
            },
        )
    } else {
        None
    }
}

/// The text with the comments of the language of `ext` removed; unchanged for
/// an extension that the registry does not know.
pub open spec fn strip(s: Seq<char>, ext: Seq<char>) -> Seq<char> {
    match syntax_for(ext) {
        Some(g) => strip_with(g, s),
        None => s,
    }
}

fn c_like_grammar(quotes: Vec<char>) -> (g: Grammar)
    ensures
        g@ == c_like(quotes@),
{
    Grammar { line: vec!['/', '/'], open: vec!['/', '*'], close: vec!['*', '/'], quotes, escape: '\\' }
}

/// Looks up the grammar registered for an extension.
pub fn grammar_for(ext: &str) -> (r: Option<Grammar>)
    ensures
        match syntax_for(ext@) {
            Some(g) => r is Some && r->0@ == g,
            None => r is None,
        },
{
    let e = chars_of(ext);
    let rs = vec!['r', 's'];
    let c = vec!['c'];
    let py = vec!['p', 'y'];
    assert(rs@ =~= seq!['r', 's']);
    assert(c@ =~= seq!['c']);
    assert(py@ =~= seq!['p', 'y']);
    if same_chars(&e, &rs) {
        let g = c_like_grammar(vec!['"']);
        assert(g@.quotes =~= seq!['"']);
        Some(g)
    } else if same_chars(&e, &c) {
        let g = c_like_grammar(vec!['"', '\'']);
        assert(g@.quotes =~= seq!['"', '\'']);
        Some(g)
    } else if same_chars(&e, &py) {
        let g = Grammar {
            line: vec!['#'],
            open: Vec::new(),
            close: Vec::new(),
            quotes: vec!['"', '\''],
            escape: '\\',
        };
        assert(g@.line =~= seq!['#']);
        assert(g@.open =~= Seq::<char>::empty());
        assert(g@.close =~= Seq::<char>::empty());
        assert(g@.quotes =~= seq!['"', '\'']);
        Some(g)
    } else {
        None
    }
}

fn matches_marker(s: &Vec<char>, i: usize, m: &Vec<char>) -> (r: bool)
    requires
        i <= s.len(),
    ensures
        r == matches_at(s@, i as int, m@),
{
    if m.len() == 0 || m.len() > s.len() - i {
        return false;
    }
    let mut k: usize = 0;
    while k < m.len()
        invariant
            k <= m.len(),
            i + m.len() <= s.len(),
            forall|j: int| 0 <= j < k ==> s@[i + j] == m@[j],
        decreases m.len() - k,
    {
        if s[i + k] != m[k] {
            assert(s@.subrange(i as int, i + m.len())[k as int] != m@[k as int]);
            return false;
        }
        k = k + 1;
    }
    assert(s@.subrange(i as int, i + m.len()) =~= m@);
    true
}

fn is_quote(quotes: &Vec<char>, c: char) -> (r: bool)
    ensures
        r == occurs(quotes@, c),
{
    let mut k: usize = 0;
    let mut found = false;
    while k < quotes.len()
        invariant
            k <= quotes.len(),
            found == occurs(quotes@.take(k as int), c),
        decreases quotes.len() - k,
    {
        assert(quotes@.take(k + 1).drop_last() =~= quotes@.take(k as int));
        found = found || quotes[k] == c;
        k = k + 1;
    }
    assert(quotes@.take(k as int) =~= quotes@);
    found
}

/// Removes comments from a character sequence under the grammar `g`.
pub fn strip_chars(g: &Grammar, s: &Vec<char>) -> (r: Vec<char>)
    ensures
        r@ == strip_with(g@, s@),
{
    let mut out: Vec<char> = Vec::new();
    let mut i: usize = 0;
    let mut m = Mode::Normal;
    while i < s.len()
        invariant
            i <= s.len(),
            out@ + scan(g@, s@, i as nat, m) == strip_with(g@, s@),
        decreases s.len() - i,
    {
        let c = s[i];
        let ghost out0 = out@;
        let ghost rest = scan(g@, s@, i as nat, m);
        let ghost st = step(g@, s@, i as nat, m);
        proof {
            lemma_step_advances(g@, s@, i as nat, m);
        }
        let ghost i0 = i;
        assert(c == s@[i0 as int]);
        match m {
            Mode::Normal => {
                if matches_marker(s, i, &g.line) {
                    i = i + g.line.len();
                    m = Mode::LineComment;
                    assert(out@ =~= out0 + st.0 && i == st.1 && m == st.2);
                } else if matches_marker(s, i, &g.open) {
                    i = i + g.open.len();
                    m = Mode::BlockComment;
                    assert(out@ =~= out0 + st.0 && i == st.1 && m == st.2);
                } else if is_quote(&g.quotes, c) {
                    out.push(c);
                    i = i + 1;
                    m = Mode::InLiteral(c);
                    assert(out@ =~= out0 + st.0 && i == st.1 && m == st.2);
                } else {
                    out.push(c);
                    i = i + 1;
                    assert(out@ =~= out0 + st.0 && i == st.1 && m == st.2);
                }
            },
            Mode::LineComment => {
                if c == '\n' {
                    out.push(c);
                    m = Mode::Normal;
                }
                i = i + 1;
                assert(out@ =~= out0 + st.0 && i == st.1 && m == st.2);
            },
            Mode::BlockComment => {
                if matches_marker(s, i, &g.close) {
                    i = i + g.close.len();
                    m = Mode::Normal;
                    assert(out@ =~= out0 + st.0 && i == st.1 && m == st.2);
                } else {
                    i = i + 1;
                    assert(out@ =~= out0 + st.0 && i == st.1 && m == st.2);
                }
            },
            Mode::InLiteral(q) => {
                out.push(c);
                if c == g.escape {
                    m = Mode::Escaped(q);
                } else if c == q {
                    m = Mode::Normal;
                }
                i = i + 1;
                assert(out@ =~= out0 + st.0 && i == st.1 && m == st.2);
            },
            Mode::Escaped(q) => {
                out.push(c);
                m = Mode::InLiteral(q);
                i = i + 1;
                assert(out@ =~= out0 + st.0 && i == st.1 && m == st.2);
            },
        }
        assert(out@ + scan(g@, s@, i as nat, m) =~= out0 + rest);
    }
    assert(out@ + scan(g@, s@, i as nat, m) =~= out@);
    out
}

/// Removes the comments of the language that `extension` names from
/// `file_content`. Literal text is kept as it is, unterminated comments run
/// to the end, and an extension without a registered grammar leaves the
/// content unchanged.
pub fn remove_comments(file_content: &str, extension: &str) -> (r: String)
    ensures
        r@ == strip(file_content@, extension@),
        syntax_for(extension@) is None ==> r@ == file_content@,
{
    match grammar_for(extension) {
        Some(g) => {
            let s = chars_of(file_content);
            let out = strip_chars(&g, &s);
            string_of(&out)
        },
        None => {
            let s = chars_of(file_content);
            string_of(&s)
        },
    }
}

} // verus!
