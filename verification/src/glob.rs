//! The glob dialect that include and exclude filters are written in,
//! matched against a `/`-separated path relative to the embedded folder.

use vstd::prelude::*;
use vstd::string::StrSliceExecFns;

verus! {

/// One element of a parsed pattern.
#[derive(Debug, Clone, Copy, PartialEq, Eq, Structural)]
pub enum Token {
    /// A character that must appear as it is.
    Literal(char),
    /// `?`: one character other than `/`.
    One,
    /// `*`: any run of characters other than `/`.
    Star,
    /// `**` somewhere other than as a whole segment: any run at all.
    Cross,
    /// `**/`: any number of whole segments, zero among them.
    Segments,
}

/// The token that starts at position `i` of `p`, and how many characters
/// it takes: `**/` is one `Segments`, any other `**` a `Cross`, a lone `*`
/// a `Star`, `?` a `One`, and every other character a literal.
pub open spec fn token_step(p: Seq<char>, i: int) -> (Token, int) {
    if p[i] == '*' && i + 1 < p.len() && p[i + 1] == '*' {
        if i + 2 < p.len() && p[i + 2] == '/' {
            (Token::Segments, 3)
        } else {
            (Token::Cross, 2)
        }
    } else if p[i] == '*' {
        (Token::Star, 1)
    } else if p[i] == '?' {
        (Token::One, 1)
    } else {
        (Token::Literal(p[i]), 1)
    }
}

/// The tokens of `p` from position `i` on.
pub open spec fn tokens_from(p: Seq<char>, i: int) -> Seq<Token>
    decreases p.len() - i,
{
    if i < 0 || i >= p.len() {
        Seq::empty()
    } else {
        seq![token_step(p, i).0] + tokens_from(p, i + token_step(p, i).1)
    }
}

/// Whether the tokens from `i` on match the name from `j` on.
pub open spec fn glob_from(toks: Seq<Token>, name: Seq<char>, i: int, j: int) -> bool
    decreases toks.len() - i, name.len() - j, 1int,
{
    if i < 0 || j < 0 || i > toks.len() || j > name.len() {
        false
    } else if i == toks.len() {
        j == name.len()
    } else {
        let more = j < name.len();
        match toks[i] {
            Token::Literal(w) => more && name[j] == w && glob_from(toks, name, i + 1, j + 1),
            Token::One => more && name[j] != '/' && glob_from(toks, name, i + 1, j + 1),
            Token::Star => glob_from(toks, name, i + 1, j) || (more && name[j] != '/' && glob_from(
                toks,
                name,
                i,
                j + 1,
            )),
            Token::Cross => glob_from(toks, name, i + 1, j) || (more && glob_from(
                toks,
                name,
                i,
                j + 1,
            )),
            Token::Segments => glob_from(toks, name, i + 1, j) || (more && slash_then(
                toks,
                name,
                i,
                j + 1,
            )),
        }
    }
}

/// Whether some `/` at a position `k` or later lets the tokens after the
/// `i`-th match the name after that `/`.
pub open spec fn slash_then(toks: Seq<Token>, name: Seq<char>, i: int, k: int) -> bool
    decreases toks.len() - i, name.len() - k, 0int,
{
    if i < 0 || k < 0 || i >= toks.len() || k >= name.len() {
        false
    } else {
        (name[k] == '/' && glob_from(toks, name, i + 1, k + 1)) || slash_then(toks, name, i, k + 1)
    }
}

/// Whether `pattern` matches the whole of `name`.
pub open spec fn glob_matches(pattern: Seq<char>, name: Seq<char>) -> bool {
    glob_from(tokens_from(pattern, 0), name, 0, 0)
}

/// The characters of a string, in order.
pub fn chars_of(s: &str) -> (r: Vec<char>)
    ensures
        r@ == s@,
{
    let n = s.unicode_len();
    let mut out: Vec<char> = Vec::new();
    let mut i: usize = 0;
    while i < n
        invariant
            i <= n,
            n == s@.len(),
            out@ == s@.subrange(0, i as int),
        decreases n - i,
    {
        out.push(s.get_char(i));
        i = i + 1;
    }
    out
}

/// The token that starts at position `i` of `p`, and its length.
pub fn next_token(p: &Vec<char>, i: usize) -> (r: (Token, usize))
    requires
        i < p@.len(),
    ensures
        r.0 == token_step(p@, i as int).0,
        r.1 as int == token_step(p@, i as int).1,
{
    let n = p.len();
    let c = p[i];
    if c == '*' && i + 1 < n && p[i + 1] == '*' {
        if i + 2 < n && p[i + 2] == '/' {
            (Token::Segments, 3)
        } else {
            (Token::Cross, 2)
        }
    } else if c == '*' {
        (Token::Star, 1)
    } else if c == '?' {
        (Token::One, 1)
    } else {
        (Token::Literal(c), 1)
    }
}

/// Parses a pattern into tokens.
pub fn tokenize(pattern: &str) -> (r: Vec<Token>)
    ensures
        r@ == tokens_from(pattern@, 0),
{
    let p = chars_of(pattern);
    let n = p.len();
    let mut tokens: Vec<Token> = Vec::new();
    let mut i: usize = 0;
    while i < n
        invariant
            i <= n,
            n == p@.len(),
            p@ == pattern@,
            tokens@ + tokens_from(p@, i as int) == tokens_from(p@, 0),
        decreases n - i,
    {
        let ghost before = i as int;
        let (tok, step) = next_token(&p, i);
        i = i + step;
        proof {
            let rest = tokens_from(p@, i as int);
            assert(tokens_from(p@, before) == seq![tok] + rest);
            assert(tokens@.push(tok) + rest =~= tokens@ + (seq![tok] + rest));
        }
        tokens.push(tok);
    }
    proof {
        assert(tokens_from(p@, n as int) == Seq::<Token>::empty());
        assert(tokens@ + Seq::<Token>::empty() =~= tokens@);
    }
    tokens
}

/// Whether `pattern` matches `name`, a `/`-separated relative path.
///
/// `?` matches one character other than `/`; `*` any run of characters
/// other than `/`, so it stays inside one segment; `**` as a whole segment
/// stands for any number of segments (`**/*.png` finds a `.png` at any
/// depth, `a/**` everything under `a`), and elsewhere it is a `*` that may
/// cross `/`. The match is a table over token and name positions filled
/// from the end, so it costs their product however the wildcards fall.
pub fn matches(pattern: &str, name: &str) -> (r: bool)
    requires
        name@.len() < usize::MAX,
    ensures
        r == glob_matches(pattern@, name@),
{
    let tokens = tokenize(pattern);
    let chars = chars_of(name);
    let n = chars.len();
    let ghost toks = tokens@;
    let ghost nm = chars@;
    let mut next: Vec<bool> = Vec::new();
    let mut here: Vec<bool> = Vec::new();
    let mut j: usize = 0;
    while j <= n
        invariant
            j <= n + 1,
            n == nm.len(),
            n < usize::MAX,
            next@.len() == j,
            here@.len() == j,
            toks.len() == tokens@.len(),
            forall|k: int| 0 <= k < j ==> next@[k] == glob_from(toks, nm, toks.len() as int, k),
        decreases n + 1 - j,
    {
        next.push(j == n);
        here.push(false);
        j = j + 1;
    }
    let mut t: usize = tokens.len();
    while t > 0
        invariant
            t <= tokens@.len(),
            toks == tokens@,
            nm == chars@,
            n == nm.len(),
            n < usize::MAX,
            next@.len() == n + 1,
            here@.len() == n + 1,
            forall|k: int| 0 <= k <= n ==> next@[k] == glob_from(toks, nm, t as int, k),
        decreases t,
    {
        t = t - 1;
        let token = tokens[t];
        let mut later = false;
        let mut j: usize = n + 1;
        while j > 0
            invariant
                0 <= j <= n + 1,
                t < toks.len(),
                toks == tokens@,
                token == toks[t as int],
                nm == chars@,
                n == nm.len(),
                next@.len() == n + 1,
                here@.len() == n + 1,
                forall|k: int| 0 <= k <= n ==> next@[k] == glob_from(toks, nm, t + 1, k),
                forall|k: int| j <= k <= n ==> here@[k] == glob_from(toks, nm, t as int, k),
                token == Token::Segments ==> later == slash_then(toks, nm, t as int, j as int),
            decreases j,
        {
            j = j - 1;
            let more = j < n;
            let v = match token {
                Token::Literal(w) => more && chars[j] == w && next[j + 1],
                Token::One => more && chars[j] != '/' && next[j + 1],
                Token::Star => next[j] || (more && chars[j] != '/' && here[j + 1]),
                Token::Cross => next[j] || (more && here[j + 1]),
                Token::Segments => next[j] || later,
            };
            proof {
                reveal_with_fuel(glob_from, 2);
                if token == Token::Segments {
                    if !more {
                        assert(!slash_then(toks, nm, t as int, j + 1));
                    }
                }
            }
            here.set(j, v);
            if more && chars[j] == '/' {
                later = later || here[j + 1];
            }
            proof {
                if token == Token::Segments {
                    reveal_with_fuel(slash_then, 2);
                    if more {
                        assert(here@[j + 1] == glob_from(toks, nm, t as int, j + 1));
                        if j + 1 < n {
                            assert(slash_then(toks, nm, t as int, j + 1) == ((nm[j + 1] == '/'
                                && glob_from(toks, nm, t + 1, j + 2)) || slash_then(
                                toks,
                                nm,
                                t as int,
                                j + 2,
                            )));
                        }
                    }
                }
            }
        }
        core::mem::swap(&mut here, &mut next);
    }
    next[0]
}

} // verus!
