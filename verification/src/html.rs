//! Turning an item's HTML body into readable plain text: tag and entity
//! rewriting, link flattening, and whitespace collapsing, each specified as
//! a function on the character sequence.

use vstd::prelude::*;
use crate::timefmt::chars_to_string;

verus! {

/// Every occurrence of `pat` replaced by `rep`, scanning left to right and
/// never rescanning replaced text.
pub open spec fn replace_all(s: Seq<char>, pat: Seq<char>, rep: Seq<char>) -> Seq<char>
    decreases s.len(),
    when pat.len() > 0
{
    if s.len() == 0 {
        Seq::<char>::empty()
    } else if pat.len() <= s.len() && s.take(pat.len() as int) == pat {
        rep + replace_all(s.skip(pat.len() as int), pat, rep)
    } else {
        seq![s[0]] + replace_all(s.skip(1), pat, rep)
    }
}

/// The position of the leftmost occurrence of `pat`, if any.
pub open spec fn find_pat(s: Seq<char>, pat: Seq<char>) -> Option<int>
    decreases s.len(),
{
    if pat.len() > s.len() {
        None
    } else if s.take(pat.len() as int) == pat {
        Some(0)
    } else {
        proof {
            if s.len() == 0 {
                assert(s.take(pat.len() as int) =~= pat);
            }
        }
        match find_pat(s.skip(1), pat) {
            None => None,
            Some(j) => Some(j + 1),
        }
    }
}

fn pat1(a: char) -> (r: Vec<char>)
    ensures
        r@ == seq![a],
{
    let mut v: Vec<char> = Vec::new();
    v.push(a);
    proof {
        assert(v@ =~= seq![a]);
    }
    v
}

fn pat2(a: char, b: char) -> (r: Vec<char>)
    ensures
        r@ == seq![a, b],
{
    let mut v = pat1(a);
    v.push(b);
    proof {
        assert(v@ =~= seq![a, b]);
    }
    v
}

fn pat3(a: char, b: char, c: char) -> (r: Vec<char>)
    ensures
        r@ == seq![a, b, c],
{
    let mut v = pat2(a, b);
    v.push(c);
    proof {
        assert(v@ =~= seq![a, b, c]);
    }
    v
}

fn pat4(a: char, b: char, c: char, d: char) -> (r: Vec<char>)
    ensures
        r@ == seq![a, b, c, d],
{
    let mut v = pat3(a, b, c);
    v.push(d);
    proof {
        assert(v@ =~= seq![a, b, c, d]);
    }
    v
}

fn pat5(a: char, b: char, c: char, d: char, e: char) -> (r: Vec<char>)
    ensures
        r@ == seq![a, b, c, d, e],
{
    let mut v = pat4(a, b, c, d);
    v.push(e);
    proof {
        assert(v@ =~= seq![a, b, c, d, e]);
    }
    v
}

fn pat6(a: char, b: char, c: char, d: char, e: char, f: char) -> (r: Vec<char>)
    ensures
        r@ == seq![a, b, c, d, e, f],
{
    let mut v = pat5(a, b, c, d, e);
    v.push(f);
    proof {
        assert(v@ =~= seq![a, b, c, d, e, f]);
    }
    v
}

fn pat7(a: char, b: char, c: char, d: char, e: char, f: char, g: char) -> (r: Vec<char>)
    ensures
        r@ == seq![a, b, c, d, e, f, g],
{
    let mut v = pat6(a, b, c, d, e, f);
    v.push(g);
    proof {
        assert(v@ =~= seq![a, b, c, d, e, f, g]);
    }
    v
}

/// Whether `pat` occurs in `s` starting at `at`.
fn matches_at(s: &Vec<char>, pat: &Vec<char>, at: usize) -> (r: bool)
    requires
        at <= s@.len(),
    ensures
        r == (at + pat@.len() <= s@.len() && s@.subrange(at as int, at + pat@.len()) == pat@),
{
    let m = pat.len();
    let n = s.len();
    if m > n - at {
        proof {
            assert(at + pat@.len() > s@.len());
        }
        return false;
    }
    let mut k: usize = 0;
    while k < m
        invariant
            0 <= k <= m,
            m == pat@.len(),
            n == s@.len(),
            at + m <= n,
            forall|j: int| 0 <= j < k ==> s@[at + j] == pat@[j],
        decreases m - k,
    {
        if s[at + k] != pat[k] {
            proof {
                assert(s@.subrange(at as int, at + pat@.len())[k as int] == s@[at + k]);
                assert(s@.subrange(at as int, at + pat@.len()) != pat@);
            }
            return false;
        }
        k += 1;
    }
    proof {
        assert(s@.subrange(at as int, at + pat@.len()) =~= pat@);
    }
    true
}

/// The leftmost occurrence of `pat` in `s`.
fn find_pat_exec(s: &Vec<char>, pat: &Vec<char>) -> (r: Option<usize>)
    requires
        pat@.len() > 0,
    ensures
        match r {
            Some(i) => find_pat(s@, pat@) == Some(i as int),
            None => find_pat(s@, pat@) is None,
        },
{
    let n = s.len();
    let mut i: usize = 0;
    proof {
        assert(s@.skip(0) =~= s@);
    }
    while i < n
        invariant
            0 <= i <= n,
            n == s@.len(),
            pat@.len() > 0,
            find_pat(s@, pat@) == match find_pat(s@.skip(i as int), pat@) {
                None => None::<int>,
                Some(j) => Some(j + i),
            },
        decreases n - i,
    {
        let hit = matches_at(s, pat, i);
        proof {
            if i + pat@.len() <= s@.len() {
                assert(s@.skip(i as int).take(pat@.len() as int) =~= s@.subrange(
                    i as int,
                    i + pat@.len(),
                )) by {
                    assert forall|j: int|
                        0 <= j < pat@.len() implies s@.skip(i as int).take(pat@.len() as int)[j]
                        == s@[i + j] by {}
                }
            }
        }
        if hit {
            proof {
                assert(find_pat(s@.skip(i as int), pat@) == Some(0int));
            }
            return Some(i);
        }
        proof {
            assert(s@.skip(i as int).skip(1) =~= s@.skip(i + 1 as int));
            if i + pat@.len() <= s@.len() {
                assert(s@.skip(i as int).take(pat@.len() as int) != pat@);
            } else {
                assert(pat@.len() > s@.skip(i as int).len());
            }
        }
        i += 1;
    }
    proof {
        assert(s@.skip(n as int) =~= Seq::<char>::empty());
    }
    None
}

/// The characters of `s` from `a` up to (excluding) `b`.
fn copy_range(s: &Vec<char>, a: usize, b: usize) -> (r: Vec<char>)
    requires
        a <= b <= s@.len(),
    ensures
        r@ == s@.subrange(a as int, b as int),
{
    let mut r: Vec<char> = Vec::new();
    let mut i: usize = a;
    while i < b
        invariant
            a <= i <= b <= s@.len(),
            r@ == s@.subrange(a as int, i as int),
        decreases b - i,
    {
        r.push(s[i]);
        proof {
            assert(r@ =~= s@.subrange(a as int, i + 1 as int));
        }
        i += 1;
    }
    r
}

fn extend_chars(out: &mut Vec<char>, add: &Vec<char>)
    ensures
        final(out)@ == old(out)@ + add@,
{
    let ghost o0 = out@;
    let n = add.len();
    let mut i: usize = 0;
    while i < n
        invariant
            0 <= i <= n,
            n == add@.len(),
            out@ == o0 + add@.take(i as int),
        decreases n - i,
    {
        out.push(add[i]);
        proof {
            assert(out@ =~= o0 + add@.take(i + 1 as int));
        }
        i += 1;
    }
    proof {
        assert(add@.take(n as int) =~= add@);
    }
}

/// Rewrites every occurrence of `pat` to `rep`.
fn replace_all_exec(s: &Vec<char>, pat: &Vec<char>, rep: &Vec<char>) -> (r: Vec<char>)
    requires
        pat@.len() > 0,
    ensures
        r@ == replace_all(s@, pat@, rep@),
{
    let n = s.len();
    let mut out: Vec<char> = Vec::new();
    let mut i: usize = 0;
    proof {
        assert(s@.skip(0) =~= s@);
        assert(out@ + replace_all(s@, pat@, rep@) =~= replace_all(s@, pat@, rep@));
    }
    while i < n
        invariant
            0 <= i <= n,
            n == s@.len(),
            pat@.len() > 0,
            replace_all(s@, pat@, rep@) == out@ + replace_all(s@.skip(i as int), pat@, rep@),
        decreases n - i,
    {
        let ghost suffix = s@.skip(i as int);
        proof {
            if i + pat@.len() <= s@.len() {
                assert(suffix.take(pat@.len() as int) =~= s@.subrange(i as int, i + pat@.len()))
                    by {
                    assert forall|j: int|
                        0 <= j < pat@.len() implies suffix.take(pat@.len() as int)[j] == s@[i + j]
                        by {}
                }
            }
        }
        let hit = matches_at(s, pat, i);
        let ghost out0 = out@;
        if hit {
            proof {
                assert(suffix.take(pat@.len() as int) =~= pat@);
            }
            extend_chars(&mut out, rep);
            proof {
                assert(suffix.skip(pat@.len() as int) =~= s@.skip(i + pat@.len()));
                assert(out0 + (rep@ + replace_all(s@.skip(i + pat@.len()), pat@, rep@)) =~= out@
                    + replace_all(s@.skip(i + pat@.len()), pat@, rep@));
            }
            i += pat.len();
        } else {
            proof {
                if pat@.len() <= suffix.len() {
                    assert(suffix.take(pat@.len() as int) != pat@);
                }
                assert(suffix[0] == s@[i as int]);
                assert(suffix.skip(1) =~= s@.skip(i + 1));
            }
            out.push(s[i]);
            proof {
                assert(out0 + (seq![s@[i as int]] + replace_all(s@.skip(i + 1), pat@, rep@)) =~= out@
                    + replace_all(s@.skip(i + 1), pat@, rep@));
            }
            i += 1;
        }
    }
    proof {
        assert(s@.skip(n as int) =~= Seq::<char>::empty());
        assert(out@ + Seq::<char>::empty() =~= out@);
    }
    out
}

/// A found occurrence lies inside the sequence and really is the pattern.
pub proof fn lemma_find_pat_bounds(s: Seq<char>, pat: Seq<char>)
    ensures
        match find_pat(s, pat) {
            Some(i) => 0 <= i && i + pat.len() <= s.len() && s.subrange(i, i + pat.len()) == pat,
            None => true,
        },
    decreases s.len(),
{
    if pat.len() > s.len() {
    } else if s.take(pat.len() as int) == pat {
        assert(s.subrange(0, pat.len() as int) == s.take(pat.len() as int));
    } else {
        if s.len() > 0 {
            lemma_find_pat_bounds(s.skip(1), pat);
            match find_pat(s.skip(1), pat) {
                Some(j) => {
                    assert(s.subrange(j + 1, j + 1 + pat.len()) =~= s.skip(1).subrange(
                        j,
                        j + pat.len(),
                    ));
                },
                None => {},
            }
        } else {
            assert(s.take(pat.len() as int) =~= pat);
        }
    }
}

/// One part of a split on a link opening, fixed: if the part holds the rest
/// of the opening tag (up to its first closing bracket) and later the
/// link's end tag, the tag framing is dropped and the linked text kept; a
/// part in any other shape is left alone.
pub open spec fn fix_part(p: Seq<char>) -> Seq<char> {
    match find_pat(p, seq!['>']) {
        None => p,
        Some(g) => match find_pat(p, seq!['<', '/', 'a', '>']) {
            None => p,
            Some(e) => if g + 1 <= e {
                p.subrange(g + 1, e) + p.skip(e + 4)
            } else {
                p
            },
        },
    }
}

/// The text following a link opening, processed part by part: each further
/// link opening starts a new part, the opening markers themselves vanish.
pub open spec fn strip_links_tail(s: Seq<char>) -> Seq<char>
    decreases s.len(),
{
    match find_pat(s, seq!['<', 'a', ' ']) {
        None => fix_part(s),
        Some(i) => {
            proof {
                lemma_find_pat_bounds(s, seq!['<', 'a', ' ']);
            }
            fix_part(s.take(i)) + strip_links_tail(s.skip(i + 3))
        },
    }
}

/// Links flattened to their text: the part before the first link opening is
/// kept as is, every following part is fixed by `fix_part`.
pub open spec fn strip_links(s: Seq<char>) -> Seq<char> {
    match find_pat(s, seq!['<', 'a', ' ']) {
        None => s,
        Some(i) => s.take(i) + strip_links_tail(s.skip(i + 3)),
    }
}

fn copy_all(p: &Vec<char>) -> (r: Vec<char>)
    ensures
        r@ == p@,
{
    let n = p.len();
    let r = copy_range(p, 0, n);
    proof {
        assert(p@.subrange(0, n as int) =~= p@);
    }
    r
}

fn fix_part_exec(p: &Vec<char>) -> (r: Vec<char>)
    ensures
        r@ == fix_part(p@),
{
    let gt = pat1('>');
    let close = pat4('<', '/', 'a', '>');
    let n = p.len();
    proof {
        lemma_find_pat_bounds(p@, gt@);
        lemma_find_pat_bounds(p@, close@);
    }
    match find_pat_exec(p, &gt) {
        None => copy_all(p),
        Some(g) => match find_pat_exec(p, &close) {
            None => copy_all(p),
            Some(e) => if g + 1 <= e {
                let mut out = copy_range(p, g + 1, e);
                let rest = copy_range(p, e + 4, n);
                extend_chars(&mut out, &rest);
                proof {
                    assert(p@.subrange(e + 4, n as int) =~= p@.skip(e + 4));
                }
                out
            } else {
                copy_all(p)
            },
        },
    }
}

fn strip_links_tail_exec(p: &Vec<char>) -> (r: Vec<char>)
    ensures
        r@ == strip_links_tail(p@),
    decreases p@.len(),
{
    let opener = pat3('<', 'a', ' ');
    proof {
        lemma_find_pat_bounds(p@, opener@);
    }
    match find_pat_exec(p, &opener) {
        None => fix_part_exec(p),
        Some(i) => {
            let n = p.len();
            let head = copy_range(p, 0, i);
            proof {
                assert(p@.subrange(0, i as int) == p@.take(i as int));
            }
            let mut out = fix_part_exec(&head);
            let rest = copy_range(p, i + 3, n);
            proof {
                assert(p@.subrange(i + 3, n as int) =~= p@.skip(i + 3));
            }
            let tail = strip_links_tail_exec(&rest);
            extend_chars(&mut out, &tail);
            out
        },
    }
}

/// Flattens every link to its text.
fn strip_links_exec(p: &Vec<char>) -> (r: Vec<char>)
    ensures
        r@ == strip_links(p@),
{
    let opener = pat3('<', 'a', ' ');
    proof {
        lemma_find_pat_bounds(p@, opener@);
    }
    match find_pat_exec(p, &opener) {
        None => copy_all(p),
        Some(i) => {
            let n = p.len();
            let mut out = copy_range(p, 0, i);
            proof {
                assert(p@.subrange(0, i as int) == p@.take(i as int));
            }
            let rest = copy_range(p, i + 3, n);
            proof {
                assert(p@.subrange(i + 3, n as int) =~= p@.skip(i + 3));
            }
            let tail = strip_links_tail_exec(&rest);
            extend_chars(&mut out, &tail);
            out
        },
    }
}

/// The whitespace the collapsing pass recognizes: the characters of the
/// Unicode white-space category.
pub open spec fn is_ws(c: char) -> bool {
    c == ' ' || c == '\t' || c == '\n' || c == '\u{b}' || c == '\u{c}' || c == '\r' || c
        == '\u{85}' || c == '\u{a0}' || c == '\u{1680}' || c == '\u{2000}' || c == '\u{2001}' || c
        == '\u{2002}' || c == '\u{2003}' || c == '\u{2004}' || c == '\u{2005}' || c == '\u{2006}'
        || c == '\u{2007}' || c == '\u{2008}' || c == '\u{2009}' || c == '\u{200a}' || c
        == '\u{2028}' || c == '\u{2029}' || c == '\u{202f}' || c == '\u{205f}' || c == '\u{3000}'
}

/// Runs of whitespace collapsed to single spaces, leading and trailing
/// whitespace dropped.
pub open spec fn collapse(s: Seq<char>) -> Seq<char>
    decreases s.len(), 0nat,
{
    if s.len() == 0 {
        Seq::<char>::empty()
    } else if is_ws(s[0]) {
        collapse(s.drop_first())
    } else {
        seq![s[0]] + collapse_in(s.drop_first())
    }
}

/// Collapsing as seen from inside a word: a further word character passes
/// through; whitespace becomes one separating space, but only if another
/// word follows.
pub open spec fn collapse_in(s: Seq<char>) -> Seq<char>
    decreases s.len(), 1nat,
{
    if s.len() == 0 {
        Seq::<char>::empty()
    } else if !is_ws(s[0]) {
        seq![s[0]] + collapse_in(s.drop_first())
    } else if collapse(s).len() == 0 {
        Seq::<char>::empty()
    } else {
        seq![' '] + collapse(s)
    }
}

/// What whitespace still owes after a word: a separating space, if any word
/// follows.
pub open spec fn sep_part(s: Seq<char>) -> Seq<char> {
    if collapse(s).len() == 0 {
        Seq::<char>::empty()
    } else {
        seq![' '] + collapse(s)
    }
}

fn is_ws_exec(c: char) -> (r: bool)
    ensures
        r == is_ws(c),
{
    c == ' ' || c == '\t' || c == '\n' || c == '\u{b}' || c == '\u{c}' || c == '\r' || c
        == '\u{85}' || c == '\u{a0}' || c == '\u{1680}' || c == '\u{2000}' || c == '\u{2001}' || c
        == '\u{2002}' || c == '\u{2003}' || c == '\u{2004}' || c == '\u{2005}' || c == '\u{2006}'
        || c == '\u{2007}' || c == '\u{2008}' || c == '\u{2009}' || c == '\u{200a}' || c
        == '\u{2028}' || c == '\u{2029}' || c == '\u{202f}' || c == '\u{205f}' || c == '\u{3000}'
}

/// Collapses whitespace runs to single spaces and trims the ends.
#[verifier::loop_isolation(false)]
fn collapse_ws_exec(s: &Vec<char>) -> (r: Vec<char>)
    ensures
        r@ == collapse(s@),
{
    let ghost full = collapse(s@);
    let n = s.len();
    let mut out: Vec<char> = Vec::new();
    let mut in_word = false;
    let mut started = false;
    let mut i: usize = 0;
    proof {
        assert(s@.skip(0) =~= s@);
    }
    while i < n
        invariant
            0 <= i <= n,
            in_word ==> started,
            in_word ==> full == out@ + collapse_in(s@.skip(i as int)),
            !in_word && !started ==> out@ == Seq::<char>::empty() && full == collapse(
                s@.skip(i as int),
            ),
            !in_word && started ==> full == out@ + sep_part(s@.skip(i as int)),
        decreases n - i,
    {
        let c = s[i];
        let ghost suffix = s@.skip(i as int);
        proof {
            assert(suffix[0] == c);
            assert(suffix.drop_first() =~= s@.skip(i + 1));
        }
        let ghost out0 = out@;
        if is_ws_exec(c) {
            proof {
                assert(collapse(suffix) == collapse(s@.skip(i + 1)));
                if in_word {
                    assert(collapse_in(suffix) == sep_part(suffix));
                }
                assert(sep_part(suffix) == sep_part(s@.skip(i + 1)));
            }
            in_word = false;
        } else {
            if in_word {
                out.push(c);
                proof {
                    assert(collapse_in(suffix) == seq![c] + collapse_in(s@.skip(i + 1)));
                    assert(out0 + (seq![c] + collapse_in(s@.skip(i + 1))) =~= out@ + collapse_in(
                        s@.skip(i + 1),
                    ));
                }
            } else if !started {
                out.push(c);
                in_word = true;
                started = true;
                proof {
                    assert(collapse(suffix) == seq![c] + collapse_in(s@.skip(i + 1)));
                    assert(out0 + (seq![c] + collapse_in(s@.skip(i + 1))) =~= out@ + collapse_in(
                        s@.skip(i + 1),
                    ));
                }
            } else {
                out.push(' ');
                out.push(c);
                in_word = true;
                proof {
                    assert(collapse(suffix) == seq![c] + collapse_in(s@.skip(i + 1)));
                    assert(collapse(suffix).len() > 0);
                    assert(sep_part(suffix) == seq![' '] + collapse(suffix));
                    assert(out0 + (seq![' '] + (seq![c] + collapse_in(s@.skip(i + 1)))) =~= out@
                        + collapse_in(s@.skip(i + 1)));
                }
            }
        }
        i += 1;
    }
    proof {
        assert(s@.skip(n as int) =~= Seq::<char>::empty());
        if in_word {
            assert(full =~= out@);
        } else if !started {
            assert(full =~= out@);
        } else {
            assert(collapse(Seq::<char>::empty()).len() == 0);
            assert(full =~= out@);
        }
    }
    out
}

/// The tag and entity rewriting the body text goes through before links are
/// flattened: paragraph and line-break tags become newlines, emphasis and
/// code markers become their plain-text cousins, and the common character
/// entities are decoded, in this order.
pub open spec fn tags_rewritten(s: Seq<char>) -> Seq<char> {
    let s1 = replace_all(s, seq!['<', 'p', '>'], seq!['\n', '\n']);
    let s2 = replace_all(s1, seq!['<', '/', 'p', '>'], Seq::<char>::empty());
    let s3 = replace_all(s2, seq!['<', 'b', 'r', '>'], seq!['\n']);
    let s4 = replace_all(s3, seq!['<', 'b', 'r', '/', '>'], seq!['\n']);
    let s5 = replace_all(s4, seq!['<', 'b', 'r', ' ', '/', '>'], seq!['\n']);
    let s6 = replace_all(s5, seq!['<', 'i', '>'], seq!['_']);
    let s7 = replace_all(s6, seq!['<', '/', 'i', '>'], seq!['_']);
    let s8 = replace_all(s7, seq!['<', 'b', '>'], seq!['*']);
    let s9 = replace_all(s8, seq!['<', '/', 'b', '>'], seq!['*']);
    let s10 = replace_all(s9, seq!['<', 'c', 'o', 'd', 'e', '>'], seq!['`']);
    let s11 = replace_all(s10, seq!['<', '/', 'c', 'o', 'd', 'e', '>'], seq!['`']);
    let s12 = replace_all(s11, seq!['<', 'p', 'r', 'e', '>'], seq!['\n', '`', '`', '`', '\n']);
    let s13 = replace_all(
        s12,
        seq!['<', '/', 'p', 'r', 'e', '>'],
        seq!['\n', '`', '`', '`', '\n'],
    );
    let s14 = replace_all(s13, seq!['&', 'g', 't', ';'], seq!['>']);
    let s15 = replace_all(s14, seq!['&', 'l', 't', ';'], seq!['<']);
    let s16 = replace_all(s15, seq!['&', 'a', 'm', 'p', ';'], seq!['&']);
    let s17 = replace_all(s16, seq!['&', 'q', 'u', 'o', 't', ';'], seq!['"']);
    let s18 = replace_all(s17, seq!['&', '#', 'x', '2', '7', ';'], seq!['\'']);
    let s19 = replace_all(s18, seq!['&', '#', '3', '9', ';'], seq!['\'']);
    replace_all(s19, seq!['&', '#', 'x', '2', 'F', ';'], seq!['/'])
}

/// What `strip_html` produces: tags and entities rewritten, links
/// flattened, whitespace collapsed.
pub open spec fn strip_html_spec(s: Seq<char>) -> Seq<char> {
    collapse(strip_links(tags_rewritten(s)))
}

/// Relies on str::chars and Vec's FromIterator: the characters of the
/// string, in order.
#[verifier::external_body]
fn str_chars(s: &str) -> (r: Vec<char>)
    ensures
        r@ == s@,
{
    s.chars().collect()
}

/// Converts raw HTML markup to readable plain text: common tags become
/// plain-text markers, entities are decoded, links keep only their text,
/// and all whitespace runs collapse to single spaces.
pub fn strip_html(html: &str) -> (r: String)
    ensures
        r@ == strip_html_spec(html@),
{
    let cs = str_chars(html);
    let empty: Vec<char> = Vec::new();
    proof {
        assert(empty@ =~= Seq::<char>::empty());
    }
    let cur = replace_all_exec(&cs, &pat3('<', 'p', '>'), &pat2('\n', '\n'));
    let cur = replace_all_exec(&cur, &pat4('<', '/', 'p', '>'), &empty);
    let cur = replace_all_exec(&cur, &pat4('<', 'b', 'r', '>'), &pat1('\n'));
    let cur = replace_all_exec(&cur, &pat5('<', 'b', 'r', '/', '>'), &pat1('\n'));
    let cur = replace_all_exec(&cur, &pat6('<', 'b', 'r', ' ', '/', '>'), &pat1('\n'));
    let cur = replace_all_exec(&cur, &pat3('<', 'i', '>'), &pat1('_'));
    let cur = replace_all_exec(&cur, &pat4('<', '/', 'i', '>'), &pat1('_'));
    let cur = replace_all_exec(&cur, &pat3('<', 'b', '>'), &pat1('*'));
    let cur = replace_all_exec(&cur, &pat4('<', '/', 'b', '>'), &pat1('*'));
    let cur = replace_all_exec(&cur, &pat6('<', 'c', 'o', 'd', 'e', '>'), &pat1('`'));
    let cur = replace_all_exec(&cur, &pat7('<', '/', 'c', 'o', 'd', 'e', '>'), &pat1('`'));
    let cur = replace_all_exec(
        &cur,
        &pat5('<', 'p', 'r', 'e', '>'),
        &pat5('\n', '`', '`', '`', '\n'),
    );
    let cur = replace_all_exec(
        &cur,
        &pat6('<', '/', 'p', 'r', 'e', '>'),
        &pat5('\n', '`', '`', '`', '\n'),
    );
    let cur = replace_all_exec(&cur, &pat4('&', 'g', 't', ';'), &pat1('>'));
    let cur = replace_all_exec(&cur, &pat4('&', 'l', 't', ';'), &pat1('<'));
    let cur = replace_all_exec(&cur, &pat5('&', 'a', 'm', 'p', ';'), &pat1('&'));
    let cur = replace_all_exec(&cur, &pat6('&', 'q', 'u', 'o', 't', ';'), &pat1('"'));
    let cur = replace_all_exec(&cur, &pat6('&', '#', 'x', '2', '7', ';'), &pat1('\''));
    let cur = replace_all_exec(&cur, &pat5('&', '#', '3', '9', ';'), &pat1('\''));
    let cur = replace_all_exec(&cur, &pat6('&', '#', 'x', '2', 'F', ';'), &pat1('/'));
    proof {
        assert(cur@ == tags_rewritten(cs@));
    }
    let cur = strip_links_exec(&cur);
    let cur = collapse_ws_exec(&cur);
    chars_to_string(cur)
}

} // verus!
