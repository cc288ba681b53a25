//! Escaping of the reserved characters `{`, `}` and `\` of bracket notation.
use vstd::prelude::*;

verus! {

/// What one character becomes in bracket notation.
pub open spec fn escape_char(c: char) -> Seq<char> {
    if c == '{' {
        seq!['\\', '{']
    } else if c == '}' {
        seq!['\\', '}']
    } else if c == '\\' {
        seq!['\\', '\\', '}']
    } else {
        seq![c]
    }
}

/// Character-wise escaping of a whole sequence.
pub open spec fn escape(s: Seq<char>) -> Seq<char>
    decreases s.len(),
{
    if s.len() == 0 {
        Seq::empty()
    } else {
        escape_char(s[0]) + escape(s.drop_first())
    }
}

/// Escaping distributes over the end of a sequence.
pub proof fn lemma_escape_push(s: Seq<char>, c: char)
    ensures
        escape(s.push(c)) == escape(s) + escape_char(c),
    decreases s.len(),
{
    if s.len() == 0 {
        assert(s.push(c).drop_first() == Seq::<char>::empty());
        assert(escape(s.push(c).drop_first()) == Seq::<char>::empty());
        assert(s.push(c)[0] == c);
        assert(escape(s.push(c)) =~= escape(s) + escape_char(c));
    } else {
        lemma_escape_push(s.drop_first(), c);
        assert(s.push(c).drop_first() == s.drop_first().push(c));
        assert(s.push(c)[0] == s[0]);
        assert(escape(s.push(c)) =~= escape(s) + escape_char(c));
    }
}

/// Relies on `String::push`: the character is appended at the end.
#[verifier::external_body]
fn push_char(s: &mut String, c: char)
    ensures
        final(s)@ == old(s)@.push(c),
{
    s.push(c);
}

/// Escapes the reserved characters of bracket notation: `{` becomes `\{`,
/// `}` becomes `\}` and `\` becomes `\\}`; every other character is kept.
pub fn safe_trans(s: String) -> (r: String)
    ensures
        r@ == escape(s@),
{
    let mut r = String::new();
    for c in it: s.chars()
        invariant
            it.seq() == s@,
            r@ == escape(s@.take(it.index() as int)),
    {
        proof {
            lemma_escape_push(s@.take(it.index() as int), c);
            assert(s@.take(it.index() as int).push(c) == s@.take(it.index() + 1));
        }
        if c == '{' {
            push_char(&mut r, '\\');
            push_char(&mut r, '{');
        } else if c == '}' {
            push_char(&mut r, '\\');
            push_char(&mut r, '}');
        } else if c == '\\' {
            push_char(&mut r, '\\');
            push_char(&mut r, '\\');
            push_char(&mut r, '}');
        } else {
            push_char(&mut r, c);
        }
    }
    proof {
        assert(s@.take(s@.len() as int) == s@);
    }
    r
}

/// Replaces, from left to right, every non-overlapping occurrence of `pat`
/// in `s` by `rep`.
pub open spec fn replace_all(s: Seq<char>, pat: Seq<char>, rep: Seq<char>) -> Seq<char>
    decreases s.len(),
{
    if s.len() == 0 {
        s
    } else if 0 < pat.len() <= s.len() && s.subrange(0, pat.len() as int) == pat {
        rep + replace_all(s.subrange(pat.len() as int, s.len() as int), pat, rep)
    } else {
        seq![s[0]] + replace_all(s.drop_first(), pat, rep)
    }
}

/// Reverses the three substitutions of `escape`, in the opposite order of
/// their application.
pub open spec fn unescape(e: Seq<char>) -> Seq<char> {
    let a = replace_all(e, seq!['\\', '\\', '}'], seq!['\\']);
    let b = replace_all(a, seq!['\\', '}'], seq!['}']);
    replace_all(b, seq!['\\', '{'], seq!['{'])
}

/// `s` with only its braces escaped.
pub open spec fn escape_braces(s: Seq<char>) -> Seq<char>
    decreases s.len(),
{
    if s.len() == 0 {
        Seq::empty()
    } else {
        let c = s[0];
        let head = if c == '{' || c == '}' { seq!['\\', c] } else { seq![c] };
        head + escape_braces(s.drop_first())
    }
}

/// `s` with only its opening braces escaped.
pub open spec fn escape_open(s: Seq<char>) -> Seq<char>
    decreases s.len(),
{
    if s.len() == 0 {
        Seq::empty()
    } else {
        let c = s[0];
        let head = if c == '{' { seq!['\\', c] } else { seq![c] };
        head + escape_open(s.drop_first())
    }
}

proof fn lemma_escape_braces_head(s: Seq<char>)
    requires
        s.len() > 0,
    ensures
        escape_braces(s).len() > 0,
        escape_braces(s)[0] != '{',
        escape_braces(s)[0] != '}',
{
}

proof fn lemma_escape_open_head(s: Seq<char>)
    requires
        s.len() > 0,
    ensures
        escape_open(s).len() > 0,
        escape_open(s)[0] != '{',
{
}

proof fn lemma_undo_backslash(s: Seq<char>)
    ensures
        replace_all(escape(s), seq!['\\', '\\', '}'], seq!['\\']) == escape_braces(s),
    decreases s.len(),
{
    if s.len() > 0 {
        let pat = seq!['\\', '\\', '}'];
        let rest = s.drop_first();
        let e = escape(s);
        let er = escape(rest);
        lemma_undo_backslash(rest);
        let c = s[0];
        if c == '\\' {
            assert(e.subrange(0, 3) == pat);
            assert(e.subrange(3, e.len() as int) == er);
        } else if c == '{' || c == '}' {
            if e.len() >= 3 {
                assert(e.subrange(0, 3)[1] != pat[1]);
            }
            let e1 = e.drop_first();
            assert(e1 == seq![c] + er);
            if e1.len() >= 3 {
                assert(e1.subrange(0, 3)[0] != pat[0]);
            }
            assert(e1.drop_first() == er);
            assert(replace_all(e1, pat, seq!['\\']) == seq![c] + replace_all(er, pat, seq!['\\']));
        } else {
            if e.len() >= 3 {
                assert(e.subrange(0, 3)[0] != pat[0]);
            }
            assert(e.drop_first() == er);
        }
    }
}

proof fn lemma_undo_close(s: Seq<char>)
    ensures
        replace_all(escape_braces(s), seq!['\\', '}'], seq!['}']) == escape_open(s),
    decreases s.len(),
{
    if s.len() > 0 {
        let pat = seq!['\\', '}'];
        let rest = s.drop_first();
        let e = escape_braces(s);
        let er = escape_braces(rest);
        lemma_undo_close(rest);
        let c = s[0];
        if c == '}' {
            assert(e.subrange(0, 2) == pat);
            assert(e.subrange(2, e.len() as int) == er);
        } else if c == '{' {
            assert(e.subrange(0, 2)[1] != pat[1]);
            let e1 = e.drop_first();
            assert(e1 == seq![c] + er);
            if e1.len() >= 2 {
                assert(e1.subrange(0, 2)[0] != pat[0]);
            }
            assert(e1.drop_first() == er);
            assert(replace_all(e1, pat, seq!['}']) == seq![c] + replace_all(er, pat, seq!['}']));
            assert(escape_open(s) == seq!['\\', c] + escape_open(rest));
        } else if c == '\\' {
            if rest.len() > 0 {
                lemma_escape_braces_head(rest);
                assert(e.subrange(0, 2)[1] != pat[1]);
            }
            assert(e.drop_first() == er);
        } else {
            if e.len() >= 2 {
                assert(e.subrange(0, 2)[0] != pat[0]);
            }
            assert(e.drop_first() == er);
        }
    }
}

proof fn lemma_undo_open(s: Seq<char>)
    ensures
        replace_all(escape_open(s), seq!['\\', '{'], seq!['{']) == s,
    decreases s.len(),
{
    if s.len() > 0 {
        let pat = seq!['\\', '{'];
        let rest = s.drop_first();
        let e = escape_open(s);
        let er = escape_open(rest);
        lemma_undo_open(rest);
        let c = s[0];
        if c == '{' {
            assert(e.subrange(0, 2) == pat);
            assert(e.subrange(2, e.len() as int) == er);
        } else if c == '\\' {
            if rest.len() > 0 {
                lemma_escape_open_head(rest);
                assert(e.subrange(0, 2)[1] != pat[1]);
            }
            assert(e.drop_first() == er);
        } else {
            if e.len() >= 2 {
                assert(e.subrange(0, 2)[0] != pat[0]);
            }
            assert(e.drop_first() == er);
        }
        assert(s == seq![c] + rest);
    }
}

/// Undoing the three substitutions of the escaping, in the opposite order of
/// their application, gives back the input text, whatever braces and
/// backslashes it holds.
pub proof fn lemma_escape_round_trip(s: Seq<char>)
    ensures
        unescape(escape(s)) == s,
{
    lemma_undo_backslash(s);
    lemma_undo_close(s);
    lemma_undo_open(s);
}

} // verus!
