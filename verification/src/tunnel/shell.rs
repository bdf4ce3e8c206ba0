//! Values as words of a POSIX shell command.

use vstd::prelude::*;
use vstd::slice::{slice_subrange, slice_to_vec};

use crate::text::{chars_of, string_from_chars};

verus! {

/// A text with each single quote replaced by a closing quote, an escaped quote
/// and an opening quote.
pub open spec fn escaped(s: Seq<char>) -> Seq<char>
    decreases s.len(),
{
    if s.len() == 0 {
        seq![]
    } else {
        escaped(s.drop_last()) + escaped_char(s.last())
    }
}

/// One character of an escaped text.
pub open spec fn escaped_char(c: char) -> Seq<char> {
    if c == '\'' {
        seq!['\'', '\\', '\'', '\'']
    } else {
        seq![c]
    }
}

/// A text as a word in single quotes.
pub open spec fn quoted(s: Seq<char>) -> Seq<char> {
    seq!['\''] + escaped(s) + seq!['\'']
}

/// Appends a text as a word in single quotes.
pub(crate) fn push_quoted(out: &mut Vec<char>, s: &str)
    ensures
        final(out)@ == old(out)@ + quoted(s@),
{
    let chars = chars_of(s);
    out.push('\'');
    let ghost head = out@;
    let mut i: usize = 0;
    assert(chars@.take(0) =~= Seq::<char>::empty());
    assert(out@ =~= head + escaped(chars@.take(0)));
    while i < chars.len()
        invariant
            i <= chars@.len(),
            out@ == head + escaped(chars@.take(i as int)),
        decreases chars@.len() - i,
    {
        let c: char = chars[i];
        if c == '\'' {
            out.push('\'');
            out.push('\\');
            out.push('\'');
            out.push('\'');
        } else {
            out.push(c);
        }
        assert(chars@.take(i + 1).drop_last() =~= chars@.take(i as int));
        assert(out@ =~= head + escaped(chars@.take(i + 1)));
        i = i + 1;
    }
    assert(chars@.take(i as int) =~= s@);
    out.push('\'');
    assert(out@ =~= old(out)@ + quoted(s@));
}

/// Puts a value in single quotes, so that a shell reads it back as one word
/// and finds nothing in it to carry out.
pub fn shell_quote(s: &str) -> (r: String)
    ensures
        r@ == quoted(s@),
{
    let mut out: Vec<char> = Vec::new();
    push_quoted(&mut out, s);
    assert(out@ =~= quoted(s@));
    string_from_chars(out)
}

/// Whether a path starts in the home directory.
pub open spec fn from_home(path: Seq<char>) -> bool {
    path.len() >= 2 && path[0] == '~' && path[1] == '/'
}

/// A path as a word. A home directory in front stays bare, as a shell does not
/// look for one inside of quotes; all the rest is quoted.
pub open spec fn path_word(path: Seq<char>) -> Seq<char> {
    if from_home(path) {
        seq!['~', '/'] + quoted(path.skip(2))
    } else {
        quoted(path)
    }
}

/// Appends a path as a word.
pub(crate) fn push_path(out: &mut Vec<char>, path: &str)
    ensures
        final(out)@ == old(out)@ + path_word(path@),
{
    let chars = chars_of(path);
    if chars.len() >= 2 && chars[0] == '~' && chars[1] == '/' {
        let rest = slice_subrange(chars.as_slice(), 2, chars.len());
        assert(rest@ =~= path@.skip(2));
        let tail = string_from_chars(slice_to_vec(rest));
        out.push('~');
        out.push('/');
        push_quoted(out, tail.as_str());
        assert(out@ =~= old(out)@ + path_word(path@));
    } else {
        push_quoted(out, path);
    }
}

/// The characters that a command of this library leaves bare. They mean
/// themselves, but for a tilde in front of a slash at the beginning of a word,
/// which together mean the home directory.
pub open spec fn is_bare(c: char) -> bool {
    'a' <= c <= 'z' || '0' <= c <= '9' || c == '-' || c == '~' || c == '/'
}

/// The words that a shell makes of a simple command, behind the beginning of a
/// word where one has begun: blanks end a word, a backslash takes the next
/// character as it is, single quotes take everything up to the next one as it
/// is. `None` where a quote stays open or where a character stands outside of
/// quotes that may mean something else to the shell.
pub open spec fn words(t: Seq<char>, begun: Option<Seq<char>>) -> Option<Seq<Seq<char>>>
    decreases t.len(),
{
    let word = match begun {
        Some(w) => w,
        None => seq![],
    };
    let done = match begun {
        Some(w) => seq![w],
        None => seq![],
    };
    if t.len() == 0 {
        Some(done)
    } else if t[0] == ' ' {
        match words(t.skip(1), None) {
            Some(rest) => Some(done + rest),
            None => None,
        }
    } else if t[0] == '\'' {
        quoted_words(t.skip(1), word)
    } else if t[0] == '\\' && t.len() >= 2 && t[1] != '\n' {
        words(t.skip(2), Some(word.push(t[1])))
    } else if is_bare(t[0]) {
        words(t.skip(1), Some(word.push(t[0])))
    } else {
        None
    }
}

/// The words that a shell makes of the rest of a command from inside single
/// quotes on.
pub open spec fn quoted_words(t: Seq<char>, word: Seq<char>) -> Option<Seq<Seq<char>>>
    decreases t.len(),
{
    if t.len() == 0 {
        None
    } else if t[0] == '\'' {
        words(t.skip(1), Some(word))
    } else {
        quoted_words(t.skip(1), word.push(t[0]))
    }
}

proof fn lemma_escaped_char(c: char, rest: Seq<char>, word: Seq<char>)
    ensures
        quoted_words(escaped_char(c) + rest, word) == quoted_words(rest, word.push(c)),
{
    let t = escaped_char(c) + rest;
    if c == '\'' {
        let t1 = t.skip(1);
        let t2 = t1.skip(2);
        assert(t1 =~= seq!['\\', '\'', '\''] + rest);
        assert(t2 =~= seq!['\''] + rest);
        assert(t2.skip(1) =~= rest);
        assert(quoted_words(t, word) == words(t1, Some(word)));
        assert(words(t1, Some(word)) == words(t2, Some(word.push('\''))));
        assert(words(t2, Some(word.push('\''))) == quoted_words(rest, word.push('\'')));
    } else {
        assert(t.skip(1) =~= rest);
    }
}

proof fn lemma_escaped(s: Seq<char>, rest: Seq<char>, word: Seq<char>)
    ensures
        quoted_words(escaped(s) + rest, word) == quoted_words(rest, word + s),
    decreases s.len(),
{
    if s.len() == 0 {
        assert(escaped(s) + rest =~= rest);
        assert(word + s =~= word);
    } else {
        let c = s.last();
        assert(escaped(s) + rest =~= escaped(s.drop_last()) + (escaped_char(c) + rest));
        lemma_escaped(s.drop_last(), escaped_char(c) + rest, word);
        lemma_escaped_char(c, rest, word + s.drop_last());
        assert((word + s.drop_last()).push(c) =~= word + s);
    }
}

/// A quoted value in front of the rest of a command is one word, or the rest
/// of one, and the shell goes on behind it.
pub proof fn lemma_quoted(s: Seq<char>, rest: Seq<char>, begun: Option<Seq<char>>)
    ensures
        words(quoted(s) + rest, begun) == words(
            rest,
            Some(
                match begun {
                    Some(w) => w,
                    None => seq![],
                } + s,
            ),
        ),
{
    let word = match begun {
        Some(w) => w,
        None => seq![],
    };
    let t = quoted(s) + rest;
    let inner = seq!['\''] + rest;
    assert(t.skip(1) =~= escaped(s) + inner);
    assert(words(t, begun) == quoted_words(t.skip(1), word));
    lemma_escaped(s, inner, word);
    assert(inner.skip(1) =~= rest);
}

/// Bare characters in front of the rest of a command belong to one word.
pub proof fn lemma_bare(p: Seq<char>, rest: Seq<char>, begun: Option<Seq<char>>)
    requires
        p.len() > 0,
        forall|i: int| 0 <= i < p.len() ==> is_bare(#[trigger] p[i]),
    ensures
        words(p + rest, begun) == words(
            rest,
            Some(
                match begun {
                    Some(w) => w,
                    None => seq![],
                } + p,
            ),
        ),
    decreases p.len(),
{
    let word = match begun {
        Some(w) => w,
        None => seq![],
    };
    let t = p + rest;
    assert(t[0] == p[0] && is_bare(p[0]));
    assert(words(t, begun) == words(t.skip(1), Some(word.push(p[0]))));
    if p.len() == 1 {
        assert(t.skip(1) =~= rest);
        assert(word.push(p[0]) =~= word + p);
    } else {
        let q = p.skip(1);
        assert(t.skip(1) =~= q + rest);
        assert forall|i: int| 0 <= i < q.len() implies is_bare(#[trigger] q[i]) by {
            assert(q[i] == p[i + 1]);
        }
        lemma_bare(q, rest, Some(word.push(p[0])));
        assert(word.push(p[0]) + q =~= word + p);
    }
}

/// A blank ends the word in front of it.
pub proof fn lemma_blank(word: Seq<char>, rest: Seq<char>)
    ensures
        words(seq![' '] + rest, Some(word)) == match words(rest, None) {
            Some(w) => Some(seq![word] + w),
            None => None::<Seq<Seq<char>>>,
        },
{
    assert((seq![' '] + rest).skip(1) =~= rest);
}

/// A path in front of the rest of a command is one word, or the rest of one.
pub proof fn lemma_path_word(path: Seq<char>, rest: Seq<char>)
    ensures
        words(path_word(path) + rest, None) == words(rest, Some(path)),
{
    if from_home(path) {
        let home = seq!['~', '/'];
        let tail = path.skip(2);
        assert(path_word(path) + rest =~= home + (quoted(tail) + rest));
        lemma_bare(home, quoted(tail) + rest, None);
        assert(Seq::<char>::empty() + home =~= home);
        lemma_quoted(tail, rest, Some(home));
        assert(home + tail =~= path);
    } else {
        lemma_quoted(path, rest, None);
        assert(Seq::<char>::empty() + path =~= path);
    }
}

/// Whatever a value holds, a shell reads its quoted form as one word, which is
/// that value.
pub proof fn law_quoted_value_is_one_word(s: Seq<char>)
    ensures
        words(quoted(s), None) == Some(seq![s]),
{
    lemma_quoted(s, seq![], None);
    assert(quoted(s) + Seq::<char>::empty() =~= quoted(s));
    assert(Seq::<char>::empty() + s =~= s);
}

/// A path in the home directory begins with the bare tilde and slash, which
/// the shell looks at; every other path is in quotes from its beginning to its
/// end.
pub proof fn law_only_a_home_directory_stays_bare(path: Seq<char>)
    ensures
        path.len() >= 2 && path[0] == '~' && path[1] == '/' ==> path_word(path) == seq!['~', '/']
            + quoted(path.skip(2)),
        !(path.len() >= 2 && path[0] == '~' && path[1] == '/') ==> path_word(path) == quoted(path),
        quoted(path)[0] == '\'',
        quoted(path).last() == '\'',
{
}

/// A value is quoted as it is, but for its single quotes, each of which is
/// taken out of the quotes and escaped.
pub proof fn law_how_values_are_quoted(a: Seq<char>, b: Seq<char>)
    requires
        !a.contains('\''),
    ensures
        quoted(a) == seq!['\''] + a + seq!['\''],
        quoted(a + seq!['\''] + b) =~= seq!['\''] + a + seq!['\'', '\\', '\'', '\''] + escaped(b)
            + seq!['\''],
{
    lemma_escaped_plain(a);
    lemma_escaped_concat(a + seq!['\''], b);
    assert((a + seq!['\'']).drop_last() =~= a);
    assert(escaped(a + seq!['\'']) == escaped(a) + escaped_char('\''));
}

proof fn lemma_escaped_plain(a: Seq<char>)
    requires
        !a.contains('\''),
    ensures
        escaped(a) == a,
    decreases a.len(),
{
    if a.len() > 0 {
        let b = a.drop_last();
        assert(a.contains(a[a.len() - 1]));
        assert forall|i: int| 0 <= i < b.len() implies b[i] != '\'' by {
            assert(a.contains(a[i]));
        }
        lemma_escaped_plain(b);
        assert(b + seq![a.last()] =~= a);
    }
}

proof fn lemma_escaped_concat(a: Seq<char>, b: Seq<char>)
    ensures
        escaped(a + b) == escaped(a) + escaped(b),
    decreases b.len(),
{
    if b.len() == 0 {
        assert(a + b =~= a);
        assert(escaped(a) + escaped(b) =~= escaped(a));
    } else {
        assert((a + b).drop_last() =~= a + b.drop_last());
        lemma_escaped_concat(a, b.drop_last());
        assert(escaped(a + b) =~= escaped(a) + escaped(b));
    }
}

} // verus!
