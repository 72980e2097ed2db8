//! Character-level building blocks of the symbol-map grammar: whitespace,
//! lines, fields, hexadecimal and decimal numbers.
//!
//! Every function here works on sequences of characters; `&str` and `String`
//! enter and leave through [`to_chars`] and [`to_string`].

use vstd::prelude::*;
use vstd::slice::{slice_subrange, slice_to_vec};

verus! {

/// `String::push` appends one character to the end of the string.
pub assume_specification[ String::push ](s: &mut String, ch: char)
    ensures
        final(s)@ == old(s)@.push(ch),
;

/// Whether `c` separates fields: the characters that Unicode classes as
/// White_Space.
pub open spec fn is_space(c: char) -> bool {
    ||| c == ' '
    ||| '\u{9}' <= c <= '\u{d}'
    ||| c == '\u{85}'
    ||| c == '\u{a0}'
    ||| c == '\u{1680}'
    ||| '\u{2000}' <= c <= '\u{200a}'
    ||| c == '\u{2028}'
    ||| c == '\u{2029}'
    ||| c == '\u{202f}'
    ||| c == '\u{205f}'
    ||| c == '\u{3000}'
}

/// The kinds of character at which a run of characters ends.
pub enum Stop {
    /// the line feed
    Newline,
    /// any white space
    Space,
    /// anything but white space
    Word,
}

/// Whether `c` ends a run of the kind `k`.
pub open spec fn stops(k: Stop, c: char) -> bool {
    match k {
        Stop::Newline => c == '\n',
        Stop::Space => is_space(c),
        Stop::Word => !is_space(c),
    }
}

/// The number of characters of `s` that come before the first one that ends
/// a run of kind `k`; the length of `s` if there is none.
pub open spec fn run_len(s: Seq<char>, k: Stop) -> nat
    decreases s.len(),
{
    if s.len() == 0 || stops(k, s[0]) {
        0
    } else {
        1 + run_len(s.drop_first(), k)
    }
}

/// The lines of `s`: the pieces between line feeds. A line feed at the very
/// end opens no further line, and the empty text has no line.
pub open spec fn lines(s: Seq<char>) -> Seq<Seq<char>>
    decreases s.len(),
{
    let n = run_len(s, Stop::Newline) as int;
    if s.len() == 0 {
        Seq::empty()
    } else if n < s.len() {
        seq![s.take(n)] + lines(s.skip(n + 1))
    } else {
        seq![s]
    }
}

/// The fields of `s`: its maximal runs of characters that are not white
/// space, in order.
pub open spec fn tokens(s: Seq<char>) -> Seq<Seq<char>>
    decreases s.len(),
{
    let a = run_len(s, Stop::Word) as int;
    let b = a + run_len(s.skip(a), Stop::Space);
    if a < b <= s.len() {
        seq![s.subrange(a, b)] + tokens(s.skip(b))
    } else {
        Seq::empty()
    }
}

/// The pieces of `parts` in order, with `sep` between each two neighbours.
pub open spec fn join(parts: Seq<Seq<char>>, sep: char) -> Seq<char>
    decreases parts.len(),
{
    if parts.len() == 0 {
        Seq::empty()
    } else if parts.len() == 1 {
        parts[0]
    } else {
        join(parts.drop_last(), sep).push(sep) + parts.last()
    }
}

/// `s` without the white space at its start.
pub open spec fn trim_start(s: Seq<char>) -> Seq<char>
    decreases s.len(),
{
    if s.len() > 0 && is_space(s[0]) {
        trim_start(s.drop_first())
    } else {
        s
    }
}

/// `s` without the white space at its end.
pub open spec fn trim_end(s: Seq<char>) -> Seq<char>
    decreases s.len(),
{
    if s.len() > 0 && is_space(s.last()) {
        trim_end(s.drop_last())
    } else {
        s
    }
}

/// `s` without the white space at either end.
pub open spec fn trim(s: Seq<char>) -> Seq<char> {
    trim_end(trim_start(s))
}

/// What the vectors of `v` hold, one sequence for each.
pub open spec fn rows(v: Seq<Vec<char>>) -> Seq<Seq<char>> {
    Seq::new(v.len(), |i: int| v[i]@)
}

/// A run has the length `n` if none of the first `n` characters ends it and
/// the character after them, if there is one, does.
pub proof fn lemma_run_len(s: Seq<char>, k: Stop, n: int)
    requires
        0 <= n <= s.len(),
        forall|i: int| 0 <= i < n ==> !stops(k, #[trigger] s[i]),
        n < s.len() ==> stops(k, s[n]),
    ensures
        run_len(s, k) == n,
    decreases s.len(),
{
    if s.len() == 0 || stops(k, s[0]) {
    } else {
        let t = s.drop_first();
        assert forall|i: int| 0 <= i < n - 1 implies !stops(k, #[trigger] t[i]) by {
            assert(t[i] == s[i + 1]);
        }
        lemma_run_len(t, k, n - 1);
    }
}

/// A run ends inside `s`, no character of it ends the run, and the character
/// after it, if there is one, does.
pub proof fn lemma_run_len_is_run(s: Seq<char>, k: Stop)
    ensures
        run_len(s, k) <= s.len(),
        forall|i: int| 0 <= i < run_len(s, k) ==> !stops(k, #[trigger] s[i]),
        run_len(s, k) < s.len() ==> stops(k, s[run_len(s, k) as int]),
    decreases s.len(),
{
    if s.len() == 0 || stops(k, s[0]) {
    } else {
        let t = s.drop_first();
        lemma_run_len_is_run(t, k);
        assert forall|i: int| 0 <= i < run_len(s, k) implies !stops(k, #[trigger] s[i]) by {
            if i > 0 {
                assert(s[i] == t[i - 1]);
            }
        }
        assert(run_len(s, k) < s.len() ==> s[run_len(s, k) as int] == t[run_len(t, k) as int]);
    }
}

/// Whether `w` can stand as one field: it is not empty and holds no white
/// space.
pub open spec fn is_field(w: Seq<char>) -> bool {
    w.len() > 0 && forall|i: int| 0 <= i < w.len() ==> !is_space(#[trigger] w[i])
}

/// White space at the start of a text adds no field.
pub proof fn lemma_tokens_skip_space(s: Seq<char>)
    requires
        s.len() > 0,
        is_space(s[0]),
    ensures
        tokens(s) == tokens(s.drop_first()),
{
    let t = s.drop_first();
    let a = run_len(t, Stop::Word) as int;
    lemma_run_len_is_run(t, Stop::Word);
    assert(run_len(s, Stop::Word) == a + 1);
    assert(s.skip(a + 1) =~= t.skip(a));
    let b = a + run_len(t.skip(a), Stop::Space);
    lemma_run_len_is_run(t.skip(a), Stop::Space);
    if a < b {
        assert(s.subrange(a + 1, b + 1) =~= t.subrange(a, b));
        assert(s.skip(b + 1) =~= t.skip(b));
    }
}

/// A field at the start of a text, with white space or nothing after it, is
/// the first field of the text.
pub proof fn lemma_tokens_word(w: Seq<char>, rest: Seq<char>)
    requires
        is_field(w),
        rest.len() > 0 ==> is_space(rest[0]),
    ensures
        tokens(w + rest) == seq![w] + tokens(rest),
{
    let s = w + rest;
    assert(s[0] == w[0]);
    assert(run_len(s, Stop::Word) == 0);
    assert(s.skip(0) =~= s);
    assert forall|i: int| 0 <= i < w.len() implies !stops(Stop::Space, #[trigger] s[i]) by {
        assert(s[i] == w[i]);
    }
    if rest.len() > 0 {
        assert(s[w.len() as int] == rest[0]);
    }
    lemma_run_len(s, Stop::Space, w.len() as int);
    assert(s.subrange(0, w.len() as int) =~= w);
    assert(s.skip(w.len() as int) =~= rest);
}

/// A field alone is the only field of its text.
pub proof fn lemma_tokens_of_field(w: Seq<char>)
    requires
        is_field(w),
    ensures
        tokens(w) == seq![w],
{
    let none = Seq::<char>::empty();
    lemma_tokens_word(w, none);
    assert(w + none =~= w);
    assert(tokens(none) =~= Seq::<Seq<char>>::empty());
    assert(seq![w] + Seq::<Seq<char>>::empty() =~= seq![w]);
}

/// White space parts a text: the fields of two texts with white space
/// between them are the fields of the first, then those of the second.
pub proof fn lemma_tokens_split(a: Seq<char>, sep: char, b: Seq<char>)
    requires
        is_space(sep),
    ensures
        tokens(a + seq![sep] + b) == tokens(a) + tokens(b),
    decreases a.len(),
{
    let whole = a + seq![sep] + b;
    if a.len() == 0 {
        assert(whole.drop_first() =~= b);
        lemma_tokens_skip_space(whole);
        assert(tokens(a) =~= Seq::<Seq<char>>::empty());
        assert(tokens(a) + tokens(b) =~= tokens(b));
    } else if is_space(a[0]) {
        assert(whole[0] == a[0]);
        lemma_tokens_skip_space(whole);
        lemma_tokens_skip_space(a);
        assert(whole.drop_first() =~= a.drop_first() + seq![sep] + b);
        lemma_tokens_split(a.drop_first(), sep, b);
    } else {
        let n = run_len(a, Stop::Space) as int;
        lemma_run_len_is_run(a, Stop::Space);
        let w = a.take(n);
        let tail = a.skip(n);
        assert(n > 0);
        assert(is_field(w));
        assert(a =~= w + tail);
        if tail.len() > 0 {
            assert(tail[0] == a[n]);
        }
        lemma_tokens_word(w, tail);
        let after = tail + seq![sep] + b;
        assert(after[0] == if tail.len() > 0 {
            tail[0]
        } else {
            sep
        });
        lemma_tokens_word(w, after);
        assert(whole =~= w + after);
        lemma_tokens_split(tail, sep, b);
        assert(seq![w] + (tokens(tail) + tokens(b)) =~= (seq![w] + tokens(tail)) + tokens(b));
    }
}

/// Fields that are joined by single spaces are found again: taking a text
/// apart undoes putting it together.
pub proof fn lemma_tokens_of_join(fields: Seq<Seq<char>>)
    requires
        forall|i: int| 0 <= i < fields.len() ==> is_field(#[trigger] fields[i]),
    ensures
        tokens(join(fields, ' ')) == fields,
    decreases fields.len(),
{
    if fields.len() == 0 {
        assert(tokens(Seq::<char>::empty()) =~= Seq::<Seq<char>>::empty());
        assert(fields =~= Seq::<Seq<char>>::empty());
    } else if fields.len() == 1 {
        lemma_tokens_of_field(fields[0]);
        assert(fields =~= seq![fields[0]]);
    } else {
        let init = fields.drop_last();
        assert forall|i: int| 0 <= i < init.len() implies is_field(#[trigger] init[i]) by {
            assert(init[i] == fields[i]);
        }
        lemma_tokens_of_join(init);
        lemma_tokens_split(join(init, ' '), ' ', fields.last());
        lemma_tokens_of_field(fields.last());
        assert(join(init, ' ').push(' ') =~= join(init, ' ') + seq![' ']);
        assert(init + seq![fields.last()] =~= fields);
    }
}

/// Every field of a text can stand as a field: it is not empty and holds no
/// white space.
pub proof fn lemma_tokens_are_fields(s: Seq<char>)
    ensures
        forall|i: int| 0 <= i < tokens(s).len() ==> is_field(#[trigger] tokens(s)[i]),
    decreases s.len(),
{
    let a = run_len(s, Stop::Word) as int;
    lemma_run_len_is_run(s, Stop::Word);
    let b = a + run_len(s.skip(a), Stop::Space);
    lemma_run_len_is_run(s.skip(a), Stop::Space);
    if a < b <= s.len() {
        let w = s.subrange(a, b);
        assert forall|i: int| 0 <= i < w.len() implies !is_space(#[trigger] w[i]) by {
            assert(w[i] == s.skip(a)[i]);
        }
        lemma_tokens_are_fields(s.skip(b));
        assert forall|i: int| 0 <= i < tokens(s).len() implies is_field(#[trigger] tokens(s)[i]) by {
            if i > 0 {
                assert(tokens(s)[i] == tokens(s.skip(b))[i - 1]);
            }
        }
    }
}

/// A text that ends with a line feed, or is empty, goes on with a new line:
/// the lines of such a text with one more line after it, closed by a line
/// feed, are its own lines and that one.
pub proof fn lemma_lines_push(text: Seq<char>, line: Seq<char>)
    requires
        text.len() > 0 ==> text.last() == '\n',
        forall|i: int| 0 <= i < line.len() ==> line[i] != '\n',
    ensures
        lines(text + line + seq!['\n']) == lines(text).push(line),
    decreases text.len(),
{
    let whole = text + line + seq!['\n'];
    if text.len() == 0 {
        assert(whole =~= line + seq!['\n']);
        assert forall|i: int| 0 <= i < line.len() implies !stops(Stop::Newline, #[trigger] whole[i]) by {
            assert(whole[i] == line[i]);
        }
        lemma_run_len(whole, Stop::Newline, line.len() as int);
        assert(whole.take(line.len() as int) =~= line);
        assert(whole.skip(line.len() as int + 1) =~= Seq::<char>::empty());
        assert(lines(Seq::<char>::empty()) =~= Seq::<Seq<char>>::empty());
        assert(lines(text) =~= Seq::<Seq<char>>::empty());
        assert(seq![line] + Seq::<Seq<char>>::empty() =~= Seq::<Seq<char>>::empty().push(line));
    } else {
        let n = run_len(text, Stop::Newline) as int;
        lemma_run_len_is_run(text, Stop::Newline);
        assert(n < text.len()) by {
            if n == text.len() {
                assert(!stops(Stop::Newline, text[text.len() - 1]));
            }
        }
        assert forall|i: int| 0 <= i < n implies !stops(Stop::Newline, #[trigger] whole[i]) by {
            assert(whole[i] == text[i]);
        }
        assert(whole[n] == text[n]);
        lemma_run_len(whole, Stop::Newline, n);
        let rest = text.skip(n + 1);
        assert(whole.take(n) =~= text.take(n));
        assert(whole.skip(n + 1) =~= rest + line + seq!['\n']);
        if rest.len() > 0 {
            assert(rest.last() == text.last());
        }
        lemma_lines_push(rest, line);
        assert(seq![text.take(n)] + lines(rest).push(line) =~= (seq![text.take(n)] + lines(
            rest,
        )).push(line));
    }
}

/// Whether `c` is white space.
pub fn is_whitespace(c: char) -> (b: bool)
    ensures
        b == is_space(c),
{
    c == ' ' || ('\u{9}' <= c && c <= '\u{d}') || c == '\u{85}' || c == '\u{a0}' || c
        == '\u{1680}' || ('\u{2000}' <= c && c <= '\u{200a}') || c == '\u{2028}' || c
        == '\u{2029}' || c == '\u{202f}' || c == '\u{205f}' || c == '\u{3000}'
}

/// The characters of `s`, in order.
pub fn to_chars(s: &str) -> (v: Vec<char>)
    ensures
        v@ == s@,
{
    let mut v: Vec<char> = Vec::new();
    let it = s.chars();
    for c in iter: it
        invariant
            v@ == iter.seq().take(iter.index() as int),
    {
        v.push(c);
    }
    v
}

/// The string made of the characters of `chars`, in order.
pub fn to_string(chars: &[char]) -> (s: String)
    ensures
        s@ == chars@,
{
    let mut s = String::new();
    let mut i: usize = 0;
    while i < chars.len()
        invariant
            i <= chars.len(),
            s@ == chars@.take(i as int),
        decreases chars.len() - i,
    {
        s.push(chars[i]);
        i += 1;
    }
    s
}

/// The index of the first character of `s` at or after `from` that ends a run
/// of white space (`word` false) or of other characters (`word` true).
fn run_end(s: &[char], from: usize, word: bool) -> (end: usize)
    requires
        from <= s.len(),
    ensures
        from <= end <= s.len(),
        end - from == run_len(s@.skip(from as int), if word { Stop::Space } else { Stop::Word }),
{
    let ghost k = if word { Stop::Space } else { Stop::Word };
    let mut end = from;
    while end < s.len() && is_whitespace(s[end]) != word
        invariant
            from <= end <= s.len(),
            k == (if word { Stop::Space } else { Stop::Word }),
            forall|i: int| from <= i < end ==> !stops(k, #[trigger] s@[i]),
        decreases s.len() - end,
    {
        end += 1;
    }
    proof {
        lemma_run_len(s@.skip(from as int), k, end - from);
    }
    end
}

/// The lines of `s`, each as a vector of its own.
pub fn split_lines(s: &[char]) -> (out: Vec<Vec<char>>)
    ensures
        rows(out@) == lines(s@),
{
    let mut out: Vec<Vec<char>> = Vec::new();
    let mut start: usize = 0;
    assert(s@.skip(0) =~= s@);
    assert(rows(out@) + lines(s@) =~= lines(s@));
    while start < s.len()
        invariant
            start <= s.len(),
            rows(out@) + lines(s@.skip(start as int)) == lines(s@),
        decreases s.len() - start,
    {
        let mut end = start;
        while end < s.len() && s[end] != '\n'
            invariant
                start <= end <= s.len(),
                forall|i: int| start <= i < end ==> !stops(Stop::Newline, #[trigger] s@[i]),
            decreases s.len() - end,
        {
            end += 1;
        }
        let line = slice_to_vec(slice_subrange(s, start, end));
        let ghost before = rows(out@);
        let ghost rest = s@.skip(start as int);
        proof {
            lemma_run_len(rest, Stop::Newline, end - start);
            assert(rest.take(end - start) =~= line@);
            if end < s.len() {
                assert(rest.skip(end - start + 1) =~= s@.skip(end + 1));
            } else {
                assert(rest =~= line@);
                assert(lines(s@.skip(end as int)) =~= Seq::<Seq<char>>::empty());
            }
        }
        out.push(line);
        assert(rows(out@) =~= before.push(line@));
        start = if end < s.len() { end + 1 } else { end };
        assert(rows(out@) + lines(s@.skip(start as int)) =~= before + lines(rest));
    }
    assert(lines(s@.skip(start as int)) =~= Seq::<Seq<char>>::empty());
    assert(rows(out@) + Seq::<Seq<char>>::empty() =~= rows(out@));
    out
}

/// The fields of `s`, each as a vector of its own.
pub fn split_whitespace(s: &[char]) -> (out: Vec<Vec<char>>)
    ensures
        rows(out@) == tokens(s@),
{
    let mut out: Vec<Vec<char>> = Vec::new();
    let mut pos: usize = 0;
    assert(s@.skip(0) =~= s@);
    assert(rows(out@) + tokens(s@) =~= tokens(s@));
    loop
        invariant_except_break
            pos <= s.len(),
            rows(out@) + tokens(s@.skip(pos as int)) == tokens(s@),
        ensures
            rows(out@) == tokens(s@),
        decreases s.len() - pos,
    {
        let ghost rest = s@.skip(pos as int);
        let a = run_end(s, pos, false);
        assert(rest.skip(a - pos) =~= s@.skip(a as int));
        let b = run_end(s, a, true);
        if a == b {
            assert(tokens(rest) =~= Seq::<Seq<char>>::empty());
            assert(rows(out@) + Seq::<Seq<char>>::empty() =~= rows(out@));
            break ;
        }
        let field = slice_to_vec(slice_subrange(s, a, b));
        let ghost before = rows(out@);
        proof {
            assert(rest.subrange(a - pos, b - pos) =~= field@);
            assert(rest.skip(b - pos) =~= s@.skip(b as int));
        }
        out.push(field);
        assert(rows(out@) =~= before.push(field@));
        pos = b;
        assert(rows(out@) + tokens(s@.skip(pos as int)) =~= before + tokens(rest));
    }
    out
}

/// `s` without the white space at either end.
pub fn trim_chars(s: &[char]) -> (r: &[char])
    ensures
        r@ == trim(s@),
{
    let mut a: usize = 0;
    assert(s@.skip(0) =~= s@);
    while a < s.len() && is_whitespace(s[a])
        invariant
            a <= s.len(),
            trim_start(s@) == trim_start(s@.skip(a as int)),
        decreases s.len() - a,
    {
        assert(s@.skip(a as int).drop_first() =~= s@.skip(a + 1));
        a += 1;
    }
    let mut b: usize = s.len();
    assert(s@.skip(a as int) =~= s@.subrange(a as int, b as int));
    while b > a && is_whitespace(s[b - 1])
        invariant
            a <= b <= s.len(),
            trim(s@) == trim_end(s@.subrange(a as int, b as int)),
        decreases b,
    {
        assert(s@.subrange(a as int, b as int).drop_last() =~= s@.subrange(a as int, b - 1));
        b -= 1;
    }
    slice_subrange(s, a, b)
}

/// The fields of `parts` from index `from` on, with `sep` between each two
/// neighbours.
pub fn join_from(parts: &Vec<Vec<char>>, from: usize, sep: char) -> (out: Vec<char>)
    ensures
        out@ == join(
            if from <= parts.len() {
                rows(parts@).skip(from as int)
            } else {
                Seq::empty()
            },
            sep,
        ),
{
    let mut out: Vec<char> = Vec::new();
    if from >= parts.len() {
        assert(rows(parts@).skip(parts.len() as int) =~= Seq::<Seq<char>>::empty());
        return out;
    }
    let ghost all = rows(parts@).skip(from as int);
    let mut i: usize = from;
    while i < parts.len()
        invariant
            from <= i <= parts.len(),
            from < parts.len(),
            all == rows(parts@).skip(from as int),
            out@ == join(all.take(i - from), sep),
        decreases parts.len() - i,
    {
        let ghost done = all.take(i - from);
        let ghost next = all.take(i - from + 1);
        if i > from {
            out.push(sep);
        }
        let part = &parts[i];
        let mut j: usize = 0;
        while j < part.len()
            invariant
                j <= part.len(),
                out@ == (if i > from {
                    join(done, sep).push(sep)
                } else {
                    join(done, sep)
                }) + part@.take(j as int),
            decreases part.len() - j,
        {
            out.push(part[j]);
            j += 1;
        }
        proof {
            assert(part@.take(part.len() as int) =~= part@);
            assert(next.drop_last() =~= done);
            assert(next.last() == part@);
            if i == from {
                assert(done =~= Seq::<Seq<char>>::empty());
                assert(out@ =~= part@);
            }
        }
        i += 1;
    }
    assert(all.take(parts.len() - from) =~= all);
    out
}

} // verus!
