use vstd::prelude::*;

verus! {

/// What `{:?}` writes for a character. Rust's documentation fixes it for
/// printable ASCII other than the quote and the backslash (the character
/// between single quotes); the escapes of the other characters are not
/// restated here.
pub uninterp spec fn char_debug_text(c: char) -> Seq<char>;

/// True for printable ASCII characters that `{:?}` writes without escaping.
pub open spec fn plain_debug_char(c: char) -> bool {
    ' ' <= c && c <= '~' && c != '\'' && c != '\\'
}

/// Calls `format!("{:?}", c)` (std's `Debug` for `char`). The contract names
/// the result by `char_debug_text` and states it for printable ASCII other
/// than `'` and `\`: the character between single quotes.
#[verifier::external_body]
pub fn char_debug(c: char) -> (res: String)
    ensures
        res@ == char_debug_text(c),
        plain_debug_char(c) ==> res@ == seq!['\'', c, '\''],
{
    format!("{:?}", c)
}

/// Calls `String::push`, which appends one character.
#[verifier::external_body]
pub fn push_char(s: &mut String, c: char)
    ensures
        final(s)@ == old(s)@.push(c),
{
    s.push(c);
}

/// The string made of the characters of `cs`, in order.
pub fn string_from_chars(cs: &Vec<char>) -> (res: String)
    ensures
        res@ == cs@,
{
    let mut res = String::new();
    let mut i: usize = 0;
    while i < cs.len()
        invariant
            i <= cs@.len(),
            res@ == cs@.take(i as int),
        decreases cs@.len() - i,
    {
        push_char(&mut res, cs[i]);
        assert(cs@.take(i + 1) =~= cs@.take(i as int).push(cs@[i as int]));
        i = i + 1;
    }
    assert(cs@.take(cs@.len() as int) =~= cs@);
    res
}

/// The characters of a string, in order.
pub fn str_chars_to_vec(s: &String) -> (res: Vec<char>)
    ensures
        res@ == s@,
{
    crate::utils::str_chars(s.as_str())
}

/// The pieces of `s` between newline characters (one more than there are newlines).
pub open spec fn newline_pieces(s: Seq<char>) -> Seq<Seq<char>>
    decreases s.len(),
{
    if s.len() == 0 {
        seq![seq![]]
    } else {
        let p = newline_pieces(s.drop_last());
        if s.last() == '\n' {
            p.push(seq![])
        } else {
            p.update(p.len() - 1, p.last().push(s.last()))
        }
    }
}

/// `s` without one trailing carriage return.
pub open spec fn strip_cr(s: Seq<char>) -> Seq<char> {
    if s.len() > 0 && s.last() == '\r' {
        s.drop_last()
    } else {
        s
    }
}

/// The lines of `s` as `str::lines` yields them: split at `\n` (a `\r`
/// right before it is dropped too), no line after a final newline.
pub open spec fn text_lines(s: Seq<char>) -> Seq<Seq<char>> {
    let p = newline_pieces(s);
    let body = Seq::new((p.len() - 1) as nat, |i: int| strip_cr(p[i]));
    if p.last().len() == 0 {
        body
    } else {
        body.push(p.last())
    }
}

/// Splitting at newlines gives at least one piece.
pub proof fn lemma_newline_pieces_nonempty(s: Seq<char>)
    ensures
        newline_pieces(s).len() >= 1,
    decreases s.len(),
{
    if s.len() > 0 {
        lemma_newline_pieces_nonempty(s.drop_last());
    }
}

/// The lines joined with a newline between each two, as `join("\n")` gives them.
pub open spec fn joined_lines(lines: Seq<Seq<char>>) -> Seq<char>
    decreases lines.len(),
{
    if lines.len() == 0 {
        seq![]
    } else if lines.len() == 1 {
        lines[0]
    } else {
        joined_lines(lines.drop_last()) + seq!['\n'] + lines.last()
    }
}

proof fn lemma_pieces_extend(a: Seq<char>, s: Seq<char>)
    requires
        forall|i: int| 0 <= i < s.len() ==> s[i] != '\n',
    ensures
        newline_pieces(a).len() >= 1,
        newline_pieces(a + s) == newline_pieces(a).update(
            newline_pieces(a).len() - 1,
            newline_pieces(a).last() + s,
        ),
    decreases s.len(),
{
    lemma_newline_pieces_nonempty(a);
    if s.len() == 0 {
        assert(a + s =~= a);
        assert(newline_pieces(a).last() + s =~= newline_pieces(a).last());
        assert(newline_pieces(a).update(newline_pieces(a).len() - 1, newline_pieces(a).last())
            =~= newline_pieces(a));
    } else {
        let t = s.drop_last();
        lemma_pieces_extend(a, t);
        assert((a + s).drop_last() =~= a + t);
        assert((a + s).last() == s.last());
        assert(s.last() == s[s.len() - 1]);
        let p = newline_pieces(a);
        let q = newline_pieces(a + t);
        assert(s.last() != '\n');
        assert(q.len() == p.len());
        assert(q.last() == p.last() + t);
        assert(newline_pieces(a + s) == q.update(q.len() - 1, q.last().push(s.last())));
        assert((p.last() + t).push(s.last()) =~= p.last() + s);
        assert(newline_pieces(a + s) =~= p.update(p.len() - 1, p.last() + s));
    }
}

/// The text of lines joined by newlines splits at its newlines into those
/// lines, when no line holds a newline.
pub proof fn lemma_joined_pieces(lines: Seq<Seq<char>>)
    requires
        lines.len() >= 1,
        forall|k: int, i: int| 0 <= k < lines.len() && 0 <= i < lines[k].len() ==> #[trigger] lines[k][i] != '\n',
    ensures
        newline_pieces(joined_lines(lines)) == lines,
    decreases lines.len(),
{
    if lines.len() == 1 {
        lemma_pieces_extend(seq![], lines[0]);
        assert(seq![] + lines[0] =~= lines[0]);
        assert(newline_pieces(Seq::<char>::empty()) == seq![Seq::<char>::empty()]);
        assert(Seq::<char>::empty() + lines[0] =~= lines[0]);
        assert(newline_pieces(joined_lines(lines)) =~= lines);
    } else {
        let front = lines.drop_last();
        assert forall|k: int, i: int| 0 <= k < front.len() && 0 <= i < front[k].len() implies #[trigger] front[k][i] != '\n' by {
            assert(front[k] == lines[k]);
        }
        lemma_joined_pieces(front);
        let a = joined_lines(front) + seq!['\n'];
        assert(a.drop_last() =~= joined_lines(front));
        assert(a.last() == '\n');
        assert(newline_pieces(a) == front.push(seq![]));
        let last = lines.last();
        assert forall|i: int| 0 <= i < last.len() implies last[i] != '\n' by {
            assert(lines[lines.len() - 1] == last);
        }
        lemma_pieces_extend(a, last);
        assert(Seq::<char>::empty() + last =~= last);
        assert(newline_pieces(joined_lines(lines)) =~= lines);
    }
}

/// The lines of a text, as `str::lines` yields them.
pub fn split_lines(text: &str) -> (res: Vec<Vec<char>>)
    ensures
        res@.map_values(|l: Vec<char>| l@) == text_lines(text@),
{
    let cs = crate::utils::str_chars(text);
    let ghost s = cs@;
    let mut lines: Vec<Vec<char>> = Vec::new();
    let mut cur: Vec<char> = Vec::new();
    let mut i: usize = 0;
    proof {
        lemma_newline_pieces_nonempty(s.take(0));
        assert(s.take(0) =~= Seq::<char>::empty());
    }
    while i < cs.len()
        invariant
            s == cs@,
            i <= s.len(),
            newline_pieces(s.take(i as int)).len() == lines@.len() + 1,
            forall|k: int| 0 <= k < lines@.len() ==> #[trigger] lines@[k]@ == strip_cr(newline_pieces(s.take(i as int))[k]),
            cur@ == newline_pieces(s.take(i as int)).last(),
        decreases s.len() - i,
    {
        let c = cs[i];
        proof {
            assert(s.take(i + 1).drop_last() =~= s.take(i as int));
            assert(s.take(i + 1).last() == c);
        }
        if c == '\n' {
            if cur.len() > 0 && cur[cur.len() - 1] == '\r' {
                cur.pop();
            }
            let mut line: Vec<char> = Vec::new();
            std::mem::swap(&mut line, &mut cur);
            lines.push(line);
        } else {
            cur.push(c);
        }
        i = i + 1;
    }
    assert(s.take(i as int) =~= s);
    let ghost body = lines@.map_values(|l: Vec<char>| l@);
    if cur.len() > 0 {
        lines.push(cur);
    }
    assert(lines@.map_values(|l: Vec<char>| l@) =~= text_lines(s));
    lines
}

} // verus!
