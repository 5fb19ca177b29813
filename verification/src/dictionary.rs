use vstd::prelude::*;
use crate::common::is_letter;
use crate::utils::{convert_char_seq_to_bit_vec, encode_spec};
use crate::text::{split_lines, text_lines};

verus! {

broadcast use vstd::seq_lib::group_to_multiset_ensures;

/// The characters with the Unicode White_Space property, which std documents
/// `char::is_whitespace` to test: tab, line feed, line tabulation, form feed,
/// carriage return, space, next line, no-break space, ogham space mark, the
/// spaces U+2000 to U+200A, line and paragraph separators, narrow no-break
/// space, medium mathematical space and ideographic space.
pub open spec fn white_space(c: char) -> bool {
    let u = c as u32;
    ||| 0x09 <= u <= 0x0D
    ||| u == 0x20
    ||| u == 0x85
    ||| u == 0xA0
    ||| u == 0x1680
    ||| 0x2000 <= u <= 0x200A
    ||| u == 0x2028
    ||| u == 0x2029
    ||| u == 0x202F
    ||| u == 0x205F
    ||| u == 0x3000
}

/// Whether `c` has the Unicode White_Space property, as `char::is_whitespace`
/// tells.
pub fn is_white_space(c: char) -> (res: bool)
    ensures
        res == white_space(c),
{
    let u = c as u32;
    (0x09 <= u && u <= 0x0D) || u == 0x20 || u == 0x85 || u == 0xA0 || u == 0x1680 || (0x2000 <= u && u <= 0x200A)
        || u == 0x2028 || u == 0x2029 || u == 0x202F || u == 0x205F || u == 0x3000
}

/// `s` without its leading whitespace.
pub open spec fn trim_start(s: Seq<char>) -> Seq<char>
    decreases s.len(),
{
    if s.len() > 0 && white_space(s[0]) {
        trim_start(s.drop_first())
    } else {
        s
    }
}

/// `s` without its trailing whitespace.
pub open spec fn trim_end(s: Seq<char>) -> Seq<char>
    decreases s.len(),
{
    if s.len() > 0 && white_space(s.last()) {
        trim_end(s.drop_last())
    } else {
        s
    }
}

/// `s` without leading and trailing whitespace, as `str::trim` gives it.
pub open spec fn trim(s: Seq<char>) -> Seq<char> {
    trim_end(trim_start(s))
}

/// The words of a word list: its lines, trimmed.
pub open spec fn word_list_words(text: Seq<char>) -> Seq<Seq<char>> {
    text_lines(text).map_values(|l: Seq<char>| trim(l))
}

/// `s` without leading and trailing whitespace.
pub fn trim_chars(s: &Vec<char>) -> (res: Vec<char>)
    ensures
        res@ == trim(s@),
{
    let mut a: usize = 0;
    assert(s@.skip(0) =~= s@);
    while a < s.len() && is_white_space(s[a])
        invariant
            a <= s@.len(),
            trim_start(s@) == trim_start(s@.skip(a as int)),
        decreases s@.len() - a,
    {
        assert(s@.skip(a as int).drop_first() =~= s@.skip(a + 1));
        a = a + 1;
    }
    let mut b: usize = s.len();
    let ghost mid = s@.skip(a as int);
    assert(trim_start(s@) == mid) by {
        if a < s@.len() {
            assert(mid[0] == s@[a as int]);
        }
    }
    while b > a && is_white_space(s[b - 1])
        invariant
            a <= b <= s@.len(),
            mid == s@.skip(a as int),
            trim_end(mid) == trim_end(s@.subrange(a as int, b as int)),
        decreases b - a,
    {
        assert(s@.subrange(a as int, b as int).drop_last() =~= s@.subrange(a as int, b - 1));
        b = b - 1;
    }
    assert(s@.skip(a as int) =~= s@.subrange(a as int, s@.len() as int));
    let mut res: Vec<char> = Vec::new();
    let mut i = a;
    while i < b
        invariant
            a <= i <= b <= s@.len(),
            res@ == s@.subrange(a as int, i as int),
        decreases b - i,
    {
        res.push(s[i]);
        i = i + 1;
        assert(res@ =~= s@.subrange(a as int, i as int));
    }
    res
}

/// Longest word that can be played along one line of the board.
pub const MAX_WORD_LEN: usize = 15;

/// A word made of the capital letters `A` to `Z` only.
pub open spec fn is_letter_word(w: Seq<char>) -> bool {
    forall|i: int| 0 <= i < w.len() ==> is_letter(#[trigger] w[i])
}

/// Lexicographic order on character sequences (the order of `Vec<char>`):
/// the first differing character decides, and a proper prefix comes first.
pub open spec fn lex_lt(a: Seq<char>, b: Seq<char>) -> bool
    decreases a.len(),
{
    if a.len() == 0 {
        b.len() > 0
    } else if b.len() == 0 {
        false
    } else if a[0] != b[0] {
        a[0] < b[0]
    } else {
        lex_lt(a.drop_first(), b.drop_first())
    }
}

/// Ascending lexicographic order, equal neighbours allowed.
pub open spec fn lex_sorted(s: Seq<Seq<char>>) -> bool {
    forall|i: int, j: int| 0 <= i < j < s.len() ==> !lex_lt(#[trigger] s[j], #[trigger] s[i])
}

/// The views of a list of character vectors.
pub open spec fn words_view(v: Seq<Vec<char>>) -> Seq<Seq<char>> {
    v.map_values(|w: Vec<char>| w@)
}

/// The words of `words` that have `n` characters, in their order.
pub open spec fn words_of_len(words: Seq<Seq<char>>, n: nat) -> Seq<Seq<char>>
    decreases words.len(),
{
    if words.len() == 0 {
        seq![]
    } else {
        let rest = words_of_len(words.drop_last(), n);
        if words.last().len() == n {
            rest.push(words.last())
        } else {
            rest
        }
    }
}

/// The words of a bucket of the by-length index, in order.
pub open spec fn bucket_words(b: Seq<(Vec<char>, Vec<u32>)>) -> Seq<Seq<char>> {
    b.map_values(|e: (Vec<char>, Vec<u32>)| e.0@)
}

/// An entry of the by-length index: a word and the pattern of each of its letters.
pub open spec fn entry_ok(e: (Vec<char>, Vec<u32>)) -> bool {
    &&& e.1@.len() == e.0@.len()
    &&& forall|j: int| 0 <= j < e.0@.len() ==> #[trigger] e.1@[j] == encode_spec(e.0@[j])
}

/// No word comes before itself.
pub proof fn lemma_lex_irreflexive(a: Seq<char>)
    ensures
        !lex_lt(a, a),
    decreases a.len(),
{
    if a.len() > 0 {
        lemma_lex_irreflexive(a.drop_first());
    }
}

/// The order of words is transitive.
pub proof fn lemma_lex_transitive(a: Seq<char>, b: Seq<char>, c: Seq<char>)
    requires
        lex_lt(a, b),
        lex_lt(b, c),
    ensures
        lex_lt(a, c),
    decreases a.len(),
{
    if a.len() > 0 && b.len() > 0 && c.len() > 0 && a[0] == b[0] && b[0] == c[0] {
        lemma_lex_transitive(a.drop_first(), b.drop_first(), c.drop_first());
    }
}

/// Of two different words, one comes before the other.
pub proof fn lemma_lex_total(a: Seq<char>, b: Seq<char>)
    ensures
        a == b || lex_lt(a, b) || lex_lt(b, a),
    decreases a.len(),
{
    if a.len() > 0 && b.len() > 0 && a[0] == b[0] {
        lemma_lex_total(a.drop_first(), b.drop_first());
        if a.drop_first() == b.drop_first() {
            assert(a =~= seq![a[0]] + a.drop_first());
            assert(b =~= seq![b[0]] + b.drop_first());
        }
    } else if a.len() == 0 && b.len() == 0 {
        assert(a =~= b);
    }
}

/// Compares two words: -1 when `a` comes first, 0 when equal, 1 otherwise.
pub fn compare_words(a: &Vec<char>, b: &Vec<char>) -> (res: i8)
    ensures
        res == 0 <==> a@ == b@,
        res < 0 <==> lex_lt(a@, b@),
        res > 0 <==> lex_lt(b@, a@),
{
    let mut i: usize = 0;
    assert(a@.skip(0) =~= a@);
    assert(b@.skip(0) =~= b@);
    while i < a.len() && i < b.len()
        invariant
            i <= a@.len(),
            i <= b@.len(),
            a@.take(i as int) == b@.take(i as int),
            lex_lt(a@, b@) == lex_lt(a@.skip(i as int), b@.skip(i as int)),
            lex_lt(b@, a@) == lex_lt(b@.skip(i as int), a@.skip(i as int)),
        decreases a@.len() - i,
    {
        if a[i] != b[i] {
            proof {
                assert(a@.skip(i as int)[0] == a@[i as int]);
                assert(b@.skip(i as int)[0] == b@[i as int]);
                if a@ == b@ {
                    assert(a@[i as int] == b@[i as int]);
                }
            }
            if a[i] < b[i] {
                return -1;
            } else {
                return 1;
            }
        }
        proof {
            assert(a@.skip(i as int).drop_first() =~= a@.skip(i + 1));
            assert(b@.skip(i as int).drop_first() =~= b@.skip(i + 1));
            assert(a@.take(i + 1) =~= a@.take(i as int).push(a@[i as int]));
            assert(b@.take(i + 1) =~= b@.take(i as int).push(b@[i as int]));
        }
        i = i + 1;
    }
    proof {
        if i == a@.len() {
            assert(a@.take(i as int) =~= a@);
        }
        if i == b@.len() {
            assert(b@.take(i as int) =~= b@);
        }
    }
    if a.len() == b.len() {
        proof {
            assert(a@ =~= b@);
            lemma_lex_irreflexive(a@);
        }
        0
    } else if a.len() < b.len() {
        proof {
            assert(a@.skip(i as int).len() == 0);
            if a@ == b@ {
                assert(false);
            }
        }
        -1
    } else {
        proof {
            assert(b@.skip(i as int).len() == 0);
        }
        1
    }
}

/// Calls std's `slice::sort` on a list of words. Rust documents that the
/// result is the same elements in ascending order, and that `Vec<char>`
/// orders lexicographically by `char` (Unicode scalar value).
#[verifier::external_body]
fn sort_words(words: &mut Vec<Vec<char>>)
    ensures
        words_view(final(words)@).to_multiset() == words_view(old(words)@).to_multiset(),
        lex_sorted(words_view(final(words)@)),
{
    words.sort();
}

/// The list of valid words: kept in the order given, sorted for lookup, and
/// indexed by length with the letter patterns of each word.
pub struct Dictionary {
    words: Ghost<Seq<Seq<char>>>,
    sorted: Vec<Vec<char>>,
    by_length: Vec<Vec<(Vec<char>, Vec<u32>)>>,
}

impl View for Dictionary {
    type V = Seq<Seq<char>>;

    closed spec fn view(&self) -> Seq<Seq<char>> {
        self.words@
    }
}

impl Dictionary {
    /// Well-formedness: the lookup list and the length index agree with the words.
    pub closed spec fn wf(&self) -> bool {
        &&& forall|i: int| 0 <= i < self.words@.len() ==> is_letter_word(#[trigger] self.words@[i])
        &&& lex_sorted(words_view(self.sorted@))
        &&& words_view(self.sorted@).to_multiset() == self.words@.to_multiset()
        &&& self.by_length@.len() == MAX_WORD_LEN + 1
        &&& forall|n: int|
            0 <= n <= MAX_WORD_LEN ==> #[trigger] bucket_words(self.by_length@[n]@) == words_of_len(self.words@, n as nat)
        &&& forall|n: int, k: int|
            0 <= n <= MAX_WORD_LEN && 0 <= k < self.by_length@[n]@.len() ==> entry_ok(
                #[trigger] self.by_length@[n]@[k],
            )
    }

    /// Builds the dictionary from a list of words (capital letters only).
    pub fn new(words: Vec<Vec<char>>) -> (res: Self)
        requires
            forall|i: int| 0 <= i < words@.len() ==> is_letter_word(#[trigger] words@[i]@),
        ensures
            res.wf(),
            res@ == words_view(words@),
    {
        let ghost wv = words_view(words@);
        let mut by_length: Vec<Vec<(Vec<char>, Vec<u32>)>> = Vec::new();
        let mut n: usize = 0;
        while n <= MAX_WORD_LEN
            invariant
                n <= MAX_WORD_LEN + 1,
                by_length@.len() == n,
                forall|m: int| 0 <= m < n ==> #[trigger] by_length@[m]@.len() == 0,
            decreases MAX_WORD_LEN + 1 - n,
        {
            by_length.push(Vec::new());
            n = n + 1;
        }
        let mut sorted: Vec<Vec<char>> = Vec::new();
        let mut i: usize = 0;
        while i < words.len()
            invariant
                i <= words@.len(),
                wv == words_view(words@),
                forall|k: int| 0 <= k < words@.len() ==> is_letter_word(#[trigger] words@[k]@),
                words_view(sorted@) == wv.take(i as int),
                by_length@.len() == MAX_WORD_LEN + 1,
                forall|m: int|
                    0 <= m <= MAX_WORD_LEN ==> #[trigger] bucket_words(by_length@[m]@) == words_of_len(wv.take(i as int), m as nat),
                forall|m: int, k: int|
                    0 <= m <= MAX_WORD_LEN && 0 <= k < by_length@[m]@.len() ==> entry_ok(
                        #[trigger] by_length@[m]@[k],
                    ),
            decreases words@.len() - i,
        {
            let w = words[i].clone();
            assert(w@ == words@[i as int]@);
            let len = w.len();
            assert(wv.take(i + 1).drop_last() =~= wv.take(i as int));
            assert(wv.take(i + 1).last() == w@);
            if len <= MAX_WORD_LEN {
                assert forall|j: int| 0 <= j < w@.len() implies crate::utils::encodable(#[trigger] w@[j]) by {
                    assert(is_letter(w@[j]));
                }
                let mask = convert_char_seq_to_bit_vec(&w);
                let mut bucket: Vec<(Vec<char>, Vec<u32>)> = Vec::new();
                std::mem::swap(&mut bucket, &mut by_length[len]);
                let ghost old_bucket = bucket@;
                bucket.push((w.clone(), mask));
                let ghost new_bucket = bucket@;
                std::mem::swap(&mut bucket, &mut by_length[len]);
                assert forall|m: int|
                    0 <= m <= MAX_WORD_LEN implies #[trigger] bucket_words(by_length@[m]@) == words_of_len(wv.take(i + 1), m as nat) by {
                    if m == len {
                        assert(bucket_words(new_bucket) =~= bucket_words(old_bucket).push(w@));
                    }
                }
            } else {
                assert forall|m: int|
                    0 <= m <= MAX_WORD_LEN implies #[trigger] bucket_words(by_length@[m]@) == words_of_len(wv.take(i + 1), m as nat) by {}
            }
            let ghost old_sorted = sorted@;
            sorted.push(w);
            assert(words_view(sorted@) =~= words_view(old_sorted).push(words@[i as int]@));
            assert(wv.take(i + 1) =~= wv.take(i as int).push(wv[i as int]));
            i = i + 1;
        }
        assert(wv.take(words@.len() as int) =~= wv);
        sort_words(&mut sorted);
        Dictionary { words: Ghost(wv), sorted, by_length }
    }

    /// The dictionary of a word list: one word per line, trimmed.
    pub fn from_word_list(text: &str) -> (res: Self)
        requires
            forall|i: int| 0 <= i < word_list_words(text@).len() ==> is_letter_word(#[trigger] word_list_words(text@)[i]),
        ensures
            res.wf(),
            res@ == word_list_words(text@),
    {
        let lines = split_lines(text);
        let mut words: Vec<Vec<char>> = Vec::new();
        let mut i: usize = 0;
        while i < lines.len()
            invariant
                lines@.map_values(|l: Vec<char>| l@) == text_lines(text@),
                i <= lines@.len(),
                words_view(words@) == word_list_words(text@).take(i as int),
            decreases lines@.len() - i,
        {
            let w = trim_chars(&lines[i]);
            assert(lines@.map_values(|l: Vec<char>| l@)[i as int] == lines@[i as int]@);
            assert(text_lines(text@)[i as int] == lines@[i as int]@);
            assert(word_list_words(text@)[i as int] == trim(lines@[i as int]@));
            let ghost old_words = words@;
            words.push(w);
            assert(words_view(words@) =~= words_view(old_words).push(trim(lines@[i as int]@)));
            assert(word_list_words(text@).take(i + 1) =~= word_list_words(text@).take(i as int).push(
                trim(lines@[i as int]@),
            ));
            assert(words_view(words@) =~= word_list_words(text@).take(i + 1));
            i = i + 1;
        }
        assert(word_list_words(text@).take(i as int) =~= word_list_words(text@));
        proof {
            assert forall|k: int| 0 <= k < words@.len() implies is_letter_word(#[trigger] words@[k]@) by {
                assert(words_view(words@)[k] == words@[k]@);
            }
        }
        Self::new(words)
    }

    /// The words of the dictionary all consist of capital letters.
    pub proof fn lemma_letter_words(&self)
        requires
            self.wf(),
        ensures
            forall|i: int| 0 <= i < self@.len() ==> is_letter_word(#[trigger] self@[i]),
    {
    }

    /// Whether `word` is in the dictionary (binary search over the sorted list).
    pub fn contains(&self, word: &Vec<char>) -> (res: bool)
        requires
            self.wf(),
        ensures
            res == self@.contains(word@),
    {
        let ghost sv = words_view(self.sorted@);
        proof {
            assert(sv.to_multiset().count(word@) == self@.to_multiset().count(word@));
        }
        let mut lo: usize = 0;
        let mut hi: usize = self.sorted.len();
        while lo < hi
            invariant
                sv == words_view(self.sorted@),
                sv.to_multiset() == self@.to_multiset(),
                lex_sorted(sv),
                hi <= sv.len(),
                lo <= hi,
                forall|k: int| 0 <= k < lo ==> lex_lt(#[trigger] sv[k], word@),
                forall|k: int| hi <= k < sv.len() ==> lex_lt(word@, #[trigger] sv[k]),
            decreases hi - lo,
        {
            let mid = lo + (hi - lo) / 2;
            let c = compare_words(&self.sorted[mid], word);
            assert(self.sorted@[mid as int]@ == sv[mid as int]);
            if c == 0 {
                proof {
                    assert(sv.contains(word@));
                    assert(sv.to_multiset().count(word@) > 0);
                    assert(self@.to_multiset().count(word@) > 0);
                }
                return true;
            } else if c < 0 {
                proof {
                    assert forall|k: int| 0 <= k < mid + 1 implies lex_lt(#[trigger] sv[k], word@) by {
                        if k < mid {
                            if lex_lt(sv[mid as int], sv[k]) {
                            } else {
                                lemma_lex_total(sv[k], sv[mid as int]);
                                if sv[k] != sv[mid as int] {
                                    lemma_lex_transitive(sv[k], sv[mid as int], word@);
                                }
                            }
                        }
                    }
                }
                lo = mid + 1;
            } else {
                proof {
                    assert forall|k: int| mid <= k < sv.len() implies lex_lt(word@, #[trigger] sv[k]) by {
                        if k > mid {
                            lemma_lex_total(sv[mid as int], sv[k]);
                            if sv[k] != sv[mid as int] {
                                lemma_lex_transitive(word@, sv[mid as int], sv[k]);
                            }
                        }
                    }
                }
                hi = mid;
            }
        }
        proof {
            if sv.contains(word@) {
                let k = choose|k: int| 0 <= k < sv.len() && sv[k] == word@;
                lemma_lex_irreflexive(word@);
                assert(lex_lt(sv[k], word@) || lex_lt(word@, sv[k]));
            }
            assert(!sv.contains(word@));
            assert(sv.to_multiset().count(word@) == 0);
        }
        false
    }

    /// The words of length `n` (at most 15) with their letter patterns, in the
    /// order of the word list.
    pub fn words_of_length(&self, n: usize) -> (res: &Vec<(Vec<char>, Vec<u32>)>)
        requires
            self.wf(),
            n <= MAX_WORD_LEN,
        ensures
            bucket_words(res@) == words_of_len(self@, n as nat),
            forall|k: int| 0 <= k < res@.len() ==> entry_ok(#[trigger] res@[k]),
    {
        &self.by_length[n]
    }
}

} // verus!
