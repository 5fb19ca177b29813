use vstd::prelude::*;
use crate::common::{is_letter, WILD};

verus! {

broadcast use vstd::seq_lib::group_to_multiset_ensures;

/// Mask with one bit for each of the 26 letters.
pub const ALL_LETTERS_MASK: u32 = 0x3ff_ffff;

/// Characters that `encode_char` accepts: the blank, or a character whose
/// offset from `A` is below 32.
pub open spec fn encodable(c: char) -> bool {
    c == WILD || ('A' <= c && (c as u32) < 97)
}

/// The bit pattern of a character: bit `c - 'A'` for a character from `A`
/// on ('A' is 1, 'B' is 2, 'C' is 4, ...), and every letter bit for the blank,
/// which stands for any letter.
pub open spec fn encode_spec(c: char) -> u32 {
    if c == WILD {
        ALL_LETTERS_MASK
    } else {
        1u32 << ((c as u32) - 65) as u32
    }
}

/// The bitwise OR of the patterns of all characters of `s`.
pub open spec fn mask_of(s: Seq<char>) -> u32
    decreases s.len(),
{
    if s.len() == 0 {
        0
    } else {
        mask_of(s.drop_last()) | encode_spec(s.last())
    }
}

/// Pattern-wise match: same length, and every pair of patterns shares a bit.
pub open spec fn masks_agree(left: Seq<u32>, right: Seq<u32>) -> bool {
    left.len() == right.len() && forall|i: int| 0 <= i < left.len() ==> left[i] & right[i] != 0
}

/// How often `c` occurs in `s`.
pub open spec fn occurrences(s: Seq<char>, c: char) -> nat {
    s.to_multiset().count(c)
}

/// The characters of a string slice, in order.
pub fn str_chars(s: &str) -> (res: Vec<char>)
    ensures
        res@ == s@,
{
    let mut res: Vec<char> = Vec::new();
    for c in it: s.chars()
        invariant
            res@ == it.seq().take(it.index() as int),
            it.seq() == s@,
    {
        res.push(c);
    }
    res
}


/// Encode a character as a bitmask. 'A' is 1, 'B' is 2, 'C' is 4, etc.;
/// the blank encodes as the mask of all letters.
pub fn encode_char(c: char) -> (res: u32)
    requires
        encodable(c),
    ensures
        res == encode_spec(c),
{
    if c == WILD {
        ALL_LETTERS_MASK
    } else {
        1u32 << (c as u32 - 'A' as u32)
    }
}

/// Encodes a set of chars into a single bitmask.
pub fn encode_chars(chars: &str) -> (res: u32)
    requires
        forall|i: int| 0 <= i < chars@.len() ==> encodable(#[trigger] chars@[i]),
    ensures
        res == mask_of(chars@),
{
    let cs = str_chars(chars);
    encode_char_seq(&cs)
}

/// The bitwise OR of the patterns of the characters of `cs`.
pub fn encode_char_seq(cs: &Vec<char>) -> (res: u32)
    requires
        forall|i: int| 0 <= i < cs@.len() ==> encodable(#[trigger] cs@[i]),
    ensures
        res == mask_of(cs@),
{
    let mut acc: u32 = 0;
    let mut i: usize = 0;
    while i < cs.len()
        invariant
            i <= cs@.len(),
            forall|j: int| 0 <= j < cs@.len() ==> encodable(#[trigger] cs@[j]),
            acc == mask_of(cs@.take(i as int)),
        decreases cs@.len() - i,
    {
        assert(cs@.take(i + 1).drop_last() =~= cs@.take(i as int));
        acc = acc | encode_char(cs[i]);
        i = i + 1;
    }
    assert(cs@.take(cs@.len() as int) =~= cs@);
    acc
}

/// The pattern of every character of `cs`, in order.
pub fn convert_char_seq_to_bit_vec(cs: &Vec<char>) -> (res: Vec<u32>)
    requires
        forall|i: int| 0 <= i < cs@.len() ==> encodable(#[trigger] cs@[i]),
    ensures
        res@.len() == cs@.len(),
        forall|i: int| 0 <= i < cs@.len() ==> #[trigger] res@[i] == encode_spec(cs@[i]),
{
    let mut res: Vec<u32> = Vec::new();
    let mut i: usize = 0;
    while i < cs.len()
        invariant
            i <= cs@.len(),
            forall|j: int| 0 <= j < cs@.len() ==> encodable(#[trigger] cs@[j]),
            res@.len() == i,
            forall|j: int| 0 <= j < i ==> #[trigger] res@[j] == encode_spec(cs@[j]),
        decreases cs@.len() - i,
    {
        res.push(encode_char(cs[i]));
        i = i + 1;
    }
    res
}

/// The pattern of every character of `word`, in order.
pub fn convert_chars_to_bit_vec(word: &str) -> (res: Vec<u32>)
    requires
        forall|i: int| 0 <= i < word@.len() ==> encodable(#[trigger] word@[i]),
    ensures
        res@.len() == word@.len(),
        forall|i: int| 0 <= i < word@.len() ==> #[trigger] res@[i] == encode_spec(word@[i]),
{
    let cs = str_chars(word);
    convert_char_seq_to_bit_vec(&cs)
}

/// Checks if two bitmask vectors match: same length and a shared bit at every index.
pub fn bitmasks_match(left: &Vec<u32>, right: &Vec<u32>) -> (res: bool)
    ensures
        res == masks_agree(left@, right@),
{
    if left.len() != right.len() {
        return false;
    }
    let mut i: usize = 0;
    while i < left.len()
        invariant
            left@.len() == right@.len(),
            i <= left@.len(),
            forall|j: int| 0 <= j < i ==> left@[j] & right@[j] != 0,
        decreases left@.len() - i,
    {
        if left[i] & right[i] == 0 {
            return false;
        }
        i = i + 1;
    }
    true
}


/// The UTF-8 bytes of `word`, each read back as a character.
pub open spec fn byte_chars(word: Seq<char>) -> Seq<char> {
    vstd::utf8::encode_utf8(word).map_values(|b: u8| b as char)
}

/// No byte that the scan of `word_matches_bitmask` reaches is unencodable: the
/// scan stops at the first byte whose pattern misses its mask entry.
pub open spec fn scan_encodable(bytes: Seq<char>, mask: Seq<u32>) -> bool {
    bytes.len() == mask.len() ==> forall|i: int|
        0 <= i < bytes.len() && (forall|j: int| 0 <= j < i ==> encode_spec(bytes[j]) & mask[j] != 0)
            ==> encodable(#[trigger] bytes[i])
}

/// Checks if a word matches a given char bitmask: one mask entry per byte of
/// the word, and every byte's pattern shares a bit with its entry.
pub fn word_matches_bitmask(word: &String, mask: &Vec<u32>) -> (res: bool)
    requires
        scan_encodable(byte_chars(word@), mask@),
    ensures
        res == (byte_chars(word@).len() == mask@.len() && forall|i: int|
            0 <= i < mask@.len() ==> encode_spec(#[trigger] byte_chars(word@)[i]) & mask@[i] != 0),
{
    let bytes = word.as_str().as_bytes();
    let ghost bc = byte_chars(word@);
    assert(bytes@.len() == bc.len());
    if mask.len() != bytes.len() {
        return false;
    }
    let mut i: usize = 0;
    while i < mask.len()
        invariant
            bytes@.len() == mask@.len(),
            bc == bytes@.map_values(|b: u8| b as char),
            bc == byte_chars(word@),
            scan_encodable(bc, mask@),
            i <= mask@.len(),
            forall|j: int| 0 <= j < i ==> encode_spec(bc[j]) & mask@[j] != 0,
        decreases mask@.len() - i,
    {
        let c = bytes[i] as char;
        assert(c == bc[i as int]);
        if encode_char(c) & mask[i] == 0 {
            assert(encode_spec(byte_chars(word@)[i as int]) & mask@[i as int] == 0);
            return false;
        }
        i = i + 1;
    }
    true
}

/// Creates a map that maps the chars from a string to how many times each char
/// occurs, as (character, count) pairs in order of first occurrence.
pub fn char_count_to_map(chars: &str) -> (res: Vec<(char, usize)>)
    ensures
        forall|i: int, j: int|
            0 <= i < j < res@.len() ==> (#[trigger] res@[i]).0 != (#[trigger] res@[j]).0,
        forall|i: int|
            0 <= i < res@.len() ==> (#[trigger] res@[i]).1 == occurrences(chars@, res@[i].0)
                && res@[i].1 > 0,
        forall|c: char| chars@.contains(c) ==> exists|i: int| 0 <= i < res@.len() && (#[trigger] res@[i]).0 == c,
{
    let cs = str_chars(chars);
    count_chars(&cs)
}

/// Index of the entry for `c` in a list of (character, count) pairs.
pub fn find_count_entry(counts: &Vec<(char, usize)>, c: char) -> (res: Option<usize>)
    ensures
        match res {
            Some(k) => k < counts@.len() && counts@[k as int].0 == c,
            None => forall|i: int| 0 <= i < counts@.len() ==> (#[trigger] counts@[i]).0 != c,
        },
{
    let mut i: usize = 0;
    while i < counts.len()
        invariant
            i <= counts@.len(),
            forall|j: int| 0 <= j < i ==> (#[trigger] counts@[j]).0 != c,
        decreases counts@.len() - i,
    {
        if counts[i].0 == c {
            return Some(i);
        }
        i = i + 1;
    }
    None
}

/// The (character, count) pairs of `cs`, in order of first occurrence.
pub fn count_chars(cs: &Vec<char>) -> (res: Vec<(char, usize)>)
    ensures
        forall|i: int, j: int|
            0 <= i < j < res@.len() ==> (#[trigger] res@[i]).0 != (#[trigger] res@[j]).0,
        forall|i: int|
            0 <= i < res@.len() ==> (#[trigger] res@[i]).1 == occurrences(cs@, res@[i].0)
                && res@[i].1 > 0,
        forall|c: char| cs@.contains(c) ==> exists|i: int| 0 <= i < res@.len() && (#[trigger] res@[i]).0 == c,
{
    let mut res: Vec<(char, usize)> = Vec::new();
    let mut k: usize = 0;
    while k < cs.len()
        invariant
            k <= cs@.len(),
            forall|i: int, j: int|
                0 <= i < j < res@.len() ==> (#[trigger] res@[i]).0 != (#[trigger] res@[j]).0,
            forall|i: int|
                0 <= i < res@.len() ==> (#[trigger] res@[i]).1 == occurrences(cs@.take(k as int), res@[i].0)
                    && res@[i].1 > 0,
            forall|c: char| cs@.take(k as int).contains(c) ==> exists|i: int| 0 <= i < res@.len() && (#[trigger] res@[i]).0 == c,
        decreases cs@.len() - k,
    {
        let c = cs[k];
        let ghost prev = cs@.take(k as int);
        assert(cs@.take(k + 1) =~= prev.push(c));
        assert(prev.push(c).to_multiset() =~= prev.to_multiset().insert(c));
        assert(occurrences(prev, c) <= k) by {
            assert(prev.to_multiset().len() == k);
            assert(prev.to_multiset().count(c) <= prev.to_multiset().len()) by {
                broadcast use vstd::multiset::group_multiset_properties;
            }
        }
        let ghost old_res = res@;
        let pos: usize;
        match find_count_entry(&res, c) {
            Some(idx) => {
                let n = res[idx].1;
                res.set(idx, (c, n + 1));
                pos = idx;
            },
            None => {
                assert(!prev.contains(c));
                res.push((c, 1));
                pos = res.len() - 1;
            },
        }
        assert(res@[pos as int].0 == c);
        assert(forall|j: int| 0 <= j < old_res.len() ==> (#[trigger] res@[j]).0 == old_res[j].0);
        k = k + 1;
        assert forall|d: char| cs@.take(k as int).contains(d) implies exists|i: int| 0 <= i < res@.len() && (#[trigger] res@[i]).0 == d by {
            if d != c {
                let w = choose|w: int| 0 <= w < cs@.take(k as int).len() && cs@.take(k as int)[w] == d;
                assert(prev[w] == d);
                assert(prev.contains(d));
                let i0 = choose|i: int| 0 <= i < old_res.len() && (#[trigger] old_res[i]).0 == d;
                assert(res@[i0].0 == d);
            } else {
                assert(res@[pos as int].0 == d);
            }
        }
    }
    assert(cs@.take(cs@.len() as int) =~= cs@);
    res
}

proof fn lemma_single_bits(x: u32, y: u32)
    requires
        x < 32,
        y < 32,
    ensures
        ((1u32 << x) & (1u32 << y) != 0) == (x == y),
{
    assert(((1u32 << x) & (1u32 << y) != 0) == (x == y)) by (bit_vector)
        requires
            x < 32,
            y < 32,
    ;
}

proof fn lemma_all_letters_bit(x: u32)
    requires
        x < 26,
    ensures
        0x3ff_ffffu32 & (1u32 << x) != 0,
        (1u32 << x) & 0x3ff_ffffu32 != 0,
{
    assert(0x3ff_ffffu32 & (1u32 << x) != 0 && (1u32 << x) & 0x3ff_ffffu32 != 0) by (bit_vector)
        requires
            x < 26,
    ;
}

proof fn lemma_or_and(m: u32, e: u32, a: u32)
    ensures
        ((m | e) & a != 0) == ((m & a != 0) || (e & a != 0)),
{
    assert(((m | e) & a != 0) == ((m & a != 0) || (e & a != 0))) by (bit_vector);
}

/// Bitwise and is commutative.
pub proof fn lemma_and_comm(a: u32, b: u32)
    ensures
        a & b == b & a,
{
    assert(a & b == b & a) by (bit_vector);
}

/// For a letter `a`, the pattern of an encodable `b` shares a bit with the
/// pattern of `a` exactly when `b` is `a` or the blank.
pub proof fn lemma_encode_meets_letter(a: char, b: char)
    requires
        is_letter(a),
        encodable(b),
    ensures
        (encode_spec(b) & encode_spec(a) != 0) == (b == a || b == WILD),
{
    let x = ((a as u32) - 65) as u32;
    if b == WILD {
        lemma_all_letters_bit(x);
    } else {
        let y = ((b as u32) - 65) as u32;
        lemma_single_bits(y, x);
        if y == x {
            assert(b as u32 == a as u32);
        }
    }
}

/// For a letter `a`, the mask of `s` shares a bit with the pattern of `a`
/// exactly when `s` holds `a` or a blank.
pub proof fn lemma_mask_meets_letter(s: Seq<char>, a: char)
    requires
        is_letter(a),
        forall|i: int| 0 <= i < s.len() ==> encodable(#[trigger] s[i]),
    ensures
        (mask_of(s) & encode_spec(a) != 0) == (s.contains(a) || s.contains(WILD)),
    decreases s.len(),
{
    if s.len() == 0 {
        assert(0u32 & encode_spec(a) == 0) by (bit_vector);
    } else {
        let t = s.drop_last();
        lemma_mask_meets_letter(t, a);
        lemma_or_and(mask_of(t), encode_spec(s.last()), encode_spec(a));
        lemma_encode_meets_letter(a, s.last());
        assert(s =~= t.push(s.last()));
        if t.contains(a) {
            let j = choose|j: int| 0 <= j < t.len() && t[j] == a;
            assert(s[j] == a);
        }
        if t.contains(WILD) {
            let j = choose|j: int| 0 <= j < t.len() && t[j] == WILD;
            assert(s[j] == WILD);
        }
        if s.contains(a) {
            let j = choose|j: int| 0 <= j < s.len() && s[j] == a;
            if j < t.len() {
                assert(t[j] == a);
            }
        }
        if s.contains(WILD) {
            let j = choose|j: int| 0 <= j < s.len() && s[j] == WILD;
            if j < t.len() {
                assert(t[j] == WILD);
            }
        }
    }
}

/// How often `c` occurs in `s`.
pub fn count_char(s: &Vec<char>, c: char) -> (res: usize)
    ensures
        res == occurrences(s@, c),
        res <= s@.len(),
{
    let mut n: usize = 0;
    let mut i: usize = 0;
    while i < s.len()
        invariant
            i <= s@.len(),
            n == occurrences(s@.take(i as int), c),
            n <= i,
        decreases s@.len() - i,
    {
        assert(s@.take(i + 1) =~= s@.take(i as int).push(s@[i as int]));
        if s[i] == c {
            n = n + 1;
        }
        i = i + 1;
    }
    assert(s@.take(s@.len() as int) =~= s@);
    n
}

/// Characters in ascending order, equal ones allowed side by side.
pub open spec fn chars_sorted(s: Seq<char>) -> bool {
    forall|i: int, j: int| 0 <= i < j < s.len() ==> #[trigger] s[i] <= #[trigger] s[j]
}

/// The characters of `v` in ascending order.
pub fn sort_chars(v: &Vec<char>) -> (res: Vec<char>)
    ensures
        chars_sorted(res@),
        res@.to_multiset() == v@.to_multiset(),
{
    let mut res: Vec<char> = Vec::new();
    let mut i: usize = 0;
    while i < v.len()
        invariant
            i <= v@.len(),
            chars_sorted(res@),
            res@.to_multiset() == v@.take(i as int).to_multiset(),
            res@.len() == i,
        decreases v@.len() - i,
    {
        let c = v[i];
        let mut pos: usize = 0;
        while pos < res.len() && res[pos] <= c
            invariant
                pos <= res@.len(),
                forall|k: int| 0 <= k < pos ==> #[trigger] res@[k] <= c,
            decreases res@.len() - pos,
        {
            pos = pos + 1;
        }
        let ghost old_res = res@;
        res.insert(pos, c);
        proof {
            assert forall|a: int, b: int| 0 <= a < b < res@.len() implies #[trigger] res@[a] <= #[trigger] res@[b] by {
                if b < pos {
                    assert(res@[a] == old_res[a] && res@[b] == old_res[b]);
                } else if b == pos {
                    assert(res@[a] == old_res[a]);
                } else if a == pos {
                    assert(res@[b] == old_res[b - 1]);
                    if b - 1 > pos {
                        assert(old_res[pos as int] <= old_res[b - 1]);
                    }
                    assert(old_res[pos as int] > c);
                } else if a < pos {
                    assert(res@[a] == old_res[a] && res@[b] == old_res[b - 1]);
                } else {
                    assert(res@[a] == old_res[a - 1] && res@[b] == old_res[b - 1]);
                }
            }
            assert(v@.take(i + 1) =~= v@.take(i as int).push(c));
        }
        i = i + 1;
    }
    assert(v@.take(v@.len() as int) =~= v@);
    res
}

/// Two ascending sequences with the same characters are equal.
pub proof fn lemma_sorted_unique(a: Seq<char>, b: Seq<char>)
    requires
        chars_sorted(a),
        chars_sorted(b),
        a.to_multiset() == b.to_multiset(),
    ensures
        a == b,
    decreases a.len(),
{
    vstd::seq_lib::to_multiset_len(a);
    vstd::seq_lib::to_multiset_len(b);
    assert(a.len() == b.len());
    if a.len() > 0 {
        assert(a.contains(a[0]));
        assert(b.to_multiset().count(a[0]) > 0);
        assert(b.contains(a[0]));
        assert(a.to_multiset().count(b[0]) > 0);
        assert(a.contains(b[0]));
        let i = choose|i: int| 0 <= i < b.len() && b[i] == a[0];
        let j = choose|j: int| 0 <= j < a.len() && a[j] == b[0];
        assert(b[0] <= b[i]);
        assert(a[0] <= a[j]);
        assert(a[0] == b[0]);
        assert(a.remove(0).to_multiset() == a.to_multiset().remove(a[0]));
        assert(b.remove(0).to_multiset() == b.to_multiset().remove(b[0]));
        assert(a.remove(0) =~= a.drop_first());
        assert(b.remove(0) =~= b.drop_first());
        lemma_sorted_unique(a.drop_first(), b.drop_first());
        assert forall|k: int| 0 <= k < a.len() implies a[k] == b[k] by {
            if k > 0 {
                assert(a[k] == a.drop_first()[k - 1]);
                assert(b[k] == b.drop_first()[k - 1]);
            }
        }
        assert(a =~= b);
    }
}

/// The characters of `s` in ascending order.
pub open spec fn sorted_chars(s: Seq<char>) -> Seq<char> {
    choose|t: Seq<char>| chars_sorted(t) && t.to_multiset() == s.to_multiset()
}

/// An ascending sequence with the characters of `s` is `sorted_chars(s)`.
pub proof fn lemma_sorted_chars(s: Seq<char>, t: Seq<char>)
    requires
        chars_sorted(t),
        t.to_multiset() == s.to_multiset(),
    ensures
        sorted_chars(s) == t,
{
    let u = sorted_chars(s);
    assert(chars_sorted(u) && u.to_multiset() == s.to_multiset());
    lemma_sorted_unique(u, t);
}

/// Index of the first occurrence of `c` in `v`.
pub fn index_of_char(v: &Vec<char>, c: char) -> (res: Option<usize>)
    ensures
        match res {
            Some(i) => i < v@.len() && v@[i as int] == c,
            None => !v@.contains(c),
        },
{
    let mut i: usize = 0;
    while i < v.len()
        invariant
            i <= v@.len(),
            forall|k: int| 0 <= k < i ==> v@[k] != c,
        decreases v@.len() - i,
    {
        if v[i] == c {
            return Some(i);
        }
        i = i + 1;
    }
    None
}

/// Whether every character of `a` can be matched with its own character of
/// `b` (the characters of `a`, counted, are among those of `b`).
pub fn chars_within(a: &Vec<char>, b: &Vec<char>) -> (res: bool)
    ensures
        res == a@.to_multiset().subset_of(b@.to_multiset()),
{
    broadcast use vstd::multiset::group_multiset_axioms;

    let mut rest: Vec<char> = Vec::new();
    let mut k: usize = 0;
    while k < b.len()
        invariant
            k <= b@.len(),
            rest@ == b@.take(k as int),
        decreases b@.len() - k,
    {
        rest.push(b[k]);
        k = k + 1;
        assert(rest@ =~= b@.take(k as int));
    }
    assert(rest@ =~= b@);
    let mut i: usize = 0;
    while i < a.len()
        invariant
            i <= a@.len(),
            a@.take(i as int).to_multiset().add(rest@.to_multiset()) == b@.to_multiset(),
        decreases a@.len() - i,
    {
        let c = a[i];
        proof {
            assert(a@.take(i + 1) =~= a@.take(i as int).push(c));
            assert(a@ =~= a@.take(i + 1) + a@.skip(i + 1));
            vstd::seq_lib::lemma_multiset_commutative(a@.take(i + 1), a@.skip(i + 1));
        }
        match index_of_char(&rest, c) {
            None => {
                proof {
                    if a@.to_multiset().subset_of(b@.to_multiset()) {
                        assert(a@.to_multiset() == a@.take(i + 1).to_multiset().add(a@.skip(i + 1).to_multiset()));
                        assert(a@.take(i + 1).to_multiset().count(c) == a@.take(i as int).to_multiset().count(c) + 1);
                        assert(!rest@.contains(c));
                        assert(rest@.to_multiset().count(c) == 0);
                        assert(b@.to_multiset().count(c) == a@.take(i as int).to_multiset().count(c));
                        assert(a@.take(i + 1).to_multiset().count(c) <= a@.to_multiset().count(c));
                        assert(false);
                    }
                }
                return false;
            },
            Some(j) => {
                let ghost before = rest@;
                rest.remove(j);
                proof {
                    assert(before == rest@.insert(j as int, c));
                    assert(before.to_multiset() == rest@.to_multiset().insert(c));
                    assert(a@.take(i + 1).to_multiset().add(rest@.to_multiset()) =~= b@.to_multiset());
                }
            },
        }
        i = i + 1;
    }
    assert(a@.take(i as int) =~= a@);
    true
}

} // verus!
