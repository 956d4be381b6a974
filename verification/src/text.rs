//! Splitting and joining of text.
//!
//! Both persisted stores are line-oriented: the registry document is a
//! sequence of `key value` lines, and the daemon configuration is a sequence
//! of directive lines.  The proxy descriptor is likewise a string split on a
//! two-character delimiter set.  This module gives the one splitting model
//! both share, and the round-trip lemmas the codecs are proved from.

use vstd::prelude::*;

verus! {

/// The sequence of views of a sequence of strings.
pub open spec fn views_of(v: Seq<String>) -> Seq<Seq<char>> {
    Seq::new(v.len(), |i: int| v[i]@)
}

/// `s` contains neither `d1` nor `d2`.
pub open spec fn free_of2(s: Seq<char>, d1: char, d2: char) -> bool {
    forall|i: int| 0 <= i < s.len() ==> s[i] != d1 && s[i] != d2
}

/// `s` does not contain `d`.
pub open spec fn free_of(s: Seq<char>, d: char) -> bool {
    free_of2(s, d, d)
}

/// Index of the first occurrence of `d1` or `d2` in `s`, or `s.len()` if
/// neither occurs.
pub open spec fn first_delim(s: Seq<char>, d1: char, d2: char) -> nat
    decreases s.len(),
{
    if s.len() == 0 {
        0
    } else if s[0] == d1 || s[0] == d2 {
        0
    } else {
        1 + first_delim(s.skip(1), d1, d2)
    }
}

/// The pieces of `s` between occurrences of `d1` and `d2`, in order.  A
/// string with `n` delimiter occurrences has exactly `n + 1` pieces; pieces
/// may be empty.
pub open spec fn split_at_delims(s: Seq<char>, d1: char, d2: char) -> Seq<Seq<char>>
    decreases s.len(),
{
    let i = first_delim(s, d1, d2);
    if i >= s.len() {
        seq![s]
    } else {
        seq![s.subrange(0, i as int)] + split_at_delims(s.skip(i as int + 1), d1, d2)
    }
}

/// The pieces joined back with the single separator `d` between them.
pub open spec fn join_with(ls: Seq<Seq<char>>, d: char) -> Seq<char>
    decreases ls.len(),
{
    if ls.len() == 0 {
        Seq::empty()
    } else if ls.len() == 1 {
        ls[0]
    } else {
        ls[0] + seq![d] + join_with(ls.skip(1), d)
    }
}

pub proof fn lemma_first_delim_free(s: Seq<char>, d1: char, d2: char)
    requires
        free_of2(s, d1, d2),
    ensures
        first_delim(s, d1, d2) == s.len(),
    decreases s.len(),
{
    if s.len() > 0 {
        assert(free_of2(s.skip(1), d1, d2)) by {
            assert(forall|i: int| 0 <= i < s.skip(1).len() ==> s.skip(1)[i] == s[i + 1]);
        }
        lemma_first_delim_free(s.skip(1), d1, d2);
    }
}

pub proof fn lemma_first_delim_props(s: Seq<char>, d1: char, d2: char)
    ensures
        first_delim(s, d1, d2) <= s.len(),
        forall|k: int| 0 <= k < first_delim(s, d1, d2) ==> s[k] != d1 && s[k] != d2,
    decreases s.len(),
{
    if s.len() > 0 && !(s[0] == d1 || s[0] == d2) {
        lemma_first_delim_props(s.skip(1), d1, d2);
        assert forall|k: int| 0 <= k < first_delim(s, d1, d2) implies s[k] != d1 && s[k] != d2 by {
            if k > 0 {
                assert(s.skip(1)[k - 1] == s[k]);
            }
        }
    }
}

/// Every piece of a split is free of the delimiters.
pub proof fn lemma_split_pieces_free(s: Seq<char>, d1: char, d2: char)
    ensures
        forall|i: int|
            0 <= i < split_at_delims(s, d1, d2).len() ==> free_of2(
                #[trigger] split_at_delims(s, d1, d2)[i],
                d1,
                d2,
            ),
    decreases s.len(),
{
    lemma_first_delim_props(s, d1, d2);
    let n = first_delim(s, d1, d2);
    if n >= s.len() {
        assert(free_of2(s, d1, d2));
    } else {
        let rest = split_at_delims(s.skip(n as int + 1), d1, d2);
        lemma_split_pieces_free(s.skip(n as int + 1), d1, d2);
        assert(free_of2(s.subrange(0, n as int), d1, d2));
        assert(forall|i: int|
            1 <= i < split_at_delims(s, d1, d2).len() ==> split_at_delims(s, d1, d2)[i] == rest[i
                - 1]);
    }
}

/// A string free of delimiters splits into itself alone.
pub proof fn lemma_split_free(s: Seq<char>, d1: char, d2: char)
    requires
        free_of2(s, d1, d2),
    ensures
        split_at_delims(s, d1, d2) == seq![s],
{
    lemma_first_delim_free(s, d1, d2);
}

pub proof fn lemma_first_delim_concat(a: Seq<char>, d: char, rest: Seq<char>, d1: char, d2: char)
    requires
        free_of2(a, d1, d2),
        d == d1 || d == d2,
    ensures
        first_delim(a + seq![d] + rest, d1, d2) == a.len(),
    decreases a.len(),
{
    let s = a + seq![d] + rest;
    if a.len() == 0 {
        assert(s[0] == d);
    } else {
        assert(s[0] == a[0]);
        assert(free_of2(a.skip(1), d1, d2)) by {
            assert(forall|i: int| 0 <= i < a.skip(1).len() ==> a.skip(1)[i] == a[i + 1]);
        }
        lemma_first_delim_concat(a.skip(1), d, rest, d1, d2);
        assert(s.skip(1) =~= a.skip(1) + seq![d] + rest);
    }
}

/// Splitting a string that starts with a delimiter-free piece, a delimiter,
/// and a remainder yields the piece followed by the split of the remainder.
pub proof fn lemma_split_concat(a: Seq<char>, d: char, rest: Seq<char>, d1: char, d2: char)
    requires
        free_of2(a, d1, d2),
        d == d1 || d == d2,
    ensures
        split_at_delims(a + seq![d] + rest, d1, d2) == seq![a] + split_at_delims(rest, d1, d2),
{
    let s = a + seq![d] + rest;
    lemma_first_delim_concat(a, d, rest, d1, d2);
    assert(s.subrange(0, a.len() as int) =~= a);
    assert(s.skip(a.len() as int + 1) =~= rest);
}

/// Joining lines free of the separator and splitting again is the identity.
pub proof fn lemma_split_join(ls: Seq<Seq<char>>, d: char)
    requires
        ls.len() >= 1,
        forall|i: int| 0 <= i < ls.len() ==> free_of(#[trigger] ls[i], d),
    ensures
        split_at_delims(join_with(ls, d), d, d) == ls,
    decreases ls.len(),
{
    if ls.len() == 1 {
        lemma_split_free(ls[0], d, d);
        assert(seq![ls[0]] =~= ls);
    } else {
        assert(forall|i: int| 0 <= i < ls.skip(1).len() ==> ls.skip(1)[i] == ls[i + 1]);
        lemma_split_join(ls.skip(1), d);
        lemma_split_concat(ls[0], d, join_with(ls.skip(1), d), d, d);
        assert(seq![ls[0]] + ls.skip(1) =~= ls);
    }
}

/// Joining after appending one more line appends a separator and the line.
pub proof fn lemma_join_push(ls: Seq<Seq<char>>, x: Seq<char>, d: char)
    requires
        ls.len() >= 1,
    ensures
        join_with(ls.push(x), d) == join_with(ls, d) + seq![d] + x,
    decreases ls.len(),
{
    if ls.len() == 1 {
        assert(ls.push(x).skip(1) =~= seq![x]);
        assert(ls.push(x)[0] == ls[0]);
        assert(join_with(seq![x], d) == x);
        assert(join_with(ls.push(x).skip(1), d) == x);
        assert(join_with(ls, d) == ls[0]);
        assert(join_with(ls.push(x), d) == ls.push(x)[0] + seq![d] + join_with(
            ls.push(x).skip(1),
            d,
        ));
        assert(join_with(ls.push(x), d) =~= join_with(ls, d) + seq![d] + x);
    } else {
        lemma_join_push(ls.skip(1), x, d);
        assert(ls.push(x).skip(1) =~= ls.skip(1).push(x));
        assert(ls.push(x)[0] == ls[0]);
        assert((ls[0] + seq![d] + (join_with(ls.skip(1), d) + seq![d] + x)) =~= ((ls[0] + seq![d]
            + join_with(ls.skip(1), d)) + seq![d] + x));
        assert(join_with(ls.push(x), d) =~= join_with(ls, d) + seq![d] + x);
    }
}

/// `s` starts with the prefix `p`.
pub open spec fn spec_starts_with(s: Seq<char>, p: Seq<char>) -> bool {
    p.len() <= s.len() && s.subrange(0, p.len() as int) == p
}

// ----------------------------------------------------------------------
// Value escaping.
//
// A value stored on one line of a document may itself contain a newline.
// Escaping `\` as `\\` and the newline as `\n` makes every escaped value
// single-line, so the document codecs round-trip every string.
// ----------------------------------------------------------------------

/// The escaped form of one character.
pub open spec fn esc_char(c: char) -> Seq<char> {
    if c == '\\' {
        seq!['\\', '\\']
    } else if c == '\n' {
        seq!['\\', 'n']
    } else {
        seq![c]
    }
}

/// The escaped form of a value.
pub open spec fn escape_seq(s: Seq<char>) -> Seq<char>
    decreases s.len(),
{
    if s.len() == 0 {
        Seq::empty()
    } else {
        esc_char(s[0]) + escape_seq(s.skip(1))
    }
}

/// The value an escaped form denotes.  Total: a backslash before any
/// other character stands for that character, and a trailing lone
/// backslash stands for itself.
pub open spec fn unescape_seq(s: Seq<char>) -> Seq<char>
    decreases s.len(),
{
    if s.len() == 0 {
        Seq::empty()
    } else if s[0] == '\\' && s.len() >= 2 {
        (if s[1] == 'n' {
            seq!['\n']
        } else {
            seq![s[1]]
        }) + unescape_seq(s.skip(2))
    } else {
        seq![s[0]] + unescape_seq(s.skip(1))
    }
}

/// Escaping is inverted by unescaping, and every escaped value is free of
/// newlines — for every string, with no hypothesis.
pub proof fn lemma_unescape_escape(s: Seq<char>)
    ensures
        unescape_seq(escape_seq(s)) == s,
        free_of(escape_seq(s), '\n'),
    decreases s.len(),
{
    if s.len() > 0 {
        lemma_unescape_escape(s.skip(1));
        let c = s[0];
        let e = escape_seq(s);
        let rest = escape_seq(s.skip(1));
        if c == '\\' || c == '\n' {
            assert(e.skip(2) =~= rest);
            assert(e[0] == '\\');
            assert(unescape_seq(e) =~= s);
        } else {
            assert(e.skip(1) =~= rest);
            assert(e[0] == c);
            assert(unescape_seq(e) =~= s);
        }
        assert forall|i: int| 0 <= i < e.len() implies e[i] != '\n' by {
            if i >= esc_char(c).len() {
                assert(e[i] == rest[i - esc_char(c).len()]);
            } else {
                assert(e[i] == esc_char(c)[i]);
            }
        }
    }
}

/// The escaped form grows at the end with the last character's escape.
pub proof fn lemma_escape_snoc(s: Seq<char>)
    requires
        s.len() > 0,
    ensures
        escape_seq(s) == escape_seq(s.drop_last()) + esc_char(s.last()),
    decreases s.len(),
{
    if s.len() == 1 {
        assert(s.skip(1) =~= Seq::<char>::empty());
        assert(s.drop_last() =~= Seq::<char>::empty());
        assert(escape_seq(s.drop_last()) + esc_char(s.last()) =~= esc_char(s[0]) + escape_seq(
            s.skip(1),
        ));
    } else {
        lemma_escape_snoc(s.skip(1));
        assert(s.skip(1).drop_last() =~= s.drop_last().skip(1));
        assert(s.skip(1).last() == s.last());
        assert(s.drop_last()[0] == s[0]);
        assert(s.drop_last().len() > 0);
        assert(esc_char(s[0]) + (escape_seq(s.drop_last().skip(1)) + esc_char(s.last())) =~= (
        esc_char(s[0]) + escape_seq(s.drop_last().skip(1))) + esc_char(s.last()));
    }
}

/// Escapes a value for storage on one document line.
pub fn escape_value(s: &str) -> (r: String)
    ensures
        r@ == escape_seq(s@),
{
    proof {
        reveal_strlit("\\\\");
        reveal_strlit("\\n");
    }
    let len = s.unicode_len();
    let mut r = String::new();
    let mut i: usize = 0;
    proof {
        assert(escape_seq(s@.take(0)) =~= Seq::<char>::empty());
    }
    while i < len
        invariant
            i <= len,
            len == s@.len(),
            r@ == escape_seq(s@.take(i as int)),
            "\\\\"@ == seq!['\\', '\\'],
            "\\n"@ == seq!['\\', 'n'],
        decreases len - i,
    {
        let c = s.get_char(i);
        if c == '\\' {
            r.append("\\\\");
        } else if c == '\n' {
            r.append("\\n");
        } else {
            r.append(s.substring_char(i, i + 1));
            proof {
                assert(s@.subrange(i as int, i as int + 1) =~= seq![s@[i as int]]);
            }
        }
        proof {
            assert(s@.take(i as int + 1).drop_last() =~= s@.take(i as int));
            assert(s@.take(i as int + 1).last() == s@[i as int]);
            lemma_escape_snoc(s@.take(i as int + 1));
        }
        i += 1;
    }
    proof {
        assert(s@.take(len as int) =~= s@);
    }
    r
}

/// Reads a value back from its escaped form.
pub fn unescape_value(s: &str) -> (r: String)
    ensures
        r@ == unescape_seq(s@),
{
    proof {
        reveal_strlit("\n");
    }
    let len = s.unicode_len();
    let mut r = String::new();
    let mut i: usize = 0;
    proof {
        assert(s@.skip(0) =~= s@);
        assert(Seq::<char>::empty() + unescape_seq(s@) =~= unescape_seq(s@));
    }
    while i < len
        invariant
            i <= len,
            len == s@.len(),
            unescape_seq(s@) == r@ + unescape_seq(s@.skip(i as int)),
            "\n"@ == seq!['\n'],
        decreases len - i,
    {
        let ghost sub = s@.skip(i as int);
        proof {
            assert(sub[0] == s@[i as int]);
        }
        let c = s.get_char(i);
        if c == '\\' && i + 1 < len {
            let ghost prev = r@;
            proof {
                assert(sub[1] == s@[i as int + 1]);
                assert(sub.skip(2) =~= s@.skip(i as int + 2));
                assert(sub.len() == len - i);
                assert(unescape_seq(sub) == (if sub[1] == 'n' {
                    seq!['\n']
                } else {
                    seq![sub[1]]
                }) + unescape_seq(sub.skip(2)));
            }
            let d = s.get_char(i + 1);
            if d == 'n' {
                r.append("\n");
                proof {
                    assert((prev + seq!['\n']) + unescape_seq(s@.skip(i as int + 2)) =~= prev + (
                    seq!['\n'] + unescape_seq(s@.skip(i as int + 2))));
                }
            } else {
                r.append(s.substring_char(i + 1, i + 2));
                proof {
                    assert(s@.subrange(i as int + 1, i as int + 2) =~= seq![s@[i as int + 1]]);
                    assert((prev + seq![s@[i as int + 1]]) + unescape_seq(s@.skip(i as int + 2))
                        =~= prev + (seq![s@[i as int + 1]] + unescape_seq(s@.skip(i as int + 2))));
                }
            }
            i += 2;
        } else {
            let ghost prev = r@;
            proof {
                assert(sub.len() == len - i);
                assert(sub.skip(1) =~= s@.skip(i as int + 1));
                assert(unescape_seq(sub) == seq![sub[0]] + unescape_seq(sub.skip(1)));
            }
            r.append(s.substring_char(i, i + 1));
            proof {
                assert(s@.subrange(i as int, i as int + 1) =~= seq![s@[i as int]]);
                assert((prev + seq![s@[i as int]]) + unescape_seq(s@.skip(i as int + 1)) =~= prev
                    + (seq![s@[i as int]] + unescape_seq(s@.skip(i as int + 1))));
            }
            i += 1;
        }
    }
    proof {
        assert(s@.skip(len as int) =~= Seq::<char>::empty());
        assert(r@ + Seq::<char>::empty() =~= r@);
    }
    r
}

/// Splits `s` at every occurrence of `d1` or `d2`.
pub fn split_two(s: &str, d1: char, d2: char) -> (parts: Vec<String>)
    ensures
        views_of(parts@) == split_at_delims(s@, d1, d2),
{
    let len = s.unicode_len();
    let mut parts: Vec<String> = Vec::new();
    let mut start: usize = 0;
    let mut i: usize = 0;
    proof {
        assert(s@.skip(0) =~= s@);
        assert(views_of(parts@) + split_at_delims(s@, d1, d2) =~= split_at_delims(s@, d1, d2));
    }
    while i < len
        invariant
            start <= i <= len,
            len == s@.len(),
            forall|k: int| start <= k < i ==> s@[k] != d1 && s@[k] != d2,
            split_at_delims(s@, d1, d2) == views_of(parts@) + split_at_delims(
                s@.skip(start as int),
                d1,
                d2,
            ),
        decreases len - i,
    {
        let c = s.get_char(i);
        if c == d1 || c == d2 {
            let piece = String::from_str(s.substring_char(start, i));
            proof {
                let a = s@.subrange(start as int, i as int);
                assert(free_of2(a, d1, d2));
                assert(s@.skip(start as int) =~= a + seq![s@[i as int]] + s@.skip(i as int + 1));
                lemma_split_concat(a, s@[i as int], s@.skip(i as int + 1), d1, d2);
                assert(views_of(parts@.push(piece)) =~= views_of(parts@) + seq![a]);
                assert((views_of(parts@) + seq![a]) + split_at_delims(
                    s@.skip(i as int + 1),
                    d1,
                    d2,
                ) =~= views_of(parts@) + (seq![a] + split_at_delims(s@.skip(i as int + 1), d1, d2)));
            }
            parts.push(piece);
            start = i + 1;
        }
        i += 1;
    }
    let piece = String::from_str(s.substring_char(start, len));
    proof {
        let a = s@.skip(start as int);
        assert(a =~= s@.subrange(start as int, len as int));
        assert(free_of2(a, d1, d2));
        lemma_split_free(a, d1, d2);
        assert(views_of(parts@.push(piece)) =~= views_of(parts@) + seq![a]);
    }
    parts.push(piece);
    parts
}

/// Joins the lines with a newline between each pair.
pub fn join_lines(v: &Vec<String>) -> (r: String)
    ensures
        r@ == join_with(views_of(v@), '\n'),
{
    proof {
        reveal_strlit("\n");
    }
    if v.len() == 0 {
        return String::new();
    }
    let mut r = v[0].clone();
    let mut i: usize = 1;
    proof {
        assert(views_of(v@).take(1) =~= seq![v@[0]@]);
    }
    while i < v.len()
        invariant
            1 <= i <= v.len(),
            "\n"@ == seq!['\n'],
            r@ == join_with(views_of(v@).take(i as int), '\n'),
        decreases v.len() - i,
    {
        r.append("\n");
        r.append(v[i].as_str());
        proof {
            lemma_join_push(views_of(v@).take(i as int), v@[i as int]@, '\n');
            assert(views_of(v@).take(i as int + 1) =~= views_of(v@).take(i as int).push(
                v@[i as int]@,
            ));
        }
        i += 1;
    }
    proof {
        assert(views_of(v@).take(v@.len() as int) =~= views_of(v@));
    }
    r
}

/// Whether `s` starts with the prefix `p`.
pub fn starts_with_str(s: &str, p: &str) -> (r: bool)
    ensures
        r == spec_starts_with(s@, p@),
{
    let sl = s.unicode_len();
    let pl = p.unicode_len();
    if pl > sl {
        return false;
    }
    let mut i: usize = 0;
    while i < pl
        invariant
            i <= pl,
            pl <= sl,
            pl == p@.len(),
            sl == s@.len(),
            forall|k: int| 0 <= k < i ==> s@[k] == p@[k],
        decreases pl - i,
    {
        if s.get_char(i) != p.get_char(i) {
            proof {
                assert(s@.subrange(0, p@.len() as int)[i as int] == s@[i as int]);
            }
            return false;
        }
        i += 1;
    }
    proof {
        assert(s@.subrange(0, p@.len() as int) =~= p@);
    }
    true
}

/// Character-for-character equality of two string slices.
pub fn str_eq(a: &str, b: &str) -> (r: bool)
    ensures
        r == (a@ == b@),
{
    let al = a.unicode_len();
    let bl = b.unicode_len();
    if al != bl {
        return false;
    }
    let mut i: usize = 0;
    while i < al
        invariant
            i <= al,
            al == a@.len(),
            al == b@.len(),
            forall|k: int| 0 <= k < i ==> a@[k] == b@[k],
        decreases al - i,
    {
        if a.get_char(i) != b.get_char(i) {
            return false;
        }
        i += 1;
    }
    proof {
        assert(a@ =~= b@);
    }
    true
}

/// The suffix of `s` after its first `n` characters, as an owned string.
pub fn tail_from(s: &str, n: usize) -> (r: String)
    requires
        n <= s@.len(),
    ensures
        r@ == s@.skip(n as int),
{
    let len = s.unicode_len();
    let r = String::from_str(s.substring_char(n, len));
    proof {
        assert(s@.subrange(n as int, s@.len() as int) =~= s@.skip(n as int));
    }
    r
}

} // verus!
