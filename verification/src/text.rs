//! Tokenization of corpus lines: split on whitespace, keep only tokens made
//! entirely of ASCII letters and digits.

use vstd::prelude::*;

verus! {

/// The characters `split_whitespace` separates on (the Unicode whitespace
/// set), by code point.
pub open spec fn is_space(c: char) -> bool {
    let u = c as u32;
    (0x09 <= u && u <= 0x0D) || u == 0x20 || u == 0x85 || u == 0xA0 || u == 0x1680 || (0x2000
        <= u && u <= 0x200A) || u == 0x2028 || u == 0x2029 || u == 0x202F || u == 0x205F || u
        == 0x3000
}

/// ASCII letters and digits: the only characters a surviving token may hold.
pub open spec fn is_word_char(c: char) -> bool {
    let u = c as u32;
    (0x30 <= u && u <= 0x39) || (0x41 <= u && u <= 0x5A) || (0x61 <= u && u <= 0x7A)
}

/// A token survives filtering when every one of its characters is an ASCII
/// letter or digit.
pub open spec fn clean(w: Seq<char>) -> bool {
    forall|k: int| 0 <= k < w.len() ==> is_word_char(w[k])
}

/// One scanning step of whitespace splitting: `cur` is the word being read,
/// `acc` the words already read, `i` the position reached in `s`.
pub open spec fn split_from(s: Seq<char>, i: int, cur: Seq<char>, acc: Seq<Seq<char>>) -> Seq<
    Seq<char>,
>
    decreases s.len() - i,
{
    if i < 0 || i >= s.len() {
        if cur.len() == 0 {
            acc
        } else {
            acc.push(cur)
        }
    } else if is_space(s[i]) {
        if cur.len() == 0 {
            split_from(s, i + 1, cur, acc)
        } else {
            split_from(s, i + 1, Seq::empty(), acc.push(cur))
        }
    } else {
        split_from(s, i + 1, cur.push(s[i]), acc)
    }
}

/// The maximal whitespace-free runs of `s`, in order.
pub open spec fn split_ws(s: Seq<char>) -> Seq<Seq<char>> {
    split_from(s, 0, Seq::empty(), Seq::empty())
}

/// The surviving tokens of a line: whitespace-split, then filtered to the
/// all-alphanumeric words.
pub open spec fn tokens_of(s: Seq<char>) -> Seq<Seq<char>> {
    split_ws(s).filter(|w: Seq<char>| clean(w))
}

fn is_space_exec(c: char) -> (r: bool)
    ensures
        r == is_space(c),
{
    let u = c as u32;
    (0x09 <= u && u <= 0x0D) || u == 0x20 || u == 0x85 || u == 0xA0 || u == 0x1680 || (0x2000
        <= u && u <= 0x200A) || u == 0x2028 || u == 0x2029 || u == 0x202F || u == 0x205F || u
        == 0x3000
}

fn is_word_char_exec(c: char) -> (r: bool)
    ensures
        r == is_word_char(c),
{
    let u = c as u32;
    (0x30 <= u && u <= 0x39) || (0x41 <= u && u <= 0x5A) || (0x61 <= u && u <= 0x7A)
}

/// True when every character of `w` is an ASCII letter or digit.
pub fn is_clean(w: &str) -> (r: bool)
    ensures
        r == clean(w@),
{
    let n = w.unicode_len();
    let mut i: usize = 0;
    while i < n
        invariant
            0 <= i <= n,
            n == w@.len(),
            forall|k: int| 0 <= k < i ==> is_word_char(w@[k]),
        decreases n - i,
    {
        if !is_word_char_exec(w.get_char(i)) {
            return false;
        }
        i += 1;
    }
    true
}

/// Splits `line` on whitespace, returning the maximal whitespace-free runs.
pub fn split_words(line: &str) -> (parts: Vec<String>)
    ensures
        parts.deep_view() == split_ws(line@),
{
    let n = line.unicode_len();
    let mut parts: Vec<String> = Vec::new();
    let mut start: usize = 0;
    let mut i: usize = 0;
    proof {
        assert(line@.subrange(0, 0) =~= Seq::<char>::empty());
        assert(parts.deep_view() =~= Seq::<Seq<char>>::empty());
    }
    while i < n
        invariant
            0 <= start <= i <= n,
            n == line@.len(),
            forall|k: int| start <= k < i ==> !is_space(line@[k]),
            split_ws(line@) == split_from(
                line@,
                i as int,
                line@.subrange(start as int, i as int),
                parts.deep_view(),
            ),
        decreases n - i,
    {
        let ghost cur = line@.subrange(start as int, i as int);
        let ghost acc = parts.deep_view();
        let c = line.get_char(i);
        if is_space_exec(c) {
            if start < i {
                let w = line.substring_char(start, i).to_owned();
                parts.push(w);
                proof {
                    assert(parts.deep_view() =~= acc.push(cur));
                    assert(split_from(line@, i as int, cur, acc) == split_from(
                        line@,
                        i + 1,
                        Seq::<char>::empty(),
                        acc.push(cur),
                    ));
                }
            } else {
                proof {
                    assert(cur =~= Seq::<char>::empty());
                    assert(split_from(line@, i as int, cur, acc) == split_from(
                        line@,
                        i + 1,
                        cur,
                        acc,
                    ));
                }
            }
            start = i + 1;
            proof {
                assert(line@.subrange(start as int, i + 1) =~= Seq::<char>::empty());
            }
        } else {
            proof {
                assert(line@.subrange(start as int, i + 1) =~= cur.push(line@[i as int]));
                assert(split_from(line@, i as int, cur, acc) == split_from(
                    line@,
                    i + 1,
                    cur.push(line@[i as int]),
                    acc,
                ));
            }
        }
        i += 1;
    }
    let ghost cur = line@.subrange(start as int, n as int);
    let ghost acc = parts.deep_view();
    if start < n {
        let w = line.substring_char(start, n).to_owned();
        parts.push(w);
        proof {
            assert(parts.deep_view() =~= acc.push(cur));
        }
    }
    parts
}

/// `filter` of a sequence extended by one element, written out.
proof fn lemma_filter_push(s: Seq<Seq<char>>, x: Seq<char>)
    ensures
        s.push(x).filter(|w: Seq<char>| clean(w)) == if clean(x) {
            s.filter(|w: Seq<char>| clean(w)).push(x)
        } else {
            s.filter(|w: Seq<char>| clean(w))
        },
{
    assert(s.push(x).drop_last() =~= s);
    assert(s.push(x).last() == x);
    reveal_with_fuel(Seq::filter, 2);
}

/// The surviving tokens of `line`: split on whitespace, keep only the words
/// made entirely of ASCII letters and digits.
pub fn tokenize(line: &str) -> (words: Vec<String>)
    ensures
        words.deep_view() == tokens_of(line@),
        forall|k: int| 0 <= k < words.deep_view().len() ==> clean(words.deep_view()[k]),
{
    let parts = split_words(line);
    let ghost all = parts.deep_view();
    let mut words: Vec<String> = Vec::new();
    let mut j: usize = 0;
    while j < parts.len()
        invariant
            0 <= j <= parts.len(),
            all == parts.deep_view(),
            words.deep_view() == all.take(j as int).filter(|w: Seq<char>| clean(w)),
        decreases parts.len() - j,
    {
        let ghost before = words.deep_view();
        if is_clean(parts[j].as_str()) {
            let w = parts[j].clone();
            words.push(w);
            proof {
                assert(words.deep_view() =~= before.push(all[j as int]));
            }
        }
        proof {
            assert(all.take(j + 1).drop_last() =~= all.take(j as int));
            assert(all.take(j + 1).last() == all[j as int]);
            assert(all.take(j + 1) =~= all.take(j as int).push(all[j as int]));
            lemma_filter_push(all.take(j as int), all[j as int]);
        }
        j += 1;
    }
    proof {
        assert(all.take(parts.len() as int) =~= all);
        assert forall|k: int| 0 <= k < words.deep_view().len() implies clean(
            words.deep_view()[k],
        ) by {
            split_ws(line@).lemma_filter_pred(|w: Seq<char>| clean(w), k);
        }
    }
    words
}

} // verus!
