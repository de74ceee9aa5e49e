use vstd::prelude::*;

verus! {

/// Number of UTF-16 code units a character occupies on the wire: two for
/// characters outside the basic multilingual plane, one otherwise.
pub open spec fn u16_units(c: char) -> nat {
    if c as int >= 0x10000 {
        2
    } else {
        1
    }
}

/// Length of a text in UTF-16 code units, the unit the editor protocol
/// uses for columns and token lengths.
pub open spec fn utf16_len(s: Seq<char>) -> nat
    decreases s.len(),
{
    if s.len() == 0 {
        0
    } else {
        u16_units(s[0]) + utf16_len(s.drop_first())
    }
}

/// The lines of a text, split at every `'\n'`; the separator belongs to no
/// line, so a text of k newlines has k + 1 lines, and a text without a
/// newline is its own single line.
pub open spec fn lines_of(s: Seq<char>) -> Seq<Seq<char>>
    decreases s.len(),
{
    if s.len() == 0 {
        seq![Seq::<char>::empty()]
    } else if s[0] == '\n' {
        seq![Seq::<char>::empty()] + lines_of(s.drop_first())
    } else {
        let rest = lines_of(s.drop_first());
        seq![seq![s[0]] + rest[0]] + rest.drop_first()
    }
}

pub proof fn lemma_lines_nonempty(s: Seq<char>)
    ensures
        lines_of(s).len() >= 1,
    decreases s.len(),
{
    if s.len() != 0 {
        lemma_lines_nonempty(s.drop_first());
    }
}

pub proof fn lemma_utf16_cons(c: char, t: Seq<char>)
    ensures
        utf16_len(seq![c] + t) == u16_units(c) + utf16_len(t),
{
    let s = seq![c] + t;
    assert(s.drop_first() =~= t);
}

pub proof fn lemma_utf16_concat(a: Seq<char>, b: Seq<char>)
    ensures
        utf16_len(a + b) == utf16_len(a) + utf16_len(b),
    decreases a.len(),
{
    if a.len() == 0 {
        assert(a + b =~= b);
    } else {
        lemma_utf16_concat(a.drop_first(), b);
        assert((a + b).drop_first() =~= a.drop_first() + b);
        assert((a + b)[0] == a[0]);
    }
}

pub proof fn lemma_utf16_push(s: Seq<char>, c: char)
    ensures
        utf16_len(s.push(c)) == utf16_len(s) + u16_units(c),
{
    assert(s.push(c) =~= s + seq![c]);
    lemma_utf16_concat(s, seq![c]);
    assert(utf16_len(seq![c]) == u16_units(c)) by {
        assert(seq![c].drop_first() =~= Seq::<char>::empty());
        assert(utf16_len(Seq::<char>::empty()) == 0);
    }
}

/// A prefix of a text never has more UTF-16 units than the whole text.
pub proof fn lemma_utf16_take_le(s: Seq<char>, i: int)
    requires
        0 <= i <= s.len(),
    ensures
        utf16_len(s.take(i)) <= utf16_len(s),
{
    assert(s =~= s.take(i) + s.skip(i));
    lemma_utf16_concat(s.take(i), s.skip(i));
}

/// Every line of a text is at most as long as the text, and the number of
/// line breaks is bounded by the text's UTF-16 length.
pub proof fn lemma_line_bounds(s: Seq<char>)
    ensures
        lines_of(s).len() >= 1,
        lines_of(s).len() - 1 <= utf16_len(s),
        forall|i: int|
            0 <= i < lines_of(s).len() ==> utf16_len(#[trigger] lines_of(s)[i]) <= utf16_len(s),
    decreases s.len(),
{
    lemma_lines_nonempty(s);
    if s.len() == 0 {
    } else {
        let rest = s.drop_first();
        lemma_line_bounds(rest);
        lemma_lines_nonempty(rest);
        if s[0] == '\n' {
            assert forall|i: int| 0 <= i < lines_of(s).len() implies utf16_len(
                #[trigger] lines_of(s)[i],
            ) <= utf16_len(s) by {
                if i > 0 {
                    assert(lines_of(s)[i] == lines_of(rest)[i - 1]);
                }
            }
        } else {
            let lr = lines_of(rest);
            assert forall|i: int| 0 <= i < lines_of(s).len() implies utf16_len(
                #[trigger] lines_of(s)[i],
            ) <= utf16_len(s) by {
                if i == 0 {
                    assert(lines_of(s)[0] == seq![s[0]] + lr[0]);
                    lemma_utf16_cons(s[0], lr[0]);
                } else {
                    assert(lines_of(s)[i] == lr.drop_first()[i - 1]);
                    assert(lr.drop_first()[i - 1] == lr[i]);
                }
            }
        }
    }
}

/// How the line decomposition grows when one character is appended: a
/// newline opens a fresh empty line; any other character extends the last
/// line.
pub proof fn lemma_lines_push(s: Seq<char>, c: char)
    ensures
        c == '\n' ==> lines_of(s.push(c)) =~~= lines_of(s).push(Seq::<char>::empty()),
        c != '\n' ==> lines_of(s.push(c)) =~~= lines_of(s).update(
            lines_of(s).len() - 1,
            lines_of(s).last().push(c),
        ),
    decreases s.len(),
{
    lemma_lines_nonempty(s);
    if s.len() == 0 {
        assert(s.push(c).drop_first() =~= s);
        if c == '\n' {
            assert(s.push(c)[0] == '\n');
        } else {
            assert(s.push(c)[0] == c);
            assert(lines_of(s.push(c)) =~~= seq![seq![c]]);
            assert(lines_of(s).update(0, lines_of(s).last().push(c)) =~~= seq![seq![c]]);
        }
    } else {
        let rest = s.drop_first();
        lemma_lines_nonempty(rest);
        lemma_lines_push(rest, c);
        assert(s.push(c).drop_first() =~~= rest.push(c));
        assert(s.push(c)[0] == s[0]);
        if s[0] == '\n' {
            if c == '\n' {
                assert(lines_of(s.push(c)) =~~= seq![Seq::<char>::empty()] + lines_of(rest).push(
                    Seq::<char>::empty(),
                ));
                assert(lines_of(s).push(Seq::<char>::empty()) =~~= seq![Seq::<char>::empty()]
                    + lines_of(rest).push(Seq::<char>::empty()));
            } else {
                let lr = lines_of(rest);
                assert(lines_of(s.push(c)) =~~= seq![Seq::<char>::empty()] + lr.update(
                    lr.len() - 1,
                    lr.last().push(c),
                ));
                assert(lines_of(s).update(lines_of(s).len() - 1, lines_of(s).last().push(c))
                    =~~= seq![Seq::<char>::empty()] + lr.update(lr.len() - 1, lr.last().push(c)));
            }
        } else {
            let lr = lines_of(rest);
            if c == '\n' {
                let lrp = lr.push(Seq::<char>::empty());
                assert(lrp[0] == lr[0]);
                assert(lrp.drop_first() =~~= lr.drop_first().push(Seq::<char>::empty()));
                assert(lines_of(s.push(c)) =~~= seq![seq![s[0]] + lr[0]] + lr.drop_first().push(
                    Seq::<char>::empty(),
                ));
                assert(lines_of(s).push(Seq::<char>::empty()) =~~= seq![seq![s[0]] + lr[0]]
                    + lr.drop_first().push(Seq::<char>::empty()));
            } else {
                let lru = lr.update(lr.len() - 1, lr.last().push(c));
                if lr.len() == 1 {
                    assert(lru[0] == lr.last().push(c));
                    assert(lines_of(s.push(c)) =~~= seq![seq![s[0]] + lr[0].push(c)]);
                    assert(seq![s[0]] + lr[0].push(c) =~~= (seq![s[0]] + lr[0]).push(c));
                    let ls = lines_of(s);
                    assert(ls =~~= seq![seq![s[0]] + lr[0]]);
                    assert(ls.update(ls.len() - 1, ls.last().push(c)) =~~= seq![
                        (seq![s[0]] + lr[0]).push(c),
                    ]);
                } else {
                    assert(lru[0] == lr[0]);
                    assert(lru.drop_first() =~~= lr.drop_first().update(
                        lr.drop_first().len() - 1,
                        lr.drop_first().last().push(c),
                    ));
                    let ls = lines_of(s);
                    assert(ls =~~= seq![seq![s[0]] + lr[0]] + lr.drop_first());
                    assert(lines_of(s.push(c)) =~~= seq![seq![s[0]] + lru[0]] + lru.drop_first());
                    assert(ls.update(ls.len() - 1, ls.last().push(c)) =~~= seq![seq![s[0]] + lr[0]]
                        + lr.drop_first().update(
                        lr.drop_first().len() - 1,
                        lr.drop_first().last().push(c),
                    ));
                }
            }
        }
    }
}

/// UTF-16 units of one character, computed.
pub fn char_units(c: char) -> (r: u32)
    ensures
        r as nat == u16_units(c),
{
    if c as u32 >= 0x10000 {
        2
    } else {
        1
    }
}

/// Total UTF-16 length of a text, or `None` when it does not fit the
/// protocol's 32-bit coordinate space.
pub fn utf16_len_checked(v: &Vec<char>) -> (r: Option<u32>)
    ensures
        match r {
            Some(n) => n as nat == utf16_len(v@),
            None => utf16_len(v@) > u32::MAX as nat,
        },
{
    let mut acc: u64 = 0;
    let mut i: usize = 0;
    while i < v.len()
        invariant
            0 <= i <= v.len(),
            acc as nat == utf16_len(v@.take(i as int)),
            acc <= u32::MAX as u64,
        decreases v.len() - i,
    {
        let u = char_units(v[i]);
        proof {
            assert(v@.take(i + 1 as int) =~= v@.take(i as int).push(v@[i as int]));
            lemma_utf16_push(v@.take(i as int), v@[i as int]);
        }
        acc = acc + u as u64;
        i = i + 1;
        if acc > u32::MAX as u64 {
            proof {
                lemma_utf16_take_le(v@, i as int);
            }
            return Option::None;
        }
    }
    proof {
        assert(v@.take(v@.len() as int) =~= v@);
    }
    Some(acc as u32)
}

/// UTF-16 length of every line of a text, in order. Powers both gap
/// accounting across embedded newlines and per-line raw-block emission.
pub fn line_utf16_lengths(v: &Vec<char>) -> (r: Vec<u32>)
    requires
        utf16_len(v@) <= u32::MAX as nat,
    ensures
        r@.len() == lines_of(v@).len(),
        forall|i: int| 0 <= i < r@.len() ==> r@[i] as nat == utf16_len(#[trigger] lines_of(v@)[i]),
{
    let mut done: Vec<u32> = Vec::new();
    let mut cur: u32 = 0;
    let mut i: usize = 0;
    proof {
        lemma_lines_nonempty(v@.take(0));
        assert(v@.take(0) =~= Seq::<char>::empty());
    }
    while i < v.len()
        invariant
            0 <= i <= v.len(),
            utf16_len(v@) <= u32::MAX as nat,
            lines_of(v@.take(i as int)).len() == done@.len() + 1,
            forall|j: int|
                0 <= j < done@.len() ==> done@[j] as nat == utf16_len(
                    #[trigger] lines_of(v@.take(i as int))[j],
                ),
            cur as nat == utf16_len(lines_of(v@.take(i as int)).last()),
        decreases v.len() - i,
    {
        let c = v[i];
        let ghost pre = v@.take(i as int);
        let ghost post = v@.take(i + 1 as int);
        proof {
            assert(post =~= pre.push(v@[i as int]));
            lemma_lines_push(pre, v@[i as int]);
            lemma_lines_nonempty(pre);
        }
        if c == '\n' {
            done.push(cur);
            cur = 0;
        } else {
            proof {
                lemma_utf16_push(lines_of(pre).last(), v@[i as int]);
                lemma_line_bounds(post);
                lemma_utf16_take_le(v@, i + 1 as int);
                assert(lines_of(post).last() == lines_of(pre).last().push(v@[i as int]));
                assert(utf16_len(lines_of(post).last()) <= utf16_len(post));
            }
            cur = cur + char_units(c);
        }
        i = i + 1;
    }
    proof {
        assert(v@.take(v@.len() as int) =~= v@);
    }
    done.push(cur);
    done
}

} // verus!
