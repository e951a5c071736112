//! Splitting text into words and fields.

use vstd::prelude::*;

use crate::text::{
    count_lead_nonws, find_char, index_of, is_whitespace, is_ws, lead_nonws, skip, slice_of,
};

verus! {

pub proof fn lemma_lead_nonws_bound(s: Seq<char>)
    ensures
        lead_nonws(s) <= s.len(),
        s.len() > 0 && !is_ws(s[0]) ==> lead_nonws(s) >= 1,
    decreases s.len(),
{
    if s.len() > 0 && !is_ws(s[0]) {
        lemma_lead_nonws_bound(s.drop_first());
    }
}

/// `str::split_whitespace`: the maximal runs of non-whitespace characters.
pub open spec fn words(s: Seq<char>) -> Seq<Seq<char>>
    decreases s.len(),
{
    if s.len() == 0 {
        Seq::empty()
    } else if is_ws(s[0]) {
        words(s.drop_first())
    } else {
        let n = lead_nonws(s);
        proof {
            lemma_lead_nonws_bound(s);
        }
        seq![s.take(n as int)] + words(s.skip(n as int))
    }
}

/// The views of a vector of character vectors.
pub open spec fn views(ls: Seq<Vec<char>>) -> Seq<Seq<char>> {
    ls.map_values(|l: Vec<char>| l@)
}

/// `str::split_whitespace`.
pub fn split_whitespace(s: &[char]) -> (r: Vec<Vec<char>>)
    ensures
        views(r@) == words(s@),
{
    let mut out: Vec<Vec<char>> = Vec::new();
    let mut i: usize = 0;
    assert(s@.skip(0) =~= s@);
    assert(views(out@) + words(s@) =~= words(s@));
    while i < s.len()
        invariant
            i <= s.len(),
            views(out@) + words(s@.skip(i as int)) == words(s@),
        decreases s.len() - i,
    {
        let ghost rest = s@.skip(i as int);
        if is_whitespace(s[i]) {
            assert(rest.drop_first() =~= s@.skip(i + 1));
            i += 1;
        } else {
            let tail = skip(s, i);
            let n = count_lead_nonws(&tail);
            proof {
                lemma_lead_nonws_bound(rest);
            }
            let w = slice_of(&tail, 0, n);
            let ghost old_out = views(out@);
            out.push(w);
            assert(rest.skip(n as int) =~= s@.skip(i + n));
            assert(w@ =~= rest.take(n as int));
            assert(views(out@) =~= old_out + seq![w@]);
            assert(words(rest) == seq![rest.take(n as int)] + words(rest.skip(n as int)));
            assert(views(out@) + words(s@.skip(i + n)) =~= old_out + words(rest));
            i += n;
        }
    }
    assert(s@.skip(i as int) =~= Seq::<char>::empty());
    assert(views(out@) + Seq::<Seq<char>>::empty() =~= views(out@));
    out
}

/// `str::split(c)`: the pieces of `s` between occurrences of `c`.
pub open spec fn split_on(s: Seq<char>, c: char) -> Seq<Seq<char>>
    decreases s.len(),
{
    match find_char(s, c) {
        None => seq![s],
        Some(i) => if i < s.len() {
            seq![s.take(i as int)] + split_on(s.skip(i + 1 as int), c)
        } else {
            seq![s]
        },
    }
}

/// `str::split(c)`.
pub fn split_char(s: &[char], c: char) -> (r: Vec<Vec<char>>)
    ensures
        views(r@) == split_on(s@, c),
    decreases s.len(),
{
    match index_of(s, c) {
        None => {
            let mut out: Vec<Vec<char>> = Vec::new();
            out.push(slice_of(s, 0, s.len()));
            assert(s@.subrange(0, s.len() as int) =~= s@);
            assert(views(out@) =~= seq![s@]);
            out
        },
        Some(i) => {
            let head = slice_of(s, 0, i);
            let tail = skip(s, i + 1);
            let rest = split_char(&tail, c);
            let mut out: Vec<Vec<char>> = Vec::new();
            out.push(head);
            let mut k: usize = 0;
            while k < rest.len()
                invariant
                    k <= rest@.len(),
                    views(out@) =~= seq![s@.take(i as int)] + views(rest@).take(k as int),
                decreases rest@.len() - k,
            {
                let piece = slice_of(&rest[k], 0, rest[k].len());
                assert(piece@ =~= rest@[k as int]@);
                let ghost before = out@;
                out.push(piece);
                assert(views(out@) =~= views(before).push(piece@));
                assert(views(rest@).take(k + 1) =~= views(rest@).take(k as int).push(rest@[k as int]@));
                k += 1;
            }
            assert(views(rest@).take(rest@.len() as int) =~= views(rest@));
            out
        },
    }
}

} // verus!

verus! {

/// The pieces joined with `sep` between them.
pub open spec fn joined_with(ls: Seq<Seq<char>>, sep: char) -> Seq<char>
    decreases ls.len(),
{
    if ls.len() == 0 {
        Seq::empty()
    } else if ls.len() == 1 {
        ls[0]
    } else {
        joined_with(ls.drop_last(), sep) + seq![sep] + ls.last()
    }
}

/// The pieces joined with `sep` between them.
pub fn join_with(ls: &Vec<Vec<char>>, sep: char) -> (r: Vec<char>)
    ensures
        r@ == joined_with(views(ls@), sep),
{
    let mut out: Vec<char> = Vec::new();
    let mut i: usize = 0;
    while i < ls.len()
        invariant
            i <= ls@.len(),
            out@ == joined_with(views(ls@.take(i as int)), sep),
        decreases ls@.len() - i,
    {
        let ghost pre = views(ls@.take(i as int));
        if i > 0 {
            out.push(sep);
        }
        crate::text::append_chars(&mut out, &ls[i]);
        proof {
            let next = views(ls@.take(i + 1));
            assert(next.drop_last() =~= pre);
            assert(next.last() == ls@[i as int]@);
            if i == 0 {
                assert(next.len() == 1);
            }
        }
        i += 1;
    }
    assert(ls@.take(ls@.len() as int) =~= ls@);
    out
}

} // verus!
