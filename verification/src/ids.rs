//! Assigning ids to headings that have none.

use vstd::prelude::*;

use crate::ast::{Block, Document};
use crate::text::{append_chars, chars_of, string_of};
use crate::words::{join_with, joined_with, split_char, split_on, views};

verus! {

/// A heading that needs an id: the line after which the id goes (0-based),
/// the heading's text, and whether the line is a heading line that has a
/// property drawer.
pub struct IdInsertion {
    pub line: usize,
    pub heading: String,
    pub has_drawer: bool,
}

/// Whether a top-level heading of `bs` stands on the 0-based line `idx` and
/// has a property drawer.
pub open spec fn heading_with_drawer_at(bs: Seq<Block>, idx: int) -> bool {
    exists|k: int| 0 <= k < bs.len() && drawer_heading_at(#[trigger] bs[k], idx)
}

/// Whether a block is a heading on the 0-based line `idx` with a property
/// drawer.
pub open spec fn drawer_heading_at(b: Block, idx: int) -> bool {
    b matches Block::Heading(h) && line_index(h.span.line) == idx && h.properties is Some
}

/// The 0-based line of a 1-based line number.
pub open spec fn line_index(line: u32) -> int {
    if line == 0 {
        0
    } else {
        line - 1
    }
}

/// Where the id of a heading without one goes: after its property drawer's
/// first line if it has a drawer, else after the heading line.
pub open spec fn insertion_line(h: crate::ast::Heading) -> int {
    match h.properties {
        Some(d) => line_index(d.span.line),
        None => line_index(h.span.line),
    }
}

/// Whether a heading has an `id` property.
pub open spec fn has_id(h: crate::ast::Heading) -> bool {
    h.properties matches Some(d) && d.entries.to_map().contains_key("id"@)
}

/// The lines where ids go, for the top-level headings of `bs` without one.
pub open spec fn insertion_lines(bs: Seq<Block>) -> Seq<int>
    decreases bs.len(),
{
    if bs.len() == 0 {
        Seq::empty()
    } else {
        let rest = insertion_lines(bs.drop_last());
        match bs.last() {
            Block::Heading(h) => if !has_id(h) {
                rest.push(insertion_line(h))
            } else {
                rest
            },
            _ => rest,
        }
    }
}

fn drawer_at(blocks: &Vec<Block>, idx: usize) -> (b: bool)
    ensures
        b == heading_with_drawer_at(blocks@, idx as int),
{
    let mut k: usize = 0;
    while k < blocks.len()
        invariant
            k <= blocks@.len(),
            forall|j: int| 0 <= j < k ==> !drawer_heading_at(#[trigger] blocks@[j], idx as int),
        decreases blocks@.len() - k,
    {
        match &blocks[k] {
            Block::Heading(h) => {
                let l = if h.span.line == 0 {
                    0
                } else {
                    (h.span.line - 1) as usize
                };
                if l == idx && h.properties.is_some() {
                    return true;
                }
            },
            _ => {},
        }
        k += 1;
    }
    false
}

/// The top-level headings of a document that lack an `id` property, with
/// where their ids go.
pub fn id_insertions(doc: &Document) -> (r: Vec<IdInsertion>)
    ensures
        r@.map_values(|x: IdInsertion| x.line as int) == insertion_lines(doc.children@),
        forall|i: int|
            0 <= i < r@.len() ==> (#[trigger] r@[i]).has_drawer == heading_with_drawer_at(
                doc.children@,
                r@[i].line as int,
            ),
{
    let blocks = &doc.children;
    let mut out: Vec<IdInsertion> = Vec::new();
    let mut i: usize = 0;
    while i < blocks.len()
        invariant
            i <= blocks@.len(),
            blocks == &doc.children,
            out@.map_values(|x: IdInsertion| x.line as int) == insertion_lines(
                blocks@.take(i as int),
            ),
            forall|k: int|
                0 <= k < out@.len() ==> (#[trigger] out@[k]).has_drawer == heading_with_drawer_at(
                    blocks@,
                    out@[k].line as int,
                ),
        decreases blocks@.len() - i,
    {
        assert(blocks@.take(i + 1).drop_last() =~= blocks@.take(i as int));
        let ghost before = out@.map_values(|x: IdInsertion| x.line as int);
        match &blocks[i] {
            Block::Heading(h) => {
                let with_id = match &h.properties {
                    Some(d) => d.entries.contains_key("id"),
                    None => false,
                };
                if !with_id {
                    let l = match &h.properties {
                        Some(d) => if d.span.line == 0 {
                            0
                        } else {
                            (d.span.line - 1) as usize
                        },
                        None => if h.span.line == 0 {
                            0
                        } else {
                            (h.span.line - 1) as usize
                        },
                    };
                    let has_drawer = drawer_at(blocks, l);
                    out.push(IdInsertion { line: l, heading: h.content.plain_text(), has_drawer });
                    assert(out@.map_values(|x: IdInsertion| x.line as int) =~= before.push(
                        l as int,
                    ));
                }
            },
            _ => {},
        }
        i += 1;
    }
    assert(blocks@.take(blocks@.len() as int) =~= blocks@);
    out
}

/// The lines added after a line for one id: the `id = …` line alone after
/// a property drawer line, else a whole new drawer.
pub open spec fn id_lines(uuid: Seq<char>, has_drawer: bool) -> Seq<Seq<char>> {
    if has_drawer {
        seq!["id = "@ + uuid]
    } else {
        seq![Seq::empty(), "#properties"@, "id = "@ + uuid, "#end"@]
    }
}

/// The lines added after line `i` for the ids placed there, in order.
pub open spec fn added_after(i: int, ins: Seq<(int, Seq<char>, bool)>) -> Seq<Seq<char>>
    decreases ins.len(),
{
    if ins.len() == 0 {
        Seq::empty()
    } else {
        added_after(i, ins.drop_last()) + if ins.last().0 == i {
            id_lines(ins.last().1, ins.last().2)
        } else {
            Seq::empty()
        }
    }
}

/// The lines of the new text: each source line followed by the lines added
/// after it.
pub open spec fn new_lines(ls: Seq<Seq<char>>, ins: Seq<(int, Seq<char>, bool)>) -> Seq<Seq<char>>
    decreases ls.len(),
{
    if ls.len() == 0 {
        Seq::empty()
    } else {
        new_lines(ls.drop_last(), ins) + seq![ls.last()] + added_after(ls.len() - 1, ins)
    }
}

/// The views of a list of (line, uuid, has drawer) insertions.
pub open spec fn insertion_views(ins: Seq<(usize, String, bool)>) -> Seq<(int, Seq<char>, bool)> {
    ins.map_values(|x: (usize, String, bool)| (x.0 as int, x.1@, x.2))
}

fn push_line_text(out: &mut Vec<Vec<char>>, s: &str)
    ensures
        views(final(out)@) == views(old(out)@).push(s@),
{
    let ghost o = views(out@);
    out.push(chars_of(s));
    assert(views(out@) =~= o.push(s@));
}

/// The text of `source` (split at `\n`) with the ids added: `insertions`
/// holds the line after which each id goes, the id, and whether that line
/// opens a property drawer.
pub fn apply_id_insertions(source: &str, insertions: &Vec<(usize, String, bool)>) -> (r: String)
    ensures
        r@ == joined_with(new_lines(split_on(source@, '\n'), insertion_views(insertions@)), '\n'),
{
    let lines = split_char(&chars_of(source), '\n');
    let ghost ls = views(lines@);
    let ghost iv = insertion_views(insertions@);
    let mut out: Vec<Vec<char>> = Vec::new();
    let mut i: usize = 0;
    while i < lines.len()
        invariant
            i <= lines@.len(),
            ls == views(lines@),
            iv == insertion_views(insertions@),
            views(out@) == new_lines(ls.take(i as int), iv),
        decreases lines@.len() - i,
    {
        let ghost pre = views(out@);
        let ghost o1 = views(out@);
        out.push(slice_copy(&lines[i]));
        assert(views(out@) =~= o1.push(ls[i as int]));
        let ghost mid = views(out@);
        let mut k: usize = 0;
        while k < insertions.len()
            invariant
                k <= insertions@.len(),
                iv == insertion_views(insertions@),
                views(out@) == mid + added_after(i as int, iv.take(k as int)),
            decreases insertions@.len() - k,
        {
            proof {
                reveal_strlit("id = ");
                reveal_strlit("");
            }
            assert(iv.take(k + 1).drop_last() =~= iv.take(k as int));
            assert(iv.take(k + 1).last() == (
                insertions@[k as int].0 as int,
                insertions@[k as int].1@,
                insertions@[k as int].2,
            ));
            let ghost before = views(out@);
            if insertions[k].0 == i {
                let mut idl = chars_of("id = ");
                append_chars(&mut idl, &chars_of(insertions[k].1.as_str()));
                if insertions[k].2 {
                    let ghost b = views(out@);
                    out.push(idl);
                    assert(views(out@) =~= b.push("id = "@ + insertions@[k as int].1@));
                    assert(views(out@) =~= before + id_lines(insertions@[k as int].1@, true));
                } else {
                    push_line_text(&mut out, "");
                    push_line_text(&mut out, "#properties");
                    let ghost b = views(out@);
                    out.push(idl);
                    assert(views(out@) =~= b.push("id = "@ + insertions@[k as int].1@));
                    push_line_text(&mut out, "#end");
                    assert(""@ =~= Seq::<char>::empty());
                    assert(views(out@) =~= before + id_lines(insertions@[k as int].1@, false));
                }
            }
            assert(views(out@) =~= before + if insertions@[k as int].0 == i {
                id_lines(insertions@[k as int].1@, insertions@[k as int].2)
            } else {
                Seq::empty()
            });
            assert(views(out@) =~= mid + added_after(i as int, iv.take(k + 1)));
            k += 1;
        }
        assert(iv.take(insertions@.len() as int) =~= iv);
        assert(ls.take(i + 1).drop_last() =~= ls.take(i as int));
        assert(views(out@) =~= new_lines(ls.take(i + 1), iv));
        i += 1;
    }
    assert(ls.take(lines@.len() as int) =~= ls);
    string_of(&join_with(&out, '\n'))
}

fn slice_copy(v: &Vec<char>) -> (r: Vec<char>)
    ensures
        r@ == v@,
{
    let r = crate::text::slice_of(v, 0, v.len());
    assert(v@.subrange(0, v@.len() as int) =~= v@);
    r
}

/// The state a UUID is drawn from: the seed plus the counter, times a
/// multiplier, all modulo 2^128, cut to 64 bits.
pub open spec fn uuid_state(seed: u128, counter: u64) -> u64 {
    (seed.wrapping_add(counter as u128).wrapping_mul(6364136223846793005u128)) as u64
}

/// One xorshift step.
pub open spec fn xorshift(s: u64) -> u64 {
    let a = s ^ (s >> 12u64);
    let b = a ^ (a << 25u64);
    b ^ (b >> 27u64)
}

/// The eight little-endian bytes of `v`.
pub open spec fn le_bytes(v: u64) -> Seq<u8> {
    Seq::new(8, |i: int| ((v >> (8 * i) as u64) & 0xffu64) as u8)
}

/// The sixteen random bytes drawn from a state: two xorshift steps, each
/// scrambled by a multiplier.
pub open spec fn raw_uuid_bytes(s: u64) -> Seq<u8> {
    let x1 = xorshift(s);
    let x2 = xorshift(x1);
    le_bytes(x1.wrapping_mul(0x2545F4914F6CDD1Du64)) + le_bytes(x2.wrapping_mul(0x2545F4914F6CDD1Du64))
}

/// The bytes with the version (4) and variant (RFC 4122) bits set.
pub open spec fn uuid_bytes(s: u64) -> Seq<u8> {
    let b = raw_uuid_bytes(s);
    b.update(6, (b[6] & 0x0Fu8) | 0x40u8).update(8, (b[8] & 0x3Fu8) | 0x80u8)
}

/// A lowercase hexadecimal digit.
pub open spec fn hex_digit(n: int) -> char {
    if n < 10 {
        ((n + 48) as u32) as char
    } else {
        ((n + 87) as u32) as char
    }
}

/// Two lowercase hexadecimal digits of a byte.
pub open spec fn hex_byte(b: u8) -> Seq<char> {
    seq![hex_digit((b / 16) as int), hex_digit((b % 16) as int)]
}

/// The hexadecimal digits of `bs[lo..hi]`.
pub open spec fn hex_run(bs: Seq<u8>, lo: int, hi: int) -> Seq<char>
    decreases hi - lo,
{
    if hi <= lo {
        Seq::empty()
    } else {
        hex_run(bs, lo, hi - 1) + hex_byte(bs[hi - 1])
    }
}

/// The 8-4-4-4-12 text of sixteen bytes.
pub open spec fn uuid_text(bs: Seq<u8>) -> Seq<char> {
    hex_run(bs, 0, 4) + "-"@ + hex_run(bs, 4, 6) + "-"@ + hex_run(bs, 6, 8) + "-"@ + hex_run(
        bs,
        8,
        10,
    ) + "-"@ + hex_run(bs, 10, 16)
}

/// Whether a text has the shape of a version-4 UUID: 36 characters, `-` at
/// positions 8, 13, 18 and 23, lowercase hexadecimal digits elsewhere, `4`
/// at position 14 and one of `89ab` at position 19.
pub open spec fn is_uuid_v4(t: Seq<char>) -> bool {
    &&& t.len() == 36
    &&& forall|i: int|
        0 <= i < 36 ==> (if i == 8 || i == 13 || i == 18 || i == 23 {
            t[i] == '-'
        } else {
            is_hex_lower(#[trigger] t[i])
        })
    &&& t[14] == '4'
    &&& (t[19] == '8' || t[19] == '9' || t[19] == 'a' || t[19] == 'b')
}

/// Whether a character is a lowercase hexadecimal digit.
pub open spec fn is_hex_lower(c: char) -> bool {
    ('0' <= c && c <= '9') || ('a' <= c && c <= 'f')
}

proof fn lemma_hex_run(bs: Seq<u8>, lo: int, hi: int)
    requires
        0 <= lo <= hi <= bs.len(),
    ensures
        hex_run(bs, lo, hi).len() == 2 * (hi - lo),
        forall|k: int|
            0 <= k < 2 * (hi - lo) ==> is_hex_lower(#[trigger] hex_run(bs, lo, hi)[k]),
        forall|j: int|
            lo <= j < hi ==> hex_run(bs, lo, hi)[2 * (j - lo)] == hex_digit((#[trigger] bs[j] / 16) as int),
    decreases hi - lo,
{
    if hi > lo {
        lemma_hex_run(bs, lo, hi - 1);
        let r = hex_run(bs, lo, hi - 1);
        let b = bs[hi - 1];
        assert(0 <= b / 16 < 16 && 0 <= b % 16 < 16);
        assert(is_hex_lower(hex_digit((b / 16) as int)) && is_hex_lower(hex_digit((b % 16) as int)));
        assert forall|k: int| 0 <= k < 2 * (hi - lo) implies is_hex_lower(
            #[trigger] hex_run(bs, lo, hi)[k],
        ) by {
            if k < 2 * (hi - 1 - lo) {
                assert(hex_run(bs, lo, hi)[k] == r[k]);
            }
        }
        assert forall|j: int| lo <= j < hi implies hex_run(bs, lo, hi)[2 * (j - lo)] == hex_digit(
            (#[trigger] bs[j] / 16) as int,
        ) by {
            if j < hi - 1 {
                assert(hex_run(bs, lo, hi)[2 * (j - lo)] == r[2 * (j - lo)]);
            }
        }
    }
}

/// Every generated id has the shape of a version-4 UUID.
pub proof fn lemma_uuid_shape(s: u64)
    ensures
        is_uuid_v4(uuid_text(uuid_bytes(s))),
{
    let bs = uuid_bytes(s);
    let raw = raw_uuid_bytes(s);
    assert(bs.len() == 16);
    lemma_hex_run(bs, 0, 4);
    lemma_hex_run(bs, 4, 6);
    lemma_hex_run(bs, 6, 8);
    lemma_hex_run(bs, 8, 10);
    lemma_hex_run(bs, 10, 16);
    reveal_strlit("-");
    let t = uuid_text(bs);
    let b6 = raw[6];
    let b8 = raw[8];
    assert(((b6 & 0x0Fu8) | 0x40u8) / 16 == 4) by (bit_vector);
    assert(8 <= ((b8 & 0x3Fu8) | 0x80u8) / 16 <= 11) by (bit_vector);
    assert(bs[6] == (b6 & 0x0Fu8) | 0x40u8);
    assert(bs[8] == (b8 & 0x3Fu8) | 0x80u8);
    assert(t[14] == hex_run(bs, 6, 8)[0]);
    assert(t[19] == hex_run(bs, 8, 10)[0]);
    assert(t.len() == 36);
    assert forall|i: int| 0 <= i < 36 implies (if i == 8 || i == 13 || i == 18 || i == 23 {
        t[i] == '-'
    } else {
        is_hex_lower(#[trigger] t[i])
    }) by {
        if i < 8 {
            assert(t[i] == hex_run(bs, 0, 4)[i]);
        } else if i == 8 {
        } else if i < 13 {
            assert(t[i] == hex_run(bs, 4, 6)[i - 9]);
        } else if i == 13 {
        } else if i < 18 {
            assert(t[i] == hex_run(bs, 6, 8)[i - 14]);
        } else if i == 18 {
        } else if i < 23 {
            assert(t[i] == hex_run(bs, 8, 10)[i - 19]);
        } else if i == 23 {
        } else {
            assert(t[i] == hex_run(bs, 10, 16)[i - 24]);
        }
    }
}

fn hex_char(n: u8) -> (c: char)
    requires
        n < 16,
    ensures
        c == hex_digit(n as int),
{
    if n < 10 {
        (n + 48) as char
    } else {
        (n + 87) as char
    }
}

fn push_hex_run(out: &mut Vec<char>, bs: &Vec<u8>, lo: usize, hi: usize)
    requires
        lo <= hi <= bs@.len(),
    ensures
        final(out)@ == old(out)@ + hex_run(bs@, lo as int, hi as int),
{
    let ghost o = out@;
    let mut k = lo;
    while k < hi
        invariant
            lo <= k <= hi <= bs@.len(),
            out@ == o + hex_run(bs@, lo as int, k as int),
        decreases hi - k,
    {
        let b = bs[k];
        out.push(hex_char(b / 16));
        out.push(hex_char(b % 16));
        assert(out@ =~= o + hex_run(bs@, lo as int, k + 1));
        k += 1;
    }
}

fn push_le_bytes(out: &mut Vec<u8>, v: u64)
    ensures
        final(out)@ == old(out)@ + le_bytes(v),
{
    let ghost o = out@;
    let mut i: u64 = 0;
    while i < 8
        invariant
            i <= 8,
            out@ == o + le_bytes(v).take(i as int),
        decreases 8 - i,
    {
        out.push(((v >> (8 * i)) & 0xff) as u8);
        assert(out@ =~= o + le_bytes(v).take(i + 1));
        i += 1;
    }
    assert(le_bytes(v).take(8) =~= le_bytes(v));
}

/// A new id in the 8-4-4-4-12 form of a version-4 UUID, drawn from a seed
/// (the clock) and a counter.
pub fn generate_uuid(seed: u128, counter: u64) -> (r: String)
    ensures
        r@ == uuid_text(uuid_bytes(uuid_state(seed, counter))),
        is_uuid_v4(r@),
{
    let state: u64 = (seed.wrapping_add(counter as u128).wrapping_mul(6364136223846793005u128)) as u64;
    let x1 = state ^ (state >> 12);
    let x1 = x1 ^ (x1 << 25);
    let x1 = x1 ^ (x1 >> 27);
    let x2 = x1 ^ (x1 >> 12);
    let x2 = x2 ^ (x2 << 25);
    let x2 = x2 ^ (x2 >> 27);
    assert(x1 == xorshift(state));
    assert(x2 == xorshift(x1));
    let mut bytes: Vec<u8> = Vec::new();
    push_le_bytes(&mut bytes, x1.wrapping_mul(0x2545F4914F6CDD1D));
    push_le_bytes(&mut bytes, x2.wrapping_mul(0x2545F4914F6CDD1D));
    assert(bytes@ =~= raw_uuid_bytes(state));
    let b6 = (bytes[6] & 0x0F) | 0x40;
    bytes.set(6, b6);
    let b8 = (bytes[8] & 0x3F) | 0x80;
    bytes.set(8, b8);
    assert(bytes@ =~= uuid_bytes(state));
    proof {
        reveal_strlit("-");
        lemma_uuid_shape(state);
    }
    let mut out: Vec<char> = Vec::new();
    push_hex_run(&mut out, &bytes, 0, 4);
    out.push('-');
    push_hex_run(&mut out, &bytes, 4, 6);
    out.push('-');
    push_hex_run(&mut out, &bytes, 6, 8);
    out.push('-');
    push_hex_run(&mut out, &bytes, 8, 10);
    out.push('-');
    push_hex_run(&mut out, &bytes, 10, 16);
    assert(out@ =~= uuid_text(uuid_bytes(state)));
    string_of(&out)
}

} // verus!
