//! The byte image in which a store is written out: one record per stored
//! value, in order, each the key and then the value, and each of those a
//! length as eight little-endian bytes followed by the bytes themselves.
use vstd::prelude::*;
use vstd::slice::{slice_subrange, slice_to_vec};

verus! {

/// A key and one value stored under it.
pub type Pair = (Seq<u8>, Seq<u8>);

/// Width in bytes of a length field.
pub const LEN_BYTES: usize = 8;

/// `n` as eight little-endian bytes.
pub open spec fn u64_le(n: u64) -> Seq<u8> {
    seq![
        n as u8,
        (n >> 8u64) as u8,
        (n >> 16u64) as u8,
        (n >> 24u64) as u8,
        (n >> 32u64) as u8,
        (n >> 40u64) as u8,
        (n >> 48u64) as u8,
        (n >> 56u64) as u8,
    ]
}

pub open spec fn le_bytes(b0: u8, b1: u8, b2: u8, b3: u8, b4: u8, b5: u8, b6: u8, b7: u8) -> u64 {
    (b0 as u64) | ((b1 as u64) << 8u64) | ((b2 as u64) << 16u64) | ((b3 as u64) << 24u64) | ((
    b4 as u64) << 32u64) | ((b5 as u64) << 40u64) | ((b6 as u64) << 48u64) | ((b7 as u64)
        << 56u64)
}

/// The number that eight little-endian bytes at the start of `s` hold.
pub open spec fn le_u64(s: Seq<u8>) -> u64 {
    le_bytes(s[0], s[1], s[2], s[3], s[4], s[5], s[6], s[7])
}

proof fn lemma_le_u64(n: u64)
    ensures
        le_u64(u64_le(n)) == n,
{
    let s = u64_le(n);
    assert(le_bytes(
        n as u8,
        (n >> 8u64) as u8,
        (n >> 16u64) as u8,
        (n >> 24u64) as u8,
        (n >> 32u64) as u8,
        (n >> 40u64) as u8,
        (n >> 48u64) as u8,
        (n >> 56u64) as u8,
    ) == n) by (bit_vector);
}

/// A byte string preceded by its length.
pub open spec fn frame(b: Seq<u8>) -> Seq<u8> {
    u64_le(b.len() as u64) + b
}

/// The image of a sequence of records.
pub open spec fn image_of(ps: Seq<Pair>) -> Seq<u8>
    decreases ps.len(),
{
    if ps.len() == 0 {
        Seq::empty()
    } else {
        frame(ps[0].0) + frame(ps[0].1) + image_of(ps.drop_first())
    }
}

pub open spec fn field_len(b: Seq<u8>, pos: int) -> int {
    le_u64(b.subrange(pos, pos + 8)) as int
}

/// A whole length-prefixed field starts at `pos`.
pub open spec fn field_fits(b: Seq<u8>, pos: int) -> bool {
    0 <= pos && pos + 8 <= b.len() && field_len(b, pos) <= b.len() - (pos + 8)
}

pub open spec fn field_end(b: Seq<u8>, pos: int) -> int {
    pos + 8 + field_len(b, pos)
}

pub open spec fn field(b: Seq<u8>, pos: int) -> Seq<u8> {
    b.subrange(pos + 8, field_end(b, pos))
}

/// The records that `b` holds from `pos` on, or `None` where it does not
/// end in whole records.
pub open spec fn parse_from(b: Seq<u8>, pos: int) -> Option<Seq<Pair>>
    decreases b.len() - pos,
{
    if pos >= b.len() {
        if pos == b.len() {
            Some(Seq::empty())
        } else {
            None
        }
    } else if pos < 0 || !field_fits(b, pos) || !field_fits(b, field_end(b, pos)) {
        None
    } else {
        match parse_from(b, field_end(b, field_end(b, pos))) {
            None => None,
            Some(rest) => Some(seq![(field(b, pos), field(b, field_end(b, pos)))] + rest),
        }
    }
}

/// The records that an image holds, or `None` for bytes that are no image.
pub open spec fn parse_image(b: Seq<u8>) -> Option<Seq<Pair>> {
    parse_from(b, 0)
}

pub open spec fn pairs_view(ps: Seq<(Vec<u8>, Vec<u8>)>) -> Seq<Pair> {
    ps.map_values(|p: (Vec<u8>, Vec<u8>)| (p.0@, p.1@))
}

/// Byte strings whose lengths a length field can hold.
pub open spec fn pairs_fit(ps: Seq<Pair>) -> bool {
    forall|i: int|
        0 <= i < ps.len() ==> (#[trigger] ps[i]).0.len() <= u64::MAX && ps[i].1.len() <= u64::MAX
}

proof fn lemma_parse_suffix(pre: Seq<u8>, ps: Seq<Pair>)
    requires
        pairs_fit(ps),
    ensures
        parse_from(pre + image_of(ps), pre.len() as int) == Some(ps),
    decreases ps.len(),
{
    let b = pre + image_of(ps);
    let pos = pre.len() as int;
    if ps.len() == 0 {
        assert(b =~= pre);
        assert(ps =~= Seq::<Pair>::empty());
    } else {
        let k = ps[0].0;
        let v = ps[0].1;
        let rest = ps.drop_first();
        assert(pairs_fit(rest)) by {
            assert forall|i: int| 0 <= i < rest.len() implies (#[trigger] rest[i]).0.len()
                <= u64::MAX && rest[i].1.len() <= u64::MAX by {
                assert(rest[i] == ps[i + 1]);
            }
        }
        let pre2 = pre + frame(k) + frame(v);
        assert(b =~= pre2 + image_of(rest));
        lemma_le_u64(k.len() as u64);
        lemma_le_u64(v.len() as u64);
        assert(b.subrange(pos, pos + 8) =~= u64_le(k.len() as u64));
        assert(field_len(b, pos) == k.len());
        assert(field(b, pos) =~= k);
        let vpos = field_end(b, pos);
        assert(vpos == pos + 8 + k.len());
        assert(b.subrange(vpos, vpos + 8) =~= u64_le(v.len() as u64));
        assert(field_len(b, vpos) == v.len());
        assert(field(b, vpos) =~= v);
        assert(field_end(b, vpos) == pre2.len());
        lemma_parse_suffix(pre2, rest);
        assert(seq![(k, v)] + rest =~= ps);
    }
}

/// Reading an image back yields the records it was written from.
pub proof fn lemma_image_round_trip(ps: Seq<Pair>)
    requires
        pairs_fit(ps),
    ensures
        parse_image(image_of(ps)) == Some(ps),
{
    lemma_parse_suffix(Seq::empty(), ps);
    assert(Seq::<u8>::empty() + image_of(ps) =~= image_of(ps));
}

/// Appends `n` as eight little-endian bytes.
fn push_u64(out: &mut Vec<u8>, n: u64)
    ensures
        final(out)@ == old(out)@ + u64_le(n),
{
    out.push(n as u8);
    out.push((n >> 8u64) as u8);
    out.push((n >> 16u64) as u8);
    out.push((n >> 24u64) as u8);
    out.push((n >> 32u64) as u8);
    out.push((n >> 40u64) as u8);
    out.push((n >> 48u64) as u8);
    out.push((n >> 56u64) as u8);
    assert(final(out)@ =~= old(out)@ + u64_le(n));
}

/// Appends `b` preceded by its length.
fn push_frame(out: &mut Vec<u8>, b: &[u8])
    ensures
        final(out)@ == old(out)@ + frame(b@),
{
    push_u64(out, b.len() as u64);
    let mut i: usize = 0;
    while i < b.len()
        invariant
            i <= b@.len(),
            out@ == old(out)@ + u64_le(b@.len() as u64) + b@.take(i as int),
        decreases b@.len() - i,
    {
        out.push(b[i]);
        assert(b@.take(i + 1) =~= b@.take(i as int).push(b@[i as int]));
        i = i + 1;
    }
    assert(b@.take(i as int) =~= b@);
    assert(out@ =~= old(out)@ + frame(b@));
}

/// The image of `ps`.
pub fn encode_image(ps: &Vec<(Vec<u8>, Vec<u8>)>) -> (r: Vec<u8>)
    ensures
        r@ == image_of(pairs_view(ps@)),
{
    let ghost all = pairs_view(ps@);
    let mut out: Vec<u8> = Vec::new();
    let mut i: usize = 0;
    assert(all.skip(0) =~= all);
    while i < ps.len()
        invariant
            i <= ps@.len(),
            all == pairs_view(ps@),
            out@ + image_of(all.skip(i as int)) == image_of(all),
        decreases ps@.len() - i,
    {
        let ghost before = out@;
        let ghost tail = all.skip(i as int);
        push_frame(&mut out, ps[i].0.as_slice());
        push_frame(&mut out, ps[i].1.as_slice());
        assert(tail.drop_first() =~= all.skip(i + 1));
        assert(tail[0] == (ps@[i as int].0@, ps@[i as int].1@));
        assert(out@ + image_of(all.skip(i + 1)) =~= before + image_of(tail));
        i = i + 1;
    }
    assert(all.skip(i as int) =~= Seq::<Pair>::empty());
    assert(out@ =~= out@ + image_of(all.skip(i as int)));
    out
}

/// The length field at `pos`.
fn read_u64(b: &[u8], pos: usize) -> (n: u64)
    requires
        pos + 8 <= b@.len(),
    ensures
        n == le_u64(b@.subrange(pos as int, pos + 8)),
{
    let s = Ghost(b@.subrange(pos as int, pos + 8));
    assert(s@[0] == b@[pos as int] && s@[1] == b@[pos + 1] && s@[2] == b@[pos + 2] && s@[3]
        == b@[pos + 3] && s@[4] == b@[pos + 4] && s@[5] == b@[pos + 5] && s@[6] == b@[pos + 6]
        && s@[7] == b@[pos + 7]);
    (b[pos] as u64) | ((b[pos + 1] as u64) << 8u64) | ((b[pos + 2] as u64) << 16u64) | ((b[pos
        + 3] as u64) << 24u64) | ((b[pos + 4] as u64) << 32u64) | ((b[pos + 5] as u64) << 40u64)
        | ((b[pos + 6] as u64) << 48u64) | ((b[pos + 7] as u64) << 56u64)
}

/// Reads the field at `pos`: its bytes and where it ends, or `None` where no
/// whole field starts there.
fn read_field(b: &[u8], pos: usize) -> (r: Option<(Vec<u8>, usize)>)
    requires
        pos <= b@.len(),
    ensures
        match r {
            Some((f, end)) => field_fits(b@, pos as int) && f@ == field(b@, pos as int) && end
                == field_end(b@, pos as int),
            None => !field_fits(b@, pos as int),
        },
{
    if b.len() - pos < LEN_BYTES {
        return None;
    }
    let n = read_u64(b, pos);
    if n > (b.len() - pos - LEN_BYTES) as u64 {
        return None;
    }
    let end = pos + LEN_BYTES + n as usize;
    let f = slice_to_vec(slice_subrange(b, pos + LEN_BYTES, end));
    Some((f, end))
}

/// The records that `b` holds, or `None` for bytes that are no image.
pub fn decode_image(b: &[u8]) -> (r: Option<Vec<(Vec<u8>, Vec<u8>)>>)
    ensures
        parse_image(b@) == match r {
            Some(ps) => Some(pairs_view(ps@)),
            None => None,
        },
{
    let mut acc: Vec<(Vec<u8>, Vec<u8>)> = Vec::new();
    let mut pos: usize = 0;
    while pos < b.len()
        invariant
            pos <= b@.len(),
            parse_image(b@) == match parse_from(b@, pos as int) {
                Some(rest) => Some(pairs_view(acc@) + rest),
                None => None,
            },
        decreases b@.len() - pos,
    {
        assert(pairs_view(acc@) =~= pairs_view(acc@) + Seq::<Pair>::empty());
        let (k, kend) = match read_field(b, pos) {
            Some(x) => x,
            None => return None,
        };
        let (v, vend) = match read_field(b, kend) {
            Some(x) => x,
            None => return None,
        };
        let ghost old_acc = pairs_view(acc@);
        let ghost p = (k@, v@);
        acc.push((k, v));
        proof {
            assert(pairs_view(acc@) =~= old_acc.push(p));
            match parse_from(b@, vend as int) {
                Some(rest) => {
                    assert(old_acc + (seq![p] + rest) =~= pairs_view(acc@) + rest);
                },
                None => {},
            }
        }
        pos = vend;
    }
    assert(pairs_view(acc@) + Seq::<Pair>::empty() =~= pairs_view(acc@));
    Some(acc)
}

} // verus!
