use vstd::prelude::*;

use crate::error::Error;
use crate::index::Bucket;
use crate::index::bviews_of;
use crate::index::Imdb;
use crate::outside::gunzip_of;
use crate::outside::gzip_compress;
use crate::outside::gzip_decompress;
use crate::title::tbl_wf;
use crate::title::views_of;
use crate::title::Title;
use crate::title::TitleKind;
use crate::title::TitleView;
use vstd::slice::slice_subrange;
use vstd::string::StrSliceExecFns;
use vstd::bytes::lemma_auto_spec_u16_to_from_le_bytes;
use vstd::bytes::lemma_auto_spec_u32_to_from_le_bytes;
use vstd::bytes::lemma_auto_spec_u64_to_from_le_bytes;
use vstd::bytes::spec_u16_from_le_bytes;
use vstd::bytes::spec_u16_to_le_bytes;
use vstd::bytes::spec_u32_from_le_bytes;
use vstd::bytes::spec_u32_to_le_bytes;
use vstd::bytes::spec_u64_from_le_bytes;
use vstd::bytes::spec_u64_to_le_bytes;

use crate::index::BucketView;

verus! {

// ---------------------------------------------------------------------
// The snapshot encoding, little-endian throughout: the record count, the
// records, the bucket count, the buckets. A string is its character count
// followed by one 32-bit scalar value per character; a record is its
// fixed fields, a presence byte for the original title, and its strings;
// a bucket is its tag and its id list.
// ---------------------------------------------------------------------
/// The byte encoding a record category.
pub open spec fn kind_byte(k: TitleKind) -> u8 {
    match k {
        TitleKind::Movie => 0,
        TitleKind::TvMovie => 1,
        TitleKind::Video => 2,
        TitleKind::Short => 3,
    }
}

/// The category a byte decodes to.
pub open spec fn byte_kind(b: u8) -> Option<TitleKind> {
    if b == 0 {
        Some(TitleKind::Movie)
    } else if b == 1 {
        Some(TitleKind::TvMovie)
    } else if b == 2 {
        Some(TitleKind::Video)
    } else if b == 3 {
        Some(TitleKind::Short)
    } else {
        None
    }
}

pub open spec fn enc_chars(s: Seq<char>) -> Seq<u8>
    decreases s.len(),
{
    if s.len() == 0 {
        Seq::empty()
    } else {
        enc_chars(s.drop_last()) + spec_u32_to_le_bytes(s.last() as u32)
    }
}

pub open spec fn enc_str(s: Seq<char>) -> Seq<u8> {
    spec_u64_to_le_bytes(s.len() as u64) + enc_chars(s)
}

pub open spec fn enc_title(t: TitleView) -> Seq<u8> {
    spec_u32_to_le_bytes(t.id) + spec_u16_to_le_bytes(t.year) + spec_u16_to_le_bytes(t.runtime)
        + seq![kind_byte(t.kind)] + seq![
        if t.original_title is Some {
            1u8
        } else {
            0u8
        },
    ] + spec_u32_to_le_bytes(t.votes) + enc_str(t.primary_title) + match t.original_title {
        Some(o) => enc_str(o),
        None => Seq::empty(),
    }
}

pub open spec fn enc_titles(s: Seq<TitleView>) -> Seq<u8>
    decreases s.len(),
{
    if s.len() == 0 {
        Seq::empty()
    } else {
        enc_titles(s.drop_last()) + enc_title(s.last())
    }
}

pub open spec fn enc_ids(s: Seq<u32>) -> Seq<u8>
    decreases s.len(),
{
    if s.len() == 0 {
        Seq::empty()
    } else {
        enc_ids(s.drop_last()) + spec_u32_to_le_bytes(s.last())
    }
}

pub open spec fn enc_bucket(b: BucketView) -> Seq<u8> {
    enc_str(b.tag) + spec_u64_to_le_bytes(b.ids.len() as u64) + enc_ids(b.ids)
}

pub open spec fn enc_buckets(s: Seq<BucketView>) -> Seq<u8>
    decreases s.len(),
{
    if s.len() == 0 {
        Seq::empty()
    } else {
        enc_buckets(s.drop_last()) + enc_bucket(s.last())
    }
}

/// The whole snapshot payload of a record table and its index.
pub open spec fn spec_encode(vs: Seq<TitleView>, bs: Seq<BucketView>) -> Seq<u8> {
    spec_u64_to_le_bytes(vs.len() as u64) + enc_titles(vs) + spec_u64_to_le_bytes(bs.len() as u64)
        + enc_buckets(bs)
}

// ---------------------------------------------------------------------
// The decoder: a cursor-style parser over the payload. Each step yields
// the value and the next position, or nothing for a malformed payload.
// ---------------------------------------------------------------------
pub open spec fn dec_u16_at(b: Seq<u8>, p: int) -> Option<(u16, int)> {
    if 0 <= p && p + 2 <= b.len() {
        Some((spec_u16_from_le_bytes(b.subrange(p, p + 2)), p + 2))
    } else {
        None
    }
}

pub open spec fn dec_u32_at(b: Seq<u8>, p: int) -> Option<(u32, int)> {
    if 0 <= p && p + 4 <= b.len() {
        Some((spec_u32_from_le_bytes(b.subrange(p, p + 4)), p + 4))
    } else {
        None
    }
}

pub open spec fn dec_u64_at(b: Seq<u8>, p: int) -> Option<(u64, int)> {
    if 0 <= p && p + 8 <= b.len() {
        Some((spec_u64_from_le_bytes(b.subrange(p, p + 8)), p + 8))
    } else {
        None
    }
}

pub open spec fn dec_u8_at(b: Seq<u8>, p: int) -> Option<(u8, int)> {
    if 0 <= p && p + 1 <= b.len() {
        Some((b[p], p + 1))
    } else {
        None
    }
}

pub open spec fn dec_char_at(b: Seq<u8>, p: int) -> Option<(char, int)> {
    match dec_u32_at(b, p) {
        None => None,
        Some((v, p2)) => if v < 0xD800 || (0xE000 <= v && v <= 0x10FFFF) {
            Some((v as char, p2))
        } else {
            None
        },
    }
}

pub open spec fn dec_chars_at(b: Seq<u8>, p: int, n: nat) -> Option<(Seq<char>, int)>
    decreases n,
{
    if n == 0 {
        Some((Seq::empty(), p))
    } else {
        match dec_chars_at(b, p, (n - 1) as nat) {
            None => None,
            Some((s, p2)) => match dec_char_at(b, p2) {
                None => None,
                Some((c, p3)) => Some((s.push(c), p3)),
            },
        }
    }
}

pub open spec fn dec_str_at(b: Seq<u8>, p: int) -> Option<(Seq<char>, int)> {
    match dec_u64_at(b, p) {
        None => None,
        Some((n, p2)) => dec_chars_at(b, p2, n as nat),
    }
}

pub open spec fn dec_title_at(b: Seq<u8>, p: int) -> Option<(TitleView, int)> {
    match dec_u32_at(b, p) {
        None => None,
        Some((id, p1)) => match dec_u16_at(b, p1) {
            None => None,
            Some((year, p2)) => match dec_u16_at(b, p2) {
                None => None,
                Some((runtime, p3)) => match dec_u8_at(b, p3) {
                    None => None,
                    Some((kb, p4)) => match byte_kind(kb) {
                        None => None,
                        Some(kind) => match dec_u8_at(b, p4) {
                            None => None,
                            Some((hb, p5)) => if hb > 1 {
                                None
                            } else {
                                match dec_u32_at(b, p5) {
                                    None => None,
                                    Some((votes, p6)) => match dec_str_at(b, p6) {
                                        None => None,
                                        Some((primary, p7)) => if hb == 1 {
                                            match dec_str_at(b, p7) {
                                                None => None,
                                                Some((orig, p8)) => Some(
                                                    (
                                                        TitleView {
                                                            id,
                                                            year,
                                                            runtime,
                                                            primary_title: primary,
                                                            original_title: Some(orig),
                                                            kind,
                                                            votes,
                                                        },
                                                        p8,
                                                    ),
                                                ),
                                            }
                                        } else {
                                            Some(
                                                (
                                                    TitleView {
                                                        id,
                                                        year,
                                                        runtime,
                                                        primary_title: primary,
                                                        original_title: None,
                                                        kind,
                                                        votes,
                                                    },
                                                    p7,
                                                ),
                                            )
                                        },
                                    },
                                }
                            },
                        },
                    },
                },
            },
        },
    }
}

pub open spec fn dec_titles_at(b: Seq<u8>, p: int, n: nat) -> Option<(Seq<TitleView>, int)>
    decreases n,
{
    if n == 0 {
        Some((Seq::empty(), p))
    } else {
        match dec_titles_at(b, p, (n - 1) as nat) {
            None => None,
            Some((s, p2)) => match dec_title_at(b, p2) {
                None => None,
                Some((t, p3)) => Some((s.push(t), p3)),
            },
        }
    }
}

pub open spec fn dec_ids_at(b: Seq<u8>, p: int, n: nat) -> Option<(Seq<u32>, int)>
    decreases n,
{
    if n == 0 {
        Some((Seq::empty(), p))
    } else {
        match dec_ids_at(b, p, (n - 1) as nat) {
            None => None,
            Some((s, p2)) => match dec_u32_at(b, p2) {
                None => None,
                Some((v, p3)) => Some((s.push(v), p3)),
            },
        }
    }
}

pub open spec fn dec_bucket_at(b: Seq<u8>, p: int) -> Option<(BucketView, int)> {
    match dec_str_at(b, p) {
        None => None,
        Some((tag, p1)) => match dec_u64_at(b, p1) {
            None => None,
            Some((n, p2)) => match dec_ids_at(b, p2, n as nat) {
                None => None,
                Some((ids, p3)) => Some((BucketView { tag, ids }, p3)),
            },
        },
    }
}

pub open spec fn dec_buckets_at(b: Seq<u8>, p: int, n: nat) -> Option<(Seq<BucketView>, int)>
    decreases n,
{
    if n == 0 {
        Some((Seq::empty(), p))
    } else {
        match dec_buckets_at(b, p, (n - 1) as nat) {
            None => None,
            Some((s, p2)) => match dec_bucket_at(b, p2) {
                None => None,
                Some((bk, p3)) => Some((s.push(bk), p3)),
            },
        }
    }
}

/// What a snapshot payload decodes to: the record table and the index, or
/// nothing for a malformed or over-long payload.
pub open spec fn spec_decode(b: Seq<u8>) -> Option<(Seq<TitleView>, Seq<BucketView>)> {
    match dec_u64_at(b, 0) {
        None => None,
        Some((nt, p1)) => match dec_titles_at(b, p1, nt as nat) {
            None => None,
            Some((vs, p2)) => match dec_u64_at(b, p2) {
                None => None,
                Some((nb, p3)) => match dec_buckets_at(b, p3, nb as nat) {
                    None => None,
                    Some((bs, p4)) => if p4 == b.len() {
                        Some((vs, bs))
                    } else {
                        None
                    },
                },
            },
        },
    }
}

// ---------------------------------------------------------------------
// Bounds under which a value survives the length fields of the format.
// ---------------------------------------------------------------------
/// A character value that casts to a Unicode scalar and back to itself.
/// Every character a program actually holds is like this; sequence views
/// do not carry that fact by themselves, so the codec states it.
pub open spec fn char_ok(c: char) -> bool {
    &&& ((c as u32) < 0xD800 || (0xE000 <= c as u32 && (c as u32) <= 0x10FFFF))
    &&& ((c as u32) as char) == c
}

pub open spec fn chars_ok(s: Seq<char>) -> bool {
    forall|k: int| 0 <= k < s.len() ==> char_ok(#[trigger] s[k])
}

pub open spec fn str_ok(s: Seq<char>) -> bool {
    s.len() <= u64::MAX && chars_ok(s)
}

pub open spec fn title_ok(t: TitleView) -> bool {
    str_ok(t.primary_title) && match t.original_title {
        Some(o) => str_ok(o),
        None => true,
    }
}

pub open spec fn bucket_ok(b: BucketView) -> bool {
    str_ok(b.tag) && b.ids.len() <= u64::MAX
}

pub open spec fn encode_ok(vs: Seq<TitleView>, bs: Seq<BucketView>) -> bool {
    &&& vs.len() <= u64::MAX
    &&& forall|i: int| 0 <= i < vs.len() ==> title_ok(#[trigger] vs[i])
    &&& bs.len() <= u64::MAX
    &&& forall|i: int| 0 <= i < bs.len() ==> bucket_ok(#[trigger] bs[i])
}


// ---------------------------------------------------------------------
// Decoding inverts encoding: each lemma reads one encoded component back
// out of a byte string that holds it.
// ---------------------------------------------------------------------
proof fn lemma_enc_chars_len(s: Seq<char>)
    ensures
        enc_chars(s).len() == 4 * s.len(),
    decreases s.len(),
{
    lemma_auto_spec_u32_to_from_le_bytes();
    if s.len() > 0 {
        lemma_enc_chars_len(s.drop_last());
    }
}

proof fn lemma_enc_ids_len(s: Seq<u32>)
    ensures
        enc_ids(s).len() == 4 * s.len(),
    decreases s.len(),
{
    lemma_auto_spec_u32_to_from_le_bytes();
    if s.len() > 0 {
        lemma_enc_ids_len(s.drop_last());
    }
}

proof fn lemma_dec_u64(b: Seq<u8>, p: int, x: u64)
    requires
        0 <= p,
        p + 8 <= b.len(),
        b.subrange(p, p + 8) == spec_u64_to_le_bytes(x),
    ensures
        dec_u64_at(b, p) == Some((x, p + 8)),
{
    lemma_auto_spec_u64_to_from_le_bytes();
    assert(spec_u64_to_le_bytes(x).len() == 8);
    assert(spec_u64_from_le_bytes(spec_u64_to_le_bytes(x)) == x);
}

proof fn lemma_dec_u32(b: Seq<u8>, p: int, x: u32)
    requires
        0 <= p,
        p + 4 <= b.len(),
        b.subrange(p, p + 4) == spec_u32_to_le_bytes(x),
    ensures
        dec_u32_at(b, p) == Some((x, p + 4)),
{
    lemma_auto_spec_u32_to_from_le_bytes();
    assert(spec_u32_to_le_bytes(x).len() == 4);
    assert(spec_u32_from_le_bytes(spec_u32_to_le_bytes(x)) == x);
}

proof fn lemma_dec_u16(b: Seq<u8>, p: int, x: u16)
    requires
        0 <= p,
        p + 2 <= b.len(),
        b.subrange(p, p + 2) == spec_u16_to_le_bytes(x),
    ensures
        dec_u16_at(b, p) == Some((x, p + 2)),
{
    lemma_auto_spec_u16_to_from_le_bytes();
    assert(spec_u16_to_le_bytes(x).len() == 2);
    assert(spec_u16_from_le_bytes(spec_u16_to_le_bytes(x)) == x);
}

proof fn lemma_dec_chars(b: Seq<u8>, p: int, s: Seq<char>)
    requires
        chars_ok(s),
        0 <= p,
        p + 4 * s.len() <= b.len(),
        b.subrange(p, p + 4 * s.len()) == enc_chars(s),
    ensures
        dec_chars_at(b, p, s.len()) == Some((s, p + 4 * s.len())),
    decreases s.len(),
{
    if s.len() > 0 {
        let s0 = s.drop_last();
        let l1 = 4 * s0.len();
        lemma_enc_chars_len(s0);
        lemma_auto_spec_u32_to_from_le_bytes();
        assert(chars_ok(s0)) by {
            assert(forall|k: int| 0 <= k < s0.len() ==> s0[k] == s[k] && char_ok(#[trigger] s0[k]));
        }
        assert(b.subrange(p, p + l1) =~= enc_chars(s0)) by {
            assert(enc_chars(s) == enc_chars(s0) + spec_u32_to_le_bytes(s.last() as u32));
            assert forall|k: int| 0 <= k < l1 implies #[trigger] b.subrange(p, p + l1)[k]
                == enc_chars(s0)[k] by {
                assert(b.subrange(p, p + 4 * s.len())[k] == enc_chars(s)[k]);
            }
        }
        lemma_dec_chars(b, p, s0);
        assert(b.subrange(p + l1, p + l1 + 4) =~= spec_u32_to_le_bytes(s.last() as u32)) by {
            assert(enc_chars(s) == enc_chars(s0) + spec_u32_to_le_bytes(s.last() as u32));
            assert forall|k: int| 0 <= k < 4 implies #[trigger] b.subrange(p + l1, p + l1 + 4)[k]
                == spec_u32_to_le_bytes(s.last() as u32)[k] by {
                assert(b.subrange(p, p + 4 * s.len())[l1 + k] == enc_chars(s)[l1 + k]);
            }
        }
        let c: char = s.last();
        assert(char_ok(c));
        lemma_dec_u32(b, p + l1, c as u32);
        let v = c as u32;
        assert(dec_u32_at(b, p + l1) == Some((v, p + l1 + 4)));
        assert(v < 0xD800 || (0xE000 <= v && v <= 0x10FFFF));
        assert(v as char == c);
        assert(dec_char_at(b, p + l1) == Some((c, p + l1 + 4)));
        assert((s.len() - 1) as nat == s0.len());
        assert(dec_chars_at(b, p, s.len()) == Some((s0.push(s.last()), p + l1 + 4)));
        assert(s0.push(s.last()) =~= s);
    }
}

proof fn lemma_dec_str(b: Seq<u8>, p: int, s: Seq<char>)
    requires
        str_ok(s),
        0 <= p,
        p + enc_str(s).len() <= b.len(),
        b.subrange(p, p + enc_str(s).len()) == enc_str(s),
    ensures
        dec_str_at(b, p) == Some((s, p + enc_str(s).len())),
        enc_str(s).len() == 8 + 4 * s.len(),
{
    lemma_enc_chars_len(s);
    lemma_auto_spec_u64_to_from_le_bytes();
    let el = enc_str(s).len() as int;
    assert(el == 8 + 4 * s.len());
    assert(b.subrange(p, p + 8) =~= spec_u64_to_le_bytes(s.len() as u64)) by {
        assert forall|k: int| 0 <= k < 8 implies #[trigger] b.subrange(p, p + 8)[k]
            == spec_u64_to_le_bytes(s.len() as u64)[k] by {
            assert(b.subrange(p, p + el)[k] == enc_str(s)[k]);
        }
    }
    lemma_dec_u64(b, p, s.len() as u64);
    assert(b.subrange(p + 8, p + 8 + 4 * s.len()) =~= enc_chars(s)) by {
        assert forall|k: int| 0 <= k < 4 * s.len() implies #[trigger] b.subrange(
            p + 8,
            p + 8 + 4 * s.len(),
        )[k] == enc_chars(s)[k] by {
            assert(b.subrange(p, p + el)[8 + k] == enc_str(s)[8 + k]);
        }
    }
    lemma_dec_chars(b, p + 8, s);
    assert((s.len() as u64) as nat == s.len());
}

/// Carves the component starting at offset `q` within the encoding of a
/// larger component: a helper equality used by every composite lemma.
proof fn lemma_carve(b: Seq<u8>, p: int, whole: Seq<u8>, q: int, part: Seq<u8>)
    requires
        0 <= p,
        p + whole.len() <= b.len(),
        b.subrange(p, p + whole.len()) == whole,
        0 <= q,
        q + part.len() <= whole.len(),
        whole.subrange(q, q + part.len()) == part,
    ensures
        b.subrange(p + q, p + q + part.len()) == part,
{
    assert(b.subrange(p + q, p + q + part.len()) =~= part) by {
        assert forall|k: int| 0 <= k < part.len() implies #[trigger] b.subrange(
            p + q,
            p + q + part.len(),
        )[k] == part[k] by {
            assert(b.subrange(p, p + whole.len())[q + k] == whole[q + k]);
            assert(whole.subrange(q, q + part.len())[k] == part[k]);
        }
    }
}

proof fn lemma_dec_title(b: Seq<u8>, p: int, t: TitleView)
    requires
        title_ok(t),
        0 <= p,
        p + enc_title(t).len() <= b.len(),
        b.subrange(p, p + enc_title(t).len()) == enc_title(t),
    ensures
        dec_title_at(b, p) == Some((t, p + enc_title(t).len())),
{
    let e = enc_title(t);
    let ps = enc_str(t.primary_title);
    let os = match t.original_title {
        Some(o) => enc_str(o),
        None => Seq::<u8>::empty(),
    };
    let hb: u8 = if t.original_title is Some {
        1u8
    } else {
        0u8
    };
    lemma_enc_chars_len(t.primary_title);
    lemma_auto_spec_u16_to_from_le_bytes();
    lemma_auto_spec_u32_to_from_le_bytes();
    lemma_auto_spec_u64_to_from_le_bytes();
    assert(spec_u32_to_le_bytes(t.id).len() == 4);
    assert(spec_u16_to_le_bytes(t.year).len() == 2);
    assert(spec_u16_to_le_bytes(t.runtime).len() == 2);
    assert(spec_u32_to_le_bytes(t.votes).len() == 4);
    assert(spec_u64_to_le_bytes(t.primary_title.len() as u64).len() == 8);
    match t.original_title {
        Some(o) => {
            assert(spec_u64_to_le_bytes(o.len() as u64).len() == 8);
            lemma_enc_chars_len(o);
        },
        None => {},
    }
    assert(e.len() == 14 + ps.len() + os.len());
    assert(e.subrange(0, 4) =~= spec_u32_to_le_bytes(t.id));
    lemma_carve(b, p, e, 0, spec_u32_to_le_bytes(t.id));
    lemma_dec_u32(b, p, t.id);
    assert(e.subrange(4, 6) =~= spec_u16_to_le_bytes(t.year));
    lemma_carve(b, p, e, 4, spec_u16_to_le_bytes(t.year));
    lemma_dec_u16(b, p + 4, t.year);
    assert(e.subrange(6, 8) =~= spec_u16_to_le_bytes(t.runtime));
    lemma_carve(b, p, e, 6, spec_u16_to_le_bytes(t.runtime));
    lemma_dec_u16(b, p + 6, t.runtime);
    assert(e.subrange(8, 9) =~= seq![kind_byte(t.kind)]);
    lemma_carve(b, p, e, 8, seq![kind_byte(t.kind)]);
    assert(b.subrange(p + 8, p + 9)[0] == kind_byte(t.kind));
    assert(b[p + 8] == kind_byte(t.kind));
    assert(dec_u8_at(b, p + 8) == Some((kind_byte(t.kind), p + 9)));
    assert(byte_kind(kind_byte(t.kind)) == Some(t.kind));
    assert(e.subrange(9, 10) =~= seq![hb]);
    lemma_carve(b, p, e, 9, seq![hb]);
    assert(b.subrange(p + 9, p + 10)[0] == hb);
    assert(b[p + 9] == hb);
    assert(e.subrange(10, 14) =~= spec_u32_to_le_bytes(t.votes));
    lemma_carve(b, p, e, 10, spec_u32_to_le_bytes(t.votes));
    lemma_dec_u32(b, p + 10, t.votes);
    assert(e.subrange(14, 14 + ps.len() as int) =~= ps);
    lemma_carve(b, p, e, 14, ps);
    lemma_dec_str(b, p + 14, t.primary_title);
    match t.original_title {
        Some(o) => {
            lemma_enc_chars_len(o);
            assert(e.subrange(14 + ps.len() as int, 14 + ps.len() + os.len() as int) =~= os);
            lemma_carve(b, p, e, 14 + ps.len() as int, os);
            lemma_dec_str(b, p + 14 + ps.len() as int, o);
        },
        None => {},
    }
}

proof fn lemma_dec_titles(b: Seq<u8>, p: int, vs: Seq<TitleView>)
    requires
        forall|i: int| 0 <= i < vs.len() ==> title_ok(#[trigger] vs[i]),
        0 <= p,
        p + enc_titles(vs).len() <= b.len(),
        b.subrange(p, p + enc_titles(vs).len()) == enc_titles(vs),
    ensures
        dec_titles_at(b, p, vs.len()) == Some((vs, p + enc_titles(vs).len())),
    decreases vs.len(),
{
    if vs.len() > 0 {
        let v0 = vs.drop_last();
        let e = enc_titles(vs);
        let e0 = enc_titles(v0);
        let et = enc_title(vs.last());
        assert(e == e0 + et);
        assert(e.subrange(0, e0.len() as int) =~= e0);
        lemma_carve(b, p, e, 0, e0);
        lemma_dec_titles(b, p, v0);
        assert(e.subrange(e0.len() as int, e0.len() + et.len() as int) =~= et);
        lemma_carve(b, p, e, e0.len() as int, et);
        lemma_dec_title(b, p + e0.len() as int, vs.last());
        assert(v0.push(vs.last()) =~= vs);
    }
}

proof fn lemma_dec_ids(b: Seq<u8>, p: int, s: Seq<u32>)
    requires
        0 <= p,
        p + 4 * s.len() <= b.len(),
        b.subrange(p, p + 4 * s.len()) == enc_ids(s),
    ensures
        dec_ids_at(b, p, s.len()) == Some((s, p + 4 * s.len())),
    decreases s.len(),
{
    if s.len() > 0 {
        let s0 = s.drop_last();
        let l1: int = 4 * s0.len() as int;
        lemma_enc_ids_len(s0);
        lemma_auto_spec_u32_to_from_le_bytes();
        let e = enc_ids(s);
        let et = spec_u32_to_le_bytes(s.last());
        assert(e == enc_ids(s0) + et);
        lemma_enc_ids_len(s);
        assert(e.subrange(0, l1) =~= enc_ids(s0));
        lemma_carve(b, p, e, 0, enc_ids(s0));
        lemma_dec_ids(b, p, s0);
        assert(e.subrange(l1, l1 + 4) =~= et);
        lemma_carve(b, p, e, l1, et);
        lemma_dec_u32(b, p + l1, s.last());
        assert(s0.push(s.last()) =~= s);
    }
}

proof fn lemma_dec_bucket(b: Seq<u8>, p: int, bk: BucketView)
    requires
        bucket_ok(bk),
        0 <= p,
        p + enc_bucket(bk).len() <= b.len(),
        b.subrange(p, p + enc_bucket(bk).len()) == enc_bucket(bk),
    ensures
        dec_bucket_at(b, p) == Some((bk, p + enc_bucket(bk).len())),
{
    let e = enc_bucket(bk);
    let ts = enc_str(bk.tag);
    lemma_enc_chars_len(bk.tag);
    lemma_enc_ids_len(bk.ids);
    lemma_auto_spec_u64_to_from_le_bytes();
    assert(spec_u64_to_le_bytes(bk.tag.len() as u64).len() == 8);
    assert(spec_u64_to_le_bytes(bk.ids.len() as u64).len() == 8);
    assert(e.len() == ts.len() + 8 + 4 * bk.ids.len());
    assert(e.subrange(0, ts.len() as int) =~= ts);
    lemma_carve(b, p, e, 0, ts);
    lemma_dec_str(b, p, bk.tag);
    assert(e.subrange(ts.len() as int, ts.len() as int + 8) =~= spec_u64_to_le_bytes(
        bk.ids.len() as u64,
    ));
    lemma_carve(b, p, e, ts.len() as int, spec_u64_to_le_bytes(bk.ids.len() as u64));
    lemma_dec_u64(b, p + ts.len() as int, bk.ids.len() as u64);
    assert(e.subrange(ts.len() as int + 8, ts.len() + 8 + 4 * bk.ids.len() as int) =~= enc_ids(bk.ids));
    lemma_carve(b, p, e, ts.len() as int + 8, enc_ids(bk.ids));
    lemma_dec_ids(b, p + ts.len() as int + 8, bk.ids);
    assert((bk.ids.len() as u64) as nat == bk.ids.len());
}

proof fn lemma_dec_buckets(b: Seq<u8>, p: int, bs: Seq<BucketView>)
    requires
        forall|i: int| 0 <= i < bs.len() ==> bucket_ok(#[trigger] bs[i]),
        0 <= p,
        p + enc_buckets(bs).len() <= b.len(),
        b.subrange(p, p + enc_buckets(bs).len()) == enc_buckets(bs),
    ensures
        dec_buckets_at(b, p, bs.len()) == Some((bs, p + enc_buckets(bs).len())),
    decreases bs.len(),
{
    if bs.len() > 0 {
        let b0 = bs.drop_last();
        let e = enc_buckets(bs);
        let e0 = enc_buckets(b0);
        let et = enc_bucket(bs.last());
        assert(e == e0 + et);
        assert(e.subrange(0, e0.len() as int) =~= e0);
        lemma_carve(b, p, e, 0, e0);
        lemma_dec_buckets(b, p, b0);
        assert(e.subrange(e0.len() as int, e0.len() + et.len() as int) =~= et);
        lemma_carve(b, p, e, e0.len() as int, et);
        lemma_dec_bucket(b, p + e0.len() as int, bs.last());
        assert(b0.push(bs.last()) =~= bs);
    }
}

/// The persistence round trip: any blob `save` can produce decompresses
/// to the exact encoding of what was saved, and decoding inverts
/// encoding, so `load_index` on that blob rebuilds precisely the record
/// table and bucket contents that went in. (The bounds asked for here
/// hold of the views of any engine a program actually built.)
pub proof fn lemma_snapshot_round_trip(vs: Seq<TitleView>, bs: Seq<BucketView>, z: Seq<u8>)
    requires
        encode_ok(vs, bs),
        gunzip_of(z) == Some(spec_encode(vs, bs)),
    ensures
        gunzip_of(z) matches Some(raw) && spec_decode(raw) == Some((vs, bs)),
{
    lemma_codec_round_trip(vs, bs);
}

/// Decoding a snapshot yields back exactly the record table and index it
/// was encoded from: the persistence format loses nothing.
pub proof fn lemma_codec_round_trip(vs: Seq<TitleView>, bs: Seq<BucketView>)
    requires
        encode_ok(vs, bs),
    ensures
        spec_decode(spec_encode(vs, bs)) == Some((vs, bs)),
{
    let b = spec_encode(vs, bs);
    let e1 = spec_u64_to_le_bytes(vs.len() as u64);
    let e2 = enc_titles(vs);
    let e3 = spec_u64_to_le_bytes(bs.len() as u64);
    let e4 = enc_buckets(bs);
    lemma_auto_spec_u64_to_from_le_bytes();
    assert(b == e1 + e2 + e3 + e4);
    assert(b.len() == 8 + e2.len() + 8 + e4.len());
    assert(b.subrange(0, b.len() as int) =~= b);
    assert(b.subrange(0, 8) =~= e1);
    lemma_dec_u64(b, 0, vs.len() as u64);
    assert((vs.len() as u64) as nat == vs.len());
    assert(b.subrange(8, 8 + e2.len() as int) =~= e2);
    lemma_dec_titles(b, 8, vs);
    let p2 = 8 + e2.len() as int;
    assert(b.subrange(p2, p2 + 8) =~= e3);
    lemma_dec_u64(b, p2, bs.len() as u64);
    assert((bs.len() as u64) as nat == bs.len());
    let p3 = p2 + 8;
    assert(b.subrange(p3, p3 + e4.len() as int) =~= e4);
    lemma_dec_buckets(b, p3, bs);
}


// ---------------------------------------------------------------------
// The writer.
// ---------------------------------------------------------------------
fn put_u16(out: &mut Vec<u8>, x: u16)
    ensures
        final(out)@ == old(out)@ + spec_u16_to_le_bytes(x),
{
    let mut b = vstd::bytes::u16_to_le_bytes(x);
    out.append(&mut b);
}

fn put_u32(out: &mut Vec<u8>, x: u32)
    ensures
        final(out)@ == old(out)@ + spec_u32_to_le_bytes(x),
{
    let mut b = vstd::bytes::u32_to_le_bytes(x);
    out.append(&mut b);
}

fn put_u64(out: &mut Vec<u8>, x: u64)
    ensures
        final(out)@ == old(out)@ + spec_u64_to_le_bytes(x),
{
    let mut b = vstd::bytes::u64_to_le_bytes(x);
    out.append(&mut b);
}

#[verifier::loop_isolation(false)]
fn put_str(out: &mut Vec<u8>, s: &str)
    ensures
        final(out)@ == old(out)@ + enc_str(s@),
{
    let n = s.unicode_len();
    put_u64(out, n as u64);
    let ghost base = out@;
    let mut i: usize = 0;
    proof {
        assert(enc_chars(s@.take(0)) =~= Seq::<u8>::empty());
        assert(out@ =~= base + enc_chars(s@.take(0)));
    }
    while i < n
        invariant
            n == s@.len(),
            i <= n,
            out@ == base + enc_chars(s@.take(i as int)),
        decreases n - i,
    {
        let c = s.get_char(i);
        proof {
            assert(s@.take(i as int + 1).drop_last() =~= s@.take(i as int));
            assert(s@.take(i as int + 1).last() == s@[i as int]);
        }
        let ghost before = out@;
        put_u32(out, c as u32);
        proof {
            assert(out@ =~= base + enc_chars(s@.take(i as int + 1)));
        }
        i += 1;
    }
    proof {
        assert(s@.take(n as int) =~= s@);
        assert(out@ =~= old(out)@ + enc_str(s@));
    }
}

#[verifier::loop_isolation(false)]
fn put_title(out: &mut Vec<u8>, t: &Title)
    ensures
        final(out)@ == old(out)@ + enc_title(t@),
{
    put_u32(out, t.id);
    put_u16(out, t.year);
    put_u16(out, t.runtime);
    let kb: u8 = match t.kind {
        TitleKind::Movie => 0,
        TitleKind::TvMovie => 1,
        TitleKind::Video => 2,
        TitleKind::Short => 3,
    };
    out.push(kb);
    proof {
        assert(kb == kind_byte(t@.kind));
    }
    let hb: u8 = match t.original_title {
        Some(_) => 1,
        None => 0,
    };
    out.push(hb);
    put_u32(out, t.votes);
    put_str(out, t.primary_title.as_str());
    match t.original_title {
        Some(ref o) => {
            put_str(out, o.as_str());
        },
        None => {},
    }
    proof {
        assert(out@ =~= old(out)@ + enc_title(t@));
    }
}

#[verifier::loop_isolation(false)]
fn put_bucket(out: &mut Vec<u8>, b: &Bucket)
    ensures
        final(out)@ == old(out)@ + enc_bucket(b@),
{
    put_str(out, b.tag.as_str());
    put_u64(out, b.ids.len() as u64);
    let ghost base = out@;
    let n = b.ids.len();
    let mut i: usize = 0;
    proof {
        assert(enc_ids(b.ids@.take(0)) =~= Seq::<u8>::empty());
        assert(out@ =~= base + enc_ids(b.ids@.take(0)));
    }
    while i < n
        invariant
            n == b.ids@.len(),
            i <= n,
            out@ == base + enc_ids(b.ids@.take(i as int)),
        decreases n - i,
    {
        proof {
            assert(b.ids@.take(i as int + 1).drop_last() =~= b.ids@.take(i as int));
            assert(b.ids@.take(i as int + 1).last() == b.ids@[i as int]);
        }
        put_u32(out, b.ids[i]);
        proof {
            assert(out@ =~= base + enc_ids(b.ids@.take(i as int + 1)));
        }
        i += 1;
    }
    proof {
        assert(b.ids@.take(n as int) =~= b.ids@);
        assert(out@ =~= old(out)@ + enc_bucket(b@));
    }
}

// ---------------------------------------------------------------------
// The reader.
// ---------------------------------------------------------------------
fn rd_u8(b: &Vec<u8>, p: usize) -> (r: Option<(u8, usize)>)
    ensures
        match r {
            Some((x, p2)) => dec_u8_at(b@, p as int) == Some((x, p2 as int)) && p2 <= b@.len(),
            None => dec_u8_at(b@, p as int) is None,
        },
{
    if p < b.len() {
        Some((b[p], p + 1))
    } else {
        None
    }
}

fn rd_u16(b: &Vec<u8>, p: usize) -> (r: Option<(u16, usize)>)
    ensures
        match r {
            Some((x, p2)) => dec_u16_at(b@, p as int) == Some((x, p2 as int)) && p2 <= b@.len(),
            None => dec_u16_at(b@, p as int) is None,
        },
{
    if p <= b.len() && b.len() - p >= 2 {
        let x = vstd::bytes::u16_from_le_bytes(slice_subrange(b.as_slice(), p, p + 2));
        Some((x, p + 2))
    } else {
        None
    }
}

fn rd_u32(b: &Vec<u8>, p: usize) -> (r: Option<(u32, usize)>)
    ensures
        match r {
            Some((x, p2)) => dec_u32_at(b@, p as int) == Some((x, p2 as int)) && p2 <= b@.len(),
            None => dec_u32_at(b@, p as int) is None,
        },
{
    if p <= b.len() && b.len() - p >= 4 {
        let x = vstd::bytes::u32_from_le_bytes(slice_subrange(b.as_slice(), p, p + 4));
        Some((x, p + 4))
    } else {
        None
    }
}

fn rd_u64(b: &Vec<u8>, p: usize) -> (r: Option<(u64, usize)>)
    ensures
        match r {
            Some((x, p2)) => dec_u64_at(b@, p as int) == Some((x, p2 as int)) && p2 <= b@.len(),
            None => dec_u64_at(b@, p as int) is None,
        },
{
    if p <= b.len() && b.len() - p >= 8 {
        let x = vstd::bytes::u64_from_le_bytes(slice_subrange(b.as_slice(), p, p + 8));
        Some((x, p + 8))
    } else {
        None
    }
}

fn rd_char(b: &Vec<u8>, p: usize) -> (r: Option<(char, usize)>)
    ensures
        match r {
            Some((c, p2)) => dec_char_at(b@, p as int) == Some((c, p2 as int)) && p2 <= b@.len(),
            None => dec_char_at(b@, p as int) is None,
        },
{
    match rd_u32(b, p) {
        None => None,
        Some((v, p2)) => match char::from_u32(v) {
            None => None,
            Some(c) => {
                proof {
                    assert((v as char) == c);
                }
                Some((c, p2))
            },
        },
    }
}

/// Once a character fails to parse, every longer count fails too.
proof fn lemma_dec_chars_fail(b: Seq<u8>, p0: int, k: nat, m: nat, q: int)
    requires
        k < m,
        dec_chars_at(b, p0, k) matches Some(pr) && pr.1 == q,
        dec_char_at(b, q) is None,
    ensures
        dec_chars_at(b, p0, m) is None,
    decreases m,
{
    if m == k + 1 {
    } else {
        lemma_dec_chars_fail(b, p0, k, (m - 1) as nat, q);
    }
}

#[verifier::loop_isolation(false)]
fn rd_str(b: &Vec<u8>, p: usize) -> (r: Option<(String, usize)>)
    ensures
        match r {
            Some((s, p2)) => dec_str_at(b@, p as int) == Some((s@, p2 as int)) && p2 <= b@.len(),
            None => dec_str_at(b@, p as int) is None,
        },
{
    match rd_u64(b, p) {
        None => None,
        Some((n, p1)) => {
            let mut s = String::new();
            let mut q: usize = p1;
            let mut k: u64 = 0;
            while k < n
                invariant
                    k <= n,
                    q <= b@.len(),
                    dec_chars_at(b@, p1 as int, k as nat) == Some((s@, q as int)),
                decreases n - k,
            {
                match rd_char(b, q) {
                    None => {
                        proof {
                            lemma_dec_chars_fail(b@, p1 as int, k as nat, n as nat, q as int);
                        }
                        return None;
                    },
                    Some((c, q2)) => {
                        s.push(c);
                        q = q2;
                        proof {
                            assert((k as nat + 1) - 1 == k as nat);
                            assert(dec_chars_at(b@, p1 as int, (k + 1) as nat) == Some(
                                (s@, q as int),
                            ));
                        }
                        k += 1;
                    },
                }
            }
            Some((s, q))
        },
    }
}

fn rd_title(b: &Vec<u8>, p: usize) -> (r: Option<(Title, usize)>)
    ensures
        match r {
            Some((t, p2)) => dec_title_at(b@, p as int) == Some((t@, p2 as int)) && p2
                <= b@.len(),
            None => dec_title_at(b@, p as int) is None,
        },
{
    let (id, p1) = match rd_u32(b, p) {
        None => {
            return None;
        },
        Some(x) => x,
    };
    let (year, p2) = match rd_u16(b, p1) {
        None => {
            return None;
        },
        Some(x) => x,
    };
    let (runtime, p3) = match rd_u16(b, p2) {
        None => {
            return None;
        },
        Some(x) => x,
    };
    let (kb, p4) = match rd_u8(b, p3) {
        None => {
            return None;
        },
        Some(x) => x,
    };
    let kind: TitleKind = if kb == 0 {
        TitleKind::Movie
    } else if kb == 1 {
        TitleKind::TvMovie
    } else if kb == 2 {
        TitleKind::Video
    } else if kb == 3 {
        TitleKind::Short
    } else {
        return None;
    };
    proof {
        assert(byte_kind(kb) == Some(kind));
    }
    let (hb, p5) = match rd_u8(b, p4) {
        None => {
            return None;
        },
        Some(x) => x,
    };
    if hb > 1 {
        return None;
    }
    let (votes, p6) = match rd_u32(b, p5) {
        None => {
            return None;
        },
        Some(x) => x,
    };
    let (primary, p7) = match rd_str(b, p6) {
        None => {
            return None;
        },
        Some(x) => x,
    };
    if hb == 1 {
        let (orig, p8) = match rd_str(b, p7) {
            None => {
                return None;
            },
            Some(x) => x,
        };
        let t = Title {
            id,
            year,
            runtime,
            primary_title: primary,
            original_title: Some(orig),
            kind,
            votes,
        };
        Some((t, p8))
    } else {
        let t = Title {
            id,
            year,
            runtime,
            primary_title: primary,
            original_title: None,
            kind,
            votes,
        };
        Some((t, p7))
    }
}

#[verifier::loop_isolation(false)]
fn rd_bucket(b: &Vec<u8>, p: usize) -> (r: Option<(Bucket, usize)>)
    ensures
        match r {
            Some((bk, p2)) => dec_bucket_at(b@, p as int) == Some((bk@, p2 as int)) && p2
                <= b@.len(),
            None => dec_bucket_at(b@, p as int) is None,
        },
{
    let (tag, p1) = match rd_str(b, p) {
        None => {
            return None;
        },
        Some(x) => x,
    };
    let (n, p2) = match rd_u64(b, p1) {
        None => {
            return None;
        },
        Some(x) => x,
    };
    let mut ids: Vec<u32> = Vec::new();
    let mut q: usize = p2;
    let mut k: u64 = 0;
    while k < n
        invariant
            k <= n,
            q <= b@.len(),
            dec_ids_at(b@, p2 as int, k as nat) == Some((ids@, q as int)),
        decreases n - k,
    {
        match rd_u32(b, q) {
            None => {
                proof {
                    lemma_dec_ids_fail(b@, p2 as int, k as nat, n as nat, q as int);
                }
                return None;
            },
            Some((v, q2)) => {
                ids.push(v);
                q = q2;
                proof {
                    assert(dec_ids_at(b@, p2 as int, (k + 1) as nat) == Some((ids@, q as int)));
                }
                k += 1;
            },
        }
    }
    let bk = Bucket { tag, ids };
    proof {
        assert(bk@ == BucketView { tag: bk.tag@, ids: bk.ids@ });
    }
    Some((bk, q))
}

/// Once an id fails to parse, every longer count fails too.
proof fn lemma_dec_ids_fail(b: Seq<u8>, p0: int, k: nat, m: nat, q: int)
    requires
        k < m,
        dec_ids_at(b, p0, k) matches Some(pr) && pr.1 == q,
        dec_u32_at(b, q) is None,
    ensures
        dec_ids_at(b, p0, m) is None,
    decreases m,
{
    if m == k + 1 {
    } else {
        lemma_dec_ids_fail(b, p0, k, (m - 1) as nat, q);
    }
}

/// Once a record fails to parse, every longer count fails too.
proof fn lemma_dec_titles_fail(b: Seq<u8>, p0: int, k: nat, m: nat, q: int)
    requires
        k < m,
        dec_titles_at(b, p0, k) matches Some(pr) && pr.1 == q,
        dec_title_at(b, q) is None,
    ensures
        dec_titles_at(b, p0, m) is None,
    decreases m,
{
    if m == k + 1 {
    } else {
        lemma_dec_titles_fail(b, p0, k, (m - 1) as nat, q);
    }
}

/// Once a bucket fails to parse, every longer count fails too.
proof fn lemma_dec_buckets_fail(b: Seq<u8>, p0: int, k: nat, m: nat, q: int)
    requires
        k < m,
        dec_buckets_at(b, p0, k) matches Some(pr) && pr.1 == q,
        dec_bucket_at(b, q) is None,
    ensures
        dec_buckets_at(b, p0, m) is None,
    decreases m,
{
    if m == k + 1 {
    } else {
        lemma_dec_buckets_fail(b, p0, k, (m - 1) as nat, q);
    }
}

/// Tests that all record ids in the table are distinct.
#[verifier::loop_isolation(false)]
fn ids_unique(titles: &Vec<Title>) -> (r: bool)
    ensures
        r == tbl_wf(views_of(titles@)),
{
    let ghost vs = views_of(titles@);
    let n = titles.len();
    let mut i: usize = 1;
    while i < n
        invariant
            n == titles@.len(),
            1 <= i <= n || (n == 0 && i == 1),
            forall|a: int, c: int| 0 <= a < c < i ==> (#[trigger] vs[a]).id != (#[trigger] vs[c]).id,
        decreases n - i,
    {
        let mut j: usize = 0;
        while j < i
            invariant
                i < n,
                n == titles@.len(),
                j <= i,
                forall|a: int| 0 <= a < j ==> (#[trigger] vs[a]).id != vs[i as int].id,
            decreases i - j,
        {
            if titles[j].id == titles[i].id {
                proof {
                    assert(vs[j as int].id == vs[i as int].id);
                }
                return false;
            }
            j += 1;
        }
        i += 1;
    }
    proof {
        assert(tbl_wf(vs));
    }
    true
}

impl Imdb {
    /// The snapshot payload of this engine, before compression.
    #[verifier::loop_isolation(false)]
    fn encode(&self) -> (r: Vec<u8>)
        ensures
            r@ == spec_encode(views_of(self.titles@), bviews_of(self.index@)),
    {
        let ghost vs = views_of(self.titles@);
        let ghost bs = bviews_of(self.index@);
        let mut out: Vec<u8> = Vec::new();
        put_u64(&mut out, self.titles.len() as u64);
        let ghost base1 = out@;
        let n = self.titles.len();
        let mut i: usize = 0;
        proof {
            assert(enc_titles(vs.take(0)) =~= Seq::<u8>::empty());
            assert(out@ =~= base1 + enc_titles(vs.take(0)));
        }
        while i < n
            invariant
                n == self.titles@.len(),
                i <= n,
                vs == views_of(self.titles@),
                out@ == base1 + enc_titles(vs.take(i as int)),
            decreases n - i,
        {
            proof {
                assert(vs.take(i as int + 1).drop_last() =~= vs.take(i as int));
                assert(vs.take(i as int + 1).last() == vs[i as int]);
                assert(vs[i as int] == self.titles@[i as int]@);
            }
            put_title(&mut out, &self.titles[i]);
            proof {
                assert(out@ =~= base1 + enc_titles(vs.take(i as int + 1)));
            }
            i += 1;
        }
        proof {
            assert(vs.take(n as int) =~= vs);
        }
        put_u64(&mut out, self.index.len() as u64);
        let ghost base2 = out@;
        let m = self.index.len();
        let mut j: usize = 0;
        proof {
            assert(enc_buckets(bs.take(0)) =~= Seq::<u8>::empty());
            assert(out@ =~= base2 + enc_buckets(bs.take(0)));
        }
        while j < m
            invariant
                m == self.index@.len(),
                j <= m,
                bs == bviews_of(self.index@),
                out@ == base2 + enc_buckets(bs.take(j as int)),
            decreases m - j,
        {
            proof {
                assert(bs.take(j as int + 1).drop_last() =~= bs.take(j as int));
                assert(bs.take(j as int + 1).last() == bs[j as int]);
                assert(bs[j as int] == self.index@[j as int]@);
            }
            put_bucket(&mut out, &self.index[j]);
            proof {
                assert(out@ =~= base2 + enc_buckets(bs.take(j as int + 1)));
            }
            j += 1;
        }
        proof {
            assert(bs.take(m as int) =~= bs);
            assert(out@ =~= spec_encode(vs, bs));
        }
        out
    }

    /// Serializes the engine to its compressed snapshot blob.
    pub fn save(&self) -> (r: Vec<u8>)
        ensures
            gunzip_of(r@) == Some(spec_encode(views_of(self.titles@), bviews_of(self.index@))),
    {
        let payload = self.encode();
        gzip_compress(&payload)
    }

    /// Parses a decompressed snapshot payload back into an engine,
    /// checking that the record ids are distinct.
    #[verifier::loop_isolation(false)]
    fn decode(b: &Vec<u8>) -> (r: Result<Imdb, Error>)
        ensures
            match r {
                Ok(m) => spec_decode(b@) == Some(
                    (views_of(m.titles@), bviews_of(m.index@)),
                ) && m.wf(),
                Err(e) => e == Error::Corrupt && match spec_decode(b@) {
                    None => true,
                    Some(pr) => !tbl_wf(pr.0),
                },
            },
    {
        let (nt, p1) = match rd_u64(b, 0) {
            None => {
                return Err(Error::Corrupt);
            },
            Some(x) => x,
        };
        let mut titles: Vec<Title> = Vec::new();
        let mut q: usize = p1;
        let mut k: u64 = 0;
        while k < nt
            invariant
                k <= nt,
                q <= b@.len(),
                dec_titles_at(b@, p1 as int, k as nat) == Some((views_of(titles@), q as int)),
            decreases nt - k,
        {
            match rd_title(b, q) {
                None => {
                    proof {
                        lemma_dec_titles_fail(b@, p1 as int, k as nat, nt as nat, q as int);
                    }
                    return Err(Error::Corrupt);
                },
                Some((t, q2)) => {
                    let ghost oldv = views_of(titles@);
                    let ghost tv = t@;
                    titles.push(t);
                    q = q2;
                    proof {
                        assert(views_of(titles@) =~= oldv.push(tv));
                        assert(dec_titles_at(b@, p1 as int, (k + 1) as nat) == Some(
                            (views_of(titles@), q as int),
                        ));
                    }
                    k += 1;
                },
            }
        }
        let (nb, p2) = match rd_u64(b, q) {
            None => {
                return Err(Error::Corrupt);
            },
            Some(x) => x,
        };
        let mut index: Vec<Bucket> = Vec::new();
        let mut q2: usize = p2;
        let mut k2: u64 = 0;
        while k2 < nb
            invariant
                k2 <= nb,
                q2 <= b@.len(),
                dec_titles_at(b@, p1 as int, nt as nat) == Some((views_of(titles@), q as int)),
                dec_u64_at(b@, q as int) == Some((nb, p2 as int)),
                dec_buckets_at(b@, p2 as int, k2 as nat) == Some((bviews_of(index@), q2 as int)),
            decreases nb - k2,
        {
            match rd_bucket(b, q2) {
                None => {
                    proof {
                        lemma_dec_buckets_fail(b@, p2 as int, k2 as nat, nb as nat, q2 as int);
                    }
                    return Err(Error::Corrupt);
                },
                Some((bk, q3)) => {
                    let ghost oldb = bviews_of(index@);
                    let ghost bkv = bk@;
                    index.push(bk);
                    q2 = q3;
                    proof {
                        assert(bviews_of(index@) =~= oldb.push(bkv));
                        assert(dec_buckets_at(b@, p2 as int, (k2 + 1) as nat) == Some(
                            (bviews_of(index@), q2 as int),
                        ));
                    }
                    k2 += 1;
                },
            }
        }
        if q2 != b.len() {
            return Err(Error::Corrupt);
        }
        if !ids_unique(&titles) {
            return Err(Error::Corrupt);
        }
        Ok(Imdb { titles, index })
    }

    /// Deserializes a compressed snapshot blob: decompress, parse, check.
    /// Any failure reports a corrupt snapshot; the caller falls back to a
    /// full rebuild.
    pub fn load_index(data: &Vec<u8>) -> (r: Result<Imdb, Error>)
        ensures
            match r {
                Ok(m) => match gunzip_of(data@) {
                    Some(raw) => spec_decode(raw) == Some(
                        (views_of(m.titles@), bviews_of(m.index@)),
                    ) && m.wf(),
                    None => false,
                },
                Err(e) => e == Error::Corrupt && match gunzip_of(data@) {
                    None => true,
                    Some(raw) => match spec_decode(raw) {
                        None => true,
                        Some(pr) => !tbl_wf(pr.0),
                    },
                },
            },
    {
        match gzip_decompress(data) {
            None => Err(Error::Corrupt),
            Some(raw) => Imdb::decode(&raw),
        }
    }
}

} // verus!
