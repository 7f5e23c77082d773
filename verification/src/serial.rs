//! Persistence of a trained model as a self-describing byte layout:
//! a tagged header, the id tables, the matrix nonzeros row by row, and
//! the neighbor table, all as little-endian 64-bit words.
//!
//! `load` validates the tag, the version and the whole structure,
//! re-encodes what it parsed and accepts the payload only if the bytes
//! match exactly, and recomputes the neighbor table from the restored
//! matrix, rejecting payloads whose stored table is not the engine's.
//! A loaded model therefore re-serializes to its input, carries a
//! synchronized table, and — since the byte image determines every
//! component — equals any model that serializes to those bytes.

use vstd::prelude::*;
use crate::Axis;
use crate::Metric;
use crate::MergePolicy;
use crate::RecError;
use crate::SCALE;
use crate::axis_code;
use crate::metric_code;
use crate::policy_code;
use crate::engine::Scored;
use crate::engine::ranked;
use crate::engine::ranks_before;
use crate::model::Model;
use crate::model::ModelV;
use crate::model::distinct_ids;
use crate::sparse::Entry;
use crate::sparse::SparseMatrix;
use crate::sparse::sorted_by_idx;
use crate::sparse::upsert_s;
use crate::sparse::lemma_upsert_at;

verus! {

/// Format tag at the head of every serialized model.
pub const FORMAT_TAG: u64 = 0x5245_4346_524d_3031;

/// Version of the serialized layout.
pub const FORMAT_VERSION: u64 = 1;

/// Words of one matrix entry.
pub open spec fn enc_entry(e: Entry) -> Seq<u64> {
    seq![e.idx as u64, e.weight as u64]
}

/// Words of a row's entries.
pub open spec fn enc_row(r: Seq<Entry>) -> Seq<u64>
    decreases r.len(),
{
    if r.len() == 0 {
        Seq::<u64>::empty()
    } else {
        enc_row(r.drop_last()) + enc_entry(r.last())
    }
}

/// Words of a sequence of rows, each length-prefixed.
pub open spec fn enc_rows(rs: Seq<Seq<Entry>>) -> Seq<u64>
    decreases rs.len(),
{
    if rs.len() == 0 {
        Seq::<u64>::empty()
    } else {
        enc_rows(rs.drop_last()) + seq![rs.last().len() as u64] + enc_row(rs.last())
    }
}

/// Words of one neighbor entry: index, then the score in two words.
pub open spec fn enc_scored(s: Scored) -> Seq<u64> {
    seq![s.idx as u64, (s.score & 0xffff_ffff_ffff_ffff) as u64, (s.score >> 64) as u64]
}

/// Words of a neighbor list's entries.
pub open spec fn enc_list(l: Seq<Scored>) -> Seq<u64>
    decreases l.len(),
{
    if l.len() == 0 {
        Seq::<u64>::empty()
    } else {
        enc_list(l.drop_last()) + enc_scored(l.last())
    }
}

/// Words of a neighbor table, each list length-prefixed.
pub open spec fn enc_lists(tb: Seq<Seq<Scored>>) -> Seq<u64>
    decreases tb.len(),
{
    if tb.len() == 0 {
        Seq::<u64>::empty()
    } else {
        enc_lists(tb.drop_last()) + seq![tb.last().len() as u64] + enc_list(tb.last())
    }
}

/// The complete word image of a model.
pub open spec fn enc_model(v: ModelV) -> Seq<u64> {
    seq![
        FORMAT_TAG,
        FORMAT_VERSION,
        axis_code(v.axis),
        metric_code(v.metric),
        v.k as u64,
        policy_code(v.policy),
    ] + seq![v.users.len() as u64] + v.users + seq![v.items.len() as u64] + v.items + seq![
        v.rows.len() as u64,
    ] + enc_rows(v.rows) + seq![v.table.len() as u64] + enc_lists(v.table)
}

/// The little-endian bytes of one word.
pub open spec fn le_bytes(w: u64) -> Seq<u8> {
    seq![
        (w & 0xff) as u8,
        ((w >> 8) & 0xff) as u8,
        ((w >> 16) & 0xff) as u8,
        ((w >> 24) & 0xff) as u8,
        ((w >> 32) & 0xff) as u8,
        ((w >> 40) & 0xff) as u8,
        ((w >> 48) & 0xff) as u8,
        ((w >> 56) & 0xff) as u8,
    ]
}

/// The byte image of a word sequence.
pub open spec fn bytes_of(ws: Seq<u64>) -> Seq<u8>
    decreases ws.len(),
{
    if ws.len() == 0 {
        Seq::<u8>::empty()
    } else {
        bytes_of(ws.drop_last()) + le_bytes(ws.last())
    }
}

/// The word image of a model, as executable code.
#[verifier::rlimit(100)]
#[verifier::spinoff_prover]
pub fn encode_words(m: &Model) -> (r: Vec<u64>)
    ensures
        r@ == enc_model(m.model_view()),
{
    let mut ws: Vec<u64> = Vec::new();
    ws.push(FORMAT_TAG);
    ws.push(FORMAT_VERSION);
    ws.push(match m.axis {
        Axis::User => 0,
        Axis::Item => 1,
    });
    ws.push(match m.metric {
        Metric::Cosine => 0,
        Metric::Jaccard => 1,
    });
    ws.push(m.k as u64);
    ws.push(match m.policy {
        MergePolicy::Overwrite => 0,
        MergePolicy::Sum => 1,
        MergePolicy::Max => 2,
    });
    ws.push(m.user_ids.len() as u64);
    let mut t: usize = 0;
    let ghost hdr = ws@;
    while t < m.user_ids.len()
        invariant
            t <= m.user_ids@.len(),
            ws@ == hdr + m.user_ids@.take(t as int),
        decreases m.user_ids.len() - t,
    {
        let v = m.user_ids[t];
        ws.push(v);
        proof {
            assert(ws@ =~= hdr + m.user_ids@.take(t + 1 as int));
        }
        t = t + 1;
    }
    proof {
        assert(m.user_ids@.take(m.user_ids@.len() as int) =~= m.user_ids@);
    }
    ws.push(m.item_ids.len() as u64);
    let mut t2: usize = 0;
    let ghost hdr2 = ws@;
    while t2 < m.item_ids.len()
        invariant
            t2 <= m.item_ids@.len(),
            ws@ == hdr2 + m.item_ids@.take(t2 as int),
        decreases m.item_ids.len() - t2,
    {
        let v = m.item_ids[t2];
        ws.push(v);
        proof {
            assert(ws@ =~= hdr2 + m.item_ids@.take(t2 + 1 as int));
        }
        t2 = t2 + 1;
    }
    proof {
        assert(m.item_ids@.take(m.item_ids@.len() as int) =~= m.item_ids@);
    }
    ws.push(m.matrix.rows.len() as u64);
    let ghost rows = m.matrix.rows_view();
    let mut u: usize = 0;
    let ghost hdr3 = ws@;
    while u < m.matrix.rows.len()
        invariant
            u <= rows.len(),
            rows == m.matrix.rows_view(),
            rows.len() == m.matrix.rows@.len(),
            ws@ == hdr3 + enc_rows(rows.take(u as int)),
        decreases m.matrix.rows.len() - u,
    {
        let row = &m.matrix.rows[u];
        proof {
            assert(row@ == rows[u as int]);
        }
        ws.push(row.len() as u64);
        let ghost hdr4 = ws@;
        let mut q: usize = 0;
        while q < row.len()
            invariant
                q <= row@.len(),
                ws@ == hdr4 + enc_row(row@.take(q as int)),
            decreases row.len() - q,
        {
            let e = row[q];
            ws.push(e.idx as u64);
            ws.push(e.weight as u64);
            proof {
                assert(row@.take(q + 1 as int).drop_last() =~= row@.take(q as int));
                assert(row@.take(q + 1 as int).last() == row@[q as int]);
                assert(ws@ =~= hdr4 + enc_row(row@.take(q + 1 as int)));
            }
            q = q + 1;
        }
        proof {
            assert(row@.take(row@.len() as int) =~= row@);
            assert(rows.take(u + 1 as int).drop_last() =~= rows.take(u as int));
            assert(rows.take(u + 1 as int).last() == rows[u as int]);
            assert(ws@ =~= hdr3 + enc_rows(rows.take(u + 1 as int)));
        }
        u = u + 1;
    }
    proof {
        assert(rows.take(rows.len() as int) =~= rows);
    }
    ws.push(m.table.len() as u64);
    let ghost tb = crate::engine::table_view(m.table@);
    let mut u2: usize = 0;
    let ghost hdr5 = ws@;
    while u2 < m.table.len()
        invariant
            u2 <= tb.len(),
            tb == crate::engine::table_view(m.table@),
            tb.len() == m.table@.len(),
            ws@ == hdr5 + enc_lists(tb.take(u2 as int)),
        decreases m.table.len() - u2,
    {
        let lst = &m.table[u2];
        proof {
            assert(lst@ == tb[u2 as int]);
        }
        ws.push(lst.len() as u64);
        let ghost hdr6 = ws@;
        let mut q: usize = 0;
        while q < lst.len()
            invariant
                q <= lst@.len(),
                ws@ == hdr6 + enc_list(lst@.take(q as int)),
            decreases lst.len() - q,
        {
            let s = lst[q];
            let lo = (s.score & 0xffff_ffff_ffff_ffff) as u64;
            let hi = (s.score >> 64) as u64;
            ws.push(s.idx as u64);
            ws.push(lo);
            ws.push(hi);
            proof {
                assert(lst@.take(q + 1 as int).drop_last() =~= lst@.take(q as int));
                assert(lst@.take(q + 1 as int).last() == lst@[q as int]);
                assert(ws@ =~= hdr6 + enc_list(lst@.take(q + 1 as int)));
            }
            q = q + 1;
        }
        proof {
            assert(lst@.take(lst@.len() as int) =~= lst@);
            assert(tb.take(u2 + 1 as int).drop_last() =~= tb.take(u2 as int));
            assert(tb.take(u2 + 1 as int).last() == tb[u2 as int]);
            assert(ws@ =~= hdr5 + enc_lists(tb.take(u2 + 1 as int)));
        }
        u2 = u2 + 1;
    }
    proof {
        assert(tb.take(tb.len() as int) =~= tb);
        assert(ws@ =~= enc_model(m.model_view()));
    }
    ws
}

/// Serializes a trained model: the byte image of its word encoding.
pub fn save(m: &Model) -> (r: Vec<u8>)
    ensures
        r@ == bytes_of(enc_model(m.model_view())),
{
    let ws = encode_words(m);
    let mut out: Vec<u8> = Vec::new();
    let mut t: usize = 0;
    while t < ws.len()
        invariant
            t <= ws@.len(),
            out@ == bytes_of(ws@.take(t as int)),
        decreases ws.len() - t,
    {
        let w = ws[t];
        out.push((w & 0xff) as u8);
        out.push(((w >> 8) & 0xff) as u8);
        out.push(((w >> 16) & 0xff) as u8);
        out.push(((w >> 24) & 0xff) as u8);
        out.push(((w >> 32) & 0xff) as u8);
        out.push(((w >> 40) & 0xff) as u8);
        out.push(((w >> 48) & 0xff) as u8);
        out.push(((w >> 56) & 0xff) as u8);
        proof {
            assert(ws@.take(t + 1 as int).drop_last() =~= ws@.take(t as int));
            assert(ws@.take(t + 1 as int).last() == ws@[t as int]);
            assert(out@ =~= bytes_of(ws@.take(t + 1 as int)));
        }
        t = t + 1;
    }
    proof {
        assert(ws@.take(ws@.len() as int) =~= ws@);
    }
    out
}

/// Reassembles the words of a byte payload; the bytes are exactly the
/// byte image of the result.
pub fn parse_words(bytes: &Vec<u8>) -> (r: Result<Vec<u64>, RecError>)
    ensures
        match r {
            Ok(ws) => bytes@ == bytes_of(ws@),
            Err(e) => e == RecError::FormatError && bytes@.len() % 8 != 0,
        },
{
    if bytes.len() % 8 != 0 {
        return Err(RecError::FormatError);
    }
    let n = bytes.len() / 8;
    let mut ws: Vec<u64> = Vec::new();
    let mut t: usize = 0;
    while t < n
        invariant
            t <= n,
            n == bytes@.len() / 8,
            bytes@.len() % 8 == 0,
            bytes@.len() == 8 * n,
            bytes@.len() <= usize::MAX,
            ws@.len() == t,
            bytes@.take(8 * t as int) == bytes_of(ws@),
        decreases n - t,
    {
        proof {
            assert(8 * (t as int) + 8 <= 8 * (n as int));
            assert(8 * (t as int) + 8 <= bytes@.len());
        }
        let b0 = bytes[8 * t];
        let b1 = bytes[8 * t + 1];
        let b2 = bytes[8 * t + 2];
        let b3 = bytes[8 * t + 3];
        let b4 = bytes[8 * t + 4];
        let b5 = bytes[8 * t + 5];
        let b6 = bytes[8 * t + 6];
        let b7 = bytes[8 * t + 7];
        let w: u64 = (b0 as u64) | ((b1 as u64) << 8) | ((b2 as u64) << 16) | ((b3 as u64) << 24)
            | ((b4 as u64) << 32) | ((b5 as u64) << 40) | ((b6 as u64) << 48) | ((b7 as u64)
            << 56);
        proof {
            assert(le_bytes(
                (b0 as u64) | ((b1 as u64) << 8) | ((b2 as u64) << 16) | ((b3 as u64) << 24) | (
                (b4 as u64) << 32) | ((b5 as u64) << 40) | ((b6 as u64) << 48) | ((b7 as u64)
                    << 56),
            ) =~= seq![b0, b1, b2, b3, b4, b5, b6, b7]) by {
                lemma_le_recompose(b0, b1, b2, b3, b4, b5, b6, b7);
            }
        }
        let ghost ws0 = ws@;
        ws.push(w);
        proof {
            assert(ws@.drop_last() =~= ws0);
            assert(bytes@.take(8 * (t + 1) as int) =~= bytes@.take(8 * t as int) + seq![
                b0,
                b1,
                b2,
                b3,
                b4,
                b5,
                b6,
                b7,
            ]);
            assert(ws@.last() == w);
            assert(bytes_of(ws@) == bytes_of(ws@.drop_last()) + le_bytes(w));
            assert(bytes_of(ws0) == bytes@.take(8 * t as int));
            assert(bytes@.take(8 * (t + 1) as int) =~= bytes_of(ws@));
        }
        t = t + 1;
    }
    proof {
        assert(bytes@.take(bytes@.len() as int) =~= bytes@);
    }
    Ok(ws)
}

/// The byte image grows eight bytes per word.
pub proof fn lemma_bytes_of_len(ws: Seq<u64>)
    ensures
        bytes_of(ws).len() == 8 * ws.len(),
    decreases ws.len(),
{
    if ws.len() > 0 {
        lemma_bytes_of_len(ws.drop_last());
    }
}

/// Equal concatenations with equal-length heads split into equal
/// heads and equal tails.
pub proof fn lemma_concat_cancel<T>(a1: Seq<T>, b1: Seq<T>, a2: Seq<T>, b2: Seq<T>)
    requires
        a1.len() == a2.len(),
        a1 + b1 == a2 + b2,
    ensures
        a1 == a2,
        b1 == b2,
{
    assert forall|i: int| 0 <= i < a1.len() implies a1[i] == a2[i] by {
        assert((a1 + b1)[i] == a1[i]);
        assert((a2 + b2)[i] == a2[i]);
    }
    assert(a1 =~= a2);
    assert((a1 + b1).len() == a1.len() + b1.len());
    assert((a2 + b2).len() == a2.len() + b2.len());
    assert(b1.len() == b2.len());
    assert forall|i: int| 0 <= i < b1.len() implies b1[i] == b2[i] by {
        assert((a1 + b1)[a1.len() + i] == b1[i]);
        assert((a2 + b2)[a2.len() + i] == b2[i]);
    }
    assert(b1 =~= b2);
}

/// A word is determined by its little-endian bytes.
pub proof fn lemma_le_bytes_inj(w1: u64, w2: u64)
    requires
        le_bytes(w1) == le_bytes(w2),
    ensures
        w1 == w2,
{
    assert(le_bytes(w1)[0] == le_bytes(w2)[0]);
    assert(le_bytes(w1)[1] == le_bytes(w2)[1]);
    assert(le_bytes(w1)[2] == le_bytes(w2)[2]);
    assert(le_bytes(w1)[3] == le_bytes(w2)[3]);
    assert(le_bytes(w1)[4] == le_bytes(w2)[4]);
    assert(le_bytes(w1)[5] == le_bytes(w2)[5]);
    assert(le_bytes(w1)[6] == le_bytes(w2)[6]);
    assert(le_bytes(w1)[7] == le_bytes(w2)[7]);
    assert(w1 == w2) by (bit_vector)
        requires
            (w1 & 0xff) as u8 == (w2 & 0xff) as u8,
            ((w1 >> 8) & 0xff) as u8 == ((w2 >> 8) & 0xff) as u8,
            ((w1 >> 16) & 0xff) as u8 == ((w2 >> 16) & 0xff) as u8,
            ((w1 >> 24) & 0xff) as u8 == ((w2 >> 24) & 0xff) as u8,
            ((w1 >> 32) & 0xff) as u8 == ((w2 >> 32) & 0xff) as u8,
            ((w1 >> 40) & 0xff) as u8 == ((w2 >> 40) & 0xff) as u8,
            ((w1 >> 48) & 0xff) as u8 == ((w2 >> 48) & 0xff) as u8,
            ((w1 >> 56) & 0xff) as u8 == ((w2 >> 56) & 0xff) as u8;
}

/// A word sequence is determined by its byte image.
pub proof fn lemma_bytes_of_inj(ws1: Seq<u64>, ws2: Seq<u64>)
    requires
        bytes_of(ws1) == bytes_of(ws2),
    ensures
        ws1 == ws2,
    decreases ws1.len(),
{
    lemma_bytes_of_len(ws1);
    lemma_bytes_of_len(ws2);
    assert(ws1.len() == ws2.len());
    if ws1.len() > 0 {
        lemma_bytes_of_len(ws1.drop_last());
        lemma_bytes_of_len(ws2.drop_last());
        lemma_concat_cancel(
            bytes_of(ws1.drop_last()),
            le_bytes(ws1.last()),
            bytes_of(ws2.drop_last()),
            le_bytes(ws2.last()),
        );
        lemma_bytes_of_inj(ws1.drop_last(), ws2.drop_last());
        lemma_le_bytes_inj(ws1.last(), ws2.last());
        assert(forall|i: int| 0 <= i < ws1.len() - 1 ==> (#[trigger] ws1[i]) == ws1.drop_last()[i]);
        assert(forall|i: int| 0 <= i < ws2.len() - 1 ==> (#[trigger] ws2[i]) == ws2.drop_last()[i]);
        assert(ws1 =~= ws2);
    } else {
        assert(ws1 =~= ws2);
    }
}

/// A row's entry words are two per entry.
pub proof fn lemma_enc_row_len(r: Seq<Entry>)
    ensures
        enc_row(r).len() == 2 * r.len(),
    decreases r.len(),
{
    if r.len() > 0 {
        lemma_enc_row_len(r.drop_last());
    }
}

/// A list's entry words are three per entry.
pub proof fn lemma_enc_list_len(l: Seq<Scored>)
    ensures
        enc_list(l).len() == 3 * l.len(),
    decreases l.len(),
{
    if l.len() > 0 {
        lemma_enc_list_len(l.drop_last());
    }
}

/// A row is determined by its entry words, given its length.
pub proof fn lemma_enc_row_inj(r1: Seq<Entry>, r2: Seq<Entry>)
    requires
        r1.len() == r2.len(),
        enc_row(r1) == enc_row(r2),
    ensures
        r1 == r2,
    decreases r1.len(),
{
    if r1.len() > 0 {
        lemma_enc_row_len(r1.drop_last());
        lemma_enc_row_len(r2.drop_last());
        lemma_concat_cancel(
            enc_row(r1.drop_last()),
            enc_entry(r1.last()),
            enc_row(r2.drop_last()),
            enc_entry(r2.last()),
        );
        lemma_enc_row_inj(r1.drop_last(), r2.drop_last());
        assert(enc_entry(r1.last())[0] == enc_entry(r2.last())[0]);
        assert(enc_entry(r1.last())[1] == enc_entry(r2.last())[1]);
        assert(r1.last().idx as u64 == r2.last().idx as u64);
        assert(r1.last().weight as u64 == r2.last().weight as u64);
        assert(r1.last().idx == r2.last().idx);
        assert(r1.last().weight == r2.last().weight);
        assert(r1.last() == r2.last());
        assert(forall|i: int| 0 <= i < r1.len() - 1 ==> (#[trigger] r1[i]) == r1.drop_last()[i]);
        assert(forall|i: int| 0 <= i < r2.len() - 1 ==> (#[trigger] r2[i]) == r2.drop_last()[i]);
        assert(r1 =~= r2);
    } else {
        assert(r1 =~= r2);
    }
}

/// A neighbor list is determined by its entry words, given its length.
pub proof fn lemma_enc_list_inj(l1: Seq<Scored>, l2: Seq<Scored>)
    requires
        l1.len() == l2.len(),
        enc_list(l1) == enc_list(l2),
    ensures
        l1 == l2,
    decreases l1.len(),
{
    if l1.len() > 0 {
        lemma_enc_list_len(l1.drop_last());
        lemma_enc_list_len(l2.drop_last());
        lemma_concat_cancel(
            enc_list(l1.drop_last()),
            enc_scored(l1.last()),
            enc_list(l2.drop_last()),
            enc_scored(l2.last()),
        );
        lemma_enc_list_inj(l1.drop_last(), l2.drop_last());
        let s1 = l1.last();
        let s2 = l2.last();
        assert(enc_scored(s1)[0] == enc_scored(s2)[0]);
        assert(enc_scored(s1)[1] == enc_scored(s2)[1]);
        assert(enc_scored(s1)[2] == enc_scored(s2)[2]);
        let sc1 = s1.score;
        let sc2 = s2.score;
        assert(sc1 == sc2) by (bit_vector)
            requires
                (sc1 & 0xffff_ffff_ffff_ffff) as u64 == (sc2 & 0xffff_ffff_ffff_ffff) as u64,
                (sc1 >> 64) as u64 == (sc2 >> 64) as u64;
        assert(s1.idx as u64 == s2.idx as u64);
        assert(s1.idx == s2.idx);
        assert(s1 == s2);
        assert(forall|i: int| 0 <= i < l1.len() - 1 ==> (#[trigger] l1[i]) == l1.drop_last()[i]);
        assert(forall|i: int| 0 <= i < l2.len() - 1 ==> (#[trigger] l2[i]) == l2.drop_last()[i]);
        assert(l1 =~= l2);
    } else {
        assert(l1 =~= l2);
    }
}

/// Peeling the first row off the row encoding.
pub proof fn lemma_enc_rows_peel(rs: Seq<Seq<Entry>>)
    requires
        rs.len() > 0,
    ensures
        enc_rows(rs) == seq![rs[0].len() as u64] + enc_row(rs[0]) + enc_rows(rs.skip(1)),
    decreases rs.len(),
{
    if rs.len() == 1 {
        assert(rs.drop_last() =~= Seq::<Seq<Entry>>::empty());
        assert(rs.skip(1) =~= Seq::<Seq<Entry>>::empty());
        assert(rs.last() == rs[0]);
        assert(enc_rows(rs) =~= seq![rs[0].len() as u64] + enc_row(rs[0]) + enc_rows(rs.skip(1)));
    } else {
        let dl = rs.drop_last();
        lemma_enc_rows_peel(dl);
        assert(dl[0] == rs[0]);
        assert(rs.skip(1).drop_last() =~= dl.skip(1));
        assert(rs.skip(1).last() == rs.last());
        assert(enc_rows(rs.skip(1)) == enc_rows(dl.skip(1)) + seq![rs.last().len() as u64]
            + enc_row(rs.last()));
        assert(enc_rows(rs) =~= seq![rs[0].len() as u64] + enc_row(rs[0]) + enc_rows(rs.skip(1)));
    }
}

/// Peeling the first list off the table encoding.
pub proof fn lemma_enc_lists_peel(tb: Seq<Seq<Scored>>)
    requires
        tb.len() > 0,
    ensures
        enc_lists(tb) == seq![tb[0].len() as u64] + enc_list(tb[0]) + enc_lists(tb.skip(1)),
    decreases tb.len(),
{
    if tb.len() == 1 {
        assert(tb.drop_last() =~= Seq::<Seq<Scored>>::empty());
        assert(tb.skip(1) =~= Seq::<Seq<Scored>>::empty());
        assert(tb.last() == tb[0]);
        assert(enc_lists(tb) =~= seq![tb[0].len() as u64] + enc_list(tb[0]) + enc_lists(
            tb.skip(1),
        ));
    } else {
        let dl = tb.drop_last();
        lemma_enc_lists_peel(dl);
        assert(dl[0] == tb[0]);
        assert(tb.skip(1).drop_last() =~= dl.skip(1));
        assert(tb.skip(1).last() == tb.last());
        assert(enc_lists(tb.skip(1)) == enc_lists(dl.skip(1)) + seq![tb.last().len() as u64]
            + enc_list(tb.last()));
        assert(enc_lists(tb) =~= seq![tb[0].len() as u64] + enc_list(tb[0]) + enc_lists(
            tb.skip(1),
        ));
    }
}

/// Length-prefixed rows followed by anything are determined by the
/// word stream: equal streams give equal rows and equal remainders.
#[verifier::rlimit(100)]
#[verifier::spinoff_prover]
pub proof fn lemma_enc_rows_prefix(
    rs1: Seq<Seq<Entry>>,
    rs2: Seq<Seq<Entry>>,
    s1: Seq<u64>,
    s2: Seq<u64>,
)
    requires
        rs1.len() == rs2.len(),
        forall|i: int| 0 <= i < rs1.len() ==> (#[trigger] rs1[i]).len()
            < 0x1_0000_0000_0000_0000,
        forall|i: int| 0 <= i < rs2.len() ==> (#[trigger] rs2[i]).len()
            < 0x1_0000_0000_0000_0000,
        enc_rows(rs1) + s1 == enc_rows(rs2) + s2,
    ensures
        rs1 == rs2,
        s1 == s2,
    decreases rs1.len(),
{
    if rs1.len() == 0 {
        assert(enc_rows(rs1) + s1 =~= s1);
        assert(enc_rows(rs2) + s2 =~= s2);
        assert(rs1 =~= rs2);
    } else {
        lemma_enc_rows_peel(rs1);
        lemma_enc_rows_peel(rs2);
        lemma_enc_row_len(rs1[0]);
        lemma_enc_row_len(rs2[0]);
        // The first word of either stream is that side's first row
        // length, so the lengths agree.
        assert((enc_rows(rs1) + s1)[0] == rs1[0].len() as u64);
        assert((enc_rows(rs2) + s2)[0] == rs2[0].len() as u64);
        assert(rs1[0].len() as u64 == rs2[0].len() as u64);
        assert(rs1[0].len() == rs2[0].len());
        let a1 = seq![rs1[0].len() as u64] + enc_row(rs1[0]);
        let a2 = seq![rs2[0].len() as u64] + enc_row(rs2[0]);
        let b1 = enc_rows(rs1.skip(1)) + s1;
        let b2 = enc_rows(rs2.skip(1)) + s2;
        assert(a1 + b1 =~= enc_rows(rs1) + s1);
        assert(a2 + b2 =~= enc_rows(rs2) + s2);
        lemma_concat_cancel(a1, b1, a2, b2);
        lemma_concat_cancel(
            seq![rs1[0].len() as u64],
            enc_row(rs1[0]),
            seq![rs2[0].len() as u64],
            enc_row(rs2[0]),
        );
        lemma_enc_row_inj(rs1[0], rs2[0]);
        assert(forall|i: int| 0 <= i < rs1.skip(1).len() ==> (#[trigger] rs1.skip(1)[i]) == rs1[
            i + 1
        ]);
        assert(forall|i: int| 0 <= i < rs2.skip(1).len() ==> (#[trigger] rs2.skip(1)[i]) == rs2[
            i + 1
        ]);
        lemma_enc_rows_prefix(rs1.skip(1), rs2.skip(1), s1, s2);
        assert forall|i: int| 0 <= i < rs1.len() implies rs1[i] == rs2[i] by {
            if i > 0 {
                assert(rs1.skip(1)[i - 1] == rs2.skip(1)[i - 1]);
            }
        }
        assert(rs1 =~= rs2);
    }
}

/// Length-prefixed lists followed by anything are determined by the
/// word stream.
#[verifier::rlimit(100)]
#[verifier::spinoff_prover]
pub proof fn lemma_enc_lists_prefix(
    tb1: Seq<Seq<Scored>>,
    tb2: Seq<Seq<Scored>>,
    s1: Seq<u64>,
    s2: Seq<u64>,
)
    requires
        tb1.len() == tb2.len(),
        forall|i: int| 0 <= i < tb1.len() ==> (#[trigger] tb1[i]).len()
            < 0x1_0000_0000_0000_0000,
        forall|i: int| 0 <= i < tb2.len() ==> (#[trigger] tb2[i]).len()
            < 0x1_0000_0000_0000_0000,
        enc_lists(tb1) + s1 == enc_lists(tb2) + s2,
    ensures
        tb1 == tb2,
        s1 == s2,
    decreases tb1.len(),
{
    if tb1.len() == 0 {
        assert(enc_lists(tb1) + s1 =~= s1);
        assert(enc_lists(tb2) + s2 =~= s2);
        assert(tb1 =~= tb2);
    } else {
        lemma_enc_lists_peel(tb1);
        lemma_enc_lists_peel(tb2);
        lemma_enc_list_len(tb1[0]);
        lemma_enc_list_len(tb2[0]);
        assert((enc_lists(tb1) + s1)[0] == tb1[0].len() as u64);
        assert((enc_lists(tb2) + s2)[0] == tb2[0].len() as u64);
        assert(tb1[0].len() as u64 == tb2[0].len() as u64);
        assert(tb1[0].len() == tb2[0].len());
        let a1 = seq![tb1[0].len() as u64] + enc_list(tb1[0]);
        let a2 = seq![tb2[0].len() as u64] + enc_list(tb2[0]);
        let b1 = enc_lists(tb1.skip(1)) + s1;
        let b2 = enc_lists(tb2.skip(1)) + s2;
        assert(a1 + b1 =~= enc_lists(tb1) + s1);
        assert(a2 + b2 =~= enc_lists(tb2) + s2);
        lemma_concat_cancel(a1, b1, a2, b2);
        lemma_concat_cancel(
            seq![tb1[0].len() as u64],
            enc_list(tb1[0]),
            seq![tb2[0].len() as u64],
            enc_list(tb2[0]),
        );
        lemma_enc_list_inj(tb1[0], tb2[0]);
        assert(forall|i: int| 0 <= i < tb1.skip(1).len() ==> (#[trigger] tb1.skip(1)[i]) == tb1[
            i + 1
        ]);
        assert(forall|i: int| 0 <= i < tb2.skip(1).len() ==> (#[trigger] tb2.skip(1)[i]) == tb2[
            i + 1
        ]);
        lemma_enc_lists_prefix(tb1.skip(1), tb2.skip(1), s1, s2);
        assert forall|i: int| 0 <= i < tb1.len() implies tb1[i] == tb2[i] by {
            if i > 0 {
                assert(tb1.skip(1)[i - 1] == tb2.skip(1)[i - 1]);
            }
        }
        assert(tb1 =~= tb2);
    }
}

/// Peeling the first entry off a row encoding.
pub proof fn lemma_enc_row_peel(r: Seq<Entry>)
    requires
        r.len() > 0,
    ensures
        enc_row(r) == enc_entry(r[0]) + enc_row(r.skip(1)),
    decreases r.len(),
{
    if r.len() == 1 {
        assert(r.drop_last() =~= Seq::<Entry>::empty());
        assert(r.skip(1) =~= Seq::<Entry>::empty());
        assert(r.last() == r[0]);
        assert(enc_row(r) =~= enc_entry(r[0]) + enc_row(r.skip(1)));
    } else {
        let dl = r.drop_last();
        lemma_enc_row_peel(dl);
        assert(dl[0] == r[0]);
        assert(r.skip(1).drop_last() =~= dl.skip(1));
        assert(r.skip(1).last() == r.last());
        assert(enc_row(r.skip(1)) == enc_row(dl.skip(1)) + enc_entry(r.last()));
        assert(enc_row(r) =~= enc_entry(r[0]) + enc_row(r.skip(1)));
    }
}

/// Peeling the first entry off a list encoding.
pub proof fn lemma_enc_list_peel(l: Seq<Scored>)
    requires
        l.len() > 0,
    ensures
        enc_list(l) == enc_scored(l[0]) + enc_list(l.skip(1)),
    decreases l.len(),
{
    if l.len() == 1 {
        assert(l.drop_last() =~= Seq::<Scored>::empty());
        assert(l.skip(1) =~= Seq::<Scored>::empty());
        assert(l.last() == l[0]);
        assert(enc_list(l) =~= enc_scored(l[0]) + enc_list(l.skip(1)));
    } else {
        let dl = l.drop_last();
        lemma_enc_list_peel(dl);
        assert(dl[0] == l[0]);
        assert(l.skip(1).drop_last() =~= dl.skip(1));
        assert(l.skip(1).last() == l.last());
        assert(enc_list(l.skip(1)) == enc_list(dl.skip(1)) + enc_scored(l.last()));
        assert(enc_list(l) =~= enc_scored(l[0]) + enc_list(l.skip(1)));
    }
}

/// A score split into its low and high words recombines to itself.
pub proof fn lemma_score_recompose(s: u128)
    ensures
        ((((s & 0xffff_ffff_ffff_ffff) as u64) as u128) | ((((s >> 64) as u64) as u128) << 64))
            == s,
{
    assert(((((s & 0xffff_ffff_ffff_ffff) as u64) as u128) | ((((s >> 64) as u64) as u128) << 64))
        == s) by (bit_vector);
}

/// A sorted row over indices below `n` has at most `n` entries.
pub proof fn lemma_row_len_le(r: Seq<Entry>, n: nat)
    requires
        sorted_by_idx(r),
        crate::sparse::entries_below(r, n),
    ensures
        r.len() <= n,
{
    if r.len() > n {
        crate::sparse::lemma_sorted_index_lb(r, n as int);
        assert((r[n as int].idx as nat) >= n);
        assert(false);
    }
}

/// Two sorted entry lists that answer every lookup alike are equal.
pub proof fn lemma_find_w_eq_sorted(s1: Seq<Entry>, s2: Seq<Entry>)
    requires
        sorted_by_idx(s1),
        sorted_by_idx(s2),
        forall|x: u32| #[trigger] crate::sparse::find_w(s1, x) == crate::sparse::find_w(s2, x),
    ensures
        s1 == s2,
    decreases s1.len(),
{
    if s1.len() == 0 {
        if s2.len() > 0 {
            assert(crate::sparse::find_w(s2, s2[0].idx) == Some(s2[0].weight));
            assert(crate::sparse::find_w(s1, s2[0].idx).is_none());
            assert(false);
        }
        assert(s1 =~= s2);
    } else if s2.len() == 0 {
        assert(crate::sparse::find_w(s1, s1[0].idx) == Some(s1[0].weight));
        assert(crate::sparse::find_w(s2, s1[0].idx).is_none());
        assert(false);
    } else {
        // The heads agree: each head's index occurs in the other list,
        // and sorted order puts the smallest index first.
        assert(crate::sparse::find_w(s1, s1[0].idx) == Some(s1[0].weight));
        assert(crate::sparse::find_w(s2, s2[0].idx) == Some(s2[0].weight));
        crate::sparse::lemma_find_w_occurs(s2, s1[0].idx);
        crate::sparse::lemma_find_w_occurs(s1, s2[0].idx);
        let t2 = choose|t: int| 0 <= t < s2.len() && (#[trigger] s2[t].idx) == s1[0].idx;
        let t1 = choose|t: int| 0 <= t < s1.len() && (#[trigger] s1[t].idx) == s2[0].idx;
        if t2 > 0 {
            assert(s2[0].idx < s2[t2].idx);
        }
        if t1 > 0 {
            assert(s1[0].idx < s1[t1].idx);
        }
        assert(s1[0].idx == s2[0].idx);
        assert(crate::sparse::find_w(s2, s1[0].idx) == Some(s2[0].weight));
        assert(s1[0] == s2[0]);
        assert forall|x: u32| #[trigger] crate::sparse::find_w(s1.skip(1), x)
            == crate::sparse::find_w(s2.skip(1), x) by {
            if x == s1[0].idx {
                crate::sparse::lemma_find_w_occurs(s1.skip(1), x);
                if crate::sparse::find_w(s1.skip(1), x).is_some() {
                    let t = choose|t: int|
                        0 <= t < s1.skip(1).len() && (#[trigger] s1.skip(1)[t].idx) == x;
                    assert(s1[t + 1].idx == x);
                    assert(s1[0].idx < s1[t + 1].idx);
                    assert(false);
                }
                crate::sparse::lemma_find_w_occurs(s2.skip(1), x);
                if crate::sparse::find_w(s2.skip(1), x).is_some() {
                    let t = choose|t: int|
                        0 <= t < s2.skip(1).len() && (#[trigger] s2.skip(1)[t].idx) == x;
                    assert(s2[t + 1].idx == x);
                    assert(s2[0].idx < s2[t + 1].idx);
                    assert(false);
                }
            } else {
                assert(crate::sparse::find_w(s1, x) == crate::sparse::find_w(s1.skip(1), x));
                assert(crate::sparse::find_w(s2, x) == crate::sparse::find_w(s2.skip(1), x));
            }
        }
        assert(forall|a: int, b: int|
            0 <= a < b < s1.skip(1).len() ==> (#[trigger] s1.skip(1)[a]).idx < (
            #[trigger] s1.skip(1)[b]).idx);
        assert(forall|a: int, b: int|
            0 <= a < b < s2.skip(1).len() ==> (#[trigger] s2.skip(1)[a]).idx < (
            #[trigger] s2.skip(1)[b]).idx);
        lemma_find_w_eq_sorted(s1.skip(1), s2.skip(1));
        assert(s1.len() == s2.len());
        assert forall|i: int| 0 <= i < s1.len() implies s1[i] == s2[i] by {
            if i > 0 {
                assert(s1.skip(1)[i - 1] == s2.skip(1)[i - 1]);
            }
        }
        assert(s1 =~= s2);
    }
}

/// The column view of a well-formed matrix is determined by its rows:
/// two consistent, sorted column views over the same rows coincide.
pub proof fn lemma_cols_determined(
    rs: Seq<Seq<Entry>>,
    cs1: Seq<Seq<Entry>>,
    cs2: Seq<Seq<Entry>>,
)
    requires
        crate::sparse::axis_pair_wf(rs, cs1),
        crate::sparse::axis_pair_wf(rs, cs2),
        cs1.len() == cs2.len(),
    ensures
        cs1 == cs2,
{
    assert forall|i: int| 0 <= i < cs1.len() implies cs1[i] == cs2[i] by {
        assert forall|x: u32| #[trigger] crate::sparse::find_w(cs1[i], x)
            == crate::sparse::find_w(cs2[i], x) by {
            if (x as nat) < rs.len() {
                assert(crate::sparse::find_w(cs1[i], x) == crate::sparse::find_w(
                    rs[x as int],
                    i as u32,
                ));
                assert(crate::sparse::find_w(cs2[i], x) == crate::sparse::find_w(
                    rs[x as int],
                    i as u32,
                ));
            } else {
                crate::sparse::lemma_find_w_occurs(cs1[i], x);
                if crate::sparse::find_w(cs1[i], x).is_some() {
                    let t = choose|t: int|
                        0 <= t < cs1[i].len() && (#[trigger] cs1[i][t].idx) == x;
                    assert((cs1[i][t].idx as nat) < rs.len());
                    assert(false);
                }
                crate::sparse::lemma_find_w_occurs(cs2[i], x);
                if crate::sparse::find_w(cs2[i], x).is_some() {
                    let t = choose|t: int|
                        0 <= t < cs2[i].len() && (#[trigger] cs2[i][t].idx) == x;
                    assert((cs2[i][t].idx as nat) < rs.len());
                    assert(false);
                }
            }
        }
        assert(sorted_by_idx(cs1[i]));
        assert(sorted_by_idx(cs2[i]));
        lemma_find_w_eq_sorted(cs1[i], cs2[i]);
    }
    assert(cs1 =~= cs2);
}

/// Every count the encoding stores fits one word: the bound under
/// which the layout is self-describing.
pub open spec fn bounded_view(v: ModelV) -> bool {
    &&& v.k < 0x1_0000_0000_0000_0000
    &&& v.users.len() < 0x1_0000_0000_0000_0000
    &&& v.items.len() < 0x1_0000_0000_0000_0000
    &&& v.rows.len() < 0x1_0000_0000_0000_0000
    &&& v.table.len() < 0x1_0000_0000_0000_0000
    &&& forall|i: int| 0 <= i < v.rows.len() ==> (#[trigger] v.rows[i]).len()
        < 0x1_0000_0000_0000_0000
    &&& forall|i: int| 0 <= i < v.table.len() ==> (#[trigger] v.table[i]).len()
        < 0x1_0000_0000_0000_0000
}

/// A well-formed model's view is within the layout's bounds.
pub proof fn lemma_wf_bounded(m: Model)
    requires
        m.wf(),
    ensures
        bounded_view(m.model_view()),
{
    let v = m.model_view();
    assert forall|i: int| 0 <= i < v.rows.len() implies (#[trigger] v.rows[i]).len()
        < 0x1_0000_0000_0000_0000 by {
        assert(sorted_by_idx(m.matrix.rows_view()[i]));
        crate::sparse::lemma_sorted_len(m.matrix.rows_view()[i]);
    }
    assert forall|i: int| 0 <= i < v.table.len() implies (#[trigger] v.table[i]).len()
        < 0x1_0000_0000_0000_0000 by {
        assert(crate::engine::table_view(m.table@)[i].len() <= m.k as nat);
    }
}

/// The word image determines the model: two bounded views with the
/// same encoding are the same view.
#[verifier::rlimit(100)]
#[verifier::spinoff_prover]
pub proof fn lemma_enc_model_inj(v1: ModelV, v2: ModelV)
    requires
        bounded_view(v1),
        bounded_view(v2),
        enc_model(v1) == enc_model(v2),
    ensures
        v1 == v2,
{
    let h1 = seq![
        FORMAT_TAG,
        FORMAT_VERSION,
        axis_code(v1.axis),
        metric_code(v1.metric),
        v1.k as u64,
        policy_code(v1.policy),
    ];
    let h2 = seq![
        FORMAT_TAG,
        FORMAT_VERSION,
        axis_code(v2.axis),
        metric_code(v2.metric),
        v2.k as u64,
        policy_code(v2.policy),
    ];
    let r1 = seq![v1.users.len() as u64] + v1.users + (seq![v1.items.len() as u64] + v1.items + (
    seq![v1.rows.len() as u64] + (enc_rows(v1.rows) + (seq![v1.table.len() as u64] + enc_lists(
        v1.table,
    )))));
    let r2 = seq![v2.users.len() as u64] + v2.users + (seq![v2.items.len() as u64] + v2.items + (
    seq![v2.rows.len() as u64] + (enc_rows(v2.rows) + (seq![v2.table.len() as u64] + enc_lists(
        v2.table,
    )))));
    assert(h1 + r1 =~= enc_model(v1));
    assert(h2 + r2 =~= enc_model(v2));
    lemma_concat_cancel(h1, r1, h2, r2);
    assert(h1[2] == h2[2] && h1[3] == h2[3] && h1[4] == h2[4] && h1[5] == h2[5]);
    assert(v1.axis == v2.axis);
    assert(v1.metric == v2.metric);
    assert(v1.policy == v2.policy);
    assert(v1.k == v2.k);
    let u1 = seq![v1.users.len() as u64] + v1.users;
    let u2 = seq![v2.users.len() as u64] + v2.users;
    assert(u1[0] == u2[0]) by {
        assert(r1[0] == u1[0] && r2[0] == u2[0]);
    }
    assert(v1.users.len() == v2.users.len());
    assert(u1 + (r1.skip(u1.len() as int)) =~= r1);
    assert(u2 + (r2.skip(u2.len() as int)) =~= r2);
    lemma_concat_cancel(u1, r1.skip(u1.len() as int), u2, r2.skip(u2.len() as int));
    lemma_concat_cancel(
        seq![v1.users.len() as u64],
        v1.users,
        seq![v2.users.len() as u64],
        v2.users,
    );
    let q1 = r1.skip(u1.len() as int);
    let q2 = r2.skip(u2.len() as int);
    assert(q1 =~= seq![v1.items.len() as u64] + v1.items + (seq![v1.rows.len() as u64] + (enc_rows(
        v1.rows,
    ) + (seq![v1.table.len() as u64] + enc_lists(v1.table)))));
    assert(q2 =~= seq![v2.items.len() as u64] + v2.items + (seq![v2.rows.len() as u64] + (enc_rows(
        v2.rows,
    ) + (seq![v2.table.len() as u64] + enc_lists(v2.table)))));
    let i1 = seq![v1.items.len() as u64] + v1.items;
    let i2 = seq![v2.items.len() as u64] + v2.items;
    assert(i1[0] == i2[0]) by {
        assert(q1[0] == i1[0] && q2[0] == i2[0]);
    }
    assert(v1.items.len() == v2.items.len());
    assert(i1 + (q1.skip(i1.len() as int)) =~= q1);
    assert(i2 + (q2.skip(i2.len() as int)) =~= q2);
    lemma_concat_cancel(i1, q1.skip(i1.len() as int), i2, q2.skip(i2.len() as int));
    lemma_concat_cancel(
        seq![v1.items.len() as u64],
        v1.items,
        seq![v2.items.len() as u64],
        v2.items,
    );
    let p1 = q1.skip(i1.len() as int);
    let p2 = q2.skip(i2.len() as int);
    assert(p1 =~= seq![v1.rows.len() as u64] + (enc_rows(v1.rows) + (seq![v1.table.len() as u64]
        + enc_lists(v1.table))));
    assert(p2 =~= seq![v2.rows.len() as u64] + (enc_rows(v2.rows) + (seq![v2.table.len() as u64]
        + enc_lists(v2.table))));
    lemma_concat_cancel(
        seq![v1.rows.len() as u64],
        enc_rows(v1.rows) + (seq![v1.table.len() as u64] + enc_lists(v1.table)),
        seq![v2.rows.len() as u64],
        enc_rows(v2.rows) + (seq![v2.table.len() as u64] + enc_lists(v2.table)),
    );
    assert(seq![v1.rows.len() as u64][0] == seq![v2.rows.len() as u64][0]);
    assert(v1.rows.len() == v2.rows.len());
    lemma_enc_rows_prefix(
        v1.rows,
        v2.rows,
        seq![v1.table.len() as u64] + enc_lists(v1.table),
        seq![v2.table.len() as u64] + enc_lists(v2.table),
    );
    lemma_concat_cancel(
        seq![v1.table.len() as u64],
        enc_lists(v1.table),
        seq![v2.table.len() as u64],
        enc_lists(v2.table),
    );
    assert(seq![v1.table.len() as u64][0] == seq![v2.table.len() as u64][0]);
    assert(v1.table.len() == v2.table.len());
    assert(enc_lists(v1.table) + Seq::<u64>::empty() =~= enc_lists(v1.table));
    assert(enc_lists(v2.table) + Seq::<u64>::empty() =~= enc_lists(v2.table));
    lemma_enc_lists_prefix(
        v1.table,
        v2.table,
        Seq::<u64>::empty(),
        Seq::<u64>::empty(),
    );
}

/// A pairwise-later comparison implies the full strict order.
pub proof fn lemma_adjacent_sorted(s: Seq<Entry>, a: int, b: int)
    requires
        forall|i: int| 0 <= i < s.len() - 1 ==> (#[trigger] s[i].idx) < s[i + 1].idx,
        0 <= a < b < s.len(),
    ensures
        s[a].idx < s[b].idx,
    decreases b - a,
{
    if b > a + 1 {
        lemma_adjacent_sorted(s, a, b - 1);
        assert(s[b - 1].idx < s[b].idx);
    }
}

/// A pairwise-adjacent rank comparison implies the full ranking.
pub proof fn lemma_adjacent_ranked(s: Seq<Scored>, a: int, b: int)
    requires
        forall|i: int| 0 <= i < s.len() - 1 ==> ranks_before(#[trigger] s[i], s[i + 1]),
        0 <= a < b < s.len(),
    ensures
        ranks_before(s[a], s[b]),
    decreases b - a,
{
    if b > a + 1 {
        lemma_adjacent_ranked(s, a, b - 1);
        assert(ranks_before(s[b - 1], s[b]));
    }
}

/// Whether the ids are pairwise distinct.
pub fn check_distinct(ids: &Vec<u64>) -> (r: bool)
    ensures
        r == distinct_ids(ids@),
{
    let mut a: usize = 0;
    while a < ids.len()
        invariant
            a <= ids@.len(),
            forall|x: int, y: int| 0 <= x < y < ids@.len() && x < a ==> ids@[x] != ids@[y],
        decreases ids.len() - a,
    {
        let mut b: usize = a + 1;
        while b < ids.len()
            invariant
                a < b <= ids@.len() || (a + 1 == b && b > ids@.len()),
                a < ids@.len(),
                forall|y: int| a < y < b ==> ids@[a as int] != ids@[y],
            decreases ids.len() - b,
        {
            if ids[a] == ids[b] {
                return false;
            }
            b = b + 1;
        }
        a = a + 1;
    }
    true
}

/// Whether a parsed row is sorted with indices below `ni` and
/// positive weights.
pub fn check_row(row: &Vec<Entry>, ni: usize) -> (r: bool)
    ensures
        r == (sorted_by_idx(row@) && crate::sparse::entries_below(row@, ni as nat)
            && crate::sparse::weights_positive(row@)),
{
    let mut t: usize = 0;
    while t < row.len()
        invariant
            t <= row@.len(),
            forall|i: int| 0 <= i < t ==> ((#[trigger] row@[i].idx) as nat) < ni as nat,
            forall|i: int| 0 <= i < t ==> (#[trigger] row@[i].weight) >= 1,
            forall|i: int| 0 <= i < t - 1 ==> (#[trigger] row@[i].idx) < row@[i + 1].idx,
        decreases row.len() - t,
    {
        let e = row[t];
        if e.idx as usize >= ni || e.weight == 0 {
            proof {
                assert(!(crate::sparse::entries_below(row@, ni as nat)
                    && crate::sparse::weights_positive(row@)));
            }
            return false;
        }
        if t > 0 && row[t - 1].idx >= e.idx {
            proof {
                assert(!sorted_by_idx(row@));
            }
            return false;
        }
        t = t + 1;
    }
    proof {
        assert forall|a: int, b: int| 0 <= a < b < row@.len() implies row@[a].idx < row@[b].idx by {
            lemma_adjacent_sorted(row@, a, b);
        }
    }
    true
}

/// Whether a parsed neighbor list is ranked, within the cap, over
/// indices below `n`, with capped scores and distinct indices.
pub fn check_list(l: &Vec<Scored>, n: usize, k: usize) -> (r: bool)
    ensures
        r == (ranked(l@) && l@.len() <= k && (forall|t: int|
            0 <= t < l@.len() ==> ((#[trigger] l@[t]).idx as nat) < n as nat && (
            l@[t].score as nat) <= SCALE as nat) && (forall|a: int, b: int|
            0 <= a < b < l@.len() ==> (#[trigger] l@[a]).idx != (#[trigger] l@[b]).idx)),
{
    if l.len() > k {
        return false;
    }
    let mut t: usize = 0;
    while t < l.len()
        invariant
            t <= l@.len(),
            forall|i: int| 0 <= i < t ==> ((#[trigger] l@[i]).idx as nat) < n as nat && (
            l@[i].score as nat) <= SCALE as nat,
            forall|i: int| 0 <= i < t - 1 ==> ranks_before(#[trigger] l@[i], l@[i + 1]),
        decreases l.len() - t,
    {
        let e = l[t];
        if e.idx as usize >= n || e.score > SCALE as u128 {
            return false;
        }
        if t > 0 {
            let prev = l[t - 1];
            if !(prev.score > e.score || (prev.score == e.score && prev.idx < e.idx)) {
                proof {
                    assert(!ranked(l@));
                }
                return false;
            }
        }
        t = t + 1;
    }
    let mut a: usize = 0;
    while a < l.len()
        invariant
            a <= l@.len(),
            forall|i: int| 0 <= i < l@.len() ==> ((#[trigger] l@[i]).idx as nat) < n as nat && (
            l@[i].score as nat) <= SCALE as nat,
            forall|i: int| 0 <= i < l@.len() - 1 ==> ranks_before(#[trigger] l@[i], l@[i + 1]),
            forall|x: int, y: int| 0 <= x < y < l@.len() && x < a ==> (#[trigger] l@[x]).idx != (
            #[trigger] l@[y]).idx,
        decreases l.len() - a,
    {
        let mut b: usize = a + 1;
        while b < l.len()
            invariant
                a < b <= l@.len() || (a + 1 == b && b > l@.len()),
                a < l@.len(),
                forall|y: int| a < y < b ==> (#[trigger] l@[y]).idx != l@[a as int].idx,
            decreases l.len() - b,
        {
            if l[a].idx == l[b].idx {
                return false;
            }
            b = b + 1;
        }
        a = a + 1;
    }
    proof {
        assert forall|x: int, y: int| 0 <= x < y < l@.len() implies ranks_before(l@[x], l@[y]) by {
            lemma_adjacent_ranked(l@, x, y);
        }
    }
    true
}

/// Recomposing eight bytes little-endian and taking them apart again
/// returns the same bytes.
pub proof fn lemma_le_recompose(b0: u8, b1: u8, b2: u8, b3: u8, b4: u8, b5: u8, b6: u8, b7: u8)
    ensures
        ({
            let w = (b0 as u64) | ((b1 as u64) << 8) | ((b2 as u64) << 16) | ((b3 as u64) << 24)
                | ((b4 as u64) << 32) | ((b5 as u64) << 40) | ((b6 as u64) << 48) | ((b7 as u64)
                << 56);
            &&& (w & 0xff) as u8 == b0
            &&& ((w >> 8) & 0xff) as u8 == b1
            &&& ((w >> 16) & 0xff) as u8 == b2
            &&& ((w >> 24) & 0xff) as u8 == b3
            &&& ((w >> 32) & 0xff) as u8 == b4
            &&& ((w >> 40) & 0xff) as u8 == b5
            &&& ((w >> 48) & 0xff) as u8 == b6
            &&& ((w >> 56) & 0xff) as u8 == b7
        }),
{
    assert(({
        let w = (b0 as u64) | ((b1 as u64) << 8) | ((b2 as u64) << 16) | ((b3 as u64) << 24) | ((
        b4 as u64) << 32) | ((b5 as u64) << 40) | ((b6 as u64) << 48) | ((b7 as u64) << 56);
        &&& (w & 0xff) == b0 as u64
        &&& ((w >> 8) & 0xff) == b1 as u64
        &&& ((w >> 16) & 0xff) == b2 as u64
        &&& ((w >> 24) & 0xff) == b3 as u64
        &&& ((w >> 32) & 0xff) == b4 as u64
        &&& ((w >> 40) & 0xff) == b5 as u64
        &&& ((w >> 48) & 0xff) == b6 as u64
        &&& ((w >> 56) & 0xff) == b7 as u64
    })) by (bit_vector);
}

/// Restores a model from a serialized payload. The format tag, the
/// version and the whole structure are validated, the matrix is
/// rebuilt through the verified insertion path, the payload is
/// accepted only if the restored model re-serializes to exactly the
/// input bytes, and the stored neighbor table must equal the engine's
/// recomputation from the restored matrix — so an accepted model is
/// synchronized and ready for incremental updates, and, because the
/// byte image determines every component, it equals any well-formed
/// model that serializes to these bytes. A rejected payload never
/// yields a partial model.
#[verifier::rlimit(100)]
#[verifier::spinoff_prover]
pub fn load(bytes: &Vec<u8>) -> (r: Result<Model, RecError>)
    ensures
        match r {
            Ok(m) => m.wf() && m.synced() && bytes@ == bytes_of(enc_model(m.model_view())) && (
            forall|m0: Model| m0.wf() && bytes@ == bytes_of(
                enc_model(#[trigger] m0.model_view()),
            ) ==> m.model_view() == m0.model_view()),
            Err(e) => e == RecError::FormatError,
        },
{
    let ws = match parse_words(bytes) {
        Ok(ws) => ws,
        Err(_) => {
            return Err(RecError::FormatError);
        },
    };
    if ws.len() < 6 {
        return Err(RecError::FormatError);
    }
    if ws[0] != FORMAT_TAG || ws[1] != FORMAT_VERSION {
        return Err(RecError::FormatError);
    }
    let axis = match crate::axis_from_code(ws[2]) {
        Ok(a) => a,
        Err(_) => {
            return Err(RecError::FormatError);
        },
    };
    let metric = match crate::metric_from_code(ws[3]) {
        Ok(m) => m,
        Err(_) => {
            return Err(RecError::FormatError);
        },
    };
    let kw = ws[4];
    if kw == 0 || kw > usize::MAX as u64 {
        return Err(RecError::FormatError);
    }
    let k = kw as usize;
    let policy = match crate::policy_from_code(ws[5]) {
        Ok(p) => p,
        Err(_) => {
            return Err(RecError::FormatError);
        },
    };
    let mut pos: usize = 6;
    // User ids.
    if pos >= ws.len() {
        return Err(RecError::FormatError);
    }
    let nu64 = ws[pos];
    pos = pos + 1;
    if nu64 > 0x1_0000_0000u64 || nu64 > usize::MAX as u64 {
        return Err(RecError::FormatError);
    }
    let nu = nu64 as usize;
    let mut user_ids: Vec<u64> = Vec::new();
    let mut t: usize = 0;
    while t < nu
        invariant
            t <= nu,
            user_ids@.len() == t,
            pos <= ws@.len(),
            nu <= 0x1_0000_0000,
            ws@.len() <= usize::MAX,
        decreases nu - t,
    {
        if pos >= ws.len() {
            return Err(RecError::FormatError);
        }
        let v = ws[pos];
        user_ids.push(v);
        pos = pos + 1;
        t = t + 1;
    }
    if !check_distinct(&user_ids) {
        return Err(RecError::FormatError);
    }
    // Item ids.
    if pos >= ws.len() {
        return Err(RecError::FormatError);
    }
    let ni64 = ws[pos];
    pos = pos + 1;
    if ni64 > 0x1_0000_0000u64 || ni64 > usize::MAX as u64 {
        return Err(RecError::FormatError);
    }
    let ni = ni64 as usize;
    let mut item_ids: Vec<u64> = Vec::new();
    let mut t2: usize = 0;
    while t2 < ni
        invariant
            t2 <= ni,
            item_ids@.len() == t2,
            pos <= ws@.len(),
            ni <= 0x1_0000_0000,
            ws@.len() <= usize::MAX,
        decreases ni - t2,
    {
        if pos >= ws.len() {
            return Err(RecError::FormatError);
        }
        let v = ws[pos];
        item_ids.push(v);
        pos = pos + 1;
        t2 = t2 + 1;
    }
    if !check_distinct(&item_ids) {
        return Err(RecError::FormatError);
    }
    // Matrix rows, rebuilt through the verified insertion path.
    if pos >= ws.len() {
        return Err(RecError::FormatError);
    }
    let nrows64 = ws[pos];
    pos = pos + 1;
    if nrows64 != nu as u64 {
        return Err(RecError::FormatError);
    }
    let mut matrix = SparseMatrix::new();
    let mut u: usize = 0;
    while u < nu
        invariant
            u <= nu,
            nu <= 0x1_0000_0000,
            ni <= 0x1_0000_0000,
            ws@.len() <= usize::MAX,
            pos <= ws@.len(),
            matrix.wf(),
            matrix.rows_view().len() == u,
            matrix.cols_view().len() == 0,
            forall|j: int| 0 <= j < u ==> (#[trigger] matrix.rows_view()[j]).len() == 0,
        decreases nu - u,
    {
        matrix.push_row();
        u = u + 1;
    }
    let mut i: usize = 0;
    while i < ni
        invariant
            i <= ni,
            nu <= 0x1_0000_0000,
            ni <= 0x1_0000_0000,
            ws@.len() <= usize::MAX,
            pos <= ws@.len(),
            matrix.wf(),
            matrix.rows_view().len() == nu,
            matrix.cols_view().len() == i,
            forall|j: int| 0 <= j < nu ==> (#[trigger] matrix.rows_view()[j]).len() == 0,
        decreases ni - i,
    {
        matrix.push_col();
        i = i + 1;
    }
    let mut u: usize = 0;
    while u < nu
        invariant
            u <= nu,
            nu <= 0x1_0000_0000,
            ni <= 0x1_0000_0000,
            ws@.len() <= usize::MAX,
            pos <= ws@.len(),
            matrix.wf(),
            matrix.rows_view().len() == nu,
            matrix.cols_view().len() == ni,
            forall|j: int| u <= j < nu ==> (#[trigger] matrix.rows_view()[j]).len() == 0,
        decreases nu - u,
    {
        if pos >= ws.len() {
            return Err(RecError::FormatError);
        }
        let rowlen64 = ws[pos];
        pos = pos + 1;
        if rowlen64 > ni as u64 {
            return Err(RecError::FormatError);
        }
        let rowlen = rowlen64 as usize;
        let mut row: Vec<Entry> = Vec::new();
        let mut q: usize = 0;
        while q < rowlen
            invariant
                q <= rowlen,
                rowlen <= ni <= 0x1_0000_0000,
                row@.len() == q,
                ws@.len() <= usize::MAX,
                pos <= ws@.len(),
            decreases rowlen - q,
        {
            if ws.len() - pos < 2 {
                return Err(RecError::FormatError);
            }
            let idx64 = ws[pos];
            let w64 = ws[pos + 1];
            pos = pos + 2;
            if idx64 > 0xffff_ffffu64 || w64 > 0xffffu64 {
                return Err(RecError::FormatError);
            }
            row.push(Entry { idx: idx64 as u32, weight: w64 as u16 });
            q = q + 1;
        }
        if !check_row(&row, ni) {
            return Err(RecError::FormatError);
        }
        // Insert the validated entries; each lands past the current
        // end of the row, so the rebuilt row equals the parsed one.
        let ghost rows_before = matrix.rows_view();
        proof {
            assert(matrix.rows_view()[u as int] =~= row@.take(0));
        }
        let mut q: usize = 0;
        while q < row.len()
            invariant
                q <= row@.len(),
                u < nu,
                sorted_by_idx(row@),
                crate::sparse::entries_below(row@, ni as nat),
                crate::sparse::weights_positive(row@),
                matrix.wf(),
                matrix.rows_view().len() == nu,
                matrix.cols_view().len() == ni,
                matrix.rows_view()[u as int] == row@.take(q as int),
                forall|j: int| 0 <= j < nu && j != u ==> (#[trigger] matrix.rows_view()[j])
                    == rows_before[j],
                forall|j: int| u < j < nu ==> (#[trigger] rows_before[j]).len() == 0,
            decreases row.len() - q,
        {
            let e = row[q];
            proof {
                let pre = row@.take(q as int);
                assert(forall|i: int| 0 <= i < pre.len() ==> (#[trigger] pre[i]) == row@[i]);
                assert(forall|i: int| 0 <= i < pre.len() ==> (#[trigger] pre[i]).idx < e.idx);
                lemma_upsert_at(pre, e.idx, e.weight, MergePolicy::Overwrite, pre.len() as int);
                assert(upsert_s(pre, e.idx, e.weight, MergePolicy::Overwrite) == pre.insert(
                    pre.len() as int,
                    Entry { idx: e.idx, weight: e.weight },
                ));
                assert(pre.insert(pre.len() as int, Entry { idx: e.idx, weight: e.weight }) =~= row@.take(
                    q + 1 as int,
                ));
            }
            matrix.insert_or_accumulate(u, e.idx as usize, e.weight, MergePolicy::Overwrite);
            q = q + 1;
        }
        proof {
            assert(row@.take(row@.len() as int) =~= row@);
        }
        u = u + 1;
    }
    // Neighbor table.
    if pos >= ws.len() {
        return Err(RecError::FormatError);
    }
    let ntab64 = ws[pos];
    pos = pos + 1;
    let n_axis: usize = match axis {
        Axis::User => nu,
        Axis::Item => ni,
    };
    if ntab64 != n_axis as u64 {
        return Err(RecError::FormatError);
    }
    let mut table: Vec<Vec<Scored>> = Vec::new();
    let mut u2: usize = 0;
    while u2 < n_axis
        invariant
            u2 <= n_axis,
            n_axis <= 0x1_0000_0000,
            table@.len() == u2,
            ws@.len() <= usize::MAX,
            pos <= ws@.len(),
            forall|j: int| 0 <= j < u2 ==> {
                let l = (#[trigger] table@[j])@;
                &&& ranked(l)
                &&& l.len() <= k as nat
                &&& (forall|t: int| 0 <= t < l.len() ==> ((#[trigger] l[t]).idx as nat)
                    < n_axis as nat && (l[t].score as nat) <= SCALE as nat)
                &&& (forall|a: int, b: int| 0 <= a < b < l.len() ==> (#[trigger] l[a]).idx != (
                #[trigger] l[b]).idx)
            },
        decreases n_axis - u2,
    {
        if pos >= ws.len() {
            return Err(RecError::FormatError);
        }
        let llen64 = ws[pos];
        pos = pos + 1;
        if llen64 > k as u64 || llen64 > 0x1_0000_0000u64 || llen64 > usize::MAX as u64 {
            return Err(RecError::FormatError);
        }
        let llen = llen64 as usize;
        let mut lst: Vec<Scored> = Vec::new();
        let mut q: usize = 0;
        while q < llen
            invariant
                q <= llen,
                llen <= 0x1_0000_0001,
                lst@.len() == q,
                ws@.len() <= usize::MAX,
                pos <= ws@.len(),
            decreases llen - q,
        {
            if ws.len() - pos < 3 {
                return Err(RecError::FormatError);
            }
            let idx64 = ws[pos];
            let lo = ws[pos + 1];
            let hi = ws[pos + 2];
            pos = pos + 3;
            if idx64 > 0xffff_ffffu64 {
                return Err(RecError::FormatError);
            }
            let score: u128 = (lo as u128) | ((hi as u128) << 64);
            lst.push(Scored { idx: idx64 as u32, score });
            q = q + 1;
        }
        if !check_list(&lst, n_axis, k) {
            return Err(RecError::FormatError);
        }
        table.push(lst);
        u2 = u2 + 1;
    }
    if pos != ws.len() {
        return Err(RecError::FormatError);
    }
    let m = Model { axis, metric, k, policy, user_ids, item_ids, matrix, table };
    proof {
        assert(crate::engine::table_view(m.table@).len() == m.axis_len());
        assert(m.wf());
    }
    // Accept the payload only if the restored model re-serializes to
    // exactly the parsed words.
    let ws2 = encode_words(&m);
    if ws2.len() != ws.len() {
        return Err(RecError::FormatError);
    }
    let mut c: usize = 0;
    while c < ws.len()
        invariant
            c <= ws@.len(),
            ws2@.len() == ws@.len(),
            forall|j: int| 0 <= j < c ==> (#[trigger] ws2@[j]) == ws@[j],
            ws2@ == enc_model(m.model_view()),
            bytes@ == bytes_of(ws@),
            m.wf(),
        decreases ws.len() - c,
    {
        if ws2[c] != ws[c] {
            return Err(RecError::FormatError);
        }
        c = c + 1;
    }
    proof {
        assert(ws2@ =~= ws@);
    }
    // The neighbor table is derived data: accept the payload only if
    // the stored table is exactly what the engine computes from the
    // restored matrix, so a loaded model is ready for incremental
    // updates.
    let is_user = match m.axis {
        Axis::User => true,
        Axis::Item => false,
    };
    let expected: Vec<Vec<Scored>> = if is_user {
        crate::engine::compute_all(&m.matrix.rows, &m.matrix.cols, m.metric, m.k, 1)
    } else {
        proof {
            assert(crate::sparse::axis_pair_wf(
                crate::sparse::lists_view(m.matrix.cols@),
                crate::sparse::lists_view(m.matrix.rows@),
            ));
        }
        crate::engine::compute_all(&m.matrix.cols, &m.matrix.rows, m.metric, m.k, 1)
    };
    if expected.len() != m.table.len() {
        return Err(RecError::FormatError);
    }
    let mut c1: usize = 0;
    while c1 < expected.len()
        invariant
            m.wf(),
            bytes@ == bytes_of(enc_model(m.model_view())),
            expected@.len() == m.table@.len(),
            crate::engine::table_view(expected@) == crate::engine::spec_table(
                m.axis_seqs(),
                m.metric,
                m.k as nat,
            ),
            0 <= c1 <= expected@.len(),
            forall|j: int| 0 <= j < c1 ==> (#[trigger] expected@[j])@ == (m.table@[j])@,
        decreases expected.len() - c1,
    {
        let la = &expected[c1];
        let lb = &m.table[c1];
        if la.len() != lb.len() {
            return Err(RecError::FormatError);
        }
        let mut c2: usize = 0;
        while c2 < la.len()
            invariant
                la@.len() == lb@.len(),
                0 <= c2 <= la@.len(),
                forall|q: int| 0 <= q < c2 ==> (#[trigger] la@[q]) == lb@[q],
            decreases la.len() - c2,
        {
            if !(la[c2].idx == lb[c2].idx && la[c2].score == lb[c2].score) {
                return Err(RecError::FormatError);
            }
            c2 = c2 + 1;
        }
        proof {
            assert(la@ =~= lb@);
        }
        c1 = c1 + 1;
    }
    proof {
        assert(crate::engine::table_view(m.table@) =~= crate::engine::table_view(expected@));
        // The byte image pins every component: any well-formed model
        // with this serialization has exactly this view.
        assert forall|m0: Model|
            m0.wf() && bytes@ == bytes_of(enc_model(#[trigger] m0.model_view()))
            implies m.model_view() == m0.model_view() by {
            lemma_wf_bounded(m0);
            lemma_wf_bounded(m);
            lemma_bytes_of_inj(enc_model(m.model_view()), enc_model(m0.model_view()));
            lemma_enc_model_inj(m.model_view(), m0.model_view());
        }
    }
    Ok(m)
}

} // verus!
