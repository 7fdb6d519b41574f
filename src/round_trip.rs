use vstd::prelude::*;
use crate::types::{ArrayTypeId, tag_byte, tag_of};
use crate::varint::{varint_bytes, varint_size, varint_value, lemma_varint_decodes, lemma_varint_size_fits};
use crate::compressors::{all_at_most, varints, narrow_u8, narrow_u32, lemma_varints_len, simple16_sound, simple16_values};
use crate::select::{Width, Kind, width_max, palette, base_out, candidate_out, select_from, rle_out, rle_of, children_sound};
use crate::integer::{flush_sound, flush_out, seq_max, lowered, bool_bytes, lemma_seq_max_bounds, lemma_lowered_fits, lemma_select_total};
use crate::reader::{parse_varints, widen_u8, widen_u32, expand, decode_branch, payload_values};

verus! {

proof fn lemma_varints_append(a: Seq<u64>, b: Seq<u64>)
    ensures
        varints(a + b) == varints(a) + varints(b),
    decreases b.len(),
{
    if b.len() == 0 {
        assert(a + b =~= a);
        assert(varints(a) + varints(b) =~= varints(a));
    } else {
        assert((a + b).drop_last() =~= a + b.drop_last());
        lemma_varints_append(a, b.drop_last());
        assert(varints(a + b) =~= varints(a) + varints(b));
    }
}

proof fn lemma_parse_varints(s: Seq<u64>)
    ensures
        parse_varints(varints(s)) == Some(s),
    decreases s.len(),
{
    if s.len() > 0 {
        let x = s[0];
        let rest = s.drop_first();
        assert(s =~= seq![x] + rest);
        lemma_varints_append(seq![x], rest);
        assert(seq![x].drop_last() =~= Seq::<u64>::empty());
        assert(varints(Seq::<u64>::empty()) == Seq::<u8>::empty());
        assert(varints(seq![x]) == varints(seq![x].drop_last()) + varint_bytes(x as nat));
        assert(varints(seq![x]) =~= varint_bytes(x as nat));
        let vb = varint_bytes(x as nat);
        let n = varint_size(x as nat);
        lemma_varint_size_fits(x as nat, n);
        lemma_varint_decodes(x as nat, n);
        let b = varints(s);
        assert(b[0] == vb[0]);
        assert(b.take(n as int) =~= vb);
        assert(b.skip(n as int) =~= varints(rest));
        lemma_parse_varints(rest);
        assert(varint_value(vb) == x);
        assert(seq![x] + rest =~= s);
    } else {
        assert(varints(s) =~= Seq::<u8>::empty());
        assert(s =~= Seq::<u64>::empty());
    }
}

proof fn lemma_expand_more_values(runs: Seq<u64>, v: Seq<u64>, more: Seq<u64>)
    requires
        runs.len() <= v.len(),
    ensures
        expand(runs, v + more) == expand(runs, v),
    decreases runs.len(),
{
    if runs.len() > 0 {
        lemma_expand_more_values(runs.drop_last(), v, more);
    }
}

/// Expanding the run-length split of `s` gives `s` back.
pub proof fn lemma_rle_round_trip(s: Seq<u64>)
    requires
        s.len() < 0xffff_ffff_ffff_ffff,
    ensures
        rle_of(s).0.len() == rle_of(s).1.len(),
        rle_of(s).0.len() <= s.len(),
        forall|i: int| 0 <= i < rle_of(s).0.len() ==> 1 <= #[trigger] rle_of(s).0[i] <= s.len(),
        expand(rle_of(s).0, rle_of(s).1) == Some(s),
    decreases s.len(),
{
    if s.len() == 0 {
        assert(Seq::<u64>::empty() =~= s);
    } else {
        let p = s.drop_last();
        let x = s.last();
        lemma_rle_round_trip(p);
        let (r, v) = rle_of(p);
        if v.len() > 0 && v.last() == x {
            let r2 = r.update(r.len() - 1, (r.last() + 1) as u64);
            assert(r2.drop_last() =~= r.drop_last());
            let k = r.last();
            assert(r[r.len() - 1] == k);
            assert(1 <= k);
            assert(Seq::new((k + 1) as nat, |_j: int| v[r.len() - 1])
                =~= Seq::new(k as nat, |_j: int| v[r.len() - 1]).push(x));
            let e0 = expand(r.drop_last(), v)->0;
            assert(e0 + Seq::new((k + 1) as nat, |_j: int| v[r.len() - 1])
                =~= (e0 + Seq::new(k as nat, |_j: int| v[r.len() - 1])).push(x));
            assert(p.push(x) =~= s);
        } else {
            lemma_expand_more_values(r, v, seq![x]);
            assert(v + seq![x] =~= v.push(x));
            assert(r.push(1u64).drop_last() =~= r);
            assert(Seq::new(1nat, |_j: int| x) =~= seq![x]);
            assert(p + seq![x] =~= s);
        }
    }
}

/// A selection outcome is the outcome of one of the candidates.
proof fn lemma_select_is_candidate(w: Width, with_rle: bool, i: int, s: Seq<u64>)
    requires
        select_from(w, with_rle, i, s) is Some,
    ensures
        exists|k: int| i <= k < palette(w, with_rle).len()
            && #[trigger] candidate_out(w, with_rle, k, s) == select_from(w, with_rle, i, s),
    decreases palette(w, with_rle).len() - i,
{
    let pal = palette(w, with_rle);
    if 0 <= i < pal.len() {
        if select_from(w, with_rle, i, s) == candidate_out(w, with_rle, i, s) {
        } else {
            lemma_select_is_candidate(w, with_rle, i + 1, s);
        }
    }
}

/// A length-framed payload at `pos`, its length recorded at `li`.
pub open spec fn framed_at(b: Seq<u8>, lens: Seq<usize>, pos: int, li: int, id: ArrayTypeId, p: Seq<u8>) -> bool {
    &&& 0 <= pos && pos + 1 + p.len() <= b.len()
    &&& b[pos] == tag_byte(id)
    &&& b.subrange(pos + 1, pos + 1 + p.len()) == p
    &&& 0 <= li < lens.len()
    &&& lens[li] == p.len()
}

proof fn lemma_tag_of(id: ArrayTypeId)
    ensures
        tag_of(tag_byte(id)) == id,
        tag_byte(id) <= 6,
{
}

proof fn lemma_payload_decodes(b: Seq<u8>, lens: Seq<usize>, pos: int, li: int, id: ArrayTypeId, p: Seq<u8>, s: Seq<u64>)
    requires
        framed_at(b, lens, pos, li, id, p),
        payload_values(id, p) == Ok::<Seq<u64>, crate::types::ReadError>(s),
        id != ArrayTypeId::Void && id != ArrayTypeId::RLE && id != ArrayTypeId::DoubleGorilla,
    ensures
        decode_branch(b, lens, pos, li) == Ok::<(Seq<u64>, int, int), crate::types::ReadError>((s, pos + 1 + p.len(), li + 1)),
{
    lemma_tag_of(id);
}

/// `d` is `s` followed by zeros.
pub open spec fn zero_extended(d: Seq<u64>, s: Seq<u64>) -> bool {
    &&& d.len() >= s.len()
    &&& d.take(s.len() as int) == s
    &&& forall|i: int| s.len() <= i < d.len() ==> d[i] == 0
}

/// A branch a candidate other than run-length encoding wrote decodes to its
/// input, followed by zeros where Simple16 padded its last word.
proof fn lemma_base_decodes(b: Seq<u8>, lens: Seq<usize>, pos: int, li: int, k: Kind, s: Seq<u64>)
    requires
        k != Kind::Rle,
        k == Kind::Simple16 ==> simple16_sound(s),
        base_out(k, s) is Some,
        framed_at(b, lens, pos, li, (base_out(k, s)->0).0, (base_out(k, s)->0).1),
    ensures
        decode_branch(b, lens, pos, li) matches Ok((d, p, l)) && zero_extended(d, s)
            && p == pos + 1 + (base_out(k, s)->0).1.len() && l == li + 1
            && (k != Kind::Simple16 ==> d == s),
{
    let e = base_out(k, s)->0;
    if k == Kind::PrefixVar {
        lemma_parse_varints(s);
        assert(s.take(s.len() as int) =~= s);
        lemma_payload_decodes(b, lens, pos, li, e.0, e.1, s);
    } else if k == Kind::Bytes {
        assert(widen_u8(narrow_u8(s)) =~= s);
        assert(s.take(s.len() as int) =~= s);
        lemma_payload_decodes(b, lens, pos, li, e.0, e.1, s);
    } else {
        let n32 = narrow_u32(s);
        let vals = simple16_values(e.1);
        let d = widen_u32(vals);
        assert(d.take(s.len() as int) =~= s) by {
            assert forall|i: int| 0 <= i < s.len() implies d[i] == s[i] by {
                assert(vals.take(n32.len() as int)[i] == n32[i]);
            }
        }
        lemma_payload_decodes(b, lens, pos, li, e.0, e.1, d);
    }
}

/// What a base candidate emits: one payload, one length, no inner tags.
proof fn lemma_base_shape(k: Kind, s: Seq<u64>)
    requires
        k != Kind::Rle,
        k == Kind::Simple16 ==> simple16_sound(s),
        base_out(k, s) is Some,
    ensures
        (base_out(k, s)->0).2 == seq![(base_out(k, s)->0).1.len() as usize],
        (base_out(k, s)->0).0 != ArrayTypeId::RLE,
        (base_out(k, s)->0).1.len() <= 9 * s.len(),
{
    lemma_varints_len(s);
}

proof fn lemma_child_kind(v: Width, s: Seq<u64>) -> (kind: Kind)
    requires
        select_from(v, false, 0, s) is Some,
    ensures
        kind != Kind::Rle,
        select_from(v, false, 0, s) == base_out(kind, s),
{
    lemma_select_is_candidate(v, false, 0, s);
    let k = choose|k: int| 0 <= k < palette(v, false).len()
        && #[trigger] candidate_out(v, false, k, s) == select_from(v, false, 0, s);
    let kind = palette(v, false)[k];
    assert(candidate_out(v, false, k, s) == base_out(kind, s));
    kind
}

proof fn lemma_child_shape(v: Width, s: Seq<u64>)
    requires
        select_from(v, false, 0, s) matches Some(a) && (a.0 == ArrayTypeId::IntSimple16 ==> simple16_sound(s)),
    ensures
        (select_from(v, false, 0, s)->0).2 == seq![(select_from(v, false, 0, s)->0).1.len() as usize],
        (select_from(v, false, 0, s)->0).1.len() <= 9 * s.len(),
{
    let kind = lemma_child_kind(v, s);
    lemma_base_shape(kind, s);
}

/// A child of run-length encoding: a base candidate's branch.
proof fn lemma_child_decodes(b: Seq<u8>, lens: Seq<usize>, pos: int, li: int, v: Width, s: Seq<u64>)
    requires
        select_from(v, false, 0, s) matches Some(a) && (a.0 == ArrayTypeId::IntSimple16 ==> simple16_sound(s))
            && framed_at(b, lens, pos, li, a.0, a.1),
    ensures
        decode_branch(b, lens, pos, li) matches Ok((d, p, l)) && zero_extended(d, s)
            && p == pos + 1 + (select_from(v, false, 0, s)->0).1.len() && l == li + 1,
{
    let kind = lemma_child_kind(v, s);
    lemma_base_decodes(b, lens, pos, li, kind, s);
}

proof fn lemma_expand_zero_runs(r: Seq<u64>, z: Seq<u64>, v: Seq<u64>)
    requires
        forall|i: int| 0 <= i < z.len() ==> z[i] == 0,
    ensures
        expand(r + z, v) == expand(r, v),
    decreases z.len(),
{
    if z.len() > 0 {
        assert((r + z).drop_last() =~= r + z.drop_last());
        lemma_expand_zero_runs(r, z.drop_last(), v);
    } else {
        assert(r + z =~= r);
    }
}

/// Expanding zero-extended runs and values gives what the runs and values give.
proof fn lemma_expand_extended(runs: Seq<u64>, values: Seq<u64>, r2: Seq<u64>, v2: Seq<u64>)
    requires
        runs.len() <= values.len(),
        zero_extended(r2, runs),
        zero_extended(v2, values),
    ensures
        expand(r2, v2) == expand(runs, values),
{
    let zr = r2.skip(runs.len() as int);
    assert(r2 =~= runs + zr);
    lemma_expand_zero_runs(runs, zr, v2);
    assert(v2 =~= values + v2.skip(values.len() as int));
    lemma_expand_more_values(runs, values, v2.skip(values.len() as int));
}

#[verifier::spinoff_prover]
#[verifier::rlimit(50)]
proof fn lemma_round_trip_rle(s: Seq<u64>, v: Width)
    requires
        s.len() > 0,
        9 * s.len() + 9 <= usize::MAX,
        rle_out(v, s) is Some,
        children_sound(v, s),
    ensures
        decode_branch(seq![tag_byte(ArrayTypeId::RLE)] + (rle_out(v, s)->0).1, (rle_out(v, s)->0).2, 0, 0)
            == Ok::<(Seq<u64>, int, int), crate::types::ReadError>(
                (s, ((rle_out(v, s)->0).1.len() + 1) as int, (rle_out(v, s)->0).2.len() as int)),
{
    let e = rle_out(v, s)->0;
    let b = seq![tag_byte(ArrayTypeId::RLE)] + e.1;
    let lens = e.2;
    let (runs, vals) = rle_of(s);
    lemma_rle_round_trip(s);
    let a = select_from(v, false, 0, runs)->0;
    let c = select_from(v, false, 0, vals)->0;
    lemma_child_shape(v, runs);
    lemma_child_shape(v, vals);
    let mid: int = (a.1.len() + 2) as int;
    assert(b =~= seq![tag_byte(ArrayTypeId::RLE)] + seq![tag_byte(a.0)] + a.1 + seq![tag_byte(c.0)] + c.1);
    assert(lens =~= seq![a.1.len() as usize, c.1.len() as usize]);
    assert(b.subrange(2, mid) =~= a.1);
    assert(b.subrange(mid + 1, mid + 1 + c.1.len()) =~= c.1);
    lemma_child_decodes(b, lens, 1, 0, v, runs);
    lemma_child_decodes(b, lens, mid, 1, v, vals);
    lemma_tag_of(ArrayTypeId::RLE);
    let r2 = (decode_branch(b, lens, 1, 0)->Ok_0).0;
    let v2 = (decode_branch(b, lens, mid, 1)->Ok_0).0;
    lemma_expand_extended(runs, vals, r2, v2);
}

/// Integer arrays round-trip: decoding the branch `write_array` writes for `s`
/// at width `w` gives `s` back, with every byte and length consumed. Where the
/// branch itself is a Simple16 payload, `s` is followed by the zeros that fill
/// Simple16's last word; reading `s.len()` values gives `s` in every case.
pub proof fn lemma_round_trip(s: Seq<u64>, w: Width)
    requires
        all_at_most(s, width_max(w)),
        9 * s.len() + 9 <= usize::MAX,
        flush_sound(s, w),
    ensures
        decode_branch(seq![tag_byte(flush_out(s, w).0)] + flush_out(s, w).1, flush_out(s, w).2, 0, 0)
            matches Ok((d, p, l)) && zero_extended(d, s) && p == flush_out(s, w).1.len() + 1
            && l == flush_out(s, w).2.len()
            && (flush_out(s, w).0 != ArrayTypeId::IntSimple16 ==> d == s),
{
    let e = flush_out(s, w);
    let b = seq![tag_byte(e.0)] + e.1;
    let lens = e.2;
    lemma_tag_of(e.0);
    assert(s.take(s.len() as int) =~= s);
    if s.len() == 0 {
        assert(s =~= Seq::<u64>::empty());
    } else if seq_max(s) <= 1 {
        lemma_seq_max_bounds(s);
        assert(b.subrange(1, (e.1.len() + 1) as int) =~= e.1);
        assert(widen_u8(bool_bytes(s)) =~= s);
        assert(forall|i: int| 0 <= i < e.1.len() ==> e.1[i] <= 1);
        lemma_payload_decodes(b, lens, 0, 0, e.0, e.1, s);
    } else {
        let v = lowered(w, seq_max(s));
        lemma_seq_max_bounds(s);
        lemma_lowered_fits(w, seq_max(s));
        lemma_select_total(v, true, s);
        lemma_select_is_candidate(v, true, 0, s);
        let k = choose|k: int| 0 <= k < palette(v, true).len()
            && #[trigger] candidate_out(v, true, k, s) == select_from(v, true, 0, s);
        let kind = palette(v, true)[k];
        if kind == Kind::Rle {
            assert(candidate_out(v, true, k, s) == rle_out(v, s));
            lemma_round_trip_rle(s, v);
        } else {
            assert(candidate_out(v, true, k, s) == base_out(kind, s));
            assert(b.subrange(1, (e.1.len() + 1) as int) =~= e.1);
            lemma_base_shape(kind, s);
            lemma_base_decodes(b, lens, 0, 0, kind, s);
        }
    }
}

/// A singleton goes through the same path and reads back: its branch decodes
/// to the value, followed only by Simple16's padding zeros.
pub proof fn lemma_singleton_round_trip(x: u64, w: Width)
    requires
        x <= width_max(w),
        flush_sound(seq![x], w),
    ensures
        decode_branch(seq![tag_byte(flush_out(seq![x], w).0)] + flush_out(seq![x], w).1, flush_out(seq![x], w).2, 0, 0)
            matches Ok((d, _, _)) && d.len() >= 1 && d[0] == x
            && forall|i: int| 1 <= i < d.len() ==> d[i] == 0,
{
    lemma_round_trip(seq![x], w);
    let d = (decode_branch(seq![tag_byte(flush_out(seq![x], w).0)] + flush_out(seq![x], w).1, flush_out(seq![x], w).2, 0, 0)->Ok_0).0;
    assert(d.take(1)[0] == x);
}

} // verus!
