//! Operand packing and the word layout: how operand values become the
//! operand nibbles of a word, and back.
use vstd::prelude::*;
use crate::table::{
    OperandKind, TABLE_LEN, kind_width, sig_width, free_slots, entry_model, nib, nibs, is_word,
    matches_entry, lookup_word, lemma_entry_wf, lemma_matches_fixed, lemma_first_match, nib_of as nib_of_exec,
};

verus! {

/// Whether `v` is a value that an operand of kind `k` can hold.
pub open spec fn legal_value(k: OperandKind, v: i64) -> bool {
    match k {
        OperandKind::Register => 0 <= v <= 15,
        OperandKind::Signed8 => -128 <= v <= 127,
        OperandKind::Unsigned8 => 0 <= v <= 255,
        OperandKind::Imm16 => 0 <= v <= 4095,
        OperandKind::Skip4 => v == 0,
    }
}

pub open spec fn legal_values(ks: Seq<OperandKind>, vs: Seq<i64>) -> bool {
    ks.len() == vs.len() && forall|j: int| 0 <= j < ks.len() ==> legal_value(#[trigger] ks[j], vs[j])
}

/// The nibbles of operand value `v` of kind `k`, most significant first: a
/// signed byte in two's complement, an immediate by its low twelve bits.
pub open spec fn operand_nibbles(k: OperandKind, v: i64) -> Seq<u8> {
    match k {
        OperandKind::Register => seq![(v % 16) as u8],
        OperandKind::Signed8 => {
            let b = (v as int) % 256;
            seq![(b / 16) as u8, (b % 16) as u8]
        },
        OperandKind::Unsigned8 => {
            let b = (v as int) % 256;
            seq![(b / 16) as u8, (b % 16) as u8]
        },
        OperandKind::Imm16 => {
            let t = (v as int) % 4096;
            seq![(t / 256) as u8, ((t / 16) % 16) as u8, (t % 16) as u8]
        },
        OperandKind::Skip4 => seq![0u8],
    }
}

/// The value that the nibbles `n` of an operand of kind `k` stand for.
pub open spec fn operand_value(k: OperandKind, n: Seq<u8>) -> i64 {
    match k {
        OperandKind::Register => n[0] as i64,
        OperandKind::Signed8 => {
            let b = n[0] * 16 + n[1];
            (if b >= 128 {
                b - 256
            } else {
                b
            }) as i64
        },
        OperandKind::Unsigned8 => (n[0] * 16 + n[1]) as i64,
        OperandKind::Imm16 => (n[0] * 256 + n[1] * 16 + n[2]) as i64,
        OperandKind::Skip4 => 0,
    }
}

/// The operand nibbles of a whole signature, in order.
pub open spec fn stream_of(ks: Seq<OperandKind>, vs: Seq<i64>) -> Seq<u8>
    decreases ks.len(),
{
    if ks.len() == 0 {
        seq![]
    } else {
        stream_of(ks.drop_last(), vs.drop_last()) + operand_nibbles(ks.last(), vs.last())
    }
}

/// The operand values that a stream of operand nibbles holds.
pub open spec fn values_of(ks: Seq<OperandKind>, s: Seq<u8>) -> Seq<i64>
    decreases ks.len(),
{
    if ks.len() == 0 {
        seq![]
    } else {
        let w = kind_width(ks.last());
        values_of(ks.drop_last(), s.subrange(0, s.len() - w)).push(
            operand_value(ks.last(), s.subrange(s.len() - w, s.len() as int)),
        )
    }
}

/// The word whose fixed slots come from `p` and whose operand slots (the
/// zero nibbles of `m`) take the nibbles of `s` in order.
pub open spec fn fill(p: Seq<u8>, m: Seq<u8>, s: Seq<u8>) -> Seq<u8>
    decreases p.len(),
{
    if p.len() == 0 {
        seq![]
    } else if m.last() == 0 {
        fill(p.drop_last(), m.drop_last(), s.drop_last()).push(s.last())
    } else {
        fill(p.drop_last(), m.drop_last(), s).push(p.last())
    }
}

/// The nibbles of `w` in the operand slots of `m`, in order.
pub open spec fn gather(w: Seq<u8>, m: Seq<u8>) -> Seq<u8>
    decreases w.len(),
{
    if w.len() == 0 {
        seq![]
    } else if m.last() == 0 {
        gather(w.drop_last(), m.drop_last()).push(w.last())
    } else {
        gather(w.drop_last(), m.drop_last())
    }
}

/// The word that entry `i` gives to operand values `vs`.
pub open spec fn encode_values(i: int, vs: Seq<i64>) -> Seq<u8> {
    let t = entry_model(i);
    fill(nibs(t.pattern), nibs(t.mask), stream_of(t.operands, vs))
}

/// The operand values that word `w` holds when read as entry `i`.
pub open spec fn decode_values(i: int, w: Seq<u8>) -> Seq<i64> {
    let t = entry_model(i);
    values_of(t.operands, gather(w, nibs(t.mask)))
}

proof fn lemma_operand_round_trip(k: OperandKind, v: i64)
    requires
        legal_value(k, v),
    ensures
        operand_nibbles(k, v).len() == kind_width(k),
        operand_value(k, operand_nibbles(k, v)) == v,
        forall|j: int| 0 <= j < kind_width(k) ==> #[trigger] operand_nibbles(k, v)[j] < 16,
{
    match k {
        OperandKind::Signed8 => {
            let b = (v as int) % 256;
            assert(b == if v < 0 { v + 256 } else { v as int });
        },
        _ => {},
    }
}

proof fn lemma_nibbles_round_trip(k: OperandKind, n: Seq<u8>)
    requires
        n.len() == kind_width(k),
        forall|j: int| 0 <= j < n.len() ==> #[trigger] n[j] < 16,
        k != OperandKind::Skip4 || n[0] == 0,
    ensures
        legal_value(k, operand_value(k, n)),
        operand_nibbles(k, operand_value(k, n)) =~= n,
{
    match k {
        OperandKind::Register => {},
        OperandKind::Signed8 => {
            let (a, b) = (n[0] as int, n[1] as int);
            assert(0 <= a * 16 + b < 256 && (a * 16 + b) / 16 == a && (a * 16 + b) % 16 == b)
                by (nonlinear_arith)
                requires
                    0 <= a < 16,
                    0 <= b < 16,
            ;
        },
        OperandKind::Unsigned8 => {
            let (a, b) = (n[0] as int, n[1] as int);
            assert(0 <= a * 16 + b < 256 && (a * 16 + b) / 16 == a && (a * 16 + b) % 16 == b)
                by (nonlinear_arith)
                requires
                    0 <= a < 16,
                    0 <= b < 16,
            ;
        },
        OperandKind::Imm16 => {
            let (a, b, c) = (n[0] as int, n[1] as int, n[2] as int);
            let t = a * 256 + b * 16 + c;
            assert(0 <= t < 4096 && t / 256 == a && (t / 16) % 16 == b && t % 16 == c)
                by (nonlinear_arith)
                requires
                    0 <= a < 16,
                    0 <= b < 16,
                    0 <= c < 16,
                    t == a * 256 + b * 16 + c,
            ;
        },
        OperandKind::Skip4 => {},
    }
}

proof fn lemma_stream_round_trip(ks: Seq<OperandKind>, vs: Seq<i64>)
    requires
        legal_values(ks, vs),
    ensures
        stream_of(ks, vs).len() == sig_width(ks),
        values_of(ks, stream_of(ks, vs)) == vs,
        forall|j: int| 0 <= j < sig_width(ks) ==> #[trigger] stream_of(ks, vs)[j] < 16,
    decreases ks.len(),
{
    if ks.len() > 0 {
        let (kp, vp) = (ks.drop_last(), vs.drop_last());
        assert(legal_values(kp, vp)) by {
            assert forall|j: int| 0 <= j < kp.len() implies legal_value(#[trigger] kp[j], vp[j]) by {
                assert(kp[j] == ks[j] && vp[j] == vs[j]);
            }
        }
        assert(legal_value(ks.last(), vs.last()));
        lemma_stream_round_trip(kp, vp);
        lemma_operand_round_trip(ks.last(), vs.last());
        let s = stream_of(ks, vs);
        let sp = stream_of(kp, vp);
        let on = operand_nibbles(ks.last(), vs.last());
        assert(s.subrange(0, sp.len() as int) =~= sp);
        assert(s.subrange(sp.len() as int, s.len() as int) =~= on);
        assert(vs =~= vp.push(vs.last()));
        assert forall|j: int| 0 <= j < sig_width(ks) implies #[trigger] s[j] < 16 by {
            if j >= sp.len() {
                assert(s[j] == on[j - sp.len()]);
            }
        }
    }
}

proof fn lemma_values_round_trip(ks: Seq<OperandKind>, s: Seq<u8>)
    requires
        s.len() == sig_width(ks),
        forall|j: int| 0 <= j < s.len() ==> #[trigger] s[j] < 16,
        !ks.contains(OperandKind::Skip4),
    ensures
        legal_values(ks, values_of(ks, s)),
        stream_of(ks, values_of(ks, s)) == s,
    decreases ks.len(),
{
    if ks.len() > 0 {
        let kp = ks.drop_last();
        let w = kind_width(ks.last());
        let sp = s.subrange(0, s.len() - w);
        let sl = s.subrange(s.len() - w, s.len() as int);
        assert(!kp.contains(OperandKind::Skip4)) by {
            if kp.contains(OperandKind::Skip4) {
                let j = choose|j: int| 0 <= j < kp.len() && kp[j] == OperandKind::Skip4;
                assert(ks[j] == OperandKind::Skip4);
            }
        }
        assert(ks.last() != OperandKind::Skip4) by {
            assert(ks[ks.len() - 1] == ks.last());
        }
        lemma_values_round_trip(kp, sp);
        lemma_nibbles_round_trip(ks.last(), sl);
        let vs = values_of(ks, s);
        assert(vs.drop_last() =~= values_of(kp, sp));
        assert forall|j: int| 0 <= j < ks.len() implies legal_value(#[trigger] ks[j], vs[j]) by {
            if j < kp.len() {
                assert(ks[j] == kp[j]);
            }
        }
        assert(s =~= sp + sl);
    }
}

proof fn lemma_fill_gather(p: Seq<u8>, m: Seq<u8>, s: Seq<u8>)
    requires
        p.len() == m.len(),
        s.len() == free_slots(m),
    ensures
        fill(p, m, s).len() == p.len(),
        gather(fill(p, m, s), m) == s,
        forall|k: int| 0 <= k < p.len() && m[k] != 0 ==> #[trigger] fill(p, m, s)[k] == p[k],
        (forall|j: int| 0 <= j < s.len() ==> #[trigger] s[j] < 16) && (forall|k: int|
            0 <= k < p.len() ==> #[trigger] p[k] < 16) ==> forall|k: int|
            0 <= k < p.len() ==> #[trigger] fill(p, m, s)[k] < 16,
    decreases p.len(),
{
    if p.len() > 0 {
        let (pp, mp) = (p.drop_last(), m.drop_last());
        let sp = if m.last() == 0 { s.drop_last() } else { s };
        lemma_fill_gather(pp, mp, sp);
        let f = fill(p, m, s);
        assert(f.drop_last() =~= fill(pp, mp, sp));
        if m.last() == 0 {
            assert(s =~= sp.push(s.last()));
        }
        assert forall|k: int| 0 <= k < p.len() && m[k] != 0 implies #[trigger] f[k] == p[k] by {
            if k < pp.len() {
                assert(mp[k] == m[k] && pp[k] == p[k]);
            }
        }
        if (forall|j: int| 0 <= j < s.len() ==> #[trigger] s[j] < 16) && (forall|k: int|
            0 <= k < p.len() ==> #[trigger] p[k] < 16) {
            assert forall|j: int| 0 <= j < sp.len() implies #[trigger] sp[j] < 16 by {
                assert(sp[j] == s[j]);
            }
            assert forall|k: int| 0 <= k < pp.len() implies #[trigger] pp[k] < 16 by {
                assert(pp[k] == p[k]);
            }
            assert forall|k: int| 0 <= k < p.len() implies #[trigger] f[k] < 16 by {
                if k < pp.len() {
                    assert(f[k] == fill(pp, mp, sp)[k]);
                } else if m.last() == 0 {
                    assert(f[k] == s[s.len() - 1]);
                } else {
                    assert(f[k] == p[p.len() - 1]);
                }
            }
        }
    }
}

pub(crate) proof fn lemma_gather_fill(p: Seq<u8>, m: Seq<u8>, w: Seq<u8>)
    requires
        p.len() == m.len(),
        w.len() == m.len(),
        forall|k: int| 0 <= k < m.len() && m[k] != 0 ==> #[trigger] w[k] == p[k],
    ensures
        gather(w, m).len() == free_slots(m),
        fill(p, m, gather(w, m)) == w,
        forall|j: int|
            0 <= j < gather(w, m).len() ==> exists|k: int| 0 <= k < w.len() && #[trigger] gather(w, m)[j] == w[k],
    decreases p.len(),
{
    if p.len() > 0 {
        let (pp, mp, wp) = (p.drop_last(), m.drop_last(), w.drop_last());
        assert forall|k: int| 0 <= k < mp.len() && mp[k] != 0 implies #[trigger] wp[k] == pp[k] by {
            assert(m[k] == mp[k] && w[k] == wp[k] && p[k] == pp[k]);
        }
        lemma_gather_fill(pp, mp, wp);
        let g = gather(w, m);
        let gp = gather(wp, mp);
        if m.last() == 0 {
            assert(g.drop_last() =~= gp);
        } else {
            assert(w.last() == p.last()) by {
                assert(m[m.len() - 1] != 0);
            }
        }
        assert(fill(p, m, g) =~= w);
        assert forall|j: int| 0 <= j < g.len() implies exists|k: int|
            0 <= k < w.len() && #[trigger] g[j] == w[k] by {
            if j < gp.len() {
                let k = choose|k: int| 0 <= k < wp.len() && gp[j] == wp[k];
                assert(w[k] == wp[k]);
            } else {
                assert(g[j] == w[w.len() - 1]);
            }
        }
    }
}

proof fn lemma_free_prefix(m: Seq<u8>, k: int)
    requires
        0 <= k <= m.len(),
    ensures
        free_slots(m.subrange(0, k)) <= free_slots(m),
    decreases m.len() - k,
{
    if k < m.len() {
        lemma_free_prefix(m, k + 1);
        assert(m.subrange(0, k + 1).drop_last() =~= m.subrange(0, k));
    } else {
        assert(m.subrange(0, k) =~= m);
    }
}

proof fn lemma_width_prefix(ks: Seq<OperandKind>, i: int)
    requires
        0 <= i <= ks.len(),
    ensures
        sig_width(ks.subrange(0, i)) <= sig_width(ks),
    decreases ks.len() - i,
{
    if i < ks.len() {
        lemma_width_prefix(ks, i + 1);
        assert(ks.subrange(0, i + 1).drop_last() =~= ks.subrange(0, i));
    } else {
        assert(ks.subrange(0, i) =~= ks);
    }
}

/// The operand nibbles of legal values `vs` of the kinds `ks`.
pub fn operand_stream(ks: &Vec<OperandKind>, vs: &Vec<i64>) -> (r: Vec<u8>)
    requires
        legal_values(ks@, vs@),
    ensures
        r@ == stream_of(ks@, vs@),
        r@.len() == sig_width(ks@),
{
    proof {
        lemma_stream_round_trip(ks@, vs@);
    }
    let mut out: Vec<u8> = Vec::new();
    let mut i: usize = 0;
    while i < ks.len()
        invariant
            i <= ks@.len(),
            legal_values(ks@, vs@),
            out@ == stream_of(ks@.subrange(0, i as int), vs@.subrange(0, i as int)),
        decreases ks.len() - i,
    {
        let k = ks[i];
        let v = vs[i];
        assert(legal_value(ks@[i as int], vs@[i as int]));
        match k {
            OperandKind::Register => {
                out.push(v as u8);
            },
            OperandKind::Signed8 => {
                let b: i64 = if v < 0 {
                    v + 256
                } else {
                    v
                };
                out.push((b / 16) as u8);
                out.push((b % 16) as u8);
            },
            OperandKind::Unsigned8 => {
                out.push((v / 16) as u8);
                out.push((v % 16) as u8);
            },
            OperandKind::Imm16 => {
                out.push((v / 256) as u8);
                out.push(((v / 16) % 16) as u8);
                out.push((v % 16) as u8);
            },
            OperandKind::Skip4 => {
                out.push(0);
            },
        }
        let ghost ks1 = ks@.subrange(0, i as int + 1);
        let ghost vs1 = vs@.subrange(0, i as int + 1);
        assert(ks1.drop_last() =~= ks@.subrange(0, i as int));
        assert(vs1.drop_last() =~= vs@.subrange(0, i as int));
        assert(out@ =~= stream_of(ks1, vs1));
        i += 1;
    }
    assert(ks@.subrange(0, i as int) =~= ks@);
    assert(vs@.subrange(0, i as int) =~= vs@);
    out
}

/// Lays the operand nibbles `s` into the operand slots of `mask`, with the
/// fixed slots taken from `pattern`.
pub fn fill_word(pattern: u16, mask: u16, s: &Vec<u8>) -> (r: Vec<u8>)
    requires
        s@.len() == free_slots(nibs(mask)),
    ensures
        r@ == fill(nibs(pattern), nibs(mask), s@),
{
    let ghost p = nibs(pattern);
    let ghost m = nibs(mask);
    let slen = s.len();
    let mut out: Vec<u8> = Vec::new();
    let mut c: usize = 0;
    let mut k: usize = 0;
    while k < 4
        invariant
            k <= 4,
            p == nibs(pattern),
            m == nibs(mask),
            s@.len() == free_slots(m),
            c == free_slots(m.subrange(0, k as int)),
            c <= s@.len(),
            slen == s@.len(),
            out@ == fill(p.subrange(0, k as int), m.subrange(0, k as int), s@.subrange(0, c as int)),
        decreases 4 - k,
    {
        let ghost m_next = m.subrange(0, k as int + 1);
        let ghost p_next = p.subrange(0, k as int + 1);
        assert(m_next.drop_last() =~= m.subrange(0, k as int));
        assert(p_next.drop_last() =~= p.subrange(0, k as int));
        proof {
            lemma_free_prefix(m, k as int + 1);
        }
        let mk = nib_of_exec(mask, k);
        assert(m_next.last() == mk);
        assert(free_slots(m_next) == c + (if mk == 0 { 1int } else { 0int }));
        if mk == 0 {
            out.push(s[c]);
            assert(s@.subrange(0, c as int + 1).drop_last() =~= s@.subrange(0, c as int));
            c += 1;
        } else {
            out.push(nib_of_exec(pattern, k));
        }
        assert(out@ =~= fill(p_next, m_next, s@.subrange(0, c as int)));
        k += 1;
    }
    assert(p.subrange(0, 4) =~= p);
    assert(m.subrange(0, 4) =~= m);
    assert(s@.subrange(0, c as int) =~= s@);
    out
}

/// The nibbles of `w` in the operand slots of `mask`, in order.
pub fn gather_word(w: &Vec<u8>, mask: u16) -> (r: Vec<u8>)
    requires
        w@.len() == 4,
    ensures
        r@ == gather(w@, nibs(mask)),
{
    let ghost m = nibs(mask);
    let mut out: Vec<u8> = Vec::new();
    let mut k: usize = 0;
    while k < 4
        invariant
            k <= 4,
            w@.len() == 4,
            m == nibs(mask),
            out@ == gather(w@.subrange(0, k as int), m.subrange(0, k as int)),
        decreases 4 - k,
    {
        assert(m.subrange(0, k as int + 1).drop_last() =~= m.subrange(0, k as int));
        assert(w@.subrange(0, k as int + 1).drop_last() =~= w@.subrange(0, k as int));
        if nib_of_exec(mask, k) == 0 {
            out.push(w[k]);
        }
        assert(out@ =~= gather(w@.subrange(0, k as int + 1), m.subrange(0, k as int + 1)));
        k += 1;
    }
    assert(m.subrange(0, 4) =~= m);
    assert(w@.subrange(0, 4) =~= w@);
    out
}

/// Reads the operand values of the kinds `ks` out of the operand nibbles `s`.
pub fn operand_values(ks: &Vec<OperandKind>, s: &Vec<u8>) -> (r: Vec<i64>)
    requires
        s@.len() == sig_width(ks@),
        forall|j: int| 0 <= j < s@.len() ==> #[trigger] s@[j] < 16,
    ensures
        r@ == values_of(ks@, s@),
{
    let slen = s.len();
    let mut out: Vec<i64> = Vec::new();
    let mut c: usize = 0;
    let mut i: usize = 0;
    while i < ks.len()
        invariant
            i <= ks@.len(),
            s@.len() == sig_width(ks@),
            forall|j: int| 0 <= j < s@.len() ==> #[trigger] s@[j] < 16,
            c == sig_width(ks@.subrange(0, i as int)),
            c <= s@.len(),
            slen == s@.len(),
            out@ == values_of(ks@.subrange(0, i as int), s@.subrange(0, c as int)),
        decreases ks.len() - i,
    {
        let ghost k1 = ks@.subrange(0, i as int + 1);
        assert(k1.drop_last() =~= ks@.subrange(0, i as int));
        proof {
            lemma_width_prefix(ks@, i as int + 1);
        }
        let k = ks[i];
        let width: usize = match k {
            OperandKind::Register => 1,
            OperandKind::Signed8 => 2,
            OperandKind::Unsigned8 => 2,
            OperandKind::Imm16 => 3,
            OperandKind::Skip4 => 1,
        };
        assert(k1.last() == k);
        assert(sig_width(k1) == c + width);
        assert(c + width <= s@.len());
        let v: i64 = match k {
            OperandKind::Register => s[c] as i64,
            OperandKind::Signed8 => {
                let b: i64 = s[c] as i64 * 16 + s[c + 1] as i64;
                if b >= 128 {
                    b - 256
                } else {
                    b
                }
            },
            OperandKind::Unsigned8 => s[c] as i64 * 16 + s[c + 1] as i64,
            OperandKind::Imm16 => s[c] as i64 * 256 + s[c + 1] as i64 * 16 + s[c + 2] as i64,
            OperandKind::Skip4 => 0,
        };
        let ghost s1 = s@.subrange(0, c + width);
        assert(s1.subrange(0, c as int) =~= s@.subrange(0, c as int));
        let ghost piece = s1.subrange(c as int, c + width);
        assert(forall|j: int| 0 <= j < width ==> piece[j] == s@[c + j]);
        assert(v == operand_value(k, piece));
        out.push(v);
        c += width;
        i += 1;
    }
    assert(ks@.subrange(0, i as int) =~= ks@);
    assert(s@.subrange(0, c as int) =~= s@);
    out
}

proof fn lemma_no_free_slot(m: Seq<u8>)
    requires
        free_slots(m) == 0,
    ensures
        forall|k: int| 0 <= k < m.len() ==> #[trigger] m[k] != 0,
    decreases m.len(),
{
    if m.len() > 0 {
        lemma_no_free_slot(m.drop_last());
        assert forall|k: int| 0 <= k < m.len() implies #[trigger] m[k] != 0 by {
            if k < m.len() - 1 {
                assert(m.drop_last()[k] == m[k]);
            }
        }
    }
}

/// A word that matches an entry without operands is that entry's pattern.
pub proof fn lemma_fill_pattern(i: int, w: Seq<u8>)
    requires
        0 <= i < TABLE_LEN,
        entry_model(i).operands.len() == 0,
        is_word(w),
        matches_entry(w, entry_model(i)),
    ensures
        nibs(entry_model(i).pattern) == w,
{
    lemma_entry_wf(i);
    let t = entry_model(i);
    assert(sig_width(t.operands) == 0);
    lemma_no_free_slot(nibs(t.mask));
    lemma_matches_fixed(w, i);
    assert forall|k: int| 0 <= k < 4 implies #[trigger] w[k] == nibs(t.pattern)[k] by {
        assert(nibs(t.mask)[k] != 0);
        assert(nib(t.mask, k) == 15);
    }
    assert(nibs(t.pattern) =~= w);
}

/// Encoding legal operand values with entry `i` gives a word that matches
/// the entry, reading that word as entry `i` gives the values back, and the
/// word decodes by entry `i` exactly when no earlier entry matches it.
pub proof fn lemma_encode_decode(i: int, vs: Seq<i64>)
    requires
        0 <= i < TABLE_LEN,
        legal_values(entry_model(i).operands, vs),
    ensures
        is_word(encode_values(i, vs)),
        matches_entry(encode_values(i, vs), entry_model(i)),
        decode_values(i, encode_values(i, vs)) == vs,
        lookup_word(encode_values(i, vs)) == Some(i) <==> forall|q: int|
            0 <= q < i ==> !matches_entry(encode_values(i, vs), #[trigger] entry_model(q)),
{
    lemma_entry_wf(i);
    let t = entry_model(i);
    let s = stream_of(t.operands, vs);
    let w = encode_values(i, vs);
    lemma_stream_round_trip(t.operands, vs);
    lemma_fill_gather(nibs(t.pattern), nibs(t.mask), s);
    assert forall|k: int| 0 <= k < 4 implies #[trigger] nibs(t.pattern)[k] < 16 by {}
    assert(is_word(w));
    lemma_matches_fixed(w, i);
    assert forall|k: int| 0 <= k < 4 && nib(t.mask, k) == 15 implies #[trigger] w[k] == nib(t.pattern, k) by {
        assert(nibs(t.mask)[k] != 0);
    }
    lemma_first_match(w, 0);
}

/// Reading a word by the entry it decodes to gives legal operand values, and
/// encoding those values with that entry gives back the word.
pub proof fn lemma_decode_encode(w: Seq<u8>)
    requires
        is_word(w),
        lookup_word(w) is Some,
    ensures
        legal_values(entry_model(lookup_word(w)->0).operands, decode_values(lookup_word(w)->0, w)),
        encode_values(lookup_word(w)->0, decode_values(lookup_word(w)->0, w)) == w,
        gather(w, nibs(entry_model(lookup_word(w)->0).mask)).len() == sig_width(
            entry_model(lookup_word(w)->0).operands,
        ),
        forall|j: int|
            0 <= j < gather(w, nibs(entry_model(lookup_word(w)->0).mask)).len() ==> #[trigger] gather(
                w,
                nibs(entry_model(lookup_word(w)->0).mask),
            )[j] < 16,
{
    let i = lookup_word(w)->0;
    lemma_first_match(w, 0);
    lemma_entry_wf(i);
    lemma_matches_fixed(w, i);
    let t = entry_model(i);
    assert forall|k: int| 0 <= k < 4 && nibs(t.mask)[k] != 0 implies #[trigger] w[k] == nibs(t.pattern)[k] by {
        assert(nib(t.mask, k) == 15);
    }
    lemma_gather_fill(nibs(t.pattern), nibs(t.mask), w);
    let g = gather(w, nibs(t.mask));
    assert forall|j: int| 0 <= j < g.len() implies #[trigger] g[j] < 16 by {
        let k = choose|k: int| 0 <= k < w.len() && g[j] == w[k];
    }
    assert(!t.operands.contains(OperandKind::Skip4));
    lemma_values_round_trip(t.operands, g);
}

} // verus!
