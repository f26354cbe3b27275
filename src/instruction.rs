//! Instructions: assembling one from text and reading one from binary.
use vstd::prelude::*;
use crate::table::{
    OperandKind, InstructionType, TABLE_LEN, sig_arity, entry_model, nibs, is_word, matches_entry,
    lookup_name, lookup_word, table_entry, lookup_by_name, lookup_by_pattern, lemma_entry_wf,
    lemma_first_match, nib_of, lemma_first_named, lemma_name_letters, lemma_canonical_name,
};
use crate::text::{
    chars_of, string_of, parse_int, parse_clamped, dec_text, push_decimal, lemma_parse_dec_text,
    lemma_dec_digits, digit_val, dec_digits, all_digits,
};
use crate::codec::{
    legal_value, legal_values, encode_values, decode_values, operand_stream,
    fill_word, gather_word, operand_values, lemma_encode_decode, lemma_decode_encode,
    lemma_fill_pattern,
};

verus! {

/// Why a line could not be assembled or read.
#[derive(PartialEq, Eq, Clone, Copy, Debug, Structural)]
pub enum CompileErr {
    InstructionDoesNotExist,
    InvalidArgumentType,
    InvalidRegister,
    TooManyArguments,
    TooFewArguments,
    InvalidSignedNumber,
    InvalidUnsignedNumber,
    InvalidNumber,
    CorruptedBinary,
    LineNumberNotPresent,
    InvalidLineNumber,
}

/// The pieces of `s` between the occurrences of `sep`, as `str::split` gives
/// them: empty pieces included, and one piece for an empty `s`.
pub open spec fn split_on(s: Seq<char>, sep: char) -> Seq<Seq<char>>
    decreases s.len(),
{
    if s.len() == 0 {
        seq![seq![]]
    } else {
        let rest = split_on(s.drop_last(), sep);
        if s.last() == sep {
            rest.push(seq![])
        } else {
            rest.update(rest.len() - 1, rest.last().push(s.last()))
        }
    }
}

proof fn lemma_split_nonempty(s: Seq<char>, sep: char)
    ensures
        split_on(s, sep).len() >= 1,
    decreases s.len(),
{
    if s.len() > 0 {
        lemma_split_nonempty(s.drop_last(), sep);
    }
}

proof fn lemma_split_append_plain(x: Seq<char>, b: Seq<char>, sep: char)
    requires
        forall|k: int| 0 <= k < b.len() ==> #[trigger] b[k] != sep,
    ensures
        split_on(x + b, sep) == split_on(x, sep).update(
            split_on(x, sep).len() - 1,
            split_on(x, sep).last() + b,
        ),
    decreases b.len(),
{
    lemma_split_nonempty(x, sep);
    let s = split_on(x, sep);
    if b.len() == 0 {
        assert(x + b =~= x);
        assert(s.last() + b =~= s.last());
        assert(s.update(s.len() - 1, s.last() + b) =~= s);
    } else {
        let b0 = b.drop_last();
        lemma_split_append_plain(x, b0, sep);
        assert((x + b).drop_last() =~= x + b0);
        assert((x + b).last() == b[b.len() - 1]);
        let r = split_on(x + b0, sep);
        assert(r.len() == s.len());
        assert(r.last() == s.last() + b0);
        assert((s.last() + b0).push(b.last()) =~= s.last() + b);
        assert(r.update(r.len() - 1, r.last().push(b.last())) =~= s.update(
            s.len() - 1,
            s.last() + b,
        ));
    }
}

/// Splitting at a separator undoes joining with it, where no piece holds
/// the separator.
pub proof fn lemma_split_join(parts: Seq<Seq<char>>, sep: char)
    requires
        parts.len() >= 1,
        forall|j: int, k: int| 0 <= j < parts.len() && 0 <= k < parts[j].len() ==> #[trigger] parts[j][k] != sep,
    ensures
        split_on(join_with(parts, seq![sep]), sep) == parts,
    decreases parts.len(),
{
    let last = parts[parts.len() - 1];
    assert forall|k: int| 0 <= k < last.len() implies #[trigger] last[k] != sep by {
        assert(parts[parts.len() - 1][k] != sep);
    }
    if parts.len() == 1 {
        lemma_split_append_plain(seq![], last, sep);
        assert(seq![] + last =~= last);
        assert(seq![seq![]].update(0, seq![] + last) =~= parts);
    } else {
        let q = parts.drop_last();
        assert forall|j: int, k: int| 0 <= j < q.len() && 0 <= k < q[j].len() implies #[trigger] q[j][k] != sep by {
            assert(q[j] == parts[j]);
        }
        lemma_split_join(q, sep);
        let jq = join_with(q, seq![sep]);
        let x = jq + seq![sep];
        assert(x.drop_last() =~= jq);
        assert(split_on(x, sep) == q.push(seq![]));
        lemma_split_append_plain(x, last, sep);
        assert(join_with(parts, seq![sep]) =~= x + last);
        assert(q.push(seq![]).update(q.len() as int, seq![] + last) =~= parts);
    }
}

/// The pieces joined, with `sep` between each two.
pub open spec fn join_with(parts: Seq<Seq<char>>, sep: Seq<char>) -> Seq<char>
    decreases parts.len(),
{
    if parts.len() == 0 {
        seq![]
    } else if parts.len() == 1 {
        parts[0]
    } else {
        join_with(parts.drop_last(), sep) + sep + parts.last()
    }
}

/// The text form of the operand tokens of an assembled line: two tokens
/// joined by a space, any other number by a comma and a space.
pub open spec fn tokens_text(args: Seq<Seq<char>>) -> Seq<char> {
    if args.len() == 2 {
        join_with(args, seq![' '])
    } else {
        join_with(args, seq![',', ' '])
    }
}

/// The value of the operand token `tok` of kind `k`, or why it has none.
pub open spec fn operand_from_token(k: OperandKind, tok: Seq<char>) -> Result<i64, CompileErr> {
    match k {
        OperandKind::Register => {
            if tok.len() == 0 || !(tok[0] == 'r' || tok[0] == 'R') {
                Err(CompileErr::InvalidArgumentType)
            } else {
                match parse_int(tok.drop_first(), 10, false) {
                    Some(v) if 0 <= v <= 15 => Ok(v as i64),
                    _ => Err(CompileErr::InvalidRegister),
                }
            }
        },
        OperandKind::Signed8 => match parse_int(tok, 10, true) {
            Some(v) if -128 <= v <= 127 => Ok(v as i64),
            _ => Err(CompileErr::InvalidSignedNumber),
        },
        OperandKind::Unsigned8 => match parse_int(tok, 10, false) {
            Some(v) if 0 <= v <= 255 => Ok(v as i64),
            _ => Err(CompileErr::InvalidUnsignedNumber),
        },
        OperandKind::Imm16 => match parse_int(tok, 16, true) {
            Some(v) if i32::MIN <= v <= i32::MAX => Ok((v % 4096) as i64),
            _ => match parse_int(tok, 10, true) {
                Some(v) if i32::MIN <= v <= i32::MAX => Ok((v % 4096) as i64),
                _ => Err(CompileErr::InvalidNumber),
            },
        },
        OperandKind::Skip4 => Ok(0),
    }
}

/// The operand values of the tokens `toks` for the kinds `ks`, read left to
/// right; the first token that fails gives the error. A skip slot takes no
/// token and holds zero.
pub open spec fn values_from_tokens(ks: Seq<OperandKind>, toks: Seq<Seq<char>>) -> Result<
    Seq<i64>,
    CompileErr,
>
    decreases ks.len(),
{
    if ks.len() == 0 {
        Ok(seq![])
    } else if ks[0] == OperandKind::Skip4 {
        match values_from_tokens(ks.drop_first(), toks) {
            Ok(vs) => Ok(seq![0i64] + vs),
            Err(e) => Err(e),
        }
    } else {
        match operand_from_token(ks[0], toks[0]) {
            Err(e) => Err(e),
            Ok(v) => match values_from_tokens(ks.drop_first(), toks.drop_first()) {
                Ok(vs) => Ok(seq![v] + vs),
                Err(e) => Err(e),
            },
        }
    }
}

/// The model of an instruction: its table entry, text form and word.
pub struct InstructionModel {
    pub index: int,
    pub text: Seq<char>,
    pub word: Seq<u8>,
}

/// What the mnemonic `m` with operand tokens `args` assembles to.
pub open spec fn assemble(m: Seq<char>, args: Seq<Seq<char>>) -> Result<InstructionModel, CompileErr> {
    match lookup_name(m) {
        None => Err(CompileErr::InstructionDoesNotExist),
        Some(i) => {
            let t = entry_model(i);
            if args.len() > sig_arity(t.operands) {
                Err(CompileErr::TooManyArguments)
            } else if args.len() < sig_arity(t.operands) {
                Err(CompileErr::TooFewArguments)
            } else if t.operands.len() == 0 {
                Ok(InstructionModel { index: i, text: t.names[0], word: nibs(t.pattern) })
            } else {
                match values_from_tokens(t.operands, args) {
                    Err(e) => Err(e),
                    Ok(vs) => Ok(
                        InstructionModel { index: i, text: tokens_text(args), word: encode_values(i, vs) },
                    ),
                }
            }
        },
    }
}

/// What a line of assembly text (mnemonic and operands, separated by single
/// spaces) assembles to.
pub open spec fn assemble_line(line: Seq<char>) -> Result<InstructionModel, CompileErr> {
    let toks = split_on(line, ' ');
    assemble(toks[0], toks.drop_first())
}

/// The text of operand value `v` of kind `k`: a register as `r<N>`, a
/// number in decimal.
pub open spec fn operand_text(k: OperandKind, v: i64) -> Seq<char> {
    if k == OperandKind::Register {
        seq!['r'] + dec_text(v as int)
    } else {
        dec_text(v as int)
    }
}

/// A register, signed byte or unsigned byte, written as decoding shows it,
/// reads back as the same value; so does an immediate below ten, the values
/// whose decimal text reads the same in hex.
pub proof fn lemma_operand_text_round_trip(k: OperandKind, v: i64)
    requires
        legal_value(k, v),
        k != OperandKind::Skip4,
        k == OperandKind::Imm16 ==> v < 10,
    ensures
        operand_from_token(k, operand_text(k, v)) == Ok::<i64, CompileErr>(v),
{
    if k == OperandKind::Imm16 {
        let t = dec_text(v as int);
        assert(t == seq![crate::text::digit_char(v as int)]);
        assert(digit_val(t[0]) == v);
        assert(t.drop_last() =~= seq![]);
        assert(t.len() == 1 && t[0] != '+' && t[0] != '-');
        assert(all_digits(t, 16));
        assert(t.last() == t[0]);
        assert(crate::text::digits_value(t, 16) == crate::text::digits_value(t.drop_last(), 16) * 16 + digit_val(t.last()));
        assert(crate::text::digits_value(t, 16) == v);
        assert(parse_int(t, 16, true) == Some(v as int));
    }
    if k == OperandKind::Register {
        let t = operand_text(k, v);
        assert(t.drop_first() =~= dec_text(v as int));
        lemma_parse_dec_text(v as int, false);
    } else if k == OperandKind::Signed8 {
        lemma_parse_dec_text(v as int, true);
    } else {
        lemma_parse_dec_text(v as int, false);
    }
}

/// The operand texts of values `vs` of kinds `ks`: registers as `r<N>`,
/// numbers in decimal, skip slots left out.
pub open spec fn operand_texts(ks: Seq<OperandKind>, vs: Seq<i64>) -> Seq<Seq<char>>
    decreases ks.len(),
{
    if ks.len() == 0 {
        seq![]
    } else {
        let rest = operand_texts(ks.drop_last(), vs.drop_last());
        if ks.last() == OperandKind::Skip4 {
            rest
        } else {
            rest.push(operand_text(ks.last(), vs.last()))
        }
    }
}

pub proof fn lemma_dec_text_plain(v: int)
    ensures
        forall|k: int| 0 <= k < dec_text(v).len() ==> #[trigger] dec_text(v)[k] != '\n',
{
    let t = dec_text(v);
    if v < 0 {
        let d = dec_digits((-v) as nat);
        lemma_dec_digits((-v) as nat);
        assert forall|k: int| 0 <= k < t.len() implies #[trigger] t[k] != '\n' by {
            if k > 0 {
                assert(t[k] == d[k - 1]);
                assert(digit_val(d[k - 1]) < 10);
            }
        }
    } else {
        lemma_dec_digits(v as nat);
        assert forall|k: int| 0 <= k < t.len() implies #[trigger] t[k] != '\n' by {
            assert(digit_val(t[k]) < 10);
        }
    }
}

pub proof fn lemma_operand_texts_plain(ks: Seq<OperandKind>, vs: Seq<i64>)
    ensures
        forall|j: int, k: int|
            0 <= j < operand_texts(ks, vs).len() && 0 <= k < operand_texts(ks, vs)[j].len()
                ==> #[trigger] operand_texts(ks, vs)[j][k] != '\n',
    decreases ks.len(),
{
    if ks.len() > 0 {
        lemma_operand_texts_plain(ks.drop_last(), vs.drop_last());
        let rest = operand_texts(ks.drop_last(), vs.drop_last());
        let all = operand_texts(ks, vs);
        let t = operand_text(ks.last(), vs.last());
        lemma_dec_text_plain(vs.last() as int);
        assert forall|k: int| 0 <= k < t.len() implies #[trigger] t[k] != '\n' by {
            if ks.last() == OperandKind::Register && k > 0 {
                assert(t[k] == dec_text(vs.last() as int)[k - 1]);
            }
        }
        assert forall|j: int, k: int| 0 <= j < all.len() && 0 <= k < all[j].len() implies #[trigger] all[j][k]
            != '\n' by {
            if j < rest.len() {
                assert(all[j] == rest[j]);
            } else {
                assert(all[j] == t);
            }
        }
    }
}

pub proof fn lemma_join_plain(parts: Seq<Seq<char>>, sep: Seq<char>)
    requires
        forall|k: int| 0 <= k < sep.len() ==> #[trigger] sep[k] != '\n',
        forall|j: int, k: int| 0 <= j < parts.len() && 0 <= k < parts[j].len() ==> #[trigger] parts[j][k] != '\n',
    ensures
        forall|k: int|
            0 <= k < join_with(parts, sep).len() ==> #[trigger] join_with(parts, sep)[k]
                != '\n',
    decreases parts.len(),
{
    let r = join_with(parts, sep);
    if parts.len() == 1 {
        assert forall|k: int| 0 <= k < r.len() implies #[trigger] r[k] != '\n' by {
            assert(parts[0][k] != '\n');
        }
    } else if parts.len() > 1 {
        let q = parts.drop_last();
        assert forall|j: int, k: int| 0 <= j < q.len() && 0 <= k < q[j].len() implies #[trigger] q[j][k] != '\n' by {
            assert(q[j] == parts[j]);
        }
        lemma_join_plain(q, sep);
        let a = join_with(q, sep);
        let l = parts[parts.len() - 1];
        assert forall|k: int| 0 <= k < r.len() implies #[trigger] r[k] != '\n' by {
            if k < a.len() {
                assert(r[k] == a[k]);
            } else if k < a.len() + sep.len() {
                assert(r[k] == sep[k - a.len()]);
            } else {
                assert(r[k] == l[k - a.len() - sep.len()]);
                assert(parts[parts.len() - 1][k - a.len() - sep.len()] != '\n');
            }
        }
    }
}

proof fn lemma_parse_plain(s: Seq<char>, radix: int, signed: bool)
    requires
        radix <= 16,
        parse_int(s, radix, signed) is Some,
    ensures
        forall|k: int| 0 <= k < s.len() ==> #[trigger] s[k] != '\n',
{
    assert forall|k: int| 0 <= k < s.len() implies #[trigger] s[k] != '\n' by {
        if s[0] == '+' || (signed && s[0] == '-') {
            if k > 0 {
                assert(s.drop_first()[k - 1] == s[k]);
                assert(digit_val(s.drop_first()[k - 1]) < radix);
            }
        } else {
            assert(digit_val(s[k]) < radix);
        }
    }
}

proof fn lemma_token_plain(k: OperandKind, tok: Seq<char>)
    requires
        operand_from_token(k, tok) is Ok,
        k != OperandKind::Skip4,
    ensures
        forall|q: int| 0 <= q < tok.len() ==> #[trigger] tok[q] != '\n',
{
    match k {
        OperandKind::Register => {
            lemma_parse_plain(tok.drop_first(), 10, false);
            assert forall|q: int| 0 <= q < tok.len() implies #[trigger] tok[q] != '\n' by {
                if q > 0 {
                    assert(tok.drop_first()[q - 1] == tok[q]);
                }
            }
        },
        OperandKind::Signed8 => lemma_parse_plain(tok, 10, true),
        OperandKind::Unsigned8 => lemma_parse_plain(tok, 10, false),
        OperandKind::Imm16 => {
            if parse_int(tok, 16, true) is Some {
                lemma_parse_plain(tok, 16, true);
            } else {
                lemma_parse_plain(tok, 10, true);
            }
        },
        OperandKind::Skip4 => {},
    }
}

proof fn lemma_tokens_plain(ks: Seq<OperandKind>, toks: Seq<Seq<char>>)
    requires
        toks.len() == ks.len(),
        forall|j: int| 0 <= j < ks.len() ==> #[trigger] ks[j] != OperandKind::Skip4,
        values_from_tokens(ks, toks) is Ok,
    ensures
        forall|j: int, q: int| 0 <= j < toks.len() && 0 <= q < toks[j].len() ==> #[trigger] toks[j][q] != '\n',
    decreases ks.len(),
{
    if ks.len() > 0 {
        assert(ks[0] != OperandKind::Skip4);
        lemma_token_plain(ks[0], toks[0]);
        let (kr, tr) = (ks.drop_first(), toks.drop_first());
        assert forall|j: int| 0 <= j < kr.len() implies #[trigger] kr[j] != OperandKind::Skip4 by {
            assert(kr[j] == ks[j + 1]);
        }
        lemma_tokens_plain(kr, tr);
        assert forall|j: int, q: int| 0 <= j < toks.len() && 0 <= q < toks[j].len() implies #[trigger] toks[j][q]
            != '\n' by {
            if j > 0 {
                assert(toks[j] == tr[j - 1]);
            }
        }
    }
}

proof fn lemma_arity_no_skip(ks: Seq<OperandKind>)
    requires
        forall|j: int| 0 <= j < ks.len() ==> #[trigger] ks[j] != OperandKind::Skip4,
    ensures
        sig_arity(ks) == ks.len(),
    decreases ks.len(),
{
    if ks.len() > 0 {
        let p = ks.drop_last();
        assert forall|j: int| 0 <= j < p.len() implies #[trigger] p[j] != OperandKind::Skip4 by {
            assert(p[j] == ks[j]);
        }
        lemma_arity_no_skip(p);
        assert(ks[ks.len() - 1] != OperandKind::Skip4);
    }
}

proof fn lemma_operand_texts_index(ks: Seq<OperandKind>, vs: Seq<i64>)
    requires
        vs.len() == ks.len(),
        forall|j: int| 0 <= j < ks.len() ==> #[trigger] ks[j] != OperandKind::Skip4,
    ensures
        operand_texts(ks, vs).len() == ks.len(),
        forall|j: int| 0 <= j < ks.len() ==> #[trigger] operand_texts(ks, vs)[j] == operand_text(ks[j], vs[j]),
    decreases ks.len(),
{
    if ks.len() > 0 {
        let (kp, vp) = (ks.drop_last(), vs.drop_last());
        assert forall|j: int| 0 <= j < kp.len() implies #[trigger] kp[j] != OperandKind::Skip4 by {
            assert(kp[j] == ks[j]);
        }
        lemma_operand_texts_index(kp, vp);
        assert(ks[ks.len() - 1] != OperandKind::Skip4);
        assert forall|j: int| 0 <= j < ks.len() implies #[trigger] operand_texts(ks, vs)[j] == operand_text(ks[j], vs[j]) by {
            if j < kp.len() {
                assert(kp[j] == ks[j] && vp[j] == vs[j]);
            }
        }
    }
}

proof fn lemma_values_from_each(ks: Seq<OperandKind>, toks: Seq<Seq<char>>, vs: Seq<i64>)
    requires
        toks.len() == ks.len(),
        vs.len() == ks.len(),
        forall|j: int| 0 <= j < ks.len() ==> #[trigger] ks[j] != OperandKind::Skip4,
        forall|j: int| 0 <= j < ks.len() ==> #[trigger] operand_from_token(ks[j], toks[j]) == Ok::<i64, CompileErr>(vs[j]),
    ensures
        values_from_tokens(ks, toks) == Ok::<Seq<i64>, CompileErr>(vs),
    decreases ks.len(),
{
    if ks.len() > 0 {
        let (kr, tr, vr) = (ks.drop_first(), toks.drop_first(), vs.drop_first());
        assert forall|j: int| 0 <= j < kr.len() implies #[trigger] kr[j] != OperandKind::Skip4 by {
            assert(kr[j] == ks[j + 1]);
        }
        assert forall|j: int| 0 <= j < kr.len() implies #[trigger] operand_from_token(kr[j], tr[j]) == Ok::<i64, CompileErr>(vr[j]) by {
            assert(kr[j] == ks[j + 1] && tr[j] == toks[j + 1] && vr[j] == vs[j + 1]);
        }
        lemma_values_from_each(kr, tr, vr);
        assert(ks[0] != OperandKind::Skip4);
        assert(operand_from_token(ks[0], toks[0]) == Ok::<i64, CompileErr>(vs[0]));
        assert(seq![vs[0]] + vr =~= vs);
    } else {
        assert(vs =~= seq![]);
    }
}

/// A decoded word, written back as its entry's canonical name followed by
/// its operand texts, assembles to the same entry and word. Immediates of ten
/// or more are left out: their decimal text reads as a different value in hex.
pub proof fn lemma_reassemble(w: Seq<u8>)
    requires
        is_word(w),
        lookup_word(w) is Some,
        forall|j: int|
            0 <= j < entry_model(lookup_word(w)->0).operands.len() && entry_model(lookup_word(w)->0).operands[j]
                == OperandKind::Imm16 ==> #[trigger] decode_values(lookup_word(w)->0, w)[j] < 10,
    ensures
        assemble(
            entry_model(lookup_word(w)->0).names[0],
            operand_texts(entry_model(lookup_word(w)->0).operands, decode_values(lookup_word(w)->0, w)),
        ) matches Ok(m) && m.index == lookup_word(w)->0 && m.word == w,
{
    let i = lookup_word(w)->0;
    lemma_first_match(w, 0);
    lemma_entry_wf(i);
    lemma_decode_encode(w);
    lemma_canonical_name(i);
    let t = entry_model(i);
    let vs = decode_values(i, w);
    let toks = operand_texts(t.operands, vs);
    lemma_operand_texts_index(t.operands, vs);
    lemma_arity_no_skip(t.operands);
    assert forall|j: int| 0 <= j < t.operands.len() implies #[trigger] operand_from_token(t.operands[j], toks[j])
        == Ok::<i64, CompileErr>(vs[j]) by {
        assert(legal_value(t.operands[j], vs[j]));
        lemma_operand_text_round_trip(t.operands[j], vs[j]);
    }
    lemma_values_from_each(t.operands, toks, vs);
    if t.operands.len() == 0 {
        assert(vs =~= seq![]);
        lemma_fill_pattern(i, w);
    }
}

/// Legal operand values of entry `i`, written as its canonical name followed
/// by their operand texts, assemble to the word that encodes them; where no
/// earlier entry matches that word, it decodes as entry `i` to the same
/// values, so its decoded text is those operand texts joined by `", "`.
/// Immediates of ten or more are left out: their decimal text reads as a
/// different value in hex.
pub proof fn lemma_assemble_decode(i: int, vs: Seq<i64>)
    requires
        0 <= i < TABLE_LEN,
        legal_values(entry_model(i).operands, vs),
        forall|j: int|
            0 <= j < vs.len() && entry_model(i).operands[j] == OperandKind::Imm16 ==> #[trigger] vs[j] < 10,
        forall|q: int| 0 <= q < i ==> !matches_entry(encode_values(i, vs), #[trigger] entry_model(q)),
    ensures
        assemble(entry_model(i).names[0], operand_texts(entry_model(i).operands, vs)) matches Ok(m) && m.index
            == i && m.word == encode_values(i, vs),
        lookup_word(encode_values(i, vs)) == Some(i),
        decode_values(i, encode_values(i, vs)) == vs,
{
    lemma_entry_wf(i);
    lemma_encode_decode(i, vs);
    lemma_canonical_name(i);
    let t = entry_model(i);
    let toks = operand_texts(t.operands, vs);
    lemma_operand_texts_index(t.operands, vs);
    lemma_arity_no_skip(t.operands);
    assert forall|j: int| 0 <= j < t.operands.len() implies #[trigger] operand_from_token(t.operands[j], toks[j])
        == Ok::<i64, CompileErr>(vs[j]) by {
        assert(legal_value(t.operands[j], vs[j]));
        lemma_operand_text_round_trip(t.operands[j], vs[j]);
    }
    lemma_values_from_each(t.operands, toks, vs);
    if t.operands.len() == 0 {
        lemma_fill_pattern(i, encode_values(i, vs));
    }
}

/// The nibble that a token of four binary digits spells.
pub open spec fn nibble_token(t: Seq<char>) -> Option<u8> {
    if t.len() == 4 && forall|k: int| 0 <= k < 4 ==> (#[trigger] t[k] == '0' || t[k] == '1') {
        Some(
            ((if t[0] == '1' { 8int } else { 0 }) + (if t[1] == '1' { 4int } else { 0 }) + (if t[2]
                == '1' { 2int } else { 0 }) + (if t[3] == '1' { 1int } else { 0 })) as u8,
        )
    } else {
        None
    }
}

/// The word that a binary line spells: four tokens of four binary digits,
/// separated by single spaces.
pub open spec fn word_of_line(line: Seq<char>) -> Option<Seq<u8>> {
    word_of_line_toks(split_on(line, ' '))
}

/// What a binary line reads as.
pub open spec fn disassemble_line(line: Seq<char>) -> Result<InstructionModel, CompileErr> {
    match word_of_line(line) {
        None => Err(CompileErr::CorruptedBinary),
        Some(w) => match lookup_word(w) {
            None => Err(CompileErr::InstructionDoesNotExist),
            Some(i) => Ok(
                InstructionModel {
                    index: i,
                    text: join_with(
                        operand_texts(entry_model(i).operands, decode_values(i, w)),
                        seq![',', ' '],
                    ),
                    word: w,
                },
            ),
        },
    }
}

/// One instruction: its table entry, its text form (the operands) and its
/// binary form (four nibbles, most significant first).
#[derive(PartialEq, Eq, Clone, Debug)]
pub struct Instruction {
    pub type_index: usize,
    pub instruction_type: InstructionType,
    pub text_contents: String,
    pub binary_contents: Vec<u8>,
}

impl View for Instruction {
    type V = InstructionModel;

    open spec fn view(&self) -> InstructionModel {
        InstructionModel {
            index: self.type_index as int,
            text: self.text_contents@,
            word: self.binary_contents@,
        }
    }
}

impl Instruction {
    /// The instruction belongs to an entry of the table, its word is a word
    /// that the entry's pattern and mask admit, and its text is one line.
    pub open spec fn wf(&self) -> bool {
        &&& self.type_index < TABLE_LEN
        &&& self.instruction_type@ == entry_model(self.type_index as int)
        &&& is_word(self.binary_contents@)
        &&& matches_entry(self.binary_contents@, entry_model(self.type_index as int))
        &&& forall|k: int| 0 <= k < self.text_contents@.len() ==> #[trigger] self.text_contents@[k] != '\n'
    }
}

/// The views of a list of character vectors.
pub open spec fn views(v: Seq<Vec<char>>) -> Seq<Seq<char>> {
    v.map_values(|x: Vec<char>| x@)
}

/// Splits `s` at every `sep`, as `split_on` states.
pub fn split_chars(s: &Vec<char>, sep: char) -> (r: Vec<Vec<char>>)
    ensures
        views(r@) == split_on(s@, sep),
{
    let mut parts: Vec<Vec<char>> = Vec::new();
    let mut cur: Vec<char> = Vec::new();
    let mut i: usize = 0;
    while i < s.len()
        invariant
            i <= s@.len(),
            views(parts@).push(cur@) == split_on(s@.subrange(0, i as int), sep),
        decreases s.len() - i,
    {
        let c = s[i];
        let ghost pre = s@.subrange(0, i as int);
        let ghost nxt = s@.subrange(0, i as int + 1);
        assert(nxt.drop_last() =~= pre);
        assert(nxt.last() == c);
        if c == sep {
            let old_cur = cur;
            cur = Vec::new();
            parts.push(old_cur);
            assert(views(parts@).push(cur@) =~= split_on(nxt, sep));
        } else {
            cur.push(c);
            assert(views(parts@).push(cur@) =~= split_on(nxt, sep));
        }
        i += 1;
    }
    assert(s@.subrange(0, i as int) =~= s@);
    parts.push(cur);
    assert(views(parts@) =~= split_on(s@, sep));
    parts
}

fn append_chars(out: &mut Vec<char>, src: &Vec<char>)
    ensures
        final(out)@ == old(out)@ + src@,
{
    let mut i: usize = 0;
    while i < src.len()
        invariant
            i <= src@.len(),
            out@ == old(out)@ + src@.subrange(0, i as int),
        decreases src.len() - i,
    {
        out.push(src[i]);
        assert(out@ =~= old(out)@ + src@.subrange(0, i as int + 1));
        i += 1;
    }
    assert(src@.subrange(0, i as int) =~= src@);
}

/// Joins `parts` with `sep` between each two.
pub fn join_chars(parts: &Vec<Vec<char>>, sep: &Vec<char>) -> (r: Vec<char>)
    ensures
        r@ == join_with(views(parts@), sep@),
{
    let mut out: Vec<char> = Vec::new();
    if parts.len() == 0 {
        return out;
    }
    append_chars(&mut out, &parts[0]);
    assert(views(parts@.subrange(0, 1)) =~= seq![parts@[0]@]);
    let mut i: usize = 1;
    while i < parts.len()
        invariant
            1 <= i <= parts@.len(),
            out@ == join_with(views(parts@.subrange(0, i as int)), sep@),
        decreases parts.len() - i,
    {
        append_chars(&mut out, sep);
        append_chars(&mut out, &parts[i]);
        let ghost nxt = views(parts@.subrange(0, i as int + 1));
        assert(nxt.drop_last() =~= views(parts@.subrange(0, i as int)));
        assert(out@ =~= join_with(nxt, sep@));
        i += 1;
    }
    assert(parts@.subrange(0, i as int) =~= parts@);
    out
}

fn tail_chars(v: &Vec<char>) -> (r: Vec<char>)
    requires
        v@.len() > 0,
    ensures
        r@ == v@.drop_first(),
{
    let mut out: Vec<char> = Vec::new();
    let mut i: usize = 1;
    while i < v.len()
        invariant
            1 <= i <= v@.len(),
            out@ == v@.subrange(1, i as int),
        decreases v.len() - i,
    {
        out.push(v[i]);
        assert(out@ =~= v@.subrange(1, i as int + 1));
        i += 1;
    }
    assert(out@ =~= v@.drop_first());
    out
}

fn read_register(tok: &Vec<char>) -> (r: Result<i64, CompileErr>)
    ensures
        r == operand_from_token(OperandKind::Register, tok@),
{
    if tok.len() == 0 || !(tok[0] == 'r' || tok[0] == 'R') {
        return Err(CompileErr::InvalidArgumentType);
    }
    let rest = tail_chars(tok);
    match parse_clamped(&rest, 10, false) {
        Some(v) => {
            if 0 <= v && v <= 15 {
                Ok(v as i64)
            } else {
                Err(CompileErr::InvalidRegister)
            }
        },
        None => Err(CompileErr::InvalidRegister),
    }
}

fn read_byte(tok: &Vec<char>, signed: bool) -> (r: Result<i64, CompileErr>)
    ensures
        signed ==> r == operand_from_token(OperandKind::Signed8, tok@),
        !signed ==> r == operand_from_token(OperandKind::Unsigned8, tok@),
{
    let (lo, hi, err) = if signed {
        (-128i128, 127i128, CompileErr::InvalidSignedNumber)
    } else {
        (0i128, 255i128, CompileErr::InvalidUnsignedNumber)
    };
    match parse_clamped(tok, 10, signed) {
        Some(v) => {
            if lo <= v && v <= hi {
                Ok(v as i64)
            } else {
                Err(err)
            }
        },
        None => Err(err),
    }
}

fn read_immediate(tok: &Vec<char>) -> (r: Result<i64, CompileErr>)
    ensures
        r == operand_from_token(OperandKind::Imm16, tok@),
{
    let lo = i32::MIN as i128;
    let hi = i32::MAX as i128;
    let v: i128 = match parse_clamped(tok, 16, true) {
        Some(v) if lo <= v && v <= hi => v,
        _ => match parse_clamped(tok, 10, true) {
            Some(v) if lo <= v && v <= hi => v,
            _ => {
                return Err(CompileErr::InvalidNumber);
            },
        },
    };
    Ok(((v + 2147483648) % 4096) as i64)
}

/// Reads one operand token of kind `k`.
pub fn read_operand(k: OperandKind, tok: &Vec<char>) -> (r: Result<i64, CompileErr>)
    ensures
        r == operand_from_token(k, tok@),
        r matches Ok(v) ==> legal_value(k, v),
{
    match k {
        OperandKind::Register => read_register(tok),
        OperandKind::Signed8 => read_byte(tok, true),
        OperandKind::Unsigned8 => read_byte(tok, false),
        OperandKind::Imm16 => read_immediate(tok),
        OperandKind::Skip4 => Ok(0),
    }
}

proof fn lemma_arity_prefix(ks: Seq<OperandKind>, i: int)
    requires
        0 <= i <= ks.len(),
    ensures
        sig_arity(ks.subrange(0, i)) <= sig_arity(ks),
    decreases ks.len() - i,
{
    if i < ks.len() {
        lemma_arity_prefix(ks, i + 1);
        assert(ks.subrange(0, i + 1).drop_last() =~= ks.subrange(0, i));
    } else {
        assert(ks.subrange(0, i) =~= ks);
    }
}

fn arity_of(ks: &Vec<OperandKind>) -> (r: usize)
    ensures
        r == sig_arity(ks@),
{
    let mut n: usize = 0;
    let mut i: usize = 0;
    while i < ks.len()
        invariant
            i <= ks@.len(),
            n == sig_arity(ks@.subrange(0, i as int)),
            n <= i,
        decreases ks.len() - i,
    {
        assert(ks@.subrange(0, i as int + 1).drop_last() =~= ks@.subrange(0, i as int));
        if ks[i] != OperandKind::Skip4 {
            n += 1;
        }
        i += 1;
    }
    assert(ks@.subrange(0, i as int) =~= ks@);
    n
}

/// Reads the operand tokens `toks` for the kinds `ks`, left to right.
pub fn read_operands(ks: &Vec<OperandKind>, toks: &Vec<Vec<char>>) -> (r: Result<Vec<i64>, CompileErr>)
    requires
        toks@.len() == sig_arity(ks@),
    ensures
        match r {
            Ok(vs) => values_from_tokens(ks@, views(toks@)) == Ok::<Seq<i64>, CompileErr>(vs@)
                && legal_values(ks@, vs@),
            Err(e) => values_from_tokens(ks@, views(toks@)) == Err::<Seq<i64>, CompileErr>(e),
        },
{
    let ghost tv = views(toks@);
    let n = ks.len();
    let tn = toks.len();
    let mut vals: Vec<i64> = Vec::new();
    let mut c: usize = 0;
    let mut i: usize = 0;
    assert(ks@.subrange(0, n as int) =~= ks@);
    assert(tv.len() == tn);
    assert(tv.subrange(0, tn as int) =~= tv);
    assert(ks@.subrange(0, 0) =~= seq![]);
    proof {
        match values_from_tokens(ks@, tv) {
            Ok(rest) => {
                assert(vals@ + rest =~= rest);
            },
            Err(e) => {},
        }
    }
    while i < n
        invariant
            n == ks@.len(),
            tn == toks@.len(),
            tv == views(toks@),
            tn == sig_arity(ks@),
            i <= n,
            c == sig_arity(ks@.subrange(0, i as int)),
            c <= tn,
            vals@.len() == i,
            forall|j: int| 0 <= j < i ==> legal_value(#[trigger] ks@[j], vals@[j]),
            match values_from_tokens(ks@.subrange(i as int, n as int), tv.subrange(c as int, tn as int)) {
                Ok(rest) => values_from_tokens(ks@, tv) == Ok::<Seq<i64>, CompileErr>(vals@ + rest),
                Err(e) => values_from_tokens(ks@, tv) == Err::<Seq<i64>, CompileErr>(e),
            },
        decreases n - i,
    {
        let ghost kr = ks@.subrange(i as int, n as int);
        let ghost tr = tv.subrange(c as int, tn as int);
        assert(kr.drop_first() =~= ks@.subrange(i as int + 1, n as int));
        assert(kr[0] == ks@[i as int]);
        assert(ks@.subrange(0, i as int + 1).drop_last() =~= ks@.subrange(0, i as int));
        proof {
            lemma_arity_prefix(ks@, i as int + 1);
        }
        let k = ks[i];
        if k == OperandKind::Skip4 {
            let ghost old_vals = vals@;
            vals.push(0);
            proof {
                match values_from_tokens(ks@.subrange(i as int + 1, n as int), tr) {
                    Ok(rest) => {
                        assert(old_vals + (seq![0i64] + rest) =~= vals@ + rest);
                    },
                    Err(e) => {},
                }
            }
        } else {
            assert(tr[0] == tv[c as int]);
            assert(tr.drop_first() =~= tv.subrange(c as int + 1, tn as int));
            match read_operand(k, &toks[c]) {
                Err(e) => {
                    return Err(e);
                },
                Ok(v) => {
                    let ghost old_vals = vals@;
                    vals.push(v);
                    proof {
                        match values_from_tokens(
                            ks@.subrange(i as int + 1, n as int),
                            tv.subrange(c as int + 1, tn as int),
                        ) {
                            Ok(rest) => {
                                assert(old_vals + (seq![v] + rest) =~= vals@ + rest);
                            },
                            Err(e) => {},
                        }
                    }
                    c += 1;
                },
            }
        }
        i += 1;
    }
    assert(ks@.subrange(n as int, n as int) =~= seq![]);
    assert(ks@.subrange(0, n as int) =~= ks@);
    assert(tv.subrange(c as int, tn as int) =~= seq![]);
    assert(vals@ + seq![] =~= vals@);
    Ok(vals)
}

fn pattern_word(pattern: u16) -> (r: Vec<u8>)
    ensures
        r@ == nibs(pattern),
{
    let r = vec![nib_of(pattern, 0), nib_of(pattern, 1), nib_of(pattern, 2), nib_of(pattern, 3)];
    assert(r@ =~= nibs(pattern));
    r
}

fn read_nibble(t: &Vec<char>) -> (r: Option<u8>)
    ensures
        r == nibble_token(t@),
{
    if t.len() != 4 {
        return None;
    }
    let mut v: u8 = 0;
    let mut k: usize = 0;
    while k < 4
        invariant
            k <= 4,
            t@.len() == 4,
            forall|j: int| 0 <= j < k ==> (#[trigger] t@[j] == '0' || t@[j] == '1'),
            v == (if k > 0 && t@[0] == '1' { 8int } else { 0 }) + (if k > 1 && t@[1] == '1' {
                4int
            } else {
                0
            }) + (if k > 2 && t@[2] == '1' { 2int } else { 0 }) + (if k > 3 && t@[3] == '1' {
                1int
            } else {
                0
            }),
        decreases 4 - k,
    {
        let bit: u8 = if k == 0 {
            8
        } else if k == 1 {
            4
        } else if k == 2 {
            2
        } else {
            1
        };
        if t[k] == '1' {
            v = v + bit;
        } else if t[k] != '0' {
            return None;
        }
        k += 1;
    }
    Some(v)
}

/// The operand texts of legal values `vs` of kinds `ks`.
pub fn render_operands(ks: &Vec<OperandKind>, vs: &Vec<i64>) -> (r: Vec<Vec<char>>)
    requires
        legal_values(ks@, vs@),
    ensures
        views(r@) == operand_texts(ks@, vs@),
{
    let mut out: Vec<Vec<char>> = Vec::new();
    let mut i: usize = 0;
    while i < ks.len()
        invariant
            i <= ks@.len(),
            legal_values(ks@, vs@),
            views(out@) == operand_texts(ks@.subrange(0, i as int), vs@.subrange(0, i as int)),
        decreases ks.len() - i,
    {
        let ghost k1 = ks@.subrange(0, i as int + 1);
        let ghost v1 = vs@.subrange(0, i as int + 1);
        assert(k1.drop_last() =~= ks@.subrange(0, i as int));
        assert(v1.drop_last() =~= vs@.subrange(0, i as int));
        assert(legal_value(ks@[i as int], vs@[i as int]));
        let k = ks[i];
        if k != OperandKind::Skip4 {
            let mut piece: Vec<char> = Vec::new();
            if k == OperandKind::Register {
                piece.push('r');
            }
            push_decimal(vs[i], &mut piece);
            out.push(piece);
        }
        assert(views(out@) =~= operand_texts(k1, v1));
        i += 1;
    }
    assert(ks@.subrange(0, i as int) =~= ks@);
    assert(vs@.subrange(0, i as int) =~= vs@);
    out
}

/// The word that the tokens of a binary line spell.
pub open spec fn word_of_line_toks(toks: Seq<Seq<char>>) -> Option<Seq<u8>> {
    if toks.len() == 4 && forall|k: int| 0 <= k < 4 ==> #[trigger] nibble_token(toks[k]) is Some {
        Some(Seq::new(4, |k: int| nibble_token(toks[k])->0))
    } else {
        None
    }
}

fn read_word(toks: &Vec<Vec<char>>) -> (r: Option<Vec<u8>>)
    ensures
        match r {
            Some(w) => word_of_line_toks(views(toks@)) == Some(w@),
            None => word_of_line_toks(views(toks@)) is None,
        },
{
    let ghost tv = views(toks@);
    if toks.len() != 4 {
        return None;
    }
    let mut w: Vec<u8> = Vec::new();
    let mut k: usize = 0;
    while k < 4
        invariant
            k <= 4,
            toks@.len() == 4,
            tv == views(toks@),
            w@ =~= Seq::new(k as nat, |j: int| nibble_token(tv[j])->0),
            forall|j: int| 0 <= j < k ==> #[trigger] nibble_token(tv[j]) is Some,
        decreases 4 - k,
    {
        assert(tv[k as int] == toks@[k as int]@);
        match read_nibble(&toks[k]) {
            None => {
                return None;
            },
            Some(n) => {
                w.push(n);
            },
        }
        k += 1;
    }
    Some(w)
}

impl Instruction {
    /// Assembles a mnemonic (the first token) with its operand tokens.
    pub fn from_tokens(toks: Vec<Vec<char>>) -> (r: Result<Instruction, CompileErr>)
        requires
            toks@.len() >= 1,
        ensures
            match r {
                Ok(inst) => inst.wf() && assemble(toks@[0]@, views(toks@).drop_first()) == Ok::<
                    InstructionModel,
                    CompileErr,
                >(inst@),
                Err(e) => assemble(toks@[0]@, views(toks@).drop_first()) == Err::<
                    InstructionModel,
                    CompileErr,
                >(e),
            },
    {
        let ghost all = views(toks@);
        let mut args = toks;
        let m = args.remove(0);
        assert(views(args@) =~= all.drop_first());
        let idx = lookup_by_name(&m);
        let i = match idx {
            None => {
                return Err(CompileErr::InstructionDoesNotExist);
            },
            Some(i) => i,
        };
        proof {
            lemma_first_named(m@, 0);
            lemma_entry_wf(i as int);
        }
        let t = table_entry(i);
        let arity = arity_of(&t.operands);
        if args.len() > arity {
            return Err(CompileErr::TooManyArguments);
        } else if args.len() < arity {
            return Err(CompileErr::TooFewArguments);
        }
        if t.operands.len() == 0 {
            let text = t.names[0].clone();
            let word = pattern_word(t.match_pattern);
            let inst = Instruction { type_index: i, instruction_type: t, text_contents: text, binary_contents: word };
            assert(is_word(word@));
            proof {
                lemma_name_letters(i as int);
            }
            return Ok(inst);
        }
        let vals = match read_operands(&t.operands, &args) {
            Err(e) => {
                return Err(e);
            },
            Ok(v) => v,
        };
        proof {
            lemma_encode_decode(i as int, vals@);
            lemma_arity_no_skip(t@.operands);
            lemma_tokens_plain(t@.operands, views(args@));
        }
        let stream = operand_stream(&t.operands, &vals);
        let word = fill_word(t.match_pattern, t.mask, &stream);
        let sep = if args.len() == 2 {
            vec![' ']
        } else {
            vec![',', ' ']
        };
        assert(args.len() == 2 ==> sep@ =~= seq![' ']);
        assert(args.len() != 2 ==> sep@ =~= seq![',', ' ']);
        proof {
            lemma_join_plain(views(args@), sep@);
        }
        let text_chars = join_chars(&args, &sep);
        let text = string_of(&text_chars);
        Ok(Instruction { type_index: i, instruction_type: t, text_contents: text, binary_contents: word })
    }

    /// Assembles a line of text: a mnemonic and its operands, separated by
    /// single spaces.
    pub fn new_from_text(line_contents: &str) -> (r: Result<Instruction, CompileErr>)
        ensures
            match r {
                Ok(inst) => inst.wf() && assemble_line(line_contents@) == Ok::<
                    InstructionModel,
                    CompileErr,
                >(inst@),
                Err(e) => assemble_line(line_contents@) == Err::<InstructionModel, CompileErr>(e),
            },
    {
        let chars = chars_of(line_contents);
        let toks = split_chars(&chars, ' ');
        proof {
            lemma_split_nonempty(chars@, ' ');
        }
        assert(views(toks@)[0] == toks@[0]@);
        Instruction::from_tokens(toks)
    }

    /// Reads a line of four binary nibbles, separated by single spaces, as
    /// the first entry of the table that it matches.
    pub fn new_from_binary(line_contents: &str) -> (r: Result<Instruction, CompileErr>)
        ensures
            match r {
                Ok(inst) => inst.wf() && disassemble_line(line_contents@) == Ok::<
                    InstructionModel,
                    CompileErr,
                >(inst@),
                Err(e) => disassemble_line(line_contents@) == Err::<InstructionModel, CompileErr>(e),
            },
    {
        let chars = chars_of(line_contents);
        let toks = split_chars(&chars, ' ');
        let w = match read_word(&toks) {
            None => {
                return Err(CompileErr::CorruptedBinary);
            },
            Some(w) => w,
        };
        assert(is_word(w@));
        let i = match lookup_by_pattern(&w) {
            None => {
                return Err(CompileErr::InstructionDoesNotExist);
            },
            Some(i) => i,
        };
        proof {
            lemma_first_match(w@, 0);
            lemma_decode_encode(w@);
        }
        let t = table_entry(i);
        let g = gather_word(&w, t.mask);
        let vals = operand_values(&t.operands, &g);
        let texts = render_operands(&t.operands, &vals);
        let sep = vec![',', ' '];
        assert(sep@ =~= seq![',', ' ']);
        proof {
            lemma_operand_texts_plain(t@.operands, vals@);
            lemma_join_plain(views(texts@), sep@);
        }
        let text_chars = join_chars(&texts, &sep);
        let text = string_of(&text_chars);
        Ok(Instruction { type_index: i, instruction_type: t, text_contents: text, binary_contents: w })
    }

    /// The canonical name of the instruction's type.
    pub fn name(&self) -> (r: String)
        requires
            self.wf(),
        ensures
            r@ == entry_model(self.type_index as int).names[0],
    {
        proof {
            lemma_entry_wf(self.type_index as int);
        }
        self.instruction_type.names[0].clone()
    }
}

} // verus!
