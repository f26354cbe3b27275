//! Whole programs: checking and assembling a source file line by line,
//! reading a compiled file, rendering both kinds of listing, and the
//! machine state that a program is loaded into.
use vstd::prelude::*;
use crate::table::{
    lemma_entry_wf, TABLE_LEN, entry_model, table_entry, is_word, nib, lemma_name_letters, lookup_word,
    lemma_first_match,
};
use crate::codec::decode_values;
use crate::text::{
    chars_of, string_of, parse_int, parse_clamped, dec_text, push_count, ascii_lower, lower_chars,
    lemma_dec_digits, digit_val,
};
use crate::instruction::{
    CompileErr, Instruction, InstructionModel, split_on, split_chars, join_with, join_chars, views,
    assemble, disassemble_line, lemma_split_join, operand_texts, word_of_line,
    lemma_operand_texts_plain, lemma_join_plain,
};

verus! {

/// The characters that separate the fields of a source line: a comma or
/// white space.
pub open spec fn is_sep(c: char) -> bool {
    c == ',' || is_space(c)
}

/// Unicode white space, the set that `char::is_whitespace` documents.
pub open spec fn is_space(c: char) -> bool {
    let u = c as u32;
    (0x9 <= u <= 0xD) || u == 0x20 || u == 0x85 || u == 0xA0 || u == 0x1680 || (0x2000 <= u
        <= 0x200A) || u == 0x2028 || u == 0x2029 || u == 0x202F || u == 0x205F || u == 0x3000
}

fn space_char(c: char) -> (r: bool)
    ensures
        r == is_space(c),
{
    let u = c as u32;
    (0x9 <= u && u <= 0xD) || u == 0x20 || u == 0x85 || u == 0xA0 || u == 0x1680 || (0x2000 <= u
        && u <= 0x200A) || u == 0x2028 || u == 0x2029 || u == 0x202F || u == 0x205F || u == 0x3000
}

/// A source line that is blank, or whose first non-blank character is `#`.
pub open spec fn skipped(line: Seq<char>) -> bool {
    (forall|k: int| 0 <= k < line.len() ==> is_space(#[trigger] line[k])) || exists|j: int|
        0 <= j < line.len() && line[j] == '#' && forall|q: int| 0 <= q < j ==> is_space(#[trigger] line[q])
}

/// The fields of a source line, before any comment.
pub open spec fn clean_fields(pieces: Seq<Seq<char>>) -> Seq<Seq<char>>
    decreases pieces.len(),
{
    if pieces.len() == 0 {
        seq![]
    } else if pieces[0].len() > 0 && pieces[0][0] == '#' {
        seq![]
    } else if pieces[0].len() == 0 {
        clean_fields(pieces.drop_first())
    } else {
        seq![pieces[0]] + clean_fields(pieces.drop_first())
    }
}

/// The fields of a source line: the non-empty pieces between separators, up
/// to the first piece that begins with `#`.
pub open spec fn line_fields(line: Seq<char>) -> Seq<Seq<char>> {
    clean_fields(split_on(line.map_values(|c: char| if is_sep(c) { ' ' } else { c }), ' '))
}

/// The fields with their ASCII capitals taken to lower case.
pub open spec fn lower_fields(f: Seq<Seq<char>>) -> Seq<Seq<char>> {
    f.map_values(|t: Seq<char>| ascii_lower(t))
}

/// What the fields of a source line give, where `counter` lines came before
/// it: a label equal to `counter`, then a mnemonic and its operands, which
/// are assembled in lower case.
pub open spec fn check_fields(f: Seq<Seq<char>>, counter: int) -> Result<InstructionModel, CompileErr> {
    if f.len() == 0 {
        Err(CompileErr::LineNumberNotPresent)
    } else {
        match parse_int(f[0], 10, true) {
            None => Err(CompileErr::LineNumberNotPresent),
            Some(v) => if v != counter {
                Err(CompileErr::InvalidLineNumber)
            } else if f.len() == 1 {
                Err(CompileErr::InstructionDoesNotExist)
            } else {
                let rest = lower_fields(f.drop_first());
                assemble(rest[0], rest.drop_first())
            },
        }
    }
}

/// What a source line that is not skipped gives, where `counter` lines came
/// before it: its label must come first, so a line that begins with a comma,
/// a space or a tab has none.
pub open spec fn check_source_line(line: Seq<char>, counter: int) -> Result<InstructionModel, CompileErr> {
    if line.len() > 0 && (line[0] == ',' || line[0] == ' ' || line[0] == '\t') {
        Err(CompileErr::LineNumberNotPresent)
    } else {
        check_fields(line_fields(line), counter)
    }
}

/// What a source file assembles to: the instructions of its lines that are
/// not skipped, or the index of the first line that fails and its error.
pub open spec fn compile_lines(lines: Seq<Seq<char>>) -> Result<Seq<InstructionModel>, (int, CompileErr)>
    decreases lines.len(),
{
    if lines.len() == 0 {
        Ok(seq![])
    } else {
        match compile_lines(lines.drop_last()) {
            Err(e) => Err(e),
            Ok(prog) => if skipped(lines.last()) {
                Ok(prog)
            } else {
                match check_source_line(lines.last(), prog.len() as int) {
                    Err(e) => Err((lines.len() - 1, e)),
                    Ok(m) => Ok(prog.push(m)),
                }
            },
        }
    }
}

/// What a compiled file reads as: an instruction for each line, or the index
/// of the first line that fails and its error.
pub open spec fn read_lines(lines: Seq<Seq<char>>) -> Result<Seq<InstructionModel>, (int, CompileErr)>
    decreases lines.len(),
{
    if lines.len() == 0 {
        Ok(seq![])
    } else {
        match read_lines(lines.drop_last()) {
            Err(e) => Err(e),
            Ok(prog) => match disassemble_line(lines.last()) {
                Err(e) => Err((lines.len() - 1, e)),
                Ok(m) => Ok(prog.push(m)),
            },
        }
    }
}

/// Reading a compiled file reads each line on its own: where every line
/// reads, the program has one instruction per line, in line order, each the
/// one that its line reads as.
pub proof fn lemma_read_lines_pointwise(lines: Seq<Seq<char>>)
    requires
        forall|j: int| 0 <= j < lines.len() ==> #[trigger] disassemble_line(lines[j]) is Ok,
    ensures
        read_lines(lines) == Ok::<Seq<InstructionModel>, (int, CompileErr)>(
            Seq::new(lines.len(), |j: int| disassemble_line(lines[j])->Ok_0),
        ),
    decreases lines.len(),
{
    if lines.len() > 0 {
        let p = lines.drop_last();
        assert forall|j: int| 0 <= j < p.len() implies #[trigger] disassemble_line(p[j]) is Ok by {
            assert(lines[j] == p[j]);
        }
        lemma_read_lines_pointwise(p);
        let last = lines[lines.len() - 1];
        assert(lines.last() == last);
        assert(disassemble_line(last) is Ok);
        assert(read_lines(lines) == Ok::<Seq<InstructionModel>, (int, CompileErr)>(
            Seq::new(p.len(), |j: int| disassemble_line(p[j])->Ok_0).push(disassemble_line(last)->Ok_0),
        ));
        assert(Seq::new(p.len(), |j: int| disassemble_line(p[j])->Ok_0).push(
            disassemble_line(last)->Ok_0,
        ) =~= Seq::new(lines.len(), |j: int| disassemble_line(lines[j])->Ok_0));
    } else {
        assert(Seq::new(lines.len(), |j: int| disassemble_line(lines[j])->Ok_0) =~= seq![]);
    }
}

pub open spec fn string_views(v: Seq<String>) -> Seq<Seq<char>> {
    v.map_values(|s: String| s@)
}

pub open spec fn program_view(v: Seq<Instruction>) -> Seq<InstructionModel> {
    v.map_values(|i: Instruction| i@)
}

pub open spec fn all_wf(v: Seq<Instruction>) -> bool {
    forall|j: int| 0 <= j < v.len() ==> (#[trigger] v[j]).wf()
}

/// The line of a source file that failed, by its index among all lines, and why.
#[derive(PartialEq, Eq, Clone, Copy, Debug, Structural)]
pub struct LineError {
    pub line: usize,
    pub error: CompileErr,
}

fn line_skipped(line: &Vec<char>) -> (r: bool)
    ensures
        r == skipped(line@),
{
    let mut k: usize = 0;
    while k < line.len()
        invariant
            k <= line@.len(),
            forall|q: int| 0 <= q < k ==> is_space(#[trigger] line@[q]),
        decreases line.len() - k,
    {
        let c = line[k];
        if !space_char(c) {
            if c == '#' {
                assert(line@[k as int] == '#');
                return true;
            } else {
                assert(!is_space(line@[k as int]));
                assert forall|j: int| 0 <= j < line@.len() && line@[j] == '#' implies !(forall|q: int|
                    0 <= q < j ==> is_space(#[trigger] line@[q])) by {
                    if j > k {
                        assert(!is_space(line@[k as int]));
                    }
                }
                return false;
            }
        }
        k += 1;
    }
    true
}

/// The fields of a source line, as `line_fields` states.
pub fn fields_of(line: &Vec<char>) -> (r: Vec<Vec<char>>)
    ensures
        views(r@) == line_fields(line@),
{
    let mut norm: Vec<char> = Vec::new();
    let mut k: usize = 0;
    while k < line.len()
        invariant
            k <= line@.len(),
            norm@ == line@.subrange(0, k as int).map_values(|c: char| if is_sep(c) { ' ' } else { c }),
        decreases line.len() - k,
    {
        let c = line[k];
        let d = if c == ',' || space_char(c) {
            ' '
        } else {
            c
        };
        norm.push(d);
        assert(norm@ =~= line@.subrange(0, k as int + 1).map_values(
            |c: char| if is_sep(c) { ' ' } else { c },
        ));
        k += 1;
    }
    assert(line@.subrange(0, k as int) =~= line@);
    let pieces = split_chars(&norm, ' ');
    let ghost pv = views(pieces@);
    assert(norm@ =~= line@.map_values(|c: char| if is_sep(c) { ' ' } else { c }));
    assert(clean_fields(pv) == line_fields(line@));
    let mut out: Vec<Vec<char>> = Vec::new();
    let mut i: usize = 0;
    assert(pv.subrange(0, pv.len() as int) =~= pv);
    assert(views(out@) + clean_fields(pv.subrange(0, pv.len() as int)) =~= clean_fields(pv));
    while i < pieces.len()
        invariant
            i <= pieces@.len(),
            pv == views(pieces@),
            clean_fields(pv) == line_fields(line@),
            views(out@) + clean_fields(pv.subrange(i as int, pv.len() as int)) == clean_fields(pv),
        decreases pieces.len() - i,
    {
        let ghost rest = pv.subrange(i as int, pv.len() as int);
        assert(rest[0] == pieces@[i as int]@);
        assert(rest.drop_first() =~= pv.subrange(i as int + 1, pv.len() as int));
        let p = &pieces[i];
        if p.len() > 0 && p[0] == '#' {
            assert(rest[0][0] == p@[0]);
            assert(views(out@) + seq![] =~= views(out@));
            return out;
        }
        if p.len() > 0 {
            let ghost before = views(out@);
            out.push(p.clone());
            assert(views(out@) =~= before.push(pieces@[i as int]@));
            assert(before + (seq![rest[0]] + rest.drop_first()) =~= views(out@) + rest.drop_first());
        }
        i += 1;
    }
    assert(pv.subrange(i as int, pv.len() as int) =~= seq![]);
    assert(views(out@) + seq![] =~= views(out@));
    out
}

fn check_line(line: &Vec<char>, counter: usize) -> (r: Result<Instruction, CompileErr>)
    ensures
        match r {
            Ok(inst) => inst.wf() && check_source_line(line@, counter as int) == Ok::<
                InstructionModel,
                CompileErr,
            >(inst@),
            Err(e) => check_source_line(line@, counter as int) == Err::<
                InstructionModel,
                CompileErr,
            >(e),
        },
{
    if line.len() > 0 && (line[0] == ',' || line[0] == ' ' || line[0] == '\t') {
        return Err(CompileErr::LineNumberNotPresent);
    }
    let mut f = fields_of(line);
    if f.len() == 0 {
        return Err(CompileErr::LineNumberNotPresent);
    }
    let ghost fv = views(f@);
    assert(fv[0] == f@[0]@);
    match parse_clamped(&f[0], 10, true) {
        None => Err(CompileErr::LineNumberNotPresent),
        Some(v) => {
            if v != counter as i128 {
                Err(CompileErr::InvalidLineNumber)
            } else if f.len() == 1 {
                Err(CompileErr::InstructionDoesNotExist)
            } else {
                let _label = f.remove(0);
                assert(views(f@) =~= fv.drop_first());
                let mut lowered: Vec<Vec<char>> = Vec::new();
                let mut j: usize = 0;
                while j < f.len()
                    invariant
                        j <= f@.len(),
                        views(lowered@) == lower_fields(views(f@).subrange(0, j as int)),
                    decreases f.len() - j,
                {
                    let ghost before = views(lowered@);
                    let piece = lower_chars(&f[j]);
                    lowered.push(piece);
                    assert(views(lowered@) =~= before.push(piece@));
                    assert(views(f@)[j as int] == f@[j as int]@);
                    assert(lower_fields(views(f@).subrange(0, j as int + 1)) =~= lower_fields(
                        views(f@).subrange(0, j as int),
                    ).push(ascii_lower(f@[j as int]@)));
                    assert(views(lowered@) =~= lower_fields(views(f@).subrange(0, j as int + 1)));
                    j += 1;
                }
                assert(views(f@).subrange(0, j as int) =~= views(f@));
                assert(views(lowered@)[0] == lowered@[0]@);
                Instruction::from_tokens(lowered)
            }
        },
    }
}

proof fn lemma_compile_err_stays(lines: Seq<Seq<char>>, i: int, e: (int, CompileErr))
    requires
        0 <= i <= lines.len(),
        compile_lines(lines.subrange(0, i)) == Err::<Seq<InstructionModel>, (int, CompileErr)>(e),
    ensures
        compile_lines(lines) == Err::<Seq<InstructionModel>, (int, CompileErr)>(e),
    decreases lines.len() - i,
{
    if i < lines.len() {
        assert(lines.subrange(0, i + 1).drop_last() =~= lines.subrange(0, i));
        lemma_compile_err_stays(lines, i + 1, e);
    } else {
        assert(lines.subrange(0, i) =~= lines);
    }
}

proof fn lemma_read_err_stays(lines: Seq<Seq<char>>, i: int, e: (int, CompileErr))
    requires
        0 <= i <= lines.len(),
        read_lines(lines.subrange(0, i)) == Err::<Seq<InstructionModel>, (int, CompileErr)>(e),
    ensures
        read_lines(lines) == Err::<Seq<InstructionModel>, (int, CompileErr)>(e),
    decreases lines.len() - i,
{
    if i < lines.len() {
        assert(lines.subrange(0, i + 1).drop_last() =~= lines.subrange(0, i));
        lemma_read_err_stays(lines, i + 1, e);
    } else {
        assert(lines.subrange(0, i) =~= lines);
    }
}

/// Assembles a source file, given as its lines. Blank lines and comment
/// lines are skipped; every other line must carry the label that counts the
/// lines assembled before it. The first line that fails stops the run.
pub fn compile_hmmm(uncompiled_text: &Vec<String>) -> (r: Result<Vec<Instruction>, LineError>)
    ensures
        match r {
            Ok(prog) => all_wf(prog@) && compile_lines(string_views(uncompiled_text@)) == Ok::<
                Seq<InstructionModel>,
                (int, CompileErr),
            >(program_view(prog@)),
            Err(le) => compile_lines(string_views(uncompiled_text@)) == Err::<
                Seq<InstructionModel>,
                (int, CompileErr),
            >((le.line as int, le.error)),
        },
{
    let ghost lv = string_views(uncompiled_text@);
    let mut prog: Vec<Instruction> = Vec::new();
    let mut i: usize = 0;
    assert(lv.subrange(0, 0) =~= seq![]);
    assert(program_view(prog@) =~= seq![]);
    while i < uncompiled_text.len()
        invariant
            i <= uncompiled_text@.len(),
            lv == string_views(uncompiled_text@),
            all_wf(prog@),
            prog@.len() <= i,
            compile_lines(lv.subrange(0, i as int)) == Ok::<Seq<InstructionModel>, (int, CompileErr)>(
                program_view(prog@),
            ),
        decreases uncompiled_text.len() - i,
    {
        let line = chars_of(uncompiled_text[i].as_str());
        let ghost sub = lv.subrange(0, i as int + 1);
        assert(sub.drop_last() =~= lv.subrange(0, i as int));
        assert(sub.last() == line@);
        if !line_skipped(&line) {
            match check_line(&line, prog.len()) {
                Err(e) => {
                    proof {
                        lemma_compile_err_stays(lv, i as int + 1, (i as int, e));
                    }
                    return Err(LineError { line: i, error: e });
                },
                Ok(inst) => {
                    let ghost before = program_view(prog@);
                    prog.push(inst);
                    assert(program_view(prog@) =~= before.push(inst@));
                },
            }
        }
        i += 1;
    }
    assert(lv.subrange(0, i as int) =~= lv);
    Ok(prog)
}

/// Reads a compiled file, given as its lines, one instruction per line. The
/// first line that fails stops the run.
pub fn read_compiled_hmmm(raw_binary: &Vec<String>) -> (r: Result<Vec<Instruction>, LineError>)
    ensures
        match r {
            Ok(prog) => all_wf(prog@) && read_lines(string_views(raw_binary@)) == Ok::<
                Seq<InstructionModel>,
                (int, CompileErr),
            >(program_view(prog@)),
            Err(le) => read_lines(string_views(raw_binary@)) == Err::<
                Seq<InstructionModel>,
                (int, CompileErr),
            >((le.line as int, le.error)),
        },
{
    let ghost lv = string_views(raw_binary@);
    let mut prog: Vec<Instruction> = Vec::new();
    let mut i: usize = 0;
    assert(lv.subrange(0, 0) =~= seq![]);
    assert(program_view(prog@) =~= seq![]);
    while i < raw_binary.len()
        invariant
            i <= raw_binary@.len(),
            lv == string_views(raw_binary@),
            all_wf(prog@),
            read_lines(lv.subrange(0, i as int)) == Ok::<Seq<InstructionModel>, (int, CompileErr)>(
                program_view(prog@),
            ),
        decreases raw_binary.len() - i,
    {
        let ghost sub = lv.subrange(0, i as int + 1);
        assert(sub.drop_last() =~= lv.subrange(0, i as int));
        assert(sub.last() == raw_binary@[i as int]@);
        match Instruction::new_from_binary(raw_binary[i].as_str()) {
            Err(e) => {
                proof {
                    lemma_read_err_stays(lv, i as int + 1, (i as int, e));
                }
                return Err(LineError { line: i, error: e });
            },
            Ok(inst) => {
                let ghost before = program_view(prog@);
                prog.push(inst);
                assert(program_view(prog@) =~= before.push(inst@));
            },
        }
        i += 1;
    }
    assert(lv.subrange(0, i as int) =~= lv);
    Ok(prog)
}

pub open spec fn bit_char(b: bool) -> char {
    if b {
        '1'
    } else {
        '0'
    }
}

/// The four binary digits of a nibble.
pub open spec fn nibble_text(n: u8) -> Seq<char> {
    seq![bit_char(n >= 8), bit_char((n / 4) % 2 == 1), bit_char((n / 2) % 2 == 1), bit_char(n % 2 == 1)]
}

/// A word as four groups of binary digits separated by spaces.
pub open spec fn word_text(w: Seq<u8>) -> Seq<char> {
    nibble_text(w[0]) + seq![' '] + nibble_text(w[1]) + seq![' '] + nibble_text(w[2]) + seq![' ']
        + nibble_text(w[3])
}

/// Line `i` of a decompiled listing: the index, the canonical name and the
/// operand text, separated by spaces.
pub open spec fn listing_line(i: int, m: InstructionModel) -> Seq<char> {
    dec_text(i) + seq![' '] + entry_model(m.index).names[0] + seq![' '] + m.text
}

/// `s` without the white space at its end.
pub open spec fn trim_end(s: Seq<char>) -> Seq<char>
    decreases s.len(),
{
    if s.len() > 0 && is_space(s.last()) {
        trim_end(s.drop_last())
    } else {
        s
    }
}

/// The text of a decompiled file: one listing line per instruction, with
/// the white space at the end of the whole text removed.
pub open spec fn source_listing(prog: Seq<InstructionModel>) -> Seq<char> {
    trim_end(join_with(Seq::new(prog.len(), |i: int| listing_line(i, prog[i])), seq!['\n']))
}

proof fn lemma_trim_end(s: Seq<char>)
    ensures
        trim_end(s).len() <= s.len(),
        trim_end(s) == s.subrange(0, trim_end(s).len() as int),
        forall|k: int| 0 <= k < s.len() && !is_space(#[trigger] s[k]) ==> k < trim_end(s).len(),
    decreases s.len(),
{
    if s.len() > 0 && is_space(s.last()) {
        let p = s.drop_last();
        lemma_trim_end(p);
        assert(trim_end(p) =~= s.subrange(0, trim_end(p).len() as int));
        assert forall|k: int| 0 <= k < s.len() && !is_space(#[trigger] s[k]) implies k < trim_end(s).len() by {
            assert(k < p.len());
            assert(p[k] == s[k]);
        }
    } else {
        assert(s.subrange(0, s.len() as int) =~= s);
    }
}

proof fn lemma_trim_concat(x: Seq<char>, y: Seq<char>)
    requires
        y.len() > 0,
        !is_space(y[0]),
    ensures
        trim_end(x + y) == x + trim_end(y),
    decreases y.len(),
{
    if is_space(y.last()) {
        let yp = y.drop_last();
        assert((x + y).drop_last() =~= x + yp);
        assert((x + y).last() == y.last());
        assert(yp[0] == y[0]);
        lemma_trim_concat(x, yp);
    } else {
        assert((x + y).last() == y.last());
    }
}

/// The text of a compiled file: one word per line.
pub open spec fn binary_listing(prog: Seq<InstructionModel>) -> Seq<char> {
    join_with(Seq::new(prog.len(), |i: int| word_text(prog[i].word)), seq!['\n'])
}

proof fn lemma_listing_line_plain(i: int, m: InstructionModel)
    requires
        i >= 0,
        0 <= m.index < TABLE_LEN,
        forall|k: int| 0 <= k < m.text.len() ==> #[trigger] m.text[k] != '\n',
    ensures
        forall|k: int| 0 <= k < listing_line(i, m).len() ==> #[trigger] listing_line(i, m)[k] != '\n',
{
    lemma_dec_digits(i as nat);
    lemma_name_letters(m.index);
    let d = dec_text(i);
    let n = entry_model(m.index).names[0];
    let l = listing_line(i, m);
    assert forall|k: int| 0 <= k < l.len() implies #[trigger] l[k] != '\n' by {
        if k < d.len() {
            assert(l[k] == d[k]);
            assert(digit_val(d[k]) < 10);
        } else if k == d.len() {
        } else if k < d.len() + 1 + n.len() {
            assert(l[k] == n[k - d.len() - 1]);
        } else if k == d.len() + 1 + n.len() {
        } else {
            assert(l[k] == m.text[k - d.len() - 2 - n.len()]);
        }
    }
}

/// The start of line `i` of a decompiled listing: the index and the
/// canonical name.
pub open spec fn listing_head(i: int, m: InstructionModel) -> Seq<char> {
    dec_text(i) + seq![' '] + entry_model(m.index).names[0]
}

/// A decompiled listing of a non-empty program has one line per
/// instruction, and line `j` begins with `j` and the canonical name of
/// instruction `j`. Every line but the last is the full listing line; the
/// last loses its trailing white space. Operand texts with a line break are
/// left out.
pub proof fn lemma_listing_lines(prog: Seq<InstructionModel>)
    requires
        prog.len() >= 1,
        forall|j: int| 0 <= j < prog.len() ==> 0 <= #[trigger] prog[j].index < TABLE_LEN,
        forall|j: int, k: int| 0 <= j < prog.len() && 0 <= k < prog[j].text.len() ==> #[trigger] prog[j].text[k] != '\n',
    ensures
        split_on(source_listing(prog), '\n').len() == prog.len(),
        forall|j: int| 0 <= j < prog.len() - 1 ==> #[trigger] split_on(source_listing(prog), '\n')[j] == listing_line(j, prog[j]),
        split_on(source_listing(prog), '\n')[prog.len() - 1] == trim_end(listing_line(prog.len() - 1, prog[prog.len() - 1])),
        forall|j: int| 0 <= j < prog.len() ==> (#[trigger] split_on(source_listing(prog), '\n')[j]).subrange(
            0,
            listing_head(j, prog[j]).len() as int,
        ) == listing_head(j, prog[j]),
{
    let n = prog.len() as int;
    let parts = Seq::new(prog.len(), |j: int| listing_line(j, prog[j]));
    let last = parts[n - 1];
    let tl = trim_end(last);
    let parts2 = parts.update(n - 1, tl);
    lemma_trim_end(last);
    assert(0 <= prog[n - 1].index < TABLE_LEN);
    lemma_listing_line_plain(n - 1, prog[n - 1]);
    assert forall|j: int, k: int| 0 <= j < parts2.len() && 0 <= k < parts2[j].len() implies #[trigger] parts2[j][k] != '\n' by {
        assert(0 <= prog[j].index < TABLE_LEN);
        lemma_listing_line_plain(j, prog[j]);
        if j == n - 1 {
            assert(tl[k] == last[k]);
        }
    }
    let dn = dec_text(n - 1);
    lemma_dec_digits((n - 1) as nat);
    assert(!is_space(last[0])) by {
        assert(last[0] == dn[0]);
        assert(digit_val(dn[0]) < 10);
    }
    if n == 1 {
        assert(join_with(parts, seq!['\n']) == last);
        assert(join_with(parts2, seq!['\n']) == tl);
    } else {
        let q = parts.drop_last();
        assert(parts2.drop_last() =~= q);
        let x = join_with(q, seq!['\n']) + seq!['\n'];
        assert(join_with(parts, seq!['\n']) =~= x + last);
        assert(join_with(parts2, seq!['\n']) =~= x + tl);
        lemma_trim_concat(x, last);
    }
    assert(source_listing(prog) == join_with(parts2, seq!['\n']));
    lemma_split_join(parts2, '\n');
    assert forall|j: int| 0 <= j < prog.len() implies (#[trigger] split_on(source_listing(prog), '\n')[j]).subrange(
        0,
        listing_head(j, prog[j]).len() as int,
    ) == listing_head(j, prog[j]) by {
        let h = listing_head(j, prog[j]);
        lemma_entry_wf(prog[j].index);
        lemma_name_letters(prog[j].index);
        let nm = entry_model(prog[j].index).names[0];
        if j == n - 1 {
            let k = h.len() - 1;
            assert(last == parts[n - 1]);
            assert(last[k] == nm[nm.len() - 1]);
            assert('a' <= nm[nm.len() - 1] <= 'z');
            assert(!is_space(last[k]));
            assert(tl.subrange(0, h.len() as int) =~= h);
        } else {
            assert(parts2[j] == parts[j]);
            assert(parts[j].subrange(0, h.len() as int) =~= h);
        }
    }
}

/// The decompiled listing of a non-empty program of valid instructions has
/// one line per instruction, line `j` beginning with `j` and the canonical
/// name of instruction `j`.
pub proof fn lemma_program_listing_lines(prog: Seq<Instruction>)
    requires
        prog.len() >= 1,
        all_wf(prog),
    ensures
        split_on(source_listing(program_view(prog)), '\n').len() == prog.len(),
        forall|j: int|
            0 <= j < prog.len() ==> (#[trigger] split_on(source_listing(program_view(prog)), '\n')[j]).subrange(
                0,
                listing_head(j, prog[j]@).len() as int,
            ) == listing_head(j, prog[j]@),
{
    let pv = program_view(prog);
    assert forall|j: int| 0 <= j < pv.len() implies 0 <= #[trigger] pv[j].index < TABLE_LEN by {
        assert(prog[j].wf());
    }
    assert forall|j: int, k: int| 0 <= j < pv.len() && 0 <= k < pv[j].text.len() implies #[trigger] pv[j].text[k]
        != '\n' by {
        assert(prog[j].wf());
    }
    lemma_listing_lines(pv);
}

/// The decompiled listing of a non-empty program read from a compiled file
/// has one line per instruction, line `j` beginning with `j` and the
/// canonical name of instruction `j`.
pub proof fn lemma_read_listing_lines(lines: Seq<Seq<char>>)
    requires
        lines.len() >= 1,
        read_lines(lines) is Ok,
    ensures
        split_on(source_listing(read_lines(lines)->Ok_0), '\n').len() == lines.len(),
        forall|j: int|
            0 <= j < lines.len() ==> (#[trigger] split_on(source_listing(read_lines(lines)->Ok_0), '\n')[j]).subrange(
                0,
                listing_head(j, read_lines(lines)->Ok_0[j]).len() as int,
            ) == listing_head(j, read_lines(lines)->Ok_0[j]),
{
    lemma_read_models_plain(lines);
    lemma_listing_lines(read_lines(lines)->Ok_0);
}

proof fn lemma_read_models_plain(lines: Seq<Seq<char>>)
    requires
        read_lines(lines) is Ok,
    ensures
        forall|j: int| 0 <= j < read_lines(lines)->Ok_0.len() ==> 0 <= #[trigger] read_lines(lines)->Ok_0[j].index
            < TABLE_LEN,
        forall|j: int, k: int|
            0 <= j < read_lines(lines)->Ok_0.len() && 0 <= k < read_lines(lines)->Ok_0[j].text.len()
                ==> #[trigger] read_lines(lines)->Ok_0[j].text[k] != '\n',
        read_lines(lines)->Ok_0.len() == lines.len(),
    decreases lines.len(),
{
    if lines.len() > 0 {
        let p = lines.drop_last();
        lemma_read_models_plain(p);
        let prev = read_lines(p)->Ok_0;
        let m = disassemble_line(lines.last())->Ok_0;
        let w = word_of_line(lines.last())->Some_0;
        let i = lookup_word(w)->Some_0;
        lemma_first_match(w, 0);
        let ks = entry_model(i).operands;
        lemma_operand_texts_plain(ks, decode_values(i, w));
        lemma_join_plain(operand_texts(ks, decode_values(i, w)), seq![',', ' ']);
        let all = read_lines(lines)->Ok_0;
        assert(all == prev.push(m));
        assert forall|j: int| 0 <= j < all.len() implies 0 <= #[trigger] all[j].index < TABLE_LEN by {
            if j < prev.len() {
                assert(all[j] == prev[j]);
            }
        }
        assert forall|j: int, k: int| 0 <= j < all.len() && 0 <= k < all[j].text.len() implies #[trigger] all[j].text[k]
            != '\n' by {
            if j < prev.len() {
                assert(all[j] == prev[j]);
            }
        }
    }
}

fn push_nibble(n: u8, out: &mut Vec<char>)
    requires
        n < 16,
    ensures
        final(out)@ == old(out)@ + nibble_text(n),
{
    out.push(if n >= 8 { '1' } else { '0' });
    out.push(if (n / 4) % 2 == 1 { '1' } else { '0' });
    out.push(if (n / 2) % 2 == 1 { '1' } else { '0' });
    out.push(if n % 2 == 1 { '1' } else { '0' });
    assert(final(out)@ =~= old(out)@ + nibble_text(n));
}

fn word_chars(w: &Vec<u8>) -> (r: Vec<char>)
    requires
        is_word(w@),
    ensures
        r@ == word_text(w@),
{
    let mut out: Vec<char> = Vec::new();
    push_nibble(w[0], &mut out);
    out.push(' ');
    push_nibble(w[1], &mut out);
    out.push(' ');
    push_nibble(w[2], &mut out);
    out.push(' ');
    push_nibble(w[3], &mut out);
    assert(out@ =~= word_text(w@));
    out
}

impl Instruction {
    /// The binary form as text: `dddd dddd dddd dddd`.
    pub fn binary_text(&self) -> (r: String)
        requires
            self.wf(),
        ensures
            r@ == word_text(self.binary_contents@),
    {
        string_of(&word_chars(&self.binary_contents))
    }
}

fn trim_end_chars(v: &mut Vec<char>)
    ensures
        final(v)@ == trim_end(old(v)@),
{
    while v.len() > 0 && space_char(v[v.len() - 1])
        invariant
            trim_end(v@) == trim_end(old(v)@),
        decreases v@.len(),
    {
        assert(v@.drop_last() == v@.subrange(0, v@.len() - 1));
        v.pop();
    }
}

fn listing_chars(i: usize, inst: &Instruction) -> (r: Vec<char>)
    requires
        inst.wf(),
    ensures
        r@ == listing_line(i as int, inst@),
{
    let mut out: Vec<char> = Vec::new();
    push_count(i, &mut out);
    out.push(' ');
    let name = chars_of(inst.name().as_str());
    let text = chars_of(inst.text_contents.as_str());
    let mut k: usize = 0;
    let ghost head = out@;
    while k < name.len()
        invariant
            k <= name@.len(),
            out@ == head + name@.subrange(0, k as int),
        decreases name.len() - k,
    {
        out.push(name[k]);
        assert(out@ =~= head + name@.subrange(0, k as int + 1));
        k += 1;
    }
    assert(name@.subrange(0, k as int) =~= name@);
    out.push(' ');
    let ghost mid = out@;
    let mut j: usize = 0;
    while j < text.len()
        invariant
            j <= text@.len(),
            out@ == mid + text@.subrange(0, j as int),
        decreases text.len() - j,
    {
        out.push(text[j]);
        assert(out@ =~= mid + text@.subrange(0, j as int + 1));
        j += 1;
    }
    assert(text@.subrange(0, j as int) =~= text@);
    assert(out@ =~= listing_line(i as int, inst@));
    out
}

/// The text of the decompiled file of a program: for each instruction its
/// index, canonical name and operand text, one per line.
pub fn write_uncompiled_hmmm(compiled_text: &Vec<Instruction>) -> (r: String)
    requires
        all_wf(compiled_text@),
    ensures
        r@ == source_listing(program_view(compiled_text@)),
{
    let mut lines: Vec<Vec<char>> = Vec::new();
    let mut i: usize = 0;
    assert(views(lines@) =~= seq![]);
    while i < compiled_text.len()
        invariant
            i <= compiled_text@.len(),
            all_wf(compiled_text@),
            views(lines@) == Seq::new(i as nat, |q: int| listing_line(q, compiled_text@[q]@)),
        decreases compiled_text.len() - i,
    {
        assert(compiled_text@[i as int].wf());
        let ghost before = views(lines@);
        let piece = listing_chars(i, &compiled_text[i]);
        lines.push(piece);
        assert(views(lines@) =~= before.push(piece@));
        assert(views(lines@) =~= Seq::new(i as nat + 1, |q: int| listing_line(q, compiled_text@[q]@)));
        i += 1;
    }
    let sep = vec!['\n'];
    assert(sep@ =~= seq!['\n']);
    assert(views(lines@) =~= Seq::new(
        program_view(compiled_text@).len(),
        |q: int| listing_line(q, program_view(compiled_text@)[q]),
    ));
    let mut text = join_chars(&lines, &sep);
    trim_end_chars(&mut text);
    string_of(&text)
}

/// The text of the compiled file of a program: each instruction's word, one
/// per line.
pub fn write_compiled_hmmm(compiled_text: &Vec<Instruction>) -> (r: String)
    requires
        all_wf(compiled_text@),
    ensures
        r@ == binary_listing(program_view(compiled_text@)),
{
    let mut lines: Vec<Vec<char>> = Vec::new();
    let mut i: usize = 0;
    assert(views(lines@) =~= seq![]);
    while i < compiled_text.len()
        invariant
            i <= compiled_text@.len(),
            all_wf(compiled_text@),
            views(lines@) == Seq::new(i as nat, |q: int| word_text(compiled_text@[q]@.word)),
        decreases compiled_text.len() - i,
    {
        assert(compiled_text@[i as int].wf());
        let ghost before = views(lines@);
        let piece = word_chars(&compiled_text[i].binary_contents);
        lines.push(piece);
        assert(views(lines@) =~= before.push(piece@));
        assert(views(lines@) =~= Seq::new(i as nat + 1, |q: int| word_text(compiled_text@[q]@.word)));
        i += 1;
    }
    let sep = vec!['\n'];
    assert(sep@ =~= seq!['\n']);
    assert(views(lines@) =~= Seq::new(
        program_view(compiled_text@).len(),
        |q: int| word_text(program_view(compiled_text@)[q].word),
    ));
    string_of(&join_chars(&lines, &sep))
}

/// Errors of a running machine.
#[derive(PartialEq, Eq, Clone, Copy, Debug, Structural)]
pub enum RuntimeErr {
    /// An instruction that the machine cannot execute. No execution is
    /// defined here, so no step returns it.
    Unsupported,
}

/// Number of instruction slots in a machine's memory.
pub const MEMORY_SLOTS: usize = 256;

/// Number of registers.
pub const REGISTERS: usize = 16;

/// The all-zero instruction (`halt`) that fills unused memory.
pub open spec fn halt_model() -> InstructionModel {
    InstructionModel { index: 0, text: seq![], word: seq![0u8, 0u8, 0u8, 0u8] }
}

fn halt_instruction() -> (r: Instruction)
    ensures
        r.wf(),
        r@ == halt_model(),
{
    let w: Vec<u8> = vec![0, 0, 0, 0];
    let r = Instruction {
        type_index: 0,
        instruction_type: table_entry(0),
        text_contents: String::new(),
        binary_contents: w,
    };
    assert(r.binary_contents@ =~= seq![0u8, 0u8, 0u8, 0u8]);
    assert(forall|k: int| 0 <= k < 4 ==> #[trigger] nib(0xFFFF, k) == 15);
    assert(0u8 & 15u8 == 0u8) by (bit_vector);
    assert(r@ =~= halt_model());
    r
}

/// The state that a program is loaded into: an instruction memory, the
/// registers and the program counter.
#[derive(PartialEq, Eq, Clone, Debug)]
pub struct Simulator {
    pub memory: Vec<Instruction>,
    pub registers: Vec<i16>,
    pub program_counter: usize,
    pub last_program_counter: usize,
}

impl Simulator {
    /// Loads a program of at most `MEMORY_SLOTS` instructions: the memory
    /// holds it, then `halt` in every slot after it; all registers and the
    /// program counter are zero.
    pub fn new(compiled_text: Vec<Instruction>) -> (r: Self)
        requires
            compiled_text@.len() <= MEMORY_SLOTS,
            all_wf(compiled_text@),
        ensures
            r.memory@.len() == MEMORY_SLOTS,
            all_wf(r.memory@),
            forall|j: int| 0 <= j < compiled_text@.len() ==> #[trigger] r.memory@[j] == compiled_text@[j],
            forall|j: int| compiled_text@.len() <= j < MEMORY_SLOTS ==> #[trigger] r.memory@[j]@ == halt_model(),
            r.registers@ == Seq::new(REGISTERS as nat, |j: int| 0i16),
            r.program_counter == 0,
            r.last_program_counter == 0,
    {
        let n = compiled_text.len();
        let mut memory = compiled_text;
        while memory.len() < MEMORY_SLOTS
            invariant
                n <= memory@.len() <= MEMORY_SLOTS,
                all_wf(memory@),
                forall|j: int| 0 <= j < n ==> #[trigger] memory@[j] == compiled_text@[j],
                forall|j: int| n <= j < memory@.len() ==> #[trigger] memory@[j]@ == halt_model(),
            decreases MEMORY_SLOTS - memory@.len(),
        {
            memory.push(halt_instruction());
        }
        let mut registers: Vec<i16> = Vec::new();
        while registers.len() < REGISTERS
            invariant
                registers@.len() <= REGISTERS,
                forall|j: int| 0 <= j < registers@.len() ==> #[trigger] registers@[j] == 0i16,
            decreases REGISTERS - registers@.len(),
        {
            registers.push(0);
        }
        assert(registers@ =~= Seq::new(REGISTERS as nat, |j: int| 0i16));
        Simulator { memory, registers, program_counter: 0, last_program_counter: 0 }
    }

    /// One step of execution. The machine's transition is not defined here,
    /// so a step changes nothing and does not fail.
    pub fn step() -> (r: Result<(), RuntimeErr>)
        ensures
            r is Ok,
    {
        Ok(())
    }
}

} // verus!
