//! The fixed table of instruction types and the two lookups over it.
use vstd::prelude::*;
use crate::text::chars_of;

verus! {

/// The kind of one operand slot in an instruction's signature.
#[derive(PartialEq, Eq, Clone, Copy, Debug, Structural)]
pub enum OperandKind {
    /// A register `r0` .. `r15`: one nibble.
    Register,
    /// A signed byte -128 .. 127: two nibbles.
    Signed8,
    /// An unsigned byte 0 .. 255: two nibbles.
    Unsigned8,
    /// An immediate kept to its low twelve bits: three nibbles.
    Imm16,
    /// A zero nibble that takes no token.
    Skip4,
}

/// Number of nibbles that an operand of kind `k` occupies.
pub open spec fn kind_width(k: OperandKind) -> nat {
    match k {
        OperandKind::Register => 1,
        OperandKind::Signed8 => 2,
        OperandKind::Unsigned8 => 2,
        OperandKind::Imm16 => 3,
        OperandKind::Skip4 => 1,
    }
}

/// Whether an operand of kind `k` is written as a token in assembly text.
pub open spec fn takes_token(k: OperandKind) -> bool {
    k != OperandKind::Skip4
}

/// Total nibble width of a signature.
pub open spec fn sig_width(s: Seq<OperandKind>) -> nat
    decreases s.len(),
{
    if s.len() == 0 {
        0
    } else {
        sig_width(s.drop_last()) + kind_width(s.last())
    }
}

/// Number of tokens that a signature asks for.
pub open spec fn sig_arity(s: Seq<OperandKind>) -> nat
    decreases s.len(),
{
    if s.len() == 0 {
        0
    } else {
        sig_arity(s.drop_last()) + (if takes_token(s.last()) { 1nat } else { 0nat })
    }
}

/// Nibble `k` (0 is the most significant) of a 16-bit value.
pub open spec fn nib(x: u16, k: int) -> u8 {
    (if k == 0 {
        x / 4096
    } else if k == 1 {
        (x / 256) % 16
    } else if k == 2 {
        (x / 16) % 16
    } else {
        x % 16
    }) as u8
}

/// The four nibbles of a 16-bit value, most significant first.
pub open spec fn nibs(x: u16) -> Seq<u8> {
    seq![nib(x, 0), nib(x, 1), nib(x, 2), nib(x, 3)]
}

/// A binary word: four nibbles, most significant first.
pub open spec fn is_word(w: Seq<u8>) -> bool {
    w.len() == 4 && forall|k: int| 0 <= k < 4 ==> w[k] < 16
}

/// Number of operand (all-zero) nibbles of a mask.
pub open spec fn free_slots(m: Seq<u8>) -> nat
    decreases m.len(),
{
    if m.len() == 0 {
        0
    } else {
        free_slots(m.drop_last()) + (if m.last() == 0 { 1nat } else { 0nat })
    }
}

/// `w` agrees with the entry's pattern on every bit that its mask fixes.
pub open spec fn matches_entry(w: Seq<u8>, t: TypeModel) -> bool {
    forall|k: int|
        0 <= k < 4 ==> (#[trigger] w[k] & nib(t.mask, k)) == (nib(t.pattern, k) & nib(t.mask, k))
}

/// Comparison of one character of a mnemonic with one of a (lower-case)
/// name, where ASCII capitals stand for their lower-case letters.
pub open spec fn char_eq_fold(a: char, b: char) -> bool {
    a == b || ('A' <= a <= 'Z' && a as u32 + 32 == b as u32)
}

pub open spec fn same_name(m: Seq<char>, name: Seq<char>) -> bool {
    m.len() == name.len() && forall|k: int| 0 <= k < m.len() ==> char_eq_fold(#[trigger] m[k], name[k])
}

pub open spec fn has_name(t: TypeModel, m: Seq<char>) -> bool {
    exists|j: int| 0 <= j < t.names.len() && same_name(m, #[trigger] t.names[j])
}

/// The first entry at or after `i` that has the name `m`.
pub open spec fn first_named_from(m: Seq<char>, i: int) -> Option<int>
    decreases TABLE_LEN - i,
{
    if i < 0 || i >= TABLE_LEN {
        None
    } else if has_name(entry_model(i), m) {
        Some(i)
    } else {
        first_named_from(m, i + 1)
    }
}

/// The entry that a mnemonic looks up: the first one in the table that has it.
pub open spec fn lookup_name(m: Seq<char>) -> Option<int> {
    first_named_from(m, 0)
}

/// The first entry at or after `i` that `w` matches.
pub open spec fn first_match_from(w: Seq<u8>, i: int) -> Option<int>
    decreases TABLE_LEN - i,
{
    if i < 0 || i >= TABLE_LEN {
        None
    } else if matches_entry(w, entry_model(i)) {
        Some(i)
    } else {
        first_match_from(w, i + 1)
    }
}

/// The entry that a word decodes by: the first one in the table that it matches.
pub open spec fn lookup_word(w: Seq<u8>) -> Option<int> {
    first_match_from(w, 0)
}

/// The mathematical model of an instruction type.
pub struct TypeModel {
    pub names: Seq<Seq<char>>,
    pub pattern: u16,
    pub mask: u16,
    pub operands: Seq<OperandKind>,
}

/// One entry of the instruction table: its accepted names (the first is
/// canonical), the bits a word must have, which bits are fixed, and the
/// operand signature.
#[derive(PartialEq, Eq, Clone, Debug)]
pub struct InstructionType {
    pub names: Vec<String>,
    pub match_pattern: u16,
    pub mask: u16,
    pub operands: Vec<OperandKind>,
}

impl View for InstructionType {
    type V = TypeModel;

    open spec fn view(&self) -> TypeModel {
        TypeModel {
            names: self.names@.map_values(|s: String| s@),
            pattern: self.match_pattern,
            mask: self.mask,
            operands: self.operands@,
        }
    }
}

impl InstructionType {
    pub fn new(names: Vec<String>, match_pattern: u16, mask: u16, operands: Vec<OperandKind>) -> (r:
        InstructionType)
        ensures
            r.names == names,
            r.match_pattern == match_pattern,
            r.mask == mask,
            r.operands == operands,
    {
        InstructionType { names, match_pattern, mask, operands }
    }
}

/// Number of entries in the table.
pub const TABLE_LEN: usize = 27;

pub open spec fn tm(name: Seq<char>, pattern: u16, mask: u16, operands: Seq<OperandKind>) -> TypeModel {
    TypeModel { names: seq![name], pattern, mask, operands }
}

pub open spec fn rrr() -> Seq<OperandKind> {
    seq![OperandKind::Register, OperandKind::Register, OperandKind::Register]
}

pub open spec fn rr() -> Seq<OperandKind> {
    seq![OperandKind::Register, OperandKind::Register]
}

pub open spec fn ru() -> Seq<OperandKind> {
    seq![OperandKind::Register, OperandKind::Unsigned8]
}

pub open spec fn rs() -> Seq<OperandKind> {
    seq![OperandKind::Register, OperandKind::Signed8]
}

/// Entry `i` of the table, in declaration order. Declaration order decides
/// which entry a word decodes to where several match it.
///
/// Each entry's operand slots (the zero nibbles of its mask) are exactly as
/// many as its signature's nibbles, and no two entries share a pattern and
/// a mask (`lemma_entry_wf`, `lemma_entries_distinct`). That fixes a few
/// layouts:
/// - `loadr`, `storer`, `popr` and `pushr` take two registers in the middle
///   nibbles, the last nibble telling them apart (mask `F00F`);
/// - `neg` takes two registers with the third nibble fixed at zero (mask
///   `F0F0`), so that `sub` is not shadowed; a skip slot there would give it
///   the same pattern and mask as `sub`;
/// - `jumpn` takes one unsigned byte with the second nibble fixed at zero
///   (mask `FF00`), for the same reason with respect to `calln`;
/// - `data` takes a twelve-bit immediate behind the opcode nibble `0000`
///   (mask `F000`), so that it catches only the opcode-zero words that
///   `halt`, `read`, `write` and `jumpr` do not.
///
/// No entry uses a skip slot, and the words `0100 xxxx xxxx 0100` to
/// `0100 xxxx xxxx 1111` match no entry.
pub open spec fn entry_model(i: int) -> TypeModel {
    if i == 0 { tm("halt"@, 0x0000, 0xFFFF, seq![]) }
    else if i == 1 { tm("read"@, 0x0001, 0xF0FF, seq![OperandKind::Register]) }
    else if i == 2 { tm("write"@, 0x0002, 0xF0FF, seq![OperandKind::Register]) }
    else if i == 3 { tm("jumpr"@, 0x0003, 0xF0FF, seq![OperandKind::Register]) }
    else if i == 4 { tm("setn"@, 0x1000, 0xF000, rs()) }
    else if i == 5 { tm("loadn"@, 0x2000, 0xF000, ru()) }
    else if i == 6 { tm("storen"@, 0x3000, 0xF000, ru()) }
    else if i == 7 { tm("loadr"@, 0x4000, 0xF00F, rr()) }
    else if i == 8 { tm("storer"@, 0x4001, 0xF00F, rr()) }
    else if i == 9 { tm("popr"@, 0x4002, 0xF00F, rr()) }
    else if i == 10 { tm("pushr"@, 0x4003, 0xF00F, rr()) }
    else if i == 11 { tm("addn"@, 0x5000, 0xF000, rs()) }
    else if i == 12 { tm("nop"@, 0x6000, 0xFFFF, seq![]) }
    else if i == 13 { tm("copy"@, 0x6000, 0xF00F, rr()) }
    else if i == 14 { tm("add"@, 0x6000, 0xF000, rrr()) }
    else if i == 15 { tm("neg"@, 0x7000, 0xF0F0, rr()) }
    else if i == 16 { tm("sub"@, 0x7000, 0xF000, rrr()) }
    else if i == 17 { tm("mul"@, 0x8000, 0xF000, rrr()) }
    else if i == 18 { tm("div"@, 0x9000, 0xF000, rrr()) }
    else if i == 19 { tm("mod"@, 0xA000, 0xF000, rrr()) }
    else if i == 20 { tm("jumpn"@, 0xB000, 0xFF00, seq![OperandKind::Unsigned8]) }
    else if i == 21 { tm("calln"@, 0xB000, 0xF000, ru()) }
    else if i == 22 { tm("jeqzn"@, 0xC000, 0xF000, ru()) }
    else if i == 23 { tm("jnezn"@, 0xD000, 0xF000, ru()) }
    else if i == 24 { tm("jgtzn"@, 0xE000, 0xF000, ru()) }
    else if i == 25 { tm("jltzn"@, 0xF000, 0xF000, ru()) }
    else { tm("data"@, 0x0000, 0xF000, seq![OperandKind::Imm16]) }
}

fn named(s: &str) -> (r: Vec<String>)
    ensures
        r@.map_values(|x: String| x@) == seq![s@],
{
    let v = vec![s.to_owned()];
    assert(v@.map_values(|x: String| x@) =~= seq![s@]);
    v
}

fn mk(s: &str, pattern: u16, mask: u16, operands: Vec<OperandKind>) -> (r: InstructionType)
    ensures
        r@ == tm(s@, pattern, mask, operands@),
{
    InstructionType::new(named(s), pattern, mask, operands)
}

/// Builds entry `i` of the table.
pub fn table_entry(i: usize) -> (r: InstructionType)
    requires
        i < TABLE_LEN,
    ensures
        r@ == entry_model(i as int),
{
    let reg = OperandKind::Register;
    let u = OperandKind::Unsigned8;
    let s = OperandKind::Signed8;
    let r = if i == 0 { mk("halt", 0x0000, 0xFFFF, vec![]) }
    else if i == 1 { mk("read", 0x0001, 0xF0FF, vec![reg]) }
    else if i == 2 { mk("write", 0x0002, 0xF0FF, vec![reg]) }
    else if i == 3 { mk("jumpr", 0x0003, 0xF0FF, vec![reg]) }
    else if i == 4 { mk("setn", 0x1000, 0xF000, vec![reg, s]) }
    else if i == 5 { mk("loadn", 0x2000, 0xF000, vec![reg, u]) }
    else if i == 6 { mk("storen", 0x3000, 0xF000, vec![reg, u]) }
    else if i == 7 { mk("loadr", 0x4000, 0xF00F, vec![reg, reg]) }
    else if i == 8 { mk("storer", 0x4001, 0xF00F, vec![reg, reg]) }
    else if i == 9 { mk("popr", 0x4002, 0xF00F, vec![reg, reg]) }
    else if i == 10 { mk("pushr", 0x4003, 0xF00F, vec![reg, reg]) }
    else if i == 11 { mk("addn", 0x5000, 0xF000, vec![reg, s]) }
    else if i == 12 { mk("nop", 0x6000, 0xFFFF, vec![]) }
    else if i == 13 { mk("copy", 0x6000, 0xF00F, vec![reg, reg]) }
    else if i == 14 { mk("add", 0x6000, 0xF000, vec![reg, reg, reg]) }
    else if i == 15 { mk("neg", 0x7000, 0xF0F0, vec![reg, reg]) }
    else if i == 16 { mk("sub", 0x7000, 0xF000, vec![reg, reg, reg]) }
    else if i == 17 { mk("mul", 0x8000, 0xF000, vec![reg, reg, reg]) }
    else if i == 18 { mk("div", 0x9000, 0xF000, vec![reg, reg, reg]) }
    else if i == 19 { mk("mod", 0xA000, 0xF000, vec![reg, reg, reg]) }
    else if i == 20 { mk("jumpn", 0xB000, 0xFF00, vec![u]) }
    else if i == 21 { mk("calln", 0xB000, 0xF000, vec![reg, u]) }
    else if i == 22 { mk("jeqzn", 0xC000, 0xF000, vec![reg, u]) }
    else if i == 23 { mk("jnezn", 0xD000, 0xF000, vec![reg, u]) }
    else if i == 24 { mk("jgtzn", 0xE000, 0xF000, vec![reg, u]) }
    else if i == 25 { mk("jltzn", 0xF000, 0xF000, vec![reg, u]) }
    else { mk("data", 0x0000, 0xF000, vec![OperandKind::Imm16]) };
    proof {
        assert(r@.operands =~= entry_model(i as int).operands);
    }
    r
}

/// Every mask nibble of an entry is all-zero (an operand slot) or all-one
/// (a fixed slot), and the operand slots are exactly as many as its
/// signature's nibbles.
pub open spec fn entry_wf(t: TypeModel) -> bool {
    &&& forall|k: int| 0 <= k < 4 ==> #[trigger] nib(t.mask, k) == 0 || nib(t.mask, k) == 15
    &&& free_slots(nibs(t.mask)) == sig_width(t.operands)
    &&& t.names.len() > 0
}

/// Every entry of the table is well formed.
pub proof fn lemma_entry_wf(i: int)
    requires
        0 <= i < TABLE_LEN,
    ensures
        entry_wf(entry_model(i)),
        forall|j: int|
            0 <= j < entry_model(i).operands.len() ==> #[trigger] entry_model(i).operands[j]
                != OperandKind::Skip4,
{
    reveal_with_fuel(free_slots, 5);
    reveal_with_fuel(sig_width, 4);
    let t = entry_model(i);
    assert(nibs(t.mask).drop_last().drop_last().drop_last().drop_last() =~= seq![]);
    assert(t.operands.len() <= 3);
    if t.operands.len() == 3 {
        assert(t.operands.drop_last().drop_last().drop_last() =~= seq![]);
    } else if t.operands.len() == 2 {
        assert(t.operands.drop_last().drop_last() =~= seq![]);
    } else if t.operands.len() == 1 {
        assert(t.operands.drop_last() =~= seq![]);
    }
}

proof fn lemma_nibble_and(x: u8)
    requires
        x < 16,
    ensures
        x & 15 == x,
        x & 0 == 0,
{
    assert(x & 15 == x) by (bit_vector)
        requires
            x < 16,
    ;
    assert(x & 0 == 0) by (bit_vector);
}

/// For a word of the table's shape, matching an entry means agreeing with
/// its pattern on every fixed nibble.
pub proof fn lemma_matches_fixed(w: Seq<u8>, i: int)
    requires
        is_word(w),
        0 <= i < TABLE_LEN,
    ensures
        matches_entry(w, entry_model(i)) <==> forall|k: int|
            0 <= k < 4 && nib(entry_model(i).mask, k) == 15 ==> #[trigger] w[k] == nib(
                entry_model(i).pattern,
                k,
            ),
{
    lemma_entry_wf(i);
    let t = entry_model(i);
    assert forall|k: int| 0 <= k < 4 implies ((#[trigger] w[k] & nib(t.mask, k)) == (nib(t.pattern, k) & nib(t.mask, k)))
        <==> (nib(t.mask, k) == 15 ==> w[k] == nib(t.pattern, k)) by {
        lemma_nibble_and(w[k]);
        lemma_nibble_and(nib(t.pattern, k));
    }
}

/// What `first_match_from` finds is the first matching entry from `i` on.
pub proof fn lemma_first_match(w: Seq<u8>, i: int)
    requires
        0 <= i <= TABLE_LEN,
    ensures
        match first_match_from(w, i) {
            Some(j) => i <= j < TABLE_LEN && matches_entry(w, entry_model(j)) && forall|q: int|
                i <= q < j ==> !matches_entry(w, #[trigger] entry_model(q)),
            None => forall|q: int| i <= q < TABLE_LEN ==> !matches_entry(w, #[trigger] entry_model(q)),
        },
    decreases TABLE_LEN - i,
{
    if i < TABLE_LEN {
        lemma_first_match(w, i + 1);
    }
}

/// What `first_named_from` finds is an entry from `i` on.
pub proof fn lemma_first_named(m: Seq<char>, i: int)
    requires
        0 <= i <= TABLE_LEN,
    ensures
        first_named_from(m, i) matches Some(j) ==> i <= j < TABLE_LEN,
    decreases TABLE_LEN - i,
{
    if i < TABLE_LEN {
        lemma_first_named(m, i + 1);
    }
}

/// Where a word matches two entries, it decodes by the one declared first:
/// never by a later one.
pub proof fn lemma_first_declared_wins(w: Seq<u8>, i: int, j: int)
    requires
        0 <= i < j < TABLE_LEN,
        matches_entry(w, entry_model(i)),
    ensures
        lookup_word(w) is Some,
        lookup_word(w)->0 <= i,
        lookup_word(w) != Some(j),
{
    lemma_first_match(w, 0);
}

/// The three entries that share the opcode nibble `0110`: a word with it
/// decodes as `nop` when all else is zero, else as `copy` when its last
/// nibble is zero, else as `add`.
pub proof fn lemma_nop_copy_add(w: Seq<u8>)
    requires
        is_word(w),
        w[0] == 6,
    ensures
        lookup_word(w) == (if w[1] == 0 && w[2] == 0 && w[3] == 0 {
            Some(12int)
        } else if w[3] == 0 {
            Some(13int)
        } else {
            Some(14int)
        }),
{
    lemma_first_match(w, 0);
    assert forall|q: int| 0 <= q < 12 implies !matches_entry(w, #[trigger] entry_model(q)) by {
        lemma_matches_fixed(w, q);
        assert(nib(entry_model(q).mask, 0) == 15);
    }
    lemma_matches_fixed(w, 12);
    lemma_matches_fixed(w, 13);
    lemma_matches_fixed(w, 14);
    reveal_with_fuel(first_match_from, 16);
}

/// Every canonical name is a non-empty word of lower-case letters.
#[verifier::rlimit(50)]
pub proof fn lemma_name_letters(i: int)
    requires
        0 <= i < TABLE_LEN,
    ensures
        entry_model(i).names[0].len() > 0,
        forall|k: int|
            0 <= k < entry_model(i).names[0].len() ==> 'a' <= #[trigger] entry_model(i).names[0][k] <= 'z',
{
    reveal_strlit("halt");
    reveal_strlit("read");
    reveal_strlit("write");
    reveal_strlit("jumpr");
    reveal_strlit("setn");
    reveal_strlit("loadn");
    reveal_strlit("storen");
    reveal_strlit("loadr");
    reveal_strlit("storer");
    reveal_strlit("popr");
    reveal_strlit("pushr");
    reveal_strlit("addn");
    reveal_strlit("nop");
    reveal_strlit("copy");
    reveal_strlit("add");
    reveal_strlit("neg");
    reveal_strlit("sub");
    reveal_strlit("mul");
    reveal_strlit("div");
    reveal_strlit("mod");
    reveal_strlit("jumpn");
    reveal_strlit("calln");
    reveal_strlit("jeqzn");
    reveal_strlit("jnezn");
    reveal_strlit("jgtzn");
    reveal_strlit("jltzn");
    reveal_strlit("data");
}

spec fn name_print(m: Seq<char>) -> (int, char, char, char, char) {
    (m.len() as int, m[0], m[1], m[2], m[m.len() - 1])
}

#[verifier::rlimit(100)]
proof fn lemma_name_prints(i: int, j: int)
    requires
        0 <= i < TABLE_LEN,
        0 <= j < TABLE_LEN,
        i != j,
    ensures
        name_print(entry_model(i).names[0]) != name_print(entry_model(j).names[0]),
{
    reveal_strlit("halt");
    reveal_strlit("read");
    reveal_strlit("write");
    reveal_strlit("jumpr");
    reveal_strlit("setn");
    reveal_strlit("loadn");
    reveal_strlit("storen");
    reveal_strlit("loadr");
    reveal_strlit("storer");
    reveal_strlit("popr");
    reveal_strlit("pushr");
    reveal_strlit("addn");
    reveal_strlit("nop");
    reveal_strlit("copy");
    reveal_strlit("add");
    reveal_strlit("neg");
    reveal_strlit("sub");
    reveal_strlit("mul");
    reveal_strlit("div");
    reveal_strlit("mod");
    reveal_strlit("jumpn");
    reveal_strlit("calln");
    reveal_strlit("jeqzn");
    reveal_strlit("jnezn");
    reveal_strlit("jgtzn");
    reveal_strlit("jltzn");
    reveal_strlit("data");
}

/// Every entry's canonical name looks up that entry.
pub proof fn lemma_canonical_name(i: int)
    requires
        0 <= i < TABLE_LEN,
    ensures
        lookup_name(entry_model(i).names[0]) == Some(i),
{
    let m = entry_model(i).names[0];
    lemma_name_letters(i);
    assert(same_name(m, entry_model(i).names[0]));
    assert(has_name(entry_model(i), m));
    assert forall|j: int| 0 <= j < i implies !has_name(#[trigger] entry_model(j), m) by {
        let n = entry_model(j).names[0];
        assert(entry_model(j).names.len() == 1);
        if has_name(entry_model(j), m) {
            let q = choose|q: int| 0 <= q < entry_model(j).names.len() && same_name(m, #[trigger] entry_model(j).names[q]);
            assert(q == 0);
            assert forall|k: int| 0 <= k < m.len() implies m[k] == n[k] by {
                assert(char_eq_fold(m[k], n[k]));
                assert('a' <= m[k] <= 'z');
            }
            assert(m =~= n);
            lemma_name_prints(i, j);
        }
    }
    lemma_first_named_before(m, 0, i);
}

proof fn lemma_first_named_before(m: Seq<char>, a: int, i: int)
    requires
        0 <= a <= i < TABLE_LEN,
        has_name(entry_model(i), m),
        forall|j: int| 0 <= j < i ==> !has_name(#[trigger] entry_model(j), m),
    ensures
        first_named_from(m, a) == Some(i),
    decreases i - a,
{
    if a < i {
        lemma_first_named_before(m, a + 1, i);
    }
}

/// No two entries of the table have the same pattern and mask.
pub proof fn lemma_entries_distinct(i: int, j: int)
    requires
        0 <= i < TABLE_LEN,
        0 <= j < TABLE_LEN,
        i != j,
    ensures
        entry_model(i).pattern != entry_model(j).pattern || entry_model(i).mask != entry_model(
            j,
        ).mask,
{
}

/// Nibble `k` of `x`, computed.
pub fn nib_of(x: u16, k: usize) -> (r: u8)
    requires
        k < 4,
    ensures
        r == nib(x, k as int),
        r < 16,
{
    (if k == 0 {
        x / 4096
    } else if k == 1 {
        (x / 256) % 16
    } else if k == 2 {
        (x / 16) % 16
    } else {
        x % 16
    }) as u8
}

fn same_name_exec(m: &Vec<char>, name: &Vec<char>) -> (r: bool)
    ensures
        r == same_name(m@, name@),
{
    if m.len() != name.len() {
        return false;
    }
    let mut k: usize = 0;
    while k < m.len()
        invariant
            m@.len() == name@.len(),
            k <= m@.len(),
            forall|j: int| 0 <= j < k ==> char_eq_fold(#[trigger] m@[j], name@[j]),
        decreases m.len() - k,
    {
        let a = m[k];
        let b = name[k];
        if !(a == b || ('A' <= a && a <= 'Z' && a as u32 + 32 == b as u32)) {
            return false;
        }
        k += 1;
    }
    true
}

fn entry_has_name(t: &InstructionType, m: &Vec<char>) -> (r: bool)
    ensures
        r == has_name(t@, m@),
{
    let mut j: usize = 0;
    while j < t.names.len()
        invariant
            j <= t.names@.len(),
            forall|q: int| 0 <= q < j ==> !same_name(m@, #[trigger] t@.names[q]),
        decreases t.names.len() - j,
    {
        let name = chars_of(t.names[j].as_str());
        if same_name_exec(m, &name) {
            assert(same_name(m@, t@.names[j as int]));
            return true;
        }
        j += 1;
    }
    false
}

/// Looks a mnemonic up, ignoring ASCII case: the position of the first entry
/// that has it as a name.
pub fn lookup_by_name(m: &Vec<char>) -> (r: Option<usize>)
    ensures
        match r {
            Some(i) => lookup_name(m@) == Some(i as int),
            None => lookup_name(m@) is None,
        },
{
    let mut i: usize = 0;
    while i < TABLE_LEN
        invariant
            i <= TABLE_LEN,
            lookup_name(m@) == first_named_from(m@, i as int),
        decreases TABLE_LEN - i,
    {
        let t = table_entry(i);
        if entry_has_name(&t, m) {
            return Some(i);
        }
        i += 1;
    }
    None
}

fn entry_matches(w: &Vec<u8>, t: &InstructionType) -> (r: bool)
    requires
        w@.len() == 4,
    ensures
        r == matches_entry(w@, t@),
{
    let mut k: usize = 0;
    while k < 4
        invariant
            k <= 4,
            w@.len() == 4,
            forall|j: int|
                0 <= j < k ==> (#[trigger] w@[j] & nib(t.mask, j)) == (nib(t.match_pattern, j) & nib(
                    t.mask,
                    j,
                )),
        decreases 4 - k,
    {
        let mk = nib_of(t.mask, k);
        if w[k] & mk != nib_of(t.match_pattern, k) & mk {
            return false;
        }
        k += 1;
    }
    true
}

/// Finds the entry that a word decodes by: the first one, in table order,
/// whose pattern the word agrees with on every bit of its mask.
pub fn lookup_by_pattern(w: &Vec<u8>) -> (r: Option<usize>)
    requires
        w@.len() == 4,
    ensures
        match r {
            Some(i) => lookup_word(w@) == Some(i as int),
            None => lookup_word(w@) is None,
        },
{
    let mut i: usize = 0;
    while i < TABLE_LEN
        invariant
            i <= TABLE_LEN,
            w@.len() == 4,
            lookup_word(w@) == first_match_from(w@, i as int),
        decreases TABLE_LEN - i,
    {
        let t = table_entry(i);
        if entry_matches(w, &t) {
            return Some(i);
        }
        i += 1;
    }
    None
}

} // verus!
