use vstd::prelude::*;
use crate::number::{is_integral, is_integral_bits, trunc, trunc_of};
use crate::text::{is_ws, is_whitespace, chars_of, string_of};
use crate::vm::{Instruction, Op};

verus! {

/// The kinds of assembly error.
#[derive(Debug, Clone, Copy, PartialEq, Eq, Structural)]
pub enum AsmErrorKind {
    DuplicateLabel,
    LabelNotFound,
    MissingOperand,
    UnknownInstruction,
    InvalidNumber,
}

/// An assembly error and the text it is about: the label, the opcode, or the
/// numeral.
#[derive(Debug, Clone, PartialEq)]
pub struct AsmError {
    pub kind: AsmErrorKind,
    pub text: String,
}

impl View for AsmError {
    type V = (AsmErrorKind, Seq<char>);

    open spec fn view(&self) -> (AsmErrorKind, Seq<char>) {
        (self.kind, self.text@)
    }
}

/// The opcodes of the instruction language.
#[derive(Debug, Clone, Copy, PartialEq, Eq, Structural)]
pub enum Mnemonic {
    LoadConst,
    LoadVar,
    StoreVar,
    Add,
    Sub,
    Mul,
    Div,
    Pow,
    Mod,
    Print,
    Read,
    Jmp,
    JmpEq,
    JmpNe,
    JmpGt,
    JmpLt,
    JmpGe,
    JmpLe,
}

// ---- lines ----

/// `s` cut at each `'\n'`; the last piece follows the last `'\n'`.
pub open spec fn split_lines(s: Seq<char>) -> Seq<Seq<char>>
    decreases s.len(),
{
    if s.len() == 0 {
        seq![Seq::<char>::empty()]
    } else {
        let r = split_lines(s.drop_last());
        if s.last() == '\n' {
            r.push(Seq::<char>::empty())
        } else {
            r.update(r.len() - 1, r.last().push(s.last()))
        }
    }
}

/// The index of the first `';'` of `l` at or after `i`, else `l.len()`.
pub open spec fn semi_at(l: Seq<char>, i: int) -> int
    decreases l.len() - i,
{
    if i >= l.len() || l[i] == ';' {
        i
    } else {
        semi_at(l, i + 1)
    }
}

/// The index of the first non-whitespace character of `l` at or after `i`.
pub open spec fn skip_ws(l: Seq<char>, i: int) -> int
    decreases l.len() - i,
{
    if i >= l.len() || !is_ws(l[i]) {
        i
    } else {
        skip_ws(l, i + 1)
    }
}

/// The index of the first whitespace character of `l` at or after `i`.
pub open spec fn word_end(l: Seq<char>, i: int) -> int
    decreases l.len() - i,
{
    if i >= l.len() || is_ws(l[i]) {
        i
    } else {
        word_end(l, i + 1)
    }
}

/// `j` moved left past the whitespace that ends `l.take(j)`.
pub open spec fn trim_end(l: Seq<char>, j: int) -> int
    decreases j,
{
    if j <= 0 || !is_ws(l[j - 1]) {
        j
    } else {
        trim_end(l, j - 1)
    }
}

/// A source line without its comment and surrounding whitespace.
pub open spec fn clean(l: Seq<char>) -> Seq<char> {
    let c = l.take(semi_at(l, 0));
    let a = skip_ws(c, 0);
    let b = trim_end(c, c.len() as int);
    if a < b {
        c.subrange(a, b)
    } else {
        Seq::<char>::empty()
    }
}

/// The cleaned lines of `ls` that are not empty.
pub open spec fn keep_lines(ls: Seq<Seq<char>>) -> Seq<Seq<char>>
    decreases ls.len(),
{
    if ls.len() == 0 {
        Seq::<Seq<char>>::empty()
    } else if clean(ls.last()).len() == 0 {
        keep_lines(ls.drop_last())
    } else {
        keep_lines(ls.drop_last()).push(clean(ls.last()))
    }
}

/// The lines of a source text that take part in assembly.
pub open spec fn source_lines(s: Seq<char>) -> Seq<Seq<char>> {
    keep_lines(split_lines(s))
}

// ---- labels ----

/// `l` declares a label.
pub open spec fn is_label(l: Seq<char>) -> bool {
    l.len() > 0 && l.last() == ':'
}

/// `l` without its trailing colons.
pub open spec fn strip_colons(l: Seq<char>) -> Seq<char>
    decreases l.len(),
{
    if l.len() > 0 && l.last() == ':' {
        strip_colons(l.drop_last())
    } else {
        l
    }
}

/// The number of lines of `ls` that are instructions, not labels.
pub open spec fn count_instrs(ls: Seq<Seq<char>>) -> nat
    decreases ls.len(),
{
    if ls.len() == 0 {
        0
    } else {
        count_instrs(ls.drop_last()) + if is_label(ls.last()) {
            0nat
        } else {
            1nat
        }
    }
}

/// The label table of `ls`: each label's name mapped to the number of
/// instructions before it; or the name of the first label declared twice.
pub open spec fn label_table(ls: Seq<Seq<char>>) -> Result<Map<Seq<char>, nat>, Seq<char>>
    decreases ls.len(),
{
    if ls.len() == 0 {
        Ok(Map::empty())
    } else {
        match label_table(ls.drop_last()) {
            Err(e) => Err(e),
            Ok(m) => if !is_label(ls.last()) {
                Ok(m)
            } else if m.contains_key(strip_colons(ls.last())) {
                Err(strip_colons(ls.last()))
            } else {
                Ok(m.insert(strip_colons(ls.last()), count_instrs(ls.drop_last())))
            },
        }
    }
}

// ---- decoding ----

pub open spec fn mnemonic_of(t: Seq<char>) -> Option<Mnemonic> {
    if t == seq!['L', 'O', 'A', 'D', '_', 'C', 'O', 'N', 'S', 'T'] {
        Some(Mnemonic::LoadConst)
    } else if t == seq!['L', 'O', 'A', 'D', '_', 'V', 'A', 'R'] {
        Some(Mnemonic::LoadVar)
    } else if t == seq!['S', 'T', 'O', 'R', 'E', '_', 'V', 'A', 'R'] {
        Some(Mnemonic::StoreVar)
    } else if t == seq!['A', 'D', 'D'] {
        Some(Mnemonic::Add)
    } else if t == seq!['S', 'U', 'B'] {
        Some(Mnemonic::Sub)
    } else if t == seq!['M', 'U', 'L'] {
        Some(Mnemonic::Mul)
    } else if t == seq!['D', 'I', 'V'] {
        Some(Mnemonic::Div)
    } else if t == seq!['P', 'O', 'W'] {
        Some(Mnemonic::Pow)
    } else if t == seq!['M', 'O', 'D'] {
        Some(Mnemonic::Mod)
    } else if t == seq!['P', 'R', 'I', 'N', 'T'] {
        Some(Mnemonic::Print)
    } else if t == seq!['R', 'E', 'A', 'D'] {
        Some(Mnemonic::Read)
    } else if t == seq!['J', 'M', 'P'] {
        Some(Mnemonic::Jmp)
    } else if t == seq!['J', 'M', 'P', 'E', 'Q'] {
        Some(Mnemonic::JmpEq)
    } else if t == seq!['J', 'M', 'P', 'N', 'E'] {
        Some(Mnemonic::JmpNe)
    } else if t == seq!['J', 'M', 'P', 'G', 'T'] {
        Some(Mnemonic::JmpGt)
    } else if t == seq!['J', 'M', 'P', 'L', 'T'] {
        Some(Mnemonic::JmpLt)
    } else if t == seq!['J', 'M', 'P', 'G', 'E'] {
        Some(Mnemonic::JmpGe)
    } else if t == seq!['J', 'M', 'P', 'L', 'E'] {
        Some(Mnemonic::JmpLe)
    } else {
        None
    }
}

/// The opcode takes an operand.
pub open spec fn takes_operand(m: Mnemonic) -> bool {
    match m {
        Mnemonic::Add | Mnemonic::Sub | Mnemonic::Mul | Mnemonic::Div | Mnemonic::Pow
        | Mnemonic::Mod | Mnemonic::Print | Mnemonic::Read => false,
        _ => true,
    }
}

/// The first word of a cleaned line: its opcode or its label.
pub open spec fn first_word(l: Seq<char>) -> Seq<char> {
    l.take(word_end(l, 0))
}

/// The second word of a cleaned line, empty if there is none.
pub open spec fn second_word(l: Seq<char>) -> Seq<char> {
    let s = skip_ws(l, word_end(l, 0));
    l.subrange(s, word_end(l, s))
}

/// The instruction that a literal with the double `b` loads: an integer when
/// `b` has no fractional part, else the double.
pub open spec fn literal_op(b: u64) -> Op {
    if is_integral_bits(b) {
        Op::LoadConstInt(trunc_of(b))
    } else {
        Op::LoadConstFloat(b)
    }
}

/// The instruction of a simple opcode or of a jump to `t`.
pub open spec fn plain_op(m: Mnemonic, t: usize) -> Op {
    match m {
        Mnemonic::Add => Op::Add,
        Mnemonic::Sub => Op::Sub,
        Mnemonic::Mul => Op::Mul,
        Mnemonic::Div => Op::Div,
        Mnemonic::Pow => Op::Pow,
        Mnemonic::Mod => Op::Mod,
        Mnemonic::Print => Op::Print,
        Mnemonic::Read => Op::Read,
        Mnemonic::Jmp => Op::Jmp(t),
        Mnemonic::JmpEq => Op::JmpEq(t),
        Mnemonic::JmpNe => Op::JmpNe(t),
        Mnemonic::JmpGt => Op::JmpGt(t),
        Mnemonic::JmpLt => Op::JmpLt(t),
        Mnemonic::JmpGe => Op::JmpGe(t),
        _ => Op::JmpLe(t),
    }
}

/// The opcode is a jump.
pub open spec fn is_jump(m: Mnemonic) -> bool {
    match m {
        Mnemonic::Jmp | Mnemonic::JmpEq | Mnemonic::JmpNe | Mnemonic::JmpGt | Mnemonic::JmpLt
        | Mnemonic::JmpGe | Mnemonic::JmpLe => true,
        _ => false,
    }
}

/// Decodes the cleaned line `l` with the label table `m`; `lit` is the double
/// that the line's numeral parses to, if it does. A label line gives no
/// instruction.
pub open spec fn decode(l: Seq<char>, m: Map<Seq<char>, nat>, lit: Option<u64>) -> Result<
    Option<Op>,
    (AsmErrorKind, Seq<char>),
> {
    let t0 = first_word(l);
    let t1 = second_word(l);
    if is_label(l) {
        Ok(None)
    } else {
        match mnemonic_of(t0) {
            None => Err((AsmErrorKind::UnknownInstruction, t0)),
            Some(mn) => if takes_operand(mn) && t1.len() == 0 {
                Err((AsmErrorKind::MissingOperand, t0))
            } else if mn == Mnemonic::LoadConst {
                match lit {
                    Some(b) => Ok(Some(literal_op(b))),
                    None => Err((AsmErrorKind::InvalidNumber, t1)),
                }
            } else if mn == Mnemonic::LoadVar {
                Ok(Some(Op::LoadVar(t1)))
            } else if mn == Mnemonic::StoreVar {
                Ok(Some(Op::StoreVar(t1)))
            } else if is_jump(mn) {
                if m.contains_key(t1) {
                    Ok(Some(plain_op(mn, m[t1] as usize)))
                } else {
                    Err((AsmErrorKind::LabelNotFound, t1))
                }
            } else {
                Ok(Some(plain_op(mn, 0)))
            },
        }
    }
}

/// The numeral of a `LOAD_CONST` line, if `l` is one with an operand.
pub open spec fn numeral(l: Seq<char>) -> Option<Seq<char>> {
    if !is_label(l) && mnemonic_of(first_word(l)) == Some(Mnemonic::LoadConst)
        && second_word(l).len() > 0 {
        Some(second_word(l))
    } else {
        None
    }
}

/// The double given for line `k`, if any.
pub open spec fn lit_at(nums: Seq<Option<u64>>, k: int) -> Option<u64> {
    if 0 <= k < nums.len() {
        nums[k]
    } else {
        None
    }
}

/// Decodes the lines `ls` in order with the label table `m`, stopping at the
/// first error.
pub open spec fn decode_all(ls: Seq<Seq<char>>, m: Map<Seq<char>, nat>, nums: Seq<Option<u64>>) -> Result<
    Seq<Op>,
    (AsmErrorKind, Seq<char>),
>
    decreases ls.len(),
{
    if ls.len() == 0 {
        Ok(Seq::<Op>::empty())
    } else {
        match decode_all(ls.drop_last(), m, nums) {
            Err(e) => Err(e),
            Ok(v) => match decode(ls.last(), m, lit_at(nums, ls.len() - 1)) {
                Err(e) => Err(e),
                Ok(None) => Ok(v),
                Ok(Some(o)) => Ok(v.push(o)),
            },
        }
    }
}

/// Assembles the source text `s`; `nums[k]` is the double that the numeral
/// of the `k`-th line of `source_lines(s)` parses to, if it does.
pub open spec fn assemble(s: Seq<char>, nums: Seq<Option<u64>>) -> Result<
    Seq<Op>,
    (AsmErrorKind, Seq<char>),
> {
    let ls = source_lines(s);
    match label_table(ls) {
        Err(name) => Err((AsmErrorKind::DuplicateLabel, name)),
        Ok(m) => decode_all(ls, m, nums),
    }
}


// ---- execution ----

/// The lines that the ranges `r` cut out of `c`.
pub open spec fn ranges_view(c: Seq<char>, r: Seq<(usize, usize)>) -> Seq<Seq<char>> {
    r.map_values(|p: (usize, usize)| c.subrange(p.0 as int, p.1 as int))
}

/// Every range of `r` lies within `c`.
pub open spec fn ranges_ok(c: Seq<char>, r: Seq<(usize, usize)>) -> bool {
    forall|k: int| 0 <= k < r.len() ==> #[trigger] r[k].0 <= r[k].1 <= c.len()
}

/// The labels that the entries `v` (name range, index) cut out of `c`.
pub open spec fn labels_view(c: Seq<char>, v: Seq<(usize, usize, usize)>) -> Seq<(Seq<char>, nat)> {
    v.map_values(|p: (usize, usize, usize)| (c.subrange(p.0 as int, p.1 as int), p.2 as nat))
}

/// The table that a list of labels stands for.
pub open spec fn table_of(s: Seq<(Seq<char>, nat)>) -> Map<Seq<char>, nat>
    decreases s.len(),
{
    if s.len() == 0 {
        Map::empty()
    } else {
        table_of(s.drop_last()).insert(s.last().0, s.last().1)
    }
}

proof fn lemma_table_found(s: Seq<(Seq<char>, nat)>, i: int)
    requires
        forall|x: int, y: int| 0 <= x < y < s.len() ==> s[x].0 != s[y].0,
        0 <= i < s.len(),
    ensures
        table_of(s).contains_key(s[i].0),
        table_of(s)[s[i].0] == s[i].1,
    decreases s.len(),
{
    if i < s.len() - 1 {
        lemma_table_found(s.drop_last(), i);
    }
}

proof fn lemma_table_absent(s: Seq<(Seq<char>, nat)>, k: Seq<char>)
    requires
        forall|i: int| 0 <= i < s.len() ==> s[i].0 != k,
    ensures
        !table_of(s).contains_key(k),
    decreases s.len(),
{
    if s.len() > 0 {
        lemma_table_absent(s.drop_last(), k);
    }
}

proof fn lemma_trim_end_le(l: Seq<char>, j: int)
    ensures
        trim_end(l, j) <= j,
    decreases j,
{
    if j > 0 && is_ws(l[j - 1]) {
        lemma_trim_end_le(l, j - 1);
    }
}

proof fn lemma_table_err(ls: Seq<Seq<char>>, k: int)
    requires
        0 <= k <= ls.len(),
        label_table(ls.take(k)) is Err,
    ensures
        label_table(ls) == label_table(ls.take(k)),
    decreases ls.len() - k,
{
    if k < ls.len() {
        assert(ls.take(k + 1).drop_last() =~= ls.take(k));
        lemma_table_err(ls, k + 1);
    } else {
        assert(ls.take(k) =~= ls);
    }
}

proof fn lemma_decode_err(ls: Seq<Seq<char>>, m: Map<Seq<char>, nat>, nums: Seq<Option<u64>>, k: int)
    requires
        0 <= k <= ls.len(),
        decode_all(ls.take(k), m, nums) is Err,
    ensures
        decode_all(ls, m, nums) == decode_all(ls.take(k), m, nums),
    decreases ls.len() - k,
{
    if k < ls.len() {
        assert(ls.take(k + 1).drop_last() =~= ls.take(k));
        lemma_decode_err(ls, m, nums, k + 1);
    } else {
        assert(ls.take(k) =~= ls);
    }
}

/// The cleaned form of the line `c[a..b]`, as a range of `c`.
fn clean_range(c: &Vec<char>, a: usize, b: usize) -> (r: (usize, usize))
    requires
        a <= b <= c@.len(),
    ensures
        a <= r.0 <= r.1 <= b,
        c@.subrange(r.0 as int, r.1 as int) == clean(c@.subrange(a as int, b as int)),
{
    let ghost l = c@.subrange(a as int, b as int);
    let mut i: usize = a;
    while i < b && c[i] != ';'
        invariant
            a <= i <= b <= c@.len(),
            l == c@.subrange(a as int, b as int),
            semi_at(l, 0) == semi_at(l, i - a),
        decreases b - i,
    {
        i = i + 1;
    }
    let e = i;
    let ghost cc = l.take(semi_at(l, 0));
    assert(cc =~= c@.subrange(a as int, e as int));
    let mut j: usize = a;
    while j < e && is_whitespace(c[j])
        invariant
            a <= j <= e <= b <= c@.len(),
            cc == c@.subrange(a as int, e as int),
            skip_ws(cc, 0) == skip_ws(cc, j - a),
        decreases e - j,
    {
        j = j + 1;
    }
    if j == e {
        proof {
            lemma_trim_end_le(cc, cc.len() as int);
            assert(c@.subrange(e as int, e as int) =~= Seq::<char>::empty());
        }
        return (e, e);
    }
    let mut k: usize = e;
    while is_whitespace(c[k - 1])
        invariant
            a <= j < k <= e <= b <= c@.len(),
            cc == c@.subrange(a as int, e as int),
            !is_ws(c@[j as int]),
            trim_end(cc, cc.len() as int) == trim_end(cc, k - a),
        decreases k,
    {
        k = k - 1;
    }
    assert(cc.subrange(j - a, k - a) =~= c@.subrange(j as int, k as int));
    (j, k)
}

/// The lines of `c` that take part in assembly, as ranges of `c`.
fn program_lines(c: &Vec<char>) -> (r: Vec<(usize, usize)>)
    ensures
        ranges_ok(c@, r@),
        ranges_view(c@, r@) == source_lines(c@),
{
    let n = c.len();
    let mut out: Vec<(usize, usize)> = Vec::new();
    let mut start: usize = 0;
    let mut i: usize = 0;
    proof {
        assert(c@.take(0) =~= Seq::<char>::empty());
        assert(ranges_view(c@, out@) =~= Seq::<Seq<char>>::empty());
        assert(c@.subrange(0, 0) =~= Seq::<char>::empty());
    }
    while i < n
        invariant
            n == c@.len(),
            start <= i <= n,
            split_lines(c@.take(i as int)).len() >= 1,
            split_lines(c@.take(i as int)).last() == c@.subrange(start as int, i as int),
            ranges_ok(c@, out@),
            ranges_view(c@, out@) == keep_lines(split_lines(c@.take(i as int)).drop_last()),
        decreases n - i,
    {
        let ghost sl = split_lines(c@.take(i as int));
        proof {
            assert(c@.take(i + 1).drop_last() =~= c@.take(i as int));
        }
        if c[i] == '\n' {
            let r = clean_range(c, start, i);
            proof {
                assert(sl.push(Seq::<char>::empty()).drop_last() =~= sl);
            }
            let ghost prev = out@;
            if r.0 < r.1 {
                out.push(r);
                proof {
                    assert(ranges_view(c@, out@) =~= ranges_view(c@, prev).push(
                        c@.subrange(r.0 as int, r.1 as int),
                    ));
                }
            }
            start = i + 1;
            proof {
                assert(c@.subrange(start as int, start as int) =~= Seq::<char>::empty());
            }
        } else {
            proof {
                assert(sl.update(sl.len() - 1, sl.last().push(c@[i as int])).drop_last()
                    =~= sl.drop_last());
                assert(sl.last().push(c@[i as int]) =~= c@.subrange(start as int, i + 1));
            }
        }
        i = i + 1;
    }
    let r = clean_range(c, start, n);
    let ghost prev = out@;
    if r.0 < r.1 {
        out.push(r);
        proof {
            assert(ranges_view(c@, out@) =~= ranges_view(c@, prev).push(
                c@.subrange(r.0 as int, r.1 as int),
            ));
        }
    }
    proof {
        assert(c@.take(n as int) =~= c@);
    }
    out
}


/// `c[a..b]` equals `w`.
fn range_is(c: &Vec<char>, a: usize, b: usize, w: &Vec<char>) -> (r: bool)
    requires
        a <= b <= c@.len(),
    ensures
        r == (c@.subrange(a as int, b as int) == w@),
{
    if b - a != w.len() {
        return false;
    }
    let mut i: usize = 0;
    while i < w.len()
        invariant
            b - a == w@.len(),
            a <= b <= c@.len(),
            i <= w@.len(),
            forall|j: int| 0 <= j < i ==> c@[a + j] == w@[j],
        decreases w@.len() - i,
    {
        if c[a + i] != w[i] {
            assert(c@.subrange(a as int, b as int)[i as int] != w@[i as int]);
            return false;
        }
        i = i + 1;
    }
    assert(c@.subrange(a as int, b as int) =~= w@);
    true
}

/// `c[a1..b1]` equals `c[a2..b2]`.
fn ranges_equal(c: &Vec<char>, a1: usize, b1: usize, a2: usize, b2: usize) -> (r: bool)
    requires
        a1 <= b1 <= c@.len(),
        a2 <= b2 <= c@.len(),
    ensures
        r == (c@.subrange(a1 as int, b1 as int) == c@.subrange(a2 as int, b2 as int)),
{
    if b1 - a1 != b2 - a2 {
        assert(c@.subrange(a1 as int, b1 as int).len() != c@.subrange(a2 as int, b2 as int).len());
        return false;
    }
    let mut i: usize = 0;
    while i < b1 - a1
        invariant
            a1 <= b1 <= c@.len(),
            a2 <= b2 <= c@.len(),
            b1 - a1 == b2 - a2,
            i <= b1 - a1,
            forall|j: int|
                0 <= j < i ==> #[trigger] c@.subrange(a1 as int, b1 as int)[j] == c@.subrange(
                    a2 as int,
                    b2 as int,
                )[j],
        decreases b1 - a1 - i,
    {
        if c[a1 + i] != c[a2 + i] {
            assert(c@.subrange(a1 as int, b1 as int)[i as int] != c@.subrange(
                a2 as int,
                b2 as int,
            )[i as int]);
            return false;
        }
        assert(c@.subrange(a1 as int, b1 as int)[i as int] == c@.subrange(a2 as int, b2 as int)[i as int]);
        i = i + 1;
    }
    assert(c@.subrange(a1 as int, b1 as int) =~= c@.subrange(a2 as int, b2 as int));
    true
}

/// The opcode that `c[a..b]` names.
fn mnemonic(c: &Vec<char>, a: usize, b: usize) -> (r: Option<Mnemonic>)
    requires
        a <= b <= c@.len(),
    ensures
        r == mnemonic_of(c@.subrange(a as int, b as int)),
{
    if range_is(c, a, b, &vec!['L', 'O', 'A', 'D', '_', 'C', 'O', 'N', 'S', 'T']) {
        Some(Mnemonic::LoadConst)
    } else if range_is(c, a, b, &vec!['L', 'O', 'A', 'D', '_', 'V', 'A', 'R']) {
        Some(Mnemonic::LoadVar)
    } else if range_is(c, a, b, &vec!['S', 'T', 'O', 'R', 'E', '_', 'V', 'A', 'R']) {
        Some(Mnemonic::StoreVar)
    } else if range_is(c, a, b, &vec!['A', 'D', 'D']) {
        Some(Mnemonic::Add)
    } else if range_is(c, a, b, &vec!['S', 'U', 'B']) {
        Some(Mnemonic::Sub)
    } else if range_is(c, a, b, &vec!['M', 'U', 'L']) {
        Some(Mnemonic::Mul)
    } else if range_is(c, a, b, &vec!['D', 'I', 'V']) {
        Some(Mnemonic::Div)
    } else if range_is(c, a, b, &vec!['P', 'O', 'W']) {
        Some(Mnemonic::Pow)
    } else if range_is(c, a, b, &vec!['M', 'O', 'D']) {
        Some(Mnemonic::Mod)
    } else if range_is(c, a, b, &vec!['P', 'R', 'I', 'N', 'T']) {
        Some(Mnemonic::Print)
    } else if range_is(c, a, b, &vec!['R', 'E', 'A', 'D']) {
        Some(Mnemonic::Read)
    } else if range_is(c, a, b, &vec!['J', 'M', 'P']) {
        Some(Mnemonic::Jmp)
    } else if range_is(c, a, b, &vec!['J', 'M', 'P', 'E', 'Q']) {
        Some(Mnemonic::JmpEq)
    } else if range_is(c, a, b, &vec!['J', 'M', 'P', 'N', 'E']) {
        Some(Mnemonic::JmpNe)
    } else if range_is(c, a, b, &vec!['J', 'M', 'P', 'G', 'T']) {
        Some(Mnemonic::JmpGt)
    } else if range_is(c, a, b, &vec!['J', 'M', 'P', 'L', 'T']) {
        Some(Mnemonic::JmpLt)
    } else if range_is(c, a, b, &vec!['J', 'M', 'P', 'G', 'E']) {
        Some(Mnemonic::JmpGe)
    } else if range_is(c, a, b, &vec!['J', 'M', 'P', 'L', 'E']) {
        Some(Mnemonic::JmpLe)
    } else {
        None
    }
}

/// The end of the word of the line `c[a..b]` that starts at `i`, as an index
/// of `c`.
fn word_end_at(c: &Vec<char>, a: usize, b: usize, i: usize) -> (r: usize)
    requires
        a <= i <= b <= c@.len(),
    ensures
        i <= r <= b,
        r - a == word_end(c@.subrange(a as int, b as int), i - a),
{
    let ghost l = c@.subrange(a as int, b as int);
    let mut k = i;
    while k < b && !is_whitespace(c[k])
        invariant
            a <= i <= k <= b <= c@.len(),
            l == c@.subrange(a as int, b as int),
            word_end(l, i - a) == word_end(l, k - a),
        decreases b - k,
    {
        k = k + 1;
    }
    k
}

/// The first non-whitespace position of the line `c[a..b]` at or after `i`,
/// as an index of `c`.
fn skip_ws_at(c: &Vec<char>, a: usize, b: usize, i: usize) -> (r: usize)
    requires
        a <= i <= b <= c@.len(),
    ensures
        i <= r <= b,
        r - a == skip_ws(c@.subrange(a as int, b as int), i - a),
{
    let ghost l = c@.subrange(a as int, b as int);
    let mut k = i;
    while k < b && is_whitespace(c[k])
        invariant
            a <= i <= k <= b <= c@.len(),
            l == c@.subrange(a as int, b as int),
            skip_ws(l, i - a) == skip_ws(l, k - a),
        decreases b - k,
    {
        k = k + 1;
    }
    k
}

/// The end of `c[a..b]` without its trailing colons.
fn strip_colons_at(c: &Vec<char>, a: usize, b: usize) -> (r: usize)
    requires
        a <= b <= c@.len(),
    ensures
        a <= r <= b,
        c@.subrange(a as int, r as int) == strip_colons(c@.subrange(a as int, b as int)),
{
    let mut k = b;
    while k > a && c[k - 1] == ':'
        invariant
            a <= k <= b <= c@.len(),
            strip_colons(c@.subrange(a as int, b as int)) == strip_colons(
                c@.subrange(a as int, k as int),
            ),
        decreases k,
    {
        assert(c@.subrange(a as int, k as int).drop_last() =~= c@.subrange(a as int, k - 1));
        k = k - 1;
    }
    k
}

/// The position in `labels` of the label named `c[a..b]`.
fn find_label(c: &Vec<char>, labels: &Vec<(usize, usize, usize)>, a: usize, b: usize) -> (r: Option<
    usize,
>)
    requires
        a <= b <= c@.len(),
        forall|k: int| 0 <= k < labels@.len() ==> #[trigger] labels@[k].0 <= labels@[k].1 <= c@.len(),
    ensures
        match r {
            Some(i) => i < labels@.len() && labels_view(c@, labels@)[i as int].0 == c@.subrange(
                a as int,
                b as int,
            ),
            None => forall|i: int|
                0 <= i < labels@.len() ==> labels_view(c@, labels@)[i].0 != c@.subrange(
                    a as int,
                    b as int,
                ),
        },
{
    let mut i: usize = 0;
    while i < labels.len()
        invariant
            i <= labels@.len(),
            a <= b <= c@.len(),
            forall|k: int| 0 <= k < labels@.len() ==> #[trigger] labels@[k].0 <= labels@[k].1 <= c@.len(),
            forall|j: int|
                0 <= j < i ==> labels_view(c@, labels@)[j].0 != c@.subrange(a as int, b as int),
        decreases labels@.len() - i,
    {
        let e = labels[i];
        if ranges_equal(c, e.0, e.1, a, b) {
            return Some(i);
        }
        i = i + 1;
    }
    None
}


/// No two labels of `s` share a name.
pub open spec fn labels_unique(s: Seq<(Seq<char>, nat)>) -> bool {
    forall|x: int, y: int| 0 <= x < y < s.len() ==> s[x].0 != s[y].0
}

/// Every name range of `v` lies within `c`.
pub open spec fn entries_ok(c: Seq<char>, v: Seq<(usize, usize, usize)>) -> bool {
    forall|k: int| 0 <= k < v.len() ==> #[trigger] v[k].0 <= v[k].1 <= c.len()
}

/// `r` is the executable form of the decoding outcome `d`.
pub open spec fn matches_decoded(
    r: Result<Option<Instruction>, AsmError>,
    d: Result<Option<Op>, (AsmErrorKind, Seq<char>)>,
) -> bool {
    match d {
        Ok(None) => r matches Ok(None),
        Ok(Some(o)) => r matches Ok(Some(i)) && i@ == o,
        Err(e) => r matches Err(x) && x@ == e,
    }
}

/// The instruction that loads a literal whose double has the bits `b`: an
/// integer when `b` has no fractional part, else the double.
pub fn literal_instruction(b: u64) -> (r: Instruction)
    ensures
        r@ == literal_op(b),
{
    if is_integral(b) {
        Instruction::LoadConstInt(trunc(b))
    } else {
        Instruction::LoadConstFloat(b)
    }
}

/// The instruction of an opcode without a name or a numeral; `t` is the
/// target of a jump.
fn plain_instruction(m: Mnemonic, t: usize) -> (r: Instruction)
    requires
        m != Mnemonic::LoadConst,
        m != Mnemonic::LoadVar,
        m != Mnemonic::StoreVar,
    ensures
        r@ == plain_op(m, t),
{
    match m {
        Mnemonic::Add => Instruction::Add,
        Mnemonic::Sub => Instruction::Sub,
        Mnemonic::Mul => Instruction::Mul,
        Mnemonic::Div => Instruction::Div,
        Mnemonic::Pow => Instruction::Pow,
        Mnemonic::Mod => Instruction::Mod,
        Mnemonic::Print => Instruction::Print,
        Mnemonic::Read => Instruction::Read,
        Mnemonic::Jmp => Instruction::Jmp(t),
        Mnemonic::JmpEq => Instruction::JmpEq(t),
        Mnemonic::JmpNe => Instruction::JmpNe(t),
        Mnemonic::JmpGt => Instruction::JmpGt(t),
        Mnemonic::JmpLt => Instruction::JmpLt(t),
        Mnemonic::JmpGe => Instruction::JmpGe(t),
        _ => Instruction::JmpLe(t),
    }
}

/// Decodes the cleaned line `c[a..b]` with the labels `labels`.
fn decode_line(
    c: &Vec<char>,
    a: usize,
    b: usize,
    labels: &Vec<(usize, usize, usize)>,
    lit: Option<u64>,
) -> (r: Result<Option<Instruction>, AsmError>)
    requires
        a <= b <= c@.len(),
        entries_ok(c@, labels@),
        labels_unique(labels_view(c@, labels@)),
    ensures
        matches_decoded(
            r,
            decode(c@.subrange(a as int, b as int), table_of(labels_view(c@, labels@)), lit),
        ),
{
    let ghost l = c@.subrange(a as int, b as int);
    let ghost m = table_of(labels_view(c@, labels@));
    if b > a && c[b - 1] == ':' {
        return Ok(None);
    }
    let e0 = word_end_at(c, a, b, a);
    let s1 = skip_ws_at(c, a, b, e0);
    let e1 = word_end_at(c, a, b, s1);
    assert(first_word(l) =~= c@.subrange(a as int, e0 as int));
    assert(second_word(l) =~= c@.subrange(s1 as int, e1 as int));
    let mn = match mnemonic(c, a, e0) {
        None => {
            return Err(AsmError { kind: AsmErrorKind::UnknownInstruction, text: string_of(c, a, e0) });
        },
        Some(mn) => mn,
    };
    let needs = match mn {
        Mnemonic::Add | Mnemonic::Sub | Mnemonic::Mul | Mnemonic::Div | Mnemonic::Pow
        | Mnemonic::Mod | Mnemonic::Print | Mnemonic::Read => false,
        _ => true,
    };
    if needs && s1 == e1 {
        return Err(AsmError { kind: AsmErrorKind::MissingOperand, text: string_of(c, a, e0) });
    }
    match mn {
        Mnemonic::LoadConst => match lit {
            Some(bits) => Ok(Some(literal_instruction(bits))),
            None => Err(AsmError { kind: AsmErrorKind::InvalidNumber, text: string_of(c, s1, e1) }),
        },
        Mnemonic::LoadVar => Ok(Some(Instruction::LoadVar(string_of(c, s1, e1)))),
        Mnemonic::StoreVar => Ok(Some(Instruction::StoreVar(string_of(c, s1, e1)))),
        Mnemonic::Add | Mnemonic::Sub | Mnemonic::Mul | Mnemonic::Div | Mnemonic::Pow
        | Mnemonic::Mod | Mnemonic::Print | Mnemonic::Read => Ok(Some(plain_instruction(mn, 0))),
        _ => match find_label(c, labels, s1, e1) {
            Some(i) => {
                proof {
                    lemma_table_found(labels_view(c@, labels@), i as int);
                }
                Ok(Some(plain_instruction(mn, labels[i].2)))
            },
            None => {
                proof {
                    lemma_table_absent(labels_view(c@, labels@), c@.subrange(s1 as int, e1 as int));
                }
                Err(AsmError { kind: AsmErrorKind::LabelNotFound, text: string_of(c, s1, e1) })
            },
        },
    }
}

/// The label table of the lines `lines` of `c` (first pass).
fn collect_labels(c: &Vec<char>, lines: &Vec<(usize, usize)>) -> (r: Result<
    Vec<(usize, usize, usize)>,
    AsmError,
>)
    requires
        ranges_ok(c@, lines@),
    ensures
        match label_table(ranges_view(c@, lines@)) {
            Ok(m) => r matches Ok(v) && entries_ok(c@, v@) && labels_unique(labels_view(c@, v@))
                && table_of(labels_view(c@, v@)) == m,
            Err(name) => r matches Err(x) && x@ == (AsmErrorKind::DuplicateLabel, name),
        },
{
    let ghost ls = ranges_view(c@, lines@);
    let mut labels: Vec<(usize, usize, usize)> = Vec::new();
    let mut count: usize = 0;
    let mut k: usize = 0;
    proof {
        assert(ls.take(0) =~= Seq::<Seq<char>>::empty());
        assert(table_of(labels_view(c@, labels@)) =~= Map::<Seq<char>, nat>::empty());
    }
    while k < lines.len()
        invariant
            ls == ranges_view(c@, lines@),
            ranges_ok(c@, lines@),
            k <= lines@.len(),
            count <= k,
            count == count_instrs(ls.take(k as int)),
            entries_ok(c@, labels@),
            labels_unique(labels_view(c@, labels@)),
            label_table(ls.take(k as int)) == Ok::<Map<Seq<char>, nat>, Seq<char>>(
                table_of(labels_view(c@, labels@)),
            ),
        decreases lines@.len() - k,
    {
        let (a, b) = lines[k];
        proof {
            assert(ls.take(k + 1).drop_last() =~= ls.take(k as int));
            assert(ls.take(k + 1).last() == c@.subrange(a as int, b as int));
        }
        if b > a && c[b - 1] == ':' {
            let e = strip_colons_at(c, a, b);
            match find_label(c, &labels, a, e) {
                Some(i) => {
                    proof {
                        lemma_table_found(labels_view(c@, labels@), i as int);
                        lemma_table_err(ls, k + 1);
                    }
                    return Err(
                        AsmError { kind: AsmErrorKind::DuplicateLabel, text: string_of(c, a, e) },
                    );
                },
                None => {
                    proof {
                        lemma_table_absent(labels_view(c@, labels@), c@.subrange(a as int, e as int));
                    }
                    let ghost prev = labels@;
                    labels.push((a, e, count));
                    proof {
                        let pv = labels_view(c@, prev);
                        let nv = labels_view(c@, labels@);
                        assert(nv =~= pv.push((c@.subrange(a as int, e as int), count as nat)));
                        assert(nv.drop_last() =~= pv);
                        assert forall|x: int, y: int| 0 <= x < y < nv.len() implies nv[x].0
                            != nv[y].0 by {
                            if y == nv.len() - 1 {
                                assert(nv[x] == pv[x]);
                            } else {
                                assert(nv[x] == pv[x] && nv[y] == pv[y]);
                            }
                        }
                    }
                },
            }
        } else {
            count = count + 1;
        }
        k = k + 1;
    }
    proof {
        assert(ls.take(k as int) =~= ls);
    }
    Ok(labels)
}

/// Decodes the lines `lines` of `c` with the labels `labels` (second pass).
fn decode_lines(
    c: &Vec<char>,
    lines: &Vec<(usize, usize)>,
    labels: &Vec<(usize, usize, usize)>,
    nums: &Vec<Option<u64>>,
) -> (r: Result<Vec<Instruction>, AsmError>)
    requires
        ranges_ok(c@, lines@),
        entries_ok(c@, labels@),
        labels_unique(labels_view(c@, labels@)),
    ensures
        match decode_all(ranges_view(c@, lines@), table_of(labels_view(c@, labels@)), nums@) {
            Ok(v) => r matches Ok(x) && x@.map_values(|i: Instruction| i@) == v,
            Err(e) => r matches Err(x) && x@ == e,
        },
{
    let ghost ls = ranges_view(c@, lines@);
    let ghost m = table_of(labels_view(c@, labels@));
    let mut out: Vec<Instruction> = Vec::new();
    let mut k: usize = 0;
    proof {
        assert(ls.take(0) =~= Seq::<Seq<char>>::empty());
        assert(out@.map_values(|i: Instruction| i@) =~= Seq::<Op>::empty());
    }
    while k < lines.len()
        invariant
            ls == ranges_view(c@, lines@),
            m == table_of(labels_view(c@, labels@)),
            ranges_ok(c@, lines@),
            entries_ok(c@, labels@),
            labels_unique(labels_view(c@, labels@)),
            k <= lines@.len(),
            decode_all(ls.take(k as int), m, nums@) == Ok::<Seq<Op>, (AsmErrorKind, Seq<char>)>(
                out@.map_values(|i: Instruction| i@),
            ),
        decreases lines@.len() - k,
    {
        let (a, b) = lines[k];
        let lit = if k < nums.len() {
            nums[k]
        } else {
            None
        };
        proof {
            assert(ls.take(k + 1).drop_last() =~= ls.take(k as int));
            assert(ls.take(k + 1).last() == c@.subrange(a as int, b as int));
        }
        match decode_line(c, a, b, labels, lit) {
            Err(e) => {
                proof {
                    lemma_decode_err(ls, m, nums@, k + 1);
                }
                return Err(e);
            },
            Ok(None) => {},
            Ok(Some(i)) => {
                let ghost prev = out@;
                out.push(i);
                proof {
                    assert(out@.map_values(|i: Instruction| i@) =~= prev.map_values(
                        |i: Instruction| i@,
                    ).push(i@));
                }
            },
        }
        k = k + 1;
    }
    proof {
        assert(ls.take(k as int) =~= ls);
    }
    Ok(out)
}

/// The assembler: turns source text into a sequence of instructions whose
/// jump targets are absolute instruction indices. It keeps no state from one
/// source to the next.
pub struct Parser {}

impl Parser {
    /// An assembler.
    pub fn new() -> (r: Parser) {
        Parser {}
    }

    /// The numeral of each line of `contents` that takes part in assembly
    /// (see [`source_lines`]): the operand of a `LOAD_CONST` line, else
    /// `None`. The caller parses each as a double and hands the bits to
    /// [`Parser::parse_file`].
    pub fn numerals(&self, contents: &str) -> (r: Vec<Option<String>>)
        ensures
            r@.len() == source_lines(contents@).len(),
            forall|k: int|
                0 <= k < r@.len() ==> match numeral(source_lines(contents@)[k]) {
                    Some(t) => #[trigger] r@[k] matches Some(x) && x@ == t,
                    None => r@[k] is None,
                },
    {
        let c = chars_of(contents);
        let lines = program_lines(&c);
        let ghost ls = ranges_view(c@, lines@);
        let mut out: Vec<Option<String>> = Vec::new();
        let mut k: usize = 0;
        while k < lines.len()
            invariant
                c@ == contents@,
                ls == ranges_view(c@, lines@),
                ls == source_lines(contents@),
                ranges_ok(c@, lines@),
                k <= lines@.len(),
                out@.len() == k,
                forall|j: int|
                    0 <= j < k ==> match numeral(ls[j]) {
                        Some(t) => #[trigger] out@[j] matches Some(x) && x@ == t,
                        None => out@[j] is None,
                    },
            decreases lines@.len() - k,
        {
            let (a, b) = lines[k];
            let ghost l = c@.subrange(a as int, b as int);
            assert(ls[k as int] == l);
            let mut t: Option<String> = None;
            if !(b > a && c[b - 1] == ':') {
                let e0 = word_end_at(&c, a, b, a);
                let s1 = skip_ws_at(&c, a, b, e0);
                let e1 = word_end_at(&c, a, b, s1);
                assert(first_word(l) =~= c@.subrange(a as int, e0 as int));
                assert(second_word(l) =~= c@.subrange(s1 as int, e1 as int));
                if s1 < e1 && mnemonic(&c, a, e0) == Some(Mnemonic::LoadConst) {
                    t = Some(string_of(&c, s1, e1));
                }
            }
            out.push(t);
            k = k + 1;
        }
        out
    }

    /// Assembles `contents`. `numbers[k]` holds the bits of the double that
    /// the `k`-th numeral of [`Parser::numerals`] parses to, or `None` where
    /// it is no number (or the line has none).
    pub fn parse_file(&mut self, contents: &str, numbers: &Vec<Option<u64>>) -> (r: Result<
        Vec<Instruction>,
        AsmError,
    >)
        ensures
            match assemble(contents@, numbers@) {
                Ok(v) => r matches Ok(x) && x@.map_values(|i: Instruction| i@) == v,
                Err(e) => r matches Err(x) && x@ == e,
            },
    {
        let c = chars_of(contents);
        let lines = program_lines(&c);
        let labels = collect_labels(&c, &lines)?;
        decode_lines(&c, &lines, &labels, numbers)
    }
}


/// A label declared once resolves to the number of instructions before its
/// declaration: in a source without duplicate labels, the table maps the name
/// of the label line `ls[j]` to `count_instrs(ls.take(j))`.
pub proof fn lemma_label_index(ls: Seq<Seq<char>>, j: int)
    requires
        0 <= j < ls.len(),
        is_label(ls[j]),
        label_table(ls) is Ok,
    ensures
        label_table(ls)->Ok_0.contains_key(strip_colons(ls[j])),
        label_table(ls)->Ok_0[strip_colons(ls[j])] == count_instrs(ls.take(j)),
    decreases ls.len(),
{
    let d = ls.drop_last();
    if j == ls.len() - 1 {
        assert(ls.take(j) =~= d);
    } else {
        assert(d[j] == ls[j]);
        assert(d.take(j) =~= ls.take(j));
        lemma_label_index(d, j);
    }
}

/// Every jump that names a label declared once goes to the same index, the
/// number of instructions before the declaration.
pub proof fn lemma_jump_resolves(ls: Seq<Seq<char>>, j: int, k: int, lit: Option<u64>)
    requires
        0 <= j < ls.len(),
        0 <= k < ls.len(),
        is_label(ls[j]),
        strip_colons(ls[j]).len() > 0,
        label_table(ls) is Ok,
        !is_label(ls[k]),
        mnemonic_of(first_word(ls[k])) matches Some(mn) && is_jump(mn),
        second_word(ls[k]) == strip_colons(ls[j]),
    ensures
        decode(ls[k], label_table(ls)->Ok_0, lit) == Ok::<Option<Op>, (AsmErrorKind, Seq<char>)>(
            Some(
                plain_op(
                    mnemonic_of(first_word(ls[k]))->0,
                    count_instrs(ls.take(j)) as usize,
                ),
            ),
        ),
{
    lemma_label_index(ls, j);
}

/// Decoding keeps the program's shape: when every line decodes, the output
/// holds one instruction per instruction line, and the one from line `k`
/// stands at index `count_instrs(ls.take(k))`, the index that a label
/// declared just before line `k` resolves to.
pub proof fn lemma_decode_positions(
    ls: Seq<Seq<char>>,
    m: Map<Seq<char>, nat>,
    nums: Seq<Option<u64>>,
    k: int,
)
    requires
        decode_all(ls, m, nums) is Ok,
        0 <= k < ls.len(),
        !is_label(ls[k]),
    ensures
        decode_all(ls, m, nums)->Ok_0.len() == count_instrs(ls),
        decode(ls[k], m, lit_at(nums, k)) matches Ok(Some(o)) && decode_all(ls, m, nums)->Ok_0[count_instrs(
            ls.take(k),
        ) as int] == o,
    decreases ls.len(),
{
    lemma_decode_len(ls, m, nums);
    let d = ls.drop_last();
    if k == ls.len() - 1 {
        assert(ls.take(k) =~= d);
        lemma_decode_len(d, m, nums);
    } else {
        assert(d[k] == ls[k]);
        assert(d.take(k) =~= ls.take(k));
        lemma_decode_positions(d, m, nums, k);
        lemma_count_le(d, k);
    }
}

proof fn lemma_decode_len(ls: Seq<Seq<char>>, m: Map<Seq<char>, nat>, nums: Seq<Option<u64>>)
    requires
        decode_all(ls, m, nums) is Ok,
    ensures
        decode_all(ls, m, nums)->Ok_0.len() == count_instrs(ls),
    decreases ls.len(),
{
    if ls.len() > 0 {
        lemma_decode_len(ls.drop_last(), m, nums);
    }
}

proof fn lemma_count_le(ls: Seq<Seq<char>>, k: int)
    requires
        0 <= k < ls.len(),
        !is_label(ls[k]),
    ensures
        count_instrs(ls.take(k)) < count_instrs(ls),
    decreases ls.len(),
{
    let d = ls.drop_last();
    if k == ls.len() - 1 {
        assert(ls.take(k) =~= d);
    } else {
        assert(d[k] == ls[k]);
        assert(d.take(k) =~= ls.take(k));
        lemma_count_le(d, k);
    }
}

/// A `LOAD_CONST` line whose numeral parses to the double with bits `b`
/// assembles to the instruction that loads `b` as an integer exactly when
/// `b` has no fractional part.
pub proof fn lemma_load_const_decodes(l: Seq<char>, m: Map<Seq<char>, nat>, b: u64)
    requires
        !is_label(l),
        mnemonic_of(first_word(l)) == Some(Mnemonic::LoadConst),
        second_word(l).len() > 0,
    ensures
        decode(l, m, Some(b)) == Ok::<Option<Op>, (AsmErrorKind, Seq<char>)>(Some(literal_op(b))),
        literal_op(b) is LoadConstInt <==> is_integral_bits(b),
{
}

} // verus!
