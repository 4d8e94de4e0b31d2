//! A parser for a restricted circuit text format: one register declaration
//! and a fixed set of gate mnemonics, one statement per line.
//!
//! Comment and header lines are ignored, and so are `measure` statements;
//! any other line is a parse failure described by a message.

use vstd::prelude::*;
use vstd::string::StringSliceAdditionalSpecFns;
use crate::circuit::{clifford_gate_valid, CliffordCircuit, CliffordGate};

verus! {

/// A blank byte at the spec level: space, tab or carriage return.
pub open spec fn spec_space(b: u8) -> bool {
    b == 32 || b == 9 || b == 13
}

/// A decimal digit at the spec level.
pub open spec fn spec_digit(b: u8) -> bool {
    48 <= b <= 57
}

/// A letter at the spec level.
pub open spec fn spec_alpha(b: u8) -> bool {
    65 <= b <= 90 || 97 <= b <= 122
}

/// An identifier byte at the spec level.
pub open spec fn spec_ident_ch(b: u8) -> bool {
    spec_alpha(b) || spec_digit(b) || b == 95
}

/// The position after the blanks from `p`.
pub open spec fn spec_skip(l: Seq<u8>, p: int) -> int
    decreases l.len() - p,
{
    if 0 <= p < l.len() && spec_space(l[p]) {
        spec_skip(l, p + 1)
    } else {
        p
    }
}

/// The position after the identifier bytes from `p`.
pub open spec fn spec_ident_end(l: Seq<u8>, p: int) -> int
    decreases l.len() - p,
{
    if 0 <= p < l.len() && spec_ident_ch(l[p]) {
        spec_ident_end(l, p + 1)
    } else {
        p
    }
}

/// The position after the digits from `p`.
pub open spec fn spec_num_end(l: Seq<u8>, p: int) -> int
    decreases l.len() - p,
{
    if 0 <= p < l.len() && spec_digit(l[p]) {
        spec_num_end(l, p + 1)
    } else {
        p
    }
}

/// The decimal value of the digits in `l[p..end]`.
pub open spec fn spec_num_val(l: Seq<u8>, p: int, end: int) -> int
    decreases end - p,
{
    if end <= p {
        0
    } else {
        spec_num_val(l, p, end - 1) * 10 + (l[end - 1] - 48)
    }
}

/// Every byte the digit scan consumes is a digit.
proof fn lemma_num_digits(l: Seq<u8>, p: int)
    ensures
        forall|i: int| p <= i < spec_num_end(l, p) ==> spec_digit(l[i]),
    decreases l.len() - p,
{
    if 0 <= p < l.len() && spec_digit(l[p]) {
        lemma_num_digits(l, p + 1);
    }
}

/// The digit scan never moves backwards.
proof fn lemma_num_end_lower(l: Seq<u8>, p: int)
    ensures
        p <= spec_num_end(l, p),
    decreases l.len() - p,
{
    if 0 <= p < l.len() && spec_digit(l[p]) {
        lemma_num_end_lower(l, p + 1);
    }
}

/// Over a run of digits the value is non-negative.
proof fn lemma_num_val_nonneg(l: Seq<u8>, p: int, k: int)
    requires
        p <= k,
        forall|i: int| p <= i < k ==> spec_digit(l[i]),
    ensures
        0 <= spec_num_val(l, p, k),
    decreases k - p,
{
    if k > p {
        lemma_num_val_nonneg(l, p, k - 1);
    }
}

/// Over a run of digits the value grows with the range.
proof fn lemma_num_val_mono(l: Seq<u8>, p: int, k: int, end: int)
    requires
        p <= k <= end,
        forall|i: int| p <= i < end ==> spec_digit(l[i]),
    ensures
        spec_num_val(l, p, k) <= spec_num_val(l, p, end),
    decreases end - k,
{
    if k < end {
        lemma_num_val_mono(l, p, k, end - 1);
        lemma_num_val_nonneg(l, p, end - 1);
    }
}

/// Whether the word `w` stands at position `p` of `l`.
pub open spec fn spec_word_at(l: Seq<u8>, p: int, w: Seq<u8>) -> bool {
    0 <= p && p + w.len() <= l.len() && l.subrange(p, p + w.len() as int) == w
}

/// The bytes of the register-declaration keyword, at the spec level.
pub open spec fn spec_qreg() -> Seq<u8> {
    seq![113u8, 114u8, 101u8, 103u8]
}

/// Whether `l` is exactly a register declaration, and for how many qubits:
/// blanks, the register keyword, at least one blank, an identifier, blanks,
/// `[`, blanks, digits whose value fits the machine, blanks, `]`, blanks,
/// `;`, blanks to the end of the line.
pub open spec fn spec_register(l: Seq<u8>) -> Option<int> {
    let p0 = spec_skip(l, 0);
    if !spec_word_at(l, p0, spec_qreg()) {
        None
    } else {
        let p1 = p0 + 4;
        let p2 = spec_skip(l, p1);
        if p2 == p1 || !(p2 < l.len() && spec_alpha(l[p2])) {
            None
        } else {
            let p3 = spec_ident_end(l, p2 + 1);
            let p4 = spec_skip(l, p3);
            if !(p4 < l.len() && l[p4] == 91) {
                None
            } else {
                let p5 = spec_skip(l, p4 + 1);
                if !(p5 < l.len() && spec_digit(l[p5])) {
                    None
                } else {
                    let p6 = spec_num_end(l, p5);
                    let v = spec_num_val(l, p5, p6);
                    if v > usize::MAX {
                        None
                    } else {
                        let p7 = spec_skip(l, p6);
                        if !(p7 < l.len() && l[p7] == 93) {
                            None
                        } else {
                            let p8 = spec_skip(l, p7 + 1);
                            if !(p8 < l.len() && l[p8] == 59) {
                                None
                            } else if spec_skip(l, p8 + 1) != l.len() {
                                None
                            } else {
                                Some(v)
                            }
                        }
                    }
                }
            }
        }
    }
}

/// Whether a qubit reference `IDENT [ NUMBER ]` stands at `p`, with the
/// number fitting the machine.
pub open spec fn spec_qref_ok(l: Seq<u8>, p: int) -> bool {
    &&& 0 <= p < l.len() && spec_alpha(l[p])
    &&& {
        let pa = spec_ident_end(l, p + 1);
        &&& pa < l.len() && l[pa] == 91
        &&& {
            let pd = pa + 1;
            &&& pd < l.len() && spec_digit(l[pd])
            &&& {
                let pe = spec_num_end(l, pd);
                &&& spec_num_val(l, pd, pe) <= usize::MAX
                &&& pe < l.len() && l[pe] == 93
            }
        }
    }
}

/// The numeric value inside a qubit reference at `p`.
pub open spec fn spec_qref_val(l: Seq<u8>, p: int) -> int {
    let pd = spec_ident_end(l, p + 1) + 1;
    spec_num_val(l, pd, spec_num_end(l, pd))
}

/// The position just after a qubit reference at `p`.
pub open spec fn spec_qref_end(l: Seq<u8>, p: int) -> int {
    let pd = spec_ident_end(l, p + 1) + 1;
    spec_num_end(l, pd) + 1
}

/// The meaning of a one-qubit mnemonic, applied at `q`.
pub open spec fn spec_named_gate1(name: Seq<u8>, q: usize) -> Option<CliffordGate> {
    if name.len() == 1 && name[0] == 104 {
        Some(CliffordGate::H(q))
    } else if name.len() == 1 && name[0] == 120 {
        Some(CliffordGate::X(q))
    } else if name.len() == 1 && name[0] == 121 {
        Some(CliffordGate::Y(q))
    } else if name.len() == 1 && name[0] == 122 {
        Some(CliffordGate::Z(q))
    } else if name.len() == 1 && name[0] == 115 {
        Some(CliffordGate::S(q))
    } else if name.len() == 3 && name[0] == 115 && name[1] == 100 && name[2] == 103 {
        Some(CliffordGate::Sdg(q))
    } else if name.len() == 2 && name[0] == 115 && name[1] == 120 {
        Some(CliffordGate::SqrtX(q))
    } else if name.len() == 4 && name[0] == 115 && name[1] == 120 && name[2] == 100 && name[3]
        == 103 {
        Some(CliffordGate::SqrtXdg(q))
    } else {
        None
    }
}

/// The meaning of a two-qubit mnemonic, applied at `q1`, `q2`.
pub open spec fn spec_named_gate2(name: Seq<u8>, q1: usize, q2: usize) -> Option<CliffordGate> {
    if name.len() == 2 && name[0] == 99 && name[1] == 120 {
        Some(CliffordGate::CX(q1, q2))
    } else if name.len() == 2 && name[0] == 99 && name[1] == 122 {
        Some(CliffordGate::CZ(q1, q2))
    } else if name.len() == 4 && name[0] == 115 && name[1] == 119 && name[2] == 97 && name[3]
        == 112 {
        Some(CliffordGate::Swap(q1, q2))
    } else {
        None
    }
}

/// Whether `l` is exactly a one-qubit gate statement, and which gate:
/// blanks, a known mnemonic, at least one blank, a qubit reference, blanks,
/// `;`, blanks to the end.
pub open spec fn spec_gate1(l: Seq<u8>) -> Option<CliffordGate> {
    let ns = spec_skip(l, 0);
    if !(ns < l.len() && spec_alpha(l[ns])) {
        None
    } else {
        let ne = spec_ident_end(l, ns + 1);
        let p2 = spec_skip(l, ne);
        if p2 == ne || !spec_qref_ok(l, p2) {
            None
        } else {
            let q = spec_qref_val(l, p2);
            let p4 = spec_skip(l, spec_qref_end(l, p2));
            if !(p4 < l.len() && l[p4] == 59) {
                None
            } else if spec_skip(l, p4 + 1) != l.len() {
                None
            } else {
                spec_named_gate1(l.subrange(ns, ne), q as usize)
            }
        }
    }
}

/// Whether `l` is exactly a two-qubit gate statement, and which gate: as a
/// one-qubit statement, but with a comma and a second qubit reference.
pub open spec fn spec_gate2(l: Seq<u8>) -> Option<CliffordGate> {
    let ns = spec_skip(l, 0);
    if !(ns < l.len() && spec_alpha(l[ns])) {
        None
    } else {
        let ne = spec_ident_end(l, ns + 1);
        let p2 = spec_skip(l, ne);
        if p2 == ne || !spec_qref_ok(l, p2) {
            None
        } else {
            let q1 = spec_qref_val(l, p2);
            let p4 = spec_skip(l, spec_qref_end(l, p2));
            if !(p4 < l.len() && l[p4] == 44) {
                None
            } else {
                let p5 = spec_skip(l, p4 + 1);
                if !spec_qref_ok(l, p5) {
                    None
                } else {
                    let q2 = spec_qref_val(l, p5);
                    let p7 = spec_skip(l, spec_qref_end(l, p5));
                    if !(p7 < l.len() && l[p7] == 59) {
                        None
                    } else if spec_skip(l, p7 + 1) != l.len() {
                        None
                    } else {
                        spec_named_gate2(l.subrange(ns, ne), q1 as usize, q2 as usize)
                    }
                }
            }
        }
    }
}

/// The slice `w` of the input holds a statement whose meaning is `g`.
pub open spec fn gate_witness_ok(bytes: Seq<u8>, w: (int, int), g: CliffordGate) -> bool {
    &&& 0 <= w.0 <= w.1 <= bytes.len()
    &&& (spec_gate1(bytes.subrange(w.0, w.1)) == Some(g) || spec_gate2(bytes.subrange(w.0, w.1))
        == Some(g))
}

/// The one-qubit gate for a mnemonic code.
pub open spec fn code1_gate(code: u8, q: usize) -> CliffordGate {
    if code == 104 {
        CliffordGate::H(q)
    } else if code == 120 {
        CliffordGate::X(q)
    } else if code == 121 {
        CliffordGate::Y(q)
    } else if code == 122 {
        CliffordGate::Z(q)
    } else if code == 115 {
        CliffordGate::S(q)
    } else if code == 100 {
        CliffordGate::Sdg(q)
    } else if code == 113 {
        CliffordGate::SqrtX(q)
    } else {
        CliffordGate::SqrtXdg(q)
    }
}

/// The two-qubit gate for a mnemonic code.
pub open spec fn code2_gate(code: u8, q1: usize, q2: usize) -> CliffordGate {
    if code == 99 {
        CliffordGate::CX(q1, q2)
    } else if code == 122 {
        CliffordGate::CZ(q1, q2)
    } else {
        CliffordGate::Swap(q1, q2)
    }
}

/// Bytes that count as blanks inside a statement.
fn is_space(b: u8) -> (r: bool)
    ensures
        r == (b == 32 || b == 9 || b == 13),
{
    b == 32u8 || b == 9u8 || b == 13u8
}

/// ASCII decimal digits.
fn is_digit(b: u8) -> (r: bool)
    ensures
        r == (48 <= b <= 57),
{
    48u8 <= b && b <= 57u8
}

/// ASCII letters.
fn is_alpha(b: u8) -> (r: bool)
    ensures
        r == (65 <= b <= 90 || 97 <= b <= 122),
{
    (97u8 <= b && b <= 122u8) || (65u8 <= b && b <= 90u8)
}

/// Letters, digits and underscores: the identifier alphabet.
fn is_ident_char(b: u8) -> (r: bool)
    ensures
        r == (65 <= b <= 90 || 97 <= b <= 122 || 48 <= b <= 57 || b == 95),
{
    is_alpha(b) || is_digit(b) || b == 95u8
}

/// A cursor over one line of input.
struct Cursor<'a> {
    line: &'a Vec<u8>,
    pos: usize,
}

impl<'a> Cursor<'a> {
    /// The cursor never points past the end of the line.
    spec fn wf(self) -> bool {
        self.pos <= self.line@.len()
    }

    fn new(line: &'a Vec<u8>) -> (r: Self)
        ensures
            r.wf(),
            r.line == line,
            r.pos == 0,
    {
        Cursor { line, pos: 0 }
    }

    /// Skips blanks; reports whether at least one was skipped.
    fn skip_spaces(&mut self) -> (r: bool)
        requires
            old(self).wf(),
        ensures
            final(self).wf(),
            final(self).line == old(self).line,
            old(self).pos <= final(self).pos,
            final(self).pos as int == spec_skip(old(self).line@, old(self).pos as int),
            r == (final(self).pos > old(self).pos),
    {
        let mut skipped = false;
        while self.pos < self.line.len()
            invariant
                self.pos <= self.line@.len(),
                self.line == old(self).line,
                old(self).pos <= self.pos,
                skipped == (self.pos > old(self).pos),
                spec_skip(self.line@, old(self).pos as int) == spec_skip(
                    self.line@,
                    self.pos as int,
                ),
            decreases self.line@.len() - self.pos,
        {
            if is_space(self.line[self.pos]) {
                self.pos = self.pos + 1;
                skipped = true;
            } else {
                return skipped;
            }
        }
        skipped
    }

    /// Consumes exactly the given keyword.
    fn eat_keyword(&mut self, word: &Vec<u8>) -> (r: bool)
        requires
            old(self).wf(),
        ensures
            final(self).wf(),
            final(self).line == old(self).line,
            r ==> spec_word_at(old(self).line@, old(self).pos as int, word@) && final(self).pos
                == old(self).pos + word@.len(),
            !r ==> final(self).pos == old(self).pos,
            (word@.len() > 0 && spec_word_at(old(self).line@, old(self).pos as int, word@))
                ==> r,
    {
        let m = word.len();
        let p = self.pos;
        if p >= self.line.len() || self.line.len() - p < m {
            return false;
        }
        let mut k: usize = 0;
        while k < m
            invariant
                k <= m,
                m == word@.len(),
                p + m <= self.line@.len(),
                p + m <= usize::MAX,
                self.pos <= self.line@.len(),
                self.pos == p,
                self.line == old(self).line,
                forall|t: int| 0 <= t < k ==> self.line@[p + t] == word@[t],
            decreases m - k,
        {
            if self.line[p + k] != word[k] {
                proof {
                    if spec_word_at(self.line@, p as int, word@) {
                        assert(self.line@.subrange(p as int, p + m)[k as int] == word@[k as int]);
                    }
                }
                return false;
            }
            k = k + 1;
        }
        proof {
            assert(self.line@.subrange(p as int, p + m) =~= word@);
        }
        self.pos = p + m;
        true
    }

    /// Consumes one identifier; reports whether one was there.
    fn eat_ident(&mut self) -> (r: bool)
        requires
            old(self).wf(),
        ensures
            final(self).wf(),
            final(self).line == old(self).line,
            old(self).pos <= final(self).pos,
            r == ((old(self).pos as int) < old(self).line@.len() && spec_alpha(
                old(self).line@[old(self).pos as int],
            )),
            r ==> final(self).pos as int == spec_ident_end(
                old(self).line@,
                old(self).pos + 1,
            ),
            !r ==> final(self).pos == old(self).pos,
    {
        if self.pos >= self.line.len() || !is_alpha(self.line[self.pos]) {
            return false;
        }
        self.pos = self.pos + 1;
        while self.pos < self.line.len()
            invariant
                self.pos <= self.line@.len(),
                self.line == old(self).line,
                old(self).pos < self.pos,
                (old(self).pos as int) < self.line@.len(),
                spec_alpha(self.line@[old(self).pos as int]),
                spec_ident_end(self.line@, old(self).pos + 1) == spec_ident_end(
                    self.line@,
                    self.pos as int,
                ),
            decreases self.line@.len() - self.pos,
        {
            if is_ident_char(self.line[self.pos]) {
                self.pos = self.pos + 1;
            } else {
                return true;
            }
        }
        true
    }

    /// Consumes one unsigned decimal number; `None` when no digit is there
    /// or the value does not fit the machine.
    fn eat_number(&mut self) -> (r: Option<usize>)
        requires
            old(self).wf(),
        ensures
            final(self).wf(),
            final(self).line == old(self).line,
            r matches Some(v) ==> {
                &&& (old(self).pos as int) < old(self).line@.len()
                &&& spec_digit(old(self).line@[old(self).pos as int])
                &&& final(self).pos as int == spec_num_end(old(self).line@, old(self).pos as int)
                &&& v as int == spec_num_val(
                    old(self).line@,
                    old(self).pos as int,
                    spec_num_end(old(self).line@, old(self).pos as int),
                )
            },
            ((old(self).pos as int) < old(self).line@.len() && spec_digit(
                old(self).line@[old(self).pos as int],
            ) && spec_num_val(
                old(self).line@,
                old(self).pos as int,
                spec_num_end(old(self).line@, old(self).pos as int),
            ) <= usize::MAX) ==> r is Some,
    {
        if self.pos >= self.line.len() || !is_digit(self.line[self.pos]) {
            return None;
        }
        let mut value: usize = 0;
        while self.pos < self.line.len()
            invariant
                self.pos <= self.line@.len(),
                self.line == old(self).line,
                old(self).pos <= self.pos,
                (old(self).pos as int) < self.line@.len(),
                spec_digit(self.line@[old(self).pos as int]),
                spec_num_end(self.line@, old(self).pos as int) == spec_num_end(
                    self.line@,
                    self.pos as int,
                ),
                value as int == spec_num_val(self.line@, old(self).pos as int, self.pos as int),
            decreases self.line@.len() - self.pos,
        {
            let b = self.line[self.pos];
            if is_digit(b) {
                let digit = (b - 48u8) as usize;
                if value > (usize::MAX - digit) / 10 {
                    proof {
                        let l = self.line@;
                        let p0 = old(self).pos as int;
                        let ne = spec_num_end(l, p0);
                        lemma_num_digits(l, p0);
                        assert(spec_num_val(l, p0, self.pos + 1) == value * 10 + digit);
                        assert(value * 10 + digit > usize::MAX);
                        assert(self.pos + 1 <= ne) by {
                            assert(spec_num_end(l, self.pos as int) == spec_num_end(
                                l,
                                self.pos + 1,
                            ));
                            lemma_num_end_lower(l, self.pos + 1);
                        }
                        lemma_num_val_mono(l, p0, self.pos + 1, ne);
                    }
                    return None;
                }
                value = value * 10 + digit;
                self.pos = self.pos + 1;
                proof {
                    assert(value as int == spec_num_val(
                        self.line@,
                        old(self).pos as int,
                        self.pos as int,
                    ));
                }
            } else {
                return Some(value);
            }
        }
        Some(value)
    }

    /// Consumes one exact byte.
    fn eat_byte(&mut self, b: u8) -> (r: bool)
        requires
            old(self).wf(),
        ensures
            final(self).wf(),
            final(self).line == old(self).line,
            r == ((old(self).pos as int) < old(self).line@.len() && old(self).line@[old(
                self,
            ).pos as int] == b),
            r ==> final(self).pos == old(self).pos + 1,
            !r ==> final(self).pos == old(self).pos,
    {
        if self.pos < self.line.len() && self.line[self.pos] == b {
            self.pos = self.pos + 1;
            true
        } else {
            false
        }
    }

    /// Whether everything up to the end of the line is blank.
    fn at_blank_end(&mut self) -> (r: bool)
        requires
            old(self).wf(),
        ensures
            final(self).wf(),
            final(self).line == old(self).line,
            r == (spec_skip(old(self).line@, old(self).pos as int) == old(self).line@.len()),
    {
        self.skip_spaces();
        self.pos >= self.line.len()
    }

    /// Consumes `IDENT [ NUMBER ]` and yields the number.
    fn eat_qubit_ref(&mut self) -> (r: Option<usize>)
        requires
            old(self).wf(),
        ensures
            final(self).wf(),
            final(self).line == old(self).line,
            r matches Some(v) ==> {
                &&& spec_qref_ok(old(self).line@, old(self).pos as int)
                &&& v as int == spec_qref_val(old(self).line@, old(self).pos as int)
                &&& final(self).pos as int == spec_qref_end(old(self).line@, old(self).pos as int)
            },
            spec_qref_ok(old(self).line@, old(self).pos as int) ==> r is Some,
    {
        if !self.eat_ident() {
            return None;
        }
        if !self.eat_byte(91u8) {
            return None;
        }
        let num = self.eat_number();
        if num.is_none() {
            return None;
        }
        if !self.eat_byte(93u8) {
            return None;
        }
        num
    }
}

/// What one line of the format means.
enum Line {
    Blank,
    Register(usize),
    Gate1(u8, usize),
    Gate2(u8, usize, usize),
    Malformed,
}

/// Classifies one line: blank or ignorable, a register declaration, a
/// one- or two-qubit gate statement, or malformed.  Mnemonics are coded
/// by their first statement form.  A register classification carries
/// exactly the count that the spec-level recognizer reads off the line.
fn classify_line(line: &Vec<u8>) -> (r: Line)
    ensures
        r matches Line::Register(size) ==> spec_register(line@) == Some(size as int),
        r matches Line::Gate1(code, q) ==> spec_gate1(line@) == Some(code1_gate(code, q)),
        r matches Line::Gate2(code, q1, q2) ==> spec_gate2(line@) == Some(
            code2_gate(code, q1, q2),
        ),
        spec_register(line@) matches Some(v) ==> ((forall|i: int|
            0 <= i < line@.len() ==> line@[i] != 34) ==> r == Line::Register(v as usize)),
{
    proof {
        if spec_register(line@) is Some {
            let p0s = spec_skip(line@, 0);
            assert(spec_word_at(line@, p0s, spec_qreg()));
            assert(line@.subrange(p0s, p0s + 4)[0] == line@[p0s]);
            assert(spec_qreg()[0] == 113);
            assert(line@[p0s] == 113);
        }
    }
    let mut cur = Cursor::new(line);
    cur.skip_spaces();
    if cur.pos >= line.len() {
        return Line::Blank;
    }
    // Comment lines.
    if cur.pos + 1 < line.len() && line[cur.pos] == 47u8 && line[cur.pos + 1] == 47u8 {
        return Line::Blank;
    }
    // The version header, and any directive carrying a quoted file name.
    let mut header = Cursor::new(line);
    header.skip_spaces();
    let openqasm: Vec<u8> = vec_word_openqasm();
    if header.eat_keyword(&openqasm) {
        proof {
            if spec_register(line@) is Some {
                assert(line@.subrange(spec_skip(line@, 0), spec_skip(line@, 0) + 8)[0]
                    == line@[spec_skip(line@, 0)]);
            }
        }
        return Line::Blank;
    }
    let mut q: usize = 0;
    while q < line.len()
        invariant
            q <= line@.len(),
        decreases line@.len() - q,
    {
        if line[q] == 34u8 {
            return Line::Blank;
        }
        q = q + 1;
    }
    // Ignored measurement statements.
    let mut meas = Cursor::new(line);
    meas.skip_spaces();
    let measure: Vec<u8> = vec_word_measure();
    if meas.eat_keyword(&measure) {
        proof {
            if spec_register(line@) is Some {
                assert(line@.subrange(spec_skip(line@, 0), spec_skip(line@, 0) + 7)[0]
                    == line@[spec_skip(line@, 0)]);
            }
        }
        return Line::Blank;
    }
    // The register declaration.
    let mut reg = Cursor::new(line);
    let ghost l = line@;
    reg.skip_spaces();
    let ghost p0 = reg.pos as int;
    let qreg: Vec<u8> = vec_word_qreg();
    if reg.eat_keyword(&qreg) {
        let ghost p1 = reg.pos as int;
        if !reg.skip_spaces() {
            return Line::Malformed;
        }
        let ghost p2 = reg.pos as int;
        if !reg.eat_ident() {
            return Line::Malformed;
        }
        let ghost p3 = reg.pos as int;
        reg.skip_spaces();
        let ghost p4 = reg.pos as int;
        if !reg.eat_byte(91u8) {
            return Line::Malformed;
        }
        reg.skip_spaces();
        let ghost p5 = reg.pos as int;
        let num = match reg.eat_number() {
            Some(v) => v,
            None => {
                return Line::Malformed;
            },
        };
        let ghost p6 = reg.pos as int;
        reg.skip_spaces();
        let ghost p7 = reg.pos as int;
        if !reg.eat_byte(93u8) {
            return Line::Malformed;
        }
        reg.skip_spaces();
        let ghost p8 = reg.pos as int;
        if !reg.eat_byte(59u8) {
            return Line::Malformed;
        }
        if !reg.at_blank_end() {
            return Line::Malformed;
        }
        proof {
            assert(p0 == spec_skip(l, 0));
            assert(spec_word_at(l, p0, spec_qreg()));
            assert(p1 == p0 + 4);
            assert(p2 == spec_skip(l, p1) && p2 > p1);
            assert(p2 < l.len() && spec_alpha(l[p2]));
            assert(p3 == spec_ident_end(l, p2 + 1));
            assert(p4 == spec_skip(l, p3));
            assert(p4 < l.len() && l[p4] == 91);
            assert(p5 == spec_skip(l, p4 + 1));
            assert(p5 < l.len() && spec_digit(l[p5]));
            assert(p6 == spec_num_end(l, p5));
            assert(num as int == spec_num_val(l, p5, p6));
            assert(p7 == spec_skip(l, p6));
            assert(p7 < l.len() && l[p7] == 93);
            assert(p8 == spec_skip(l, p7 + 1));
            assert(p8 < l.len() && l[p8] == 59);
            assert(spec_skip(l, p8 + 1) == l.len());
            assert(spec_register(l) == Some(num as int));
        }
        return Line::Register(num);
    }
    // Gate statements: a mnemonic, then one or two qubit references.
    let mut g = Cursor::new(line);
    g.skip_spaces();
    let name_start = g.pos;
    let ghost ns = name_start as int;
    if !g.eat_ident() {
        return Line::Malformed;
    }
    let name_end = g.pos;
    let ghost ne = name_end as int;
    if !g.skip_spaces() {
        return Line::Malformed;
    }
    let ghost p2 = g.pos as int;
    let q1 = match g.eat_qubit_ref() {
        Some(v) => v,
        None => {
            return Line::Malformed;
        },
    };
    let ghost p3 = g.pos as int;
    g.skip_spaces();
    let ghost p4 = g.pos as int;
    if g.eat_byte(44u8) {
        g.skip_spaces();
        let ghost p5 = g.pos as int;
        let q2 = match g.eat_qubit_ref() {
            Some(v) => v,
            None => {
                return Line::Malformed;
            },
        };
        let ghost p6 = g.pos as int;
        g.skip_spaces();
        let ghost p7 = g.pos as int;
        if !g.eat_byte(59u8) {
            return Line::Malformed;
        }
        if !g.at_blank_end() {
            return Line::Malformed;
        }
        match two_qubit_code(line, name_start, name_end) {
            Some(code) => {
                proof {
                    assert(ns == spec_skip(l, 0));
                    assert(ns < l.len() && spec_alpha(l[ns]));
                    assert(ne == spec_ident_end(l, ns + 1));
                    assert(p2 == spec_skip(l, ne) && p2 > ne);
                    assert(spec_qref_ok(l, p2) && q1 as int == spec_qref_val(l, p2) && p3
                        == spec_qref_end(l, p2));
                    assert(p4 == spec_skip(l, p3));
                    assert(p4 < l.len() && l[p4] == 44);
                    assert(p5 == spec_skip(l, p4 + 1));
                    assert(spec_qref_ok(l, p5) && q2 as int == spec_qref_val(l, p5) && p6
                        == spec_qref_end(l, p5));
                    assert(p7 == spec_skip(l, p6));
                    assert(p7 < l.len() && l[p7] == 59);
                    assert(spec_skip(l, p7 + 1) == l.len());
                    assert(spec_named_gate2(l.subrange(ns, ne), q1, q2) == Some(
                        code2_gate(code, q1, q2),
                    ));
                    assert(spec_gate2(l) == Some(code2_gate(code, q1, q2)));
                }
                Line::Gate2(code, q1, q2)
            },
            None => Line::Malformed,
        }
    } else {
        if !g.eat_byte(59u8) {
            return Line::Malformed;
        }
        if !g.at_blank_end() {
            return Line::Malformed;
        }
        match one_qubit_code(line, name_start, name_end) {
            Some(code) => {
                proof {
                    assert(ns == spec_skip(l, 0));
                    assert(ns < l.len() && spec_alpha(l[ns]));
                    assert(ne == spec_ident_end(l, ns + 1));
                    assert(p2 == spec_skip(l, ne) && p2 > ne);
                    assert(spec_qref_ok(l, p2) && q1 as int == spec_qref_val(l, p2) && p3
                        == spec_qref_end(l, p2));
                    assert(p4 == spec_skip(l, p3));
                    assert(p4 < l.len() && l[p4] == 59);
                    assert(spec_skip(l, p4 + 1) == l.len());
                    assert(spec_named_gate1(l.subrange(ns, ne), q1) == Some(code1_gate(code, q1)));
                    assert(spec_gate1(l) == Some(code1_gate(code, q1)));
                }
                Line::Gate1(code, q1)
            },
            None => Line::Malformed,
        }
    }
}

/// The mnemonic bytes in `line[start..end]`, when they name a one-qubit
/// gate; coded by the first byte plus a flag byte for the `dg` forms.
fn one_qubit_code(line: &Vec<u8>, start: usize, end: usize) -> (r: Option<u8>)
    requires
        start <= end <= line@.len(),
    ensures
        r matches Some(code) ==> forall|q: usize|
            #[trigger] spec_named_gate1(line@.subrange(start as int, end as int), q) == Some(
                code1_gate(code, q),
            ),
{
    let ghost name = line@.subrange(start as int, end as int);
    let len = end - start;
    if len == 1 {
        let b = line[start];
        if b == 104u8 || b == 120u8 || b == 121u8 || b == 122u8 || b == 115u8 {
            proof {
                assert(name.len() == 1 && name[0] == b);
            }
            return Some(b);
        }
        return None;
    }
    if len == 2 && line[start] == 115u8 && line[start + 1] == 120u8 {
        proof {
            assert(name.len() == 2 && name[0] == 115 && name[1] == 120);
        }
        return Some(113u8);
    }
    if len == 3 && line[start] == 115u8 && line[start + 1] == 100u8 && line[start + 2] == 103u8 {
        proof {
            assert(name.len() == 3 && name[0] == 115 && name[1] == 100 && name[2] == 103);
        }
        return Some(100u8);
    }
    if len == 4 && line[start] == 115u8 && line[start + 1] == 120u8 && line[start + 2] == 100u8
        && line[start + 3] == 103u8 {
        proof {
            assert(name.len() == 4 && name[0] == 115 && name[1] == 120 && name[2] == 100
                && name[3] == 103);
        }
        return Some(119u8);
    }
    None
}

/// The mnemonic bytes in `line[start..end]`, when they name a two-qubit
/// gate; coded by one byte.
fn two_qubit_code(line: &Vec<u8>, start: usize, end: usize) -> (r: Option<u8>)
    requires
        start <= end <= line@.len(),
    ensures
        r matches Some(code) ==> forall|q1: usize, q2: usize|
            #[trigger] spec_named_gate2(line@.subrange(start as int, end as int), q1, q2) == Some(
                code2_gate(code, q1, q2),
            ),
{
    let ghost name = line@.subrange(start as int, end as int);
    let len = end - start;
    if len == 2 && line[start] == 99u8 && line[start + 1] == 120u8 {
        proof {
            assert(name.len() == 2 && name[0] == 99 && name[1] == 120);
        }
        return Some(99u8);
    }
    if len == 2 && line[start] == 99u8 && line[start + 1] == 122u8 {
        proof {
            assert(name.len() == 2 && name[0] == 99 && name[1] == 122);
        }
        return Some(122u8);
    }
    if len == 4 && line[start] == 115u8 && line[start + 1] == 119u8 && line[start + 2] == 97u8
        && line[start + 3] == 112u8 {
        proof {
            assert(name.len() == 4 && name[0] == 115 && name[1] == 119 && name[2] == 97
                && name[3] == 112);
        }
        return Some(112u8);
    }
    None
}

/// The bytes of the version-header keyword.
fn vec_word_openqasm() -> (w: Vec<u8>)
    ensures
        w@.len() == 8,
        w@[0] == 79,
{
    let mut w: Vec<u8> = Vec::new();
    w.push(79u8);
    w.push(80u8);
    w.push(69u8);
    w.push(78u8);
    w.push(81u8);
    w.push(65u8);
    w.push(83u8);
    w.push(77u8);
    w
}

/// The bytes of the ignored measurement keyword.
fn vec_word_measure() -> (w: Vec<u8>)
    ensures
        w@.len() == 7,
        w@[0] == 109,
{
    let mut w: Vec<u8> = Vec::new();
    w.push(109u8);
    w.push(101u8);
    w.push(97u8);
    w.push(115u8);
    w.push(117u8);
    w.push(114u8);
    w.push(101u8);
    w
}

/// The bytes of the register-declaration keyword.
fn vec_word_qreg() -> (w: Vec<u8>)
    ensures
        w@ == spec_qreg(),
{
    let mut w: Vec<u8> = Vec::new();
    w.push(113u8);
    w.push(114u8);
    w.push(101u8);
    w.push(103u8);
    proof {
        assert(w@ =~= spec_qreg());
    }
    w
}

/// Parses a circuit description into a [`CliffordCircuit`].  One register
/// declaration gives the qubit count; every gate statement must fit the
/// declared register, so every gate of a returned circuit is valid for it.
pub fn from_qasm_str(qasm: &str) -> (res: Result<CliffordCircuit, String>)
    ensures
        res matches Ok(c) ==> forall|i: int|
            0 <= i < c.gates@.len() ==> clifford_gate_valid(
                #[trigger] c.gates@[i],
                c.n_qubits as nat,
            ),
        res matches Ok(c) ==> exists|st: int, en: int|
            0 <= st <= en <= qasm.spec_bytes().len() && spec_register(
                #[trigger] qasm.spec_bytes().subrange(st, en),
            ) == Some(c.n_qubits as int),
        res matches Ok(c) ==> forall|i: int|
            0 <= i < c.gates@.len() ==> exists|st: int, en: int|
                0 <= st <= en <= qasm.spec_bytes().len() && (spec_gate1(
                    #[trigger] qasm.spec_bytes().subrange(st, en),
                ) == Some(#[trigger] c.gates@[i]) || spec_gate2(
                    qasm.spec_bytes().subrange(st, en),
                ) == Some(c.gates@[i])),
        spec_register(qasm.spec_bytes()) matches Some(v) ==> ((forall|i: int|
            0 <= i < qasm.spec_bytes().len() ==> qasm.spec_bytes()[i] != 10
                && qasm.spec_bytes()[i] != 34) ==> (res matches Ok(c) && c.n_qubits as int == v
            && c.gates@.len() == 0)),
{
    let bytes = qasm.as_bytes();
    let total = bytes.len();
    let mut n_qubits: Option<usize> = None;
    let mut raw_gates: Vec<CliffordGate> = Vec::new();
    let ghost mut reg_lo: int = 0;
    let ghost mut reg_hi: int = 0;
    let ghost mut gate_ranges: Seq<(int, int)> = Seq::empty();
    let mut pos: usize = 0;
    while pos < total
        invariant
            pos <= total,
            total == bytes@.len(),
            bytes@ == qasm.spec_bytes(),
            n_qubits matches Some(v) ==> 0 <= reg_lo <= reg_hi <= bytes@.len() && spec_register(
                bytes@.subrange(reg_lo, reg_hi),
            ) == Some(v as int),
            gate_ranges.len() == raw_gates@.len(),
            forall|i: int|
                0 <= i < raw_gates@.len() ==> gate_witness_ok(
                    bytes@,
                    #[trigger] gate_ranges[i],
                    #[trigger] raw_gates@[i],
                ),
            spec_register(bytes@) matches Some(v) ==> ((forall|i: int|
                0 <= i < bytes@.len() ==> bytes@[i] != 10 && bytes@[i] != 34) ==> ((pos == 0
                && n_qubits is None && raw_gates@.len() == 0) || (pos == total && n_qubits
                == Some(v as usize) && (v as usize) as int == v && raw_gates@.len() == 0))),
        decreases total - pos,
    {
        // Extract one line.
        let mut end = pos;
        while end < total && bytes[end] != 10u8
            invariant
                pos <= end <= total,
                total == bytes@.len(),
            decreases total - end,
        {
            end = end + 1;
        }
        let mut line: Vec<u8> = Vec::new();
        let mut k = pos;
        while k < end
            invariant
                pos <= k <= end <= total,
                total == bytes@.len(),
                line@ =~= bytes@.subrange(pos as int, k as int),
            decreases end - k,
        {
            line.push(bytes[k]);
            proof {
                assert(line@ =~= bytes@.subrange(pos as int, k + 1));
            }
            k = k + 1;
        }
        proof {
            assert(line@ == bytes@.subrange(pos as int, end as int));
        }
        let ghost line_lo = pos as int;
        let ghost line_hi = end as int;
        proof {
            if spec_register(bytes@) is Some && (forall|i: int|
                0 <= i < bytes@.len() ==> bytes@[i] != 10 && bytes@[i] != 34) {
                assert(pos == 0);
                assert(end == total);
                assert(line@ =~= bytes@);
            }
        }
        pos = if end < total {
            end + 1
        } else {
            total
        };

        match classify_line(&line) {
            Line::Blank => {},
            Line::Register(size) => {
                if n_qubits.is_some() {
                    return Err("Multiple qreg declarations are not supported.".to_owned());
                }
                n_qubits = Some(size);
                proof {
                    reg_lo = line_lo;
                    reg_hi = line_hi;
                }
            },
            Line::Gate1(code, q) => {
                let gate = if code == 104u8 {
                    CliffordGate::H(q)
                } else if code == 120u8 {
                    CliffordGate::X(q)
                } else if code == 121u8 {
                    CliffordGate::Y(q)
                } else if code == 122u8 {
                    CliffordGate::Z(q)
                } else if code == 115u8 {
                    CliffordGate::S(q)
                } else if code == 100u8 {
                    CliffordGate::Sdg(q)
                } else if code == 113u8 {
                    CliffordGate::SqrtX(q)
                } else {
                    CliffordGate::SqrtXdg(q)
                };
                let ghost gr0 = gate_ranges;
                let ghost rg0 = raw_gates@;
                proof {
                    assert(gate == code1_gate(code, q));
                    assert(line@ == bytes@.subrange(line_lo, line_hi));
                    assert(spec_gate1(bytes@.subrange(line_lo, line_hi)) == Some(gate));
                    gate_ranges = gr0.push((line_lo, line_hi));
                }
                raw_gates.push(gate);
                proof {
                    assert(gate_witness_ok(bytes@, (line_lo, line_hi), gate));
                    assert forall|i: int|
                        0 <= i < raw_gates@.len() implies gate_witness_ok(
                        bytes@,
                        #[trigger] gate_ranges[i],
                        #[trigger] raw_gates@[i],
                    ) by {
                        if i < rg0.len() {
                            assert(gate_ranges[i] == gr0[i]);
                            assert(raw_gates@[i] == rg0[i]);
                        } else {
                            assert(gate_ranges[i] == (line_lo, line_hi));
                            assert(raw_gates@[i] == gate);
                        }
                    }
                }
            },
            Line::Gate2(code, q1, q2) => {
                let gate = if code == 99u8 {
                    CliffordGate::CX(q1, q2)
                } else if code == 122u8 {
                    CliffordGate::CZ(q1, q2)
                } else {
                    CliffordGate::Swap(q1, q2)
                };
                let ghost gr0 = gate_ranges;
                let ghost rg0 = raw_gates@;
                proof {
                    assert(gate == code2_gate(code, q1, q2));
                    assert(line@ == bytes@.subrange(line_lo, line_hi));
                    assert(spec_gate2(bytes@.subrange(line_lo, line_hi)) == Some(gate));
                    gate_ranges = gr0.push((line_lo, line_hi));
                }
                raw_gates.push(gate);
                proof {
                    assert(gate_witness_ok(bytes@, (line_lo, line_hi), gate));
                    assert forall|i: int|
                        0 <= i < raw_gates@.len() implies gate_witness_ok(
                        bytes@,
                        #[trigger] gate_ranges[i],
                        #[trigger] raw_gates@[i],
                    ) by {
                        if i < rg0.len() {
                            assert(gate_ranges[i] == gr0[i]);
                            assert(raw_gates@[i] == rg0[i]);
                        } else {
                            assert(gate_ranges[i] == (line_lo, line_hi));
                            assert(raw_gates@[i] == gate);
                        }
                    }
                }
            },
            Line::Malformed => {
                return Err("Unrecognized or malformed line.".to_owned());
            },
        }
    }
    let n = match n_qubits {
        Some(v) => v,
        None => {
            proof {
                if spec_register(bytes@) is Some {
                    if total == 0 {
                        assert(!spec_word_at(bytes@, spec_skip(bytes@, 0), spec_qreg()));
                    }
                }
            }
            return Err("qreg declaration not found in the circuit text.".to_owned());
        },
    };
    // Validate eagerly: every gate must fit the declared register.
    let mut circuit = CliffordCircuit::new(n);
    let mut g: usize = 0;
    while g < raw_gates.len()
        invariant
            g <= raw_gates@.len(),
            circuit.n_qubits == n,
            0 <= reg_lo <= reg_hi <= qasm.spec_bytes().len(),
            spec_register(qasm.spec_bytes().subrange(reg_lo, reg_hi)) == Some(n as int),
            circuit.gates@ == raw_gates@.take(g as int),
            spec_register(qasm.spec_bytes()) matches Some(v) ==> ((forall|i: int|
                0 <= i < qasm.spec_bytes().len() ==> qasm.spec_bytes()[i] != 10
                    && qasm.spec_bytes()[i] != 34) ==> raw_gates@.len() == 0),
            gate_ranges.len() == raw_gates@.len(),
            forall|i: int|
                0 <= i < raw_gates@.len() ==> gate_witness_ok(
                    qasm.spec_bytes(),
                    #[trigger] gate_ranges[i],
                    #[trigger] raw_gates@[i],
                ),
            forall|i: int|
                0 <= i < circuit.gates@.len() ==> clifford_gate_valid(
                    #[trigger] circuit.gates@[i],
                    n as nat,
                ),
        decreases raw_gates@.len() - g,
    {
        let step = circuit.add_gate(raw_gates[g]);
        if step.is_err() {
            return Err("A statement uses a qubit outside the declared register.".to_owned());
        }
        proof {
            assert(forall|i: int|
                0 <= i < circuit.gates@.len() - 1 ==> clifford_gate_valid(
                    #[trigger] circuit.gates@[i],
                    n as nat,
                ));
            assert(circuit.gates@ =~= raw_gates@.take(g + 1));
        }
        g = g + 1;
    }
    proof {
        if forall|i: int|
            0 <= i < qasm.spec_bytes().len() ==> qasm.spec_bytes()[i] != 10
                && qasm.spec_bytes()[i] != 34 {
            match spec_register(qasm.spec_bytes()) {
                Some(vv) => {
                    assert(n_qubits == Some(vv as usize) && (vv as usize) as int == vv
                        && raw_gates@.len() == 0);
                    assert(circuit.gates@ =~= raw_gates@);
                    assert(circuit.n_qubits as int == vv);
                },
                None => {},
            }
        }
        assert(spec_register(qasm.spec_bytes().subrange(reg_lo, reg_hi)) == Some(
            circuit.n_qubits as int,
        ));
        assert(circuit.gates@ =~= raw_gates@);
        assert forall|i: int| 0 <= i < circuit.gates@.len() implies exists|st: int, en: int|
            0 <= st <= en <= qasm.spec_bytes().len() && (spec_gate1(
                #[trigger] qasm.spec_bytes().subrange(st, en),
            ) == Some(#[trigger] circuit.gates@[i]) || spec_gate2(
                qasm.spec_bytes().subrange(st, en),
            ) == Some(circuit.gates@[i])) by {
            assert(gate_witness_ok(qasm.spec_bytes(), gate_ranges[i], raw_gates@[i]));
            let st = gate_ranges[i].0;
            let en = gate_ranges[i].1;
            assert(0 <= st <= en <= qasm.spec_bytes().len() && (spec_gate1(
                qasm.spec_bytes().subrange(st, en),
            ) == Some(circuit.gates@[i]) || spec_gate2(qasm.spec_bytes().subrange(st, en))
                == Some(circuit.gates@[i])));
        }
    }
    Ok(circuit)
}

} // verus!
