//! Membership by nibble tables: four lookups per code, combined with AND. A
//! token bit that survives all of them matched the whole code. Eight tokens
//! per bank, and the banks are united.

use crate::bits::{bit, lemma_and, lemma_nonzero, lemma_or_zero, lemma_set, lemma_zero};
use crate::search::prefilter::cover::ProbeCover;
use crate::search::prefilter::scan::probe::Probe;
use crate::types::Token;
use vstd::prelude::*;

verus! {

/// The tokens of a bank.
pub const PER_BANK: usize = 8;

/// The `k`-th nibble of a code, lowest first.
pub open spec fn nibble(c: int, k: int) -> int {
    if k == 0 {
        c % 16
    } else if k == 1 {
        c / 16 % 16
    } else if k == 2 {
        c / 256 % 16
    } else {
        c / 4096 % 16
    }
}

fn nibble_at(c: Token, k: usize) -> (r: usize)
    requires
        k < 4,
    ensures
        r == nibble(c as int, k as int),
        r < 16,
{
    let n: u16 = if k == 0 {
        c % 16
    } else if k == 1 {
        c / 16 % 16
    } else if k == 2 {
        c / 256 % 16
    } else {
        c / 4096 % 16
    };
    n as usize
}

/// A code is the sum of its nibbles in their places.
proof fn lemma_split(a: int)
    requires
        0 <= a <= 0xFFFF,
    ensures
        a == nibble(a, 0) + 16 * nibble(a, 1) + 256 * nibble(a, 2) + 4096 * nibble(a, 3),
{
    let b = a / 16;
    let c = a / 256;
    let d = a / 4096;
    assert(a == a % 16 + 16 * b);
    assert(c == b / 16);
    assert(b == b % 16 + 16 * c);
    assert(d == c / 16);
    assert(c == c % 16 + 16 * d);
    assert(d < 16);
    assert(d % 16 == d);
}

/// Codes with the same nibbles are the same.
proof fn lemma_nibbles(a: int, b: int)
    requires
        0 <= a <= 0xFFFF,
        0 <= b <= 0xFFFF,
        nibble(a, 0) == nibble(b, 0),
        nibble(a, 1) == nibble(b, 1),
        nibble(a, 2) == nibble(b, 2),
        nibble(a, 3) == nibble(b, 3),
    ensures
        a == b,
{
    lemma_split(a);
    lemma_split(b);
}

/// One row of table words per nibble of a code: token `j` owns bit `j` of the
/// word that each of its nibbles indexes.
pub struct Bank {
    row0: Vec<u64>,
    row1: Vec<u64>,
    row2: Vec<u64>,
    row3: Vec<u64>,
    tokens: Ghost<Seq<Token>>,
}

spec fn row_ok(row: Seq<u64>, tokens: Seq<Token>, k: int) -> bool {
    &&& row.len() == 16
    &&& forall|x: int, j: int|
        0 <= x < 16 && 0 <= j < 64 ==> (#[trigger] bit(row[x], j) <==> j < tokens.len() && nibble(
            tokens[j] as int,
            k,
        ) == x)
}

/// The row of nibble `k`.
fn row_of(tokens: &[Token], k: usize) -> (row: Vec<u64>)
    requires
        tokens@.len() <= 64,
        k < 4,
    ensures
        row_ok(row@, tokens@, k as int),
{
    let mut row: Vec<u64> = vec![0u64; 16];
    let mut j: usize = 0;
    proof {
        assert forall|x: int, i: int| 0 <= x < 16 && 0 <= i < 64 implies !#[trigger] bit(
            row@[x],
            i,
        ) by {
            lemma_zero(i);
        }
    }
    while j < tokens.len()
        invariant
            j <= tokens@.len() <= 64,
            k < 4,
            row@.len() == 16,
            forall|x: int, i: int|
                0 <= x < 16 && 0 <= i < 64 ==> (#[trigger] bit(row@[x], i) <==> i < j && nibble(
                    tokens@[i] as int,
                    k as int,
                ) == x),
        decreases tokens@.len() - j,
    {
        let at: usize = nibble_at(tokens[j], k);
        let word: u64 = row[at];
        let ghost before = row@;
        row.set(at, word | (1u64 << (j as u64)));
        proof {
            assert forall|x: int, i: int| 0 <= x < 16 && 0 <= i < 64 implies (#[trigger] bit(
                row@[x],
                i,
            ) <==> i < j + 1 && nibble(tokens@[i] as int, k as int) == x) by {
                assert(bit(before[x], i) <==> i < j && nibble(tokens@[i] as int, k as int) == x);
                if x == at {
                    lemma_set(word, j as int, i);
                }
            }
        }
        j = j + 1;
    }
    row
}

impl Bank {
    /// The tokens that the bank stands for.
    pub closed spec fn tokens(&self) -> Seq<Token> {
        self.tokens@
    }

    /// The rows are those of its tokens.
    pub closed spec fn wf(&self) -> bool {
        &&& self.tokens@.len() <= 64
        &&& row_ok(self.row0@, self.tokens@, 0)
        &&& row_ok(self.row1@, self.tokens@, 1)
        &&& row_ok(self.row2@, self.tokens@, 2)
        &&& row_ok(self.row3@, self.tokens@, 3)
    }

    pub fn new(tokens: &[Token]) -> (r: Bank)
        requires
            tokens@.len() <= 64,
        ensures
            r.wf(),
            r.tokens() == tokens@,
    {
        Bank {
            row0: row_of(tokens, 0),
            row1: row_of(tokens, 1),
            row2: row_of(tokens, 2),
            row3: row_of(tokens, 3),
            tokens: Ghost(tokens@),
        }
    }

    /// The bits of the tokens that equal `code`. With `three` the highest
    /// nibble is left out: every token and code is below 4096 then.
    pub fn lookup(&self, code: Token, three: bool) -> (r: u64)
        requires
            self.wf(),
            three ==> code < 4096 && forall|j: int|
                0 <= j < self.tokens().len() ==> #[trigger] self.tokens()[j] < 4096,
        ensures
            r != 0 <==> self.tokens().contains(code),
    {
        let n0: usize = nibble_at(code, 0);
        let n1: usize = nibble_at(code, 1);
        let n2: usize = nibble_at(code, 2);
        let n3: usize = nibble_at(code, 3);
        let a: u64 = self.row0[n0] & self.row1[n1];
        let b: u64 = a & self.row2[n2];
        let r: u64 = if three {
            b
        } else {
            b & self.row3[n3]
        };
        proof {
            let ts = self.tokens@;
            assert forall|j: int| 0 <= j < 64 implies (#[trigger] bit(r, j) <==> j < ts.len()
                && ts[j] == code) by {
                lemma_and(self.row0@[n0 as int], self.row1@[n1 as int], j);
                lemma_and(a, self.row2@[n2 as int], j);
                lemma_and(b, self.row3@[n3 as int], j);
                assert(bit(self.row0@[n0 as int], j) <==> j < ts.len() && nibble(ts[j] as int, 0)
                    == n0);
                assert(bit(self.row1@[n1 as int], j) <==> j < ts.len() && nibble(ts[j] as int, 1)
                    == n1);
                assert(bit(self.row2@[n2 as int], j) <==> j < ts.len() && nibble(ts[j] as int, 2)
                    == n2);
                assert(bit(self.row3@[n3 as int], j) <==> j < ts.len() && nibble(ts[j] as int, 3)
                    == n3);
                if j < ts.len() {
                    if three {
                        assert(self.tokens()[j] < 4096);
                    }
                    if nibble(ts[j] as int, 0) == n0 && nibble(ts[j] as int, 1) == n1 && nibble(
                        ts[j] as int,
                        2,
                    ) == n2 && nibble(ts[j] as int, 3) == n3 {
                        lemma_nibbles(ts[j] as int, code as int);
                    }
                }
            }
            lemma_nonzero(r);
            if ts.contains(code) {
                let j = choose|j: int| 0 <= j < ts.len() && ts[j] == code;
                assert(bit(r, j));
            }
        }
        r
    }
}

/// Nibble tables for the points of a cover.
pub struct NibblePoints {
    banks: Vec<Bank>,
    three: bool,
}

impl NibblePoints {
    /// Prepares the banks of a list of points. With `three` the codes that are
    /// tested, and the points, are below 4096.
    pub fn new(points: &[Token], three: bool) -> (r: NibblePoints)
        requires
            three ==> forall|i: int| 0 <= i < points@.len() ==> #[trigger] points@[i] < 4096,
        ensures
            r.ready(),
            forall|c: int|
                0 <= c <= 0xFFFF ==> (#[trigger] r.matches(c) <==> points@.contains(c as Token)),
            forall|c: int| 0 <= c <= 0xFFFF && (three ==> c < 4096) ==> #[trigger] r.takes(c),
    {
        let ghost ps = points@;
        let n: usize = points.len();
        let mut banks: Vec<Bank> = Vec::new();
        let mut from: usize = 0;
        while from < n
            invariant
                ps == points@,
                n == ps.len(),
                from <= n,
                three ==> forall|i: int| 0 <= i < ps.len() ==> #[trigger] ps[i] < 4096,
                forall|k: int|
                    0 <= k < banks@.len() ==> (#[trigger] banks@[k]).wf() && (three ==> forall|i: int|
                        0 <= i < banks@[k].tokens().len() ==> #[trigger] banks@[k].tokens()[i]
                            < 4096),
                forall|c: Token|
                    (exists|k: int| 0 <= k < banks@.len() && #[trigger] in_bank(banks@[k], c)) <==> #[trigger]
                    ps.take(from as int).contains(c),
            decreases n - from,
        {
            let to: usize = if n - from > PER_BANK {
                from + PER_BANK
            } else {
                n
            };
            let part = &points[from..to];
            let ghost before = banks@;
            let bank = Bank::new(part);
            banks.push(bank);
            proof {
                let now = banks@;
                assert(part@ =~= ps.subrange(from as int, to as int));
                assert(ps.take(to as int) =~= ps.take(from as int) + part@);
                assert forall|c: Token|
                    (exists|k: int| 0 <= k < now.len() && #[trigger] in_bank(now[k], c))
                        <==> #[trigger] ps.take(to as int).contains(c) by {
                    lemma_concat_contains(ps.take(from as int), part@, c);
                    if exists|k: int| 0 <= k < before.len() && #[trigger] in_bank(before[k], c) {
                        let k = choose|k: int|
                            0 <= k < before.len() && #[trigger] in_bank(before[k], c);
                        assert(in_bank(now[k], c));
                    }
                    if part@.contains(c) {
                        assert(in_bank(now[before.len() as int], c));
                    }
                    if exists|k: int| 0 <= k < now.len() && #[trigger] in_bank(now[k], c) {
                        let k = choose|k: int| 0 <= k < now.len() && #[trigger] in_bank(now[k], c);
                        if k < before.len() {
                            assert(in_bank(before[k], c));
                            assert(ps.take(from as int).contains(c));
                        }
                    }
                }
                assert forall|i: int| three && 0 <= i < part@.len() implies #[trigger] part@[i]
                    < 4096 by {
                    assert(part@[i] == ps[from + i]);
                }
            }
            from = to;
        }
        assert(ps.take(n as int) =~= ps);
        let ghost bs = banks@;
        let r = NibblePoints { banks, three };
        proof {
            assert(r.banks@ == bs);
            assert forall|c: int| 0 <= c <= 0xFFFF implies (#[trigger] r.matches(c)
                <==> ps.contains(c as Token)) by {
                let t = c as Token;
                assert((exists|k: int| 0 <= k < bs.len() && #[trigger] in_bank(bs[k], t))
                    <==> ps.take(n as int).contains(t));
            }
        }
        r
    }
}

/// The bank holds the code.
spec fn in_bank(bank: Bank, c: Token) -> bool {
    bank.tokens().contains(c)
}

proof fn lemma_concat_contains(a: Seq<Token>, b: Seq<Token>, c: Token)
    ensures
        (a + b).contains(c) <==> a.contains(c) || b.contains(c),
{
    let s = a + b;
    if a.contains(c) {
        let i = choose|i: int| 0 <= i < a.len() && a[i] == c;
        assert(s[i] == c);
    }
    if b.contains(c) {
        let i = choose|i: int| 0 <= i < b.len() && b[i] == c;
        assert(s[a.len() + i] == c);
    }
    if s.contains(c) {
        let i = choose|i: int| 0 <= i < s.len() && s[i] == c;
        if i < a.len() {
            assert(a[i] == c);
        } else {
            assert(b[i - a.len()] == c);
        }
    }
}

impl Probe for NibblePoints {
    closed spec fn ready(&self) -> bool {
        forall|k: int|
            0 <= k < self.banks@.len() ==> (#[trigger] self.banks@[k]).wf() && (self.three ==> forall|
                i: int,
            |
                0 <= i < self.banks@[k].tokens().len() ==> #[trigger] self.banks@[k].tokens()[i]
                    < 4096)
    }

    closed spec fn takes(&self, c: int) -> bool {
        self.three ==> c < 4096
    }

    closed spec fn matches(&self, c: int) -> bool {
        exists|k: int| 0 <= k < self.banks@.len() && #[trigger] in_bank(self.banks@[k], c as Token)
    }

    fn test(&self, code: Token) -> (r: bool) {
        let mut hit: bool = false;
        let mut k: usize = 0;
        while k < self.banks.len()
            invariant
                self.ready(),
                self.takes(code as int),
                k <= self.banks@.len(),
                hit == exists|j: int| 0 <= j < k && #[trigger] in_bank(self.banks@[j], code),
            decreases self.banks@.len() - k,
        {
            assert(self.banks@[k as int].wf());
            let found: bool = self.banks[k].lookup(code, self.three) != 0;
            proof {
                if found {
                    assert(in_bank(self.banks@[k as int], code));
                }
            }
            hit = hit || found;
            k = k + 1;
        }
        assert((code as int) as Token == code);
        hit
    }
}

/// One bank, for up to eight points: `NIBBLES` of each code are looked up.
pub struct OneBank<const NIBBLES: usize> {
    bank: Bank,
}

impl<const NIBBLES: usize> OneBank<NIBBLES> {
    pub fn new(points: &[Token]) -> (r: OneBank<NIBBLES>)
        requires
            points@.len() <= PER_BANK,
            NIBBLES == 3 ==> forall|i: int| 0 <= i < points@.len() ==> #[trigger] points@[i] < 4096,
        ensures
            r.ready(),
            forall|c: int|
                0 <= c <= 0xFFFF ==> (#[trigger] r.matches(c) <==> points@.contains(c as Token)),
            forall|c: int|
                0 <= c <= 0xFFFF && (NIBBLES == 3 ==> c < 4096) ==> #[trigger] r.takes(c),
    {
        OneBank { bank: Bank::new(points) }
    }
}

impl<const NIBBLES: usize> Probe for OneBank<NIBBLES> {
    closed spec fn ready(&self) -> bool {
        self.bank.wf() && (NIBBLES == 3 ==> forall|i: int|
            0 <= i < self.bank.tokens().len() ==> #[trigger] self.bank.tokens()[i] < 4096)
    }

    closed spec fn takes(&self, c: int) -> bool {
        NIBBLES == 3 ==> c < 4096
    }

    closed spec fn matches(&self, c: int) -> bool {
        self.bank.tokens().contains(c as Token)
    }

    fn test(&self, code: Token) -> (r: bool) {
        assert((code as int) as Token == code);
        self.bank.lookup(code, NIBBLES == 3) != 0
    }
}

/// Two independent banks, for up to sixteen points, whose per-lane results are
/// united.
pub struct TwoBanks<const NIBBLES: usize> {
    bank0: Bank,
    bank1: Bank,
}

impl<const NIBBLES: usize> TwoBanks<NIBBLES> {
    pub fn new(points: &[Token]) -> (r: TwoBanks<NIBBLES>)
        requires
            PER_BANK <= points@.len() <= 2 * PER_BANK,
            NIBBLES == 3 ==> forall|i: int| 0 <= i < points@.len() ==> #[trigger] points@[i] < 4096,
        ensures
            r.ready(),
            forall|c: int|
                0 <= c <= 0xFFFF ==> (#[trigger] r.matches(c) <==> points@.contains(c as Token)),
            forall|c: int|
                0 <= c <= 0xFFFF && (NIBBLES == 3 ==> c < 4096) ==> #[trigger] r.takes(c),
    {
        let low = &points[0..PER_BANK];
        let high = &points[PER_BANK..points.len()];
        let r = TwoBanks { bank0: Bank::new(low), bank1: Bank::new(high) };
        proof {
            let ps = points@;
            assert(ps =~= low@ + high@);
            assert forall|c: int| 0 <= c <= 0xFFFF implies (#[trigger] r.matches(c) <==> ps.contains(
                c as Token,
            )) by {
                lemma_concat_contains(low@, high@, c as Token);
            }
            assert forall|i: int| NIBBLES == 3 && 0 <= i < low@.len() implies #[trigger] low@[i]
                < 4096 by {
                assert(low@[i] == ps[i]);
            }
            assert forall|i: int| NIBBLES == 3 && 0 <= i < high@.len() implies #[trigger] high@[i]
                < 4096 by {
                assert(high@[i] == ps[PER_BANK + i]);
            }
        }
        r
    }
}

impl<const NIBBLES: usize> Probe for TwoBanks<NIBBLES> {
    closed spec fn ready(&self) -> bool {
        &&& self.bank0.wf()
        &&& self.bank1.wf()
        &&& NIBBLES == 3 ==> forall|i: int|
            0 <= i < self.bank0.tokens().len() ==> #[trigger] self.bank0.tokens()[i] < 4096
        &&& NIBBLES == 3 ==> forall|i: int|
            0 <= i < self.bank1.tokens().len() ==> #[trigger] self.bank1.tokens()[i] < 4096
    }

    closed spec fn takes(&self, c: int) -> bool {
        NIBBLES == 3 ==> c < 4096
    }

    closed spec fn matches(&self, c: int) -> bool {
        self.bank0.tokens().contains(c as Token) || self.bank1.tokens().contains(c as Token)
    }

    fn test(&self, code: Token) -> (r: bool) {
        let hits0: u64 = self.bank0.lookup(code, NIBBLES == 3);
        let hits1: u64 = self.bank1.lookup(code, NIBBLES == 3);
        proof {
            assert((code as int) as Token == code);
            lemma_or_zero(hits0, hits1);
        }
        (hits0 | hits1) != 0
    }
}

/// A cover without ranges holds its points.
pub proof fn lemma_points_only(cover: &ProbeCover, c: int)
    requires
        cover.range_list().len() == 0,
        0 <= c <= 0xFFFF,
    ensures
        cover.has(c) <==> cover.point_list().contains(c as Token),
{
    let ps = cover.point_list();
    if cover.has(c) {
        let i = choose|i: int| 0 <= i < ps.len() && #[trigger] ps[i] == c;
        assert(ps[i] == c as Token);
    }
    if ps.contains(c as Token) {
        let i = choose|i: int| 0 <= i < ps.len() && ps[i] == c as Token;
        assert(ps[i] == c);
    }
}

} // verus!
