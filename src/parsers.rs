//! The run-length encoded pattern notation: decoding text into symbols, and
//! growing symbols into the coordinates of living cells.
use vstd::prelude::*;
use vstd::string::*;

verus! {

/// One atom of a pattern: a count and what it counts.
#[derive(Debug, Clone, Copy, PartialEq, Eq, Structural)]
pub enum RleSymbol {
    /// `$`: end of row, repeated.
    Dollar(u32),
    /// `b`: a run of dead cells.
    B(u32),
    /// `o`: a run of living cells.
    O(u32),
}

impl RleSymbol {
    pub open spec fn count(self) -> u32 {
        match self {
            RleSymbol::Dollar(n) => n,
            RleSymbol::B(n) => n,
            RleSymbol::O(n) => n,
        }
    }

    /// Whether the cursor stays within `u32` when this symbol is applied at
    /// `offset`.
    pub open spec fn fits(self, offset: (u32, u32)) -> bool {
        match self {
            RleSymbol::Dollar(n) => offset.1 + n <= u32::MAX,
            RleSymbol::B(n) => offset.0 + n <= u32::MAX,
            RleSymbol::O(n) => offset.0 + n <= u32::MAX,
        }
    }

    /// Where the cursor stands after this symbol.
    pub open spec fn next_offset(self, offset: (u32, u32)) -> (u32, u32) {
        match self {
            RleSymbol::Dollar(n) => (0, (offset.1 + n) as u32),
            RleSymbol::B(n) => ((offset.0 + n) as u32, offset.1),
            RleSymbol::O(n) => ((offset.0 + n) as u32, offset.1),
        }
    }

    /// The living cells this symbol emits at `offset`: for a run of `n` living
    /// cells, the `n` consecutive cells of the current row from the cursor on.
    pub open spec fn emitted(self, offset: (u32, u32)) -> Seq<(u32, u32)> {
        match self {
            RleSymbol::O(n) => Seq::new(n as nat, |k: int| ((offset.0 + k) as u32, offset.1)),
            _ => Seq::empty(),
        }
    }

    /// Applies this symbol at the cursor `offset`: moves the cursor and appends
    /// the living cells it describes to `alive_cells`.
    pub fn grow_pattern(&self, offset: &mut (u32, u32), alive_cells: &mut Vec<(u32, u32)>)
        requires
            self.fits(*old(offset)),
        ensures
            *final(offset) == self.next_offset(*old(offset)),
            final(alive_cells)@ == old(alive_cells)@ + self.emitted(*old(offset)),
    {
        match self {
            RleSymbol::B(i) => {
                offset.0 = offset.0 + *i;
            },
            RleSymbol::O(i) => {
                let ghost start = *offset;
                let ghost before = alive_cells@;
                let end: u32 = offset.0 + *i;
                while offset.0 < end
                    invariant
                        start.0 <= offset.0 <= end,
                        end == start.0 + *i,
                        offset.1 == start.1,
                        alive_cells@ == before + Seq::new(
                            (offset.0 - start.0) as nat,
                            |k: int| ((start.0 + k) as u32, start.1),
                        ),
                    decreases end - offset.0,
                {
                    alive_cells.push(*offset);
                    offset.0 = offset.0 + 1;
                    assert(alive_cells@ =~= before + Seq::new(
                        (offset.0 - start.0) as nat,
                        |k: int| ((start.0 + k) as u32, start.1),
                    ));
                }
                assert(self.emitted(start) =~= Seq::new(
                    (offset.0 - start.0) as nat,
                    |k: int| ((start.0 + k) as u32, start.1),
                ));
            },
            RleSymbol::Dollar(i) => {
                offset.0 = 0;
                offset.1 = offset.1 + *i;
            },
        }
    }
}


/// Why a pattern could not be decoded.
#[derive(Debug, Clone, Copy, PartialEq, Eq, Structural)]
pub enum MalformedReason {
    /// The input ended where a tag (`b`, `o` or `$`) was due.
    MissingTag,
    /// A character other than a digit or a tag stood where a tag was due.
    UnexpectedChar,
    /// A count does not fit in `u32`.
    CountTooLarge,
}

/// A pattern that does not follow the grammar `(digits? ('b' | 'o' | '$'))+`:
/// `position` is the index of the character where decoding stopped.
#[derive(Debug, Clone, Copy, PartialEq, Eq, Structural)]
pub struct MalformedPattern {
    pub position: usize,
    pub reason: MalformedReason,
}

pub open spec fn is_digit(c: char) -> bool {
    '0' <= c && c <= '9'
}

/// The number of decimal digits at the start of `s`.
pub open spec fn digit_run(s: Seq<char>) -> nat
    decreases s.len(),
{
    if s.len() == 0 || !is_digit(s[0]) {
        0
    } else {
        1 + digit_run(s.drop_first())
    }
}

/// The value of a string of decimal digits.
pub open spec fn digits_value(t: Seq<char>) -> nat
    decreases t.len(),
{
    if t.len() == 0 {
        0
    } else {
        digits_value(t.drop_last()) * 10 + (t.last() as nat - '0' as nat) as nat
    }
}

/// The symbol that the tag character `c` stands for, with count `n`.
pub open spec fn tagged(c: char, n: u32) -> Option<RleSymbol> {
    if c == '$' {
        Some(RleSymbol::Dollar(n))
    } else if c == 'b' {
        Some(RleSymbol::B(n))
    } else if c == 'o' {
        Some(RleSymbol::O(n))
    } else {
        None
    }
}

/// The first atom of `s`: the symbol and the number of characters it spans,
/// or where and why it is malformed. An absent count means 1.
pub open spec fn first_atom(s: Seq<char>) -> Result<(RleSymbol, nat), MalformedPattern> {
    let n = digit_run(s);
    let count: u32 = if n == 0 { 1 } else { digits_value(s.take(n as int)) as u32 };
    if digits_value(s.take(n as int)) > u32::MAX {
        Err(MalformedPattern { position: 0, reason: MalformedReason::CountTooLarge })
    } else if n >= s.len() {
        Err(MalformedPattern { position: n as usize, reason: MalformedReason::MissingTag })
    } else {
        match tagged(s[n as int], count) {
            Some(sym) => Ok((sym, n + 1)),
            None => Err(MalformedPattern { position: n as usize, reason: MalformedReason::UnexpectedChar }),
        }
    }
}

/// Moves the position of an error found `k` characters into the input.
pub open spec fn moved(e: MalformedPattern, k: nat) -> MalformedPattern {
    MalformedPattern { position: (e.position + k) as usize, reason: e.reason }
}

/// All atoms of `s`, which must be consumed whole; empty input gives none.
pub open spec fn atoms(s: Seq<char>) -> Result<Seq<RleSymbol>, MalformedPattern>
    decreases s.len(),
{
    if s.len() == 0 {
        Ok(Seq::empty())
    } else {
        match first_atom(s) {
            Ok((sym, n)) => if 0 < n <= s.len() {
                match atoms(s.skip(n as int)) {
                    Ok(rest) => Ok(seq![sym] + rest),
                    Err(e) => Err(moved(e, n)),
                }
            } else {
                Ok(Seq::empty())
            },
            Err(e) => Err(e),
        }
    }
}

/// A whole pattern: one atom or more, covering the input.
pub open spec fn pattern_atoms(s: Seq<char>) -> Result<Seq<RleSymbol>, MalformedPattern> {
    if s.len() == 0 {
        Err(MalformedPattern { position: 0, reason: MalformedReason::MissingTag })
    } else {
        atoms(s)
    }
}

proof fn lemma_digit_run_le(s: Seq<char>)
    ensures
        digit_run(s) <= s.len(),
        forall|k: int| 0 <= k < digit_run(s) ==> is_digit(#[trigger] s[k]),
    decreases s.len(),
{
    if s.len() > 0 && is_digit(s[0]) {
        lemma_digit_run_le(s.drop_first());
        assert forall|k: int| 0 <= k < digit_run(s) implies is_digit(#[trigger] s[k]) by {
            if k > 0 {
                assert(s[k] == s.drop_first()[k - 1]);
            }
        }
    }
}

proof fn lemma_digit_run_at_least(s: Seq<char>, i: nat)
    requires
        i <= s.len(),
        forall|k: int| 0 <= k < i ==> is_digit(#[trigger] s[k]),
    ensures
        digit_run(s) >= i,
    decreases i,
{
    if i > 0 {
        lemma_digit_run_at_least(s.drop_first(), (i - 1) as nat);
    }
}

proof fn lemma_digit_run(s: Seq<char>, i: nat)
    requires
        i <= s.len(),
        forall|k: int| 0 <= k < i ==> is_digit(#[trigger] s[k]),
        i == s.len() || !is_digit(s[i as int]),
    ensures
        digit_run(s) == i,
    decreases i,
{
    if i > 0 {
        lemma_digit_run(s.drop_first(), (i - 1) as nat);
    }
}

proof fn lemma_digits_value_grows(t: Seq<char>, i: nat, j: nat)
    requires
        i <= j <= t.len(),
        forall|k: int| 0 <= k < t.len() ==> is_digit(#[trigger] t[k]),
    ensures
        digits_value(t.take(i as int)) <= digits_value(t.take(j as int)),
    decreases j,
{
    if i < j {
        lemma_digits_value_grows(t, i, (j - 1) as nat);
        assert(t.take(j as int).drop_last() =~= t.take(j - 1));
    }
}

/// Decodes the first atom of `input`: its symbol, and the input after it.
pub fn parse_rle_symbol(input: &str) -> (r: Result<(&str, RleSymbol), MalformedPattern>)
    ensures
        r is Ok <==> first_atom(input@) is Ok,
        r is Ok ==> r->Ok_0.1 == first_atom(input@)->Ok_0.0
            && r->Ok_0.0@ == input@.skip(first_atom(input@)->Ok_0.1 as int),
        r is Err ==> r->Err_0 == first_atom(input@)->Err_0,
{
    let len = input.unicode_len();
    let ghost s = input@;
    let mut i: usize = 0;
    let mut acc: u32 = 0;
    while i < len && is_ascii_digit(input.get_char(i))
        invariant
            len == s.len(),
            s == input@,
            i <= len,
            forall|k: int| 0 <= k < i ==> is_digit(#[trigger] s[k]),
            acc as nat == digits_value(s.take(i as int)),
        decreases len - i,
    {
        let c = input.get_char(i);
        let v: u64 = acc as u64 * 10 + (c as u32 - '0' as u32) as u64;
        assert(s.take(i + 1).drop_last() =~= s.take(i as int));
        if v > u32::MAX as u64 {
            proof {
                let n = digit_run(s);
                lemma_digit_run_at_least(s, (i + 1) as nat);
                lemma_digit_run_le(s);
                assert(s.take(n as int).take(i + 1) =~= s.take(i + 1));
                lemma_digits_value_grows(s.take(n as int), (i + 1) as nat, n);
                assert(s.take(n as int).take(n as int) =~= s.take(n as int));
            }
            return Err(MalformedPattern { position: 0, reason: MalformedReason::CountTooLarge });
        }
        acc = v as u32;
        i = i + 1;
    }
    proof {
        lemma_digit_run(s, i as nat);
    }
    let count: u32 = if i == 0 { 1 } else { acc };
    if i >= len {
        return Err(MalformedPattern { position: i, reason: MalformedReason::MissingTag });
    }
    let c = input.get_char(i);
    let sym = if c == '$' {
        RleSymbol::Dollar(count)
    } else if c == 'b' {
        RleSymbol::B(count)
    } else if c == 'o' {
        RleSymbol::O(count)
    } else {
        return Err(MalformedPattern { position: i, reason: MalformedReason::UnexpectedChar });
    };
    let rest = input.substring_char(i + 1, len);
    assert(rest@ =~= s.skip(i + 1));
    Ok((rest, sym))
}

proof fn lemma_first_atom_len(s: Seq<char>)
    requires
        first_atom(s) is Ok,
    ensures
        0 < first_atom(s)->Ok_0.1 <= s.len(),
{
    lemma_digit_run_le(s);
}

proof fn lemma_atoms_error_position(s: Seq<char>)
    ensures
        atoms(s) is Err ==> atoms(s)->Err_0.position <= s.len(),
    decreases s.len(),
{
    lemma_digit_run_le(s);
    if s.len() > 0 && first_atom(s) is Ok {
        let n = first_atom(s)->Ok_0.1;
        lemma_atoms_error_position(s.skip(n as int));
    }
}

/// Decodes a whole pattern into its symbols. The input must be one atom or
/// more with nothing after them; on success the remainder is empty.
pub fn parse_rle_string(input: &str) -> (r: Result<(&str, Vec<RleSymbol>), MalformedPattern>)
    ensures
        r is Ok <==> pattern_atoms(input@) is Ok,
        r is Ok ==> r->Ok_0.1@ == pattern_atoms(input@)->Ok_0 && r->Ok_0.0@.len() == 0,
        r is Err ==> r->Err_0 == pattern_atoms(input@)->Err_0,
{
    let ghost s = input@;
    let mut symbols: Vec<RleSymbol> = Vec::new();
    let mut rest: &str = input;
    let mut pos: usize = 0;
    let len = input.unicode_len();
    if len == 0 {
        return Err(MalformedPattern { position: 0, reason: MalformedReason::MissingTag });
    }
    while rest.unicode_len() > 0
        invariant
            s == input@,
            len == s.len(),
            pos <= len,
            rest@ == s.skip(pos as int),
            atoms(s) == match atoms(rest@) {
                Ok(t) => Ok(symbols@ + t),
                Err(e) => Err(moved(e, pos as nat)),
            },
        decreases len - pos,
    {
        let ghost before = rest@;
        let rest_len = rest.unicode_len();
        match parse_rle_symbol(rest) {
            Ok((next, sym)) => {
                proof {
                    lemma_first_atom_len(before);
                    lemma_atoms_error_position(next@);
                    assert(next@ =~= before.skip(first_atom(before)->Ok_0.1 as int));
                    assert(symbols@.push(sym) + atoms(next@)->Ok_0
                        =~= symbols@ + (seq![sym] + atoms(next@)->Ok_0));
                }
                symbols.push(sym);
                let ghost n = first_atom(before)->Ok_0.1;
                let next_len = next.unicode_len();
                assert(next@ =~= s.skip(pos + n));
                pos = pos + (rest_len - next_len);
                rest = next;
            },
            Err(e) => {
                proof {
                    lemma_digit_run_le(before);
                }
                return Err(MalformedPattern { position: pos + e.position, reason: e.reason });
            },
        }
    }
    assert(symbols@ + Seq::<RleSymbol>::empty() =~= symbols@);
    Ok((rest, symbols))
}

fn is_ascii_digit(c: char) -> (r: bool)
    ensures
        r == is_digit(c),
{
    '0' <= c && c <= '9'
}

} // verus!
