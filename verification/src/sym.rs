//! Symbols and the counters that mint them.
//!
//! A symbol names one version of one logical node. It is the pair of the
//! node's schema type (an index into the engine's table of types) and a serial
//! number drawn from that type's counter. Towards the reasoning engine a
//! symbol is written as the lower-case type name followed by the serial number
//! in decimal.

use vstd::prelude::*;
use vstd::string::StringExecFns;

verus! {

/// Identifier of one version of one node.
#[derive(Clone, Copy, Debug, PartialEq, Eq, Structural, Hash)]
pub struct Sym {
    /// Index of the schema type the node belongs to.
    pub ty: u32,
    /// Value the type's counter held when the symbol was minted.
    pub serial: u32,
}

impl Sym {
    pub fn new(ty: u32, serial: u32) -> (s: Sym)
        ensures
            s == (Sym { ty, serial }),
    {
        Sym { ty, serial }
    }

    /// The pair under which the symbol is stored in hashed collections.
    pub open spec fn key(self) -> (u32, u32) {
        (self.ty, self.serial)
    }

    pub fn as_key(&self) -> (k: (u32, u32))
        ensures
            k == self.key(),
    {
        (self.ty, self.serial)
    }

    pub fn from_key(k: (u32, u32)) -> (s: Sym)
        ensures
            s.key() == k,
            s == sym_of_key(k),
    {
        Sym { ty: k.0, serial: k.1 }
    }
}

/// The symbol stored under a key.
pub open spec fn sym_of_key(k: (u32, u32)) -> Sym {
    Sym { ty: k.0, serial: k.1 }
}

/// The character that stands for a decimal digit.
pub open spec fn digit_char(d: int) -> char {
    if d == 0 {
        '0'
    } else if d == 1 {
        '1'
    } else if d == 2 {
        '2'
    } else if d == 3 {
        '3'
    } else if d == 4 {
        '4'
    } else if d == 5 {
        '5'
    } else if d == 6 {
        '6'
    } else if d == 7 {
        '7'
    } else if d == 8 {
        '8'
    } else {
        '9'
    }
}

/// Decimal notation of a natural number, most significant digit first,
/// without leading zeros.
pub open spec fn decimal(n: nat) -> Seq<char>
    decreases n,
{
    if n < 10 {
        seq![digit_char(n as int)]
    } else {
        decimal(n / 10).push(digit_char((n % 10) as int))
    }
}

/// Text of a symbol: the lower-case type name, then the serial number.
pub open spec fn sym_text(name_lower: Seq<char>, serial: u32) -> Seq<char> {
    name_lower + decimal(serial as nat)
}

fn digit_str(d: u32) -> (s: &'static str)
    requires
        d < 10,
    ensures
        s@ == seq![digit_char(d as int)],
{
    proof {
        reveal_strlit("0");
        reveal_strlit("1");
        reveal_strlit("2");
        reveal_strlit("3");
        reveal_strlit("4");
        reveal_strlit("5");
        reveal_strlit("6");
        reveal_strlit("7");
        reveal_strlit("8");
        reveal_strlit("9");
    }
    let s: &'static str = match d {
        0 => "0",
        1 => "1",
        2 => "2",
        3 => "3",
        4 => "4",
        5 => "5",
        6 => "6",
        7 => "7",
        8 => "8",
        _ => "9",
    };
    assert(s@ =~= seq![digit_char(d as int)]);
    s
}

/// Writes a number in decimal.
pub fn decimal_string(n: u32) -> (s: String)
    ensures
        s@ == decimal(n as nat),
    decreases n,
{
    if n < 10 {
        String::from_str(digit_str(n))
    } else {
        let mut s = decimal_string(n / 10);
        s.append(digit_str(n % 10));
        assert(s@ =~= decimal((n / 10) as nat).push(digit_char((n % 10) as int)));
        s
    }
}

/// Writes a symbol as the reasoning engine reads it.
pub fn sym_string(name_lower: &str, serial: u32) -> (s: String)
    ensures
        s@ == sym_text(name_lower@, serial),
{
    let mut s = String::from_str(name_lower);
    let digits = decimal_string(serial);
    s.append(digits.as_str());
    s
}

/// The value a counter holds after `calls` calls of `inc`, begun at `start`:
/// one more with each call, and zero again after the end of the range.
pub open spec fn counted(start: u32, calls: nat) -> u32
    decreases calls,
{
    if calls == 0 {
        start
    } else {
        let before = counted(start, (calls - 1) as nat);
        if before == u32::MAX {
            0u32
        } else {
            (before + 1) as u32
        }
    }
}

/// Counting on from where a count has come is counting on from its start.
pub proof fn lemma_counted_adds(start: u32, first: nat, then: nat)
    ensures
        counted(counted(start, first), then) == counted(start, first + then),
    decreases then,
{
    if then > 0 {
        lemma_counted_adds(start, first, (then - 1) as nat);
    }
}

/// As long as a counter has not come to the end of its range, the call
/// number `i` returns `start + i`: every call returns more than every
/// earlier call, and no two calls return the same.
pub proof fn law_counter_grows(start: u32, i: nat, j: nat)
    requires
        i < j,
        start + j <= u32::MAX,
    ensures
        counted(start, i) == start + i,
        counted(start, j) == start + j,
        counted(start, i) < counted(start, j),
    decreases j,
{
    lemma_counted_below_end(start, i);
    lemma_counted_below_end(start, j);
}

/// Below the end of the range a count is the start plus the calls.
pub proof fn lemma_counted_below_end(start: u32, calls: nat)
    requires
        start + calls <= u32::MAX,
    ensures
        counted(start, calls) == start + calls,
    decreases calls,
{
    if calls > 0 {
        lemma_counted_below_end(start, (calls - 1) as nat);
    }
}

/// The symbols that a counter mints before it comes to the end of its
/// range are all different: a later call never returns the symbol of an
/// earlier call.
pub proof fn law_minted_symbols_differ(ty: u32, start: u32, i: nat, j: nat)
    requires
        i < j,
        start + j <= u32::MAX,
    ensures
        (Sym { ty, serial: counted(start, i) }) != (Sym { ty, serial: counted(start, j) }),
        counted(start, i) < counted(start, j),
{
    law_counter_grows(start, i, j);
}

/// Counts the nodes of one schema type: the source of that type's serial
/// numbers.
pub struct TyCounter {
    counter: u32,
}

impl View for TyCounter {
    type V = u32;

    closed spec fn view(&self) -> u32 {
        self.counter
    }
}

impl TyCounter {
    pub fn new() -> (c: TyCounter)
        ensures
            c@ == 0,
    {
        TyCounter { counter: 0 }
    }

    /// The value the next call of `inc` will return.
    pub fn get_counter(&self) -> (n: u32)
        ensures
            n == self@,
    {
        self.counter
    }

    /// Returns the counter and advances it by one, wrapping at the end of
    /// the range.
    pub fn inc(&mut self) -> (n: u32)
        ensures
            n == old(self)@,
            final(self)@ == (if old(self)@ == u32::MAX {
                0u32
            } else {
                (old(self)@ + 1) as u32
            }),
            final(self)@ == counted(old(self)@, 1),
    {
        proof {
            reveal_with_fuel(counted, 2);
        }
        let n: u32 = self.counter;
        self.counter = n.wrapping_add(1);
        n
    }

    /// Mints the next symbol of schema type `ty`.
    pub fn next_sym(&mut self, ty: u32) -> (s: Sym)
        ensures
            s == (Sym { ty, serial: old(self)@ }),
            final(self)@ == (if old(self)@ == u32::MAX {
                0u32
            } else {
                (old(self)@ + 1) as u32
            }),
            final(self)@ == counted(old(self)@, 1),
    {
        let serial: u32 = self.inc();
        Sym { ty, serial }
    }
}

} // verus!
