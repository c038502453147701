//! Grammar symbols, chains of symbols, and the order in which alternatives
//! are chosen.

use rand::Rng;
use vstd::prelude::*;

verus! {

/// A terminal or non-terminal symbol, with an arbitrary label.
#[derive(Clone, Debug)]
pub struct Symbol {
    pub terminal: bool,
    pub start: bool,
    pub label: String,
}

/// What a `Symbol` stands for: its two flags and the characters of its label.
pub struct SymbolView {
    pub terminal: bool,
    pub start: bool,
    pub label: Seq<char>,
}

impl View for Symbol {
    type V = SymbolView;

    open spec fn view(&self) -> SymbolView {
        SymbolView { terminal: self.terminal, start: self.start, label: self.label@ }
    }
}

impl Symbol {
    pub fn is_terminal(&self) -> (r: bool)
        ensures
            r == self.terminal,
    {
        self.terminal
    }

    /// A copy of this symbol, with the same flags and label.
    pub fn copy(&self) -> (r: Symbol)
        ensures
            r@ == self@,
    {
        Symbol { terminal: self.terminal, start: self.start, label: self.label.clone() }
    }
}

/// The views of a sequence of symbols.
pub open spec fn symbol_views(v: Seq<Symbol>) -> Seq<SymbolView> {
    v.map_values(|s: Symbol| s@)
}

/// An ordered string of terminals and non-terminals: one alternative of a rule.
#[derive(Clone, Debug)]
pub struct SymbolChain {
    pub symbols: Vec<Symbol>,
}

impl View for SymbolChain {
    type V = Seq<SymbolView>;

    open spec fn view(&self) -> Seq<SymbolView> {
        symbol_views(self.symbols@)
    }
}

impl SymbolChain {
    pub fn new(s: Vec<Symbol>) -> (r: SymbolChain)
        ensures
            r.symbols@ == s@,
            r@ == symbol_views(s@),
    {
        SymbolChain { symbols: s }
    }

    /// A copy of this chain, symbol for symbol.
    pub fn copy(&self) -> (r: SymbolChain)
        ensures
            r@ == self@,
    {
        let mut symbols: Vec<Symbol> = Vec::new();
        let mut i: usize = 0;
        while i < self.symbols.len()
            invariant
                i <= self.symbols@.len(),
                symbol_views(symbols@) == symbol_views(self.symbols@.take(i as int)),
            decreases self.symbols@.len() - i,
        {
            let ghost before = symbols@;
            symbols.push(self.symbols[i].copy());
            assert(symbol_views(symbols@) =~= symbol_views(before).push(self.symbols@[i as int]@));
            assert(self.symbols@.take(i + 1) =~= self.symbols@.take(i as int).push(
                self.symbols@[i as int],
            ));
            i = i + 1;
        }
        assert(self.symbols@.take(i as int) =~= self.symbols@);
        SymbolChain { symbols }
    }
}

/// How alternatives are chosen: by a counter that is consumed digit by digit
/// (mixed radix over the numbers of alternatives met on the way down), or
/// uniformly at random.
#[allow(non_camel_case_types)]
#[derive(Copy, Clone, Debug, PartialEq, Eq, Structural)]
pub enum Order {
    ASCENDING { count: usize },
    RANDOM,
}

pub fn ascending_order() -> (r: Order)
    ensures
        r == (Order::ASCENDING { count: 0 }),
{
    Order::ASCENDING { count: 0 }
}

pub fn random_order() -> (r: Order)
    ensures
        r == Order::RANDOM,
{
    Order::RANDOM
}

/// The order handed down to the symbols of an alternative chosen among `n`:
/// an ascending counter is divided by `n`; random order stays as it is.
pub open spec fn descend(order: Order, n: nat) -> Order {
    match order {
        Order::ASCENDING { count } => Order::ASCENDING { count: (count as nat / n) as usize },
        Order::RANDOM => Order::RANDOM,
    }
}

/// The order for the next top-level candidate: an ascending counter moves on
/// by one (wrapping at the top of `usize`); random order stays as it is.
pub open spec fn advance(order: Order) -> Order {
    match order {
        Order::ASCENDING { count } => Order::ASCENDING {
            count: if count < usize::MAX {
                (count + 1) as usize
            } else {
                0
            },
        },
        Order::RANDOM => Order::RANDOM,
    }
}

/// Relies on rand's `thread_rng` and `Rng::gen_range(low, high)`, which returns
/// a value in `[low, high)` and panics if `low >= high`.
#[verifier::external_body]
fn random_index(n: usize) -> (r: usize)
    requires
        n > 0,
    ensures
        r < n,
{
    rand::thread_rng().gen_range(0, n)
}

/// The index of the alternative chosen among `n`: the counter modulo `n` in
/// ascending order, a uniformly drawn index in random order.
pub fn init_idx(order: Order, n: usize) -> (r: usize)
    requires
        n > 0,
    ensures
        r < n,
        order matches Order::ASCENDING { count } ==> r == count % n,
{
    match order {
        Order::ASCENDING { count } => count % n,
        Order::RANDOM => random_index(n),
    }
}

pub fn new_order(order: Order, n: usize) -> (r: Order)
    requires
        n > 0,
    ensures
        r == descend(order, n as nat),
{
    match order {
        Order::ASCENDING { count } => Order::ASCENDING { count: count / n },
        Order::RANDOM => order,
    }
}

/// The order for the next top-level candidate.
pub fn next_order(order: Order) -> (r: Order)
    ensures
        r == advance(order),
{
    match order {
        Order::ASCENDING { count } => Order::ASCENDING { count: count.wrapping_add(1) },
        Order::RANDOM => order,
    }
}

} // verus!
