//! The symbol table: names of labels, variables and predefined locations,
//! each bound to an address.
use vstd::prelude::*;

use crate::text::same_text;

verus! {

/// The names bound before any program is read, with their addresses.
pub open spec fn predefined() -> Map<Seq<char>, u32> {
    Map::empty()
        .insert("R0"@, 0)
        .insert("R1"@, 1)
        .insert("R2"@, 2)
        .insert("R3"@, 3)
        .insert("R4"@, 4)
        .insert("R5"@, 5)
        .insert("R6"@, 6)
        .insert("R7"@, 7)
        .insert("R8"@, 8)
        .insert("R9"@, 9)
        .insert("R10"@, 10)
        .insert("R11"@, 11)
        .insert("R12"@, 12)
        .insert("R13"@, 13)
        .insert("R14"@, 14)
        .insert("R15"@, 15)
        .insert("SP"@, 0)
        .insert("LCL"@, 1)
        .insert("ARG"@, 2)
        .insert("THIS"@, 3)
        .insert("THAT"@, 4)
        .insert("SCREEN"@, 16384)
        .insert("KBD"@, 24576)
}

/// The first address given to a variable.
pub const FIRST_VARIABLE: u32 = 16;

/// Names bound to addresses; each name appears once in `table`.
///
/// The bindings live in a vector searched by name rather than a `HashMap`:
/// vstd specifies `HashMap` lookups only for key types with a key model
/// (integers and `bool`), and `String` has none, so a map keyed by name
/// would prove nothing about what a lookup returns.
pub struct SymbolTable {
    table: Vec<(String, u32)>,
    current_address: u32,
    bindings: Ghost<Map<Seq<char>, u32>>,
}

impl View for SymbolTable {
    type V = Map<Seq<char>, u32>;

    closed spec fn view(&self) -> Map<Seq<char>, u32> {
        self.bindings@
    }
}

impl SymbolTable {
    /// The address that the next variable will get.
    pub closed spec fn next_address(&self) -> nat {
        self.current_address as nat
    }

    /// The entries hold each name once and agree with the view.
    pub closed spec fn wf(&self) -> bool {
        &&& forall|i: int, j: int|
            0 <= i < j < self.table@.len() ==> self.table@[i].0@ != self.table@[j].0@
        &&& forall|i: int|
            0 <= i < self.table@.len() ==> self.bindings@.contains_key(#[trigger] self.table@[i].0@)
                && self.bindings@[self.table@[i].0@] == self.table@[i].1
        &&& forall|k: Seq<char>|
            #[trigger] self.bindings@.contains_key(k) ==> exists|i: int|
                0 <= i < self.table@.len() && self.table@[i].0@ == k
    }

    /// A table that holds the predefined names, with variables starting at 16.
    pub fn new() -> (r: SymbolTable)
        ensures
            r.wf(),
            r@ == predefined(),
            r.next_address() == FIRST_VARIABLE,
    {
        let mut t = SymbolTable {
            table: Vec::new(),
            current_address: FIRST_VARIABLE,
            bindings: Ghost(Map::empty()),
        };
        t.add_label(String::from_str("R0"), 0);
        t.add_label(String::from_str("R1"), 1);
        t.add_label(String::from_str("R2"), 2);
        t.add_label(String::from_str("R3"), 3);
        t.add_label(String::from_str("R4"), 4);
        t.add_label(String::from_str("R5"), 5);
        t.add_label(String::from_str("R6"), 6);
        t.add_label(String::from_str("R7"), 7);
        t.add_label(String::from_str("R8"), 8);
        t.add_label(String::from_str("R9"), 9);
        t.add_label(String::from_str("R10"), 10);
        t.add_label(String::from_str("R11"), 11);
        t.add_label(String::from_str("R12"), 12);
        t.add_label(String::from_str("R13"), 13);
        t.add_label(String::from_str("R14"), 14);
        t.add_label(String::from_str("R15"), 15);
        t.add_label(String::from_str("SP"), 0);
        t.add_label(String::from_str("LCL"), 1);
        t.add_label(String::from_str("ARG"), 2);
        t.add_label(String::from_str("THIS"), 3);
        t.add_label(String::from_str("THAT"), 4);
        t.add_label(String::from_str("SCREEN"), 16384);
        t.add_label(String::from_str("KBD"), 24576);
        t
    }

    /// Where `symbol` stands in the entries, if it does.
    fn position(&self, symbol: &str) -> (r: Option<usize>)
        requires
            self.wf(),
        ensures
            match r {
                Some(i) => i < self.table@.len() && self.table@[i as int].0@ == symbol@,
                None => !self@.contains_key(symbol@),
            },
    {
        let mut i: usize = 0;
        while i < self.table.len()
            invariant
                self.wf(),
                i <= self.table@.len(),
                forall|j: int| 0 <= j < i ==> self.table@[j].0@ != symbol@,
            decreases self.table@.len() - i,
        {
            if same_text(self.table[i].0.as_str(), symbol) {
                return Some(i);
            }
            i = i + 1;
        }
        None
    }

    /// Binds `symbol` to `address`, replacing any earlier binding of it.
    pub fn add_label(&mut self, symbol: String, address: u32)
        requires
            old(self).wf(),
        ensures
            final(self).wf(),
            final(self)@ == old(self)@.insert(symbol@, address),
            final(self).next_address() == old(self).next_address(),
    {
        let ghost key = symbol@;
        let ghost idx: int;
        match self.position(symbol.as_str()) {
            Some(i) => {
                proof {
                    idx = i as int;
                }
                self.table.set(i, (symbol, address));
            },
            None => {
                proof {
                    idx = self.table@.len() as int;
                }
                self.table.push((symbol, address));
            },
        }
        self.bindings = Ghost(self.bindings@.insert(key, address));
        assert(self.table@[idx].0@ == key);
        assert forall|k: Seq<char>| #[trigger] self.bindings@.contains_key(k) implies exists|i: int|
            0 <= i < self.table@.len() && self.table@[i].0@ == k by {
            if k != key {
                let j = choose|j: int| 0 <= j < old(self).table@.len() && old(self).table@[j].0@ == k;
                assert(j != idx);
                assert(self.table@[j].0@ == k);
            } else {
                assert(self.table@[idx].0@ == k);
            }
        }
    }

    /// Binds `symbol` to the next variable address and returns that address.
    pub fn add_variable(&mut self, symbol: String) -> (r: u32)
        requires
            old(self).wf(),
            old(self).next_address() < u32::MAX,
        ensures
            final(self).wf(),
            r == old(self).next_address(),
            final(self)@ == old(self)@.insert(symbol@, r),
            final(self).next_address() == old(self).next_address() + 1,
    {
        let address = self.current_address;
        self.current_address = address + 1;
        assert(self.table@ == old(self).table@ && self.bindings@ == old(self).bindings@);
        self.add_label(symbol, address);
        address
    }

    /// The address bound to `symbol`, if any.
    pub fn address(&self, symbol: &str) -> (r: Option<&u32>)
        requires
            self.wf(),
        ensures
            match r {
                Some(a) => self@.contains_key(symbol@) && *a == self@[symbol@],
                None => !self@.contains_key(symbol@),
            },
    {
        match self.position(symbol) {
            Some(i) => Some(&self.table[i].1),
            None => None,
        }
    }
}

} // verus!
