use vstd::prelude::*;

use goblin::mach::Mach;
use goblin::Object;

verus! {

/// A section of a Mach-O binary: where it is loaded, its name and its bytes.
#[derive(Debug)]
pub struct Section {
    pub addr: u64,
    pub name: String,
    pub data: Vec<u8>,
}

impl Section {
    pub fn addr(&self) -> (res: u64)
        ensures
            res == self.addr,
    {
        self.addr
    }

    pub fn name(&self) -> (res: &str)
        ensures
            res@ == self.name@,
    {
        self.name.as_str()
    }

    pub fn data(&self) -> (res: &[u8])
        ensures
            res@ == self.data@,
    {
        self.data.as_slice()
    }
}

/// A symbol of a Mach-O binary: its address and its name.
#[derive(Debug)]
pub struct Symbol {
    pub addr: u64,
    pub name: String,
}

impl Clone for Symbol {
    fn clone(&self) -> (res: Self)
        ensures
            res == *self,
    {
        Symbol { addr: self.addr, name: self.name.clone() }
    }
}

impl Symbol {
    pub fn addr(&self) -> (res: u64)
        ensures
            res == self.addr,
    {
        self.addr
    }

    pub fn name(&self) -> (res: &str)
        ensures
            res@ == self.name@,
    {
        self.name.as_str()
    }
}

impl Clone for Section {
    fn clone(&self) -> (res: Self)
        ensures
            res.addr == self.addr,
            res.name@ == self.name@,
            res.data@ == self.data@,
    {
        Section { addr: self.addr, name: self.name.clone(), data: self.data.clone() }
    }
}

/// Why bytes could not be read as a binary, or a section looked for was not there.
#[derive(Debug, Clone, Copy, PartialEq, Eq, Structural)]
pub enum BinaryError {
    /// goblin could not parse the bytes.
    Parse,
    /// The bytes hold an object other than a single Mach-O binary.
    UnsupportedFormat,
    /// No section has the name looked for.
    SectionNotFound,
}

/// A section as plain values: address, name and bytes.
pub open spec fn section_view(s: Section) -> (u64, Seq<char>, Seq<u8>) {
    (s.addr, s.name@, s.data@)
}

/// A symbol as plain values: address and name.
pub open spec fn symbol_view(s: Symbol) -> (u64, Seq<char>) {
    (s.addr, s.name@)
}

pub open spec fn parsed_view(r: Result<(Vec<Section>, Vec<Symbol>), BinaryError>) -> Result<(Seq<(u64, Seq<char>, Seq<u8>)>, Seq<(u64, Seq<char>)>), BinaryError> {
    match r {
        Ok((secs, syms)) => Ok((secs@.map_values(|s: Section| section_view(s)), syms@.map_values(|s: Symbol| symbol_view(s)))),
        Err(e) => Err(e),
    }
}

/// What goblin reads from `bytes` as a Mach-O binary: the sections of every segment whose
/// sections it can read, in order, and every symbol it can read, in order; or why it cannot.
pub uninterp spec fn mach_contents(bytes: Seq<u8>) -> Result<(Seq<(u64, Seq<char>, Seq<u8>)>, Seq<(u64, Seq<char>)>), BinaryError>;

/// `goblin::Object::parse`, and for a Mach-O binary its segments' `sections` and its
/// `symbols`, read back as plain values; a section without a readable name gets an empty one.
/// goblin's Mach-O readers answer malformed input with an error (they check counts and offsets
/// against the buffer before reading or allocating); the contract names the result and says no
/// more of it.
#[verifier::external_body]
fn goblin_mach_contents(bytes: &[u8]) -> (res: Result<(Vec<Section>, Vec<Symbol>), BinaryError>)
    ensures
        parsed_view(res) == mach_contents(bytes@),
{
    let Ok(object) = Object::parse(bytes) else { return Err(BinaryError::Parse) };
    let Object::Mach(Mach::Binary(b)) = object else { return Err(BinaryError::UnsupportedFormat) };
    let sections = b.segments.iter().filter_map(|seg| seg.sections().ok()).flatten()
        .map(|(sec, data)| Section { addr: sec.addr, name: sec.name().unwrap_or_default().to_string(), data: data.to_vec() })
        .collect();
    let symbols = b.symbols().filter_map(|sym| sym.ok())
        .map(|(name, nlist)| Symbol { addr: nlist.n_value, name: name.to_string() }).collect();
    Ok((sections, symbols))
}

/// A Mach-O binary: its sections and its symbols, as goblin reads them.
pub struct Binary {
    sections: Vec<Section>,
    symbols: Vec<Symbol>,
}

/// The symbols a listing shows: those with an address, other than the Mach-O header's.
pub open spec fn kept_symbol(s: Symbol) -> bool {
    s.name@ != "__mh_execute_header"@ && s.addr != 0
}

/// The symbols of `raw` that a listing shows, in order.
pub open spec fn kept_symbols(raw: Seq<Symbol>) -> Seq<Symbol> {
    raw.filter(|s: Symbol| kept_symbol(s))
}

/// The symbols a listing shows are neither the Mach-O header's symbol nor at address zero, every
/// other symbol of the binary is among them, and they come in ascending order of address.
pub proof fn lemma_shown_symbols(raw: Seq<Symbol>, order: Seq<usize>)
    requires
        is_addr_order(kept_symbols(raw), order),
    ensures
        forall|i: int| 0 <= i < order.len() ==> (#[trigger] kept_symbols(raw)[order[i] as int]).name@ != "__mh_execute_header"@
            && kept_symbols(raw)[order[i] as int].addr != 0,
        forall|j: int| 0 <= j < raw.len() && (#[trigger] raw[j]).name@ != "__mh_execute_header"@ && raw[j].addr != 0
            ==> kept_symbols(raw).contains(raw[j]),
        forall|i: int, j: int|
            0 <= i < j < order.len() ==> #[trigger] kept_symbols(raw)[order[i] as int].addr <= #[trigger] kept_symbols(raw)[order[j] as int].addr,
{
    let kept = kept_symbols(raw);
    assert forall|i: int| 0 <= i < order.len() implies (#[trigger] kept[order[i] as int]).name@ != "__mh_execute_header"@
        && kept[order[i] as int].addr != 0 by {
        assert(order[i] < kept.len());
        raw.lemma_filter_pred(|s: Symbol| kept_symbol(s), order[i] as int);
    }
    assert forall|i: int, j: int| 0 <= i < j < order.len() implies #[trigger] kept[order[i] as int].addr <= #[trigger] kept[order[j] as int].addr by {
        assert(order[i] < kept.len() && order[j] < kept.len());
    }
    assert forall|j: int| 0 <= j < raw.len() && (#[trigger] raw[j]).name@ != "__mh_execute_header"@ && raw[j].addr != 0
        implies kept.contains(raw[j]) by {
        raw.lemma_filter_contains(|s: Symbol| kept_symbol(s), j);
    }
}

/// `order` sorts `syms` by address, and keeps the order of symbols with the same address.
pub open spec fn is_addr_order(syms: Seq<Symbol>, order: Seq<usize>) -> bool {
    &&& order.len() == syms.len()
    &&& forall|i: int| 0 <= i < order.len() ==> #[trigger] order[i] < syms.len()
    &&& forall|i: int, j: int|
        #![trigger order[i], order[j]]
        0 <= i < j < order.len() ==> syms[order[i] as int].addr < syms[order[j] as int].addr || (syms[order[i] as int].addr
            == syms[order[j] as int].addr && order[i] < order[j])
}

impl Binary {
    pub closed spec fn sections_spec(&self) -> Seq<Section> {
        self.sections@
    }

    pub closed spec fn raw_symbols_spec(&self) -> Seq<Symbol> {
        self.symbols@
    }

    /// Parses `bytes` as a Mach-O binary.
    pub fn parse(bytes: &[u8]) -> (res: Result<Binary, BinaryError>)
        ensures
            match mach_contents(bytes@) {
                Ok((secs, syms)) => res matches Ok(b) && b.sections_spec().map_values(|s: Section| section_view(s)) == secs
                    && b.raw_symbols_spec().map_values(|s: Symbol| symbol_view(s)) == syms,
                Err(e) => res == Err::<Binary, BinaryError>(e),
            },
    {
        match goblin_mach_contents(bytes) {
            Ok((sections, symbols)) => Ok(Binary { sections, symbols }),
            Err(e) => Err(e),
        }
    }

    /// Copies of all sections, in order.
    pub fn sections(&self) -> (res: Vec<Section>)
        ensures
            res@.map_values(|s: Section| section_view(s)) == self.sections_spec().map_values(|s: Section| section_view(s)),
    {
        let mut res: Vec<Section> = Vec::new();
        let mut i: usize = 0;
        while i < self.sections.len()
            invariant
                0 <= i <= self.sections@.len(),
                res@.len() == i,
                forall|k: int| 0 <= k < i ==> section_view(#[trigger] res@[k]) == section_view(self.sections@[k]),
            decreases self.sections@.len() - i,
        {
            res.push(self.sections[i].clone());
            i = i + 1;
        }
        proof {
            assert(res@.map_values(|s: Section| section_view(s)) =~= self.sections_spec().map_values(|s: Section| section_view(s)));
        }
        res
    }

    /// The first section named `name`.
    pub fn section_by_name(&self, name: &str) -> (res: Result<Section, BinaryError>)
        ensures
            match res {
                Ok(s) => exists|i: int| 0 <= i < self.sections_spec().len() && section_view(s) == section_view(self.sections_spec()[i])
                    && self.sections_spec()[i].name@ == name@ && forall|k: int| 0 <= k < i ==> #[trigger] self.sections_spec()[k].name@ != name@,
                Err(e) => e == BinaryError::SectionNotFound && forall|k: int| 0 <= k < self.sections_spec().len() ==> #[trigger] self.sections_spec()[k].name@ != name@,
            },
    {
        let wanted = String::from_str(name);
        let mut i: usize = 0;
        while i < self.sections.len()
            invariant
                0 <= i <= self.sections@.len(),
                wanted@ == name@,
                forall|k: int| 0 <= k < i ==> #[trigger] self.sections@[k].name@ != name@,
            decreases self.sections@.len() - i,
        {
            if self.sections[i].name == wanted {
                let r = self.sections[i].clone();
                proof {
                    assert(self.sections_spec()[i as int].name@ == name@);
                    assert(section_view(r) == section_view(self.sections_spec()[i as int]));
                }
                return Ok(r);
            }
            i = i + 1;
        }
        Err(BinaryError::SectionNotFound)
    }

    /// The symbols with an address, other than the Mach-O header's, sorted by address; symbols
    /// at the same address keep their order.
    pub fn symbols(&self) -> (res: Vec<Symbol>)
        ensures
            exists|order: Seq<usize>| #[trigger] is_addr_order(kept_symbols(self.raw_symbols_spec()), order)
                && res@ == order.map_values(|i: usize| kept_symbols(self.raw_symbols_spec())[i as int]),
    {
        let ghost raw = self.symbols@;
        let mut kept: Vec<Symbol> = Vec::new();
        let header = String::from_str("__mh_execute_header");
        let mut i: usize = 0;
        while i < self.symbols.len()
            invariant
                0 <= i <= raw.len(),
                raw == self.symbols@,
                header@ == "__mh_execute_header"@,
                kept@ == kept_symbols(raw.take(i as int)),
            decreases raw.len() - i,
        {
            let s = &self.symbols[i];
            proof {
                assert(raw.take(i + 1).drop_last() =~= raw.take(i as int));
                assert(raw.take(i + 1).last() == raw[i as int]);
                reveal(Seq::filter);
                assert(raw.take(i + 1) =~= raw.take(i as int).push(raw[i as int]));
            }
            if !(s.name == header) && s.addr != 0 {
                kept.push(s.clone());
            }
            i = i + 1;
        }
        proof {
            assert(raw.take(raw.len() as int) =~= raw);
            reveal(Seq::filter);
        }
        let order = addr_order(&kept);
        let mut res: Vec<Symbol> = Vec::new();
        let mut k: usize = 0;
        while k < order.len()
            invariant
                0 <= k <= order@.len(),
                is_addr_order(kept@, order@),
                kept@ == kept_symbols(raw),
                raw == self.symbols@,
                res@ == order@.take(k as int).map_values(|i: usize| kept@[i as int]),
            decreases order@.len() - k,
        {
            proof {
                assert(order@[k as int] < kept@.len());
            }
            res.push(kept[order[k]].clone());
            proof {
                assert(order@.take(k + 1).map_values(|i: usize| kept@[i as int]) =~= order@.take(k as int).map_values(
                    |i: usize| kept@[i as int],
                ).push(kept@[order@[k as int] as int]));
            }
            k = k + 1;
        }
        proof {
            assert(order@.take(order@.len() as int) =~= order@);
            assert(is_addr_order(kept_symbols(self.raw_symbols_spec()), order@));
        }
        res
    }
}

/// The positions of `syms` sorted by address, equal addresses in their original order.
fn addr_order(syms: &Vec<Symbol>) -> (res: Vec<usize>)
    ensures
        is_addr_order(syms@, res@),
{
    let mut order: Vec<usize> = Vec::new();
    let mut k: usize = 0;
    while k < syms.len()
        invariant
            0 <= k <= syms@.len(),
            order@.len() == k,
            forall|i: int| 0 <= i < order@.len() ==> #[trigger] order@[i] < k,
            forall|i: int, j: int|
                #![trigger order@[i], order@[j]]
                0 <= i < j < order@.len() ==> syms@[order@[i] as int].addr < syms@[order@[j] as int].addr || (syms@[order@[i] as int].addr
                    == syms@[order@[j] as int].addr && order@[i] < order@[j]),
        decreases syms@.len() - k,
    {
        let addr = syms[k].addr;
        let mut p: usize = 0;
        while p < order.len() && syms[order[p]].addr <= addr
            invariant
                0 <= p <= order@.len(),
                k < syms@.len(),
                addr == syms@[k as int].addr,
                forall|i: int| 0 <= i < order@.len() ==> #[trigger] order@[i] < k,
                forall|i: int| 0 <= i < p ==> syms@[#[trigger] order@[i] as int].addr <= addr,
                forall|i: int, j: int|
                    #![trigger order@[i], order@[j]]
                    0 <= i < j < order@.len() ==> syms@[order@[i] as int].addr < syms@[order@[j] as int].addr || (syms@[order@[i] as int].addr
                        == syms@[order@[j] as int].addr && order@[i] < order@[j]),
            decreases order@.len() - p,
        {
            p = p + 1;
        }
        proof {
            assert forall|i: int| p <= i < order@.len() implies syms@[#[trigger] order@[i] as int].addr > addr by {
                if p < order@.len() {
                    assert(syms@[order@[p as int] as int].addr > addr);
                    if i > p {
                        assert(syms@[order@[p as int] as int].addr <= syms@[order@[i] as int].addr);
                    }
                }
            }
        }
        let ghost old_order = order@;
        order.insert(p, k);
        proof {
            assert(order@ == old_order.insert(p as int, k));
            assert forall|i: int, j: int|
                #![trigger order@[i], order@[j]]
                0 <= i < j < order@.len() implies syms@[order@[i] as int].addr < syms@[order@[j] as int].addr || (syms@[order@[i] as int].addr
                    == syms@[order@[j] as int].addr && order@[i] < order@[j]) by {
                if j < p {
                    assert(order@[i] == old_order[i] && order@[j] == old_order[j]);
                } else if j == p {
                    assert(order@[i] == old_order[i]);
                } else if i < p {
                    assert(order@[i] == old_order[i] && order@[j] == old_order[j - 1]);
                } else if i == p {
                    assert(order@[j] == old_order[j - 1]);
                } else {
                    assert(order@[i] == old_order[i - 1] && order@[j] == old_order[j - 1]);
                }
            }
            assert forall|i: int| 0 <= i < order@.len() implies #[trigger] order@[i] < k + 1 by {
                if i < p {
                    assert(order@[i] == old_order[i]);
                } else if i > p {
                    assert(order@[i] == old_order[i - 1]);
                }
            }
        }
        k = k + 1;
    }
    order
}

} // verus!
