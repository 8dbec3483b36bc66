//! Symbols: an address-to-function-name map built from the PE export table or the ELF
//! symbol table.

use std::collections::HashMap;
use vstd::prelude::*;

verus! {

broadcast use vstd::std_specs::hash::group_hash_axioms;

#[derive(Debug, Clone)]
pub struct Symbol {
    pub addr: u64,
    pub name: String,
    pub size: Option<u64>,
}

/// Address-to-symbol map; `lookup` matches addresses exactly (function level).
#[derive(Debug, Clone)]
pub struct SymbolMap(pub HashMap<u64, Symbol>);

/// `addr` lies in `[s.addr, s.addr + size)` of a symbol with a known size.
pub open spec fn contains_addr(s: Symbol, addr: u64) -> bool {
    match s.size {
        Some(sz) => s.addr <= addr && addr < s.addr + sz,
        None => false,
    }
}

impl SymbolMap {
    /// An empty map.
    pub fn new() -> (m: SymbolMap)
        ensures
            m.0@ == Map::<u64, Symbol>::empty(),
    {
        SymbolMap(HashMap::new())
    }

    /// The symbol registered at exactly `addr`.
    pub fn lookup(&self, addr: u64) -> (r: Option<&Symbol>)
        ensures
            match r {
                Some(s) => self.0@.contains_key(addr) && *s == self.0@[addr],
                None => !self.0@.contains_key(addr),
            },
    {
        self.0.get(&addr)
    }

    /// The nearest symbol containing `addr`: among the symbols whose `[addr, addr + size)`
    /// contains it, one that starts last.
    pub fn lookup_containing(&self, addr: u64) -> (r: Option<&Symbol>)
        ensures
            match r {
                Some(s) => self.0@.values().contains(*s) && contains_addr(*s, addr)
                    && forall|x: Symbol| #[trigger] self.0@.values().contains(x) && contains_addr(x, addr) ==> x.addr <= s.addr,
                None => forall|s: Symbol| #[trigger] self.0@.values().contains(s) ==> !contains_addr(s, addr),
            },
    {
        let ghost all = self.0@.values();
        let mut best: Option<&Symbol> = None;
        for s in it: self.0.values()
            invariant
                it.seq().unref().to_set() == all,
                all == self.0@.values(),
                forall|k: int| 0 <= k < it.seq().unref().len() ==> #[trigger] all.contains(it.seq().unref()[k]),
                forall|x: Symbol| #[trigger] all.contains(x) ==> exists|k: int| 0 <= k < it.seq().len() && *it.seq()[k] == x,
                match best {
                    Some(b) => all.contains(*b) && contains_addr(*b, addr)
                        && forall|k: int| 0 <= k < it.index() && contains_addr(*#[trigger] it.seq()[k], addr) ==> it.seq()[k].addr <= b.addr,
                    None => forall|k: int| 0 <= k < it.index() ==> !contains_addr(*#[trigger] it.seq()[k], addr),
                },
                it.index() == it.seq().len() ==> match best {
                    Some(b) => forall|x: Symbol| #[trigger] all.contains(x) && contains_addr(x, addr) ==> x.addr <= b.addr,
                    None => forall|x: Symbol| #[trigger] all.contains(x) ==> !contains_addr(x, addr),
                },
        {
            let hit = match s.size {
                Some(sz) => addr >= s.addr && (addr - s.addr) < sz,
                None => false,
            };
            proof {
                assert(all.contains(*s));
            }
            if hit {
                let better = match best {
                    Some(b) => s.addr > b.addr,
                    None => true,
                };
                if better {
                    best = Some(s);
                }
            }
        }
        best
    }
}

} // verus!

verus! {

/// What goblin reads out of a binary for symbol resolution: tag 1 for a PE file with its
/// export table (name, offset), tag 2 for an ELF file with its symbol table (name from
/// the string table, value, size), tag 0 for anything else or bytes goblin rejects.
pub uninterp spec fn goblin_symbols(buf: Seq<u8>) -> (u8, Seq<(Option<Seq<char>>, Option<u64>, u64, u64)>);

pub open spec fn rec_view(r: (Option<String>, Option<u64>, u64, u64)) -> (Option<Seq<char>>, Option<u64>, u64, u64) {
    (match r.0 { Some(s) => Some(s@), None => None }, r.1, r.2, r.3)
}

/// Calls `goblin::Object::parse` and lists the exports (PE) or symbols (ELF) as plain
/// records. Trusted: the result is `goblin_symbols` of the bytes; nothing else is stated.
#[verifier::external_body]
fn object_symbols(buf: &[u8]) -> (r: (u8, Vec<(Option<String>, Option<u64>, u64, u64)>))
    ensures
        r.0 == goblin_symbols(buf@).0,
        r.1@.map_values(|x: (Option<String>, Option<u64>, u64, u64)| rec_view(x)) == goblin_symbols(buf@).1,
{
    match goblin::Object::parse(buf) {
        Ok(goblin::Object::PE(pe)) => (1, pe.exports.iter().map(|e| (e.name.map(|n| n.to_string()), e.offset.map(|o| o as u64), 0, 0)).collect()),
        Ok(goblin::Object::Elf(elf)) => (2, elf.syms.iter().map(|s| (elf.strtab.get_at(s.st_name).map(|n| n.to_string()), None, s.st_value, s.st_size)).collect()),
        _ => (0, Vec::new()),
    }
}

/// The symbol a record contributes, if any: a PE export needs a name and an offset (its
/// address); an ELF symbol needs a non-empty name and a non-zero value (its address) and
/// carries its size.
pub open spec fn rec_symbol(tag: u8, r: (Option<Seq<char>>, Option<u64>, u64, u64)) -> Option<(u64, Seq<char>, Option<u64>)> {
    if tag == 1 {
        match (r.0, r.1) {
            (Some(n), Some(o)) => Some((o, n, None)),
            _ => None,
        }
    } else if tag == 2 {
        match r.0 {
            Some(n) => if n.len() > 0 && r.2 != 0 { Some((r.2, n, Some(r.3))) } else { None },
            None => None,
        }
    } else {
        None
    }
}

/// The map of the records, the first symbol at an address winning.
pub open spec fn symbols_map(tag: u8, recs: Seq<(Option<Seq<char>>, Option<u64>, u64, u64)>) -> Map<u64, (Seq<char>, Option<u64>)>
    decreases recs.len(),
{
    if recs.len() == 0 {
        Map::empty()
    } else {
        let m = symbols_map(tag, recs.drop_last());
        match rec_symbol(tag, recs.last()) {
            Some((a, n, sz)) => if m.contains_key(a) { m } else { m.insert(a, (n, sz)) },
            None => m,
        }
    }
}

/// `m` holds exactly the symbols of `spec`, each under its own address.
pub open spec fn map_matches(m: Map<u64, Symbol>, spec: Map<u64, (Seq<char>, Option<u64>)>) -> bool {
    &&& forall|a: u64| #[trigger] m.contains_key(a) <==> spec.contains_key(a)
    &&& forall|a: u64| #[trigger] m.contains_key(a) ==> m[a].addr == a && m[a].name@ == spec[a].0 && m[a].size == spec[a].1
}

/// Recovers the symbols of a binary.
pub trait SymbolResolver {
    /// Symbols of a binary's bytes: PE exports or ELF symbols; other or unparsable input
    /// gives an empty map.
    fn resolve_bytes(buf: &[u8]) -> (r: Result<SymbolMap, crate::RvaError>)
        ensures
            r matches Ok(m) && map_matches(m.0@, symbols_map(goblin_symbols(buf@).0, goblin_symbols(buf@).1)),
    ;
}

/// Resolves the PE export table and the ELF symbol table through goblin.
pub struct DefaultSymbolResolver;

impl SymbolResolver for DefaultSymbolResolver {
    fn resolve_bytes(buf: &[u8]) -> (r: Result<SymbolMap, crate::RvaError>) {
        let (tag, recs) = object_symbols(buf);
        let ghost rv = recs@.map_values(|x: (Option<String>, Option<u64>, u64, u64)| rec_view(x));
        let mut map = SymbolMap::new();
        let n = recs.len();
        let mut i: usize = 0;
        while i < n
            invariant
                n == recs@.len(),
                rv == recs@.map_values(|x: (Option<String>, Option<u64>, u64, u64)| rec_view(x)),
                i <= n,
                map_matches(map.0@, symbols_map(tag, rv.subrange(0, i as int))),
            decreases n - i,
        {
            proof {
                assert(rv.subrange(0, i + 1).drop_last() =~= rv.subrange(0, i as int));
                assert(rv.subrange(0, i + 1).last() == rec_view(recs@[i as int]));
            }
            let rec = &recs[i];
            let name: String = match &rec.0 {
                Some(s) => s.clone(),
                None => String::new(),
            };
            let cand: Option<(u64, Option<u64>)> = if tag == 1 {
                match (&rec.0, rec.1) {
                    (Some(_), Some(o)) => Some((o, None)),
                    _ => None,
                }
            } else if tag == 2 {
                if rec.0.is_some() && name.unicode_len() > 0 && rec.2 != 0 {
                    Some((rec.2, Some(rec.3)))
                } else {
                    None
                }
            } else {
                None
            };
            if let Some((addr, size)) = cand {
                if !map.0.contains_key(&addr) {
                    map.0.insert(addr, Symbol { addr, name, size });
                }
            }
            i = i + 1;
        }
        assert(rv.subrange(0, n as int) =~= rv);
        Ok(map)
    }
}

} // verus!
