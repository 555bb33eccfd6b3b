//! The function table: which addresses begin a function, which symbol names
//! each, and where each ends.
//!
//! The file's own names come first, then the addresses the code points at
//! where it names nothing: a stripped binary has an empty symbol table, and
//! without the second list every view that works on a function is empty.

use vstd::prelude::*;

verus! {

/// What a symbol of the file says it names.
#[derive(Clone, Copy, Debug, PartialEq, Eq, Structural)]
pub enum SymbolKind {
    Function,
    /// A symbol that says nothing of what it names.
    Untyped,
    Data,
}

/// A symbol of the file, as the function table reads it.
#[derive(Clone, Copy, Debug, PartialEq, Eq, Structural)]
pub struct Symbol {
    pub address: Option<u64>,
    /// The size the symbol declares, zero when it declares none.
    pub size: u64,
    pub kind: SymbolKind,
    /// Whether the symbol is local to its object file.
    pub local: bool,
    /// Whether it names something another file provides.
    pub imported: bool,
    /// Whether the analysis decoded an instruction at its address.
    pub decoded: bool,
}

/// One function of the table: where it begins, where it ends, and which
/// symbol names it, when one does.
#[derive(Clone, Copy, Debug, PartialEq, Eq, Structural)]
pub struct Bounds {
    pub start: u64,
    pub end: u64,
    /// The position of the naming symbol in the symbol table.
    pub named: Option<usize>,
}

/// Whether a symbol marks where a function begins: a function symbol, or an
/// untyped one that is global, at an address the analysis decoded. An
/// untyped local symbol is a label inside a function — `_start.cmp_loop`
/// lives inside `_start`.
pub open spec fn begins_function(symbol: Symbol) -> bool {
    &&& symbol.address is Some
    &&& symbol.decoded
    &&& match symbol.kind {
        SymbolKind::Function => true,
        SymbolKind::Untyped => !symbol.local,
        SymbolKind::Data => false,
    }
}

/// Whether `symbol` names a function of this file beginning at `address`.
pub open spec fn names(symbol: Symbol, address: u64) -> bool {
    !symbol.imported && begins_function(symbol) && symbol.address == Some(address)
}

/// Whether a function begins at `address`: a symbol names one there, or
/// the code was found to point at one there.
pub open spec fn begins_at(symbols: Seq<Symbol>, found: Seq<u64>, address: u64) -> bool {
    (exists|index: int| 0 <= index < symbols.len() && #[trigger] names(symbols[index], address))
        || found.contains(address)
}

/// Whether `named` is the first symbol of the table naming a function at
/// `address`, or there is none and `named` says so.
pub open spec fn named_by(symbols: Seq<Symbol>, address: u64, named: Option<usize>) -> bool {
    match named {
        Some(index) => {
            &&& index < symbols.len()
            &&& names(symbols[index as int], address)
            &&& forall|earlier: int| 0 <= earlier < index ==> !#[trigger] names(symbols[earlier], address)
        },
        None => forall|index: int| 0 <= index < symbols.len() ==> !#[trigger] names(symbols[index], address),
    }
}

/// Where the `index`-th function of `table` ends: at its declared size when
/// its symbol declares one, otherwise where the next one begins, the last one
/// at the end of what was decoded; never before it begins.
pub open spec fn function_end(
    symbols: Seq<Symbol>,
    table: Seq<Bounds>,
    index: int,
    decoded_end: u64,
) -> u64 {
    let start = table[index].start;
    let declared = match table[index].named {
        Some(symbol) => symbols[symbol as int].size,
        None => 0,
    };
    let end = if declared > 0 {
        if start + declared > u64::MAX {
            u64::MAX
        } else {
            (start + declared) as u64
        }
    } else if index + 1 < table.len() {
        table[index + 1].start
    } else {
        decoded_end
    };
    if end > start {
        end
    } else {
        start
    }
}

/// Where a function ends: at its own declared size when the symbol naming it
/// declares one, cut off at the top of the address space; otherwise — named
/// or not — where the next function of the table begins, so that it never
/// runs into the next one; the last one where the decoded code ends; and
/// none before it begins.
pub proof fn lemma_a_function_ends_where_the_next_begins(
    symbols: Seq<Symbol>,
    table: Seq<Bounds>,
    index: int,
    decoded_end: u64,
)
    requires
        0 <= index < table.len(),
        index + 1 < table.len() ==> table[index].start < table[index + 1].start,
    ensures
        ({
            let start = table[index].start;
            let end = function_end(symbols, table, index, decoded_end);
            let declared: int = match table[index].named {
                Some(symbol) => symbols[symbol as int].size as int,
                None => 0,
            };
            &&& declared == 0 && index + 1 < table.len() ==> end == table[index + 1].start
            &&& declared == 0 && index + 1 == table.len() ==> end == if decoded_end > start {
                decoded_end
            } else {
                start
            }
            &&& declared > 0 ==> end == if start + declared > u64::MAX {
                u64::MAX as int
            } else {
                start + declared
            }
            &&& declared == 0 && index + 1 < table.len() ==> end <= table[index + 1].start
            &&& start <= end
        }),
{
}

/// Whether a symbol marks where a function begins.
pub fn starts_a_function(symbol: &Symbol) -> (starts: bool)
    ensures
        starts == begins_function(*symbol),
{
    if symbol.address.is_none() || !symbol.decoded {
        return false;
    }
    match symbol.kind {
        SymbolKind::Function => true,
        SymbolKind::Untyped => !symbol.local,
        SymbolKind::Data => false,
    }
}

/// The order the keys are sorted in: by address, then by position.
pub open spec fn key_order(first: (u64, usize), second: (u64, usize)) -> bool {
    first.0 < second.0 || (first.0 == second.0 && first.1 <= second.1)
}

/// Sorts pairs of integers.
///
/// Trusted: `slice::sort` sorts in ascending order, keeping the elements it
/// was given, and pairs are ordered by their first member, then their
/// second. Which of two equal pairs comes first is not stated; no caller
/// could tell them apart.
#[verifier::external_body]
fn sort_keys(keys: &mut Vec<(u64, usize)>)
    ensures
        final(keys)@.to_multiset() == old(keys)@.to_multiset(),
        forall|earlier: int, later: int|
            0 <= earlier < later < final(keys)@.len() ==> key_order(
                #[trigger] final(keys)@[earlier],
                #[trigger] final(keys)@[later],
            ),
{
    keys.sort();
}

/// Whether `key` stands for a symbol naming a function at its address, or
/// for an address the code was found to point at.
spec fn valid_key(symbols: Seq<Symbol>, found: Seq<u64>, key: (u64, usize)) -> bool {
    if key.1 < symbols.len() {
        names(symbols[key.1 as int], key.0)
    } else {
        key.1 - symbols.len() < found.len() && found[key.1 - symbols.len()] == key.0
    }
}

/// Whether `keys` holds every key the symbols and the found addresses give.
spec fn complete(symbols: Seq<Symbol>, found: Seq<u64>, keys: Seq<(u64, usize)>) -> bool {
    &&& forall|index: int|
        0 <= index < symbols.len() && !symbols[index].imported && begins_function(
            #[trigger] symbols[index],
        ) ==> keys.contains((symbols[index].address->0, index as usize))
    &&& forall|index: int|
        0 <= index < found.len() ==> keys.contains((#[trigger] found[index], (symbols.len() + index) as usize))
}

/// The keys: one for each symbol that names a function, then one for each
/// address the code was found to point at, each with its position.
fn gather(symbols: &[Symbol], found: &[u64]) -> (keys: Vec<(u64, usize)>)
    requires
        symbols@.len() + found@.len() <= usize::MAX,
    ensures
        forall|index: int| 0 <= index < keys@.len() ==> valid_key(symbols@, found@, #[trigger] keys@[index]),
        complete(symbols@, found@, keys@),
{
    let mut keys: Vec<(u64, usize)> = Vec::new();
    let mut index: usize = 0;
    while index < symbols.len()
        invariant
            index <= symbols@.len(),
            forall|key: int| 0 <= key < keys@.len() ==> valid_key(symbols@, found@, #[trigger] keys@[key]),
            forall|earlier: int|
                0 <= earlier < index && !symbols@[earlier].imported && begins_function(
                    #[trigger] symbols@[earlier],
                ) ==> keys@.contains((symbols@[earlier].address->0, earlier as usize)),
        decreases symbols@.len() - index,
    {
        let symbol = &symbols[index];
        if !symbol.imported && starts_a_function(symbol) {
            if let Some(address) = symbol.address {
                let ghost before = keys@;
                keys.push((address, index));
                proof {
                    assert(keys@[before.len() as int] == (address, index));
                    assert forall|earlier: int|
                        0 <= earlier < index && !symbols@[earlier].imported && begins_function(
                            #[trigger] symbols@[earlier],
                        ) implies keys@.contains((symbols@[earlier].address->0, earlier as usize)) by {
                        let at = choose|at: int|
                            0 <= at < before.len() && before[at] == (
                                symbols@[earlier].address->0,
                                earlier as usize,
                            );
                        assert(keys@[at] == before[at]);
                    }
                }
            }
        }
        index = index + 1;
    }
    let count = symbols.len();
    let mut index: usize = 0;
    while index < found.len()
        invariant
            count == symbols@.len(),
            count + found@.len() <= usize::MAX,
            index <= found@.len(),
            forall|key: int| 0 <= key < keys@.len() ==> valid_key(symbols@, found@, #[trigger] keys@[key]),
            forall|earlier: int|
                0 <= earlier < count && !symbols@[earlier].imported && begins_function(
                    #[trigger] symbols@[earlier],
                ) ==> keys@.contains((symbols@[earlier].address->0, earlier as usize)),
            forall|earlier: int|
                0 <= earlier < index ==> keys@.contains(
                    (#[trigger] found@[earlier], (count + earlier) as usize),
                ),
        decreases found@.len() - index,
    {
        let ghost before = keys@;
        keys.push((found[index], count + index));
        proof {
            assert(keys@[before.len() as int] == (found@[index as int], (count + index) as usize));
            assert forall|earlier: int|
                0 <= earlier < count && !symbols@[earlier].imported && begins_function(
                    #[trigger] symbols@[earlier],
                ) implies keys@.contains((symbols@[earlier].address->0, earlier as usize)) by {
                let at = choose|at: int|
                    0 <= at < before.len() && before[at] == (
                        symbols@[earlier].address->0,
                        earlier as usize,
                    );
                assert(keys@[at] == before[at]);
            }
            assert forall|earlier: int| 0 <= earlier < index + 1 implies keys@.contains(
                (#[trigger] found@[earlier], (count + earlier) as usize),
            ) by {
                if earlier < index {
                    let at = choose|at: int|
                        0 <= at < before.len() && before[at] == (
                            found@[earlier],
                            (count + earlier) as usize,
                        );
                    assert(keys@[at] == before[at]);
                }
            }
        }
        index = index + 1;
    }
    keys
}

/// Whether `keys` are in key order.
spec fn in_key_order(keys: Seq<(u64, usize)>) -> bool {
    forall|earlier: int, later: int|
        0 <= earlier < later < keys.len() ==> key_order(
            #[trigger] keys[earlier],
            #[trigger] keys[later],
        )
}

/// The first key of each address, in order: one per address, each the
/// smallest key of its address.
fn leading(keys: &Vec<(u64, usize)>) -> (firsts: Vec<(u64, usize)>)
    requires
        in_key_order(keys@),
    ensures
        forall|earlier: int, later: int|
            0 <= earlier < later < firsts@.len() ==> (#[trigger] firsts@[earlier]).0
                < (#[trigger] firsts@[later]).0,
        forall|first: int| 0 <= first < firsts@.len() ==> keys@.contains(#[trigger] firsts@[first]),
        forall|first: int, at: int|
            0 <= first < firsts@.len() && 0 <= at < keys@.len() && (#[trigger] keys@[at]).0
                == (#[trigger] firsts@[first]).0 ==> firsts@[first].1 <= keys@[at].1,
        forall|at: int|
            0 <= at < keys@.len() ==> exists|first: int|
                0 <= first < firsts@.len() && (#[trigger] firsts@[first]).0 == (
                #[trigger] keys@[at]).0,
{
    let mut firsts: Vec<(u64, usize)> = Vec::new();
    let mut index: usize = 0;
    while index < keys.len()
        invariant
            index <= keys@.len(),
            in_key_order(keys@),
            index == 0 <==> firsts@.len() == 0,
            index > 0 ==> firsts@.last().0 == keys@[index - 1].0,
            forall|earlier: int, later: int|
                0 <= earlier < later < firsts@.len() ==> (#[trigger] firsts@[earlier]).0
                    < (#[trigger] firsts@[later]).0,
            forall|first: int| 0 <= first < firsts@.len() ==> keys@.contains(#[trigger] firsts@[first]),
            forall|first: int, at: int|
                0 <= first < firsts@.len() && 0 <= at < keys@.len() && (#[trigger] keys@[at]).0
                    == (#[trigger] firsts@[first]).0 ==> firsts@[first].1 <= keys@[at].1,
            forall|at: int|
                0 <= at < index ==> exists|first: int|
                    0 <= first < firsts@.len() && (#[trigger] firsts@[first]).0 == (
                    #[trigger] keys@[at]).0,
        decreases keys@.len() - index,
    {
        let key = keys[index];
        if index == 0 || key.0 != keys[index - 1].0 {
            let ghost before = firsts@;
            proof {
                if index > 0 {
                    assert(key_order(keys@[index - 1], keys@[index as int]));
                }
            }
            firsts.push(key);
            proof {
                let last = before.len() as int;
                assert(firsts@[last] == key);
                assert forall|earlier: int, later: int|
                    0 <= earlier < later < firsts@.len() implies (#[trigger] firsts@[earlier]).0
                        < (#[trigger] firsts@[later]).0 by {
                    assert(firsts@[earlier] == before[earlier]);
                    if later < last {
                        assert(firsts@[later] == before[later]);
                    } else {
                        assert(before[earlier].0 <= before.last().0) by {
                            if earlier < last - 1 {
                                assert(before[earlier].0 < before[last - 1].0);
                            }
                        }
                    }
                }
                assert forall|first: int| 0 <= first < firsts@.len() implies keys@.contains(
                    #[trigger] firsts@[first],
                ) by {
                    if first < last {
                        assert(firsts@[first] == before[first]);
                    } else {
                        assert(keys@[index as int] == key);
                    }
                }
                assert forall|first: int, at: int|
                    0 <= first < firsts@.len() && 0 <= at < keys@.len() && (#[trigger] keys@[at]).0
                        == (#[trigger] firsts@[first]).0 implies firsts@[first].1 <= keys@[at].1 by {
                    if first < last {
                        assert(firsts@[first] == before[first]);
                    } else if at >= index {
                        if at > index {
                            assert(key_order(keys@[index as int], keys@[at]));
                        }
                    } else {
                        if at < index - 1 {
                            assert(key_order(keys@[at], keys@[index - 1]));
                        }
                    }
                }
                assert forall|at: int| 0 <= at < index + 1 implies exists|first: int|
                    0 <= first < firsts@.len() && (#[trigger] firsts@[first]).0 == (
                    #[trigger] keys@[at]).0 by {
                    if at < index {
                        let first = choose|first: int|
                            0 <= first < before.len() && (#[trigger] before[first]).0 == keys@[at].0;
                        assert(firsts@[first] == before[first]);
                    } else {
                        assert(firsts@[last].0 == keys@[at].0);
                    }
                }
            }
        } else {
            proof {
                let last = firsts@.len() - 1;
                assert forall|at: int| 0 <= at < index + 1 implies exists|first: int|
                    0 <= first < firsts@.len() && (#[trigger] firsts@[first]).0 == (
                    #[trigger] keys@[at]).0 by {
                    if at == index {
                        assert(firsts@[last].0 == keys@[at].0);
                    }
                }
            }
        }
        index = index + 1;
    }
    firsts
}

/// Where the `index`-th function ends, reading the starts off `firsts`.
spec fn end_from(
    symbols: Seq<Symbol>,
    firsts: Seq<(u64, usize)>,
    index: int,
    decoded_end: u64,
) -> u64 {
    let start = firsts[index].0;
    let declared = if firsts[index].1 < symbols.len() {
        symbols[firsts[index].1 as int].size
    } else {
        0
    };
    let end = if declared > 0 {
        if start + declared > u64::MAX {
            u64::MAX
        } else {
            (start + declared) as u64
        }
    } else if index + 1 < firsts.len() {
        firsts[index + 1].0
    } else {
        decoded_end
    };
    if end > start {
        end
    } else {
        start
    }
}

/// Every function of the file, in address order: one for each address a
/// symbol names a function at or the code was found to point at, named by
/// the first symbol naming it, and ending at its declared size, or where the
/// next one begins, or where the decoded code ends.
///
/// The ends are worked out once both lists are merged, so a named function
/// that runs up to an unnamed one ends there rather than swallowing it.
pub fn table(symbols: &[Symbol], found: &[u64], decoded_end: u64) -> (table: Vec<Bounds>)
    requires
        symbols@.len() + found@.len() <= usize::MAX,
    ensures
        forall|earlier: int, later: int|
            0 <= earlier < later < table@.len() ==> (#[trigger] table@[earlier]).start
                < (#[trigger] table@[later]).start,
        forall|address: u64|
            begins_at(symbols@, found@, address) <==> exists|index: int|
                0 <= index < table@.len() && (#[trigger] table@[index]).start == address,
        forall|index: int|
            0 <= index < table@.len() ==> named_by(
                symbols@,
                (#[trigger] table@[index]).start,
                table@[index].named,
            ),
        forall|index: int|
            0 <= index < table@.len() ==> (#[trigger] table@[index]).end == function_end(
                symbols@,
                table@,
                index,
                decoded_end,
            ),
{
    let mut keys = gather(symbols, found);
    let ghost gathered = keys@;
    sort_keys(&mut keys);
    proof {
        broadcast use vstd::seq_lib::group_to_multiset_ensures;

        assert forall|key: (u64, usize)| keys@.contains(key) <==> gathered.contains(key) by {
            assert(keys@.to_multiset().count(key) == gathered.to_multiset().count(key));
        }
    }
    let firsts = leading(&keys);
    let count = symbols.len();
    let mut table: Vec<Bounds> = Vec::new();
    let mut index: usize = 0;
    while index < firsts.len()
        invariant
            count == symbols@.len(),
            index <= firsts@.len(),
            table@.len() == index,
            forall|done: int|
                0 <= done < index ==> {
                    &&& (#[trigger] table@[done]).start == firsts@[done].0
                    &&& table@[done].named == if firsts@[done].1 < count {
                        Some(firsts@[done].1)
                    } else {
                        None
                    }
                    &&& table@[done].end == end_from(symbols@, firsts@, done, decoded_end)
                },
        decreases firsts@.len() - index,
    {
        let (start, position) = firsts[index];
        let named = if position < count {
            Some(position)
        } else {
            None
        };
        let declared = match named {
            Some(symbol) => symbols[symbol].size,
            None => 0,
        };
        let end = if declared > 0 {
            start.saturating_add(declared)
        } else if index + 1 < firsts.len() {
            firsts[index + 1].0
        } else {
            decoded_end
        };
        let end = if end > start {
            end
        } else {
            start
        };
        table.push(Bounds { start, end, named });
        proof {
            assert forall|done: int| 0 <= done < index + 1 implies {
                &&& (#[trigger] table@[done]).start == firsts@[done].0
                &&& table@[done].named == if firsts@[done].1 < count {
                    Some(firsts@[done].1)
                } else {
                    None
                }
                &&& table@[done].end == end_from(symbols@, firsts@, done, decoded_end)
            } by {}
        }
        index = index + 1;
    }
    proof {
        let n = count as int;
        assert forall|at: int| 0 <= at < firsts@.len() implies (#[trigger] table@[at]).end
            == function_end(symbols@, table@, at, decoded_end) by {
            if at + 1 < table@.len() {
                assert(table@[at + 1].start == firsts@[at + 1].0);
            }
        }
        assert forall|earlier: int, later: int|
            0 <= earlier < later < table@.len() implies (#[trigger] table@[earlier]).start
                < (#[trigger] table@[later]).start by {
            assert(firsts@[earlier].0 < firsts@[later].0);
        }
        assert forall|address: u64|
            begins_at(symbols@, found@, address) implies exists|at: int|
                0 <= at < table@.len() && (#[trigger] table@[at]).start == address by {
            let key = if exists|symbol: int| 0 <= symbol < n && #[trigger] names(symbols@[symbol], address) {
                let symbol = choose|symbol: int| 0 <= symbol < n && #[trigger] names(symbols@[symbol], address);
                assert(gathered.contains((symbols@[symbol].address->0, symbol as usize)));
                (address, symbol as usize)
            } else {
                let place = choose|place: int| 0 <= place < found@.len() && found@[place] == address;
                assert(gathered.contains((found@[place], (n + place) as usize)));
                (address, (n + place) as usize)
            };
            assert(keys@.contains(key));
            let at = choose|at: int| 0 <= at < keys@.len() && keys@[at] == key;
            let first = choose|first: int|
                0 <= first < firsts@.len() && (#[trigger] firsts@[first]).0 == (#[trigger] keys@[at]).0;
            assert(table@[first].start == address);
        }
        assert forall|at: int|
            0 <= at < table@.len() implies begins_at(symbols@, found@, (#[trigger] table@[at]).start)
            && named_by(symbols@, table@[at].start, table@[at].named) by {
            let first = firsts@[at];
            let address = first.0;
            assert(keys@.contains(first));
            assert(gathered.contains(first));
            let place = choose|place: int| 0 <= place < gathered.len() && gathered[place] == first;
            assert(valid_key(symbols@, found@, gathered[place]));
            if first.1 < n {
                assert(names(symbols@[first.1 as int], address));
                assert forall|earlier: int| 0 <= earlier < first.1 implies !#[trigger] names(
                    symbols@[earlier],
                    address,
                ) by {
                    if names(symbols@[earlier], address) {
                        assert(gathered.contains((address, earlier as usize)));
                        assert(keys@.contains((address, earlier as usize)));
                        let other = choose|other: int|
                            0 <= other < keys@.len() && keys@[other] == (address, earlier as usize);
                        assert(first.1 <= keys@[other].1);
                    }
                }
            } else {
                assert(found@[first.1 - n] == address);
                assert(found@.contains(address));
                assert forall|symbol: int| 0 <= symbol < n implies !#[trigger] names(
                    symbols@[symbol],
                    address,
                ) by {
                    if names(symbols@[symbol], address) {
                        assert(gathered.contains((address, symbol as usize)));
                        assert(keys@.contains((address, symbol as usize)));
                        let other = choose|other: int|
                            0 <= other < keys@.len() && keys@[other] == (address, symbol as usize);
                        assert(first.1 <= keys@[other].1);
                    }
                }
            }
        }
    }
    table
}

} // verus!
