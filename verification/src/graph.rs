//! One function drawn as its control flow: which blocks stand in which rank,
//! and which function the view shows.

use vstd::prelude::*;
use crate::text::{chars_of, push_char, string_of};
use vstd::set_lib::{lemma_int_range, lemma_len_subset, set_int_range};

verus! {

/// How many characters of a function's name the heading shows.
pub const NAME_SHOWN: usize = 56;

/// A name cut to what the heading has room for, with an ellipsis when it was.
pub open spec fn shortened_name(name: Seq<char>) -> Seq<char> {
    if name.len() <= NAME_SHOWN {
        name
    } else {
        name.take(NAME_SHOWN as int).push('\u{2026}')
    }
}

/// A name cut to what the heading has room for, with an ellipsis when it was.
pub fn shortened(name: &str) -> (shown: String)
    ensures
        shown@ == shortened_name(name@),
{
    let characters = chars_of(name);
    if characters.len() <= NAME_SHOWN {
        return string_of(&characters);
    }
    let mut kept: Vec<char> = Vec::new();
    let mut index: usize = 0;
    while index < NAME_SHOWN
        invariant
            index <= NAME_SHOWN < characters.len(),
            kept@ == characters@.take(index as int),
        decreases NAME_SHOWN - index,
    {
        kept.push(characters[index]);
        index = index + 1;
        assert(kept@ =~= characters@.take(index as int));
    }
    kept.push('\u{2026}');
    string_of(&kept)
}

/// The first of `functions`, each a start and an end, that holds `address`.
pub open spec fn holding(functions: Seq<(u64, u64)>, address: u64) -> Option<u64>
    decreases functions.len(),
{
    if functions.len() == 0 {
        None
    } else if functions[0].0 <= address < functions[0].1 {
        Some(functions[0].0)
    } else {
        holding(functions.skip(1), address)
    }
}

/// The function found for an address is the first of the list whose start
/// is at or before it and whose end is past it, an instruction at a
/// function's own start included; none is found only when no function holds
/// the address that way.
pub proof fn lemma_the_first_function_holding_the_address(functions: Seq<(u64, u64)>, address: u64)
    ensures
        holding(functions, address) matches Some(start) ==> exists|index: int|
            0 <= index < functions.len() && #[trigger] functions[index].0 == start
                && functions[index].0 <= address && address < functions[index].1 && forall|earlier: int|
                0 <= earlier < index ==> !(functions[earlier].0 <= address && address
                    < functions[earlier].1),
        holding(functions, address) is None <==> forall|index: int|
            0 <= index < functions.len() ==> !(#[trigger] functions[index].0 <= address && address
                < functions[index].1),
    decreases functions.len(),
{
    if functions.len() > 0 {
        let rest = functions.skip(1);
        lemma_the_first_function_holding_the_address(rest, address);
        if !(functions[0].0 <= address && address < functions[0].1) {
            if let Some(start) = holding(functions, address) {
                let inner = choose|index: int|
                    0 <= index < rest.len() && #[trigger] rest[index].0 == start && rest[index].0
                        <= address && address < rest[index].1 && forall|earlier: int|
                        0 <= earlier < index ==> !(rest[earlier].0 <= address && address
                            < rest[earlier].1);
                assert(functions[inner + 1] == rest[inner]);
                assert forall|earlier: int| 0 <= earlier < inner + 1 implies !(functions[earlier].0
                    <= address && address < functions[earlier].1) by {
                    if earlier > 0 {
                        assert(functions[earlier] == rest[earlier - 1]);
                    }
                }
            } else {
                assert forall|index: int| 0 <= index < functions.len() implies !(
                #[trigger] functions[index].0 <= address && address < functions[index].1) by {
                    if index > 0 {
                        assert(functions[index] == rest[index - 1]);
                    }
                }
            }
        }
    }
}

/// The function the graph shows: the one selected in the functions view, or
/// the first one holding the instruction selected in the listing.
pub open spec fn chosen(
    selected_function: Option<u64>,
    selected_instruction: Option<u64>,
    functions: Seq<(u64, u64)>,
) -> Option<u64> {
    match selected_function {
        Some(start) => Some(start),
        None => match selected_instruction {
            None => None,
            Some(address) => holding(functions, address),
        },
    }
}

/// The function the graph shows, given what is selected and where each
/// function starts and ends.
pub fn chosen_function(
    selected_function: Option<u64>,
    selected_instruction: Option<u64>,
    functions: &[(u64, u64)],
) -> (function: Option<u64>)
    ensures
        function == chosen(selected_function, selected_instruction, functions@),
{
    if let Some(selected) = selected_function {
        return Some(selected);
    }
    let address = match selected_instruction {
        None => return None,
        Some(address) => address,
    };
    let mut index: usize = 0;
    assert(functions@.skip(0) =~= functions@);
    while index < functions.len()
        invariant
            index <= functions@.len(),
            selected_function is None,
            selected_instruction == Some(address),
            holding(functions@, address) == holding(functions@.skip(index as int), address),
        decreases functions@.len() - index,
    {
        let (start, end) = functions[index];
        let ghost rest = functions@.skip(index as int);
        assert(rest[0] == functions@[index as int]);
        assert(rest.skip(1) =~= functions@.skip(index + 1));
        if start <= address && address < end {
            assert(start == functions@[index as int].0 && end == functions@[index as int].1);
            assert(rest.len() > 0);
            assert(holding(rest, address) == Some(start));
            return Some(start);
        }
        index = index + 1;
    }
    None
}

/// Whether every rank is one a row can be made for.
pub open spec fn countable(ranks: Seq<usize>) -> bool {
    forall|block: int| 0 <= block < ranks.len() ==> #[trigger] ranks[block] < usize::MAX
}

/// The deepest rank, or nothing deeper than the entry when there are none.
pub open spec fn deepest(ranks: Seq<usize>) -> nat
    decreases ranks.len(),
{
    if ranks.len() == 0 {
        0
    } else {
        let before = deepest(ranks.drop_last());
        if ranks.last() > before {
            ranks.last() as nat
        } else {
            before
        }
    }
}

proof fn lemma_deepest_bounds(ranks: Seq<usize>)
    ensures
        forall|block: int| 0 <= block < ranks.len() ==> #[trigger] ranks[block] <= deepest(ranks),
        ranks.len() == 0 || exists|block: int|
            0 <= block < ranks.len() && #[trigger] ranks[block] == deepest(ranks),
    decreases ranks.len(),
{
    if ranks.len() > 0 {
        let before = ranks.drop_last();
        lemma_deepest_bounds(before);
        assert forall|block: int| 0 <= block < ranks.len() implies #[trigger] ranks[block]
            <= deepest(ranks) by {
            if block < before.len() {
                assert(before[block] == ranks[block]);
            }
        }
        if ranks.last() <= deepest(before) && before.len() > 0 {
            let block = choose|block: int|
                0 <= block < before.len() && #[trigger] before[block] == deepest(before);
            assert(ranks[block] == deepest(ranks));
        } else {
            assert(ranks[ranks.len() - 1] == deepest(ranks));
        }
    }
}

/// The blocks of each rank, in address order: row `r` holds, in increasing
/// order, exactly the blocks whose rank is `r`.
pub fn rows_of(ranks: &[usize]) -> (rows: Vec<Vec<usize>>)
    requires
        countable(ranks@),
    ensures
        rows@.len() == deepest(ranks@) + 1,
        forall|rank: int, position: int|
            0 <= rank < rows@.len() && 0 <= position < rows@[rank]@.len() ==> {
                let block = #[trigger] rows@[rank]@[position];
                block < ranks@.len() && ranks@[block as int] == rank
            },
        forall|rank: int, earlier: int, later: int|
            0 <= rank < rows@.len() && 0 <= earlier < later < rows@[rank]@.len()
                ==> #[trigger] rows@[rank]@[earlier] < #[trigger] rows@[rank]@[later],
        forall|block: int|
            0 <= block < ranks@.len() ==> #[trigger] rows@[ranks@[block] as int]@.contains(
                block as usize,
            ),
{
    let mut top: usize = 0;
    let mut index: usize = 0;
    while index < ranks.len()
        invariant
            index <= ranks@.len(),
            top == deepest(ranks@.take(index as int)),
            countable(ranks@),
        decreases ranks@.len() - index,
    {
        let ghost before = ranks@.take(index as int);
        let ghost after = ranks@.take(index + 1);
        assert(after.drop_last() =~= before);
        if ranks[index] > top {
            top = ranks[index];
        }
        index = index + 1;
    }
    assert(ranks@.take(ranks@.len() as int) =~= ranks@);
    proof {
        lemma_deepest_bounds(ranks@);
        if ranks@.len() > 0 {
            let block = choose|block: int|
                0 <= block < ranks@.len() && #[trigger] ranks@[block] == deepest(ranks@);
            assert(ranks@[block] < usize::MAX);
        }
    }
    let mut rows: Vec<Vec<usize>> = Vec::new();
    while rows.len() <= top
        invariant
            top == deepest(ranks@),
            top < usize::MAX,
            rows@.len() <= top + 1,
            forall|rank: int| 0 <= rank < rows@.len() ==> #[trigger] rows@[rank]@.len() == 0,
        decreases top + 1 - rows@.len(),
    {
        rows.push(Vec::new());
    }
    let mut block: usize = 0;
    while block < ranks.len()
        invariant
            block <= ranks@.len(),
            rows@.len() == deepest(ranks@) + 1,
            forall|other: int| 0 <= other < ranks@.len() ==> #[trigger] ranks@[other] <= deepest(ranks@),
            forall|rank: int, position: int|
                0 <= rank < rows@.len() && 0 <= position < rows@[rank]@.len() ==> {
                    let placed = #[trigger] rows@[rank]@[position];
                    placed < block && ranks@[placed as int] == rank
                },
            forall|rank: int, earlier: int, later: int|
                0 <= rank < rows@.len() && 0 <= earlier < later < rows@[rank]@.len()
                    ==> #[trigger] rows@[rank]@[earlier] < #[trigger] rows@[rank]@[later],
            forall|earlier: int|
                0 <= earlier < block ==> #[trigger] rows@[ranks@[earlier] as int]@.contains(
                    earlier as usize,
                ),
        decreases ranks@.len() - block,
    {
        let rank = ranks[block];
        let ghost before = rows@;
        let mut row = rows[rank].clone();
        let ghost old_row = row@;
        assert(old_row == before[rank as int]@);
        row.push(block);
        rows.set(rank, row);
        assert forall|earlier: int|
            0 <= earlier < block + 1 implies #[trigger] rows@[ranks@[earlier] as int]@.contains(
            earlier as usize,
        ) by {
            if earlier < block {
                assert(before[ranks@[earlier] as int]@.contains(earlier as usize));
                if ranks@[earlier] == rank {
                    let position = choose|position: int|
                        0 <= position < old_row.len() && old_row[position] == earlier as usize;
                    assert(rows@[rank as int]@[position] == earlier as usize);
                } else {
                    assert(rows@[ranks@[earlier] as int] == before[ranks@[earlier] as int]);
                }
            } else {
                assert(rows@[rank as int]@[old_row.len() as int] == block);
            }
        }
        block = block + 1;
    }
    rows
}

/// One block of a function as the graph reads it: where it starts, and the
/// addresses the flow goes on to from it.
pub struct Block {
    pub start: u64,
    pub successors: Vec<u64>,
}

/// The first block that starts at `address`.
pub open spec fn block_at(blocks: Seq<Block>, address: u64) -> Option<nat>
    decreases blocks.len(),
{
    if blocks.len() == 0 {
        None
    } else if blocks[0].start == address {
        Some(0)
    } else {
        match block_at(blocks.skip(1), address) {
            Some(index) => Some(index + 1),
            None => None,
        }
    }
}

/// Where the `edge`-th way out of block `from` leads, when it leads to a
/// block of the function.
pub open spec fn leads_to(blocks: Seq<Block>, from: int, edge: int) -> Option<nat> {
    block_at(blocks, blocks[from].successors@[edge])
}

/// Whether the flow can go from block `from` straight on to block `to`.
pub open spec fn step(blocks: Seq<Block>, from: int, to: int) -> bool {
    &&& 0 <= from < blocks.len()
    &&& 0 <= to
    &&& exists|edge: int|
        0 <= edge < blocks[from].successors@.len() && #[trigger] leads_to(blocks, from, edge)
            == Some(to as nat)
}

/// Whether `walk` follows the flow from the entry block, one step at a time.
pub open spec fn is_walk(blocks: Seq<Block>, walk: Seq<int>) -> bool {
    &&& walk.len() >= 1
    &&& walk[0] == 0
    &&& forall|position: int|
        0 <= position < walk.len() - 1 ==> step(blocks, #[trigger] walk[position], walk[position + 1])
}

/// Whether the flow reaches block `block` from the entry.
pub open spec fn reached(blocks: Seq<Block>, block: int) -> bool {
    exists|walk: Seq<int>| is_walk(blocks, walk) && #[trigger] walk.last() == block
}

/// The deepest rank of a reached block among the first `count` blocks.
pub open spec fn deepest_reached(blocks: Seq<Block>, ranks: Seq<usize>, count: int) -> nat
    decreases count,
{
    if count <= 0 {
        0
    } else {
        let before = deepest_reached(blocks, ranks, count - 1);
        if reached(blocks, count - 1) && ranks[count - 1] > before {
            ranks[count - 1] as nat
        } else {
            before
        }
    }
}

/// How many of the first `count` blocks the flow does not reach.
pub open spec fn unreached_before(blocks: Seq<Block>, count: int) -> nat
    decreases count,
{
    if count <= 0 {
        0
    } else {
        unreached_before(blocks, count - 1) + if reached(blocks, count - 1) {
            0nat
        } else {
            1nat
        }
    }
}

/// The first block that starts at `address`.
fn find_block(blocks: &[Block], address: u64) -> (found: Option<usize>)
    ensures
        match found {
            Some(index) => block_at(blocks@, address) == Some(index as nat),
            None => block_at(blocks@, address) is None,
        },
        found matches Some(index) ==> index < blocks@.len(),
{
    let mut index: usize = 0;
    while index < blocks.len()
        invariant
            index <= blocks@.len(),
            forall|earlier: int| 0 <= earlier < index ==> #[trigger] blocks@[earlier].start != address,
        decreases blocks@.len() - index,
    {
        if blocks[index].start == address {
            proof {
                lemma_block_at(blocks@, address, index as int);
            }
            return Some(index);
        }
        index = index + 1;
    }
    proof {
        lemma_no_block_at(blocks@, address);
    }
    None
}

proof fn lemma_block_at(blocks: Seq<Block>, address: u64, index: int)
    requires
        0 <= index < blocks.len(),
        blocks[index].start == address,
        forall|earlier: int| 0 <= earlier < index ==> #[trigger] blocks[earlier].start != address,
    ensures
        block_at(blocks, address) == Some(index as nat),
    decreases index,
{
    if index > 0 {
        let rest = blocks.skip(1);
        assert forall|earlier: int| 0 <= earlier < index - 1 implies #[trigger] rest[earlier].start
            != address by {
            assert(rest[earlier] == blocks[earlier + 1]);
        }
        assert(rest[index - 1] == blocks[index]);
        lemma_block_at(rest, address, index - 1);
        assert(blocks[0].start != address);
    }
}

proof fn lemma_no_block_at(blocks: Seq<Block>, address: u64)
    requires
        forall|earlier: int| 0 <= earlier < blocks.len() ==> #[trigger] blocks[earlier].start != address,
    ensures
        block_at(blocks, address) is None,
    decreases blocks.len(),
{
    if blocks.len() > 0 {
        let rest = blocks.skip(1);
        assert forall|earlier: int| 0 <= earlier < rest.len() implies #[trigger] rest[earlier].start
            != address by {
            assert(rest[earlier] == blocks[earlier + 1]);
        }
        lemma_no_block_at(rest, address);
        assert(blocks[0].start != address);
    }
}

/// A walk to `from` carried one step on to `to` is a walk to `to`.
proof fn lemma_walk_extends(blocks: Seq<Block>, walk: Seq<int>, to: int, edge: int)
    requires
        is_walk(blocks, walk),
        0 <= to,
        0 <= walk.last() < blocks.len(),
        0 <= edge < blocks[walk.last()].successors@.len(),
        leads_to(blocks, walk.last(), edge) == Some(to as nat),
    ensures
        is_walk(blocks, walk.push(to)),
        walk.push(to).last() == to,
        walk.push(to).len() == walk.len() + 1,
{
    let longer = walk.push(to);
    assert(step(blocks, walk.last(), to));
    assert forall|position: int| 0 <= position < longer.len() - 1 implies step(
        blocks,
        #[trigger] longer[position],
        longer[position + 1],
    ) by {
        if position < walk.len() - 1 {
            assert(longer[position] == walk[position]);
            assert(longer[position + 1] == walk[position + 1]);
        } else {
            assert(longer[position] == walk.last());
        }
    }
}

/// A shortest walk from the entry to `block` takes `rank` steps: there is a
/// walk that long, and none shorter.
pub open spec fn distance_is(blocks: Seq<Block>, block: int, rank: int) -> bool {
    &&& exists|walk: Seq<int>|
        is_walk(blocks, walk) && #[trigger] walk.last() == block && walk.len() == rank + 1
    &&& forall|walk: Seq<int>|
        is_walk(blocks, walk) && #[trigger] walk.last() == block ==> walk.len() >= rank + 1
}

/// The `edge`-th way out of block `from` leads nowhere in the function, or to
/// a block already ranked at most one deeper than `from`.
spec fn edge_settled(blocks: Seq<Block>, ranks: Seq<usize>, from: int, edge: int) -> bool {
    match leads_to(blocks, from, edge) {
        Some(to) => to < blocks.len() && ranks[to as int] != usize::MAX && ranks[to as int]
            <= ranks[from] + 1,
        None => true,
    }
}

/// Every way out of block `from` is settled.
spec fn settled(blocks: Seq<Block>, ranks: Seq<usize>, from: int) -> bool {
    forall|edge: int|
        0 <= edge < blocks[from].successors@.len() ==> #[trigger] edge_settled(
            blocks,
            ranks,
            from,
            edge,
        )
}

/// `walk` goes from the entry to `block` in `rank` steps.
spec fn witnessed(blocks: Seq<Block>, walk: Seq<int>, block: int, rank: int) -> bool {
    is_walk(blocks, walk) && walk.last() == block && walk.len() == rank + 1
}

/// `after` keeps every rank that `before` had given.
spec fn keeps(before: Seq<usize>, after: Seq<usize>) -> bool {
    &&& after.len() == before.len()
    &&& forall|block: int|
        0 <= block < before.len() && before[block] != usize::MAX ==> #[trigger] after[block]
            == before[block]
}

/// What the breadth-first walk keeps true of its queue, wherever its head is:
/// the queue holds each ranked block once, in order of rank, and each ranked
/// block has a walk as long as its rank to show for it.
#[verifier::opaque]
spec fn searching(
    blocks: Seq<Block>,
    ranks: Seq<usize>,
    queue: Seq<usize>,
    walks: Seq<Seq<int>>,
    slot: Seq<int>,
) -> bool {
    let count = blocks.len();
    &&& ranks.len() == count
    &&& walks.len() == count
    &&& slot.len() == count
    &&& 1 <= queue.len() <= count
    &&& queue[0] == 0
    &&& ranks[0] == 0
    &&& forall|position: int|
        0 <= position < queue.len() ==> {
            let block = #[trigger] queue[position] as int;
            &&& block < count
            &&& ranks[block] != usize::MAX
            &&& ranks[block] <= position
            &&& slot[block] == position
        }
    &&& forall|block: int|
        0 <= block < count && #[trigger] ranks[block] != usize::MAX ==> {
            &&& 0 <= slot[block] < queue.len()
            &&& queue[slot[block]] == block
            &&& witnessed(blocks, walks[block], block, ranks[block] as int)
        }
    &&& forall|earlier: int, later: int|
        0 <= earlier <= later < queue.len() ==> ranks[#[trigger] queue[earlier] as int]
            <= ranks[#[trigger] queue[later] as int]
}

/// No block in the queue is more than one rank deeper than `rank`.
spec fn within_one(ranks: Seq<usize>, queue: Seq<usize>, rank: int) -> bool {
    forall|position: int|
        0 <= position < queue.len() ==> ranks[#[trigger] queue[position] as int] <= rank + 1
}

/// The blocks before `head` in the queue have had their ways out followed.
spec fn settled_before(blocks: Seq<Block>, ranks: Seq<usize>, queue: Seq<usize>, head: int) -> bool {
    forall|position: int|
        0 <= position < head ==> settled(blocks, ranks, #[trigger] queue[position] as int)
}

/// A queue of distinct blocks, none of them `missing`, leaves room for it.
proof fn lemma_room_left(queue: Seq<usize>, count: int, missing: int)
    requires
        0 <= missing < count,
        forall|position: int|
            0 <= position < queue.len() ==> #[trigger] queue[position] < count && queue[position]
                != missing,
        forall|first: int, second: int|
            0 <= first < second < queue.len() ==> #[trigger] queue[first] != #[trigger] queue[second],
    ensures
        queue.len() < count,
{
    let numbers = queue.map_values(|block: usize| block as int);
    assert(numbers.no_duplicates()) by {
        assert forall|first: int, second: int|
            0 <= first < numbers.len() && 0 <= second < numbers.len() && first != second implies
            numbers[first] != numbers[second] by {
            if first < second {
                assert(queue[first] != queue[second]);
            } else {
                assert(queue[second] != queue[first]);
            }
        }
    }
    numbers.unique_seq_to_set();
    lemma_int_range(0, count);
    let others = set_int_range(0, count).remove(missing);
    assert(numbers.to_set().subset_of(others)) by {
        assert forall|number: int| numbers.to_set().contains(number) implies others.contains(
            number,
        ) by {
            let position = choose|position: int|
                0 <= position < numbers.len() && numbers[position] == number;
            assert(queue[position] < count);
        }
    }
    lemma_len_subset(numbers.to_set(), others);
}

/// The queue that holds only the entry block.
proof fn lemma_start(blocks: Seq<Block>, ranks: Seq<usize>) -> (start: (Seq<Seq<int>>, Seq<int>))
    requires
        blocks.len() > 0,
        ranks.len() == blocks.len(),
        ranks[0] == 0,
        forall|block: int| 1 <= block < ranks.len() ==> #[trigger] ranks[block] == usize::MAX,
    ensures
        searching(blocks, ranks, seq![0usize], start.0, start.1),
        within_one(ranks, seq![0usize], 0),
{
    reveal(searching);
    let entry = seq![0int];
    let walks = Seq::new(blocks.len(), |block: int| entry);
    let slot = Seq::new(blocks.len(), |block: int| 0int);
    assert(is_walk(blocks, entry));
    assert(witnessed(blocks, walks[0], 0, 0));
    assert(seq![0usize][0] == 0usize);
    (walks, slot)
}

/// What the queue says of the block at `position`.
proof fn lemma_queued(
    blocks: Seq<Block>,
    ranks: Seq<usize>,
    queue: Seq<usize>,
    walks: Seq<Seq<int>>,
    slot: Seq<int>,
    position: int,
)
    requires
        searching(blocks, ranks, queue, walks, slot),
        0 <= position < queue.len(),
    ensures
        queue[position] < blocks.len(),
        ranks[queue[position] as int] != usize::MAX,
        ranks[queue[position] as int] <= position,
        ranks.len() == blocks.len(),
        queue.len() <= blocks.len(),
{
    reveal(searching);
}

/// A way out to a block that already has a rank is settled, the queue being
/// no more than one rank deep past the block whose ways out are followed.
proof fn lemma_known(
    blocks: Seq<Block>,
    ranks: Seq<usize>,
    queue: Seq<usize>,
    walks: Seq<Seq<int>>,
    slot: Seq<int>,
    current: int,
    edge: int,
    next: int,
)
    requires
        searching(blocks, ranks, queue, walks, slot),
        within_one(ranks, queue, ranks[current] as int),
        0 <= next < blocks.len(),
        ranks[next] != usize::MAX,
        leads_to(blocks, current, edge) == Some(next as nat),
    ensures
        edge_settled(blocks, ranks, current, edge),
{
    reveal(searching);
    let position = slot[next];
    assert(queue[position] as int == next);
}

/// Ranking a block for the first time, one deeper than the block whose ways
/// out are followed, and putting it at the back of the queue.
proof fn lemma_push(
    blocks: Seq<Block>,
    ranks: Seq<usize>,
    queue: Seq<usize>,
    walks: Seq<Seq<int>>,
    slot: Seq<int>,
    at: int,
    rank: usize,
    edge: int,
    next: int,
) -> (grown: (Seq<Seq<int>>, Seq<int>))
    requires
        searching(blocks, ranks, queue, walks, slot),
        blocks.len() <= usize::MAX / 2,
        0 <= at < queue.len(),
        rank == ranks[queue[at] as int],
        within_one(ranks, queue, rank as int),
        0 <= next < blocks.len(),
        ranks[next] == usize::MAX,
        0 <= edge < blocks[queue[at] as int].successors@.len(),
        leads_to(blocks, queue[at] as int, edge) == Some(next as nat),
    ensures
        queue.len() + 1 <= blocks.len(),
        rank + 1 < usize::MAX,
        searching(
            blocks,
            ranks.update(next, (rank + 1) as usize),
            queue.push(next as usize),
            grown.0,
            grown.1,
        ),
        within_one(ranks.update(next, (rank + 1) as usize), queue.push(next as usize), rank as int),
        keeps(ranks, ranks.update(next, (rank + 1) as usize)),
{
    reveal(searching);
    let count = blocks.len() as int;
    let current = queue[at] as int;
    assert forall|first: int, second: int|
        0 <= first < second < queue.len() implies #[trigger] queue[first] != #[trigger] queue[second] by {
        assert(slot[queue[first] as int] == first);
        assert(slot[queue[second] as int] == second);
    }
    assert forall|position: int| 0 <= position < queue.len() implies #[trigger] queue[position]
        < count && queue[position] != next by {
        assert(ranks[queue[position] as int] != usize::MAX);
    }
    lemma_room_left(queue, count, next);
    assert(ranks[current] != usize::MAX);
    let walk = walks[current];
    assert(witnessed(blocks, walk, current, rank as int));
    lemma_walk_extends(blocks, walk, next, edge);
    let walks_after = walks.update(next, walk.push(next));
    let slot_after = slot.update(next, queue.len() as int);
    let ranks_after = ranks.update(next, (rank + 1) as usize);
    let queue_after = queue.push(next as usize);
    assert forall|position: int| 0 <= position < queue_after.len() implies {
        let block = #[trigger] queue_after[position] as int;
        &&& block < count
        &&& ranks_after[block] != usize::MAX
        &&& ranks_after[block] <= position
        &&& slot_after[block] == position
    } by {
        if position < queue.len() {
            assert(queue_after[position] == queue[position]);
            assert(queue[position] != next);
        }
    }
    assert forall|block: int|
        0 <= block < count && #[trigger] ranks_after[block] != usize::MAX implies {
        &&& 0 <= slot_after[block] < queue_after.len()
        &&& queue_after[slot_after[block]] == block
        &&& witnessed(blocks, walks_after[block], block, ranks_after[block] as int)
    } by {
        if block != next {
            assert(ranks_after[block] == ranks[block]);
            assert(queue_after[slot[block]] == queue[slot[block]]);
        }
    }
    assert forall|earlier: int, later: int|
        0 <= earlier <= later < queue_after.len() implies ranks_after[#[trigger] queue_after[earlier] as int]
        <= ranks_after[#[trigger] queue_after[later] as int] by {
        if earlier < queue.len() {
            assert(queue_after[earlier] == queue[earlier]);
            assert(queue[earlier] != next);
        }
        if later < queue.len() {
            assert(queue_after[later] == queue[later]);
            assert(queue[later] != next);
        }
    }
    assert forall|position: int| 0 <= position < queue_after.len() implies ranks_after[#[trigger] queue_after[position] as int]
        <= rank + 1 by {
        if position < queue.len() {
            assert(queue_after[position] == queue[position]);
            assert(queue[position] != next);
        }
    }
    (walks_after, slot_after)
}

/// A way out that was settled stays settled while ranks are only added.
proof fn lemma_edge_kept(
    blocks: Seq<Block>,
    before: Seq<usize>,
    after: Seq<usize>,
    from: int,
    edge: int,
)
    requires
        keeps(before, after),
        before.len() == blocks.len(),
        0 <= from < blocks.len(),
        before[from] != usize::MAX,
        edge_settled(blocks, before, from, edge),
    ensures
        edge_settled(blocks, after, from, edge),
{
    if let Some(to) = leads_to(blocks, from, edge) {
        assert(after[to as int] == before[to as int]);
        assert(after[from] == before[from]);
    }
}

/// Blocks settled before the head stay settled while ranks are only added and
/// the queue only grows.
proof fn lemma_settled_kept(
    blocks: Seq<Block>,
    before: Seq<usize>,
    after: Seq<usize>,
    queue: Seq<usize>,
    queue_after: Seq<usize>,
    walks: Seq<Seq<int>>,
    slot: Seq<int>,
    head: int,
)
    requires
        searching(blocks, before, queue, walks, slot),
        keeps(before, after),
        0 <= head <= queue.len(),
        queue.is_prefix_of(queue_after),
        settled_before(blocks, before, queue, head),
    ensures
        settled_before(blocks, after, queue_after, head),
{
    assert forall|position: int| 0 <= position < head implies settled(
        blocks,
        after,
        #[trigger] queue_after[position] as int,
    ) by {
        lemma_queued(blocks, before, queue, walks, slot, position);
        let from = queue[position] as int;
        assert(queue_after[position] == queue[position]);
        assert(settled(blocks, before, from));
        assert forall|edge: int| 0 <= edge < blocks[from].successors@.len() implies #[trigger] edge_settled(
            blocks,
            after,
            from,
            edge,
        ) by {
            lemma_edge_kept(blocks, before, after, from, edge);
        }
    }
}

/// Moving the head on: the queue is no more than one rank deeper than the
/// new head's block either.
proof fn lemma_next_head(
    blocks: Seq<Block>,
    ranks: Seq<usize>,
    queue: Seq<usize>,
    walks: Seq<Seq<int>>,
    slot: Seq<int>,
    at: int,
)
    requires
        searching(blocks, ranks, queue, walks, slot),
        0 <= at,
        at + 1 < queue.len(),
        within_one(ranks, queue, ranks[queue[at] as int] as int),
    ensures
        within_one(ranks, queue, ranks[queue[at + 1] as int] as int),
{
    reveal(searching);
    assert(ranks[queue[at] as int] <= ranks[queue[at + 1] as int]);
}

/// Once every queued block has been followed, every ranked block is settled,
/// has its walk, and a rank below the number of blocks.
proof fn lemma_searched(
    blocks: Seq<Block>,
    ranks: Seq<usize>,
    queue: Seq<usize>,
    walks: Seq<Seq<int>>,
    slot: Seq<int>,
)
    requires
        searching(blocks, ranks, queue, walks, slot),
        settled_before(blocks, ranks, queue, queue.len() as int),
    ensures
        ranks.len() == blocks.len(),
        blocks.len() > 0,
        ranks[0] == 0,
        forall|from: int|
            0 <= from < blocks.len() && ranks[from] != usize::MAX ==> #[trigger] settled(
                blocks,
                ranks,
                from,
            ),
        forall|block: int|
            0 <= block < blocks.len() && #[trigger] ranks[block] != usize::MAX ==> ranks[block]
                < blocks.len() && witnessed(blocks, walks[block], block, ranks[block] as int),
{
    reveal(searching);
    assert forall|from: int| 0 <= from < blocks.len() && ranks[from] != usize::MAX implies #[trigger] settled(
        blocks,
        ranks,
        from,
    ) by {
        let position = slot[from];
        assert(queue[position] as int == from);
    }
    assert forall|block: int|
        0 <= block < blocks.len() && #[trigger] ranks[block] != usize::MAX implies ranks[block]
        < blocks.len() by {
        let position = slot[block];
        assert(queue[position] as int == block);
    }
}

/// Every block a walk ends on was given a rank no larger than the walk is
/// long, once every ranked block has had its ways out followed.
proof fn lemma_walks_are_no_shorter(blocks: Seq<Block>, ranks: Seq<usize>, walk: Seq<int>)
    requires
        is_walk(blocks, walk),
        ranks.len() == blocks.len(),
        blocks.len() > 0,
        ranks[0] == 0,
        forall|from: int|
            0 <= from < blocks.len() && ranks[from] != usize::MAX ==> #[trigger] settled(
                blocks,
                ranks,
                from,
            ),
    ensures
        0 <= walk.last() < blocks.len(),
        ranks[walk.last()] != usize::MAX,
        ranks[walk.last()] + 1 <= walk.len(),
    decreases walk.len(),
{
    if walk.len() == 1 {
        assert(walk.last() == walk[0]);
    } else {
        let shorter = walk.drop_last();
        assert forall|position: int| 0 <= position < shorter.len() - 1 implies step(
            blocks,
            #[trigger] shorter[position],
            shorter[position + 1],
        ) by {
            assert(shorter[position] == walk[position]);
            assert(step(blocks, walk[position], walk[position + 1]));
        }
        lemma_walks_are_no_shorter(blocks, ranks, shorter);
        let from = shorter.last();
        assert(from == walk[walk.len() - 2]);
        assert(step(blocks, walk[walk.len() - 2], walk[walk.len() - 1]));
        let edge = choose|edge: int|
            0 <= edge < blocks[from].successors@.len() && #[trigger] leads_to(blocks, from, edge)
                == Some(walk[walk.len() - 1] as nat);
        assert(settled(blocks, ranks, from));
        assert(edge_settled(blocks, ranks, from, edge));
    }
}

/// Ranks that agree on the reached blocks agree on the deepest of them.
proof fn lemma_deepest_reached_agrees(
    blocks: Seq<Block>,
    first: Seq<usize>,
    second: Seq<usize>,
    count: int,
)
    requires
        forall|block: int| 0 <= block < count && #[trigger] reached(blocks, block) ==> first[block]
            == second[block],
    ensures
        deepest_reached(blocks, first, count) == deepest_reached(blocks, second, count),
    decreases count,
{
    if count > 0 {
        lemma_deepest_reached_agrees(blocks, first, second, count - 1);
    }
}

/// The breadth-first walk from the entry: each block the flow reaches gets
/// the number of steps of a shortest walk to it, the others stay unranked.
fn search(blocks: &[Block]) -> (found: Vec<usize>)
    requires
        blocks@.len() > 0,
        blocks@.len() <= usize::MAX / 2,
    ensures
        found@.len() == blocks@.len(),
        forall|block: int|
            #![trigger found@[block]]
            #![trigger reached(blocks@, block)]
            0 <= block < blocks@.len() ==> (found@[block] != usize::MAX <==> reached(blocks@, block)),
        forall|block: int|
            0 <= block < blocks@.len() && #[trigger] reached(blocks@, block) ==> found@[block]
                < blocks@.len() && distance_is(blocks@, block, found@[block] as int),
{
    let count = blocks.len();
    let mut ranks: Vec<usize> = Vec::new();
    ranks.push(0);
    while ranks.len() < count
        invariant
            1 <= ranks@.len() <= count,
            ranks@[0] == 0,
            forall|block: int| 1 <= block < ranks@.len() ==> #[trigger] ranks@[block] == usize::MAX,
        decreases count - ranks@.len(),
    {
        ranks.push(usize::MAX);
    }
    let mut queue: Vec<usize> = Vec::new();
    queue.push(0);
    let ghost mut walks: Seq<Seq<int>> = Seq::empty();
    let ghost mut slot: Seq<int> = Seq::empty();
    proof {
        assert(queue@ =~= seq![0usize]);
        let start = lemma_start(blocks@, ranks@);
        walks = start.0;
        slot = start.1;
    }
    let mut head: usize = 0;
    while head < queue.len()
        invariant
            count == blocks@.len(),
            0 < count <= usize::MAX / 2,
            searching(blocks@, ranks@, queue@, walks, slot),
            head <= queue@.len(),
            settled_before(blocks@, ranks@, queue@, head as int),
            head < queue@.len() ==> within_one(
                ranks@,
                queue@,
                ranks@[queue@[head as int] as int] as int,
            ),
        decreases count - head,
    {
        let at = head;
        proof {
            lemma_queued(blocks@, ranks@, queue@, walks, slot, at as int);
        }
        let current = queue[at];
        let rank = ranks[current];
        head = head + 1;
        let successors = &blocks[current].successors;
        let mut edge: usize = 0;
        while edge < successors.len()
            invariant
                count == blocks@.len(),
                0 < count <= usize::MAX / 2,
                successors@ == blocks@[current as int].successors@,
                edge <= successors@.len(),
                searching(blocks@, ranks@, queue@, walks, slot),
                head == at + 1,
                at < queue@.len() <= count,
                ranks@.len() == count,
                queue@[at as int] == current,
                current < count,
                ranks@[current as int] == rank,
                rank <= at,
                within_one(ranks@, queue@, rank as int),
                settled_before(blocks@, ranks@, queue@, at as int),
                forall|before: int|
                    0 <= before < edge ==> #[trigger] edge_settled(
                        blocks@,
                        ranks@,
                        current as int,
                        before,
                    ),
            decreases successors@.len() - edge,
        {
            let found = find_block(blocks, successors[edge]);
            assert(leads_to(blocks@, current as int, edge as int) == block_at(
                blocks@,
                successors@[edge as int],
            ));
            if let Some(next) = found {
                if ranks[next] == usize::MAX {
                    let ghost ranks_before = ranks@;
                    let ghost queue_before = queue@;
                    proof {
                        let grown = lemma_push(
                            blocks@,
                            ranks_before,
                            queue_before,
                            walks,
                            slot,
                            at as int,
                            rank,
                            edge as int,
                            next as int,
                        );
                        lemma_settled_kept(
                            blocks@,
                            ranks_before,
                            ranks_before.update(next as int, (rank + 1) as usize),
                            queue_before,
                            queue_before.push(next),
                            walks,
                            slot,
                            at as int,
                        );
                        assert forall|before: int| 0 <= before < edge implies #[trigger] edge_settled(
                            blocks@,
                            ranks_before.update(next as int, (rank + 1) as usize),
                            current as int,
                            before,
                        ) by {
                            lemma_edge_kept(
                                blocks@,
                                ranks_before,
                                ranks_before.update(next as int, (rank + 1) as usize),
                                current as int,
                                before,
                            );
                        }
                        walks = grown.0;
                        slot = grown.1;
                    }
                    ranks.set(next, rank + 1);
                    queue.push(next);
                    assert(ranks@ =~= ranks_before.update(next as int, (rank + 1) as usize));
                    assert(queue@ =~= queue_before.push(next));
                } else {
                    proof {
                        lemma_known(
                            blocks@,
                            ranks@,
                            queue@,
                            walks,
                            slot,
                            current as int,
                            edge as int,
                            next as int,
                        );
                    }
                }
            }
            edge = edge + 1;
        }
        proof {
            assert(settled(blocks@, ranks@, current as int));
            assert(settled_before(blocks@, ranks@, queue@, head as int));
            if (head as int) < queue@.len() {
                lemma_next_head(blocks@, ranks@, queue@, walks, slot, at as int);
            }
        }
    }
    proof {
        lemma_searched(blocks@, ranks@, queue@, walks, slot);
        assert forall|block: int| 0 <= block < count && #[trigger] reached(blocks@, block) implies ranks@[block]
            != usize::MAX && ranks@[block] < count && distance_is(
            blocks@,
            block,
            ranks@[block] as int,
        ) by {
            let walk = choose|walk: Seq<int>| is_walk(blocks@, walk) && #[trigger] walk.last() == block;
            lemma_walks_are_no_shorter(blocks@, ranks@, walk);
            assert(witnessed(blocks@, walks[block], block, ranks@[block] as int));
            assert forall|other: Seq<int>| is_walk(blocks@, other) && #[trigger] other.last() == block implies other.len()
                >= ranks@[block] + 1 by {
                lemma_walks_are_no_shorter(blocks@, ranks@, other);
            }
        }
        assert forall|block: int| 0 <= block < count && #[trigger] ranks@[block] != usize::MAX implies reached(
            blocks@,
            block,
        ) by {
            assert(witnessed(blocks@, walks[block], block, ranks@[block] as int));
            assert(walks[block].last() == block);
        }
    }
    ranks
}

/// How far each block is from the entry, by a breadth-first walk; blocks the
/// flow never reaches come after the deepest one, one rank each, in order.
///
/// A reached block's rank is the number of steps of the shortest walk from the
/// entry to it: there is a walk that long, and none shorter.
pub fn ranks(blocks: &[Block]) -> (ranks: Vec<usize>)
    requires
        blocks@.len() > 0,
        blocks@.len() <= usize::MAX / 2,
    ensures
        ranks@.len() == blocks@.len(),
        forall|block: int|
            0 <= block < blocks@.len() && #[trigger] reached(blocks@, block) ==> distance_is(
                blocks@,
                block,
                ranks@[block] as int,
            ),
        forall|block: int|
            0 <= block < blocks@.len() && !reached(blocks@, block) ==> #[trigger] ranks@[block]
                == deepest_reached(blocks@, ranks@, blocks@.len() as int) + 1 + unreached_before(
                blocks@,
                block,
            ),
        forall|block: int| 0 <= block < blocks@.len() ==> #[trigger] ranks@[block] < 2 * blocks@.len(),
{
    let count = blocks.len();
    let mut ranks = search(blocks);
    let ghost found = ranks@;
    let mut deepest: usize = 0;
    let mut block: usize = 0;
    while block < count
        invariant
            count == blocks@.len(),
            ranks@ == found,
            found.len() == count,
            block <= count,
            forall|other: int|
                #![trigger found[other]]
                #![trigger reached(blocks@, other)]
                0 <= other < count ==> (found[other] != usize::MAX <==> reached(blocks@, other)),
            forall|other: int|
                0 <= other < count && #[trigger] reached(blocks@, other) ==> found[other] < count,
            deepest == deepest_reached(blocks@, found, block as int),
            deepest < count,
        decreases count - block,
    {
        if ranks[block] != usize::MAX && ranks[block] > deepest {
            deepest = ranks[block];
        }
        block = block + 1;
    }
    let mut spare: usize = deepest;
    let mut block: usize = 0;
    while block < count
        invariant
            count == blocks@.len(),
            count <= usize::MAX / 2,
            found.len() == count,
            ranks@.len() == count,
            block <= count,
            forall|other: int|
                #![trigger found[other]]
                #![trigger reached(blocks@, other)]
                0 <= other < count ==> (found[other] != usize::MAX <==> reached(blocks@, other)),
            deepest == deepest_reached(blocks@, found, count as int),
            deepest < count,
            spare == deepest + unreached_before(blocks@, block as int),
            unreached_before(blocks@, block as int) <= block,
            forall|other: int|
                0 <= other < count && #[trigger] reached(blocks@, other) ==> found[other] < count,
            forall|other: int| 0 <= other < block ==> #[trigger] ranks@[other] < 2 * count,
            forall|other: int| block <= other < count ==> #[trigger] ranks@[other] == found[other],
            forall|other: int|
                0 <= other < block && reached(blocks@, other) ==> #[trigger] ranks@[other]
                    == found[other],
            forall|other: int|
                0 <= other < block && !reached(blocks@, other) ==> #[trigger] ranks@[other]
                    == deepest + 1 + unreached_before(blocks@, other),
        decreases count - block,
    {
        if ranks[block] == usize::MAX {
            spare = spare + 1;
            ranks.set(block, spare);
        }
        block = block + 1;
    }
    proof {
        lemma_deepest_reached_agrees(blocks@, ranks@, found, count as int);
    }
    ranks
}

} // verus!
