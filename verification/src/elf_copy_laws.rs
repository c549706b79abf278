//! What memory holds after a run of copies, and which pages a plan asks for.
use crate::elf::SegmentPlan;
use crate::elf_load::PageRequest;
use crate::{bits, elf, elf_laws, elf_load, paging};
use vstd::prelude::*;

verus! {

/// A copy that was made: `length` bytes of the image, from `source` on, to the memory from
/// `destination` on.
pub struct Move {
    pub source: int,
    pub destination: int,
    pub length: int,
}

/// The byte that `moves` left at `at`, where one of them wrote there.
pub open spec fn contents(image: Seq<u8>, moves: Seq<Move>, at: int) -> Option<u8>
    decreases moves.len(),
{
    if moves.len() == 0 {
        None
    } else {
        let last = moves.last();
        if last.destination <= at < last.destination + last.length {
            Some(image[last.source + (at - last.destination)])
        } else {
            contents(image, moves.drop_last(), at)
        }
    }
}

/// `address` is one for which `parts` have a byte of the image.
pub open spec fn has_data(parts: Seq<SegmentPlan>, address: int) -> bool {
    exists|k: int|
        0 <= k < parts.len() && (#[trigger] parts[k]).virtual_address <= address
            < parts[k].virtual_address + parts[k].file_size
}

/// `place` says where in memory each address lies: the addresses of one page lie side by side,
/// and no two addresses that get data lie at the same place.
pub open spec fn is_memory_map(parts: Seq<SegmentPlan>, place: spec_fn(int) -> int) -> bool {
    &&& forall|address: int, more: int|
        0 <= more && address % 4096 + more < 4096 ==> #[trigger] place(address + more) == place(
            address,
        ) + more
    &&& forall|a: int, b: int|
        has_data(parts, a) && has_data(parts, b) && #[trigger] place(a) == #[trigger] place(b)
            ==> a == b
}

/// Byte `i` of the file data of part `k` stands in memory, where its address lies.
pub open spec fn byte_in_place(
    image: Seq<u8>,
    parts: Seq<SegmentPlan>,
    place: spec_fn(int) -> int,
    moves: Seq<Move>,
    k: int,
    i: int,
) -> bool {
    contents(image, moves, place(parts[k].virtual_address + i)) == Some(
        image[parts[k].file_offset + i],
    )
}

/// The file data of the first `segment` parts stands in memory, and the first `copied` bytes of
/// the part behind them.
pub open spec fn in_place(
    image: Seq<u8>,
    parts: Seq<SegmentPlan>,
    place: spec_fn(int) -> int,
    moves: Seq<Move>,
    segment: int,
    copied: int,
) -> bool {
    forall|k: int, i: int|
        0 <= k < parts.len() && 0 <= i < parts[k].file_size && (k < segment || (k == segment && i
            < copied)) ==> #[trigger] byte_in_place(image, parts, place, moves, k, i)
}

/// Whatever was written was written to the place of an address that gets data.
pub open spec fn nothing_else(
    image: Seq<u8>,
    parts: Seq<SegmentPlan>,
    place: spec_fn(int) -> int,
    moves: Seq<Move>,
) -> bool {
    forall|at: int|
        (#[trigger] contents(image, moves, at)) is Some ==> exists|address: int|
            has_data(parts, address) && #[trigger] place(address) == at
}

/// No address gets data from two parts.
pub open spec fn data_apart(parts: Seq<SegmentPlan>) -> bool {
    forall|k: int, l: int|
        0 <= k < l < parts.len() ==> {
            ||| (#[trigger] parts[k]).virtual_address + parts[k].file_size <= (
            #[trigger] parts[l]).virtual_address
            ||| parts[l].virtual_address + parts[l].file_size <= parts[k].virtual_address
        }
}

/// The next copy of a part brings its bytes into place and disturbs none.
#[verifier::rlimit(40)]
pub proof fn lemma_move(
    image: Seq<u8>,
    parts: Seq<SegmentPlan>,
    place: spec_fn(int) -> int,
    moves: Seq<Move>,
    segment: int,
    copied: int,
)
    requires
        is_memory_map(parts, place),
        data_apart(parts),
        0 <= segment < parts.len(),
        0 <= copied < parts[segment].file_size,
        in_place(image, parts, place, moves, segment, copied),
        nothing_else(image, parts, place, moves),
    ensures
        ({
            let part = parts[segment];
            let length = elf_load::chunk_length(part, copied);
            let more = moves.push(
                Move {
                    source: part.file_offset + copied,
                    destination: place(part.virtual_address + copied),
                    length,
                },
            );
            &&& in_place(image, parts, place, more, segment, copied + length)
            &&& nothing_else(image, parts, place, more)
        }),
{
    let part = parts[segment];
    let length = elf_load::chunk_length(part, copied);
    let from = part.virtual_address + copied;
    let last = Move { source: part.file_offset + copied, destination: place(from), length };
    let more = moves.push(last);
    assert(more.drop_last() =~= moves);
    assert forall|k: int, i: int|
        0 <= k < parts.len() && 0 <= i < parts[k].file_size && (k < segment || (k == segment && i
            < copied + length)) implies #[trigger] byte_in_place(
        image,
        parts,
        place,
        more,
        k,
        i,
    ) by {
        let address = parts[k].virtual_address + i;
        assert(has_data(parts, address));
        if k == segment && i >= copied {
            let j = i - copied;
            assert(place(from + j) == place(from) + j);
            assert(from + j == address);
        } else {
            assert(byte_in_place(image, parts, place, moves, k, i));
            let at = place(address);
            if last.destination <= at < last.destination + length {
                let j = at - last.destination;
                assert(place(from + j) == place(from) + j);
                assert(has_data(parts, from + j)) by {
                    assert(parts[segment].virtual_address <= from + j);
                }
                assert(place(from + j) == place(address));
                assert(from + j == address);
                if k < segment {
                    assert(parts[k].virtual_address + parts[k].file_size
                        <= parts[segment].virtual_address || parts[segment].virtual_address
                        + parts[segment].file_size <= parts[k].virtual_address);
                }
                assert(false);
            }
        }
    }
    assert forall|at: int| (#[trigger] contents(image, more, at)) is Some implies exists|
        address: int,
    | has_data(parts, address) && #[trigger] place(address) == at by {
        if last.destination <= at < last.destination + length {
            let j = at - last.destination;
            assert(place(from + j) == place(from) + j);
            assert(has_data(parts, from + j)) by {
                assert(parts[segment].virtual_address <= from + j);
            }
        } else {
            assert(contents(image, moves, at) is Some);
        }
    }
}

/// Parts that share no page share no address.
pub proof fn lemma_data_apart(parts: Seq<SegmentPlan>, image_len: nat, layout: paging::UserLayout)
    requires
        layout.end <= u64::MAX - 4095,
        elf_laws::parts_apart(parts),
        forall|i: int|
            0 <= i < parts.len() ==> elf_laws::part_sound(#[trigger] parts[i], image_len, layout),
    ensures
        data_apart(parts),
{
    assert forall|k: int, l: int| 0 <= k < l < parts.len() implies {
        ||| (#[trigger] parts[k]).virtual_address + parts[k].file_size <= (
        #[trigger] parts[l]).virtual_address
        ||| parts[l].virtual_address + parts[l].file_size <= parts[k].virtual_address
    } by {
        assert(!parts[l].overlaps(parts[k]));
        assert(elf_laws::part_sound(parts[k], image_len, layout));
        assert(elf_laws::part_sound(parts[l], image_len, layout));
        lemma_span(parts[k]);
        lemma_span(parts[l]);
    }
}

/// The pages of a part reach from below its first byte to above its last.
pub proof fn lemma_span(part: SegmentPlan)
    requires
        part.virtual_address + part.memory_size <= u64::MAX - 4095,
        part.memory_size > 0,
    ensures
        part.first_page() <= part.virtual_address < part.first_page() + 4096,
        part.pages_end() - 4096 < part.virtual_address + part.memory_size <= part.pages_end(),
        part.first_page() % 4096 == 0,
        part.pages_end() % 4096 == 0,
        part.page_count() >= 1,
        part.pages_end() == part.first_page() + 4096 * part.page_count(),
        part.first_page() >= 0,
        part.pages_end() <= u64::MAX,
{
    elf::lemma_pages_ordered(part);
    bits::lemma_floor_to(part.virtual_address as int, 4096);
    bits::lemma_ceil_to(part.virtual_address + part.memory_size, 4096);
}

/// `address` lies in the memory that `part` asks for.
pub open spec fn in_memory_of(part: SegmentPlan, address: int) -> bool {
    part.virtual_address <= address < part.virtual_address + part.memory_size
}

/// `request` asks for the page that `address` lies in.
pub open spec fn asks_for(request: PageRequest, address: int) -> bool {
    request.page <= address < request.page + 4096
}

/// `request` has the rights of `part`.
pub open spec fn rights_of(request: PageRequest, part: SegmentPlan) -> bool {
    request.permissions.writable == part.writable && request.permissions.executable
        == part.executable
}

#[verifier::rlimit(40)]
proof fn lemma_all_pages_span(parts: Seq<SegmentPlan>)
    requires
        forall|k: int|
            0 <= k < parts.len() ==> (#[trigger] parts[k]).memory_size > 0
                && parts[k].virtual_address + parts[k].memory_size <= u64::MAX - 4095,
    ensures
        forall|k: int, address: int|
            0 <= k < parts.len() && #[trigger] in_memory_of(parts[k], address) ==> exists|i: int|
                0 <= i < elf_load::all_pages(parts).len() && asks_for(
                    #[trigger] elf_load::all_pages(parts)[i],
                    address,
                ) && rights_of(elf_load::all_pages(parts)[i], parts[k]),
        forall|i: int|
            0 <= i < elf_load::all_pages(parts).len() ==> (
            #[trigger] elf_load::all_pages(parts)[i]).page % 4096 == 0 && exists|k: int|
                0 <= k < parts.len() && rights_of(
                    elf_load::all_pages(parts)[i],
                    #[trigger] parts[k],
                ) && elf_load::all_pages(parts)[i].page < parts[k].virtual_address
                    + parts[k].memory_size && parts[k].virtual_address
                    < elf_load::all_pages(parts)[i].page + 4096,
    decreases parts.len(),
{
    if parts.len() > 0 {
        let less = parts.drop_last();
        let part = parts.last();
        let end = parts.len() - 1;
        assert(parts[end] == part);
        assert forall|k: int| 0 <= k < less.len() implies (#[trigger] less[k]).memory_size > 0
            && less[k].virtual_address + less[k].memory_size <= u64::MAX - 4095 by {
            assert(parts[k].memory_size > 0);
        }
        lemma_all_pages_span(less);
        lemma_span(part);
        let before = elf_load::all_pages(less);
        let own = elf_load::part_pages(part);
        let pages = elf_load::all_pages(parts);
        assert forall|k: int, address: int|
            0 <= k < parts.len() && #[trigger] in_memory_of(parts[k], address) implies exists|i: int|
            0 <= i < pages.len() && asks_for(#[trigger] pages[i], address) && rights_of(
                pages[i],
                parts[k],
            ) by {
            if k < less.len() {
                assert(in_memory_of(less[k], address));
                let i = choose|i: int|
                    0 <= i < before.len() && asks_for(#[trigger] before[i], address) && rights_of(
                        before[i],
                        less[k],
                    );
                assert(pages[i] == before[i]);
            } else {
                let n = (address - part.first_page()) / 4096;
                assert(0 <= n < part.page_count());
                assert(own[n].page == part.first_page() + 4096 * n);
                assert(pages[before.len() + n] == own[n]);
                assert(asks_for(pages[before.len() + n], address));
            }
        }
        assert forall|i: int| 0 <= i < pages.len() implies (#[trigger] pages[i]).page % 4096 == 0
            && exists|k: int|
            0 <= k < parts.len() && rights_of(pages[i], #[trigger] parts[k]) && pages[i].page
                < parts[k].virtual_address + parts[k].memory_size && parts[k].virtual_address
                < pages[i].page + 4096 by {
            if i < before.len() {
                assert(pages[i] == before[i]);
                let k = choose|k: int|
                    0 <= k < less.len() && rights_of(before[i], #[trigger] less[k])
                        && before[i].page < less[k].virtual_address + less[k].memory_size
                        && less[k].virtual_address < before[i].page + 4096;
                assert(rights_of(pages[i], parts[k]));
            } else {
                let n = i - before.len();
                assert(pages[i] == own[n]);
                assert(own[n].page == part.first_page() + 4096 * n);
                assert(rights_of(pages[i], parts[end]));
            }
        }
    }
}

/// For an accepted image each byte of memory that a part asks for lies in a page that is asked
/// for with the rights of that part. Each page that is asked for starts at a page boundary and
/// holds a byte of a part whose rights it gets, but for the last one: that is the stack, which
/// can be written and not executed. This is for user regions that end before the last page.
#[verifier::rlimit(40)]
pub proof fn law_pages_have_the_rights_of_their_parts(image: Seq<u8>, layout: paging::UserLayout)
    requires
        elf::load_plan(image, layout) is Ok,
        layout.end <= u64::MAX - 4095,
    ensures
        ({
            let parts = elf::load_plan(image, layout)->Ok_0;
            let pages = elf_load::requests(parts, layout);
            &&& pages.len() >= 2
            &&& forall|k: int, address: int|
            0 <= k < parts.len() && #[trigger] in_memory_of(parts[k], address) ==> exists|i: int|
                    0 <= i < pages.len() - 1 && asks_for(#[trigger] pages[i], address) && rights_of(
                        pages[i],
                        parts[k],
                    )
            &&& forall|i: int|
                0 <= i < pages.len() - 1 ==> (#[trigger] pages[i]).page % 4096 == 0 && exists|
                    k: int,
                |
                    0 <= k < parts.len() && rights_of(pages[i], #[trigger] parts[k])
                        && pages[i].page < parts[k].virtual_address + parts[k].memory_size
                        && parts[k].virtual_address < pages[i].page + 4096
            &&& pages.last().page == layout.stack_page
            &&& pages.last().permissions.writable
            &&& !pages.last().permissions.executable
        }),
{
    let parts = elf::load_plan(image, layout)->Ok_0;
    let pages = elf_load::requests(parts, layout);
    let all = elf_load::all_pages(parts);
    elf_laws::law_accepted_parts_sound(image, layout);
    assert forall|k: int| 0 <= k < parts.len() implies (#[trigger] parts[k]).memory_size > 0
        && parts[k].virtual_address + parts[k].memory_size <= u64::MAX - 4095 by {
        assert(elf_laws::part_sound(parts[k], image.len(), layout));
    }
    lemma_all_pages_span(parts);
    assert forall|k: int, address: int|
            0 <= k < parts.len() && #[trigger] in_memory_of(parts[k], address) implies exists|i: int|
        0 <= i < pages.len() - 1 && asks_for(#[trigger] pages[i], address) && rights_of(
            pages[i],
            parts[k],
        ) by {
        let i = choose|i: int|
            0 <= i < all.len() && asks_for(#[trigger] all[i], address) && rights_of(
                all[i],
                parts[k],
            );
        assert(pages[i] == all[i]);
    }
    assert forall|i: int| 0 <= i < pages.len() - 1 implies (#[trigger] pages[i]).page % 4096 == 0
        && exists|k: int|
        0 <= k < parts.len() && rights_of(pages[i], #[trigger] parts[k]) && pages[i].page
            < parts[k].virtual_address + parts[k].memory_size && parts[k].virtual_address
            < pages[i].page + 4096 by {
        assert(pages[i] == all[i]);
        let k = choose|k: int|
            0 <= k < parts.len() && rights_of(all[i], #[trigger] parts[k]) && all[i].page
                < parts[k].virtual_address + parts[k].memory_size && parts[k].virtual_address
                < all[i].page + 4096;
        assert(rights_of(pages[i], parts[k]));
    }
    let low = parts[0].virtual_address as int;
    assert(parts[0].memory_size > 0);
    assert(exists|i: int| 0 <= i < pages.len() - 1 && asks_for(#[trigger] pages[i], low)) by {
        assert(in_memory_of(parts[0], low));
        let i = choose|i: int|
            0 <= i < pages.len() - 1 && asks_for(#[trigger] pages[i], low) && rights_of(
                pages[i],
                parts[0],
            );
        assert(asks_for(pages[i], low));
    }
}

} // verus!
