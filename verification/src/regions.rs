use crate::scan::MemAddr;
use vstd::prelude::*;

verus! {

/// What the system reports of one memory region of the scanned process:
/// where it starts, how long it is, and its protection flags.
#[derive(Debug, Clone, Copy)]
pub struct RegionInfo {
    pub base: usize,
    pub size: usize,
    pub protect: u32,
}

/// The regions, in order, whose protection is one of the valid ones, each
/// as its start and size.
pub open spec fn selected_regions(infos: Seq<RegionInfo>, valid: Seq<u32>) -> Seq<MemAddr>
    decreases infos.len(),
{
    if infos.len() == 0 {
        Seq::empty()
    } else {
        let prev = selected_regions(infos.drop_last(), valid);
        let last = infos.last();
        if valid.contains(last.protect) {
            prev.push(MemAddr { base: last.base, size: last.size })
        } else {
            prev
        }
    }
}

/// Why no region list could be made.
#[derive(Debug, Clone, Copy, PartialEq, Eq)]
pub enum RegionError {
    /// No region of the process has one of the valid protections.
    NoMatchingRegion,
}

/// Whether `value` is one of `values`.
fn contains_u32(values: &Vec<u32>, value: u32) -> (r: bool)
    ensures
        r == values@.contains(value),
{
    let mut i: usize = 0;
    while i < values.len()
        invariant
            i <= values@.len(),
            forall|j: int| 0 <= j < i ==> values@[j] != value,
        decreases values.len() - i,
    {
        if values[i] == value {
            return true;
        }
        i = i + 1;
    }
    false
}

/// Keeps, in the order in which the walk of the address space met them,
/// the regions whose protection is one of `valid_protections`. Fails when
/// none is left.
pub fn get_memory_regions(infos: &Vec<RegionInfo>, valid_protections: &Vec<u32>) -> (res: Result<
    Vec<MemAddr>,
    RegionError,
>)
    ensures
        match res {
            Ok(regions) => regions@ == selected_regions(infos@, valid_protections@)
                && regions@.len() > 0,
            Err(e) => e == RegionError::NoMatchingRegion && selected_regions(
                infos@,
                valid_protections@,
            ).len() == 0,
        },
{
    let mut mem_regions: Vec<MemAddr> = Vec::new();
    let mut i: usize = 0;
    while i < infos.len()
        invariant
            i <= infos@.len(),
            mem_regions@ == selected_regions(infos@.take(i as int), valid_protections@),
        decreases infos.len() - i,
    {
        let info = infos[i];
        assert(infos@.take(i + 1).drop_last() =~= infos@.take(i as int));
        if contains_u32(valid_protections, info.protect) {
            mem_regions.push(MemAddr { base: info.base, size: info.size });
        }
        i = i + 1;
    }
    assert(infos@.take(infos@.len() as int) =~= infos@);
    if mem_regions.len() == 0 {
        Err(RegionError::NoMatchingRegion)
    } else {
        Ok(mem_regions)
    }
}

/// Where the walk of the address space asks next: just past the region
/// just reported, or nowhere if that region ends the address space.
pub fn next_query_address(info: &RegionInfo) -> (next: Option<usize>)
    ensures
        match next {
            Some(a) => a == info.base + info.size,
            None => info.base + info.size > usize::MAX,
        },
{
    info.base.checked_add(info.size)
}

/// Every selected region is one that the walk reported with a valid
/// protection.
pub proof fn lemma_selected_regions_valid(infos: Seq<RegionInfo>, valid: Seq<u32>, j: int)
    requires
        0 <= j < selected_regions(infos, valid).len(),
    ensures
        exists|i: int|
            0 <= i < infos.len() && valid.contains(#[trigger] infos[i].protect)
                && selected_regions(infos, valid)[j] == (MemAddr {
                base: infos[i].base,
                size: infos[i].size,
            }),
    decreases infos.len(),
{
    let prev = selected_regions(infos.drop_last(), valid);
    if j < prev.len() {
        lemma_selected_regions_valid(infos.drop_last(), valid, j);
        let i = choose|i: int|
            0 <= i < infos.drop_last().len() && valid.contains(
                #[trigger] infos.drop_last()[i].protect,
            ) && prev[j] == (MemAddr {
                base: infos.drop_last()[i].base,
                size: infos.drop_last()[i].size,
            });
        assert(infos[i] == infos.drop_last()[i]);
        assert(selected_regions(infos, valid)[j] == prev[j]);
    } else {
        let i = infos.len() - 1;
        assert(valid.contains(infos[i].protect));
    }
}

/// Every region reported with a valid protection is selected.
pub proof fn lemma_selected_regions_complete(infos: Seq<RegionInfo>, valid: Seq<u32>, i: int)
    requires
        0 <= i < infos.len(),
        valid.contains(infos[i].protect),
    ensures
        selected_regions(infos, valid).contains(
            MemAddr { base: infos[i].base, size: infos[i].size },
        ),
    decreases infos.len(),
{
    let prev = selected_regions(infos.drop_last(), valid);
    let target = MemAddr { base: infos[i].base, size: infos[i].size };
    if i < infos.len() - 1 {
        assert(infos.drop_last()[i] == infos[i]);
        lemma_selected_regions_complete(infos.drop_last(), valid, i);
        let idx = choose|idx: int| 0 <= idx < prev.len() && prev[idx] == target;
        assert(selected_regions(infos, valid)[idx] == target);
    } else {
        assert(selected_regions(infos, valid)[prev.len() as int] == target);
    }
}

/// The region list is exactly the reported regions whose protection is
/// valid, in the order of the walk, each once, as start and size.
pub proof fn lemma_selected_regions_are_filter(infos: Seq<RegionInfo>, valid: Seq<u32>)
    ensures
        selected_regions(infos, valid) == infos.filter(|r: RegionInfo| valid.contains(r.protect)).map_values(
            |r: RegionInfo| MemAddr { base: r.base, size: r.size },
        ),
    decreases infos.len(),
{
    reveal(Seq::filter);
    let pred = |r: RegionInfo| valid.contains(r.protect);
    let f = |r: RegionInfo| MemAddr { base: r.base, size: r.size };
    if infos.len() == 0 {
        assert(infos.filter(pred).map_values(f) =~= Seq::<MemAddr>::empty());
    } else {
        lemma_selected_regions_are_filter(infos.drop_last(), valid);
        let sub = infos.drop_last().filter(pred);
        if pred(infos.last()) {
            assert(sub.push(infos.last()).map_values(f) =~= sub.map_values(f).push(f(infos.last())));
        }
    }
}

} // verus!
