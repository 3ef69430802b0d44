//! What the infrastructure tool is handed: one target flag for each resolved
//! resource.

use vstd::prelude::*;
use crate::text::views;
use crate::types::{address_of, Resource, ResourceView};

verus! {

/// The flag that scopes the tool to one resource.
pub open spec fn target_flag(r: ResourceView) -> Seq<char> {
    "-target="@ + address_of(r)
}

/// One target flag per resource, in the order of the resources.
pub fn target_flags(resources: &[Resource]) -> (out: Vec<String>)
    ensures
        views(out@) == views(resources@).map_values(|r: ResourceView| target_flag(r)),
{
    let ghost wanted = views(resources@).map_values(|r: ResourceView| target_flag(r));
    let mut out: Vec<String> = Vec::new();
    let mut i: usize = 0;
    while i < resources.len()
        invariant
            i <= resources.len(),
            wanted == views(resources@).map_values(|r: ResourceView| target_flag(r)),
            views(out@) == wanted.take(i as int),
        decreases resources.len() - i,
    {
        let ghost before = views(out@);
        let mut flag = String::new();
        flag.append("-target=");
        flag.append(resources[i].address().as_str());
        assert(flag@ =~= target_flag(resources@[i as int]@));
        out.push(flag);
        assert(views(out@) =~= before.push(flag@));
        i = i + 1;
        assert(before.push(flag@) =~= wanted.take(i as int));
    }
    assert(wanted.take(i as int) =~= wanted);
    out
}

/// The addresses of the resources, in their order.
pub fn addresses(resources: &[Resource]) -> (out: Vec<String>)
    ensures
        views(out@) == views(resources@).map_values(|r: ResourceView| address_of(r)),
{
    let ghost wanted = views(resources@).map_values(|r: ResourceView| address_of(r));
    let mut out: Vec<String> = Vec::new();
    let mut i: usize = 0;
    while i < resources.len()
        invariant
            i <= resources.len(),
            wanted == views(resources@).map_values(|r: ResourceView| address_of(r)),
            views(out@) == wanted.take(i as int),
        decreases resources.len() - i,
    {
        let ghost before = views(out@);
        let address = resources[i].address();
        out.push(address);
        assert(views(out@) =~= before.push(address_of(resources@[i as int]@)));
        i = i + 1;
        assert(before.push(address_of(resources@[i - 1]@)) =~= wanted.take(i as int));
    }
    assert(wanted.take(i as int) =~= wanted);
    out
}

} // verus!
