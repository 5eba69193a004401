//! The rules of the control plane: listing, adding, removing and reweighting backends at runtime.

use crate::pool::BackendPool;
use crate::text::starts_with;
use vstd::prelude::*;

verus! {

/// What the control plane tells about a backend.
#[derive(Debug)]
pub struct BackendInfo {
    pub addr: String,
    pub healthy: bool,
    pub active_connections: u64,
    pub weight: u32,
}

/// Why a request to the control plane is refused.
#[derive(Debug, Clone, Copy, PartialEq, Eq, Structural)]
pub enum AdminError {
    InvalidAddress,
}

impl AdminError {
    pub fn message(&self) -> (text: &'static str)
        ensures
            text@ == "addr must start with http:// or https://"@,
    {
        match self {
            AdminError::InvalidAddress => "addr must start with http:// or https://",
        }
    }
}

/// The members of the pool, in order.
pub fn list_backends(pool: &BackendPool) -> (infos: Vec<BackendInfo>)
    requires
        pool.wf(),
    ensures
        infos@.len() == pool@.members.len(),
        forall|i: int|
            0 <= i < infos@.len() ==> {
                let info = #[trigger] infos@[i];
                let backend = pool@.member(i);
                &&& info.addr@ == backend.addr
                &&& info.healthy == backend.healthy
                &&& info.active_connections == backend.active_conns
                &&& info.weight == backend.weight
            },
{
    let members: Vec<usize> = pool.snapshot();
    let mut infos: Vec<BackendInfo> = Vec::new();
    let mut i: usize = 0;
    while i < members.len()
        invariant
            pool.wf(),
            members@ == pool@.members,
            i <= members@.len(),
            infos@.len() == i,
            forall|j: int|
                0 <= j < i ==> {
                    let info = #[trigger] infos@[j];
                    let backend = pool@.member(j);
                    &&& info.addr@ == backend.addr
                    &&& info.healthy == backend.healthy
                    &&& info.active_connections == backend.active_conns
                    &&& info.weight == backend.weight
                },
        decreases members@.len() - i,
    {
        let slot: usize = members[i];
        infos.push(
            BackendInfo {
                addr: pool.backend(slot).addr().clone(),
                healthy: pool.backend(slot).is_healthy(),
                active_connections: pool.backend(slot).active_conns() as u64,
                weight: pool.backend(slot).weight(),
            },
        );
        i = i + 1;
    }
    infos
}

/// An address names a backend only together with its scheme.
pub open spec fn is_valid_address(addr: Seq<char>) -> bool {
    "http://"@.is_prefix_of(addr) || "https://"@.is_prefix_of(addr)
}

/// The weight that a new backend gets: an equal share if the caller set none, which is to say 0.
pub open spec fn effective_weight(weight: u32) -> u32 {
    if weight == 0 {
        1
    } else {
        weight
    }
}

/// Adds a backend, and says whether it was new.
pub fn add_backend(pool: &mut BackendPool, addr: String, weight: u32) -> (result: Result<
    bool,
    AdminError,
>)
    requires
        old(pool).wf(),
    ensures
        final(pool).wf(),
        result == if !is_valid_address(addr@) {
            Err::<bool, AdminError>(AdminError::InvalidAddress)
        } else {
            Ok(!old(pool)@.has(addr@))
        },
        result == Ok::<bool, AdminError>(true) ==> old(pool)@.is_added(
            addr@,
            effective_weight(weight),
            final(pool)@,
        ),
        result != Ok::<bool, AdminError>(true) ==> final(pool)@ == old(pool)@,
{
    if !starts_with(&addr, "http://") && !starts_with(&addr, "https://") {
        return Err(AdminError::InvalidAddress);
    }
    let weight: u32 = if weight == 0 {
        1
    } else {
        weight
    };
    Ok(pool.add(addr, weight))
}

/// Removes the backends at an address, and says whether there were any.
pub fn remove_backend(pool: &mut BackendPool, addr: &str) -> (removed: bool)
    requires
        old(pool).wf(),
    ensures
        final(pool).wf(),
        removed == old(pool)@.has(addr@),
        removed ==> old(pool)@.is_removed(addr@, final(pool)@),
        !removed ==> final(pool)@ == old(pool)@,
{
    pool.remove(addr)
}

/// Gives the backend at an address another weight, 0 to drain it, and says whether there is one.
pub fn set_weight(pool: &mut BackendPool, addr: &str, weight: u32) -> (updated: bool)
    requires
        old(pool).wf(),
    ensures
        final(pool).wf(),
        updated == old(pool)@.has(addr@),
        updated ==> exists|p: int|
            {
                &&& #[trigger] old(pool)@.is_first_with(addr@, p)
                &&& old(pool)@.is_reweighted(p, weight, final(pool)@)
            },
        !updated ==> final(pool)@ == old(pool)@,
{
    pool.set_weight(addr, weight)
}

/// A backend is added with the weight that the caller set, and with 1 if the caller set none. It
/// never starts drained.
pub proof fn law_added_weight_is_the_callers(weight: u32)
    ensures
        weight > 0 ==> effective_weight(weight) == weight,
        weight == 0 ==> effective_weight(weight) == 1,
{
}

/// An address is valid if and only if it begins with `http://` or `https://`, whatever follows.
pub proof fn law_valid_addresses_have_a_scheme(addr: Seq<char>)
    ensures
        is_valid_address(addr) <==> {
            ||| addr.len() >= 7 && addr.take(7) == seq!['h', 't', 't', 'p', ':', '/', '/']
            ||| addr.len() >= 8 && addr.take(8) == seq!['h', 't', 't', 'p', 's', ':', '/', '/']
        },
{
    reveal_strlit("http://");
    reveal_strlit("https://");
    assert("http://"@ == seq!['h', 't', 't', 'p', ':', '/', '/']);
    assert("https://"@ == seq!['h', 't', 't', 'p', 's', ':', '/', '/']);
}

} // verus!
