//! How many buffers an endpoint has, and where they are kept.

use crate::buffer::{self, Pool};
use crate::staging::{MAX_TLS_RECORD, TLS_STAGING_CAP};
use crate::tls::plan::ClientPlan;
use crate::tls::roles::{Client, Protocol};
use o3::buffer::pool::LayoutError;
use o3::collections::slab::{Capacity, CapacityError};
use vstd::prelude::*;

verus! {

#[verifier::external_type_specification]
#[verifier::external_body]
pub struct ExCapacityError(CapacityError);

/// How many received records can be held by default.
pub const DEFAULT_STAGED_RECORDS: usize = 64;

/// How many connections can hold outbound bytes by default.
pub const DEFAULT_CIPHERTEXT_SLOTS: usize = 128;

/// Why an endpoint could not be set up.
#[derive(Debug)]
pub enum SetupError {
    /// More sessions than can be told apart.
    Sessions(CapacityError),
    /// One record more than can be counted.
    StagedRecordOverflow,
    /// No connection could ever send.
    ZeroCiphertextBudget,
    /// More bytes than can be counted.
    BufferSizeOverflow,
    /// Buffers that cannot be allocated in one piece.
    Buffers(LayoutError),
    /// The storage has buffers of another layout.
    OtherLayout,
    /// The storage has the sessions of another server shard.
    OtherShard,
    /// The storage has the sessions of another client.
    AlreadyBound,
}

/// How many slots a slab of this capacity has: `Capacity::get`.
pub uninterp spec fn slab_slots(capacity: Capacity) -> nat;

/// How many slots were asked for in vain: `CapacityError::requested`.
pub uninterp spec fn slots_refused(error: CapacityError) -> nat;

/// `o3::collections::slab::Capacity::try_from`: a number of slots, which has to
/// fit in 32 bits. The capacity is of just so many slots, and a refusal says how many
/// they were.
#[verifier::external_body]
pub(crate) fn slab_capacity(capacity: usize) -> (result: Result<Capacity, CapacityError>)
    ensures
        result is Ok <==> capacity <= u32::MAX,
        result matches Ok(made) ==> slab_slots(made) == capacity,
        result matches Err(error) ==> slots_refused(error) == capacity,
{
    Capacity::try_from(capacity)
}

/// How many buffers there are on either side, and how large they are.
#[derive(Clone, Copy, Debug, Eq, PartialEq, Structural)]
pub struct BufferLayout {
    pub(crate) recv_slots: usize,
    pub(crate) send_slots: usize,
    pub(crate) recv_capacity: usize,
    pub(crate) staging_capacity: usize,
    pub(crate) payload_bytes: usize,
}

/// The bytes of so many buffers on either side.
pub open spec fn payload(recv_slots: int, send_slots: int) -> int {
    recv_slots * MAX_TLS_RECORD + send_slots * TLS_STAGING_CAP
}

impl BufferLayout {
    /// The layout with so many buffers on either side.
    pub open spec fn of(self, recv_slots: int, send_slots: int) -> bool {
        &&& self.spec_recv_slots() == recv_slots
        &&& self.spec_send_slots() == send_slots
        &&& self.wf()
    }

    pub closed spec fn spec_recv_slots(self) -> usize {
        self.recv_slots
    }

    pub closed spec fn spec_send_slots(self) -> usize {
        self.send_slots
    }

    /// That each buffer holds a record, and that the bytes are counted right.
    pub closed spec fn wf(self) -> bool {
        &&& self.recv_capacity == MAX_TLS_RECORD
        &&& self.staging_capacity == TLS_STAGING_CAP
        &&& self.payload_bytes == payload(self.recv_slots as int, self.send_slots as int)
    }

    /// So many buffers on either side, if their bytes can be counted.
    pub fn try_new(recv_slots: usize, send_slots: usize) -> (layout: Result<Self, SetupError>)
        ensures
            match layout {
                Ok(layout) => layout.of(recv_slots as int, send_slots as int) && payload(
                    recv_slots as int,
                    send_slots as int,
                ) <= usize::MAX,
                Err(error) => error == SetupError::BufferSizeOverflow && payload(
                    recv_slots as int,
                    send_slots as int,
                ) > usize::MAX,
            },
    {
        let recv: usize = match recv_slots.checked_mul(MAX_TLS_RECORD) {
            Some(bytes) => bytes,
            None => return Err(SetupError::BufferSizeOverflow),
        };
        let send: usize = match send_slots.checked_mul(TLS_STAGING_CAP) {
            Some(bytes) => bytes,
            None => return Err(SetupError::BufferSizeOverflow),
        };
        match recv.checked_add(send) {
            Some(payload_bytes) => Ok(
                BufferLayout {
                    recv_slots,
                    send_slots,
                    recv_capacity: MAX_TLS_RECORD,
                    staging_capacity: TLS_STAGING_CAP,
                    payload_bytes,
                },
            ),
            None => Err(SetupError::BufferSizeOverflow),
        }
    }

    pub fn recv_slots(self) -> (slots: usize)
        ensures
            slots == self.spec_recv_slots(),
    {
        self.recv_slots
    }

    pub fn send_slots(self) -> (slots: usize)
        ensures
            slots == self.spec_send_slots(),
    {
        self.send_slots
    }

    /// How large a receive buffer is: one whole record.
    pub fn recv_capacity(self) -> (capacity: usize)
        requires
            self.wf(),
        ensures
            capacity == MAX_TLS_RECORD,
    {
        self.recv_capacity
    }

    /// How large a send buffer is.
    pub fn send_capacity(self) -> (capacity: usize)
        requires
            self.wf(),
        ensures
            capacity == TLS_STAGING_CAP,
    {
        self.staging_capacity
    }

    /// The bytes of all buffers, without what the allocator adds.
    pub fn payload_bytes(self) -> (bytes: usize)
        requires
            self.wf(),
        ensures
            bytes == payload(self.spec_recv_slots() as int, self.spec_send_slots() as int),
    {
        self.payload_bytes
    }
}

/// How many buffers are free on either side.
#[derive(Clone, Copy, Debug, Eq, PartialEq, Structural)]
pub struct BufferUsage {
    pub(crate) recv_available: usize,
    pub(crate) send_available: usize,
}

impl BufferUsage {
    pub closed spec fn spec_recv(self) -> usize {
        self.recv_available
    }

    pub closed spec fn spec_send(self) -> usize {
        self.send_available
    }

    pub fn new(recv_available: usize, send_available: usize) -> (usage: Self)
        ensures
            usage.spec_recv() == recv_available,
            usage.spec_send() == send_available,
    {
        BufferUsage { recv_available, send_available }
    }

    pub fn recv_available(self) -> (count: usize)
        ensures
            count == self.spec_recv(),
    {
        self.recv_available
    }

    pub fn send_available(self) -> (count: usize)
        ensures
            count == self.spec_send(),
    {
        self.send_available
    }
}

/// The configured number or else the default, but no more than there can be
/// connections.
pub open spec fn budget(configured: Option<usize>, default: usize, max_connections: usize) -> int {
    let slots = match configured {
        Some(slots) => slots,
        None => default,
    };
    if slots <= max_connections {
        slots as int
    } else {
        max_connections as int
    }
}

fn budgeted(configured: Option<usize>, default: usize, max_connections: usize) -> (slots: usize)
    ensures
        slots == budget(configured, default, max_connections),
{
    let slots: usize = match configured {
        Some(slots) => slots,
        None => default,
    };
    if slots <= max_connections {
        slots
    } else {
        max_connections
    }
}

/// A number of slots that may not come to zero.
pub fn nonzero_budget(configured: Option<usize>, default: usize, max_connections: usize) -> (result:
    Result<usize, SetupError>)
    ensures
        match result {
            Ok(slots) => slots == budget(configured, default, max_connections) && slots > 0,
            Err(error) => error == SetupError::ZeroCiphertextBudget && budget(
                configured,
                default,
                max_connections,
            ) == 0,
        },
{
    let slots: usize = budgeted(configured, default, max_connections);
    if slots == 0 {
        return Err(SetupError::ZeroCiphertextBudget);
    }
    Ok(slots)
}

/// What the layout of an endpoint comes to: a buffer for each record that can be
/// held and one for the record that is being put together, and a send buffer for
/// each connection that can hold outbound bytes.
pub open spec fn laid_out(
    staged_records: Option<usize>,
    ciphertext_slots: Option<usize>,
    max_connections: usize,
    result: Result<BufferLayout, SetupError>,
) -> bool {
    let recv = budget(staged_records, DEFAULT_STAGED_RECORDS, max_connections) + 1;
    let send = budget(ciphertext_slots, DEFAULT_CIPHERTEXT_SLOTS, max_connections);
    match result {
        Ok(layout) => recv <= usize::MAX && send > 0 && payload(recv, send) <= usize::MAX
            && layout.of(recv, send),
        Err(SetupError::StagedRecordOverflow) => recv > usize::MAX,
        Err(SetupError::ZeroCiphertextBudget) => recv <= usize::MAX && send == 0,
        Err(SetupError::BufferSizeOverflow) => recv <= usize::MAX && send > 0 && payload(recv, send)
            > usize::MAX,
        _ => false,
    }
}

/// The layout of an endpoint.
pub fn buffer_layout(
    staged_records: Option<usize>,
    ciphertext_slots: Option<usize>,
    max_connections: usize,
) -> (result: Result<BufferLayout, SetupError>)
    ensures
        laid_out(staged_records, ciphertext_slots, max_connections, result),
{
    let retained: usize = budgeted(staged_records, DEFAULT_STAGED_RECORDS, max_connections);
    let recv_slots: usize = match retained.checked_add(1) {
        Some(slots) => slots,
        None => return Err(SetupError::StagedRecordOverflow),
    };
    match nonzero_budget(ciphertext_slots, DEFAULT_CIPHERTEXT_SLOTS, max_connections) {
        Ok(send_slots) => BufferLayout::try_new(recv_slots, send_slots),
        Err(error) => Err(error),
    }
}

/// With the default budgets, an endpoint that takes any connection at all gets a
/// layout, and never a larger one than for the defaults themselves.
pub proof fn default_layout_is_bounded(max_connections: usize, result: Result<
    BufferLayout,
    SetupError,
>)
    requires
        max_connections > 0,
        laid_out(None, None, max_connections, result),
    ensures
        result matches Ok(layout) && layout.spec_recv_slots() <= DEFAULT_STAGED_RECORDS + 1
            && layout.spec_send_slots() <= DEFAULT_CIPHERTEXT_SLOTS,
{
    let recv = budget(None, DEFAULT_STAGED_RECORDS, max_connections) + 1;
    let send = budget(None, DEFAULT_CIPHERTEXT_SLOTS, max_connections);
    assert(recv * MAX_TLS_RECORD <= 65 * MAX_TLS_RECORD) by (nonlinear_arith)
        requires
            recv <= 65,
    ;
    assert(send * TLS_STAGING_CAP <= 128 * TLS_STAGING_CAP) by (nonlinear_arith)
        requires
            send <= 128,
    ;
    assert(payload(recv, send) <= usize::MAX);
}

/// A layout keeps to its budgets: one receive buffer beside those for the records that may
/// be held, and as many send buffers as connections may hold outbound bytes, but never more
/// of either than there are connections. More connections never get fewer buffers.
pub proof fn layout_keeps_to_its_budgets(
    staged_records: Option<usize>,
    ciphertext_slots: Option<usize>,
    fewer: usize,
    max_connections: usize,
    less: BufferLayout,
    layout: BufferLayout,
)
    requires
        fewer <= max_connections,
        laid_out(staged_records, ciphertext_slots, fewer, Ok(less)),
        laid_out(staged_records, ciphertext_slots, max_connections, Ok(layout)),
    ensures
        1 <= layout.spec_recv_slots() <= max_connections + 1,
        1 <= layout.spec_send_slots() <= max_connections,
        staged_records matches Some(records) ==> layout.spec_recv_slots() <= records + 1 && (
        records <= max_connections ==> layout.spec_recv_slots() == records + 1),
        ciphertext_slots matches Some(slots) ==> layout.spec_send_slots() <= slots && (slots
            <= max_connections ==> layout.spec_send_slots() == slots),
        less.spec_recv_slots() <= layout.spec_recv_slots(),
        less.spec_send_slots() <= layout.spec_send_slots(),
{
}

/// The configuration of an endpoint.
pub struct Configuration<R: Protocol> {
    pub(crate) role: R::Config,
    pub(crate) staged_records: Option<usize>,
    pub(crate) ciphertext_slots: Option<usize>,
}

impl<R: Protocol> Configuration<R> {
    pub closed spec fn spec_role(self) -> R::Config {
        self.role
    }

    pub closed spec fn spec_staged_records(self) -> Option<usize> {
        self.staged_records
    }

    pub closed spec fn spec_ciphertext_slots(self) -> Option<usize> {
        self.ciphertext_slots
    }

    /// A configuration with the default budgets.
    pub fn from_role(role: R::Config) -> (configuration: Self)
        ensures
            configuration.spec_role() == role,
            configuration.spec_staged_records() is None,
            configuration.spec_ciphertext_slots() is None,
    {
        Configuration { role, staged_records: None, ciphertext_slots: None }
    }

    /// Bounds the received records that are held. One more buffer is kept for the
    /// record that is being put together.
    pub fn with_staged_record_budget(self, records: usize) -> (configuration: Self)
        ensures
            configuration.spec_role() == self.spec_role(),
            configuration.spec_staged_records() == Some(records),
            configuration.spec_ciphertext_slots() == self.spec_ciphertext_slots(),
    {
        Configuration {
            role: self.role,
            staged_records: Some(records),
            ciphertext_slots: self.ciphertext_slots,
        }
    }

    /// Bounds the connections that hold outbound bytes at the same time.
    pub fn with_ciphertext_budget(self, slots: usize) -> (configuration: Self)
        ensures
            configuration.spec_role() == self.spec_role(),
            configuration.spec_staged_records() == self.spec_staged_records(),
            configuration.spec_ciphertext_slots() == Some(slots),
    {
        Configuration {
            role: self.role,
            staged_records: self.staged_records,
            ciphertext_slots: Some(slots),
        }
    }

    /// The layout that the budgets come to.
    pub fn buffer_layout(&self, max_connections: usize) -> (result: Result<
        BufferLayout,
        SetupError,
    >)
        ensures
            laid_out(
                self.spec_staged_records(),
                self.spec_ciphertext_slots(),
                max_connections,
                result,
            ),
    {
        buffer_layout(self.staged_records, self.ciphertext_slots, max_connections)
    }

    /// The configuration of the role alone.
    pub fn into_role(self) -> (role: R::Config)
        ensures
            role == self.spec_role(),
    {
        self.role
    }
}

impl Configuration<Client> {
    /// The configuration of a client, with the default budgets.
    pub fn from_plan(plan: ClientPlan) -> (configuration: Self)
        ensures
            configuration.spec_role() == plan,
            configuration.spec_staged_records() is None,
            configuration.spec_ciphertext_slots() is None,
    {
        Configuration::from_role(plan)
    }
}

/// The buffers of an endpoint.
pub struct BufferPools {
    pub layout: BufferLayout,
    pub recv: Pool,
    pub send: Pool,
}

impl BufferPools {
    /// That the buffers are as the layout says.
    pub open spec fn wf(self) -> bool {
        &&& self.layout.wf()
        &&& buffer::pool_capacity(self.recv) == MAX_TLS_RECORD
        &&& buffer::pool_capacity(self.send) == TLS_STAGING_CAP
        &&& buffer::pool_slots(self.recv) == self.layout.spec_recv_slots()
        &&& buffer::pool_slots(self.send) == self.layout.spec_send_slots()
    }

    /// Allocates the buffers of a layout.
    fn try_new(layout: BufferLayout) -> (result: Result<Self, SetupError>)
        requires
            layout.wf(),
        ensures
            match result {
                Ok(pools) => pools.layout == layout && pools.wf() && pools_refusal(layout) is None,
                Err(SetupError::Buffers(error)) => pools_refusal(layout) == Some(error),
                Err(_) => false,
            },
    {
        let recv = match Pool::try_new(layout.recv_slots(), layout.recv_capacity()) {
            Ok(pool) => pool,
            Err(error) => return Err(SetupError::Buffers(error)),
        };
        let send = match Pool::try_new(layout.send_slots(), layout.send_capacity()) {
            Ok(pool) => pool,
            Err(error) => return Err(SetupError::Buffers(error)),
        };
        Ok(BufferPools { layout, recv, send })
    }

    /// How many buffers are free at the moment.
    pub fn usage(&self) -> (usage: BufferUsage)
        ensures
            buffer::pool_frees(self.recv, usage.spec_recv() as nat),
            buffer::pool_frees(self.send, usage.spec_send() as nat),
            usage.spec_recv() <= buffer::pool_slots(self.recv),
            usage.spec_send() <= buffer::pool_slots(self.send),
    {
        BufferUsage::new(self.recv.available(), self.send.available())
    }
}

/// Why the buffers of a layout cannot be allocated, where that is so.
pub open spec fn pools_refusal(layout: BufferLayout) -> Option<LayoutError> {
    match buffer::pool_refusal(layout.spec_recv_slots() as nat, MAX_TLS_RECORD as nat) {
        Some(error) => Some(error),
        None => buffer::pool_refusal(layout.spec_send_slots() as nat, TLS_STAGING_CAP as nat),
    }
}

/// Why buffers of a layout cannot be bound, where that is so: they are there with another
/// layout, or cannot be allocated.
pub open spec fn binding_refusal(
    buffers: Option<BufferPools>,
    layout: BufferLayout,
) -> Option<SetupError> {
    match buffers {
        Some(pools) => if pools.layout == layout {
            None
        } else {
            Some(SetupError::OtherLayout)
        },
        None => match pools_refusal(layout) {
            Some(error) => Some(SetupError::Buffers(error)),
            None => None,
        },
    }
}

/// What the sessions of an endpoint are kept in, and the buffers that they share.
pub struct SessionStorage<R: Protocol> {
    pub role: R::Storage,
    pub buffers: Option<BufferPools>,
}

/// The layout that buffers were bound to.
pub open spec fn bound_layout(buffers: Option<BufferPools>) -> Option<BufferLayout> {
    match buffers {
        Some(pools) => Some(pools.layout),
        None => None,
    }
}

impl<R: Protocol> SessionStorage<R> {
    /// That the buffers are as their layout says.
    pub open spec fn wf(self) -> bool {
        self.buffers matches Some(pools) ==> pools.wf()
    }

    /// Room for so many sessions, which have to fit in 32 bits. Binding an endpoint
    /// allocates the sessions and the buffers.
    pub fn try_with_capacity(capacity: usize) -> (result: Result<Self, SetupError>)
        ensures
            match result {
                Ok(storage) => capacity <= u32::MAX && storage.wf() && R::unbound(storage.role)
                    && R::holds(storage.role, capacity as nat) && storage.buffers is None,
                Err(error) => capacity > u32::MAX && (error matches SetupError::Sessions(refused)
                    && slots_refused(refused) == capacity),
            },
    {
        match R::storage(capacity) {
            Ok(role) => Ok(Self::from_role(role)),
            Err(error) => Err(error),
        }
    }

    /// What the sessions of a side are kept in. Buffers come with an endpoint.
    pub fn from_role(role: R::Storage) -> (storage: Self)
        ensures
            storage.wf(),
            storage.role == role,
            storage.buffers is None,
    {
        SessionStorage { role, buffers: None }
    }

    /// Sees to it that the buffers of a layout are there. They are allocated once:
    /// a storage that has them keeps them, and takes no other layout.
    pub fn bind_buffers(&mut self, layout: BufferLayout) -> (result: Result<(), SetupError>)
        requires
            old(self).wf(),
            layout.wf(),
        ensures
            final(self).wf(),
            final(self).role == old(self).role,
            match bound_layout(old(self).buffers) {
                Some(bound) => final(self).buffers == old(self).buffers && result == if bound
                    == layout {
                    Ok::<(), SetupError>(())
                } else {
                    Err::<(), SetupError>(SetupError::OtherLayout)
                },
                None => match pools_refusal(layout) {
                    None => result is Ok && bound_layout(final(self).buffers) == Some(layout),
                    Some(error) => result == Err::<(), SetupError>(SetupError::Buffers(error))
                        && final(self).buffers is None,
                },
            },
    {
        match &self.buffers {
            Some(pools) => {
                if pools.layout == layout {
                    return Ok(());
                }
                return Err(SetupError::OtherLayout);
            },
            None => {},
        }
        match BufferPools::try_new(layout) {
            Ok(pools) => {
                self.buffers = Some(pools);
                Ok(())
            },
            Err(error) => Err(error),
        }
    }
}

} // verus!
