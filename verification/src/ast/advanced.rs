//! Pools layered on a shared global pool: a context pool shared between threads, and local pools
//! on top of it.

use std::sync::Arc;
use vstd::prelude::*;

use crate::ast::pool::PrimitivePool;

verus! {

/// A pool with a shared context pool and a shared, immutable global pool.
pub struct ContextPool {
    /// The global pool, shared by every context pool made from it.
    pub global_pool: Arc<PrimitivePool>,
    /// The context's own pool, shared by the local pools layered on this context.
    pub inner: Arc<PrimitivePool>,
}

impl ContextPool {
    /// A context pool with a fresh, empty global pool and a fresh, empty inner pool.
    pub fn new() -> (p: ContextPool)
        ensures
            p.global_pool.wf(),
            p.global_pool.size() == 0,
            p.inner.wf(),
            p.inner.size() == 0,
    {
        ContextPool { global_pool: Arc::new(PrimitivePool::new()), inner: Arc::new(PrimitivePool::new()) }
    }

    /// A context pool that shares the given global pool, with a fresh, empty inner pool.
    pub fn from_global(global_pool: &Arc<PrimitivePool>) -> (p: ContextPool)
        ensures
            p.global_pool == *global_pool,
            p.inner.wf(),
            p.inner.size() == 0,
    {
        ContextPool { global_pool: global_pool.clone(), inner: Arc::new(PrimitivePool::new()) }
    }

    /// A context pool sharing the global and inner pools of this one.
    pub fn share(&self) -> (p: ContextPool)
        ensures
            p.global_pool == self.global_pool,
            p.inner == self.inner,
    {
        ContextPool { global_pool: self.global_pool.clone(), inner: self.inner.clone() }
    }
}

/// A thread-local pool, layered on a shared [`ContextPool`].
pub struct LocalPool {
    /// The context pool this pool is layered on.
    pub ctx_pool: ContextPool,
    /// The thread's own pool.
    pub inner: PrimitivePool,
}

impl LocalPool {
    /// A local pool on a fresh context pool, with a fresh, empty thread-local pool.
    pub fn new() -> (p: LocalPool)
        ensures
            p.ctx_pool.global_pool.wf(),
            p.ctx_pool.global_pool.size() == 0,
            p.ctx_pool.inner.wf(),
            p.ctx_pool.inner.size() == 0,
            p.inner.wf(),
            p.inner.size() == 0,
    {
        LocalPool { ctx_pool: ContextPool::new(), inner: PrimitivePool::new() }
    }

    /// A local pool layered on the given context pool, sharing its global and context pools,
    /// with a fresh, empty thread-local pool.
    pub fn from_previous(ctx_pool: &ContextPool) -> (p: LocalPool)
        ensures
            p.ctx_pool.global_pool == ctx_pool.global_pool,
            p.ctx_pool.inner == ctx_pool.inner,
            p.inner.wf(),
            p.inner.size() == 0,
    {
        LocalPool { ctx_pool: ctx_pool.share(), inner: PrimitivePool::new() }
    }
}

} // verus!
