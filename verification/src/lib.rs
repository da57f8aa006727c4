//! An entity-component store whose bookkeeping is verified: generational indices, sparse
//! sets, the registry of entities and component containers, the entity hierarchy, and the
//! planning of system runs.

pub mod containers;
pub mod ecs;
mod foreign;
pub mod query;
pub mod world;

pub use containers::GenerationalIndex;
pub use containers::global::GlobalContainer;
pub use containers::sparse_set::SparseSet;
pub use containers::{DynEcsContainer, DynEcsEntityContainer, EcsContainer, EcsEntityContainer, EcsGlobalContainer};
pub use ecs::{DynHandle, DynResource, Entity, Handle, IdCounter, MetaHandle, Res, TreeOrder};
pub use query::{shortest_at, Downgrade, Global, GlobalMut, IntoSystemDyn, NonExistent, ParamSource, SystemFn, SystemPlan};
pub use world::{Registry, Relation};
